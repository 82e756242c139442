use tree_struct::{BaseNode, IdSource, IterBFS, IterDFS, Node, NodeBuilder, Tree};

fn node(content: char) -> NodeBuilder<char> {
    BaseNode::builder(content)
}

fn bfs_contents(tree: &Tree<char>) -> Vec<char> {
    let mut seen = Vec::new();
    let mut it = tree.iter_bfs();
    while let Some(n) = it.next() {
        seen.push(*n.content());
    }
    seen
}

fn dfs_contents(tree: &Tree<char>) -> Vec<char> {
    let mut seen = Vec::new();
    let mut it = tree.iter_dfs();
    while let Some(n) = it.next() {
        seen.push(*n.content());
    }
    seen
}

#[test]
fn breadth_first() {
    let mut ids = IdSource::new();
    let tree = node('a')
        .child(
            node('b')
                .child(node('d').child(node('h')).child(node('i')))
                .child(node('e').child(node('j')).child(node('k'))),
        )
        .child(
            node('c')
                .child(node('f').child(node('l')).child(node('m')))
                .child(node('g').child(node('n')).child(node('o'))),
        )
        .build(&mut ids)
        .unwrap();

    assert_eq!(
        bfs_contents(&tree),
        vec!['a', 'b', 'c', 'd', 'e', 'f', 'g', 'h', 'i', 'j', 'k', 'l', 'm', 'n', 'o']
    );
}

#[test]
fn depth_first() {
    let mut ids = IdSource::new();
    let tree = node('a')
        .child(
            node('b')
                .child(node('c').child(node('d')).child(node('e')))
                .child(node('f').child(node('g')).child(node('h'))),
        )
        .child(
            node('i')
                .child(node('j').child(node('k')).child(node('l')))
                .child(node('m').child(node('n')).child(node('o'))),
        )
        .build(&mut ids)
        .unwrap();

    assert_eq!(
        dfs_contents(&tree),
        vec!['a', 'b', 'c', 'd', 'e', 'f', 'g', 'h', 'i', 'j', 'k', 'l', 'm', 'n', 'o']
    );
}

fn small(ids: &mut IdSource) -> Tree<char> {
    node('a')
        .child(node('b').child(node('d')).child(node('e')))
        .child(node('c'))
        .build(ids)
        .unwrap()
}

#[test]
fn both_orders_of_a_small_tree() {
    let mut ids = IdSource::new();
    let tree = small(&mut ids);
    assert_eq!(bfs_contents(&tree), vec!['a', 'b', 'c', 'd', 'e']);
    assert_eq!(dfs_contents(&tree), vec!['a', 'b', 'd', 'e', 'c']);
}

#[test]
fn a_single_node_is_visited_once() {
    let mut ids = IdSource::new();
    let tree = node('x').build(&mut ids).unwrap();
    assert_eq!(bfs_contents(&tree), vec!['x']);
    assert_eq!(dfs_contents(&tree), vec!['x']);
}

#[test]
fn a_finished_traversal_stays_finished() {
    let mut ids = IdSource::new();
    let tree = small(&mut ids);
    let mut bfs = tree.iter_bfs();
    let mut dfs = tree.iter_dfs();
    for _ in 0..5 {
        assert!(bfs.next().is_some());
        assert!(dfs.next().is_some());
    }
    assert!(bfs.next().is_none());
    assert!(bfs.next().is_none());
    assert!(dfs.next().is_none());
    assert!(dfs.next().is_none());
    // A new traversal starts over.
    assert_eq!(bfs_contents(&tree), vec!['a', 'b', 'c', 'd', 'e']);
}

#[test]
fn a_traversal_may_start_at_any_node() {
    let mut ids = IdSource::new();
    let tree = small(&mut ids);
    let b: Node<char> = tree.root().child(0).unwrap();

    let mut seen = Vec::new();
    let mut it = IterBFS::new(b.ref_clone());
    while let Some(n) = it.next() {
        seen.push(*n.content());
    }
    assert_eq!(seen, vec!['b', 'd', 'e']);

    let mut seen = Vec::new();
    let mut it = IterDFS::new(b.ref_clone());
    while let Some(n) = it.next() {
        seen.push(*n.content());
    }
    assert_eq!(seen, vec!['b', 'd', 'e']);

    let mut seen = Vec::new();
    let mut it = b.iter_dfs();
    while let Some(n) = it.next() {
        seen.push(*n.content());
    }
    assert_eq!(seen, vec!['b', 'd', 'e']);
}

#[test]
fn a_reference_found_by_a_traversal_leads_back_into_the_tree() {
    let mut ids = IdSource::new();
    let mut tree = small(&mut ids);

    let mut found = None;
    let mut it = tree.iter_bfs();
    while let Some(n) = it.next() {
        if *n.content() == 'd' {
            found = Some(n.ptr());
        }
    }
    let target = found.unwrap();

    let mut view = tree.borrow_descendant(target).unwrap();
    assert!(view.is_same_as(target));
    assert_eq!(view.replace_content('D'), Ok('d'));
    assert_eq!(bfs_contents(&tree), vec!['a', 'b', 'c', 'D', 'e']);

    let detached = tree.detach_descendant(target).unwrap();
    assert_eq!(*detached.root().content(), 'D');
    assert_eq!(dfs_contents(&tree), vec!['a', 'b', 'e', 'c']);
}
