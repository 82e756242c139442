use tree_struct::{BaseNode, IdSource};

#[derive(Debug, Clone, PartialEq)]
enum Part {
    A(String),
    B(u8),
}

/// Every operation of a node's view can be called on the root and on a node
/// below it.
#[test]
fn node_impl() {
    let mut ids = IdSource::new();
    let tree = BaseNode::builder(Part::A(String::from("hiiii")))
        .child(BaseNode::builder(Part::B(4)))
        .child(BaseNode::builder(Part::B(2)))
        .build(&mut ids)
        .unwrap();

    let root = tree.root();
    assert!(root.parent().is_none());
    assert_eq!(root.children().len(), 2);
    assert!(root.next_sibling().is_none());
    assert!(root.prev_sibling().is_none());
    assert_eq!(*root.content(), Part::A(String::from("hiiii")));
    assert!(root.iter_bfs().next().is_some());
    assert!(root.iter_dfs().next().is_some());
    assert!(root.is_same_as(root.ptr()));

    let left = root.child(0).unwrap();
    assert!(left.parent().unwrap().is_same_as(root.ptr()));
    assert!(left.children().is_empty());
    assert_eq!(*left.next_sibling().unwrap().content(), Part::B(2));
    assert!(left.prev_sibling().is_none());
    assert_eq!(*left.content(), Part::B(4));
    assert!(left.iter_bfs().next().is_some());
    assert!(left.iter_dfs().next().is_some());
    assert!(left.is_same_as(left.ptr()));
    assert!(!left.is_same_as(root.ptr()));
}
