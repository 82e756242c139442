use tree_struct::{BaseNode, IdSource, NodeBuilder, NodeRef, Tree, TreeError};

fn node(content: &'static str) -> NodeBuilder<&'static str> {
    BaseNode::builder(content)
}

/// parent
/// ├── child a
/// │   └── child d
/// ├── child b
/// └── child c
fn sample(ids: &mut IdSource) -> Tree<&'static str> {
    node("parent")
        .child(node("child a").child(node("child d")))
        .child(node("child b"))
        .child(node("child c"))
        .build(ids)
        .unwrap()
}

fn preorder(tree: &Tree<&'static str>) -> Vec<&'static str> {
    let mut seen = Vec::new();
    let mut it = tree.iter_dfs();
    while let Some(n) = it.next() {
        seen.push(*n.content());
    }
    seen
}

fn refs(tree: &Tree<&'static str>) -> Vec<NodeRef> {
    let mut seen = Vec::new();
    let mut it = tree.iter_dfs();
    while let Some(n) = it.next() {
        seen.push(n.ptr());
    }
    seen
}

fn find(tree: &Tree<&'static str>, content: &str) -> NodeRef {
    let mut it = tree.iter_bfs();
    while let Some(n) = it.next() {
        if *n.content() == content {
            return n.ptr();
        }
    }
    panic!("no node holds {content}");
}

/// The root has no parent, every other node is found once among the
/// children of its parent, and the way from parent to parent ends at the
/// root.
fn assert_parents_are_sound(tree: &Tree<&'static str>) {
    let root = tree.root();
    assert!(root.parent().is_none());
    let all = refs(tree);
    for (i, a) in all.iter().enumerate() {
        for b in &all[i + 1..] {
            assert_ne!(a, b);
        }
    }
    for r in &all {
        let n = tree.get(*r).unwrap();
        if n.is_same_as(root.ptr()) {
            continue;
        }
        let parent = n.parent().unwrap();
        let among = parent.children().iter().filter(|c| c.is_same_as(*r)).count();
        assert_eq!(among, 1);
        let mut steps = 0;
        let mut at = parent;
        while let Some(up) = at.parent() {
            assert!(!up.is_same_as(*r));
            at = up;
            steps += 1;
            assert!(steps <= all.len());
        }
        assert!(at.is_same_as(root.ptr()));
    }
}

#[test]
fn a_built_tree_has_the_described_arrangement() {
    let mut ids = IdSource::new();
    let tree = sample(&mut ids);
    assert_eq!(preorder(&tree), vec!["parent", "child a", "child d", "child b", "child c"]);
    assert_eq!(tree.root().child_count(), 3);
    assert_eq!(tree.root().children()[0].child_count(), 1);
    assert!(tree.root().child(3).is_none());
    assert_parents_are_sound(&tree);
}

#[test]
fn a_builder_may_be_written_as_a_value() {
    let mut ids = IdSource::new();
    let chained = node("parent")
        .child(node("child a"))
        .child(node("child b").child(node("child c")))
        .build(&mut ids)
        .unwrap();
    let written = NodeBuilder {
        content: "parent",
        children: vec![
            NodeBuilder { content: "child a", children: vec![] },
            NodeBuilder {
                content: "child b",
                children: vec![NodeBuilder { content: "child c", children: vec![] }],
            },
        ],
    }
    .build(&mut ids)
    .unwrap();
    assert_eq!(chained, written);
    assert!(chained.structurally_eq(&written));
}

#[test]
fn building_issues_one_reference_for_each_node() {
    let mut ids = IdSource::new();
    assert_eq!(ids.remaining(), u64::MAX);
    let tree = sample(&mut ids);
    assert_eq!(ids.remaining(), u64::MAX - 5);
    let other = sample(&mut ids);
    assert_eq!(ids.remaining(), u64::MAX - 10);
    for r in refs(&tree) {
        assert!(other.get(r).is_none());
    }
}

#[test]
fn detaching_and_attaching_elsewhere_keeps_the_node() {
    let mut ids = IdSource::new();
    let mut tree = sample(&mut ids);
    let a = find(&tree, "child a");
    let d = find(&tree, "child d");
    let c = find(&tree, "child c");

    let detached = tree.detach_descendant(a).unwrap();
    assert!(detached.root().is_same_as(a));
    assert_eq!(preorder(&detached), vec!["child a", "child d"]);
    assert!(detached.root().child(0).unwrap().is_same_as(d));
    assert_eq!(preorder(&tree), vec!["parent", "child b", "child c"]);
    assert!(tree.root().children().iter().all(|child| !child.is_same_as(a)));
    assert_parents_are_sound(&tree);
    assert_parents_are_sound(&detached);

    tree.append_child(c, detached).unwrap();
    let back = tree.get(a).unwrap();
    assert_eq!(*back.content(), "child a");
    assert!(back.parent().unwrap().is_same_as(c));
    assert!(back.child(0).unwrap().is_same_as(d));
    assert_eq!(preorder(&tree), vec!["parent", "child b", "child c", "child a", "child d"]);
    assert_parents_are_sound(&tree);
}

#[test]
fn the_parents_stay_sound_through_a_run_of_changes() {
    let mut ids = IdSource::new();
    let mut tree = sample(&mut ids);
    let mut spare: Vec<Tree<&'static str>> = Vec::new();
    let names = ["child a", "child b", "child c", "child d"];
    for round in 0..12 {
        let name = names[round % names.len()];
        let all = refs(&tree);
        let target = all.iter().copied().find(|r| *tree.get(*r).unwrap().content() == name);
        match target {
            Some(r) => {
                spare.push(tree.detach_descendant(r).unwrap());
            },
            None => {
                let position = spare.iter().position(|t| *t.root().content() == name);
                if let Some(p) = position {
                    let sub = spare.remove(p);
                    let at = all[round % all.len()];
                    if round % 2 == 0 {
                        tree.append_child(at, sub).unwrap();
                    } else {
                        tree.insert_child(at, sub, 0).unwrap();
                    }
                }
            },
        }
        assert_parents_are_sound(&tree);
        for t in &spare {
            assert_parents_are_sound(t);
        }
    }
}

#[test]
fn a_reference_into_a_detached_subtree_is_stale_in_what_is_left() {
    let mut ids = IdSource::new();
    let mut tree = sample(&mut ids);
    let a = find(&tree, "child a");
    let d = find(&tree, "child d");
    let before = preorder(&tree).len();

    let detached = tree.detach_descendant(a).unwrap();
    assert_eq!(preorder(&tree).len() + preorder(&detached).len(), before);

    assert!(tree.detach_descendant(a).is_none());
    assert!(tree.borrow_descendant(a).is_none());
    assert!(tree.detach_descendant(d).is_none());
    assert!(tree.borrow_descendant(d).is_none());
    assert!(tree.get(a).is_none());
    assert!(tree.get(d).is_none());
    assert!(!tree.is_descendant(a));
    assert!(!tree.is_descendant(d));
    assert_eq!(preorder(&tree), vec!["parent", "child b", "child c"]);

    // The references still lead into the tree that holds the nodes now.
    let mut detached = detached;
    assert!(detached.get(a).is_some());
    assert!(detached.borrow_descendant(d).is_some());

    // And they stay stale when the nodes are gone for good.
    drop(detached);
    assert!(tree.detach_descendant(a).is_none());
    assert!(tree.borrow_descendant(d).is_none());
}

#[test]
fn the_root_is_no_descendant() {
    let mut ids = IdSource::new();
    let mut tree = sample(&mut ids);
    let root = tree.root().ptr();
    assert!(!tree.is_descendant(root));
    assert!(tree.detach_descendant(root).is_none());
    assert!(tree.borrow_descendant(root).is_none());
    assert!(tree.root_mut().is_same_as(root));
    assert!(tree.root_mut().detach().is_none());
    assert_eq!(preorder(&tree).len(), 5);
}

#[test]
fn a_reference_of_an_unrelated_tree_names_nothing() {
    let mut ids = IdSource::new();
    let mut tree = sample(&mut ids);
    let other = sample(&mut ids);
    let foreign = find(&other, "child b");
    assert!(tree.get(foreign).is_none());
    assert!(tree.detach_descendant(foreign).is_none());
    assert!(tree.borrow_descendant(foreign).is_none());
    assert_eq!(tree.replace_content(foreign, "x"), Err("x"));
    let extra = node("extra").build(&mut ids).unwrap();
    let rejected = tree.append_child(foreign, extra).unwrap_err();
    assert_eq!(rejected.reason, TreeError::NotADescendant);
    assert_eq!(*rejected.tree.root().content(), "extra");
    assert_eq!(preorder(&tree).len(), 5);
}

#[test]
fn a_deep_clone_is_equal_and_independent() {
    let mut ids = IdSource::new();
    let tree = sample(&mut ids);
    let mut clone = tree.clone_deep(&mut ids).unwrap();

    assert_eq!(clone, tree);
    assert!(clone.structurally_eq(&tree));
    assert!(clone.root().parent().is_none());
    assert_eq!(preorder(&clone), preorder(&tree));
    for r in refs(&clone) {
        assert!(tree.get(r).is_none());
    }

    let d = find(&clone, "child d");
    assert_eq!(clone.borrow_descendant(d).unwrap().replace_content("changed"), Ok("child d"));
    assert_eq!(clone.root_mut().replace_content("root"), Ok("parent"));
    assert_eq!(preorder(&clone), vec!["root", "child a", "changed", "child b", "child c"]);
    assert_eq!(preorder(&tree), vec!["parent", "child a", "child d", "child b", "child c"]);
    assert!(!clone.structurally_eq(&tree));
    assert_ne!(clone, tree);
}

#[test]
fn a_shallow_clone_is_a_single_node() {
    let mut ids = IdSource::new();
    let tree = sample(&mut ids);
    let a = tree.root().child(0).unwrap();
    let clone = a.clone_shallow(&mut ids).unwrap();
    assert_eq!(*clone.root().content(), "child a");
    assert_eq!(clone.root().child_count(), 0);
    assert!(clone.root().parent().is_none());
    assert!(!clone.root().is_same_as(a.ptr()));
    assert_eq!(clone.root(), a);
    assert!(!clone.root().structurally_eq(&a));
}

#[test]
fn the_first_and_the_last_child_have_one_neighbour() {
    let mut ids = IdSource::new();
    let tree = sample(&mut ids);
    let root = tree.root();
    let kids = root.children();

    assert!(kids[0].prev_sibling().is_none());
    assert!(kids[0].next_sibling().unwrap().is_same_as(kids[1].ptr()));
    assert!(kids[1].prev_sibling().unwrap().is_same_as(kids[0].ptr()));
    assert!(kids[1].next_sibling().unwrap().is_same_as(kids[2].ptr()));
    assert!(kids[2].prev_sibling().unwrap().is_same_as(kids[1].ptr()));
    assert!(kids[2].next_sibling().is_none());

    assert!(root.prev_sibling().is_none());
    assert!(root.next_sibling().is_none());

    // An only child is first and last.
    let d = kids[0].child(0).unwrap();
    assert!(d.prev_sibling().is_none());
    assert!(d.next_sibling().is_none());
}

#[test]
fn siblings_are_told_apart_by_identity() {
    let mut ids = IdSource::new();
    let tree = node("parent").child(node("twin")).child(node("twin")).build(&mut ids).unwrap();
    let kids = tree.root().children();
    assert_eq!(kids[0], kids[1]);
    assert!(!kids[0].is_same_as(kids[1].ptr()));
    assert!(kids[0].next_sibling().unwrap().is_same_as(kids[1].ptr()));
    assert!(kids[1].prev_sibling().unwrap().is_same_as(kids[0].ptr()));
    assert!(kids[1].next_sibling().is_none());
}

#[test]
fn trees_built_alike_are_equal_and_not_the_same() {
    let mut ids = IdSource::new();
    let one = BaseNode::builder("x").child(BaseNode::builder("y")).build(&mut ids).unwrap();
    let two = BaseNode::builder("x").child(BaseNode::builder("y")).build(&mut ids).unwrap();
    assert_eq!(one, two);
    assert!(one.structurally_eq(&two));
    assert!(one.root().structurally_eq(&two.root()));
    assert!(!one.root().is_same_as(two.root().ptr()));
    assert!(!one.root().child(0).unwrap().is_same_as(two.root().child(0).unwrap().ptr()));
}

#[test]
fn equality_of_trees_looks_at_the_roots() {
    let mut ids = IdSource::new();
    let one = node("x").child(node("y")).build(&mut ids).unwrap();
    let two = node("x").child(node("z")).build(&mut ids).unwrap();
    let three = node("w").child(node("y")).build(&mut ids).unwrap();
    assert_eq!(one, two);
    assert_ne!(one, three);
    assert!(!one.structurally_eq(&two));
    assert!(!one.structurally_eq(&three));
    let bare = node("x").build(&mut ids).unwrap();
    assert!(!one.structurally_eq(&bare));
    assert!(!bare.structurally_eq(&one));
}

#[test]
fn a_child_is_inserted_at_its_position() {
    let mut ids = IdSource::new();
    let mut tree = sample(&mut ids);
    let root = tree.root().ptr();
    let a = find(&tree, "child a");

    tree.insert_child(root, node("first").build(&mut ids).unwrap(), 0).unwrap();
    tree.insert_child(root, node("middle").build(&mut ids).unwrap(), 2).unwrap();
    tree.insert_child(root, node("last").build(&mut ids).unwrap(), 5).unwrap();
    tree.borrow_descendant(a).unwrap().insert_child(node("before d").build(&mut ids).unwrap(), 0).unwrap();
    assert_eq!(
        preorder(&tree),
        vec![
            "parent", "first", "child a", "before d", "child d", "middle", "child b", "child c",
            "last"
        ]
    );
    let inserted = find(&tree, "before d");
    assert!(tree.get(inserted).unwrap().parent().unwrap().is_same_as(a));
}

#[test]
fn a_position_behind_the_end_is_refused() {
    let mut ids = IdSource::new();
    let mut tree = sample(&mut ids);
    let root = tree.root().ptr();
    let b = find(&tree, "child b");

    let rejected = tree.insert_child(root, node("late").build(&mut ids).unwrap(), 4).unwrap_err();
    assert_eq!(rejected.reason, TreeError::IndexOutOfRange);
    assert_eq!(*rejected.tree.root().content(), "late");
    let rejected = tree.insert_child(b, rejected.tree, 1).unwrap_err();
    assert_eq!(rejected.reason, TreeError::IndexOutOfRange);
    assert_eq!(preorder(&tree), vec!["parent", "child a", "child d", "child b", "child c"]);

    // The tree that was handed back can still be attached.
    tree.insert_child(b, rejected.tree, 0).unwrap();
    assert_eq!(preorder(&tree), vec!["parent", "child a", "child d", "child b", "late", "child c"]);
}

#[test]
fn a_tree_with_a_reference_that_is_taken_is_refused() {
    let mut mine = IdSource::new();
    let mut theirs = IdSource::new();
    let mut tree = sample(&mut mine);
    let root = tree.root().ptr();

    // A second source issues the references of the first again.
    let stranger = node("stranger").build(&mut theirs).unwrap();
    assert!(stranger.root().is_same_as(root));
    let rejected = tree.append_child(root, stranger).unwrap_err();
    assert_eq!(rejected.reason, TreeError::AlreadyAttached);
    assert_eq!(*rejected.tree.root().content(), "stranger");
    let rejected = tree.root_mut().insert_child(rejected.tree, 0).unwrap_err();
    assert_eq!(rejected.reason, TreeError::AlreadyAttached);
    assert_eq!(preorder(&tree), vec!["parent", "child a", "child d", "child b", "child c"]);
    assert_parents_are_sound(&tree);

    // The reasons come in a fixed order: the target, the position, the references.
    let unknown = node("unknown").build(&mut mine).unwrap().root().ptr();
    let rejected = tree.insert_child(unknown, rejected.tree, 9).unwrap_err();
    assert_eq!(rejected.reason, TreeError::NotADescendant);
    let rejected = tree.insert_child(root, rejected.tree, 9).unwrap_err();
    assert_eq!(rejected.reason, TreeError::IndexOutOfRange);
}

#[test]
fn a_content_is_replaced_in_one_node_only() {
    let mut ids = IdSource::new();
    let mut tree = sample(&mut ids);
    let d = find(&tree, "child d");
    assert_eq!(tree.replace_content(d, "grandchild"), Ok("child d"));
    assert_eq!(preorder(&tree), vec!["parent", "child a", "grandchild", "child b", "child c"]);
    assert!(tree.get(d).unwrap().is_same_as(d));

    let mut view = tree.borrow_descendant(d).unwrap();
    assert_eq!(*view.as_node().unwrap().content(), "grandchild");
    assert_eq!(view.replace_content("again"), Ok("grandchild"));
    assert_eq!(view.ptr(), d);
    let gone = view.detach().unwrap();
    assert_eq!(*gone.root().content(), "again");

    // A view whose node has left the tree changes nothing.
    let mut view = tree.root_mut();
    view.at = d;
    assert!(view.as_node().is_none());
    assert_eq!(view.replace_content("lost"), Err("lost"));
    let rejected = view.append_child(gone).unwrap_err();
    assert_eq!(rejected.reason, TreeError::NotADescendant);
    assert_eq!(preorder(&tree), vec!["parent", "child a", "child b", "child c"]);
}

#[test]
fn a_view_of_a_node_leads_to_its_parent_and_children() {
    let mut ids = IdSource::new();
    let tree = sample(&mut ids);
    let a = tree.root().child(0).unwrap();
    let d = a.child(0).unwrap();
    assert!(d.parent().unwrap().is_same_as(a.ptr()));
    assert!(a.parent().unwrap().is_same_as(tree.root().ptr()));
    assert!(d.parent().unwrap().parent().unwrap().parent().is_none());
    assert_eq!(a.children().len(), 1);
    assert!(a.children()[0].is_same_as(d.ptr()));
    assert!(a.ref_clone().is_same_as(a.ptr()));
    assert!(tree.get(d.ptr()).unwrap().is_same_as(d.ptr()));
    assert!(tree.is_descendant(d.ptr()));
}

#[test]
fn records_are_made_with_their_parents() {
    let mut ids = IdSource::new();
    let made = tree_struct::make_node(
        None,
        node("parent").child(node("child a")).child(node("child b").child(node("child c"))),
        &mut ids,
    );
    assert_eq!(ids.remaining(), u64::MAX - 4);
    assert_eq!(made.content, "parent");
    assert_eq!(made.parent(), None);
    assert_eq!(made.children().len(), 2);
    let a = &made.children()[0];
    let b = &made.children()[1];
    assert_eq!(a.content, "child a");
    assert_eq!(b.content, "child b");
    assert_eq!(a.parent(), Some(made.ptr()));
    assert_eq!(b.parent(), Some(made.ptr()));
    assert_eq!(b.children().len(), 1);
    assert_eq!(b.children()[0].content, "child c");
    assert_eq!(b.children()[0].parent(), Some(b.ptr()));
    assert_ne!(a.ptr(), b.ptr());
    assert_ne!(a.ptr(), made.ptr());

    let under = made.ptr();
    let more = tree_struct::builders_to_node(under, vec![node("x"), node("y").child(node("z"))], &mut ids);
    assert_eq!(ids.remaining(), u64::MAX - 7);
    assert_eq!(more.len(), 2);
    assert_eq!(more[0].content, "x");
    assert_eq!(more[1].content, "y");
    assert_eq!(more[0].parent(), Some(under));
    assert_eq!(more[1].parent(), Some(under));
    assert_eq!(more[1].children()[0].content, "z");
    assert_eq!(more[1].children()[0].parent(), Some(more[1].ptr()));
    assert!(tree_struct::builders_to_node(under, Vec::<NodeBuilder<&str>>::new(), &mut ids).is_empty());
    assert_eq!(ids.remaining(), u64::MAX - 7);
}

#[test]
fn builders_start_from_a_content() {
    let mut ids = IdSource::new();
    let by_base = BaseNode::builder(1u8).build(&mut ids).unwrap();
    let by_tree = Tree::builder(1u8).build(&mut ids).unwrap();
    let by_node = tree_struct::Node::builder(1u8).build(&mut ids).unwrap();
    let by_new = NodeBuilder::new(1u8).build(&mut ids).unwrap();
    let by_default = NodeBuilder::<u8>::default().child(NodeBuilder::default()).build(&mut ids).unwrap();
    assert!(by_base.structurally_eq(&by_tree));
    assert!(by_base.structurally_eq(&by_node));
    assert!(by_base.structurally_eq(&by_new));
    assert_eq!(*by_default.root().content(), 0);
    assert_eq!(by_default.root().child_count(), 1);
    assert_eq!(*by_default.root().child(0).unwrap().content(), 0);
    let b = NodeBuilder::new("p").child(NodeBuilder::new("q"));
    assert_eq!(b.content, "p");
    assert_eq!(b.children.len(), 1);
    assert_eq!(b.children[0].content, "q");
}

#[test]
fn a_content_is_written_in_place() {
    let mut ids = IdSource::new();
    let mut tree = node("parent")
        .child(node("child a").child(node("child d").child(node("child e"))))
        .child(node("child b"))
        .build(&mut ids)
        .unwrap();
    let root = tree.root().ptr();
    let e = find(&tree, "child e");
    let b = find(&tree, "child b");

    let place = tree.content_mut(e).unwrap();
    assert_eq!(*place, "child e");
    *place = "deepest";
    *tree.content_mut(b).unwrap() = "second";
    *tree.content_mut(root).unwrap() = "top";
    assert_eq!(preorder(&tree), vec!["top", "child a", "child d", "deepest", "second"]);
    assert!(tree.get(e).unwrap().is_same_as(e));
    assert_parents_are_sound(&tree);

    let mut view = tree.borrow_descendant(e).unwrap();
    *view.content_mut().unwrap() = "through a view";
    assert_eq!(*view.as_node().unwrap().content(), "through a view");
    *tree.root_mut().content_mut().unwrap() = "root";
    assert_eq!(preorder(&tree), vec!["root", "child a", "child d", "through a view", "second"]);

    let gone = tree.detach_descendant(e).unwrap();
    assert!(tree.content_mut(e).is_none());
    let mut view = tree.root_mut();
    view.at = gone.root().ptr();
    assert!(view.content_mut().is_none());
    assert_eq!(preorder(&tree), vec!["root", "child a", "child d", "second"]);
}

#[test]
fn attaching_and_detaching_undo_each_other() {
    let mut ids = IdSource::new();
    let mut tree = sample(&mut ids);
    let untouched = tree.clone_deep(&mut ids).unwrap();
    let before = refs(&tree);
    let a = find(&tree, "child a");
    let b = find(&tree, "child b");

    // Detach the second child and put it back where it was.
    let detached = tree.detach_descendant(b).unwrap();
    assert!(!tree.structurally_eq(&untouched));
    tree.insert_child(tree.root().ptr(), detached, 1).unwrap();
    assert!(tree.structurally_eq(&untouched));
    assert_eq!(refs(&tree), before);

    // Attach a new subtree and take it out again.
    let extra = node("extra").child(node("more")).build(&mut ids).unwrap();
    let extra_root = extra.root().ptr();
    let extra_refs = refs(&extra);
    tree.insert_child(a, extra, 0).unwrap();
    assert!(!tree.structurally_eq(&untouched));
    let back = tree.detach_descendant(extra_root).unwrap();
    assert!(tree.structurally_eq(&untouched));
    assert_eq!(refs(&tree), before);
    assert_eq!(refs(&back), extra_refs);
    assert_eq!(preorder(&back), vec!["extra", "more"]);
}
