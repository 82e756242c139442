use tree_struct::{BaseNode, IdSource, Node, NodeBuilder, Tree};

fn node(content: &'static str) -> NodeBuilder<&'static str> {
    BaseNode::builder(content)
}

fn build(builder: NodeBuilder<&'static str>, ids: &mut IdSource) -> Tree<&'static str> {
    builder.build(ids).unwrap()
}

#[test]
fn siblings() {
    let mut ids = IdSource::new();
    let root = build(
        node("parent").child(node("child a")).child(node("child b")).child(node("child c")),
        &mut ids,
    );
    let child_a = build(node("child a"), &mut ids);
    let child_b = build(node("child b"), &mut ids);
    let child_c = build(node("child c"), &mut ids);

    // Siblings of "child a"
    let target: Node<&str> = root.root().children()[0].ref_clone();
    assert!(target.prev_sibling().is_none());
    assert_eq!(child_b.root(), target.next_sibling().unwrap());
    // Siblings of "child b"
    let target = root.root().children()[1].ref_clone();
    assert_eq!(child_a.root(), target.prev_sibling().unwrap());
    assert_eq!(child_c.root(), target.next_sibling().unwrap());
    // Siblings of "child c"
    let target = root.root().children()[2].ref_clone();
    assert_eq!(child_b.root(), target.prev_sibling().unwrap());
    assert!(target.next_sibling().is_none());
}

#[test]
fn clone() {
    let mut ids = IdSource::new();
    let root = build(
        node("parent")
            .child(node("child a"))
            .child(node("child b").child(node("child d")))
            .child(node("child c")),
        &mut ids,
    );

    let target = root.root().children()[1].ref_clone(); // "child b"

    // Regular clone
    let clone = target.clone_shallow(&mut ids).unwrap();
    assert!(!clone.root().is_same_as(target.ptr()));
    assert_eq!(clone.root(), target);
    assert!(clone.root().parent().is_none());
    assert!(clone.root().children().is_empty());

    // Deep clone
    let clone = target.clone_deep(&mut ids).unwrap();
    assert!(!clone.root().is_same_as(target.ptr()));
    assert_eq!(clone.root(), target);
    assert!(clone.root().parent().is_none());
    assert!(clone.root().structurally_eq(&target));
}

#[test]
fn detach() {
    let mut ids = IdSource::new();
    let mut root = build(
        node("parent")
            .child(node("child a").child(node("child d")))
            .child(node("child b"))
            .child(node("child c")),
        &mut ids,
    );

    let target = root.root().children()[2].ptr();
    let detached = root.detach_descendant(target).unwrap();
    assert!(detached.root().is_same_as(target));
    assert_eq!(detached, build(node("child c"), &mut ids));
    assert!(detached.structurally_eq(&build(node("child c"), &mut ids)));

    let target = root.root().children()[0].children()[0].ptr();
    let detached = root.detach_descendant(target).unwrap();
    assert!(detached.root().is_same_as(target));
    assert_eq!(detached, build(node("child d"), &mut ids));
    assert!(detached.structurally_eq(&build(node("child d"), &mut ids)));

    let expected = build(node("parent").child(node("child a")).child(node("child b")), &mut ids);
    assert_eq!(root, expected);
    assert!(root.structurally_eq(&expected));
}

#[test]
fn append_child() {
    let mut ids = IdSource::new();
    let mut root = build(
        node("parent")
            .child(node("child a"))
            .child(node("child b").child(node("child d")))
            .child(node("child c")),
        &mut ids,
    );

    // -- Append a new node.
    let new = build(node("child e"), &mut ids);
    root.root_mut().append_child(new).unwrap();
    assert_eq!(*root.root().children().last().unwrap().content(), "child e");

    // -- Append a node that was already in the tree.
    let target = root.root().children()[1].children()[0].ptr();
    let detached = root.detach_descendant(target).unwrap();
    root.root_mut().append_child(detached).unwrap();
    assert!(root.root().children().last().unwrap().is_same_as(target));
    assert_eq!(*root.root().children().last().unwrap().content(), "child d");
    assert!(root.root().children()[1].children().is_empty());

    // -- Append a node from another tree.
    let mut other_root = build(node("other parent").child(node("other child a")), &mut ids);

    let target = other_root.root().children()[0].ptr();
    root.root_mut().append_child(other_root.detach_descendant(target).unwrap()).unwrap();
    assert!(root.root().children().last().unwrap().is_same_as(target));
    assert!(other_root.root().children().is_empty());

    // -- End
    let expected = build(
        node("parent")
            .child(node("child a"))
            .child(node("child b"))
            .child(node("child c"))
            .child(node("child e"))
            .child(node("child d"))
            .child(node("other child a")),
        &mut ids,
    );
    assert_eq!(root, expected);
    assert!(root.structurally_eq(&expected));
}
