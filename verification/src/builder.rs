//! The builder: the description of a tree, and the making of the tree that
//! it describes.
use vstd::prelude::*;
use crate::ids::{IdSource, NodeRef};
use crate::node::BaseNode;
use crate::shape::Shape;
use crate::tree::Tree;

verus! {

/// The description of a tree to be built: a content and the descriptions of
/// the children, in sibling order.
#[derive(Debug)]
pub struct NodeBuilder<T> {
    pub content: T,
    pub children: Vec<NodeBuilder<T>>,
}

impl<T> NodeBuilder<T> {
    /// The number of nodes described.
    pub open spec fn size(self) -> nat
        decreases self,
    {
        1 + Self::total_size(self.children@)
    }

    /// The number of nodes that `builders` describe together.
    pub open spec fn total_size(builders: Seq<NodeBuilder<T>>) -> nat
        decreases builders,
    {
        if builders.len() == 0 {
            0
        } else {
            Self::total_size(builders.drop_last()) + builders.last().size()
        }
    }

    /// The first `k` of `builders` describe no more nodes than all of them.
    pub(crate) proof fn lemma_prefix_size(builders: Seq<NodeBuilder<T>>, k: int)
        requires
            0 <= k <= builders.len(),
        ensures
            Self::total_size(builders.take(k)) <= Self::total_size(builders),
        decreases builders.len(),
    {
        if k == builders.len() {
            assert(builders.take(k) =~= builders);
        } else {
            Self::lemma_prefix_size(builders.drop_last(), k);
            assert(builders.drop_last().take(k) =~= builders.take(k));
        }
    }

    /// What is left of `budget` references when each node described has got
    /// one, if `budget` is enough for that.
    pub(crate) fn spare(&self, budget: u64) -> (res: Option<u64>)
        ensures
            match res {
                Some(left) => self.size() + left == budget,
                None => self.size() > budget,
            },
        decreases self,
    {
        if budget == 0 {
            return None;
        }
        let mut left: u64 = budget - 1;
        let mut i: usize = 0;
        proof {
            assert(self.children@.take(0) =~= Seq::<NodeBuilder<T>>::empty());
        }
        while i < self.children.len()
            invariant
                0 <= i <= self.children@.len(),
                1 + Self::total_size(self.children@.take(i as int)) + left == budget,
            decreases self.children@.len() - i,
        {
            proof {
                assert(self.children@.take(i + 1).drop_last() =~= self.children@.take(i as int));
                Self::lemma_prefix_size(self.children@, i + 1);
            }
            match self.children[i].spare(left) {
                Some(rest) => {
                    left = rest;
                },
                None => {
                    return None;
                },
            }
            i = i + 1;
        }
        proof {
            assert(self.children@.take(self.children@.len() as int) =~= self.children@);
        }
        Some(left)
    }

    /// The description of a single node without children.
    pub fn new(content: T) -> (b: Self)
        ensures
            b.content == content,
            b.children@.len() == 0,
            b.size() == 1,
    {
        let b = NodeBuilder { content, children: Vec::new() };
        assert(b.children@.len() == 0);
        b
    }

    /// Adds `child` behind the children described so far.
    pub fn child(self, child: Self) -> (b: Self)
        ensures
            b.content == self.content,
            b.children@ == self.children@.push(child),
            b.size() == self.size() + child.size(),
    {
        let mut b = self;
        b.children.push(child);
        proof {
            assert(b.children@.drop_last() =~= self.children@);
        }
        b
    }
}

impl<T: Default> Default for NodeBuilder<T> {
    /// The description of a single node that holds the default content.
    fn default() -> (b: Self)
        ensures
            call_ensures(T::default, (), b.content),
            b.children@.len() == 0,
            b.size() == 1,
    {
        let b = NodeBuilder { content: T::default(), children: Vec::new() };
        assert(b.children@.len() == 0);
        b
    }
}

impl<T> Shape<T> {
    /// A shape holds as many nodes as the builder that it was built from
    /// describes.
    pub proof fn lemma_built_size(self, builder: NodeBuilder<T>)
        requires
            self.built_from(builder),
        ensures
            self.size() == builder.size(),
        decreases self,
    {
        Self::lemma_built_sizes(self.children, builder.children@);
    }

    /// Shapes hold as many nodes as the builders that they were built from
    /// describe.
    pub proof fn lemma_built_sizes(nodes: Seq<Self>, builders: Seq<NodeBuilder<T>>)
        requires
            nodes.len() == builders.len(),
            forall|i: int| 0 <= i < nodes.len() ==> (#[trigger] nodes[i]).built_from(builders[i]),
        ensures
            Self::total_size(nodes) == NodeBuilder::total_size(builders),
        decreases nodes,
    {
        if nodes.len() > 0 {
            nodes.last().lemma_built_size(builders.last());
            assert forall|i: int| 0 <= i < nodes.drop_last().len() implies (
            #[trigger] nodes.drop_last()[i]).built_from(builders.drop_last()[i]) by {
                assert(nodes.drop_last()[i] == nodes[i]);
            }
            Self::lemma_built_sizes(nodes.drop_last(), builders.drop_last());
        }
    }

    /// Whether this shape has the contents and the arrangement that
    /// `builder` describes.
    pub open spec fn built_from(self, builder: NodeBuilder<T>) -> bool
        decreases self,
    {
        &&& self.content == builder.content
        &&& self.children.len() == builder.children@.len()
        &&& forall|i: int|
            0 <= i < self.children.len() ==> (#[trigger] self.children[i]).built_from(
                builder.children@[i],
            )
    }
}

/// Builds the record that `builder` describes, with the records below it,
/// and names each with a reference that `ids` has not issued before. The
/// record holds `parent` as the reference of its parent.
pub fn make_node<T>(parent: Option<NodeRef>, builder: NodeBuilder<T>, ids: &mut IdSource) -> (node:
    BaseNode<T>)
    requires
        builder.size() <= old(ids).remaining(),
    ensures
        node@.built_from(builder),
        node@.size() == builder.size(),
        node@.distinct(),
        node.parent_ref() == parent,
        node.linked(parent),
        forall|r: NodeRef|
            #[trigger] node@.contains(r) ==> !old(ids).issued(r) && final(ids).issued(r),
        forall|r: NodeRef| #[trigger] old(ids).issued(r) ==> final(ids).issued(r),
        final(ids).remaining() == old(ids).remaining() - builder.size(),
    decreases builder, 1int,
{
    let ghost before = *ids;
    let NodeBuilder { content, children } = builder;
    let id = ids.issue();
    let kids = builders_to_node(id, children, ids);
    let node = BaseNode { content, id, parent, children: kids };
    proof {
        node.lemma_view();
        node@.lemma_built_size(builder);
        assert forall|r: NodeRef| node@.contains(r) implies !before.issued(r) && ids.issued(r) by {
            if r != id {
                let k = choose|k: int|
                    0 <= k < node@.children.len() && (#[trigger] node@.children[k]).contains(r);
                assert(Shape::among(BaseNode::forest(kids@), r));
            }
        }
        assert(node@.distinct()) by {
            assert forall|k: int| 0 <= k < node@.children.len() implies !(
            #[trigger] node@.children[k]).contains(id) by {
                if node@.children[k].contains(id) {
                    assert(Shape::among(BaseNode::forest(kids@), id));
                }
            }
        }
    }
    node
}

/// Builds the records that `children` describe, in their order, each with
/// the records below it, and names each with a reference that `ids` has not
/// issued before. The records hold `parent` as the reference of their
/// parent.
pub fn builders_to_node<T>(parent: NodeRef, children: Vec<NodeBuilder<T>>, ids: &mut IdSource) -> (nodes:
    Vec<BaseNode<T>>)
    requires
        NodeBuilder::total_size(children@) <= old(ids).remaining(),
    ensures
        nodes@.len() == children@.len(),
        forall|k: int|
            0 <= k < nodes@.len() ==> {
                &&& (#[trigger] nodes@[k])@.built_from(children@[k])
                &&& nodes@[k].parent_ref() == Some(parent)
                &&& nodes@[k].linked(Some(parent))
            },
        Shape::all_distinct(BaseNode::forest(nodes@)),
        forall|r: NodeRef|
            #[trigger] Shape::among(BaseNode::forest(nodes@), r) ==> !old(ids).issued(r)
                && final(ids).issued(r),
        forall|r: NodeRef| #[trigger] old(ids).issued(r) ==> final(ids).issued(r),
        final(ids).remaining() == old(ids).remaining() - NodeBuilder::total_size(children@),
    decreases children, 0int,
{
    let ghost start = *ids;
    let mut kids: Vec<BaseNode<T>> = Vec::new();
    proof {
        assert(children@.take(0) =~= Seq::<NodeBuilder<T>>::empty());
        NodeBuilder::lemma_prefix_size(children@, 0);
    }
    for b in it: children
        invariant
            kids@.len() == it.index(),
            it.seq() == children@,
            NodeBuilder::total_size(children@) <= start.remaining(),
            ids.remaining() == start.remaining() - NodeBuilder::total_size(
                children@.take(it.index()),
            ),
            forall|r: NodeRef| start.issued(r) ==> ids.issued(r),
            forall|k: int|
                0 <= k < kids@.len() ==> {
                    &&& (#[trigger] kids@[k])@.built_from(children@[k])
                    &&& kids@[k]@.distinct()
                    &&& kids@[k].linked(Some(parent))
                },
            forall|k: int, r: NodeRef|
                0 <= k < kids@.len() && (#[trigger] kids@[k]@.contains(r)) ==> !start.issued(r)
                    && ids.issued(r),
            forall|i: int, j: int|
                0 <= i < j < kids@.len() ==> (#[trigger] kids@[i])@.disjoint((#[trigger] kids@[j])@),
    {
        let ghost k = kids@.len() as int;
        proof {
            assert(children@.take(k + 1).drop_last() =~= children@.take(k));
            NodeBuilder::lemma_prefix_size(children@, k + 1);
        }
        let kid = make_node(Some(parent), b, ids);
        kids.push(kid);
    }
    proof {
        assert(children@.take(children@.len() as int) =~= children@);
        let shapes = BaseNode::forest(kids@);
        assert forall|r: NodeRef| Shape::among(shapes, r) implies !start.issued(r) && ids.issued(
            r,
        ) by {
            let k = Shape::holder(shapes, r);
            assert(kids@[k]@.contains(r));
        }
        assert(Shape::all_distinct(shapes)) by {
            assert forall|a: int| 0 <= a < shapes.len() implies (#[trigger] shapes[a]).distinct() by {
                assert(kids@[a]@.distinct());
            }
            assert forall|a: int, b: int| 0 <= a < b < shapes.len() implies (#[trigger] shapes[a]).disjoint(
                #[trigger] shapes[b],
            ) by {
                assert(kids@[a]@.disjoint(kids@[b]@));
            }
        }
    }
    kids
}

impl<T> NodeBuilder<T> {
    /// Builds the tree that this builder describes: a root with the content
    /// described, and below it the children described, in their order, each
    /// with a reference that `ids` has not issued before.
    ///
    /// Nothing is built, and `ids` issues nothing, where `ids` cannot issue
    /// a reference for each node.
    pub fn build(self, ids: &mut IdSource) -> (res: Option<Tree<T>>)
        ensures
            match res {
                Some(tree) => {
                    &&& self.size() <= old(ids).remaining()
                    &&& tree@.built_from(self)
                    &&& tree@.size() == self.size()
                    &&& tree@.distinct()
                    &&& forall|r: NodeRef|
                        #[trigger] tree@.contains(r) ==> !old(ids).issued(r) && final(ids).issued(r)
                    &&& forall|r: NodeRef| #[trigger] old(ids).issued(r) ==> final(ids).issued(r)
                    &&& final(ids).remaining() == old(ids).remaining() - self.size()
                },
                None => self.size() > old(ids).remaining() && *final(ids) == *old(ids),
            },
    {
        if self.spare(ids.remaining()).is_none() {
            return None;
        }
        let root = make_node(None, self, ids);
        Some(Tree { root })
    }
}

} // verus!
