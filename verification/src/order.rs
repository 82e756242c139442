//! The orders in which the nodes of a tree are visited.
use vstd::prelude::*;
use vstd::seq_lib::lemma_flatten_concat;
use crate::shape::Shape;

verus! {

impl<T> Shape<T> {
    /// The nodes in depth-first order: each node before its children, and
    /// all that lies below a child before the next child.
    pub open spec fn preorder(self) -> Seq<Self>
        decreases self, 1int,
    {
        seq![self] + Self::preorder_all(self.children)
    }

    /// The depth-first orders of `nodes`, one after the other.
    pub open spec fn preorder_all(nodes: Seq<Self>) -> Seq<Self>
        decreases nodes, 0int,
    {
        if nodes.len() == 0 {
            Seq::empty()
        } else {
            nodes.first().preorder() + Self::preorder_all(nodes.drop_first())
        }
    }

    /// The children of `nodes`: those of the first, then those of the
    /// second, and so on.
    pub open spec fn children_of(nodes: Seq<Self>) -> Seq<Self> {
        Seq::new(nodes.len(), |i: int| nodes[i].children).flatten()
    }

    /// The nodes of `nodes` and below in breadth-first order: `nodes`, then
    /// their children, then the children of those, and so on.
    pub open spec fn level_order(nodes: Seq<Self>) -> Seq<Self>
        decreases Self::total_size(nodes),
        via Self::level_order_decreases
    {
        if nodes.len() == 0 {
            Seq::empty()
        } else {
            nodes + Self::level_order(Self::children_of(nodes))
        }
    }

    /// Below a sequence of shapes lie fewer nodes than the sequence holds.
    #[via_fn]
    proof fn level_order_decreases(nodes: Seq<Self>) {
        if nodes.len() != 0 {
            Self::lemma_children_size(nodes);
        }
    }

    /// The nodes in breadth-first order: the node, then its children, then
    /// the children of those, and so on.
    pub open spec fn breadth_first(self) -> Seq<Self> {
        Self::level_order(seq![self])
    }

    /// The children of two sequences of shapes are those of the first, then
    /// those of the second.
    pub proof fn lemma_children_concat(a: Seq<Self>, b: Seq<Self>)
        ensures
            Self::children_of(a + b) == Self::children_of(a) + Self::children_of(b),
    {
        let fa = Seq::new(a.len(), |i: int| a[i].children);
        let fb = Seq::new(b.len(), |i: int| b[i].children);
        let fab = Seq::new((a + b).len(), |i: int| (a + b)[i].children);
        assert(fab =~= fa + fb);
        lemma_flatten_concat(fa, fb);
    }

    /// The children of a single shape.
    pub proof fn lemma_children_one(self)
        ensures
            Self::children_of(seq![self]) == self.children,
    {
        let f = Seq::new(1, |i: int| seq![self][i].children);
        f.lemma_flatten_one_element();
        assert(f.first() == self.children);
    }

    /// Below a sequence of shapes lie as many nodes as the sequence holds,
    /// less the shapes themselves.
    pub proof fn lemma_children_size(nodes: Seq<Self>)
        ensures
            Self::total_size(Self::children_of(nodes)) + nodes.len() == Self::total_size(nodes),
        decreases nodes.len(),
    {
        if nodes.len() == 0 {
            assert(Self::children_of(nodes) =~= Seq::empty());
        } else {
            let front = nodes.drop_last();
            let last = nodes.last();
            assert(nodes =~= front + seq![last]);
            Self::lemma_children_size(front);
            Self::lemma_children_concat(front, seq![last]);
            last.lemma_children_one();
            Self::lemma_size_concat(Self::children_of(front), last.children);
            assert(Self::children_of(nodes) == Self::children_of(front) + last.children);
            assert(Self::total_size(nodes) == Self::total_size(front) + last.size());
            assert(last.size() == 1 + Self::total_size(last.children));
        }
    }

    /// The depth-first orders of two sequences of shapes are those of the
    /// first, then those of the second.
    pub proof fn lemma_preorder_concat(a: Seq<Self>, b: Seq<Self>)
        ensures
            Self::preorder_all(a + b) == Self::preorder_all(a) + Self::preorder_all(b),
        decreases a.len(),
    {
        if a.len() == 0 {
            assert(a + b =~= b);
            assert(Self::preorder_all(a) + Self::preorder_all(b) =~= Self::preorder_all(b));
        } else {
            assert((a + b).drop_first() =~= a.drop_first() + b);
            assert((a + b).first() == a.first());
            Self::lemma_preorder_concat(a.drop_first(), b);
            assert(a.first().preorder() + (Self::preorder_all(a.drop_first()) + Self::preorder_all(
                b,
            )) =~= (a.first().preorder() + Self::preorder_all(a.drop_first())) + Self::preorder_all(
                b,
            ));
        }
    }

    /// The depth-first order of a single shape.
    pub proof fn lemma_preorder_one(self)
        ensures
            Self::preorder_all(seq![self]) == self.preorder(),
    {
        let one = seq![self];
        assert(one.drop_first() =~= Seq::empty());
        assert(Self::preorder_all(one.drop_first()) =~= Seq::empty());
        assert(Self::preorder_all(one) == one.first().preorder() + Self::preorder_all(
            one.drop_first(),
        ));
        assert(self.preorder() + Seq::<Self>::empty() =~= self.preorder());
    }

    /// Visiting two sequences of shapes breadth-first is visiting the first,
    /// then the second followed by the children of the first.
    pub proof fn lemma_level_order_split(a: Seq<Self>, b: Seq<Self>)
        ensures
            Self::level_order(a + b) == a + Self::level_order(b + Self::children_of(a)),
        decreases Self::total_size(a + b),
    {
        let ca = Self::children_of(a);
        let cb = Self::children_of(b);
        if (a + b).len() == 0 {
            assert(a =~= Seq::empty());
            assert(ca =~= Seq::empty());
            assert(b + ca =~= Seq::empty());
            assert(a + Self::level_order(b + ca) =~= Seq::empty());
        } else {
            Self::lemma_children_concat(a, b);
            Self::lemma_children_size(a + b);
            if (b + ca).len() == 0 {
                assert(b =~= Seq::empty());
                assert(cb =~= Seq::empty());
                assert(ca =~= Seq::empty());
                assert(ca + cb =~= Seq::empty());
                assert(a + b =~= a);
                assert(a + Self::level_order(b + ca) =~= a);
                assert((a + b) + Self::level_order(ca + cb) =~= a);
            } else {
                Self::lemma_level_order_split(ca, cb);
                Self::lemma_children_concat(b, ca);
                let cca = Self::children_of(ca);
                assert(Self::level_order(ca + cb) == ca + Self::level_order(cb + cca));
                assert(Self::level_order(b + ca) == (b + ca) + Self::level_order(cb + cca));
                assert((a + b) + (ca + Self::level_order(cb + cca)) =~= a + ((b + ca)
                    + Self::level_order(cb + cca)));
            }
        }
    }

    /// Visiting a sequence of shapes breadth-first is visiting the first of
    /// them, then the others followed by the children of the first.
    pub proof fn lemma_level_order_step(nodes: Seq<Self>)
        requires
            nodes.len() > 0,
        ensures
            Self::level_order(nodes) == seq![nodes[0]] + Self::level_order(
                nodes.drop_first() + nodes[0].children,
            ),
    {
        assert(nodes =~= seq![nodes[0]] + nodes.drop_first());
        Self::lemma_level_order_split(seq![nodes[0]], nodes.drop_first());
        nodes[0].lemma_children_one();
    }

    /// A single shape holds as many nodes as the sequence that holds only
    /// it.
    pub proof fn lemma_total_size_one(self)
        ensures
            Self::total_size(seq![self]) == self.size(),
    {
        let one = seq![self];
        assert(one.drop_last() =~= Seq::empty());
        assert(Self::total_size(one) == Self::total_size(one.drop_last()) + one.last().size());
    }

    /// A sequence of shapes holds the nodes of the first and those of the
    /// others.
    pub proof fn lemma_total_size_first(nodes: Seq<Self>)
        requires
            nodes.len() > 0,
        ensures
            Self::total_size(nodes) == nodes.first().size() + Self::total_size(nodes.drop_first()),
    {
        assert(nodes =~= seq![nodes.first()] + nodes.drop_first());
        Self::lemma_size_concat(seq![nodes.first()], nodes.drop_first());
        nodes.first().lemma_total_size_one();
    }

    /// The depth-first order visits as many nodes as there are.
    pub proof fn lemma_preorder_len(self)
        ensures
            self.preorder().len() == self.size(),
            self.preorder()[0] == self,
        decreases self, 1int,
    {
        Self::lemma_preorder_all_len(self.children);
    }

    /// The depth-first orders of a sequence of shapes visit as many nodes as
    /// there are.
    pub proof fn lemma_preorder_all_len(nodes: Seq<Self>)
        ensures
            Self::preorder_all(nodes).len() == Self::total_size(nodes),
        decreases nodes, 0int,
    {
        if nodes.len() > 0 {
            nodes.first().lemma_preorder_len();
            Self::lemma_preorder_all_len(nodes.drop_first());
            Self::lemma_total_size_first(nodes);
        }
    }

    /// The breadth-first order of a sequence of shapes visits as many nodes
    /// as there are.
    pub proof fn lemma_level_order_len(nodes: Seq<Self>)
        ensures
            Self::level_order(nodes).len() == Self::total_size(nodes),
        decreases Self::total_size(nodes),
    {
        if nodes.len() > 0 {
            Self::lemma_children_size(nodes);
            Self::lemma_level_order_len(Self::children_of(nodes));
        }
    }
}

} // verus!
