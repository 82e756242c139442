//! The traversals visit every node, and every node once.
use vstd::prelude::*;
use crate::ids::NodeRef;
use crate::shape::Shape;

verus! {

impl<T> Shape<T> {
    /// Whether no reference names two of `order` themselves.
    pub open spec fn named_once(order: Seq<Self>) -> bool {
        forall|i: int, j: int|
            0 <= i < j < order.len() ==> (#[trigger] order[i]).id != (#[trigger] order[j]).id
    }

    /// Whether `order` lists the nodes of `nodes` and below: every node,
    /// every node once, and each as it is found there.
    pub open spec fn lists(order: Seq<Self>, nodes: Seq<Self>) -> bool {
        &&& Self::named_once(order)
        &&& forall|r: NodeRef|
            #![trigger Self::heads(order, r)]
            #![trigger Self::among(nodes, r)]
            Self::heads(order, r) <==> Self::among(nodes, r)
        &&& forall|i: int|
            0 <= i < order.len() ==> Self::find_among(nodes, (#[trigger] order[i]).id) == Some(
                order[i],
            )
    }

    /// Whether `order` lists the nodes of this shape: every node, every node
    /// once, and each as it is found here.
    pub open spec fn visited_by(self, order: Seq<Self>) -> bool {
        &&& order.len() == self.size()
        &&& Self::named_once(order)
        &&& forall|r: NodeRef|
            #![trigger Self::heads(order, r)]
            #![trigger self.contains(r)]
            Self::heads(order, r) <==> self.contains(r)
        &&& forall|i: int|
            0 <= i < order.len() ==> self.find((#[trigger] order[i]).id) == Some(order[i])
    }

    /// A reference names one of two sequences together exactly if it names
    /// one of either.
    pub proof fn lemma_heads_concat(a: Seq<Self>, b: Seq<Self>, r: NodeRef)
        ensures
            Self::heads(a + b, r) <==> Self::heads(a, r) || Self::heads(b, r),
    {
        if Self::heads(a + b, r) {
            let i = Self::head(a + b, r);
            if i < a.len() {
                assert(a[i].id == r);
            } else {
                assert(b[i - a.len()].id == r);
            }
        }
        if Self::heads(a, r) {
            let i = Self::head(a, r);
            assert((a + b)[i].id == r);
        }
        if Self::heads(b, r) {
            let i = Self::head(b, r);
            assert((a + b)[a.len() + i].id == r);
        }
    }

    /// A reference names a node of two sequences together exactly if it
    /// names a node of either.
    pub proof fn lemma_among_concat(a: Seq<Self>, b: Seq<Self>, r: NodeRef)
        ensures
            Self::among(a + b, r) <==> Self::among(a, r) || Self::among(b, r),
    {
        if Self::among(a + b, r) {
            let i = Self::holder(a + b, r);
            if i < a.len() {
                assert(a[i].contains(r));
            } else {
                assert(b[i - a.len()].contains(r));
            }
        }
        if Self::among(a, r) {
            let i = Self::holder(a, r);
            assert((a + b)[i].contains(r));
        }
        if Self::among(b, r) {
            let i = Self::holder(b, r);
            assert((a + b)[a.len() + i].contains(r));
        }
    }

    /// What is found in the first or in the second of two sequences that
    /// share no reference is found in the two together.
    pub proof fn lemma_find_among_concat(a: Seq<Self>, b: Seq<Self>, r: NodeRef)
        requires
            Self::all_distinct(a + b),
        ensures
            Self::among(a, r) ==> Self::find_among(a + b, r) == Self::find_among(a, r),
            Self::among(b, r) ==> Self::find_among(a + b, r) == Self::find_among(b, r),
    {
        Self::lemma_all_distinct_parts(a, b);
        if Self::among(a, r) {
            let i = Self::holder(a, r);
            assert((a + b)[i] == a[i]);
            Self::lemma_holder(a + b, r, i);
            Self::lemma_holder(a, r, i);
        }
        if Self::among(b, r) {
            let i = Self::holder(b, r);
            assert((a + b)[a.len() + i] == b[i]);
            Self::lemma_holder(a + b, r, a.len() + i);
            Self::lemma_holder(b, r, i);
        }
    }

    /// The parts of a sequence that shares no reference share none.
    pub proof fn lemma_all_distinct_parts(a: Seq<Self>, b: Seq<Self>)
        requires
            Self::all_distinct(a + b),
        ensures
            Self::all_distinct(a),
            Self::all_distinct(b),
            forall|r: NodeRef| #[trigger] Self::among(a, r) ==> !Self::among(b, r),
    {
        let ab = a + b;
        assert forall|i: int| 0 <= i < a.len() implies (#[trigger] a[i]).distinct() by {
            assert(ab[i] == a[i]);
        }
        assert forall|i: int, j: int| 0 <= i < j < a.len() implies (#[trigger] a[i]).disjoint(
            #[trigger] a[j],
        ) by {
            assert(ab[i] == a[i] && ab[j] == a[j]);
            assert(ab[i].disjoint(ab[j]));
        }
        assert forall|i: int| 0 <= i < b.len() implies (#[trigger] b[i]).distinct() by {
            assert(ab[a.len() + i] == b[i]);
        }
        assert forall|i: int, j: int| 0 <= i < j < b.len() implies (#[trigger] b[i]).disjoint(
            #[trigger] b[j],
        ) by {
            assert(ab[a.len() + i] == b[i] && ab[a.len() + j] == b[j]);
            assert(ab[a.len() + i].disjoint(ab[a.len() + j]));
        }
        assert forall|r: NodeRef| #[trigger] Self::among(a, r) implies !Self::among(b, r) by {
            if Self::among(b, r) {
                let i = Self::holder(a, r);
                let j = Self::holder(b, r);
                assert(ab[i] == a[i] && ab[a.len() + j] == b[j]);
                assert(ab[i].disjoint(ab[a.len() + j]));
            }
        }
    }

    /// Two listings of sequences that share no reference make a listing of
    /// the two sequences together.
    pub proof fn lemma_lists_concat(x: Seq<Self>, a: Seq<Self>, y: Seq<Self>, b: Seq<Self>)
        requires
            Self::all_distinct(a + b),
            Self::lists(x, a),
            Self::lists(y, b),
        ensures
            Self::lists(x + y, a + b),
    {
        let xy = x + y;
        let ab = a + b;
        Self::lemma_all_distinct_parts(a, b);
        assert forall|r: NodeRef| Self::heads(xy, r) <==> Self::among(ab, r) by {
            Self::lemma_heads_concat(x, y, r);
            Self::lemma_among_concat(a, b, r);
        }
        assert forall|i: int| 0 <= i < xy.len() implies Self::find_among(ab, (#[trigger] xy[i]).id)
            == Some(xy[i]) by {
            let r = xy[i].id;
            Self::lemma_find_among_concat(a, b, r);
            if i < x.len() {
                assert(xy[i] == x[i]);
                Self::lemma_find_among(a, r);
            } else {
                assert(xy[i] == y[i - x.len()]);
                Self::lemma_find_among(b, r);
            }
        }
        assert forall|i: int, j: int| 0 <= i < j < xy.len() implies (#[trigger] xy[i]).id != (
        #[trigger] xy[j]).id by {
            if j < x.len() {
                assert(xy[i] == x[i] && xy[j] == x[j]);
            } else if i >= x.len() {
                assert(xy[i] == y[i - x.len()] && xy[j] == y[j - x.len()]);
            } else {
                assert(xy[i] == x[i] && xy[j] == y[j - x.len()]);
                assert(Self::heads(x, x[i].id));
                assert(Self::heads(y, y[j - x.len()].id));
            }
        }
    }

    /// The sequence that holds one shape shares no reference exactly if the
    /// shape names each node once, and what is found in it is what is found
    /// in the shape.
    pub proof fn lemma_one(self)
        ensures
            Self::all_distinct(seq![self]) <==> self.distinct(),
            forall|r: NodeRef|
                #![trigger Self::among(seq![self], r)]
                #![trigger self.contains(r)]
                Self::among(seq![self], r) <==> self.contains(r),
            forall|r: NodeRef| #[trigger] self.contains(r) ==> Self::find_among(seq![self], r)
                == self.find(r),
    {
        let one = seq![self];
        assert(one[0] == self);
        assert forall|r: NodeRef| Self::among(one, r) <==> self.contains(r) by {
            if self.contains(r) {
                assert(one[0].contains(r));
            }
        }
        assert forall|r: NodeRef| #[trigger] self.contains(r) implies Self::find_among(one, r)
            == self.find(r) by {
            assert(one[0].contains(r));
            let h = Self::holder(one, r);
            assert(h == 0);
        }
    }

    /// A listing of the children of a node, behind the node, is a listing of
    /// the node.
    pub proof fn lemma_lists_below(self, order: Seq<Self>)
        requires
            self.distinct(),
            Self::lists(order, self.children),
        ensures
            Self::lists(seq![self] + order, seq![self]),
    {
        let whole = seq![self] + order;
        let one = seq![self];
        self.lemma_one();
        self.lemma_distinct();
        assert(whole[0] == self);
        assert forall|r: NodeRef| Self::heads(whole, r) <==> Self::among(one, r) by {
            Self::lemma_heads_concat(seq![self], order, r);
            if Self::heads(seq![self], r) {
                let i = Self::head(seq![self], r);
                assert(seq![self][i] == self);
            }
            if r == self.id {
                assert(seq![self][0].id == r);
            }
            if self.contains(r) && r != self.id {
                let k = choose|k: int|
                    0 <= k < self.children.len() && (#[trigger] self.children[k]).contains(r);
                assert(Self::among(self.children, r));
            }
            if Self::among(self.children, r) {
                let k = Self::holder(self.children, r);
                assert(self.children[k].contains(r));
            }
        }
        assert forall|i: int| 0 <= i < whole.len() implies Self::find_among(
            one,
            (#[trigger] whole[i]).id,
        ) == Some(whole[i]) by {
            if i == 0 {
                assert(self.contains(self.id));
            } else {
                assert(whole[i] == order[i - 1]);
                let r = order[i - 1].id;
                Self::lemma_find_among(self.children, r);
                let k = Self::holder(self.children, r);
                assert(self.children[k].contains(r));
                assert(self.contains(r));
                assert(r != self.id);
            }
        }
        assert forall|i: int, j: int| 0 <= i < j < whole.len() implies (#[trigger] whole[i]).id != (
        #[trigger] whole[j]).id by {
            assert(whole[j] == order[j - 1]);
            if i == 0 {
                assert(Self::heads(order, order[j - 1].id));
            } else {
                assert(whole[i] == order[i - 1]);
            }
        }
    }

    /// The depth-first order of a shape that names each node once lists its
    /// nodes.
    pub proof fn lemma_preorder_lists(self)
        requires
            self.distinct(),
        ensures
            Self::lists(self.preorder(), seq![self]),
        decreases self, 1int,
    {
        self.lemma_distinct();
        Self::lemma_preorder_all_lists(self.children);
        self.lemma_lists_below(Self::preorder_all(self.children));
    }

    /// The depth-first orders of shapes that share no reference list their
    /// nodes.
    pub proof fn lemma_preorder_all_lists(nodes: Seq<Self>)
        requires
            Self::all_distinct(nodes),
        ensures
            Self::lists(Self::preorder_all(nodes), nodes),
        decreases nodes, 0int,
    {
        if nodes.len() > 0 {
            let first = nodes.first();
            let rest = nodes.drop_first();
            assert(nodes =~= seq![first] + rest);
            Self::lemma_all_distinct_parts(seq![first], rest);
            first.lemma_one();
            first.lemma_preorder_lists();
            Self::lemma_preorder_all_lists(rest);
            Self::lemma_lists_concat(first.preorder(), seq![first], Self::preorder_all(rest), rest);
        } else {
            assert(Self::lists(Seq::<Self>::empty(), nodes));
        }
    }

    /// Two sequences that share no reference, neither within nor between
    /// them, share none together.
    pub proof fn lemma_all_distinct_join(a: Seq<Self>, b: Seq<Self>)
        requires
            Self::all_distinct(a),
            Self::all_distinct(b),
            forall|r: NodeRef| #[trigger] Self::among(a, r) ==> !Self::among(b, r),
        ensures
            Self::all_distinct(a + b),
    {
        let ab = a + b;
        assert forall|i: int| 0 <= i < ab.len() implies (#[trigger] ab[i]).distinct() by {
            if i < a.len() {
                assert(ab[i] == a[i]);
            } else {
                assert(ab[i] == b[i - a.len()]);
            }
        }
        assert forall|i: int, j: int| 0 <= i < j < ab.len() implies (#[trigger] ab[i]).disjoint(
            #[trigger] ab[j],
        ) by {
            if j < a.len() {
                assert(ab[i] == a[i] && ab[j] == a[j]);
                assert(a[i].disjoint(a[j]));
            } else if i >= a.len() {
                assert(ab[i] == b[i - a.len()] && ab[j] == b[j - a.len()]);
                assert(b[i - a.len()].disjoint(b[j - a.len()]));
            } else {
                assert(ab[i] == a[i] && ab[j] == b[j - a.len()]);
                assert forall|r: NodeRef| !(a[i].contains(r) && b[j - a.len()].contains(r)) by {
                    if a[i].contains(r) && b[j - a.len()].contains(r) {
                        assert(Self::among(a, r));
                        assert(Self::among(b, r));
                    }
                }
            }
        }
    }

    /// The children of shapes that share no reference share none. They hold
    /// the nodes of the shapes but the shapes themselves, and each as it is
    /// found in the shapes.
    pub proof fn lemma_children_distinct(nodes: Seq<Self>)
        requires
            Self::all_distinct(nodes),
        ensures
            Self::all_distinct(Self::children_of(nodes)),
            forall|x: NodeRef|
                #![trigger Self::among(Self::children_of(nodes), x)]
                #![trigger Self::among(nodes, x)]
                Self::among(Self::children_of(nodes), x) <==> Self::among(nodes, x) && !Self::heads(
                    nodes,
                    x,
                ),
            forall|x: NodeRef| #[trigger]
                Self::among(Self::children_of(nodes), x) ==> Self::find_among(
                    Self::children_of(nodes),
                    x,
                ) == Self::find_among(nodes, x),
        decreases nodes.len(),
    {
        let below = Self::children_of(nodes);
        if nodes.len() == 0 {
            assert(below =~= Seq::empty());
        } else {
            let front = nodes.drop_last();
            let last = nodes.last();
            let one = seq![last];
            let before = Self::children_of(front);
            assert(nodes =~= front + one);
            Self::lemma_all_distinct_parts(front, one);
            last.lemma_one();
            last.lemma_distinct();
            Self::lemma_children_distinct(front);
            Self::lemma_children_concat(front, one);
            last.lemma_children_one();
            assert(below == before + last.children);
            assert forall|r: NodeRef| Self::among(last.children, r) implies last.descendant(r) by {
                let k = Self::holder(last.children, r);
                assert(last.children[k].contains(r));
            }
            assert forall|r: NodeRef| #[trigger] Self::among(before, r) implies !Self::among(
                last.children,
                r,
            ) by {
                assert(Self::among(front, r));
            }
            Self::lemma_all_distinct_join(before, last.children);
            assert forall|x: NodeRef|
                Self::among(below, x) <==> Self::among(nodes, x) && !Self::heads(nodes, x) by {
                Self::lemma_among_concat(before, last.children, x);
                Self::lemma_among_concat(front, one, x);
                Self::lemma_heads_concat(front, one, x);
                if Self::heads(one, x) {
                    let i = Self::head(one, x);
                    assert(one[i] == last);
                }
                if x == last.id {
                    assert(one[0].id == x);
                    assert(last.contains(x));
                }
                if Self::heads(front, x) {
                    let i = Self::head(front, x);
                    assert(front[i].contains(x));
                }
                if last.descendant(x) {
                    let k = choose|k: int|
                        0 <= k < last.children.len() && (#[trigger] last.children[k]).contains(x);
                    assert(Self::among(last.children, x));
                }
            }
            assert forall|x: NodeRef| #[trigger] Self::among(below, x) implies Self::find_among(
                below,
                x,
            ) == Self::find_among(nodes, x) by {
                Self::lemma_among_concat(before, last.children, x);
                Self::lemma_find_among_concat(before, last.children, x);
                Self::lemma_find_among_concat(front, one, x);
                if Self::among(before, x) {
                    assert(Self::among(front, x));
                } else {
                    assert(last.descendant(x));
                    assert(Self::among(one, x));
                }
            }
        }
    }

    /// The breadth-first order of shapes that share no reference lists their
    /// nodes.
    pub proof fn lemma_level_order_lists(nodes: Seq<Self>)
        requires
            Self::all_distinct(nodes),
        ensures
            Self::lists(Self::level_order(nodes), nodes),
        decreases Self::total_size(nodes),
    {
        if nodes.len() == 0 {
            assert(Self::lists(Seq::<Self>::empty(), nodes));
        } else {
            let below = Self::children_of(nodes);
            let later = Self::level_order(below);
            let order = nodes + later;
            Self::lemma_children_size(nodes);
            Self::lemma_children_distinct(nodes);
            Self::lemma_level_order_lists(below);
            assert forall|r: NodeRef| Self::heads(order, r) <==> Self::among(nodes, r) by {
                Self::lemma_heads_concat(nodes, later, r);
                if Self::heads(nodes, r) {
                    let i = Self::head(nodes, r);
                    assert(nodes[i].contains(r));
                }
            }
            assert forall|i: int| 0 <= i < order.len() implies Self::find_among(
                nodes,
                (#[trigger] order[i]).id,
            ) == Some(order[i]) by {
                if i < nodes.len() {
                    assert(order[i] == nodes[i]);
                    Self::lemma_head(nodes, nodes[i].id, i);
                } else {
                    let k = i - nodes.len();
                    assert(order[i] == later[k]);
                    Self::lemma_find_among(below, later[k].id);
                }
            }
            assert forall|i: int, j: int| 0 <= i < j < order.len() implies (#[trigger] order[i]).id
                != (#[trigger] order[j]).id by {
                if j < nodes.len() {
                    assert(order[i] == nodes[i] && order[j] == nodes[j]);
                    if nodes[i].id == nodes[j].id {
                        Self::lemma_head(nodes, nodes[i].id, i);
                        Self::lemma_head(nodes, nodes[j].id, j);
                    }
                } else if i >= nodes.len() {
                    assert(order[i] == later[i - nodes.len()] && order[j] == later[j - nodes.len()]);
                } else {
                    assert(order[i] == nodes[i] && order[j] == later[j - nodes.len()]);
                    assert(Self::heads(later, later[j - nodes.len()].id));
                    assert(Self::heads(nodes, nodes[i].id));
                }
            }
        }
    }

    /// Both traversals visit every node of a tree, every node once, and
    /// each as it is found in the tree.
    pub proof fn law_traversals_visit_each_node_once(self)
        requires
            self.distinct(),
        ensures
            self.visited_by(self.preorder()),
            self.visited_by(self.breadth_first()),
            self.preorder()[0] == self,
            self.breadth_first()[0] == self,
    {
        let one = seq![self];
        self.lemma_one();
        self.lemma_preorder_lists();
        self.lemma_preorder_len();
        Self::lemma_level_order_lists(one);
        Self::lemma_level_order_len(one);
        self.lemma_total_size_one();
        let depth_first = self.preorder();
        let breadth_first = self.breadth_first();
        assert(breadth_first == one + Self::level_order(Self::children_of(one)));
        assert(breadth_first[0] == one[0]);
        assert forall|i: int| 0 <= i < depth_first.len() implies self.find(
            (#[trigger] depth_first[i]).id,
        ) == Some(depth_first[i]) by {
            Self::lemma_find_among(one, depth_first[i].id);
        }
        assert forall|i: int| 0 <= i < breadth_first.len() implies self.find(
            (#[trigger] breadth_first[i]).id,
        ) == Some(breadth_first[i]) by {
            Self::lemma_find_among(one, breadth_first[i].id);
        }
    }

    /// Each of the children of a sequence of shapes is a child of one of
    /// the shapes: the result names the shape and the position of the child
    /// in it.
    pub proof fn lemma_child_origin(nodes: Seq<Self>, k: int) -> (at: (int, int))
        requires
            0 <= k < Self::children_of(nodes).len(),
        ensures
            0 <= at.0 < nodes.len(),
            0 <= at.1 < nodes[at.0].children.len(),
            Self::children_of(nodes)[k] == nodes[at.0].children[at.1],
        decreases nodes.len(),
    {
        if nodes.len() == 0 {
            assert(Self::children_of(nodes) =~= Seq::empty());
            (0, 0)
        } else {
            let front = nodes.drop_last();
            let last = nodes.last();
            let before = Self::children_of(front);
            assert(nodes =~= front + seq![last]);
            Self::lemma_children_concat(front, seq![last]);
            last.lemma_children_one();
            if k < before.len() {
                let at = Self::lemma_child_origin(front, k);
                assert(front[at.0] == nodes[at.0]);
                at
            } else {
                (nodes.len() - 1, k - before.len())
            }
        }
    }

    /// The breadth-first order of nodes that lie equally deep in a tree
    /// goes from level to level, and never back to a higher one.
    pub proof fn lemma_level_order_descends(self, nodes: Seq<Self>, level: nat)
        requires
            self.distinct(),
            forall|i: int|
                0 <= i < nodes.len() ==> self.find((#[trigger] nodes[i]).id) == Some(nodes[i])
                    && self.depth(nodes[i].id) == level,
        ensures
            forall|i: int|
                0 <= i < Self::level_order(nodes).len() ==> self.depth(
                    (#[trigger] Self::level_order(nodes)[i]).id,
                ) >= level,
            forall|i: int, j: int|
                0 <= i <= j < Self::level_order(nodes).len() ==> self.depth(
                    (#[trigger] Self::level_order(nodes)[i]).id,
                ) <= self.depth((#[trigger] Self::level_order(nodes)[j]).id),
        decreases Self::total_size(nodes),
    {
        if nodes.len() > 0 {
            let below = Self::children_of(nodes);
            let later = Self::level_order(below);
            let order = nodes + later;
            Self::lemma_children_size(nodes);
            assert forall|k: int| 0 <= k < below.len() implies self.find((#[trigger] below[k]).id)
                == Some(below[k]) && self.depth(below[k].id) == level + 1 by {
                let at = Self::lemma_child_origin(nodes, k);
                let parent = nodes[at.0];
                self.lemma_find(parent.id);
                self.lemma_child(parent.id, at.1);
                self.lemma_depth_of_parent(below[k].id);
            }
            self.lemma_level_order_descends(below, level + 1);
            assert forall|i: int| 0 <= i < order.len() implies self.depth((#[trigger] order[i]).id)
                >= level by {
                if i < nodes.len() {
                    assert(order[i] == nodes[i]);
                } else {
                    assert(order[i] == later[i - nodes.len()]);
                }
            }
            assert forall|i: int, j: int| 0 <= i <= j < order.len() implies self.depth(
                (#[trigger] order[i]).id,
            ) <= self.depth((#[trigger] order[j]).id) by {
                if j < nodes.len() {
                    assert(order[i] == nodes[i] && order[j] == nodes[j]);
                } else if i >= nodes.len() {
                    assert(order[i] == later[i - nodes.len()] && order[j] == later[j - nodes.len()]);
                } else {
                    assert(order[i] == nodes[i] && order[j] == later[j - nodes.len()]);
                }
            }
        }
    }

    /// The breadth-first traversal never visits a node after one that lies
    /// deeper in the tree.
    pub proof fn law_breadth_first_descends(self)
        requires
            self.distinct(),
        ensures
            forall|i: int, j: int|
                0 <= i <= j < self.breadth_first().len() ==> self.depth(
                    (#[trigger] self.breadth_first()[i]).id,
                ) <= self.depth((#[trigger] self.breadth_first()[j]).id),
    {
        let one = seq![self];
        assert(one[0] == self);
        self.lemma_level_order_descends(one, 0);
    }
}

} // verus!
