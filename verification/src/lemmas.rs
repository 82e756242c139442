//! What the operations on the model keep and change.
use vstd::prelude::*;
use crate::ids::NodeRef;
use crate::shape::Shape;

verus! {

impl<T> Shape<T> {
    /// In sequences without a shared reference, the shape that contains a
    /// reference is the only one.
    pub proof fn lemma_holder(nodes: Seq<Self>, r: NodeRef, i: int)
        requires
            Self::all_distinct(nodes),
            0 <= i < nodes.len(),
            nodes[i].contains(r),
        ensures
            Self::among(nodes, r),
            Self::holder(nodes, r) == i,
            forall|k: int| 0 <= k < nodes.len() && k != i ==> !(#[trigger] nodes[k]).contains(r),
    {
        assert forall|k: int| 0 <= k < nodes.len() && k != i implies !(#[trigger] nodes[k]).contains(
            r,
        ) by {
            if k < i {
                assert(nodes[k].disjoint(nodes[i]));
            } else {
                assert(nodes[i].disjoint(nodes[k]));
            }
        }
    }

    /// In sequences without a shared reference, the shape that a reference
    /// names is the only one that contains it.
    pub proof fn lemma_head(nodes: Seq<Self>, r: NodeRef, i: int)
        requires
            Self::all_distinct(nodes),
            0 <= i < nodes.len(),
            nodes[i].id == r,
        ensures
            Self::heads(nodes, r),
            Self::head(nodes, r) == i,
            Self::holder(nodes, r) == i,
            Self::among(nodes, r),
    {
        Self::lemma_holder(nodes, r, i);
        let h = Self::head(nodes, r);
        assert(nodes[h].contains(r));
    }

    /// A shape without a repeated reference has children without a shared
    /// reference, none of which contains the shape's own.
    pub proof fn lemma_distinct(self)
        ensures
            self.distinct() <==> Self::all_distinct(self.children) && !Self::among(
                self.children,
                self.id,
            ),
    {
    }

    /// A reference is found exactly where it is contained, and what is found
    /// is a part of the whole.
    pub proof fn lemma_find(self, r: NodeRef)
        ensures
            self.find(r) is Some <==> self.contains(r),
            self.find(r) matches Some(s) ==> {
                &&& s.id == r
                &&& forall|x: NodeRef| #[trigger] s.contains(x) ==> self.contains(x)
                &&& self.distinct() ==> s.distinct()
            },
        decreases self,
    {
        if self.id != r && Self::among(self.children, r) {
            let h = Self::holder(self.children, r);
            self.children[h].lemma_find(r);
        }
    }

    /// A reference is found among shapes exactly where one of them contains
    /// it, and what is found is a part of one of them.
    pub proof fn lemma_find_among(nodes: Seq<Self>, r: NodeRef)
        ensures
            Self::find_among(nodes, r) is Some <==> Self::among(nodes, r),
            Self::find_among(nodes, r) matches Some(s) ==> {
                &&& s.id == r
                &&& forall|x: NodeRef| #[trigger] s.contains(x) ==> Self::among(nodes, x)
                &&& Self::all_distinct(nodes) ==> s.distinct()
            },
    {
        if Self::among(nodes, r) {
            let h = Self::holder(nodes, r);
            nodes[h].lemma_find(r);
        }
    }

    /// Removing below a node is removing among its children.
    pub proof fn lemma_remove_unfold(self, r: NodeRef)
        ensures
            self.remove(r) == (Shape { children: Self::remove_among(self.children, r), ..self }),
    {
    }

    /// What is left after a removal names each node once, and names exactly
    /// the nodes that were not removed.
    pub proof fn lemma_remove(self, r: NodeRef)
        requires
            self.distinct(),
        ensures
            self.remove(r).distinct(),
            self.remove(r).id == self.id,
            forall|x: NodeRef|
                #![trigger self.remove(r).contains(x)]
                #![trigger self.contains(x)]
                self.remove(r).contains(x) <==> self.contains(x) && !(self.descendant(r)
                    && self.find(r).unwrap().contains(x)),
        decreases self, 1int,
    {
        let kids = self.children;
        let left = Self::remove_among(kids, r);
        self.lemma_remove_unfold(r);
        Self::lemma_remove_among(kids, r);
        Self::lemma_find_among(kids, r);
        if self.id == r {
            assert(!Self::among(kids, r));
            assert(!Self::heads(kids, r)) by {
                if Self::heads(kids, r) {
                    let i = Self::head(kids, r);
                    assert(kids[i].contains(r));
                }
            }
        }
        assert forall|x: NodeRef| Self::among(left, x) implies Self::among(kids, x) by {}
        assert forall|x: NodeRef|
            self.remove(r).contains(x) <==> self.contains(x) && !(self.descendant(r) && self.find(
                r,
            ).unwrap().contains(x)) by {
            if self.remove(r).contains(x) && x != self.id {
                let i = choose|i: int| 0 <= i < left.len() && (#[trigger] left[i]).contains(x);
                assert(Self::among(left, x));
            }
            if self.contains(x) && x != self.id {
                let i = choose|i: int| 0 <= i < kids.len() && (#[trigger] kids[i]).contains(x);
                assert(Self::among(kids, x));
            }
            if Self::among(left, x) {
                let i = Self::holder(left, x);
                assert(self.remove(r).children[i].contains(x));
            }
        }
        assert(self.remove(r).distinct()) by {
            assert forall|i: int| 0 <= i < left.len() implies !(#[trigger] left[i]).contains(
                self.id,
            ) by {
                if left[i].contains(self.id) {
                    assert(Self::among(left, self.id));
                }
            }
        }
    }

    /// What is left of a sequence of shapes after a removal shares no
    /// reference, and names exactly the nodes that were not removed.
    pub proof fn lemma_remove_among(nodes: Seq<Self>, r: NodeRef)
        requires
            Self::all_distinct(nodes),
        ensures
            Self::all_distinct(Self::remove_among(nodes, r)),
            forall|x: NodeRef|
                #![trigger Self::among(Self::remove_among(nodes, r), x)]
                #![trigger Self::among(nodes, x)]
                Self::among(Self::remove_among(nodes, r), x) <==> Self::among(nodes, x) && !(
                Self::find_among(nodes, r) matches Some(s) && s.contains(x)),
        decreases nodes, 0int,
    {
        let left = Self::remove_among(nodes, r);
        if Self::heads(nodes, r) {
            let i = Self::head(nodes, r);
            Self::lemma_head(nodes, r, i);
            assert(Self::find_among(nodes, r) == Some(nodes[i]));
            assert forall|x: NodeRef|
                Self::among(left, x) <==> Self::among(nodes, x) && !nodes[i].contains(x) by {
                if Self::among(left, x) {
                    let k = Self::holder(left, x);
                    let k0 = if k < i { k } else { k + 1 };
                    assert(left[k] == nodes[k0]);
                    Self::lemma_holder(nodes, x, k0);
                }
                if Self::among(nodes, x) && !nodes[i].contains(x) {
                    let k0 = Self::holder(nodes, x);
                    let k = if k0 < i { k0 } else { k0 - 1 };
                    assert(left[k] == nodes[k0]);
                }
            }
            assert(Self::all_distinct(left)) by {
                assert forall|a: int| 0 <= a < left.len() implies (#[trigger] left[a]).distinct() by {
                    let a0 = if a < i { a } else { a + 1 };
                    assert(left[a] == nodes[a0]);
                }
                assert forall|a: int, b: int| 0 <= a < b < left.len() implies (#[trigger] left[a]).disjoint(
                    #[trigger] left[b],
                ) by {
                    let a0 = if a < i { a } else { a + 1 };
                    let b0 = if b < i { b } else { b + 1 };
                    assert(left[a] == nodes[a0]);
                    assert(left[b] == nodes[b0]);
                    assert(nodes[a0].disjoint(nodes[b0]));
                }
            }
        } else if Self::among(nodes, r) {
            let i = Self::holder(nodes, r);
            Self::lemma_holder(nodes, r, i);
            nodes[i].lemma_remove(r);
            nodes[i].lemma_find(r);
            let fresh = nodes[i].remove(r);
            assert(nodes[i].descendant(r));
            assert forall|x: NodeRef|
                Self::among(left, x) <==> Self::among(nodes, x) && !(nodes[i].find(r).unwrap().contains(
                    x,
                )) by {
                if Self::among(left, x) {
                    let k = Self::holder(left, x);
                    if k == i {
                        assert(nodes[i].contains(x));
                    } else {
                        assert(left[k] == nodes[k]);
                        assert(nodes[k].contains(x));
                        if k < i {
                            assert(nodes[k].disjoint(nodes[i]));
                        } else {
                            assert(nodes[i].disjoint(nodes[k]));
                        }
                    }
                }
                if Self::among(nodes, x) && !(nodes[i].find(r).unwrap().contains(x)) {
                    let k = Self::holder(nodes, x);
                    if k == i {
                        assert(left[i].contains(x));
                    } else {
                        assert(left[k] == nodes[k]);
                        assert(left[k].contains(x));
                    }
                }
            }
            assert(Self::all_distinct(left)) by {
                assert forall|a: int| 0 <= a < left.len() implies (#[trigger] left[a]).distinct() by {
                    if a != i {
                        assert(left[a] == nodes[a]);
                    }
                }
                assert forall|a: int, b: int| 0 <= a < b < left.len() implies (#[trigger] left[a]).disjoint(
                    #[trigger] left[b],
                ) by {
                    assert(nodes[a].disjoint(nodes[b]));
                    assert forall|x: NodeRef| left[a].contains(x) implies nodes[a].contains(x) by {}
                    assert forall|x: NodeRef| left[b].contains(x) implies nodes[b].contains(x) by {}
                }
            }
        } else {
        }
    }

    /// Grafting below a node other than the target is grafting among its
    /// children.
    pub proof fn lemma_graft_unfold(self, at: NodeRef, index: int, sub: Self)
        requires
            self.id != at,
        ensures
            self.graft(at, index, sub) == (Shape {
                children: Self::graft_among(self.children, at, index, sub),
                ..self
            }),
    {
    }

    /// A graft keeps every node and adds those of the grafted shape, which
    /// is found again unchanged below the target.
    pub proof fn lemma_graft(self, at: NodeRef, index: int, sub: Self)
        requires
            self.distinct(),
            sub.distinct(),
            self.disjoint(sub),
            self.contains(at),
            0 <= index <= self.find(at).unwrap().children.len(),
        ensures
            self.graft(at, index, sub).distinct(),
            self.graft(at, index, sub).id == self.id,
            forall|x: NodeRef|
                #![trigger self.graft(at, index, sub).contains(x)]
                #![trigger self.contains(x)]
                #![trigger sub.contains(x)]
                self.graft(at, index, sub).contains(x) <==> self.contains(x) || sub.contains(x),
            self.graft(at, index, sub).find(sub.id) == Some(sub),
            self.graft(at, index, sub).parent_of(sub.id) == Some(at),
        decreases self, 1int,
    {
        let kids = self.children;
        let grown = self.graft(at, index, sub);
        assert(self.contains(self.id));
        assert(sub.contains(sub.id));
        if self.id == at {
            let next = kids.insert(index, sub);
            assert(grown.children == next);
            assert forall|x: NodeRef| Self::among(next, x) <==> Self::among(kids, x) || sub.contains(
                x,
            ) by {
                if Self::among(next, x) {
                    let k = Self::holder(next, x);
                    if k < index {
                        assert(next[k] == kids[k]);
                    } else if k > index {
                        assert(next[k] == kids[k - 1]);
                    }
                }
                if Self::among(kids, x) {
                    let k = Self::holder(kids, x);
                    let k1 = if k < index { k } else { k + 1 };
                    assert(next[k1] == kids[k]);
                }
                if sub.contains(x) {
                    assert(next[index] == sub);
                }
            }
            assert forall|k: int| 0 <= k < kids.len() implies (#[trigger] kids[k]).disjoint(sub) by {
                assert forall|x: NodeRef| kids[k].contains(x) implies self.contains(x) by {}
            }
            assert(Self::all_distinct(next)) by {
                assert forall|a: int| 0 <= a < next.len() implies (#[trigger] next[a]).distinct() by {
                    if a < index {
                        assert(next[a] == kids[a]);
                    } else if a > index {
                        assert(next[a] == kids[a - 1]);
                    }
                }
                assert forall|a: int, b: int| 0 <= a < b < next.len() implies (#[trigger] next[a]).disjoint(
                    #[trigger] next[b],
                ) by {
                    let a0 = if a < index { a } else { a - 1 };
                    let b0 = if b < index { b } else { b - 1 };
                    if a != index && b != index {
                        assert(next[a] == kids[a0]);
                        assert(next[b] == kids[b0]);
                        assert(kids[a0].disjoint(kids[b0]));
                    } else if a == index {
                        assert(next[b] == kids[b0]);
                        assert(kids[b0].disjoint(sub));
                    } else {
                        assert(next[a] == kids[a0]);
                        assert(kids[a0].disjoint(sub));
                    }
                }
            }
            assert(next[index] == sub);
            Self::lemma_head(next, sub.id, index);
            grown.lemma_distinct();
            self.lemma_distinct();
            assert(grown.id != sub.id);
            assert(sub.find(sub.id) == Some(sub));
            assert(grown.find(sub.id) == Some(sub));
            assert forall|x: NodeRef| grown.contains(x) <==> self.contains(x) || sub.contains(x) by {
                if grown.contains(x) && x != grown.id {
                    let k = choose|k: int| 0 <= k < next.len() && (#[trigger] next[k]).contains(x);
                    assert(Self::among(next, x));
                }
                if self.contains(x) && x != self.id {
                    let k = choose|k: int| 0 <= k < kids.len() && (#[trigger] kids[k]).contains(x);
                    assert(Self::among(kids, x));
                }
                if Self::among(next, x) {
                    let k = Self::holder(next, x);
                    assert(grown.children[k].contains(x));
                }
            }
        } else {
            self.lemma_graft_unfold(at, index, sub);
            let h = Self::holder(kids, at);
            assert(Self::among(kids, at));
            self.lemma_distinct();
            Self::lemma_holder(kids, at, h);
            assert forall|x: NodeRef| kids[h].contains(x) implies self.contains(x) by {}
            assert(kids[h].disjoint(sub));
            kids[h].lemma_graft(at, index, sub);
            let fresh = kids[h].graft(at, index, sub);
            let next = kids.update(h, fresh);
            assert(grown.children == next);
            assert forall|x: NodeRef| Self::among(next, x) <==> Self::among(kids, x) || sub.contains(
                x,
            ) by {
                if Self::among(next, x) {
                    let k = Self::holder(next, x);
                    if k != h {
                        assert(next[k] == kids[k]);
                    } else {
                        assert(kids[h].contains(x) || sub.contains(x));
                    }
                }
                if Self::among(kids, x) {
                    let k = Self::holder(kids, x);
                    if k != h {
                        assert(next[k] == kids[k]);
                    } else {
                        assert(next[h].contains(x));
                    }
                }
                if sub.contains(x) {
                    assert(next[h].contains(x));
                }
            }
            assert(Self::all_distinct(next)) by {
                assert forall|a: int| 0 <= a < next.len() implies (#[trigger] next[a]).distinct() by {
                    if a != h {
                        assert(next[a] == kids[a]);
                    }
                }
                assert forall|a: int, b: int| 0 <= a < b < next.len() implies (#[trigger] next[a]).disjoint(
                    #[trigger] next[b],
                ) by {
                    assert(kids[a].disjoint(kids[b]));
                    assert forall|x: NodeRef| kids[a].contains(x) implies self.contains(x) by {}
                    assert forall|x: NodeRef| kids[b].contains(x) implies self.contains(x) by {}
                    if a == h {
                        assert(next[b] == kids[b]);
                    } else if b == h {
                        assert(next[a] == kids[a]);
                    } else {
                        assert(next[a] == kids[a]);
                        assert(next[b] == kids[b]);
                    }
                }
            }
            grown.lemma_distinct();
            assert(fresh.contains(sub.id));
            Self::lemma_holder(next, sub.id, h);
            assert(!Self::heads(next, sub.id)) by {
                if Self::heads(next, sub.id) {
                    let k = Self::head(next, sub.id);
                    if k != h {
                        assert(next[k] == kids[k]);
                        assert(kids[k].contains(sub.id));
                    } else {
                        assert(kids[h].contains(kids[h].id));
                    }
                }
            }
            assert(grown.id != sub.id);
            assert(grown.find(sub.id) == Some(sub));
            assert forall|x: NodeRef| grown.contains(x) <==> self.contains(x) || sub.contains(x) by {
                if grown.contains(x) && x != grown.id {
                    let k = choose|k: int| 0 <= k < next.len() && (#[trigger] next[k]).contains(x);
                    assert(Self::among(next, x));
                }
                if self.contains(x) && x != self.id {
                    let k = choose|k: int| 0 <= k < kids.len() && (#[trigger] kids[k]).contains(x);
                    assert(Self::among(kids, x));
                }
                if Self::among(next, x) {
                    let k = Self::holder(next, x);
                    assert(grown.children[k].contains(x));
                }
            }
        }
    }

    /// The root has no parent.
    pub proof fn lemma_root_has_no_parent(self)
        requires
            self.distinct(),
        ensures
            self.parent_of(self.id) is None,
    {
        if Self::heads(self.children, self.id) {
            let i = Self::head(self.children, self.id);
            assert(self.children[i].contains(self.id));
        }
    }

    /// Every node but the root has a parent in the tree, and is found once
    /// among the children of that parent.
    pub proof fn lemma_parent(self, r: NodeRef)
        requires
            self.distinct(),
        ensures
            match self.parent_of(r) {
                Some(p) => {
                    &&& self.descendant(r)
                    &&& self.contains(p)
                    &&& p != r
                    &&& Self::heads(self.find(p).unwrap().children, r)
                    &&& Some(
                        self.find(p).unwrap().children[Self::head(
                            self.find(p).unwrap().children,
                            r,
                        )],
                    ) == self.find(r)
                    &&& forall|i: int|
                        0 <= i < self.find(p).unwrap().children.len() && i != Self::head(
                            self.find(p).unwrap().children,
                            r,
                        ) ==> (#[trigger] self.find(p).unwrap().children[i]).id != r
                },
                None => !self.descendant(r),
            },
        decreases self,
    {
        let kids = self.children;
        self.lemma_distinct();
        if Self::heads(kids, r) {
            let i = Self::head(kids, r);
            Self::lemma_head(kids, r, i);
            assert(kids[i].find(r) == Some(kids[i]));
            assert forall|k: int| 0 <= k < kids.len() && k != i implies (#[trigger] kids[k]).id
                != r by {
                if kids[k].id == r {
                    Self::lemma_head(kids, r, k);
                }
            }
        } else if Self::among(kids, r) {
            let h = Self::holder(kids, r);
            Self::lemma_holder(kids, r, h);
            kids[h].lemma_parent(r);
            assert(kids[h].id != r);
            let p = kids[h].parent_of(r).unwrap();
            Self::lemma_holder(kids, p, h);
            assert(self.id != p);
            assert(self.find(p) == kids[h].find(p));
            assert(self.find(r) == kids[h].find(r));
        } else {
            if self.descendant(r) {
                let k = choose|k: int| 0 <= k < kids.len() && (#[trigger] kids[k]).contains(r);
                assert(Self::among(kids, r));
            }
        }
    }

    /// The children of a node that is found in a tree are found in it too,
    /// each with that node as its parent.
    pub proof fn lemma_child(self, r: NodeRef, i: int)
        requires
            self.distinct(),
            self.contains(r),
            0 <= i < self.find(r).unwrap().children.len(),
        ensures
            self.find(self.find(r).unwrap().children[i].id) == Some(
                self.find(r).unwrap().children[i],
            ),
            self.parent_of(self.find(r).unwrap().children[i].id) == Some(r),
        decreases self,
    {
        let kids = self.children;
        self.lemma_distinct();
        self.lemma_find(r);
        if self.id == r {
            let c = kids[i];
            assert(c.contains(c.id));
            Self::lemma_head(kids, c.id, i);
            assert(c.find(c.id) == Some(c));
        } else {
            let h = Self::holder(kids, r);
            assert(Self::among(kids, r)) by {
                let k = choose|k: int| 0 <= k < kids.len() && (#[trigger] kids[k]).contains(r);
            }
            Self::lemma_holder(kids, r, h);
            kids[h].lemma_child(r, i);
            let c = kids[h].find(r).unwrap().children[i];
            kids[h].lemma_find(c.id);
            Self::lemma_holder(kids, c.id, h);
            kids[h].lemma_root_has_no_parent();
            assert(kids[h].id != c.id);
            assert(!Self::heads(kids, c.id)) by {
                if Self::heads(kids, c.id) {
                    let k = Self::head(kids, c.id);
                    Self::lemma_head(kids, c.id, k);
                }
            }
        }
    }

    /// Replacing a content below a node other than the target is replacing
    /// it among the children.
    pub proof fn lemma_with_content_unfold(self, at: NodeRef, content: T)
        requires
            self.id != at,
        ensures
            self.with_content(at, content) == (Shape {
                children: Self::with_content_among(self.children, at, content),
                ..self
            }),
    {
    }

    /// Replacing a content changes no reference and no arrangement.
    pub proof fn lemma_with_content(self, at: NodeRef, content: T)
        requires
            self.distinct(),
        ensures
            self.with_content(at, content).distinct(),
            self.with_content(at, content).id == self.id,
            self.with_content(at, content).children.len() == self.children.len(),
            forall|x: NodeRef|
                #![trigger self.with_content(at, content).contains(x)]
                #![trigger self.contains(x)]
                self.with_content(at, content).contains(x) <==> self.contains(x),
            self.contains(at) ==> self.with_content(at, content).find(at) == Some(
                Shape { content, ..self.find(at).unwrap() },
            ),
            !self.contains(at) ==> self.with_content(at, content) == self,
        decreases self,
    {
        let kids = self.children;
        let changed = self.with_content(at, content);
        self.lemma_distinct();
        if self.id == at {
            assert(changed.children == kids);
            assert forall|x: NodeRef| changed.contains(x) <==> self.contains(x) by {
                if changed.contains(x) && x != self.id {
                    let k = choose|k: int|
                        0 <= k < changed.children.len() && (#[trigger] changed.children[k]).contains(
                            x,
                        );
                    assert(kids[k].contains(x));
                }
                if self.contains(x) && x != self.id {
                    let k = choose|k: int| 0 <= k < kids.len() && (#[trigger] kids[k]).contains(x);
                    assert(changed.children[k].contains(x));
                }
            }
            assert(changed.distinct()) by {
                assert forall|i: int| 0 <= i < changed.children.len() implies (
                #[trigger] changed.children[i]).distinct() && !changed.children[i].contains(
                    changed.id,
                ) by {
                    assert(kids[i].distinct());
                }
                assert forall|i: int, j: int| 0 <= i < j < changed.children.len() implies (
                #[trigger] changed.children[i]).disjoint(#[trigger] changed.children[j]) by {
                    assert(kids[i].disjoint(kids[j]));
                }
            }
        } else if Self::among(kids, at) {
            let h = Self::holder(kids, at);
            Self::lemma_holder(kids, at, h);
            kids[h].lemma_with_content(at, content);
            let fresh = kids[h].with_content(at, content);
            let next = kids.update(h, fresh);
            assert(changed.children == next);
            assert forall|x: NodeRef| Self::among(next, x) <==> Self::among(kids, x) by {
                if Self::among(next, x) {
                    let k = Self::holder(next, x);
                    if k != h {
                        assert(next[k] == kids[k]);
                    }
                    assert(kids[k].contains(x));
                }
                if Self::among(kids, x) {
                    let k = Self::holder(kids, x);
                    if k != h {
                        assert(next[k] == kids[k]);
                    }
                    assert(next[k].contains(x));
                }
            }
            assert(Self::all_distinct(next)) by {
                assert forall|a: int| 0 <= a < next.len() implies (#[trigger] next[a]).distinct() by {
                    if a != h {
                        assert(next[a] == kids[a]);
                    }
                }
                assert forall|a: int, b: int| 0 <= a < b < next.len() implies (#[trigger] next[a]).disjoint(
                    #[trigger] next[b],
                ) by {
                    assert(kids[a].disjoint(kids[b]));
                    if a != h {
                        assert(next[a] == kids[a]);
                    }
                    if b != h {
                        assert(next[b] == kids[b]);
                    }
                }
            }
            changed.lemma_distinct();
            assert(fresh.contains(at));
            Self::lemma_holder(next, at, h);
            assert forall|x: NodeRef| changed.contains(x) <==> self.contains(x) by {
                if changed.contains(x) && x != self.id {
                    let k = choose|k: int| 0 <= k < next.len() && (#[trigger] next[k]).contains(x);
                    assert(Self::among(next, x));
                }
                if self.contains(x) && x != self.id {
                    let k = choose|k: int| 0 <= k < kids.len() && (#[trigger] kids[k]).contains(x);
                    assert(Self::among(kids, x));
                }
                if Self::among(next, x) {
                    let k = Self::holder(next, x);
                    assert(changed.children[k].contains(x));
                }
                if Self::among(kids, x) {
                    let k = Self::holder(kids, x);
                    assert(self.children[k].contains(x));
                }
            }
            assert(self.contains(at));
            assert(changed.find(at) == fresh.find(at));
            assert(self.find(at) == kids[h].find(at));
        } else {
            if self.contains(at) {
                let k = choose|k: int| 0 <= k < kids.len() && (#[trigger] kids[k]).contains(at);
                assert(Self::among(kids, at));
            }
        }
    }

    /// The first `k` of `nodes` hold no more nodes than all of them.
    pub proof fn lemma_prefix_size(nodes: Seq<Self>, k: int)
        requires
            0 <= k <= nodes.len(),
        ensures
            Self::total_size(nodes.take(k)) <= Self::total_size(nodes),
        decreases nodes.len(),
    {
        if k == nodes.len() {
            assert(nodes.take(k) =~= nodes);
        } else {
            Self::lemma_prefix_size(nodes.drop_last(), k);
            assert(nodes.drop_last().take(k) =~= nodes.take(k));
        }
    }

    /// Two sequences of shapes hold as many nodes as each holds.
    pub proof fn lemma_size_concat(a: Seq<Self>, b: Seq<Self>)
        ensures
            Self::total_size(a + b) == Self::total_size(a) + Self::total_size(b),
        decreases b.len(),
    {
        if b.len() == 0 {
            assert(a + b =~= a);
        } else {
            assert((a + b).drop_last() =~= a + b.drop_last());
            Self::lemma_size_concat(a, b.drop_last());
        }
    }

    /// A sequence of shapes holds the nodes of one of them and those of the
    /// shapes before and behind it.
    pub proof fn lemma_size_split(nodes: Seq<Self>, i: int)
        requires
            0 <= i < nodes.len(),
        ensures
            Self::total_size(nodes) == Self::total_size(nodes.take(i)) + nodes[i].size()
                + Self::total_size(nodes.skip(i + 1)),
    {
        let one = seq![nodes[i]];
        assert(nodes =~= (nodes.take(i) + one) + nodes.skip(i + 1));
        Self::lemma_size_concat(nodes.take(i) + one, nodes.skip(i + 1));
        Self::lemma_size_concat(nodes.take(i), one);
        assert(one.drop_last() =~= Seq::empty());
        assert(Self::total_size(one) == Self::total_size(one.drop_last()) + one.last().size());
    }

    /// A shape that is put among others adds its nodes to theirs.
    pub proof fn lemma_size_insert(nodes: Seq<Self>, i: int, sub: Self)
        requires
            0 <= i <= nodes.len(),
        ensures
            Self::total_size(nodes.insert(i, sub)) == Self::total_size(nodes) + sub.size(),
    {
        let grown = nodes.insert(i, sub);
        Self::lemma_size_split(grown, i);
        assert(grown.take(i) =~= nodes.take(i));
        assert(grown.skip(i + 1) =~= nodes.skip(i));
        assert(nodes =~= nodes.take(i) + nodes.skip(i));
        Self::lemma_size_concat(nodes.take(i), nodes.skip(i));
    }

    /// A shape that is taken from among others takes its nodes from theirs.
    pub proof fn lemma_size_remove(nodes: Seq<Self>, i: int)
        requires
            0 <= i < nodes.len(),
        ensures
            Self::total_size(nodes.remove(i)) + nodes[i].size() == Self::total_size(nodes),
    {
        let left = nodes.remove(i);
        Self::lemma_size_split(nodes, i);
        assert(left =~= nodes.take(i) + nodes.skip(i + 1));
        Self::lemma_size_concat(nodes.take(i), nodes.skip(i + 1));
    }

    /// A shape that takes the place of another among others brings its
    /// nodes for those of the other.
    pub proof fn lemma_size_update(nodes: Seq<Self>, i: int, sub: Self)
        requires
            0 <= i < nodes.len(),
        ensures
            Self::total_size(nodes.update(i, sub)) + nodes[i].size() == Self::total_size(nodes)
                + sub.size(),
    {
        let changed = nodes.update(i, sub);
        Self::lemma_size_split(nodes, i);
        Self::lemma_size_split(changed, i);
        assert(changed.take(i) =~= nodes.take(i));
        assert(changed.skip(i + 1) =~= nodes.skip(i + 1));
    }

    /// A graft adds the nodes of the grafted shape.
    pub proof fn lemma_graft_size(self, at: NodeRef, index: int, sub: Self)
        requires
            self.contains(at),
            0 <= index <= self.find(at).unwrap().children.len(),
        ensures
            self.graft(at, index, sub).size() == self.size() + sub.size(),
        decreases self,
    {
        let kids = self.children;
        if self.id == at {
            Self::lemma_size_insert(kids, index, sub);
        } else {
            assert(Self::among(kids, at)) by {
                let k = choose|k: int| 0 <= k < kids.len() && (#[trigger] kids[k]).contains(at);
            }
            let h = Self::holder(kids, at);
            kids[h].lemma_graft_size(at, index, sub);
            Self::lemma_size_update(kids, h, kids[h].graft(at, index, sub));
        }
    }

    /// A removal takes away the nodes of what is removed.
    pub proof fn lemma_remove_size(self, r: NodeRef)
        requires
            self.distinct(),
            self.descendant(r),
        ensures
            self.remove(r).size() + self.find(r).unwrap().size() == self.size(),
        decreases self,
    {
        let kids = self.children;
        self.lemma_distinct();
        if Self::heads(kids, r) {
            let i = Self::head(kids, r);
            Self::lemma_head(kids, r, i);
            Self::lemma_size_remove(kids, i);
            assert(kids[i].find(r) == Some(kids[i]));
        } else {
            assert(Self::among(kids, r)) by {
                let k = choose|k: int| 0 <= k < kids.len() && (#[trigger] kids[k]).contains(r);
            }
            let h = Self::holder(kids, r);
            Self::lemma_holder(kids, r, h);
            kids[h].lemma_remove_size(r);
            Self::lemma_size_update(kids, h, kids[h].remove(r));
        }
    }

    /// Replacing a content changes the number of nodes nowhere.
    pub proof fn lemma_with_content_size(self, at: NodeRef, content: T)
        ensures
            self.with_content(at, content).size() == self.size(),
        decreases self,
    {
        let kids = self.children;
        if self.id != at && Self::among(kids, at) {
            let h = Self::holder(kids, at);
            kids[h].lemma_with_content_size(at, content);
            Self::lemma_size_update(kids, h, kids[h].with_content(at, content));
        }
    }
}

impl<T: Clone> Shape<T> {
    /// A clone holds as many nodes as its source.
    pub proof fn lemma_cloned_size(self, source: Self)
        requires
            self.cloned_from(source),
        ensures
            self.size() == source.size(),
        decreases self,
    {
        Self::lemma_cloned_sizes(self.children, source.children);
    }

    /// Clones hold as many nodes as their sources.
    pub proof fn lemma_cloned_sizes(nodes: Seq<Self>, sources: Seq<Self>)
        requires
            nodes.len() == sources.len(),
            forall|i: int| 0 <= i < nodes.len() ==> (#[trigger] nodes[i]).cloned_from(sources[i]),
        ensures
            Self::total_size(nodes) == Self::total_size(sources),
        decreases nodes,
    {
        if nodes.len() > 0 {
            nodes.last().lemma_cloned_size(sources.last());
            assert forall|i: int| 0 <= i < nodes.drop_last().len() implies (
            #[trigger] nodes.drop_last()[i]).cloned_from(sources.drop_last()[i]) by {
                assert(nodes.drop_last()[i] == nodes[i]);
            }
            Self::lemma_cloned_sizes(nodes.drop_last(), sources.drop_last());
        }
    }
}

} // verus!
