//! What holds of every tree, and of operations that follow one another.
use vstd::prelude::*;
use vstd::std_specs::cmp::PartialEqSpec;
use crate::ids::NodeRef;
use crate::shape::Shape;

verus! {

impl<T> Shape<T> {
    /// How many steps the node that `r` names lies below the root of this
    /// shape.
    pub open spec fn depth(self, r: NodeRef) -> nat
        decreases self,
    {
        if self.id != r && Self::among(self.children, r) {
            1 + self.children[Self::holder(self.children, r)].depth(r)
        } else {
            0
        }
    }

    /// The node that is reached from the node that `r` names by going to the
    /// parent `steps` times.
    pub open spec fn ancestor(self, r: NodeRef, steps: nat) -> Option<NodeRef>
        decreases steps,
    {
        if steps == 0 {
            if self.contains(r) {
                Some(r)
            } else {
                None
            }
        } else {
            match self.parent_of(r) {
                Some(p) => self.ancestor(p, (steps - 1) as nat),
                None => None,
            }
        }
    }

    /// A node lies one step deeper than its parent.
    pub proof fn lemma_depth_of_parent(self, r: NodeRef)
        requires
            self.distinct(),
            self.parent_of(r) is Some,
        ensures
            self.depth(r) == self.depth(self.parent_of(r).unwrap()) + 1,
        decreases self,
    {
        let kids = self.children;
        let p = self.parent_of(r).unwrap();
        self.lemma_distinct();
        self.lemma_parent(r);
        if Self::heads(kids, r) {
            let i = Self::head(kids, r);
            Self::lemma_head(kids, r, i);
            assert(kids[i].depth(r) == 0);
            assert(self.id != r);
        } else {
            let h = Self::holder(kids, r);
            Self::lemma_holder(kids, r, h);
            kids[h].lemma_parent(r);
            kids[h].lemma_depth_of_parent(r);
            Self::lemma_holder(kids, p, h);
        }
    }

    /// Going to the parent `steps` times leads to a node that lies `steps`
    /// steps higher.
    pub proof fn lemma_depth_of_ancestor(self, r: NodeRef, steps: nat)
        requires
            self.distinct(),
            self.ancestor(r, steps) is Some,
        ensures
            self.depth(self.ancestor(r, steps).unwrap()) + steps == self.depth(r),
        decreases steps,
    {
        if steps > 0 {
            let p = self.parent_of(r).unwrap();
            self.lemma_depth_of_parent(r);
            self.lemma_depth_of_ancestor(p, (steps - 1) as nat);
        }
    }

    /// The parent references of a tree are those of a tree: the root has no
    /// parent; every other node has a parent that is a node of the tree and
    /// has the node among its children, once; and no node is reached from
    /// itself by going from parent to parent.
    pub proof fn law_parents(self, r: NodeRef, steps: nat)
        requires
            self.distinct(),
        ensures
            self.parent_of(self.id) is None,
            self.descendant(r) <==> self.parent_of(r) is Some,
            self.parent_of(r) matches Some(p) ==> {
                &&& self.contains(p)
                &&& Self::heads(self.siblings(r), r)
                &&& Some(self.siblings(r)[self.position(r)]) == self.find(r)
                &&& forall|i: int|
                    0 <= i < self.siblings(r).len() && i != self.position(r) ==> (
                    #[trigger] self.siblings(r)[i]).id != r
            },
            steps >= 1 ==> self.ancestor(r, steps) != Some(r),
    {
        self.lemma_root_has_no_parent();
        self.lemma_parent(r);
        if steps >= 1 && self.ancestor(r, steps) == Some(r) {
            self.lemma_depth_of_ancestor(r, steps);
        }
    }

    /// No reference into a subtree that was taken out of a tree names a
    /// node of what is left: neither the reference of the node that was
    /// detached nor that of any node below it.
    pub proof fn law_detached_is_gone(self, r: NodeRef, x: NodeRef)
        requires
            self.distinct(),
            self.descendant(r),
            self.find(r).unwrap().contains(x),
        ensures
            !self.remove(r).contains(x),
            !self.remove(r).descendant(x),
            self.remove(r).find(x) is None,
    {
        self.lemma_remove(r);
        self.remove(r).lemma_find(x);
    }

    /// What is taken out of a tree and what is left share no reference, and
    /// together they hold the nodes that the tree held.
    pub proof fn law_detach_splits(self, r: NodeRef)
        requires
            self.distinct(),
            self.descendant(r),
        ensures
            self.find(r) is Some,
            self.find(r).unwrap().id == r,
            self.find(r).unwrap().distinct(),
            self.remove(r).distinct(),
            self.remove(r).disjoint(self.find(r).unwrap()),
            forall|x: NodeRef|
                self.contains(x) <==> self.remove(r).contains(x) || self.find(r).unwrap().contains(
                    x,
                ),
    {
        self.lemma_remove(r);
        self.lemma_find(r);
    }

    /// A node that is detached and attached again, at any node of what was
    /// left, is found under its old reference with the content and the
    /// descendants that it had; its new parent is the node it was attached
    /// to; and the children of its old parent do not include it before it
    /// is attached again.
    pub proof fn law_reattach(self, r: NodeRef, at: NodeRef, index: int)
        requires
            self.distinct(),
            self.descendant(r),
            self.remove(r).contains(at),
            0 <= index <= self.remove(r).find(at).unwrap().children.len(),
        ensures
            self.remove(r).refusal(at, index, self.find(r).unwrap()) is None,
            self.remove(r).graft(at, index, self.find(r).unwrap()).find(r) == self.find(r),
            self.remove(r).graft(at, index, self.find(r).unwrap()).parent_of(r) == Some(at),
            self.remove(r).graft(at, index, self.find(r).unwrap()).distinct(),
            !self.remove(r).contains(r),
            self.remove(r).contains(self.parent_of(r).unwrap()),
            forall|i: int|
                0 <= i < self.remove(r).find(self.parent_of(r).unwrap()).unwrap().children.len()
                    ==> (#[trigger] self.remove(r).find(
                    self.parent_of(r).unwrap(),
                ).unwrap().children[i]).id != r,
    {
        let sub = self.find(r).unwrap();
        let left = self.remove(r);
        let p = self.parent_of(r).unwrap();
        self.law_detach_splits(r);
        self.lemma_parent(r);
        self.lemma_find(p);
        assert(sub.contains(r));
        left.lemma_graft(at, index, sub);
        // The old parent is not a part of what was taken out.
        let old_parent = self.find(p).unwrap();
        let i = Self::head(old_parent.children, r);
        assert(old_parent.children[i] == sub);
        assert(!sub.contains(p));
        assert(left.contains(p));
        left.lemma_find(p);
        assert forall|k: int| 0 <= k < left.find(p).unwrap().children.len() implies (
        #[trigger] left.find(p).unwrap().children[k]).id != r by {
            left.lemma_child(p, k);
            left.lemma_find(left.find(p).unwrap().children[k].id);
        }
    }

    /// A subtree that is attached and detached again leaves the tree as it
    /// was.
    pub proof fn law_attach_is_undone(self, at: NodeRef, index: int, sub: Self)
        requires
            self.distinct(),
            sub.distinct(),
            self.refusal(at, index, sub) is None,
            0 <= index,
        ensures
            self.graft(at, index, sub).descendant(sub.id),
            self.graft(at, index, sub).find(sub.id) == Some(sub),
            self.graft(at, index, sub).remove(sub.id) == self,
        decreases self,
    {
        let kids = self.children;
        let grown = self.graft(at, index, sub);
        self.lemma_graft(at, index, sub);
        self.lemma_distinct();
        grown.lemma_distinct();
        grown.lemma_find(sub.id);
        assert(self.contains(self.id));
        assert(sub.contains(sub.id));
        if self.id == at {
            let next = kids.insert(index, sub);
            assert(grown.children == next);
            assert(next[index] == sub);
            Self::lemma_head(next, sub.id, index);
            assert(next.remove(index) =~= kids);
            assert(grown.remove(sub.id).children == kids);
        } else {
            self.lemma_graft_unfold(at, index, sub);
            assert(Self::among(kids, at)) by {
                let k = choose|k: int| 0 <= k < kids.len() && (#[trigger] kids[k]).contains(at);
            }
            let h = Self::holder(kids, at);
            Self::lemma_holder(kids, at, h);
            assert forall|x: NodeRef| kids[h].contains(x) implies self.contains(x) by {}
            assert(kids[h].disjoint(sub));
            kids[h].law_attach_is_undone(at, index, sub);
            let fresh = kids[h].graft(at, index, sub);
            let next = kids.update(h, fresh);
            assert(grown.children == next);
            assert(fresh.contains(sub.id));
            Self::lemma_holder(next, sub.id, h);
            assert(!Self::heads(next, sub.id)) by {
                if Self::heads(next, sub.id) {
                    let k = Self::head(next, sub.id);
                    Self::lemma_head(next, sub.id, k);
                }
            }
            assert(next.update(h, fresh.remove(sub.id)) =~= kids);
            assert(grown.remove(sub.id).children == kids);
        }
    }

    /// A node that is detached and attached again where it was leaves the
    /// tree as it was.
    pub proof fn law_detach_is_undone(self, r: NodeRef)
        requires
            self.distinct(),
            self.descendant(r),
        ensures
            self.remove(r).refusal(self.parent_of(r).unwrap(), self.position(r), self.find(r).unwrap())
                is None,
            self.remove(r).graft(self.parent_of(r).unwrap(), self.position(r), self.find(r).unwrap())
                == self,
        decreases self,
    {
        let kids = self.children;
        let left = self.remove(r);
        let sub = self.find(r).unwrap();
        let p = self.parent_of(r).unwrap();
        let i = self.position(r);
        self.lemma_distinct();
        self.lemma_parent(r);
        self.lemma_find(p);
        self.law_detach_splits(r);
        self.lemma_remove(r);
        self.lemma_remove_unfold(r);
        left.lemma_find(p);
        left.lemma_distinct();
        // The old parent is not a part of what was taken out.
        let old_parent = self.find(p).unwrap();
        assert(old_parent.children[i] == sub);
        assert(!sub.contains(p));
        assert(left.contains(p));
        if Self::heads(kids, r) {
            let k = Self::head(kids, r);
            Self::lemma_head(kids, r, k);
            assert(p == self.id);
            assert(i == k);
            assert(left.children == kids.remove(k));
            assert(kids.remove(k).insert(k, kids[k]) =~= kids);
            assert(left.graft(p, i, sub).children == kids);
        } else {
            let h = Self::holder(kids, r);
            Self::lemma_holder(kids, r, h);
            kids[h].lemma_parent(r);
            kids[h].lemma_remove(r);
            kids[h].law_detach_is_undone(r);
            Self::lemma_holder(kids, p, h);
            assert(self.find(p) == kids[h].find(p));
            assert(self.find(r) == kids[h].find(r));
            assert(i == kids[h].position(r));
            let less = kids[h].remove(r);
            let next = kids.update(h, less);
            assert(left.children == next);
            assert(p != self.id);
            assert(less.contains(p));
            Self::lemma_holder(next, p, h);
            left.lemma_graft_unfold(p, i, sub);
            less.lemma_find(p);
            assert(left.find(p) == less.find(p));
            assert(next.update(h, less.graft(p, i, sub)) =~= kids);
            assert(left.graft(p, i, sub).children == kids);
        }
    }

    /// Among the children of a node, the first has no sibling before it,
    /// the last has none after it, and each of the others has its
    /// neighbours; the root has no sibling at all.
    pub proof fn law_siblings(self, p: NodeRef, i: int)
        requires
            self.distinct(),
            self.contains(p),
            0 <= i < self.find(p).unwrap().children.len(),
        ensures
            self.next_sibling(self.id) is None,
            self.prev_sibling(self.id) is None,
            self.prev_sibling(self.find(p).unwrap().children[i].id) == if i == 0 {
                None
            } else {
                Some(self.find(p).unwrap().children[i - 1])
            },
            self.next_sibling(self.find(p).unwrap().children[i].id) == if i + 1
                == self.find(p).unwrap().children.len() {
                None
            } else {
                Some(self.find(p).unwrap().children[i + 1])
            },
    {
        let kids = self.find(p).unwrap().children;
        self.lemma_root_has_no_parent();
        self.lemma_find(p);
        self.lemma_child(p, i);
        self.find(p).unwrap().lemma_distinct();
        Self::lemma_head(kids, kids[i].id, i);
    }
}

impl<T: Clone + PartialEq> Shape<T> {
    /// A deep clone is structurally equal to its source, for contents whose
    /// clones are equal to them.
    pub proof fn law_clone_is_alike(self, source: Self)
        requires
            self.cloned_from(source),
            forall|a: T, b: T| #[trigger] cloned::<T>(a, b) ==> b.eq_spec(&a),
        ensures
            self.alike(source),
        decreases self,
    {
        assert forall|i: int| 0 <= i < self.children.len() implies (#[trigger] self.children[i]).alike(
            source.children[i],
        ) by {
            self.children[i].law_clone_is_alike(source.children[i]);
        }
    }
}

} // verus!
