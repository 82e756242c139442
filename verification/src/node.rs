//! Node storage and the builder that a tree is made from.
use vstd::prelude::*;
use vstd::std_specs::cmp::PartialEqSpec;
use crate::builder::NodeBuilder;
use crate::ids::{IdSource, NodeRef};
use crate::shape::Shape;

verus! {

/// The record of one node: its content, its reference, the reference of its
/// parent and the records of its children, which it owns, in sibling order.
#[derive(Debug)]
pub struct BaseNode<T> {
    pub content: T,
    pub(crate) id: NodeRef,
    pub(crate) parent: Option<NodeRef>,
    pub(crate) children: Vec<BaseNode<T>>,
}

impl<T> View for BaseNode<T> {
    type V = Shape<T>;

    /// The shape of this record and of the records below it.
    open spec fn view(&self) -> Shape<T> {
        self.shape()
    }
}

impl<T> BaseNode<T> {
    /// The shape of this record and of the records below it.
    pub open(crate) spec fn shape(self) -> Shape<T>
        decreases self,
    {
        Shape {
            id: self.id,
            content: self.content,
            children: Seq::new(
                self.children@.len(),
                |i: int|
                    if 0 <= i < self.children@.len() {
                        self.children@[i].shape()
                    } else {
                        arbitrary()
                    },
            ),
        }
    }

    /// The shapes of a sequence of records.
    pub open(crate) spec fn forest(nodes: Seq<BaseNode<T>>) -> Seq<Shape<T>> {
        Seq::new(nodes.len(), |i: int| nodes[i]@)
    }

    /// The reference that this record holds of its parent.
    pub open(crate) spec fn parent_ref(self) -> Option<NodeRef> {
        self.parent
    }

    /// Whether each record below `self` holds the reference of the record
    /// that owns it, and `self` holds `parent`.
    pub open(crate) spec fn linked(self, parent: Option<NodeRef>) -> bool
        decreases self,
    {
        &&& self.parent == parent
        &&& forall|i: int|
            0 <= i < self.children@.len() ==> (#[trigger] self.children@[i]).linked(Some(self.id))
    }

    /// Whether each record below `self` holds the reference of the record
    /// that owns it.
    pub open(crate) spec fn linked_below(self) -> bool {
        Self::all_linked(self.children@, self.id)
    }

    /// Whether each of `nodes` is linked below `parent`.
    pub open(crate) spec fn all_linked(nodes: Seq<BaseNode<T>>, parent: NodeRef) -> bool {
        forall|i: int| 0 <= i < nodes.len() ==> (#[trigger] nodes[i]).linked(Some(parent))
    }

    /// The shape of a record has the reference and the content of the
    /// record, and the shapes of its children.
    pub(crate) proof fn lemma_view(self)
        ensures
            self@.id == self.id,
            self@.content == self.content,
            self@.children == Self::forest(self.children@),
    {
        assert(self@.children =~= Self::forest(self.children@));
    }

    /// The record that `r` names, if it is this one or lies below it.
    pub(crate) fn find(&self, r: NodeRef, Ghost(parent): Ghost<Option<NodeRef>>) -> (res: Option<
        &BaseNode<T>,
    >)
        requires
            self@.distinct(),
            self.linked(parent),
        ensures
            match res {
                Some(n) => {
                    &&& self@.find(r) == Some(n@)
                    &&& n@.id == r
                    &&& n@.distinct()
                    &&& n.linked(if r == self@.id { parent } else { self@.parent_of(r) })
                },
                None => !self@.contains(r) && self@.find(r) is None,
            },
        decreases self,
    {
        if self.id == r {
            return Some(self);
        }
        let ghost kids = self@.children;
        let mut i: usize = 0;
        while i < self.children.len()
            invariant
                0 <= i <= self.children@.len(),
                kids == self@.children,
                kids.len() == self.children@.len(),
                self@.distinct(),
                self.linked(parent),
                self@.id != r,
                forall|k: int| 0 <= k < kids.len() ==> (#[trigger] kids[k]) == self.children@[k]@,
                forall|k: int| 0 <= k < i ==> !(#[trigger] kids[k]).contains(r),
            decreases self.children@.len() - i,
        {
            assert(kids[i as int] == self.children@[i as int]@);
            match self.children[i].find(r, Ghost(Some(self.id))) {
                Some(found) => {
                    proof {
                        Shape::lemma_holder(kids, r, i as int);
                        if kids[i as int].id == r {
                            Shape::lemma_head(kids, r, i as int);
                        } else {
                            assert forall|k: int| 0 <= k < kids.len() implies (#[trigger] kids[k]).id
                                != r by {}
                        }
                    }
                    return Some(found);
                },
                None => {},
            }
            i = i + 1;
        }
        None
    }

    /// Takes the record that `r` names out of `children` or from below them.
    pub(crate) fn detach_from(
        children: &mut Vec<BaseNode<T>>,
        r: NodeRef,
        Ghost(parent): Ghost<NodeRef>,
    ) -> (res: Option<BaseNode<T>>)
        requires
            Shape::all_distinct(Self::forest(old(children)@)),
            Self::all_linked(old(children)@, parent),
        ensures
            Self::all_linked(final(children)@, parent),
            match res {
                Some(n) => {
                    &&& Shape::find_among(Self::forest(old(children)@), r) == Some(n@)
                    &&& Self::forest(final(children)@) == Shape::remove_among(
                        Self::forest(old(children)@),
                        r,
                    )
                    &&& n.linked_below()
                },
                None => {
                    &&& !Shape::among(Self::forest(old(children)@), r)
                    &&& Self::forest(final(children)@) == Self::forest(old(children)@)
                },
            },
        decreases *old(children),
    {
        let ghost shapes = Self::forest(children@);
        let mut i: usize = 0;
        while i < children.len()
            invariant
                0 <= i <= children@.len(),
                children@.len() == old(children)@.len(),
                shapes == Self::forest(old(children)@),
                shapes == Self::forest(children@),
                Shape::all_distinct(shapes),
                Self::all_linked(children@, parent),
                forall|k: int| 0 <= k < i ==> !(#[trigger] shapes[k]).contains(r),
                forall|k: int| i <= k < children@.len() ==> (#[trigger] children@[k]) == old(children)@[k],
            decreases children@.len() - i,
        {
            if children[i].id == r {
                let n = children.remove(i);
                proof {
                    n.lemma_view();
                    Shape::lemma_head(shapes, r, i as int);
                    assert(Self::forest(children@) =~= shapes.remove(i as int));
                }
                return Some(n);
            }
            let ghost before = children@[i as int];
            proof {
                before.lemma_view();
                assert(shapes[i as int] == before@);
                shapes[i as int].lemma_distinct();
            }
            let found = Self::detach_from(&mut children[i].children, r, Ghost(before.id));
            proof {
                let after = children@[i as int];
                after.lemma_view();
                assert(Self::forest(children@).len() == shapes.len());
                match &found {
                    Some(n) => {
                        Shape::lemma_find_among(before@.children, r);
                        assert(before@.contains(r)) by {
                            let h = Shape::holder(before@.children, r);
                            assert(before@.children[h].contains(r));
                        }
                        Shape::lemma_holder(shapes, r, i as int);
                        assert(!Shape::heads(shapes, r)) by {
                            if Shape::heads(shapes, r) {
                                let h = Shape::head(shapes, r);
                                assert(shapes[h].contains(r));
                            }
                        }
                        shapes[i as int].lemma_remove_unfold(r);
                        assert(after@ == shapes[i as int].remove(r));
                        assert(Self::forest(children@) =~= shapes.update(i as int, after@));
                    },
                    None => {
                        assert(after@ == before@);
                        assert(Self::forest(children@) =~= shapes);
                        assert(!shapes[i as int].contains(r)) by {
                            if shapes[i as int].contains(r) {
                                let h = choose|h: int|
                                    0 <= h < before@.children.len() && (
                                    #[trigger] before@.children[h]).contains(r);
                                assert(Shape::among(before@.children, r));
                            }
                        }
                    },
                }
            }
            if found.is_some() {
                return found;
            }
            i = i + 1;
        }
        None
    }

    /// Whether a reference names a record of `self` and one of `other`.
    pub(crate) fn shares(&self, other: &BaseNode<T>, Ghost(parent): Ghost<Option<NodeRef>>) -> (b:
        bool)
        requires
            self@.distinct(),
            self.linked(parent),
        ensures
            b == !self@.disjoint(other@),
        decreases other,
    {
        if self.find(other.id, Ghost(parent)).is_some() {
            proof {
                assert(other@.contains(other.id));
            }
            return true;
        }
        let ghost kids = other@.children;
        let mut i: usize = 0;
        while i < other.children.len()
            invariant
                0 <= i <= other.children@.len(),
                kids == other@.children,
                kids.len() == other.children@.len(),
                self@.distinct(),
                self.linked(parent),
                forall|k: int| 0 <= k < kids.len() ==> (#[trigger] kids[k]) == other.children@[k]@,
                forall|k: int| 0 <= k < i ==> self@.disjoint(#[trigger] kids[k]),
            decreases other.children@.len() - i,
        {
            assert(kids[i as int] == other.children@[i as int]@);
            if self.shares(&other.children[i], Ghost(parent)) {
                proof {
                    let x = choose|x: NodeRef| self@.contains(x) && kids[i as int].contains(x);
                    assert(other@.contains(x));
                }
                return true;
            }
            i = i + 1;
        }
        proof {
            assert forall|x: NodeRef| !(self@.contains(x) && other@.contains(x)) by {
                if self@.contains(x) && other@.contains(x) {
                    let k = choose|k: int| 0 <= k < kids.len() && (#[trigger] kids[k]).contains(x);
                    assert(self@.disjoint(kids[k]));
                }
            }
        }
        false
    }

    /// Puts `sub` at position `index` among the children of the record that
    /// `at` names, if that record is one of `children` or lies below them,
    /// and hands `sub` back if it does not.
    pub(crate) fn graft_into(
        children: &mut Vec<BaseNode<T>>,
        at: NodeRef,
        index: usize,
        sub: BaseNode<T>,
        Ghost(parent): Ghost<NodeRef>,
    ) -> (res: Result<(), BaseNode<T>>)
        requires
            Shape::all_distinct(Self::forest(old(children)@)),
            Self::all_linked(old(children)@, parent),
            sub.linked(Some(at)),
            Shape::among(Self::forest(old(children)@), at) ==> index <= Shape::find_among(
                Self::forest(old(children)@),
                at,
            ).unwrap().children.len(),
        ensures
            Self::all_linked(final(children)@, parent),
            match res {
                Ok(()) => {
                    &&& Shape::among(Self::forest(old(children)@), at)
                    &&& Self::forest(final(children)@) == Shape::graft_among(
                        Self::forest(old(children)@),
                        at,
                        index as int,
                        sub@,
                    )
                },
                Err(back) => {
                    &&& back == sub
                    &&& !Shape::among(Self::forest(old(children)@), at)
                    &&& Self::forest(final(children)@) == Self::forest(old(children)@)
                },
            },
        decreases *old(children),
    {
        let ghost shapes = Self::forest(children@);
        let mut pending = sub;
        let mut i: usize = 0;
        while i < children.len()
            invariant
                0 <= i <= children@.len(),
                children@.len() == old(children)@.len(),
                shapes == Self::forest(old(children)@),
                shapes == Self::forest(children@),
                Shape::all_distinct(shapes),
                Self::all_linked(children@, parent),
                pending == sub,
                sub.linked(Some(at)),
                Shape::among(shapes, at) ==> index <= Shape::find_among(
                    shapes,
                    at,
                ).unwrap().children.len(),
                forall|k: int| 0 <= k < i ==> !(#[trigger] shapes[k]).contains(at),
                forall|k: int|
                    i <= k < children@.len() ==> (#[trigger] children@[k]) == old(children)@[k],
            decreases children@.len() - i,
        {
            let ghost before = children@[i as int];
            proof {
                before.lemma_view();
                assert(shapes[i as int] == before@);
                shapes[i as int].lemma_distinct();
            }
            if children[i].id == at {
                proof {
                    Shape::lemma_head(shapes, at, i as int);
                }
                children[i].children.insert(index, pending);
                proof {
                    let after = children@[i as int];
                    after.lemma_view();
                    assert(after@.children =~= before@.children.insert(index as int, sub@));
                    assert(after@ == shapes[i as int].graft(at, index as int, sub@));
                    assert(Self::forest(children@) =~= shapes.update(i as int, after@));
                }
                return Ok(());
            }
            proof {
                if Shape::among(before@.children, at) {
                    let h = Shape::holder(before@.children, at);
                    assert(before@.children[h].contains(at));
                    assert(shapes[i as int].contains(at));
                    Shape::lemma_holder(shapes, at, i as int);
                }
            }
            match Self::graft_into(&mut children[i].children, at, index, pending, Ghost(before.id)) {
                Ok(()) => {
                    proof {
                        let after = children@[i as int];
                        after.lemma_view();
                        let h = Shape::holder(before@.children, at);
                        assert(before@.children[h].contains(at));
                        assert(shapes[i as int].contains(at));
                        Shape::lemma_holder(shapes, at, i as int);
                        shapes[i as int].lemma_graft_unfold(at, index as int, sub@);
                        assert(after@ == shapes[i as int].graft(at, index as int, sub@));
                        assert(Self::forest(children@) =~= shapes.update(i as int, after@));
                    }
                    return Ok(());
                },
                Err(back) => {
                    proof {
                        let after = children@[i as int];
                        after.lemma_view();
                        assert(after@ == before@);
                        assert(Self::forest(children@) =~= shapes);
                        assert(!shapes[i as int].contains(at)) by {
                            if shapes[i as int].contains(at) {
                                let h = choose|h: int|
                                    0 <= h < before@.children.len() && (
                                    #[trigger] before@.children[h]).contains(at);
                                assert(Shape::among(before@.children, at));
                            }
                        }
                    }
                    pending = back;
                },
            }
            i = i + 1;
        }
        Err(pending)
    }

    /// The content of this record, to be read and written in place.
    pub(crate) fn own_content(&mut self) -> (res: &mut T)
        ensures
            *res == old(self).content,
            *final(self) == (BaseNode { content: *final(res), ..*old(self) }),
        no_unwind
    {
        &mut self.content
    }

    /// The positions that `route` holds.
    pub open(crate) spec fn steps(route: Seq<usize>) -> Seq<int> {
        Seq::new(route.len(), |k: int| route[k] as int)
    }

    /// Finds the way from `children` down to the record that `at` names and
    /// writes it behind what `route` holds.
    pub(crate) fn route_to(
        children: &Vec<BaseNode<T>>,
        at: NodeRef,
        route: &mut Vec<usize>,
    ) -> (found: bool)
        requires
            Shape::all_distinct(Self::forest(children@)),
        ensures
            found == Shape::among(Self::forest(children@), at),
            !found ==> final(route)@ == old(route)@,
            found ==> Self::steps(final(route)@) == Self::steps(old(route)@) + Shape::route(
                Self::forest(children@),
                at,
            ),
        decreases children,
    {
        let ghost shapes = Self::forest(children@);
        let ghost given = route@;
        let mut i: usize = 0;
        while i < children.len()
            invariant
                0 <= i <= children@.len(),
                shapes == Self::forest(children@),
                Shape::all_distinct(shapes),
                route@ == given,
                given == old(route)@,
                forall|k: int| 0 <= k < i ==> !(#[trigger] shapes[k]).contains(at),
            decreases children@.len() - i,
        {
            proof {
                children@[i as int].lemma_view();
                shapes[i as int].lemma_distinct();
            }
            route.push(i);
            let ghost pushed = route@;
            proof {
                assert(Self::steps(pushed) =~= Self::steps(given) + seq![i as int]);
            }
            if children[i].id == at {
                proof {
                    Shape::lemma_head(shapes, at, i as int);
                    assert(shapes[i as int].id == at);
                    assert(Shape::route(shapes, at) == seq![i as int]);
                }
                return true;
            }
            if Self::route_to(&children[i].children, at, route) {
                proof {
                    let below = shapes[i as int].children;
                    assert(below == Self::forest(children@[i as int].children@));
                    let h = Shape::holder(below, at);
                    assert(below[h].contains(at));
                    assert(shapes[i as int].contains(at));
                    Shape::lemma_holder(shapes, at, i as int);
                    let rest = Shape::route(below, at);
                    assert(shapes[i as int].id != at);
                    assert(Shape::route(shapes, at) == seq![i as int] + rest);
                    assert(Self::steps(route@) == Self::steps(pushed) + rest);
                    assert((Self::steps(given) + seq![i as int]) + rest =~= Self::steps(given) + (
                    seq![i as int] + rest));
                }
                return true;
            }
            route.pop();
            proof {
                assert(route@ =~= given);
                assert(!shapes[i as int].contains(at)) by {
                    if shapes[i as int].contains(at) {
                        let below = shapes[i as int].children;
                        let h = choose|h: int| 0 <= h < below.len() && (#[trigger] below[h]).contains(at);
                        assert(Shape::among(below, at));
                    }
                }
            }
            i = i + 1;
        }
        false
    }

    /// The content of the record that `at` names, to be read and written in
    /// place. The record is reached from `children` by the way that `route`
    /// holds from position `depth` on.
    pub(crate) fn content_at<'a>(
        children: &'a mut Vec<BaseNode<T>>,
        Ghost(at): Ghost<NodeRef>,
        route: &Vec<usize>,
        depth: usize,
        Ghost(parent): Ghost<NodeRef>,
    ) -> (res: &'a mut T)
        requires
            Shape::all_distinct(Self::forest(old(children)@)),
            Self::all_linked(old(children)@, parent),
            Shape::among(Self::forest(old(children)@), at),
            depth <= route@.len(),
            Self::steps(route@).subrange(depth as int, route@.len() as int) == Shape::route(
                Self::forest(old(children)@),
                at,
            ),
        ensures
            *res == Shape::find_among(Self::forest(old(children)@), at).unwrap().content,
            Self::forest(final(children)@) == Shape::with_content_among(
                Self::forest(old(children)@),
                at,
                *final(res),
            ),
            Self::all_linked(final(children)@, parent),
        decreases *old(children),
        no_unwind
    {
        let ghost shapes = Self::forest(children@);
        let ghost way = Shape::route(shapes, at);
        let ghost h = Shape::holder(shapes, at);
        let ghost left = Self::steps(route@).subrange(depth as int, route@.len() as int);
        proof {
            assert(shapes[h].contains(at));
            assert(way.len() > 0);
            assert(left.len() == route@.len() - depth);
            assert(left[0] == way[0]);
            assert(way[0] == h);
        }
        let i = route[depth];
        let ghost before = children@[i as int];
        proof {
            before.lemma_view();
            assert(shapes[i as int] == before@);
            shapes[i as int].lemma_distinct();
            assert(i == h);
        }
        if depth == route.len() - 1 {
            proof {
                assert(way.len() == 1);
                if shapes[h].id != at {
                    assert(way.len() == 1 + Shape::route(shapes[h].children, at).len());
                    let below = shapes[h].children;
                    let k = choose|k: int| 0 <= k < below.len() && (#[trigger] below[k]).contains(at);
                    assert(Shape::among(below, at));
                }
                assert forall|c: T| #![auto]
                    Self::forest(children@.update(i as int, BaseNode { content: c, ..before }))
                        == Shape::with_content_among(shapes, at, c) by {
                    let after = BaseNode { content: c, ..before };
                    after.lemma_view();
                    assert(after@ == shapes[i as int].with_content(at, c));
                    assert(Self::forest(children@.update(i as int, after)) =~= shapes.update(
                        i as int,
                        after@,
                    ));
                }
            }
            &mut children[i].content
        } else {
            proof {
                let below = before@.children;
                assert(shapes[h].id != at);
                assert(way == seq![h] + Shape::route(below, at));
                assert(Shape::among(below, at)) by {
                    let k = choose|k: int| 0 <= k < below.len() && (#[trigger] below[k]).contains(at);
                }
                assert(Self::steps(route@).subrange(depth + 1, route@.len() as int) =~= left.subrange(
                    1,
                    left.len() as int,
                ));
                assert((seq![h] + Shape::route(below, at)).subrange(1, left.len() as int)
                    =~= Shape::route(below, at));
                assert forall|c: T, kids: Vec<BaseNode<T>>|
                    Self::forest(kids@) == #[trigger] Shape::with_content_among(
                        below,
                        at,
                        c,
                    ) implies #[trigger] Self::forest(
                    children@.update(i as int, BaseNode { children: kids, ..before }),
                ) == Shape::with_content_among(shapes, at, c) by {
                    let after = BaseNode { children: kids, ..before };
                    after.lemma_view();
                    shapes[i as int].lemma_with_content_unfold(at, c);
                    assert(after@ == shapes[i as int].with_content(at, c));
                    assert(Self::forest(children@.update(i as int, after)) =~= shapes.update(
                        i as int,
                        after@,
                    ));
                }
            }
            Self::content_at(&mut children[i].children, Ghost(at), route, depth + 1, Ghost(before.id))
        }
    }

    /// The reference that names this record.
    pub fn ptr(&self) -> (r: NodeRef)
        ensures
            r == self@.id,
    {
        self.id
    }

    /// The reference that this record holds of its parent.
    pub fn parent(&self) -> (r: Option<NodeRef>)
        ensures
            r == self.parent_ref(),
    {
        self.parent
    }

    /// The records of the children, in sibling order. Where this record is
    /// linked, each of them is, and holds the reference of this record.
    pub fn children(&self) -> (kids: &Vec<BaseNode<T>>)
        ensures
            kids@.len() == self@.children.len(),
            forall|i: int| 0 <= i < kids@.len() ==> (#[trigger] kids@[i])@ == self@.children[i],
            forall|parent: Option<NodeRef>, i: int|
                #[trigger] self.linked(parent) && 0 <= i < kids@.len() ==> (#[trigger] kids@[i]).linked(
                    Some(self@.id),
                ) && kids@[i].parent_ref() == Some(self@.id),
    {
        proof {
            self.lemma_view();
        }
        &self.children
    }

    /// A builder for a tree whose root holds `content`.
    pub fn builder(content: T) -> (b: NodeBuilder<T>)
        ensures
            b.content == content,
            b.children@.len() == 0,
            b.size() == 1,
    {
        NodeBuilder::new(content)
    }
}

impl<T> BaseNode<T> {
    /// What is left of `budget` references when this record and each record
    /// below it has got one, if `budget` is enough for that.
    pub(crate) fn spare(&self, budget: u64) -> (res: Option<u64>)
        ensures
            match res {
                Some(left) => self@.size() + left == budget,
                None => self@.size() > budget,
            },
        decreases self,
    {
        if budget == 0 {
            return None;
        }
        let ghost shapes = self@.children;
        let mut left: u64 = budget - 1;
        let mut i: usize = 0;
        proof {
            self.lemma_view();
            assert(shapes.take(0) =~= Seq::<Shape<T>>::empty());
        }
        while i < self.children.len()
            invariant
                0 <= i <= self.children@.len(),
                shapes == self@.children,
                shapes.len() == self.children@.len(),
                forall|k: int| 0 <= k < shapes.len() ==> (#[trigger] shapes[k]) == self.children@[k]@,
                1 + Shape::total_size(shapes.take(i as int)) + left == budget,
            decreases self.children@.len() - i,
        {
            proof {
                assert(shapes.take(i + 1).drop_last() =~= shapes.take(i as int));
                Shape::lemma_prefix_size(shapes, i + 1);
                assert(shapes[i as int] == self.children@[i as int]@);
            }
            match self.children[i].spare(left) {
                Some(rest) => {
                    left = rest;
                },
                None => {
                    return None;
                },
            }
            i = i + 1;
        }
        proof {
            assert(shapes.take(shapes.len() as int) =~= shapes);
        }
        Some(left)
    }
}

impl<T: Clone> BaseNode<T> {
    /// Makes a record with a clone of the content of this one and a fresh
    /// reference, and below it the same of the records below this one.
    pub(crate) fn clone_node(&self, parent: Option<NodeRef>, ids: &mut IdSource) -> (node: BaseNode<
        T,
    >)
        requires
            self@.size() <= old(ids).remaining(),
        ensures
            node@.cloned_from(self@),
            node@.distinct(),
            node.linked(parent),
            forall|r: NodeRef|
            #[trigger] node@.contains(r) ==> !old(ids).issued(r) && final(ids).issued(r),
            forall|r: NodeRef| #[trigger] old(ids).issued(r) ==> final(ids).issued(r),
            final(ids).remaining() == old(ids).remaining() - self@.size(),
        decreases self,
    {
        let ghost before = *ids;
        let ghost sources = self@.children;
        let content = self.content.clone();
        let id = ids.issue();
        let ghost start = *ids;
        let mut kids: Vec<BaseNode<T>> = Vec::new();
        proof {
            self.lemma_view();
            assert(sources.take(0) =~= Seq::<Shape<T>>::empty());
            Shape::lemma_prefix_size(sources, 0);
        }
        let mut i: usize = 0;
        while i < self.children.len()
            invariant
                0 <= i <= self.children@.len(),
                kids@.len() == i,
                sources == self@.children,
                sources.len() == self.children@.len(),
                forall|k: int| 0 <= k < sources.len() ==> (#[trigger] sources[k]) == self.children@[k]@,
                start.remaining() == before.remaining() - 1,
                start.issued(id),
                Shape::total_size(sources) <= start.remaining(),
                ids.remaining() == start.remaining() - Shape::total_size(sources.take(i as int)),
                forall|r: NodeRef| start.issued(r) ==> ids.issued(r),
                forall|k: int|
                    0 <= k < kids@.len() ==> {
                        &&& (#[trigger] kids@[k])@.cloned_from(sources[k])
                        &&& kids@[k]@.distinct()
                        &&& kids@[k].linked(Some(id))
                    },
                forall|k: int, r: NodeRef|
                    0 <= k < kids@.len() && (#[trigger] kids@[k]@.contains(r)) ==> !start.issued(r)
                        && ids.issued(r),
                forall|a: int, b: int|
                    0 <= a < b < kids@.len() ==> (#[trigger] kids@[a])@.disjoint(
                        (#[trigger] kids@[b])@,
                    ),
            decreases self.children@.len() - i,
        {
            proof {
                assert(sources.take(i + 1).drop_last() =~= sources.take(i as int));
                Shape::lemma_prefix_size(sources, i + 1);
                assert(sources[i as int] == self.children@[i as int]@);
            }
            let kid = self.children[i].clone_node(Some(id), ids);
            kids.push(kid);
            i = i + 1;
        }
        let node = BaseNode { content, id, parent, children: kids };
        proof {
            node.lemma_view();
            assert(sources.take(sources.len() as int) =~= sources);
            assert forall|k: int| 0 <= k < node@.children.len() implies node@.children[k]
                == node.children@[k]@ by {}
            assert forall|r: NodeRef| node@.contains(r) implies !before.issued(r) && ids.issued(
                r,
            ) by {
                if r != id {
                    let k = choose|k: int|
                        0 <= k < node@.children.len() && (#[trigger] node@.children[k]).contains(r);
                    assert(kids@[k]@.contains(r));
                }
            }
        }
        node
    }
}

impl<T: PartialEq> BaseNode<T> {
    /// Whether this record and `other` hold equal contents, and below them
    /// records in the same arrangement that hold equal contents.
    pub(crate) fn alike(&self, other: &BaseNode<T>) -> (b: bool)
        ensures
            T::obeys_eq_spec() ==> b == self@.alike(other@),
        decreases self,
    {
        proof {
            self.lemma_view();
            other.lemma_view();
        }
        if !(self.content == other.content) {
            return false;
        }
        if self.children.len() != other.children.len() {
            return false;
        }
        let ghost mine = self@.children;
        let ghost theirs = other@.children;
        let mut i: usize = 0;
        while i < self.children.len()
            invariant
                0 <= i <= self.children@.len(),
                self.children@.len() == other.children@.len(),
                mine == self@.children,
                theirs == other@.children,
                mine.len() == self.children@.len(),
                theirs.len() == other.children@.len(),
                forall|k: int| 0 <= k < mine.len() ==> (#[trigger] mine[k]) == self.children@[k]@,
                forall|k: int| 0 <= k < theirs.len() ==> (#[trigger] theirs[k]) == other.children@[k]@,
                T::obeys_eq_spec() ==> forall|k: int| 0 <= k < i ==> (#[trigger] mine[k]).alike(theirs[k]),
            decreases self.children@.len() - i,
        {
            proof {
                assert(mine[i as int] == self.children@[i as int]@);
                assert(theirs[i as int] == other.children@[i as int]@);
            }
            if !self.children[i].alike(&other.children[i]) {
                return false;
            }
            i = i + 1;
        }
        true
    }
}

} // verus!
