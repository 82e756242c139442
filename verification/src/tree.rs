//! The tree: the owner of a root node and the entry point for changing what
//! hangs below it.
use vstd::prelude::*;
use vstd::std_specs::cmp::{PartialEqSpec, PartialEqSpecImpl};
use crate::error::TreeError;
use crate::ids::{IdSource, NodeRef};
use crate::builder::NodeBuilder;
use crate::node::BaseNode;
use crate::shape::Shape;

verus! {

/// A tree of nodes.
///
/// A tree owns its root, which has no parent, and through it every other
/// node. To hand a tree over is to hand over its nodes: a function that
/// returns a tree gives its nodes to the caller, and one that takes a tree
/// makes them part of something else.
#[derive(Debug)]
pub struct Tree<T> {
    pub(crate) root: BaseNode<T>,
}

/// A tree that could not be attached, handed back with the reason.
#[derive(Debug)]
pub struct Rejected<T> {
    pub reason: TreeError,
    pub tree: Tree<T>,
}

impl<T> View for Tree<T> {
    type V = Shape<T>;

    /// The shape of the tree: that of its root.
    open(crate) spec fn view(&self) -> Shape<T> {
        self.root@
    }
}

impl<T> Tree<T> {
    /// What holds of every tree: no reference names two of its nodes, each
    /// node below the root holds the reference of the node that owns it, and
    /// the root holds none.
    #[verifier::type_invariant]
    pub open(crate) spec fn sound(self) -> bool {
        &&& self.root@.distinct()
        &&& self.root.linked(None)
    }

    /// A builder for a tree whose root holds `content`.
    pub fn builder(content: T) -> (b: NodeBuilder<T>)
        ensures
            b.content == content,
            b.children@.len() == 0,
            b.size() == 1,
    {
        NodeBuilder::new(content)
    }

    /// Takes the node that `r` names out of the tree, with everything below
    /// it, and returns it as a tree of its own.
    ///
    /// Nothing is taken, and nothing changes, where `r` names the root or no
    /// node of this tree.
    pub fn detach_descendant(&mut self, r: NodeRef) -> (res: Option<Tree<T>>)
        ensures
            final(self)@.distinct(),
            match res {
                Some(sub) => {
                    &&& old(self)@.descendant(r)
                    &&& old(self)@.find(r) == Some(sub@)
                    &&& final(self)@ == old(self)@.remove(r)
                    &&& sub@.id == r
                    &&& sub@.distinct()
                    &&& forall|x: NodeRef|
                        #![trigger final(self)@.contains(x)]
                        #![trigger sub@.contains(x)]
                        final(self)@.contains(x) <==> old(self)@.contains(x) && !sub@.contains(x)
                    &&& final(self)@.size() + sub@.size() == old(self)@.size()
                },
                None => !old(self)@.descendant(r) && final(self)@ == old(self)@,
            },
    {
        proof {
            use_type_invariant(&*self);
        }
        let ghost before = self.root;
        let mut kids: Vec<BaseNode<T>> = Vec::new();
        proof {
            let hollow = BaseNode { children: kids, ..self.root };
            assert(hollow@.distinct() && hollow.linked(None));
            before.lemma_view();
            before@.lemma_distinct();
        }
        std::mem::swap(&mut kids, &mut self.root.children);
        let found = BaseNode::detach_from(&mut kids, r, Ghost(self.root.id));
        proof {
            before@.lemma_distinct();
            before@.lemma_remove_unfold(r);
            Shape::lemma_remove_among(before@.children, r);
            Shape::lemma_find_among(before@.children, r);
            before@.lemma_remove(r);
            if found is Some {
                before@.lemma_remove_size(r);
            }
            let next = BaseNode { children: kids, ..self.root };
            next.lemma_view();
            next@.lemma_distinct();
            assert(next@.distinct() && next.linked(None));
            if found is Some {
                assert(next@ == before@.remove(r));
            } else {
                assert(next@ == before@);
            }
        }
        self.root.children = kids;
        match found {
            Some(n) => {
                let ghost taken = n;
                let mut n = n;
                n.parent = None;
                proof {
                    taken.lemma_view();
                    n.lemma_view();
                    assert(n@ == taken@);
                    assert(n@.distinct() && n.linked(None));
                }
                Some(Tree { root: n })
            },
            None => None,
        }
    }
}

impl<T> Tree<T> {
    /// Makes `child` the child at position `index` of the node that
    /// `parent` names, which may be the root.
    ///
    /// The tree refuses, and hands `child` back unchanged, where `parent`
    /// names none of its nodes, where `index` is greater than the number of
    /// children of that node, and where a reference names both a node of
    /// `child` and a node of this tree.
    pub fn insert_child(&mut self, parent: NodeRef, child: Tree<T>, index: usize) -> (res: Result<
        (),
        Rejected<T>,
    >)
        ensures
            final(self)@.distinct(),
            match res {
                Ok(()) => {
                    &&& old(self)@.refusal(parent, index as int, child@) is None
                    &&& final(self)@ == old(self)@.graft(parent, index as int, child@)
                    &&& forall|x: NodeRef|
                        #![trigger final(self)@.contains(x)]
                        #![trigger child@.contains(x)]
                        final(self)@.contains(x) <==> old(self)@.contains(x) || child@.contains(x)
                    &&& final(self)@.size() == old(self)@.size() + child@.size()
                },
                Err(rejected) => {
                    &&& old(self)@.refusal(parent, index as int, child@) == Some(rejected.reason)
                    &&& rejected.tree@ == child@
                    &&& final(self)@ == old(self)@
                },
            },
    {
        proof {
            use_type_invariant(&*self);
            use_type_invariant(&child);
        }
        let ghost before = self.root;
        let target = self.root.find(parent, Ghost(None));
        let len = match target {
            None => {
                return Err(Rejected { reason: TreeError::NotADescendant, tree: child });
            },
            Some(node) => {
                proof {
                    node.lemma_view();
                }
                node.children.len()
            },
        };
        if index > len {
            return Err(Rejected { reason: TreeError::IndexOutOfRange, tree: child });
        }
        if self.root.shares(&child.root, Ghost(None)) {
            return Err(Rejected { reason: TreeError::AlreadyAttached, tree: child });
        }
        let Tree { root: sub } = child;
        let ghost given = sub;
        let mut sub = sub;
        sub.parent = Some(parent);
        let mut kids: Vec<BaseNode<T>> = Vec::new();
        proof {
            given.lemma_view();
            sub.lemma_view();
            assert(sub@ == given@);
            let hollow = BaseNode { children: kids, ..self.root };
            assert(hollow@.distinct() && hollow.linked(None));
            before.lemma_view();
            before@.lemma_distinct();
            before@.lemma_graft(parent, index as int, sub@);
            before@.lemma_graft_size(parent, index as int, sub@);
        }
        std::mem::swap(&mut kids, &mut self.root.children);
        if self.root.id == parent {
            kids.insert(index, sub);
            proof {
                assert(BaseNode::forest(kids@) =~= before@.children.insert(index as int, given@));
            }
        } else {
            proof {
                assert(Shape::among(before@.children, parent)) by {
                    let h = choose|h: int|
                        0 <= h < before@.children.len() && (#[trigger] before@.children[h]).contains(
                            parent,
                        );
                }
                before@.lemma_graft_unfold(parent, index as int, given@);
            }
            let res = BaseNode::graft_into(&mut kids, parent, index, sub, Ghost(self.root.id));
            assert(res is Ok);
        }
        proof {
            let next = BaseNode { children: kids, ..self.root };
            next.lemma_view();
            assert(next@ == before@.graft(parent, index as int, given@));
            assert(next@.distinct());
            assert(BaseNode::all_linked(kids@, self.root.id));
            assert(next.linked(None));
        }
        self.root.children = kids;
        Ok(())
    }

    /// The content of the node that `at` names, which may be the root, to be
    /// read and written in place.
    ///
    /// There is none where `at` names no node of this tree.
    pub fn content_mut(&mut self, at: NodeRef) -> (res: Option<&mut T>)
        ensures
            final(self)@.distinct(),
            match res {
                Some(content) => {
                    &&& old(self)@.contains(at)
                    &&& *content == old(self)@.find(at).unwrap().content
                    &&& final(self)@ == old(self)@.with_content(at, *final(content))
                    &&& forall|x: NodeRef|
                        #![trigger final(self)@.contains(x)]
                        #![trigger old(self)@.contains(x)]
                        final(self)@.contains(x) <==> old(self)@.contains(x)
                    &&& final(self)@.size() == old(self)@.size()
                },
                None => !old(self)@.contains(at) && final(self)@ == old(self)@,
            },
    {
        proof {
            use_type_invariant(&*self);
        }
        let ghost before = self.root;
        proof {
            before.lemma_view();
            before@.lemma_distinct();
            assert forall|c: T| #![auto]
                (BaseNode { content: c, ..before })@ == (Shape { content: c, ..before@ }) by {
                (BaseNode { content: c, ..before }).lemma_view();
            }
            assert forall|c: T| #![auto]
                before@.with_content(at, c).distinct() && before@.with_content(at, c).size()
                    == before@.size() by {
                before@.lemma_with_content(at, c);
                before@.lemma_with_content_size(at, c);
            }
            assert forall|c: T, x: NodeRef| #![auto]
                before@.with_content(at, c).contains(x) <==> before@.contains(x) by {
                before@.lemma_with_content(at, c);
            }
        }
        if self.root.id == at {
            return Some(self.root.own_content());
        }
        let mut route: Vec<usize> = Vec::new();
        if !BaseNode::route_to(&self.root.children, at, &mut route) {
            proof {
                assert(!before@.contains(at)) by {
                    if before@.contains(at) {
                        let h = choose|h: int|
                            0 <= h < before@.children.len() && (#[trigger] before@.children[h]).contains(
                                at,
                            );
                        assert(Shape::among(before@.children, at));
                    }
                }
            }
            return None;
        }
        proof {
            assert forall|c: T, kids: Vec<BaseNode<T>>|
                #[trigger] BaseNode::forest(kids@) == #[trigger] Shape::with_content_among(
                    before@.children,
                    at,
                    c,
                ) && BaseNode::all_linked(kids@, before.id) implies {
                    let next = BaseNode { children: kids, ..before };
                    &&& next@ == before@.with_content(at, c)
                    &&& next@.distinct()
                    &&& next.linked(None)
                } by {
                let next = BaseNode { children: kids, ..before };
                next.lemma_view();
                before@.lemma_with_content_unfold(at, c);
                before@.lemma_with_content(at, c);
            }
            assert(BaseNode::<T>::steps(Seq::<usize>::empty()) =~= Seq::<int>::empty());
            let way = Shape::route(before@.children, at);
            assert(BaseNode::<T>::steps(route@).subrange(0, route@.len() as int) =~= way);
            let h = Shape::holder(before@.children, at);
            assert(before@.children[h].contains(at));
            assert(before@.contains(at));
        }
        let content = BaseNode::content_at(
            &mut self.root.children,
            Ghost(at),
            &route,
            0,
            Ghost(self.root.id),
        );
        Some(content)
    }

    /// Puts `content` into the node that `at` names, which may be the root,
    /// and returns what the node held.
    ///
    /// The tree hands `content` back, and does not change, where `at` names
    /// none of its nodes.
    pub fn replace_content(&mut self, at: NodeRef, content: T) -> (res: Result<T, T>)
        ensures
            final(self)@.distinct(),
            match res {
                Ok(held) => {
                    &&& old(self)@.contains(at)
                    &&& held == old(self)@.find(at).unwrap().content
                    &&& final(self)@ == old(self)@.with_content(at, content)
                    &&& forall|x: NodeRef|
                        #![trigger final(self)@.contains(x)]
                        #![trigger old(self)@.contains(x)]
                        final(self)@.contains(x) <==> old(self)@.contains(x)
                    &&& final(self)@.size() == old(self)@.size()
                },
                Err(back) => {
                    &&& back == content
                    &&& !old(self)@.contains(at)
                    &&& final(self)@ == old(self)@
                },
            },
    {
        let mut content = content;
        match self.content_mut(at) {
            Some(place) => {
                std::mem::swap(place, &mut content);
                Ok(content)
            },
            None => Err(content),
        }
    }

    /// Makes `child` the last child of the node that `parent` names, which
    /// may be the root.
    ///
    /// The tree refuses, and hands `child` back unchanged, where `parent`
    /// names none of its nodes and where a reference names both a node of
    /// `child` and a node of this tree.
    pub fn append_child(&mut self, parent: NodeRef, child: Tree<T>) -> (res: Result<(), Rejected<T>>)
        ensures
            final(self)@.distinct(),
            match res {
                Ok(()) => {
                    &&& old(self)@.contains(parent)
                    &&& old(self)@.disjoint(child@)
                    &&& final(self)@ == old(self)@.graft(
                        parent,
                        old(self)@.find(parent).unwrap().children.len() as int,
                        child@,
                    )
                    &&& forall|x: NodeRef|
                        #![trigger final(self)@.contains(x)]
                        #![trigger child@.contains(x)]
                        final(self)@.contains(x) <==> old(self)@.contains(x) || child@.contains(x)
                    &&& final(self)@.size() == old(self)@.size() + child@.size()
                },
                Err(rejected) => {
                    &&& rejected.reason == if old(self)@.contains(parent) {
                        TreeError::AlreadyAttached
                    } else {
                        TreeError::NotADescendant
                    }
                    &&& !(old(self)@.contains(parent) && old(self)@.disjoint(child@))
                    &&& rejected.tree@ == child@
                    &&& final(self)@ == old(self)@
                },
            },
    {
        proof {
            use_type_invariant(&*self);
        }
        let target = self.root.find(parent, Ghost(None));
        let len = match target {
            None => {
                return Err(Rejected { reason: TreeError::NotADescendant, tree: child });
            },
            Some(node) => {
                proof {
                    node.lemma_view();
                }
                node.children.len()
            },
        };
        self.insert_child(parent, child, len)
    }
}

impl<T: Clone> Tree<T> {
    /// Makes a tree of the same arrangement, in which each node holds a
    /// clone of the content of the node in its place and has a reference
    /// that `ids` has not issued before. Nothing is shared with this tree.
    ///
    /// There is no clone, and `ids` issues nothing, where `ids` cannot
    /// issue a reference for each node.
    pub fn clone_deep(&self, ids: &mut IdSource) -> (res: Option<Tree<T>>)
        ensures
            match res {
                Some(tree) => {
                    &&& self@.size() <= old(ids).remaining()
                    &&& tree@.cloned_from(self@)
                    &&& tree@.size() == self@.size()
                    &&& tree@.distinct()
                    &&& forall|r: NodeRef|
                        #[trigger] tree@.contains(r) ==> !old(ids).issued(r) && final(ids).issued(r)
                    &&& forall|r: NodeRef| #[trigger] old(ids).issued(r) ==> final(ids).issued(r)
                    &&& final(ids).remaining() == old(ids).remaining() - self@.size()
                },
                None => self@.size() > old(ids).remaining() && *final(ids) == *old(ids),
            },
    {
        if self.root.spare(ids.remaining()).is_none() {
            return None;
        }
        let root = self.root.clone_node(None, ids);
        proof {
            root@.lemma_cloned_size(self.root@);
        }
        Some(Tree { root })
    }
}

impl<T: PartialEq> Tree<T> {
    /// Whether this tree and `other` have the same arrangement and hold
    /// equal contents in each place. References play no part.
    pub fn structurally_eq(&self, other: &Tree<T>) -> (b: bool)
        ensures
            T::obeys_eq_spec() ==> b == self@.alike(other@),
    {
        self.root.alike(&other.root)
    }
}

impl<T: PartialEq> PartialEq for Tree<T> {
    /// Whether the roots of the two trees hold equal contents.
    fn eq(&self, other: &Self) -> (b: bool) {
        self.root.content == other.root.content
    }
}

impl<T: PartialEq> PartialEqSpecImpl for Tree<T> {
    /// Trees are compared as stated where contents are.
    open spec fn obeys_eq_spec() -> bool {
        T::obeys_eq_spec()
    }

    /// Two trees are equal where the contents of their roots are.
    open spec fn eq_spec(&self, other: &Self) -> bool {
        self@.content.eq_spec(&other@.content)
    }
}

} // verus!
