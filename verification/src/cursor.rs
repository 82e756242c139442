//! Views of the nodes of a tree: the read-only view, of which there may be
//! many, and the exclusive view, through which a node is changed.
use vstd::prelude::*;
use vstd::std_specs::cmp::{PartialEqSpec, PartialEqSpecImpl};
use crate::error::TreeError;
use crate::ids::{IdSource, NodeRef};
use crate::builder::NodeBuilder;
use crate::node::BaseNode;
use crate::shape::Shape;
use crate::tree::{Rejected, Tree};

verus! {

/// A read-only view of one node of a tree.
///
/// A view knows the tree that its node is part of, which is how it reaches
/// the parent and the siblings of the node. It borrows the tree: to change
/// the tree, keep the node's [`NodeRef`] and let the view go.
#[derive(Debug)]
pub struct Node<'a, T> {
    tree: &'a Tree<T>,
    node: &'a BaseNode<T>,
}

impl<'a, T> View for Node<'a, T> {
    type V = Shape<T>;

    /// The shape of the node and of what lies below it.
    closed spec fn view(&self) -> Shape<T> {
        self.node@
    }
}

impl<'a, T> Node<'a, T> {
    /// The shape of the tree that the node is part of.
    pub closed spec fn tree_view(self) -> Shape<T> {
        self.tree@
    }

    /// What holds of every view: its node is the node of the tree that the
    /// node's reference names.
    #[verifier::type_invariant]
    pub closed spec fn attached(self) -> bool {
        &&& self.tree.sound()
        &&& self.tree@.find(self.node@.id) == Some(self.node@)
        &&& self.node@.distinct()
        &&& self.node.linked(self.tree@.parent_of(self.node@.id))
    }

    /// A builder for a tree whose root holds `content`.
    pub fn builder(content: T) -> (b: NodeBuilder<T>)
        ensures
            b.content == content,
            b.children@.len() == 0,
            b.size() == 1,
    {
        NodeBuilder::new(content)
    }

    /// A second view of the same node.
    pub fn ref_clone(&self) -> (other: Self)
        ensures
            other@ == self@,
            other.tree_view() == self.tree_view(),
    {
        proof {
            use_type_invariant(self);
        }
        Node { tree: self.tree, node: self.node }
    }

    /// The content of the node.
    pub fn content(&self) -> (content: &'a T)
        ensures
            *content == self@.content,
    {
        &self.node.content
    }

    /// The reference that names the node.
    pub fn ptr(&self) -> (r: NodeRef)
        ensures
            r == self@.id,
            self.tree_view().find(r) == Some(self@),
            self.tree_view().distinct(),
    {
        proof {
            use_type_invariant(self);
        }
        self.node.id
    }

    /// Whether `other` names this node.
    pub fn is_same_as(&self, other: NodeRef) -> (same: bool)
        ensures
            same == (self@.id == other),
    {
        self.node.id == other
    }

    /// The number of children of the node.
    pub fn child_count(&self) -> (n: usize)
        ensures
            n == self@.children.len(),
    {
        self.node.children.len()
    }

    /// The child at position `index`, if the node has that many children.
    pub fn child(&self, index: usize) -> (res: Option<Node<'a, T>>)
        ensures
            match res {
                Some(child) => {
                    &&& index < self@.children.len()
                    &&& child@ == self@.children[index as int]
                    &&& child.tree_view() == self.tree_view()
                    &&& self.tree_view().find(child@.id) == Some(child@)
                    &&& self.tree_view().parent_of(child@.id) == Some(self@.id)
                },
                None => index >= self@.children.len(),
            },
    {
        proof {
            use_type_invariant(self);
        }
        if index < self.node.children.len() {
            let node = &self.node.children[index];
            proof {
                self.tree@.lemma_find(self.node@.id);
                self.tree@.lemma_child(self.node@.id, index as int);
            }
            Some(Node { tree: self.tree, node })
        } else {
            None
        }
    }

    /// The children of the node, in sibling order.
    pub fn children(&self) -> (res: Vec<Node<'a, T>>)
        ensures
            res@.len() == self@.children.len(),
            forall|i: int|
                0 <= i < res@.len() ==> {
                    &&& (#[trigger] res@[i])@ == self@.children[i]
                    &&& res@[i].tree_view() == self.tree_view()
                    &&& self.tree_view().find(res@[i]@.id) == Some(res@[i]@)
                    &&& self.tree_view().parent_of(res@[i]@.id) == Some(self@.id)
                },
    {
        let mut res: Vec<Node<'a, T>> = Vec::new();
        let n = self.child_count();
        let mut i: usize = 0;
        while i < n
            invariant
                0 <= i <= n,
                n == self@.children.len(),
                res@.len() == i,
                forall|k: int|
                    0 <= k < i ==> {
                        &&& (#[trigger] res@[k])@ == self@.children[k]
                        &&& res@[k].tree_view() == self.tree_view()
                        &&& self.tree_view().find(res@[k]@.id) == Some(res@[k]@)
                        &&& self.tree_view().parent_of(res@[k]@.id) == Some(self@.id)
                    },
            decreases n - i,
        {
            match self.child(i) {
                Some(child) => {
                    res.push(child);
                },
                None => {},
            }
            i = i + 1;
        }
        res
    }

    /// The parent of the node, which only the root is without.
    pub fn parent(&self) -> (res: Option<Node<'a, T>>)
        ensures
            match res {
                Some(parent) => {
                    &&& self.tree_view().parent_of(self@.id) == Some(parent@.id)
                    &&& self.tree_view().find(parent@.id) == Some(parent@)
                    &&& parent.tree_view() == self.tree_view()
                },
                None => self@.id == self.tree_view().id && self.tree_view().parent_of(self@.id)
                    is None,
            },
    {
        proof {
            use_type_invariant(self);
            use_type_invariant(self.tree);
            self.tree@.lemma_parent(self.node@.id);
            self.tree@.lemma_find(self.node@.id);
            self.tree@.lemma_root_has_no_parent();
        }
        match self.node.parent {
            None => None,
            Some(p) => {
                let found = self.tree.root.find(p, Ghost(None));
                match found {
                    Some(node) => Some(Node { tree: self.tree, node }),
                    None => None,
                }
            },
        }
    }
}

impl<'a, T> Node<'a, T> {
    /// The node that follows this one among the children of their parent:
    /// none after the last child, and none beside the root.
    pub fn next_sibling(&self) -> (res: Option<Node<'a, T>>)
        ensures
            match res {
                Some(next) => {
                    &&& self.tree_view().next_sibling(self@.id) == Some(next@)
                    &&& next.tree_view() == self.tree_view()
                },
                None => self.tree_view().next_sibling(self@.id) is None,
            },
    {
        proof {
            use_type_invariant(self);
            self.tree@.lemma_parent(self.node@.id);
            self.tree@.lemma_root_has_no_parent();
        }
        match self.parent() {
            None => None,
            Some(parent) => {
                proof {
                    use_type_invariant(&parent);
                    parent@.lemma_distinct();
                    parent.node.lemma_view();
                    assert forall|k: int| 0 <= k < parent@.children.len() implies (
                    #[trigger] parent@.children[k]).id == parent.node.children@[k].id by {
                        parent.node.children@[k].lemma_view();
                    }
                }
                let n = parent.child_count();
                let mut i: usize = 0;
                while i < n
                    invariant
                        0 <= i <= n,
                        n == parent@.children.len(),
                        n == parent.node.children@.len(),
                        parent@.children == self.tree_view().siblings(self@.id),
                        parent.tree_view() == self.tree_view(),
                        self.tree_view().parent_of(self@.id) is Some,
                        Shape::all_distinct(parent@.children),
                        self@.id == self.node.id,
                        forall|k: int|
                            0 <= k < n ==> (#[trigger] parent@.children[k]).id
                                == parent.node.children@[k].id,
                        forall|k: int| 0 <= k < i ==> (#[trigger] parent@.children[k]).id != self@.id,
                    decreases n - i,
                {
                    if parent.node.children[i].id == self.node.id {
                        proof {
                            Shape::lemma_head(parent@.children, self@.id, i as int);
                        }
                        return parent.child(i + 1);
                    }
                    i = i + 1;
                }
                None
            },
        }
    }

    /// The node that precedes this one among the children of their parent:
    /// none before the first child, and none beside the root.
    pub fn prev_sibling(&self) -> (res: Option<Node<'a, T>>)
        ensures
            match res {
                Some(prev) => {
                    &&& self.tree_view().prev_sibling(self@.id) == Some(prev@)
                    &&& prev.tree_view() == self.tree_view()
                },
                None => self.tree_view().prev_sibling(self@.id) is None,
            },
    {
        proof {
            use_type_invariant(self);
            self.tree@.lemma_parent(self.node@.id);
            self.tree@.lemma_root_has_no_parent();
        }
        match self.parent() {
            None => None,
            Some(parent) => {
                proof {
                    use_type_invariant(&parent);
                    parent@.lemma_distinct();
                    parent.node.lemma_view();
                    assert forall|k: int| 0 <= k < parent@.children.len() implies (
                    #[trigger] parent@.children[k]).id == parent.node.children@[k].id by {
                        parent.node.children@[k].lemma_view();
                    }
                }
                let n = parent.child_count();
                let mut i: usize = 0;
                while i < n
                    invariant
                        0 <= i <= n,
                        n == parent@.children.len(),
                        n == parent.node.children@.len(),
                        parent@.children == self.tree_view().siblings(self@.id),
                        parent.tree_view() == self.tree_view(),
                        self.tree_view().parent_of(self@.id) is Some,
                        Shape::all_distinct(parent@.children),
                        self@.id == self.node.id,
                        forall|k: int|
                            0 <= k < n ==> (#[trigger] parent@.children[k]).id
                                == parent.node.children@[k].id,
                        forall|k: int| 0 <= k < i ==> (#[trigger] parent@.children[k]).id != self@.id,
                    decreases n - i,
                {
                    if parent.node.children[i].id == self.node.id {
                        proof {
                            Shape::lemma_head(parent@.children, self@.id, i as int);
                        }
                        if i == 0 {
                            return None;
                        }
                        return parent.child(i - 1);
                    }
                    i = i + 1;
                }
                None
            },
        }
    }
}

impl<'a, T: Clone> Node<'a, T> {
    /// Makes a tree of a single node, which holds a clone of the content of
    /// this node and has a reference that `ids` has not issued before.
    ///
    /// There is no clone where `ids` cannot issue a reference.
    pub fn clone_shallow(&self, ids: &mut IdSource) -> (res: Option<Tree<T>>)
        ensures
            match res {
                Some(tree) => {
                    &&& old(ids).remaining() >= 1
                    &&& cloned::<T>(self@.content, tree@.content)
                    &&& tree@.children.len() == 0
                    &&& !old(ids).issued(tree@.id)
                    &&& forall|r: NodeRef|
                        final(ids).issued(r) <==> old(ids).issued(r) || r == tree@.id
                    &&& final(ids).remaining() == old(ids).remaining() - 1
                },
                None => old(ids).remaining() == 0 && *final(ids) == *old(ids),
            },
    {
        if ids.remaining() == 0 {
            return None;
        }
        let content = self.node.content.clone();
        let id = ids.issue();
        let root = BaseNode { content, id, parent: None, children: Vec::new() };
        proof {
            root.lemma_view();
        }
        Some(Tree { root })
    }

    /// Makes a tree of the arrangement that this node has with what lies
    /// below it, in which each node holds a clone of the content of the node
    /// in its place and has a reference that `ids` has not issued before.
    /// Nothing is shared with the tree of this node.
    ///
    /// There is no clone, and `ids` issues nothing, where `ids` cannot
    /// issue a reference for each node.
    pub fn clone_deep(&self, ids: &mut IdSource) -> (res: Option<Tree<T>>)
        ensures
            match res {
                Some(tree) => {
                    &&& self@.size() <= old(ids).remaining()
                    &&& tree@.cloned_from(self@)
                    &&& tree@.size() == self@.size()
                    &&& tree@.distinct()
                    &&& forall|r: NodeRef|
                        #[trigger] tree@.contains(r) ==> !old(ids).issued(r) && final(ids).issued(r)
                    &&& forall|r: NodeRef| #[trigger] old(ids).issued(r) ==> final(ids).issued(r)
                    &&& final(ids).remaining() == old(ids).remaining() - self@.size()
                },
                None => self@.size() > old(ids).remaining() && *final(ids) == *old(ids),
            },
    {
        if self.node.spare(ids.remaining()).is_none() {
            return None;
        }
        let root = self.node.clone_node(None, ids);
        proof {
            root@.lemma_cloned_size(self.node@);
        }
        Some(Tree { root })
    }
}

impl<'a, T: PartialEq> Node<'a, T> {
    /// Whether this node and `other` hold equal contents, and have below
    /// them nodes in the same arrangement that hold equal contents.
    /// References play no part.
    pub fn structurally_eq(&self, other: &Node<'_, T>) -> (b: bool)
        ensures
            T::obeys_eq_spec() ==> b == self@.alike(other@),
    {
        self.node.alike(other.node)
    }
}

impl<'a, T: PartialEq> PartialEq for Node<'a, T> {
    /// Whether the two nodes hold equal contents.
    fn eq(&self, other: &Self) -> (b: bool) {
        self.node.content == other.node.content
    }
}

impl<'a, T: PartialEq> PartialEqSpecImpl for Node<'a, T> {
    /// Nodes are compared as stated where contents are.
    open spec fn obeys_eq_spec() -> bool {
        T::obeys_eq_spec()
    }

    /// Two nodes are equal where their contents are.
    open spec fn eq_spec(&self, other: &Self) -> bool {
        self@.content.eq_spec(&other@.content)
    }
}

/// The exclusive view of one node of a tree, through which the content and
/// the children of that node are changed.
///
/// The view holds the tree for as long as it lives, so that no second view
/// of the tree exists beside it. Each of its operations resolves `at`
/// against the tree again.
pub struct NodeMut<'a, T> {
    /// The tree that the node is part of.
    pub tree: &'a mut Tree<T>,
    /// The reference that names the node.
    pub at: NodeRef,
}

impl<'a, T> NodeMut<'a, T> {
    /// The reference that names the node.
    pub fn ptr(&self) -> (r: NodeRef)
        ensures
            r == self.at,
    {
        self.at
    }

    /// Whether `other` names this node.
    pub fn is_same_as(&self, other: NodeRef) -> (same: bool)
        ensures
            same == (self.at == other),
    {
        self.at == other
    }

    /// The read-only view of the node, if `at` still names a node of the
    /// tree.
    pub fn as_node(&self) -> (res: Option<Node<'_, T>>)
        ensures
            match res {
                Some(node) => old(self.tree)@.find(self.at) == Some(node@) && node.tree_view()
                    == old(self.tree)@,
                None => !old(self.tree)@.contains(self.at),
            },
    {
        self.tree.get(self.at)
    }

    /// The content of the node, to be read and written in place.
    ///
    /// There is none where `at` no longer names a node of the tree.
    pub fn content_mut(&mut self) -> (res: Option<&mut T>)
        ensures
            final(self).at == old(self).at,
            *final(final(self).tree) == *final(old(self).tree),
            match res {
                Some(content) => {
                    &&& old(self).tree@.contains(old(self).at)
                    &&& *content == old(self).tree@.find(old(self).at).unwrap().content
                    &&& final(self).tree@ == old(self).tree@.with_content(
                        old(self).at,
                        *final(content),
                    )
                    &&& forall|x: NodeRef|
                        #![trigger final(self).tree@.contains(x)]
                        #![trigger old(self).tree@.contains(x)]
                        final(self).tree@.contains(x) <==> old(self).tree@.contains(x)
                    &&& final(self).tree@.size() == old(self).tree@.size()
                },
                None => !old(self).tree@.contains(old(self).at) && final(self).tree@ == old(
                    self,
                ).tree@,
            },
    {
        self.tree.content_mut(self.at)
    }

    /// Puts `content` into the node and returns what the node held.
    ///
    /// Hands `content` back, and changes nothing, where `at` no longer names
    /// a node of the tree.
    pub fn replace_content(&mut self, content: T) -> (res: Result<T, T>)
        ensures
            final(self).at == old(self).at,
            *final(final(self).tree) == *final(old(self).tree),
            match res {
                Ok(held) => {
                    &&& old(self).tree@.contains(old(self).at)
                    &&& held == old(self).tree@.find(old(self).at).unwrap().content
                    &&& final(self).tree@ == old(self).tree@.with_content(old(self).at, content)
                    &&& forall|x: NodeRef|
                        #![trigger final(self).tree@.contains(x)]
                        #![trigger old(self).tree@.contains(x)]
                        final(self).tree@.contains(x) <==> old(self).tree@.contains(x)
                    &&& final(self).tree@.size() == old(self).tree@.size()
                },
                Err(back) => {
                    &&& back == content
                    &&& !old(self).tree@.contains(old(self).at)
                    &&& final(self).tree@ == old(self).tree@
                },
            },
    {
        self.tree.replace_content(self.at, content)
    }

    /// Makes `child` the last child of the node.
    ///
    /// Hands `child` back, and changes nothing, where `at` no longer names a
    /// node of the tree and where a reference names both a node of `child`
    /// and a node of the tree.
    pub fn append_child(&mut self, child: Tree<T>) -> (res: Result<(), Rejected<T>>)
        ensures
            final(self).at == old(self).at,
            *final(final(self).tree) == *final(old(self).tree),
            match res {
                Ok(()) => {
                    &&& old(self).tree@.contains(old(self).at)
                    &&& old(self).tree@.disjoint(child@)
                    &&& final(self).tree@ == old(self).tree@.graft(
                        old(self).at,
                        old(self).tree@.find(old(self).at).unwrap().children.len() as int,
                        child@,
                    )
                    &&& forall|x: NodeRef|
                        #![trigger final(self).tree@.contains(x)]
                        #![trigger child@.contains(x)]
                        final(self).tree@.contains(x) <==> old(self).tree@.contains(x)
                            || child@.contains(x)
                    &&& final(self).tree@.size() == old(self).tree@.size() + child@.size()
                },
                Err(rejected) => {
                    &&& rejected.reason == if old(self).tree@.contains(old(self).at) {
                        TreeError::AlreadyAttached
                    } else {
                        TreeError::NotADescendant
                    }
                    &&& !(old(self).tree@.contains(old(self).at) && old(self).tree@.disjoint(child@))
                    &&& rejected.tree@ == child@
                    &&& final(self).tree@ == old(self).tree@
                },
            },
    {
        self.tree.append_child(self.at, child)
    }

    /// Makes `child` the child at position `index` of the node.
    ///
    /// Hands `child` back, and changes nothing, where `at` no longer names a
    /// node of the tree, where `index` is greater than the number of
    /// children of the node, and where a reference names both a node of
    /// `child` and a node of the tree.
    pub fn insert_child(&mut self, child: Tree<T>, index: usize) -> (res: Result<(), Rejected<T>>)
        ensures
            final(self).at == old(self).at,
            *final(final(self).tree) == *final(old(self).tree),
            match res {
                Ok(()) => {
                    &&& old(self).tree@.refusal(old(self).at, index as int, child@) is None
                    &&& final(self).tree@ == old(self).tree@.graft(
                        old(self).at,
                        index as int,
                        child@,
                    )
                    &&& forall|x: NodeRef|
                        #![trigger final(self).tree@.contains(x)]
                        #![trigger child@.contains(x)]
                        final(self).tree@.contains(x) <==> old(self).tree@.contains(x)
                            || child@.contains(x)
                    &&& final(self).tree@.size() == old(self).tree@.size() + child@.size()
                },
                Err(rejected) => {
                    &&& old(self).tree@.refusal(old(self).at, index as int, child@) == Some(
                        rejected.reason,
                    )
                    &&& rejected.tree@ == child@
                    &&& final(self).tree@ == old(self).tree@
                },
            },
    {
        self.tree.insert_child(self.at, child, index)
    }

    /// Takes the node out of the tree, with everything below it, and returns
    /// it as a tree of its own.
    ///
    /// Nothing is taken, and nothing changes, where the node is the root and
    /// where `at` no longer names a node of the tree.
    pub fn detach(self) -> (res: Option<Tree<T>>)
        ensures
            match res {
                Some(sub) => {
                    &&& old(self.tree)@.descendant(self.at)
                    &&& old(self.tree)@.find(self.at) == Some(sub@)
                    &&& final(self.tree)@ == old(self.tree)@.remove(self.at)
                    &&& sub@.id == self.at
                    &&& sub@.distinct()
                    &&& forall|x: NodeRef|
                        #![trigger final(self.tree)@.contains(x)]
                        #![trigger sub@.contains(x)]
                        final(self.tree)@.contains(x) <==> old(self.tree)@.contains(x)
                            && !sub@.contains(x)
                    &&& final(self.tree)@.size() + sub@.size() == old(self.tree)@.size()
                },
                None => !old(self.tree)@.descendant(self.at) && final(self.tree)@ == old(
                    self.tree,
                )@,
            },
    {
        self.tree.detach_descendant(self.at)
    }
}

impl<T> Tree<T> {
    /// The exclusive view of the root.
    pub fn root_mut(&mut self) -> (root: NodeMut<'_, T>)
        ensures
            root.at == old(self)@.id,
            *root.tree == *old(self),
            *final(self) == *final(root.tree),
    {
        let at = self.root.id;
        NodeMut { tree: self, at }
    }

    /// The exclusive view of the node that `r` names.
    ///
    /// There is none where `r` names the root, which [`Tree::root_mut`]
    /// gives, or no node of this tree.
    pub fn borrow_descendant(&mut self, r: NodeRef) -> (res: Option<NodeMut<'_, T>>)
        ensures
            match res {
                Some(node) => {
                    &&& old(self)@.descendant(r)
                    &&& node.at == r
                    &&& *node.tree == *old(self)
                    &&& *final(self) == *final(node.tree)
                },
                None => !old(self)@.descendant(r) && *final(self) == *old(self),
            },
    {
        if self.is_descendant(r) {
            Some(NodeMut { tree: self, at: r })
        } else {
            None
        }
    }
}

impl<T> Tree<T> {
    /// A view of the root.
    pub fn root(&self) -> (root: Node<'_, T>)
        ensures
            root@ == self@,
            root.tree_view() == self@,
            self@.distinct(),
            self@.parent_of(self@.id) is None,
    {
        proof {
            use_type_invariant(self);
            self@.lemma_root_has_no_parent();
        }
        Node { tree: self, node: &self.root }
    }

    /// A view of the node that `r` names, if it is a node of this tree.
    pub fn get(&self, r: NodeRef) -> (res: Option<Node<'_, T>>)
        ensures
            match res {
                Some(node) => self@.find(r) == Some(node@) && node.tree_view() == self@,
                None => !self@.contains(r),
            },
    {
        proof {
            use_type_invariant(self);
            self@.lemma_root_has_no_parent();
        }
        match self.root.find(r, Ghost(None)) {
            Some(node) => Some(Node { tree: self, node }),
            None => None,
        }
    }

    /// Whether `r` names a node of this tree other than the root.
    pub fn is_descendant(&self, r: NodeRef) -> (b: bool)
        ensures
            b == self@.descendant(r),
    {
        proof {
            use_type_invariant(self);
        }
        if self.root.id == r {
            false
        } else {
            self.root.find(r, Ghost(None)).is_some()
        }
    }
}

} // verus!
