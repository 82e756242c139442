//! The mathematical model of a tree.
//!
//! The operations of the library are stated over this model. Where a
//! definition picks "the" node that a reference names, it is meant for
//! shapes in which no reference names two nodes, as is the case in every
//! tree: there the choice is forced.
use vstd::prelude::*;
use vstd::std_specs::cmp::PartialEqSpec;
use crate::error::TreeError;
use crate::ids::NodeRef;

verus! {

/// A node with its reference, its content and the shapes of its children in
/// sibling order: what a tree is, apart from how it is stored.
#[verifier::ext_equal]
pub struct Shape<T> {
    pub id: NodeRef,
    pub content: T,
    pub children: Seq<Shape<T>>,
}

impl<T> Shape<T> {
    /// The number of nodes.
    pub open spec fn size(self) -> nat
        decreases self,
    {
        1 + Self::total_size(self.children)
    }

    /// The number of nodes in a sequence of shapes.
    pub open spec fn total_size(nodes: Seq<Self>) -> nat
        decreases nodes,
    {
        if nodes.len() == 0 {
            0
        } else {
            Self::total_size(nodes.drop_last()) + nodes.last().size()
        }
    }

    /// Whether `r` names this node or one of its descendants.
    pub open spec fn contains(self, r: NodeRef) -> bool
        decreases self,
    {
        self.id == r || exists|i: int|
            0 <= i < self.children.len() && (#[trigger] self.children[i]).contains(r)
    }

    /// Whether `r` names a node of one of `nodes`.
    pub open spec fn among(nodes: Seq<Self>, r: NodeRef) -> bool {
        exists|i: int| 0 <= i < nodes.len() && (#[trigger] nodes[i]).contains(r)
    }

    /// The position in `nodes` of a shape that contains `r`: the only one,
    /// where `nodes` share no reference.
    pub open spec fn holder(nodes: Seq<Self>, r: NodeRef) -> int {
        choose|i: int| 0 <= i < nodes.len() && (#[trigger] nodes[i]).contains(r)
    }

    /// Whether no reference names a node of `self` and a node of `other`.
    pub open spec fn disjoint(self, other: Self) -> bool {
        forall|r: NodeRef|
            #![trigger self.contains(r)]
            #![trigger other.contains(r)]
            !(self.contains(r) && other.contains(r))
    }

    /// Whether no reference names two nodes.
    pub open spec fn distinct(self) -> bool
        decreases self,
    {
        &&& forall|i: int|
            0 <= i < self.children.len() ==> (#[trigger] self.children[i]).distinct()
                && !self.children[i].contains(self.id)
        &&& forall|i: int, j: int|
            0 <= i < j < self.children.len() ==> (#[trigger] self.children[i]).disjoint(
                #[trigger] self.children[j],
            )
    }

    /// Whether no reference names two nodes of `nodes`.
    pub open spec fn all_distinct(nodes: Seq<Self>) -> bool {
        &&& forall|i: int| 0 <= i < nodes.len() ==> (#[trigger] nodes[i]).distinct()
        &&& forall|i: int, j: int|
            0 <= i < j < nodes.len() ==> (#[trigger] nodes[i]).disjoint(#[trigger] nodes[j])
    }

    /// Whether `r` names one of `nodes` themselves.
    pub open spec fn heads(nodes: Seq<Self>, r: NodeRef) -> bool {
        exists|i: int| 0 <= i < nodes.len() && (#[trigger] nodes[i]).id == r
    }

    /// The position in `nodes` of a shape that `r` names: the only one, where
    /// `nodes` share no reference.
    pub open spec fn head(nodes: Seq<Self>, r: NodeRef) -> int {
        choose|i: int| 0 <= i < nodes.len() && (#[trigger] nodes[i]).id == r
    }

    /// Whether `r` names a node other than this one.
    pub open spec fn descendant(self, r: NodeRef) -> bool {
        self.id != r && self.contains(r)
    }

    /// The node that `r` names, with its descendants.
    pub open spec fn find(self, r: NodeRef) -> Option<Self>
        decreases self,
    {
        if self.id == r {
            Some(self)
        } else if Self::among(self.children, r) {
            self.children[Self::holder(self.children, r)].find(r)
        } else {
            None
        }
    }

    /// The node of `nodes` that `r` names, with its descendants.
    pub open spec fn find_among(nodes: Seq<Self>, r: NodeRef) -> Option<Self> {
        if Self::among(nodes, r) {
            nodes[Self::holder(nodes, r)].find(r)
        } else {
            None
        }
    }

    /// The way from `nodes` down to the node that `r` names: the position
    /// among `nodes` of the shape that contains the node, then the position
    /// among the children of that shape, and so on, down to the node.
    pub open spec fn route(nodes: Seq<Self>, r: NodeRef) -> Seq<int>
        decreases nodes,
    {
        if Self::among(nodes, r) {
            let h = Self::holder(nodes, r);
            if nodes[h].id == r {
                seq![h]
            } else {
                seq![h] + Self::route(nodes[h].children, r)
            }
        } else {
            Seq::empty()
        }
    }

    /// The reference of the node that has the node named `r` among its
    /// children.
    pub open spec fn parent_of(self, r: NodeRef) -> Option<NodeRef>
        decreases self,
    {
        if Self::heads(self.children, r) {
            Some(self.id)
        } else if Self::among(self.children, r) {
            self.children[Self::holder(self.children, r)].parent_of(r)
        } else {
            None
        }
    }

    /// This shape without the descendant that `r` names and what lies below
    /// it.
    pub open spec fn remove(self, r: NodeRef) -> Self
        decreases self,
    {
        if Self::heads(self.children, r) {
            Shape { children: self.children.remove(Self::head(self.children, r)), ..self }
        } else if Self::among(self.children, r) {
            let i = Self::holder(self.children, r);
            Shape { children: self.children.update(i, self.children[i].remove(r)), ..self }
        } else {
            self
        }
    }

    /// `nodes` without the node that `r` names and what lies below it.
    pub open spec fn remove_among(nodes: Seq<Self>, r: NodeRef) -> Seq<Self> {
        if Self::heads(nodes, r) {
            nodes.remove(Self::head(nodes, r))
        } else if Self::among(nodes, r) {
            let i = Self::holder(nodes, r);
            nodes.update(i, nodes[i].remove(r))
        } else {
            nodes
        }
    }

    /// This shape with `sub` as the child at position `index` of the node
    /// that `at` names.
    pub open spec fn graft(self, at: NodeRef, index: int, sub: Self) -> Self
        decreases self,
    {
        if self.id == at {
            Shape { children: self.children.insert(index, sub), ..self }
        } else if Self::among(self.children, at) {
            let i = Self::holder(self.children, at);
            Shape { children: self.children.update(i, self.children[i].graft(at, index, sub)), ..self }
        } else {
            self
        }
    }

    /// `nodes` with `sub` as the child at position `index` of the node that
    /// `at` names.
    pub open spec fn graft_among(nodes: Seq<Self>, at: NodeRef, index: int, sub: Self) -> Seq<Self> {
        if Self::among(nodes, at) {
            let i = Self::holder(nodes, at);
            nodes.update(i, nodes[i].graft(at, index, sub))
        } else {
            nodes
        }
    }

    /// The children of the parent of the node that `r` names.
    pub open spec fn siblings(self, r: NodeRef) -> Seq<Self> {
        self.find(self.parent_of(r).unwrap()).unwrap().children
    }

    /// The position of the node that `r` names among the children of its
    /// parent.
    pub open spec fn position(self, r: NodeRef) -> int {
        Self::head(self.siblings(r), r)
    }

    /// The node that follows the one that `r` names among the children of
    /// their parent.
    pub open spec fn next_sibling(self, r: NodeRef) -> Option<Self> {
        if self.parent_of(r) is Some && self.position(r) + 1 < self.siblings(r).len() {
            Some(self.siblings(r)[self.position(r) + 1])
        } else {
            None
        }
    }

    /// The node that precedes the one that `r` names among the children of
    /// their parent.
    pub open spec fn prev_sibling(self, r: NodeRef) -> Option<Self> {
        if self.parent_of(r) is Some && self.position(r) >= 1 {
            Some(self.siblings(r)[self.position(r) - 1])
        } else {
            None
        }
    }

    /// Why `sub` cannot become the child at position `index` of the node
    /// that `at` names, if it cannot.
    pub open spec fn refusal(self, at: NodeRef, index: int, sub: Self) -> Option<TreeError> {
        if !self.contains(at) {
            Some(TreeError::NotADescendant)
        } else if index > self.find(at).unwrap().children.len() {
            Some(TreeError::IndexOutOfRange)
        } else if !self.disjoint(sub) {
            Some(TreeError::AlreadyAttached)
        } else {
            None
        }
    }

    /// This shape with `content` in the node that `at` names.
    pub open spec fn with_content(self, at: NodeRef, content: T) -> Self
        decreases self,
    {
        if self.id == at {
            Shape { content, ..self }
        } else if Self::among(self.children, at) {
            let i = Self::holder(self.children, at);
            Shape { children: self.children.update(i, self.children[i].with_content(at, content)), ..self }
        } else {
            self
        }
    }

    /// `nodes` with `content` in the node that `at` names.
    pub open spec fn with_content_among(nodes: Seq<Self>, at: NodeRef, content: T) -> Seq<Self> {
        if Self::among(nodes, at) {
            let i = Self::holder(nodes, at);
            nodes.update(i, nodes[i].with_content(at, content))
        } else {
            nodes
        }
    }
}

impl<T: Clone> Shape<T> {
    /// Whether this shape has the arrangement of `source`, and in each place
    /// a content that is a clone of the content in that place of `source`.
    pub open spec fn cloned_from(self, source: Self) -> bool
        decreases self,
    {
        &&& cloned::<T>(source.content, self.content)
        &&& self.children.len() == source.children.len()
        &&& forall|i: int|
            0 <= i < self.children.len() ==> (#[trigger] self.children[i]).cloned_from(
                source.children[i],
            )
    }
}

impl<T: PartialEq> Shape<T> {
    /// Whether this shape and `other` have the same arrangement, and in each
    /// place contents that are equal. References play no part.
    pub open spec fn alike(self, other: Self) -> bool
        decreases self,
    {
        &&& self.content.eq_spec(&other.content)
        &&& self.children.len() == other.children.len()
        &&& forall|i: int|
            0 <= i < self.children.len() ==> (#[trigger] self.children[i]).alike(other.children[i])
    }
}

} // verus!
