//! The reasons for which an operation on a tree is refused.
use vstd::prelude::*;

verus! {

/// Why a tree refused an operation. None of these is fatal: the tree is left
/// as it was.
#[derive(Clone, Copy, PartialEq, Eq, Structural, Debug)]
pub enum TreeError {
    /// The reference names no node that the operation can reach in the tree.
    NotADescendant,
    /// The position lies behind the end of the children.
    IndexOutOfRange,
    /// A node to be attached is named by a reference that already names a
    /// node of the tree.
    AlreadyAttached,
}

} // verus!
