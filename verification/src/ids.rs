//! Node identities and the source that issues them.
use vstd::prelude::*;

verus! {

/// An opaque, copyable name of a node.
///
/// A reference carries no ownership. It stays attached to its node when the
/// node moves from one tree to another, and resolves only in the tree that
/// holds the node at the time.
#[derive(Clone, Copy, PartialEq, Eq, Structural, Debug, Hash)]
pub struct NodeRef {
    serial: u64,
}

/// Issues node references, each of them once.
///
/// Trees whose nodes were named by one source never share a reference, which
/// is what lets a subtree move between them. Two sources know nothing of
/// each other: a tree refuses to take in a subtree that holds a reference
/// which the tree holds already.
#[derive(Debug)]
pub struct IdSource {
    next: u64,
}

impl IdSource {
    /// Whether `r` has been issued by this source.
    pub closed spec fn issued(self, r: NodeRef) -> bool {
        r.serial < self.next
    }

    /// How many references this source can still issue.
    pub closed spec fn spec_remaining(&self) -> u64 {
        (u64::MAX - self.next) as u64
    }

    /// A source that has issued nothing yet.
    pub fn new() -> (source: Self)
        ensures
            forall|r: NodeRef| !source.issued(r),
            source.spec_remaining() == u64::MAX,
    {
        IdSource { next: 0 }
    }

    /// How many references this source can still issue.
    #[verifier::when_used_as_spec(spec_remaining)]
    pub fn remaining(&self) -> (n: u64)
        ensures
            n == self.spec_remaining(),
    {
        u64::MAX - self.next
    }

    /// Issues the next reference.
    pub(crate) fn issue(&mut self) -> (r: NodeRef)
        requires
            old(self).spec_remaining() > 0,
        ensures
            !old(self).issued(r),
            final(self).spec_remaining() == old(self).spec_remaining() - 1,
            forall|x: NodeRef| final(self).issued(x) <==> old(self).issued(x) || x == r,
    {
        let r = NodeRef { serial: self.next };
        self.next = self.next + 1;
        r
    }
}

} // verus!
