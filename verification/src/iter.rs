//! Traversals: breadth-first and depth-first.
use vstd::prelude::*;
use std::collections::VecDeque;
use crate::cursor::Node;
use crate::shape::Shape;
use crate::tree::Tree;

verus! {

/// Visits the nodes at and below a node breadth-first: the node, then its
/// children, then the children of those, and so on, siblings in their order.
///
/// The traversal borrows the tree and changes nothing. Once it has come to
/// its end it stays there: make a new one to visit the nodes again.
pub struct IterBFS<'a, T> {
    queue: VecDeque<Node<'a, T>>,
    whole: Ghost<Shape<T>>,
}

impl<'a, T> IterBFS<'a, T> {
    /// What holds of every traversal: the nodes that wait to be visited are
    /// nodes of one tree.
    #[verifier::type_invariant]
    pub closed spec fn of_one_tree(self) -> bool {
        forall|i: int| 0 <= i < self.queue@.len() ==> (#[trigger] self.queue@[i]).tree_view() == self.whole@
    }

    /// The shape of the tree whose nodes are visited.
    pub closed spec fn tree_view(self) -> Shape<T> {
        self.whole@
    }

    /// The nodes that wait in the queue, the next to be visited first.
    pub closed spec fn pending(self) -> Seq<Shape<T>> {
        Seq::new(self.queue@.len(), |i: int| self.queue@[i]@)
    }

    /// The nodes that are still to be visited, in the order of the visit.
    pub closed spec fn remaining(self) -> Seq<Shape<T>> {
        Shape::level_order(self.pending())
    }

    /// A traversal that starts at `node`.
    pub fn new(node: Node<'a, T>) -> (it: Self)
        ensures
            it.remaining() == node@.breadth_first(),
            it.tree_view() == node.tree_view(),
    {
        let mut queue: VecDeque<Node<'a, T>> = VecDeque::new();
        let ghost whole = node.tree_view();
        queue.push_back(node);
        let it = IterBFS { queue, whole: Ghost(whole) };
        proof {
            assert(it.pending() =~= seq![node@]);
        }
        it
    }

    /// Visits the next node: takes it from the front of the queue and puts
    /// its children, in their order, at the back.
    pub fn next(&mut self) -> (res: Option<Node<'a, T>>)
        ensures
            final(self).tree_view() == old(self).tree_view(),
            match res {
                Some(node) => {
                    &&& old(self).remaining().len() > 0
                    &&& node@ == old(self).remaining()[0]
                    &&& node.tree_view() == old(self).tree_view()
                    &&& final(self).remaining() == old(self).remaining().drop_first()
                },
                None => old(self).remaining().len() == 0 && final(self).remaining().len() == 0,
            },
    {
        proof {
            use_type_invariant(&*self);
        }
        let ghost waiting = self.pending();
        let mut queue: VecDeque<Node<'a, T>> = VecDeque::new();
        std::mem::swap(&mut queue, &mut self.queue);
        let popped = queue.pop_front();
        match &popped {
            Some(node) => {
                let n = node.child_count();
                let ghost rest = waiting.drop_first();
                let ghost kids = node@.children;
                let mut i: usize = 0;
                while i < n
                    invariant
                        0 <= i <= n,
                        n == kids.len(),
                        kids == node@.children,
                        node.tree_view() == self.whole@,
                        queue@.len() == rest.len() + i,
                        forall|k: int| 0 <= k < rest.len() ==> (#[trigger] queue@[k])@ == rest[k],
                        forall|k: int|
                            rest.len() <= k < queue@.len() ==> (#[trigger] queue@[k])@ == kids[k
                                - rest.len()],
                        forall|k: int|
                            0 <= k < queue@.len() ==> (#[trigger] queue@[k]).tree_view()
                                == self.whole@,
                    decreases n - i,
                {
                    match node.child(i) {
                        Some(child) => {
                            queue.push_back(child);
                        },
                        None => {},
                    }
                    i = i + 1;
                }
                proof {
                    let next = Seq::new(queue@.len(), |k: int| queue@[k]@);
                    assert(next =~= rest + kids);
                    Shape::lemma_level_order_step(waiting);
                    assert(Shape::level_order(waiting).drop_first() =~= Shape::level_order(
                        rest + kids,
                    ));
                }
            },
            None => {
                proof {
                    assert(waiting =~= Seq::empty());
                    assert(Seq::new(queue@.len(), |k: int| queue@[k]@) =~= Seq::<Shape<T>>::empty());
                }
            },
        }
        self.queue = queue;
        popped
    }
}

/// Visits the nodes at and below a node depth-first: each node before its
/// children, and all that lies below a child before the next child.
///
/// The traversal borrows the tree and changes nothing. Once it has come to
/// its end it stays there: make a new one to visit the nodes again.
pub struct IterDFS<'a, T> {
    stack: Vec<Node<'a, T>>,
    whole: Ghost<Shape<T>>,
}

impl<'a, T> IterDFS<'a, T> {
    /// What holds of every traversal: the nodes that wait to be visited are
    /// nodes of one tree.
    #[verifier::type_invariant]
    pub closed spec fn of_one_tree(self) -> bool {
        forall|i: int| 0 <= i < self.stack@.len() ==> (#[trigger] self.stack@[i]).tree_view() == self.whole@
    }

    /// The shape of the tree whose nodes are visited.
    pub closed spec fn tree_view(self) -> Shape<T> {
        self.whole@
    }

    /// The nodes that wait on the stack, the next to be visited last.
    pub closed spec fn pending(self) -> Seq<Shape<T>> {
        Seq::new(self.stack@.len(), |i: int| self.stack@[i]@)
    }

    /// The nodes that are still to be visited, in the order of the visit.
    pub closed spec fn remaining(self) -> Seq<Shape<T>> {
        Shape::preorder_all(self.pending().reverse())
    }

    /// A traversal that starts at `node`.
    pub fn new(node: Node<'a, T>) -> (it: Self)
        ensures
            it.remaining() == node@.preorder(),
            it.tree_view() == node.tree_view(),
    {
        let mut stack: Vec<Node<'a, T>> = Vec::new();
        let ghost whole = node.tree_view();
        stack.push(node);
        let it = IterDFS { stack, whole: Ghost(whole) };
        proof {
            assert(it.pending() =~= seq![node@]);
            assert(it.pending().reverse() =~= seq![node@]);
            node@.lemma_preorder_one();
        }
        it
    }

    /// Visits the next node: takes it from the top of the stack and puts its
    /// children on the stack, the last of them first, so that the first
    /// child is the next to be visited.
    pub fn next(&mut self) -> (res: Option<Node<'a, T>>)
        ensures
            final(self).tree_view() == old(self).tree_view(),
            match res {
                Some(node) => {
                    &&& old(self).remaining().len() > 0
                    &&& node@ == old(self).remaining()[0]
                    &&& node.tree_view() == old(self).tree_view()
                    &&& final(self).remaining() == old(self).remaining().drop_first()
                },
                None => old(self).remaining().len() == 0 && final(self).remaining().len() == 0,
            },
    {
        proof {
            use_type_invariant(&*self);
        }
        let ghost waiting = self.pending();
        let mut stack: Vec<Node<'a, T>> = Vec::new();
        std::mem::swap(&mut stack, &mut self.stack);
        let popped = stack.pop();
        match &popped {
            Some(node) => {
                let n = node.child_count();
                let ghost rest = waiting.drop_last();
                let ghost kids = node@.children;
                let mut i: usize = n;
                while i > 0
                    invariant
                        0 <= i <= n,
                        n == kids.len(),
                        kids == node@.children,
                        node.tree_view() == self.whole@,
                        stack@.len() == rest.len() + (n - i),
                        forall|k: int| 0 <= k < rest.len() ==> (#[trigger] stack@[k])@ == rest[k],
                        forall|j: int|
                            i <= j < n ==> (#[trigger] stack@[rest.len() + (n - 1 - j)])@ == kids[j],
                        forall|k: int|
                            0 <= k < stack@.len() ==> (#[trigger] stack@[k]).tree_view()
                                == self.whole@,
                    decreases i,
                {
                    i = i - 1;
                    match node.child(i) {
                        Some(child) => {
                            stack.push(child);
                        },
                        None => {},
                    }
                }
                proof {
                    let next = Seq::new(stack@.len(), |k: int| stack@[k]@);
                    assert(waiting.reverse() =~= seq![node@] + rest.reverse());
                    assert((seq![node@] + rest.reverse()).drop_first() =~= rest.reverse());
                    assert forall|k: int| 0 <= k < next.len() implies next.reverse()[k] == (kids
                        + rest.reverse())[k] by {
                        if k < n {
                            assert(next[rest.len() + (n - 1 - k)] == kids[k]);
                        }
                    }
                    assert(next.reverse() =~= kids + rest.reverse());
                    Shape::lemma_preorder_concat(kids, rest.reverse());
                    assert(Shape::preorder_all(waiting.reverse()) == node@.preorder()
                        + Shape::preorder_all(rest.reverse()));
                    assert((node@.preorder() + Shape::preorder_all(rest.reverse())).drop_first()
                        =~= Shape::preorder_all(kids) + Shape::preorder_all(rest.reverse()));
                }
            },
            None => {
                proof {
                    assert(waiting =~= Seq::empty());
                    assert(waiting.reverse() =~= Seq::empty());
                    assert(Seq::new(stack@.len(), |k: int| stack@[k]@).reverse() =~= Seq::<
                        Shape<T>,
                    >::empty());
                }
            },
        }
        self.stack = stack;
        popped
    }
}

impl<'a, T> Node<'a, T> {
    /// A breadth-first traversal of the node and what lies below it.
    pub fn iter_bfs(&self) -> (it: IterBFS<'a, T>)
        ensures
            it.remaining() == self@.breadth_first(),
            it.tree_view() == self.tree_view(),
    {
        IterBFS::new(self.ref_clone())
    }

    /// A depth-first traversal of the node and what lies below it.
    pub fn iter_dfs(&self) -> (it: IterDFS<'a, T>)
        ensures
            it.remaining() == self@.preorder(),
            it.tree_view() == self.tree_view(),
    {
        IterDFS::new(self.ref_clone())
    }
}

impl<T> Tree<T> {
    /// A breadth-first traversal of the tree.
    pub fn iter_bfs(&self) -> (it: IterBFS<'_, T>)
        ensures
            it.remaining() == self@.breadth_first(),
            it.tree_view() == self@,
    {
        IterBFS::new(self.root())
    }

    /// A depth-first traversal of the tree.
    pub fn iter_dfs(&self) -> (it: IterDFS<'_, T>)
        ensures
            it.remaining() == self@.preorder(),
            it.tree_view() == self@,
    {
        IterDFS::new(self.root())
    }
}

} // verus!
