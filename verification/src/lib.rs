//! A mutable, ordered tree container whose nodes are addressed by copyable
//! references.
//!
//! A [`Tree`] owns its nodes. A [`NodeRef`] names a node without borrowing
//! the tree, so that a reference found during a traversal can be handed back
//! to the tree to detach, borrow or extend that node. Every operation that
//! takes a reference resolves it against the tree again and answers with an
//! absent value when it no longer names one of the tree's nodes.
//!
//! References come from an [`IdSource`], which issues each of them once. A
//! node keeps its reference for as long as it lives, through every tree
//! that it becomes part of.
//!
//! What the operations do is stated over [`Shape`], the mathematical model
//! of a tree; the modules `laws` and `visits` hold what follows for every
//! tree.
pub mod builder;
pub mod cursor;
pub mod error;
pub mod ids;
pub mod iter;
pub mod laws;
pub mod lemmas;
pub mod node;
pub mod order;
pub mod shape;
pub mod tree;
pub mod visits;

pub use builder::{builders_to_node, make_node, NodeBuilder};
pub use cursor::{Node, NodeMut};
pub use error::TreeError;
pub use ids::{IdSource, NodeRef};
pub use iter::{IterBFS, IterDFS};
pub use node::BaseNode;
pub use shape::Shape;
pub use tree::{Rejected, Tree};
