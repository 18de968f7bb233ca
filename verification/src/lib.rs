//! Ordered, rooted trees of arbitrary arity, navigated and edited through
//! focus-based cursors.
//!
//! Every cursor records the path of child positions that leads from the root
//! of its tree to the node it is focused on, and every navigation or editing
//! operation is proved to keep that record in step with the tree: replaying
//! the recorded path from the root always reaches the focus.

/// Fixed-layout trees with good memory locality.
pub mod fixed;
/// The mathematical tree model that all contracts are stated over.
pub mod model;
/// Single-ownership trees wherein a parent owns its children.
pub mod owned;
/// Shared-storage trees: one arena owns every node, and copyable handles
/// alias nodes, so an edit made through one handle is seen through all of
/// them.
pub mod shared;
/// Traversal queues that fix the order in which a tree is laid out.
pub mod traversal;
/// Validated index arithmetic shared by every cursor.
pub mod util;
