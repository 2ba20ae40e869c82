//! An indexed treap: a sequence that supports access and insertion by position
//! in logarithmic time without keeping its elements in one contiguous block.
//!
//! The elements lie in the leaves of a binary tree, in blocks of at most
//! [`BLOCK_SIZE`] elements. Every inner node caches the number of elements
//! below it, by which positions are found, and carries a random priority; no
//! node has a higher priority than its parent, which keeps the expected depth
//! logarithmic whatever the order of the insertions.
//!
//! - [`node`] holds the tree: lookup, insertion with division of full leaves,
//!   rotation, and the validity check.
//! - [`treap`] holds [`ITreap`], the sequence over one root node.
//! - [`between`] holds the traversal of a range of positions.
//! - [`bulk`] and [`breadth`] build a balanced tree from a whole sequence.
//! - [`model`] holds the tree as a mathematical value, of which the contracts
//!   that fix a shape speak.
//! - [`laws`] states what holds of every treap.
//! - [`deps`] holds the contracts assumed of the crates that the library calls.

pub mod between;
pub mod breadth;
pub mod bulk;
pub mod deps;
pub mod laws;
pub mod model;
pub mod node;
pub mod treap;

pub use between::Between;
pub use model::Tree;
pub use node::{Node, Priority, BLOCK_SIZE, LEFT, RIGHT};
pub use treap::ITreap;
