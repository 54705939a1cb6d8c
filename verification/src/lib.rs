//! An in-memory ordered key-value index: a B+tree over arena-allocated,
//! fixed-capacity nodes addressed by integer handles.
//!
//! The tree maps keys to values with ordered-map semantics (point lookup,
//! upsert). Nodes live in two append-only arenas owned by the tree and are
//! addressed by tagged integer handles; balancing is done by a single-pass,
//! pre-emptive top-down split during insertion.

pub mod node;
pub mod order;
pub mod search;
pub mod tree;

pub use node::InternalNode;
pub use node::LeafNode;
pub use node::NodeIndex;
pub use order::KeyCmp;
pub use order::TotalOrder;
pub use search::lower_bound;
pub use tree::BTree;
