//! A rooted, ordered, labeled tree layer: node identities, structural
//! operations (create, move, delete, traverse) and per-node payload data,
//! with the tree invariants stated and proved.

pub mod gen;
pub mod id;
pub mod node;
pub mod tree;
pub mod value;

pub use id::NodeId;
pub use node::{Node, NodeApi};
pub use tree::{DeleteStrategy, Tree, TreeError};
pub use value::Value;
