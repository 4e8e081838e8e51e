//! A splay tree kept in an arena of nodes linked by slot index, verified
//! against a map of its entries.
pub mod key;
pub mod laws;
pub mod neighbours;
pub mod node;
pub mod shape;
pub mod splay_tree;

pub use crate::key::KeyOrder;
pub use crate::key::OrderedKey;
pub use crate::node::Entry;
pub use crate::node::SplayNode;
pub use crate::splay_tree::ChildType;
pub use crate::splay_tree::NodeConfig;
pub use crate::splay_tree::SplayTree;
