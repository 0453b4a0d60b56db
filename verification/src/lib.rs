//! # Simple Tree
//!
//! Simple tree provides a simple interface to build printable trees.

pub mod implementations;
pub mod node;
pub mod text;

pub use implementations::DirTree;
pub use node::Node;
