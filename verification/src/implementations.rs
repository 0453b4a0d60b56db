pub mod binary_unbalanced;
pub mod dir_tree;
pub mod trie;

pub use binary_unbalanced::NodeBinaryUnbalanced;
pub use dir_tree::DirTree;
pub use trie::Trie;
