//! An unbalanced ordered binary tree whose structure is owned outright while
//! its elements may be handles shared with the caller.
//!
//! `tree` holds the executable types, `model` the mathematical trees that
//! their contracts speak about, `laws` what is proved of insertion and
//! removal on every tree, and `element` a small element type.

pub mod element;
pub mod laws;
pub mod model;
pub mod tree;

pub use element::E;
pub use tree::BoxBinTreeNode;
pub use tree::BoxBinTreeNodeRef;
