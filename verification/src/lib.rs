//! Binary trees with integer labels: construction, depth-first traversal,
//! search, size-bounded reshaping, and the search for the largest complete
//! subtree.

pub mod generate;
pub mod render;
pub mod reshape;
pub mod subtree;
pub mod tree;
pub mod walk;
