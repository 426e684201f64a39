//! The ignore-rule engine: segment patterns and the recursive rule tree.

pub mod tree;
