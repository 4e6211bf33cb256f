pub mod builder;
pub mod tree;
