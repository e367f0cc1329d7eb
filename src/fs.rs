pub mod tree;
pub mod dir;
