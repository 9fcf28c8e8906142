pub mod bit;
pub mod json;
pub mod list;
pub mod tree;
