mod node;
mod tree;
mod query;
mod insert;
mod delete;
pub mod laws;

pub use node::{BstNode, BstNodeLink};
pub use tree::BstTree;
