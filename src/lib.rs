//! An in-memory key-value store over byte-string keys, built on a
//! path-compressed adaptive radix tree whose nodes live in an arena.

pub mod childs;
mod ext;
pub mod laws;
mod node;
pub mod smallstr;
pub mod tree;

pub use smallstr::SmallStr;
pub use tree::OxidArt;
