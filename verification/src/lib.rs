//! An inverted index over text documents: for every normalized word, the set
//! of documents in which it occurs.

pub mod builder;
pub mod chars;
pub mod document;
pub mod index;
pub mod model;
pub mod normalize;
pub mod order;
pub mod render;
pub mod tokens;
