//! Covering relation of the subset order over a corpus of finite sets.
pub mod agreement;
pub mod almost_set;
pub mod bitset;
pub mod corpus;
pub mod covering;
pub mod dyn_tree;
pub mod generate;
pub mod parse;
pub mod pipeline;
pub mod set_trie;
pub mod sorting;
pub mod string_wrapped;
pub mod text;
