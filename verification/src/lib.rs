//! Ordered maps kept as sorted singly linked lists whose nodes are deleted
//! in two steps, first marked and then unlinked, in the Harris, the
//! Harris-Michael and the Harris-Herlihy-Shavit style.
//!
//! The lists here are driven by one caller at a time. Their nodes live in
//! numbered slots, their links are tagged pointers with the mark in the low
//! bit, and every atomic step of the algorithms (load, compare-and-set,
//! fetch-or, retire) is a function of its own, so that a state in which a
//! node is marked but still linked can be reached and every traversal is
//! proved on it. What a traversal does at a node is decided in [`step`],
//! apart from the memory it runs on.

pub mod tagged;
pub mod model;
pub mod chain;
pub mod step;
pub mod list;
pub mod harris_michael_list;
pub mod laws;
