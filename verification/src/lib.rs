//! A weighted prefix-search index built on a character trie.
//!
//! Words are inserted together with a weight; a query for a prefix returns
//! every indexed word beginning with that prefix, ordered by descending
//! weight, with ties broken lexicographically.

pub mod laws;
pub mod lex;
pub mod ranking;
pub mod trie;

pub use trie::Dictionary;
