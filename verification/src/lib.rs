//! Domain blocklists as a suffix trie: patterns are merged on insertion so
//! that the stored set stays minimal, and queries are answered against it.
//!
//! - [`pattern`] is the model: patterns as sequences of characters, a trie as
//!   the set of patterns it stores, and what insertion and matching mean there.
//! - [`trie`] is the trie itself, whose contracts speak of that model.
//! - [`laws`] states what follows for every pattern and every trie.
//! - [`parser`] reads the patterns of a blocklist in one of two formats.
//! - [`convert`] goes from the text of a blocklist to the text of its minimal
//!   list of patterns.
//! - [`text`] holds the conversions between strings and characters.

pub mod convert;
mod decompose;
pub mod laws;
mod node;
pub mod parser;
pub mod pattern;
pub mod text;
pub mod trie;
