//! Random generation of byte strings that match a regular expression.
//!
//! Pattern text is parsed by `regex_syntax` and turned into a [`Node`] tree
//! (`hir`), checked against its invariants (`tree`), and walked by the
//! [`Generator`] (`generator`), which draws repetition counts, alternation
//! branches and class members with `rand` (`sample`) and writes UTF-8 or raw
//! bytes (`encode`). Every output is proved to be one that the tree allows;
//! `laws` states further properties of the outputs and of class sampling.
pub mod encode;
pub mod generator;
pub mod hir;
pub mod laws;
pub mod sample;
pub mod tree;

pub use generator::{Generator, PatternError, DEFAULT_MAX_REPEAT};
pub use tree::{AnchorKind, Node, Quantifier};
