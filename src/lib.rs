//! Line-oriented substring search.
//!
//! A document is split into lines, every line is scanned for non-overlapping
//! occurrences of a query (exactly, or ignoring letter case), and the
//! lines that hold at least one occurrence are reported together with the
//! byte spans of those occurrences in the line's original text.
pub mod matcher;
pub mod folding;
pub mod scanner;
pub mod config;
pub mod render;
pub mod laws;
pub mod boundaries;
