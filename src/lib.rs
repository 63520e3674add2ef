//! Random access to the lines of a large, append-only text file, and a
//! compact store for the line numbers that a search produced.
pub mod common;
pub mod text;
pub mod lineview;
pub mod search;
pub mod pattern;
pub mod highlighter;
pub mod settings;
