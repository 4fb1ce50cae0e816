//! A verified library for rendering a filesystem subtree as a tree diagram.
//!
//! The walker produces entries in depth-first pre-order with siblings in
//! ascending name order; the elision filter suppresses directories whose
//! subtree yields no emitted file; the prefix renderer turns per-level
//! sibling states into branch glyphs; and the orchestrator counts entries
//! and assembles printable lines.  Directory reads and terminal writes stay
//! outside: callers hand directory listings in and write the finished lines
//! out.

pub mod file_iterator;
pub mod filter;
pub mod glob;
pub mod order;
pub mod symbol;
pub mod tree;
