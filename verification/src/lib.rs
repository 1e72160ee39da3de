//! Inline-markup resolver and generic document-tree engine.
//!
//! The crate has two halves: `inline` turns a flat token stream into a
//! properly nested sequence of open/close events for inline containers,
//! and `tree` offers an append-only tree builder plus a cursor that
//! replays the finished tree as a depth-first event stream.

pub mod inline;
pub mod span;
pub mod tree;
