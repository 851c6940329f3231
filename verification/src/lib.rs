//! Ignore-aware TODO-marker discovery and rewrite engine.
//!
//! The crate compiles ignore-file lines into matchable rules, decides which
//! files of a tree survive the filter, extracts TODO markers from file
//! contents, and maps a batch of allocated issue identifiers back onto the
//! exact source locations they came from, in a deterministic order.

pub mod gitignore;
pub mod gitissue;
pub mod matched;
pub mod pattern;
pub mod pipeline;
pub mod scanner;
pub mod text;
