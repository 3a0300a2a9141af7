//! A small engine that derives "corrupted" variants of a word by applying
//! sound-shift-style substring substitutions: a deterministic, heuristic
//! model of how a name might phonetically drift.
//!
//! The crate has three parts:
//! - [`text`]: global substring replacement and the smoothing pass that
//!   collapses triple-letter runs;
//! - [`parse`]: the pattern-string grammar, turning a chained rule
//!   description such as `"bh => b => p; dh => d"` into ordered
//!   `(search, replacement)` pairs;
//! - [`engine`]: the stateful [`Corruptor`], a cyclic, cursor-tracking
//!   matcher that applies at most one pattern per corruption step.

pub mod engine;
pub mod parse;
pub mod text;

pub use engine::Corruptor;
pub use parse::parse_patterns;
