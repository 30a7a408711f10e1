//! Lua string patterns over text or arbitrary bytes: a backtracking matcher
//! with character classes, anchors, captures, back-references, balanced and
//! frontier items, plus iteration, substitution and a pattern builder.
pub mod classes;
pub mod error;
pub mod engine;
pub mod pattern;
pub mod global;
pub mod subst;
pub mod builder;
pub mod validate;

pub use builder::LuaPatternBuilder;
pub use engine::{try_match, MAX_CAPTURES, POSITION_MARKER};
pub use error::PatternError;
pub use global::{GMatch, GMatchBytes};
pub use pattern::{ByteCaptures, CaptureIter, Captures, LuaPattern};
pub use subst::{generate_gsub_patterns, Subst};
