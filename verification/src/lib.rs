//! Wildcard byte-pattern search over contiguous buffers.
//!
//! A pattern is a sequence of cells, each either a concrete byte (`Some`) or a
//! wildcard (`None`). [`PatternSearcher`] yields, in increasing order, every
//! offset of the haystack at which the pattern matches.

pub mod lanes;
pub mod matching;
pub mod pattern;
pub mod probe;
pub mod searcher;
pub mod theorems;

pub use crate::pattern::{
    LaneWidth, OwnedPattern, Pattern, PatternChunk, PatternError, PreparedPattern,
};
pub use crate::searcher::PatternSearcher;
