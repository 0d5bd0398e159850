//! Greedy longest-match segmentation of Simplified Chinese text.
//!
//! A [`dict::Dictionary`] is an immutable set of known words, queried by exact
//! string membership. The segmenter scans an input string left to right: at
//! each position it consumes the longest dictionary word (at most
//! [`segmenter::MAX_WORD_LEN`] characters) that starts there, and drops a
//! single character when no word matches. Matched segments are joined with a
//! `/` separator for display.
//!
//! The output is lossy: a character under which no dictionary word starts is
//! dropped, not passed through. Re-segmenting a joined output is not
//! guaranteed to reproduce the segments, since the `/` separator is not
//! filtered from later dictionary lookups; this is a known non-round-trip
//! property, not an error.

pub mod cedict;
pub mod dict;
pub mod segmenter;

pub use dict::Dictionary;
pub use segmenter::join;
pub use segmenter::segment;
pub use segmenter::segment_words;
