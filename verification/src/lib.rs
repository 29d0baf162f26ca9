//! Engine of a "same-lines" comparison: it finds every maximal run of
//! identical (or whitespace-normalized) lines shared between two files and
//! reports each run as a pair of line ranges, one per file.

pub mod chunks;
pub mod laws;
pub mod matching;
pub mod norm;
