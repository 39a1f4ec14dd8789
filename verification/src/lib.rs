//! Read-until-delimiter-slice: a streaming matcher that scans a buffered,
//! incrementally filled byte stream for the first occurrence of a multi-byte
//! delimiter, appends everything up to and including the delimiter to a
//! caller-supplied output buffer, and reports how many bytes were consumed.
//!
//! The matcher carries a partial-match counter across region boundaries, so a
//! delimiter that straddles two independently filled chunks is still found.
mod matcher;
mod scan;
mod source;

pub use matcher::find_match;
pub use matcher::lemma_find_match_append;
pub use matcher::lemma_match_ends_with_delimiter;
pub use matcher::lemma_state_after_append;
pub use matcher::lemma_state_suffix;
pub use matcher::memchr;
pub use matcher::scan_len;
pub use matcher::state_after;
pub use matcher::step_state;
pub use scan::chunked_scan_len;
pub use scan::chunked_scan_out;
pub use scan::lemma_chunk_boundary_invariance;
pub use scan::scan;
pub use scan::scan_step;
pub use source::ChunkedSource;

