//! A compressed, disk-resident substring index over a collection of text
//! documents.  Documents are encoded into symbol streams, suffix-sorted into a
//! Burrows-Wheeler transform, and served by one of two interchangeable rank
//! oracles (a chunked frequency-table FM-index and a wavelet-tree FM-index).
//! Backward search narrows a rank range over the BWT, and posting-list
//! resolution turns that range into `(file_id, document_id)` pairs.
use vstd::prelude::*;

pub mod codec;
pub mod encode;
pub mod error;
pub mod fm;
pub mod format;
pub mod search;
pub mod suffix;
pub mod token;
pub mod wavelet;

verus! {

/// Number of BWT symbols per FM chunk and per posting-list chunk; the two
/// chunkings share this stride, so a BWT-rank position falls in chunks with
/// the same index on both sides.
pub const FM_CHUNK_TOKS: usize = 1024;

/// Once backward search has narrowed the match range to at most this many
/// ranks, further narrowing is skipped: the read cost outweighs the precision.
pub const EARLY_STOP_WIDTH: usize = 2;

} // verus!
