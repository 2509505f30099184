//! Error kinds surfaced by the index: validation failures are detected before
//! any work begins, decode failures are local to one fetched chunk, and I/O
//! failures are reported by the caller that performed the read.
use vstd::prelude::*;

verus! {

#[derive(Clone, Copy, Debug, PartialEq, Eq, Structural)]
pub enum IndexError {
    /// Malformed caller input, e.g. mismatched array lengths.
    Validation,
    /// A fetched byte range did not decompress or deserialize.
    Decode,
    /// A byte-range read against the backing store failed.
    Io,
}

} // verus!
