//! The error taxonomy of a scan, and the caller-facing error wrapper.

use vstd::prelude::*;

verus! {

/// Why a scan failed. A malformed stream is unrecoverable: once a token is
/// corrupt, the stream's future structure cannot be trusted, so the whole
/// scan aborts and the offset of the offending byte is reported.
#[derive(Clone, Copy, Debug, PartialEq, Eq, Structural)]
pub enum ScanError {
    /// The document is malformed at the carried byte offset.
    MalformedInput(usize),
    /// The compressed stream could not be decompressed.
    DecompressionFailed,
}

/// Wraps an error to be reported in a response to the requesting client.
#[derive(Debug, Clone)]
pub struct JWordListErrorResponse<E> {
    pub error: E,
}

} // verus!
