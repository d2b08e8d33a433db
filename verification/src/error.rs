//! Structured error types for the cladst library.

use vstd::prelude::*;

verus! {

/// `std::io::Error`, which the library carries and never looks into.
#[verifier::external_type_specification]
#[verifier::external_body]
pub struct ExIoError(std::io::Error);

/// All errors produced by the cladst library.
#[derive(Debug)]
pub enum CladstError {
    /// I/O error (file read/write/seek).
    Io(std::io::Error),
    /// Invalid or unsupported container format.
    Format(String),
    /// Codec-level error (bitstream, arithmetic coder, etc.).
    Codec(String),
    /// CRC mismatch after decoding a frame.
    CrcMismatch { frame: usize, expected: u32, computed: u32 },
    /// Inline verify detected a difference between encoded and original data.
    VerifyFailed { frame: usize, channel: usize, diffs: usize },
}

/// Convenience alias used throughout the library.
pub type Result<T> = std::result::Result<T, CladstError>;

} // verus!
