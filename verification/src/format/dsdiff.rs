//! DSDIFF container format: shared chunk utilities and sub-modules.
//!
//! All multi-byte values in DSDIFF are big-endian.

pub mod chunk;
pub mod crc;
pub mod dsd;
pub mod dst;
pub mod laws;
pub mod prop;
pub mod scan;
pub mod written_laws;

// Re-export public types for convenience.
pub use crc::dst_frame_crc;
pub use dsd::{DsdDsdiffStreamReader, DsdDsdiffWriter};
pub use dst::{DstDsdiffStreamReader, DstDsdiffWriter, DstFrame};
