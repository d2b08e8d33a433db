//! Container formats: DSF, DSDIFF (uncompressed and DST-compressed).

pub mod dsdiff;
pub mod dsf;
pub mod endian;
pub mod laws;
pub mod metadata;
pub mod open;
pub mod open_laws;
pub mod patch;
pub mod reader;
pub mod step;
pub mod text;

pub use open::{DsdStreamReader, StreamInput};
