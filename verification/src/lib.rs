//! DST (Direct Stream Transfer) encoding and decoding of DSD audio.

pub mod codec;
pub mod decode;
pub mod encode;
pub mod error;
pub mod format;
pub mod laws;
pub mod session;
