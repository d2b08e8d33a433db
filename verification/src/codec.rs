//! The DST frame codec.

pub mod arithmetic;
pub mod bits;
pub mod bitstream;
pub mod code_laws;
pub mod coded_table;
pub mod constants;
pub mod fir;
pub mod frame;
pub mod laws;
pub mod lossless;
pub mod rice;
