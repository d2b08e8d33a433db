//! Audio metadata extracted from file headers.

use vstd::arithmetic::div_mod::*;
use vstd::prelude::*;

use crate::codec::constants::DST_FRAME_RATE;
use crate::format::endian;
use crate::format::endian::to_size;

verus! {

/// Audio metadata extracted from file headers (before any sample data).
///
/// All fields are available immediately after opening a file, without
/// reading any sample data.
#[derive(Debug, Clone, Copy)]
pub struct DsdMetadata {
    pub sample_rate: u32,
    pub n_channels: usize,
    pub total_samples: u64,
    /// Bytes per channel in one DST frame (`sample_rate / 75 / 8`).
    pub frame_bytes_per_ch: usize,
    /// Bits per channel in one DST frame (`sample_rate / 75`).
    pub frame_bits: usize,
    /// Total number of frames.
    pub n_frames: usize,
}

/// The quotient of two numbers, rounded up.
pub open spec fn ceil_div(a: int, b: int) -> int {
    (a + b - 1) / b
}

/// A quotient rounded up covers the number, and no more than it has to.
pub proof fn lemma_ceil_div(a: int, b: int)
    requires
        a >= 0,
        b > 0,
    ensures
        ceil_div(a, b) >= 0,
        ceil_div(a, b) * b < a + b,
        ceil_div(a, b) * b >= a,
{
    let q = (a + b - 1) / b;
    lemma_div_pos_is_pos(a + b - 1, b);
    lemma_fundamental_div_mod(a + b - 1, b);
    lemma_mod_bound(a + b - 1, b);
    assert(q * b == b * q) by (nonlinear_arith);
}

impl DsdMetadata {
    /// The metadata of audio with these parameters.
    pub open spec fn of(self, sample_rate: u32, n_channels: usize, total_samples: u64) -> bool {
        &&& self.sample_rate == sample_rate
        &&& self.n_channels == n_channels
        &&& self.total_samples == total_samples
        &&& self.frame_bits == sample_rate / 75
        &&& self.frame_bytes_per_ch == sample_rate / 75 / 8
        &&& self.n_frames == ceil_div(
            endian::size_value((total_samples / 8) as nat) as int,
            (sample_rate / 75 / 8) as int,
        )
    }

    /// Compute metadata from basic audio parameters.
    ///
    /// The sample rate has to give a frame of at least one byte.
    pub fn from_params(sample_rate: u32, n_channels: usize, total_samples: u64) -> (m: Self)
        requires
            sample_rate / 75 / 8 > 0,
        ensures
            m.of(sample_rate, n_channels, total_samples),
    {
        let frame_bits: usize = (sample_rate / DST_FRAME_RATE) as usize;
        let frame_bytes_per_ch: usize = frame_bits / 8;
        let total_bytes_per_ch: usize = to_size(total_samples / 8);
        let n_frames: usize = div_ceil(total_bytes_per_ch, frame_bytes_per_ch);
        Self {
            sample_rate,
            n_channels,
            total_samples,
            frame_bytes_per_ch,
            frame_bits,
            n_frames,
        }
    }
}

/// The quotient of two numbers, rounded up.
pub fn div_ceil(a: usize, b: usize) -> (q: usize)
    requires
        b > 0,
    ensures
        q == ceil_div(a as int, b as int),
{
    proof {
        let (x, y) = (a as int, b as int);
        let (d, m) = (x / y, x % y);
        lemma_fundamental_div_mod(x, y);
        lemma_mod_bound(x, y);
        assert(y * d == d * y) by (nonlinear_arith);
        if m == 0 {
            lemma_fundamental_div_mod_converse(x + y - 1, y, d, y - 1);
        } else {
            assert((d + 1) * y == d * y + y) by (nonlinear_arith);
            lemma_fundamental_div_mod_converse(x + y - 1, y, d + 1, m - 1);
            assert(d < x) by (nonlinear_arith)
                requires
                    x == y * d + m,
                    m > 0,
                    y > m,
                    d >= 0,
            ;
        }
        lemma_div_pos_is_pos(x, y);
    }
    a / b + if a % b != 0 { 1 } else { 0 }
}

} // verus!
