//! The PROP chunk: sample rate, channels and compression.

use vstd::prelude::*;

use crate::format::dsdiff::chunk;
use crate::format::dsdiff::chunk::{append_be, write_chunk, CHNL, CMPR, FS, SND};
use crate::format::endian;

verus! {

/// Standard channel IDs (4 bytes each): `SLFT`, `SRGT`.
pub const STEREO_CHANNEL_IDS: [[u8; 4]; 2] = [[83, 76, 70, 84], [83, 82, 71, 84]];

/// Standard channel IDs: `MLFT`, `MRGT`, `C   `, `LFE `, `LS  `, `RS  `.
pub const MULTI_CHANNEL_IDS: [[u8; 4]; 6] = [
    [77, 76, 70, 84],
    [77, 82, 71, 84],
    [67, 32, 32, 32],
    [76, 70, 69, 32],
    [76, 83, 32, 32],
    [82, 83, 32, 32],
];

/// A number, or its first three decimal digits if it has more.
pub open spec fn leading3(i: nat) -> nat
    decreases i,
{
    if i < 1000 {
        i
    } else {
        leading3(i / 10)
    }
}

/// The ID of a channel among so many: a standard one up to six channels, above that a
/// `C` and the first three digits of its number.
pub open spec fn channel_id(n_channels: nat, i: nat) -> Seq<u8> {
    if n_channels == 2 {
        STEREO_CHANNEL_IDS[i as int]@
    } else if n_channels <= 6 {
        MULTI_CHANNEL_IDS[i as int]@
    } else {
        let d = leading3(i);
        seq![67u8, (48 + d / 100) as u8, (48 + d / 10 % 10) as u8, (48 + d % 10) as u8]
    }
}

/// The IDs of the first `n` channels.
pub open spec fn channel_ids(n_channels: nat, n: nat) -> Seq<u8>
    decreases n,
{
    if n == 0 {
        Seq::empty()
    } else {
        channel_ids(n_channels, (n - 1) as nat) + channel_id(n_channels, (n - 1) as nat)
    }
}

/// The data of the CHNL sub-chunk.
pub open spec fn chnl_data(n_channels: nat) -> Seq<u8> {
    endian::be(n_channels, 2) + channel_ids(n_channels, n_channels)
}

/// The data of the CMPR sub-chunk.
pub open spec fn coding_data(coding_id: Seq<u8>, coding_name: Seq<u8>) -> Seq<u8> {
    coding_id + seq![(coding_name.len() % 256) as u8] + coding_name
}

/// The data of the PROP chunk.
#[verifier::opaque]
pub open spec fn prop_data(
    sample_rate: u32,
    n_channels: nat,
    coding_id: Seq<u8>,
    coding_name: Seq<u8>,
) -> Seq<u8> {
    SND@ + chunk::chunk(FS@, endian::be(sample_rate as nat, 4)) + chunk::chunk(
        CHNL@,
        chnl_data(n_channels),
    ) + chunk::chunk(CMPR@, coding_data(coding_id, coding_name))
}

pub proof fn lemma_channel_ids_len(n_channels: nat, n: nat)
    ensures
        channel_ids(n_channels, n).len() == 4 * n,
    decreases n,
{
    if n > 0 {
        lemma_channel_ids_len(n_channels, (n - 1) as nat);
    }
}

/// A number, or its first three decimal digits if it has more.
fn first_digits(i: usize) -> (d: usize)
    ensures
        d == leading3(i as nat),
        d < 1000,
    decreases i,
{
    if i < 1000 {
        i
    } else {
        first_digits(i / 10)
    }
}

/// Append the ID of a channel.
fn append_channel_id(out: &mut Vec<u8>, n_channels: usize, i: usize)
    requires
        i < n_channels,
    ensures
        final(out)@ == old(out)@ + channel_id(n_channels as nat, i as nat),
{
    if n_channels == 2 {
        out.extend_from_slice(&STEREO_CHANNEL_IDS[i]);
    } else if n_channels <= 6 {
        out.extend_from_slice(&MULTI_CHANNEL_IDS[i]);
    } else {
        let d: usize = first_digits(i);
        out.push(67);
        out.push((48 + d / 100) as u8);
        out.push((48 + d / 10 % 10) as u8);
        out.push((48 + d % 10) as u8);
        proof {
            assert(out@ =~= old(out)@ + channel_id(n_channels as nat, i as nat));
        }
    }
}

/// Build the DSDIFF PROP chunk content for a given compression type.
///
/// `coding_id` is the 4-byte compression ID (b"DSD " or b"DST ").
/// `coding_name` is the human-readable name (e.g. b"not compressed\0" or b"DST Encoded").
pub fn build_prop_data(
    sample_rate: u32,
    n_channels: usize,
    coding_id: &[u8; 4],
    coding_name: &[u8],
) -> (out: Vec<u8>)
    ensures
        out@ == prop_data(sample_rate, n_channels as nat, coding_id@, coding_name@),
{
    reveal(prop_data);
    let mut prop_data: Vec<u8> = Vec::new();
    prop_data.extend_from_slice(&SND);
    proof {
        assert(prop_data@ =~= SND@);
    }

    // FS sub-chunk
    let mut fs_data: Vec<u8> = Vec::new();
    append_be(&mut fs_data, sample_rate as u64, 4);
    proof {
        assert(fs_data@ =~= endian::be(sample_rate as nat, 4));
    }
    write_chunk(&mut prop_data, &FS, fs_data.as_slice());

    // CHNL sub-chunk
    let mut chnl_data: Vec<u8> = Vec::new();
    append_be(&mut chnl_data, n_channels as u64, 2);
    proof {
        assert(chnl_data@ =~= endian::be(n_channels as nat, 2) + channel_ids(
            n_channels as nat,
            0,
        ));
    }
    let mut i: usize = 0;
    while i < n_channels
        invariant
            i <= n_channels,
            chnl_data@ == endian::be(n_channels as nat, 2) + channel_ids(
                n_channels as nat,
                i as nat,
            ),
        decreases n_channels - i,
    {
        append_channel_id(&mut chnl_data, n_channels, i);
        i = i + 1;
        proof {
            assert(chnl_data@ =~= endian::be(n_channels as nat, 2) + channel_ids(
                n_channels as nat,
                i as nat,
            ));
        }
    }
    write_chunk(&mut prop_data, &CHNL, chnl_data.as_slice());

    // CMPR sub-chunk
    let mut coding_data: Vec<u8> = Vec::new();
    coding_data.extend_from_slice(coding_id);
    coding_data.push((coding_name.len() % 256) as u8);
    coding_data.extend_from_slice(coding_name);
    proof {
        assert(coding_data@ =~= self::coding_data(coding_id@, coding_name@));
    }
    write_chunk(&mut prop_data, &CMPR, coding_data.as_slice());

    prop_data
}

} // verus!
