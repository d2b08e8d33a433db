//! Chunks: an ID, the size of the data, the data, and a byte of padding if that is odd.

use vstd::prelude::*;

use crate::format::dsdiff::scan;
use crate::format::endian;
use crate::format::endian::be_bytes;

verus! {

/// `FRM8`.
pub const FRM8: [u8; 4] = [70, 82, 77, 56];

/// `DSD `.
pub const DSD: [u8; 4] = [68, 83, 68, 32];

/// `DST `.
pub const DST: [u8; 4] = [68, 83, 84, 32];

/// `FVER`.
pub const FVER: [u8; 4] = [70, 86, 69, 82];

/// `PROP`.
pub const PROP: [u8; 4] = [80, 82, 79, 80];

/// `SND `.
pub const SND: [u8; 4] = [83, 78, 68, 32];

/// `FS  `.
pub const FS: [u8; 4] = [70, 83, 32, 32];

/// `CHNL`.
pub const CHNL: [u8; 4] = [67, 72, 78, 76];

/// `CMPR`.
pub const CMPR: [u8; 4] = [67, 77, 80, 82];

/// `FRTE`.
pub const FRTE: [u8; 4] = [70, 82, 84, 69];

/// `DSTF`.
pub const DSTF: [u8; 4] = [68, 83, 84, 70];

/// `DSTC`.
pub const DSTC: [u8; 4] = [68, 83, 84, 67];

/// `DSTI`.
pub const DSTI: [u8; 4] = [68, 83, 84, 73];

/// Version of the format in the FVER chunk.
pub const FORMAT_VERSION: u32 = 0x0105_0000;

/// A chunk header: ID and size.
pub open spec fn chunk_header(id: Seq<u8>, size: nat) -> Seq<u8> {
    id + endian::be(size, 8)
}

/// The padding behind data of a size.
pub open spec fn padding(size: nat) -> Seq<u8> {
    if size % 2 == 0 {
        Seq::empty()
    } else {
        seq![0u8]
    }
}

/// A complete chunk: id(4) + size(8) + data + pad.
pub open spec fn chunk(id: Seq<u8>, data: Seq<u8>) -> Seq<u8> {
    chunk_header(id, data.len()) + data + padding(data.len())
}

/// The bytes of a chunk with data of a size.
pub open spec fn chunk_len(size: nat) -> nat {
    12 + size + size % 2
}

pub proof fn lemma_chunk_len(id: Seq<u8>, data: Seq<u8>)
    requires
        id.len() == 4,
    ensures
        chunk_header(id, data.len()).len() == 12,
        chunk(id, data).len() == chunk_len(data.len()),
{
    endian::lemma_be_len(data.len(), 8);
}

/// Append the low `n` bytes of a number, big-endian.
pub fn append_be(out: &mut Vec<u8>, v: u64, n: usize)
    requires
        n <= 8,
    ensures
        final(out)@ == old(out)@ + endian::be(v as nat, n as nat),
{
    let bytes: Vec<u8> = be_bytes(v, n);
    out.extend_from_slice(bytes.as_slice());
}

/// Write a chunk header (id + size).
pub fn write_chunk_header(out: &mut Vec<u8>, chunk_id: &[u8; 4], size: u64)
    ensures
        final(out)@ == old(out)@ + chunk_header(chunk_id@, size as nat),
{
    out.extend_from_slice(chunk_id);
    append_be(out, size, 8);
    proof {
        assert(out@ =~= old(out)@ + chunk_header(chunk_id@, size as nat));
    }
}

/// Write a complete small chunk: id(4) + size(8) + data + pad.
pub fn write_chunk(out: &mut Vec<u8>, chunk_id: &[u8; 4], data: &[u8])
    ensures
        final(out)@ == old(out)@ + chunk(chunk_id@, data@),
{
    write_chunk_header(out, chunk_id, data.len() as u64);
    out.extend_from_slice(data);
    if data.len() % 2 != 0 {
        out.push(0x00);
    }
    proof {
        assert(out@ =~= old(out)@ + chunk(chunk_id@, data@));
    }
}

/// Bytes stand in a file at a position.
pub open spec fn stands(file: Seq<u8>, pos: nat, w: Seq<u8>) -> bool {
    &&& pos + w.len() <= file.len()
    &&& file.subrange(pos as int, (pos + w.len()) as int) == w
}

/// The parts of what stands in a file stand there too.
pub proof fn lemma_stands_concat(file: Seq<u8>, pos: nat, a: Seq<u8>, b: Seq<u8>)
    requires
        stands(file, pos, a + b),
    ensures
        stands(file, pos, a),
        stands(file, pos + a.len(), b),
{
    let t = file.subrange(pos as int, (pos + (a + b).len()) as int);
    assert(file.subrange(pos as int, (pos + a.len()) as int) =~= t.take(a.len() as int));
    assert(t.take(a.len() as int) =~= a);
    assert(file.subrange((pos + a.len()) as int, (pos + a.len() + b.len()) as int) =~= t.skip(
        a.len() as int,
    ));
    assert(t.skip(a.len() as int) =~= b);
}

/// What stands at the start of what stands in a file.
pub proof fn lemma_stands_prefix(file: Seq<u8>, pos: nat, w: Seq<u8>, n: int)
    requires
        stands(file, pos, w),
        0 <= n <= w.len(),
    ensures
        stands(file, pos, w.take(n)),
{
    assert(w =~= w.take(n) + w.skip(n));
    lemma_stands_concat(file, pos, w.take(n), w.skip(n));
}

/// The header and the data of a chunk that stands in a file.
pub proof fn lemma_chunk_stands(file: Seq<u8>, pos: nat, id: Seq<u8>, data: Seq<u8>)
    requires
        id.len() == 4,
        data.len() <= u64::MAX,
        stands(file, pos, chunk(id, data)),
    ensures
        scan::part(file, pos, 12) == Some(chunk_header(id, data.len())),
        chunk_header(id, data.len()).take(4) == id,
        scan::header_size(chunk_header(id, data.len())) == data.len(),
        stands(file, pos + 12, data),
{
    let h = chunk_header(id, data.len());
    lemma_chunk_len(id, data);
    lemma_stands_concat(file, pos, h + data, padding(data.len()));
    lemma_stands_concat(file, pos, h, data);
    lemma_header_parts(id, data.len());
}

/// The ID and the size in a chunk header.
pub proof fn lemma_header_parts(id: Seq<u8>, size: nat)
    requires
        id.len() == 4,
        size <= u64::MAX,
    ensures
        chunk_header(id, size).len() == 12,
        chunk_header(id, size).take(4) == id,
        scan::header_size(chunk_header(id, size)) == size,
{
    let h = chunk_header(id, size);
    endian::lemma_be_len(size, 8);
    assert(h.take(4) =~= id);
    assert(h.skip(4) =~= endian::be(size, 8));
    endian::lemma_pow256();
    endian::lemma_be_round_trip(size, 8);
}

} // verus!
