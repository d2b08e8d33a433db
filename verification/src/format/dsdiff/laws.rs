//! What holds of every DSDIFF file, said of its bytes: which properties a PROP chunk tells,
//! which chunks a search passes, and which frames a DST chunk gives.

use vstd::prelude::*;

use crate::format::dsdiff::chunk;
use crate::format::dsdiff::chunk::{CHNL, CMPR, DSTC, DSTF, FS, PROP};
use crate::format::dsdiff::dst;
use crate::format::dsdiff::dst::NextFrame;
use crate::format::dsdiff::scan;
use crate::format::dsdiff::scan::{PropParse, Props, Scanned};
use crate::format::endian;

verus! {

/// The number in the first two bytes, the high one first.
pub open spec fn two(s: Seq<u8>) -> int {
    0x100 * s[0] + s[1]
}

/// The number in the first four bytes, the highest first.
pub open spec fn four(s: Seq<u8>) -> int {
    0x100_0000 * s[0] + 0x1_0000 * s[1] + 0x100 * s[2] + s[3]
}

pub proof fn lemma_numbers(s: Seq<u8>)
    ensures
        s.len() >= 2 ==> endian::be_value(s.take(2)) == two(s),
        s.len() >= 4 ==> endian::be_value(s.take(4)) == four(s),
        s.len() >= 4 ==> 0 <= four(s) <= u32::MAX,
{
    reveal_with_fuel(endian::be_value, 5);
    if s.len() >= 2 {
        assert(s.take(2).drop_last() =~= s.take(1));
        assert(s.take(1).drop_last() =~= s.take(0));
    }
    if s.len() >= 4 {
        assert(s.take(4).drop_last() =~= s.take(3));
        assert(s.take(3).drop_last() =~= s.take(2));
    }
}

/// A chunk is its ID, the number of its data bytes in eight bytes, the data, and a zero byte
/// if their number is odd.
pub proof fn law_chunk_bytes(id: Seq<u8>, data: Seq<u8>)
    requires
        id.len() == 4,
        data.len() <= u64::MAX,
    ensures
        ({
            let c = chunk::chunk(id, data);
            let n = data.len();
            &&& c.len() == 12 + n + n % 2
            &&& c.take(4) == id
            &&& 0x1_0000_0000 * four(c.skip(4)) + four(c.skip(8)) == n
            &&& c.subrange(12, 12 + n as int) == data
            &&& n % 2 == 1 ==> c.last() == 0
        }),
{
    let c = chunk::chunk(id, data);
    let n = data.len();
    let size = endian::be(n, 8);
    chunk::lemma_chunk_len(id, data);
    endian::lemma_be_len(n, 8);
    endian::lemma_pow256();
    endian::lemma_be_round_trip(n, 8);
    assert(c.take(4) =~= id);
    assert(c.subrange(12, 12 + n as int) =~= data);
    assert(c.subrange(4, 12) =~= size);
    lemma_eight(size);
    assert(forall|i: int| 0 <= i < 8 ==> c[4 + i] == #[trigger] size[i]);
}

proof fn lemma_eight(s: Seq<u8>)
    requires
        s.len() == 8,
    ensures
        endian::be_value(s) == 0x1_0000_0000 * four(s) + four(s.skip(4)),
{
    reveal_with_fuel(endian::be_value, 9);
    assert(s.drop_last() =~= s.take(7));
    assert(s.take(7).drop_last() =~= s.take(6));
    assert(s.take(6).drop_last() =~= s.take(5));
    assert(s.take(5).drop_last() =~= s.take(4));
    lemma_numbers(s);
}

/// The IDs are the words that their names say.
pub proof fn law_ids()
    ensures
        FS@ == seq![70u8, 83, 32, 32],
        CHNL@ == seq![67u8, 72, 78, 76],
        CMPR@ == seq![67u8, 77, 80, 82],
        PROP@ == seq![80u8, 82, 79, 80],
        DSTF@ == seq![68u8, 83, 84, 70],
        DSTC@ == seq![68u8, 83, 84, 67],
        chunk::DST@ == seq![68u8, 83, 84, 32],
        chunk::DSD@ == seq![68u8, 83, 68, 32],
        chunk::FRM8@ == seq![70u8, 82, 77, 56],
        chunk::FRTE@ == seq![70u8, 82, 84, 69],
{
    assert(FS@ =~= seq![70u8, 83, 32, 32]);
    assert(CHNL@ =~= seq![67u8, 72, 78, 76]);
    assert(CMPR@ =~= seq![67u8, 77, 80, 82]);
    assert(PROP@ =~= seq![80u8, 82, 79, 80]);
    assert(DSTF@ =~= seq![68u8, 83, 84, 70]);
    assert(DSTC@ =~= seq![68u8, 83, 84, 67]);
    assert(chunk::DST@ =~= seq![68u8, 83, 84, 32]);
    assert(chunk::DSD@ =~= seq![68u8, 83, 68, 32]);
    assert(chunk::FRM8@ =~= seq![70u8, 82, 77, 56]);
    assert(chunk::FRTE@ =~= seq![70u8, 82, 84, 69]);
}

// ---------------------------------------------------------------------------
// The PROP chunk
// ---------------------------------------------------------------------------

/// Chunks, each with its ID and its data, one behind the other: the first `k` of them.
pub open spec fn chunks(subs: Seq<(Seq<u8>, Seq<u8>)>, k: nat) -> Seq<u8>
    decreases k,
{
    if k == 0 {
        Seq::empty()
    } else {
        chunks(subs, (k - 1) as nat) + chunk::chunk(subs[k - 1].0, subs[k - 1].1)
    }
}

/// Sub-chunks of a PROP chunk whose data are long enough for what they tell.
pub open spec fn sound_subs(subs: Seq<(Seq<u8>, Seq<u8>)>) -> bool {
    forall|i: int|
        0 <= i < subs.len() ==> {
            &&& (#[trigger] subs[i]).0.len() == 4
            &&& subs[i].1.len() <= u64::MAX
            &&& subs[i].0 == FS@ ==> subs[i].1.len() >= 4
            &&& subs[i].0 == CHNL@ ==> subs[i].1.len() >= 2
            &&& subs[i].0 == CMPR@ ==> subs[i].1.len() >= 4
        }
}

/// The last sub-chunk with an ID.
pub open spec fn last_with(subs: Seq<(Seq<u8>, Seq<u8>)>, id: Seq<u8>, i: int) -> bool {
    &&& 0 <= i < subs.len()
    &&& subs[i].0 == id
    &&& forall|j: int| i < j < subs.len() ==> (#[trigger] subs[j]).0 != id
}

/// No sub-chunk has an ID.
pub open spec fn none_with(subs: Seq<(Seq<u8>, Seq<u8>)>, id: Seq<u8>) -> bool {
    forall|j: int| 0 <= j < subs.len() ==> (#[trigger] subs[j]).0 != id
}

/// What is known behind the first `k` sub-chunks.
spec fn known(subs: Seq<(Seq<u8>, Seq<u8>)>, k: nat) -> Props
    decreases k,
{
    if k == 0 {
        scan::no_props()
    } else {
        let (id, data) = subs[k - 1];
        scan::learn(known(subs, (k - 1) as nat), id, data.take(scan::needed(id) as int))
    }
}

proof fn lemma_chunks_prefix(subs: Seq<(Seq<u8>, Seq<u8>)>, k: nat, n: nat)
    requires
        k <= n,
    ensures
        chunks(subs, k).len() <= chunks(subs, n).len(),
        chunks(subs, n).take(chunks(subs, k).len() as int) == chunks(subs, k),
    decreases n,
{
    let a = chunks(subs, k);
    if k < n {
        lemma_chunks_prefix(subs, k, (n - 1) as nat);
        let b = chunks(subs, (n - 1) as nat);
        assert(chunks(subs, n).take(a.len() as int) =~= b.take(a.len() as int));
    } else {
        assert(a.take(a.len() as int) =~= a);
    }
}

/// Each of the chunks stands in a file in which all of them stand.
proof fn lemma_chunk_among(
    file: Seq<u8>,
    pos: nat,
    subs: Seq<(Seq<u8>, Seq<u8>)>,
    k: nat,
    n: nat,
)
    requires
        k < n,
        chunk::stands(file, pos, chunks(subs, n)),
    ensures
        chunk::stands(
            file,
            pos + chunks(subs, k).len(),
            chunk::chunk(subs[k as int].0, subs[k as int].1),
        ),
        chunks(subs, k + 1).len() == chunks(subs, k).len() + chunk::chunk(
            subs[k as int].0,
            subs[k as int].1,
        ).len(),
        chunks(subs, k + 1).len() <= chunks(subs, n).len(),
{
    lemma_chunks_prefix(subs, k + 1, n);
    let a = chunks(subs, k + 1);
    chunk::lemma_stands_prefix(file, pos, chunks(subs, n), a.len() as int);
    chunk::lemma_stands_concat(
        file,
        pos,
        chunks(subs, k),
        chunk::chunk(subs[k as int].0, subs[k as int].1),
    );
}

proof fn lemma_subs_read(
    file: Seq<u8>,
    pos: nat,
    subs: Seq<(Seq<u8>, Seq<u8>)>,
    k: nat,
)
    requires
        k <= subs.len(),
        sound_subs(subs),
        chunk::stands(file, pos, chunks(subs, subs.len())),
        pos + chunks(subs, subs.len()).len() <= u64::MAX,
    ensures
        scan::sub_chunks(
            file,
            pos + chunks(subs, k).len(),
            pos + chunks(subs, subs.len()).len(),
            known(subs, k),
        ) == PropParse::Parsed(known(subs, subs.len())),
    decreases subs.len() - k,
{
    if k < subs.len() {
        let (id, data) = subs[k as int];
        let at = pos + chunks(subs, k).len();
        lemma_chunk_among(file, pos, subs, k, subs.len());
        chunk::lemma_chunk_len(id, data);
        chunk::lemma_chunk_stands(file, at, id, data);
        let n = scan::needed(id);
        if n > 0 {
            assert(file.subrange((at + 12) as int, (at + 12 + n) as int) =~= data.take(n as int));
        } else {
            assert(data.take(0) =~= Seq::empty());
        }
        assert(scan::part(file, at + 12, n) == Some(data.take(n as int)));
        assert(scan::next_chunk(at + 12, data.len()) == Some(pos + chunks(subs, k + 1).len()));
        lemma_subs_read(file, pos, subs, k + 1);
    }
}

proof fn lemma_known(subs: Seq<(Seq<u8>, Seq<u8>)>, k: nat)
    requires
        k <= subs.len(),
        sound_subs(subs),
    ensures
        none_with(subs.take(k as int), FS@) ==> known(subs, k).sample_rate == 0,
        none_with(subs.take(k as int), CHNL@) ==> known(subs, k).n_channels == 0,
        none_with(subs.take(k as int), CMPR@) ==> known(subs, k).compression == seq![0u8, 0, 0, 0],
        forall|i: int| #[trigger]
            last_with(subs.take(k as int), FS@, i) ==> known(subs, k).sample_rate == four(
                subs[i].1,
            ),
        forall|i: int| #[trigger]
            last_with(subs.take(k as int), CHNL@, i) ==> known(subs, k).n_channels == two(
                subs[i].1,
            ),
        forall|i: int| #[trigger]
            last_with(subs.take(k as int), CMPR@, i) ==> known(subs, k).compression
                == subs[i].1.take(4),
    decreases k,
{
    if k > 0 {
        let j = (k - 1) as nat;
        lemma_known(subs, j);
        scan::lemma_ids_differ();
        let (id, data) = subs[j as int];
        lemma_numbers(data);
        let a = subs.take(j as int);
        let b = subs.take(k as int);
        assert(b[j as int] == subs[j as int]);
        assert(forall|i: int| 0 <= i < j ==> a[i] == #[trigger] b[i]);
        assert forall|w: Seq<u8>, i: int| #[trigger] last_with(b, w, i) && i < j implies last_with(
            a,
            w,
            i,
        ) && id != w by {
            assert(a[i] == b[i]);
            assert(b[j as int].0 != w);
            assert(forall|m: int| i < m < a.len() ==> b[m] == #[trigger] a[m]);
        }
        assert forall|w: Seq<u8>| #[trigger] none_with(b, w) implies none_with(a, w) && id != w by {
            assert(b[j as int].0 != w);
            assert(forall|m: int| 0 <= m < a.len() ==> b[m] == #[trigger] a[m]);
        }
        assert forall|w: Seq<u8>| #[trigger] last_with(b, w, j as int) implies id == w by {
        }
    }
}

/// A PROP chunk tells what its last FS, CHNL and CMPR sub-chunks say, wherever they stand
/// among its sub-chunks, and nothing where it has none.
pub proof fn law_prop_tells_the_last(
    file: Seq<u8>,
    start: nat,
    form: Seq<u8>,
    subs: Seq<(Seq<u8>, Seq<u8>)>,
)
    requires
        form.len() == 4,
        sound_subs(subs),
        chunk::stands(file, start, form + chunks(subs, subs.len())),
        start + 4 + chunks(subs, subs.len()).len() <= u64::MAX,
    ensures
        scan::prop_chunk(file, start, 4 + chunks(subs, subs.len()).len()) matches PropParse::Parsed(
            p,
        ) && {
            &&& none_with(subs, FS@) ==> p.sample_rate == 0
            &&& none_with(subs, CHNL@) ==> p.n_channels == 0
            &&& none_with(subs, CMPR@) ==> p.compression == seq![0u8, 0, 0, 0]
            &&& forall|i: int| #[trigger]
                last_with(subs, FS@, i) ==> p.sample_rate == four(subs[i].1)
            &&& forall|i: int| #[trigger]
                last_with(subs, CHNL@, i) ==> p.n_channels == two(subs[i].1)
            &&& forall|i: int| #[trigger]
                last_with(subs, CMPR@, i) ==> p.compression == subs[i].1.take(4)
        },
{
    lemma_prop_known(file, start, form, subs);
    lemma_known(subs, subs.len());
    assert(subs.take(subs.len() as int) =~= subs);
}

proof fn lemma_prop_known(
    file: Seq<u8>,
    start: nat,
    form: Seq<u8>,
    subs: Seq<(Seq<u8>, Seq<u8>)>,
)
    requires
        form.len() == 4,
        sound_subs(subs),
        chunk::stands(file, start, form + chunks(subs, subs.len())),
        start + 4 + chunks(subs, subs.len()).len() <= u64::MAX,
    ensures
        scan::prop_chunk(file, start, 4 + chunks(subs, subs.len()).len()) == PropParse::Parsed(
            known(subs, subs.len()),
        ),
{
    chunk::lemma_stands_concat(file, start, form, chunks(subs, subs.len()));
    lemma_subs_read(file, start + 4, subs, 0);
}

/// A sub-chunk with any other ID changes nothing, wherever it is put among the sub-chunks.
pub proof fn law_other_sub_chunks_change_nothing(
    file: Seq<u8>,
    start: nat,
    other_file: Seq<u8>,
    other_start: nat,
    form: Seq<u8>,
    subs: Seq<(Seq<u8>, Seq<u8>)>,
    at: int,
    id: Seq<u8>,
    data: Seq<u8>,
)
    requires
        form.len() == 4,
        sound_subs(subs),
        0 <= at <= subs.len(),
        id.len() == 4,
        data.len() <= u64::MAX,
        id != FS@ && id != CHNL@ && id != CMPR@,
        chunk::stands(file, start, form + chunks(subs, subs.len())),
        start + 4 + chunks(subs, subs.len()).len() <= u64::MAX,
        ({
            let more = subs.insert(at, (id, data));
            &&& chunk::stands(other_file, other_start, form + chunks(more, more.len()))
            &&& other_start + 4 + chunks(more, more.len()).len() <= u64::MAX
        }),
    ensures
        ({
            let more = subs.insert(at, (id, data));
            scan::prop_chunk(other_file, other_start, 4 + chunks(more, more.len()).len())
                == scan::prop_chunk(file, start, 4 + chunks(subs, subs.len()).len())
        }),
{
    let more = subs.insert(at, (id, data));
    assert forall|i: int| 0 <= i < more.len() implies {
        &&& (#[trigger] more[i]).0.len() == 4
        &&& more[i].1.len() <= u64::MAX
        &&& more[i].0 == FS@ ==> more[i].1.len() >= 4
        &&& more[i].0 == CHNL@ ==> more[i].1.len() >= 2
        &&& more[i].0 == CMPR@ ==> more[i].1.len() >= 4
    } by {
        if i < at {
            assert(more[i] == subs[i]);
        } else if i > at {
            assert(more[i] == subs[i - 1]);
        }
    }
    lemma_prop_known(file, start, form, subs);
    lemma_prop_known(other_file, other_start, form, more);
    lemma_known_insert(subs, at, id, data, more.len());
}

proof fn lemma_known_insert(
    subs: Seq<(Seq<u8>, Seq<u8>)>,
    at: int,
    id: Seq<u8>,
    data: Seq<u8>,
    k: nat,
)
    requires
        0 <= at <= subs.len(),
        k <= subs.len() + 1,
        id != FS@ && id != CHNL@ && id != CMPR@,
    ensures
        known(subs.insert(at, (id, data)), k) == known(
            subs,
            if k <= at {
                k
            } else {
                (k - 1) as nat
            },
        ),
    decreases k,
{
    if k > 0 {
        let more = subs.insert(at, (id, data));
        lemma_known_insert(subs, at, id, data, (k - 1) as nat);
        if k - 1 < at {
            assert(more[k - 1] == subs[k - 1]);
        } else if k - 1 > at {
            assert(more[k - 1] == subs[k - 2]);
        }
    }
}

// ---------------------------------------------------------------------------
// The search for the properties and the data
// ---------------------------------------------------------------------------

/// A search passes a chunk that it does not look for, whatever the chunk holds.
pub proof fn law_search_passes_other_chunks(
    file: Seq<u8>,
    target: Seq<u8>,
    pos: nat,
    id: Seq<u8>,
    n: nat,
    prop: Option<Props>,
    offset: nat,
    size: nat,
)
    requires
        id.len() == 4,
        id != PROP@,
        id != target,
        chunk::stands(file, pos, id + endian::be(n, 8)),
        pos + 12 + n + n % 2 <= u64::MAX,
        prop is None || size == 0,
    ensures
        scan::scan(file, target, pos, prop, offset, size) == scan::scan(
            file,
            target,
            pos + 12 + n + n % 2,
            prop,
            offset,
            size,
        ),
{
    chunk::lemma_header_parts(id, n);
    assert(id + endian::be(n, 8) == chunk::chunk_header(id, n));
}

/// A search takes the data that it looks for at the first byte behind their chunk header. It
/// is over if it knows the properties and there are any data, else it goes on behind them.
pub proof fn law_search_takes_the_data(
    file: Seq<u8>,
    target: Seq<u8>,
    pos: nat,
    n: nat,
    prop: Option<Props>,
    offset: nat,
    size: nat,
)
    requires
        target.len() == 4,
        target != PROP@,
        n <= u64::MAX,
        chunk::stands(file, pos, target + endian::be(n, 8)),
    ensures
        prop matches Some(p) ==> n > 0 ==> scan::scan(file, target, pos, prop, offset, size)
            == Scanned::Found(p, pos + 12, n),
        prop is None && pos + 12 + n + n % 2 <= u64::MAX ==> scan::scan(
            file,
            target,
            pos,
            prop,
            offset,
            size,
        ) == scan::scan(file, target, pos + 12 + n + n % 2, prop, pos + 12, n),
{
    chunk::lemma_header_parts(target, n);
    assert(target + endian::be(n, 8) == chunk::chunk_header(target, n));
}

/// A search takes the properties from a PROP chunk. It is over if it has found any data, else
/// it goes on behind the chunk.
pub proof fn law_search_takes_the_properties(
    file: Seq<u8>,
    target: Seq<u8>,
    pos: nat,
    n: nat,
    prop: Option<Props>,
    offset: nat,
    size: nat,
)
    requires
        n <= u64::MAX,
        chunk::stands(file, pos, PROP@ + endian::be(n, 8)),
    ensures
        scan::prop_chunk(file, pos + 12, n) matches PropParse::Parsed(p) ==> {
            &&& size > 0 ==> scan::scan(file, target, pos, prop, offset, size) == Scanned::Found(
                p,
                offset,
                size,
            )
            &&& size == 0 && pos + 12 + n + n % 2 <= u64::MAX ==> scan::scan(
                file,
                target,
                pos,
                prop,
                offset,
                size,
            ) == scan::scan(file, target, pos + 12 + n + n % 2, Some(p), offset, size)
        },
{
    chunk::lemma_header_parts(PROP@, n);
    assert(PROP@ + endian::be(n, 8) == chunk::chunk_header(PROP@, n));
}

/// A search ends with the file: with what it has found if it knows the properties.
pub proof fn law_search_ends_with_the_file(
    file: Seq<u8>,
    target: Seq<u8>,
    pos: nat,
    prop: Option<Props>,
    offset: nat,
    size: nat,
)
    requires
        file.len() < pos + 12,
    ensures
        prop matches Some(p) ==> scan::scan(file, target, pos, prop, offset, size)
            == Scanned::Found(p, offset, size),
        prop is None ==> scan::scan(file, target, pos, prop, offset, size) is NoProp,
{
}

/// A file is searched from the chunk behind the form type on, with nothing known.
pub proof fn law_search_starts_behind_the_form(file: Seq<u8>, target: Seq<u8>)
    ensures
        scan::scan_file(file, target) == scan::scan(file, target, 16, None, 0, 0),
{
    reveal(scan::scan_file);
}

/// A file with chunks that are not looked for, a PROP chunk among them, and then the data:
/// the search gives what the PROP chunk tells and where the data are, whichever chunks stand
/// before and between them.
pub proof fn law_search_finds(
    file: Seq<u8>,
    target: Seq<u8>,
    before: Seq<(Seq<u8>, Seq<u8>)>,
    form: Seq<u8>,
    subs: Seq<(Seq<u8>, Seq<u8>)>,
    between: Seq<(Seq<u8>, Seq<u8>)>,
    n: nat,
)
    requires
        target.len() == 4,
        target != PROP@,
        form.len() == 4,
        sound_subs(subs),
        passed(before, target),
        passed(between, target),
        0 < n <= u64::MAX,
        ({
            let prop = form + chunks(subs, subs.len());
            let a = chunks(before, before.len());
            let b = chunk::chunk(PROP@, prop);
            let c = chunks(between, between.len());
            &&& chunk::stands(file, 16, a + b + c + (target + endian::be(n, 8)))
            &&& file.len() <= i64::MAX
        }),
    ensures
        ({
            let prop = form + chunks(subs, subs.len());
            let a = chunks(before, before.len()).len();
            let b = chunk::chunk(PROP@, prop).len();
            let c = chunks(between, between.len()).len();
            scan::scan_file(file, target) matches Scanned::Found(p, offset, size) && {
                &&& offset == 16 + a + b + c + 12
                &&& size == n
                &&& scan::prop_chunk(file, 16 + a + 12, prop.len()) == PropParse::Parsed(p)
            }
        }),
{
    reveal(scan::scan_file);
    let prop = form + chunks(subs, subs.len());
    let a = chunks(before, before.len());
    let b = chunk::chunk(PROP@, prop);
    let c = chunks(between, between.len());
    let d = target + endian::be(n, 8);
    endian::lemma_be_len(n, 8);
    assert(a + b + c + d =~= a + (b + (c + d)));
    chunk::lemma_stands_concat(file, 16, a, b + (c + d));
    chunk::lemma_stands_concat(file, 16 + a.len(), b, c + d);
    chunk::lemma_stands_concat(file, 16 + a.len() + b.len(), c, d);
    lemma_passed(file, target, 16, before, 0, None);
    chunk::lemma_chunk_len(PROP@, prop);
    chunk::lemma_chunk_stands(file, 16 + a.len(), PROP@, prop);
    lemma_prop_known(file, 16 + a.len() + 12, form, subs);
    let p = known(subs, subs.len());
    lemma_passed(file, target, 16 + a.len() + b.len(), between, 0, Some(p));
    law_search_takes_the_data(file, target, 16 + a.len() + b.len() + c.len(), n, Some(p), 0, 0);
}

/// Chunks that a search passes.
pub open spec fn passed(subs: Seq<(Seq<u8>, Seq<u8>)>, target: Seq<u8>) -> bool {
    forall|i: int|
        0 <= i < subs.len() ==> {
            &&& (#[trigger] subs[i]).0.len() == 4
            &&& subs[i].1.len() <= u64::MAX
            &&& subs[i].0 != PROP@
            &&& subs[i].0 != target
        }
}

pub proof fn lemma_passed(
    file: Seq<u8>,
    target: Seq<u8>,
    pos: nat,
    subs: Seq<(Seq<u8>, Seq<u8>)>,
    k: nat,
    prop: Option<Props>,
)
    requires
        k <= subs.len(),
        passed(subs, target),
        chunk::stands(file, pos, chunks(subs, subs.len())),
        file.len() <= i64::MAX,
    ensures
        scan::scan(file, target, pos + chunks(subs, k).len(), prop, 0, 0) == scan::scan(
            file,
            target,
            pos + chunks(subs, subs.len()).len(),
            prop,
            0,
            0,
        ),
    decreases subs.len() - k,
{
    if k < subs.len() {
        let (id, data) = subs[k as int];
        let at = pos + chunks(subs, k).len();
        lemma_chunk_among(file, pos, subs, k, subs.len());
        chunk::lemma_chunk_len(id, data);
        chunk::lemma_chunk_stands(file, at, id, data);
        assert(chunk::stands(file, at, id + endian::be(data.len(), 8)));
        law_search_passes_other_chunks(file, target, at, id, data.len(), prop, 0, 0);
        lemma_passed(file, target, pos, subs, k + 1, prop);
    }
}

// ---------------------------------------------------------------------------
// The frames of a DST chunk
// ---------------------------------------------------------------------------

/// A frame without a CRC: its data are those of the DSTF chunk, and the next chunk is the one
/// right behind that and its padding, whether the DST chunk ends there, the file ends there
/// or another chunk stands there.
pub proof fn law_frame_without_crc(file: Seq<u8>, pos: nat, end: nat, data: Seq<u8>)
    requires
        chunk::stands(file, pos, chunk::chunk(DSTF@, data)),
        pos < end,
        data.len() <= usize::MAX,
        file.len() <= i64::MAX,
        ({
            let at = pos + 12 + data.len() + data.len() % 2;
            ||| at >= end
            ||| file.len() < at + 4
            ||| file.subrange(at as int, (at + 4) as int) != DSTC@
        }),
    ensures
        dst::next_frame_at(file, pos, end) == NextFrame::Frame(
            data,
            None,
            pos + 12 + data.len() + data.len() % 2,
        ),
{
    chunk::lemma_chunk_len(DSTF@, data);
    chunk::lemma_chunk_stands(file, pos, DSTF@, data);
    if data.len() == 0 {
        assert(data =~= Seq::empty());
    }
    assert(scan::part(file, pos + 12, data.len()) == Some(data));
}

/// A frame with a CRC: the CRC is the number in the first four bytes of the DSTC chunk right
/// behind the DSTF chunk, and the next chunk is the one behind the DSTC chunk and its padding.
pub proof fn law_frame_with_crc(
    file: Seq<u8>,
    pos: nat,
    end: nat,
    data: Seq<u8>,
    check: Seq<u8>,
)
    requires
        chunk::stands(file, pos, chunk::chunk(DSTF@, data) + chunk::chunk(DSTC@, check)),
        pos + 12 + data.len() + data.len() % 2 < end,
        data.len() <= usize::MAX,
        check.len() >= 4,
        file.len() <= i64::MAX,
    ensures
        dst::next_frame_at(file, pos, end) == NextFrame::Frame(
            data,
            Some(four(check) as u32),
            pos + 12 + data.len() + data.len() % 2 + 12 + check.len() + check.len() % 2,
        ),
{
    chunk::lemma_chunk_len(DSTF@, data);
    chunk::lemma_chunk_len(DSTC@, check);
    chunk::lemma_stands_concat(file, pos, chunk::chunk(DSTF@, data), chunk::chunk(DSTC@, check));
    chunk::lemma_chunk_stands(file, pos, DSTF@, data);
    let at = pos + 12 + data.len() + data.len() % 2;
    chunk::lemma_chunk_stands(file, at, DSTC@, check);
    dst::lemma_header_pieces(file, at, DSTC@, check.len());
    if data.len() == 0 {
        assert(data =~= Seq::empty());
    }
    assert(scan::part(file, pos + 12, data.len()) == Some(data));
    assert(file.subrange((at + 12) as int, (at + 16) as int) =~= check.take(4));
    lemma_numbers(check);
    assert(scan::next_chunk(pos + 12, data.len()) == Some(at));
    assert(scan::part(file, at + 12, 4) == Some(check.take(4)));
}

/// A DSTC chunk that is too short for a CRC is refused.
pub proof fn law_short_crc_is_refused(
    file: Seq<u8>,
    pos: nat,
    end: nat,
    data: Seq<u8>,
    check: Seq<u8>,
)
    requires
        chunk::stands(file, pos, chunk::chunk(DSTF@, data) + chunk::chunk(DSTC@, check)),
        pos + 12 + data.len() + data.len() % 2 < end,
        data.len() <= usize::MAX,
        check.len() < 4,
        file.len() <= i64::MAX,
    ensures
        dst::next_frame_at(file, pos, end) is TooSmall,
{
    chunk::lemma_chunk_len(DSTF@, data);
    chunk::lemma_chunk_len(DSTC@, check);
    chunk::lemma_stands_concat(file, pos, chunk::chunk(DSTF@, data), chunk::chunk(DSTC@, check));
    chunk::lemma_chunk_stands(file, pos, DSTF@, data);
    let at = pos + 12 + data.len() + data.len() % 2;
    chunk::lemma_chunk_stands(file, at, DSTC@, check);
    dst::lemma_header_pieces(file, at, DSTC@, check.len());
    if data.len() == 0 {
        assert(data =~= Seq::empty());
    }
    assert(scan::part(file, pos + 12, data.len()) == Some(data));
    assert(scan::next_chunk(pos + 12, data.len()) == Some(at));
}

/// A chunk that is no DSTF is skipped: the next frame is that of the chunk behind it.
pub proof fn law_other_chunks_are_skipped(
    file: Seq<u8>,
    pos: nat,
    end: nat,
    id: Seq<u8>,
    n: nat,
)
    requires
        id.len() == 4,
        id != DSTF@,
        chunk::stands(file, pos, id + endian::be(n, 8)),
        pos < end,
        pos + 12 + n + n % 2 <= u64::MAX,
    ensures
        dst::next_frame_at(file, pos, end) == dst::next_frame_at(
            file,
            pos + 12 + n + n % 2,
            end,
        ),
{
    chunk::lemma_header_parts(id, n);
    assert(id + endian::be(n, 8) == chunk::chunk_header(id, n));
}

/// There is no frame behind the end of the DST chunk, nor where a file has no chunk header,
/// and a frame whose data are cut off cannot be read.
pub proof fn law_frames_end(file: Seq<u8>, pos: nat, end: nat, n: nat)
    ensures
        pos >= end || file.len() < pos + 12 ==> dst::next_frame_at(file, pos, end) is End,
        pos < end && n <= usize::MAX && chunk::stands(file, pos, DSTF@ + endian::be(n, 8))
            && file.len() < pos + 12 + n ==> dst::next_frame_at(file, pos, end) is Unreadable,
{
    if n <= usize::MAX {
        chunk::lemma_header_parts(DSTF@, n);
        assert(DSTF@ + endian::be(n, 8) == chunk::chunk_header(DSTF@, n));
    }
}

/// The chunks of a frame: DSTF, and DSTC where it has a CRC.
pub open spec fn frame_of(f: (Seq<u8>, Option<Seq<u8>>)) -> Seq<u8> {
    match f.1 {
        Some(check) => chunk::chunk(DSTF@, f.0) + chunk::chunk(DSTC@, check),
        None => chunk::chunk(DSTF@, f.0),
    }
}

/// The chunks of the first `k` frames, one behind the other.
pub open spec fn frames_of(frames: Seq<(Seq<u8>, Option<Seq<u8>>)>, k: nat) -> Seq<u8>
    decreases k,
{
    if k == 0 {
        Seq::empty()
    } else {
        frames_of(frames, (k - 1) as nat) + frame_of(frames[k - 1])
    }
}

proof fn lemma_frames_prefix(frames: Seq<(Seq<u8>, Option<Seq<u8>>)>, k: nat, n: nat)
    requires
        k <= n,
    ensures
        frames_of(frames, k).len() <= frames_of(frames, n).len(),
        frames_of(frames, n).take(frames_of(frames, k).len() as int) == frames_of(frames, k),
    decreases n,
{
    let a = frames_of(frames, k);
    if k < n {
        lemma_frames_prefix(frames, k, (n - 1) as nat);
        let b = frames_of(frames, (n - 1) as nat);
        assert(frames_of(frames, n).take(a.len() as int) =~= b.take(a.len() as int));
    } else {
        assert(a.take(a.len() as int) =~= a);
    }
}

proof fn lemma_frame_among(
    file: Seq<u8>,
    pos: nat,
    frames: Seq<(Seq<u8>, Option<Seq<u8>>)>,
    k: nat,
)
    requires
        k < frames.len(),
        chunk::stands(file, pos, frames_of(frames, frames.len())),
    ensures
        chunk::stands(file, pos + frames_of(frames, k).len(), frame_of(frames[k as int])),
        frames_of(frames, k + 1).len() == frames_of(frames, k).len() + frame_of(
            frames[k as int],
        ).len(),
        frames_of(frames, k + 1).len() <= frames_of(frames, frames.len()).len(),
{
    lemma_frames_prefix(frames, k + 1, frames.len());
    let a = frames_of(frames, k + 1);
    chunk::lemma_stands_prefix(file, pos, frames_of(frames, frames.len()), a.len() as int);
    chunk::lemma_stands_concat(file, pos, frames_of(frames, k), frame_of(frames[k as int]));
}

/// A DST chunk with any frames, each with a CRC or without one, gives those frames in turn:
/// reading at the start of a frame gives its data, its CRC if it has one, and the start of
/// the next frame, and behind the last frame is the end.
pub proof fn law_frames_read_in_turn(
    file: Seq<u8>,
    pos: nat,
    frames: Seq<(Seq<u8>, Option<Seq<u8>>)>,
    k: nat,
)
    requires
        k <= frames.len(),
        chunk::stands(file, pos, frames_of(frames, frames.len())),
        file.len() <= i64::MAX,
        forall|i: int| 0 <= i < frames.len() ==> (#[trigger] frames[i]).0.len() <= usize::MAX,
        forall|i: int|
            0 <= i < frames.len() ==> ((#[trigger] frames[i]).1 matches Some(check)
                ==> check.len() >= 4),
    ensures
        ({
            let end = pos + frames_of(frames, frames.len()).len();
            let read = dst::next_frame_at(file, pos + frames_of(frames, k).len(), end);
            if k == frames.len() {
                read is End
            } else {
                read == NextFrame::Frame(
                    frames[k as int].0,
                    match frames[k as int].1 {
                        Some(check) => Some(four(check) as u32),
                        None => None,
                    },
                    pos + frames_of(frames, k + 1).len(),
                )
            }
        }),
{
    let end = pos + frames_of(frames, frames.len()).len();
    let at = pos + frames_of(frames, k).len();
    if k < frames.len() {
        let (data, crc) = frames[k as int];
        lemma_frame_among(file, pos, frames, k);
        chunk::lemma_chunk_len(DSTF@, data);
        match crc {
            Some(check) => {
                chunk::lemma_chunk_len(DSTC@, check);
                law_frame_with_crc(file, at, end, data, check);
            },
            None => {
                if k + 1 < frames.len() {
                    lemma_frame_among(file, pos, frames, k + 1);
                    let behind = at + 12 + data.len() + data.len() % 2;
                    lemma_frame_starts(file, behind, frames[k as int + 1]);
                    assert(DSTF@[3] != DSTC@[3]);
                }
                law_frame_without_crc(file, at, end, data);
            },
        }
    }
}

/// A frame starts with the ID of its DSTF chunk.
proof fn lemma_frame_starts(file: Seq<u8>, pos: nat, f: (Seq<u8>, Option<Seq<u8>>))
    requires
        chunk::stands(file, pos, frame_of(f)),
        f.0.len() <= u64::MAX,
    ensures
        pos + 4 <= file.len(),
        file.subrange(pos as int, (pos + 4) as int) == DSTF@,
{
    chunk::lemma_chunk_len(DSTF@, f.0);
    if let Some(check) = f.1 {
        chunk::lemma_stands_concat(
            file,
            pos,
            chunk::chunk(DSTF@, f.0),
            chunk::chunk(DSTC@, check),
        );
    }
    chunk::lemma_chunk_stands(file, pos, DSTF@, f.0);
    dst::lemma_header_pieces(file, pos, DSTF@, f.0.len());
}

/// A reader that stands at a frame of its DST chunk, and has not given as many frames as the
/// file announces, gives that frame; one that has given as many gives no more.
pub proof fn law_reader_reads_in_turn(
    reader: dst::DstDsdiffStreamReader,
    file: Seq<u8>,
    pos: nat,
    frames: Seq<(Seq<u8>, Option<Seq<u8>>)>,
    k: nat,
)
    requires
        k < frames.len(),
        chunk::stands(file, pos, frames_of(frames, frames.len())),
        file.len() <= i64::MAX,
        forall|i: int| 0 <= i < frames.len() ==> (#[trigger] frames[i]).0.len() <= usize::MAX,
        forall|i: int|
            0 <= i < frames.len() ==> ((#[trigger] frames[i]).1 matches Some(check)
                ==> check.len() >= 4),
        reader.at() == pos + frames_of(frames, k).len(),
        reader.end() == pos + frames_of(frames, frames.len()).len(),
    ensures
        reader.yielded() < reader.meta().n_frames ==> reader.next_in(file) == NextFrame::Frame(
            frames[k as int].0,
            match frames[k as int].1 {
                Some(check) => Some(four(check) as u32),
                None => None,
            },
            pos + frames_of(frames, k + 1).len(),
        ),
        reader.yielded() >= reader.meta().n_frames ==> reader.next_in(file) is End,
{
    law_frames_read_in_turn(file, pos, frames, k);
}

// ---------------------------------------------------------------------------
// Files that are cut off, and sizes that cannot be counted
// ---------------------------------------------------------------------------

/// A PROP chunk that is cut off cannot be read: in its form type, in the header of a
/// sub-chunk, or in the data of a sub-chunk that tells something. One that ends with its
/// sub-chunks tells what they told.
pub proof fn law_cut_properties(file: Seq<u8>, pos: nat, end: nat, p: Props, id: Seq<u8>, n: nat)
    ensures
        file.len() < pos + 4 ==> scan::prop_chunk(file, pos, end) is Unreadable,
        pos >= end ==> scan::sub_chunks(file, pos, end, p) == PropParse::Parsed(p),
        pos < end && file.len() < pos + 12 ==> scan::sub_chunks(file, pos, end, p) is Unreadable,
        pos < end && id.len() == 4 && n <= u64::MAX && chunk::stands(
            file,
            pos,
            id + endian::be(n, 8),
        ) ==> {
            let rest = file.len() - (pos + 12);
            let read = scan::sub_chunks(file, pos, end, p);
            &&& (id == FS@ || id == CMPR@) && rest < 4 ==> read is Unreadable
            &&& id == CHNL@ && rest < 2 ==> read is Unreadable
            &&& rest >= 4 && pos + 12 + n + n % 2 > u64::MAX ==> read is Overflow
        },
{
    if id.len() == 4 && n <= u64::MAX && chunk::stands(file, pos, id + endian::be(n, 8)) {
        chunk::lemma_header_parts(id, n);
        assert(id + endian::be(n, 8) == chunk::chunk_header(id, n));
        scan::lemma_ids_differ();
    }
}

/// A search ends with a PROP chunk that cannot be read or counted, and with a chunk whose end
/// cannot be counted.
pub proof fn law_search_stops(
    file: Seq<u8>,
    target: Seq<u8>,
    pos: nat,
    id: Seq<u8>,
    n: nat,
    prop: Option<Props>,
    offset: nat,
    size: nat,
)
    requires
        id.len() == 4,
        n <= u64::MAX,
        chunk::stands(file, pos, id + endian::be(n, 8)),
    ensures
        id == PROP@ && scan::prop_chunk(file, pos + 12, n) is Unreadable ==> scan::scan(
            file,
            target,
            pos,
            prop,
            offset,
            size,
        ) is Unreadable,
        id == PROP@ && scan::prop_chunk(file, pos + 12, n) is Overflow ==> scan::scan(
            file,
            target,
            pos,
            prop,
            offset,
            size,
        ) is Overflow,
        id != PROP@ && prop is None && pos + 12 + n + n % 2 > u64::MAX ==> scan::scan(
            file,
            target,
            pos,
            prop,
            offset,
            size,
        ) is Overflow,
{
    chunk::lemma_header_parts(id, n);
    assert(id + endian::be(n, 8) == chunk::chunk_header(id, n));
}

/// A frame whose DSTC chunk is cut off, in its size or in its CRC, cannot be read.
pub proof fn law_cut_crc(file: Seq<u8>, pos: nat, end: nat, data: Seq<u8>, n: nat)
    requires
        chunk::stands(file, pos, chunk::chunk(DSTF@, data)),
        data.len() <= usize::MAX,
        file.len() <= i64::MAX,
        ({
            let at = pos + 12 + data.len() + data.len() % 2;
            &&& at < end
            &&& at + 4 <= file.len()
            &&& file.subrange(at as int, (at + 4) as int) == DSTC@
        }),
    ensures
        ({
            let at = pos + 12 + data.len() + data.len() % 2;
            &&& file.len() < at + 12 ==> dst::next_frame_at(file, pos, end) is Unreadable
            &&& 4 <= n <= u64::MAX && chunk::stands(file, at, DSTC@ + endian::be(n, 8))
                && file.len() < at + 16 ==> dst::next_frame_at(file, pos, end) is Unreadable
        }),
{
    let at = pos + 12 + data.len() + data.len() % 2;
    chunk::lemma_chunk_len(DSTF@, data);
    chunk::lemma_chunk_stands(file, pos, DSTF@, data);
    if data.len() == 0 {
        assert(data =~= Seq::empty());
    }
    assert(scan::part(file, pos + 12, data.len()) == Some(data));
    assert(scan::next_chunk(pos + 12, data.len()) == Some(at));
    if 4 <= n <= u64::MAX && chunk::stands(file, at, DSTC@ + endian::be(n, 8)) {
        chunk::lemma_header_parts(DSTC@, n);
        assert(DSTC@ + endian::be(n, 8) == chunk::chunk_header(DSTC@, n));
        dst::lemma_header_pieces(file, at, DSTC@, n);
    }
}

} // verus!
