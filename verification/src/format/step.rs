//! Parsing of a header that comes piece by piece.

use vstd::prelude::*;

use crate::error::CladstError;

verus! {

/// What comes of the first bytes of a header.
pub enum HeaderStep<T> {
    /// So many bytes are needed, counted from the start of the header.
    NeedMore(usize),
    /// The header is complete.
    Done(T),
    /// The header is refused.
    Failed(CladstError),
    /// The header holds numbers that nothing can be made of.
    Stuck,
}

/// An error with this message about the format.
pub open spec fn format_error(e: CladstError, message: Seq<char>) -> bool {
    e matches CladstError::Format(m) && m@ == message
}

/// The four bytes at a position.
pub open spec fn id_at(bytes: Seq<u8>, at: int) -> Seq<u8> {
    bytes.subrange(at, at + 4)
}

/// Whether four bytes stand at a position.
pub fn has_id(bytes: &[u8], at: usize, id: &[u8; 4]) -> (r: bool)
    requires
        at + 4 <= bytes@.len(),
    ensures
        r == (id_at(bytes@, at as int) == id@),
{
    let r: bool = bytes[at] == id[0] && bytes[at + 1] == id[1] && bytes[at + 2] == id[2]
        && bytes[at + 3] == id[3];
    proof {
        let s = id_at(bytes@, at as int);
        if r {
            assert(s =~= id@);
        } else if s == id@ {
            assert(s[0] == id@[0] && s[1] == id@[1] && s[2] == id@[2] && s[3] == id@[3]);
        }
    }
    r
}

/// A part of the first bytes of a file is a part of the file.
pub proof fn lemma_same_part(b: Seq<u8>, file: Seq<u8>, at: int, n: int)
    requires
        b.is_prefix_of(file),
        0 <= at,
        0 <= n,
        at + n <= b.len(),
    ensures
        b.subrange(at, at + n) == file.subrange(at, at + n),
{
    assert(file.subrange(0, b.len() as int) == b);
    assert(b.subrange(at, at + n) =~= file.subrange(at, at + n));
}

} // verus!
