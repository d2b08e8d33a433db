//! Bytes of a file that are filled in after the rest is written.

use vstd::prelude::*;

verus! {

/// Bytes to be written over those from an offset on.
pub struct Patch {
    pub offset: u64,
    pub bytes: Vec<u8>,
}

/// How a file is completed: bytes to append, then bytes to fill in.
pub struct FileEnd {
    pub tail: Vec<u8>,
    pub patches: Vec<Patch>,
}

/// A file with bytes from an offset on replaced.
pub open spec fn overwritten(file: Seq<u8>, offset: int, bytes: Seq<u8>) -> Seq<u8> {
    file.take(offset) + bytes + file.skip(offset + bytes.len())
}

/// A file with the first `n` patches applied, in turn.
pub open spec fn patched(file: Seq<u8>, patches: Seq<Patch>, n: nat) -> Seq<u8>
    decreases n,
{
    if n == 0 {
        file
    } else {
        overwritten(
            patched(file, patches, (n - 1) as nat),
            patches[n - 1].offset as int,
            patches[n - 1].bytes@,
        )
    }
}

impl FileEnd {
    /// The complete file, given what is written of it.
    pub open spec fn complete(self, written: Seq<u8>) -> Seq<u8> {
        patched(written + self.tail@, self.patches@, self.patches@.len())
    }
}

/// A field in the middle of a file, replaced.
pub proof fn lemma_overwritten(a: Seq<u8>, before: Seq<u8>, b: Seq<u8>, after: Seq<u8>)
    requires
        before.len() == after.len(),
    ensures
        overwritten(a + before + b, a.len() as int, after) == a + after + b,
{
    assert(overwritten(a + before + b, a.len() as int, after) =~= a + after + b);
}

} // verus!
