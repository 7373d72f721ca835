//! Copying one line of a source, found by the offset at which it starts.
//!
//! The line runs up to and including the next newline, or to the end of the
//! source where no newline follows. An offset at or past the end of the
//! source gives an empty line.

use vstd::prelude::*;
use vstd::multiset::Multiset;
use crate::index::{line_starts, NEWLINE};

verus! {

/// The offset just past the line that starts at `offset`.
pub open spec fn line_end(bytes: Seq<u8>, offset: int) -> int
    decreases bytes.len() - offset,
{
    if offset < 0 || offset >= bytes.len() {
        offset
    } else if bytes[offset] == NEWLINE {
        offset + 1
    } else {
        line_end(bytes, offset + 1)
    }
}

/// The line of `bytes` that starts at `offset`, its newline included.
pub open spec fn line_at(bytes: Seq<u8>, offset: int) -> Seq<u8> {
    if 0 <= offset < bytes.len() {
        bytes.subrange(offset, line_end(bytes, offset))
    } else {
        Seq::empty()
    }
}

/// Whether `line` is a line with its newline: it ends in one and holds no
/// other.
pub open spec fn is_terminated_line(line: Seq<u8>) -> bool {
    &&& line.len() >= 1
    &&& line.last() == NEWLINE
    &&& forall|j: int| 0 <= j < line.len() - 1 ==> line[j] != NEWLINE
}

/// The bytes of `lines`, one after another.
pub open spec fn join(lines: Seq<Seq<u8>>) -> Seq<u8>
    decreases lines.len(),
{
    if lines.len() == 0 {
        Seq::empty()
    } else {
        join(lines.drop_last()) + lines.last()
    }
}

/// The lines of `source` that start at `offsets`, in the order of the
/// offsets.
pub open spec fn lines_at(source: Seq<u8>, offsets: Seq<u64>) -> Seq<Seq<u8>> {
    Seq::new(offsets.len(), |k: int| line_at(source, offsets[k] as int))
}

/// The lines of `source`, in the order of its index.
pub open spec fn lines_of(source: Seq<u8>) -> Seq<Seq<u8>> {
    lines_at(source, line_starts(source))
}

/// The lines of the first `count` of `sources`, each as often as it occurs.
pub open spec fn lines_upto(sources: Seq<Seq<u8>>, count: int) -> Multiset<Seq<u8>>
    decreases count,
{
    if count <= 0 {
        Multiset::empty()
    } else {
        lines_upto(sources, count - 1).add(lines_of(sources[count - 1]).to_multiset())
    }
}

/// The lines of `sources`, each as often as it occurs.
pub open spec fn lines_in(sources: Seq<Seq<u8>>) -> Multiset<Seq<u8>> {
    lines_upto(sources, sources.len() as int)
}

/// Where a line ends: inside the source, at the first newline from its
/// start on, or at the end of the source if there is none.
pub proof fn lemma_line_end(bytes: Seq<u8>, offset: int)
    requires
        0 <= offset <= bytes.len(),
    ensures
        offset <= line_end(bytes, offset) <= bytes.len(),
        offset < bytes.len() ==> offset < line_end(bytes, offset),
        forall|at: int| offset <= at < line_end(bytes, offset) - 1 ==> bytes[at] != NEWLINE,
        line_end(bytes, offset) == bytes.len() || bytes[line_end(bytes, offset) - 1] == NEWLINE,
    decreases bytes.len() - offset,
{
    if offset < bytes.len() && bytes[offset] != NEWLINE {
        lemma_line_end(bytes, offset + 1);
    }
}

/// Copies lines, one at a time, through a buffer that it keeps between calls.
pub struct CopyLine {
    buf: Vec<u8>,
}

impl CopyLine {
    /// The line copied last; empty before the first copy.
    pub closed spec fn held(&self) -> Seq<u8> {
        self.buf@
    }

    /// A copier whose buffer is empty.
    pub fn new() -> (copier: CopyLine)
        ensures
            copier.held() == Seq::<u8>::empty(),
    {
        CopyLine { buf: Vec::new() }
    }

    /// Appends to `tgt` the line of `src` that starts at `offset`.
    pub fn copy_line(&mut self, offset: u64, src: &[u8], tgt: &mut Vec<u8>)
        ensures
            final(tgt)@ == old(tgt)@ + line_at(src@, offset as int),
            final(self).held() == line_at(src@, offset as int),
    {
        self.buf.clear();
        let length: usize = src.len();
        if offset < length as u64 {
            let start: usize = offset as usize;
            let mut at: usize = start;
            let mut open: bool = true;
            while open && at < length
                invariant
                    length == src@.len(),
                    start <= at <= length,
                    self.buf@ == src@.subrange(start as int, at as int),
                    open ==> line_end(src@, at as int) == line_end(src@, start as int),
                    !open ==> at == line_end(src@, start as int),
                decreases length - at,
            {
                let byte: u8 = src[at];
                self.buf.push(byte);
                open = byte != NEWLINE;
                at = at + 1;
                assert(self.buf@ =~= src@.subrange(start as int, at as int));
            }
        }
        let mut copied: usize = 0;
        while copied < self.buf.len()
            invariant
                copied <= self.buf@.len(),
                self.buf@ == line_at(src@, offset as int),
                tgt@ == old(tgt)@ + self.buf@.subrange(0, copied as int),
            decreases self.buf@.len() - copied,
        {
            tgt.push(self.buf[copied]);
            copied = copied + 1;
            assert(tgt@ =~= old(tgt)@ + self.buf@.subrange(0, copied as int));
        }
        assert(self.buf@.subrange(0, copied as int) =~= self.buf@);
    }
}

} // verus!
