//! Building the index of a source: the offsets at which its lines start.
//!
//! Every newline byte ends a line, so a line starts at offset 0 and just
//! past each newline. The offset just past a final newline is kept: it
//! stands for an empty last line, and a source of `k` newline-terminated
//! lines has `k + 1` offsets.

use vstd::prelude::*;
use crate::offset::Offsets;

verus! {

/// The byte that ends a line.
pub const NEWLINE: u8 = 10;

/// The offsets just past each newline of `bytes`, ascending.
pub open spec fn newline_offsets(bytes: Seq<u8>) -> Seq<u64>
    decreases bytes.len(),
{
    if bytes.len() == 0 {
        Seq::empty()
    } else if bytes.last() == NEWLINE {
        newline_offsets(bytes.drop_last()).push(bytes.len() as u64)
    } else {
        newline_offsets(bytes.drop_last())
    }
}

/// The index of a source as it is built: the offsets past its newlines,
/// then offset 0 for the first line.
pub open spec fn line_starts(bytes: Seq<u8>) -> Seq<u64> {
    newline_offsets(bytes).push(0)
}

/// What the offsets past the newlines are: each lies just past a newline,
/// every newline has one, and they ascend.
pub proof fn lemma_newline_offsets(bytes: Seq<u8>)
    requires
        bytes.len() <= u64::MAX,
    ensures
        newline_offsets(bytes).len() <= bytes.len(),
        forall|k: int|
            0 <= k < newline_offsets(bytes).len() ==> {
                &&& 1 <= #[trigger] newline_offsets(bytes)[k] <= bytes.len()
                &&& bytes[newline_offsets(bytes)[k] - 1] == NEWLINE
            },
        forall|j: int, k: int|
            0 <= j < k < newline_offsets(bytes).len() ==> newline_offsets(bytes)[j]
                < newline_offsets(bytes)[k],
        forall|at: int|
            0 <= at < bytes.len() && bytes[at] == NEWLINE ==> newline_offsets(bytes).contains(
                (at + 1) as u64,
            ),
    decreases bytes.len(),
{
    if bytes.len() > 0 {
        let shorter = bytes.drop_last();
        let inner = newline_offsets(shorter);
        let outer = newline_offsets(bytes);
        lemma_newline_offsets(shorter);
        assert forall|at: int| 0 <= at < bytes.len() && bytes[at] == NEWLINE implies outer.contains(
            (at + 1) as u64,
        ) by {
            if at < shorter.len() {
                assert(shorter[at] == NEWLINE);
                let k = choose|k: int| 0 <= k < inner.len() && inner[k] == (at + 1) as u64;
                assert(outer[k] == (at + 1) as u64);
            } else {
                assert(outer[outer.len() - 1] == (at + 1) as u64);
            }
        }
    }
}

/// An index as it is built holds no offset twice.
pub proof fn lemma_line_starts_distinct(bytes: Seq<u8>)
    requires
        bytes.len() <= u64::MAX,
    ensures
        line_starts(bytes).no_duplicates(),
        line_starts(bytes).len() >= 1,
{
    lemma_newline_offsets(bytes);
}

/// The index of an empty source holds offset 0 and nothing else.
pub proof fn lemma_line_starts_of_empty()
    ensures
        line_starts(Seq::<u8>::empty()) == seq![0u64],
{
    assert(line_starts(Seq::<u8>::empty()) =~= seq![0u64]);
}

/// Scanning more bytes only adds offsets: those of the bytes scanned so
/// far stay as they are.
pub proof fn lemma_newline_offsets_push(bytes: Seq<u8>, byte: u8)
    ensures
        newline_offsets(bytes.push(byte)) == if byte == NEWLINE {
            newline_offsets(bytes).push((bytes.len() + 1) as u64)
        } else {
            newline_offsets(bytes)
        },
{
    assert(bytes.push(byte).drop_last() =~= bytes);
}

/// A scan in progress over a source that arrives block by block.
pub struct OffsetIndexer {
    position: u64,
    offsets: Vec<u64>,
    scanned: Ghost<Seq<u8>>,
}

impl OffsetIndexer {
    /// The bytes scanned so far.
    pub closed spec fn scanned(&self) -> Seq<u8> {
        self.scanned@
    }

    /// The scan is consistent: it has counted the bytes it was given and
    /// holds the offsets past their newlines.
    pub closed spec fn wf(&self) -> bool {
        &&& self.position == self.scanned@.len()
        &&& self.offsets@ == newline_offsets(self.scanned@)
    }

    /// A scan that has seen nothing yet.
    pub fn new() -> (indexer: OffsetIndexer)
        ensures
            indexer.wf(),
            indexer.scanned() == Seq::<u8>::empty(),
    {
        OffsetIndexer { position: 0, offsets: Vec::new(), scanned: Ghost(Seq::empty()) }
    }

    /// How many more bytes the scan can take: offsets are 64-bit numbers.
    pub fn room(&self) -> (room: u64)
        requires
            self.wf(),
        ensures
            room == u64::MAX - self.scanned().len(),
    {
        u64::MAX - self.position
    }

    /// Scans the next block of the source.
    pub fn feed(&mut self, block: &[u8])
        requires
            old(self).wf(),
            old(self).scanned().len() + block@.len() <= u64::MAX,
        ensures
            final(self).wf(),
            final(self).scanned() == old(self).scanned() + block@,
    {
        let mut at: usize = 0;
        while at < block.len()
            invariant
                at <= block@.len(),
                old(self).scanned@.len() + block@.len() <= u64::MAX,
                self.position == self.scanned@.len(),
                self.scanned@ == old(self).scanned@ + block@.subrange(0, at as int),
                self.offsets@ == newline_offsets(self.scanned@),
            decreases block@.len() - at,
        {
            let byte: u8 = block[at];
            proof {
                lemma_newline_offsets_push(self.scanned@, byte);
                assert(self.scanned@.push(byte) =~= old(self).scanned@ + block@.subrange(
                    0,
                    at + 1,
                ));
                self.scanned = Ghost(self.scanned@.push(byte));
            }
            self.position = self.position + 1;
            if byte == NEWLINE {
                self.offsets.push(self.position);
            }
            at = at + 1;
        }
        assert(block@.subrange(0, at as int) =~= block@);
    }

    /// Ends the scan and hands out the index of everything scanned.
    pub fn finish(self) -> (offsets: Offsets)
        requires
            self.wf(),
        ensures
            offsets@ == line_starts(self.scanned()),
    {
        let mut offsets = self.offsets;
        offsets.push(0);
        offsets
    }
}

} // verus!
