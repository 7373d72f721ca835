//! The index of a source as a value: building it from the bytes of the
//! source, writing it as an index file and reading it back, and the name
//! under which the index file is kept.

use vstd::prelude::*;
use crate::codec::{decode_offsets, encode_offsets, lemma_decode_encode, lemma_encode_decode, lemma_offset_value_bounds, read_offset, write_offset, RECORD_WIDTH};
use crate::error::ShuffleError;
use crate::index::{lemma_line_starts_of_empty, lemma_newline_offsets, line_starts, OffsetIndexer};

verus! {

/// A byte position in a source file at which a line starts.
pub type Offset = u64;

/// The line-start offsets of one source file.
pub type Offsets = Vec<Offset>;

/// The index of a source that is held in memory as a whole.
pub fn collect_offsets(bytes: &[u8]) -> (offsets: Offsets)
    ensures
        offsets@ == line_starts(bytes@),
        offsets@.no_duplicates(),
        1 <= offsets@.len() <= bytes@.len() + 1,
        bytes@.len() == 0 ==> offsets@ == seq![0u64],
{
    let mut indexer = OffsetIndexer::new();
    assert(bytes@.len() == bytes.len());
    indexer.feed(bytes);
    proof {
        assert(indexer.scanned() =~= bytes@);
        lemma_newline_offsets(bytes@);
        if bytes@.len() == 0 {
            assert(bytes@ =~= Seq::<u8>::empty());
            lemma_line_starts_of_empty();
        }
    }
    indexer.finish()
}

/// The index file for `offsets`: the record of each, in order.
pub fn dump_offsets(offsets: &Offsets) -> (bytes: Vec<u8>)
    ensures
        bytes@ == encode_offsets(offsets@),
        bytes@.len() == 8 * offsets@.len(),
        decode_offsets(bytes@) == offsets@,
{
    let mut bytes: Vec<u8> = Vec::new();
    let mut done: usize = 0;
    while done < offsets.len()
        invariant
            done <= offsets@.len(),
            bytes@ == encode_offsets(offsets@.subrange(0, done as int)),
        decreases offsets@.len() - done,
    {
        let ghost before = bytes@;
        write_offset(offsets[done], &mut bytes);
        done = done + 1;
        assert(bytes@ =~= encode_offsets(offsets@.subrange(0, done as int))) by {
            let shorter = offsets@.subrange(0, done - 1);
            let longer = offsets@.subrange(0, done as int);
            assert forall|i: int| 0 <= i < 8 * done implies bytes@[i] == encode_offsets(longer)[i] by {
                if i < 8 * (done - 1) {
                    assert(bytes@[i] == before[i]);
                    assert(shorter[i / 8] == longer[i / 8]);
                } else {
                    assert(i / 8 == done - 1);
                    assert(i % 8 == i - 8 * (done - 1));
                }
            }
        }
    }
    proof {
        assert(offsets@.subrange(0, done as int) =~= offsets@);
        lemma_decode_encode(offsets@);
    }
    bytes
}

/// The offsets that an index file holds. A file whose length is not a
/// multiple of eight is refused, whatever its whole records hold.
pub fn load_offsets(bytes: &[u8]) -> (loaded: Result<Offsets, ShuffleError>)
    ensures
        bytes@.len() % 8 == 0 <==> loaded is Ok,
        loaded matches Ok(offsets) ==> offsets@ == decode_offsets(bytes@)
            && encode_offsets(offsets@) == bytes@,
        loaded matches Err(error) ==> error == (ShuffleError::Format { length: bytes.len() }),
{
    if bytes.len() % RECORD_WIDTH != 0 {
        return Err(ShuffleError::Format { length: bytes.len() });
    }
    let count: usize = bytes.len() / RECORD_WIDTH;
    let mut offsets: Vec<u64> = Vec::new();
    let mut done: usize = 0;
    while done < count
        invariant
            done <= count,
            count == bytes@.len() / 8,
            bytes@.len() % 8 == 0,
            bytes@.len() <= usize::MAX,
            offsets@ == decode_offsets(bytes@).subrange(0, done as int),
        decreases count - done,
    {
        let offset = read_offset(bytes, done * RECORD_WIDTH);
        proof {
            lemma_offset_value_bounds(bytes@.subrange(8 * done, 8 * done + 8));
        }
        offsets.push(offset);
        done = done + 1;
        assert(offsets@ =~= decode_offsets(bytes@).subrange(0, done as int));
    }
    proof {
        assert(offsets@ =~= decode_offsets(bytes@));
        lemma_encode_decode(bytes@);
    }
    Ok(offsets)
}

/// What is put behind the name of a source to name its index file.
pub open spec fn index_suffix() -> Seq<u8> {
    seq![46u8, 111u8, 102u8, 102u8, 115u8, 101u8, 116u8, 115u8]
}

/// The name of the index file of the source named `source`: the name of the
/// source with `.offsets` behind it.
pub fn index_name(source: &[u8]) -> (name: Vec<u8>)
    ensures
        name@ == source@ + index_suffix(),
{
    let mut name: Vec<u8> = Vec::new();
    let mut at: usize = 0;
    while at < source.len()
        invariant
            at <= source@.len(),
            name@ == source@.subrange(0, at as int),
        decreases source@.len() - at,
    {
        name.push(source[at]);
        at = at + 1;
        assert(name@ =~= source@.subrange(0, at as int));
    }
    name.push(46);
    name.push(111);
    name.push(102);
    name.push(102);
    name.push(115);
    name.push(101);
    name.push(116);
    name.push(115);
    assert(name@ =~= source@ + index_suffix());
    name
}

/// Sources with different names have index files with different names.
pub proof fn lemma_index_names_differ(left: Seq<u8>, right: Seq<u8>)
    requires
        left + index_suffix() == right + index_suffix(),
    ensures
        left == right,
{
    let suffix = index_suffix();
    assert((left + suffix).len() == (right + suffix).len());
    assert forall|k: int| 0 <= k < left.len() implies left[k] == right[k] by {
        assert((left + suffix)[k] == (right + suffix)[k]);
    }
    assert(left =~= right);
}

} // verus!
