//! The binary form of an index: one record of eight bytes per offset, the
//! least significant byte first, with no header and nothing between records.

use vstd::prelude::*;

verus! {

/// Number of bytes that one offset takes in an index file.
pub const RECORD_WIDTH: usize = 8;

/// The record that stands for `offset`: its eight base-256 digits, lowest first.
pub open spec fn offset_bytes(offset: u64) -> Seq<u8> {
    seq![
        (offset % 0x100) as u8,
        (offset / 0x100 % 0x100) as u8,
        (offset / 0x1_0000 % 0x100) as u8,
        (offset / 0x100_0000 % 0x100) as u8,
        (offset / 0x1_0000_0000 % 0x100) as u8,
        (offset / 0x100_0000_0000 % 0x100) as u8,
        (offset / 0x1_0000_0000_0000 % 0x100) as u8,
        (offset / 0x100_0000_0000_0000 % 0x100) as u8,
    ]
}

/// The offset that a record of eight bytes stands for.
pub open spec fn offset_value(record: Seq<u8>) -> int
    recommends
        record.len() == 8,
{
    record[0] + 0x100 * record[1] + 0x1_0000 * record[2] + 0x100_0000 * record[3]
        + 0x1_0000_0000 * record[4] + 0x100_0000_0000 * record[5]
        + 0x1_0000_0000_0000 * record[6] + 0x100_0000_0000_0000 * record[7]
}

/// The index file that stands for `offsets`: their records, one after another.
pub open spec fn encode_offsets(offsets: Seq<u64>) -> Seq<u8> {
    Seq::new(8 * offsets.len(), |i: int| offset_bytes(offsets[i / 8])[i % 8])
}

/// The offsets that the whole records of `bytes` stand for, in order.
pub open spec fn decode_offsets(bytes: Seq<u8>) -> Seq<u64> {
    Seq::new(bytes.len() / 8, |k: int| offset_value(bytes.subrange(8 * k, 8 * k + 8)) as u64)
}

/// A record stands for a value that fits in 64 bits.
pub proof fn lemma_offset_value_bounds(record: Seq<u8>)
    requires
        record.len() == 8,
    ensures
        0 <= offset_value(record) <= u64::MAX,
{
}

/// A number written as `power * q + low`, with `low` below `power`, has
/// quotient `q` and remainder `low`.
proof fn lemma_next_digit(x: int, q: int, low: int, power: int)
    requires
        0 < power,
        0 <= low < power,
        x == power * q + low,
    ensures
        x / power == q,
        x % power == low,
{
    assert(x / power == q && x % power == low) by (nonlinear_arith)
        requires
            0 < power,
            0 <= low < power,
            x == power * q + low,
    ;
}

/// Reading back the record of an offset gives the offset.
pub proof fn lemma_value_of_bytes(offset: u64)
    ensures
        offset_bytes(offset).len() == 8,
        offset_value(offset_bytes(offset)) == offset,
{
    let x = offset as int;
    let q1 = x / 0x100;
    let q2 = q1 / 0x100;
    let q3 = q2 / 0x100;
    let q4 = q3 / 0x100;
    let q5 = q4 / 0x100;
    let q6 = q5 / 0x100;
    let q7 = q6 / 0x100;
    let l1 = x % 0x100;
    let l2 = l1 + 0x100 * (q1 % 0x100);
    let l3 = l2 + 0x1_0000 * (q2 % 0x100);
    let l4 = l3 + 0x100_0000 * (q3 % 0x100);
    let l5 = l4 + 0x1_0000_0000 * (q4 % 0x100);
    let l6 = l5 + 0x100_0000_0000 * (q5 % 0x100);
    let l7 = l6 + 0x1_0000_0000_0000 * (q6 % 0x100);
    lemma_next_digit(x, q2, l2, 0x1_0000);
    lemma_next_digit(x, q3, l3, 0x100_0000);
    lemma_next_digit(x, q4, l4, 0x1_0000_0000);
    lemma_next_digit(x, q5, l5, 0x100_0000_0000);
    lemma_next_digit(x, q6, l6, 0x1_0000_0000_0000);
    lemma_next_digit(x, q7, l7, 0x100_0000_0000_0000);
    assert(q7 < 0x100);
    assert(x == l7 + 0x100_0000_0000_0000 * q7);
}

/// Writing the value of a record gives the record.
pub proof fn lemma_bytes_of_value(record: Seq<u8>)
    requires
        record.len() == 8,
    ensures
        offset_bytes(offset_value(record) as u64) == record,
{
    let x = offset_value(record);
    let l1 = record[0] as int;
    let l2 = l1 + 0x100 * record[1];
    let l3 = l2 + 0x1_0000 * record[2];
    let l4 = l3 + 0x100_0000 * record[3];
    let l5 = l4 + 0x1_0000_0000 * record[4];
    let l6 = l5 + 0x100_0000_0000 * record[5];
    let l7 = l6 + 0x1_0000_0000_0000 * record[6];
    let q7 = record[7] as int;
    let q6 = record[6] + 0x100 * q7;
    let q5 = record[5] + 0x100 * q6;
    let q4 = record[4] + 0x100 * q5;
    let q3 = record[3] + 0x100 * q4;
    let q2 = record[2] + 0x100 * q3;
    let q1 = record[1] + 0x100 * q2;
    lemma_next_digit(x, q1, l1, 0x100);
    lemma_next_digit(x, q2, l2, 0x1_0000);
    lemma_next_digit(x, q3, l3, 0x100_0000);
    lemma_next_digit(x, q4, l4, 0x1_0000_0000);
    lemma_next_digit(x, q5, l5, 0x100_0000_0000);
    lemma_next_digit(x, q6, l6, 0x1_0000_0000_0000);
    lemma_next_digit(x, q7, l7, 0x100_0000_0000_0000);
    lemma_next_digit(q1, q2, record[1] as int, 0x100);
    lemma_next_digit(q2, q3, record[2] as int, 0x100);
    lemma_next_digit(q3, q4, record[3] as int, 0x100);
    lemma_next_digit(q4, q5, record[4] as int, 0x100);
    lemma_next_digit(q5, q6, record[5] as int, 0x100);
    lemma_next_digit(q6, q7, record[6] as int, 0x100);
    let written = offset_bytes(x as u64);
    assert(written[0] == record[0]);
    assert(written[1] == record[1]);
    assert(written[2] == record[2]);
    assert(written[3] == record[3]);
    assert(written[4] == record[4]);
    assert(written[5] == record[5]);
    assert(written[6] == record[6]);
    assert(written[7] == record[7]);
    assert(written =~= record);
}

/// An index file holds eight bytes for each offset.
pub proof fn lemma_encode_len(offsets: Seq<u64>)
    ensures
        encode_offsets(offsets).len() == 8 * offsets.len(),
        encode_offsets(offsets).len() % 8 == 0,
{
}

/// The record at place `k` of an index file is the record of offset `k`.
pub proof fn lemma_encode_record(offsets: Seq<u64>, k: int)
    requires
        0 <= k < offsets.len(),
    ensures
        encode_offsets(offsets).subrange(8 * k, 8 * k + 8) == offset_bytes(offsets[k]),
{
    let record = encode_offsets(offsets).subrange(8 * k, 8 * k + 8);
    assert forall|j: int| 0 <= j < 8 implies record[j] == offset_bytes(offsets[k])[j] by {
        assert((8 * k + j) / 8 == k);
        assert((8 * k + j) % 8 == j);
    }
    assert(record =~= offset_bytes(offsets[k]));
}

/// Decoding the index file of any offsets gives the same offsets back, the
/// empty index included.
pub proof fn lemma_decode_encode(offsets: Seq<u64>)
    ensures
        decode_offsets(encode_offsets(offsets)) == offsets,
{
    let bytes = encode_offsets(offsets);
    assert forall|k: int| 0 <= k < offsets.len() implies decode_offsets(bytes)[k] == offsets[k] by {
        lemma_encode_record(offsets, k);
        lemma_value_of_bytes(offsets[k]);
    }
    assert(decode_offsets(bytes) =~= offsets);
}

/// Encoding what a well-formed index file decodes to gives the same file back.
pub proof fn lemma_encode_decode(bytes: Seq<u8>)
    requires
        bytes.len() % 8 == 0,
    ensures
        encode_offsets(decode_offsets(bytes)) == bytes,
{
    let offsets = decode_offsets(bytes);
    assert forall|i: int| 0 <= i < bytes.len() implies encode_offsets(offsets)[i] == bytes[i] by {
        let k = i / 8;
        let record = bytes.subrange(8 * k, 8 * k + 8);
        lemma_bytes_of_value(record);
        assert(record[i % 8] == bytes[i]);
    }
    assert(encode_offsets(offsets) =~= bytes);
}

/// Appends the record of `offset` to `out`.
pub fn write_offset(offset: u64, out: &mut Vec<u8>)
    ensures
        final(out)@ == old(out)@ + offset_bytes(offset),
{
    let mut rest: u64 = offset;
    let mut written: usize = 0;
    while written < 8
        invariant
            written <= 8,
            out@.len() == old(out)@.len() + written,
            out@.subrange(0, old(out)@.len() as int) == old(out)@,
            forall|j: int| 0 <= j < written ==> out@[old(out)@.len() + j] == offset_bytes(offset)[j],
            written == 0 ==> rest == offset,
            written == 1 ==> rest == offset / 0x100,
            written == 2 ==> rest == offset / 0x1_0000,
            written == 3 ==> rest == offset / 0x100_0000,
            written == 4 ==> rest == offset / 0x1_0000_0000,
            written == 5 ==> rest == offset / 0x100_0000_0000,
            written == 6 ==> rest == offset / 0x1_0000_0000_0000,
            written == 7 ==> rest == offset / 0x100_0000_0000_0000,
        decreases 8 - written,
    {
        let ghost before = out@;
        out.push((rest % 0x100) as u8);
        rest = rest / 0x100;
        written = written + 1;
        assert(out@.subrange(0, old(out)@.len() as int) =~= before.subrange(0, old(out)@.len() as int));
    }
    assert(out@ =~= old(out)@ + offset_bytes(offset));
}

/// Reads the offset whose record starts at byte `at` of `bytes`.
pub fn read_offset(bytes: &[u8], at: usize) -> (offset: u64)
    requires
        at + 8 <= bytes@.len(),
    ensures
        offset == offset_value(bytes@.subrange(at as int, at + 8)),
{
    let ghost record = bytes@.subrange(at as int, at + 8);
    assert(bytes@.len() == bytes.len());
    let mut value: u64 = 0;
    let mut left: usize = 8;
    while left > 0
        invariant
            left <= 8,
            at + 8 <= bytes@.len() <= usize::MAX,
            record == bytes@.subrange(at as int, at + 8),
            left == 8 ==> value == 0,
            left == 7 ==> value == record[7],
            left == 6 ==> value == record[6] + 0x100 * record[7],
            left == 5 ==> value == record[5] + 0x100 * record[6] + 0x1_0000 * record[7],
            left == 4 ==> value == record[4] + 0x100 * record[5] + 0x1_0000 * record[6]
                + 0x100_0000 * record[7],
            left == 3 ==> value == record[3] + 0x100 * record[4] + 0x1_0000 * record[5]
                + 0x100_0000 * record[6] + 0x1_0000_0000 * record[7],
            left == 2 ==> value == record[2] + 0x100 * record[3] + 0x1_0000 * record[4]
                + 0x100_0000 * record[5] + 0x1_0000_0000 * record[6] + 0x100_0000_0000 * record[7],
            left == 1 ==> value == record[1] + 0x100 * record[2] + 0x1_0000 * record[3]
                + 0x100_0000 * record[4] + 0x1_0000_0000 * record[5] + 0x100_0000_0000 * record[6]
                + 0x1_0000_0000_0000 * record[7],
            left == 0 ==> value == offset_value(record),
        decreases left,
    {
        left = left - 1;
        let digit: u8 = bytes[at + left];
        assert(digit == record[left as int]);
        value = value * 0x100 + (digit as u64);
    }
    value
}

} // verus!
