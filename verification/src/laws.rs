//! What holds of every index and of every run.

use vstd::prelude::*;
use vstd::multiset::Multiset;
use vstd::seq_lib::{lemma_multiset_commutative, to_multiset_build, to_multiset_contains, to_multiset_len, to_multiset_remove};
use crate::index::{lemma_newline_offsets, line_starts, newline_offsets, NEWLINE};
use crate::line::{is_terminated_line, join, line_at, line_end, lines_at, lines_in, lines_of, lines_upto};
use crate::shuffle::{is_index_of, lines_moved, shuffled_by, written_to};
use crate::state::{drawn_from, lemma_drawn_from_push, Transfer};

verus! {

/// The lines that `moves` draw from the first `count` of `sources`, each as
/// often as it is drawn.
spec fn lines_drawn(moves: Seq<Transfer>, sources: Seq<Seq<u8>>, count: int) -> Multiset<
    Seq<u8>,
>
    decreases count,
{
    if count <= 0 {
        Multiset::empty()
    } else {
        lines_drawn(moves, sources, count - 1).add(
            lines_at(sources[count - 1], drawn_from(moves, count - 1)).to_multiset(),
        )
    }
}

/// Bytes without a newline, put behind a source, add no offset to its index.
proof fn lemma_newline_offsets_of_tail(head: Seq<u8>, tail: Seq<u8>)
    requires
        forall|j: int| 0 <= j < tail.len() ==> tail[j] != NEWLINE,
    ensures
        newline_offsets(head + tail) == newline_offsets(head),
    decreases tail.len(),
{
    if tail.len() == 0 {
        assert(head + tail =~= head);
    } else {
        assert((head + tail).drop_last() =~= head + tail.drop_last());
        lemma_newline_offsets_of_tail(head, tail.drop_last());
    }
}

/// A source of `k` lines, each with its newline, has an index of `k + 1`
/// offsets: offset 0 and the offset just past each line.
pub proof fn lemma_index_of_terminated_lines(lines: Seq<Seq<u8>>)
    requires
        forall|k: int| 0 <= k < lines.len() ==> is_terminated_line(#[trigger] lines[k]),
        join(lines).len() <= u64::MAX,
    ensures
        line_starts(join(lines)).len() == lines.len() + 1,
        forall|k: int|
            0 <= k < lines.len() ==> #[trigger] newline_offsets(join(lines))[k] == join(
                lines.subrange(0, k + 1),
            ).len(),
    decreases lines.len(),
{
    if lines.len() > 0 {
        let head = lines.drop_last();
        let last = lines.last();
        lemma_index_of_terminated_lines(head);
        assert(is_terminated_line(last));
        assert((join(head) + last).drop_last() =~= join(head) + last.drop_last());
        lemma_newline_offsets_of_tail(join(head), last.drop_last());
        assert forall|k: int| 0 <= k < lines.len() implies #[trigger] newline_offsets(
            join(lines),
        )[k] == join(lines.subrange(0, k + 1)).len() by {
            if k < head.len() {
                assert(lines.subrange(0, k + 1) =~= head.subrange(0, k + 1));
            } else {
                assert(lines.subrange(0, k + 1) =~= lines);
            }
        }
    }
}

/// Offsets that are the same up to their order give the same lines up to
/// their order.
pub proof fn lemma_lines_at_permuted(source: Seq<u8>, left: Seq<u64>, right: Seq<u64>)
    requires
        left.to_multiset() == right.to_multiset(),
    ensures
        lines_at(source, left).to_multiset() == lines_at(source, right).to_multiset(),
    decreases left.len(),
{
    to_multiset_len(left);
    to_multiset_len(right);
    if left.len() == 0 {
        assert(lines_at(source, left) =~= lines_at(source, right));
    } else {
        let offset = left.last();
        let shorter = left.drop_last();
        assert(left =~= shorter.push(offset));
        to_multiset_build(shorter, offset);
        to_multiset_contains(right, offset);
        assert(left.to_multiset().count(offset) > 0);
        let at = choose|at: int| 0 <= at < right.len() && right[at] == offset;
        let others = right.remove(at);
        to_multiset_remove(right, at);
        assert(shorter.to_multiset() =~= others.to_multiset());
        lemma_lines_at_permuted(source, shorter, others);
        let line = line_at(source, offset as int);
        assert(lines_at(source, left) =~= lines_at(source, shorter).push(line));
        to_multiset_build(lines_at(source, shorter), line);
        assert(lines_at(source, others) =~= lines_at(source, right).remove(at));
        to_multiset_remove(lines_at(source, right), at);
        to_multiset_contains(lines_at(source, right), line);
        assert(lines_at(source, right)[at] == line);
        assert(lines_at(source, right).to_multiset() =~= lines_at(
            source,
            others,
        ).to_multiset().insert(line));
    }
}

/// No move, no line drawn.
proof fn lemma_lines_drawn_by_none(sources: Seq<Seq<u8>>, count: int)
    ensures
        lines_drawn(Seq::<Transfer>::empty(), sources, count) == Multiset::<Seq<u8>>::empty(),
    decreases count,
{
    if count > 0 {
        lemma_lines_drawn_by_none(sources, count - 1);
        let none = lines_at(sources[count - 1], drawn_from(Seq::<Transfer>::empty(), count - 1));
        to_multiset_len(none);
        assert(none.to_multiset() =~= Multiset::<Seq<u8>>::empty());
        assert(lines_drawn(Seq::<Transfer>::empty(), sources, count) =~= Multiset::<
            Seq<u8>,
        >::empty());
    }
}

/// One more move draws one more line, that of the move.
proof fn lemma_lines_drawn_push(
    moves: Seq<Transfer>,
    made: Transfer,
    sources: Seq<Seq<u8>>,
    count: int,
)
    ensures
        lines_drawn(moves.push(made), sources, count) == if made.source < count {
            lines_drawn(moves, sources, count).insert(
                line_at(sources[made.source as int], made.offset as int),
            )
        } else {
            lines_drawn(moves, sources, count)
        },
    decreases count,
{
    if count > 0 {
        let number = count - 1;
        lemma_lines_drawn_push(moves, made, sources, number);
        lemma_drawn_from_push(moves, made, number);
        let before = lines_at(sources[number], drawn_from(moves, number));
        let after = lines_at(sources[number], drawn_from(moves.push(made), number));
        if made.source == number {
            let line = line_at(sources[number], made.offset as int);
            assert(after =~= seq![line] + before);
            lemma_multiset_commutative(seq![line], before);
            to_multiset_build(Seq::<Seq<u8>>::empty(), line);
            assert(seq![line] =~= Seq::<Seq<u8>>::empty().push(line));
            assert(Seq::<Seq<u8>>::empty().to_multiset() =~= Multiset::<Seq<u8>>::empty()) by {
                to_multiset_len(Seq::<Seq<u8>>::empty());
            }
            assert(after.to_multiset() =~= before.to_multiset().insert(line));
            assert(lines_drawn(moves.push(made), sources, count) =~= lines_drawn(
                moves,
                sources,
                count,
            ).insert(line));
        } else if made.source < number {
            assert(lines_drawn(moves.push(made), sources, count) =~= lines_drawn(
                moves,
                sources,
                count,
            ).insert(line_at(sources[made.source as int], made.offset as int)));
        }
    }
}

/// The lines that moves carry are the lines that they draw from the
/// sources that they name.
proof fn lemma_lines_moved_are_drawn(moves: Seq<Transfer>, sources: Seq<Seq<u8>>)
    requires
        forall|k: int| 0 <= k < moves.len() ==> (#[trigger] moves[k]).source < sources.len(),
    ensures
        lines_moved(moves, sources).to_multiset() == lines_drawn(
            moves,
            sources,
            sources.len() as int,
        ),
    decreases moves.len(),
{
    if moves.len() == 0 {
        lemma_lines_drawn_by_none(sources, sources.len() as int);
        assert(moves =~= Seq::<Transfer>::empty());
        to_multiset_len(lines_moved(moves, sources));
        assert(lines_moved(moves, sources).to_multiset() =~= Multiset::<Seq<u8>>::empty());
    } else {
        let earlier = moves.drop_last();
        let made = moves.last();
        assert(moves =~= earlier.push(made));
        lemma_lines_moved_are_drawn(earlier, sources);
        lemma_lines_drawn_push(earlier, made, sources, sources.len() as int);
        let line = line_at(sources[made.source as int], made.offset as int);
        assert(lines_moved(moves, sources) =~= lines_moved(earlier, sources).push(line));
        to_multiset_build(lines_moved(earlier, sources), line);
    }
}

/// Moves that draw from each source the offsets of its index, in any order,
/// draw the lines of the sources.
proof fn lemma_lines_drawn_are_all(moves: Seq<Transfer>, sources: Seq<Seq<u8>>, count: int)
    requires
        count <= sources.len(),
        forall|i: int|
            0 <= i < count ==> (#[trigger] drawn_from(moves, i)).to_multiset() == line_starts(
                sources[i],
            ).to_multiset(),
    ensures
        lines_drawn(moves, sources, count) == lines_upto(sources, count),
    decreases count,
{
    if count > 0 {
        lemma_lines_drawn_are_all(moves, sources, count - 1);
        assert(drawn_from(moves, count - 1).to_multiset() == line_starts(
            sources[count - 1],
        ).to_multiset());
        lemma_lines_at_permuted(
            sources[count - 1],
            drawn_from(moves, count - 1),
            line_starts(sources[count - 1]),
        );
    }
}

/// No line is lost and none is made. Where each index file holds the line
/// starts of its source in some order, the lines that a complete run
/// carries are the lines of the sources, each as often as it occurs there,
/// whatever the window size and the number of targets.
pub proof fn lemma_lines_preserved(
    moves: Seq<Transfer>,
    sources: Seq<Seq<u8>>,
    index_files: Seq<Seq<u8>>,
    outputs: Seq<Seq<u8>>,
    size: nat,
)
    requires
        shuffled_by(moves, sources, index_files, outputs, size),
        forall|i: int|
            0 <= i < sources.len() ==> is_index_of(#[trigger] index_files[i], sources[i]),
    ensures
        lines_moved(moves, sources).len() == moves.len(),
        lines_moved(moves, sources).to_multiset() == lines_in(sources),
{
    assert forall|i: int| 0 <= i < sources.len() implies (#[trigger] drawn_from(
        moves,
        i,
    )).to_multiset() == line_starts(sources[i]).to_multiset() by {
        assert(is_index_of(index_files[i], sources[i]));
    }
    lemma_lines_moved_are_drawn(moves, sources);
    lemma_lines_drawn_are_all(moves, sources, sources.len() as int);
}

/// What one target receives is the lines of the moves, one after another.
proof fn lemma_written_to_one(moves: Seq<Transfer>, sources: Seq<Seq<u8>>)
    requires
        forall|k: int| 0 <= k < moves.len() ==> (#[trigger] moves[k]).target == 0,
    ensures
        written_to(moves, sources, 0) == join(lines_moved(moves, sources)),
    decreases moves.len(),
{
    if moves.len() > 0 {
        lemma_written_to_one(moves.drop_last(), sources);
        assert(lines_moved(moves, sources).drop_last() =~= lines_moved(
            moves.drop_last(),
            sources,
        ));
    }
}

/// With one target, the output is the lines of the sources in some order,
/// one after another: a permutation of the lines, whatever the seed.
pub proof fn lemma_single_target(
    moves: Seq<Transfer>,
    sources: Seq<Seq<u8>>,
    index_files: Seq<Seq<u8>>,
    outputs: Seq<Seq<u8>>,
    size: nat,
)
    requires
        shuffled_by(moves, sources, index_files, outputs, size),
        outputs.len() == 1,
        forall|i: int|
            0 <= i < sources.len() ==> is_index_of(#[trigger] index_files[i], sources[i]),
    ensures
        outputs[0] == join(lines_moved(moves, sources)),
        lines_moved(moves, sources).to_multiset() == lines_in(sources),
{
    lemma_lines_preserved(moves, sources, index_files, outputs, size);
    assert forall|k: int| 0 <= k < moves.len() implies (#[trigger] moves[k]).target == 0 by {}
    lemma_written_to_one(moves, sources);
    assert(outputs[0] == written_to(moves, sources, 0));
}

/// The index of a source in ascending order: offset 0, then the offsets
/// past its newlines.
pub open spec fn ordered_starts(source: Seq<u8>) -> Seq<u64> {
    seq![0u64] + newline_offsets(source)
}

/// Where the line that starts at place `k` of the ordered index ends: at
/// the next start, or at the end of the source for the last line.
spec fn ordered_end(source: Seq<u8>, k: int) -> int {
    if k + 1 < ordered_starts(source).len() {
        ordered_starts(source)[k + 1] as int
    } else {
        source.len() as int
    }
}

/// A line ends just past the first newline from its start on.
proof fn lemma_line_end_at_newline(source: Seq<u8>, offset: int, end: int)
    requires
        0 <= offset < end <= source.len(),
        source[end - 1] == NEWLINE,
        forall|j: int| offset <= j < end - 1 ==> source[j] != NEWLINE,
    ensures
        line_end(source, offset) == end,
    decreases end - offset,
{
    if source[offset] != NEWLINE {
        lemma_line_end_at_newline(source, offset + 1, end);
    }
}

/// A line that meets no newline ends where the source ends.
proof fn lemma_line_end_at_end(source: Seq<u8>, offset: int)
    requires
        0 <= offset <= source.len(),
        forall|j: int| offset <= j < source.len() ==> source[j] != NEWLINE,
    ensures
        line_end(source, offset) == source.len(),
    decreases source.len() - offset,
{
    if offset < source.len() {
        lemma_line_end_at_end(source, offset + 1);
    }
}

/// The ordered index ascends, and no newline lies between a start and the
/// last byte before the next.
proof fn lemma_ordered_starts(source: Seq<u8>)
    requires
        source.len() <= u64::MAX,
    ensures
        ordered_starts(source).len() == newline_offsets(source).len() + 1,
        ordered_starts(source)[0] == 0,
        forall|k: int|
            0 <= k < ordered_starts(source).len() ==> #[trigger] ordered_starts(source)[k]
                <= ordered_end(source, k) <= source.len(),
        forall|k: int|
            0 <= k < ordered_starts(source).len() - 1 ==> #[trigger] ordered_starts(source)[k]
                < ordered_end(source, k) && source[ordered_end(source, k) - 1] == NEWLINE,
        forall|k: int, j: int|
            0 <= k < ordered_starts(source).len() && #[trigger] ordered_starts(source)[k] <= j
                < ordered_end(source, k) - 1 ==> #[trigger] source[j] != NEWLINE,
        forall|j: int|
            ordered_starts(source).last() <= j < source.len() ==> #[trigger] source[j] != NEWLINE,
{
    lemma_newline_offsets(source);
    let past = newline_offsets(source);
    let starts = ordered_starts(source);
    assert forall|k: int| 0 < k < starts.len() implies #[trigger] starts[k] == past[k - 1] by {}
    assert forall|a: int, b: int| 0 <= a < b < starts.len() implies starts[a] < starts[b] by {
        assert(starts[b] == past[b - 1]);
        if a > 0 {
            assert(starts[a] == past[a - 1]);
        }
    }
    assert forall|j: int| 0 <= j < source.len() && source[j] == NEWLINE implies exists|m: int|
        0 < m < starts.len() && #[trigger] starts[m] == j + 1 by {
        assert(past.contains((j + 1) as u64));
        let at = choose|at: int| 0 <= at < past.len() && past[at] == (j + 1) as u64;
        assert(starts[at + 1] == j + 1);
    }
    assert forall|k: int, j: int|
        0 <= k < starts.len() && #[trigger] starts[k] <= j < ordered_end(source, k)
            - 1 implies #[trigger] source[j] != NEWLINE by {
        if source[j] == NEWLINE {
            let m = choose|m: int| 0 < m < starts.len() && #[trigger] starts[m] == j + 1;
            if m <= k {
                if m < k {
                    assert(starts[m] < starts[k]);
                }
            } else if k + 1 < starts.len() {
                if k + 1 < m {
                    assert(starts[k + 1] < starts[m]);
                }
            }
        }
    }
    assert forall|j: int| starts.last() <= j < source.len() implies #[trigger] source[j]
        != NEWLINE by {
        if source[j] == NEWLINE {
            let m = choose|m: int| 0 < m < starts.len() && #[trigger] starts[m] == j + 1;
            if m < starts.len() - 1 {
                assert(starts[m] < starts[starts.len() - 1]);
            }
        }
    }
    assert forall|k: int| 0 <= k < starts.len() implies #[trigger] starts[k] <= ordered_end(
        source,
        k,
    ) <= source.len() by {
        if k + 1 < starts.len() {
            assert(starts[k] < starts[k + 1]);
            assert(starts[k + 1] == past[k]);
        } else if k > 0 {
            assert(starts[k] == past[k - 1]);
        }
    }
    assert forall|k: int| 0 <= k < starts.len() - 1 implies #[trigger] starts[k] < ordered_end(
        source,
        k,
    ) && source[ordered_end(source, k) - 1] == NEWLINE by {
        assert(starts[k] < starts[k + 1]);
        assert(starts[k + 1] == past[k]);
    }
}

/// The line at each start of the ordered index is the stretch of the
/// source from that start to the next.
proof fn lemma_ordered_line(source: Seq<u8>, k: int)
    requires
        source.len() <= u64::MAX,
        0 <= k < ordered_starts(source).len(),
    ensures
        ordered_starts(source)[k] <= ordered_end(source, k) <= source.len(),
        line_at(source, ordered_starts(source)[k] as int) == source.subrange(
            ordered_starts(source)[k] as int,
            ordered_end(source, k),
        ),
{
    lemma_ordered_starts(source);
    let starts = ordered_starts(source);
    let start = starts[k] as int;
    let end = ordered_end(source, k);
    assert(starts[k] <= ordered_end(source, k) <= source.len());
    if k + 1 < starts.len() {
        assert(starts[k] < ordered_end(source, k) && source[ordered_end(source, k) - 1] == NEWLINE);
        assert forall|j: int| start <= j < end - 1 implies source[j] != NEWLINE by {
            assert(starts[k] <= j < ordered_end(source, k) - 1);
        }
        lemma_line_end_at_newline(source, start, end);
    } else {
        assert(starts[k] == starts.last());
        lemma_line_end_at_end(source, start);
        if start == source.len() {
            assert(line_at(source, start) =~= source.subrange(start, end));
        }
    }
}

/// The first `count` lines of a source, joined, are the source up to the
/// end of the last of them.
proof fn lemma_lines_cover_prefix(source: Seq<u8>, count: int)
    requires
        source.len() <= u64::MAX,
        0 <= count <= ordered_starts(source).len(),
    ensures
        join(lines_at(source, ordered_starts(source)).subrange(0, count)) == source.subrange(
            0,
            if count == 0 {
                0
            } else {
                ordered_end(source, count - 1)
            },
        ),
    decreases count,
{
    let lines = lines_at(source, ordered_starts(source));
    if count == 0 {
        assert(join(lines.subrange(0, 0)) =~= source.subrange(0, 0));
    } else {
        lemma_lines_cover_prefix(source, count - 1);
        lemma_ordered_line(source, count - 1);
        lemma_ordered_starts(source);
        assert(lines.subrange(0, count).drop_last() =~= lines.subrange(0, count - 1));
        assert(lines.subrange(0, count).last() == lines[count - 1]);
        let start = ordered_starts(source)[count - 1] as int;
        let end = ordered_end(source, count - 1);
        if count > 1 {
            assert(ordered_end(source, count - 2) == start);
        }
        assert(source.subrange(0, start) + source.subrange(start, end) =~= source.subrange(
            0,
            end,
        ));
    }
}

/// No line is altered or split. The lines of a source, taken in ascending
/// order of their offsets and joined, are the source, byte for byte; each
/// but the last is a line with its newline, and the last holds no newline.
/// The ordered index holds the offsets of the index, in another order.
pub proof fn lemma_lines_cover_source(source: Seq<u8>)
    requires
        source.len() <= u64::MAX,
    ensures
        join(lines_at(source, ordered_starts(source))) == source,
        ordered_starts(source).to_multiset() == line_starts(source).to_multiset(),
        lines_at(source, ordered_starts(source)).to_multiset() == lines_of(source).to_multiset(),
        forall|k: int|
            0 <= k < ordered_starts(source).len() - 1 ==> is_terminated_line(
                #[trigger] lines_at(source, ordered_starts(source))[k],
            ),
        forall|j: int|
            0 <= j < lines_at(source, ordered_starts(source)).last().len() ==> lines_at(
                source,
                ordered_starts(source),
            ).last()[j] != NEWLINE,
{
    let starts = ordered_starts(source);
    let lines = lines_at(source, starts);
    lemma_ordered_starts(source);
    lemma_lines_cover_prefix(source, starts.len() as int);
    assert(lines.subrange(0, starts.len() as int) =~= lines);
    assert(source.subrange(0, source.len() as int) =~= source);
    lemma_multiset_commutative(seq![0u64], newline_offsets(source));
    to_multiset_build(Seq::<u64>::empty(), 0u64);
    to_multiset_build(newline_offsets(source), 0u64);
    assert(seq![0u64] =~= Seq::<u64>::empty().push(0u64));
    assert(Seq::<u64>::empty().to_multiset() =~= Multiset::<u64>::empty()) by {
        to_multiset_len(Seq::<u64>::empty());
    }
    assert(starts.to_multiset() =~= line_starts(source).to_multiset());
    lemma_lines_at_permuted(source, starts, line_starts(source));
    assert forall|k: int| 0 <= k < starts.len() - 1 implies is_terminated_line(
        #[trigger] lines[k],
    ) by {
        lemma_ordered_line(source, k);
        let start = starts[k] as int;
        let end = ordered_end(source, k);
        assert(starts[k] < ordered_end(source, k) && source[ordered_end(source, k) - 1] == NEWLINE);
        assert forall|j: int| 0 <= j < lines[k].len() - 1 implies lines[k][j] != NEWLINE by {
            assert(starts[k] <= start + j < ordered_end(source, k) - 1);
            assert(source[start + j] != NEWLINE);
        }
    }
    assert forall|j: int| 0 <= j < lines.last().len() implies lines.last()[j] != NEWLINE by {
        lemma_ordered_line(source, starts.len() - 1);
        let start = starts.last() as int;
        assert(source[start + j] != NEWLINE);
    }
}

} // verus!
