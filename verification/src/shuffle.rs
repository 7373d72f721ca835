//! A whole run on sources that are held in memory: building the shuffled
//! index file of each source, and moving every line to a target.

use vstd::prelude::*;
use rand::rngs::StdRng;
use crate::codec::decode_offsets;
use crate::offset::{collect_offsets, dump_offsets, load_offsets, Offsets};
use crate::engine::ShuffleEngine;
use crate::error::ShuffleError;
use crate::index::line_starts;
use crate::laws::lemma_lines_preserved;
use crate::line::{line_at, lines_in, CopyLine};
use crate::random::{seeded, shuffle_in_place};
use crate::state::{drawn_from, keeps_window, marks_last, pending, Transfer};

verus! {

/// What each of `files` holds.
pub open spec fn contents(files: Seq<Vec<u8>>) -> Seq<Seq<u8>> {
    Seq::new(files.len(), |i: int| files[i]@)
}

/// Whether `index_file` is an index file of `source`: whole records, which
/// stand for the line starts of the source in some order.
pub open spec fn is_index_of(index_file: Seq<u8>, source: Seq<u8>) -> bool {
    &&& index_file.len() % 8 == 0
    &&& decode_offsets(index_file).to_multiset() == line_starts(source).to_multiset()
}

/// Whether a run can use `index_file`: whole records, and at least one.
pub open spec fn is_usable(index_file: Seq<u8>) -> bool {
    index_file.len() % 8 == 0 && index_file.len() > 0
}

/// The bytes that `moves` append to `target`: the line of each move that
/// goes there, in the order of the moves.
pub open spec fn written_to(moves: Seq<Transfer>, sources: Seq<Seq<u8>>, target: int) -> Seq<u8>
    decreases moves.len(),
{
    if moves.len() == 0 {
        Seq::empty()
    } else if moves.last().target == target {
        written_to(moves.drop_last(), sources, target) + line_at(
            sources[moves.last().source as int],
            moves.last().offset as int,
        )
    } else {
        written_to(moves.drop_last(), sources, target)
    }
}

/// The lines that `moves` carry, in the order of the moves.
pub open spec fn lines_moved(moves: Seq<Transfer>, sources: Seq<Seq<u8>>) -> Seq<Seq<u8>> {
    Seq::new(
        moves.len(),
        |k: int| line_at(sources[moves[k].source as int], moves[k].offset as int),
    )
}

/// The index that each of `index_files` holds.
pub open spec fn indexes_in(index_files: Seq<Seq<u8>>) -> Seq<Seq<u64>> {
    Seq::new(index_files.len(), |i: int| decode_offsets(index_files[i]))
}

/// Whether `moves` are a complete run from `sources`, read through
/// `index_files`, into `outputs`, with a window of `size` sources: every
/// move names a source and a target of the run, the offsets drawn from each
/// source are those of its index file, from the last record to the first,
/// the moves keep to the window and mark where a source is exhausted, and
/// each output holds what the moves wrote to it.
pub open spec fn shuffled_by(
    moves: Seq<Transfer>,
    sources: Seq<Seq<u8>>,
    index_files: Seq<Seq<u8>>,
    outputs: Seq<Seq<u8>>,
    size: nat,
) -> bool {
    &&& index_files.len() == sources.len()
    &&& keeps_window(moves, size)
    &&& marks_last(moves, indexes_in(index_files))
    &&& forall|k: int|
        0 <= k < moves.len() ==> (#[trigger] moves[k]).source < sources.len() && moves[k].target
            < outputs.len()
    &&& forall|i: int|
        0 <= i < sources.len() ==> #[trigger] drawn_from(moves, i) == decode_offsets(
            index_files[i],
        )
    &&& forall|t: int|
        0 <= t < outputs.len() ==> #[trigger] outputs[t] == written_to(moves, sources, t)
}

/// The number of records in the index files from number `from` on.
spec fn backlog(index_files: Seq<Seq<u8>>, from: int) -> nat
    decreases index_files.len() - from,
{
    if 0 <= from < index_files.len() {
        index_files[from].len() / 8 + backlog(index_files, from + 1)
    } else {
        0
    }
}

/// A move adds its line to what was written to its target, and nothing to
/// the other targets.
pub proof fn lemma_written_to_push(
    moves: Seq<Transfer>,
    made: Transfer,
    sources: Seq<Seq<u8>>,
    target: int,
)
    ensures
        written_to(moves.push(made), sources, target) == if made.target == target {
            written_to(moves, sources, target) + line_at(
                sources[made.source as int],
                made.offset as int,
            )
        } else {
            written_to(moves, sources, target)
        },
{
    assert(moves.push(made).drop_last() =~= moves);
}

/// An index file of a source can be used by a run.
pub proof fn lemma_index_is_usable(index_file: Seq<u8>, source: Seq<u8>)
    requires
        is_index_of(index_file, source),
    ensures
        is_usable(index_file),
{
    vstd::seq_lib::to_multiset_len(decode_offsets(index_file));
    vstd::seq_lib::to_multiset_len(line_starts(source));
}

/// Makes index files, all shuffled by one generator.
pub struct IndexBuilder {
    rng: StdRng,
}

impl IndexBuilder {
    /// A builder whose generator is seeded with `seed`. A builder holds its
    /// generator and nothing else, and nothing is claimed of a generator:
    /// what `index_file` states, it states of every builder.
    pub fn new(seed: u64) -> (builder: IndexBuilder) {
        IndexBuilder { rng: seeded(seed) }
    }

    /// The index file for `offsets`: their records, in a shuffled order.
    pub fn index_file(&mut self, offsets: Offsets) -> (index_file: Vec<u8>)
        ensures
            index_file@.len() == 8 * offsets@.len(),
            decode_offsets(index_file@).to_multiset() == offsets@.to_multiset(),
    {
        let mut shuffled = offsets;
        shuffle_in_place(&mut shuffled, &mut self.rng);
        dump_offsets(&shuffled)
    }
}

/// The index file of each source, in the order of the sources: the line
/// starts of the source, shuffled by a generator seeded with `seed`.
pub fn build_offsets(sources: &Vec<Vec<u8>>, seed: u64) -> (index_files: Vec<Vec<u8>>)
    ensures
        index_files@.len() == sources@.len(),
        forall|i: int|
            0 <= i < sources@.len() ==> is_index_of(#[trigger] index_files@[i]@, sources@[i]@),
{
    let mut builder = IndexBuilder::new(seed);
    let mut index_files: Vec<Vec<u8>> = Vec::new();
    let mut done: usize = 0;
    while done < sources.len()
        invariant
            done <= sources@.len(),
            index_files@.len() == done,
            forall|i: int|
                0 <= i < done ==> is_index_of(#[trigger] index_files@[i]@, sources@[i]@),
        decreases sources@.len() - done,
    {
        let offsets = collect_offsets(sources[done].as_slice());
        let index_file = builder.index_file(offsets);
        index_files.push(index_file);
        done = done + 1;
    }
    index_files
}

/// Lets sources of the backlog into the window, each with the index loaded
/// from its index file, until the window is full or the backlog is used up.
/// Stops at the first index file that does not hold whole records.
fn fill_window(engine: &mut ShuffleEngine, index_files: &Vec<Vec<u8>>) -> (outcome: Result<
    (),
    ShuffleError,
>)
    requires
        old(engine)@.wf(),
        old(engine)@.sources == index_files@.len(),
        forall|i: int|
            0 <= i < old(engine)@.admitted ==> (#[trigger] index_files@[i])@.len() % 8 == 0
                && old(engine)@.loaded[i] == decode_offsets(index_files@[i]@),
    ensures
        final(engine)@.wf(),
        final(engine)@.sources == old(engine)@.sources,
        final(engine)@.targets == old(engine)@.targets,
        final(engine)@.capacity == old(engine)@.capacity,
        final(engine)@.moves == old(engine)@.moves,
        outcome is Ok ==> !final(engine)@.wants_source(),
        outcome is Ok ==> forall|i: int|
            0 <= i < final(engine)@.admitted ==> (#[trigger] index_files@[i])@.len() % 8 == 0
                && final(engine)@.loaded[i] == decode_offsets(index_files@[i]@),
        outcome is Ok ==> pending(final(engine)@.window) + backlog(
            contents(index_files@),
            final(engine)@.admitted as int,
        ) == pending(old(engine)@.window) + backlog(
            contents(index_files@),
            old(engine)@.admitted as int,
        ),
        outcome matches Err(error) ==> error is Format,
        outcome matches Err(ShuffleError::Format { length }) ==> exists|i: int|
            0 <= i < index_files@.len() && (#[trigger] index_files@[i])@.len() == length && length
                % 8 != 0,
{
    loop
        invariant
            engine@.wf(),
            engine@.sources == index_files@.len(),
            engine@.sources == old(engine)@.sources,
            engine@.targets == old(engine)@.targets,
            engine@.capacity == old(engine)@.capacity,
            engine@.moves == old(engine)@.moves,
            forall|i: int|
                0 <= i < engine@.admitted ==> (#[trigger] index_files@[i])@.len() % 8 == 0
                    && engine@.loaded[i] == decode_offsets(index_files@[i]@),
            pending(engine@.window) + backlog(contents(index_files@), engine@.admitted as int)
                == pending(old(engine)@.window) + backlog(
                contents(index_files@),
                old(engine)@.admitted as int,
            ),
        ensures
            !engine@.wants_source(),
        decreases engine@.sources - engine@.admitted,
    {
        let next: usize = match engine.next_source() {
            Some(next) => next,
            None => break,
        };
        let ghost before = engine@;
        match load_offsets(index_files[next].as_slice()) {
            Ok(offsets) => {
                engine.enter(offsets);
                proof {
                    let files = contents(index_files@);
                    assert(files[next as int] == index_files@[next as int]@);
                    assert(offsets@.len() == files[next as int].len() / 8);
                    assert(backlog(files, next as int) == files[next as int].len() / 8 + backlog(
                        files,
                        next + 1,
                    ));
                    assert forall|i: int| 0 <= i < engine@.admitted implies (
                    #[trigger] index_files@[i])@.len() % 8 == 0 && engine@.loaded[i]
                        == decode_offsets(index_files@[i]@) by {
                        if i < before.admitted {
                            assert(engine@.loaded[i] == before.loaded[i]);
                        }
                    }
                }
            },
            Err(error) => {
                assert(index_files@[next as int]@.len() % 8 != 0);
                return Err(error);
            },
        }
    }
    Ok(())
}

/// Moves every line of `sources` to one of `targets` outputs, which start
/// empty. The sources are read through their index files, at most `size`
/// of them at a time, and every choice is made by a generator seeded with
/// `seed`.
///
/// The run succeeds if and only if every index file holds whole records and
/// at least one. Otherwise it fails on the first index file that it finds
/// wanting, and which one that is depends on the choices made.
pub fn shuffle_files(
    sources: &Vec<Vec<u8>>,
    index_files: &Vec<Vec<u8>>,
    targets: usize,
    size: usize,
    seed: u64,
) -> (outcome: Result<Vec<Vec<u8>>, ShuffleError>)
    requires
        index_files@.len() == sources@.len(),
        targets >= 1,
        1 <= size <= sources@.len(),
    ensures
        outcome is Ok <==> forall|i: int|
            0 <= i < index_files@.len() ==> is_usable(#[trigger] index_files@[i]@),
        outcome matches Ok(outputs) ==> outputs@.len() == targets && exists|moves: Seq<Transfer>|
            #[trigger] shuffled_by(
                moves,
                contents(sources@),
                contents(index_files@),
                contents(outputs@),
                size as nat,
            ),
        outcome matches Err(ShuffleError::Format { length }) ==> exists|i: int|
            0 <= i < index_files@.len() && (#[trigger] index_files@[i])@.len() == length && length
                % 8 != 0,
        outcome matches Err(ShuffleError::InvariantViolation { source }) ==> source
            < index_files@.len() && index_files@[source as int]@.len() == 0,
{
    let mut engine = ShuffleEngine::new(sources.len(), targets, size, seed);
    let mut outputs: Vec<Vec<u8>> = Vec::new();
    while outputs.len() < targets
        invariant
            outputs@.len() <= targets,
            forall|t: int| 0 <= t < outputs@.len() ==> (#[trigger] outputs@[t])@ == Seq::<u8>::empty(),
        decreases targets - outputs@.len(),
    {
        outputs.push(Vec::new());
    }
    let mut copier = CopyLine::new();
    loop
        invariant
            index_files@.len() == sources@.len(),
            engine@.wf(),
            engine@.sources == sources@.len(),
            engine@.targets == targets,
            engine@.capacity == size,
            outputs@.len() == targets,
            forall|i: int|
                0 <= i < engine@.admitted ==> (#[trigger] index_files@[i])@.len() % 8 == 0
                    && engine@.loaded[i] == decode_offsets(index_files@[i]@),
            forall|t: int|
                0 <= t < targets ==> (#[trigger] outputs@[t])@ == written_to(
                    engine@.moves,
                    contents(sources@),
                    t,
                ),
        ensures
            engine@.is_done(),
        decreases pending(engine@.window) + backlog(contents(index_files@), engine@.admitted as int),
    {
        match fill_window(&mut engine, index_files) {
            Ok(()) => {},
            Err(error) => {
                return Err(error);
            },
        }
        if engine.is_done() {
            break;
        }
        let ghost before = engine@;
        let made: Transfer = match engine.step() {
            Ok(made) => made,
            Err(error) => {
                proof {
                    let (reader, target) = choose|reader: int, target: int| #[trigger]
                        before.steps_to(reader, target, Err::<Transfer, ShuffleError>(error), engine@);
                    let source = before.window[reader].source as int;
                    assert(before.loaded[source].len() == 0);
                    assert(index_files@[source]@.len() == 0);
                    assert(!is_usable(index_files@[source]@));
                }
                return Err(error);
            },
        };
        proof {
            let (reader, target) = choose|reader: int, target: int| #[trigger]
                before.steps_to(reader, target, Ok::<Transfer, ShuffleError>(made), engine@);
            assert(before.window[reader].source < before.admitted);
            assert forall|t: int| 0 <= t < targets implies written_to(
                engine@.moves,
                contents(sources@),
                t,
            ) == if made.target == t {
                written_to(before.moves, contents(sources@), t) + line_at(
                    sources@[made.source as int]@,
                    made.offset as int,
                )
            } else {
                written_to(before.moves, contents(sources@), t)
            } by {
                lemma_written_to_push(before.moves, made, contents(sources@), t);
            }
        }
        copier.copy_line(made.offset, sources[made.source].as_slice(), &mut outputs[made.target]);
    }
    proof {
        let moves = engine@.moves;
        assert forall|i: int| 0 <= i < index_files@.len() implies is_usable(
            #[trigger] index_files@[i]@,
        ) by {
            assert(engine@.loaded[i].len() > 0);
        }
        assert(engine@.loaded =~= indexes_in(contents(index_files@)));
        assert(shuffled_by(
            moves,
            contents(sources@),
            contents(index_files@),
            contents(outputs@),
            size as nat,
        ));
    }
    Ok(outputs)
}

/// Whether `moves` carry every line of `sources` into `outputs`: each output
/// holds what the moves wrote to it, and the lines that the moves carry are
/// the lines of the sources, each as often as it occurs there.
pub open spec fn carried_by(moves: Seq<Transfer>, sources: Seq<Seq<u8>>, outputs: Seq<Seq<u8>>) -> bool {
    &&& forall|k: int|
        0 <= k < moves.len() ==> (#[trigger] moves[k]).source < sources.len() && moves[k].target
            < outputs.len()
    &&& forall|t: int|
        0 <= t < outputs.len() ==> #[trigger] outputs[t] == written_to(moves, sources, t)
    &&& lines_moved(moves, sources).to_multiset() == lines_in(sources)
}

/// Shuffles the lines of `sources` into `targets` outputs, through a window
/// of `size` sources: builds the shuffled index file of each source, then
/// moves every line. The index files are made with `seed`, the moves with
/// the seed after it.
pub fn shuffle_lines(sources: &Vec<Vec<u8>>, targets: usize, size: usize, seed: u64) -> (outputs:
    Vec<Vec<u8>>)
    requires
        targets >= 1,
        1 <= size <= sources@.len(),
    ensures
        outputs@.len() == targets,
        exists|moves: Seq<Transfer>| #[trigger]
            carried_by(moves, contents(sources@), contents(outputs@)),
{
    let index_files = build_offsets(sources, seed);
    proof {
        assert forall|i: int| 0 <= i < index_files@.len() implies is_usable(
            #[trigger] index_files@[i]@,
        ) by {
            lemma_index_is_usable(index_files@[i]@, sources@[i]@);
        }
    }
    match shuffle_files(sources, &index_files, targets, size, seed.wrapping_add(1)) {
        Ok(outputs) => {
            proof {
                let moves = choose|moves: Seq<Transfer>| #[trigger]
                    shuffled_by(
                        moves,
                        contents(sources@),
                        contents(index_files@),
                        contents(outputs@),
                        size as nat,
                    );
                assert forall|i: int| 0 <= i < sources@.len() implies is_index_of(
                    #[trigger] contents(index_files@)[i],
                    contents(sources@)[i],
                ) by {
                    assert(is_index_of(index_files@[i]@, sources@[i]@));
                }
                lemma_lines_preserved(
                    moves,
                    contents(sources@),
                    contents(index_files@),
                    contents(outputs@),
                    size as nat,
                );
                assert(carried_by(moves, contents(sources@), contents(outputs@)));
            }
            outputs
        },
        Err(_) => vstd::pervasive::unreached(),
    }
}

} // verus!
