//! The run as a state machine over plain values: which sources are in the
//! window, what is left of their indexes, and the moves made so far.
//!
//! Sources are numbered in the order in which they were given. They enter
//! the window in that order, and each leaves it when its last offset has
//! been drawn.

use vstd::prelude::*;
use crate::error::ShuffleError;

verus! {

/// One line on its way: from where it is read and to where it is written.
#[derive(Debug, Clone, Copy, PartialEq, Eq, Structural)]
pub struct Transfer {
    /// The number of the source that holds the line.
    pub source: usize,
    /// The offset in the source at which the line starts.
    pub offset: u64,
    /// The number of the target that receives the line.
    pub target: usize,
    /// Whether this was the last offset of the source.
    pub exhausted: bool,
}

/// A source in the window, with the offsets that are still to be drawn.
pub struct SlotState {
    pub source: usize,
    pub offsets: Seq<u64>,
}

/// The state of a run.
pub struct EngineState {
    /// How many sources the run has.
    pub sources: nat,
    /// How many targets the run has.
    pub targets: nat,
    /// How many sources the window can hold.
    pub capacity: nat,
    /// How many sources have entered the window so far.
    pub admitted: nat,
    /// The window, oldest slot first.
    pub window: Seq<SlotState>,
    /// The index with which each admitted source entered the window.
    pub loaded: Seq<Seq<u64>>,
    /// The moves made so far, oldest first.
    pub moves: Seq<Transfer>,
}

/// The offsets drawn from `source` by `moves`, the latest first.
pub open spec fn drawn_from(moves: Seq<Transfer>, source: int) -> Seq<u64>
    decreases moves.len(),
{
    if moves.len() == 0 {
        Seq::empty()
    } else if moves.last().source == source {
        seq![moves.last().offset] + drawn_from(moves.drop_last(), source)
    } else {
        drawn_from(moves.drop_last(), source)
    }
}

/// The number of `moves` that took the last offset of their source.
pub open spec fn retired(moves: Seq<Transfer>) -> nat
    decreases moves.len(),
{
    if moves.len() == 0 {
        0
    } else if moves.last().exhausted {
        retired(moves.drop_last()) + 1
    } else {
        retired(moves.drop_last())
    }
}

/// Whether every one of `moves` keeps to a window of `capacity` sources:
/// with the sources entering in their order, each into the room that a
/// retired one leaves, a move draws from a source that has entered.
pub open spec fn keeps_window(moves: Seq<Transfer>, capacity: nat) -> bool {
    forall|k: int|
        0 <= k < moves.len() ==> (#[trigger] moves[k]).source < capacity + retired(
            moves.subrange(0, k),
        )
}

/// Whether `moves` mark as exhausted the moves that take the last offset of
/// their source, and no others, where `indexes` are the indexes of the
/// sources.
pub open spec fn marks_last(moves: Seq<Transfer>, indexes: Seq<Seq<u64>>) -> bool {
    forall|k: int|
        0 <= k < moves.len() ==> ((#[trigger] moves[k]).exhausted <==> drawn_from(
            moves.subrange(0, k + 1),
            moves[k].source as int,
        ).len() == indexes[moves[k].source as int].len())
}

/// Whether `source` has a slot in `window`.
pub open spec fn is_active(window: Seq<SlotState>, source: int) -> bool {
    exists|r: int| 0 <= r < window.len() && #[trigger] window[r].source == source
}

/// The number of offsets that the slots of `window` still hold.
pub open spec fn pending(window: Seq<SlotState>) -> nat
    decreases window.len(),
{
    if window.len() == 0 {
        0
    } else {
        pending(window.drop_last()) + window.last().offsets.len()
    }
}

impl EngineState {
    /// The state before anything has entered the window.
    pub open spec fn start(sources: nat, targets: nat, capacity: nat) -> EngineState {
        EngineState {
            sources,
            targets,
            capacity,
            admitted: 0,
            window: Seq::empty(),
            loaded: Seq::empty(),
            moves: Seq::empty(),
        }
    }

    /// What holds of every state that a run reaches.
    pub open spec fn wf(self) -> bool {
        &&& self.targets >= 1
        &&& self.capacity >= 1
        &&& self.admitted <= self.sources
        &&& self.loaded.len() == self.admitted
        // The window is never over its capacity, and holds admitted
        // sources only, none of them twice.
        &&& self.window.len() <= self.capacity
        &&& forall|r: int|
            0 <= r < self.window.len() ==> (#[trigger] self.window[r]).source < self.admitted
        &&& forall|r: int, s: int|
            0 <= r < s < self.window.len() ==> (#[trigger] self.window[r]).source != (
            #[trigger] self.window[s]).source
        // What a slot still holds, then what was drawn from its source, the
        // latest first, is the index with which the source came.
        &&& forall|r: int|
            0 <= r < self.window.len() ==> (#[trigger] self.window[r]).offsets + drawn_from(
                self.moves,
                self.window[r].source as int,
            ) == self.loaded[self.window[r].source as int]
        // A slot is empty only if its source came with an empty index.
        &&& forall|r: int|
            0 <= r < self.window.len() && (#[trigger] self.window[r]).offsets.len() == 0
                ==> self.loaded[self.window[r].source as int].len() == 0
        // A source that has left the window had an offset, and has given
        // them all.
        &&& forall|i: int|
            #![trigger self.loaded[i]]
            0 <= i < self.admitted && !is_active(self.window, i) ==> drawn_from(self.moves, i)
                == self.loaded[i] && self.loaded[i].len() > 0
        // Every move names an admitted source and a target of the run.
        &&& forall|k: int|
            0 <= k < self.moves.len() ==> (#[trigger] self.moves[k]).source < self.admitted
                && self.moves[k].target < self.targets
        // Every admitted source is in the window or retired.
        &&& self.window.len() + retired(self.moves) == self.admitted
        &&& keeps_window(self.moves, self.capacity)
        &&& marks_last(self.moves, self.loaded)
    }

    /// Whether the next source of the backlog can enter the window now.
    pub open spec fn wants_source(self) -> bool {
        self.window.len() < self.capacity && self.admitted < self.sources
    }

    /// Whether the run is over: nothing in the window, nothing in the backlog.
    pub open spec fn is_done(self) -> bool {
        self.window.len() == 0 && self.admitted == self.sources
    }

    /// The state after the next source of the backlog has entered the
    /// window with the index `offsets`.
    pub open spec fn enter(self, offsets: Seq<u64>) -> EngineState {
        EngineState {
            admitted: self.admitted + 1,
            window: self.window.push(SlotState { source: self.admitted as usize, offsets }),
            loaded: self.loaded.push(offsets),
            ..self
        }
    }

    /// Whether the slot `reader` of the window has an offset to give.
    pub open spec fn can_draw(self, reader: int) -> bool {
        0 <= reader < self.window.len() && self.window[reader].offsets.len() > 0
    }

    /// The move that is made when slot `reader` and `target` are picked:
    /// the last offset of the slot goes.
    pub open spec fn transfer(self, reader: int, target: int) -> Transfer {
        Transfer {
            source: self.window[reader].source,
            offset: self.window[reader].offsets.last(),
            target: target as usize,
            exhausted: self.window[reader].offsets.len() == 1,
        }
    }

    /// The state after that move: the slot has lost its last offset, and
    /// has left the window if that was its only one.
    pub open spec fn draw(self, reader: int, target: int) -> EngineState {
        let slot = self.window[reader];
        let rest = SlotState { source: slot.source, offsets: slot.offsets.drop_last() };
        EngineState {
            window: if slot.offsets.len() == 1 {
                self.window.remove(reader)
            } else {
                self.window.update(reader, rest)
            },
            moves: self.moves.push(self.transfer(reader, target)),
            ..self
        }
    }

    /// One step of the run: with slot `reader` and `target` picked, the
    /// state `self` gives `outcome` and goes to `next`. A slot without
    /// offsets gives an error and leaves the state as it is.
    pub open spec fn steps_to(
        self,
        reader: int,
        target: int,
        outcome: Result<Transfer, ShuffleError>,
        next: EngineState,
    ) -> bool {
        &&& 0 <= reader < self.window.len()
        &&& 0 <= target < self.targets
        &&& if self.can_draw(reader) {
            outcome == Ok::<Transfer, ShuffleError>(self.transfer(reader, target)) && next
                == self.draw(reader, target)
        } else {
            outcome == Err::<Transfer, ShuffleError>(
                ShuffleError::InvariantViolation { source: self.window[reader].source },
            ) && next == self
        }
    }
}

/// A move adds its offset to what was drawn from its source, and nothing
/// to what was drawn from the others.
pub proof fn lemma_drawn_from_push(moves: Seq<Transfer>, made: Transfer, source: int)
    ensures
        drawn_from(moves.push(made), source) == if made.source == source {
            seq![made.offset] + drawn_from(moves, source)
        } else {
            drawn_from(moves, source)
        },
{
    assert(moves.push(made).drop_last() =~= moves);
}

/// Nothing was drawn from a source that no move names.
pub proof fn lemma_drawn_from_absent(moves: Seq<Transfer>, source: int)
    requires
        forall|k: int| 0 <= k < moves.len() ==> (#[trigger] moves[k]).source != source,
    ensures
        drawn_from(moves, source) == Seq::<u64>::empty(),
    decreases moves.len(),
{
    if moves.len() > 0 {
        lemma_drawn_from_absent(moves.drop_last(), source);
    }
}

/// The start of a run is a state as `wf` describes.
pub proof fn lemma_start_wf(sources: nat, targets: nat, capacity: nat)
    requires
        targets >= 1,
        capacity >= 1,
    ensures
        EngineState::start(sources, targets, capacity).wf(),
        pending(EngineState::start(sources, targets, capacity).window) == 0,
{
}

/// Admitting a source keeps the state as `wf` describes, and adds the
/// offsets of the source to those pending.
pub proof fn lemma_enter_wf(state: EngineState, offsets: Seq<u64>)
    requires
        state.wf(),
        state.wants_source(),
        state.admitted < usize::MAX,
    ensures
        state.enter(offsets).wf(),
        pending(state.enter(offsets).window) == pending(state.window) + offsets.len(),
{
    let next = state.enter(offsets);
    let newcomer = state.admitted as int;
    assert(next.window.drop_last() =~= state.window);
    lemma_drawn_from_absent(state.moves, newcomer);
    assert forall|r: int| 0 <= r < next.window.len() implies (#[trigger] next.window[r]).offsets
        + drawn_from(next.moves, next.window[r].source as int)
        == next.loaded[next.window[r].source as int] by {
        if r < state.window.len() {
            assert(next.window[r] == state.window[r]);
        } else {
            assert(offsets + Seq::<u64>::empty() =~= offsets);
        }
    }
    assert forall|r: int, s: int| 0 <= r < s < next.window.len() implies (
    #[trigger] next.window[r]).source != (#[trigger] next.window[s]).source by {
        assert(next.window[r] == state.window[r]);
        if s < state.window.len() {
            assert(next.window[s] == state.window[s]);
        }
    }
    assert forall|r: int|
        0 <= r < next.window.len() && (#[trigger] next.window[r]).offsets.len() == 0 implies
        next.loaded[next.window[r].source as int].len() == 0 by {
        if r < state.window.len() {
            assert(next.window[r] == state.window[r]);
        }
    }
    assert forall|i: int|
        #![trigger next.loaded[i]]
        0 <= i < next.admitted && !is_active(next.window, i) implies drawn_from(next.moves, i)
            == next.loaded[i] && next.loaded[i].len() > 0 by {
        if i == newcomer {
            assert(next.window[state.window.len() as int].source == i);
        } else {
            if is_active(state.window, i) {
                let r = choose|r: int| 0 <= r < state.window.len() && state.window[r].source == i;
                assert(next.window[r].source == i);
            }
            assert(next.loaded[i] == state.loaded[i]);
        }
    }
    assert forall|r: int| 0 <= r < next.window.len() implies (#[trigger] next.window[r]).source
        < next.admitted by {
        if r < state.window.len() {
            assert(next.window[r] == state.window[r]);
        }
    }
    assert forall|k: int| 0 <= k < next.moves.len() implies ((#[trigger] next.moves[k]).exhausted
        <==> drawn_from(next.moves.subrange(0, k + 1), next.moves[k].source as int).len()
        == next.loaded[next.moves[k].source as int].len()) by {
        assert(state.moves[k].source < state.admitted);
        assert(next.loaded[state.moves[k].source as int] == state.loaded[state.moves[k].source as int]);
    }
}

/// A move that takes the last offset of its source is one more retired.
pub proof fn lemma_retired_push(moves: Seq<Transfer>, made: Transfer)
    ensures
        retired(moves.push(made)) == retired(moves) + if made.exhausted {
            1nat
        } else {
            0nat
        },
{
    assert(moves.push(made).drop_last() =~= moves);
}

/// Replacing a slot changes the pending offsets by the difference of the
/// two slots.
pub proof fn lemma_pending_update(window: Seq<SlotState>, reader: int, slot: SlotState)
    requires
        0 <= reader < window.len(),
    ensures
        pending(window.update(reader, slot)) == pending(window) - window[reader].offsets.len()
            + slot.offsets.len(),
    decreases window.len(),
{
    if reader == window.len() - 1 {
        assert(window.update(reader, slot).drop_last() =~= window.drop_last());
    } else {
        assert(window.update(reader, slot).drop_last() =~= window.drop_last().update(reader, slot));
        lemma_pending_update(window.drop_last(), reader, slot);
    }
}

/// Removing a slot takes its offsets from those pending.
pub proof fn lemma_pending_remove(window: Seq<SlotState>, reader: int)
    requires
        0 <= reader < window.len(),
    ensures
        pending(window.remove(reader)) == pending(window) - window[reader].offsets.len(),
    decreases window.len(),
{
    if reader == window.len() - 1 {
        assert(window.remove(reader) =~= window.drop_last());
    } else {
        assert(window.remove(reader).drop_last() =~= window.drop_last().remove(reader));
        assert(window.remove(reader).last() == window.last());
        lemma_pending_remove(window.drop_last(), reader);
    }
}

/// A move keeps the state as `wf` describes, and takes one offset from
/// those pending.
pub proof fn lemma_draw_wf(state: EngineState, reader: int, target: int)
    requires
        state.wf(),
        state.can_draw(reader),
        0 <= target < state.targets,
        state.targets <= usize::MAX,
    ensures
        state.draw(reader, target).wf(),
        pending(state.draw(reader, target).window) == pending(state.window) - 1,
{
    let next = state.draw(reader, target);
    let slot = state.window[reader];
    let source = slot.source as int;
    let made = state.transfer(reader, target);
    let rest = SlotState { source: slot.source, offsets: slot.offsets.drop_last() };
    assert forall|i: int| true implies #[trigger] drawn_from(next.moves, i) == if i == source {
        seq![made.offset] + drawn_from(state.moves, i)
    } else {
        drawn_from(state.moves, i)
    } by {
        lemma_drawn_from_push(state.moves, made, i);
    }
    assert(slot.offsets =~= slot.offsets.drop_last().push(made.offset));
    assert(slot.offsets.drop_last() + (seq![made.offset] + drawn_from(state.moves, source))
        =~= slot.offsets + drawn_from(state.moves, source));
    assert(state.window[reader].offsets + drawn_from(state.moves, source) == state.loaded[source]);
    if slot.offsets.len() == 1 {
        lemma_pending_remove(state.window, reader);
        assert forall|r: int| 0 <= r < next.window.len() implies #[trigger] next.window[r]
            == state.window[if r < reader { r } else { r + 1 }] && next.window[r].source
            != source by {
            let before = if r < reader { r } else { r + 1 };
            assert(next.window[r] == state.window[before]);
            assert(state.window[before].source != state.window[reader].source);
        }
        assert forall|i: int|
            #![trigger next.loaded[i]]
            0 <= i < next.admitted && !is_active(next.window, i) implies drawn_from(next.moves, i)
                == next.loaded[i] && next.loaded[i].len() > 0 by {
            if i == source {
                assert(seq![made.offset] + drawn_from(state.moves, source) =~= slot.offsets
                    + drawn_from(state.moves, source));
            } else {
                if is_active(state.window, i) {
                    let r = choose|r: int|
                        0 <= r < state.window.len() && state.window[r].source == i;
                    let after = if r < reader { r } else { r - 1 };
                    assert(next.window[after].source == i);
                }
            }
        }
        assert forall|r: int, s: int| 0 <= r < s < next.window.len() implies (
        #[trigger] next.window[r]).source != (#[trigger] next.window[s]).source by {
            let r0 = if r < reader { r } else { r + 1 };
            let s0 = if s < reader { s } else { s + 1 };
            assert(state.window[r0].source != state.window[s0].source);
        }
    } else {
        lemma_pending_update(state.window, reader, rest);
        assert forall|r: int| 0 <= r < next.window.len() implies (#[trigger] next.window[r]).source
            == state.window[r].source by {}
        assert forall|r: int| 0 <= r < next.window.len() implies (#[trigger] next.window[r]).offsets
            + drawn_from(next.moves, next.window[r].source as int)
            == next.loaded[next.window[r].source as int] by {
            if r != reader {
                assert(next.window[r] == state.window[r]);
                if r < reader {
                    assert(state.window[r].source != state.window[reader].source);
                } else {
                    assert(state.window[reader].source != state.window[r].source);
                }
            }
        }
        assert forall|r: int|
            0 <= r < next.window.len() && (#[trigger] next.window[r]).offsets.len() == 0 implies
            next.loaded[next.window[r].source as int].len() == 0 by {
            if r != reader {
                assert(next.window[r] == state.window[r]);
            }
        }
        assert forall|i: int|
            #![trigger next.loaded[i]]
            0 <= i < next.admitted && !is_active(next.window, i) implies drawn_from(next.moves, i)
                == next.loaded[i] && next.loaded[i].len() > 0 by {
            if is_active(state.window, i) {
                let r = choose|r: int| 0 <= r < state.window.len() && state.window[r].source == i;
                assert(next.window[r].source == i);
            }
            assert(state.window[reader].source == source);
        }
        assert forall|r: int, s: int| 0 <= r < s < next.window.len() implies (
        #[trigger] next.window[r]).source != (#[trigger] next.window[s]).source by {
            assert(state.window[r].source != state.window[s].source);
        }
    }
    assert forall|k: int| 0 <= k < next.moves.len() implies (#[trigger] next.moves[k]).source
        < next.admitted && next.moves[k].target < next.targets by {
        if k < state.moves.len() {
            assert(next.moves[k] == state.moves[k]);
        }
    }
    lemma_retired_push(state.moves, made);
    assert forall|k: int| 0 <= k < next.moves.len() implies (#[trigger] next.moves[k]).source
        < next.capacity + retired(next.moves.subrange(0, k)) by {
        if k < state.moves.len() {
            assert(next.moves[k] == state.moves[k]);
            assert(next.moves.subrange(0, k) =~= state.moves.subrange(0, k));
        } else {
            assert(next.moves.subrange(0, k) =~= state.moves);
        }
    }
    assert forall|k: int| 0 <= k < next.moves.len() implies ((#[trigger] next.moves[k]).exhausted
        <==> drawn_from(next.moves.subrange(0, k + 1), next.moves[k].source as int).len()
        == next.loaded[next.moves[k].source as int].len()) by {
        if k < state.moves.len() {
            assert(next.moves[k] == state.moves[k]);
            assert(next.moves.subrange(0, k + 1) =~= state.moves.subrange(0, k + 1));
        } else {
            assert(next.moves.subrange(0, k + 1) =~= next.moves);
            assert(drawn_from(next.moves, source) == seq![made.offset] + drawn_from(
                state.moves,
                source,
            ));
            assert((slot.offsets + drawn_from(state.moves, source)).len() == slot.offsets.len()
                + drawn_from(state.moves, source).len());
        }
    }
}

} // verus!
