//! The engine of a run: it keeps the window, picks at random what moves
//! next, and tells its caller which line to copy. Opening sources, loading
//! their indexes and copying the lines are the caller's part.

use vstd::prelude::*;
use rand::rngs::StdRng;
use crate::offset::Offsets;
use crate::error::ShuffleError;
use crate::random::{pick_below, seeded};
use crate::state::{lemma_draw_wf, lemma_enter_wf, lemma_start_wf, pending, EngineState, SlotState, Transfer};

verus! {

/// A source in the window: its number, and what is left of its index.
pub struct ReaderSlot {
    source: usize,
    offsets: Vec<u64>,
}

impl View for ReaderSlot {
    type V = SlotState;

    closed spec fn view(&self) -> SlotState {
        SlotState { source: self.source, offsets: self.offsets@ }
    }
}

/// The engine of one run.
pub struct ShuffleEngine {
    sources: usize,
    targets: usize,
    capacity: usize,
    admitted: usize,
    readers: Vec<ReaderSlot>,
    rng: StdRng,
    loaded: Ghost<Seq<Seq<u64>>>,
    moves: Ghost<Seq<Transfer>>,
}

impl View for ShuffleEngine {
    type V = EngineState;

    closed spec fn view(&self) -> EngineState {
        EngineState {
            sources: self.sources as nat,
            targets: self.targets as nat,
            capacity: self.capacity as nat,
            admitted: self.admitted as nat,
            window: Seq::new(self.readers@.len(), |r: int| self.readers@[r]@),
            loaded: self.loaded@,
            moves: self.moves@,
        }
    }
}

impl ShuffleEngine {
    /// An engine for `sources` sources and `targets` targets, with a window
    /// of `capacity` slots and a generator seeded with `seed`. The window
    /// is empty and every source waits in the backlog.
    pub fn new(sources: usize, targets: usize, capacity: usize, seed: u64) -> (engine:
        ShuffleEngine)
        requires
            targets >= 1,
            capacity >= 1,
        ensures
            engine@ == EngineState::start(sources as nat, targets as nat, capacity as nat),
            engine@.wf(),
    {
        let engine = ShuffleEngine {
            sources,
            targets,
            capacity,
            admitted: 0,
            readers: Vec::new(),
            rng: seeded(seed),
            loaded: Ghost(Seq::empty()),
            moves: Ghost(Seq::empty()),
        };
        proof {
            lemma_start_wf(sources as nat, targets as nat, capacity as nat);
            assert(engine@.window =~= Seq::<SlotState>::empty());
        }
        engine
    }

    /// The number of the source that should enter the window now, if the
    /// window has room and the backlog is not used up.
    pub fn next_source(&self) -> (next: Option<usize>)
        ensures
            next matches Some(number) ==> self@.wants_source() && number == self@.admitted,
            next is None ==> !self@.wants_source(),
    {
        if self.readers.len() < self.capacity && self.admitted < self.sources {
            Some(self.admitted)
        } else {
            None
        }
    }

    /// How many sources are in the window.
    pub fn active(&self) -> (count: usize)
        ensures
            count == self@.window.len(),
    {
        self.readers.len()
    }

    /// Whether the run is over.
    pub fn is_done(&self) -> (done: bool)
        ensures
            done == self@.is_done(),
    {
        self.readers.len() == 0 && self.admitted == self.sources
    }

    /// Lets the next source of the backlog into the window, with the index
    /// that was loaded for it.
    pub fn enter(&mut self, offsets: Offsets)
        requires
            old(self)@.wf(),
            old(self)@.wants_source(),
        ensures
            final(self)@ == old(self)@.enter(offsets@),
            final(self)@.wf(),
            pending(final(self)@.window) == pending(old(self)@.window) + offsets@.len(),
    {
        proof {
            lemma_enter_wf(self@, offsets@);
            self.loaded = Ghost(self.loaded@.push(offsets@));
        }
        self.readers.push(ReaderSlot { source: self.admitted, offsets });
        self.admitted = self.admitted + 1;
        assert(self@.window =~= old(self)@.enter(offsets@).window);
    }

    /// Makes the move for slot `reader` of the window and `target`: takes
    /// the last offset of the slot, and retires the slot if it was the only
    /// one. A slot without offsets gives an error.
    pub fn advance(&mut self, reader: usize, target: usize) -> (outcome: Result<
        Transfer,
        ShuffleError,
    >)
        requires
            old(self)@.wf(),
            reader < old(self)@.window.len(),
            target < old(self)@.targets,
        ensures
            old(self)@.steps_to(reader as int, target as int, outcome, final(self)@),
            final(self)@.wf(),
            outcome is Ok ==> pending(final(self)@.window) == pending(old(self)@.window) - 1,
    {
        let source: usize = self.readers[reader].source;
        let left: usize = self.readers[reader].offsets.len();
        if left == 0 {
            return Err(ShuffleError::InvariantViolation { source });
        }
        proof {
            lemma_draw_wf(self@, reader as int, target as int);
        }
        let ghost made = self@.transfer(reader as int, target as int);
        let ghost next = self@.draw(reader as int, target as int);
        let exhausted: bool = left == 1;
        let offset: u64 = if exhausted {
            let slot = self.readers.remove(reader);
            slot.offsets[0]
        } else {
            let last: u64 = self.readers[reader].offsets[left - 1];
            self.readers[reader].offsets.pop();
            last
        };
        proof {
            self.moves = Ghost(self.moves@.push(made));
        }
        assert(self@.window =~= next.window);
        Ok(Transfer { source, offset, target, exhausted })
    }

    /// Picks a slot of the window and a target at random and makes that
    /// move.
    pub fn step(&mut self) -> (outcome: Result<Transfer, ShuffleError>)
        requires
            old(self)@.wf(),
            old(self)@.window.len() > 0,
        ensures
            exists|reader: int, target: int| #[trigger]
                old(self)@.steps_to(reader, target, outcome, final(self)@),
            final(self)@.wf(),
            outcome is Ok ==> pending(final(self)@.window) == pending(old(self)@.window) - 1,
    {
        let reader: usize = pick_below(&mut self.rng, self.readers.len());
        let target: usize = pick_below(&mut self.rng, self.targets);
        self.advance(reader, target)
    }
}

} // verus!
