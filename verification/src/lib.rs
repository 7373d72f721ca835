//! Shuffling the lines of large text files through per-file indexes of
//! line-start offsets.
//!
//! The library works on plain values: file contents are byte slices, an index
//! is a vector of offsets, and an index file is the byte string that stands
//! for such a vector. Reading and writing files is left to the caller, who
//! either holds the sources in memory and calls `shuffle::shuffle_files`, or
//! keeps them on disk and lets an `engine::ShuffleEngine` say which line to
//! copy next.
//!
//! - `offset`: the index of a source, and index files.
//! - `codec`: the record of one offset in an index file.
//! - `index`: scanning a source for its line starts.
//! - `line`: the line at an offset, and copying it.
//! - `state`: the run as a state machine over plain values.
//! - `engine`: the state machine at work, with its random choices.
//! - `random`: the calls into the rand crate.
//! - `shuffle`: a whole run in memory.
//! - `laws`: what holds of every index and of every run.
//! - `error`: how a run fails.

pub mod error;
pub mod codec;
pub mod index;
pub mod offset;
pub mod line;
pub mod random;
pub mod state;
pub mod engine;
pub mod shuffle;
pub mod laws;
