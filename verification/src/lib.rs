//! An incremental mark-and-sweep collector with four colours, for a heap of
//! cells of one payload type.
//!
//! A [`context::GcContext`] owns the cells in an arena. A slot of the arena
//! is numbered by the allocation that filled it and is never filled again,
//! so a handle cannot come to name another cell than the one it was made
//! for: once that cell is destroyed the handle names an empty slot. Cells
//! are threaded on a list, youngest first, and a collection cycle marks from
//! the gray queue and then sweeps that list. Allocation pays for the cycle a
//! few units of work at a time; [`context::GcContext::collect_garbage`] runs
//! a whole cycle at once.
//!
//! Payloads implement [`tracer::GcObject`] to report the handles they hold.
//! A cell is kept by a cycle if marking reaches it from a rooted cell in the
//! gray queue. A payload that comes to hold a new handle while the collector
//! propagates must have the write barrier triggered on its cell. A payload
//! may refuse to be traced a number of times: a step of collection gives up
//! on a queue in which every cell refuses, a whole cycle tries again until
//! each has been traced.
//!
//! The contracts speak of a collector through its state as plain values,
//! [`state::GcState`], on which every operation is a function:
//!
//! - [`state`] holds the state and the transitions,
//! - [`wellformed`] the invariant and the proof that each transition keeps it,
//! - [`marking`], [`reach`] and [`cycle`] what a run of the collector keeps
//!   and frees,
//! - [`run`] the run as a function of what the traced payloads report,
//! - [`progress`] the measure by which a run comes to its end,
//! - [`laws`] what follows for whole cycles,
//!
//! and [`context`], [`allocate`], [`collect`] and [`detached`] hold the
//! executable operations.

pub mod allocate;
pub mod cell;
pub mod collect;
pub mod context;
pub mod cycle;
pub mod detached;
pub mod flags;
pub mod handle;
pub mod laws;
pub mod marking;
pub mod params;
pub mod progress;
pub mod reach;
pub mod root_count;
pub mod run;
pub mod state;
pub mod tracer;
pub mod wellformed;
