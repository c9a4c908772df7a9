//! The decision core of an optimistic consensus compiler.
//!
//! A fast path (Jolteon) and a robust path (VABA) run side by side. The
//! compiler keeps one chain of blocks for each, watches whether the fast path
//! certifies in time what the robust path has already ordered, and switches to
//! a recovery mode, and back, accordingly.
//!
//! The core performs no I/O. Every entry point takes one input, updates the
//! state and returns the actions to be performed, in order.
//!
//! * [`types`]: the data that the core reads and hands out;
//! * [`certificate`]: the encoding of recovery certificates;
//! * [`model`]: the mathematical model of the state and of each transition;
//! * [`optimistic_compiler`]: the executable state machine;
//! * [`agenda`]: the order in which actions are performed;
//! * [`meaning`]: what each operation does, in terms of the data alone;
//! * [`laws`]: what holds of every run;
//! * [`call_laws`]: what holds of the single operations, in any state;
//! * [`benchmark`]: the log entries from which performance is computed.

pub mod agenda;
pub mod benchmark;
pub mod call_laws;
pub mod certificate;
pub mod laws;
pub mod meaning;
pub mod model;
pub mod optimistic_compiler;
pub mod types;
