//! Linearizability testing for concurrent data structures.
//!
//! A concurrent history is recorded as an [`Execution`]: a sequential
//! init part, a parallel part of timestamped invocations, and a
//! sequential post part. The checker searches for a total order of the
//! parallel invocations that respects real-time happens-before order
//! and replays to the recorded return values against a sequential
//! reference implementation.

pub mod checker;
pub mod execution;
pub mod fmt;
pub mod recorder;
pub mod scenario;
pub mod specs;

pub use execution::Execution;
pub use specs::{ConcOp, ConcRet, ConcurrentSpec, SequentialSpec};
