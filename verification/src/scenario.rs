//! A scenario: the plan of which operations to run in which order.

use vstd::prelude::*;

verus! {

/// A scenario tells which operations to run in which order. It
/// consists of three parts: the init part is executed sequentially
/// before the parallel part, each vector of the parallel part is
/// executed in a separate thread, and the post part is executed
/// sequentially after all threads have finished.
#[derive(Debug, Clone, PartialEq, Eq)]
pub struct Scenario<Op> {
    /// The operations executed sequentially before the parallel part.
    pub init_part: Vec<Op>,

    /// The operations executed concurrently; each vector runs in its
    /// own thread.
    pub parallel_part: Vec<Vec<Op>>,

    /// The operations executed sequentially after the parallel part.
    pub post_part: Vec<Op>,
}

} // verus!
