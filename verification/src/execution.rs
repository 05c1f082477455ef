//! The recorded history of one run: timed invocation records and the
//! three-part `Execution` value.

use vstd::prelude::*;

verus! {

/// A timestamp drawn from the shared monotone counter.
pub type Timestamp = usize;

/// The index of a worker thread in the parallel part.
pub type ThreadId = usize;

/// The index of an invocation in the parallel part.
pub type InvocationId = usize;

/// One completed operation of the init or post part, where operations
/// do not overlap and need no timestamps.
#[derive(Debug, Clone, Copy, PartialEq, Eq)]
pub struct Invocation<Op, Ret> {
    /// The operation that was executed.
    pub op: Op,
    /// The value it returned.
    pub ret: Ret,
}

/// One completed operation of the parallel part, with the interval
/// during which it was in flight.
#[derive(Debug, Clone, Copy, PartialEq, Eq)]
pub struct ParallelInvocation<Op, Ret> {
    /// The thread that executed the operation.
    pub thread_id: ThreadId,
    /// The counter value fetched just before the operation started.
    pub call_timestamp: Timestamp,
    /// The counter value fetched just after the operation returned.
    pub return_timestamp: Timestamp,
    /// The operation that was executed.
    pub op: Op,
    /// The value it returned.
    pub ret: Ret,
}

/// The history of a sequential phase: invocations in program order.
#[derive(Debug, Clone, PartialEq, Eq)]
pub struct History<Op, Ret> {
    /// The records, in program order.
    pub inner: Vec<Invocation<Op, Ret>>,
}

/// The history of the parallel phase: one record per completed
/// invocation, grouped by thread in the order the threads were merged.
#[derive(Debug, Clone, PartialEq, Eq)]
pub struct ParallelHistory<Op, Ret> {
    /// The records; each thread's records stand in program order.
    pub inner: Vec<ParallelInvocation<Op, Ret>>,
}

/// A completed, timestamped record of one run: the sequential init
/// part, the parallel part, and the sequential post part.
#[derive(Debug, Clone, PartialEq, Eq)]
pub struct Execution<Op, Ret> {
    /// Operations executed sequentially before the parallel part.
    pub init_part: History<Op, Ret>,
    /// Operations executed concurrently by the worker threads.
    pub parallel_part: ParallelHistory<Op, Ret>,
    /// Operations executed sequentially after the parallel part.
    pub post_part: History<Op, Ret>,
}

impl<Op, Ret> History<Op, Ret> {
    /// Creates an empty history.
    pub fn new() -> (h: Self)
        ensures
            h.inner@ == Seq::<Invocation<Op, Ret>>::empty(),
    {
        History { inner: Vec::new() }
    }

    /// Creates an empty history with preallocated space.
    pub fn with_capacity(cap: usize) -> (h: Self)
        ensures
            h.inner@ == Seq::<Invocation<Op, Ret>>::empty(),
    {
        History { inner: Vec::with_capacity(cap) }
    }

    /// Appends one record.
    pub fn push(&mut self, inv: Invocation<Op, Ret>)
        ensures
            final(self).inner@ == old(self).inner@.push(inv),
    {
        self.inner.push(inv);
    }

    /// Returns the records as a plain vector.
    pub fn into_inner(self) -> (v: Vec<Invocation<Op, Ret>>)
        ensures
            v == self.inner,
    {
        self.inner
    }
}

impl<Op, Ret> ParallelHistory<Op, Ret> {
    /// Creates an empty history.
    pub fn new() -> (h: Self)
        ensures
            h.inner@ == Seq::<ParallelInvocation<Op, Ret>>::empty(),
    {
        ParallelHistory { inner: Vec::new() }
    }

    /// Creates an empty history with preallocated space.
    pub fn with_capacity(cap: usize) -> (h: Self)
        ensures
            h.inner@ == Seq::<ParallelInvocation<Op, Ret>>::empty(),
    {
        ParallelHistory { inner: Vec::with_capacity(cap) }
    }

    /// Appends one record.
    pub fn push(&mut self, inv: ParallelInvocation<Op, Ret>)
        ensures
            final(self).inner@ == old(self).inner@.push(inv),
    {
        self.inner.push(inv);
    }

    /// Appends every record of `other`, in order.
    pub fn extend(&mut self, other: ParallelHistory<Op, Ret>)
        ensures
            final(self).inner@ == old(self).inner@ + other.inner@,
    {
        let mut v = other.inner;
        self.inner.append(&mut v);
    }

    /// Returns the records as a plain vector.
    pub fn into_inner(self) -> (v: Vec<ParallelInvocation<Op, Ret>>)
        ensures
            v == self.inner,
    {
        self.inner
    }
}

/// The records of thread `t`, in the order they stand in `h`.
pub open spec fn thread_records<Op, Ret>(
    h: Seq<ParallelInvocation<Op, Ret>>,
    t: int,
) -> Seq<ParallelInvocation<Op, Ret>> {
    h.filter(|inv: ParallelInvocation<Op, Ret>| inv.thread_id == t)
}

impl<Op, Ret> ParallelHistory<Op, Ret> {
    /// Partitions the records by thread id, preserving each thread's
    /// order: entry `t` of the result lists exactly the records of
    /// thread `t`, in the order they stand in this history.
    pub fn get_thread_parts<'a>(&'a self) -> (thread_parts: Vec<
        Vec<&'a ParallelInvocation<Op, Ret>>,
    >)
        requires
            forall|k: int| 0 <= k < self.inner@.len()
                ==> (#[trigger] self.inner@[k]).thread_id < usize::MAX,
        ensures
            forall|k: int| 0 <= k < self.inner@.len()
                ==> (#[trigger] self.inner@[k]).thread_id < thread_parts@.len(),
            thread_parts@.len() > 0 ==> exists|k: int|
                0 <= k < self.inner@.len()
                    && (#[trigger] self.inner@[k]).thread_id == thread_parts@.len() - 1,
            forall|t: int| 0 <= t < thread_parts@.len()
                ==> (#[trigger] thread_parts@[t])@.map_values(
                    |x: &ParallelInvocation<Op, Ret>| *x,
                ) == thread_records(self.inner@, t),
    {
        let n = self.inner.len();
        let mut num_threads: usize = 0;
        let mut k: usize = 0;
        while k < n
            invariant
                0 <= k <= n,
                n == self.inner@.len(),
                forall|j: int| 0 <= j < k
                    ==> (#[trigger] self.inner@[j]).thread_id < num_threads,
                num_threads > 0 ==> exists|j: int|
                    0 <= j < k && (#[trigger] self.inner@[j]).thread_id == num_threads - 1,
                forall|j: int| 0 <= j < n
                    ==> (#[trigger] self.inner@[j]).thread_id < usize::MAX,
            decreases n - k,
        {
            if self.inner[k].thread_id >= num_threads {
                num_threads = self.inner[k].thread_id + 1;
            }
            k = k + 1;
        }
        let mut thread_parts: Vec<Vec<&'a ParallelInvocation<Op, Ret>>> = Vec::new();
        let mut t: usize = 0;
        while t < num_threads
            invariant
                0 <= t <= num_threads,
                n == self.inner@.len(),
                thread_parts@.len() == t,
                forall|j: int| 0 <= j < n
                    ==> (#[trigger] self.inner@[j]).thread_id < num_threads,
                num_threads > 0 ==> exists|j: int|
                    0 <= j < n && (#[trigger] self.inner@[j]).thread_id == num_threads - 1,
                forall|u: int| 0 <= u < t
                    ==> (#[trigger] thread_parts@[u])@.map_values(
                        |x: &ParallelInvocation<Op, Ret>| *x,
                    ) == thread_records(self.inner@, u),
            decreases num_threads - t,
        {
            let ghost pred = |inv: ParallelInvocation<Op, Ret>| inv.thread_id == t as int;
            let mut column: Vec<&'a ParallelInvocation<Op, Ret>> = Vec::new();
            let mut i: usize = 0;
            proof {
                reveal(Seq::filter);
                assert(self.inner@.take(0) =~= Seq::<ParallelInvocation<Op, Ret>>::empty());
                assert(self.inner@.take(0).filter(pred)
                    == Seq::<ParallelInvocation<Op, Ret>>::empty());
                assert(column@.map_values(|x: &ParallelInvocation<Op, Ret>| *x)
                    =~= Seq::<ParallelInvocation<Op, Ret>>::empty());
            }
            while i < n
                invariant
                    0 <= i <= n,
                    n == self.inner@.len(),
                    pred == (|inv: ParallelInvocation<Op, Ret>| inv.thread_id == t as int),
                    column@.map_values(|x: &ParallelInvocation<Op, Ret>| *x)
                        == self.inner@.take(i as int).filter(pred),
                decreases n - i,
            {
                proof {
                    reveal(Seq::filter);
                    assert(self.inner@.take(i + 1).drop_last() =~= self.inner@.take(i as int));
                    assert(self.inner@.take(i + 1).last() == self.inner@[i as int]);
                }
                if self.inner[i].thread_id == t {
                    column.push(&self.inner[i]);
                    proof {
                        assert(column@.map_values(|x: &ParallelInvocation<Op, Ret>| *x)
                            =~= self.inner@.take(i as int).filter(pred).push(
                            self.inner@[i as int],
                        ));
                    }
                }
                i = i + 1;
            }
            proof {
                assert(self.inner@.take(n as int) =~= self.inner@);
            }
            thread_parts.push(column);
            t = t + 1;
        }
        thread_parts
    }
}

} // verus!
