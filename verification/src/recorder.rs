//! Recorders that build up an [`Execution`] while a scenario runs.
//!
//! The recorder is a type-level state machine with three phases:
//! [`InitPartRecorder`], [`ParallelPartRecorder`] (split into one
//! [`PerThreadRecorder`] per worker thread) and [`PostPartRecorder`].
//! Each transition consumes the previous phase, so recording an
//! operation into a phase that has been left is prevented at compile
//! time.
//!
//! Timestamps for the parallel phase are drawn from one shared atomic
//! counter: a per-thread recorder fetches-and-increments it once just
//! before an operation starts and once just after it returns. Nothing
//! is assumed here about the values the counter hands out — the
//! records hold whatever was fetched — but when the fetched values are
//! strictly increasing, [`lemma_thread_history_wf_push`] shows the
//! per-thread history keeps its interval invariant.

use std::sync::atomic::AtomicUsize;
use std::sync::atomic::Ordering;
use std::sync::Arc;

use vstd::prelude::*;

use crate::execution::Execution;
use crate::execution::History;
use crate::execution::Invocation;
use crate::execution::ParallelHistory;
use crate::execution::ParallelInvocation;
use crate::execution::ThreadId;
use crate::execution::Timestamp;

verus! {

/// A trait for each phase of the recorder.
pub trait Recorder: Sized {
    /// The type of the operations that are executed on the data
    /// structure.
    type Op;

    /// The type of the return values of the operations.
    type Ret;

    /// The operations recorded so far in this phase, with the values
    /// they returned, in recording order.
    spec fn recorded(&self) -> Seq<(Self::Op, Self::Ret)>;

    /// Records one operation execution: runs `f` to obtain the return
    /// value and appends the pair to this phase's history. The value
    /// stays in the history rather than being handed back: `Ret` is
    /// only required to be comparable, not cloneable.
    fn record<F: FnOnce() -> Self::Ret>(&mut self, op: Self::Op, f: F)
        requires
            call_requires(f, ()),
        ensures
            exists|r: Self::Ret|
                #[trigger] call_ensures(f, (), r)
                    && final(self).recorded() == old(self).recorded().push((op, r)),
    ;
}

/// The buffer one worker thread fills: completed records plus the
/// operation currently in flight.
pub struct InternalRecorder<Op, Ret> {
    /// The thread whose operations this buffer holds.
    pub thread_id: ThreadId,
    /// The completed records, in program order.
    pub invocations: ParallelHistory<Op, Ret>,
    /// The operation whose call has been recorded but whose return has
    /// not.
    pub current_op: Option<Op>,
    /// The timestamp fetched when `current_op` was called.
    pub call_timestamp: Timestamp,
}

impl<Op, Ret> InternalRecorder<Op, Ret> {
    /// Creates an empty buffer for the given thread.
    pub fn new(thread_id: ThreadId) -> (r: Self)
        ensures
            r.thread_id == thread_id,
            r.invocations.inner@ == Seq::<ParallelInvocation<Op, Ret>>::empty(),
            r.current_op is None,
    {
        InternalRecorder {
            thread_id,
            invocations: ParallelHistory::new(),
            current_op: None,
            call_timestamp: 0,
        }
    }

    /// Same as [`new`](InternalRecorder::new) but preallocates space
    /// for the records.
    pub fn with_capacity(thread_id: ThreadId, capacity: usize) -> (r: Self)
        ensures
            r.thread_id == thread_id,
            r.invocations.inner@ == Seq::<ParallelInvocation<Op, Ret>>::empty(),
            r.current_op is None,
    {
        InternalRecorder {
            thread_id,
            invocations: ParallelHistory::with_capacity(capacity),
            current_op: None,
            call_timestamp: 0,
        }
    }

    /// Notes that an operation was called at the given timestamp.
    pub fn add_call(&mut self, op: Op, timestamp: Timestamp)
        requires
            old(self).current_op is None,
        ensures
            final(self).thread_id == old(self).thread_id,
            final(self).invocations == old(self).invocations,
            final(self).current_op == Some(op),
            final(self).call_timestamp == timestamp,
    {
        self.call_timestamp = timestamp;
        self.current_op = Some(op);
    }

    /// Notes that the operation recorded by
    /// [`add_call`](InternalRecorder::add_call) returned `ret` at the
    /// given timestamp, completing one record.
    pub fn add_return(&mut self, ret: Ret, timestamp: Timestamp)
        requires
            old(self).current_op is Some,
        ensures
            final(self).thread_id == old(self).thread_id,
            final(self).current_op is None,
            final(self).invocations.inner@ == old(self).invocations.inner@.push(
                (ParallelInvocation {
                    thread_id: old(self).thread_id,
                    call_timestamp: old(self).call_timestamp,
                    return_timestamp: timestamp,
                    op: old(self).current_op->Some_0,
                    ret,
                }),
            ),
    {
        let op = self.current_op.take().unwrap();
        self.invocations.push(
            ParallelInvocation {
                thread_id: self.thread_id,
                call_timestamp: self.call_timestamp,
                return_timestamp: timestamp,
                op,
                ret,
            },
        );
    }

    /// Returns the completed records.
    pub fn history(self) -> (h: ParallelHistory<Op, Ret>)
        ensures
            h == self.invocations,
    {
        self.invocations
    }
}

/// The interval invariant of one thread's history: every call strictly
/// precedes its return, and every return strictly precedes the next
/// call of the same thread.
pub open spec fn thread_history_wf<Op, Ret>(h: Seq<ParallelInvocation<Op, Ret>>) -> bool {
    &&& (forall|k: int| 0 <= k < h.len()
        ==> (#[trigger] h[k]).call_timestamp < h[k].return_timestamp)
    &&& (forall|k: int| 0 <= k && k + 1 < h.len()
        ==> (#[trigger] h[k]).return_timestamp < h[k + 1].call_timestamp)
}

/// When every thread's records satisfy the interval invariant, every
/// record of the merged history has a well-formed interval — the
/// hypothesis under which happens-before is a strict partial order.
pub proof fn lemma_threads_wf_intervals_wf<Op, Ret>(p: Seq<ParallelInvocation<Op, Ret>>)
    requires
        forall|t: int|
            thread_history_wf(#[trigger] crate::execution::thread_records(p, t)),
    ensures
        crate::checker::intervals_wf(p),
{
    assert forall|k: int| 0 <= k < p.len()
        implies (#[trigger] p[k]).call_timestamp < p[k].return_timestamp by {
        let t = p[k].thread_id as int;
        let pred = |inv: ParallelInvocation<Op, Ret>| inv.thread_id == t;
        p.filter_lemma(pred);
        assert(p.filter(pred).contains(p[k]));
        assert(crate::execution::thread_records(p, t) == p.filter(pred));
        let j = choose|j: int| 0 <= j < p.filter(pred).len() && p.filter(pred)[j] == p[k];
        assert(thread_history_wf(crate::execution::thread_records(p, t)));
        assert(p.filter(pred)[j].call_timestamp < p.filter(pred)[j].return_timestamp);
    }
}

/// Monotone timestamps keep a thread's history well formed: appending
/// a record whose call timestamp exceeds every earlier timestamp and
/// whose return timestamp exceeds its call timestamp preserves the
/// interval invariant.
pub proof fn lemma_thread_history_wf_push<Op, Ret>(
    h: Seq<ParallelInvocation<Op, Ret>>,
    inv: ParallelInvocation<Op, Ret>,
)
    requires
        thread_history_wf(h),
        inv.call_timestamp < inv.return_timestamp,
        h.len() > 0 ==> h.last().return_timestamp < inv.call_timestamp,
    ensures
        thread_history_wf(h.push(inv)),
{
    let h2 = h.push(inv);
    assert forall|k: int| 0 <= k && k + 1 < h2.len()
        implies (#[trigger] h2[k]).return_timestamp < h2[k + 1].call_timestamp by {
        if k + 1 < h.len() {
            assert(h2[k] == h[k]);
            assert(h2[k + 1] == h[k + 1]);
        } else {
            assert(h2[k] == h.last());
            assert(h2[k + 1] == inv);
        }
    }
}

/// Creates a recorder for the initial part of the execution.
pub fn record_init_part<Op, Ret>() -> (r: InitPartRecorder<Op, Ret>)
    ensures
        r.init_part.inner@ == Seq::<Invocation<Op, Ret>>::empty(),
{
    InitPartRecorder { init_part: History::new() }
}

/// Same as [`record_init_part`] but preallocates space for the
/// records.
pub fn record_init_part_with_capacity<Op, Ret>(init_part_capacity: usize) -> (r: InitPartRecorder<
    Op,
    Ret,
>)
    ensures
        r.init_part.inner@ == Seq::<Invocation<Op, Ret>>::empty(),
{
    InitPartRecorder { init_part: History::with_capacity(init_part_capacity) }
}

/// Creates a recorder for the parallel part of the execution.
pub fn record_parallel_part<Op, Ret>() -> (r: ParallelPartRecorder<Op, Ret>)
    ensures
        r.init_part.inner@ == Seq::<Invocation<Op, Ret>>::empty(),
        r.parallel_part.inner@ == Seq::<ParallelInvocation<Op, Ret>>::empty(),
        r.next_thread_id == 0,
{
    ParallelPartRecorder::new(History::new())
}

/// Same as [`record_parallel_part`] but preallocates space for the
/// records.
pub fn record_parallel_part_with_capacity<Op, Ret>(
    parallel_part_capacity: usize,
) -> (r: ParallelPartRecorder<Op, Ret>)
    ensures
        r.init_part.inner@ == Seq::<Invocation<Op, Ret>>::empty(),
        r.parallel_part.inner@ == Seq::<ParallelInvocation<Op, Ret>>::empty(),
        r.next_thread_id == 0,
{
    ParallelPartRecorder::with_capacity(History::new(), parallel_part_capacity)
}

/// Creates a recorder for the post part of the execution.
pub fn record_post_part<Op, Ret>() -> (r: PostPartRecorder<Op, Ret>)
    ensures
        r.init_part.inner@ == Seq::<Invocation<Op, Ret>>::empty(),
        r.parallel_part.inner@ == Seq::<ParallelInvocation<Op, Ret>>::empty(),
        r.post_part.inner@ == Seq::<Invocation<Op, Ret>>::empty(),
{
    PostPartRecorder {
        init_part: History::new(),
        parallel_part: ParallelHistory::new(),
        post_part: History::new(),
    }
}

/// Same as [`record_post_part`] but preallocates space for the
/// records.
pub fn record_post_part_with_capacity<Op, Ret>(post_part_capacity: usize) -> (r: PostPartRecorder<
    Op,
    Ret,
>)
    ensures
        r.init_part.inner@ == Seq::<Invocation<Op, Ret>>::empty(),
        r.parallel_part.inner@ == Seq::<ParallelInvocation<Op, Ret>>::empty(),
        r.post_part.inner@ == Seq::<Invocation<Op, Ret>>::empty(),
{
    PostPartRecorder {
        init_part: History::new(),
        parallel_part: ParallelHistory::new(),
        post_part: History::with_capacity(post_part_capacity),
    }
}

/// A recorder for the initial part of the execution.
pub struct InitPartRecorder<Op, Ret> {
    /// The init records collected so far.
    pub init_part: History<Op, Ret>,
}

impl<Op, Ret> Recorder for InitPartRecorder<Op, Ret> {
    type Op = Op;

    type Ret = Ret;

    open spec fn recorded(&self) -> Seq<(Op, Ret)> {
        self.init_part.inner@.map_values(|inv: Invocation<Op, Ret>| (inv.op, inv.ret))
    }

    fn record<F: FnOnce() -> Ret>(&mut self, op: Op, f: F)
        ensures
            exists|r: Ret|
                #[trigger] call_ensures(f, (), r)
                    && final(self).init_part.inner@ == old(self).init_part.inner@.push(
                        (Invocation { op, ret: r }),
                    ),
    {
        let ghost op0 = op;
        let ret = f();
        proof {
            assert(old(self).init_part.inner@.push((Invocation { op: op0, ret }))
                .map_values(|inv: Invocation<Op, Ret>| (inv.op, inv.ret))
                =~= old(self).recorded().push((op0, ret)));
        }
        self.init_part.push(Invocation { op, ret });
    }
}

impl<Op, Ret> InitPartRecorder<Op, Ret> {
    /// Switches to the parallel part of the execution.
    pub fn record_parallel_part(self) -> (r: ParallelPartRecorder<Op, Ret>)
        ensures
            r.init_part == self.init_part,
            r.parallel_part.inner@ == Seq::<ParallelInvocation<Op, Ret>>::empty(),
            r.next_thread_id == 0,
    {
        ParallelPartRecorder::new(self.init_part)
    }

    /// Switches to the post part of the execution.
    pub fn record_post_part(self) -> (r: PostPartRecorder<Op, Ret>)
        ensures
            r.init_part == self.init_part,
            r.parallel_part.inner@ == Seq::<ParallelInvocation<Op, Ret>>::empty(),
            r.post_part.inner@ == Seq::<Invocation<Op, Ret>>::empty(),
    {
        PostPartRecorder {
            init_part: self.init_part,
            parallel_part: ParallelHistory::new(),
            post_part: History::new(),
        }
    }

    /// Same as
    /// [`record_parallel_part`](InitPartRecorder::record_parallel_part)
    /// but preallocates space for the records.
    pub fn record_parallel_part_with_capacity(self, parallel_part_capacity: usize) -> (r:
        ParallelPartRecorder<Op, Ret>)
        ensures
            r.init_part == self.init_part,
            r.parallel_part.inner@ == Seq::<ParallelInvocation<Op, Ret>>::empty(),
            r.next_thread_id == 0,
    {
        ParallelPartRecorder::with_capacity(self.init_part, parallel_part_capacity)
    }

    /// Same as [`record_post_part`](InitPartRecorder::record_post_part)
    /// but preallocates space for the records.
    pub fn record_post_part_with_capacity(self, post_part_capacity: usize) -> (r: PostPartRecorder<
        Op,
        Ret,
    >)
        ensures
            r.init_part == self.init_part,
            r.parallel_part.inner@ == Seq::<ParallelInvocation<Op, Ret>>::empty(),
            r.post_part.inner@ == Seq::<Invocation<Op, Ret>>::empty(),
    {
        PostPartRecorder {
            init_part: self.init_part,
            parallel_part: ParallelHistory::new(),
            post_part: History::with_capacity(post_part_capacity),
        }
    }

    /// Finishes recording and returns the execution trace.
    pub fn finish(self) -> (execution: Execution<Op, Ret>)
        ensures
            execution.init_part == self.init_part,
            execution.parallel_part.inner@ == Seq::<ParallelInvocation<Op, Ret>>::empty(),
            execution.post_part.inner@ == Seq::<Invocation<Op, Ret>>::empty(),
    {
        Execution {
            init_part: self.init_part,
            parallel_part: ParallelHistory::new(),
            post_part: History::new(),
        }
    }
}

/// A recorder for the parallel part of the execution.
///
/// The owner hands out one [`PerThreadRecorder`] per worker thread;
/// each worker records into its own buffer while sharing only the
/// atomic timestamp counter. When a worker is done, its buffer is
/// merged back with [`merge_thread`](ParallelPartRecorder::merge_thread).
pub struct ParallelPartRecorder<Op, Ret> {
    /// The init records carried over from the previous phase.
    pub init_part: History<Op, Ret>,
    /// The merged records of the finished worker threads.
    pub parallel_part: ParallelHistory<Op, Ret>,
    /// The id the next spawned thread recorder receives.
    pub next_thread_id: ThreadId,
    /// The shared monotone timestamp counter.
    pub timer: Arc<AtomicUsize>,
}

impl<Op, Ret> ParallelPartRecorder<Op, Ret> {
    fn new(init_part: History<Op, Ret>) -> (r: Self)
        ensures
            r.init_part == init_part,
            r.parallel_part.inner@ == Seq::<ParallelInvocation<Op, Ret>>::empty(),
            r.next_thread_id == 0,
    {
        ParallelPartRecorder {
            init_part,
            parallel_part: ParallelHistory::new(),
            next_thread_id: 0,
            timer: Arc::new(AtomicUsize::new(0)),
        }
    }

    fn with_capacity(init_part: History<Op, Ret>, parallel_part_capacity: usize) -> (r: Self)
        ensures
            r.init_part == init_part,
            r.parallel_part.inner@ == Seq::<ParallelInvocation<Op, Ret>>::empty(),
            r.next_thread_id == 0,
    {
        ParallelPartRecorder {
            init_part,
            parallel_part: ParallelHistory::with_capacity(parallel_part_capacity),
            next_thread_id: 0,
            timer: Arc::new(AtomicUsize::new(0)),
        }
    }

    /// Creates a sub-recorder for a single thread, with a fresh,
    /// increasing thread id and a handle to the shared timestamp
    /// counter.
    pub fn record_thread(&mut self) -> (r: PerThreadRecorder<Op, Ret>)
        requires
            old(self).next_thread_id < usize::MAX,
        ensures
            r.internal.thread_id == old(self).next_thread_id,
            r.internal.invocations.inner@ == Seq::<ParallelInvocation<Op, Ret>>::empty(),
            final(self).next_thread_id == old(self).next_thread_id + 1,
            final(self).init_part == old(self).init_part,
            final(self).parallel_part == old(self).parallel_part,
    {
        let thread_id = self.next_thread_id;
        self.next_thread_id = self.next_thread_id + 1;
        PerThreadRecorder {
            internal: InternalRecorder::new(thread_id),
            timer: Arc::clone(&self.timer),
        }
    }

    /// Same as [`record_thread`](ParallelPartRecorder::record_thread)
    /// but preallocates space for the records.
    pub fn record_thread_with_capacity(&mut self, thread_part_capacity: usize) -> (r:
        PerThreadRecorder<Op, Ret>)
        requires
            old(self).next_thread_id < usize::MAX,
        ensures
            r.internal.thread_id == old(self).next_thread_id,
            r.internal.invocations.inner@ == Seq::<ParallelInvocation<Op, Ret>>::empty(),
            final(self).next_thread_id == old(self).next_thread_id + 1,
            final(self).init_part == old(self).init_part,
            final(self).parallel_part == old(self).parallel_part,
    {
        let thread_id = self.next_thread_id;
        self.next_thread_id = self.next_thread_id + 1;
        PerThreadRecorder {
            internal: InternalRecorder::with_capacity(thread_id, thread_part_capacity),
            timer: Arc::clone(&self.timer),
        }
    }

    /// Merges the buffer of a finished worker thread into the shared
    /// parallel history.
    pub fn merge_thread(&mut self, history: ParallelHistory<Op, Ret>)
        ensures
            final(self).parallel_part.inner@ == old(self).parallel_part.inner@
                + history.inner@,
            final(self).init_part == old(self).init_part,
            final(self).next_thread_id == old(self).next_thread_id,
    {
        self.parallel_part.extend(history);
    }

    /// Switches to the post part of the execution.
    pub fn record_post_part(self) -> (r: PostPartRecorder<Op, Ret>)
        ensures
            r.init_part == self.init_part,
            r.parallel_part == self.parallel_part,
            r.post_part.inner@ == Seq::<Invocation<Op, Ret>>::empty(),
    {
        PostPartRecorder {
            init_part: self.init_part,
            parallel_part: self.parallel_part,
            post_part: History::new(),
        }
    }

    /// Same as
    /// [`record_post_part`](ParallelPartRecorder::record_post_part)
    /// but preallocates space for the records.
    pub fn record_post_part_with_capacity(self, post_part_capacity: usize) -> (r: PostPartRecorder<
        Op,
        Ret,
    >)
        ensures
            r.init_part == self.init_part,
            r.parallel_part == self.parallel_part,
            r.post_part.inner@ == Seq::<Invocation<Op, Ret>>::empty(),
    {
        PostPartRecorder {
            init_part: self.init_part,
            parallel_part: self.parallel_part,
            post_part: History::with_capacity(post_part_capacity),
        }
    }

    /// Finishes recording and returns the execution trace.
    pub fn finish(self) -> (execution: Execution<Op, Ret>)
        ensures
            execution.init_part == self.init_part,
            execution.parallel_part == self.parallel_part,
            execution.post_part.inner@ == Seq::<Invocation<Op, Ret>>::empty(),
    {
        Execution {
            init_part: self.init_part,
            parallel_part: self.parallel_part,
            post_part: History::new(),
        }
    }
}

/// A recorder for a single worker thread of the parallel part.
pub struct PerThreadRecorder<Op, Ret> {
    /// The thread's own buffer of completed records.
    pub internal: InternalRecorder<Op, Ret>,
    /// A handle to the shared timestamp counter.
    pub timer: Arc<AtomicUsize>,
}

impl<Op, Ret> Recorder for PerThreadRecorder<Op, Ret> {
    type Op = Op;

    type Ret = Ret;

    open spec fn recorded(&self) -> Seq<(Op, Ret)> {
        self.internal.invocations.inner@.map_values(
            |inv: ParallelInvocation<Op, Ret>| (inv.op, inv.ret),
        )
    }

    fn record<F: FnOnce() -> Ret>(&mut self, op: Op, f: F)
        ensures
            exists|r: Ret, t1: Timestamp, t2: Timestamp|
                #![trigger call_ensures(f, (), r), old(self).internal.invocations.inner@.push(
                    (ParallelInvocation {
                        thread_id: old(self).internal.thread_id,
                        call_timestamp: t1,
                        return_timestamp: t2,
                        op,
                        ret: r,
                    }),
                )]
                call_ensures(f, (), r)
                    && final(self).internal.invocations.inner@
                        == old(self).internal.invocations.inner@.push(
                        (ParallelInvocation {
                            thread_id: old(self).internal.thread_id,
                            call_timestamp: t1,
                            return_timestamp: t2,
                            op,
                            ret: r,
                        }),
                    )
                    && final(self).internal.thread_id == old(self).internal.thread_id,
    {
        let ghost op0 = op;
        let call_timestamp = self.timer.fetch_add(1, Ordering::Relaxed);
        let ret = f();
        let return_timestamp = self.timer.fetch_add(1, Ordering::Relaxed);
        let inv = ParallelInvocation {
            thread_id: self.internal.thread_id,
            call_timestamp,
            return_timestamp,
            op,
            ret,
        };
        proof {
            assert(old(self).internal.invocations.inner@.push(inv)
                .map_values(|i: ParallelInvocation<Op, Ret>| (i.op, i.ret))
                =~= old(self).recorded().push((op0, inv.ret)));
        }
        self.internal.invocations.push(inv);
    }
}

impl<Op, Ret> PerThreadRecorder<Op, Ret> {
    /// Finishes this thread's recording and hands its buffer back, to
    /// be merged by
    /// [`merge_thread`](ParallelPartRecorder::merge_thread).
    pub fn finish(self) -> (h: ParallelHistory<Op, Ret>)
        ensures
            h == self.internal.invocations,
    {
        self.internal.history()
    }
}

/// A recorder for the post part of the execution.
pub struct PostPartRecorder<Op, Ret> {
    /// The init records carried over from the first phase.
    pub init_part: History<Op, Ret>,
    /// The merged parallel records carried over from the second phase.
    pub parallel_part: ParallelHistory<Op, Ret>,
    /// The post records collected so far.
    pub post_part: History<Op, Ret>,
}

impl<Op, Ret> Recorder for PostPartRecorder<Op, Ret> {
    type Op = Op;

    type Ret = Ret;

    open spec fn recorded(&self) -> Seq<(Op, Ret)> {
        self.post_part.inner@.map_values(|inv: Invocation<Op, Ret>| (inv.op, inv.ret))
    }

    fn record<F: FnOnce() -> Ret>(&mut self, op: Op, f: F)
        ensures
            exists|r: Ret|
                #[trigger] call_ensures(f, (), r)
                    && final(self).post_part.inner@ == old(self).post_part.inner@.push(
                        (Invocation { op, ret: r }),
                    )
                    && final(self).init_part == old(self).init_part
                    && final(self).parallel_part == old(self).parallel_part,
    {
        let ghost op0 = op;
        let ret = f();
        proof {
            assert(old(self).post_part.inner@.push((Invocation { op: op0, ret }))
                .map_values(|inv: Invocation<Op, Ret>| (inv.op, inv.ret))
                =~= old(self).recorded().push((op0, ret)));
        }
        self.post_part.push(Invocation { op, ret });
    }
}

impl<Op, Ret> PostPartRecorder<Op, Ret> {
    /// Finishes recording and returns the execution trace.
    pub fn finish(self) -> (execution: Execution<Op, Ret>)
        ensures
            execution.init_part == self.init_part,
            execution.parallel_part == self.parallel_part,
            execution.post_part == self.post_part,
    {
        Execution {
            init_part: self.init_part,
            parallel_part: self.parallel_part,
            post_part: self.post_part,
        }
    }
}


/// No element of `h` satisfies `pred`, so the filtered sequence is
/// empty.
proof fn lemma_filter_no_match<A>(h: Seq<A>, pred: spec_fn(A) -> bool)
    requires
        forall|k: int| 0 <= k < h.len() ==> !pred(#[trigger] h[k]),
    ensures
        h.filter(pred) == Seq::<A>::empty(),
    decreases h.len(),
{
    reveal(Seq::filter);
    if h.len() > 0 {
        lemma_filter_no_match(h.drop_last(), pred);
    }
}

/// The invariants a recorded parallel history owes its consumers:
/// thread ids and return timestamps below `usize::MAX`, and every
/// thread's records well formed — call before return, returns before
/// the thread's next call. These are exactly the hypotheses of the
/// renderer and, via [`lemma_threads_wf_intervals_wf`], of the
/// happens-before lemmas.
pub open spec fn parallel_history_wf<Op, Ret>(p: Seq<ParallelInvocation<Op, Ret>>) -> bool {
    &&& (forall|k: int| 0 <= k < p.len() ==> (#[trigger] p[k]).thread_id < usize::MAX)
    &&& (forall|k: int| 0 <= k < p.len() ==> (#[trigger] p[k]).return_timestamp < usize::MAX)
    &&& (forall|t: int|
        thread_history_wf(#[trigger] crate::execution::thread_records(p, t)))
}

/// Decides [`parallel_history_wf`] of a recorded execution. The
/// recorder establishes the invariants whenever the shared counter
/// hands out increasing values; since nothing can be assumed of the
/// atomic's values, a consumer that needs the invariants checks them
/// here.
pub fn execution_well_formed<Op, Ret>(execution: &Execution<Op, Ret>) -> (r: bool)
    ensures
        r == parallel_history_wf(execution.parallel_part.inner@),
{
    let ghost p = execution.parallel_part.inner@;
    let n = execution.parallel_part.inner.len();
    let mut k: usize = 0;
    while k < n
        invariant
            0 <= k <= n,
            n == p.len(),
            p == execution.parallel_part.inner@,
            forall|j: int| 0 <= j < k ==> (#[trigger] p[j]).thread_id < usize::MAX,
            forall|j: int| 0 <= j < k ==> (#[trigger] p[j]).return_timestamp < usize::MAX,
            forall|j: int| 0 <= j < k
                ==> (#[trigger] p[j]).call_timestamp < p[j].return_timestamp,
        decreases n - k,
    {
        if execution.parallel_part.inner[k].thread_id >= usize::MAX {
            proof {
                assert(p[k as int].thread_id >= usize::MAX);
            }
            return false;
        }
        if execution.parallel_part.inner[k].return_timestamp >= usize::MAX {
            proof {
                assert(p[k as int].return_timestamp >= usize::MAX);
            }
            return false;
        }
        if execution.parallel_part.inner[k].call_timestamp >= execution.parallel_part.inner[k].return_timestamp {
            proof {
                let t = p[k as int].thread_id as int;
                let pred = |i: ParallelInvocation<Op, Ret>| i.thread_id == t;
                p.filter_lemma(pred);
                assert(pred(p[k as int]));
                assert(p.filter(pred).contains(p[k as int]));
                assert(crate::execution::thread_records(p, t) == p.filter(pred));
                let j = choose|j: int|
                    0 <= j < p.filter(pred).len() && p.filter(pred)[j] == p[k as int];
                if thread_history_wf(crate::execution::thread_records(p, t)) {
                    assert(p.filter(pred)[j].call_timestamp
                        < p.filter(pred)[j].return_timestamp);
                    assert(false);
                }
            }
            return false;
        }
        k = k + 1;
    }
    let mut num_threads: usize = 0;
    let mut k2: usize = 0;
    while k2 < n
        invariant
            0 <= k2 <= n,
            n == p.len(),
            p == execution.parallel_part.inner@,
            forall|j: int| 0 <= j < n ==> (#[trigger] p[j]).thread_id < usize::MAX,
            forall|j: int| 0 <= j < k2 ==> (#[trigger] p[j]).thread_id < num_threads,
        decreases n - k2,
    {
        if execution.parallel_part.inner[k2].thread_id >= num_threads {
            num_threads = execution.parallel_part.inner[k2].thread_id + 1;
        }
        k2 = k2 + 1;
    }
    let mut t: usize = 0;
    while t < num_threads
        invariant
            0 <= t <= num_threads,
            n == p.len(),
            p == execution.parallel_part.inner@,
            forall|j: int| 0 <= j < n ==> (#[trigger] p[j]).thread_id < num_threads,
            forall|j: int| 0 <= j < n
                ==> (#[trigger] p[j]).call_timestamp < p[j].return_timestamp,
            forall|u: int| 0 <= u < t
                ==> thread_history_wf(#[trigger] crate::execution::thread_records(p, u)),
        decreases num_threads - t,
    {
        let ghost pred = |i2: ParallelInvocation<Op, Ret>| i2.thread_id == t as int;
        let mut seen = false;
        let mut last_ret: usize = 0;
        let mut i: usize = 0;
        proof {
            reveal(Seq::filter);
            assert(p.take(0) =~= Seq::<ParallelInvocation<Op, Ret>>::empty());
            assert(p.take(0).filter(pred) =~= Seq::<ParallelInvocation<Op, Ret>>::empty());
        }
        while i < n
            invariant
                0 <= i <= n,
                n == p.len(),
                p == execution.parallel_part.inner@,
                pred == (|i2: ParallelInvocation<Op, Ret>| i2.thread_id == t as int),
                forall|j: int| 0 <= j < n
                    ==> (#[trigger] p[j]).call_timestamp < p[j].return_timestamp,
                thread_history_wf(p.take(i as int).filter(pred)),
                seen <==> p.take(i as int).filter(pred).len() > 0,
                seen ==> p.take(i as int).filter(pred).last().return_timestamp == last_ret,
            decreases n - i,
        {
            let ghost ft0 = p.take(i as int).filter(pred);
            proof {
                reveal(Seq::filter);
                assert(p.take(i + 1).drop_last() =~= p.take(i as int));
                assert(p.take(i + 1).last() == p[i as int]);
            }
            if execution.parallel_part.inner[i].thread_id == t {
                proof {
                    assert(pred(p[i as int]));
                    assert(p.take(i + 1).filter(pred) =~= ft0.push(p[i as int]));
                }
                if seen && execution.parallel_part.inner[i].call_timestamp <= last_ret {
                    proof {
                        let ft1 = p.take(i + 1).filter(pred);
                        assert(p =~= p.take(i + 1) + p.skip(i + 1));
                        Seq::filter_distributes_over_add(p.take(i + 1), p.skip(i + 1), pred);
                        assert(p.filter(pred) == ft1 + p.skip(i + 1).filter(pred));
                        let q = ft0.len() as int - 1;
                        assert(ft1[q] == ft0.last());
                        assert(ft1[q + 1] == p[i as int]);
                        assert(p.filter(pred)[q] == ft1[q]);
                        assert(p.filter(pred)[q + 1] == ft1[q + 1]);
                        assert(crate::execution::thread_records(p, t as int) == p.filter(pred));
                        if thread_history_wf(crate::execution::thread_records(p, t as int)) {
                            assert(p.filter(pred)[q].return_timestamp
                                < p.filter(pred)[q + 1].call_timestamp);
                            assert(false);
                        }
                    }
                    return false;
                }
                proof {
                    lemma_thread_history_wf_push(ft0, p[i as int]);
                }
                last_ret = execution.parallel_part.inner[i].return_timestamp;
                seen = true;
            } else {
                proof {
                    assert(!pred(p[i as int]));
                    assert(p.take(i + 1).filter(pred) =~= ft0);
                }
            }
            i = i + 1;
        }
        proof {
            assert(p.take(n as int) =~= p);
            assert(crate::execution::thread_records(p, t as int) == p.filter(pred));
            assert(thread_history_wf(crate::execution::thread_records(p, t as int)));
        }
        t = t + 1;
    }
    proof {
        assert forall|t2: int|
            thread_history_wf(#[trigger] crate::execution::thread_records(p, t2)) by {
            if 0 <= t2 < num_threads {
            } else {
                let pred2 = |i2: ParallelInvocation<Op, Ret>| i2.thread_id == t2;
                lemma_filter_no_match(p, pred2);
                assert(crate::execution::thread_records(p, t2) == p.filter(pred2));
                assert(crate::execution::thread_records(p, t2)
                    =~= Seq::<ParallelInvocation<Op, Ret>>::empty());
            }
        }
    }
    true
}

} // verus!
