//! The linearizability checker.
//!
//! Each linearization of the parallel part is a topological ordering
//! of the happens-before relation induced by the recorded intervals.
//! The checker searches those orderings by backtracking: it repeatedly
//! places an invocation none of whose happens-before predecessors is
//! still outstanding, replays it against the sequential specification,
//! and compares the returned value with the recorded one. The
//! sequential specification offers no undo, so on backtrack the state
//! is rebuilt from scratch by replay.

use vstd::prelude::*;
use vstd::set_lib::lemma_int_range;
use vstd::set_lib::lemma_subset_equality;

use crate::execution::Execution;
use crate::execution::InvocationId;
use crate::execution::ParallelInvocation;
use crate::specs::replay_matches;
use crate::specs::state_after;
use crate::specs::lemma_replay_matches_take;
use crate::specs::lemma_state_after_snoc;
use crate::specs::SequentialSpec;

verus! {

/// Happens-before: invocation `i` precedes invocation `j` in real time
/// iff `i` returned before `j` was called.
pub open spec fn hb<Op, Ret>(p: Seq<ParallelInvocation<Op, Ret>>, i: int, j: int) -> bool {
    p[i].return_timestamp < p[j].call_timestamp
}

/// Every recorded interval is well formed: the call strictly precedes
/// the return.
pub open spec fn intervals_wf<Op, Ret>(p: Seq<ParallelInvocation<Op, Ret>>) -> bool {
    forall|k: int| 0 <= k < p.len() ==> (#[trigger] p[k]).call_timestamp < p[k].return_timestamp
}

/// `order` lists each invocation of `p` exactly once, and never lists
/// an invocation before one that happens-before it.
pub open spec fn valid_order<Op, Ret>(
    p: Seq<ParallelInvocation<Op, Ret>>,
    order: Seq<InvocationId>,
) -> bool {
    &&& order.len() == p.len()
    &&& order.no_duplicates()
    &&& (forall|k: int| #![trigger order[k]] 0 <= k < order.len() ==> (order[k] as int) < p.len())
    &&& (forall|a: int, b: int| #![trigger order[a], order[b]]
        0 <= a <= b < order.len() ==> !hb(p, order[b] as int, order[a] as int))
}

/// The operations of `p` selected in the order given by `order`.
pub open spec fn order_ops<Op, Ret>(
    p: Seq<ParallelInvocation<Op, Ret>>,
    order: Seq<InvocationId>,
) -> Seq<Op> {
    order.map_values(|id: InvocationId| p[id as int].op)
}

/// The recorded return values of `p` selected in the order given by
/// `order`.
pub open spec fn order_rets<Op, Ret>(
    p: Seq<ParallelInvocation<Op, Ret>>,
    order: Seq<InvocationId>,
) -> Seq<Ret> {
    order.map_values(|id: InvocationId| p[id as int].ret)
}

/// The operations of a sequential phase, in program order.
pub open spec fn hist_ops<Op, Ret>(h: Seq<crate::execution::Invocation<Op, Ret>>) -> Seq<Op> {
    h.map_values(|inv: crate::execution::Invocation<Op, Ret>| inv.op)
}

/// The recorded return values of a sequential phase, in program order.
pub open spec fn hist_rets<Op, Ret>(h: Seq<crate::execution::Invocation<Op, Ret>>) -> Seq<Ret> {
    h.map_values(|inv: crate::execution::Invocation<Op, Ret>| inv.ret)
}

/// Whether the init part of `ex` replays correctly from a fresh state.
pub open spec fn init_ok<S: SequentialSpec>(ex: Execution<S::Op, S::Ret>) -> bool {
    replay_matches::<S>(
        S::init_state(),
        hist_ops(ex.init_part.inner@),
        hist_rets(ex.init_part.inner@),
    )
}

/// The sequential state after replaying the init part from a fresh
/// state.
pub open spec fn mid_state<S: SequentialSpec>(ex: Execution<S::Op, S::Ret>) -> S {
    state_after::<S>(S::init_state(), hist_ops(ex.init_part.inner@))
}

/// Whether `order` is a linearization of `ex`: a valid ordering of the
/// parallel part whose replay from the post-init state reproduces every
/// recorded parallel return value, and after which the post part
/// replays correctly as well.
pub open spec fn order_ok<S: SequentialSpec>(
    ex: Execution<S::Op, S::Ret>,
    order: Seq<InvocationId>,
) -> bool {
    let p = ex.parallel_part.inner@;
    &&& valid_order(p, order)
    &&& replay_matches::<S>(mid_state::<S>(ex), order_ops(p, order), order_rets(p, order))
    &&& replay_matches::<S>(
        state_after::<S>(mid_state::<S>(ex), order_ops(p, order)),
        hist_ops(ex.post_part.inner@),
        hist_rets(ex.post_part.inner@),
    )
}

/// The verdict the checker decides: the init part replays correctly
/// and some linearization of the parallel part exists.
pub open spec fn linearizable<S: SequentialSpec>(ex: Execution<S::Op, S::Ret>) -> bool {
    &&& init_ok::<S>(ex)
    &&& exists|order: Seq<InvocationId>| order_ok::<S>(ex, order)
}

/// Whether `order` is a linearization of `ex` that extends the already
/// placed prefix `lin`.
pub open spec fn completes<S: SequentialSpec>(
    ex: Execution<S::Op, S::Ret>,
    lin: Seq<InvocationId>,
    order: Seq<InvocationId>,
) -> bool {
    &&& order_ok::<S>(ex, order)
    &&& lin.is_prefix_of(order)
}

/// Every happens-before predecessor of invocation `c` is already in
/// `lin`.
pub open spec fn preds_in<Op, Ret>(
    p: Seq<ParallelInvocation<Op, Ret>>,
    lin: Seq<InvocationId>,
    c: int,
) -> bool {
    forall|x: int| 0 <= x < p.len() && #[trigger] hb(p, x, c) ==> lin.contains(x as InvocationId)
}

/// The well-formedness of a placed prefix: distinct in-range ids, each
/// placed only after all of its happens-before predecessors.
pub open spec fn lin_wf<Op, Ret>(
    p: Seq<ParallelInvocation<Op, Ret>>,
    lin: Seq<InvocationId>,
) -> bool {
    &&& lin.no_duplicates()
    &&& (forall|k: int| #![trigger lin[k]] 0 <= k < lin.len() ==> (lin[k] as int) < p.len())
    &&& (forall|k: int, x: int| #![trigger hb(p, x, lin[k] as int)]
        0 <= k < lin.len() && 0 <= x < p.len() && hb(p, x, lin[k] as int)
            ==> lin.subrange(0, k).contains(x as InvocationId))
}

/// The linearizability checker.
///
/// `linearized` is the stack of already placed invocation ids, in
/// placement order; `seq_spec` is a running sequential instance
/// reflecting the init part followed by the placed prefix. The
/// happens-before relation is consulted directly from the recorded
/// timestamps.
pub struct LinearizabilityChecker<S: SequentialSpec> {
    linearized: Vec<InvocationId>,
    seq_spec: S,
}

impl<S: SequentialSpec> LinearizabilityChecker<S> {
    /// The invariant of the search: a well-formed placed prefix whose
    /// replay matched every recorded return value, and a sequential
    /// state equal to replaying the init part and then that prefix.
    spec fn wf(&self, ex: Execution<S::Op, S::Ret>) -> bool {
        let p = ex.parallel_part.inner@;
        &&& lin_wf(p, self.linearized@)
        &&& self.seq_spec == state_after::<S>(
            mid_state::<S>(ex),
            order_ops(p, self.linearized@),
        )
        &&& replay_matches::<S>(
            mid_state::<S>(ex),
            order_ops(p, self.linearized@),
            order_rets(p, self.linearized@),
        )
    }

    /// Tentatively places invocation `inv_id` at the end of the
    /// current linearization.
    fn call(&mut self, inv_id: InvocationId)
        ensures
            final(self).linearized@ == old(self).linearized@.push(inv_id),
            final(self).seq_spec == old(self).seq_spec,
    {
        self.linearized.push(inv_id);
    }

    /// Removes the most recently placed invocation on backtrack.
    fn undo(&mut self, inv_id: InvocationId)
        requires
            old(self).linearized@.len() > 0,
            old(self).linearized@.last() == inv_id,
        ensures
            final(self).linearized@ == old(self).linearized@.drop_last(),
            final(self).seq_spec == old(self).seq_spec,
    {
        let _ = self.linearized.pop();
    }

    /// Rebuilds the sequential state from scratch: a fresh instance,
    /// the init part replayed in order, then the placed prefix
    /// replayed in order.
    fn rebuild_seq_spec(&mut self, ex: &Execution<S::Op, S::Ret>)
        requires
            forall|k: int| #![trigger old(self).linearized@[k]]
                0 <= k < old(self).linearized@.len()
                    ==> (old(self).linearized@[k] as int) < ex.parallel_part.inner@.len(),
        ensures
            final(self).linearized == old(self).linearized,
            final(self).seq_spec == state_after::<S>(
                mid_state::<S>(*ex),
                order_ops(ex.parallel_part.inner@, old(self).linearized@),
            ),
    {
        self.seq_spec = S::fresh();
        let ghost p = ex.parallel_part.inner@;
        let ghost init_ops = hist_ops(ex.init_part.inner@);
        let mut i: usize = 0;
        proof {
            assert(init_ops.take(0) =~= Seq::<S::Op>::empty());
        }
        while i < ex.init_part.inner.len()
            invariant
                0 <= i <= ex.init_part.inner@.len(),
                init_ops == hist_ops(ex.init_part.inner@),
                init_ops.len() == ex.init_part.inner@.len(),
                self.seq_spec == state_after::<S>(S::init_state(), init_ops.take(i as int)),
                self.linearized == old(self).linearized,
            decreases ex.init_part.inner@.len() - i,
        {
            proof {
                assert(init_ops.take(i + 1).drop_last() =~= init_ops.take(i as int));
                assert(init_ops.take(i + 1).last() == init_ops[i as int]);
            }
            let _ = self.seq_spec.execute(&ex.init_part.inner[i].op);
            i = i + 1;
        }
        proof {
            assert(init_ops.take(ex.init_part.inner@.len() as int) =~= init_ops);
        }
        let ghost lops = order_ops(p, old(self).linearized@);
        let mut j: usize = 0;
        proof {
            assert(lops.take(0) =~= Seq::<S::Op>::empty());
        }
        while j < self.linearized.len()
            invariant
                0 <= j <= self.linearized@.len(),
                self.linearized == old(self).linearized,
                p == ex.parallel_part.inner@,
                forall|k: int| #![trigger self.linearized@[k]]
                    0 <= k < self.linearized@.len()
                        ==> (self.linearized@[k] as int) < p.len(),
                lops == order_ops(p, self.linearized@),
                lops.len() == self.linearized@.len(),
                self.seq_spec == state_after::<S>(mid_state::<S>(*ex), lops.take(j as int)),
            decreases self.linearized@.len() - j,
        {
            let id = self.linearized[j];
            proof {
                assert(lops.take(j + 1).drop_last() =~= lops.take(j as int));
                assert(lops.take(j + 1).last() == lops[j as int]);
                assert(lops[j as int] == p[id as int].op);
            }
            let _ = self.seq_spec.execute(&ex.parallel_part.inner[id].op);
            j = j + 1;
        }
        proof {
            assert(lops.take(self.linearized@.len() as int) =~= lops);
        }
    }

    /// Checks whether the given execution is linearizable with respect
    /// to the sequential specification `S`.
    ///
    /// The three parts of the verdict are exactly those of
    /// [`linearizable`]: the init part must replay correctly from a
    /// fresh instance, some happens-before-respecting total order of
    /// the parallel part must replay to the recorded return values,
    /// and the post part must replay correctly afterwards.
    pub fn check(execution: &Execution<S::Op, S::Ret>) -> (r: bool)
        ensures
            r == linearizable::<S>(*execution),
    {
        let mut checker = LinearizabilityChecker {
            linearized: Vec::new(),
            seq_spec: S::fresh(),
        };
        checker.check_init_part(execution)
    }

    /// Replays the init part against a fresh sequential state; if every
    /// recorded return value matches, continues with the parallel part.
    fn check_init_part(&mut self, ex: &Execution<S::Op, S::Ret>) -> (r: bool)
        requires
            old(self).seq_spec == S::init_state(),
            old(self).linearized@ == Seq::<InvocationId>::empty(),
        ensures
            r == linearizable::<S>(*ex),
    {
        let ghost iops = hist_ops(ex.init_part.inner@);
        let ghost irets = hist_rets(ex.init_part.inner@);
        let mut i: usize = 0;
        proof {
            assert(iops.take(0) =~= Seq::<S::Op>::empty());
            assert(irets.take(0) =~= Seq::<S::Ret>::empty());
        }
        while i < ex.init_part.inner.len()
            invariant
                0 <= i <= ex.init_part.inner@.len(),
                iops == hist_ops(ex.init_part.inner@),
                irets == hist_rets(ex.init_part.inner@),
                iops.len() == ex.init_part.inner@.len(),
                irets.len() == ex.init_part.inner@.len(),
                self.seq_spec == state_after::<S>(S::init_state(), iops.take(i as int)),
                replay_matches::<S>(S::init_state(), iops.take(i as int), irets.take(i as int)),
                self.linearized@ == old(self).linearized@,
            decreases ex.init_part.inner@.len() - i,
        {
            proof {
                assert(iops.take(i + 1).drop_last() =~= iops.take(i as int));
                assert(iops.take(i + 1).last() == iops[i as int]);
                assert(irets.take(i + 1).drop_last() =~= irets.take(i as int));
                assert(irets.take(i + 1).last() == irets[i as int]);
            }
            let observed = self.seq_spec.execute(&ex.init_part.inner[i].op);
            let ok = S::ret_eq(&observed, &ex.init_part.inner[i].ret);
            if !ok {
                proof {
                    if init_ok::<S>(*ex) {
                        lemma_replay_matches_take::<S>(S::init_state(), iops, irets, i + 1);
                        assert(false);
                    }
                }
                return false;
            }
            i = i + 1;
        }
        proof {
            assert(iops.take(ex.init_part.inner@.len() as int) =~= iops);
            assert(irets.take(ex.init_part.inner@.len() as int) =~= irets);
            let p = ex.parallel_part.inner@;
            assert(order_ops(p, self.linearized@) =~= Seq::<S::Op>::empty());
            assert(order_rets(p, self.linearized@) =~= Seq::<S::Ret>::empty());
            assert(self.wf(*ex));
        }
        let r = self.check_parallel_part(ex);
        proof {
            let ghost lin0 = Seq::<InvocationId>::empty();
            if r {
                let order = choose|order: Seq<InvocationId>| completes::<S>(*ex, lin0, order);
                assert(order_ok::<S>(*ex, order));
                assert(linearizable::<S>(*ex));
            } else {
                if linearizable::<S>(*ex) {
                    let order = choose|order: Seq<InvocationId>| order_ok::<S>(*ex, order);
                    assert(lin0.is_prefix_of(order)) by {
                        assert(lin0 =~= order.subrange(0, 0));
                    }
                    assert(completes::<S>(*ex, lin0, order));
                    assert(false);
                }
            }
        }
        r
    }

    /// The backtracking search over the parallel part. Every invocation
    /// that is unplaced and has no unplaced happens-before predecessor
    /// is a candidate; each is tentatively placed, replayed, and — if
    /// the recorded return value matches and the rest of the search
    /// succeeds — kept. On failure the placement is undone and the
    /// sequential state rebuilt by replay.
    #[verifier::loop_isolation(false)]
    fn check_parallel_part(&mut self, ex: &Execution<S::Op, S::Ret>) -> (r: bool)
        requires
            old(self).wf(*ex),
        ensures
            r == exists|order: Seq<InvocationId>|
                completes::<S>(*ex, old(self).linearized@, order),
            !r ==> final(self).linearized@ == old(self).linearized@,
            !r ==> final(self).seq_spec == state_after::<S>(
                mid_state::<S>(*ex),
                order_ops(ex.parallel_part.inner@, old(self).linearized@),
            ),
        decreases ex.parallel_part.inner@.len() - old(self).linearized@.len(),
    {
        let n = ex.parallel_part.inner.len();
        let ghost p = ex.parallel_part.inner@;
        let ghost lin0 = self.linearized@;
        proof {
            lemma_distinct_bounded_len(lin0, n as int);
        }
        if self.linearized.len() == n {
            let r = self.check_post_part(ex);
            if !r {
                self.rebuild_seq_spec(ex);
            }
            proof {
                lemma_lin_respects_hb(p, lin0);
                assert(lin0.is_prefix_of(lin0)) by {
                    assert(lin0 =~= lin0.subrange(0, lin0.len() as int));
                }
                if r {
                    assert(valid_order(p, lin0));
                    assert(completes::<S>(*ex, lin0, lin0));
                } else {
                    if exists|order: Seq<InvocationId>| completes::<S>(*ex, lin0, order) {
                        let order = choose|order: Seq<InvocationId>|
                            completes::<S>(*ex, lin0, order);
                        assert(order.len() == n);
                        assert(lin0 =~= order.subrange(0, lin0.len() as int));
                        assert(order =~= order.subrange(0, lin0.len() as int));
                        assert(order_ok::<S>(*ex, lin0));
                        assert(false);
                    }
                }
            }
            return r;
        }
        let ghost mid = mid_state::<S>(*ex);
        let mut c: usize = 0;
        while c < n
            invariant
                c <= n,
                n == p.len(),
                p == ex.parallel_part.inner@,
                lin0.len() < n,
                self.linearized@ == lin0,
                self.wf(*ex),
                mid == mid_state::<S>(*ex),
                forall|order: Seq<InvocationId>|
                    #[trigger] completes::<S>(*ex, lin0, order)
                        ==> (order[lin0.len() as int] as int) >= c as int,
            decreases n - c,
        {
            let is_placed = vec_contains(&self.linearized, c);
            let mut preds_ok = false;
            if !is_placed {
                preds_ok = self.preds_placed(ex, c);
            }
            if !is_placed && preds_ok {
                let ghost lin1 = lin0.push(c);
                self.call(c);
                proof {
                    lemma_lin_wf_push(p, lin0, c);
                    lemma_state_after_snoc::<S>(mid, order_ops(p, lin0), p[c as int].op);
                    assert(order_ops(p, lin1) =~= order_ops(p, lin0).push(p[c as int].op));
                    assert(order_rets(p, lin1) =~= order_rets(p, lin0).push(p[c as int].ret));
                    assert(order_ops(p, lin1).drop_last() =~= order_ops(p, lin0));
                    assert(order_rets(p, lin1).drop_last() =~= order_rets(p, lin0));
                }
                let observed = self.seq_spec.execute(&ex.parallel_part.inner[c].op);
                let ret_matches = S::ret_eq(&observed, &ex.parallel_part.inner[c].ret);
                if ret_matches {
                    proof {
                        assert(replay_matches::<S>(
                            mid,
                            order_ops(p, lin1),
                            order_rets(p, lin1),
                        ));
                        assert(self.wf(*ex));
                    }
                    let sub = self.check_parallel_part(ex);
                    if sub {
                        proof {
                            let order = choose|order: Seq<InvocationId>|
                                completes::<S>(*ex, lin1, order);
                            assert(lin0.is_prefix_of(order)) by {
                                assert(lin1 =~= order.subrange(0, lin1.len() as int));
                                assert(lin0 =~= order.subrange(0, lin0.len() as int));
                            }
                            assert(completes::<S>(*ex, lin0, order));
                            assert(exists|o: Seq<InvocationId>|
                                completes::<S>(*ex, old(self).linearized@, o));
                        }
                        return true;
                    }
                    self.undo(c);
                    self.rebuild_seq_spec(ex);
                    proof {
                        assert(self.linearized@ =~= lin0);
                        assert forall|order: Seq<InvocationId>|
                            #[trigger] completes::<S>(*ex, lin0, order)
                                implies (order[lin0.len() as int] as int) >= c + 1 by {
                            if order[lin0.len() as int] == c {
                                lemma_good_next::<S>(*ex, lin0, order);
                                assert(completes::<S>(*ex, lin1, order));
                                assert(false);
                            }
                        }
                    }
                } else {
                    self.undo(c);
                    self.rebuild_seq_spec(ex);
                    proof {
                        assert(self.linearized@ =~= lin0);
                        assert forall|order: Seq<InvocationId>|
                            #[trigger] completes::<S>(*ex, lin0, order)
                                implies (order[lin0.len() as int] as int) >= c + 1 by {
                            if order[lin0.len() as int] == c {
                                lemma_good_next::<S>(*ex, lin0, order);
                                lemma_prefix_replay::<S>(*ex, lin1, order);
                                lemma_replay_matches_take::<S>(
                                    mid,
                                    order_ops(p, lin1),
                                    order_rets(p, lin1),
                                    lin1.len() as int,
                                );
                                assert(order_ops(p, lin1).last() == p[c as int].op);
                                assert(order_rets(p, lin1).last() == p[c as int].ret);
                                assert(false);
                            }
                        }
                    }
                }
            } else {
                proof {
                    assert forall|order: Seq<InvocationId>|
                        #[trigger] completes::<S>(*ex, lin0, order)
                            implies (order[lin0.len() as int] as int) >= c + 1 by {
                        if order[lin0.len() as int] == c {
                            lemma_good_next::<S>(*ex, lin0, order);
                        }
                    }
                }
            }
            c = c + 1;
        }
        proof {
            if exists|order: Seq<InvocationId>| completes::<S>(*ex, lin0, order) {
                let order = choose|order: Seq<InvocationId>| completes::<S>(*ex, lin0, order);
                assert((order[lin0.len() as int] as int) < n as int);
                assert(false);
            }
        }
        false
    }

    /// Whether every happens-before predecessor of invocation `c` is
    /// already placed.
    fn preds_placed(&self, ex: &Execution<S::Op, S::Ret>, c: InvocationId) -> (b: bool)
        requires
            (c as int) < ex.parallel_part.inner@.len(),
        ensures
            b == preds_in(ex.parallel_part.inner@, self.linearized@, c as int),
    {
        let ghost p = ex.parallel_part.inner@;
        let n = ex.parallel_part.inner.len();
        let c_call = ex.parallel_part.inner[c].call_timestamp;
        let mut x: usize = 0;
        while x < n
            invariant
                0 <= x <= n,
                n == p.len(),
                p == ex.parallel_part.inner@,
                (c as int) < p.len(),
                c_call == p[c as int].call_timestamp,
                forall|y: int|
                    0 <= y < x && #[trigger] hb(p, y, c as int)
                        ==> self.linearized@.contains(y as InvocationId),
            decreases n - x,
        {
            if ex.parallel_part.inner[x].return_timestamp < c_call {
                proof {
                    assert(hb(p, x as int, c as int));
                }
                if !vec_contains(&self.linearized, x) {
                    proof {
                        assert(!preds_in(p, self.linearized@, c as int));
                    }
                    return false;
                }
            } else {
                proof {
                    assert(!hb(p, x as int, c as int));
                }
            }
            x = x + 1;
        }
        true
    }

    /// Replays the post part against the current sequential state and
    /// reports whether every recorded return value matches.
    fn check_post_part(&mut self, ex: &Execution<S::Op, S::Ret>) -> (r: bool)
        ensures
            r == replay_matches::<S>(
                old(self).seq_spec,
                hist_ops(ex.post_part.inner@),
                hist_rets(ex.post_part.inner@),
            ),
            final(self).linearized == old(self).linearized,
    {
        let ghost s0 = self.seq_spec;
        let ghost pops = hist_ops(ex.post_part.inner@);
        let ghost prets = hist_rets(ex.post_part.inner@);
        let mut i: usize = 0;
        proof {
            assert(pops.take(0) =~= Seq::<S::Op>::empty());
            assert(prets.take(0) =~= Seq::<S::Ret>::empty());
        }
        while i < ex.post_part.inner.len()
            invariant
                0 <= i <= ex.post_part.inner@.len(),
                s0 == old(self).seq_spec,
                pops == hist_ops(ex.post_part.inner@),
                prets == hist_rets(ex.post_part.inner@),
                pops.len() == ex.post_part.inner@.len(),
                prets.len() == ex.post_part.inner@.len(),
                self.seq_spec == state_after::<S>(s0, pops.take(i as int)),
                replay_matches::<S>(s0, pops.take(i as int), prets.take(i as int)),
                self.linearized == old(self).linearized,
            decreases ex.post_part.inner@.len() - i,
        {
            proof {
                assert(pops.take(i + 1).drop_last() =~= pops.take(i as int));
                assert(pops.take(i + 1).last() == pops[i as int]);
                assert(prets.take(i + 1).drop_last() =~= prets.take(i as int));
                assert(prets.take(i + 1).last() == prets[i as int]);
            }
            let observed = self.seq_spec.execute(&ex.post_part.inner[i].op);
            let ok = S::ret_eq(&observed, &ex.post_part.inner[i].ret);
            if !ok {
                proof {
                    if replay_matches::<S>(s0, pops, prets) {
                        lemma_replay_matches_take::<S>(s0, pops, prets, i + 1);
                        assert(false);
                    }
                }
                return false;
            }
            i = i + 1;
        }
        proof {
            assert(pops.take(ex.post_part.inner@.len() as int) =~= pops);
            assert(prets.take(ex.post_part.inner@.len() as int) =~= prets);
        }
        true
    }
}

/// Happens-before is exactly real-time precedence of the recorded
/// intervals, and on well-formed intervals it is a strict partial
/// order — irreflexive and transitive — so it admits no cycle: along
/// any happens-before edge the return timestamp strictly increases.
pub proof fn lemma_hb_strict_partial_order<Op, Ret>(p: Seq<ParallelInvocation<Op, Ret>>)
    requires
        intervals_wf(p),
    ensures
        forall|i: int, j: int|
            0 <= i < p.len() && 0 <= j < p.len() && #[trigger] hb(p, i, j)
                ==> p[i].return_timestamp < p[j].call_timestamp,
        forall|i: int| 0 <= i < p.len() ==> !hb(p, i, i),
        forall|i: int, j: int, k: int|
            0 <= i < p.len() && 0 <= j < p.len() && 0 <= k < p.len() && #[trigger] hb(p, i, j)
                && #[trigger] hb(p, j, k) ==> hb(p, i, k),
        forall|i: int, j: int|
            0 <= i < p.len() && 0 <= j < p.len() && #[trigger] hb(p, i, j)
                ==> p[i].return_timestamp < p[j].return_timestamp,
{
}

/// The checker's verdict is a function of the execution alone: two
/// runs whose results both meet the contract of
/// [`LinearizabilityChecker::check`] on equal inputs agree.
pub proof fn lemma_checker_deterministic<S: SequentialSpec>(
    ex: Execution<S::Op, S::Ret>,
    r1: bool,
    r2: bool,
)
    requires
        r1 == linearizable::<S>(ex),
        r2 == linearizable::<S>(ex),
    ensures
        r1 == r2,
{
}

/// A true verdict carries a witness: some ordering of the parallel
/// invocations respects happens-before and replays, between the init
/// and post parts, to every recorded return value.
pub proof fn lemma_verdict_gives_witness<S: SequentialSpec>(ex: Execution<S::Op, S::Ret>)
    requires
        linearizable::<S>(ex),
    ensures
        exists|order: Seq<InvocationId>| order_ok::<S>(ex, order),
{
}

/// An execution whose init part fails to replay against a fresh
/// sequential instance is never linearizable, whatever its parallel
/// and post parts hold.
pub proof fn lemma_init_mismatch_not_linearizable<S: SequentialSpec>(ex: Execution<S::Op, S::Ret>)
    requires
        !init_ok::<S>(ex),
    ensures
        !linearizable::<S>(ex),
{
}

/// A sequential-only execution — one with an empty parallel part — is
/// linearizable iff its init part and then its post part replay
/// correctly from a fresh sequential instance.
pub proof fn lemma_sequential_only_iff<S: SequentialSpec>(ex: Execution<S::Op, S::Ret>)
    requires
        ex.parallel_part.inner@.len() == 0,
    ensures
        linearizable::<S>(ex) == (init_ok::<S>(ex) && replay_matches::<S>(
            mid_state::<S>(ex),
            hist_ops(ex.post_part.inner@),
            hist_rets(ex.post_part.inner@),
        )),
{
    let p = ex.parallel_part.inner@;
    let empty = Seq::<InvocationId>::empty();
    assert(order_ops(p, empty) =~= Seq::<S::Op>::empty());
    assert(order_rets(p, empty) =~= Seq::<S::Ret>::empty());
    if init_ok::<S>(ex) && replay_matches::<S>(
        mid_state::<S>(ex),
        hist_ops(ex.post_part.inner@),
        hist_rets(ex.post_part.inner@),
    ) {
        assert(valid_order(p, empty));
        assert(order_ok::<S>(ex, empty));
        assert(linearizable::<S>(ex));
    }
    if linearizable::<S>(ex) {
        let order = choose|order: Seq<InvocationId>| order_ok::<S>(ex, order);
        assert(order =~= empty);
        assert(replay_matches::<S>(
            mid_state::<S>(ex),
            hist_ops(ex.post_part.inner@),
            hist_rets(ex.post_part.inner@),
        ));
    }
}

/// The verdict depends only on which parallel records were collected,
/// not on the order in which the threads' buffers were merged:
/// reindexing the parallel part by any permutation leaves it
/// unchanged. `perm` maps positions of `ex2`'s parallel part to the
/// positions of `ex1`'s that hold the same record.
pub proof fn lemma_verdict_permutation_invariant<S: SequentialSpec>(
    ex1: Execution<S::Op, S::Ret>,
    ex2: Execution<S::Op, S::Ret>,
    perm: Seq<InvocationId>,
)
    requires
        ex1.init_part == ex2.init_part,
        ex1.post_part == ex2.post_part,
        perm.no_duplicates(),
        perm.len() == ex1.parallel_part.inner@.len(),
        forall|k: int| #![trigger perm[k]] 0 <= k < perm.len()
            ==> (perm[k] as int) < ex1.parallel_part.inner@.len(),
        ex2.parallel_part.inner@.len() == ex1.parallel_part.inner@.len(),
        ex1.parallel_part.inner@.len() <= usize::MAX,
        forall|k: int| 0 <= k < perm.len()
            ==> #[trigger] ex2.parallel_part.inner@[k]
                == ex1.parallel_part.inner@[perm[k] as int],
    ensures
        linearizable::<S>(ex1) == linearizable::<S>(ex2),
{
    let p1 = ex1.parallel_part.inner@;
    let p2 = ex2.parallel_part.inner@;
    let n = p1.len() as int;
    assert(mid_state::<S>(ex1) == mid_state::<S>(ex2));
    assert(init_ok::<S>(ex1) == init_ok::<S>(ex2));
    lemma_pigeonhole(perm, n);
    if exists|order: Seq<InvocationId>| order_ok::<S>(ex2, order) {
        let order2 = choose|order: Seq<InvocationId>| order_ok::<S>(ex2, order);
        let order1 = order2.map_values(|id: InvocationId| perm[id as int]);
        lemma_reindexed_order_ok::<S>(ex1, ex2, perm, order2, order1);
        assert(order_ok::<S>(ex1, order1));
    }
    if exists|order: Seq<InvocationId>| order_ok::<S>(ex1, order) {
        let order1 = choose|order: Seq<InvocationId>| order_ok::<S>(ex1, order);
        let inv_perm = Seq::<InvocationId>::new(
            p1.len(),
            |j: int|
                (choose|i: int| 0 <= i < n && perm[i] == (j as InvocationId)) as InvocationId,
        );
        assert forall|j: int| 0 <= j < n implies {
            &&& 0 <= (inv_perm[j] as int) < n
            &&& perm[inv_perm[j] as int] == j as InvocationId
        } by {
            assert(perm.contains(j as InvocationId));
            let i0 = choose|i: int| 0 <= i < n && perm[i] == (j as InvocationId);
            assert(perm[i0] == j as InvocationId);
            assert(inv_perm[j] == i0 as InvocationId);
        }
        assert(inv_perm.no_duplicates()) by {
            assert forall|a: int, b: int|
                0 <= a < inv_perm.len() && 0 <= b < inv_perm.len() && a != b
                    implies inv_perm[a] != inv_perm[b] by {
                if inv_perm[a] == inv_perm[b] {
                    assert(perm[inv_perm[a] as int] == a as InvocationId);
                    assert(perm[inv_perm[b] as int] == b as InvocationId);
                }
            }
        }
        let order2 = order1.map_values(|id: InvocationId| inv_perm[id as int]);
        assert forall|k: int| 0 <= k < inv_perm.len()
            implies #[trigger] ex1.parallel_part.inner@[k]
                == ex2.parallel_part.inner@[inv_perm[k] as int] by {
            assert(p2[inv_perm[k] as int] == p1[perm[inv_perm[k] as int] as int]);
            assert(perm[inv_perm[k] as int] == k as InvocationId);
        }
        lemma_reindexed_order_ok::<S>(ex2, ex1, inv_perm, order1, order2);
        assert(order_ok::<S>(ex2, order2));
    }
}

/// Carrying a linearization across a reindexing of the parallel part:
/// if each record of `exb`'s parallel part equals the record of
/// `exa`'s at the position `perm` gives, then composing a
/// linearization of `exb` with `perm` yields one of `exa`.
proof fn lemma_reindexed_order_ok<S: SequentialSpec>(
    exa: Execution<S::Op, S::Ret>,
    exb: Execution<S::Op, S::Ret>,
    perm: Seq<InvocationId>,
    orderb: Seq<InvocationId>,
    ordera: Seq<InvocationId>,
)
    requires
        exa.init_part == exb.init_part,
        exa.post_part == exb.post_part,
        perm.no_duplicates(),
        perm.len() == exa.parallel_part.inner@.len(),
        forall|k: int| #![trigger perm[k]] 0 <= k < perm.len()
            ==> (perm[k] as int) < exa.parallel_part.inner@.len(),
        exb.parallel_part.inner@.len() == exa.parallel_part.inner@.len(),
        forall|k: int| 0 <= k < perm.len()
            ==> #[trigger] exb.parallel_part.inner@[k]
                == exa.parallel_part.inner@[perm[k] as int],
        order_ok::<S>(exb, orderb),
        ordera == orderb.map_values(|id: InvocationId| perm[id as int]),
    ensures
        order_ok::<S>(exa, ordera),
{
    let pa = exa.parallel_part.inner@;
    let pb = exb.parallel_part.inner@;
    assert(mid_state::<S>(exa) == mid_state::<S>(exb));
    assert(ordera.no_duplicates()) by {
        assert forall|i: int, j: int|
            0 <= i < ordera.len() && 0 <= j < ordera.len() && i != j
                implies ordera[i] != ordera[j] by {
            assert(orderb[i] != orderb[j]);
            if perm[orderb[i] as int] == perm[orderb[j] as int] {
                assert(false);
            }
        }
    }
    assert forall|a: int, b: int| #![trigger ordera[a], ordera[b]]
        0 <= a < b < ordera.len() implies !hb(pa, ordera[b] as int, ordera[a] as int) by {
        assert(!hb(pb, orderb[b] as int, orderb[a] as int));
        assert(pb[orderb[a] as int] == pa[perm[orderb[a] as int] as int]);
        assert(pb[orderb[b] as int] == pa[perm[orderb[b] as int] as int]);
    }
    assert(valid_order(pa, ordera));
    assert(order_ops(pa, ordera) =~= order_ops(pb, orderb)) by {
        assert forall|k: int| 0 <= k < ordera.len()
            implies order_ops(pa, ordera)[k] == order_ops(pb, orderb)[k] by {
            assert(pb[orderb[k] as int] == pa[perm[orderb[k] as int] as int]);
        }
    }
    assert(order_rets(pa, ordera) =~= order_rets(pb, orderb)) by {
        assert forall|k: int| 0 <= k < ordera.len()
            implies order_rets(pa, ordera)[k] == order_rets(pb, orderb)[k] by {
            assert(pb[orderb[k] as int] == pa[perm[orderb[k] as int] as int]);
        }
    }
}

/// A sequence of distinct ids drawn from `[0, n)` has at most `n`
/// elements.
proof fn lemma_distinct_bounded_len(s: Seq<InvocationId>, n: int)
    requires
        s.no_duplicates(),
        forall|k: int| #![trigger s[k]] 0 <= k < s.len() ==> (s[k] as int) < n,
        n >= 0,
    ensures
        s.len() <= n,
{
    broadcast use vstd::seq_lib::seq_to_set_is_finite;

    let t = s.map_values(|u: InvocationId| u as int);
    assert(t.no_duplicates()) by {
        assert forall|i: int, j: int|
            0 <= i < t.len() && 0 <= j < t.len() && i != j implies t[i] != t[j] by {
            assert(s[i] != s[j]);
        }
    }
    t.unique_seq_to_set();
    lemma_int_range(0, n);
    assert(t.to_set().subset_of(vstd::set_lib::set_int_range(0, n))) by {
        assert forall|e: int|
            t.to_set().contains(e) implies vstd::set_lib::set_int_range(0, n).contains(e) by {
            let i = choose|i: int| 0 <= i < t.len() && t[i] == e;
            assert((s[i] as int) < n);
        }
    }
    vstd::set_lib::lemma_len_subset(t.to_set(), vstd::set_lib::set_int_range(0, n));
}

/// A sequence of `n` distinct ids drawn from `[0, n)` contains every
/// id of `[0, n)`.
proof fn lemma_pigeonhole(s: Seq<InvocationId>, n: int)
    requires
        s.no_duplicates(),
        forall|k: int| #![trigger s[k]] 0 <= k < s.len() ==> (s[k] as int) < n,
        s.len() == n,
    ensures
        forall|j: int| 0 <= j < n ==> s.contains(#[trigger] (j as InvocationId)),
{
    broadcast use vstd::seq_lib::seq_to_set_is_finite;

    let t = s.map_values(|u: InvocationId| u as int);
    assert(t.no_duplicates()) by {
        assert forall|i: int, j: int|
            0 <= i < t.len() && 0 <= j < t.len() && i != j implies t[i] != t[j] by {
            assert(s[i] != s[j]);
        }
    }
    t.unique_seq_to_set();
    lemma_int_range(0, n);
    assert(t.to_set().subset_of(vstd::set_lib::set_int_range(0, n))) by {
        assert forall|e: int|
            t.to_set().contains(e) implies vstd::set_lib::set_int_range(0, n).contains(e) by {
            let i = choose|i: int| 0 <= i < t.len() && t[i] == e;
            assert((s[i] as int) < n);
        }
    }
    lemma_subset_equality(t.to_set(), vstd::set_lib::set_int_range(0, n));
    assert forall|j: int| 0 <= j < n implies s.contains(#[trigger] (j as InvocationId)) by {
        assert(vstd::set_lib::set_int_range(0, n).contains(j));
        assert(t.to_set().contains(j));
        assert(t.contains(j));
        let i = choose|i: int| 0 <= i < t.len() && t[i] == j;
        assert((s[i] as int) == j);
        assert(s[i] == j as InvocationId);
    }
}

/// A well-formed placed prefix never lists an invocation before one
/// that happens-before it.
proof fn lemma_lin_respects_hb<Op, Ret>(
    p: Seq<ParallelInvocation<Op, Ret>>,
    lin: Seq<InvocationId>,
)
    requires
        lin_wf(p, lin),
    ensures
        forall|a: int, b: int| #![trigger lin[a], lin[b]]
            0 <= a <= b < lin.len() ==> !hb(p, lin[b] as int, lin[a] as int),
{
    assert forall|a: int, b: int| #![trigger lin[a], lin[b]]
        0 <= a <= b < lin.len() implies !hb(p, lin[b] as int, lin[a] as int) by {
        if hb(p, lin[b] as int, lin[a] as int) {
            assert(lin.subrange(0, a).contains(lin[b]));
            let idx = choose|idx: int| 0 <= idx < a && lin.subrange(0, a)[idx] == lin[b];
            assert(lin[idx] == lin[b]);
            assert(false);
        }
    }
}

/// Appending an invocation whose predecessors are all placed keeps the
/// placed prefix well formed.
proof fn lemma_lin_wf_push<Op, Ret>(
    p: Seq<ParallelInvocation<Op, Ret>>,
    lin: Seq<InvocationId>,
    c: InvocationId,
)
    requires
        lin_wf(p, lin),
        (c as int) < p.len(),
        !lin.contains(c),
        preds_in(p, lin, c as int),
    ensures
        lin_wf(p, lin.push(c)),
{
    let lin2 = lin.push(c);
    assert(lin2.no_duplicates()) by {
        assert forall|i: int, j: int|
            0 <= i < lin2.len() && 0 <= j < lin2.len() && i != j implies lin2[i] != lin2[j] by {
            if i < lin.len() && j < lin.len() {
                assert(lin[i] != lin[j]);
            } else if i < lin.len() && j == lin.len() {
                if lin2[i] == c {
                    assert(lin.contains(c));
                }
            } else if j < lin.len() && i == lin.len() {
                if lin2[j] == c {
                    assert(lin.contains(c));
                }
            }
        }
    }
    assert forall|k: int, x: int| #![trigger hb(p, x, lin2[k] as int)]
        0 <= k < lin2.len() && 0 <= x < p.len() && hb(p, x, lin2[k] as int)
            implies lin2.subrange(0, k).contains(x as InvocationId) by {
        if k < lin.len() {
            assert(lin2[k] == lin[k]);
            assert(hb(p, x, lin[k] as int));
            assert(lin.subrange(0, k).contains(x as InvocationId));
            assert(lin2.subrange(0, k) =~= lin.subrange(0, k));
        } else {
            assert(lin2[k] == c);
            assert(hb(p, x, c as int));
            assert(lin.contains(x as InvocationId));
            assert(lin2.subrange(0, k) =~= lin);
        }
    }
}

/// The next invocation of any linearization extending the placed
/// prefix `lin` is an in-range id that is not yet placed and whose
/// happens-before predecessors are all placed; and the extension by
/// that id is still a prefix of the linearization.
proof fn lemma_good_next<S: SequentialSpec>(
    ex: Execution<S::Op, S::Ret>,
    lin: Seq<InvocationId>,
    order: Seq<InvocationId>,
)
    requires
        ex.parallel_part.inner@.len() <= usize::MAX,
        completes::<S>(ex, lin, order),
        lin.len() < order.len(),
    ensures
        (order[lin.len() as int] as int) < ex.parallel_part.inner@.len(),
        !lin.contains(order[lin.len() as int]),
        preds_in(ex.parallel_part.inner@, lin, order[lin.len() as int] as int),
        completes::<S>(ex, lin.push(order[lin.len() as int]), order),
{
    let p = ex.parallel_part.inner@;
    let pos = lin.len() as int;
    let c = order[pos];
    assert(lin =~= order.subrange(0, pos));
    assert(forall|i: int| 0 <= i < pos ==> lin[i] == #[trigger] order[i]);
    if lin.contains(c) {
        let i = choose|i: int| 0 <= i < lin.len() && lin[i] == c;
        assert(order[i] == order[pos]);
        assert(false);
    }
    assert forall|x: int|
        0 <= x < p.len() && #[trigger] hb(p, x, c as int)
            implies lin.contains(x as InvocationId) by {
        lemma_pigeonhole(order, p.len() as int);
        assert(order.contains(x as InvocationId));
        let q = choose|q: int| 0 <= q < order.len() && order[q] == x as InvocationId;
        assert((x as InvocationId) as int == x);
        if q > pos {
            assert(!hb(p, order[q] as int, order[pos] as int));
            assert(false);
        } else if q == pos {
            assert(!hb(p, order[pos] as int, order[pos] as int));
            assert(false);
        } else {
            assert(lin[q] == x as InvocationId);
        }
    }
    assert(lin.push(c).is_prefix_of(order)) by {
        assert(lin.push(c) =~= order.subrange(0, pos + 1));
    }
}

/// The replay of any prefix of a linearization matches the recorded
/// return values of that prefix.
proof fn lemma_prefix_replay<S: SequentialSpec>(
    ex: Execution<S::Op, S::Ret>,
    lin: Seq<InvocationId>,
    order: Seq<InvocationId>,
)
    requires
        order_ok::<S>(ex, order),
        lin.is_prefix_of(order),
    ensures
        replay_matches::<S>(
            mid_state::<S>(ex),
            order_ops(ex.parallel_part.inner@, lin),
            order_rets(ex.parallel_part.inner@, lin),
        ),
{
    let p = ex.parallel_part.inner@;
    let k = lin.len() as int;
    lemma_replay_matches_take::<S>(
        mid_state::<S>(ex),
        order_ops(p, order),
        order_rets(p, order),
        k,
    );
    assert(order_ops(p, order).take(k) =~= order_ops(p, lin));
    assert(order_rets(p, order).take(k) =~= order_rets(p, lin));
}

/// Whether `x` occurs in `v`.
fn vec_contains(v: &Vec<InvocationId>, x: InvocationId) -> (b: bool)
    ensures
        b == v@.contains(x),
{
    let mut i: usize = 0;
    while i < v.len()
        invariant
            0 <= i <= v@.len(),
            forall|k: int| 0 <= k < i ==> v@[k] != x,
        decreases v@.len() - i,
    {
        if v[i] == x {
            proof {
                assert(v@[i as int] == x);
            }
            return true;
        }
        i = i + 1;
    }
    proof {
        assert(!v@.contains(x)) by {
            if v@.contains(x) {
                let j = choose|j: int| 0 <= j < v@.len() && v@[j] == x;
                assert(v@[j] != x);
            }
        }
    }
    false
}

} // verus!

