//! The user-facing interfaces — a sequential reference implementation
//! and the concurrent implementation under test — together with the
//! replay semantics of the sequential one.

use vstd::prelude::*;

verus! {

/// The sequential implementation of a data structure.
///
/// The mathematical behaviour of an implementation is given by the two
/// spec functions: `init_state` is the freshly constructed state and
/// `step` is the transition function, returning the successor state
/// together with the value the operation returns. The executable
/// methods are contracted to agree with them; since spec functions are
/// deterministic, this is exactly the determinism the checker relies
/// on: two identically constructed instances fed the same operations
/// return equal values.
pub trait SequentialSpec: Sized {
    /// The type of operations.
    type Op;

    /// The type of return values.
    type Ret;

    /// The freshly constructed state. The default is an unspecified
    /// value; an implementation overrides it with its actual initial
    /// state, or `fresh` cannot be verified against it.
    open spec fn init_state() -> Self {
        vstd::pervasive::arbitrary()
    }

    /// The transition function: successor state and return value of
    /// executing `op` in state `s`. The default is an unspecified
    /// value; an implementation overrides it with its actual
    /// transition, or `execute` cannot be verified against it.
    open spec fn step(s: Self, op: Self::Op) -> (Self, Self::Ret) {
        vstd::pervasive::arbitrary()
    }

    /// Constructs a fresh instance.
    fn fresh() -> (s: Self)
        ensures
            s == Self::init_state(),
    ;

    /// Executes an operation on the data structure.
    fn execute(&mut self, op: &Self::Op) -> (r: Self::Ret)
        ensures
            *final(self) == Self::step(*old(self), *op).0,
            r == Self::step(*old(self), *op).1,
    ;

    /// Decides equality of two return values.
    fn ret_eq(x: &Self::Ret, y: &Self::Ret) -> (r: bool)
        ensures
            r == (x == y),
    ;
}

/// The concurrent implementation of a data structure.
///
/// Nothing is promised of `execute`: its behaviour under concurrency
/// is precisely what the checker puts to the test.
pub trait ConcurrentSpec: Sized {
    /// The sequential specification for the data structure.
    type Seq: SequentialSpec;

    /// Constructs a fresh instance.
    fn fresh() -> Self;

    /// Executes an operation on the data structure.
    fn execute(&self, op: &ConcOp<Self>) -> ConcRet<Self>;
}

/// The operation type of a concurrent implementation.
pub type ConcOp<T> = <<T as ConcurrentSpec>::Seq as SequentialSpec>::Op;

/// The return type of a concurrent implementation.
pub type ConcRet<T> = <<T as ConcurrentSpec>::Seq as SequentialSpec>::Ret;

/// The state reached by executing `ops`, in order, from state `s`.
pub open spec fn state_after<S: SequentialSpec>(s: S, ops: Seq<S::Op>) -> S
    decreases ops.len(),
{
    if ops.len() == 0 {
        s
    } else {
        S::step(state_after::<S>(s, ops.drop_last()), ops.last()).0
    }
}

/// Whether executing `ops`, in order, from state `s` returns exactly
/// the values `rets`.
pub open spec fn replay_matches<S: SequentialSpec>(s: S, ops: Seq<S::Op>, rets: Seq<S::Ret>) -> bool
    decreases ops.len(),
{
    &&& ops.len() == rets.len()
    &&& (ops.len() > 0 ==> {
        &&& replay_matches::<S>(s, ops.drop_last(), rets.drop_last())
        &&& S::step(state_after::<S>(s, ops.drop_last()), ops.last()).1 == rets.last()
    })
}

/// Executing one more operation advances the replayed state by one
/// transition.
pub proof fn lemma_state_after_snoc<S: SequentialSpec>(s: S, ops: Seq<S::Op>, op: S::Op)
    ensures
        state_after::<S>(s, ops.push(op)) == S::step(state_after::<S>(s, ops), op).0,
{
    assert(ops.push(op).drop_last() =~= ops);
    assert(ops.push(op).last() == op);
}

/// A successful replay stays successful when cut short.
pub proof fn lemma_replay_matches_take<S: SequentialSpec>(
    s: S,
    ops: Seq<S::Op>,
    rets: Seq<S::Ret>,
    k: int,
)
    requires
        replay_matches::<S>(s, ops, rets),
        0 <= k <= ops.len(),
    ensures
        replay_matches::<S>(s, ops.take(k), rets.take(k)),
    decreases ops.len(),
{
    if k == ops.len() {
        assert(ops.take(k) =~= ops);
        assert(rets.take(k) =~= rets);
    } else {
        assert(ops.drop_last().take(k) =~= ops.take(k));
        assert(rets.drop_last().take(k) =~= rets.take(k));
        lemma_replay_matches_take::<S>(s, ops.drop_last(), rets.drop_last(), k);
    }
}

} // verus!
