use lincheck::checker::LinearizabilityChecker;
use lincheck::execution::{History, ParallelHistory, Execution};
use lincheck::recorder::{record_init_part, InternalRecorder, Recorder};
use lincheck::SequentialSpec;

#[derive(Debug, Clone, Copy, PartialEq, Eq)]
enum Op<T> {
    Push(T),
    Pop,
}

#[derive(Debug, Clone, Copy, PartialEq, Eq)]
enum Ret<T> {
    Push,
    Pop(Option<T>),
}

#[derive(Debug, Clone)]
struct SequentialStack<T> {
    stack: Vec<T>,
}

impl<T: Copy + PartialEq> SequentialSpec for SequentialStack<T> {
    type Op = Op<T>;
    type Ret = Ret<T>;

    fn fresh() -> Self {
        Self { stack: Vec::new() }
    }

    fn execute(&mut self, op: &Self::Op) -> Self::Ret {
        match *op {
            Op::Push(value) => {
                self.stack.push(value);
                Ret::Push
            }
            Op::Pop => Ret::Pop(self.stack.pop()),
        }
    }

    fn ret_eq(x: &Self::Ret, y: &Self::Ret) -> bool {
        x == y
    }
}

#[test]
fn init_and_post_parts_are_sequentional() {
    let mut recorder = record_init_part();
    recorder.record(Op::Push(1), || Ret::Push);
    recorder.record(Op::Push(2), || Ret::Push);

    let mut recorder = recorder.record_post_part();
    recorder.record(Op::Pop, || Ret::Pop(Some(2)));
    recorder.record(Op::Pop, || Ret::Pop(Some(1)));

    let execution = recorder.finish();

    assert!(LinearizabilityChecker::<SequentialStack<i32>>::check(
        &execution
    ));
}

#[test]
fn parallel_part_overlapping() {
    let mut init_recorder = record_init_part();
    init_recorder.record(Op::Push(1), || Ret::Push);
    init_recorder.record(Op::Push(2), || Ret::Push);
    let init_part = init_recorder.finish().init_part;

    let mut recorder_a = InternalRecorder::new(0);
    let mut recorder_b = InternalRecorder::new(1);
    recorder_a.add_call(Op::Pop, 4);
    recorder_b.add_call(Op::Pop, 5);
    recorder_a.add_return(Ret::Pop(Some(2)), 6);
    recorder_b.add_return(Ret::Pop(Some(1)), 7);

    let execution = Execution {
        init_part,
        parallel_part: ParallelHistory {
            inner: [
                recorder_a.history().into_inner(),
                recorder_b.history().into_inner(),
            ]
            .concat(),
        },
        post_part: History::new(),
    };

    assert!(LinearizabilityChecker::<SequentialStack<i32>>::check(
        &execution
    ));
}

#[test]
fn parallel_part_does_not_violate_happens_before() {
    let mut recorder_a = InternalRecorder::new(0);
    let mut recorder_b = InternalRecorder::new(1);
    recorder_a.add_call(Op::Pop, 4);
    recorder_b.add_call(Op::Pop, 5);
    recorder_a.add_return(Ret::Pop(Some(1)), 6);

    recorder_a.add_call(Op::Push(1), 7);
    recorder_b.add_return(Ret::Pop(None), 8);
    recorder_a.add_return(Ret::Push, 9);

    let execution = Execution {
        init_part: History::new(),
        parallel_part: ParallelHistory {
            inner: [
                recorder_a.history().into_inner(),
                recorder_b.history().into_inner(),
            ]
            .concat(),
        },
        post_part: History::new(),
    };

    assert!(!LinearizabilityChecker::<SequentialStack<i32>>::check(
        &execution
    ));
}

#[test]
fn empty_execution_is_linearizable() {
    let execution: Execution<Op<i32>, Ret<i32>> = Execution {
        init_part: History::new(),
        parallel_part: ParallelHistory::new(),
        post_part: History::new(),
    };
    assert!(LinearizabilityChecker::<SequentialStack<i32>>::check(
        &execution
    ));
}

#[test]
fn checker_verdict_is_deterministic() {
    let mut recorder = record_init_part();
    recorder.record(Op::Push(5), || Ret::Push);
    let mut recorder = recorder.record_post_part();
    recorder.record(Op::Pop, || Ret::Pop(Some(5)));
    let execution = recorder.finish();

    let first = LinearizabilityChecker::<SequentialStack<i32>>::check(&execution);
    let second = LinearizabilityChecker::<SequentialStack<i32>>::check(&execution);
    assert_eq!(first, second);
    assert!(first);
}

#[test]
fn corrupted_init_return_fails() {
    let mut recorder = record_init_part();
    recorder.record(Op::Push(1), || Ret::Push);
    let mut recorder = recorder.record_post_part();
    recorder.record(Op::Pop, || Ret::Pop(Some(1)));
    let mut execution = recorder.finish();
    assert!(LinearizabilityChecker::<SequentialStack<i32>>::check(
        &execution
    ));

    // a push that claims to have returned a pop result cannot replay
    execution.init_part.inner[0].ret = Ret::Pop(None);
    assert!(!LinearizabilityChecker::<SequentialStack<i32>>::check(
        &execution
    ));
}

#[test]
fn sequential_only_verdict_matches_replay() {
    // matching init and post replay: linearizable
    let mut recorder = record_init_part();
    recorder.record(Op::Push(7), || Ret::Push);
    let mut recorder = recorder.record_post_part();
    recorder.record(Op::Pop, || Ret::Pop(Some(7)));
    let execution = recorder.finish();
    assert!(LinearizabilityChecker::<SequentialStack<i32>>::check(
        &execution
    ));

    // a single mismatched post return flips the verdict
    let mut execution = execution;
    execution.post_part.inner[0].ret = Ret::Pop(None);
    assert!(!LinearizabilityChecker::<SequentialStack<i32>>::check(
        &execution
    ));
}

#[test]
fn merge_order_does_not_change_verdict() {
    let mut init_recorder = record_init_part();
    init_recorder.record(Op::Push(1), || Ret::Push);
    init_recorder.record(Op::Push(2), || Ret::Push);
    let init_part = init_recorder.finish().init_part;

    let mut recorder_a = InternalRecorder::new(0);
    let mut recorder_b = InternalRecorder::new(1);
    recorder_a.add_call(Op::Pop, 4);
    recorder_b.add_call(Op::Pop, 5);
    recorder_a.add_return(Ret::Pop(Some(2)), 6);
    recorder_b.add_return(Ret::Pop(Some(1)), 7);
    let part_a = recorder_a.history().into_inner();
    let part_b = recorder_b.history().into_inner();

    let forward = Execution {
        init_part: init_part.clone(),
        parallel_part: ParallelHistory {
            inner: [part_a.clone(), part_b.clone()].concat(),
        },
        post_part: History::new(),
    };
    let backward = Execution {
        init_part,
        parallel_part: ParallelHistory {
            inner: [part_b, part_a].concat(),
        },
        post_part: History::new(),
    };

    assert_eq!(
        LinearizabilityChecker::<SequentialStack<i32>>::check(&forward),
        LinearizabilityChecker::<SequentialStack<i32>>::check(&backward),
    );
}
