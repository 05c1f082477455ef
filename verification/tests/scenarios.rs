use lincheck::checker::LinearizabilityChecker;
use lincheck::execution::{History, Invocation, ParallelHistory, ParallelInvocation, Execution};
use lincheck::SequentialSpec;

#[derive(Debug, Clone, Copy, PartialEq, Eq)]
enum SlotOp {
    WriteX,
    WriteY,
    ReadY,
}

#[derive(Debug, Clone, Copy, PartialEq, Eq)]
enum SlotRet {
    Write,
    Read(bool),
}

#[derive(Debug, Clone, Default)]
struct TwoSlotsSequential {
    x: bool,
    y: bool,
}

impl SequentialSpec for TwoSlotsSequential {
    type Op = SlotOp;
    type Ret = SlotRet;

    fn fresh() -> Self {
        Self { x: false, y: false }
    }

    fn execute(&mut self, op: &SlotOp) -> SlotRet {
        match *op {
            SlotOp::WriteX => {
                self.x = true;
                SlotRet::Write
            }
            SlotOp::WriteY => {
                self.y = true;
                SlotRet::Write
            }
            SlotOp::ReadY => SlotRet::Read(self.y),
        }
    }

    fn ret_eq(x: &SlotRet, y: &SlotRet) -> bool {
        x == y
    }
}

#[derive(Debug, Clone, Copy, PartialEq, Eq)]
enum CounterOp {
    Increment,
}

#[derive(Debug, Clone, Copy, PartialEq, Eq)]
enum CounterRet {
    OldValue(usize),
}

#[derive(Debug, Clone, Default)]
struct SequentialCounter {
    x: usize,
}

impl SequentialSpec for SequentialCounter {
    type Op = CounterOp;
    type Ret = CounterRet;

    fn fresh() -> Self {
        Self { x: 0 }
    }

    fn execute(&mut self, op: &CounterOp) -> CounterRet {
        match *op {
            CounterOp::Increment => {
                let val = self.x;
                self.x += 1;
                CounterRet::OldValue(val)
            }
        }
    }

    fn ret_eq(x: &CounterRet, y: &CounterRet) -> bool {
        x == y
    }
}

fn counter_execution(first: usize, second: usize) -> Execution<CounterOp, CounterRet> {
    Execution {
        init_part: History::new(),
        parallel_part: ParallelHistory {
            inner: vec![
                ParallelInvocation {
                    thread_id: 0,
                    call_timestamp: 0,
                    return_timestamp: 2,
                    op: CounterOp::Increment,
                    ret: CounterRet::OldValue(first),
                },
                ParallelInvocation {
                    thread_id: 1,
                    call_timestamp: 1,
                    return_timestamp: 3,
                    op: CounterOp::Increment,
                    ret: CounterRet::OldValue(second),
                },
            ],
        },
        post_part: History::new(),
    }
}

#[test]
fn two_flag_counterexample_is_rejected() {
    // WriteY completed and happens-before ReadY, yet ReadY returned
    // false: no interleaving of the sequential spec explains it
    let execution = Execution {
        init_part: History {
            inner: vec![Invocation {
                op: SlotOp::WriteX,
                ret: SlotRet::Write,
            }],
        },
        parallel_part: ParallelHistory {
            inner: vec![
                ParallelInvocation {
                    thread_id: 1,
                    call_timestamp: 0,
                    return_timestamp: 1,
                    op: SlotOp::WriteY,
                    ret: SlotRet::Write,
                },
                ParallelInvocation {
                    thread_id: 0,
                    call_timestamp: 2,
                    return_timestamp: 3,
                    op: SlotOp::ReadY,
                    ret: SlotRet::Read(false),
                },
            ],
        },
        post_part: History {
            inner: vec![Invocation {
                op: SlotOp::WriteX,
                ret: SlotRet::Write,
            }],
        },
    };
    assert!(!LinearizabilityChecker::<TwoSlotsSequential>::check(
        &execution
    ));
}

#[test]
fn overlapping_reads_may_see_old_value() {
    // the same read of false is fine while it overlaps the write
    let execution = Execution {
        init_part: History::new(),
        parallel_part: ParallelHistory {
            inner: vec![
                ParallelInvocation {
                    thread_id: 1,
                    call_timestamp: 0,
                    return_timestamp: 2,
                    op: SlotOp::WriteY,
                    ret: SlotRet::Write,
                },
                ParallelInvocation {
                    thread_id: 0,
                    call_timestamp: 1,
                    return_timestamp: 3,
                    op: SlotOp::ReadY,
                    ret: SlotRet::Read(false),
                },
            ],
        },
        post_part: History::new(),
    };
    assert!(LinearizabilityChecker::<TwoSlotsSequential>::check(
        &execution
    ));
}

#[test]
fn counter_both_observe_zero_is_rejected() {
    let execution = counter_execution(0, 0);
    assert!(!LinearizabilityChecker::<SequentialCounter>::check(
        &execution
    ));
}

#[test]
fn counter_distinct_old_values_pass() {
    let execution = counter_execution(0, 1);
    assert!(LinearizabilityChecker::<SequentialCounter>::check(
        &execution
    ));
    let execution = counter_execution(1, 0);
    assert!(LinearizabilityChecker::<SequentialCounter>::check(
        &execution
    ));
}

#[test]
fn counter_verdict_survives_merge_order() {
    let swapped = Execution {
        init_part: History::new(),
        parallel_part: ParallelHistory {
            inner: counter_execution(0, 0)
                .parallel_part
                .into_inner()
                .into_iter()
                .rev()
                .collect(),
        },
        post_part: History::new(),
    };
    assert!(!LinearizabilityChecker::<SequentialCounter>::check(
        &swapped
    ));
}

#[test]
fn rendered_execution_shows_thread_columns() {
    let execution = counter_execution(0, 1);
    let text = execution.render();
    assert!(text.contains("INIT PART:"));
    assert!(text.contains("PARALLEL PART:"));
    assert!(text.contains("POST PART:"));
    assert!(text.contains("THREAD 0"));
    assert!(text.contains("THREAD 1"));
    assert!(text.contains("Increment : OldValue(0)"));
}

struct NoisyOp;

impl std::fmt::Debug for NoisyOp {
    fn fmt(&self, f: &mut std::fmt::Formatter<'_>) -> std::fmt::Result {
        f.write_str("first\nsecond")
    }
}

#[derive(Debug)]
struct NoisyRet;

#[test]
fn multi_line_debug_text_is_truncated() {
    // a Debug rendering with an embedded newline is cut at the first
    // line so the table geometry stays intact
    let execution: Execution<NoisyOp, NoisyRet> = Execution {
        init_part: History {
            inner: vec![Invocation {
                op: NoisyOp,
                ret: NoisyRet,
            }],
        },
        parallel_part: ParallelHistory::new(),
        post_part: History::new(),
    };
    let text = execution.render();
    assert!(text.contains("first"));
    assert!(!text.contains("second"));
}

#[test]
fn well_formed_execution_is_accepted() {
    let execution = counter_execution(0, 1);
    assert!(lincheck::recorder::execution_well_formed(&execution));
}

#[test]
fn empty_interval_is_rejected() {
    let mut execution = counter_execution(0, 1);
    execution.parallel_part.inner[0].return_timestamp =
        execution.parallel_part.inner[0].call_timestamp;
    assert!(!lincheck::recorder::execution_well_formed(&execution));
}

#[test]
fn overlapping_same_thread_records_are_rejected() {
    // two records of one thread whose intervals overlap violate the
    // per-thread invariant
    let mut execution = counter_execution(0, 1);
    execution.parallel_part.inner[1].thread_id = 0;
    assert!(!lincheck::recorder::execution_well_formed(&execution));
}
