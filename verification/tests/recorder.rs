use lincheck::execution::Invocation;
use lincheck::recorder::{record_init_part, record_parallel_part, Recorder};

#[derive(Clone, Copy, Debug, PartialEq, Eq)]
enum Op {
    A,
    B,
}

#[derive(Clone, Copy, Debug, PartialEq, Eq)]
enum Ret {
    A,
    B,
}

#[test]
fn test_record_init() {
    let mut recorder = record_init_part();

    recorder.record(Op::A, || Ret::A);
    recorder.record(Op::B, || Ret::B);

    let execution = recorder.finish();

    assert_eq!(
        execution.init_part.into_inner(),
        vec![
            Invocation {
                op: Op::A,
                ret: Ret::A,
            },
            Invocation {
                op: Op::B,
                ret: Ret::B,
            },
        ]
    );
}

#[test]
fn test_record_post() {
    let mut recorder = record_init_part().record_post_part();

    recorder.record(Op::A, || Ret::A);
    recorder.record(Op::B, || Ret::B);

    let execution = recorder.finish();

    assert_eq!(
        execution.post_part.into_inner(),
        vec![
            Invocation {
                op: Op::A,
                ret: Ret::A,
            },
            Invocation {
                op: Op::B,
                ret: Ret::B,
            },
        ]
    );
}

#[test]
fn per_thread_timestamps_are_monotone() {
    // the shared counter ticks once at every call and once at every
    // return, so on a single thread the records read 0,1 then 2,3
    let mut recorder = record_parallel_part::<Op, Ret>();
    let mut thread_recorder = recorder.record_thread();
    thread_recorder.record(Op::A, || Ret::A);
    thread_recorder.record(Op::B, || Ret::B);
    let history = thread_recorder.finish();
    recorder.merge_thread(history);
    let execution = recorder.finish();

    let records = execution.parallel_part.into_inner();
    assert_eq!(records.len(), 2);
    assert_eq!(records[0].thread_id, 0);
    assert_eq!(records[1].thread_id, 0);
    assert_eq!(records[0].call_timestamp, 0);
    assert_eq!(records[0].return_timestamp, 1);
    assert_eq!(records[1].call_timestamp, 2);
    assert_eq!(records[1].return_timestamp, 3);
    assert!(records[0].call_timestamp < records[0].return_timestamp);
    assert!(records[0].return_timestamp < records[1].call_timestamp);
}

#[test]
fn timestamps_are_globally_distinct() {
    // two thread recorders drawing from one shared counter never see
    // the same tick twice
    let mut recorder = record_parallel_part::<Op, Ret>();
    let mut first = recorder.record_thread();
    let mut second = recorder.record_thread();
    first.record(Op::A, || Ret::A);
    second.record(Op::B, || Ret::B);
    let history = first.finish();
    recorder.merge_thread(history);
    let history = second.finish();
    recorder.merge_thread(history);
    let execution = recorder.finish();

    let records = execution.parallel_part.into_inner();
    assert_eq!(records.len(), 2);
    assert_eq!(records[0].thread_id, 0);
    assert_eq!(records[1].thread_id, 1);
    let mut timestamps = vec![
        records[0].call_timestamp,
        records[0].return_timestamp,
        records[1].call_timestamp,
        records[1].return_timestamp,
    ];
    timestamps.sort();
    assert_eq!(timestamps, vec![0, 1, 2, 3]);
}

#[test]
fn thread_parts_group_by_thread_in_order() {
    let mut recorder = record_parallel_part::<Op, Ret>();
    let mut first = recorder.record_thread();
    let mut second = recorder.record_thread();
    first.record(Op::A, || Ret::A);
    second.record(Op::B, || Ret::B);
    first.record(Op::B, || Ret::B);
    let history = second.finish();
    recorder.merge_thread(history);
    let history = first.finish();
    recorder.merge_thread(history);
    let execution = recorder.finish();

    let parts = execution.parallel_part.get_thread_parts();
    assert_eq!(parts.len(), 2);
    assert_eq!(parts[0].len(), 2);
    assert_eq!(parts[1].len(), 1);
    assert_eq!(parts[0][0].op, Op::A);
    assert_eq!(parts[0][1].op, Op::B);
    assert!(parts[0][0].return_timestamp < parts[0][1].call_timestamp);
    assert_eq!(parts[1][0].op, Op::B);
    assert_eq!(parts[1][0].thread_id, 1);
}
