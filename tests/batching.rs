use bytewax::batch::{BatchLogic, LogicFate, WakeReason};

#[test]
fn example_b_size_then_timeout() {
    let mut b = BatchLogic::builder(3, 5, 0, None);
    assert_eq!(b.on_awake(0, WakeReason::ItemArrived("A")), None);
    assert_eq!(b.on_awake(1, WakeReason::ItemArrived("B")), None);
    assert_eq!(b.on_awake(2, WakeReason::ItemArrived("C")), Some(vec!["A", "B", "C"]));
    // The flush at t=2 restarted the timeout window: it ends at 2 + 5.
    assert_eq!(b.next_awake(2), Some(7));
    assert_eq!(b.on_awake(3, WakeReason::ItemArrived("D")), None);
    assert_eq!(b.next_awake(3), Some(7));
    assert_eq!(b.fate(), LogicFate::Retain);
    assert_eq!(b.on_awake(7, WakeReason::TimerOnly), Some(vec!["D"]));
    assert_eq!(b.fate(), LogicFate::Discard);
}

#[test]
fn batches_never_exceed_size() {
    let mut b = BatchLogic::builder(4, 1_000_000, 0, None);
    let mut out = Vec::new();
    for i in 0..23u32 {
        if let Some(batch) = b.on_awake(i as i64, WakeReason::ItemArrived(i)) {
            assert!(batch.len() <= 4);
            out.extend(batch);
        }
    }
    if let Some(batch) = b.on_awake(30, WakeReason::UpstreamClosed) {
        assert!(batch.len() <= 4);
        out.extend(batch);
    }
    assert_eq!(out, (0..23u32).collect::<Vec<u32>>());
    assert_eq!(b.fate(), LogicFate::Discard);
}

#[test]
fn arrival_after_timeout_flushes() {
    let mut b = BatchLogic::builder(10, 5, 0, None);
    assert_eq!(b.on_awake(1, WakeReason::ItemArrived(1)), None);
    assert_eq!(b.on_awake(5, WakeReason::ItemArrived(2)), Some(vec![1, 2]));
    assert_eq!(b.next_awake(5), Some(10));
}

#[test]
fn timer_before_timeout_emits_nothing() {
    let mut b = BatchLogic::builder(10, 5, 0, None);
    assert_eq!(b.on_awake(1, WakeReason::ItemArrived(1)), None);
    assert_eq!(b.on_awake(4, WakeReason::TimerOnly), None);
    assert_eq!(b.fate(), LogicFate::Retain);
    assert_eq!(b.on_awake(5, WakeReason::TimerOnly), Some(vec![1]));
}

#[test]
fn upstream_closed_flushes_regardless() {
    let mut b = BatchLogic::builder(10, 1000, 0, None);
    b.on_awake(0, WakeReason::ItemArrived('x'));
    b.on_awake(0, WakeReason::ItemArrived('y'));
    assert_eq!(b.on_awake(1, WakeReason::UpstreamClosed), Some(vec!['x', 'y']));
    assert_eq!(b.on_awake(2, WakeReason::UpstreamClosed), None);
    assert_eq!(b.fate(), LogicFate::Discard);
}

#[test]
fn empty_drain_still_restarts_timeout() {
    let mut b: BatchLogic<u8> = BatchLogic::builder(10, 5, 0, None);
    assert_eq!(b.on_awake(6, WakeReason::TimerOnly), None);
    assert_eq!(b.next_awake(6), Some(11));
    assert_eq!(b.next_awake(20), Some(20));
}

#[test]
fn next_awake_when_clock_is_behind() {
    let b: BatchLogic<u8> = BatchLogic::builder(10, 5, 100, None);
    assert_eq!(b.next_awake(90), Some(105));
    assert_eq!(b.next_awake(102), Some(105));
}

#[test]
fn clock_behind_last_flush_is_not_expired() {
    let mut b = BatchLogic::builder(10, 0, 100, None);
    assert_eq!(b.on_awake(90, WakeReason::ItemArrived(1)), None);
    assert_eq!(b.on_awake(95, WakeReason::TimerOnly), None);
    assert_eq!(b.fate(), LogicFate::Retain);
    assert_eq!(b.next_awake(95), Some(100));
    assert_eq!(b.on_awake(100, WakeReason::TimerOnly), Some(vec![1]));
}

#[test]
fn fate_is_idempotent() {
    let mut b = BatchLogic::builder(10, 5, 0, None);
    assert_eq!(b.fate(), LogicFate::Discard);
    assert_eq!(b.fate(), LogicFate::Discard);
    b.on_awake(1, WakeReason::ItemArrived(9));
    assert_eq!(b.fate(), LogicFate::Retain);
    assert_eq!(b.fate(), LogicFate::Retain);
    assert_eq!(b.snapshot(), vec![9]);
    assert_eq!(b.fate(), LogicFate::Retain);
}

#[test]
fn batch_resume_reproduces_outputs() {
    let mut a = BatchLogic::builder(3, 5, 0, None);
    a.on_awake(0, WakeReason::ItemArrived(1));
    a.on_awake(1, WakeReason::ItemArrived(2));
    let snap = a.snapshot();
    assert_eq!(snap, vec![1, 2]);
    // Resumed with the same timeout anchor as the original (t=0), the two
    // see identical outputs for identical inputs.
    let mut r = BatchLogic::builder(3, 5, 0, Some(snap));
    assert_eq!(r.fate(), a.fate());
    let inputs = [
        (2, WakeReason::ItemArrived(3)),
        (3, WakeReason::ItemArrived(4)),
        (4, WakeReason::TimerOnly),
        (9, WakeReason::TimerOnly),
        (10, WakeReason::UpstreamClosed),
    ];
    for (t, reason) in inputs {
        assert_eq!(r.on_awake(t, reason), a.on_awake(t, reason));
    }
}

#[test]
fn resume_restarts_timeout_at_resume_time() {
    let mut a = BatchLogic::builder(10, 5, 0, None);
    a.on_awake(0, WakeReason::ItemArrived(1));
    let r: BatchLogic<i32> = BatchLogic::builder(10, 5, 100, Some(a.snapshot()));
    assert_eq!(r.next_awake(100), Some(105));
    assert_eq!(a.next_awake(100), Some(100));
}

#[test]
fn clock_driven_accumulator() {
    let mut b = BatchLogic::builder_now(3, 1_000_000, Some(vec![1, 2]));
    assert_eq!(b.fate(), LogicFate::Retain);
    // The clock reads long after the epoch, so the wake request does too.
    match b.next_awake_now() {
        Some(t) => assert!(t > 1_500_000_000_000),
        None => panic!("no wake request"),
    }
    assert_eq!(b.on_awake_now(WakeReason::ItemArrived(3)), Some(vec![1, 2, 3]));
    assert_eq!(b.on_awake_now(WakeReason::ItemArrived(4)), None);
    assert_eq!(b.on_awake_now(WakeReason::UpstreamClosed), Some(vec![4]));
    assert_eq!(b.fate(), LogicFate::Discard);
}
