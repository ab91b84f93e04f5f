use bytewax::time::MAX_TIMESTAMP;
use bytewax::window::{
    snapshot_is_consistent, BuildError, InsertError, TumblingWindowConfig, TumblingWindower,
    WindowKey,
};

const T0: i64 = 1_600_000_000_000;
const SEC: i64 = 1000;

fn sorted(mut v: Vec<(WindowKey, i64)>) -> Vec<(WindowKey, i64)> {
    v.sort();
    v
}

#[test]
fn example_a_tumbling_windows() {
    let mut w = TumblingWindower::builder(10 * SEC, T0, None);
    assert_eq!(w.insert(T0, T0 + 3 * SEC), vec![Ok(WindowKey(0))]);
    assert_eq!(w.next_close(), Some(T0 + 10 * SEC));
    assert_eq!(w.insert(T0, T0 + 11 * SEC), vec![Ok(WindowKey(1))]);
    assert_eq!(
        sorted(w.snapshot()),
        vec![(WindowKey(0), T0 + 10 * SEC), (WindowKey(1), T0 + 20 * SEC)]
    );
    assert_eq!(w.drain_closed(T0 + 10_500), vec![WindowKey(0)]);
    assert_eq!(w.drain_closed(T0 + 10_500), vec![]);
    assert_eq!(w.next_close(), Some(T0 + 20 * SEC));
}

#[test]
fn example_c_late_item() {
    let mut w = TumblingWindower::builder(10 * SEC, T0, None);
    assert_eq!(
        w.insert(T0 + 25 * SEC, T0 + 5 * SEC),
        vec![Err(InsertError::Late(WindowKey(0)))]
    );
    assert!(w.is_empty());
    assert_eq!(w.next_close(), None);
}

#[test]
fn same_time_gives_same_key() {
    let mut w = TumblingWindower::builder(10 * SEC, T0, None);
    let t = T0 + 37 * SEC;
    assert_eq!(w.insert(T0, t), vec![Ok(WindowKey(3))]);
    assert_eq!(w.insert(T0 + 20 * SEC, t), vec![Ok(WindowKey(3))]);
    assert_eq!(w.insert(T0 + 41 * SEC, t), vec![Err(InsertError::Late(WindowKey(3)))]);
    assert_eq!(w.snapshot(), vec![(WindowKey(3), T0 + 40 * SEC)]);
}

#[test]
fn window_drained_exactly_once() {
    let mut w = TumblingWindower::builder(10 * SEC, T0, None);
    w.insert(T0, T0 + 1);
    // A watermark equal to the close time does not close the window.
    assert_eq!(w.drain_closed(T0 + 10 * SEC), vec![]);
    assert!(!w.is_empty());
    assert_eq!(w.drain_closed(T0 + 10 * SEC + 1), vec![WindowKey(0)]);
    assert!(w.is_empty());
    assert_eq!(w.drain_closed(T0 + 30 * SEC), vec![]);
    assert_eq!(
        w.insert(T0 + 30 * SEC, T0 + 1),
        vec![Err(InsertError::Late(WindowKey(0)))]
    );
    assert_eq!(w.drain_closed(T0 + 40 * SEC), vec![]);
}

#[test]
fn drain_keeps_open_windows_and_returns_each_once() {
    let mut w = TumblingWindower::builder(10, 0, None);
    for t in [5, 15, 25, 35, 7, 17] {
        assert!(w.insert(0, t)[0].is_ok());
    }
    let mut closed = w.drain_closed(21);
    closed.sort();
    assert_eq!(closed, vec![WindowKey(0), WindowKey(1)]);
    assert_eq!(w.next_close(), Some(30));
    assert_eq!(sorted(w.snapshot()), vec![(WindowKey(2), 30), (WindowKey(3), 40)]);
}

#[test]
fn next_close_is_minimum() {
    let mut w = TumblingWindower::builder(10, 0, None);
    w.insert(0, 45);
    w.insert(0, 12);
    w.insert(0, 33);
    assert_eq!(w.next_close(), Some(20));
}

#[test]
fn times_before_start_truncate_toward_zero() {
    let mut w = TumblingWindower::builder(10, 0, None);
    assert_eq!(w.insert(-100, -5), vec![Ok(WindowKey(0))]);
    assert_eq!(w.insert(-100, -15), vec![Ok(WindowKey(-1))]);
    assert_eq!(sorted(w.snapshot()), vec![(WindowKey(-1), 0), (WindowKey(0), 10)]);
}

#[test]
fn close_time_saturates() {
    let mut w = TumblingWindower::builder(100, MAX_TIMESTAMP - 5, None);
    assert_eq!(w.insert(0, MAX_TIMESTAMP), vec![Ok(WindowKey(0))]);
    assert_eq!(w.next_close(), Some(MAX_TIMESTAMP));
    let mut wide = TumblingWindower::builder(i64::MAX, 0, None);
    assert_eq!(wide.insert(0, 5), vec![Ok(WindowKey(0))]);
    assert_eq!(wide.next_close(), Some(MAX_TIMESTAMP));
}

#[test]
fn windower_resumes_from_snapshot() {
    let mut w = TumblingWindower::builder(10, 0, None);
    w.insert(0, 3);
    w.insert(0, 27);
    let snap = w.snapshot();
    assert!(snapshot_is_consistent(10, 0, &snap));
    let mut resumed = TumblingWindower::builder(10, 0, Some(snap));
    assert_eq!(resumed.next_close(), w.next_close());
    assert_eq!(resumed.insert(5, 8), w.insert(5, 8));
    let mut a = resumed.drain_closed(25);
    let mut b = w.drain_closed(25);
    a.sort();
    b.sort();
    assert_eq!(a, b);
    assert_eq!(a, vec![WindowKey(0)]);
    assert_eq!(sorted(resumed.snapshot()), sorted(w.snapshot()));
}

#[test]
fn snapshot_consistency_check() {
    assert!(snapshot_is_consistent(10, 0, &vec![]));
    assert!(snapshot_is_consistent(10, 0, &vec![(WindowKey(2), 30)]));
    assert!(!snapshot_is_consistent(10, 0, &vec![(WindowKey(2), 31)]));
    assert!(!snapshot_is_consistent(10, 0, &vec![(WindowKey(2), 30), (WindowKey(2), 30)]));
}

#[test]
fn config_build_errors() {
    let bad_len = TumblingWindowConfig::new(0, Some(0));
    assert_eq!(bad_len.build(None).err(), Some(BuildError::NonPositiveLength));
    let bad_start = TumblingWindowConfig::new(10, Some(i64::MAX));
    assert_eq!(bad_start.build(None).err(), Some(BuildError::StartOutOfRange));
    let cfg = TumblingWindowConfig::new(10, Some(0));
    assert_eq!(
        cfg.build(Some(vec![(WindowKey(1), 25)])).err(),
        Some(BuildError::SnapshotMismatch)
    );
    let mut w = cfg.build(Some(vec![(WindowKey(1), 20)])).ok().unwrap();
    assert_eq!(w.next_close(), Some(20));
    assert_eq!(w.insert(0, 14), vec![Ok(WindowKey(1))]);
}

#[test]
fn config_build_at_uses_given_instant() {
    let cfg = TumblingWindowConfig::new(10, None);
    let mut w = cfg.build_at(1000, None).ok().unwrap();
    assert_eq!(w.insert(0, 1025), vec![Ok(WindowKey(2))]);
    assert_eq!(w.next_close(), Some(1030));
}

#[test]
fn config_build_without_start_aligns_to_clock() {
    let cfg = TumblingWindowConfig::new(1000, None);
    let mut w = cfg.build(None).ok().unwrap();
    // The clock reads far after the epoch, so an item at the epoch falls in
    // a window well before the first one.
    let r = w.insert(i64::MIN, 0);
    match r[0] {
        Ok(WindowKey(k)) => assert!(k < -1_000_000_000),
        Err(e) => panic!("unexpected {:?}", e),
    }
}
