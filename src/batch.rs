//! A per-key operator that gathers items into batches bounded by a size and
//! by a timeout since the previous flush.
use vstd::prelude::*;

use crate::time::{saturate, valid_timestamp, wall_clock_millis, Timestamp, MAX_TIMESTAMP};

verus! {

/// Why an operator instance is being woken.
#[derive(Clone, Copy, Debug, PartialEq, Eq)]
pub enum WakeReason<T> {
    /// A new item for this key is ready.
    ItemArrived(T),
    /// The upstream has ended; no more items will come.
    UpstreamClosed,
    /// A requested wake time was reached, with no new item.
    TimerOnly,
}

/// Whether an operator instance may be forgotten.
#[derive(Clone, Copy, Debug, PartialEq, Eq, Structural)]
pub enum LogicFate {
    /// Nothing would be lost by dropping the instance.
    Discard,
    /// The instance holds state that must be kept.
    Retain,
}

/// Time elapsed from `last` to `now`; negative when the clock reads earlier.
pub open spec fn elapsed(now: int, last: int) -> int {
    now - last
}

/// The abstract state of a batch accumulator.
pub struct BatchModel<T> {
    pub size: nat,
    pub timeout: nat,
    pub last_drain: int,
    pub acc: Seq<T>,
}

impl<T> BatchModel<T> {
    /// The state rebuilt at `now` from an optional snapshot: the buffered
    /// items come back, the timeout window restarts at `now`.
    pub open spec fn resumed(size: nat, timeout: nat, now: int, snapshot: Option<Seq<T>>) -> BatchModel<T> {
        BatchModel {
            size,
            timeout,
            last_drain: now,
            acc: match snapshot {
                Some(s) => s,
                None => Seq::empty(),
            },
        }
    }

    pub open spec fn timeout_expired(self, now: int) -> bool {
        elapsed(now, self.last_drain) >= self.timeout
    }

    /// Flushing at `now`: the buffer is emptied and handed out when it held
    /// anything, and the timeout window restarts at `now`.
    pub open spec fn drained(self, now: int) -> (BatchModel<T>, Option<Seq<T>>) {
        (
            BatchModel { last_drain: now, acc: Seq::empty(), ..self },
            if self.acc.len() == 0 {
                None
            } else {
                Some(self.acc)
            },
        )
    }

    /// One wake-up at `now`: the next state and the batch emitted, if any.
    pub open spec fn step(self, now: int, reason: WakeReason<T>) -> (BatchModel<T>, Option<Seq<T>>) {
        let expired = self.timeout_expired(now);
        match reason {
            WakeReason::ItemArrived(x) => {
                let s = BatchModel { acc: self.acc.push(x), ..self };
                if s.acc.len() >= self.size || expired {
                    s.drained(now)
                } else {
                    (s, None)
                }
            },
            WakeReason::UpstreamClosed => self.drained(now),
            WakeReason::TimerOnly => if expired {
                self.drained(now)
            } else {
                (self, None)
            },
        }
    }

    /// The batches emitted over a sequence of wake-ups, each with its instant.
    pub open spec fn run(self, events: Seq<(int, WakeReason<T>)>) -> Seq<Option<Seq<T>>>
        decreases events.len(),
    {
        if events.len() == 0 {
            Seq::empty()
        } else {
            let (next, out) = self.step(events[0].0, events[0].1);
            seq![out] + next.run(events.drop_first())
        }
    }

    pub open spec fn fate(self) -> LogicFate {
        if self.acc.len() == 0 {
            LogicFate::Discard
        } else {
            LogicFate::Retain
        }
    }

    /// The instant to wake at when asked at `now`: when the current timeout
    /// window ends, or `now` if it already has.
    pub open spec fn next_awake_at(self, now: int) -> int {
        let remaining = self.timeout - elapsed(now, self.last_drain);
        saturate(
            now + if remaining > 0 {
                remaining
            } else {
                0
            },
        )
    }
}

/// Gathers items into batches of at most `size`, flushing early once
/// `timeout` milliseconds have passed since the previous flush.
pub struct BatchLogic<T> {
    size: usize,
    timeout: u64,
    last_drain: Timestamp,
    acc: Vec<T>,
}

impl<T> View for BatchLogic<T> {
    type V = BatchModel<T>;

    closed spec fn view(&self) -> BatchModel<T> {
        BatchModel {
            size: self.size as nat,
            timeout: self.timeout as nat,
            last_drain: self.last_drain as int,
            acc: self.acc@,
        }
    }
}

/// The items of an optional snapshot.
pub open spec fn snapshot_items<T>(s: Option<Vec<T>>) -> Option<Seq<T>> {
    match s {
        Some(v) => Some(v@),
        None => None,
    }
}

impl<T> BatchLogic<T> {
    /// The last flush instant lies in the representable range.
    pub closed spec fn wf(&self) -> bool {
        valid_timestamp(self.last_drain as int)
    }

    /// Makes an accumulator at `now`, resuming the buffered items of
    /// `resume_snapshot` if given. The timeout window starts at `now`.
    pub fn builder(size: usize, timeout: u64, now: Timestamp, resume_snapshot: Option<Vec<T>>) -> (r:
        BatchLogic<T>)
        requires
            valid_timestamp(now as int),
        ensures
            r.wf(),
            r@ == BatchModel::resumed(
                size as nat,
                timeout as nat,
                now as int,
                snapshot_items(resume_snapshot),
            ),
    {
        let acc = match resume_snapshot {
            Some(s) => s,
            None => Vec::new(),
        };
        BatchLogic { size, timeout, last_drain: now, acc }
    }

    fn timeout_expired(&self, now: Timestamp) -> (r: bool)
        requires
            self.wf(),
            valid_timestamp(now as int),
        ensures
            r == self@.timeout_expired(now as int),
    {
        let elapsed: i64 = now - self.last_drain;
        elapsed as i128 >= self.timeout as i128
    }

    /// Empties the buffer, handing it out if it held anything, and restarts
    /// the timeout window at `now` in any case.
    fn drain_acc(&mut self, now: Timestamp) -> (r: Option<Vec<T>>)
        requires
            valid_timestamp(now as int),
        ensures
            final(self).wf(),
            (final(self)@, snapshot_items(r)) == old(self)@.drained(now as int),
    {
        self.last_drain = now;
        if self.acc.len() == 0 {
            assert(self.acc@ =~= Seq::<T>::empty());
            None
        } else {
            let mut batch: Vec<T> = Vec::new();
            std::mem::swap(&mut batch, &mut self.acc);
            assert(self.acc@ =~= Seq::<T>::empty());
            Some(batch)
        }
    }

    /// Handles one wake-up at `now`; returns the batch emitted, if any.
    pub fn on_awake(&mut self, now: Timestamp, reason: WakeReason<T>) -> (r: Option<Vec<T>>)
        requires
            old(self).wf(),
            valid_timestamp(now as int),
        ensures
            final(self).wf(),
            (final(self)@, snapshot_items(r)) == old(self)@.step(now as int, reason),
            old(self)@.acc.len() < old(self)@.size ==> {
                &&& final(self)@.acc.len() < final(self)@.size
                &&& r matches Some(b) ==> b@.len() <= old(self)@.size
            },
            old(self)@.timeout_expired(now as int) ==> final(self)@.acc.len() == 0,
    {
        let timeout_expired = self.timeout_expired(now);
        match reason {
            WakeReason::ItemArrived(value) => {
                self.acc.push(value);
                if self.acc.len() >= self.size || timeout_expired {
                    self.drain_acc(now)
                } else {
                    None
                }
            },
            WakeReason::UpstreamClosed => self.drain_acc(now),
            WakeReason::TimerOnly => {
                if timeout_expired {
                    self.drain_acc(now)
                } else {
                    None
                }
            },
        }
    }

    /// `Discard` iff no item is buffered.
    pub fn fate(&self) -> (r: LogicFate)
        ensures
            r == self@.fate(),
    {
        if self.acc.len() == 0 {
            LogicFate::Discard
        } else {
            LogicFate::Retain
        }
    }

    /// When to be woken, asked at `now`: the end of the current timeout
    /// window, or `now` once it has passed.
    pub fn next_awake(&self, now: Timestamp) -> (r: Option<Timestamp>)
        requires
            self.wf(),
            valid_timestamp(now as int),
        ensures
            r == Some(self@.next_awake_at(now as int) as i64),
            self@.next_awake_at(now as int) <= MAX_TIMESTAMP,
            self@.next_awake_at(now as int) == saturate(
                if now >= self@.last_drain + self@.timeout {
                    now as int
                } else {
                    self@.last_drain + self@.timeout
                },
            ),
    {
        let elapsed: i64 = now - self.last_drain;
        let remaining: i128 = self.timeout as i128 - elapsed as i128;
        let wake: i128 = if remaining > 0 {
            now as i128 + remaining
        } else {
            now as i128
        };
        if wake > MAX_TIMESTAMP as i128 {
            Some(MAX_TIMESTAMP)
        } else {
            Some(wake as i64)
        }
    }

    /// Makes an accumulator at the current wall-clock instant, resuming the
    /// buffered items of `resume_snapshot` if given.
    pub fn builder_now(size: usize, timeout: u64, resume_snapshot: Option<Vec<T>>) -> (r: BatchLogic<T>)
        ensures
            r.wf(),
            valid_timestamp(r@.last_drain),
            r@ == BatchModel::resumed(
                size as nat,
                timeout as nat,
                r@.last_drain,
                snapshot_items(resume_snapshot),
            ),
    {
        let now = wall_clock_millis();
        BatchLogic::builder(size, timeout, now, resume_snapshot)
    }

    /// Handles one wake-up at the current wall-clock instant; returns the
    /// batch emitted, if any.
    pub fn on_awake_now(&mut self, reason: WakeReason<T>) -> (r: Option<Vec<T>>)
        requires
            old(self).wf(),
        ensures
            final(self).wf(),
            exists|t: int|
                valid_timestamp(t) && (final(self)@, snapshot_items(r)) == #[trigger] old(self)@.step(
                    t,
                    reason,
                ),
            old(self)@.acc.len() < old(self)@.size ==> {
                &&& final(self)@.acc.len() < final(self)@.size
                &&& r matches Some(b) ==> b@.len() <= old(self)@.size
            },
    {
        let now = wall_clock_millis();
        let r = self.on_awake(now, reason);
        assert(valid_timestamp(now as int) && (self@, snapshot_items(r)) == old(self)@.step(
            now as int,
            reason,
        ));
        r
    }

    /// When to be woken, asked at the current wall-clock instant.
    pub fn next_awake_now(&self) -> (r: Option<Timestamp>)
        requires
            self.wf(),
        ensures
            r matches Some(t) && exists|n: int|
                valid_timestamp(n) && t as int == #[trigger] self@.next_awake_at(n),
            r matches Some(t) && t as int >= saturate(self@.last_drain + self@.timeout),
    {
        let now = wall_clock_millis();
        let r = self.next_awake(now);
        assert(valid_timestamp(now as int) && r->Some_0 as int == self@.next_awake_at(now as int));
        r
    }

    /// The buffered items, in order, from which `builder` resumes.
    pub fn snapshot(&self) -> (r: Vec<T>) where T: Clone
        ensures
            r@.len() == self@.acc.len(),
            forall|i: int| 0 <= i < r@.len() ==> cloned::<T>(self@.acc[i], #[trigger] r@[i]),
    {
        self.acc.clone()
    }
}

/// No batch is larger than the size bound: from a state buffering fewer
/// items than the bound, every batch emitted over any sequence of wake-ups
/// holds at most `size` items.
pub proof fn lemma_batches_within_size<T>(m: BatchModel<T>, events: Seq<(int, WakeReason<T>)>)
    requires
        m.acc.len() < m.size,
    ensures
        m.run(events).len() == events.len(),
        forall|i: int|
            0 <= i < events.len() ==> (#[trigger] m.run(events)[i] matches Some(b) ==> b.len() <= m.size),
    decreases events.len(),
{
    if events.len() > 0 {
        let (next, out) = m.step(events[0].0, events[0].1);
        lemma_batches_within_size(next, events.drop_first());
        let rest = next.run(events.drop_first());
        assert forall|i: int|
            0 <= i < events.len() implies (#[trigger] m.run(events)[i] matches Some(b) ==> b.len()
                <= m.size) by {
            if i > 0 {
                assert(m.run(events)[i] == rest[i - 1]);
            }
        }
    }
}

/// No item waits past the timeout: once the timeout has run out, any wake-up
/// flushes every buffered item (and an arriving one) as one batch, in order.
pub proof fn lemma_expired_flushes<T>(m: BatchModel<T>, now: int, reason: WakeReason<T>)
    requires
        m.timeout_expired(now),
    ensures
        m.step(now, reason).0.acc.len() == 0,
        m.step(now, reason).0.last_drain == now,
        match reason {
            WakeReason::ItemArrived(x) => m.step(now, reason).1 == Some(m.acc.push(x)),
            _ => m.acc.len() > 0 ==> m.step(now, reason).1 == Some(m.acc),
        },
{
}

/// A wake-up at or after the instant requested by `next_awake` finds the
/// timeout run out, so it flushes; the request never lies beyond the end of
/// the timeout window.
pub proof fn lemma_requested_wake_flushes<T>(m: BatchModel<T>, now: int, later: int, reason: WakeReason<T>)
    requires
        m.next_awake_at(now) < MAX_TIMESTAMP,
        m.next_awake_at(now) <= later,
    ensures
        m.next_awake_at(now) == if now >= m.last_drain + m.timeout {
            now
        } else {
            m.last_drain + m.timeout
        },
        m.timeout_expired(later),
        m.step(later, reason).0.acc.len() == 0,
{
}

/// Resuming from a snapshot reproduces the behaviour of the instance it was
/// taken from, except that the timeout window restarts at the resume instant:
/// the resumed state equals the original with `last_drain` moved to `now`, so
/// the same wake-ups give the same batches.
pub proof fn lemma_resume_reproduces<T>(m: BatchModel<T>, now: int, events: Seq<(int, WakeReason<T>)>)
    ensures
        BatchModel::resumed(m.size, m.timeout, now, Some(m.acc)) == (BatchModel { last_drain: now, ..m }),
        BatchModel::resumed(m.size, m.timeout, now, Some(m.acc)).run(events) == (BatchModel {
            last_drain: now,
            ..m
        }).run(events),
        BatchModel::resumed(m.size, m.timeout, now, Some(m.acc)).fate() == m.fate(),
{
}

/// `fate` reads nothing but the buffered items, so asking again without a
/// wake-up in between gives the same answer; after a flush it is `Discard`.
pub proof fn lemma_fate_idempotent<T>(a: BatchModel<T>, b: BatchModel<T>, now: int)
    requires
        a.acc == b.acc,
    ensures
        a.fate() == b.fate(),
        a.drained(now).0.fate() == LogicFate::Discard,
{
}

/// Resuming an instance from its snapshot gives the instance it was taken
/// from with only the timeout window moved to the resume instant `now`: the
/// same items in the same order, the same bounds, and for the same later
/// wake-ups the same batches, fate and wake requests.
pub proof fn lemma_snapshot_round_trip<T>(
    l: BatchLogic<T>,
    snapshot: Seq<T>,
    l2: BatchLogic<T>,
    now: int,
    events: Seq<(int, WakeReason<T>)>,
    later: int,
)
    requires
        snapshot == l@.acc,
        l2@ == BatchModel::resumed(l@.size, l@.timeout, now, Some(snapshot)),
    ensures
        l2@.acc == l@.acc,
        l2@.size == l@.size,
        l2@.timeout == l@.timeout,
        l2@.last_drain == now,
        l2@ == (BatchModel { last_drain: now, ..l@ }),
        l2@.run(events) == (BatchModel { last_drain: now, ..l@ }).run(events),
        l2@.fate() == l@.fate(),
        l2@.next_awake_at(later) == (BatchModel { last_drain: now, ..l@ }).next_awake_at(later),
{
}

} // verus!
