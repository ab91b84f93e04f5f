//! Event-time tumbling windows: fixed-length buckets aligned to a start
//! instant, fired once the watermark passes their close time.
use vstd::prelude::*;

use crate::time::{saturate, valid_timestamp, wall_clock_millis, Timestamp, MAX_TIMESTAMP};

verus! {

/// Ordinal of a window, derived from an item's event time.
#[derive(Clone, Copy, Debug, PartialEq, Eq, Hash, PartialOrd, Ord, Structural)]
pub struct WindowKey(pub i64);

/// Why an item could not be placed into a window.
#[derive(Clone, Copy, Debug, PartialEq, Eq, Structural)]
pub enum InsertError {
    /// The item's window had already closed relative to the watermark.
    Late(WindowKey),
}

/// Why a windower could not be built from a configuration.
#[derive(Clone, Copy, Debug, PartialEq, Eq, Structural)]
pub enum BuildError {
    /// The window length is zero or negative.
    NonPositiveLength,
    /// The alignment instant lies outside the representable range.
    StartOutOfRange,
    /// The resume snapshot disagrees with the window boundaries of the
    /// configuration, or lists a window twice.
    SnapshotMismatch,
}

/// Division rounding toward zero, for a positive divisor.
pub open spec fn trunc_div(a: int, d: int) -> int {
    if a >= 0 {
        a / d
    } else {
        -((-a) / d)
    }
}

/// The ordinal of the window that holds `t`.
pub open spec fn window_index(length: int, start_at: int, t: int) -> int {
    trunc_div(t - start_at, length)
}

/// The instant at which window `k` closes, saturated at the latest timestamp.
pub open spec fn close_for_key(length: int, start_at: int, k: int) -> int {
    saturate(start_at + length * (k + 1))
}

/// A sequence of registry entries fits a configuration: each entry records the
/// close time of its window, and no window appears twice.
pub open spec fn entries_fit(length: int, start_at: int, s: Seq<(WindowKey, Timestamp)>) -> bool {
    &&& forall|i: int|
        0 <= i < s.len() ==> #[trigger] s[i].1 == close_for_key(length, start_at, s[i].0.0 as int)
    &&& forall|i: int, j: int| 0 <= i < j < s.len() ==> #[trigger] s[i].0 != #[trigger] s[j].0
}

/// The window ordinals listed in a sequence of registry entries.
pub open spec fn keys_of(s: Seq<(WindowKey, Timestamp)>) -> Set<int> {
    Set::new(|k: int| exists|i: int| 0 <= i < s.len() && #[trigger] s[i].0.0 == k)
}

/// The window ordinals listed in a sequence of keys.
pub open spec fn key_set(s: Seq<WindowKey>) -> Set<int> {
    Set::new(|k: int| exists|i: int| 0 <= i < s.len() && #[trigger] s[i].0 == k)
}

/// No key appears twice.
pub open spec fn distinct_keys(s: Seq<WindowKey>) -> bool {
    forall|i: int, j: int| 0 <= i < j < s.len() ==> #[trigger] s[i] != #[trigger] s[j]
}

/// The abstract state of a tumbling windower: its configuration and the set of
/// windows that are open.
pub struct WindowsModel {
    pub length: int,
    pub start_at: int,
    pub open: Set<int>,
}

impl WindowsModel {
    pub open spec fn key_of(self, t: int) -> int {
        window_index(self.length, self.start_at, t)
    }

    pub open spec fn close_of(self, k: int) -> int {
        close_for_key(self.length, self.start_at, k)
    }

    /// What `insert` reports for an item at `t` under watermark `wm`.
    pub open spec fn insert_outcome(self, wm: int, t: int) -> Result<WindowKey, InsertError> {
        let k = self.key_of(t);
        if self.close_of(k) < wm {
            Err(InsertError::Late(WindowKey(k as i64)))
        } else {
            Ok(WindowKey(k as i64))
        }
    }

    /// The state after `insert` of an item at `t` under watermark `wm`.
    pub open spec fn after_insert(self, wm: int, t: int) -> WindowsModel {
        let k = self.key_of(t);
        if self.close_of(k) < wm {
            self
        } else {
            WindowsModel { open: self.open.insert(k), ..self }
        }
    }

    /// The open windows that a watermark `wm` closes.
    pub open spec fn closed_by(self, wm: int) -> Set<int> {
        self.open.filter(|k: int| self.close_of(k) < wm)
    }

    /// The state after draining the windows that `wm` closes.
    pub open spec fn after_drain(self, wm: int) -> WindowsModel {
        WindowsModel { open: self.open.filter(|k: int| self.close_of(k) >= wm), ..self }
    }

    /// The state rebuilt from a snapshot `s` under a configuration.
    pub open spec fn resumed(length: int, start_at: int, s: Seq<(WindowKey, Timestamp)>) -> WindowsModel {
        WindowsModel { length, start_at, open: keys_of(s) }
    }

    /// `c` is the earliest close time among the open windows.
    pub open spec fn is_earliest_close(self, c: int) -> bool {
        &&& exists|k: int| self.open.contains(k) && self.close_of(k) == c
        &&& forall|k: int| self.open.contains(k) ==> c <= #[trigger] self.close_of(k)
    }
}

/// Fixed-length tumbling windows aligned to a start instant.
///
/// The registry of open windows is a vector of `(key, close time)` entries
/// with distinct keys rather than a hash map: `insert` looks a key up,
/// `drain_closed` partitions the entries and `next_close` takes a minimum,
/// and on a vector each of these is a loop whose every step the proofs can
/// follow, with no hasher or iteration order involved.
pub struct TumblingWindower {
    length: i64,
    start_at: Timestamp,
    close_times: Vec<(WindowKey, Timestamp)>,
}

impl View for TumblingWindower {
    type V = WindowsModel;

    closed spec fn view(&self) -> WindowsModel {
        WindowsModel {
            length: self.length as int,
            start_at: self.start_at as int,
            open: keys_of(self.close_times@),
        }
    }
}

proof fn lemma_index_bounds(e: int, d: int)
    requires
        d >= 1,
    ensures
        e >= 0 ==> 0 <= trunc_div(e, d) <= e,
        e < 0 ==> e <= trunc_div(e, d) * d && trunc_div(e, d) <= 0 && e <= trunc_div(e, d),
{
    if e >= 0 {
        vstd::arithmetic::div_mod::lemma_fundamental_div_mod(e, d);
        assert(0 <= e % d < d) by {
            vstd::arithmetic::div_mod::lemma_mod_pos_bound(e, d);
        }
        assert(0 <= e / d <= e) by (nonlinear_arith)
            requires
                e == d * (e / d) + (e % d),
                0 <= e % d < d,
                d >= 1,
                e >= 0,
        ;
    } else {
        let a = -e;
        vstd::arithmetic::div_mod::lemma_fundamental_div_mod(a, d);
        assert(0 <= a % d < d) by {
            vstd::arithmetic::div_mod::lemma_mod_pos_bound(a, d);
        }
        let q = a / d;
        assert(0 <= q <= a && q * d <= a && (-q) * d == -(q * d)) by (nonlinear_arith)
            requires
                a == d * q + (a % d),
                0 <= a % d < d,
                d >= 1,
                a > 0,
        ;
    }
}

/// What a partition of the registry entries by close time amounts to.
proof fn lemma_drain_result(
    model: WindowsModel,
    wm: int,
    entries: Seq<(WindowKey, Timestamp)>,
    keep: Seq<(WindowKey, Timestamp)>,
    closed: Seq<WindowKey>,
    kidx: Seq<int>,
    cidx: Seq<int>,
    pos: Seq<int>,
)
    requires
        entries_fit(model.length, model.start_at, entries),
        model.open == keys_of(entries),
        kidx.len() == keep.len(),
        cidx.len() == closed.len(),
        pos.len() == entries.len(),
        forall|j: int|
            0 <= j < keep.len() ==> 0 <= #[trigger] kidx[j] < entries.len() && keep[j] == entries[kidx[j]]
                && entries[kidx[j]].1 >= wm,
        forall|a: int, b: int| 0 <= a < b < keep.len() ==> #[trigger] kidx[a] < #[trigger] kidx[b],
        forall|j: int|
            0 <= j < closed.len() ==> 0 <= #[trigger] cidx[j] < entries.len() && closed[j]
                == entries[cidx[j]].0 && entries[cidx[j]].1 < wm,
        forall|a: int, b: int| 0 <= a < b < closed.len() ==> #[trigger] cidx[a] < #[trigger] cidx[b],
        forall|m: int|
            0 <= m < entries.len() ==> if entries[m].1 >= wm {
                0 <= #[trigger] pos[m] < keep.len() && keep[pos[m]] == entries[m]
            } else {
                0 <= pos[m] < closed.len() && closed[pos[m]] == entries[m].0
            },
    ensures
        entries_fit(model.length, model.start_at, keep),
        keys_of(keep) == model.after_drain(wm).open,
        key_set(closed) == model.closed_by(wm),
        distinct_keys(closed),
{
    assert forall|a: int, b: int| 0 <= a < b < keep.len() implies #[trigger] keep[a].0
        != #[trigger] keep[b].0 by {
        assert(kidx[a] < kidx[b]);
    }
    assert forall|a: int| 0 <= a < keep.len() implies #[trigger] keep[a].1 == close_for_key(
        model.length,
        model.start_at,
        keep[a].0.0 as int,
    ) by {
        assert(keep[a] == entries[kidx[a]]);
    }
    assert forall|a: int, b: int| 0 <= a < b < closed.len() implies #[trigger] closed[a]
        != #[trigger] closed[b] by {
        assert(cidx[a] < cidx[b]);
    }
    assert forall|k: int| #[trigger] keys_of(keep).contains(k) == model.after_drain(wm).open.contains(k) by {
        if keys_of(keep).contains(k) {
            let j = choose|j: int| 0 <= j < keep.len() && #[trigger] keep[j].0.0 == k;
            assert(kidx[j] >= 0);
            assert(entries[kidx[j]].0.0 == k);
        }
        if model.after_drain(wm).open.contains(k) {
            let m = choose|m: int| 0 <= m < entries.len() && #[trigger] entries[m].0.0 == k;
            assert(entries[m].1 >= wm);
            assert(pos[m] >= 0);
            assert(keep[pos[m]].0.0 == k);
        }
    }
    assert forall|k: int| #[trigger] key_set(closed).contains(k) == model.closed_by(wm).contains(k) by {
        if key_set(closed).contains(k) {
            let j = choose|j: int| 0 <= j < closed.len() && #[trigger] closed[j].0 == k;
            assert(cidx[j] >= 0);
            assert(entries[cidx[j]].0.0 == k);
        }
        if model.closed_by(wm).contains(k) {
            let m = choose|m: int| 0 <= m < entries.len() && #[trigger] entries[m].0.0 == k;
            assert(entries[m].1 < wm);
            assert(pos[m] >= 0);
            assert(closed[pos[m]].0 == k);
        }
    }
    assert(keys_of(keep) =~= model.after_drain(wm).open);
    assert(key_set(closed) =~= model.closed_by(wm));
}

/// The close time of window `k`, computed without overflow.
fn close_time_of(length: i64, start_at: Timestamp, k: i64) -> (r: i128)
    requires
        length > 0,
        valid_timestamp(start_at as int),
    ensures
        r as int == close_for_key(length as int, start_at as int, k as int),
{
    let ghost li = length as int;
    let ghost ki = k as int;
    assert(-(0x8000_0000_0000_0000 * 0x8000_0000_0000_0001) <= li * (ki + 1) <= 0x8000_0000_0000_0000
        * 0x8000_0000_0000_0001) by (nonlinear_arith)
        requires
            1 <= li <= 0x7fff_ffff_ffff_ffff,
            -0x8000_0000_0000_0000 <= ki <= 0x7fff_ffff_ffff_ffff,
    ;
    let c: i128 = (start_at as i128) + (length as i128) * ((k as i128) + 1);
    if c > MAX_TIMESTAMP as i128 {
        MAX_TIMESTAMP as i128
    } else {
        c
    }
}

/// Whether a snapshot fits windows `length` milliseconds long aligned to
/// `start_at`: each entry holds its window's close time and no window is
/// listed twice.
pub fn snapshot_is_consistent(
    length: i64,
    start_at: Timestamp,
    snapshot: &Vec<(WindowKey, Timestamp)>,
) -> (r: bool)
    requires
        length > 0,
        valid_timestamp(start_at as int),
    ensures
        r == entries_fit(length as int, start_at as int, snapshot@),
{
    let mut i: usize = 0;
    while i < snapshot.len()
        invariant
            length > 0,
            valid_timestamp(start_at as int),
            0 <= i <= snapshot.len(),
            forall|a: int|
                0 <= a < i ==> #[trigger] snapshot@[a].1 == close_for_key(
                    length as int,
                    start_at as int,
                    snapshot@[a].0.0 as int,
                ),
            forall|a: int, b: int| 0 <= a < b < i ==> #[trigger] snapshot@[a].0 != #[trigger] snapshot@[b].0,
        decreases snapshot.len() - i,
    {
        let entry = snapshot[i];
        if close_time_of(length, start_at, entry.0.0) != entry.1 as i128 {
            assert(snapshot@[i as int].1 != close_for_key(
                length as int,
                start_at as int,
                snapshot@[i as int].0.0 as int,
            ));
            return false;
        }
        let mut j: usize = 0;
        while j < i
            invariant
                0 <= j <= i < snapshot.len(),
                entry == snapshot@[i as int],
                forall|a: int| 0 <= a < j ==> #[trigger] snapshot@[a].0 != entry.0,
            decreases i - j,
        {
            if snapshot[j].0.0 == entry.0.0 {
                assert(snapshot@[j as int].0 == snapshot@[i as int].0);
                return false;
            }
            j = j + 1;
        }
        i = i + 1;
    }
    true
}

impl TumblingWindower {
    pub closed spec fn wf(&self) -> bool {
        &&& self.length > 0
        &&& valid_timestamp(self.start_at as int)
        &&& entries_fit(self.length as int, self.start_at as int, self.close_times@)
    }

    /// The window of an item at `item_time`, with its close time.
    fn window_for(&self, item_time: Timestamp) -> (r: (WindowKey, Timestamp))
        requires
            self.wf(),
            valid_timestamp(item_time as int),
        ensures
            r.0.0 as int == self@.key_of(item_time as int),
            r.1 as int == self@.close_of(r.0.0 as int),
    {
        let elapsed: i64 = item_time - self.start_at;
        proof {
            lemma_index_bounds(elapsed as int, self.length as int);
        }
        let index: i64 = if elapsed >= 0 {
            elapsed / self.length
        } else {
            -((-elapsed) / self.length)
        };
        let ghost li = self.length as int;
        let ghost ii = index as int;
        assert(li * (ii + 1) == li * ii + li) by (nonlinear_arith);
        assert(-(0x7fff_ffff_ffff_ffff * 0x40_0000_0000_0001) <= li * (ii + 1) <= 0x7fff_ffff_ffff_ffff
            * 0x40_0000_0000_0001) by (nonlinear_arith)
            requires
                1 <= li <= 0x7fff_ffff_ffff_ffff,
                -0x40_0000_0000_0000 <= ii <= 0x40_0000_0000_0000,
        ;
        assert(elapsed >= 0 ==> li * (ii + 1) >= li) by (nonlinear_arith)
            requires
                li >= 1,
                elapsed >= 0 ==> ii >= 0,
        ;
        assert(elapsed < 0 ==> li * ii >= elapsed) by (nonlinear_arith)
            requires
                elapsed < 0 ==> ii * li >= elapsed,
        ;
        let close: i128 = (self.start_at as i128) + (self.length as i128) * ((index as i128) + 1);
        let close_at: i64 = if close > MAX_TIMESTAMP as i128 {
            MAX_TIMESTAMP
        } else {
            close as i64
        };
        (WindowKey(index), close_at)
    }

    /// Places an item at `item_time` into its window under `watermark`.
    ///
    /// A window whose close time is already behind the watermark is reported
    /// late and not registered; otherwise the window is registered (if it was
    /// not yet) and its key returned.
    pub fn insert(&mut self, watermark: Timestamp, item_time: Timestamp) -> (r: Vec<
        Result<WindowKey, InsertError>,
    >)
        requires
            old(self).wf(),
            valid_timestamp(item_time as int),
        ensures
            final(self).wf(),
            r@ == seq![old(self)@.insert_outcome(watermark as int, item_time as int)],
            final(self)@ == old(self)@.after_insert(watermark as int, item_time as int),
    {
        let (key, close_at) = self.window_for(item_time);
        let mut r: Vec<Result<WindowKey, InsertError>> = Vec::new();
        if close_at < watermark {
            r.push(Err(InsertError::Late(key)));
            assert(r@ =~= seq![old(self)@.insert_outcome(watermark as int, item_time as int)]);
            return r;
        }
        let mut i: usize = 0;
        let mut found = false;
        while i < self.close_times.len()
            invariant
                *self == *old(self),
                0 <= i <= self.close_times.len(),
                found ==> 0 <= i < self.close_times.len() && self.close_times@[i as int].0 == key,
                !found ==> forall|j: int| 0 <= j < i ==> #[trigger] self.close_times@[j].0 != key,
            ensures
                found ==> 0 <= i < self.close_times.len() && self.close_times@[i as int].0 == key,
                !found ==> i == self.close_times.len(),
                !found ==> forall|j: int| 0 <= j < i ==> #[trigger] self.close_times@[j].0 != key,
            decreases self.close_times.len() - i,
        {
            if self.close_times[i].0.0 == key.0 {
                found = true;
                break;
            }
            i = i + 1;
        }
        let ghost before = self.close_times@;
        if found {
            assert(keys_of(before).contains(key.0 as int));
            assert(keys_of(before).insert(key.0 as int) =~= keys_of(before));
        } else {
            self.close_times.push((key, close_at));
            let ghost after = self.close_times@;
            assert(after[before.len() as int].0.0 == key.0);
            assert forall|k: int| keys_of(after).contains(k) == keys_of(before).insert(
                key.0 as int,
            ).contains(k) by {
                if keys_of(before).contains(k) {
                    let j = choose|j: int| 0 <= j < before.len() && #[trigger] before[j].0.0 == k;
                    assert(after[j] == before[j]);
                }
                if keys_of(after).contains(k) {
                    let j = choose|j: int| 0 <= j < after.len() && #[trigger] after[j].0.0 == k;
                    if j < before.len() {
                        assert(after[j] == before[j]);
                    }
                }
            }
            assert(keys_of(after) =~= keys_of(before).insert(key.0 as int));
            assert forall|a: int, b: int| 0 <= a < b < after.len() implies #[trigger] after[a].0
                != #[trigger] after[b].0 by {
                if b == before.len() {
                    assert(after[a] == before[a]);
                } else {
                    assert(after[a] == before[a] && after[b] == before[b]);
                }
            }
            assert forall|a: int| 0 <= a < after.len() implies #[trigger] after[a].1
                == close_for_key(self.length as int, self.start_at as int, after[a].0.0 as int) by {
                if a < before.len() {
                    assert(after[a] == before[a]);
                }
            }
        }
        r.push(Ok(key));
        assert(r@ =~= seq![old(self)@.insert_outcome(watermark as int, item_time as int)]);
        r
    }

    /// Removes and returns the open windows whose close time is behind
    /// `watermark`; the others stay open. The order of the result is
    /// unspecified.
    pub fn drain_closed(&mut self, watermark: Timestamp) -> (r: Vec<WindowKey>)
        requires
            old(self).wf(),
        ensures
            final(self).wf(),
            final(self)@ == old(self)@.after_drain(watermark as int),
            key_set(r@) == old(self)@.closed_by(watermark as int),
            distinct_keys(r@),
    {
        let ghost entries = self.close_times@;
        let mut keep: Vec<(WindowKey, Timestamp)> = Vec::new();
        let mut closed: Vec<WindowKey> = Vec::new();
        let ghost mut kidx: Seq<int> = Seq::empty();
        let ghost mut cidx: Seq<int> = Seq::empty();
        let ghost mut pos: Seq<int> = Seq::empty();
        let mut i: usize = 0;
        while i < self.close_times.len()
            invariant
                entries == self.close_times@,
                0 <= i <= entries.len(),
                kidx.len() == keep.len(),
                cidx.len() == closed.len(),
                pos.len() == i,
                forall|j: int|
                    0 <= j < keep.len() ==> 0 <= #[trigger] kidx[j] < i && keep@[j] == entries[kidx[j]]
                        && entries[kidx[j]].1 >= watermark,
                forall|a: int, b: int| 0 <= a < b < keep.len() ==> #[trigger] kidx[a] < #[trigger] kidx[b],
                forall|j: int|
                    0 <= j < closed.len() ==> 0 <= #[trigger] cidx[j] < i && closed@[j]
                        == entries[cidx[j]].0 && entries[cidx[j]].1 < watermark,
                forall|a: int, b: int| 0 <= a < b < closed.len() ==> #[trigger] cidx[a] < #[trigger] cidx[b],
                forall|m: int|
                    0 <= m < i ==> if entries[m].1 >= watermark {
                        0 <= #[trigger] pos[m] < keep.len() && keep@[pos[m]] == entries[m]
                    } else {
                        0 <= pos[m] < closed.len() && closed@[pos[m]] == entries[m].0
                    },
            decreases entries.len() - i,
        {
            let entry = self.close_times[i];
            if entry.1 < watermark {
                proof {
                    pos = pos.push(closed.len() as int);
                    cidx = cidx.push(i as int);
                }
                closed.push(entry.0);
            } else {
                proof {
                    pos = pos.push(keep.len() as int);
                    kidx = kidx.push(i as int);
                }
                keep.push(entry);
            }
            i = i + 1;
        }
        let ghost model = old(self)@;
        proof {
            lemma_drain_result(model, watermark as int, entries, keep@, closed@, kidx, cidx, pos);
        }
        self.close_times = keep;
        closed
    }

    /// True iff no window is open.
    pub fn is_empty(&self) -> (r: bool)
        requires
            self.wf(),
        ensures
            r == (self@.open == Set::<int>::empty()),
    {
        if self.close_times.len() == 0 {
            assert(self@.open =~= Set::<int>::empty());
            true
        } else {
            assert(self@.open.contains(self.close_times@[0].0.0 as int));
            false
        }
    }

    /// The earliest close time among the open windows, or `None` when no
    /// window is open.
    pub fn next_close(&self) -> (r: Option<Timestamp>)
        requires
            self.wf(),
        ensures
            r is None <==> self@.open == Set::<int>::empty(),
            r matches Some(c) ==> self@.is_earliest_close(c as int),
    {
        let entries = &self.close_times;
        if entries.len() == 0 {
            assert(self@.open =~= Set::<int>::empty());
            return None;
        }
        let mut best: Timestamp = entries[0].1;
        let ghost mut best_at: int = 0;
        let mut i: usize = 1;
        while i < entries.len()
            invariant
                entries == &self.close_times,
                1 <= i <= entries.len(),
                0 <= best_at < i,
                best == entries@[best_at].1,
                forall|m: int| 0 <= m < i ==> best <= #[trigger] entries@[m].1,
            decreases entries.len() - i,
        {
            if entries[i].1 < best {
                best = entries[i].1;
                proof {
                    best_at = i as int;
                }
            }
            i = i + 1;
        }
        let ghost model = self@;
        assert(model.open.contains(entries@[best_at].0.0 as int));
        assert(model.close_of(entries@[best_at].0.0 as int) == best);
        assert forall|k: int| model.open.contains(k) implies best <= #[trigger] model.close_of(k) by {
            let m = choose|m: int| 0 <= m < entries@.len() && #[trigger] entries@[m].0.0 == k;
            assert(best <= entries@[m].1);
        }
        assert(self@.open.contains(entries@[0].0.0 as int));
        Some(best)
    }

    /// A copy of the registry of open windows, from which `builder` resumes.
    pub fn snapshot(&self) -> (r: Vec<(WindowKey, Timestamp)>)
        requires
            self.wf(),
        ensures
            entries_fit(self@.length, self@.start_at, r@),
            keys_of(r@) == self@.open,
    {
        let mut r: Vec<(WindowKey, Timestamp)> = Vec::new();
        let mut i: usize = 0;
        while i < self.close_times.len()
            invariant
                0 <= i <= self.close_times.len(),
                r@ == self.close_times@.take(i as int),
            decreases self.close_times.len() - i,
        {
            r.push(self.close_times[i]);
            i = i + 1;
            assert(r@ =~= self.close_times@.take(i as int));
        }
        assert(r@ =~= self.close_times@);
        r
    }

    /// Makes a windower of windows `length` milliseconds long aligned to
    /// `start_at`, resuming the open windows of `resume_snapshot` if given.
    pub fn builder(
        length: i64,
        start_at: Timestamp,
        resume_snapshot: Option<Vec<(WindowKey, Timestamp)>>,
    ) -> (r: TumblingWindower)
        requires
            length > 0,
            valid_timestamp(start_at as int),
            resume_snapshot matches Some(s) ==> entries_fit(length as int, start_at as int, s@),
        ensures
            r.wf(),
            r@ == WindowsModel::resumed(
                length as int,
                start_at as int,
                match resume_snapshot {
                    Some(s) => s@,
                    None => Seq::empty(),
                },
            ),
    {
        let close_times = match resume_snapshot {
            Some(s) => s,
            None => Vec::new(),
        };
        TumblingWindower { length, start_at, close_times }
    }
}

/// The entries of an optional snapshot; none when there is no snapshot.
pub open spec fn snapshot_entries(s: Option<Vec<(WindowKey, Timestamp)>>) -> Seq<(WindowKey, Timestamp)> {
    match s {
        Some(v) => v@,
        None => Seq::empty(),
    }
}

/// Why a configuration with this length and alignment instant cannot resume
/// from this snapshot, if it cannot.
pub open spec fn build_error(length: int, start_at: int, s: Option<Vec<(WindowKey, Timestamp)>>) -> Option<
    BuildError,
> {
    if length <= 0 {
        Some(BuildError::NonPositiveLength)
    } else if !valid_timestamp(start_at) {
        Some(BuildError::StartOutOfRange)
    } else if s is Some && !entries_fit(length, start_at, snapshot_entries(s)) {
        Some(BuildError::SnapshotMismatch)
    } else {
        None
    }
}

/// `r` is what building windows of `length` aligned to `start_at` from the
/// snapshot `s` gives: the error `build_error` names, or a windower holding
/// the snapshot's windows.
pub open spec fn built_as(
    length: int,
    start_at: int,
    s: Option<Vec<(WindowKey, Timestamp)>>,
    r: Result<TumblingWindower, BuildError>,
) -> bool {
    match r {
        Err(e) => build_error(length, start_at, s) == Some(e),
        Ok(w) => {
            &&& build_error(length, start_at, s) is None
            &&& w.wf()
            &&& w@ == WindowsModel::resumed(length, start_at, snapshot_entries(s))
        },
    }
}

/// Configuration of tumbling windows: their length in milliseconds and the
/// instant the first one starts at (the build time when absent).
#[derive(Clone, Copy, Debug, PartialEq, Eq, Structural)]
pub struct TumblingWindowConfig {
    pub length: i64,
    pub start_at: Option<Timestamp>,
}

impl TumblingWindowConfig {
    pub fn new(length: i64, start_at: Option<Timestamp>) -> (r: TumblingWindowConfig)
        ensures
            r.length == length,
            r.start_at == start_at,
    {
        TumblingWindowConfig { length, start_at }
    }

    /// The alignment instant used when building at `now`.
    pub open spec fn start_for(self, now: int) -> int {
        match self.start_at {
            Some(t) => t as int,
            None => now,
        }
    }

    /// Builds a windower at wall-clock instant `now`, resuming from
    /// `resume_snapshot` if given.
    pub fn build_at(&self, now: Timestamp, resume_snapshot: Option<Vec<(WindowKey, Timestamp)>>) -> (r:
        Result<TumblingWindower, BuildError>)
        ensures
            built_as(self.length as int, self.start_for(now as int), resume_snapshot, r),
    {
        let start_at = match self.start_at {
            Some(t) => t,
            None => now,
        };
        if self.length <= 0 {
            return Err(BuildError::NonPositiveLength);
        }
        if start_at < crate::time::MIN_TIMESTAMP || start_at > MAX_TIMESTAMP {
            return Err(BuildError::StartOutOfRange);
        }
        match &resume_snapshot {
            Some(s) => {
                if !snapshot_is_consistent(self.length, start_at, s) {
                    return Err(BuildError::SnapshotMismatch);
                }
            },
            None => {},
        }
        Ok(TumblingWindower::builder(self.length, start_at, resume_snapshot))
    }

    /// Builds a windower now, taking the wall-clock time as the alignment
    /// instant when the configuration names none.
    pub fn build(&self, resume_snapshot: Option<Vec<(WindowKey, Timestamp)>>) -> (r: Result<
        TumblingWindower,
        BuildError,
    >)
        ensures
            self.start_at matches Some(t) ==> built_as(self.length as int, t as int, resume_snapshot, r),
            self.start_at is None ==> exists|t: int|
                valid_timestamp(t) && #[trigger] built_as(self.length as int, t, resume_snapshot, r),
            self.start_at is None && self.length > 0 && resume_snapshot is None ==> r is Ok,
            r matches Ok(w) ==> {
                &&& valid_timestamp(w@.start_at)
                &&& w@ == WindowsModel::resumed(
                    self.length as int,
                    w@.start_at,
                    snapshot_entries(resume_snapshot),
                )
            },
            (self.length <= 0) == (r == Err::<TumblingWindower, BuildError>(
                BuildError::NonPositiveLength,
            )),
    {
        let ghost snap = resume_snapshot;
        let now = match self.start_at {
            Some(t) => t,
            None => wall_clock_millis(),
        };
        let r = self.build_at(now, resume_snapshot);
        assert(self.start_at is None ==> valid_timestamp(now as int) && built_as(
            self.length as int,
            now as int,
            snap,
            r,
        ));
        r
    }
}

/// The key an insert reports, whether on time or late.
pub open spec fn outcome_key(r: Result<WindowKey, InsertError>) -> WindowKey {
    match r {
        Ok(k) => k,
        Err(InsertError::Late(k)) => k,
    }
}

/// Inserting an item at the same event time again, under a watermark that
/// has not gone back, reports the same key.
pub proof fn lemma_same_time_same_key(w: WindowsModel, wm1: int, wm2: int, t: int)
    requires
        wm1 <= wm2,
    ensures
        outcome_key(w.after_insert(wm1, t).insert_outcome(wm2, t)) == outcome_key(
            w.insert_outcome(wm1, t),
        ),
        outcome_key(w.insert_outcome(wm1, t)).0 == w.key_of(t) as i64,
{
}

/// A window is drained exactly once: a watermark not past its close time
/// leaves it open; one past it returns it, after which no later drain under a
/// watermark that has not gone back returns it again, and an item for it is
/// late, so it cannot be reopened.
pub proof fn lemma_drained_exactly_once(w: WindowsModel, wm1: int, wm2: int, k: int, t: int)
    requires
        w.open.contains(k),
        wm1 <= wm2,
    ensures
        w.close_of(k) >= wm1 ==> !w.closed_by(wm1).contains(k) && w.after_drain(wm1).open.contains(k),
        w.close_of(k) < wm1 ==> {
            &&& w.closed_by(wm1).contains(k)
            &&& !w.after_drain(wm1).open.contains(k)
            &&& !w.after_drain(wm1).closed_by(wm2).contains(k)
            &&& w.key_of(t) == k ==> w.after_drain(wm1).insert_outcome(wm2, t) is Err
            &&& w.key_of(t) == k ==> w.after_drain(wm1).after_insert(wm2, t) == w.after_drain(wm1)
        },
{
}

/// Resuming from a snapshot that lists exactly the open windows restores the
/// same state.
pub proof fn lemma_window_resume_reproduces(w: WindowsModel, s: Seq<(WindowKey, Timestamp)>)
    requires
        keys_of(s) == w.open,
    ensures
        WindowsModel::resumed(w.length, w.start_at, s) == w,
{
}

impl TumblingWindower {
    /// What every well-formed windower guarantees: a positive window length,
    /// an alignment instant in range, and finitely many open windows.
    pub proof fn lemma_wf_facts(&self)
        requires
            self.wf(),
        ensures
            self@.length > 0,
            valid_timestamp(self@.start_at),
            self@.open.finite(),
    {
        let s = self.close_times@;
        let m = s.map_values(|e: (WindowKey, Timestamp)| e.0.0 as int);
        assert forall|k: int| keys_of(s).contains(k) <==> m.to_set().contains(k) by {
            if keys_of(s).contains(k) {
                let i = choose|i: int| 0 <= i < s.len() && #[trigger] s[i].0.0 == k;
                assert(m[i] == k);
            }
            if m.to_set().contains(k) {
                let i = choose|i: int| 0 <= i < m.len() && m[i] == k;
                assert(s[i].0.0 == k);
            }
        }
        assert(keys_of(s) =~= m.to_set());
        vstd::seq_lib::seq_to_set_is_finite(m);
    }
}

/// A call on a windower, as its arguments.
pub enum WindowOp {
    Insert { watermark: int, item_time: int },
    Drain { watermark: int },
}

impl WindowsModel {
    /// The state after a sequence of calls.
    pub open spec fn apply(self, ops: Seq<WindowOp>) -> WindowsModel
        decreases ops.len(),
    {
        if ops.len() == 0 {
            self
        } else {
            let next = match ops[0] {
                WindowOp::Insert { watermark, item_time } => self.after_insert(watermark, item_time),
                WindowOp::Drain { watermark } => self.after_drain(watermark),
            };
            next.apply(ops.drop_first())
        }
    }
}

/// Calls never change the configuration.
proof fn lemma_apply_keeps_config(w: WindowsModel, ops: Seq<WindowOp>)
    ensures
        w.apply(ops).length == w.length,
        w.apply(ops).start_at == w.start_at,
    decreases ops.len(),
{
    if ops.len() > 0 {
        let next = match ops[0] {
            WindowOp::Insert { watermark, item_time } => w.after_insert(watermark, item_time),
            WindowOp::Drain { watermark } => w.after_drain(watermark),
        };
        lemma_apply_keeps_config(next, ops.drop_first());
    }
}

/// Inserting at the same event time reports the same key however many calls
/// came in between, under a watermark that has not gone back.
pub proof fn lemma_same_key_across_calls(w: WindowsModel, wm1: int, wm2: int, t: int, ops: Seq<WindowOp>)
    requires
        wm1 <= wm2,
    ensures
        outcome_key(w.after_insert(wm1, t).apply(ops).insert_outcome(wm2, t)) == outcome_key(
            w.insert_outcome(wm1, t),
        ),
{
    lemma_apply_keeps_config(w.after_insert(wm1, t), ops);
}

/// A window that is not open and closed before `wm` stays that way through
/// calls whose inserts come under watermarks from `wm` on.
proof fn lemma_stays_closed(v: WindowsModel, k: int, wm: int, ops: Seq<WindowOp>)
    requires
        !v.open.contains(k),
        v.close_of(k) < wm,
        forall|i: int|
            0 <= i < ops.len() ==> (#[trigger] ops[i] matches WindowOp::Insert { watermark, .. }
                ==> watermark >= wm),
    ensures
        !v.apply(ops).open.contains(k),
    decreases ops.len(),
{
    if ops.len() > 0 {
        let next = match ops[0] {
            WindowOp::Insert { watermark, item_time } => v.after_insert(watermark, item_time),
            WindowOp::Drain { watermark } => v.after_drain(watermark),
        };
        assert(!next.open.contains(k));
        let rest = ops.drop_first();
        assert forall|i: int|
            0 <= i < rest.len() implies (#[trigger] rest[i] matches WindowOp::Insert { watermark, .. }
                ==> watermark >= wm) by {
            assert(rest[i] == ops[i + 1]);
        }
        lemma_stays_closed(next, k, wm, rest);
    }
}

/// A key that a drain under `wm1` returned is returned by no later drain:
/// through any calls whose inserts come under watermarks from `wm1` on, an
/// item for that window is late, so the window stays closed.
pub proof fn lemma_drained_key_never_returns(
    w: WindowsModel,
    wm1: int,
    k: int,
    ops: Seq<WindowOp>,
    wm2: int,
)
    requires
        w.closed_by(wm1).contains(k),
        forall|i: int|
            0 <= i < ops.len() ==> (#[trigger] ops[i] matches WindowOp::Insert { watermark, .. }
                ==> watermark >= wm1),
    ensures
        !w.after_drain(wm1).apply(ops).open.contains(k),
        !w.after_drain(wm1).apply(ops).closed_by(wm2).contains(k),
{
    lemma_stays_closed(w.after_drain(wm1), k, wm1, ops);
}

/// A windower resumed from the snapshot of another behaves like it under any
/// sequence of calls: the same state after them, so the same insert results
/// and the same drained windows.
pub proof fn lemma_resumed_behaves_alike(
    w: WindowsModel,
    s: Seq<(WindowKey, Timestamp)>,
    ops: Seq<WindowOp>,
    wm: int,
    t: int,
)
    requires
        keys_of(s) == w.open,
    ensures
        WindowsModel::resumed(w.length, w.start_at, s).apply(ops) == w.apply(ops),
        WindowsModel::resumed(w.length, w.start_at, s).apply(ops).insert_outcome(wm, t) == w.apply(
            ops,
        ).insert_outcome(wm, t),
        WindowsModel::resumed(w.length, w.start_at, s).apply(ops).closed_by(wm) == w.apply(
            ops,
        ).closed_by(wm),
{
}

} // verus!
