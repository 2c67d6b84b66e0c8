//! Windowed words-per-minute estimator.
//!
//! [`WpmCalculator`] keeps a short rolling history of key-press timestamps,
//! ages out entries older than the trailing window, and reports a typing rate
//! that decays to zero once the keyboard has been silent for longer than the
//! idle timeout. Timestamps are monotonic milliseconds supplied by the caller.

use vstd::prelude::*;

verus! {

/// Length of the trailing window over which key presses are counted, in
/// milliseconds.
pub const WINDOW_MS: u64 = 3000;

/// Longest silence after the last key press, in milliseconds, before the
/// estimator is considered idle and reports a rate of zero.
pub const IDLE_TIMEOUT_MS: u64 = 1000;

/// Number of keystrokes counted as one word.
pub const KEYSTROKES_PER_WORD: u64 = 5;

/// Milliseconds in one minute.
pub const MS_PER_MINUTE: u64 = 60_000;

/// A key press at time `t` still counts at query time `now` when it is at
/// most `WINDOW_MS` old. The bound is inclusive: an event exactly `WINDOW_MS`
/// old is still inside the window.
pub open spec fn within_window(t: u64, now: u64) -> bool {
    now - t <= WINDOW_MS
}

/// The history that survives pruning at `now`: exactly the timestamps still
/// inside the window, in their original order.
pub open spec fn pruned(h: Seq<u64>, now: u64) -> Seq<u64> {
    h.filter(|t: u64| within_window(t, now))
}

/// The history after recording a key press at `now` on top of `h`: the event
/// is appended, then everything outside the window of `now` is dropped.
pub open spec fn recorded(h: Seq<u64>, now: u64) -> Seq<u64> {
    pruned(h.push(now), now)
}

/// Whether a rate query at `now` finds the estimator idle: no event was ever
/// recorded, or the most recent one is more than `IDLE_TIMEOUT_MS` in the
/// past.
pub open spec fn is_idle(last: Option<u64>, now: u64) -> bool {
    match last {
        None => true,
        Some(l) => now - l > IDLE_TIMEOUT_MS,
    }
}

/// The words-per-minute figure for `count` key presses inside the window:
/// `count / 5` words over a window of `3000 / 60000` minutes. Because
/// `5 * 3000` divides `60000` evenly, the integer division loses nothing;
/// the result equals the real-valued rate, namely `4 * count`.
pub open spec fn wpm_for_count(count: nat) -> nat {
    (count * (MS_PER_MINUTE as nat)) / ((KEYSTROKES_PER_WORD * WINDOW_MS) as nat)
}

/// The history a rate query at `now` leaves behind: cleared entirely when the
/// estimator is idle, otherwise pruned to the window of `now`.
pub open spec fn queried(h: Seq<u64>, last: Option<u64>, now: u64) -> Seq<u64> {
    if is_idle(last, now) {
        Seq::<u64>::empty()
    } else {
        pruned(h, now)
    }
}

/// The value a rate query at `now` reports: zero when the estimator is idle,
/// otherwise the rate for the key presses still inside the window.
pub open spec fn query_value(h: Seq<u64>, last: Option<u64>, now: u64) -> nat {
    if is_idle(last, now) {
        0
    } else {
        wpm_for_count(pruned(h, now).len())
    }
}

/// `s` is non-decreasing: oldest timestamp first.
pub open spec fn sorted(s: Seq<u64>) -> bool {
    forall|i: int, j: int| 0 <= i <= j < s.len() ==> s[i] <= s[j]
}

/// `now` does not precede the most recent recorded event, if there is one.
/// Callers must feed the estimator a monotonic clock; this is their side of
/// that bargain.
pub open spec fn at_or_after_last(last: Option<u64>, now: u64) -> bool {
    match last {
        None => true,
        Some(l) => l <= now,
    }
}

/// The integer formula in `wpm_for_count` is exact: with the fixed window of
/// three seconds and five keystrokes to the word, the rate is four times the
/// surviving count, with no remainder. In particular the rate is zero exactly
/// when the count is.
pub proof fn lemma_wpm_for_count(count: nat)
    ensures
        wpm_for_count(count) == 4 * count,
{
    let d = (KEYSTROKES_PER_WORD * WINDOW_MS) as nat;
    assert(d == 15000);
    assert(count * (MS_PER_MINUTE as nat) == (4 * count) * d) by (nonlinear_arith)
        requires d == 15000;
    vstd::arithmetic::div_mod::lemma_div_by_multiple(4 * count as int, d as int);
}

/// Pruning keeps a history whose entries are all inside the window.
proof fn lemma_pruned_all_within(h: Seq<u64>, now: u64)
    requires
        forall|i: int| 0 <= i < h.len() ==> within_window(h[i], now),
    ensures
        pruned(h, now) == h,
    decreases h.len(),
{
    reveal(Seq::filter);
    if h.len() == 0 {
        assert(pruned(h, now) =~= h);
    } else {
        let d = h.drop_last();
        assert(forall|i: int| 0 <= i < d.len() ==> d[i] == h[i]);
        lemma_pruned_all_within(d, now);
        assert(within_window(h.last(), now));
        assert(d.push(h.last()) =~= h);
    }
}

/// On a history whose first `k` entries are outside the window and whose
/// remaining entries are inside it, pruning drops exactly the first `k`.
proof fn lemma_pruned_skip(h: Seq<u64>, now: u64, k: int)
    requires
        0 <= k <= h.len(),
        forall|j: int| 0 <= j < k ==> !within_window(h[j], now),
        forall|j: int| k <= j < h.len() ==> within_window(h[j], now),
    ensures
        pruned(h, now) == h.skip(k),
    decreases h.len(),
{
    reveal(Seq::filter);
    if h.len() == 0 {
        assert(pruned(h, now) =~= h.skip(k));
    } else {
        let d = h.drop_last();
        let a: u64 = h.last();
        assert(forall|i: int| 0 <= i < d.len() ==> d[i] == h[i]);
        if k == h.len() {
            lemma_pruned_skip(d, now, k - 1);
            assert(!within_window(a, now));
            assert(pruned(h, now) == d.skip(k - 1));
            assert(d.skip(k - 1) =~= h.skip(k));
        } else {
            lemma_pruned_skip(d, now, k);
            assert(within_window(a, now));
            assert(pruned(h, now) == d.skip(k).push(a));
            assert(d.skip(k).push(a) =~= h.skip(k));
        }
    }
}

/// Appending an event that lies inside the window commutes with pruning.
proof fn lemma_pruned_push_within(h: Seq<u64>, a: u64, now: u64)
    requires
        within_window(a, now),
    ensures
        pruned(h.push(a), now) == pruned(h, now).push(a),
{
    reveal(Seq::filter);
    assert(h.push(a).drop_last() =~= h);
    assert(h.push(a).last() == a);
}

/// Pruning at a later instant subsumes any earlier pruning: entries dropped
/// early would have been dropped late anyway. With `t1 == t2` this says that
/// pruning is idempotent.
proof fn lemma_pruned_pruned(h: Seq<u64>, t1: u64, t2: u64)
    requires
        t1 <= t2,
    ensures
        pruned(pruned(h, t1), t2) == pruned(h, t2),
    decreases h.len(),
{
    reveal(Seq::filter);
    if h.len() == 0 {
        assert(pruned(h, t1) =~= h);
    } else {
        let d = h.drop_last();
        let a: u64 = h.last();
        lemma_pruned_pruned(d, t1, t2);
        if within_window(a, t1) {
            assert(pruned(h, t1) == pruned(d, t1).push(a));
            if within_window(a, t2) {
                lemma_pruned_push_within(pruned(d, t1), a, t2);
                assert(pruned(h, t2) == pruned(d, t2).push(a));
            } else {
                assert(pruned(d, t1).push(a).drop_last() =~= pruned(d, t1));
                assert(pruned(d, t1).push(a).last() == a);
                assert(pruned(h, t2) == pruned(d, t2));
            }
        } else {
            assert(!within_window(a, t2));
            assert(pruned(h, t1) == pruned(d, t1));
            assert(pruned(h, t2) == pruned(d, t2));
        }
    }
}

/// The history built up by recording each of `events` in turn, oldest first,
/// starting from an empty estimator: each step appends the event and prunes
/// to its window, exactly as [`WpmCalculator::add_keypress`] does.
pub open spec fn history_after_events(events: Seq<u64>) -> Seq<u64>
    decreases events.len(),
{
    if events.len() == 0 {
        Seq::<u64>::empty()
    } else {
        recorded(history_after_events(events.drop_last()), events.last())
    }
}

/// Law: feed any non-decreasing sequence of events into a fresh estimator.
/// Immediately after the last event, the surviving history is exactly the
/// fed events that lie within the window of the last one — pruning along the
/// way loses nothing else — and a rate query at that same instant reports the
/// exact rate for that count: `count / 5` words over the window's minutes.
pub proof fn lemma_rate_after_events(events: Seq<u64>)
    requires
        events.len() > 0,
        sorted(events),
    ensures
        history_after_events(events) == pruned(events, events.last()),
        query_value(history_after_events(events), Some(events.last()), events.last())
            == wpm_for_count(pruned(events, events.last()).len()),
    decreases events.len(),
{
    let a: u64 = events.last();
    let d = events.drop_last();
    assert(within_window(a, a));
    if events.len() == 1 {
        assert(history_after_events(d) == Seq::<u64>::empty());
        assert(history_after_events(events) == pruned(Seq::<u64>::empty().push(a), a));
        lemma_pruned_all_within(Seq::<u64>::empty().push(a), a);
        lemma_pruned_all_within(events, a);
        assert(Seq::<u64>::empty().push(a) =~= events);
    } else {
        assert(forall|i: int| 0 <= i < d.len() ==> d[i] == events[i]);
        lemma_rate_after_events(d);
        let b: u64 = d.last();
        assert(b <= a);
        // one more recording on top of the history the prefix left behind
        assert(history_after_events(events) == pruned(pruned(d, b).push(a), a));
        lemma_pruned_push_within(pruned(d, b), a, a);
        lemma_pruned_pruned(d, b, a);
        lemma_pruned_push_within(d, a, a);
        assert(d.push(a) =~= events);
    }
    // a query at the instant of the last event is never idle, and pruning the
    // already-pruned history once more changes nothing
    lemma_pruned_pruned(events, a, a);
}

/// Law: a rate query is idempotent. Querying twice at the same instant with
/// no event recorded in between yields the same value both times, and the
/// second query leaves the history exactly where the first one left it.
pub proof fn lemma_rate_idempotent(h: Seq<u64>, last: Option<u64>, now: u64)
    ensures
        query_value(queried(h, last, now), last, now) == query_value(h, last, now),
        queried(queried(h, last, now), last, now) == queried(h, last, now),
{
    if !is_idle(last, now) {
        lemma_pruned_pruned(h, now, now);
    }
}

/// Windowed typing-rate estimator.
///
/// One instance is created at process start and driven from a single control
/// flow: the host calls [`WpmCalculator::add_keypress`] once per detected key
/// press and [`WpmCalculator::calculate_wpm`] whenever the displayed value
/// should be refreshed.
pub struct WpmCalculator {
    timestamps: std::collections::VecDeque<u64>,
    window_duration: u64,
    last_keypress: Option<u64>,
    idle_timeout: u64,
}

impl WpmCalculator {
    /// The recorded history, oldest first.
    pub closed spec fn history(self) -> Seq<u64> {
        self.timestamps@
    }

    /// The time of the most recent key press, or `None` before the first one.
    pub closed spec fn last_event(self) -> Option<u64> {
        self.last_keypress
    }

    /// Internal invariant: the configuration holds the fixed window and idle
    /// constants, the history is ordered oldest-first, and every entry is at
    /// or before the most recent key press (so an empty last-event means an
    /// empty history).
    pub closed spec fn wf(self) -> bool {
        &&& self.window_duration == WINDOW_MS
        &&& self.idle_timeout == IDLE_TIMEOUT_MS
        &&& sorted(self.timestamps@)
        &&& match self.last_keypress {
            None => self.timestamps@.len() == 0,
            Some(l) => forall|i: int|
                0 <= i < self.timestamps@.len() ==> self.timestamps@[i] <= l,
        }
    }

    /// A fresh estimator: empty history, no last event, fixed configuration.
    pub fn new() -> (r: Self)
        ensures
            r.wf(),
            r.history() == Seq::<u64>::empty(),
            r.last_event() is None,
    {
        Self {
            timestamps: std::collections::VecDeque::new(),
            window_duration: WINDOW_MS,
            last_keypress: None,
            idle_timeout: IDLE_TIMEOUT_MS,
        }
    }

    /// Records a key press at `now_ms`: remembers it as the most recent
    /// event, appends it to the history, and drops whatever the new event
    /// pushed out of the window. Timestamps must be fed in non-decreasing
    /// order; the operation is total and never fails.
    pub fn add_keypress(&mut self, now_ms: u64)
        requires
            old(self).wf(),
            at_or_after_last(old(self).last_event(), now_ms),
        ensures
            final(self).wf(),
            final(self).last_event() == Some(now_ms),
            final(self).history() == recorded(old(self).history(), now_ms),
    {
        self.last_keypress = Some(now_ms);
        self.timestamps.push_back(now_ms);
        proof {
            assert(self.timestamps@ == old(self).timestamps@.push(now_ms));
            assert forall|i: int, j: int|
                0 <= i <= j < self.timestamps@.len() implies self.timestamps@[i]
                <= self.timestamps@[j] by {
                if j < self.timestamps@.len() - 1 {
                    assert(old(self).timestamps@[i] <= old(self).timestamps@[j]);
                } else if i < self.timestamps@.len() - 1 {
                    assert(self.timestamps@[i] == old(self).timestamps@[i]);
                }
            }
        }
        self.cleanup_old_timestamps(now_ms);
    }

    /// Removes the timestamps that have fallen out of the window of
    /// `now_ms`, oldest first, and keeps everything else unchanged.
    fn cleanup_old_timestamps(&mut self, now_ms: u64)
        requires
            old(self).wf(),
            at_or_after_last(old(self).last_event(), now_ms),
        ensures
            final(self).wf(),
            final(self).last_event() == old(self).last_event(),
            final(self).history() == pruned(old(self).history(), now_ms),
    {
        let ghost orig: Seq<u64> = self.timestamps@;
        let ghost mut stale: int = 0;
        loop
            invariant
                self.window_duration == WINDOW_MS,
                self.idle_timeout == IDLE_TIMEOUT_MS,
                self.last_keypress == old(self).last_keypress,
                sorted(orig),
                at_or_after_last(self.last_keypress, now_ms),
                match self.last_keypress {
                    None => orig.len() == 0,
                    Some(l) => forall|i: int| 0 <= i < orig.len() ==> orig[i] <= l,
                },
                0 <= stale <= orig.len(),
                self.timestamps@ == orig.skip(stale),
                forall|j: int| 0 <= j < stale ==> !within_window(orig[j], now_ms),
            ensures
                self.timestamps@.len() == 0 || within_window(self.timestamps@[0], now_ms),
            decreases self.timestamps@.len(),
        {
            if self.timestamps.len() == 0 {
                break;
            }
            let t: u64 = self.timestamps[0];
            proof {
                assert(t == orig[stale]);
                assert(t <= now_ms);
            }
            if now_ms - t <= self.window_duration {
                break;
            }
            self.timestamps.pop_front();
            proof {
                stale = stale + 1;
                assert(self.timestamps@ =~= orig.skip(stale));
            }
        }
        proof {
            if self.timestamps@.len() == 0 {
                assert(stale == orig.len());
            } else {
                assert(self.timestamps@[0] == orig[stale]);
                assert forall|j: int|
                    stale <= j < orig.len() implies within_window(orig[j], now_ms) by {
                    assert(orig[stale] <= orig[j]);
                }
            }
            lemma_pruned_skip(orig, now_ms, stale);
            assert forall|i: int, j: int|
                0 <= i <= j < self.timestamps@.len() implies self.timestamps@[i]
                <= self.timestamps@[j] by {
                assert(self.timestamps@[i] == orig[stale + i]);
                assert(self.timestamps@[j] == orig[stale + j]);
            }
            if self.last_keypress is Some {
                let l: u64 = self.last_keypress->Some_0;
                assert forall|i: int|
                    0 <= i < self.timestamps@.len() implies self.timestamps@[i] <= l by {
                    assert(self.timestamps@[i] == orig[stale + i]);
                }
            }
        }
    }

    /// Reports the current typing rate at `now_ms`, in whole words per
    /// minute. When the estimator is idle — no event ever, or the last one
    /// more than the idle timeout ago — the history is discarded and the
    /// rate is zero. Otherwise the history is pruned to the window and the
    /// rate is the exact words-per-minute figure for the surviving count:
    /// `count / 5` words over a three-second window, i.e. `4 * count`.
    ///
    /// The rate is zero exactly when no key press survives the query. The
    /// most recent event time is never changed by a query. The wide result
    /// type keeps the computation total for a history of any length.
    pub fn calculate_wpm(&mut self, now_ms: u64) -> (rate: u128)
        requires
            old(self).wf(),
            at_or_after_last(old(self).last_event(), now_ms),
        ensures
            final(self).wf(),
            final(self).last_event() == old(self).last_event(),
            final(self).history() == queried(
                old(self).history(),
                old(self).last_event(),
                now_ms,
            ),
            rate == query_value(old(self).history(), old(self).last_event(), now_ms),
            old(self).last_event() is None ==> rate == 0,
            is_idle(old(self).last_event(), now_ms) ==> rate == 0
                && final(self).history().len() == 0,
            rate == 0 <==> final(self).history().len() == 0,
    {
        match self.last_keypress {
            None => {
                proof {
                    assert(self.timestamps@ =~= Seq::<u64>::empty());
                }
                return 0;
            },
            Some(last) => {
                if now_ms - last > self.idle_timeout {
                    self.timestamps.clear();
                    return 0;
                }
            },
        }
        self.cleanup_old_timestamps(now_ms);
        let count: usize = self.timestamps.len();
        if count == 0 {
            0
        } else {
            proof {
                lemma_wpm_for_count(count as nat);
            }
            (count as u128) * (MS_PER_MINUTE as u128) / ((KEYSTROKES_PER_WORD * WINDOW_MS) as u128)
        }
    }
}

} // verus!
