//! Runtime checks of the windowed rate estimator on concrete scenarios.
//!
//! Timestamps are monotonic milliseconds; the reported rate is in whole
//! words per minute (with the fixed three-second window and five keystrokes
//! to the word, the exact rate is always a whole number: four per surviving
//! key press).

use wpm_meter::wpm::WpmCalculator;

/// A burst of five key presses (one word) over a three-second window is
/// 20 words per minute; after a four-second silence the rate has decayed
/// to zero.
#[test]
fn test_wpm_calculation() {
    let mut calc = WpmCalculator::new();

    // Add 5 keystrokes (1 word)
    for _ in 0..5 {
        calc.add_keypress(0);
    }

    // Immediate check:
    // 5 chars = 1 word
    // Window = 3s = 0.05 min
    // WPM = 1 / 0.05 = 20
    let wpm = calc.calculate_wpm(0);
    assert!(((wpm as f64) - 20.0).abs() < 0.001, "Expected 20 WPM, got {}", wpm);

    // Wait for window to expire + buffer
    let wpm_after = calc.calculate_wpm(4000);
    assert_eq!(wpm_after, 0, "Expected 0 WPM after decay");
}

/// A freshly constructed estimator reports zero at any query time.
#[test]
fn fresh_estimator_reports_zero() {
    let mut calc = WpmCalculator::new();
    assert_eq!(calc.calculate_wpm(0), 0);
    assert_eq!(calc.calculate_wpm(500), 0);
    assert_eq!(calc.calculate_wpm(u64::MAX), 0);
}

/// Five events at t=0: 20 WPM at t=0, still 20 WPM at t=0.5s (inside the
/// window, not yet idle), and 0 at t=4s where the idle branch fires and
/// clears the history.
#[test]
fn burst_then_idle_scenario() {
    let mut calc = WpmCalculator::new();
    for _ in 0..5 {
        calc.add_keypress(0);
    }
    assert_eq!(calc.calculate_wpm(0), 20);
    assert_eq!(calc.calculate_wpm(500), 20);
    assert_eq!(calc.calculate_wpm(4000), 0);
}

/// One event at t=0 and one at t=2s, queried at t=2s: both inside the
/// three-second window, so 2 keys = 0.4 words over 0.05 minutes = 8 WPM.
#[test]
fn two_events_in_window() {
    let mut calc = WpmCalculator::new();
    calc.add_keypress(0);
    calc.add_keypress(2000);
    assert_eq!(calc.calculate_wpm(2000), 8);
}

/// An event exactly one window old still counts; one millisecond older is
/// excluded.
#[test]
fn window_boundary_is_inclusive() {
    let mut calc = WpmCalculator::new();
    calc.add_keypress(0);
    calc.add_keypress(3000);
    // the event at t=0 is exactly 3000 ms old: still counted
    assert_eq!(calc.calculate_wpm(3000), 8);

    let mut calc2 = WpmCalculator::new();
    calc2.add_keypress(0);
    calc2.add_keypress(3001);
    // the event at t=0 is now 3001 ms old: dropped
    assert_eq!(calc2.calculate_wpm(3001), 4);
}

/// A gap just past the idle timeout forces the rate to zero even though the
/// events would still be inside the window; a gap exactly at the timeout
/// does not.
#[test]
fn idle_timeout_boundary() {
    let mut calc = WpmCalculator::new();
    for _ in 0..5 {
        calc.add_keypress(0);
    }
    // gap of exactly 1000 ms: not idle, all five still in the window
    assert_eq!(calc.calculate_wpm(1000), 20);
    // gap of 1001 ms: idle, rate forced to zero
    assert_eq!(calc.calculate_wpm(1001), 0);
}

/// Going idle clears the whole history, not just the out-of-window part:
/// after the idle query, an old event that would still have been inside the
/// window no longer contributes.
#[test]
fn idle_clears_history() {
    let mut calc = WpmCalculator::new();
    for _ in 0..5 {
        calc.add_keypress(0);
    }
    // gap 1500 ms > idle timeout: rate zero, history discarded
    assert_eq!(calc.calculate_wpm(1500), 0);
    // the five old events were still inside the 3000 ms window, but they are
    // gone: only the new key press counts
    calc.add_keypress(1600);
    assert_eq!(calc.calculate_wpm(1600), 4);
}

/// Querying twice at the same instant, with no event in between, yields the
/// same value both times.
#[test]
fn query_is_idempotent() {
    let mut calc = WpmCalculator::new();
    calc.add_keypress(0);
    calc.add_keypress(300);
    calc.add_keypress(700);
    let first = calc.calculate_wpm(700);
    let second = calc.calculate_wpm(700);
    assert_eq!(first, 12);
    assert_eq!(second, first);
}

/// Events spread past the window: recording itself prunes, and the rate
/// counts only the events within the window of the query instant.
#[test]
fn old_events_age_out() {
    let mut calc = WpmCalculator::new();
    calc.add_keypress(0);
    calc.add_keypress(1000);
    calc.add_keypress(2000);
    calc.add_keypress(3500);
    // the event at t=0 is 3500 ms old and out; the other three remain
    assert_eq!(calc.calculate_wpm(3500), 12);
}
