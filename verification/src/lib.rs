//! Real-time typing-speed measurement.
//!
//! The crate's single component is [`wpm::WpmCalculator`], a windowed rate
//! estimator: it ingests timestamped key-press events and, on demand, reports
//! a words-per-minute figure over a short trailing window, decaying to zero
//! after a pause. The host program supplies the timestamps (a monotonic
//! millisecond clock) and displays the returned rate.

pub mod wpm;
