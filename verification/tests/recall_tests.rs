//! Tests for the review log, the stability estimator and the recall
//! predictor.

use speki::recall_rate::{
    calculate_recall_rate, maturity, new_stability, recall_rate, stability, DAY_SECS, RATE_SCALE,
};
use speki::reviews::{Grade, Review, Reviews};

fn review(timestamp: u64, grade: Grade) -> Review {
    Review { timestamp, grade, time_spent: 30 }
}

#[test]
fn stability_of_empty_log_is_absent() {
    let log = Reviews::from_raw(vec![]);
    assert_eq!(stability(&log), None);
}

#[test]
fn one_failure_then_one_pass_a_day_later() {
    // One failed review at t=0: the one-day seed shrinks by the 1/10
    // factor to 8640 seconds (a tenth of a day).
    let log = Reviews::from_raw(vec![review(0, Grade::Missed)]);
    assert_eq!(stability(&log), Some(8640));

    // A perfect review exactly one day later: the elapsed day times the
    // factor three outgrows the current tenth of a day, so stability
    // becomes three days.
    let log = Reviews::from_raw(vec![review(0, Grade::Missed), review(86400, Grade::Perfect)]);
    assert_eq!(stability(&log), Some(3 * 86400));
}

#[test]
fn single_review_seeds_from_one_day() {
    assert_eq!(
        stability(&Reviews::from_raw(vec![review(5, Grade::Late)])),
        Some(21600) // a quarter of a day
    );
    assert_eq!(
        stability(&Reviews::from_raw(vec![review(5, Grade::Partial)])),
        Some(2 * 86400)
    );
    assert_eq!(
        stability(&Reviews::from_raw(vec![review(5, Grade::Perfect)])),
        Some(3 * 86400)
    );
}

#[test]
fn blend_applies_when_gap_does_not_outgrow() {
    // Seed Perfect: 3 days. Then a partial success after half a day:
    // alternative = 43200 * 2 = 86400, not above 259200, so the estimate
    // blends to 259200 + 86400.
    let log = Reviews::from_raw(vec![review(0, Grade::Perfect), review(43200, Grade::Partial)]);
    assert_eq!(stability(&log), Some(259200 + 86400));
}

#[test]
fn out_of_order_history_yields_no_stability() {
    let log = Reviews::from_raw(vec![review(100, Grade::Perfect), review(50, Grade::Perfect)]);
    assert_eq!(stability(&log), None);
    assert_eq!(recall_rate(&log, 1000), None);
}

#[test]
fn equal_timestamps_are_tolerated() {
    let log = Reviews::from_raw(vec![review(100, Grade::Perfect), review(100, Grade::Perfect)]);
    assert!(stability(&log).is_some());
}

#[test]
fn stability_positive_for_increasing_logs() {
    // A long, failure-heavy history with strictly increasing timestamps
    // keeps a positive stability.
    let mut events = Vec::new();
    for i in 0..200u64 {
        events.push(review(i * 10, Grade::Missed));
    }
    let log = Reviews::from_raw(events);
    let s = stability(&log).unwrap();
    assert!(s >= 1);
}

#[test]
fn fresh_recall_is_certain_and_decays() {
    // A single perfect review at t0: recall at t0 is exactly one.
    let t0 = 1_700_000_000;
    let log = Reviews::from_raw(vec![review(t0, Grade::Perfect)]);
    assert_eq!(recall_rate(&log, t0), Some(RATE_SCALE));

    // And the prediction decays as the query time moves later.
    let day = DAY_SECS;
    let r1 = recall_rate(&log, t0 + day).unwrap();
    let r3 = recall_rate(&log, t0 + 3 * day).unwrap();
    let r9 = recall_rate(&log, t0 + 9 * day).unwrap();
    assert!(RATE_SCALE > r1);
    assert!(r1 > r3);
    assert!(r3 > r9);
}

#[test]
fn one_stability_period_gives_ninety_percent() {
    // stability of a lone perfect review is three days; three days after
    // it the curve reads exactly nine tenths.
    let t0 = 1000;
    let log = Reviews::from_raw(vec![review(t0, Grade::Perfect)]);
    assert_eq!(recall_rate(&log, t0 + 3 * DAY_SECS), Some(900_000));
    // Two full periods: 0.9 * 0.9.
    assert_eq!(recall_rate(&log, t0 + 6 * DAY_SECS), Some(810_000));
}

#[test]
fn query_before_last_review_clamps_to_zero_elapsed() {
    let log = Reviews::from_raw(vec![review(5000, Grade::Perfect)]);
    assert_eq!(recall_rate(&log, 100), Some(RATE_SCALE));
}

#[test]
fn decay_curve_stays_in_range() {
    for elapsed in [0u64, 1, 86400, 10 * 86400, 1000 * 86400, u64::MAX / 2] {
        for stab in [0u64, 1, 86400, 259200] {
            let r = calculate_recall_rate(elapsed, stab);
            assert!(r <= RATE_SCALE);
        }
    }
    assert_eq!(calculate_recall_rate(12345, 0), 0);
}

#[test]
fn new_stability_failure_bounded_by_elapsed() {
    // A failure shrinks from the smaller of elapsed and current.
    assert_eq!(new_stability(&Grade::Missed, Some(100), 86400), 10);
    assert_eq!(new_stability(&Grade::Missed, Some(86400), 100), 10);
    // The rounding keeps a live estimate positive.
    assert_eq!(new_stability(&Grade::Missed, Some(1), 86400), 1);
    assert_eq!(new_stability(&Grade::Late, Some(2), 86400), 1);
}

#[test]
fn maturity_of_unknown_card_is_zero() {
    let log = Reviews::from_raw(vec![]);
    assert_eq!(maturity(&log, 1_700_000_000), 0);
}

#[test]
fn maturity_rewards_durable_memory() {
    let t0 = 1_700_000_000;
    let strong = Reviews::from_raw(vec![review(t0, Grade::Perfect)]);
    let weak = Reviews::from_raw(vec![review(t0, Grade::Missed)]);
    let m_strong = maturity(&strong, t0);
    let m_weak = maturity(&weak, t0);
    assert!(m_strong > m_weak);
    assert!(m_strong <= 1_000_000_000);
}

#[test]
fn sort_restores_timestamp_order() {
    let mut log = Reviews::from_raw(vec![
        review(300, Grade::Partial),
        review(100, Grade::Missed),
        review(200, Grade::Perfect),
        review(100, Grade::Late),
    ]);
    log.sort_by_timestamp();
    let ts: Vec<u64> = log.0.iter().map(|r| r.timestamp).collect();
    assert_eq!(ts, vec![100, 100, 200, 300]);
    assert_eq!(log.len(), 4);
}

#[test]
fn lapses_reset_on_success() {
    let log = Reviews::from_raw(vec![
        review(0, Grade::Missed),
        review(1, Grade::Late),
        review(2, Grade::Perfect),
        review(3, Grade::Missed),
        review(4, Grade::Late),
    ]);
    assert_eq!(log.lapses(), 2);
    let clean = Reviews::from_raw(vec![review(0, Grade::Missed), review(1, Grade::Partial)]);
    assert_eq!(clean.lapses(), 0);
}

#[test]
fn review_log_basics() {
    let mut log = Reviews::from_raw(vec![]);
    assert!(log.is_empty());
    assert_eq!(log.time_since_last_review(500), None);
    log.add_review(review(100, Grade::Perfect));
    assert!(!log.is_empty());
    assert_eq!(log.len(), 1);
    assert_eq!(log.time_since_last_review(150), Some(50));
    // Clock skew clamps to zero rather than going negative.
    assert_eq!(log.time_since_last_review(50), Some(0));
    let inner = log.into_inner();
    assert_eq!(inner[0].timestamp, 100);
}

#[test]
fn time_passed_clamps_clock_skew() {
    let r = review(1000, Grade::Partial);
    assert_eq!(r.time_passed(1500), 500);
    assert_eq!(r.time_passed(500), 0);
}

#[test]
fn new_review_carries_grade_and_time_spent() {
    let r = Review::new(Grade::Late, 42);
    assert_eq!(r.grade, Grade::Late);
    assert_eq!(r.time_spent, 42);
}
