//! The recall model: stability estimation over a review log, recall-rate
//! prediction, and the maturity score.
//!
//! All quantities are integers. Durations are unix seconds; recall rates are
//! fixed-point fractions in millionths (`RATE_SCALE` = one), so that the
//! whole model can be verified without floating point. A grade's factor is
//! the rational `grade_factor_num / grade_factor_den`: 1/10 for a miss, 1/4
//! for a late recall, 2 for a partial success and 3 for a perfect one.

use vstd::prelude::*;

use crate::reviews::{elapsed_since, Grade, Reviews};

verus! {

/// Seconds in one day, the seed stability and the default elapsed time.
pub const DAY_SECS: u64 = 86400;

/// Fixed-point scale for recall rates: this value means a rate of 1.0.
pub const RATE_SCALE: u64 = 1000000;

/// Numerator of a grade's stability factor.
pub open spec fn grade_factor_num(grade: Grade) -> int {
    match grade {
        Grade::Missed => 1,
        Grade::Late => 1,
        Grade::Partial => 2,
        Grade::Perfect => 3,
    }
}

/// Denominator of a grade's stability factor.
pub open spec fn grade_factor_den(grade: Grade) -> int {
    match grade {
        Grade::Missed => 10,
        Grade::Late => 4,
        Grade::Partial => 1,
        Grade::Perfect => 1,
    }
}

/// Clamps an unbounded mathematical result into the `u64` range.
pub open spec fn cap_u64(x: int) -> u64 {
    if x > u64::MAX {
        u64::MAX
    } else if x < 0 {
        0
    } else {
        x as u64
    }
}

/// The stability that one review event produces from the current estimate.
///
/// A failed recall always shrinks stability: the factor applies to the
/// elapsed time bounded by the current estimate, never amplified by an
/// overlong gap; the division rounds up so a lapse on a live estimate never
/// zeroes it. A successful recall adopts `elapsed * factor` when that
/// outgrows the current estimate, and otherwise blends: the interpolated
/// boost `current * (elapsed / current * factor)` simplifies exactly to
/// `elapsed * factor`, so the blend is `current + elapsed * factor`.
pub open spec fn new_stability_spec(grade: Grade, time_passed: Option<u64>, cur: u64) -> u64 {
    let t = match time_passed {
        Some(t) => t as int,
        None => DAY_SECS as int,
    };
    if !grade.is_success_spec() {
        let m = vstd::math::min(t, cur as int);
        let den = grade_factor_den(grade);
        cap_u64((m + den - 1) / den)
    } else {
        let alt = t * grade_factor_num(grade);
        if alt > cur as int {
            cap_u64(alt)
        } else {
            cap_u64(cur as int + alt)
        }
    }
}

/// One fold step of the stability estimate.
pub fn new_stability(grade: &Grade, time_passed: Option<u64>, current_stability: u64) -> (r: u64)
    ensures
        r == new_stability_spec(*grade, time_passed, current_stability),
{
    let t: u64 = match time_passed {
        Some(t) => t,
        None => DAY_SECS,
    };
    if !grade.is_success() {
        let m: u64 = if t <= current_stability {
            t
        } else {
            current_stability
        };
        let den: u128 = match grade {
            Grade::Missed => 10,
            Grade::Late => 4,
            Grade::Partial => 1,
            Grade::Perfect => 1,
        };
        let r = ((m as u128 + den - 1) / den) as u64;
        proof {
            assert(r == new_stability_spec(*grade, time_passed, current_stability));
        }
        r
    } else {
        let num: u128 = match grade {
            Grade::Missed => 1,
            Grade::Late => 1,
            Grade::Partial => 2,
            Grade::Perfect => 3,
        };
        let alt: u128 = t as u128 * num;
        let raw: u128 = if alt > current_stability as u128 {
            alt
        } else {
            current_stability as u128 + alt
        };
        if raw > u64::MAX as u128 {
            u64::MAX
        } else {
            raw as u64
        }
    }
}

/// The stability of a whole review log: absent for an empty log; seeded from
/// the first event with a one-day default; folded through every later event
/// with the elapsed time between consecutive reviews; absent whenever an
/// adjacent pair of timestamps is out of order (corrupt history yields no
/// number rather than a wrong one).
pub open spec fn stability_spec(s: Seq<crate::reviews::Review>) -> Option<u64>
    decreases s.len(),
{
    if s.len() == 0 {
        None
    } else if s.len() == 1 {
        Some(new_stability_spec(s[0].grade, None, DAY_SECS))
    } else {
        match stability_spec(s.drop_last()) {
            None => None,
            Some(cur) => {
                let prev = s[s.len() - 2].timestamp;
                let last = s.last();
                if prev > last.timestamp {
                    None
                } else {
                    Some(
                        new_stability_spec(
                            last.grade,
                            Some((last.timestamp - prev) as u64),
                            cur,
                        ),
                    )
                }
            },
        }
    }
}

/// The stability of a review log, as a duration in seconds.
pub fn stability(reviews: &Reviews) -> (r: Option<u64>)
    ensures
        r == stability_spec(reviews@),
{
    let n = reviews.0.len();
    if n == 0 {
        return None;
    }
    let first = reviews.0[0];
    let mut cur: u64 = new_stability(&first.grade, None, DAY_SECS);
    let mut prev_ts: u64 = first.timestamp;
    let mut failed: bool = false;
    let mut i: usize = 1;
    while i < n
        invariant
            1 <= i <= n,
            n == reviews@.len(),
            !failed ==> Some(cur) == stability_spec(reviews@.take(i as int)),
            failed ==> stability_spec(reviews@.take(i as int)) is None,
            !failed ==> prev_ts == reviews@[i - 1].timestamp,
        decreases n - i,
    {
        proof {
            assert(reviews@.take(i + 1).drop_last() =~= reviews@.take(i as int));
            assert(reviews@.take(i + 1).last() == reviews@[i as int]);
            assert(reviews@.take(i + 1)[i - 1] == reviews@[i - 1]);
        }
        if !failed {
            let review = reviews.0[i];
            if prev_ts > review.timestamp {
                failed = true;
            } else {
                let time_passed = review.timestamp - prev_ts;
                cur = new_stability(&review.grade, Some(time_passed), cur);
                prev_ts = review.timestamp;
            }
        }
        i += 1;
    }
    proof {
        assert(reviews@.take(n as int) =~= reviews@);
    }
    if failed {
        None
    } else {
        Some(cur)
    }
}

/// `RATE_SCALE * (9/10)^q`, the whole-period part of the decay curve,
/// with the fixed-point truncation applied at every step.
pub open spec fn pow9_ppm(q: int) -> int
    decreases q,
{
    if q <= 0 {
        RATE_SCALE as int
    } else {
        (pow9_ppm(q - 1) * 9) / 10
    }
}

pub proof fn lemma_pow9_bounds(q: int)
    ensures
        0 <= pow9_ppm(q) <= RATE_SCALE,
    decreases q,
{
    if q > 0 {
        lemma_pow9_bounds(q - 1);
    }
}

/// Once the truncated power chain reaches zero it stays there.
pub proof fn lemma_pow9_zero_persists(k: int, q: int)
    requires
        pow9_ppm(k) == 0,
        k <= q,
    ensures
        pow9_ppm(q) == 0,
    decreases q - k,
{
    if k < q {
        lemma_pow9_zero_persists(k, q - 1);
    }
}

/// The decay curve: a recall probability in millionths, from the time
/// elapsed since the last review and the current stability, both in seconds.
///
/// The curve is normalized so that zero elapsed time yields exactly
/// `RATE_SCALE` (certain recall) and one full stability period yields
/// exactly nine tenths of it. Whole periods multiply by 9/10 each; the
/// fractional period interpolates linearly between one and nine tenths.
/// A zero stability means the memory is already gone: the rate is zero.
pub open spec fn calculate_recall_rate_spec(elapsed: u64, stab: u64) -> u64 {
    if stab == 0 {
        0
    } else {
        let q = elapsed as int / stab as int;
        let rem = elapsed as int % stab as int;
        let frac = RATE_SCALE as int - (rem * 100000) / stab as int;
        ((pow9_ppm(q) * frac) / RATE_SCALE as int) as u64
    }
}

/// The fractional-period interpolation factor is always in
/// `(9/10 * RATE_SCALE, RATE_SCALE]`.
proof fn lemma_frac_bounds(rem: int, stab: int)
    requires
        0 <= rem < stab,
    ensures
        900000 < RATE_SCALE as int - (rem * 100000) / stab <= RATE_SCALE as int,
        0 <= (rem * 100000) / stab < 100000,
{
    vstd::arithmetic::div_mod::lemma_div_pos_is_pos(rem * 100000, stab);
    assert(rem * 100000 <= (stab - 1) * 100000) by (nonlinear_arith)
        requires
            0 <= rem < stab,
    ;
    assert((stab - 1) * 100000 < stab * 100000) by (nonlinear_arith)
        requires
            stab > 0,
    ;
    assert((rem * 100000) / stab < 100000) by {
        vstd::arithmetic::div_mod::lemma_multiply_divide_lt(rem * 100000, stab, 100000);
    }
}

/// The result of the decay curve stays within `[0, RATE_SCALE]`: recall
/// rates are probabilities by construction, never clamped after the fact.
pub proof fn lemma_recall_rate_range(elapsed: u64, stab: u64)
    ensures
        0 <= calculate_recall_rate_spec(elapsed, stab) <= RATE_SCALE,
{
    if stab != 0 {
        let q = elapsed as int / stab as int;
        let rem = elapsed as int % stab as int;
        vstd::arithmetic::div_mod::lemma_mod_bound(elapsed as int, stab as int);
        vstd::arithmetic::div_mod::lemma_div_pos_is_pos(elapsed as int, stab as int);
        lemma_frac_bounds(rem, stab as int);
        lemma_pow9_bounds(q);
        let frac = RATE_SCALE as int - (rem * 100000) / stab as int;
        assert(pow9_ppm(q) * frac <= RATE_SCALE as int * RATE_SCALE as int) by (nonlinear_arith)
            requires
                0 <= pow9_ppm(q) <= RATE_SCALE as int,
                0 <= frac <= RATE_SCALE as int,
        ;
        vstd::arithmetic::div_mod::lemma_div_pos_is_pos(pow9_ppm(q) * frac, RATE_SCALE as int);
        vstd::arithmetic::div_mod::lemma_div_is_ordered(
            pow9_ppm(q) * frac,
            RATE_SCALE as int * RATE_SCALE as int,
            RATE_SCALE as int,
        );
        assert(RATE_SCALE as int * RATE_SCALE as int / RATE_SCALE as int == RATE_SCALE as int)
            by (nonlinear_arith);
        assert(pow9_ppm(q) * frac >= 0) by (nonlinear_arith)
            requires
                pow9_ppm(q) >= 0,
                frac >= 0,
        ;
    }
}

/// The decay curve, executable.
pub fn calculate_recall_rate(elapsed: u64, stab: u64) -> (r: u64)
    ensures
        r == calculate_recall_rate_spec(elapsed, stab),
        r <= RATE_SCALE,
{
    proof {
        lemma_recall_rate_range(elapsed, stab);
    }
    if stab == 0 {
        return 0;
    }
    let q: u64 = elapsed / stab;
    let rem: u64 = elapsed % stab;
    let mut pow: u64 = RATE_SCALE;
    let mut k: u64 = 0;
    while k < q && pow > 0
        invariant
            0 <= k <= q,
            pow == pow9_ppm(k as int),
        decreases q - k,
    {
        proof {
            lemma_pow9_bounds(k as int);
        }
        pow = (pow * 9) / 10;
        k += 1;
    }
    proof {
        if k < q {
            lemma_pow9_zero_persists(k as int, q as int);
        }
        lemma_pow9_bounds(q as int);
        vstd::arithmetic::div_mod::lemma_mod_bound(elapsed as int, stab as int);
        lemma_frac_bounds(rem as int, stab as int);
    }
    let scaled: u64 = (((rem as u128) * 100000) / (stab as u128)) as u64;
    let frac: u64 = RATE_SCALE - scaled;
    proof {
        lemma_pow9_bounds(k as int);
        assert(pow as int * frac as int <= RATE_SCALE as int * RATE_SCALE as int)
            by (nonlinear_arith)
            requires
                0 <= pow as int <= RATE_SCALE as int,
                0 <= frac as int <= RATE_SCALE as int,
        ;
    }
    let r: u64 = (((pow as u128) * (frac as u128)) / (RATE_SCALE as u128)) as u64;
    r
}

/// The recall probability of a card at time `at`, in millionths: absent when
/// the log is empty or its history is corrupt (out-of-order timestamps), and
/// otherwise the decay curve applied to the stability and the time elapsed
/// since the last review (clamped to zero if `at` is earlier).
pub open spec fn recall_rate_spec(s: Seq<crate::reviews::Review>, at: u64) -> Option<u64> {
    match stability_spec(s) {
        None => None,
        Some(stab) => Some(
            calculate_recall_rate_spec(elapsed_since(s.last().timestamp, at), stab),
        ),
    }
}

/// The recall probability of a card at time `at`, in millionths.
pub fn recall_rate(reviews: &Reviews, at: u64) -> (r: Option<u64>)
    ensures
        r == recall_rate_spec(reviews@, at),
        r matches Some(p) ==> p <= RATE_SCALE,
{
    let stab = match stability(reviews) {
        None => {
            return None;
        },
        Some(stab) => stab,
    };
    let last = reviews.0[reviews.0.len() - 1];
    let elapsed = last.time_passed(at);
    Some(calculate_recall_rate(elapsed, stab))
}

/// Sum of the predicted recall rates at day offsets `d .. MATURITY_DAYS`
/// from `now`, each term defaulting to zero where recall is undefined.
pub open spec fn maturity_terms(s: Seq<crate::reviews::Review>, now: u64, d: int) -> int
    decreases MATURITY_DAYS - d,
{
    if d < 0 || d >= MATURITY_DAYS {
        0
    } else {
        let term = match recall_rate_spec(s, (now + d * DAY_SECS) as u64) {
            Some(p) => p as int,
            None => 0,
        };
        term + maturity_terms(s, now, d + 1)
    }
}

/// Days in the maturity integration horizon.
pub const MATURITY_DAYS: u64 = 1000;

/// The maturity score: the predicted recall rate integrated over a
/// 1000-day horizon starting at `now`, by one-day steps. The result is in
/// millionth-days: dividing by `RATE_SCALE` gives the value in days.
pub open spec fn maturity_spec(s: Seq<crate::reviews::Review>, now: u64) -> int {
    maturity_terms(s, now, 0)
}

proof fn lemma_maturity_none(s: Seq<crate::reviews::Review>, now: u64, d: int)
    requires
        stability_spec(s) is None,
    ensures
        maturity_terms(s, now, d) == 0,
    decreases MATURITY_DAYS - d,
{
    if 0 <= d < MATURITY_DAYS {
        lemma_maturity_none(s, now, d + 1);
    }
}

proof fn lemma_maturity_terms_bound(s: Seq<crate::reviews::Review>, now: u64, d: int)
    requires
        0 <= d <= MATURITY_DAYS,
    ensures
        0 <= maturity_terms(s, now, d) <= (MATURITY_DAYS - d) * RATE_SCALE,
    decreases MATURITY_DAYS - d,
{
    if d < MATURITY_DAYS {
        lemma_maturity_terms_bound(s, now, d + 1);
        let at = (now + d * DAY_SECS) as u64;
        match recall_rate_spec(s, at) {
            Some(p) => {
                match stability_spec(s) {
                    Some(stab) => {
                        lemma_recall_rate_range(
                            crate::reviews::elapsed_since(s.last().timestamp, at),
                            stab,
                        );
                    },
                    None => {},
                }
            },
            None => {},
        }
        assert((MATURITY_DAYS - (d + 1)) * RATE_SCALE + RATE_SCALE == (MATURITY_DAYS - d)
            * RATE_SCALE) by (nonlinear_arith);
    }
}

/// The maturity score of a card at time `now`, in millionth-days: how
/// durably the card is known over the next thousand days. Zero whenever the
/// recall rate is undefined (an empty or corrupt review log).
pub fn maturity(reviews: &Reviews, now: u64) -> (r: u64)
    requires
        now <= u64::MAX - 86400000,
    ensures
        r as int == maturity_spec(reviews@, now),
        r <= 1000000000,
{
    let stab = match stability(reviews) {
        None => {
            proof {
                lemma_maturity_none(reviews@, now, 0);
            }
            return 0;
        },
        Some(stab) => stab,
    };
    let last_ts: u64 = reviews.0[reviews.0.len() - 1].timestamp;
    let mut acc: u64 = 0;
    let mut d: u64 = MATURITY_DAYS;
    while d > 0
        invariant
            0 <= d <= MATURITY_DAYS,
            now <= u64::MAX - 86400000,
            stability_spec(reviews@) == Some(stab),
            reviews@.len() > 0,
            last_ts == reviews@.last().timestamp,
            acc as int == maturity_terms(reviews@, now, d as int),
            acc <= (MATURITY_DAYS - d) * RATE_SCALE,
        decreases d,
    {
        d = d - 1;
        let at: u64 = now + d * DAY_SECS;
        let elapsed: u64 = if at >= last_ts {
            at - last_ts
        } else {
            0
        };
        let rate: u64 = calculate_recall_rate(elapsed, stab);
        proof {
            assert(recall_rate_spec(reviews@, at) == Some(
                calculate_recall_rate_spec(
                    crate::reviews::elapsed_since(last_ts, at),
                    stab,
                ),
            ));
            assert((MATURITY_DAYS - d) * RATE_SCALE == (MATURITY_DAYS - (d + 1)) * RATE_SCALE
                + RATE_SCALE) by (nonlinear_arith);
            assert((MATURITY_DAYS as int - d) * RATE_SCALE as int <= 1000 * 1000000)
                by (nonlinear_arith)
                requires
                    0 <= d,
            ;
        }
        acc = acc + rate;
    }
    proof {
        assert(acc <= 1000000000) by (nonlinear_arith)
            requires
                acc as int <= (MATURITY_DAYS as int - 0) * (RATE_SCALE as int),
        ;
    }
    acc
}

/// One fold step keeps the stability estimate at one second or more, as
/// long as the elapsed time it folds in is at least a second.
proof fn lemma_new_stability_positive(grade: Grade, time_passed: Option<u64>, cur: u64)
    requires
        cur >= 1,
        time_passed matches Some(t) ==> t >= 1,
    ensures
        new_stability_spec(grade, time_passed, cur) >= 1,
{
    let t = match time_passed {
        Some(t) => t as int,
        None => DAY_SECS as int,
    };
    if !grade.is_success_spec() {
        let m = vstd::math::min(t, cur as int);
        let den = grade_factor_den(grade);
        vstd::arithmetic::div_mod::lemma_div_is_ordered(den, m + den - 1, den);
        vstd::arithmetic::div_mod::lemma_div_by_self(den);
    } else {
        let num = grade_factor_num(grade);
        assert(t * num >= 1) by (nonlinear_arith)
            requires
                t >= 1,
                num >= 1,
        ;
    }
}

/// Every non-empty review log whose timestamps strictly increase has a
/// stability, and that stability is positive (and finite, being a `u64`
/// count of seconds).
pub proof fn lemma_stability_positive(s: Seq<crate::reviews::Review>)
    requires
        s.len() > 0,
        forall|i: int, j: int| 0 <= i < j < s.len() ==> s[i].timestamp < s[j].timestamp,
    ensures
        stability_spec(s) is Some,
        stability_spec(s).unwrap() >= 1,
    decreases s.len(),
{
    if s.len() == 1 {
        lemma_new_stability_positive(s[0].grade, None, DAY_SECS);
    } else {
        let prefix = s.drop_last();
        assert(forall|i: int, j: int|
            0 <= i < j < prefix.len() ==> prefix[i].timestamp < prefix[j].timestamp);
        lemma_stability_positive(prefix);
        let cur = stability_spec(prefix).unwrap();
        let prev = s[s.len() - 2].timestamp;
        let last = s.last();
        assert(prev < last.timestamp);
        lemma_new_stability_positive(
            last.grade,
            Some((last.timestamp - prev) as u64),
            cur,
        );
    }
}

/// `(9/10) * x`, truncated, never exceeds `x` for non-negative `x`.
proof fn lemma_nine_tenths_shrinks(x: int)
    requires
        x >= 0,
    ensures
        0 <= (x * 9) / 10 <= x,
{
    assert(0 <= x * 9 <= x * 10) by (nonlinear_arith)
        requires
            x >= 0,
    ;
    vstd::arithmetic::div_mod::lemma_div_pos_is_pos(x * 9, 10);
    vstd::arithmetic::div_mod::lemma_div_is_ordered(x * 9, x * 10, 10);
    vstd::arithmetic::div_mod::lemma_div_multiples_vanish(x, 10);
    assert(x * 10 == 10 * x) by (nonlinear_arith);
}

/// The whole-period decay chain never grows as more periods pass.
pub proof fn lemma_pow9_antitone(q1: int, q2: int)
    requires
        q1 <= q2,
    ensures
        pow9_ppm(q1) >= pow9_ppm(q2),
    decreases q2 - q1,
{
    if q1 < q2 {
        lemma_pow9_antitone(q1, q2 - 1);
        lemma_pow9_bounds(q2 - 1);
        lemma_nine_tenths_shrinks(pow9_ppm(q2 - 1));
    }
}

/// `(p * 900000) / 1000000 == (p * 9) / 10` for non-negative `p`: the
/// truncation points of the two scalings coincide.
proof fn lemma_scale_by_nine_tenths(p: int)
    requires
        p >= 0,
    ensures
        (p * 900000) / 1000000 == (p * 9) / 10,
{
    assert(p * 900000 == (p * 9) * 100000) by (nonlinear_arith);
    assert(p * 9 >= 0) by (nonlinear_arith)
        requires
            p >= 0,
    ;
    vstd::arithmetic::div_mod::lemma_div_denominator((p * 9) * 100000, 100000, 10);
    vstd::arithmetic::div_mod::lemma_div_multiples_vanish(p * 9, 100000);
    vstd::arithmetic::mul::lemma_mul_is_commutative(p * 9, 100000);
}

/// The scaled product `(p * frac) / RATE_SCALE` stays within `[0,
/// RATE_SCALE]` when both inputs do.
proof fn lemma_rate_inner_bounds(p: int, frac: int)
    requires
        0 <= p <= RATE_SCALE,
        0 <= frac <= RATE_SCALE,
    ensures
        0 <= (p * frac) / (RATE_SCALE as int) <= RATE_SCALE,
{
    let m = RATE_SCALE as int;
    vstd::arithmetic::mul::lemma_mul_nonnegative(p, frac);
    vstd::arithmetic::div_mod::lemma_div_pos_is_pos(p * frac, m);
    vstd::arithmetic::mul::lemma_mul_inequality(p, m, frac);
    vstd::arithmetic::mul::lemma_mul_is_commutative(p, frac);
    vstd::arithmetic::mul::lemma_mul_is_commutative(m, frac);
    vstd::arithmetic::mul::lemma_mul_inequality(frac, m, m);
    vstd::arithmetic::mul::lemma_mul_is_commutative(frac, m);
    vstd::arithmetic::div_mod::lemma_div_is_ordered(p * frac, m * m, m);
    vstd::arithmetic::div_mod::lemma_div_multiples_vanish(m, m);
}

/// The decay curve is monotone: a longer elapsed time never yields a larger
/// recall rate. (Strict decrease is not promised: the fixed-point grid can
/// hold the value flat across a small step, and the rate is zero from some
/// horizon on.)
pub proof fn lemma_recall_rate_antitone(e1: u64, e2: u64, stab: u64)
    requires
        e1 <= e2,
    ensures
        calculate_recall_rate_spec(e1, stab) >= calculate_recall_rate_spec(e2, stab),
{
    if stab == 0 {
        return ;
    }
    let s = stab as int;
    let q1 = e1 as int / s;
    let r1 = e1 as int % s;
    let q2 = e2 as int / s;
    let r2 = e2 as int % s;
    vstd::arithmetic::div_mod::lemma_fundamental_div_mod(e1 as int, s);
    vstd::arithmetic::div_mod::lemma_fundamental_div_mod(e2 as int, s);
    vstd::arithmetic::div_mod::lemma_mod_bound(e1 as int, s);
    vstd::arithmetic::div_mod::lemma_mod_bound(e2 as int, s);
    vstd::arithmetic::div_mod::lemma_div_pos_is_pos(e1 as int, s);
    vstd::arithmetic::div_mod::lemma_div_is_ordered(e1 as int, e2 as int, s);
    lemma_frac_bounds(r1, s);
    lemma_frac_bounds(r2, s);
    lemma_pow9_bounds(q1);
    lemma_pow9_bounds(q2);
    let p1 = pow9_ppm(q1);
    let p2 = pow9_ppm(q2);
    let frac1 = RATE_SCALE as int - (r1 * 100000) / s;
    let frac2 = RATE_SCALE as int - (r2 * 100000) / s;
    let m = RATE_SCALE as int;
    lemma_rate_inner_bounds(p1, frac1);
    lemma_rate_inner_bounds(p2, frac2);
    if q1 == q2 {
        assert(r1 <= r2) by (nonlinear_arith)
            requires
                e1 as int == q1 * s + r1,
                e2 as int == q2 * s + r2,
                q1 == q2,
                e1 <= e2,
        ;
        vstd::arithmetic::mul::lemma_mul_inequality(r1, r2, 100000);
        vstd::arithmetic::div_mod::lemma_div_is_ordered(r1 * 100000, r2 * 100000, s);
        vstd::arithmetic::mul::lemma_mul_inequality(frac2, frac1, p1);
        vstd::arithmetic::mul::lemma_mul_is_commutative(p1, frac2);
        vstd::arithmetic::mul::lemma_mul_is_commutative(p1, frac1);
        vstd::arithmetic::div_mod::lemma_div_is_ordered(p1 * frac2, p1 * frac1, m);
    } else {
        // The earlier rate is at least a full 9/10 step above the power
        // reached by the later one.
        assert(q1 < q2);
        // calc(e1) >= (p1 * 900000) / m == (p1 * 9) / 10 == pow9_ppm(q1 + 1)
        vstd::arithmetic::mul::lemma_mul_inequality(900000, frac1, p1);
        vstd::arithmetic::mul::lemma_mul_is_commutative(p1, 900000);
        vstd::arithmetic::mul::lemma_mul_is_commutative(p1, frac1);
        vstd::arithmetic::div_mod::lemma_div_is_ordered(p1 * 900000, p1 * frac1, m);
        lemma_scale_by_nine_tenths(p1);
        assert(pow9_ppm(q1 + 1) == (p1 * 9) / 10);
        lemma_pow9_antitone(q1 + 1, q2);
        // calc(e2) <= p2 <= pow9_ppm(q1 + 1)
        vstd::arithmetic::mul::lemma_mul_inequality(frac2, m, p2);
        vstd::arithmetic::mul::lemma_mul_is_commutative(p2, frac2);
        vstd::arithmetic::mul::lemma_mul_is_commutative(p2, m);
        vstd::arithmetic::div_mod::lemma_div_is_ordered(p2 * frac2, p2 * m, m);
        vstd::arithmetic::div_mod::lemma_div_multiples_vanish(p2, m);
        assert((p1 * frac1) / m >= (p1 * 900000) / m);
        assert((p2 * frac2) / m <= p2);
    }
}

/// At the moment of the last review the predicted recall is exactly one
/// (`RATE_SCALE`), for any log with a positive stability.
pub proof fn lemma_recall_rate_fresh(s: Seq<crate::reviews::Review>, at: u64)
    requires
        s.len() > 0,
        stability_spec(s) matches Some(stab) && stab >= 1,
        s.last().timestamp == at,
    ensures
        recall_rate_spec(s, at) == Some(RATE_SCALE),
{
    let stab = stability_spec(s).unwrap();
    let st = stab as int;
    assert(elapsed_since(at, at) == 0);
    vstd::arithmetic::div_mod::lemma_small_div_converse(0, st);
    vstd::arithmetic::div_mod::lemma_small_mod(0, st as nat);
    assert(0 as int / st == 0);
    assert((0 * 100000) as int / st == 0) by {
        assert(0 * 100000 == 0) by (nonlinear_arith);
    };
    assert(pow9_ppm(0) == RATE_SCALE as int);
    let m = RATE_SCALE as int;
    vstd::arithmetic::div_mod::lemma_div_multiples_vanish(m, m);
    assert(m * m == m * m) by (nonlinear_arith);
    assert((m * m) / m == m);
}

/// The predicted recall rate of a card never rises as the query time moves
/// later: the decay curve applied at a later `at` yields an equal or lower
/// rate.
pub proof fn lemma_recall_rate_decays(s: Seq<crate::reviews::Review>, at1: u64, at2: u64)
    requires
        at1 <= at2,
        stability_spec(s) is Some,
    ensures
        recall_rate_spec(s, at1) is Some,
        recall_rate_spec(s, at2) is Some,
        recall_rate_spec(s, at1).unwrap() >= recall_rate_spec(s, at2).unwrap(),
{
    let last = s.last().timestamp;
    let stab = stability_spec(s).unwrap();
    assert(elapsed_since(last, at1) <= elapsed_since(last, at2));
    lemma_recall_rate_antitone(elapsed_since(last, at1), elapsed_since(last, at2), stab);
}

} // verus!
