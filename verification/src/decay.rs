//! Inactivity decay of ratings: a capability mapping a rating and the time
//! of the player's last match to a decayed rating. Time is carried as unix
//! milliseconds and injected by the caller, so decay is deterministic.

use vstd::prelude::*;

verus! {

use crate::rating::{Rating, DEVIATION_CEILING};

/// Milliseconds in a day.
pub const DAY_MILLIS: u64 = 86_400_000;

/// A decay rule. Applying it on a non-positive elapsed time returns the
/// rating unchanged, whatever the rule.
pub trait DecayStrategy: Sized {
    /// The exact value `apply_decay` returns.
    spec fn decay_spec(&self, rating: Rating, last_match_ms: i64, now_ms: i64) -> Rating;

    /// Decays `rating` for the inactivity between `last_match_ms` and
    /// `now_ms`.
    fn apply_decay(&self, rating: Rating, last_match_ms: i64, now_ms: i64) -> (r: Rating)
        requires
            rating.wf(),
        ensures
            r == self.decay_spec(rating, last_match_ms, now_ms),
            r.wf(),
            now_ms <= last_match_ms ==> r == rating,
            r.volatility == rating.volatility,
    ;
}

/// The identity rule: ratings never decay.
pub struct NoDecay;

impl DecayStrategy for NoDecay {
    open spec fn decay_spec(&self, rating: Rating, last_match_ms: i64, now_ms: i64) -> Rating {
        rating
    }

    fn apply_decay(&self, rating: Rating, last_match_ms: i64, now_ms: i64) -> (r: Rating) {
        rating
    }
}

/// Whole days elapsed between the two instants, floored and never negative.
pub open spec fn days_between_spec(last_match_ms: i64, now_ms: i64) -> int {
    if now_ms <= last_match_ms {
        0
    } else {
        (now_ms - last_match_ms) / (DAY_MILLIS as int)
    }
}

/// What linear decay returns: the point drops by `decay_per_day` for each
/// full day of inactivity, by at most `max_decay` in total and never below
/// zero; the deviation grows by half a point a day up to its ceiling.
pub open spec fn linear_decay_spec(
    decay_per_day: u64,
    max_decay: u64,
    rating: Rating,
    last_match_ms: i64,
    now_ms: i64,
) -> Rating {
    let d = days_between_spec(last_match_ms, now_ms);
    if d <= 0 {
        rating
    } else {
        let raw_loss = decay_per_day * d;
        let loss = if raw_loss >= max_decay { max_decay as int } else { raw_loss };
        let point = if loss >= rating.rating { 0u64 } else { (rating.rating - loss) as u64 };
        let spread = rating.deviation + d * 500;
        let deviation = if spread >= DEVIATION_CEILING { DEVIATION_CEILING } else { spread as u64 };
        Rating { rating: point, deviation, volatility: rating.volatility }
    }
}

/// Linear decay: a fixed point loss per day of inactivity, capped in
/// total, with the uncertainty creeping back up as the player sits out.
pub struct LinearDecay {
    /// Points lost per full day of inactivity, in milli-units.
    pub decay_per_day: u64,
    /// Largest total loss a single application may inflict, in milli-units.
    pub max_decay: u64,
}

impl LinearDecay {
    /// Builds the rule from a per-day loss and a total cap.
    pub fn new(decay_per_day: u64, max_decay: u64) -> (s: LinearDecay)
        ensures
            s.decay_per_day == decay_per_day,
            s.max_decay == max_decay,
    {
        LinearDecay { decay_per_day, max_decay }
    }

    /// The conventional rule: one point a day, a hundred points at most.
    pub fn default() -> (s: LinearDecay)
        ensures
            s.decay_per_day == 1000,
            s.max_decay == 100_000,
    {
        LinearDecay { decay_per_day: 1000, max_decay: 100_000 }
    }
}

impl DecayStrategy for LinearDecay {
    open spec fn decay_spec(&self, rating: Rating, last_match_ms: i64, now_ms: i64) -> Rating {
        linear_decay_spec(self.decay_per_day, self.max_decay, rating, last_match_ms, now_ms)
    }

    fn apply_decay(&self, rating: Rating, last_match_ms: i64, now_ms: i64) -> (r: Rating) {
        if now_ms <= last_match_ms {
            return rating;
        }
        let elapsed: i128 = now_ms as i128 - last_match_ms as i128;
        let d_wide: i128 = elapsed / (DAY_MILLIS as i128);
        proof {
            vstd::arithmetic::div_mod::lemma_div_pos_is_pos(elapsed as int, DAY_MILLIS as int);
            vstd::arithmetic::div_mod::lemma_div_is_ordered(
                elapsed as int,
                0xFFFF_FFFF_FFFF_FFFFi128 as int,
                DAY_MILLIS as int,
            );
            assert(0xFFFF_FFFF_FFFF_FFFFi128 as int / (DAY_MILLIS as int) == 213_503_982_334int);
        }
        let d: u64 = d_wide as u64;
        assert(d <= 213_503_982_334u64);
        assert(d == days_between_spec(last_match_ms, now_ms));
        if d == 0 {
            assert(linear_decay_spec(
                self.decay_per_day, self.max_decay, rating, last_match_ms, now_ms) == rating);
            return rating;
        }
        let loss: u64 = if self.decay_per_day != 0 && d > self.max_decay / self.decay_per_day {
            proof {
                lemma_many_days_overshoot(self.decay_per_day, self.max_decay, d);
            }
            self.max_decay
        } else {
            proof {
                if self.decay_per_day != 0 {
                    lemma_few_days_fit(self.decay_per_day, self.max_decay, d);
                }
            }
            let raw: u64 = self.decay_per_day * d;
            if raw >= self.max_decay {
                self.max_decay
            } else {
                raw
            }
        };
        let point: u64 = if loss >= rating.rating { 0 } else { rating.rating - loss };
        proof {
            assert(d * 500 <= 213_503_982_334i128 * 500) by (nonlinear_arith)
                requires d <= 213_503_982_334i128;
        }
        let spread_raw: u64 = d * 500;
        let spread: u64 = if spread_raw >= DEVIATION_CEILING {
            DEVIATION_CEILING
        } else if rating.deviation + spread_raw >= DEVIATION_CEILING {
            DEVIATION_CEILING
        } else {
            rating.deviation + spread_raw
        };
        Rating { rating: point, deviation: spread, volatility: rating.volatility }
    }
}

/// Past `max_decay / decay_per_day` full days the raw loss has overshot
/// the cap.
proof fn lemma_many_days_overshoot(per: u64, cap: u64, d: u64)
    requires
        per != 0,
        d > cap / per,
    ensures
        per * d >= cap,
{
    vstd::arithmetic::div_mod::lemma_fundamental_div_mod(cap as int, per as int);
    assert(per * d >= per * (cap / per + 1)) by (nonlinear_arith)
        requires d >= cap / per + 1, per >= 1;
    assert(d >= cap / per + 1);
    assert(per * (cap / per + 1) == per * (cap / per) + per) by (nonlinear_arith);
    assert(cap % per < per) by {
        vstd::arithmetic::div_mod::lemma_mod_division_less_than_divisor(cap as int, per as int);
    }
}

/// Up to that day count the raw loss still fits in the machine word.
proof fn lemma_few_days_fit(per: u64, cap: u64, d: u64)
    requires
        per != 0,
        d <= cap / per,
    ensures
        per * d <= cap,
{
    vstd::arithmetic::div_mod::lemma_fundamental_div_mod(cap as int, per as int);
    assert(per * d <= per * (cap / per)) by (nonlinear_arith)
        requires d <= cap / per, per >= 1;
    assert(cap % per >= 0) by {
        vstd::arithmetic::div_mod::lemma_mod_division_less_than_divisor(cap as int, per as int);
    }
}

} // verus!
