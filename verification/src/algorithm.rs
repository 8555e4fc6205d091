//! The rating updaters: a symmetric Elo-style update and a simplified
//! deviation-aware (Glicko-family) update. Both are capabilities behind the
//! `MmrAlgorithm` trait, so callers depend only on the update contract.
//!
//! All quantities are fixed-point milli-units; expected scores are
//! per-mille.

use vstd::prelude::*;

verus! {

use crate::numeric::{
    expected_score, expected_score_spec, expected_low_spec, lemma_expected_score_bounds,
    isqrt, sqrt_spec, pow10_milli,
};
use crate::rating::{Outcome, Rating, RATING_POINT_MAX, DEVIATION_CEILING};

/// Largest accepted K-factor, in milli-points (one million rating points).
pub const K_FACTOR_MAX: u64 = 1_000_000_000;

/// Default K-factor: 32 rating points, in milli-units.
pub const DEFAULT_K_FACTOR: u64 = 32_000;

/// Cap on the Glicko variance term, in squared rating points; applied when
/// the expected score degenerates to 0 or 1 and the raw term would blow up.
pub const VARIANCE_CAP: u64 = 100_000_000;

/// `round(pi^2 * 10^6)`: the divisor of the Glicko `g` function over
/// milli-unit deviations.
pub const PI_SQ_MICRO: u64 = 9_869_604;

/// `round(log10(e) * 10^6)`: converts a natural exponent to a base-ten one.
pub const LOG10_E_MICRO: u64 = 434_294;

/// A rating updater: derives a player's next rating from the pair of
/// pre-match ratings and the reported outcome.
pub trait MmrAlgorithm: Sized {
    /// The exact value `calculate_new_rating` returns.
    spec fn update_spec(&self, player: Rating, opponent: Rating, outcome: Outcome) -> Rating;

    /// The name `name` returns.
    spec fn name_spec(&self) -> Seq<char>;

    /// Derives the post-match rating of `player` against `opponent`.
    fn calculate_new_rating(&self, player: Rating, opponent: Rating, outcome: Outcome) -> (r:
        Rating)
        requires
            player.wf(),
            opponent.wf(),
        ensures
            r == self.update_spec(player, opponent, outcome),
            r.wf(),
            r.volatility == player.volatility,
    ;

    /// The identifier of the algorithm.
    fn name(&self) -> (n: String)
        ensures
            n@ == self.name_spec(),
    ;
}

/// Clamps a signed point computation into the representable rating range.
pub open spec fn clamp_point_spec(p: int) -> u64 {
    if p <= 0 {
        0u64
    } else if p >= RATING_POINT_MAX {
        RATING_POINT_MAX
    } else {
        p as u64
    }
}

/// What the symmetric update returns: point moved by
/// `k * (score - expected) / 1000`, deviation shrunk by one percent,
/// volatility kept.
pub open spec fn elo_update_spec(k: u64, player: Rating, opponent: Rating, outcome: Outcome) -> Rating {
    let e = expected_score_spec(player.rating, opponent.rating);
    let s = outcome.score_spec() as int;
    let point = if s >= e {
        clamp_point_spec(player.rating + (k * (s - e)) / 1000)
    } else {
        clamp_point_spec(player.rating - (k * (e - s)) / 1000)
    };
    Rating {
        rating: point,
        deviation: ((player.deviation * 99) / 100) as u64,
        volatility: player.volatility,
    }
}

/// The symmetric (Elo-style) rating updater.
pub struct EloAlgorithm {
    /// The K-factor, in milli-points; at most `K_FACTOR_MAX`.
    k_factor: u64,
}

impl EloAlgorithm {
    /// Builds the updater, clamping the K-factor at `K_FACTOR_MAX`.
    pub fn new(k_factor: u64) -> (a: EloAlgorithm)
        ensures
            a.k() == if k_factor <= K_FACTOR_MAX { k_factor } else { K_FACTOR_MAX },
    {
        EloAlgorithm { k_factor: if k_factor <= K_FACTOR_MAX { k_factor } else { K_FACTOR_MAX } }
    }

    /// The updater with the default K-factor of 32 points.
    pub fn default() -> (a: EloAlgorithm)
        ensures
            a.k() == DEFAULT_K_FACTOR,
    {
        EloAlgorithm { k_factor: DEFAULT_K_FACTOR }
    }

    /// The configured K-factor, in milli-points.
    pub closed spec fn k(&self) -> u64 {
        self.k_factor
    }

    /// The K-factor never exceeds its cap; every constructor keeps this.
    #[verifier::type_invariant]
    spec fn k_bounded(&self) -> bool {
        self.k_factor <= K_FACTOR_MAX
    }
}

impl MmrAlgorithm for EloAlgorithm {
    open spec fn update_spec(&self, player: Rating, opponent: Rating, outcome: Outcome) -> Rating {
        elo_update_spec(self.k(), player, opponent, outcome)
    }

    open spec fn name_spec(&self) -> Seq<char> {
        "Elo"@
    }

    fn calculate_new_rating(&self, player: Rating, opponent: Rating, outcome: Outcome) -> (r:
        Rating) {
        proof {
            use_type_invariant(self);
            lemma_expected_score_bounds(player.rating, opponent.rating);
        }
        let e: u64 = expected_score(player.rating, opponent.rating);
        let s: u64 = outcome.score();
        let point: u64 = if s >= e {
            proof {
                assert(self.k_factor * (s - e) <= K_FACTOR_MAX * 1000) by (nonlinear_arith)
                    requires self.k_factor <= K_FACTOR_MAX, s - e <= 1000;
            }
            let delta: u64 = (self.k_factor * (s - e)) / 1000;
            let raw: u64 = player.rating + delta;
            if raw >= RATING_POINT_MAX {
                RATING_POINT_MAX
            } else {
                raw
            }
        } else {
            proof {
                assert(self.k_factor * (e - s) <= K_FACTOR_MAX * 1000) by (nonlinear_arith)
                    requires self.k_factor <= K_FACTOR_MAX, e - s <= 1000;
            }
            let delta: u64 = (self.k_factor * (e - s)) / 1000;
            if delta >= player.rating {
                0
            } else {
                player.rating - delta
            }
        };
        Rating { rating: point, deviation: (player.deviation * 99) / 100, volatility: player.volatility }
    }

    fn name(&self) -> (n: String) {
        "Elo".to_string()
    }
}

/// The Glicko `g` attenuation of the opponent's deviation, in micro-units:
/// `10^6 / sqrt(1 + 3 * sigma^2 / pi^2)` over a milli-unit deviation.
pub open spec fn glicko_g_micro_spec(dev: u64) -> int {
    let t = 1 + (3 * ((dev * dev) as int)) / (PI_SQ_MICRO as int);
    sqrt_spec(1_000_000_000_000int / t)
}

/// The base-ten exponent fed to the logistic curve: `g * diff * log10(e)`,
/// with `g` in micro-units and `diff` in milli-points.
pub open spec fn glicko_exponent_spec(g: int, diff: int) -> int {
    ((g * diff) * LOG10_E_MICRO) / 1_000_000_000_000
}

/// The deviation-aware expected score in per-mille:
/// `1 / (1 + exp(-g * (r_self - r_opp) / 400))`.
pub open spec fn glicko_expected_spec(player: Rating, opponent: Rating) -> int {
    let g = glicko_g_micro_spec(opponent.deviation);
    if opponent.rating >= player.rating {
        expected_low_spec(glicko_exponent_spec(g, opponent.rating - player.rating) as u64)
    } else {
        1000 - expected_low_spec(glicko_exponent_spec(g, player.rating - opponent.rating) as u64)
    }
}

/// The variance term `1 / (g^2 * E * (1 - E))` in squared rating points,
/// capped at `VARIANCE_CAP` (and set to the cap when `E` degenerates to 0
/// or 1, where the raw term blows up).
pub open spec fn glicko_variance_spec(g: int, e: int) -> int {
    if e <= 0 || e >= 1000 {
        VARIANCE_CAP as int
    } else {
        let denom = ((g * g) * e) * (1000 - e);
        let raw = 1_000_000_000_000_000_000int / denom;
        if raw >= VARIANCE_CAP {
            VARIANCE_CAP as int
        } else {
            raw
        }
    }
}

/// What the deviation-aware update returns. When the opponent's deviation
/// is zero the rating is returned unchanged; otherwise the point moves by
/// `v * g * (score - E)` and the deviation grows to
/// `min(350, sqrt(dev^2 + v))`.
pub open spec fn glicko_update_spec(player: Rating, opponent: Rating, outcome: Outcome) -> Rating {
    if opponent.deviation == 0 {
        player
    } else {
        let g = glicko_g_micro_spec(opponent.deviation);
        let e = glicko_expected_spec(player, opponent);
        let v = glicko_variance_spec(g, e);
        let s = outcome.score_spec() as int;
        let point = if s >= e {
            clamp_point_spec(player.rating + ((v * g) * (s - e)) / 1_000_000)
        } else {
            clamp_point_spec(player.rating - ((v * g) * (e - s)) / 1_000_000)
        };
        let grown = sqrt_spec(player.deviation * player.deviation + v * 1_000_000);
        let deviation = if grown >= DEVIATION_CEILING { DEVIATION_CEILING } else { grown as u64 };
        Rating { rating: point, deviation, volatility: player.volatility }
    }
}

/// The deviation-aware (simplified Glicko-family) rating updater.
pub struct Glicko2Algorithm {
    /// The system volatility constant, in milli-units; carried by the
    /// configuration, not consumed by the simplified update.
    tau: u64,
}

impl Glicko2Algorithm {
    /// Builds the updater with the given system constant.
    pub fn new(tau: u64) -> (a: Glicko2Algorithm)
        ensures
            a.tau() == tau,
    {
        Glicko2Algorithm { tau }
    }

    /// The updater with the conventional system constant of 0.5.
    pub fn default() -> (a: Glicko2Algorithm)
        ensures
            a.tau() == 500,
    {
        Glicko2Algorithm { tau: 500 }
    }

    /// The configured system constant, in milli-units.
    pub closed spec fn tau(&self) -> u64 {
        self.tau
    }
}

impl MmrAlgorithm for Glicko2Algorithm {
    open spec fn update_spec(&self, player: Rating, opponent: Rating, outcome: Outcome) -> Rating {
        glicko_update_spec(player, opponent, outcome)
    }

    open spec fn name_spec(&self) -> Seq<char> {
        "Glicko2"@
    }

    fn calculate_new_rating(&self, player: Rating, opponent: Rating, outcome: Outcome) -> (r:
        Rating) {
        if opponent.deviation == 0 {
            return player;
        }
        let dev = opponent.deviation;
        proof {
            assert(3 * (dev * dev) <= 3 * (350_000 * 350_000)) by (nonlinear_arith)
                requires dev <= 350_000;
            vstd::arithmetic::div_mod::lemma_div_is_ordered(
                3 * ((dev * dev) as int),
                (3 * (350_000 * 350_000)) as int,
                PI_SQ_MICRO as int,
            );
        }
        let t: u64 = 1 + (3 * (dev * dev)) / PI_SQ_MICRO;
        assert(t <= 40_000_000);
        let g: u64 = isqrt(1_000_000_000_000u64 / t);
        proof {
            lemma_glicko_g_bounds(dev);
        }
        assert(g as int == glicko_g_micro_spec(dev));
        assert(1 <= g <= 1_000_000);
        let diff: u64 = if opponent.rating >= player.rating {
            opponent.rating - player.rating
        } else {
            player.rating - opponent.rating
        };
        proof {
            assert(g * diff <= 1_000_000 * (RATING_POINT_MAX as int)) by (nonlinear_arith)
                requires g <= 1_000_000, diff <= RATING_POINT_MAX;
            assert((g * diff) * LOG10_E_MICRO <= (1_000_000 * (RATING_POINT_MAX as int))
                * LOG10_E_MICRO) by (nonlinear_arith)
                requires g * diff <= 1_000_000 * (RATING_POINT_MAX as int);
            vstd::arithmetic::div_mod::lemma_div_is_ordered(
                ((g * diff) * LOG10_E_MICRO) as int,
                (1_000_000 * (RATING_POINT_MAX as int)) * LOG10_E_MICRO,
                1_000_000_000_000int,
            );
            vstd::arithmetic::div_mod::lemma_div_pos_is_pos(
                ((g * diff) * LOG10_E_MICRO) as int,
                1_000_000_000_000int,
            );
        }
        let m_wide: u128 = ((g as u128) * (diff as u128) * (LOG10_E_MICRO as u128))
            / 1_000_000_000_000u128;
        assert(m_wide <= 434_294_000_000u128);
        let m: u64 = m_wide as u64;
        assert(m as int == glicko_exponent_spec(g as int, diff as int));
        proof {
            crate::numeric::lemma_pow10_milli_bounds(m);
        }
        let p: u64 = pow10_milli(m);
        let low: u64 = (1000 * crate::numeric::FRAC_SCALE) / (crate::numeric::FRAC_SCALE + p);
        proof {
            vstd::arithmetic::div_mod::lemma_div_is_ordered_by_denominator(
                (1000 * crate::numeric::FRAC_SCALE) as int,
                (2 * crate::numeric::FRAC_SCALE) as int,
                crate::numeric::FRAC_SCALE + p as int,
            );
            vstd::arithmetic::div_mod::lemma_div_multiples_vanish(
                500,
                (2 * crate::numeric::FRAC_SCALE) as int,
            );
            assert((1000 * crate::numeric::FRAC_SCALE) as int == ((2 * crate::numeric::FRAC_SCALE) as int) * 500);
        }
        assert(low as int == expected_low_spec(m) && low <= 500);
        let e: u64 = if opponent.rating >= player.rating { low } else { 1000 - low };
        assert(e as int == glicko_expected_spec(player, opponent));
        assert(e <= 1000);
        let v: u64 = if e == 0 || e == 1000 {
            VARIANCE_CAP
        } else {
            proof {
                assert(1 <= g * g <= 1_000_000u64 * 1_000_000) by (nonlinear_arith)
                    requires 1 <= g <= 1_000_000;
                assert(1 <= (g * g) * e <= (1_000_000u64 * 1_000_000) * 999) by (nonlinear_arith)
                    requires 1 <= g * g <= 1_000_000u64 * 1_000_000, 1 <= e <= 999;
                assert(1 <= ((g * g) * e) * (1000 - e) <= ((1_000_000u64 * 1_000_000) * 999) * 999) by (nonlinear_arith)
                    requires 1 <= (g * g) * e <= (1_000_000u64 * 1_000_000) * 999, 1 <= e <= 999;
            }
            let denom: u64 = ((g * g) * e) * (1000 - e);
            let raw: u64 = 1_000_000_000_000_000_000u64 / denom;
            if raw >= VARIANCE_CAP {
                VARIANCE_CAP
            } else {
                raw
            }
        };
        assert(v as int == glicko_variance_spec(g as int, e as int));
        assert(v <= VARIANCE_CAP);
        let s: u64 = outcome.score();
        let point: u64 = if s >= e {
            proof {
                assert(v * g <= (VARIANCE_CAP as int) * 1_000_000) by (nonlinear_arith)
                    requires v <= VARIANCE_CAP, g <= 1_000_000;
                assert((v * g) * (s - e) <= ((VARIANCE_CAP as int) * 1_000_000) * 1000) by (nonlinear_arith)
                    requires v * g <= (VARIANCE_CAP as int) * 1_000_000, s - e <= 1000;
            }
            let delta: u64 = ((v * g) * (s - e)) / 1_000_000;
            if delta >= RATING_POINT_MAX || player.rating >= RATING_POINT_MAX - delta {
                RATING_POINT_MAX
            } else {
                player.rating + delta
            }
        } else {
            proof {
                assert(v * g <= (VARIANCE_CAP as int) * 1_000_000) by (nonlinear_arith)
                    requires v <= VARIANCE_CAP, g <= 1_000_000;
                assert((v * g) * (e - s) <= ((VARIANCE_CAP as int) * 1_000_000) * 1000) by (nonlinear_arith)
                    requires v * g <= (VARIANCE_CAP as int) * 1_000_000, e - s <= 1000;
            }
            let delta: u64 = ((v * g) * (e - s)) / 1_000_000;
            if delta >= player.rating {
                0
            } else {
                player.rating - delta
            }
        };
        proof {
            assert(player.deviation * player.deviation <= 350_000 * 350_000) by (nonlinear_arith)
                requires player.deviation <= 350_000;
        }
        let grown: u64 = isqrt(player.deviation * player.deviation + v * 1_000_000);
        let deviation: u64 = if grown >= DEVIATION_CEILING { DEVIATION_CEILING } else { grown };
        let result = Rating { rating: point, deviation, volatility: player.volatility };
        assert(result == glicko_update_spec(player, opponent, outcome));
        result
    }

    fn name(&self) -> (n: String) {
        "Glicko2".to_string()
    }
}

/// Bounds of the `g` attenuation over well-formed deviations.
proof fn lemma_glicko_g_bounds(dev: u64)
    requires
        dev <= DEVIATION_CEILING,
    ensures
        1 <= glicko_g_micro_spec(dev) <= 1_000_000,
{
    let t = 1 + (3 * ((dev * dev) as int)) / (PI_SQ_MICRO as int);
    assert(3 * (dev * dev) <= 3 * (350_000 * 350_000)) by (nonlinear_arith)
        requires dev <= 350_000;
    vstd::arithmetic::div_mod::lemma_div_pos_is_pos(3 * (dev * dev), PI_SQ_MICRO as int);
    vstd::arithmetic::div_mod::lemma_div_is_ordered(
        3 * ((dev * dev) as int),
        (3 * (350_000 * 350_000)) as int,
        PI_SQ_MICRO as int,
    );
    assert(1 <= t <= 40_000_000);
    let q = 1_000_000_000_000int / t;
    vstd::arithmetic::div_mod::lemma_div_is_ordered_by_denominator(
        1_000_000_000_000int, t, 40_000_000int,
    );
    vstd::arithmetic::div_mod::lemma_div_pos_is_pos(1_000_000_000_000int, t);
    assert(1_000_000_000_000int / 40_000_000int == 25_000);
    assert(q >= 25_000);
    vstd::arithmetic::div_mod::lemma_div_nonincreasing(1_000_000_000_000int, t);
    assert(q <= 1_000_000_000_000);
    lemma_sqrt_spec_characterized(q);
    let w = sqrt_spec(q);
    assert(w <= 1_000_000) by (nonlinear_arith)
        requires 0 <= w, w * w <= q, q <= 1_000_000_000_000;
    assert(w >= 1) by (nonlinear_arith)
        requires 0 <= w, (w + 1) * (w + 1) > q, q >= 25_000;
}

/// The `choose` underlying `sqrt_spec` does pick a genuine square root for
/// any non-negative argument.
proof fn lemma_sqrt_spec_characterized(x: int)
    requires
        0 <= x,
    ensures
        0 <= sqrt_spec(x),
        sqrt_spec(x) * sqrt_spec(x) <= x,
        (sqrt_spec(x) + 1) * (sqrt_spec(x) + 1) > x,
    decreases x,
{
    if x == 0 {
        assert(0 <= 0 && 0 * 0 <= x && (0 + 1) * (0 + 1) > x);
        assert(exists|r: int| 0 <= r && #[trigger] (r * r) <= x && (r + 1) * (r + 1) > x);
    } else {
        lemma_sqrt_spec_characterized(x - 1);
        let p = sqrt_spec(x - 1);
        if (p + 1) * (p + 1) <= x {
            assert((p + 2) * (p + 2) > x) by (nonlinear_arith)
                requires 0 <= p, p * p <= x - 1, (p + 1) * (p + 1) > x - 1, (p + 1) * (p + 1) <= x;
            assert(0 <= p + 1 && (p + 1) * (p + 1) <= x && ((p + 1) + 1) * ((p + 1) + 1) > x);
            assert(exists|r: int| 0 <= r && #[trigger] (r * r) <= x && (r + 1) * (r + 1) > x);
        } else {
            assert(0 <= p && p * p <= x && (p + 1) * (p + 1) > x);
            assert(exists|r: int| 0 <= r && #[trigger] (r * r) <= x && (r + 1) * (r + 1) > x);
        }
    }
}

} // verus!

verus! {

/// Against each other, a symmetric-update win strictly raises the winner's
/// point and the matching loss strictly lowers the loser's, whenever the
/// expected score is strictly between zero and one, the K-factor is at
/// least one full rating point, and neither point sits on an edge of the
/// representable range.
pub proof fn lemma_symmetric_win_gains_loss_costs(k: u64, winner: Rating, loser: Rating)
    requires
        1000 <= k <= K_FACTOR_MAX,
        0 < expected_score_spec(winner.rating, loser.rating) < 1000,
        winner.rating < RATING_POINT_MAX,
        loser.rating > 0,
    ensures
        elo_update_spec(k, winner, loser, Outcome::Win).rating > winner.rating,
        elo_update_spec(k, loser, winner, Outcome::Loss).rating < loser.rating,
{
    let ew = expected_score_spec(winner.rating, loser.rating);
    let el = expected_score_spec(loser.rating, winner.rating);
    crate::numeric::lemma_expected_score_antisymmetric(winner.rating, loser.rating);
    assert(el == 1000 - ew);
    assert(0 < el < 1000);

    let dw = (k * (1000 - ew)) / 1000;
    assert(k * (1000 - ew) >= 1000) by (nonlinear_arith)
        requires k >= 1000, 1000 - ew >= 1;
    vstd::arithmetic::div_mod::lemma_div_is_ordered(1000, k * (1000 - ew), 1000);
    assert(dw >= 1);

    let dl = (k * (el - 0)) / 1000;
    assert(k * (el - 0) >= 1000) by (nonlinear_arith)
        requires k >= 1000, el >= 1;
    vstd::arithmetic::div_mod::lemma_div_is_ordered(1000, k * (el - 0), 1000);
    assert(dl >= 1);
}

} // verus!
