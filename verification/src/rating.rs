//! Skill rating representation and match outcomes.
//!
//! A rating is a triple (rating point, deviation, volatility), all stored in
//! milli-units: one thousandth of a rating point. The beginner default of
//! 1500.0 points with deviation 350.0 and volatility 0.06 is therefore
//! `(1_500_000, 350_000, 60)`.

use vstd::prelude::*;

verus! {

/// Upper bound kept on the rating point, in milli-units (one billion points).
pub const RATING_POINT_MAX: u64 = 1_000_000_000_000;

/// Ceiling kept on the rating deviation, in milli-units (350.0 points).
pub const DEVIATION_CEILING: u64 = 350_000;

/// Default rating point for a new player, in milli-units (1500.0 points).
pub const DEFAULT_RATING: u64 = 1_500_000;

/// Default volatility for a new player, in milli-units (0.06).
pub const DEFAULT_VOLATILITY: u64 = 60;

/// A player's skill estimate: point, uncertainty, and rate of change of
/// uncertainty. All fields are in milli-units.
#[derive(Clone, Copy, Debug, PartialEq, Eq, Structural)]
pub struct Rating {
    /// Current skill rating point (e.g. 1_500_000 for 1500.0).
    pub rating: u64,
    /// Rating deviation: the current uncertainty of the estimate.
    pub deviation: u64,
    /// Volatility: how quickly the uncertainty itself moves.
    pub volatility: u64,
}

/// A rating clamped into the representation bounds; the identity on any
/// well-formed rating.
pub open spec fn clamp_rating_spec(r: Rating) -> Rating {
    Rating {
        rating: if r.rating <= RATING_POINT_MAX { r.rating } else { RATING_POINT_MAX },
        deviation: if r.deviation <= DEVIATION_CEILING { r.deviation } else { DEVIATION_CEILING },
        volatility: r.volatility,
    }
}

impl Rating {
    /// The representation bounds every constructor establishes and every
    /// updater preserves: the point stays below `RATING_POINT_MAX` and the
    /// deviation below its ceiling.
    pub open spec fn wf(self) -> bool {
        &&& self.rating <= RATING_POINT_MAX
        &&& self.deviation <= DEVIATION_CEILING
    }

    /// Builds a rating, clamping the point and the deviation into the
    /// representation bounds.
    pub fn new(rating: u64, deviation: u64, volatility: u64) -> (r: Rating)
        ensures
            r == clamp_rating_spec(Rating { rating, deviation, volatility }),
            r.rating == if rating <= RATING_POINT_MAX { rating } else { RATING_POINT_MAX },
            r.deviation == if deviation <= DEVIATION_CEILING { deviation } else { DEVIATION_CEILING },
            r.volatility == volatility,
            r.wf(),
    {
        Rating {
            rating: if rating <= RATING_POINT_MAX { rating } else { RATING_POINT_MAX },
            deviation: if deviation <= DEVIATION_CEILING { deviation } else { DEVIATION_CEILING },
            volatility,
        }
    }

    /// The default rating of a player who has never played: 1500.0 points,
    /// full uncertainty, default volatility.
    pub fn default_beginner() -> (r: Rating)
        ensures
            r.rating == DEFAULT_RATING,
            r.deviation == DEVIATION_CEILING,
            r.volatility == DEFAULT_VOLATILITY,
            r.wf(),
    {
        Rating { rating: DEFAULT_RATING, deviation: DEVIATION_CEILING, volatility: DEFAULT_VOLATILITY }
    }

    /// A conservative estimate of skill, `rating - 2 * deviation`, in
    /// milli-units. May be negative for very uncertain ratings.
    pub fn conservative_estimate(&self) -> (r: i128)
        ensures
            r == self.rating - 2 * self.deviation,
    {
        self.rating as i128 - 2 * (self.deviation as i128)
    }
}

/// A match outcome from one participant's perspective.
#[derive(Clone, Copy, Debug, PartialEq, Eq, Structural)]
pub enum Outcome {
    Win,
    Loss,
    Draw,
}

impl Outcome {
    /// The scalar score of the outcome in per-mille: win 1000, loss 0,
    /// draw 500 (that is, 1, 0 and one half).
    pub fn score(&self) -> (s: u64)
        ensures
            s == self.score_spec(),
    {
        match self {
            Outcome::Win => 1000,
            Outcome::Loss => 0,
            Outcome::Draw => 500,
        }
    }

    /// What `score` returns: the per-mille scalar of the outcome.
    pub open spec fn score_spec(self) -> u64 {
        match self {
            Outcome::Win => 1000u64,
            Outcome::Loss => 0u64,
            Outcome::Draw => 500u64,
        }
    }
}

} // verus!
