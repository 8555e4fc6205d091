//! Competitive seasons and the rating resets applied at their boundaries:
//! a soft reset that pulls every rating part way toward a target, and a
//! hard reset that starts everyone over.

use vstd::prelude::*;

verus! {

use crate::rating::{Rating, RATING_POINT_MAX, DEVIATION_CEILING, DEFAULT_VOLATILITY};

/// Deviation given to every rating by a soft reset: a moderate
/// uncertainty of 200 points, in milli-units.
pub const SOFT_RESET_DEVIATION: u64 = 200_000;

/// A competitive season: an id and a half-open activity window in unix
/// milliseconds.
#[derive(Debug, Clone)]
pub struct Season {
    pub id: String,
    pub start_ms: i64,
    pub end_ms: i64,
}

impl Season {
    /// Whether the instant `now_ms` falls inside the season's window.
    pub fn is_active(&self, now_ms: i64) -> (b: bool)
        ensures
            b == (self.start_ms <= now_ms && now_ms < self.end_ms),
    {
        self.start_ms <= now_ms && now_ms < self.end_ms
    }
}

/// A season-boundary rating reset.
pub trait SeasonResetStrategy: Sized {
    /// The exact value `reset_rating` returns.
    spec fn reset_spec(&self, current: Rating) -> Rating;

    /// The rating a player starts the new season with.
    fn reset_rating(&self, current: Rating) -> (r: Rating)
        requires
            current.wf(),
        ensures
            r == self.reset_spec(current),
            r.wf(),
    ;
}

/// What a soft reset returns: the point moved toward the target by the
/// configured per-mille fraction, the deviation set to a moderate
/// uncertainty, the volatility kept.
pub open spec fn soft_reset_spec(target: u64, fraction: u64, current: Rating) -> Rating {
    let point = if target >= current.rating {
        (current.rating + ((target - current.rating) * fraction) / 1000) as u64
    } else {
        (current.rating - ((current.rating - target) * fraction) / 1000) as u64
    };
    Rating { rating: point, deviation: SOFT_RESET_DEVIATION, volatility: current.volatility }
}

/// Soft reset: move each rating a fixed fraction of the way to a target.
pub struct SoftReset {
    /// The point ratings move toward, in milli-units; at most the
    /// representable maximum.
    target_rating: u64,
    /// How far toward the target to move, in per-mille; at most 1000.
    reset_percentage: u64,
}

impl SoftReset {
    /// Builds the reset, clamping the target into the representable range
    /// and the fraction at one.
    pub fn new(target_rating: u64, reset_percentage: u64) -> (s: SoftReset)
        ensures
            s.target() == if target_rating <= RATING_POINT_MAX { target_rating } else { RATING_POINT_MAX },
            s.fraction() == if reset_percentage <= 1000 { reset_percentage } else { 1000u64 },
    {
        SoftReset {
            target_rating: if target_rating <= RATING_POINT_MAX { target_rating } else { RATING_POINT_MAX },
            reset_percentage: if reset_percentage <= 1000 { reset_percentage } else { 1000 },
        }
    }

    /// The conventional soft reset: half way back to 1500 points.
    pub fn default() -> (s: SoftReset)
        ensures
            s.target() == 1_500_000,
            s.fraction() == 500,
    {
        SoftReset { target_rating: 1_500_000, reset_percentage: 500 }
    }

    /// The configured target point, in milli-units.
    pub closed spec fn target(&self) -> u64 {
        self.target_rating
    }

    /// The configured fraction, in per-mille.
    pub closed spec fn fraction(&self) -> u64 {
        self.reset_percentage
    }

    /// Constructors keep the target representable and the fraction at most
    /// one.
    #[verifier::type_invariant]
    spec fn bounded(&self) -> bool {
        self.target_rating <= RATING_POINT_MAX && self.reset_percentage <= 1000
    }
}

impl SeasonResetStrategy for SoftReset {
    open spec fn reset_spec(&self, current: Rating) -> Rating {
        soft_reset_spec(self.target(), self.fraction(), current)
    }

    fn reset_rating(&self, current: Rating) -> (r: Rating) {
        proof {
            use_type_invariant(self);
        }
        let point: u64 = if self.target_rating >= current.rating {
            let gap: u64 = self.target_rating - current.rating;
            proof {
                lemma_fraction_of_gap(gap, self.reset_percentage);
            }
            let step: u64 = (gap * self.reset_percentage) / 1000;
            current.rating + step
        } else {
            let gap: u64 = current.rating - self.target_rating;
            proof {
                lemma_fraction_of_gap(gap, self.reset_percentage);
            }
            let step: u64 = (gap * self.reset_percentage) / 1000;
            current.rating - step
        };
        Rating { rating: point, deviation: SOFT_RESET_DEVIATION, volatility: current.volatility }
    }
}

/// A per-mille fraction of a gap never exceeds the gap itself.
proof fn lemma_fraction_of_gap(gap: u64, fraction: u64)
    requires
        fraction <= 1000,
    ensures
        (gap * fraction) / 1000 <= gap,
        gap * fraction <= gap * 1000,
{
    assert(gap * fraction <= gap * 1000) by (nonlinear_arith)
        requires fraction <= 1000;
    vstd::arithmetic::div_mod::lemma_div_is_ordered(
        (gap * fraction) as int,
        (gap * 1000) as int,
        1000,
    );
    vstd::arithmetic::div_mod::lemma_div_by_multiple(gap as int, 1000);
}

/// What a hard reset returns: the target point exactly, full uncertainty,
/// default volatility.
pub open spec fn hard_reset_spec(target: u64) -> Rating {
    Rating { rating: target, deviation: DEVIATION_CEILING, volatility: DEFAULT_VOLATILITY }
}

/// Hard reset: every player starts the season at the same rating, with
/// full uncertainty and the default volatility.
pub struct HardReset {
    /// The point everyone starts at, in milli-units; at most the
    /// representable maximum.
    reset_rating: u64,
}

impl HardReset {
    /// Builds the reset, clamping the target into the representable range.
    pub fn new(reset_rating: u64) -> (s: HardReset)
        ensures
            s.target() == if reset_rating <= RATING_POINT_MAX { reset_rating } else { RATING_POINT_MAX },
    {
        HardReset {
            reset_rating: if reset_rating <= RATING_POINT_MAX { reset_rating } else { RATING_POINT_MAX },
        }
    }

    /// The configured reset point, in milli-units.
    pub closed spec fn target(&self) -> u64 {
        self.reset_rating
    }

    /// Constructors keep the target representable.
    #[verifier::type_invariant]
    spec fn bounded(&self) -> bool {
        self.reset_rating <= RATING_POINT_MAX
    }
}

impl SeasonResetStrategy for HardReset {
    open spec fn reset_spec(&self, current: Rating) -> Rating {
        hard_reset_spec(self.target())
    }

    /// After a hard reset the point equals the configured target exactly
    /// and the deviation equals the full uncertainty ceiling.
    fn reset_rating(&self, current: Rating) -> (r: Rating) {
        proof {
            use_type_invariant(self);
        }
        Rating {
            rating: self.reset_rating,
            deviation: DEVIATION_CEILING,
            volatility: DEFAULT_VOLATILITY,
        }
    }
}

} // verus!
