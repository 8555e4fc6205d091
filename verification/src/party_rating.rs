//! Aggregation strategies that derive a single rating for a party from
//! its members' ratings: the plain average, the highest member, and a
//! weighted average that penalizes a wide skill spread.

use vstd::prelude::*;

verus! {

use crate::rating::{
    Rating, RATING_POINT_MAX, DEVIATION_CEILING, DEFAULT_RATING, DEFAULT_VOLATILITY,
};

/// Deviation given to a party by the gap-penalty strategy, in
/// milli-units (200.0 points).
pub const WEIGHTED_PARTY_DEVIATION: u64 = 200_000;

/// Largest accepted gap penalty, in per-mille (a factor of one thousand).
pub const GAP_PENALTY_MAX: u64 = 1_000_000;

/// A rule deriving one rating for a party from its members' ratings.
pub trait PartyMmrStrategy: Sized {
    /// The exact value `calculate_party_rating` returns.
    spec fn aggregate_spec(&self, ratings: Seq<(u128, Rating)>) -> Rating;

    /// Folds the members' ratings into the party's derived rating.
    fn calculate_party_rating(&self, ratings: &Vec<(u128, Rating)>) -> (r: Rating)
        requires
            forall|i: int| 0 <= i < ratings@.len() ==> (#[trigger] ratings@[i]).1.wf(),
        ensures
            r == self.aggregate_spec(ratings@),
            r.wf(),
    ;
}

/// The sum of the rating points of the listed members.
pub open spec fn sum_points(ratings: Seq<(u128, Rating)>) -> int
    decreases ratings.len(),
{
    if ratings.len() == 0 {
        0
    } else {
        sum_points(ratings.drop_last()) + ratings.last().1.rating
    }
}

/// The sum of the rating deviations of the listed members.
pub open spec fn sum_deviations(ratings: Seq<(u128, Rating)>) -> int
    decreases ratings.len(),
{
    if ratings.len() == 0 {
        0
    } else {
        sum_deviations(ratings.drop_last()) + ratings.last().1.deviation
    }
}

/// The default beginner rating, as a value.
pub open spec fn default_rating_spec() -> Rating {
    Rating { rating: DEFAULT_RATING, deviation: DEVIATION_CEILING, volatility: DEFAULT_VOLATILITY }
}

/// What the average strategy returns: mean point, mean deviation, default
/// volatility; the beginner default for an empty list.
pub open spec fn average_rating_spec(ratings: Seq<(u128, Rating)>) -> Rating {
    if ratings.len() == 0 {
        default_rating_spec()
    } else {
        Rating {
            rating: (sum_points(ratings) / ratings.len() as int) as u64,
            deviation: (sum_deviations(ratings) / ratings.len() as int) as u64,
            volatility: DEFAULT_VOLATILITY,
        }
    }
}

/// Sums bound by the largest member, so means stay representable.
proof fn lemma_sums_bounded(ratings: Seq<(u128, Rating)>)
    requires
        forall|i: int| 0 <= i < ratings.len() ==> (#[trigger] ratings[i]).1.wf(),
    ensures
        0 <= sum_points(ratings) <= ratings.len() * RATING_POINT_MAX,
        0 <= sum_deviations(ratings) <= ratings.len() * DEVIATION_CEILING,
    decreases ratings.len(),
{
    if ratings.len() > 0 {
        assert(forall|i: int| 0 <= i < ratings.drop_last().len() ==> ratings.drop_last()[i]
            == #[trigger] ratings[i]);
        lemma_sums_bounded(ratings.drop_last());
        assert(ratings.last() == ratings[ratings.len() - 1]);
        assert((ratings.len() - 1) * RATING_POINT_MAX + RATING_POINT_MAX == ratings.len()
            * RATING_POINT_MAX) by (nonlinear_arith);
        assert((ratings.len() - 1) * DEVIATION_CEILING + DEVIATION_CEILING == ratings.len()
            * DEVIATION_CEILING) by (nonlinear_arith);
    }
}

/// A mean over well-formed parts stays within their common bound.
proof fn lemma_mean_bounded(total: int, n: int, bound: int)
    requires
        n >= 1,
        bound >= 0,
        0 <= total <= n * bound,
    ensures
        0 <= total / n <= bound,
{
    vstd::arithmetic::div_mod::lemma_div_pos_is_pos(total, n);
    vstd::arithmetic::div_mod::lemma_div_is_ordered(total, n * bound, n);
    assert((n * bound) / n == bound) by {
        vstd::arithmetic::div_mod::lemma_div_multiples_vanish(bound, n);
    }
}

/// Average aggregation: mean point, mean deviation, default volatility.
pub struct AverageStrategy;

impl PartyMmrStrategy for AverageStrategy {
    open spec fn aggregate_spec(&self, ratings: Seq<(u128, Rating)>) -> Rating {
        average_rating_spec(ratings)
    }

    fn calculate_party_rating(&self, ratings: &Vec<(u128, Rating)>) -> (r: Rating) {
        if ratings.len() == 0 {
            return Rating {
                rating: DEFAULT_RATING,
                deviation: DEVIATION_CEILING,
                volatility: DEFAULT_VOLATILITY,
            };
        }
        proof {
            lemma_sums_bounded(ratings@);
        }
        let (points, deviations) = sum_members(ratings);
        let n: u128 = ratings.len() as u128;
        let mean_point: u64 = (points / n) as u64;
        let mean_deviation: u64 = (deviations / n) as u64;
        proof {
            lemma_mean_bounded(sum_points(ratings@), ratings@.len() as int, RATING_POINT_MAX as int);
            lemma_mean_bounded(
                sum_deviations(ratings@),
                ratings@.len() as int,
                DEVIATION_CEILING as int,
            );
        }
        Rating { rating: mean_point, deviation: mean_deviation, volatility: DEFAULT_VOLATILITY }
    }
}

/// Sums the points and deviations of the listed members.
fn sum_members(ratings: &Vec<(u128, Rating)>) -> (r: (u128, u128))
    requires
        forall|i: int| 0 <= i < ratings@.len() ==> (#[trigger] ratings@[i]).1.wf(),
    ensures
        r.0 == sum_points(ratings@),
        r.1 == sum_deviations(ratings@),
{
    let mut points: u128 = 0;
    let mut deviations: u128 = 0;
    let mut i: usize = 0;
    proof {
        assert(ratings@.take(0) =~= Seq::<(u128, Rating)>::empty());
    }
    while i < ratings.len()
        invariant
            i <= ratings@.len(),
            forall|k: int| 0 <= k < ratings@.len() ==> (#[trigger] ratings@[k]).1.wf(),
            points == sum_points(ratings@.take(i as int)),
            deviations == sum_deviations(ratings@.take(i as int)),
        decreases ratings@.len() - i,
    {
        proof {
            assert(forall|k: int| 0 <= k < i + 1 ==> ratings@.take(i + 1)[k] == #[trigger] ratings@[
                k
            ]);
            lemma_sums_bounded(ratings@.take(i + 1));
            assert(ratings@.take(i + 1).drop_last() =~= ratings@.take(i as int));
            assert(ratings@.take(i + 1).last() == ratings@[i as int]);
            assert((i + 1) * RATING_POINT_MAX <= (u128::MAX / 2) as int) by (nonlinear_arith)
                requires 0 <= i + 1 <= usize::MAX;
            assert((i + 1) * DEVIATION_CEILING <= (u128::MAX / 2) as int) by (nonlinear_arith)
                requires 0 <= i + 1 <= usize::MAX;
        }
        points = points + ratings[i].1.rating as u128;
        deviations = deviations + ratings[i].1.deviation as u128;
        i += 1;
    }
    proof {
        assert(ratings@.take(ratings@.len() as int) =~= ratings@);
    }
    (points, deviations)
}

/// What the max strategy returns: the rating of the member with the
/// highest point, later members winning ties; the beginner default for an
/// empty list.
pub open spec fn max_rating_spec(ratings: Seq<(u128, Rating)>) -> Rating
    decreases ratings.len(),
{
    if ratings.len() == 0 {
        default_rating_spec()
    } else if ratings.len() == 1 {
        ratings.last().1
    } else {
        let rest = max_rating_spec(ratings.drop_last());
        if ratings.last().1.rating >= rest.rating {
            ratings.last().1
        } else {
            rest
        }
    }
}

/// Max aggregation: the party plays at its strongest member's rating.
pub struct MaxStrategy;

impl PartyMmrStrategy for MaxStrategy {
    open spec fn aggregate_spec(&self, ratings: Seq<(u128, Rating)>) -> Rating {
        max_rating_spec(ratings)
    }

    fn calculate_party_rating(&self, ratings: &Vec<(u128, Rating)>) -> (r: Rating) {
        if ratings.len() == 0 {
            return Rating {
                rating: DEFAULT_RATING,
                deviation: DEVIATION_CEILING,
                volatility: DEFAULT_VOLATILITY,
            };
        }
        let mut best: Rating = ratings[0].1;
        let mut i: usize = 1;
        proof {
            assert(ratings@.take(1).last() == ratings@[0]);
            assert(best == max_rating_spec(ratings@.take(1)));
        }
        while i < ratings.len()
            invariant
                1 <= i <= ratings@.len(),
                forall|k: int| 0 <= k < ratings@.len() ==> (#[trigger] ratings@[k]).1.wf(),
                best == max_rating_spec(ratings@.take(i as int)),
                best.wf(),
            decreases ratings@.len() - i,
        {
            proof {
                assert(ratings@.take(i + 1).drop_last() =~= ratings@.take(i as int));
                assert(ratings@.take(i + 1).last() == ratings@[i as int]);
            }
            if ratings[i].1.rating >= best.rating {
                best = ratings[i].1;
            }
            i += 1;
        }
        proof {
            assert(ratings@.take(ratings@.len() as int) =~= ratings@);
        }
        best
    }
}

/// The highest member point of a non-empty list; later members win ties.
pub open spec fn max_point_spec(ratings: Seq<(u128, Rating)>) -> int {
    max_rating_spec(ratings).rating as int
}

/// The lowest member point of a non-empty list.
pub open spec fn min_point_spec(ratings: Seq<(u128, Rating)>) -> int
    decreases ratings.len(),
{
    if ratings.len() == 0 {
        DEFAULT_RATING as int
    } else if ratings.len() == 1 {
        ratings.last().1.rating as int
    } else {
        let rest = min_point_spec(ratings.drop_last());
        if ratings.last().1.rating < rest {
            ratings.last().1.rating as int
        } else {
            rest
        }
    }
}

/// What the gap-penalty strategy returns: the mean point plus
/// `gap_penalty` per-mille of the spread between the strongest and the
/// weakest member, with a fixed moderate deviation; the beginner default
/// for an empty list.
pub open spec fn weighted_rating_spec(gap_penalty: u64, ratings: Seq<(u128, Rating)>) -> Rating {
    if ratings.len() == 0 {
        default_rating_spec()
    } else {
        let mean = sum_points(ratings) / ratings.len() as int;
        let gap = max_point_spec(ratings) - min_point_spec(ratings);
        let raw = mean + (gap * gap_penalty) / 1000;
        let point = if raw >= RATING_POINT_MAX { RATING_POINT_MAX as int } else { raw };
        Rating {
            rating: point as u64,
            deviation: WEIGHTED_PARTY_DEVIATION,
            volatility: DEFAULT_VOLATILITY,
        }
    }
}

/// Weighted aggregation with a gap penalty: a wide skill spread inflates
/// the derived rating, discouraging boosting.
pub struct WeightedWithPenaltyStrategy {
    /// How much of the spread is added, in per-mille; at most
    /// `GAP_PENALTY_MAX`.
    gap_penalty: u64,
}

impl WeightedWithPenaltyStrategy {
    /// Builds the strategy, clamping the penalty at `GAP_PENALTY_MAX`.
    pub fn new(gap_penalty: u64) -> (s: WeightedWithPenaltyStrategy)
        ensures
            s.penalty() == if gap_penalty <= GAP_PENALTY_MAX { gap_penalty } else { GAP_PENALTY_MAX },
    {
        WeightedWithPenaltyStrategy {
            gap_penalty: if gap_penalty <= GAP_PENALTY_MAX { gap_penalty } else { GAP_PENALTY_MAX },
        }
    }

    /// The configured penalty, in per-mille.
    pub closed spec fn penalty(&self) -> u64 {
        self.gap_penalty
    }

    /// Constructors keep the penalty under its cap.
    #[verifier::type_invariant]
    spec fn penalty_bounded(&self) -> bool {
        self.gap_penalty <= GAP_PENALTY_MAX
    }
}

/// The extreme member points lie inside the representable range, and the
/// spread is never negative.
proof fn lemma_extremes_bounded(ratings: Seq<(u128, Rating)>)
    requires
        ratings.len() >= 1,
        forall|i: int| 0 <= i < ratings.len() ==> (#[trigger] ratings[i]).1.wf(),
    ensures
        0 <= min_point_spec(ratings) <= max_point_spec(ratings) <= RATING_POINT_MAX,
        max_rating_spec(ratings).wf(),
    decreases ratings.len(),
{
    if ratings.len() == 1 {
        assert(ratings.last() == ratings[0]);
    } else {
        assert(forall|i: int| 0 <= i < ratings.drop_last().len() ==> ratings.drop_last()[i]
            == #[trigger] ratings[i]);
        lemma_extremes_bounded(ratings.drop_last());
        assert(ratings.last() == ratings[ratings.len() - 1]);
    }
}

impl PartyMmrStrategy for WeightedWithPenaltyStrategy {
    open spec fn aggregate_spec(&self, ratings: Seq<(u128, Rating)>) -> Rating {
        weighted_rating_spec(self.penalty(), ratings)
    }

    fn calculate_party_rating(&self, ratings: &Vec<(u128, Rating)>) -> (r: Rating) {
        proof {
            use_type_invariant(self);
        }
        if ratings.len() == 0 {
            return Rating {
                rating: DEFAULT_RATING,
                deviation: DEVIATION_CEILING,
                volatility: DEFAULT_VOLATILITY,
            };
        }
        proof {
            lemma_sums_bounded(ratings@);
            lemma_extremes_bounded(ratings@);
            lemma_mean_bounded(sum_points(ratings@), ratings@.len() as int, RATING_POINT_MAX as int);
        }
        let (points, _deviations) = sum_members(ratings);
        let n: u128 = ratings.len() as u128;
        let mean: u64 = (points / n) as u64;
        let mut highest: u64 = ratings[0].1.rating;
        let mut lowest: u64 = ratings[0].1.rating;
        let mut i: usize = 1;
        proof {
            assert(ratings@.take(1).last() == ratings@[0]);
            assert(highest == max_point_spec(ratings@.take(1)));
            assert(lowest == min_point_spec(ratings@.take(1)));
        }
        while i < ratings.len()
            invariant
                1 <= i <= ratings@.len(),
                forall|k: int| 0 <= k < ratings@.len() ==> (#[trigger] ratings@[k]).1.wf(),
                highest == max_point_spec(ratings@.take(i as int)),
                lowest == min_point_spec(ratings@.take(i as int)),
                lowest <= highest <= RATING_POINT_MAX,
            decreases ratings@.len() - i,
        {
            proof {
                assert(ratings@.take(i + 1).drop_last() =~= ratings@.take(i as int));
                assert(ratings@.take(i + 1).last() == ratings@[i as int]);
            }
            if ratings[i].1.rating >= highest {
                highest = ratings[i].1.rating;
            }
            if ratings[i].1.rating < lowest {
                lowest = ratings[i].1.rating;
            }
            i += 1;
        }
        proof {
            assert(ratings@.take(ratings@.len() as int) =~= ratings@);
        }
        let gap: u64 = highest - lowest;
        proof {
            assert(gap * self.gap_penalty <= (RATING_POINT_MAX as int) * GAP_PENALTY_MAX)
                by (nonlinear_arith)
                requires gap <= RATING_POINT_MAX, self.gap_penalty <= GAP_PENALTY_MAX;
        }
        let bonus_wide: u128 = ((gap as u128) * (self.gap_penalty as u128)) / 1000;
        let raw: u128 = mean as u128 + bonus_wide;
        let point: u64 = if raw >= RATING_POINT_MAX as u128 {
            RATING_POINT_MAX
        } else {
            raw as u64
        };
        Rating {
            rating: point,
            deviation: WEIGHTED_PARTY_DEVIATION,
            volatility: DEFAULT_VOLATILITY,
        }
    }
}

} // verus!
