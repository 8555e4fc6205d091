//! Pairwise matching constraints: the rating-delta bound with its
//! time-based relaxation, and the region gate. Role quotas are data the
//! matcher may consult when assembling a full match, not part of the
//! pairwise check.

use vstd::prelude::*;

verus! {

use crate::entry::{EntryView, QueueEntry, wait_millis_spec};

/// A role the match must field, and how many players of it.
#[derive(Debug)]
pub struct RoleRequirement {
    pub role: String,
    pub count: usize,
}

impl View for RoleRequirement {
    type V = (Seq<char>, usize);

    open spec fn view(&self) -> (Seq<char>, usize) {
        (self.role@, self.count)
    }
}

impl Clone for RoleRequirement {
    /// A clone carries exactly the same requirement.
    fn clone(&self) -> (r: RoleRequirement)
        ensures
            r@ == self@,
    {
        RoleRequirement { role: self.role.clone(), count: self.count }
    }
}

/// The mathematical content of `MatchConstraints`.
#[verifier::ext_equal]
pub ghost struct ConstraintsView {
    pub max_rating_delta: u64,
    pub same_region_required: bool,
    pub role_requirements: Seq<(Seq<char>, usize)>,
    pub max_wait_time_seconds: i64,
    pub expansion_rate: u64,
}

/// Constraints a queue imposes on who may be matched with whom.
#[derive(Debug)]
pub struct MatchConstraints {
    /// Largest allowed rating difference between two entries, in
    /// milli-points, before relaxation.
    pub max_rating_delta: u64,
    /// Whether both entries must declare the same region (or both none).
    pub same_region_required: bool,
    /// Role quotas the assembled match should satisfy.
    pub role_requirements: Vec<RoleRequirement>,
    /// Wait-time ceiling the deployment aims for, in seconds.
    pub max_wait_time_seconds: i64,
    /// How much the rating-delta bound widens per second waited, in
    /// milli-points per second.
    pub expansion_rate: u64,
}

impl View for MatchConstraints {
    type V = ConstraintsView;

    open spec fn view(&self) -> ConstraintsView {
        ConstraintsView {
            max_rating_delta: self.max_rating_delta,
            same_region_required: self.same_region_required,
            role_requirements: self.role_requirements@.map_values(|r: RoleRequirement| r@),
            max_wait_time_seconds: self.max_wait_time_seconds,
            expansion_rate: self.expansion_rate,
        }
    }
}

impl Clone for MatchConstraints {
    /// A clone carries exactly the same constraints.
    fn clone(&self) -> (c: MatchConstraints)
        ensures
            c@ == self@,
    {
        let mut roles: Vec<RoleRequirement> = Vec::new();
        let mut i: usize = 0;
        while i < self.role_requirements.len()
            invariant
                i <= self.role_requirements.len(),
                roles@.len() == i,
                forall|j: int| 0 <= j < i ==> roles@[j]@ == self.role_requirements@[j]@,
            decreases self.role_requirements.len() - i,
        {
            roles.push(self.role_requirements[i].clone());
            i += 1;
        }
        let c = MatchConstraints {
            max_rating_delta: self.max_rating_delta,
            same_region_required: self.same_region_required,
            role_requirements: roles,
            max_wait_time_seconds: self.max_wait_time_seconds,
            expansion_rate: self.expansion_rate,
        };
        proof {
            assert(self.role_requirements@.subrange(0, self.role_requirements@.len() as int)
                =~= self.role_requirements@);
            assert(c@ =~= self@);
        }
        c
    }
}

impl MatchConstraints {
    /// Permissive defaults: 500 points of delta, no region gate, a
    /// minute's ceiling, 10 points of widening per second.
    pub fn permissive() -> (c: MatchConstraints)
        ensures
            c@.max_rating_delta == 500_000,
            !c@.same_region_required,
            c@.role_requirements =~= Seq::<(Seq<char>, usize)>::empty(),
            c@.max_wait_time_seconds == 60,
            c@.expansion_rate == 10_000,
    {
        MatchConstraints {
            max_rating_delta: 500_000,
            same_region_required: false,
            role_requirements: Vec::new(),
            max_wait_time_seconds: 60,
            expansion_rate: 10_000,
        }
    }

    /// Strict defaults: 100 points of delta, same region required, five
    /// minutes' ceiling, 5 points of widening per second.
    pub fn strict() -> (c: MatchConstraints)
        ensures
            c@.max_rating_delta == 100_000,
            c@.same_region_required,
            c@.role_requirements =~= Seq::<(Seq<char>, usize)>::empty(),
            c@.max_wait_time_seconds == 300,
            c@.expansion_rate == 5_000,
    {
        MatchConstraints {
            max_rating_delta: 100_000,
            same_region_required: true,
            role_requirements: Vec::new(),
            max_wait_time_seconds: 300,
            expansion_rate: 5_000,
        }
    }

    /// The rating-delta bound the entry enjoys at `now_ms`: the base bound
    /// plus the expansion rate times the seconds waited, saturating at the
    /// top of the machine range.
    pub fn effective_rating_delta(&self, entry: &QueueEntry, now_ms: i64) -> (d: u64)
        ensures
            d == effective_delta_spec(self@, entry@, now_ms),
    {
        let waited_ms: u64 = entry.wait_time(now_ms);
        let waited_s: u64 = waited_ms / 1000;
        let expansion: u64 = if self.expansion_rate != 0 && waited_s > u64::MAX
            / self.expansion_rate {
            proof {
                lemma_mul_over_quota(self.expansion_rate, u64::MAX, waited_s);
            }
            u64::MAX
        } else {
            proof {
                if self.expansion_rate != 0 {
                    lemma_mul_within_quota(self.expansion_rate, u64::MAX, waited_s);
                }
            }
            self.expansion_rate * waited_s
        };
        if expansion > u64::MAX - self.max_rating_delta {
            u64::MAX
        } else {
            self.max_rating_delta + expansion
        }
    }

    /// Whether the two entries may stand in the same match at `now_ms`:
    /// their rating difference fits under the wider of the two effective
    /// deltas, and the region gate passes.
    pub fn can_match(&self, entry_a: &QueueEntry, entry_b: &QueueEntry, now_ms: i64) -> (ok: bool)
        ensures
            ok == can_match_spec(self@, entry_a@, entry_b@, now_ms),
    {
        let delta_a: u64 = self.effective_rating_delta(entry_a, now_ms);
        let delta_b: u64 = self.effective_rating_delta(entry_b, now_ms);
        let allowed: u64 = if delta_a >= delta_b { delta_a } else { delta_b };
        let ra = entry_a.average_rating.rating;
        let rb = entry_b.average_rating.rating;
        let diff: u64 = if ra >= rb { ra - rb } else { rb - ra };
        if diff > allowed {
            return false;
        }
        if self.same_region_required {
            let regions_ok = match (&entry_a.metadata.region, &entry_b.metadata.region) {
                (Some(r1), Some(r2)) => *r1 == *r2,
                (None, None) => true,
                _ => false,
            };
            if !regions_ok {
                return false;
            }
        }
        true
    }
}

/// Seconds the entry has waited at `now_ms`, floored and never negative.
pub open spec fn wait_seconds_spec(entry: EntryView, now_ms: i64) -> int {
    wait_millis_spec(entry.joined_at, now_ms) / 1000
}

/// The effective rating-delta bound of `entry` at `now_ms`:
/// `max_rating_delta + expansion_rate * wait_seconds`, saturating at the
/// top of the machine range.
pub open spec fn effective_delta_spec(c: ConstraintsView, entry: EntryView, now_ms: i64) -> int {
    let expansion = c.expansion_rate * wait_seconds_spec(entry, now_ms);
    let capped = if expansion > u64::MAX { u64::MAX as int } else { expansion };
    if capped > u64::MAX - c.max_rating_delta {
        u64::MAX as int
    } else {
        c.max_rating_delta + capped
    }
}

/// Whether the pairwise constraints let `a` and `b` share a match at
/// `now_ms`: the rating difference fits under the wider of the two
/// effective deltas, and if a common region is required, both entries
/// name the same one or both name none.
pub open spec fn can_match_spec(c: ConstraintsView, a: EntryView, b: EntryView, now_ms: i64) -> bool {
    let da = effective_delta_spec(c, a, now_ms);
    let db = effective_delta_spec(c, b, now_ms);
    let allowed = if da >= db { da } else { db };
    let diff = if a.average_rating.rating >= b.average_rating.rating {
        a.average_rating.rating - b.average_rating.rating
    } else {
        b.average_rating.rating - a.average_rating.rating
    };
    &&& diff <= allowed
    &&& (c.same_region_required ==> regions_agree(a, b))
}

/// The region gate: both entries name the same region, or both none.
pub open spec fn regions_agree(a: EntryView, b: EntryView) -> bool {
    match (a.metadata.region, b.metadata.region) {
        (Some(r1), Some(r2)) => r1 == r2,
        (None, None) => true,
        _ => false,
    }
}

/// The effective rating-delta bound never shrinks as time passes: a pair
/// that fits under it at some moment still fits at any later moment of
/// the same snapshot. This is what lets long-waiting entries match wider.
pub proof fn lemma_effective_delta_monotone(
    c: ConstraintsView,
    entry: EntryView,
    now1_ms: i64,
    now2_ms: i64,
)
    requires
        now1_ms <= now2_ms,
    ensures
        effective_delta_spec(c, entry, now1_ms) <= effective_delta_spec(c, entry, now2_ms),
{
    let w1 = wait_seconds_spec(entry, now1_ms);
    let w2 = wait_seconds_spec(entry, now2_ms);
    assert(w1 <= w2) by {
        vstd::arithmetic::div_mod::lemma_div_is_ordered(
            wait_millis_spec(entry.joined_at, now1_ms),
            wait_millis_spec(entry.joined_at, now2_ms),
            1000,
        );
    }
    assert(c.expansion_rate * w1 <= c.expansion_rate * w2) by (nonlinear_arith)
        requires w1 <= w2;
}

/// Past `quota / rate` seconds the raw expansion has overshot the quota.
proof fn lemma_mul_over_quota(rate: u64, quota: u64, s: u64)
    requires
        rate != 0,
        s > quota / rate,
    ensures
        rate * s > quota,
{
    vstd::arithmetic::div_mod::lemma_fundamental_div_mod(quota as int, rate as int);
    assert(rate * s >= rate * (quota / rate + 1)) by (nonlinear_arith)
        requires s >= quota / rate + 1, rate >= 1;
    assert(rate * (quota / rate + 1) == rate * (quota / rate) + rate) by (nonlinear_arith);
    vstd::arithmetic::div_mod::lemma_mod_division_less_than_divisor(quota as int, rate as int);
}

/// Up to that wait the raw expansion still fits in the machine word.
proof fn lemma_mul_within_quota(rate: u64, quota: u64, s: u64)
    requires
        rate != 0,
        s <= quota / rate,
    ensures
        rate * s <= quota,
{
    vstd::arithmetic::div_mod::lemma_fundamental_div_mod(quota as int, rate as int);
    assert(rate * s <= rate * (quota / rate)) by (nonlinear_arith)
        requires s <= quota / rate, rate >= 1;
    vstd::arithmetic::div_mod::lemma_mod_division_less_than_divisor(quota as int, rate as int);
}

} // verus!
