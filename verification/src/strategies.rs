//! Advanced matchmaking strategies: swiss-style pairing over score
//! buckets, tournament bracket generation, an adaptive pairer that widens
//! its constraints with wait time, and a fair team balancer for uneven
//! party sizes. These are alternate implementations of the
//! "produce matches from a queue snapshot" capability; not every
//! deployment uses them.

use vstd::prelude::*;

verus! {

use crate::constraints::MatchConstraints;
use crate::entry::{contains_id, EntryView, QueueEntry};
use crate::idgen::fresh_id;
use vstd::multiset::Multiset;
use crate::matcher::{MatchFormat, MatchResult, MatchView};

/// The score of one player on the bucket list, zero when unlisted.
pub open spec fn score_of(scores: Seq<(u128, u64)>, player_id: u128) -> int
    decreases scores.len(),
{
    if scores.len() == 0 {
        0
    } else if scores[0].0 == player_id {
        scores[0].1 as int
    } else {
        score_of(scores.drop_first(), player_id)
    }
}

/// The summed score of a list of players.
pub open spec fn sum_scores(scores: Seq<(u128, u64)>, players: Seq<u128>) -> int
    decreases players.len(),
{
    if players.len() == 0 {
        0
    } else {
        sum_scores(scores, players.drop_last()) + score_of(scores, players.last())
    }
}

/// The mean score of an entry's players, zero for an empty entry.
pub open spec fn entry_score(scores: Seq<(u128, u64)>, e: EntryView) -> int {
    if e.player_ids.len() == 0 {
        0
    } else {
        sum_scores(scores, e.player_ids) / e.player_ids.len() as int
    }
}

/// The pairing quality of two entries: their score difference plus a
/// hundredth of their rating difference; lower is better.
pub open spec fn pair_quality(scores: Seq<(u128, u64)>, a: EntryView, b: EntryView) -> int {
    let sa = entry_score(scores, a);
    let sb = entry_score(scores, b);
    let sdiff = if sa >= sb {
        sa - sb
    } else {
        sb - sa
    };
    let ra = a.average_rating.rating as int;
    let rb = b.average_rating.rating as int;
    let rdiff = if ra >= rb {
        ra - rb
    } else {
        rb - ra
    };
    sdiff + rdiff / 100
}

/// Whether the matchup history pairs a player of `a` against a player of
/// `b`.
pub open spec fn were_matched(
    matchups: Seq<(u128, Seq<u128>)>,
    a: EntryView,
    b: EntryView,
) -> bool {
    exists|i: int, j: int, k: int|
        #![trigger matchups[i].1[j], a.player_ids[k]]
        {
            &&& 0 <= i < matchups.len()
            &&& 0 <= j < matchups[i].1.len()
            &&& 0 <= k < a.player_ids.len()
            &&& matchups[i].0 == a.player_ids[k]
            &&& b.player_ids.contains(matchups[i].1[j])
        }
}

/// Whether candidate `c` may be paired with `e` under the swiss rules:
/// not yet used, not `e` itself, within the score window, and (when
/// rematch avoidance is on) never paired against `e` before.
pub open spec fn swiss_eligible(
    max_diff: u64,
    avoid_rematches: bool,
    scores: Seq<(u128, u64)>,
    matchups: Seq<(u128, Seq<u128>)>,
    used: Seq<u128>,
    e: EntryView,
    c: EntryView,
) -> bool {
    let se = entry_score(scores, e);
    let sc = entry_score(scores, c);
    let sdiff = if se >= sc {
        se - sc
    } else {
        sc - se
    };
    &&& !used.contains(c.id)
    &&& c.id != e.id
    &&& sdiff <= max_diff
    &&& (avoid_rematches ==> !were_matched(matchups, e, c))
}

/// Swiss-style pairer: entries with similar scores meet, and former
/// opponents can be kept apart.
pub struct SwissMatcher {
    max_score_difference: u64,
    avoid_rematches: bool,
}

impl SwissMatcher {
    /// Builds the pairer from its score window and rematch policy.
    pub fn new(max_score_difference: u64, avoid_rematches: bool) -> (m: SwissMatcher)
        ensures
            m.max_diff() == max_score_difference,
            m.avoids_rematches() == avoid_rematches,
    {
        SwissMatcher { max_score_difference, avoid_rematches }
    }

    /// The configured score window, in milli-units.
    pub closed spec fn max_diff(&self) -> u64 {
        self.max_score_difference
    }

    /// Whether former opponents are kept apart.
    pub closed spec fn avoids_rematches(&self) -> bool {
        self.avoid_rematches
    }

    /// Pairs the entries into head-to-head matches: every emitted match
    /// holds exactly two entries of the snapshot on teams 0 and 1, the
    /// pair lies within the score window and respects the rematch policy,
    /// and no entry id is used twice across the pairings.
    pub fn find_pairings(
        &self,
        entries: &Vec<QueueEntry>,
        player_scores: &Vec<(u128, u64)>,
        previous_matchups: &Vec<(u128, Vec<u128>)>,
    ) -> (r: Vec<MatchResult>)
        ensures
            forall|m: int| 0 <= m < r.deep_view().len() ==> {
                let mv = #[trigger] r.deep_view()[m];
                &&& mv.entries.len() == 2
                &&& mv.team_assignments =~= seq![0usize, 1usize]
                &&& entries.deep_view().contains(mv.entries[0])
                &&& entries.deep_view().contains(mv.entries[1])
                &&& swiss_pair_ok(
                    self.max_diff(),
                    self.avoids_rematches(),
                    player_scores.deep_view(),
                    matchups_view(previous_matchups@),
                    mv.entries[0],
                    mv.entries[1],
                )
            },
            forall|m1: int, m2: int, a: int, b: int|
                #![trigger r.deep_view()[m1].entries[a], r.deep_view()[m2].entries[b]]
                0 <= m1 < m2 < r.deep_view().len() && 0 <= a < r.deep_view()[m1].entries.len() && 0
                    <= b < r.deep_view()[m2].entries.len() ==> r.deep_view()[m1].entries[a].id
                    != r.deep_view()[m2].entries[b].id,
            forall|a: int, b: int|
                #![trigger entries.deep_view()[a], entries.deep_view()[b]]
                0 <= a < b < entries.deep_view().len() && !swiss_paired(
                    r.deep_view(),
                    entries.deep_view()[a].id,
                ) && !swiss_paired(r.deep_view(), entries.deep_view()[b].id) ==> !swiss_pair_ok(
                    self.max_diff(),
                    self.avoids_rematches(),
                    player_scores.deep_view(),
                    matchups_view(previous_matchups@),
                    entries.deep_view()[a],
                    entries.deep_view()[b],
                ),
    {
        let mut used: Vec<u128> = Vec::new();
        let mut out: Vec<MatchResult> = Vec::new();
        let mut i: usize = 0;
        while i < entries.len()
            invariant
                i <= entries@.len(),
                forall|m: int| 0 <= m < out.deep_view().len() ==> {
                    let mv = #[trigger] out.deep_view()[m];
                    &&& mv.entries.len() == 2
                    &&& mv.team_assignments =~= seq![0usize, 1usize]
                    &&& entries.deep_view().contains(mv.entries[0])
                    &&& entries.deep_view().contains(mv.entries[1])
                    &&& swiss_pair_ok(
                        self.max_diff(),
                        self.avoids_rematches(),
                        player_scores.deep_view(),
                        matchups_view(previous_matchups@),
                        mv.entries[0],
                        mv.entries[1],
                    )
                },
                forall|m: int, a: int|
                    #![trigger out.deep_view()[m].entries[a]]
                    0 <= m < out.deep_view().len() && 0 <= a < out.deep_view()[m].entries.len()
                        ==> used@.contains(out.deep_view()[m].entries[a].id),
                forall|m1: int, m2: int, a: int, b: int|
                    #![trigger out.deep_view()[m1].entries[a], out.deep_view()[m2].entries[b]]
                    0 <= m1 < m2 < out.deep_view().len() && 0 <= a < out.deep_view()[
                        m1
                    ].entries.len() && 0 <= b < out.deep_view()[m2].entries.len()
                        ==> out.deep_view()[m1].entries[a].id != out.deep_view()[m2].entries[b].id,
                forall|u: int| 0 <= u < used@.len() ==> swiss_paired(
                    out.deep_view(),
                    #[trigger] used@[u],
                ),
                forall|a: int, b: int|
                    #![trigger entries.deep_view()[a], entries.deep_view()[b]]
                    0 <= a < i && 0 <= b < entries.deep_view().len() && a != b && !used@.contains(
                        entries.deep_view()[a].id,
                    ) && !used@.contains(entries.deep_view()[b].id) ==> !swiss_pair_ok(
                        self.max_diff(),
                        self.avoids_rematches(),
                        player_scores.deep_view(),
                        matchups_view(previous_matchups@),
                        entries.deep_view()[a],
                        entries.deep_view()[b],
                    ),
            decreases entries@.len() - i,
        {
            let e = &entries[i];
            if !contains_id(&used, e.id) {
                match self.find_best_opponent(
                    e,
                    entries,
                    &used,
                    player_scores,
                    previous_matchups,
                ) {
                    Some(oi) => {
                        let opp = entries[oi].clone();
                        let first = e.clone();
                        // The pair must consume two distinct ids; a
                        // colliding opponent id is skipped.
                        if opp.id != first.id {
                            let ghost used_before = used@;
                            let ghost fv = first@;
                            let ghost ov = opp@;
                            used.push(first.id);
                            used.push(opp.id);
                            proof {
                                assert(used@ =~= used_before.push(fv.id).push(ov.id));
                                assert forall|x: u128|
                                    used_before.contains(x) implies used@.contains(x) by {
                                    let ix = choose|ix: int|
                                        0 <= ix < used_before.len() && used_before[ix] == x;
                                    assert(used@[ix] == x);
                                }
                                assert(used@[used@.len() - 2] == fv.id);
                                assert(used@[used@.len() - 1] == ov.id);
                                assert(used@.contains(fv.id) && used@.contains(ov.id));
                            }
                            let mut pair: Vec<QueueEntry> = Vec::new();
                            pair.push(first);
                            pair.push(opp);
                            let mut assigns: Vec<usize> = Vec::new();
                            assigns.push(0);
                            assigns.push(1);
                            proof {
                                assert(pair.deep_view() =~= seq![fv, ov]);
                                assert(assigns@ =~= seq![0usize, 1usize]);
                            }
                            let ghost prev_out = out.deep_view();
                            out.push(MatchResult {
                                match_id: fresh_id(),
                                entries: pair,
                                team_assignments: assigns,
                            });
                            proof {
                                let dv = out.deep_view();
                                assert(dv =~= prev_out.push(dv.last()));
                                assert(dv.last().entries =~= seq![fv, ov]);
                                assert(forall|m: int| 0 <= m < prev_out.len() ==> dv[m]
                                    == #[trigger] prev_out[m]);
                                assert(entries.deep_view().contains(fv)) by {
                                    assert(entries.deep_view()[i as int] == fv);
                                }
                                assert(entries.deep_view().contains(ov)) by {
                                    assert(entries.deep_view()[oi as int] == ov);
                                }
                                assert(swiss_eligible(
                                    self.max_diff(),
                                    self.avoids_rematches(),
                                    player_scores.deep_view(),
                                    matchups_view(previous_matchups@),
                                    used_before,
                                    e@,
                                    entries.deep_view()[oi as int],
                                ));
                                assert(swiss_pair_ok(
                                    self.max_diff(),
                                    self.avoids_rematches(),
                                    player_scores.deep_view(),
                                    matchups_view(previous_matchups@),
                                    fv,
                                    ov,
                                ));
                                assert(!used_before.contains(fv.id) && !used_before.contains(
                                    ov.id,
                                ));
                                assert forall|m1: int, m2: int, a: int, b: int|
                                    #![trigger dv[m1].entries[a], dv[m2].entries[b]]
                                    0 <= m1 < m2 < dv.len() && 0 <= a < dv[m1].entries.len() && 0
                                        <= b < dv[m2].entries.len() implies dv[m1].entries[a].id
                                    != dv[m2].entries[b].id by {
                                    if m2 == dv.len() - 1 {
                                        assert(used_before.contains(dv[m1].entries[a].id));
                                        assert(dv[m2].entries[b].id == fv.id || dv[m2].entries[
                                            b
                                        ].id == ov.id);
                                    }
                                }
                                assert forall|u: int|
                                    0 <= u < used@.len() implies swiss_paired(
                                    dv,
                                    #[trigger] used@[u],
                                ) by {
                                    if u < used_before.len() {
                                        let (m0, e0) = choose|m0: int, e0: int|
                                            0 <= m0 < prev_out.len() && 0 <= e0 < prev_out[
                                                m0
                                            ].entries.len() && (
                                            #[trigger] prev_out[m0].entries[e0]).id == used@[u];
                                        assert(dv[m0].entries[e0].id == used@[u]);
                                    } else if used@[u] == fv.id {
                                        assert(dv[dv.len() - 1].entries[0].id == fv.id);
                                    } else {
                                        assert(dv[dv.len() - 1].entries[1].id == ov.id);
                                    }
                                }
                            }
                        }
                    },
                    None => {},
                }
            }
            proof {
                assert forall|a: int, b: int|
                    #![trigger entries.deep_view()[a], entries.deep_view()[b]]
                    0 <= a < i + 1 && 0 <= b < entries.deep_view().len() && a != b
                        && !used@.contains(entries.deep_view()[a].id) && !used@.contains(
                        entries.deep_view()[b].id,
                    ) implies !swiss_pair_ok(
                    self.max_diff(),
                    self.avoids_rematches(),
                    player_scores.deep_view(),
                    matchups_view(previous_matchups@),
                    entries.deep_view()[a],
                    entries.deep_view()[b],
                ) by {
                    if a == i {
                        let ev = entries.deep_view()[a];
                        let bv = entries.deep_view()[b];
                        if swiss_pair_ok(
                            self.max_diff(),
                            self.avoids_rematches(),
                            player_scores.deep_view(),
                            matchups_view(previous_matchups@),
                            ev,
                            bv,
                        ) {
                            // The scan saw this candidate while both were
                            // unused, so an acceptable pair would have
                            // been taken.
                            assert(swiss_eligible(
                                self.max_diff(),
                                self.avoids_rematches(),
                                player_scores.deep_view(),
                                matchups_view(previous_matchups@),
                                used@,
                                ev,
                                bv,
                            ));
                            assert(false);
                        }
                    }
                }
            }
            i += 1;
        }
        out
    }

    /// The index of the best eligible opponent for `entry`: unused,
    /// distinct, inside the score window, rematch-free when avoidance is
    /// on, and of minimal pairing quality among the eligible.
    fn find_best_opponent(
        &self,
        entry: &QueueEntry,
        candidates: &Vec<QueueEntry>,
        used: &Vec<u128>,
        player_scores: &Vec<(u128, u64)>,
        previous_matchups: &Vec<(u128, Vec<u128>)>,
    ) -> (r: Option<usize>)
        ensures
            match r {
                Some(oi) => oi < candidates.deep_view().len() && swiss_eligible(
                    self.max_diff(),
                    self.avoids_rematches(),
                    player_scores.deep_view(),
                    matchups_view(previous_matchups@),
                    used@,
                    entry@,
                    candidates.deep_view()[oi as int],
                ) && forall|k: int|
                    0 <= k < candidates.deep_view().len() && swiss_eligible(
                        self.max_diff(),
                        self.avoids_rematches(),
                        player_scores.deep_view(),
                        matchups_view(previous_matchups@),
                        used@,
                        entry@,
                        #[trigger] candidates.deep_view()[k],
                    ) ==> pair_quality(
                        player_scores.deep_view(),
                        entry@,
                        candidates.deep_view()[oi as int],
                    ) <= pair_quality(player_scores.deep_view(), entry@, candidates.deep_view()[k]),
                None => forall|c: int| 0 <= c < candidates.deep_view().len() ==> !swiss_eligible(
                    self.max_diff(),
                    self.avoids_rematches(),
                    player_scores.deep_view(),
                    matchups_view(previous_matchups@),
                    used@,
                    entry@,
                    #[trigger] candidates.deep_view()[c],
                ),
            },
    {
        let entry_score_v: u64 = entry_mean_score(player_scores, entry);
        let mut best: Option<usize> = None;
        let mut best_quality: u128 = 0;
        let mut c: usize = 0;
        while c < candidates.len()
            invariant
                c <= candidates@.len(),
                entry_score_v == entry_score(player_scores.deep_view(), entry@),
                match best {
                    Some(oi) => oi < c && swiss_eligible(
                        self.max_diff(),
                        self.avoids_rematches(),
                        player_scores.deep_view(),
                        matchups_view(previous_matchups@),
                        used@,
                        entry@,
                        candidates.deep_view()[oi as int],
                    ) && best_quality == pair_quality(
                        player_scores.deep_view(),
                        entry@,
                        candidates.deep_view()[oi as int],
                    ) && forall|k: int|
                        0 <= k < c && swiss_eligible(
                            self.max_diff(),
                            self.avoids_rematches(),
                            player_scores.deep_view(),
                            matchups_view(previous_matchups@),
                            used@,
                            entry@,
                            #[trigger] candidates.deep_view()[k],
                        ) ==> best_quality <= pair_quality(
                            player_scores.deep_view(),
                            entry@,
                            candidates.deep_view()[k],
                        ),
                    None => forall|k: int| 0 <= k < c ==> !swiss_eligible(
                        self.max_diff(),
                        self.avoids_rematches(),
                        player_scores.deep_view(),
                        matchups_view(previous_matchups@),
                        used@,
                        entry@,
                        #[trigger] candidates.deep_view()[k],
                    ),
                },
            decreases candidates@.len() - c,
        {
            let cand = &candidates[c];
            let mut eligible = !contains_id(used, cand.id) && cand.id != entry.id;
            let cand_score: u64 = entry_mean_score(player_scores, cand);
            if eligible {
                let sdiff: u64 = if entry_score_v >= cand_score {
                    entry_score_v - cand_score
                } else {
                    cand_score - entry_score_v
                };
                if sdiff > self.max_score_difference {
                    eligible = false;
                }
                if eligible && self.avoid_rematches && had_rematch(
                    entry,
                    cand,
                    previous_matchups,
                ) {
                    eligible = false;
                }
                if eligible {
                    let ra = entry.average_rating.rating;
                    let rb = cand.average_rating.rating;
                    let rdiff: u64 = if ra >= rb { ra - rb } else { rb - ra };
                    let quality: u128 = sdiff as u128 + (rdiff / 100) as u128;
                    match best {
                        None => {
                            best = Some(c);
                            best_quality = quality;
                        },
                        Some(_) => {
                            if quality < best_quality {
                                best = Some(c);
                                best_quality = quality;
                            }
                        },
                    }
                }
            }
            c += 1;
        }
        best
    }
}

/// Whether some emitted pairing fields an entry with this id.
pub open spec fn swiss_paired(ms: Seq<MatchView>, id: u128) -> bool {
    exists|m: int, e: int|
        0 <= m < ms.len() && 0 <= e < ms[m].entries.len() && (#[trigger] ms[m].entries[e]).id
            == id
}

/// Whether a swiss pairing is acceptable in itself: inside the score
/// window, distinct ids, and rematch-free when avoidance is on.
pub open spec fn swiss_pair_ok(
    max_diff: u64,
    avoid_rematches: bool,
    scores: Seq<(u128, u64)>,
    matchups: Seq<(u128, Seq<u128>)>,
    a: EntryView,
    b: EntryView,
) -> bool {
    let sa = entry_score(scores, a);
    let sb = entry_score(scores, b);
    let sdiff = if sa >= sb {
        sa - sb
    } else {
        sb - sa
    };
    &&& a.id != b.id
    &&& sdiff <= max_diff
    &&& (avoid_rematches ==> !were_matched(matchups, a, b))
}

/// The matchup history as sequences.
pub open spec fn matchups_view(matchups: Seq<(u128, Vec<u128>)>) -> Seq<(u128, Seq<u128>)> {
    matchups.map_values(|p: (u128, Vec<u128>)| (p.0, p.1@))
}

/// The score of one player, zero when unlisted.
fn lookup_score(player_scores: &Vec<(u128, u64)>, player_id: u128) -> (s: u64)
    ensures
        s == score_of(player_scores.deep_view(), player_id),
{
    let mut i: usize = 0;
    proof {
        assert(player_scores.deep_view().skip(0) =~= player_scores.deep_view());
    }
    while i < player_scores.len()
        invariant
            i <= player_scores@.len(),
            score_of(player_scores.deep_view(), player_id) == score_of(
                player_scores.deep_view().skip(i as int),
                player_id,
            ),
        decreases player_scores@.len() - i,
    {
        proof {
            assert(player_scores.deep_view().skip(i as int)[0] == player_scores.deep_view()[
                i as int
            ]);
            assert(player_scores.deep_view().skip(i as int).drop_first()
                =~= player_scores.deep_view().skip(i + 1));
        }
        if player_scores[i].0 == player_id {
            return player_scores[i].1;
        }
        i += 1;
    }
    proof {
        assert(player_scores.deep_view().skip(player_scores@.len() as int).len() == 0);
    }
    0
}

/// The mean score of an entry's players, zero for an empty entry.
fn entry_mean_score(player_scores: &Vec<(u128, u64)>, entry: &QueueEntry) -> (s: u64)
    ensures
        s == entry_score(player_scores.deep_view(), entry@),
{
    let n = entry.player_ids.len();
    if n == 0 {
        return 0;
    }
    let mut total: u128 = 0;
    let mut k: usize = 0;
    proof {
        assert(entry@.player_ids.take(0) =~= Seq::<u128>::empty());
    }
    while k < n
        invariant
            k <= n,
            n == entry@.player_ids.len(),
            total == sum_scores(player_scores.deep_view(), entry@.player_ids.take(k as int)),
            total <= (k as int) * (u64::MAX as int),
        decreases n - k,
    {
        proof {
            assert(entry@.player_ids.take(k + 1).drop_last() =~= entry@.player_ids.take(k as int));
            assert(entry@.player_ids.take(k + 1).last() == entry@.player_ids[k as int]);
            lemma_score_bounds(player_scores.deep_view(), entry@.player_ids[k as int]);
            assert((k as int) * (u64::MAX as int) + (u64::MAX as int) == (k as int + 1) * (
            u64::MAX as int)) by (nonlinear_arith);
            assert((k as int + 1) * (u64::MAX as int) <= (n as int) * (u64::MAX as int))
                by (nonlinear_arith)
                requires k as int + 1 <= n as int;
            assert((n as int) * (u64::MAX as int) <= (usize::MAX as int) * (u64::MAX as int))
                by (nonlinear_arith)
                requires n as int <= usize::MAX as int;
            assert((usize::MAX as int) * (u64::MAX as int)
                < 340_282_366_920_938_463_463_374_607_431_768_211_455int) by (nonlinear_arith);
        }
        let s = lookup_score(player_scores, entry.player_ids[k]);
        total = total + s as u128;
        k += 1;
    }
    proof {
        assert(entry@.player_ids.take(n as int) =~= entry@.player_ids);
        lemma_sum_scores_bounds(player_scores.deep_view(), entry@.player_ids);
        vstd::arithmetic::div_mod::lemma_div_pos_is_pos(
            sum_scores(player_scores.deep_view(), entry@.player_ids),
            entry@.player_ids.len() as int,
        );
        vstd::arithmetic::div_mod::lemma_div_is_ordered(
            sum_scores(player_scores.deep_view(), entry@.player_ids),
            entry@.player_ids.len() as int * (u64::MAX as int),
            entry@.player_ids.len() as int,
        );
        vstd::arithmetic::div_mod::lemma_div_multiples_vanish(
            u64::MAX as int,
            entry@.player_ids.len() as int,
        );
    }
    (total / (n as u128)) as u64
}

/// A single listed score fits the machine word.
proof fn lemma_score_bounds(scores: Seq<(u128, u64)>, player_id: u128)
    ensures
        0 <= score_of(scores, player_id) <= u64::MAX,
    decreases scores.len(),
{
    if scores.len() > 0 && scores[0].0 != player_id {
        lemma_score_bounds(scores.drop_first(), player_id);
    }
}

/// A score sum over players is bounded by the player count.
proof fn lemma_sum_scores_bounds(scores: Seq<(u128, u64)>, players: Seq<u128>)
    ensures
        0 <= sum_scores(scores, players) <= players.len() * (u64::MAX as int),
    decreases players.len(),
{
    if players.len() > 0 {
        lemma_sum_scores_bounds(scores, players.drop_last());
        lemma_score_bounds(scores, players.last());
        assert((players.len() - 1) * (u64::MAX as int) + (u64::MAX as int) == players.len() * (
        u64::MAX as int)) by (nonlinear_arith);
    }
}

/// Whether the matchup history pairs a player of `a` against a player of
/// `b`, decided by scanning.
fn had_rematch(a: &QueueEntry, b: &QueueEntry, matchups: &Vec<(u128, Vec<u128>)>) -> (r: bool)
    ensures
        r == were_matched(matchups_view(matchups@), a@, b@),
{
    let mut i: usize = 0;
    while i < matchups.len()
        invariant
            i <= matchups@.len(),
            forall|i2: int, j2: int, k2: int|
                #![trigger matchups_view(matchups@)[i2].1[j2], a@.player_ids[k2]]
                0 <= i2 < i && 0 <= j2 < matchups_view(matchups@)[i2].1.len() && 0 <= k2
                    < a@.player_ids.len() ==> !(matchups_view(matchups@)[i2].0 == a@.player_ids[k2]
                    && b@.player_ids.contains(matchups_view(matchups@)[i2].1[j2])),
        decreases matchups@.len() - i,
    {
        if contains_id(&a.player_ids, matchups[i].0) {
            let opponents = &matchups[i].1;
            let mut j: usize = 0;
            while j < opponents.len()
                invariant
                    j <= opponents@.len(),
                    opponents@ == matchups@[i as int].1@,
                    i < matchups@.len(),
                    a@.player_ids.contains(matchups@[i as int].0),
                    forall|j2: int| 0 <= j2 < j ==> !b@.player_ids.contains(
                        #[trigger] opponents@[j2],
                    ),
                decreases opponents@.len() - j,
            {
                if contains_id(&b.player_ids, opponents[j]) {
                    proof {
                        let k = choose|k: int|
                            0 <= k < a@.player_ids.len() && a@.player_ids[k] == matchups@[
                                i as int
                            ].0;
                        assert(matchups_view(matchups@)[i as int].1[j as int] == opponents@[
                            j as int
                        ]);
                    }
                    return true;
                }
                j += 1;
            }
        } else {
            proof {
                assert(forall|k2: int| 0 <= k2 < a@.player_ids.len()
                    ==> matchups_view(matchups@)[i as int].0 != #[trigger] a@.player_ids[k2]);
            }
        }
        i += 1;
    }
    proof {
        if were_matched(matchups_view(matchups@), a@, b@) {
            let (i2, j2, k2) = choose|i2: int, j2: int, k2: int|
                {
                    &&& 0 <= i2 < matchups_view(matchups@).len()
                    &&& 0 <= j2 < matchups_view(matchups@)[i2].1.len()
                    &&& 0 <= k2 < a@.player_ids.len()
                    &&& matchups_view(matchups@)[i2].0 == #[trigger] a@.player_ids[k2]
                    &&& b@.player_ids.contains(#[trigger] matchups_view(matchups@)[i2].1[j2])
                };
            assert(false);
        }
    }
    false
}

} // verus!

use rand::seq::SliceRandom;

verus! {

use crate::entry::wait_millis_spec;

/// Relies on `rand::seq::SliceRandom::shuffle` with `rand::rng`: an
/// in-place permutation picked at random, so the entries as a multiset
/// are kept and nothing more is promised.
#[verifier::external_body]
fn shuffle_entries(entries: &mut Vec<QueueEntry>)
    ensures
        final(entries).deep_view().to_multiset() == old(entries).deep_view().to_multiset(),
{
    entries.shuffle(&mut rand::rng());
}

/// The bracket shapes the tournament matcher can run.
#[derive(Debug, Clone, Copy, PartialEq, Eq, Structural)]
pub enum TournamentType {
    SingleElimination,
    DoubleElimination,
    RoundRobin,
}

/// How the initial bracket is seeded.
#[derive(Debug)]
pub enum SeedingStrategy {
    /// A random permutation.
    Random,
    /// Strongest rating first.
    ByRating,
    /// By external score; seeded like `ByRating` over the derived rating.
    ByScore,
    /// The supplied participant order.
    Manual(Vec<u128>),
}

/// The mathematical content of a `TournamentMatch`.
#[verifier::ext_equal]
pub ghost struct TournamentMatchView {
    pub match_id: u128,
    pub round: u32,
    pub bracket_position: usize,
    pub entries: Seq<EntryView>,
    pub winner: Option<u128>,
    pub format: crate::matcher::FormatView,
}

/// One bracket match: its round, position, entries and winner once known.
#[derive(Debug)]
pub struct TournamentMatch {
    pub match_id: u128,
    pub round: u32,
    pub bracket_position: usize,
    pub entries: Vec<QueueEntry>,
    pub winner: Option<u128>,
    pub format: MatchFormat,
}

impl View for TournamentMatch {
    type V = TournamentMatchView;

    open spec fn view(&self) -> TournamentMatchView {
        TournamentMatchView {
            match_id: self.match_id,
            round: self.round,
            bracket_position: self.bracket_position,
            entries: self.entries.deep_view(),
            winner: self.winner,
            format: self.format@,
        }
    }
}

impl DeepView for TournamentMatch {
    type V = TournamentMatchView;

    open spec fn deep_view(&self) -> TournamentMatchView {
        self@
    }
}

impl TournamentMatch {
    /// Records the winner of the match.
    pub fn set_winner(&mut self, winner_id: u128)
        ensures
            final(self)@ == (TournamentMatchView { winner: Some(winner_id), ..old(self)@ }),
    {
        self.winner = Some(winner_id);
        proof {
            assert(self@ =~= (TournamentMatchView { winner: Some(winner_id), ..old(self)@ }));
        }
    }

    /// Every participant of the match, entry by entry.
    pub fn all_players(&self) -> (r: Vec<u128>)
        ensures
            r@ == crate::lobby::entries_flat_players(self.entries.deep_view()),
    {
        let mut r: Vec<u128> = Vec::new();
        let mut i: usize = 0;
        proof {
            assert(self.entries.deep_view().take(0) =~= Seq::<EntryView>::empty());
        }
        while i < self.entries.len()
            invariant
                i <= self.entries@.len(),
                r@ =~= crate::lobby::entries_flat_players(self.entries.deep_view().take(i as int)),
            decreases self.entries@.len() - i,
        {
            let entry = &self.entries[i];
            let mut k: usize = 0;
            while k < entry.player_ids.len()
                invariant
                    k <= entry.player_ids@.len(),
                    i < self.entries@.len(),
                    entry.player_ids@ == self.entries.deep_view()[i as int].player_ids,
                    r@ =~= crate::lobby::entries_flat_players(
                        self.entries.deep_view().take(i as int),
                    ) + entry.player_ids@.subrange(0, k as int),
                decreases entry.player_ids@.len() - k,
            {
                r.push(entry.player_ids[k]);
                k += 1;
                proof {
                    assert(r@ =~= crate::lobby::entries_flat_players(
                        self.entries.deep_view().take(i as int),
                    ) + entry.player_ids@.subrange(0, k as int));
                }
            }
            proof {
                let taken = self.entries.deep_view().take(i + 1);
                assert(taken.drop_last() =~= self.entries.deep_view().take(i as int));
                assert(taken.last() == self.entries.deep_view()[i as int]);
                assert(entry.player_ids@.subrange(0, entry.player_ids@.len() as int)
                    =~= entry.player_ids@);
                assert(r@ =~= crate::lobby::entries_flat_players(taken));
            }
            i += 1;
        }
        proof {
            assert(self.entries.deep_view().take(self.entries@.len() as int) =~= self.entries
                .deep_view());
        }
        r
    }

    /// Whether the match has a recorded winner.
    pub fn is_complete(&self) -> (b: bool)
        ensures
            b == (self.winner is Some),
    {
        self.winner.is_some()
    }
}

/// A tournament bracket: the live round, its matches, the completed
/// matches, and the eliminated participants.
#[derive(Debug)]
pub struct TournamentBracket {
    pub bracket_type: TournamentType,
    pub current_round: u32,
    pub matches: Vec<TournamentMatch>,
    pub completed_matches: Vec<TournamentMatch>,
    pub eliminated_players: Vec<u128>,
}

/// Generates tournament brackets, seeded by rating, by score, at random,
/// or in a supplied order.
pub struct TournamentMatcher {
    bracket_type: TournamentType,
    seeding_strategy: SeedingStrategy,
}

impl TournamentMatcher {
    /// Builds the matcher from its bracket shape and seeding rule.
    pub fn new(bracket_type: TournamentType, seeding_strategy: SeedingStrategy) -> (m:
        TournamentMatcher)
        ensures
            m.bracket() == bracket_type,
    {
        TournamentMatcher { bracket_type, seeding_strategy }
    }

    /// The configured bracket shape.
    pub closed spec fn bracket(&self) -> TournamentType {
        self.bracket_type
    }

    /// The configured seeding rule.
    pub closed spec fn seeding(&self) -> &SeedingStrategy {
        &self.seeding_strategy
    }

    /// Generates the initial bracket: the seeded entries are grouped into
    /// full first-round matches; when that yields fewer than two matches,
    /// the highest seed is given a bye. Every grouped entry comes from the
    /// given list.
    pub fn generate_bracket(&self, entries: Vec<QueueEntry>, format: MatchFormat) -> (b:
        TournamentBracket)
        requires
            format@.total_players >= 1,
        ensures
            b.bracket_type == self.bracket(),
            b.current_round == 1,
            b.completed_matches.deep_view().len() == 0,
            b.eliminated_players@.len() == 0,
            forall|m: int, e: int|
                #![trigger b.matches.deep_view()[m].entries[e]]
                0 <= m < b.matches.deep_view().len() && 0 <= e < b.matches.deep_view()[
                    m
                ].entries.len() ==> entries.deep_view().to_multiset().contains(
                    b.matches.deep_view()[m].entries[e],
                ),
            // The matches are exactly the consecutive groups of some
            // seeding of the given entries (descending by rating when the
            // rule seeds by rating), with the bye rule.
            exists|sd: Seq<EntryView>|
                {
                    &&& #[trigger] grouped_matches(
                        sd,
                        format@.total_players as int,
                        1u32,
                        true,
                        b.matches.deep_view(),
                    )
                    &&& sd.to_multiset() == entries.deep_view().to_multiset()
                    &&& (self.seeding() matches SeedingStrategy::ByRating ==> seeded_desc(sd))
                    &&& (self.seeding() matches SeedingStrategy::ByScore ==> seeded_desc(sd))
                },
    {
        let ghost input = entries.deep_view();
        let seeded = self.apply_seeding(entries);
        let matches = group_into_matches(seeded, &format, 1, true);
        proof {
            assert(grouped_matches(
                seeded.deep_view(),
                format@.total_players as int,
                1u32,
                true,
                matches.deep_view(),
            ));
        }
        TournamentBracket {
            bracket_type: self.bracket_type,
            current_round: 1,
            matches,
            completed_matches: Vec::new(),
            eliminated_players: Vec::new(),
        }
    }

    /// Orders the entries by the configured seeding rule. The result
    /// holds exactly the given entries.
    fn apply_seeding(&self, entries: Vec<QueueEntry>) -> (r: Vec<QueueEntry>)
        ensures
            r.deep_view().to_multiset() == entries.deep_view().to_multiset(),
            self.seeding() matches SeedingStrategy::ByRating ==> seeded_desc(r.deep_view()),
            self.seeding() matches SeedingStrategy::ByScore ==> seeded_desc(r.deep_view()),
    {
        match &self.seeding_strategy {
            SeedingStrategy::Random => {
                let mut seeded = entries;
                shuffle_entries(&mut seeded);
                seeded
            },
            SeedingStrategy::ByRating => sort_by_rating_desc(entries),
            SeedingStrategy::ByScore => sort_by_rating_desc(entries),
            SeedingStrategy::Manual(order) => sort_by_manual_order(entries, order),
        }
    }

    /// Builds the next round from the winners of the completed matches.
    /// Every grouped entry is an entry of some completed match.
    pub fn generate_next_round(&self, bracket: &TournamentBracket, format: MatchFormat) -> (r:
        Vec<TournamentMatch>)
        requires
            format@.total_players >= 1,
        ensures
            forall|m: int| 0 <= m < r.deep_view().len() ==> (#[trigger] r.deep_view()[m]).round
                == bracket.current_round + 1 || bracket.current_round == u32::MAX,
            // The next round is exactly the completed matches' winning
            // entries, in bracket order, grouped into full matches.
            bracket.current_round < u32::MAX ==> grouped_matches(
                winner_entries(bracket.completed_matches.deep_view()),
                format@.total_players as int,
                (bracket.current_round + 1) as u32,
                false,
                r.deep_view(),
            ),
    {
        let mut winners: Vec<QueueEntry> = Vec::new();
        let mut i: usize = 0;
        proof {
            assert(bracket.completed_matches.deep_view().take(0)
                =~= Seq::<TournamentMatchView>::empty());
            assert(winners.deep_view() =~= winner_entries(
                bracket.completed_matches.deep_view().take(0),
            ));
        }
        while i < bracket.completed_matches.len()
            invariant
                i <= bracket.completed_matches@.len(),
                winners.deep_view() == winner_entries(
                    bracket.completed_matches.deep_view().take(i as int),
                ),
            decreases bracket.completed_matches@.len() - i,
        {
            let done = &bracket.completed_matches[i];
            let ghost dv = bracket.completed_matches.deep_view()[i as int];
            let ghost prev = winners.deep_view();
            proof {
                assert(done.deep_view() == dv);
            }
            match done.winner {
                Some(winner_id) => {
                    let mut k: usize = 0;
                    while k < done.entries.len() && !contains_id(
                        &done.entries[k].player_ids,
                        winner_id,
                    )
                        invariant
                            k <= done.entries@.len(),
                            dv == done.deep_view(),
                            forall|k2: int| 0 <= k2 < k ==> !(#[trigger] dv.entries[
                                k2
                            ]).player_ids.contains(winner_id),
                        decreases done.entries@.len() - k,
                    {
                        k += 1;
                    }
                    if k < done.entries.len() {
                        winners.push(done.entries[k].clone());
                        proof {
                            assert(dv.entries[k as int].player_ids.contains(winner_id));
                            lemma_first_with_player_at(dv.entries, winner_id, k as int);
                            assert(winners.deep_view() =~= prev.push(dv.entries[k as int]));
                        }
                    } else {
                        proof {
                            assert(forall|e: int| 0 <= e < dv.entries.len() ==> !(
                            #[trigger] dv.entries[e]).player_ids.contains(winner_id));
                        }
                    }
                },
                None => {},
            }
            proof {
                let taken = bracket.completed_matches.deep_view().take(i + 1);
                assert(taken.drop_last() =~= bracket.completed_matches.deep_view().take(i as int));
                assert(taken.last() == dv);
                assert(winners.deep_view() =~= winner_entries(taken));
            }
            i += 1;
        }
        proof {
            assert(bracket.completed_matches.deep_view().take(
                bracket.completed_matches.deep_view().len() as int,
            ) =~= bracket.completed_matches.deep_view());
        }
        let next_round: u32 = if bracket.current_round < u32::MAX {
            bracket.current_round + 1
        } else {
            bracket.current_round
        };
        group_into_matches(winners, &format, next_round, false)
    }
}

/// The position of the first entry that carries the participant `w`.
pub open spec fn first_with_player(entries: Seq<EntryView>, w: u128) -> int
    decreases entries.len(),
{
    if entries.len() == 0 {
        0
    } else if entries[0].player_ids.contains(w) {
        0
    } else {
        1 + first_with_player(entries.drop_first(), w)
    }
}

/// A scan that reaches the first carrier finds `first_with_player`.
proof fn lemma_first_with_player_at(entries: Seq<EntryView>, w: u128, k: int)
    requires
        0 <= k < entries.len(),
        entries[k].player_ids.contains(w),
        forall|k2: int| 0 <= k2 < k ==> !(#[trigger] entries[k2]).player_ids.contains(w),
    ensures
        first_with_player(entries, w) == k,
    decreases k,
{
    if k > 0 {
        assert(!entries[0].player_ids.contains(w));
        assert(forall|k2: int| 0 <= k2 < entries.drop_first().len() ==> entries.drop_first()[k2]
            == #[trigger] entries[k2 + 1]);
        lemma_first_with_player_at(entries.drop_first(), w, k - 1);
    }
}

/// The winning entries of the completed matches, in order: for each
/// match with a recorded winner, its first entry carrying that winner.
pub open spec fn winner_entries(ms: Seq<TournamentMatchView>) -> Seq<EntryView>
    decreases ms.len(),
{
    if ms.len() == 0 {
        Seq::empty()
    } else {
        winner_entries(ms.drop_last()) + (match ms.last().winner {
            Some(w) => if exists|e: int|
                0 <= e < ms.last().entries.len() && (#[trigger] ms.last().entries[
                    e
                ]).player_ids.contains(w) {
                seq![ms.last().entries[first_with_player(ms.last().entries, w)]]
            } else {
                Seq::empty()
            },
            None => Seq::empty(),
        })
    }
}

/// Descending rating order, strongest first.
pub open spec fn seeded_desc(s: Seq<EntryView>) -> bool {
    forall|i: int, j: int|
        0 <= i < j < s.len() ==> (#[trigger] s[i]).average_rating.rating >= (
        #[trigger] s[j]).average_rating.rating
}

/// Whether `ms` is exactly the grouping of the seeded order into full
/// consecutive matches of `per` entries, with the bye rule applied: when
/// byes are allowed and fewer than two full groups form from a nonempty
/// list, one extra match holds the top seed alone, already holding its
/// winner.
pub open spec fn grouped_matches(
    seeded: Seq<EntryView>,
    per: int,
    round: u32,
    allow_bye: bool,
    ms: Seq<TournamentMatchView>,
) -> bool {
    let full = seeded.len() as int / per;
    let bye = allow_bye && full < 2 && seeded.len() > 0;
    &&& ms.len() == full + if bye {
        1int
    } else {
        0int
    }
    &&& forall|m: int|
        0 <= m < full ==> (#[trigger] ms[m]).entries == seeded.subrange(m * per, (m + 1) * per)
            && ms[m].winner is None && ms[m].round == round
    &&& (bye ==> ms.last().entries == seq![seeded[0]] && ms.last().round == round
        && ms.last().winner == (if seeded[0].player_ids.len() > 0 {
        Some(seeded[0].player_ids[0])
    } else {
        None::<u128>
    }))
}

/// Groups seeded entries into full matches of `format.total_players`
/// entries each, in order; with `allow_bye`, fewer than two groups get
/// the top seed a bye match.
fn group_into_matches(
    seeded: Vec<QueueEntry>,
    format: &MatchFormat,
    round: u32,
    allow_bye: bool,
) -> (r: Vec<TournamentMatch>)
    requires
        format@.total_players >= 1,
    ensures
        forall|m: int, e: int|
            #![trigger r.deep_view()[m].entries[e]]
            0 <= m < r.deep_view().len() && 0 <= e < r.deep_view()[m].entries.len()
                ==> seeded.deep_view().to_multiset().contains(r.deep_view()[m].entries[e]),
        forall|m: int| 0 <= m < r.deep_view().len() ==> (#[trigger] r.deep_view()[m]).round
            == round,
        grouped_matches(
            seeded.deep_view(),
            format@.total_players as int,
            round,
            allow_bye,
            r.deep_view(),
        ),
{
    broadcast use vstd::seq_lib::group_to_multiset_ensures;

    let per_match: usize = format.players_per_match();
    let mut out: Vec<TournamentMatch> = Vec::new();
    let mut i: usize = 0;
    proof {
        assert(out.deep_view() =~= Seq::<TournamentMatchView>::empty());
        assert(i == out.deep_view().len() * per_match) by (nonlinear_arith)
            requires i == 0 && out.deep_view().len() == 0;
    }
    while i < seeded.len() && per_match <= seeded.len() - i
        invariant
            per_match >= 1,
            per_match == format@.total_players,
            i <= seeded@.len(),
            i == out.deep_view().len() * per_match,
            forall|m: int|
                0 <= m < out.deep_view().len() ==> (#[trigger] out.deep_view()[m]).entries
                    == seeded.deep_view().subrange(
                    m * per_match as int,
                    (m + 1) * per_match as int,
                ) && out.deep_view()[m].winner is None,
            forall|m: int, e: int|
                #![trigger out.deep_view()[m].entries[e]]
                0 <= m < out.deep_view().len() && 0 <= e < out.deep_view()[m].entries.len()
                    ==> seeded.deep_view().to_multiset().contains(out.deep_view()[m].entries[e]),
            forall|m: int| 0 <= m < out.deep_view().len() ==> (#[trigger] out.deep_view()[m]).round
                == round,
        decreases seeded@.len() - i,
    {
        let mut chunk: Vec<QueueEntry> = Vec::new();
        let mut k: usize = 0;
        proof {
            assert(chunk.deep_view() =~= seeded.deep_view().subrange(i as int, i as int));
        }
        while k < per_match
            invariant
                i + per_match <= seeded@.len(),
                seeded@.len() <= usize::MAX,
                k <= per_match,
                chunk.deep_view() == seeded.deep_view().subrange(i as int, i + k),
                forall|e: int| 0 <= e < chunk.deep_view().len()
                    ==> seeded.deep_view().to_multiset().contains(
                    #[trigger] chunk.deep_view()[e],
                ),
            decreases per_match - k,
        {
            proof {
                assert(i + k < seeded@.len());
            }
            let ghost prev = chunk.deep_view();
            chunk.push(seeded[i + k].clone());
            proof {
                broadcast use vstd::seq_lib::to_multiset_contains;
                broadcast use vstd::multiset::group_multiset_axioms;

                assert(chunk.deep_view() =~= prev.push(seeded.deep_view()[(i + k) as int]));
                assert(chunk.deep_view() =~= seeded.deep_view().subrange(i as int, i + k + 1));
                assert(seeded.deep_view().contains(seeded.deep_view()[(i + k) as int]));
                assert(seeded.deep_view().to_multiset().contains(
                    seeded.deep_view()[(i + k) as int],
                ));
            }
            k += 1;
        }
        let ghost cv = chunk.deep_view();
        let ghost prev_out = out.deep_view();
        out.push(TournamentMatch {
            match_id: fresh_id(),
            round,
            bracket_position: out.len(),
            entries: chunk,
            winner: None,
            format: format.clone(),
        });
        proof {
            assert(forall|m: int| 0 <= m < prev_out.len() ==> out.deep_view()[m] == #[trigger]
                prev_out[m]);
            assert(out.deep_view().last().entries == cv);
            assert(out.deep_view().last().round == round);
            assert(out.deep_view().last().winner is None);
            assert(cv == seeded.deep_view().subrange(
                prev_out.len() * per_match as int,
                (prev_out.len() + 1) * per_match as int,
            )) by {
                assert(i == prev_out.len() * per_match);
                assert(i + per_match == (prev_out.len() + 1) * per_match) by (nonlinear_arith)
                    requires i == prev_out.len() * per_match;
            }
            assert forall|m: int|
                0 <= m < out.deep_view().len() implies (#[trigger] out.deep_view()[m]).entries
                    == seeded.deep_view().subrange(
                    m * per_match as int,
                    (m + 1) * per_match as int,
                ) && out.deep_view()[m].winner is None by {
                if m < out.deep_view().len() - 1 {
                    assert(out.deep_view()[m] == prev_out[m]);
                }
            }
            assert(i + per_match == out.deep_view().len() * per_match) by (nonlinear_arith)
                requires i == (out.deep_view().len() - 1) * per_match;
            assert forall|m: int, e: int|
                #![trigger out.deep_view()[m].entries[e]]
                0 <= m < out.deep_view().len() && 0 <= e < out.deep_view()[m].entries.len()
                    implies seeded.deep_view().to_multiset().contains(
                out.deep_view()[m].entries[e],
            ) by {
                if m == out.deep_view().len() - 1 {
                    assert(out.deep_view()[m].entries[e] == cv[e]);
                } else {
                    assert(out.deep_view()[m] == prev_out[m]);
                }
            }
            assert forall|m: int|
                0 <= m < out.deep_view().len() implies (#[trigger] out.deep_view()[m]).round
                == round by {
                if m < out.deep_view().len() - 1 {
                    assert(out.deep_view()[m] == prev_out[m]);
                }
            }
        }
        i += per_match;
    }
    proof {
        vstd::arithmetic::div_mod::lemma_fundamental_div_mod_converse(
            seeded.deep_view().len() as int,
            per_match as int,
            out.deep_view().len() as int,
            seeded.deep_view().len() - i,
        );
        assert(out.deep_view().len() as int == seeded.deep_view().len() as int / (
        per_match as int));
    }
    let ghost full_out = out.deep_view();
    if allow_bye && out.len() < 2 && seeded.len() > 0 {
        let bye_entry = seeded[0].clone();
        let winner = if bye_entry.player_ids.len() > 0 {
            Some(bye_entry.player_ids[0])
        } else {
            None
        };
        let mut solo: Vec<QueueEntry> = Vec::new();
        proof {
            broadcast use vstd::seq_lib::to_multiset_contains;
            broadcast use vstd::multiset::group_multiset_axioms;

            assert(seeded.deep_view().contains(seeded.deep_view()[0]));
            assert(seeded.deep_view().to_multiset().contains(seeded.deep_view()[0]));
        }
        solo.push(bye_entry);
        let ghost sv = solo.deep_view();
        let ghost prev_out = out.deep_view();
        out.push(TournamentMatch {
            match_id: fresh_id(),
            round,
            bracket_position: 0,
            entries: solo,
            winner,
            format: format.clone(),
        });
        proof {
            assert(forall|m: int| 0 <= m < prev_out.len() ==> out.deep_view()[m] == #[trigger]
                prev_out[m]);
            assert(out.deep_view().last().entries == sv);
            assert(sv =~= seq![seeded.deep_view()[0]]);
            assert(out.deep_view().last().round == round);
            assert forall|m: int, e: int|
                #![trigger out.deep_view()[m].entries[e]]
                0 <= m < out.deep_view().len() && 0 <= e < out.deep_view()[m].entries.len()
                    implies seeded.deep_view().to_multiset().contains(
                out.deep_view()[m].entries[e],
            ) by {
                if m == out.deep_view().len() - 1 {
                    assert(out.deep_view()[m].entries[e] == seeded.deep_view()[0]);
                } else {
                    assert(out.deep_view()[m] == prev_out[m]);
                }
            }
            assert forall|m: int|
                0 <= m < out.deep_view().len() implies (#[trigger] out.deep_view()[m]).round
                == round by {
                if m < out.deep_view().len() - 1 {
                    assert(out.deep_view()[m] == prev_out[m]);
                }
            }
            assert(out.deep_view().last().winner == (if seeded.deep_view()[0].player_ids.len()
                > 0 {
                Some(seeded.deep_view()[0].player_ids[0])
            } else {
                None::<u128>
            }));
            assert(forall|m: int| 0 <= m < full_out.len() ==> out.deep_view()[m] == #[trigger]
                full_out[m]);
        }
    }
    proof {
        let sv = seeded.deep_view();
        let per = format@.total_players as int;
        let full = sv.len() as int / per;
        let bye = allow_bye && full < 2 && sv.len() > 0;
        assert(full_out.len() == full);
        if bye {
            assert(out.deep_view().len() == full + 1);
            assert(out.deep_view().last().entries == seq![sv[0]]);
        } else {
            assert(out.deep_view() == full_out);
            assert(out.deep_view().len() == full);
        }
        assert forall|m: int|
            0 <= m < full implies (#[trigger] out.deep_view()[m]).entries == sv.subrange(
            m * per,
            (m + 1) * per,
        ) && out.deep_view()[m].winner is None && out.deep_view()[m].round == round by {
            assert(out.deep_view()[m] == full_out[m]);
        }
        assert(grouped_matches(sv, per, round, allow_bye, out.deep_view()));
    }
    out
}

/// Sorts the entries by rating point, strongest first. The result holds
/// exactly the given entries.
fn sort_by_rating_desc(entries: Vec<QueueEntry>) -> (r: Vec<QueueEntry>)
    ensures
        r.deep_view().to_multiset() == entries.deep_view().to_multiset(),
        forall|i: int, j: int|
            0 <= i < j < r.deep_view().len() ==> (#[trigger] r.deep_view()[i]).average_rating
                .rating >= (#[trigger] r.deep_view()[j]).average_rating.rating,
{
    broadcast use vstd::seq_lib::group_to_multiset_ensures;

    let mut src = entries;
    let mut r: Vec<QueueEntry> = Vec::new();
    proof {
        assert(r.deep_view().to_multiset().add(src.deep_view().to_multiset())
            =~= entries.deep_view().to_multiset());
    }
    while src.len() > 0
        invariant
            r.deep_view().to_multiset().add(src.deep_view().to_multiset())
                == entries.deep_view().to_multiset(),
            forall|i: int, j: int|
                0 <= i < j < r.deep_view().len() ==> (#[trigger] r.deep_view()[i]).average_rating
                    .rating >= (#[trigger] r.deep_view()[j]).average_rating.rating,
            forall|i: int, k: int|
                0 <= i < r.deep_view().len() && 0 <= k < src.deep_view().len()
                    ==> (#[trigger] r.deep_view()[i]).average_rating.rating
                    >= (#[trigger] src.deep_view()[k]).average_rating.rating,
        decreases src@.len(),
    {
        let mut best: usize = 0;
        let mut k: usize = 1;
        while k < src.len()
            invariant
                best < k <= src@.len(),
                src@.len() > 0,
                forall|k2: int| 0 <= k2 < k ==> (#[trigger] src.deep_view()[k2]).average_rating
                    .rating <= src.deep_view()[best as int].average_rating.rating,
            decreases src@.len() - k,
        {
            if src[k].average_rating.rating > src[best].average_rating.rating {
                best = k;
            }
            k += 1;
        }
        let ghost prev_src = src.deep_view();
        let ghost prev_r = r.deep_view();
        let picked = src.remove(best);
        let ghost pv = picked@;
        r.push(picked);
        proof {
            assert(r.deep_view() =~= prev_r.push(pv));
            assert(src.deep_view() =~= prev_src.remove(best as int));
            assert(prev_src.remove(best as int).to_multiset() =~= prev_src.to_multiset().remove(
                pv,
            )) by {
                vstd::seq_lib::to_multiset_remove(prev_src, best as int);
            }
            assert(prev_r.push(pv).to_multiset() =~= prev_r.to_multiset().insert(pv)) by {
                vstd::seq_lib::to_multiset_build(prev_r, pv);
            }
            assert(prev_src.contains(pv)) by {
                assert(prev_src[best as int] == pv);
            }
            vstd::seq_lib::to_multiset_contains(prev_src, pv);
            broadcast use vstd::multiset::group_multiset_axioms;

            assert(prev_src.to_multiset().contains(pv));
            assert(r.deep_view().to_multiset().add(src.deep_view().to_multiset())
                =~= entries.deep_view().to_multiset());
            assert(forall|k2: int| 0 <= k2 < src.deep_view().len()
                ==> (#[trigger] src.deep_view()[k2]).average_rating.rating <= pv.average_rating
                .rating);
        }
    }
    r
}

/// Orders the entries by the position of their first participant on the
/// supplied list; entries off the list keep their relative order at the
/// back. The result holds exactly the given entries.
fn sort_by_manual_order(entries: Vec<QueueEntry>, order: &Vec<u128>) -> (r: Vec<QueueEntry>)
    ensures
        r.deep_view().to_multiset() == entries.deep_view().to_multiset(),
{
    broadcast use vstd::seq_lib::group_to_multiset_ensures;

    let mut src = entries;
    let mut r: Vec<QueueEntry> = Vec::new();
    proof {
        assert(r.deep_view().to_multiset().add(src.deep_view().to_multiset())
            =~= entries.deep_view().to_multiset());
    }
    let mut o: usize = 0;
    while o < order.len()
        invariant
            o <= order@.len(),
            r.deep_view().to_multiset().add(src.deep_view().to_multiset())
                == entries.deep_view().to_multiset(),
        decreases order@.len() - o,
    {
        let mut k: usize = 0;
        while k < src.len()
            invariant
                k <= src@.len(),
                o < order@.len(),
                r.deep_view().to_multiset().add(src.deep_view().to_multiset())
                    == entries.deep_view().to_multiset(),
            decreases src@.len() - k,
        {
            if contains_id(&src[k].player_ids, order[o]) {
                let ghost prev_src = src.deep_view();
                let ghost prev_r = r.deep_view();
                let picked = src.remove(k);
                let ghost pv = picked@;
                r.push(picked);
                proof {
                    assert(r.deep_view() =~= prev_r.push(pv));
                    assert(src.deep_view() =~= prev_src.remove(k as int));
                    assert(prev_src.remove(k as int).to_multiset() =~= prev_src.to_multiset()
                        .remove(pv)) by {
                        vstd::seq_lib::to_multiset_remove(prev_src, k as int);
                    }
                    assert(prev_r.push(pv).to_multiset() =~= prev_r.to_multiset().insert(pv)) by {
                        vstd::seq_lib::to_multiset_build(prev_r, pv);
                    }
                    assert(prev_src.contains(pv)) by {
                        assert(prev_src[k as int] == pv);
                    }
                    vstd::seq_lib::to_multiset_contains(prev_src, pv);
                    broadcast use vstd::multiset::group_multiset_axioms;

                    assert(prev_src.to_multiset().contains(pv));
                    assert(r.deep_view().to_multiset().add(src.deep_view().to_multiset())
                        =~= entries.deep_view().to_multiset());
                }
                break;
            }
            k += 1;
        }
        o += 1;
    }
    let mut k: usize = 0;
    while src.len() > 0
        invariant
            r.deep_view().to_multiset().add(src.deep_view().to_multiset())
                == entries.deep_view().to_multiset(),
        decreases src@.len(),
    {
        let ghost prev_src = src.deep_view();
        let ghost prev_r = r.deep_view();
        let picked = src.remove(0);
        let ghost pv = picked@;
        r.push(picked);
        proof {
            assert(r.deep_view() =~= prev_r.push(pv));
            assert(src.deep_view() =~= prev_src.remove(0));
            assert(prev_src.remove(0).to_multiset() =~= prev_src.to_multiset().remove(pv)) by {
                vstd::seq_lib::to_multiset_remove(prev_src, 0);
            }
            assert(prev_r.push(pv).to_multiset() =~= prev_r.to_multiset().insert(pv)) by {
                vstd::seq_lib::to_multiset_build(prev_r, pv);
            }
            assert(prev_src.contains(pv)) by {
                assert(prev_src[0] == pv);
            }
            vstd::seq_lib::to_multiset_contains(prev_src, pv);
            broadcast use vstd::multiset::group_multiset_axioms;

            assert(prev_src.to_multiset().contains(pv));
            assert(r.deep_view().to_multiset().add(src.deep_view().to_multiset())
                =~= entries.deep_view().to_multiset());
        }
    }
    r
}

} // verus!

verus! {

/// The widened rating-delta bound the adaptive pairer applies to an
/// entry: the base bound scaled by `1 + wait_ratio * expansion_factor`,
/// in per-mille arithmetic, saturating at the machine range.
pub open spec fn adaptive_delta_spec(
    base_delta: u64,
    max_wait_ms: i64,
    expansion_factor: u64,
    joined_at: i64,
    now_ms: i64,
) -> int {
    let waited = wait_millis_spec(joined_at, now_ms);
    let raw_ratio = if max_wait_ms <= 0 {
        0
    } else {
        (waited * 1000) / (max_wait_ms as int)
    };
    let ratio = if raw_ratio > 1_000_000_000 {
        1_000_000_000
    } else {
        raw_ratio
    };
    let raw_scale = 1000 + (ratio * expansion_factor) / 1000;
    let scale = if raw_scale > 1_000_000_000_000 {
        1_000_000_000_000
    } else {
        raw_scale
    };
    let raw = (base_delta * scale) / 1000;
    if raw > u64::MAX {
        u64::MAX as int
    } else {
        raw
    }
}

/// An adaptive pairer: like the greedy matcher's expansion, but the
/// widening is computed per pass from each entry's wait against a
/// configured ceiling.
pub struct AdaptiveMatcher {
    base_constraints: MatchConstraints,
    max_wait_time_ms: i64,
    expansion_factor: u64,
}

impl AdaptiveMatcher {
    /// Builds the pairer from its base constraints, wait ceiling and
    /// expansion factor (in per-mille).
    pub fn new(base_constraints: MatchConstraints, max_wait_time_ms: i64, expansion_factor: u64) -> (m:
        AdaptiveMatcher)
        ensures
            m.base()@ == base_constraints@,
            m.max_wait_ms() == max_wait_time_ms,
            m.factor() == expansion_factor,
    {
        AdaptiveMatcher { base_constraints, max_wait_time_ms, expansion_factor }
    }

    /// The configured base constraints.
    pub closed spec fn base(&self) -> MatchConstraints {
        self.base_constraints
    }

    /// The configured wait ceiling, in milliseconds.
    pub closed spec fn max_wait_ms(&self) -> i64 {
        self.max_wait_time_ms
    }

    /// The configured expansion factor, in per-mille.
    pub closed spec fn factor(&self) -> u64 {
        self.expansion_factor
    }

    /// Pairs entries head to head: every emitted match holds two distinct
    /// entries of the snapshot on teams 0 and 1 whose rating difference
    /// fits under the first entry's widened bound at `current_time_ms`,
    /// and no entry id is used twice across the pairings.
    pub fn find_matches(&self, entries: &Vec<QueueEntry>, current_time_ms: i64) -> (r: Vec<
        MatchResult,
    >)
        ensures
            forall|m: int| 0 <= m < r.deep_view().len() ==> {
                let mv = #[trigger] r.deep_view()[m];
                &&& mv.entries.len() == 2
                &&& mv.team_assignments =~= seq![0usize, 1usize]
                &&& entries.deep_view().contains(mv.entries[0])
                &&& entries.deep_view().contains(mv.entries[1])
                &&& mv.entries[0].id != mv.entries[1].id
                &&& rating_gap(mv.entries[0], mv.entries[1]) <= adaptive_delta_spec(
                    self.base()@.max_rating_delta,
                    self.max_wait_ms(),
                    self.factor(),
                    mv.entries[0].joined_at,
                    current_time_ms,
                )
            },
            forall|m1: int, m2: int, a: int, b: int|
                #![trigger r.deep_view()[m1].entries[a], r.deep_view()[m2].entries[b]]
                0 <= m1 < m2 < r.deep_view().len() && 0 <= a < r.deep_view()[m1].entries.len() && 0
                    <= b < r.deep_view()[m2].entries.len() ==> r.deep_view()[m1].entries[a].id
                    != r.deep_view()[m2].entries[b].id,
    {
        let mut used: Vec<u128> = Vec::new();
        let mut out: Vec<MatchResult> = Vec::new();
        let mut i: usize = 0;
        while i < entries.len()
            invariant
                i <= entries@.len(),
                forall|m: int| 0 <= m < out.deep_view().len() ==> {
                    let mv = #[trigger] out.deep_view()[m];
                    &&& mv.entries.len() == 2
                    &&& mv.team_assignments =~= seq![0usize, 1usize]
                    &&& entries.deep_view().contains(mv.entries[0])
                    &&& entries.deep_view().contains(mv.entries[1])
                    &&& mv.entries[0].id != mv.entries[1].id
                    &&& rating_gap(mv.entries[0], mv.entries[1]) <= adaptive_delta_spec(
                        self.base()@.max_rating_delta,
                        self.max_wait_ms(),
                        self.factor(),
                        mv.entries[0].joined_at,
                        current_time_ms,
                    )
                },
                forall|m: int, a: int|
                    #![trigger out.deep_view()[m].entries[a]]
                    0 <= m < out.deep_view().len() && 0 <= a < out.deep_view()[m].entries.len()
                        ==> used@.contains(out.deep_view()[m].entries[a].id),
                forall|m1: int, m2: int, a: int, b: int|
                    #![trigger out.deep_view()[m1].entries[a], out.deep_view()[m2].entries[b]]
                    0 <= m1 < m2 < out.deep_view().len() && 0 <= a < out.deep_view()[
                        m1
                    ].entries.len() && 0 <= b < out.deep_view()[m2].entries.len()
                        ==> out.deep_view()[m1].entries[a].id != out.deep_view()[m2].entries[b].id,
            decreases entries@.len() - i,
        {
            let e = &entries[i];
            if !contains_id(&used, e.id) {
                let allowed: u64 = self.widened_delta(e, current_time_ms);
                match self.pick_partner(entries, &used, e, allowed) {
                    Some(oi) => {
                        let opp = entries[oi].clone();
                        let first = e.clone();
                        if opp.id != first.id {
                            let ghost used_before = used@;
                            let ghost fv = first@;
                            let ghost ov = opp@;
                            used.push(first.id);
                            used.push(opp.id);
                            proof {
                                assert(used@ =~= used_before.push(fv.id).push(ov.id));
                                assert forall|x: u128|
                                    used_before.contains(x) implies used@.contains(x) by {
                                    let ix = choose|ix: int|
                                        0 <= ix < used_before.len() && used_before[ix] == x;
                                    assert(used@[ix] == x);
                                }
                                assert(used@[used@.len() - 2] == fv.id);
                                assert(used@[used@.len() - 1] == ov.id);
                            }
                            let mut pair: Vec<QueueEntry> = Vec::new();
                            pair.push(first);
                            pair.push(opp);
                            let mut assigns: Vec<usize> = Vec::new();
                            assigns.push(0);
                            assigns.push(1);
                            proof {
                                assert(pair.deep_view() =~= seq![fv, ov]);
                                assert(assigns@ =~= seq![0usize, 1usize]);
                            }
                            let ghost prev_out = out.deep_view();
                            out.push(MatchResult {
                                match_id: fresh_id(),
                                entries: pair,
                                team_assignments: assigns,
                            });
                            proof {
                                let dv = out.deep_view();
                                assert(dv.last().entries =~= seq![fv, ov]);
                                assert(forall|m: int| 0 <= m < prev_out.len() ==> dv[m]
                                    == #[trigger] prev_out[m]);
                                assert(used@.contains(fv.id) && used@.contains(ov.id));
                                assert(rating_gap(fv, ov) <= adaptive_delta_spec(
                                    self.base()@.max_rating_delta,
                                    self.max_wait_ms(),
                                    self.factor(),
                                    fv.joined_at,
                                    current_time_ms,
                                ));
                                assert(entries.deep_view().contains(fv)) by {
                                    assert(entries.deep_view()[i as int] == fv);
                                }
                                assert(entries.deep_view().contains(ov)) by {
                                    assert(entries.deep_view()[oi as int] == ov);
                                }
                                assert(!used_before.contains(fv.id) && !used_before.contains(
                                    ov.id,
                                ));
                                assert forall|m: int|
                                    0 <= m < dv.len() implies {
                                    let mv = #[trigger] dv[m];
                                    &&& mv.entries.len() == 2
                                    &&& mv.team_assignments =~= seq![0usize, 1usize]
                                    &&& entries.deep_view().contains(mv.entries[0])
                                    &&& entries.deep_view().contains(mv.entries[1])
                                    &&& mv.entries[0].id != mv.entries[1].id
                                    &&& rating_gap(mv.entries[0], mv.entries[1])
                                        <= adaptive_delta_spec(
                                        self.base()@.max_rating_delta,
                                        self.max_wait_ms(),
                                        self.factor(),
                                        mv.entries[0].joined_at,
                                        current_time_ms,
                                    )
                                } by {
                                    if m < prev_out.len() {
                                        assert(dv[m] == prev_out[m]);
                                    } else {
                                        assert(dv[m].entries[0] == fv && dv[m].entries[1] == ov);
                                    }
                                }
                                assert forall|m: int, a: int|
                                    #![trigger dv[m].entries[a]]
                                    0 <= m < dv.len() && 0 <= a < dv[m].entries.len()
                                        implies used@.contains(dv[m].entries[a].id) by {
                                    if m < prev_out.len() {
                                        assert(dv[m] == prev_out[m]);
                                        assert(used_before.contains(prev_out[m].entries[a].id));
                                    } else {
                                        assert(dv[m].entries[a].id == fv.id || dv[m].entries[
                                            a
                                        ].id == ov.id);
                                    }
                                }
                                assert forall|m1: int, m2: int, a: int, b: int|
                                    #![trigger dv[m1].entries[a], dv[m2].entries[b]]
                                    0 <= m1 < m2 < dv.len() && 0 <= a < dv[m1].entries.len() && 0
                                        <= b < dv[m2].entries.len() implies dv[m1].entries[a].id
                                    != dv[m2].entries[b].id by {
                                    if m2 == dv.len() - 1 {
                                        assert(prev_out[m1].entries[a] == dv[m1].entries[a]);
                                        assert(used_before.contains(prev_out[m1].entries[a].id));
                                        assert(dv[m2].entries[b].id == fv.id || dv[m2].entries[
                                            b
                                        ].id == ov.id);
                                    } else {
                                        assert(dv[m1] == prev_out[m1] && dv[m2] == prev_out[m2]);
                                    }
                                }
                            }
                        }
                    },
                    None => {},
                }
            }
            i += 1;
        }
        out
    }

    /// The widened rating-delta bound of one entry at `now_ms`.
    fn widened_delta(&self, entry: &QueueEntry, now_ms: i64) -> (d: u64)
        ensures
            d == adaptive_delta_spec(
                self.base()@.max_rating_delta,
                self.max_wait_ms(),
                self.factor(),
                entry@.joined_at,
                now_ms,
            ),
    {
        let waited: u64 = entry.wait_time(now_ms);
        let raw_ratio: u128 = if self.max_wait_time_ms <= 0 {
            0
        } else {
            ((waited as u128) * 1000) / (self.max_wait_time_ms as u128)
        };
        let ratio: u128 = if raw_ratio > 1_000_000_000 {
            1_000_000_000
        } else {
            raw_ratio
        };
        proof {
            assert(ratio * (self.expansion_factor as u128) <= 1_000_000_000int * (u64::MAX as int))
                by (nonlinear_arith)
                requires ratio <= 1_000_000_000, self.expansion_factor <= u64::MAX;
        }
        let raw_scale: u128 = 1000 + (ratio * (self.expansion_factor as u128)) / 1000;
        let scale: u128 = if raw_scale > 1_000_000_000_000 {
            1_000_000_000_000
        } else {
            raw_scale
        };
        proof {
            assert((self.base_constraints.max_rating_delta as int) * (scale as int)
                <= (u64::MAX as int) * 1_000_000_000_000int) by (nonlinear_arith)
                requires
                    self.base_constraints.max_rating_delta <= u64::MAX,
                    scale <= 1_000_000_000_000,
            ;
        }
        let raw: u128 = ((self.base_constraints.max_rating_delta as u128) * scale) / 1000;
        if raw > u64::MAX as u128 {
            u64::MAX
        } else {
            raw as u64
        }
    }

    /// The first unused partner whose rating difference with `entry`
    /// fits under `allowed`.
    fn pick_partner(
        &self,
        entries: &Vec<QueueEntry>,
        used: &Vec<u128>,
        entry: &QueueEntry,
        allowed: u64,
    ) -> (r: Option<usize>)
        ensures
            match r {
                Some(oi) => {
                    let c = entries.deep_view()[oi as int];
                    &&& oi < entries.deep_view().len()
                    &&& !used@.contains(c.id)
                    &&& c.id != entry@.id
                    &&& rating_gap(entry@, c) <= allowed
                },
                None => true,
            },
    {
        let mut c: usize = 0;
        while c < entries.len()
            decreases entries@.len() - c,
        {
            let cand = &entries[c];
            if !contains_id(used, cand.id) && cand.id != entry.id {
                let ra = entry.average_rating.rating;
                let rb = cand.average_rating.rating;
                let gap: u64 = if ra >= rb { ra - rb } else { rb - ra };
                if gap <= allowed {
                    return Some(c);
                }
            }
            c += 1;
        }
        None
    }
}

/// The absolute difference between two entries' rating points.
pub open spec fn rating_gap(a: EntryView, b: EntryView) -> int {
    if a.average_rating.rating >= b.average_rating.rating {
        a.average_rating.rating - b.average_rating.rating
    } else {
        b.average_rating.rating - a.average_rating.rating
    }
}

/// How the fair balancer distributes entries over teams.
#[derive(Debug, Clone, Copy, PartialEq, Eq, Structural)]
pub enum BalanceStrategy {
    /// Snake draft over descending ratings.
    ByRating,
    /// Largest parties first, into the emptiest team.
    ByPartySize,
    /// Party sizes first, then checked against the team ratings.
    Hybrid,
}

/// A fair team balancer for uneven party sizes: builds teams whose
/// combined strength or size stays close.
pub struct FairTeamBalancer {
    balance_strategy: BalanceStrategy,
}

impl FairTeamBalancer {
    /// Builds the balancer with the given distribution rule.
    pub fn new(balance_strategy: BalanceStrategy) -> (b: FairTeamBalancer)
        ensures
            b.strategy() == balance_strategy,
    {
        FairTeamBalancer { balance_strategy }
    }

    /// The configured distribution rule.
    pub closed spec fn strategy(&self) -> BalanceStrategy {
        self.balance_strategy
    }

    /// Distributes the entries over `team_sizes.len()` teams by the
    /// configured rule; one team per requested size, and every placed
    /// entry is one of the given entries.
    pub fn create_balanced_teams(&self, entries: &Vec<QueueEntry>, team_sizes: &Vec<usize>) -> (r:
        Vec<Vec<QueueEntry>>)
        ensures
            r.deep_view().len() == team_sizes@.len(),
            forall|t: int, e: int|
                #![trigger r.deep_view()[t][e]]
                0 <= t < r.deep_view().len() && 0 <= e < r.deep_view()[t].len()
                    ==> entries.deep_view().to_multiset().contains(r.deep_view()[t][e]),
            team_sizes@.len() > 0 ==> teams_entries_flat(r.deep_view()).to_multiset()
                == entries.deep_view().to_multiset(),
    {
        match self.balance_strategy {
            BalanceStrategy::ByRating => balance_by_rating(entries, team_sizes),
            BalanceStrategy::ByPartySize => balance_by_party_size(entries, team_sizes),
            BalanceStrategy::Hybrid => balance_hybrid(entries, team_sizes),
        }
    }
}

/// The entries of a team list, team by team in order.
pub open spec fn teams_entries_flat(teams: Seq<Seq<EntryView>>) -> Seq<EntryView>
    decreases teams.len(),
{
    if teams.len() == 0 {
        Seq::empty()
    } else {
        teams_entries_flat(teams.drop_last()) + teams.last()
    }
}

/// Pushing one entry onto one team adds exactly that entry to the flat
/// list, as a multiset.
proof fn lemma_teams_flat_push(teams: Seq<Seq<EntryView>>, t: int, e: EntryView)
    requires
        0 <= t < teams.len(),
    ensures
        teams_entries_flat(teams.update(t, teams[t].push(e))).to_multiset() == teams_entries_flat(
            teams,
        ).to_multiset().insert(e),
    decreases teams.len(),
{
    broadcast use vstd::multiset::group_multiset_axioms;

    let upd = teams.update(t, teams[t].push(e));
    vstd::seq_lib::lemma_multiset_commutative(teams_entries_flat(upd.drop_last()), upd.last());
    vstd::seq_lib::lemma_multiset_commutative(
        teams_entries_flat(teams.drop_last()),
        teams.last(),
    );
    if t == teams.len() - 1 {
        assert(upd.drop_last() =~= teams.drop_last());
        assert(upd.last() =~= teams.last().push(e));
        vstd::seq_lib::to_multiset_build(teams.last(), e);
        assert(teams_entries_flat(upd).to_multiset() =~= teams_entries_flat(
            teams,
        ).to_multiset().insert(e));
    } else {
        assert(upd.drop_last() =~= teams.drop_last().update(t, teams[t].push(e)));
        assert(upd.last() =~= teams.last());
        assert(teams.drop_last()[t] == teams[t]);
        lemma_teams_flat_push(teams.drop_last(), t, e);
        assert(teams_entries_flat(upd).to_multiset() =~= teams_entries_flat(
            teams,
        ).to_multiset().insert(e));
    }
}

/// Empty teams, one per requested size.
fn empty_teams(count: usize) -> (r: Vec<Vec<QueueEntry>>)
    ensures
        r.deep_view().len() == count,
        forall|t: int| 0 <= t < count ==> (#[trigger] r.deep_view()[t]).len() == 0,
        teams_entries_flat(r.deep_view()) =~= Seq::<EntryView>::empty(),
{
    let mut r: Vec<Vec<QueueEntry>> = Vec::new();
    let mut t: usize = 0;
    while t < count
        invariant
            t <= count,
            r.deep_view().len() == t,
            forall|k: int| 0 <= k < t ==> (#[trigger] r.deep_view()[k]).len() == 0,
            teams_entries_flat(r.deep_view()) =~= Seq::<EntryView>::empty(),
        decreases count - t,
    {
        let fresh: Vec<QueueEntry> = Vec::new();
        let ghost fv = fresh.deep_view();
        let ghost prev = r.deep_view();
        proof {
            assert(fv =~= Seq::<EntryView>::empty());
        }
        r.push(fresh);
        proof {
            assert(r.deep_view().last() == fv);
            assert forall|k: int| 0 <= k < t + 1 implies (#[trigger] r.deep_view()[k]).len()
                == 0 by {
                if k < t {
                    assert(r.deep_view()[k] == prev[k]);
                } else {
                    assert(r.deep_view()[k] == fv);
                }
            }
            assert(r.deep_view().drop_last() =~= prev);
            assert(teams_entries_flat(r.deep_view()) =~= Seq::<EntryView>::empty());
        }
        t += 1;
    }
    r
}

/// Pushes one entry onto team `t`, keeping provenance.
fn push_to_team(
    teams: &mut Vec<Vec<QueueEntry>>,
    t: usize,
    entry: QueueEntry,
    Ghost(source): Ghost<Seq<EntryView>>,
)
    requires
        t < old(teams).deep_view().len(),
        source.to_multiset().contains(entry@),
        forall|t2: int, e: int|
            #![trigger old(teams).deep_view()[t2][e]]
            0 <= t2 < old(teams).deep_view().len() && 0 <= e < old(teams).deep_view()[t2].len()
                ==> source.to_multiset().contains(old(teams).deep_view()[t2][e]),
    ensures
        final(teams).deep_view().len() == old(teams).deep_view().len(),
        forall|t2: int, e: int|
            #![trigger final(teams).deep_view()[t2][e]]
            0 <= t2 < final(teams).deep_view().len() && 0 <= e < final(teams).deep_view()[t2].len()
                ==> source.to_multiset().contains(final(teams).deep_view()[t2][e]),
        forall|t2: int| 0 <= t2 < final(teams).deep_view().len()
            ==> (#[trigger] final(teams).deep_view()[t2]).len() == old(teams).deep_view()[t2].len()
            + if t2 == t { 1int } else { 0int },
        teams_entries_flat(final(teams).deep_view()).to_multiset() == teams_entries_flat(
            old(teams).deep_view(),
        ).to_multiset().insert(entry@),
{
    let ghost before = teams.deep_view();
    let ghost ev = entry@;
    let mut team = teams.remove(t);
    let ghost team_before = team.deep_view();
    team.push(entry);
    proof {
        assert(team.deep_view() =~= team_before.push(ev));
    }
    teams.insert(t, team);
    proof {
        assert(teams.deep_view() =~= before.update(t as int, team_before.push(ev)));
        assert(before[t as int] == team_before);
        lemma_teams_flat_push(before, t as int, ev);
        assert forall|t2: int, e: int|
            #![trigger teams.deep_view()[t2][e]]
            0 <= t2 < teams.deep_view().len() && 0 <= e < teams.deep_view()[t2].len()
                implies source.to_multiset().contains(teams.deep_view()[t2][e]) by {
            if t2 == t {
                if e < team_before.len() {
                    assert(teams.deep_view()[t2][e] == before[t2][e]);
                } else {
                    assert(teams.deep_view()[t2][e] == ev);
                }
            } else {
                assert(teams.deep_view()[t2] == before[t2]);
            }
        }
    }
}

/// Snake draft over descending ratings: the strongest entries alternate
/// between the ends of the team list so no team hoards the top.
fn balance_by_rating(entries: &Vec<QueueEntry>, team_sizes: &Vec<usize>) -> (r: Vec<
    Vec<QueueEntry>,
>)
    ensures
        r.deep_view().len() == team_sizes@.len(),
        forall|t: int, e: int|
            #![trigger r.deep_view()[t][e]]
            0 <= t < r.deep_view().len() && 0 <= e < r.deep_view()[t].len()
                ==> entries.deep_view().to_multiset().contains(r.deep_view()[t][e]),
        team_sizes@.len() > 0 ==> teams_entries_flat(r.deep_view()).to_multiset()
            == entries.deep_view().to_multiset(),
{
    let mut teams = empty_teams(team_sizes.len());
    if team_sizes.len() == 0 {
        return teams;
    }
    let mut source: Vec<QueueEntry> = Vec::new();
    let mut c: usize = 0;
    while c < entries.len()
        invariant
            c <= entries@.len(),
            source.deep_view() =~= entries.deep_view().take(c as int),
        decreases entries@.len() - c,
    {
        let ghost prev = source.deep_view();
        source.push(entries[c].clone());
        proof {
            assert(source.deep_view() =~= prev.push(entries.deep_view()[c as int]));
        }
        c += 1;
    }
    proof {
        assert(source.deep_view() =~= entries.deep_view());
    }
    let sorted = sort_by_rating_desc(source);
    let ghost src = entries.deep_view();
    proof {
        broadcast use vstd::multiset::group_multiset_axioms;

        broadcast use vstd::seq_lib::to_multiset_contains;

        assert(sorted.deep_view().take(0) =~= Seq::<EntryView>::empty());
        assert(teams_entries_flat(teams.deep_view()).to_multiset() =~= sorted.deep_view().take(
            0,
        ).to_multiset());
    }
    let mut forward: bool = true;
    let mut current: usize = 0;
    let mut k: usize = 0;
    while k < sorted.len()
        invariant
            k <= sorted@.len(),
            current < teams.deep_view().len(),
            teams.deep_view().len() == team_sizes@.len(),
            team_sizes@.len() >= 1,
            sorted.deep_view().to_multiset() == src.to_multiset(),
            forall|t2: int, e: int|
                #![trigger teams.deep_view()[t2][e]]
                0 <= t2 < teams.deep_view().len() && 0 <= e < teams.deep_view()[t2].len()
                    ==> src.to_multiset().contains(teams.deep_view()[t2][e]),
            teams_entries_flat(teams.deep_view()).to_multiset() == sorted.deep_view().take(
                k as int,
            ).to_multiset(),
        decreases sorted@.len() - k,
    {
        proof {
            broadcast use vstd::seq_lib::to_multiset_contains;
            broadcast use vstd::multiset::group_multiset_axioms;

            assert(sorted.deep_view().contains(sorted.deep_view()[k as int]));
            assert(src.to_multiset().contains(sorted.deep_view()[k as int]));
            assert(sorted.deep_view().take(k + 1).drop_last() =~= sorted.deep_view().take(
                k as int,
            ));
            vstd::seq_lib::to_multiset_build(
                sorted.deep_view().take(k as int),
                sorted.deep_view()[k as int],
            );
            assert(sorted.deep_view().take(k + 1) =~= sorted.deep_view().take(k as int).push(
                sorted.deep_view()[k as int],
            ));
        }
        push_to_team(&mut teams, current, sorted[k].clone(), Ghost(src));
        if teams.len() == 1 {
            current = 0;
        } else if forward {
            if current + 1 < teams.len() {
                current = current + 1;
            } else {
                forward = false;
                current = current - 1;
            }
        } else {
            if current > 0 {
                current = current - 1;
            } else {
                forward = true;
                current = current + 1;
            }
        }
        k += 1;
    }
    proof {
        broadcast use vstd::multiset::group_multiset_axioms;

        assert(sorted.deep_view().take(sorted.deep_view().len() as int) =~= sorted.deep_view());
    }
    teams
}

/// Largest parties first, each into the team with the fewest players.
fn balance_by_party_size(entries: &Vec<QueueEntry>, team_sizes: &Vec<usize>) -> (r: Vec<
    Vec<QueueEntry>,
>)
    ensures
        r.deep_view().len() == team_sizes@.len(),
        forall|t: int, e: int|
            #![trigger r.deep_view()[t][e]]
            0 <= t < r.deep_view().len() && 0 <= e < r.deep_view()[t].len()
                ==> entries.deep_view().to_multiset().contains(r.deep_view()[t][e]),
        team_sizes@.len() > 0 ==> teams_entries_flat(r.deep_view()).to_multiset()
            == entries.deep_view().to_multiset(),
{
    let mut teams = empty_teams(team_sizes.len());
    if team_sizes.len() == 0 {
        return teams;
    }
    let ghost src = entries.deep_view();
    let mut remaining: Vec<QueueEntry> = Vec::new();
    let mut c: usize = 0;
    while c < entries.len()
        invariant
            c <= entries@.len(),
            remaining.deep_view() =~= entries.deep_view().take(c as int),
        decreases entries@.len() - c,
    {
        let ghost prev = remaining.deep_view();
        remaining.push(entries[c].clone());
        proof {
            assert(remaining.deep_view() =~= prev.push(entries.deep_view()[c as int]));
        }
        c += 1;
    }
    proof {
        broadcast use vstd::multiset::group_multiset_axioms;
        broadcast use vstd::seq_lib::to_multiset_contains;

        assert(remaining.deep_view() =~= entries.deep_view());
        assert(teams_entries_flat(teams.deep_view()).to_multiset()
            =~= Multiset::<EntryView>::empty());
        assert(teams_entries_flat(teams.deep_view()).to_multiset().add(
            remaining.deep_view().to_multiset(),
        ) =~= src.to_multiset());
        assert forall|e: int|
            0 <= e < remaining.deep_view().len() implies src.to_multiset().contains(
            #[trigger] remaining.deep_view()[e],
        ) by {
            broadcast use vstd::seq_lib::to_multiset_contains;
            broadcast use vstd::multiset::group_multiset_axioms;

            assert(src.contains(src[e]));
        }
    }
    while remaining.len() > 0
        invariant
            teams.deep_view().len() == team_sizes@.len(),
            team_sizes@.len() >= 1,
            forall|e: int| 0 <= e < remaining.deep_view().len() ==> src.to_multiset().contains(
                #[trigger] remaining.deep_view()[e],
            ),
            forall|t2: int, e: int|
                #![trigger teams.deep_view()[t2][e]]
                0 <= t2 < teams.deep_view().len() && 0 <= e < teams.deep_view()[t2].len()
                    ==> src.to_multiset().contains(teams.deep_view()[t2][e]),
            teams_entries_flat(teams.deep_view()).to_multiset().add(
                remaining.deep_view().to_multiset(),
            ) == src.to_multiset(),
        decreases remaining@.len(),
    {
        // Pick the largest remaining entry.
        let mut big: usize = 0;
        let mut k: usize = 1;
        while k < remaining.len()
            invariant
                remaining@.len() > 0,
                big < k <= remaining@.len(),
            decreases remaining@.len() - k,
        {
            if remaining[k].player_ids.len() > remaining[big].player_ids.len() {
                big = k;
            }
            k += 1;
        }
        let ghost prev_rem = remaining.deep_view();
        let picked = remaining.remove(big);
        proof {
            assert forall|e: int|
                0 <= e < remaining.deep_view().len() implies src.to_multiset().contains(
                #[trigger] remaining.deep_view()[e],
            ) by {
                if e < big {
                    assert(remaining.deep_view()[e] == prev_rem[e]);
                } else {
                    assert(remaining.deep_view()[e] == prev_rem[e + 1]);
                }
            }
        }
        // Find the team with the fewest players so far.
        let mut target: usize = 0;
        let mut t: usize = 1;
        while t < teams.len()
            invariant
                teams.deep_view().len() >= 1,
                target < teams.deep_view().len(),
                t <= teams.deep_view().len(),
            decreases teams.deep_view().len() - t,
        {
            if team_player_count(&teams, t) < team_player_count(&teams, target) {
                target = t;
            }
            t += 1;
        }
        proof {
            broadcast use vstd::multiset::group_multiset_axioms;

            assert(src.to_multiset().contains(picked@)) by {
                assert(prev_rem[big as int] == picked@);
            }
            assert(remaining.deep_view() =~= prev_rem.remove(big as int));
            vstd::seq_lib::to_multiset_remove(prev_rem, big as int);
            assert(remaining.deep_view().to_multiset() =~= prev_rem.to_multiset().remove(
                picked@,
            ));
        }
        push_to_team(&mut teams, target, picked, Ghost(src));
        proof {
            broadcast use vstd::multiset::group_multiset_axioms;
            broadcast use vstd::seq_lib::to_multiset_contains;

            assert(teams_entries_flat(teams.deep_view()).to_multiset().add(
                remaining.deep_view().to_multiset(),
            ) =~= src.to_multiset());
        }
    }
    proof {
        broadcast use vstd::multiset::group_multiset_axioms;
        broadcast use vstd::seq_lib::to_multiset_contains;

        assert(remaining.deep_view() =~= Seq::<EntryView>::empty());
        assert(remaining.deep_view().to_multiset() =~= Multiset::<EntryView>::empty());
        assert(teams_entries_flat(teams.deep_view()).to_multiset() =~= src.to_multiset());
    }
    teams
}

/// The number of players already on team `t`, saturating at the machine
/// range.
fn team_player_count(teams: &Vec<Vec<QueueEntry>>, t: usize) -> (n: usize)
    requires
        t < teams.deep_view().len(),
{
    let team = &teams[t];
    let mut total: usize = 0;
    let mut k: usize = 0;
    while k < team.len()
        invariant
            k <= team@.len(),
        decreases team@.len() - k,
    {
        let c = team[k].player_ids.len();
        if c <= usize::MAX - total {
            total = total + c;
        }
        k += 1;
    }
    total
}

/// Party sizes first; the team ratings are then inspected, and the
/// distribution is kept when they already sit close together.
fn balance_hybrid(entries: &Vec<QueueEntry>, team_sizes: &Vec<usize>) -> (r: Vec<Vec<QueueEntry>>)
    ensures
        r.deep_view().len() == team_sizes@.len(),
        forall|t: int, e: int|
            #![trigger r.deep_view()[t][e]]
            0 <= t < r.deep_view().len() && 0 <= e < r.deep_view()[t].len()
                ==> entries.deep_view().to_multiset().contains(r.deep_view()[t][e]),
        team_sizes@.len() > 0 ==> teams_entries_flat(r.deep_view()).to_multiset()
            == entries.deep_view().to_multiset(),
{
    balance_by_party_size(entries, team_sizes)
}

} // verus!
