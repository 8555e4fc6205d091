//! The party manager: party lifecycle and the derived party rating. The
//! manager owns the party records; every party is well formed and no
//! participant is a member of two active parties.

use vstd::prelude::*;

verus! {

use crate::entry::contains_id;
use crate::error::MatchForgeError;
use crate::party::{Party, PartyView};
use crate::party_rating::PartyMmrStrategy;
use crate::persistence::PersistenceAdapter;
use crate::rating::Rating;

/// The party-table invariant: party ids are unique, every party is well
/// formed, and no participant belongs to two parties.
pub open spec fn parties_wf(parties: Seq<PartyView>) -> bool {
    &&& forall|i: int, j: int| 0 <= i < j < parties.len() ==> (#[trigger] parties[i]).id != (
    #[trigger] parties[j]).id
    &&& forall|i: int| 0 <= i < parties.len() ==> (#[trigger] parties[i]).wf()
    &&& forall|i: int, j: int, p: u128|
        0 <= i < j < parties.len() ==> !(#[trigger] parties[i].member_ids.contains(p)
            && #[trigger] parties[j].member_ids.contains(p))
}

/// The index of the party with the given id, or -1 when none exists.
pub open spec fn party_index(parties: Seq<PartyView>, party_id: u128) -> int
    decreases parties.len(),
{
    if parties.len() == 0 {
        -1
    } else if parties[0].id == party_id {
        0
    } else {
        let rest = party_index(parties.drop_first(), party_id);
        if rest == -1 {
            -1
        } else {
            rest + 1
        }
    }
}

/// Whether a party with the given id exists.
pub open spec fn has_party(parties: Seq<PartyView>, party_id: u128) -> bool {
    party_index(parties, party_id) >= 0
}

/// Whether some party counts the player among its members.
pub open spec fn player_in_some_party(parties: Seq<PartyView>, player_id: u128) -> bool {
    exists|i: int|
        0 <= i < parties.len() && (#[trigger] parties[i]).member_ids.contains(player_id)
}

/// `party_index` points at the party it names.
pub proof fn lemma_party_index_spec(parties: Seq<PartyView>, party_id: u128)
    ensures
        has_party(parties, party_id) ==> {
            let i = party_index(parties, party_id);
            &&& 0 <= i < parties.len()
            &&& parties[i].id == party_id
        },
        !has_party(parties, party_id) ==> forall|i: int|
            0 <= i < parties.len() ==> (#[trigger] parties[i]).id != party_id,
    decreases parties.len(),
{
    if parties.len() > 0 {
        lemma_party_index_spec(parties.drop_first(), party_id);
        assert(forall|i: int| 0 <= i < parties.drop_first().len()
            ==> #[trigger] parties.drop_first()[i] == parties[i + 1]);
        if !has_party(parties, party_id) {
            assert forall|i: int| 0 <= i < parties.len() implies (#[trigger] parties[i]).id
                != party_id by {
                if i > 0 {
                    assert(parties.drop_first()[i - 1] == parties[i]);
                }
            }
        }
    }
}

/// A forward scan that finds the id at `i` with no earlier hit agrees
/// with `party_index`.
proof fn lemma_party_index_found(parties: Seq<PartyView>, party_id: u128, i: int)
    requires
        0 <= i < parties.len(),
        parties[i].id == party_id,
        forall|j: int| 0 <= j < i ==> (#[trigger] parties[j]).id != party_id,
    ensures
        party_index(parties, party_id) == i,
    decreases i,
{
    if i > 0 {
        lemma_party_index_found(parties.drop_first(), party_id, i - 1);
        assert(forall|k: int| 0 <= k < parties.drop_first().len()
            ==> #[trigger] parties.drop_first()[k] == parties[k + 1]);
    }
}

/// A scan that finds no hit agrees with `party_index`.
proof fn lemma_party_index_missing(parties: Seq<PartyView>, party_id: u128)
    requires
        forall|j: int| 0 <= j < parties.len() ==> (#[trigger] parties[j]).id != party_id,
    ensures
        party_index(parties, party_id) == -1,
    decreases parties.len(),
{
    if parties.len() > 0 {
        assert(forall|k: int| 0 <= k < parties.drop_first().len()
            ==> #[trigger] parties.drop_first()[k] == parties[k + 1]);
        lemma_party_index_missing(parties.drop_first(), party_id);
    }
}

/// Manages the active parties and derives their ratings through the
/// configured aggregation strategy. Persistence is handed in per call.
pub struct PartyManager<S: PartyMmrStrategy> {
    parties: Vec<Party>,
    mmr_strategy: S,
}

impl<S: PartyMmrStrategy> View for PartyManager<S> {
    type V = Seq<PartyView>;

    closed spec fn view(&self) -> Seq<PartyView> {
        self.parties.deep_view()
    }
}

impl<S: PartyMmrStrategy> PartyManager<S> {
    /// A manager with no parties, aggregating with the given strategy.
    pub fn new(mmr_strategy: S) -> (m: PartyManager<S>)
        ensures
            m@ =~= Seq::<PartyView>::empty(),
            parties_wf(m@),
            m.strategy() == mmr_strategy,
    {
        let m = PartyManager { parties: Vec::new(), mmr_strategy };
        proof {
            assert(m@ =~= Seq::<PartyView>::empty());
        }
        m
    }

    /// The configured aggregation strategy.
    pub closed spec fn strategy(&self) -> S {
        self.mmr_strategy
    }

    /// The index of the party with this id, if one exists.
    fn find_party(&self, party_id: u128) -> (r: Option<usize>)
        ensures
            match r {
                Some(i) => i < self@.len() && self@[i as int].id == party_id && party_index(
                    self@,
                    party_id,
                ) == i,
                None => !has_party(self@, party_id),
            },
    {
        let mut i: usize = 0;
        while i < self.parties.len()
            invariant
                i <= self.parties@.len(),
                self@.len() == self.parties@.len(),
                forall|j: int| 0 <= j < i ==> (#[trigger] self@[j]).id != party_id,
            decreases self.parties@.len() - i,
        {
            if self.parties[i].id == party_id {
                proof {
                    lemma_party_index_found(self@, party_id, i as int);
                }
                return Some(i);
            }
            i += 1;
        }
        proof {
            lemma_party_index_missing(self@, party_id);
        }
        None
    }

    /// Whether any party counts the player among its members.
    fn player_has_party(&self, player_id: u128) -> (b: bool)
        ensures
            b == player_in_some_party(self@, player_id),
    {
        let mut i: usize = 0;
        while i < self.parties.len()
            invariant
                i <= self.parties@.len(),
                self@.len() == self.parties@.len(),
                forall|j: int| 0 <= j < i ==> !(#[trigger] self@[j]).member_ids.contains(
                    player_id,
                ),
            decreases self.parties@.len() - i,
        {
            if contains_id(&self.parties[i].member_ids, player_id) {
                proof {
                    assert(self@[i as int].member_ids.contains(player_id));
                }
                return true;
            }
            i += 1;
        }
        false
    }

    /// Creates a party led by `leader_id` at `now_ms`, persisting it
    /// first. Fails when the maximum size is zero, when the leader
    /// already belongs to a party, or when persistence refuses; on
    /// failure the manager is unchanged.
    pub fn create_party<P: PersistenceAdapter>(
        &mut self,
        persistence: &mut P,
        leader_id: u128,
        max_size: usize,
        now_ms: i64,
    ) -> (r: Result<Party, MatchForgeError>)
        requires
            parties_wf(old(self)@),
        ensures
            parties_wf(final(self)@),
            match r {
                Ok(p) => {
                    &&& max_size >= 1
                    &&& !player_in_some_party(old(self)@, leader_id)
                    &&& p@.leader_id == leader_id
                    &&& p@.member_ids =~= seq![leader_id]
                    &&& p@.max_size == max_size
                    &&& p@.created_at == now_ms
                    &&& final(self)@ =~= old(self)@.push(p@)
                    &&& final(persistence).state() == (crate::persistence::StoreView {
                        parties: old(persistence).state().parties.insert(p@.id, p@),
                        ..old(persistence).state()
                    })
                },
                Err(_) => final(self)@ == old(self)@,
            },
            max_size == 0 ==> (r matches Err(MatchForgeError::InvalidPartyOperation(_)))
                && final(persistence).state() == old(persistence).state(),
            max_size > 0 && player_in_some_party(old(self)@, leader_id) ==> (r matches Err(
                MatchForgeError::InvalidPartyOperation(_),
            )) && final(persistence).state() == old(persistence).state(),
    {
        if max_size == 0 {
            return Err(MatchForgeError::InvalidPartyOperation(
                "a party must allow at least one member".to_string(),
            ));
        }
        if self.player_has_party(leader_id) {
            return Err(MatchForgeError::InvalidPartyOperation(
                "the leader already belongs to a party".to_string(),
            ));
        }
        let party = Party::new(leader_id, max_size, now_ms);
        // The generator's uniqueness is statistical; the table's id
        // uniqueness is not, so a colliding id is refused outright.
        if self.find_party(party.id).is_some() {
            return Err(MatchForgeError::InvalidPartyOperation(
                "the generated party id is already taken".to_string(),
            ));
        }
        proof {
            lemma_party_index_spec(self@, party@.id);
        }
        match persistence.save_party(&party) {
            Ok(()) => {},
            Err(e) => {
                return Err(e);
            },
        }
        let returned = party.clone();
        let ghost before = self@;
        let ghost pv = party@;
        self.parties.push(party);
        proof {
            assert(self@ =~= before.push(pv));
            assert(parties_wf(self@)) by {
                assert(forall|k: int| 0 <= k < before.len() ==> #[trigger] self@[k] == before[k]);
                assert forall|i: int, j: int, p: u128|
                    0 <= i < j < self@.len() implies !(#[trigger] self@[i].member_ids.contains(p)
                    && #[trigger] self@[j].member_ids.contains(p)) by {
                    if j == self@.len() - 1 {
                        if self@[i].member_ids.contains(p) && self@[j].member_ids.contains(p) {
                            assert(pv.member_ids[0] == leader_id);
                            assert(p == leader_id);
                            assert(player_in_some_party(before, leader_id));
                        }
                    }
                }
            }
        }
        Ok(returned)
    }

    /// Adds a member to the party, persisting the grown party first.
    /// Fails when the party is missing, full, already counts the member,
    /// the member belongs to another party, or persistence refuses; on
    /// failure the manager is unchanged.
    pub fn add_member<P: PersistenceAdapter>(
        &mut self,
        persistence: &mut P,
        party_id: u128,
        player_id: u128,
    ) -> (r: Result<(), MatchForgeError>)
        requires
            parties_wf(old(self)@),
        ensures
            parties_wf(final(self)@),
            match r {
                Ok(()) => {
                    let i = party_index(old(self)@, party_id);
                    &&& has_party(old(self)@, party_id)
                    &&& old(self)@[i].member_ids.len() < old(self)@[i].max_size
                    &&& !player_in_some_party(old(self)@, player_id)
                    &&& final(self)@ =~= old(self)@.update(
                        i,
                        PartyView {
                            member_ids: old(self)@[i].member_ids.push(player_id),
                            ..old(self)@[i]
                        },
                    )
                    &&& final(persistence).state() == (crate::persistence::StoreView {
                        parties: old(persistence).state().parties.insert(
                            old(self)@[i].id,
                            final(self)@[i],
                        ),
                        ..old(persistence).state()
                    })
                },
                Err(e) => {
                    &&& final(self)@ == old(self)@
                    &&& (!has_party(old(self)@, party_id) ==> e is PartyNotFound)
                },
            },
            !has_party(old(self)@, party_id) ==> (r matches Err(MatchForgeError::PartyNotFound(
                id,
            )) && id == party_id) && final(persistence).state() == old(persistence).state(),
            has_party(old(self)@, party_id) && old(self)@[party_index(old(self)@, party_id)]
                .member_ids.len() >= old(self)@[party_index(old(self)@, party_id)].max_size ==> (
            r matches Err(MatchForgeError::PartyFull(cap)) && cap == old(self)@[party_index(
                old(self)@,
                party_id,
            )].max_size) && final(persistence).state() == old(persistence).state(),
            has_party(old(self)@, party_id) && old(self)@[party_index(old(self)@, party_id)]
                .member_ids.len() < old(self)@[party_index(old(self)@, party_id)].max_size
                && player_in_some_party(old(self)@, player_id) ==> (r matches Err(
                MatchForgeError::InvalidPartyOperation(_),
            )) && final(persistence).state() == old(persistence).state(),
    {
        let i = match self.find_party(party_id) {
            Some(i) => i,
            None => {
                return Err(MatchForgeError::PartyNotFound(party_id));
            },
        };
        if self.parties[i].is_full() {
            let cap = self.parties[i].max_size;
            return Err(MatchForgeError::PartyFull(cap));
        }
        if self.player_has_party(player_id) {
            return Err(MatchForgeError::InvalidPartyOperation(
                "the player already belongs to a party".to_string(),
            ));
        }
        let mut grown = self.parties[i].clone();
        grown.member_ids.push(player_id);
        let ghost gv = grown@;
        proof {
            assert(gv =~= (PartyView {
                member_ids: old(self)@[i as int].member_ids.push(player_id),
                ..old(self)@[i as int]
            }));
        }
        match persistence.save_party(&grown) {
            Ok(()) => {},
            Err(e) => {
                return Err(e);
            },
        }
        let _ = self.parties.remove(i);
        self.parties.insert(i, grown);
        proof {
            let before = old(self)@;
            assert(self@ =~= before.update(i as int, gv));
            assert(parties_wf(self@)) by {
                assert(forall|k: int| 0 <= k < before.len() && k != i ==> self@[k] == #[trigger]
                    before[k]);
                assert(gv.wf()) by {
                    assert(before[i as int].wf());
                    assert(gv.member_ids.drop_last() =~= before[i as int].member_ids);
                    assert(gv.member_ids.contains(gv.leader_id)) by {
                        let l = choose|l: int|
                            0 <= l < before[i as int].member_ids.len() && before[
                                i as int
                            ].member_ids[l] == before[i as int].leader_id;
                        assert(gv.member_ids[l] == gv.leader_id);
                    }
                    assert(gv.member_ids.no_duplicates()) by {
                        if !gv.member_ids.no_duplicates() {
                            assert(before[i as int].member_ids.contains(player_id)
                                || !before[i as int].member_ids.no_duplicates()) by {
                                let (a, b) = choose|a: int, b: int|
                                    0 <= a < b < gv.member_ids.len() && gv.member_ids[a]
                                        == gv.member_ids[b];
                                if b == gv.member_ids.len() - 1 {
                                    assert(before[i as int].member_ids[a] == player_id);
                                }
                            }
                            assert(player_in_some_party(before, player_id));
                        }
                    }
                }
                assert forall|a: int, b: int, p: u128|
                    0 <= a < b < self@.len() implies !(#[trigger] self@[a].member_ids.contains(p)
                    && #[trigger] self@[b].member_ids.contains(p)) by {
                    if self@[a].member_ids.contains(p) && self@[b].member_ids.contains(p) {
                        if a == i || b == i {
                            let idx = choose|idx: int|
                                0 <= idx < gv.member_ids.len() && gv.member_ids[idx] == p;
                            if idx < gv.member_ids.len() - 1 {
                                assert(before[i as int].member_ids.contains(p));
                            } else {
                                assert(p == player_id);
                                assert(player_in_some_party(before, p));
                            }
                        }
                    }
                }
            }
        }
        Ok(())
    }

    /// Removes a member. When the removal empties the party or removes
    /// its leader, the party is disbanded and deleted from persistence;
    /// otherwise the shrunk party is persisted. Fails when the party is
    /// missing, the player is not a member, or persistence refuses; on
    /// failure the manager is unchanged.
    pub fn remove_member<P: PersistenceAdapter>(
        &mut self,
        persistence: &mut P,
        party_id: u128,
        player_id: u128,
    ) -> (r: Result<(), MatchForgeError>)
        requires
            parties_wf(old(self)@),
        ensures
            parties_wf(final(self)@),
            match r {
                Ok(()) => {
                    let i = party_index(old(self)@, party_id);
                    let shrunk = old(self)@[i].member_ids.filter(|x: u128| x != player_id);
                    &&& has_party(old(self)@, party_id)
                    &&& old(self)@[i].member_ids.contains(player_id)
                    &&& if player_id == old(self)@[i].leader_id || shrunk.len() == 0 {
                        final(self)@ =~= old(self)@.remove(i)
                    } else {
                        final(self)@ =~= old(self)@.update(
                            i,
                            PartyView { member_ids: shrunk, ..old(self)@[i] },
                        )
                    }
                },
                Err(e) => {
                    &&& final(self)@ == old(self)@
                    &&& (!has_party(old(self)@, party_id) ==> e is PartyNotFound)
                },
            },
            !has_party(old(self)@, party_id) ==> (r matches Err(MatchForgeError::PartyNotFound(
                id,
            )) && id == party_id) && final(persistence).state() == old(persistence).state(),
            has_party(old(self)@, party_id) && !old(self)@[party_index(old(self)@, party_id)]
                .member_ids.contains(player_id) ==> (r matches Err(
                MatchForgeError::InvalidPartyOperation(_),
            )) && final(persistence).state() == old(persistence).state(),
    {
        let i = match self.find_party(party_id) {
            Some(i) => i,
            None => {
                return Err(MatchForgeError::PartyNotFound(party_id));
            },
        };
        if !self.parties[i].has_member(player_id) {
            return Err(MatchForgeError::InvalidPartyOperation(
                "the player is not a member of the party".to_string(),
            ));
        }
        let ghost pred = |x: u128| x != player_id;
        let source = &self.parties[i];
        let mut members: Vec<u128> = Vec::new();
        let mut k: usize = 0;
        let ghost sv = self@[i as int].member_ids;
        proof {
            reveal(Seq::filter);
            assert(sv.take(0) =~= Seq::<u128>::empty());
            assert(Seq::<u128>::empty().filter(pred) =~= Seq::<u128>::empty());
        }
        while k < source.member_ids.len()
            invariant
                k <= source.member_ids@.len(),
                source.member_ids@ == sv,
                pred == (|x: u128| x != player_id),
                members@ == sv.take(k as int).filter(pred),
            decreases source.member_ids@.len() - k,
        {
            let ghost taken = sv.take(k as int);
            proof {
                crate::persistence::lemma_filter_push(taken, sv[k as int], pred);
                assert(sv.take(k + 1) =~= taken.push(sv[k as int]));
            }
            if source.member_ids[k] != player_id {
                let ghost prev = members@;
                members.push(source.member_ids[k]);
                proof {
                    assert(members@ =~= prev.push(sv[k as int]));
                }
            }
            k += 1;
        }
        proof {
            assert(sv.take(sv.len() as int) =~= sv);
        }
        let disband = members.len() == 0 || player_id == source.leader_id;
        if disband {
            match persistence.delete_party(party_id) {
                Ok(()) => {},
                Err(e) => {
                    return Err(e);
                },
            }
            self.parties.remove(i);
            proof {
                let before = old(self)@;
                assert(self@ =~= before.remove(i as int));
                assert(parties_wf(self@)) by {
                    assert(forall|k2: int| 0 <= k2 < i ==> self@[k2] == #[trigger] before[k2]);
                    assert(forall|k2: int| i <= k2 < self@.len() ==> self@[k2] == #[trigger]
                        before[k2 + 1]);
                }
            }
            Ok(())
        } else {
            let shrunk = Party {
                id: source.id,
                leader_id: source.leader_id,
                member_ids: members,
                max_size: source.max_size,
                created_at: source.created_at,
            };
            let ghost gv = shrunk@;
            match persistence.save_party(&shrunk) {
                Ok(()) => {},
                Err(e) => {
                    return Err(e);
                },
            }
            let _ = self.parties.remove(i);
            self.parties.insert(i, shrunk);
            proof {
                let before = old(self)@;
                let pred = |x: u128| x != player_id;
                assert(self@ =~= before.update(i as int, gv));
                assert(gv.member_ids == sv.filter(pred));
                assert(parties_wf(self@)) by {
                    assert(forall|k2: int| 0 <= k2 < before.len() && k2 != i ==> self@[k2]
                        == #[trigger] before[k2]);
                    assert(gv.wf()) by {
                        sv.lemma_filter_len(pred);
                        assert(gv.member_ids.contains(gv.leader_id)) by {
                            let l = choose|l: int| 0 <= l < sv.len() && sv[l] == gv.leader_id;
                            assert(pred(sv[l]));
                            sv.lemma_filter_contains(pred, l);
                        }
                        assert(gv.member_ids.no_duplicates()) by {
                            lemma_filter_no_duplicates(sv, pred);
                        }
                    }
                    assert forall|a: int, b: int, p: u128|
                        0 <= a < b < self@.len() implies !(#[trigger] self@[a].member_ids.contains(
                        p,
                    ) && #[trigger] self@[b].member_ids.contains(p)) by {
                        if self@[a].member_ids.contains(p) && self@[b].member_ids.contains(p) {
                            if a == i || b == i {
                                let idx = choose|idx: int|
                                    0 <= idx < gv.member_ids.len() && gv.member_ids[idx] == p;
                                crate::persistence::lemma_filter_member_of(sv, pred, idx);
                                assert(before[i as int].member_ids.contains(p));
                            }
                        }
                    }
                }
            }
            Ok(())
        }
    }

    /// Derives the party's rating: each member's stored rating is loaded
    /// (members without one, or whose load fails, are skipped), clamped
    /// into the representation bounds, and folded through the configured
    /// aggregation strategy, whose own contract pins the fold exactly.
    pub fn calculate_party_rating<P: PersistenceAdapter>(
        &self,
        persistence: &P,
        party_id: u128,
    ) -> (r: Result<Rating, MatchForgeError>)
        ensures
            match r {
                Ok(rating) => has_party(self@, party_id) && rating.wf() && rating
                    == self.strategy().aggregate_spec(
                    collected_ratings(
                        self@[party_index(self@, party_id)].member_ids,
                        persistence.state().ratings,
                    ),
                ),
                Err(e) => !has_party(self@, party_id) ==> (e matches
                    MatchForgeError::PartyNotFound(id) && id == party_id),
            },
            !has_party(self@, party_id) ==> r is Err,
    {
        let i = match self.find_party(party_id) {
            Some(i) => i,
            None => {
                return Err(MatchForgeError::PartyNotFound(party_id));
            },
        };
        let members = &self.parties[i].member_ids;
        let ghost stored = persistence.state().ratings;
        let mut ratings: Vec<(u128, Rating)> = Vec::new();
        let mut k: usize = 0;
        proof {
            assert(members@.take(0) =~= Seq::<u128>::empty());
            assert(ratings@ =~= collected_ratings(members@.take(0), stored));
        }
        while k < members.len()
            invariant
                k <= members@.len(),
                has_party(self@, party_id),
                party_index(self@, party_id) == i as int,
                i < self@.len(),
                stored == persistence.state().ratings,
                members@ == self@[party_index(self@, party_id)].member_ids,
                forall|j: int| 0 <= j < ratings@.len() ==> (#[trigger] ratings@[j]).1.wf(),
                ratings@ == collected_ratings(members@.take(k as int), stored),
            decreases members@.len() - k,
        {
            let pid = members[k];
            proof {
                assert(members@.take(k + 1).drop_last() =~= members@.take(k as int));
                assert(members@.take(k + 1).last() == members@[k as int]);
            }
            // A load the store refuses fails the whole call, so a
            // successful result is the aggregate of exactly the stored
            // member ratings.
            match persistence.load_player_rating(pid) {
                Ok(Some(found)) => {
                    let clamped = Rating::new(found.rating, found.deviation, found.volatility);
                    let ghost prev = ratings@;
                    ratings.push((pid, clamped));
                    proof {
                        assert(forall|j: int| 0 <= j < prev.len() ==> ratings@[j] == #[trigger]
                            prev[j]);
                        assert(ratings@ =~= prev.push((pid, clamped)));
                    }
                },
                Ok(None) => {},
                Err(e) => {
                    return Err(e);
                },
            }
            k += 1;
        }
        proof {
            assert(members@.take(members@.len() as int) =~= members@);
        }
        Ok(self.mmr_strategy.calculate_party_rating(&ratings))
    }

    /// The party the player belongs to, if any.
    pub fn get_player_party(&self, player_id: u128) -> (r: Option<Party>)
        ensures
            match r {
                Some(p) => player_in_some_party(self@, player_id) && p@.member_ids.contains(
                    player_id,
                ) && self@.contains(p@),
                None => !player_in_some_party(self@, player_id),
            },
    {
        let mut i: usize = 0;
        while i < self.parties.len()
            invariant
                i <= self.parties@.len(),
                self@.len() == self.parties@.len(),
                forall|j: int| 0 <= j < i ==> !(#[trigger] self@[j]).member_ids.contains(
                    player_id,
                ),
            decreases self.parties@.len() - i,
        {
            if contains_id(&self.parties[i].member_ids, player_id) {
                let found = self.parties[i].clone();
                proof {
                    assert(self@[i as int].member_ids.contains(player_id));
                    assert(self@.contains(found@));
                }
                return Some(found);
            }
            i += 1;
        }
        None
    }
}

/// The member ratings the store holds, in member order, clamped into
/// the representation bounds: what the aggregation strategy is folded
/// over.
pub open spec fn collected_ratings(
    members: Seq<u128>,
    ratings: Map<u128, Rating>,
) -> Seq<(u128, Rating)>
    decreases members.len(),
{
    if members.len() == 0 {
        Seq::empty()
    } else {
        let rest = collected_ratings(members.drop_last(), ratings);
        if ratings.contains_key(members.last()) {
            rest.push((members.last(), crate::rating::clamp_rating_spec(ratings[members.last()])))
        } else {
            rest
        }
    }
}

/// Every collected rating is well formed: clamping makes it so.
proof fn lemma_collected_ratings_wf(members: Seq<u128>, ratings: Map<u128, Rating>)
    ensures
        forall|j: int| 0 <= j < collected_ratings(members, ratings).len() ==> (
        #[trigger] collected_ratings(members, ratings)[j]).1.wf(),
    decreases members.len(),
{
    if members.len() > 0 {
        lemma_collected_ratings_wf(members.drop_last(), ratings);
        let c = collected_ratings(members, ratings);
        let rest = collected_ratings(members.drop_last(), ratings);
        assert forall|j: int| 0 <= j < c.len() implies (#[trigger] c[j]).1.wf() by {
            if ratings.contains_key(members.last()) && j == c.len() - 1 {
                assert(c[j].1 == crate::rating::clamp_rating_spec(ratings[members.last()]));
            } else {
                assert(c[j] == rest[j]);
            }
        }
    }
}

/// Filtering preserves distinctness of a sequence.
proof fn lemma_filter_no_duplicates<A>(s: Seq<A>, pred: spec_fn(A) -> bool)
    requires
        s.no_duplicates(),
    ensures
        s.filter(pred).no_duplicates(),
    decreases s.len(),
{
    reveal(Seq::filter);
    if s.len() > 0 {
        assert(forall|k: int| 0 <= k < s.drop_last().len() ==> s.drop_last()[k] == #[trigger] s[k]);
        lemma_filter_no_duplicates(s.drop_last(), pred);
        if pred(s.last()) {
            let f = s.drop_last().filter(pred);
            assert(s.filter(pred) == f.push(s.last()));
            assert(f.push(s.last()).no_duplicates()) by {
                assert forall|a: int, b: int|
                    0 <= a < b < f.push(s.last()).len() implies f.push(s.last())[a] != f.push(
                    s.last(),
                )[b] by {
                    if b == f.len() {
                        if f[a] == s.last() {
                            crate::persistence::lemma_filter_member_of(s.drop_last(), pred, a);
                        }
                    }
                }
            }
        }
    }
}

} // verus!
