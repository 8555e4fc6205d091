//! The persistence port: the storage operations the core depends on,
//! each with an exact contract over an abstract store view, and the
//! in-memory adapter that implements the port for development and tests.
//!
//! Every operation may fail with an opaque storage error; a contract
//! promises an effect only for the successful outcome.

use vstd::prelude::*;

verus! {

broadcast use vstd::std_specs::hash::group_hash_axioms;

use std::collections::HashMap;
use crate::entry::{EntryView, QueueEntry};
use crate::error::MatchForgeError;
use crate::lobby::{Lobby, LobbyView};
use crate::party::{Party, PartyView};
use crate::rating::Rating;

/// The abstract content of a store: player ratings by id, the queue
/// entries in admission order, parties and live lobbies by id, and the
/// append-only match history.
#[verifier::ext_equal]
pub ghost struct StoreView {
    pub ratings: Map<u128, Rating>,
    pub entries: Seq<EntryView>,
    pub parties: Map<u128, PartyView>,
    pub lobbies: Map<u128, LobbyView>,
    pub history: Seq<LobbyView>,
}

/// Whether an entry belongs to the queue named `queue_name`.
pub open spec fn entry_in_queue(e: EntryView, queue_name: Seq<char>) -> bool {
    e.queue_name == queue_name
}

/// Whether an entry carries the participant `player_id`.
pub open spec fn entry_has_player(e: EntryView, player_id: u128) -> bool {
    e.player_ids.contains(player_id)
}

/// The persistence port. The core calls these operations and never
/// inspects how they are implemented; implementations are expected to be
/// atomic per call.
pub trait PersistenceAdapter: Sized {
    /// The abstract content of the store.
    spec fn state(&self) -> StoreView;

    /// Upserts the rating of one player.
    fn save_player_rating(&mut self, player_id: u128, rating: Rating) -> (r: Result<
        (),
        MatchForgeError,
    >)
        ensures
            r is Ok ==> final(self).state() == (StoreView {
                ratings: old(self).state().ratings.insert(player_id, rating),
                ..old(self).state()
            }),
            r is Err ==> final(self).state() == old(self).state(),
    ;

    /// Looks a player's rating up.
    fn load_player_rating(&self, player_id: u128) -> (r: Result<Option<Rating>, MatchForgeError>)
        ensures
            match r {
                Ok(found) => found == if self.state().ratings.contains_key(player_id) {
                    Some(self.state().ratings[player_id])
                } else {
                    None::<Rating>
                },
                Err(_) => true,
            },
    ;

    /// Appends one queue entry to the store.
    fn save_queue_entry(&mut self, entry: &QueueEntry) -> (r: Result<(), MatchForgeError>)
        ensures
            r is Ok ==> final(self).state() == (StoreView {
                entries: old(self).state().entries.push(entry@),
                ..old(self).state()
            }),
            r is Err ==> final(self).state() == old(self).state(),
    ;

    /// The stored entries of one queue, in admission order.
    fn load_queue_entries(&self, queue_name: &String) -> (r: Result<Vec<QueueEntry>, MatchForgeError>)
        ensures
            match r {
                Ok(v) => v.deep_view() == self.state().entries.filter(
                    |e: EntryView| entry_in_queue(e, queue_name@),
                ),
                Err(_) => true,
            },
    ;

    /// Removes every stored entry whose participant list contains
    /// `player_id`, in every queue.
    fn delete_queue_entry(&mut self, player_id: u128) -> (r: Result<(), MatchForgeError>)
        ensures
            r is Ok ==> final(self).state() == (StoreView {
                entries: old(self).state().entries.filter(
                    |e: EntryView| !entry_has_player(e, player_id),
                ),
                ..old(self).state()
            }),
            r is Err ==> final(self).state() == old(self).state(),
    ;

    /// Upserts one party.
    fn save_party(&mut self, party: &Party) -> (r: Result<(), MatchForgeError>)
        ensures
            r is Ok ==> final(self).state() == (StoreView {
                parties: old(self).state().parties.insert(party@.id, party@),
                ..old(self).state()
            }),
            r is Err ==> final(self).state() == old(self).state(),
    ;

    /// Looks a party up.
    fn load_party(&self, party_id: u128) -> (r: Result<Option<Party>, MatchForgeError>)
        ensures
            match r {
                Ok(Some(p)) => self.state().parties.contains_key(party_id) && p@ == self.state()
                    .parties[party_id],
                Ok(None) => !self.state().parties.contains_key(party_id),
                Err(_) => true,
            },
    ;

    /// Removes one party; removing an absent party is an error.
    fn delete_party(&mut self, party_id: u128) -> (r: Result<(), MatchForgeError>)
        ensures
            r is Ok ==> old(self).state().parties.contains_key(party_id) && final(self).state()
                == (StoreView {
                parties: old(self).state().parties.remove(party_id),
                ..old(self).state()
            }),
            r is Err ==> final(self).state() == old(self).state(),
    ;

    /// Upserts one live lobby.
    fn save_lobby(&mut self, lobby: &Lobby) -> (r: Result<(), MatchForgeError>)
        ensures
            r is Ok ==> final(self).state() == (StoreView {
                lobbies: old(self).state().lobbies.insert(lobby@.id, lobby@),
                ..old(self).state()
            }),
            r is Err ==> final(self).state() == old(self).state(),
    ;

    /// Looks a live lobby up.
    fn load_lobby(&self, lobby_id: u128) -> (r: Result<Option<Lobby>, MatchForgeError>)
        ensures
            match r {
                Ok(Some(l)) => self.state().lobbies.contains_key(lobby_id) && l@ == self.state()
                    .lobbies[lobby_id],
                Ok(None) => !self.state().lobbies.contains_key(lobby_id),
                Err(_) => true,
            },
    ;

    /// Removes one live lobby; removing an absent lobby is an error.
    fn delete_lobby(&mut self, lobby_id: u128) -> (r: Result<(), MatchForgeError>)
        ensures
            r is Ok ==> old(self).state().lobbies.contains_key(lobby_id) && final(self).state()
                == (StoreView {
                lobbies: old(self).state().lobbies.remove(lobby_id),
                ..old(self).state()
            }),
            r is Err ==> final(self).state() == old(self).state(),
    ;

    /// Appends a closed lobby to the immutable match history.
    fn save_match_result(&mut self, lobby: &Lobby) -> (r: Result<(), MatchForgeError>)
        ensures
            r is Ok ==> final(self).state() == (StoreView {
                history: old(self).state().history.push(lobby@),
                ..old(self).state()
            }),
            r is Err ==> final(self).state() == old(self).state(),
    ;
}

/// The in-memory adapter: plain maps and vectors behind the port, for
/// development and tests. Every operation succeeds.
pub struct InMemoryAdapter {
    player_ratings: HashMap<u128, Rating>,
    queue_entries: Vec<QueueEntry>,
    parties: HashMap<u128, Party>,
    lobbies: HashMap<u128, Lobby>,
    match_history: Vec<Lobby>,
}

impl InMemoryAdapter {
    /// An empty store.
    pub fn new() -> (a: InMemoryAdapter)
        ensures
            a.state() == (StoreView {
                ratings: Map::<u128, Rating>::empty(),
                entries: Seq::<EntryView>::empty(),
                parties: Map::<u128, PartyView>::empty(),
                lobbies: Map::<u128, LobbyView>::empty(),
                history: Seq::<LobbyView>::empty(),
            }),
    {
        let a = InMemoryAdapter {
            player_ratings: HashMap::new(),
            queue_entries: Vec::new(),
            parties: HashMap::new(),
            lobbies: HashMap::new(),
            match_history: Vec::new(),
        };
        proof {
            assert(a.state().ratings =~= Map::<u128, Rating>::empty());
            assert(a.state().entries =~= Seq::<EntryView>::empty());
            assert(a.state().parties =~= Map::<u128, PartyView>::empty());
            assert(a.state().lobbies =~= Map::<u128, LobbyView>::empty());
            assert(a.state().history =~= Seq::<LobbyView>::empty());
            assert(a.state() =~= (StoreView {
                ratings: Map::<u128, Rating>::empty(),
                entries: Seq::<EntryView>::empty(),
                parties: Map::<u128, PartyView>::empty(),
                lobbies: Map::<u128, LobbyView>::empty(),
                history: Seq::<LobbyView>::empty(),
            }));
        }
        a
    }
}

impl Default for InMemoryAdapter {
    /// The default store is the empty one.
    fn default() -> (a: InMemoryAdapter)
        ensures
            a.state() == (StoreView {
                ratings: Map::<u128, Rating>::empty(),
                entries: Seq::<EntryView>::empty(),
                parties: Map::<u128, PartyView>::empty(),
                lobbies: Map::<u128, LobbyView>::empty(),
                history: Seq::<LobbyView>::empty(),
            }),
    {
        InMemoryAdapter::new()
    }
}

impl PersistenceAdapter for InMemoryAdapter {
    closed spec fn state(&self) -> StoreView {
        StoreView {
            ratings: self.player_ratings@,
            entries: self.queue_entries.deep_view(),
            parties: self.parties@.map_values(|p: Party| p@),
            lobbies: self.lobbies@.map_values(|l: Lobby| l@),
            history: self.match_history.deep_view(),
        }
    }

    fn save_player_rating(&mut self, player_id: u128, rating: Rating) -> (r: Result<
        (),
        MatchForgeError,
    >) {
        self.player_ratings.insert(player_id, rating);
        proof {
            assert(self.state() =~= (StoreView {
                ratings: old(self).state().ratings.insert(player_id, rating),
                ..old(self).state()
            }));
        }
        Ok(())
    }

    fn load_player_rating(&self, player_id: u128) -> (r: Result<Option<Rating>, MatchForgeError>) {
        match self.player_ratings.get(&player_id) {
            Some(rating) => Ok(Some(*rating)),
            None => Ok(None),
        }
    }

    fn save_queue_entry(&mut self, entry: &QueueEntry) -> (r: Result<(), MatchForgeError>) {
        let ghost prev = self.queue_entries.deep_view();
        self.queue_entries.push(entry.clone());
        proof {
            assert(self.queue_entries.deep_view() =~= prev.push(entry@));
            assert(self.state() =~= (StoreView {
                entries: old(self).state().entries.push(entry@),
                ..old(self).state()
            }));
        }
        Ok(())
    }

    fn load_queue_entries(&self, queue_name: &String) -> (r: Result<Vec<QueueEntry>, MatchForgeError>) {
        let ghost pred = |e: EntryView| entry_in_queue(e, queue_name@);
        let mut out: Vec<QueueEntry> = Vec::new();
        let mut i: usize = 0;
        proof {
            assert(self.queue_entries.deep_view().take(0) =~= Seq::<EntryView>::empty());
            reveal(Seq::filter);
            assert(Seq::<EntryView>::empty().filter(pred) =~= Seq::<EntryView>::empty());
        }
        while i < self.queue_entries.len()
            invariant
                i <= self.queue_entries@.len(),
                pred == (|e: EntryView| entry_in_queue(e, queue_name@)),
                out.deep_view() == self.queue_entries.deep_view().take(i as int).filter(pred),
            decreases self.queue_entries@.len() - i,
        {
            let ghost taken = self.queue_entries.deep_view().take(i as int);
            let e = &self.queue_entries[i];
            if e.queue_name == *queue_name {
                let ghost prev_out = out.deep_view();
                out.push(e.clone());
                proof {
                    assert(out.deep_view() =~= prev_out.push(e@));
                }
            }
            proof {
                lemma_filter_push(taken, self.queue_entries.deep_view()[i as int], pred);
                assert(self.queue_entries.deep_view().take(i + 1) =~= taken.push(
                    self.queue_entries.deep_view()[i as int],
                ));
                assert(pred(e@) == entry_in_queue(e@, queue_name@));
            }
            i += 1;
        }
        proof {
            assert(self.queue_entries.deep_view().take(self.queue_entries@.len() as int)
                =~= self.queue_entries.deep_view());
        }
        Ok(out)
    }

    fn delete_queue_entry(&mut self, player_id: u128) -> (r: Result<(), MatchForgeError>) {
        let ghost pred = |e: EntryView| !entry_has_player(e, player_id);
        let mut kept: Vec<QueueEntry> = Vec::new();
        let mut i: usize = 0;
        proof {
            assert(self.queue_entries.deep_view().take(0) =~= Seq::<EntryView>::empty());
            reveal(Seq::filter);
            assert(Seq::<EntryView>::empty().filter(pred) =~= Seq::<EntryView>::empty());
        }
        while i < self.queue_entries.len()
            invariant
                i <= self.queue_entries@.len(),
                pred == (|e: EntryView| !entry_has_player(e, player_id)),
                self.queue_entries == old(self).queue_entries,
                self.player_ratings == old(self).player_ratings,
                self.parties == old(self).parties,
                self.lobbies == old(self).lobbies,
                self.match_history == old(self).match_history,
                kept.deep_view() == self.queue_entries.deep_view().take(i as int).filter(pred),
            decreases self.queue_entries@.len() - i,
        {
            let ghost taken = self.queue_entries.deep_view().take(i as int);
            let e = &self.queue_entries[i];
            if !crate::entry::contains_id(&e.player_ids, player_id) {
                let ghost prev_kept = kept.deep_view();
                kept.push(e.clone());
                proof {
                    assert(kept.deep_view() =~= prev_kept.push(e@));
                }
            }
            proof {
                lemma_filter_push(taken, self.queue_entries.deep_view()[i as int], pred);
                assert(self.queue_entries.deep_view().take(i + 1) =~= taken.push(
                    self.queue_entries.deep_view()[i as int],
                ));
                assert(pred(e@) == !entry_has_player(e@, player_id));
            }
            i += 1;
        }
        proof {
            assert(self.queue_entries.deep_view().take(self.queue_entries@.len() as int)
                =~= self.queue_entries.deep_view());
        }
        self.queue_entries = kept;
        proof {
            assert(self.state() =~= (StoreView {
                entries: old(self).state().entries.filter(
                    |e: EntryView| !entry_has_player(e, player_id),
                ),
                ..old(self).state()
            }));
        }
        Ok(())
    }

    fn save_party(&mut self, party: &Party) -> (r: Result<(), MatchForgeError>) {
        self.parties.insert(party.id, party.clone());
        proof {
            assert(self.state().parties =~= old(self).state().parties.insert(party@.id, party@));
            assert(self.state() =~= (StoreView {
                parties: old(self).state().parties.insert(party@.id, party@),
                ..old(self).state()
            }));
        }
        Ok(())
    }

    fn load_party(&self, party_id: u128) -> (r: Result<Option<Party>, MatchForgeError>) {
        match self.parties.get(&party_id) {
            Some(party) => Ok(Some(party.clone())),
            None => Ok(None),
        }
    }

    fn delete_party(&mut self, party_id: u128) -> (r: Result<(), MatchForgeError>) {
        if !self.parties.contains_key(&party_id) {
            return Err(MatchForgeError::PartyNotFound(party_id));
        }
        self.parties.remove(&party_id);
        proof {
            assert(self.state().parties =~= old(self).state().parties.remove(party_id));
            assert(self.state() =~= (StoreView {
                parties: old(self).state().parties.remove(party_id),
                ..old(self).state()
            }));
        }
        Ok(())
    }

    fn save_lobby(&mut self, lobby: &Lobby) -> (r: Result<(), MatchForgeError>) {
        self.lobbies.insert(lobby.id, lobby.clone());
        proof {
            assert(self.state().lobbies =~= old(self).state().lobbies.insert(lobby@.id, lobby@));
            assert(self.state() =~= (StoreView {
                lobbies: old(self).state().lobbies.insert(lobby@.id, lobby@),
                ..old(self).state()
            }));
        }
        Ok(())
    }

    fn load_lobby(&self, lobby_id: u128) -> (r: Result<Option<Lobby>, MatchForgeError>) {
        match self.lobbies.get(&lobby_id) {
            Some(lobby) => Ok(Some(lobby.clone())),
            None => Ok(None),
        }
    }

    fn delete_lobby(&mut self, lobby_id: u128) -> (r: Result<(), MatchForgeError>) {
        if !self.lobbies.contains_key(&lobby_id) {
            return Err(MatchForgeError::LobbyNotFound(lobby_id));
        }
        self.lobbies.remove(&lobby_id);
        proof {
            assert(self.state().lobbies =~= old(self).state().lobbies.remove(lobby_id));
            assert(self.state() =~= (StoreView {
                lobbies: old(self).state().lobbies.remove(lobby_id),
                ..old(self).state()
            }));
        }
        Ok(())
    }

    fn save_match_result(&mut self, lobby: &Lobby) -> (r: Result<(), MatchForgeError>) {
        let ghost prev = self.match_history.deep_view();
        self.match_history.push(lobby.clone());
        proof {
            assert(self.match_history.deep_view() =~= prev.push(lobby@));
            assert(self.state() =~= (StoreView {
                history: old(self).state().history.push(lobby@),
                ..old(self).state()
            }));
        }
        Ok(())
    }
}

/// An element of a filtered sequence is an element of the sequence it
/// was filtered from.
pub proof fn lemma_filter_member_of<A>(s: Seq<A>, pred: spec_fn(A) -> bool, idx: int)
    requires
        0 <= idx < s.filter(pred).len(),
    ensures
        s.contains(s.filter(pred)[idx]),
    decreases s.len(),
{
    reveal(Seq::filter);
    if s.len() > 0 {
        let f = s.drop_last().filter(pred);
        if pred(s.last()) && idx == f.len() {
            assert(s[s.len() - 1] == s.filter(pred)[idx]);
        } else {
            lemma_filter_member_of(s.drop_last(), pred, idx);
            let j = choose|j: int|
                0 <= j < s.drop_last().len() && s.drop_last()[j] == s.drop_last().filter(pred)[idx];
            assert(s[j] == s.filter(pred)[idx]);
        }
    }
}

/// Two filters in a row are the one filter by the conjunction.
pub proof fn lemma_filter_compose<A>(
    s: Seq<A>,
    p1: spec_fn(A) -> bool,
    p2: spec_fn(A) -> bool,
    p12: spec_fn(A) -> bool,
)
    requires
        forall|x: A| #[trigger] p12(x) == (p1(x) && p2(x)),
    ensures
        s.filter(p1).filter(p2) == s.filter(p12),
    decreases s.len(),
{
    reveal(Seq::filter);
    if s.len() > 0 {
        lemma_filter_compose(s.drop_last(), p1, p2, p12);
        let e = s.last();
        assert(p12(e) == (p1(e) && p2(e)));
        if p1(e) {
            assert(s.filter(p1) == s.drop_last().filter(p1).push(e));
            assert(s.filter(p1).drop_last() =~= s.drop_last().filter(p1));
            if p2(e) {
                assert(s.filter(p1).filter(p2) == s.drop_last().filter(p1).filter(p2).push(e));
            }
        }
    }
}

/// Filtering one more element keeps the element exactly when the
/// predicate accepts it.
pub proof fn lemma_filter_push<A>(s: Seq<A>, e: A, pred: spec_fn(A) -> bool)
    ensures
        s.push(e).filter(pred) == if pred(e) {
            s.filter(pred).push(e)
        } else {
            s.filter(pred)
        },
{
    reveal(Seq::filter);
    assert(s.push(e).drop_last() =~= s);
    assert(s.push(e).last() == e);
}

} // verus!
