//! Parties: pre-formed groups of players who queue together. A party has
//! a leader, an ordered member list that contains the leader, and a
//! maximum size its member count never exceeds.

use vstd::prelude::*;

verus! {

use crate::entry::{clone_ids, contains_id};
use crate::idgen::fresh_id;

/// The mathematical content of a `Party`.
#[verifier::ext_equal]
pub ghost struct PartyView {
    pub id: u128,
    pub leader_id: u128,
    pub member_ids: Seq<u128>,
    pub max_size: usize,
    pub created_at: i64,
}

impl PartyView {
    /// The party invariant: the leader is a member, members are distinct,
    /// and the member count never exceeds the maximum size.
    pub open spec fn wf(self) -> bool {
        &&& self.member_ids.contains(self.leader_id)
        &&& self.member_ids.no_duplicates()
        &&& self.member_ids.len() <= self.max_size
    }
}

/// A party of players queuing together.
#[derive(Debug)]
pub struct Party {
    /// Opaque id of the party.
    pub id: u128,
    /// The member who created and owns the party.
    pub leader_id: u128,
    /// The members, in joining order; the leader is always among them.
    pub member_ids: Vec<u128>,
    /// The largest member count the party accepts.
    pub max_size: usize,
    /// When the party was created, in unix milliseconds.
    pub created_at: i64,
}

impl View for Party {
    type V = PartyView;

    open spec fn view(&self) -> PartyView {
        PartyView {
            id: self.id,
            leader_id: self.leader_id,
            member_ids: self.member_ids@,
            max_size: self.max_size,
            created_at: self.created_at,
        }
    }
}

impl DeepView for Party {
    type V = PartyView;

    open spec fn deep_view(&self) -> PartyView {
        self@
    }
}

impl Clone for Party {
    /// A clone carries exactly the same party.
    fn clone(&self) -> (p: Party)
        ensures
            p@ == self@,
    {
        let p = Party {
            id: self.id,
            leader_id: self.leader_id,
            member_ids: clone_ids(&self.member_ids),
            max_size: self.max_size,
            created_at: self.created_at,
        };
        proof {
            assert(p@ =~= self@);
        }
        p
    }
}

impl Party {
    /// A fresh party holding only its leader, created at
    /// `created_at_ms`. The party id is freshly generated.
    pub fn new(leader_id: u128, max_size: usize, created_at_ms: i64) -> (p: Party)
        requires
            max_size >= 1,
        ensures
            p@.leader_id == leader_id,
            p@.member_ids =~= seq![leader_id],
            p@.max_size == max_size,
            p@.created_at == created_at_ms,
            p@.wf(),
    {
        let mut members: Vec<u128> = Vec::new();
        members.push(leader_id);
        let p = Party {
            id: fresh_id(),
            leader_id,
            member_ids: members,
            max_size,
            created_at: created_at_ms,
        };
        proof {
            assert(p@.member_ids =~= seq![leader_id]);
            assert(p@.member_ids.contains(leader_id)) by {
                assert(p@.member_ids[0] == leader_id);
            }
        }
        p
    }

    /// The current member count.
    pub fn size(&self) -> (n: usize)
        ensures
            n == self@.member_ids.len(),
    {
        self.member_ids.len()
    }

    /// Whether the party has reached its maximum size.
    pub fn is_full(&self) -> (b: bool)
        ensures
            b == (self@.member_ids.len() >= self@.max_size),
    {
        self.member_ids.len() >= self.max_size
    }

    /// Whether `player_id` is a member.
    pub fn has_member(&self, player_id: u128) -> (b: bool)
        ensures
            b == self@.member_ids.contains(player_id),
    {
        contains_id(&self.member_ids, player_id)
    }

    /// Whether `player_id` leads the party.
    pub fn is_leader(&self, player_id: u128) -> (b: bool)
        ensures
            b == (self@.leader_id == player_id),
    {
        self.leader_id == player_id
    }
}

} // verus!
