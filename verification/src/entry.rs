//! Queue entries: the admission record of one solo player or one
//! pre-formed party, with its derived rating, join time and matching
//! preferences.
//!
//! Contracts speak of entries through their mathematical views,
//! `EntryView` and `MetadataView`, where strings are character sequences
//! and vectors are sequences.

use vstd::prelude::*;

verus! {

use crate::idgen::fresh_id;
use crate::rating::Rating;

/// The mathematical content of `EntryMetadata`.
#[verifier::ext_equal]
pub ghost struct MetadataView {
    pub roles: Seq<Seq<char>>,
    pub region: Option<Seq<char>>,
    pub custom: Seq<(Seq<char>, Seq<char>)>,
}

/// Matching preferences attached to an entry: ordered role preferences, an
/// optional region tag, and an opaque key/value map for game-specific
/// needs.
#[derive(Debug)]
pub struct EntryMetadata {
    /// Role preferences, most preferred first (e.g. "tank", "healer").
    pub roles: Vec<String>,
    /// Region or latency bucket, if the player declared one.
    pub region: Option<String>,
    /// Opaque custom key/value pairs.
    pub custom: Vec<(String, String)>,
}

impl View for EntryMetadata {
    type V = MetadataView;

    open spec fn view(&self) -> MetadataView {
        MetadataView {
            roles: self.roles@.map_values(|s: String| s@),
            region: match self.region {
                Some(r) => Some(r@),
                None => None,
            },
            custom: self.custom@.map_values(|p: (String, String)| (p.0@, p.1@)),
        }
    }
}

/// The empty preferences: no roles, no region, nothing custom.
pub open spec fn empty_metadata_view() -> MetadataView {
    MetadataView { roles: Seq::empty(), region: None, custom: Seq::empty() }
}

impl EntryMetadata {
    /// Empty preferences: no roles, no region, nothing custom.
    pub fn empty() -> (m: EntryMetadata)
        ensures
            m@ =~= empty_metadata_view(),
    {
        EntryMetadata { roles: Vec::new(), region: None, custom: Vec::new() }
    }
}

impl Default for EntryMetadata {
    /// The default preferences are the empty ones.
    fn default() -> (m: EntryMetadata)
        ensures
            m@ =~= empty_metadata_view(),
    {
        EntryMetadata { roles: Vec::new(), region: None, custom: Vec::new() }
    }
}

impl Clone for EntryMetadata {
    /// A clone carries exactly the same preferences.
    fn clone(&self) -> (m: EntryMetadata)
        ensures
            m@ == self@,
    {
        let roles = clone_strings(&self.roles);
        let region = match &self.region {
            Some(r) => Some(r.clone()),
            None => None,
        };
        let custom = clone_pairs(&self.custom);
        let m = EntryMetadata { roles, region, custom };
        proof {
            assert(m@ =~= self@);
        }
        m
    }
}

/// Clones a vector of strings, value for value.
fn clone_strings(v: &Vec<String>) -> (r: Vec<String>)
    ensures
        r@ == v@,
{
    let mut r: Vec<String> = Vec::new();
    let mut i: usize = 0;
    while i < v.len()
        invariant
            i <= v.len(),
            r@ =~= v@.subrange(0, i as int),
        decreases v.len() - i,
    {
        r.push(v[i].clone());
        i += 1;
    }
    proof {
        assert(r@ =~= v@);
    }
    r
}

/// Clones a vector of string pairs, value for value.
fn clone_pairs(v: &Vec<(String, String)>) -> (r: Vec<(String, String)>)
    ensures
        r@ == v@,
{
    let mut r: Vec<(String, String)> = Vec::new();
    let mut i: usize = 0;
    while i < v.len()
        invariant
            i <= v.len(),
            r@ =~= v@.subrange(0, i as int),
        decreases v.len() - i,
    {
        let pair = (v[i].0.clone(), v[i].1.clone());
        proof {
            assert(pair == v@[i as int]);
        }
        r.push(pair);
        i += 1;
    }
    proof {
        assert(r@ =~= v@);
    }
    r
}

/// The mathematical content of a `QueueEntry`.
#[verifier::ext_equal]
pub ghost struct EntryView {
    pub id: u128,
    pub queue_name: Seq<char>,
    pub player_ids: Seq<u128>,
    pub party_id: Option<u128>,
    pub average_rating: Rating,
    pub joined_at: i64,
    pub metadata: MetadataView,
}

/// An admission record in exactly one queue: a solo player or a party,
/// the rating the matcher sees, the join time, and preferences.
#[derive(Debug)]
pub struct QueueEntry {
    /// Opaque id of the entry itself.
    pub id: u128,
    /// The queue the entry sits in.
    pub queue_name: String,
    /// The participants, in order; at least one.
    pub player_ids: Vec<u128>,
    /// The party this entry represents, if it is a party entry.
    pub party_id: Option<u128>,
    /// The rating the matcher compares: the player's own, or the party's
    /// derived rating.
    pub average_rating: Rating,
    /// When the entry was admitted, in unix milliseconds.
    pub joined_at: i64,
    /// Matching preferences.
    pub metadata: EntryMetadata,
}

impl View for QueueEntry {
    type V = EntryView;

    open spec fn view(&self) -> EntryView {
        EntryView {
            id: self.id,
            queue_name: self.queue_name@,
            player_ids: self.player_ids@,
            party_id: self.party_id,
            average_rating: self.average_rating,
            joined_at: self.joined_at,
            metadata: self.metadata@,
        }
    }
}

impl DeepView for QueueEntry {
    type V = EntryView;

    open spec fn deep_view(&self) -> EntryView {
        self@
    }
}

impl Clone for QueueEntry {
    /// A clone carries exactly the same record.
    fn clone(&self) -> (e: QueueEntry)
        ensures
            e@ == self@,
    {
        let e = QueueEntry {
            id: self.id,
            queue_name: self.queue_name.clone(),
            player_ids: clone_ids(&self.player_ids),
            party_id: self.party_id,
            average_rating: self.average_rating,
            joined_at: self.joined_at,
            metadata: self.metadata.clone(),
        };
        proof {
            assert(e@ =~= self@);
        }
        e
    }
}

/// Whether the identifier `x` occurs in `v`.
pub(crate) fn contains_id(v: &Vec<u128>, x: u128) -> (b: bool)
    ensures
        b == v@.contains(x),
{
    let mut i: usize = 0;
    while i < v.len()
        invariant
            i <= v.len(),
            forall|j: int| 0 <= j < i ==> v@[j] != x,
        decreases v.len() - i,
    {
        if v[i] == x {
            return true;
        }
        i += 1;
    }
    false
}

/// Clones a vector of identifiers, value for value.
pub(crate) fn clone_ids(v: &Vec<u128>) -> (r: Vec<u128>)
    ensures
        r@ == v@,
{
    let mut r: Vec<u128> = Vec::new();
    let mut i: usize = 0;
    while i < v.len()
        invariant
            i <= v.len(),
            r@ =~= v@.subrange(0, i as int),
        decreases v.len() - i,
    {
        r.push(v[i]);
        i += 1;
    }
    proof {
        assert(r@ =~= v@);
    }
    r
}

impl QueueEntry {
    /// Admission record of one solo player, joined at `joined_at_ms`. The
    /// entry id is freshly generated.
    pub fn new_solo(
        queue_name: String,
        player_id: u128,
        rating: Rating,
        metadata: EntryMetadata,
        joined_at_ms: i64,
    ) -> (e: QueueEntry)
        ensures
            e@.queue_name == queue_name@,
            e@.player_ids =~= seq![player_id],
            e@.party_id is None,
            e@.average_rating == rating,
            e@.joined_at == joined_at_ms,
            e@.metadata == metadata@,
    {
        let mut players: Vec<u128> = Vec::new();
        players.push(player_id);
        QueueEntry {
            id: fresh_id(),
            queue_name,
            player_ids: players,
            party_id: None,
            average_rating: rating,
            joined_at: joined_at_ms,
            metadata,
        }
    }

    /// Admission record of a pre-formed party with its derived rating,
    /// joined at `joined_at_ms`. The entry id is freshly generated.
    pub fn new_party(
        queue_name: String,
        party_id: u128,
        player_ids: Vec<u128>,
        average_rating: Rating,
        metadata: EntryMetadata,
        joined_at_ms: i64,
    ) -> (e: QueueEntry)
        ensures
            e@.queue_name == queue_name@,
            e@.player_ids == player_ids@,
            e@.party_id == Some(party_id),
            e@.average_rating == average_rating,
            e@.joined_at == joined_at_ms,
            e@.metadata == metadata@,
    {
        QueueEntry {
            id: fresh_id(),
            queue_name,
            player_ids,
            party_id: Some(party_id),
            average_rating,
            joined_at: joined_at_ms,
            metadata,
        }
    }

    /// Time spent in queue up to `now_ms`, in milliseconds; zero when the
    /// clock reads at or before the join time.
    pub fn wait_time(&self, now_ms: i64) -> (w: u64)
        ensures
            w == wait_millis_spec(self.joined_at, now_ms),
    {
        if now_ms <= self.joined_at {
            0
        } else {
            let wide: i128 = now_ms as i128 - self.joined_at as i128;
            wide as u64
        }
    }

    /// Whether this entry is a single player outside any party.
    pub fn is_solo(&self) -> (b: bool)
        ensures
            b == (self@.party_id is None && self@.player_ids.len() == 1),
    {
        self.party_id.is_none() && self.player_ids.len() == 1
    }

    /// How many participants the entry carries.
    pub fn player_count(&self) -> (n: usize)
        ensures
            n == self@.player_ids.len(),
    {
        self.player_ids.len()
    }
}

/// Milliseconds waited between joining and `now_ms`, never negative.
pub open spec fn wait_millis_spec(joined_at_ms: i64, now_ms: i64) -> int {
    if now_ms <= joined_at_ms {
        0
    } else {
        now_ms - joined_at_ms
    }
}

} // verus!
