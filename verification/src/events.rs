//! Lifecycle notifications for external observers: what happened, how
//! grave it is, and an opaque metadata map. Delivery is the host's
//! concern and fire-and-forget; consumers can never stall the engine.

use vstd::prelude::*;

verus! {

use crate::idgen::fresh_id;

/// What happened, across the queue, matchmaking, lobby, party and rating
/// paths.
#[derive(Debug, Clone, Copy, PartialEq, Eq, Structural)]
pub enum EventType {
    PlayerJoinedQueue,
    PlayerLeftQueue,
    QueueSizeChanged,
    MatchmakingStarted,
    MatchmakingCompleted,
    MatchFound,
    MatchQualityCalculated,
    LobbyCreated,
    LobbyStateChange,
    LobbyDispatched,
    LobbyClosed,
    PartyCreated,
    PartyMemberAdded,
    PartyMemberRemoved,
    PartyDissolved,
    RatingUpdated,
    RatingDecayApplied,
    SeasonReset,
    PersistenceOperation,
    Error,
    Warning,
    Info,
}

/// How grave an event is.
#[derive(Debug, Clone, Copy, PartialEq, Eq, Structural)]
pub enum EventSeverity {
    Debug,
    Info,
    Warning,
    Error,
    Critical,
}

/// The mathematical content of an `Event`.
#[verifier::ext_equal]
pub ghost struct EventRecord {
    pub id: u128,
    pub event_type: EventType,
    pub timestamp_ms: i64,
    pub metadata: Seq<(Seq<char>, Seq<char>)>,
}

/// One emitted notification.
#[derive(Debug)]
pub struct Event {
    /// Opaque id of the event itself.
    pub id: u128,
    /// What happened.
    pub event_type: EventType,
    /// When it happened, in unix milliseconds.
    pub timestamp_ms: i64,
    /// Opaque key/value pairs for consumers.
    pub metadata: Vec<(String, String)>,
}

impl View for Event {
    type V = EventRecord;

    open spec fn view(&self) -> EventRecord {
        EventRecord {
            id: self.id,
            event_type: self.event_type,
            timestamp_ms: self.timestamp_ms,
            metadata: self.metadata@.map_values(|p: (String, String)| (p.0@, p.1@)),
        }
    }
}

/// Assembles an event step by step: pick the type, attach metadata pairs,
/// then stamp it with the time of emission.
#[derive(Debug)]
pub struct EventBuilder {
    event_type: EventType,
    metadata: Vec<(String, String)>,
}

impl EventBuilder {
    /// Starts a builder for one event type, with no metadata yet.
    pub fn new(event_type: EventType) -> (b: EventBuilder)
        ensures
            b.kind() == event_type,
            b.pairs() =~= Seq::<(Seq<char>, Seq<char>)>::empty(),
    {
        EventBuilder { event_type, metadata: Vec::new() }
    }

    /// The event type the builder was started with.
    pub closed spec fn kind(&self) -> EventType {
        self.event_type
    }

    /// The metadata pairs attached so far.
    pub closed spec fn pairs(&self) -> Seq<(Seq<char>, Seq<char>)> {
        self.metadata@.map_values(|p: (String, String)| (p.0@, p.1@))
    }

    /// Attaches one metadata pair, keeping the earlier ones.
    pub fn metadata(self, key: String, value: String) -> (b: EventBuilder)
        ensures
            b.kind() == self.kind(),
            b.pairs() =~= self.pairs().push((key@, value@)),
    {
        let mut next = self;
        next.metadata.push((key, value));
        proof {
            assert(next.pairs() =~= self.pairs().push((key@, value@)));
        }
        next
    }

    /// Finishes the event at `now_ms` with a fresh id.
    pub fn build(self, now_ms: i64) -> (e: Event)
        ensures
            e@.event_type == self.kind(),
            e@.timestamp_ms == now_ms,
            e@.metadata == self.pairs(),
    {
        Event {
            id: fresh_id(),
            event_type: self.event_type,
            timestamp_ms: now_ms,
            metadata: self.metadata,
        }
    }
}

} // verus!
