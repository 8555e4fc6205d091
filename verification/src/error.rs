//! The typed errors of the engine. Every fallible operation of the crate
//! names its failure here, so callers can tell a missing record from a
//! duplicate admission or a refused state transition.

use vstd::prelude::*;

verus! {

/// Errors surfaced by the matchmaking core. Identifier payloads are the
/// opaque 128-bit ids the engine uses throughout.
#[derive(Debug, Clone)]
pub enum MatchForgeError {
    /// No rating or record exists for the player.
    PlayerNotFound(u128),
    /// No party with this id exists.
    PartyNotFound(u128),
    /// No queue with this name is registered.
    QueueNotFound(String),
    /// No live lobby with this id exists.
    LobbyNotFound(u128),
    /// The player already sits in an entry of the queue.
    AlreadyInQueue(u128),
    /// The player sits in no entry of the queue.
    NotInQueue(u128),
    /// The party already holds its maximum number of members.
    PartyFull(usize),
    /// A party operation that its state refuses (member missing or doubled).
    InvalidPartyOperation(String),
    /// An admission rejected because the queue's constraints refuse it.
    ConstraintsNotSatisfied(String),
    /// An opaque failure of the persistence backend.
    PersistenceError(String),
    /// A configuration that the engine cannot accept.
    InvalidConfiguration(String),
    /// An operational failure: a refused lobby transition, a runner started
    /// twice.
    OperationFailed(String),
}

} // verus!
