//! Verified core of a matchmaking engine for session-based multiplayer games.
//!
//! The crate admits solo players and pre-formed parties into named queues,
//! builds matches with a greedy constraint-solving matcher, materializes
//! matches into lobbies with a ready/dispatch state machine, and folds
//! reported outcomes back into skill ratings.
//!
//! All rating-like quantities are carried as fixed-point integers in
//! milli-units: a skill point of `1500.0` is stored as `1_500_000`.

pub mod algorithm;
pub mod analytics;
pub mod constraints;
pub mod decay;
pub mod entry;
pub mod error;
pub mod events;
mod idgen;
pub mod insights;
pub mod lobby;
pub mod monitoring;
pub mod party;
pub mod party_manager;
pub mod party_rating;
pub mod matcher;
pub mod numeric;
pub mod persistence;
pub mod queue_manager;
pub mod rating;
pub mod runner;
pub mod security;
pub mod season;
pub mod strategies;

pub use algorithm::{EloAlgorithm, Glicko2Algorithm, MmrAlgorithm};
pub use decay::{DecayStrategy, LinearDecay, NoDecay};
pub use entry::{EntryMetadata, QueueEntry};
pub use error::MatchForgeError;
pub use lobby::{Lobby, LobbyMetadata, LobbyState};
pub use constraints::MatchConstraints;
pub use matcher::{GreedyMatcher, MatchFormat, MatchResult};
pub use party::Party;
pub use party_manager::PartyManager;
pub use party_rating::{AverageStrategy, MaxStrategy, PartyMmrStrategy, WeightedWithPenaltyStrategy};
pub use persistence::{InMemoryAdapter, PersistenceAdapter};
pub use queue_manager::{QueueConfig, QueueManager};
pub use rating::{Outcome, Rating};
pub use runner::{LobbyManager, MatchmakingRunner, RunnerConfig};
pub use season::{HardReset, Season, SeasonResetStrategy, SoftReset};
