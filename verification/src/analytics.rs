//! The vocabulary the engine emits for analytics consumers: what kind of
//! activity happened on players, queues and parties, and how long a
//! consumer keeps and aggregates its series. The consumers themselves
//! are outside the core.

use vstd::prelude::*;

verus! {

/// How an analytics consumer keeps its series.
#[derive(Debug, Clone, Copy, PartialEq, Eq, Structural)]
pub struct AnalyticsConfig {
    /// How long series are kept, in milliseconds.
    pub retention_period_ms: u64,
    /// How often series are aggregated, in milliseconds.
    pub aggregation_interval_ms: u64,
    /// The most data points one series keeps.
    pub max_data_points: usize,
    /// Whether per-player detail is tracked.
    pub enable_detailed_tracking: bool,
    /// Whether predictions are derived from the series.
    pub enable_predictive_analytics: bool,
}

impl Default for AnalyticsConfig {
    /// A week of data, aggregated hourly, ten thousand points a series.
    fn default() -> (c: AnalyticsConfig)
        ensures
            c == (AnalyticsConfig {
                retention_period_ms: 604_800_000,
                aggregation_interval_ms: 3_600_000,
                max_data_points: 10_000,
                enable_detailed_tracking: true,
                enable_predictive_analytics: false,
            }),
    {
        AnalyticsConfig {
            retention_period_ms: 604_800_000,
            aggregation_interval_ms: 3_600_000,
            max_data_points: 10_000,
            enable_detailed_tracking: true,
            enable_predictive_analytics: false,
        }
    }
}

/// What a player did.
#[derive(Debug, Clone, Copy, PartialEq, Eq, Structural)]
pub enum PlayerActivityType {
    Login,
    Logout,
    NewPlayer,
}

/// What happened on a queue; durations are in milliseconds.
#[derive(Debug, Clone, Copy, PartialEq, Eq, Structural)]
pub enum QueueActivity {
    /// A player joined the queue.
    PlayerJoined,
    /// A player left after waiting this long.
    PlayerLeft(u64),
    /// A match was found after this wait.
    MatchFound(u64),
}

/// What happened on a party.
#[derive(Debug, Clone, Copy, PartialEq, Eq, Structural)]
pub enum PartyActivity {
    /// A party was created.
    Created,
    /// Matchmaking for the party finished, successfully or not.
    MatchFound(bool),
}

} // verus!
