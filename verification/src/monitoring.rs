//! Health-check vocabulary for hosts that watch the engine: which
//! components are probed, how often, and the states and alert grades a
//! probe can report. The probing itself is the host's concern.

use vstd::prelude::*;

verus! {

/// The components a health probe can cover.
#[derive(Debug, Clone, Copy, PartialEq, Eq, Hash, Structural)]
pub enum HealthComponent {
    Persistence,
    QueueManager,
    Matchmaker,
    LobbyManager,
    PartyManager,
}

/// How a health probe is scheduled and what it covers.
#[derive(Debug)]
pub struct HealthCheckConfig {
    /// How often the probe runs, in milliseconds.
    pub interval_ms: u64,
    /// How long one probe may take, in milliseconds.
    pub timeout_ms: u64,
    /// The components probed.
    pub components: Vec<HealthComponent>,
}

impl Default for HealthCheckConfig {
    /// A probe of every component each half minute, five seconds each.
    fn default() -> (c: HealthCheckConfig)
        ensures
            c.interval_ms == 30_000,
            c.timeout_ms == 5_000,
            c.components@ =~= seq![
                HealthComponent::Persistence,
                HealthComponent::QueueManager,
                HealthComponent::Matchmaker,
                HealthComponent::LobbyManager,
                HealthComponent::PartyManager,
            ],
    {
        let mut components: Vec<HealthComponent> = Vec::new();
        components.push(HealthComponent::Persistence);
        components.push(HealthComponent::QueueManager);
        components.push(HealthComponent::Matchmaker);
        components.push(HealthComponent::LobbyManager);
        components.push(HealthComponent::PartyManager);
        proof {
            assert(components@ =~= seq![
                HealthComponent::Persistence,
                HealthComponent::QueueManager,
                HealthComponent::Matchmaker,
                HealthComponent::LobbyManager,
                HealthComponent::PartyManager,
            ]);
        }
        HealthCheckConfig { interval_ms: 30_000, timeout_ms: 5_000, components }
    }
}

/// How loud an alert is raised.
#[derive(Debug, Clone, Copy, PartialEq, Eq, Structural)]
pub enum AlertLevel {
    Info,
    Warning,
    Error,
    Critical,
}

/// What a probe found for one component.
#[derive(Debug)]
pub enum ComponentStatus {
    /// The component answered in time.
    Healthy,
    /// The component answered, but poorly; the reason is attached.
    Degraded(String),
    /// The component failed the probe; the reason is attached.
    Unhealthy(String),
}

/// The roll-up over all probed components.
#[derive(Debug, Clone, Copy, PartialEq, Eq, Structural)]
pub enum SystemStatus {
    Healthy,
    Degraded,
    Unhealthy,
}

} // verus!
