//! The data surface of the boundary protections: rate-limit settings and
//! verdicts, the windowed request counter, abuse-report vocabulary, and
//! the security configuration a host deploys with. Enforcement itself
//! lives at the boundary, outside the core.

use vstd::prelude::*;

verus! {

/// Rate-limit settings: how many requests a window allows and how
/// violations escalate.
#[derive(Debug, Clone, Copy, PartialEq, Eq, Structural)]
pub struct RateLimitConfig {
    /// Requests allowed per window.
    pub max_requests: u64,
    /// Window length, in milliseconds.
    pub window_ms: u64,
    /// Penalty growth per violation, in per-mille.
    pub penalty_multiplier: u64,
    /// Longest penalty a client can accumulate, in milliseconds.
    pub max_penalty_duration_ms: u64,
}

impl Default for RateLimitConfig {
    /// A hundred requests a minute, penalties doubling up to five
    /// minutes.
    fn default() -> (c: RateLimitConfig)
        ensures
            c == (RateLimitConfig {
                max_requests: 100,
                window_ms: 60_000,
                penalty_multiplier: 2000,
                max_penalty_duration_ms: 300_000,
            }),
    {
        RateLimitConfig {
            max_requests: 100,
            window_ms: 60_000,
            penalty_multiplier: 2000,
            max_penalty_duration_ms: 300_000,
        }
    }
}

/// The verdict on one request.
#[derive(Debug)]
pub enum RateLimitResult {
    /// The request may proceed.
    Allowed,
    /// The request is refused, with the reason and the wait before the
    /// next attempt, in milliseconds.
    Denied { reason: String, retry_after_ms: u64 },
}

/// A windowed request counter: requests within one window accumulate,
/// and a window that has lapsed resets the count.
#[derive(Debug, Clone, Copy, PartialEq, Eq, Structural)]
pub struct RateCounter {
    /// Requests seen in the current window.
    pub count: u64,
    /// Violations recorded against the client.
    pub violations: u64,
    /// Window length, in milliseconds.
    pub window_ms: u64,
    /// When the current window opened, in unix milliseconds.
    pub window_start_ms: i64,
}

impl RateCounter {
    /// A fresh counter whose window opens at `now_ms`.
    pub fn new(window_ms: u64, now_ms: i64) -> (c: RateCounter)
        ensures
            c == (RateCounter { count: 0, violations: 0, window_ms, window_start_ms: now_ms }),
    {
        RateCounter { count: 0, violations: 0, window_ms, window_start_ms: now_ms }
    }

    /// Whether the current window lapsed before `now_ms`.
    pub open spec fn window_lapsed(self, now_ms: i64) -> bool {
        now_ms - self.window_start_ms > self.window_ms
    }

    /// Counts one request at `now_ms`: a lapsed window restarts at one,
    /// otherwise the count grows (saturating at the machine range).
    /// Returns the count within the current window.
    pub fn increment(&mut self, now_ms: i64) -> (n: u64)
        ensures
            old(self).window_lapsed(now_ms) ==> *final(self) == (RateCounter {
                count: 1,
                window_start_ms: now_ms,
                ..*old(self)
            }),
            !old(self).window_lapsed(now_ms) ==> *final(self) == (RateCounter {
                count: if old(self).count < u64::MAX {
                    (old(self).count + 1) as u64
                } else {
                    u64::MAX
                },
                ..*old(self)
            }),
            n == final(self).count,
    {
        let lapsed = if now_ms >= self.window_start_ms {
            let elapsed: i128 = now_ms as i128 - self.window_start_ms as i128;
            elapsed > self.window_ms as i128
        } else {
            false
        };
        if lapsed {
            self.count = 1;
            self.window_start_ms = now_ms;
        } else {
            if self.count < u64::MAX {
                self.count = self.count + 1;
            }
        }
        self.count
    }

    /// Whether the counter has sat idle for two full windows at `now_ms`
    /// and can be dropped.
    pub fn is_expired(&self, now_ms: i64) -> (b: bool)
        ensures
            b == (now_ms - self.window_start_ms > 2 * self.window_ms),
    {
        if now_ms < self.window_start_ms {
            return false;
        }
        let elapsed: i128 = now_ms as i128 - self.window_start_ms as i128;
        elapsed > 2 * (self.window_ms as i128)
    }
}

/// Behavior patterns the boundary watches for.
#[derive(Debug, Clone, Copy, PartialEq, Eq, Structural)]
pub enum SuspiciousActivityType {
    RatingManipulation,
    QueueDodging,
    AccountSharing,
    BotBehavior,
    ExploitUsage,
    Harassment,
    Cheating,
}

/// What an abuse report accuses.
#[derive(Debug)]
pub enum AbuseReportType {
    Harassment,
    Cheating,
    Exploiting,
    AccountSharing,
    BotUsage,
    InappropriateName,
    IntentionalFeeding,
    QueueManipulation,
    Other(String),
}

/// Where an abuse report stands.
#[derive(Debug, Clone, Copy, PartialEq, Eq, Structural)]
pub enum ReportStatus {
    Pending,
    UnderReview,
    Resolved,
    Dismissed,
}

/// How grave detected abuse is.
#[derive(Debug, Clone, Copy, PartialEq, Eq, Structural)]
pub enum AbuseLevel {
    NoAbuse,
    Low,
    Medium,
    High,
    Critical,
}

/// Settings of the abuse watcher.
#[derive(Debug, Clone, Copy, PartialEq, Eq, Structural)]
pub struct AntiAbuseConfig {
    /// Whether per-player behavior is tracked at all.
    pub enable_behavior_tracking: bool,
    /// Whether a reputation score is kept.
    pub enable_reputation_system: bool,
    /// How long behavior is kept, in milliseconds.
    pub behavior_retention_ms: u64,
    /// How long reports are kept, in milliseconds.
    pub report_retention_ms: u64,
}

/// The boundary's security settings.
#[derive(Debug)]
pub struct SecurityConfig {
    /// Whether callers must authenticate.
    pub enable_authentication: bool,
    /// Whether calls are checked against permissions.
    pub enable_authorization: bool,
    /// Session lifetime, in milliseconds.
    pub session_timeout_ms: u64,
    /// Concurrent sessions allowed per user.
    pub max_concurrent_sessions: usize,
    /// Whether plain transport is refused.
    pub require_https: bool,
    /// Origins the boundary accepts.
    pub allowed_origins: Vec<String>,
    /// Rate limiting, when enabled.
    pub rate_limit_config: Option<RateLimitConfig>,
    /// Abuse watching, when enabled.
    pub anti_abuse_config: Option<AntiAbuseConfig>,
}

/// One request as the boundary sees it.
#[derive(Debug)]
pub struct SecurityRequest {
    /// The request method.
    pub method: String,
    /// The request path.
    pub path: String,
    /// The request headers, in order.
    pub headers: Vec<(String, String)>,
    /// The caller's address, when known.
    pub remote_addr: Option<String>,
}

/// What a session is allowed to do.
#[derive(Debug, Clone, Copy, PartialEq, Eq, Structural)]
pub enum Permission {
    Read,
    Create,
    Update,
    Delete,
    Admin,
}

/// Why the boundary refused a request.
#[derive(Debug)]
pub enum SecurityError {
    MissingAuth,
    InvalidAuthFormat,
    InvalidToken,
    InvalidSession,
    SessionExpired,
    InsufficientPermissions,
    RateLimitExceeded(String),
    AbuseDetected(String),
    InvalidClientId,
    MissingClientId,
    InvalidMethod,
}

} // verus!
