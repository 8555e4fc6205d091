//! The vocabulary of derived insights: what an insight is about, how
//! grave and how certain it is, what backs it, and how acting on it is
//! weighed. Deriving insights from the emitted events is a consumer's
//! concern, outside the core.

use vstd::prelude::*;

verus! {

/// What an insight is about.
#[derive(Debug, Clone, Copy, PartialEq, Eq, Structural)]
pub enum InsightType {
    QueuePerformance,
    PlayerBehavior,
    RatingSystem,
    SystemPerformance,
    BusinessMetrics,
    SecurityAnomalies,
    PredictiveAnalytics,
}

/// How grave an insight is.
#[derive(Debug, Clone, Copy, PartialEq, Eq, Structural)]
pub enum Severity {
    Critical,
    High,
    Medium,
    Low,
    Info,
}

/// How urgently a recommendation should be acted on.
#[derive(Debug, Clone, Copy, PartialEq, Eq, Structural)]
pub enum Priority {
    Critical,
    High,
    Medium,
    Low,
}

/// How much acting on a recommendation would change.
#[derive(Debug, Clone, Copy, PartialEq, Eq, Structural)]
pub enum Impact {
    High,
    Medium,
    Low,
}

/// How much work acting on a recommendation would take.
#[derive(Debug, Clone, Copy, PartialEq, Eq, Structural)]
pub enum Effort {
    High,
    Medium,
    Low,
}

/// What kind of observation backs an insight.
#[derive(Debug, Clone, Copy, PartialEq, Eq, Structural)]
pub enum EvidenceType {
    Metric,
    Trend,
    Anomaly,
    Correlation,
    UserFeedback,
}

/// Why an insight could not be derived.
#[derive(Debug)]
pub enum InsightError {
    DataUnavailable,
    ModelNotTrained,
    InsufficientData,
    GenerationFailed(String),
}

} // verus!
