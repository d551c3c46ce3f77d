//! Deterministic, explainable deduplication of security findings across sources.
//!
//! Correlation is kept separate from payload merging: Package URLs and CPE
//! names are normalized, versioned BLAKE3 keys are derived, candidates are
//! compared with structured and fuzzy evidence, and batches are grouped into
//! provenance-preserving clusters.
use vstd::prelude::*;

pub mod text;
pub mod config;
pub mod compare;
pub mod fingerprint;
pub mod identity;
pub mod cpe;
pub mod canonical;
pub mod purl;
pub mod model;
pub mod normalize;
pub mod evidence;
pub mod cluster;

pub use cluster::{BlockKind, Cluster, ClusterError, ClusterResult, ClusterStats, ClusterWarning};
pub use compare::{
    Comparison, Decision, Deduplicator, MatchMethod, PreparedCandidate, Score, ScoreError, Signal, SignalField, SignalKind,
};
pub use config::{Config, ConfigBuilder, ConfigError, OversizedBlockPolicy};
pub use cpe::NormalizedCpe;
pub use fingerprint::{CorrelationKey, KeyParseError, OccurrenceKey};
pub use identity::{IdentityError, SubjectId};
pub use model::{Candidate, CandidateBuilder, CandidateError, FindingKind, IssueId, Origin};
pub use purl::NormalizedPurl;

verus! {

} // verus!
