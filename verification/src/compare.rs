//! Pairwise comparison: scores, decisions, signals, and the engine.
use vstd::prelude::*;

use crate::config::{Config, ConfigView};
use crate::evidence::{auto_eligible, evidence_of, evidence_score, evidence_signals, shares_subject, Evidence};
use crate::fingerprint::{
    byte_sign, correlation_key_of, insert_key_unique, key_views, keys_sorted, lemma_byte_antisym,
    occurrence_key_of, CorrelationKey, OccurrenceKey,
};
use crate::identity::subject_views;
use crate::model::{issue_views, kinds_equal, Candidate, CandidateView};
use crate::text::str_equal;

verus! {

/// A deterministic similarity score in basis points (`0..=10_000`).
///
/// Scores are evidence rankings, not calibrated probabilities.
#[derive(Clone, Copy, Debug, PartialEq, Eq, Hash, PartialOrd, Ord)]
pub struct Score(u16);

impl View for Score {
    type V = u16;

    closed spec fn view(&self) -> u16 {
        self.0
    }
}

impl Score {
    #[verifier::type_invariant]
    spec fn inv(&self) -> bool {
        self.0 <= 10_000
    }

    /// The highest possible score, 10,000 basis points.
    pub fn maximum() -> (s: Score)
        ensures
            s@ == 10_000,
    {
        Score(10_000)
    }

    /// Creates a validated score.
    pub fn new(value: u16) -> (r: Result<Score, ScoreError>)
        ensures
            match r {
                Ok(s) => value <= 10_000 && s@ == value,
                Err(e) => value > 10_000 && e@ == value,
            },
    {
        if value <= 10_000 {
            Ok(Score(value))
        } else {
            Err(ScoreError(value))
        }
    }

    pub(crate) fn from_valid(value: u16) -> (s: Score)
        requires
            value <= 10_000,
        ensures
            s@ == value,
    {
        Score(value)
    }

    /// Returns the basis-point value.
    pub fn get(self) -> (r: u16)
        ensures
            r == self@,
            r <= 10_000,
    {
        proof {
            use_type_invariant(&self);
        }
        self.0
    }

    /// Scores with equal values are equal.
    pub proof fn lemma_view_injective(self, other: Score)
        ensures
            self@ == other@ ==> self == other,
    {
    }
}

/// A score outside the inclusive `0..=10_000` range.
#[derive(Clone, Copy, Debug, PartialEq, Eq)]
#[non_exhaustive]
pub struct ScoreError(u16);

impl View for ScoreError {
    type V = u16;

    closed spec fn view(&self) -> u16 {
        self.0
    }
}

impl ScoreError {
    /// Returns the rejected basis-point value.
    pub fn value(self) -> (r: u16)
        ensures
            r == self@,
    {
        self.0
    }
}

// ---------------------------------------------------------------------------
// Decisions and signals.
// ---------------------------------------------------------------------------

/// The decision produced for a candidate pair.
#[derive(Clone, Copy, Debug, PartialEq, Eq, Structural, Hash, PartialOrd, Ord)]
#[non_exhaustive]
pub enum Decision {
    /// The pair has enough anchored evidence to correlate automatically.
    Duplicate,
    /// The pair is plausible but requires a caller or operator decision.
    Review,
    /// Comparable evidence indicates separate findings.
    Distinct,
    /// A hard boundary or policy prevents comparison.
    NotComparable,
}

/// The primary path used to reach a comparison decision.
#[derive(Clone, Copy, Debug, PartialEq, Eq, Structural, Hash, PartialOrd, Ord)]
#[non_exhaustive]
pub enum MatchMethod {
    /// The source-local occurrence keys were identical.
    SameOccurrence,
    /// A versioned exact correlation key was shared.
    ExactCorrelation,
    /// Structured anchors and RapidFuzz text similarity were scored.
    Fuzzy,
    /// A partition, kind, source policy, or hard conflict stopped matching.
    Blocked,
}

/// A field evaluated during comparison.
#[derive(Clone, Copy, Debug, PartialEq, Eq, Structural, Hash, PartialOrd, Ord)]
#[non_exhaustive]
pub enum SignalField {
    /// Hard caller-defined partition.
    Partition,
    /// Broad finding class.
    Kind,
    /// Source provenance.
    Source,
    /// Vulnerability, advisory, rule, or weakness identifier.
    Issue,
    /// Full or versionless structured subject identity.
    Subject,
    /// Explicit affected or package version.
    Version,
    /// Human-readable subject name.
    SubjectName,
    /// Finding title.
    Title,
    /// Finding location.
    Location,
}

/// The observed relationship for a comparison signal.
#[derive(Clone, Copy, Debug, PartialEq, Eq, Structural, Hash, PartialOrd, Ord)]
#[non_exhaustive]
pub enum SignalKind {
    /// Canonical values matched exactly.
    Exact,
    /// Values were compatible or fuzzily similar without being exact.
    Similar,
    /// Comparable values differed.
    Different,
    /// One or both candidates lacked the field.
    Missing,
    /// Structured values used different identifier kinds.
    Incomparable,
    /// Cross-source-only policy excluded two occurrences from one source.
    SameSource,
}

/// The value of a [`Signal`].
pub struct SignalModel {
    /// The field compared.
    pub field: SignalField,
    /// The relationship observed.
    pub kind: SignalKind,
    /// The score, where applicable.
    pub score: Option<u16>,
}

/// A signal with a score.
pub open spec fn signal(field: SignalField, kind: SignalKind, score: Option<u16>) -> SignalModel {
    SignalModel { field, kind, score }
}

/// An exact match of a field, with the maximum score.
pub open spec fn exact_signal(field: SignalField) -> SignalModel {
    signal(field, SignalKind::Exact, Some(10_000u16))
}

/// Whether a signal's score agrees with its relationship.
pub open spec fn signal_score_valid(field: SignalField, kind: SignalKind, score: Option<u16>) -> bool {
    match kind {
        SignalKind::Exact => score == Some(10_000u16),
        SignalKind::Similar => if field == SignalField::Subject {
            score == Some(10_000u16)
        } else {
            score matches Some(v) && v < 10_000
        },
        _ => score is None,
    }
}

/// The rank of a field in its declared order.
pub open spec fn field_rank(f: SignalField) -> int {
    match f {
        SignalField::Partition => 0,
        SignalField::Kind => 1,
        SignalField::Source => 2,
        SignalField::Issue => 3,
        SignalField::Subject => 4,
        SignalField::Version => 5,
        SignalField::SubjectName => 6,
        SignalField::Title => 7,
        SignalField::Location => 8,
    }
}

fn field_rank_of(f: SignalField) -> (r: u8)
    ensures
        r as int == field_rank(f),
{
    match f {
        SignalField::Partition => 0,
        SignalField::Kind => 1,
        SignalField::Source => 2,
        SignalField::Issue => 3,
        SignalField::Subject => 4,
        SignalField::Version => 5,
        SignalField::SubjectName => 6,
        SignalField::Title => 7,
        SignalField::Location => 8,
    }
}

/// Whether a comparison's parts are consistent: keys in order, signals
/// non-empty with strictly increasing fields, and the decision, score, and
/// method in one of the states a comparison can reach.
pub open spec fn comparison_parts_valid(c: ComparisonView) -> bool {
    &&& byte_sign(c.left, c.right) <= 0
    &&& c.signals.len() > 0
    &&& forall|i: int, j: int| 0 <= i < j < c.signals.len() ==> field_rank(#[trigger] c.signals[i].field) < field_rank(#[trigger] c.signals[j].field)
    &&& match c.method {
        MatchMethod::SameOccurrence => c.left == c.right && c.decision == Decision::Duplicate && c.score == Some(10_000u16),
        MatchMethod::ExactCorrelation => byte_sign(c.left, c.right) < 0 && c.decision == Decision::Duplicate && c.score == Some(
            10_000u16,
        ),
        MatchMethod::Fuzzy => byte_sign(c.left, c.right) < 0 && c.decision != Decision::NotComparable && (c.score matches Some(v)
            && v < 10_000),
        MatchMethod::Blocked => byte_sign(c.left, c.right) < 0 && ((c.decision == Decision::NotComparable && c.score is None) || (
        c.decision == Decision::Distinct && c.score == Some(0u16))),
    }
}

/// One privacy-preserving piece of comparison evidence.
///
/// Signals identify fields and scores without copying raw titles, paths, or IDs.
#[derive(Clone, Copy, Debug, PartialEq, Eq)]
pub struct Signal {
    field: SignalField,
    kind: SignalKind,
    score: Option<Score>,
}

/// The basis-point value of an optional score.
pub open spec fn opt_score(s: Option<Score>) -> Option<u16> {
    match s {
        Some(v) => Some(v@),
        None => None,
    }
}

impl View for Signal {
    type V = SignalModel;

    closed spec fn view(&self) -> SignalModel {
        SignalModel { field: self.field, kind: self.kind, score: opt_score(self.score) }
    }
}

impl Signal {
    pub(crate) fn new(field: SignalField, kind: SignalKind, score: Option<Score>) -> (s: Signal)
        ensures
            s@ == signal(field, kind, opt_score(score)),
    {
        Signal { field, kind, score }
    }

    pub(crate) fn exact(field: SignalField) -> (s: Signal)
        ensures
            s@ == exact_signal(field),
    {
        Signal { field, kind: SignalKind::Exact, score: Some(Score::maximum()) }
    }

    /// Rebuilds a signal from its parts when its score agrees with its
    /// relationship: an exact match, or a similar subject, has the maximum
    /// score; another similar field has a score below it; every other
    /// relationship has none.
    pub fn from_parts(field: SignalField, kind: SignalKind, score: Option<Score>) -> (r: Option<Signal>)
        ensures
            match r {
                Some(s) => signal_score_valid(field, kind, opt_score(score)) && s@ == signal(field, kind, opt_score(score)),
                None => !signal_score_valid(field, kind, opt_score(score)),
            },
    {
        let valid = match kind {
            SignalKind::Exact => match score {
                Some(v) => v.get() == 10_000,
                None => false,
            },
            SignalKind::Similar => match score {
                Some(v) => if field == SignalField::Subject {
                    v.get() == 10_000
                } else {
                    v.get() < 10_000
                },
                None => false,
            },
            _ => score.is_none(),
        };
        if valid {
            Some(Signal { field, kind, score })
        } else {
            None
        }
    }

    /// Returns the field that was compared.
    pub fn field(&self) -> (r: SignalField)
        ensures
            r == self@.field,
    {
        self.field
    }

    /// Returns the relationship observed for the field.
    pub fn kind(&self) -> (r: SignalKind)
        ensures
            r == self@.kind,
    {
        self.kind
    }

    /// Returns a fuzzy field score when applicable.
    pub fn score(&self) -> (r: Option<Score>)
        ensures
            opt_score(r) == self@.score,
    {
        self.score
    }
}

/// The views of signals.
pub open spec fn signal_views(v: Seq<Signal>) -> Seq<SignalModel> {
    Seq::new(v.len(), |i: int| v[i]@)
}

// ---------------------------------------------------------------------------
// Comparisons.
// ---------------------------------------------------------------------------

/// The value of a [`Comparison`].
pub struct ComparisonView {
    /// The lexicographically first occurrence key.
    pub left: Seq<u8>,
    /// The lexicographically second occurrence key.
    pub right: Seq<u8>,
    /// The decision.
    pub decision: Decision,
    /// The evidence score, absent for hard boundaries.
    pub score: Option<u16>,
    /// The primary matching method.
    pub method: MatchMethod,
    /// The field evidence, in order.
    pub signals: Seq<SignalModel>,
}

/// An explainable, symmetric comparison between two occurrences.
#[derive(Debug, PartialEq, Eq)]
pub struct Comparison {
    left: OccurrenceKey,
    right: OccurrenceKey,
    decision: Decision,
    score: Option<Score>,
    method: MatchMethod,
    signals: Vec<Signal>,
}

impl View for Comparison {
    type V = ComparisonView;

    closed spec fn view(&self) -> ComparisonView {
        ComparisonView {
            left: self.left@,
            right: self.right@,
            decision: self.decision,
            score: opt_score(self.score),
            method: self.method,
            signals: signal_views(self.signals@),
        }
    }
}

impl Comparison {
    /// Rebuilds a comparison from its parts when they are consistent (see
    /// [`comparison_parts_valid`]).
    pub fn from_parts(
        left: OccurrenceKey,
        right: OccurrenceKey,
        decision: Decision,
        score: Option<Score>,
        method: MatchMethod,
        signals: Vec<Signal>,
    ) -> (r: Option<Comparison>)
        ensures
            ({
                let v = ComparisonView {
                    left: left@,
                    right: right@,
                    decision,
                    score: opt_score(score),
                    method,
                    signals: signal_views(signals@),
                };
                match r {
                    Some(c) => comparison_parts_valid(v) && c@ == v,
                    None => !comparison_parts_valid(v),
                }
            }),
    {
        let ghost v = ComparisonView {
            left: left@,
            right: right@,
            decision,
            score: opt_score(score),
            method,
            signals: signal_views(signals@),
        };
        let order = left.compare(&right);
        proof {
            lemma_byte_antisym(left@, right@);
        }
        if order > 0 || signals.len() == 0 {
            return None;
        }
        let mut i: usize = 1;
        while i < signals.len()
            invariant
                1 <= i <= signals@.len(),
                forall|a: int, b: int| 0 <= a < b < i ==> field_rank(#[trigger] signals@[a]@.field) < field_rank(#[trigger] signals@[b]@.field),
            decreases signals.len() - i,
        {
            if field_rank_of(signals[i - 1].field()) >= field_rank_of(signals[i].field()) {
                proof {
                    assert(signal_views(signals@)[i - 1] == signals@[i - 1]@);
                    assert(signal_views(signals@)[i as int] == signals@[i as int]@);
                }
                return None;
            }
            proof {
                assert forall|a: int, b: int| 0 <= a < b < i + 1 implies field_rank(#[trigger] signals@[a]@.field) < field_rank(
                    #[trigger] signals@[b]@.field,
                ) by {
                    if b == i && a < i - 1 {
                        assert(field_rank(signals@[a]@.field) < field_rank(signals@[i - 1]@.field));
                    }
                }
            }
            i = i + 1;
        }
        proof {
            assert forall|a: int, b: int| 0 <= a < b < v.signals.len() implies field_rank(#[trigger] v.signals[a].field) < field_rank(
                #[trigger] v.signals[b].field,
            ) by {
                assert(v.signals[a] == signals@[a]@ && v.signals[b] == signals@[b]@);
            }
        }
        let max_score = match score {
            Some(s) => s.get() == 10_000,
            None => false,
        };
        let valid = match method {
            MatchMethod::SameOccurrence => order == 0 && decision == Decision::Duplicate && max_score,
            MatchMethod::ExactCorrelation => order < 0 && decision == Decision::Duplicate && max_score,
            MatchMethod::Fuzzy => order < 0 && decision != Decision::NotComparable && match score {
                Some(s) => s.get() < 10_000,
                None => false,
            },
            MatchMethod::Blocked => order < 0 && ((decision == Decision::NotComparable && score.is_none()) || (decision
                == Decision::Distinct && match score {
                Some(s) => s.get() == 0,
                None => false,
            })),
        };
        if valid {
            Some(Comparison { left, right, decision, score, method, signals })
        } else {
            None
        }
    }

    /// Returns the lexicographically first occurrence key.
    pub fn left(&self) -> (r: OccurrenceKey)
        ensures
            r@ == self@.left,
    {
        self.left
    }

    /// Returns the lexicographically second occurrence key.
    pub fn right(&self) -> (r: OccurrenceKey)
        ensures
            r@ == self@.right,
    {
        self.right
    }

    /// Returns the correlation decision.
    pub fn decision(&self) -> (r: Decision)
        ensures
            r == self@.decision,
    {
        self.decision
    }

    /// Returns the evidence score, or `None` when a hard comparability boundary
    /// produced [`Decision::NotComparable`].
    pub fn score(&self) -> (r: Option<Score>)
        ensures
            opt_score(r) == self@.score,
    {
        self.score
    }

    /// Returns the primary matching method.
    pub fn method(&self) -> (r: MatchMethod)
        ensures
            r == self@.method,
    {
        self.method
    }

    /// Returns ordered, privacy-preserving field evidence.
    pub fn signals(&self) -> (r: &[Signal])
        ensures
            signal_views(r@) == self@.signals,
    {
        self.signals.as_slice()
    }
}

impl Clone for Comparison {
    fn clone(&self) -> (r: Self)
        ensures
            r@ == self@,
    {
        let mut signals: Vec<Signal> = Vec::new();
        let mut i: usize = 0;
        while i < self.signals.len()
            invariant
                i <= self.signals@.len(),
                signals@.len() == i,
                forall|k: int| 0 <= k < i ==> (#[trigger] signals@[k])@ == self.signals@[k]@,
            decreases self.signals.len() - i,
        {
            signals.push(self.signals[i]);
            i = i + 1;
        }
        assert(signal_views(signals@) =~= signal_views(self.signals@));
        Comparison {
            left: self.left,
            right: self.right,
            decision: self.decision,
            score: self.score,
            method: self.method,
            signals,
        }
    }
}

// ---------------------------------------------------------------------------
// What a comparison is.
// ---------------------------------------------------------------------------

/// The exact correlation keys of a candidate: one per issue alias and subject
/// identifier, and, when the policy asks for it and the candidate has no
/// subject, one per issue alias alone.
#[verifier::opaque]
pub open spec fn correlation_key_set(cfg: ConfigView, c: CandidateView) -> Set<Seq<u8>> {
    Set::new(
        |k: Seq<u8>|
            (exists|i: int, j: int|
                0 <= i < c.issue_ids.len() && 0 <= j < c.subject_ids.len() && k == #[trigger] correlation_key_of(
                    c.partition,
                    c.kind,
                    c.issue_ids[i],
                    Some(c.subject_ids[j]),
                )) || (c.subject_ids.len() == 0 && cfg.issue_only_exact && exists|i: int|
                0 <= i < c.issue_ids.len() && k == #[trigger] correlation_key_of(c.partition, c.kind, c.issue_ids[i], None)),
    )
}

/// Whether two candidates share an exact correlation key.
pub open spec fn shares_correlation_key(cfg: ConfigView, l: CandidateView, r: CandidateView) -> bool {
    exists|k: Seq<u8>| #[trigger] correlation_key_set(cfg, l).contains(k) && correlation_key_set(cfg, r).contains(k)
}

/// A comparison stopped by a hard boundary.
pub open spec fn blocked_view(first: Seq<u8>, second: Seq<u8>, signals: Seq<SignalModel>) -> ComparisonView {
    ComparisonView {
        left: first,
        right: second,
        decision: Decision::NotComparable,
        score: None,
        method: MatchMethod::Blocked,
        signals,
    }
}

/// The first of two occurrence keys in byte order.
pub open spec fn first_key(a: Seq<u8>, b: Seq<u8>) -> Seq<u8> {
    if byte_sign(a, b) <= 0 {
        a
    } else {
        b
    }
}

/// The second of two occurrence keys in byte order.
pub open spec fn second_key(a: Seq<u8>, b: Seq<u8>) -> Seq<u8> {
    if byte_sign(a, b) <= 0 {
        b
    } else {
        a
    }
}

/// The decision for a fuzzy score: automatic duplicate when eligible and at
/// the duplicate threshold, review at the review threshold, else distinct.
pub open spec fn fuzzy_decision(cfg: ConfigView, eligible: bool, score: u16) -> Decision {
    if eligible && score >= cfg.duplicate_threshold {
        Decision::Duplicate
    } else if score >= cfg.review_threshold {
        Decision::Review
    } else {
        Decision::Distinct
    }
}

/// The comparison of two candidates that passed every hard boundary and
/// share no exact key: a conflict of issues or subjects, else the fuzzy score.
pub open spec fn evidence_comparison(
    cfg: ConfigView,
    l: CandidateView,
    r: CandidateView,
    first: Seq<u8>,
    second: Seq<u8>,
) -> ComparisonView {
    let e = evidence_of(l, r);
    let signals = seq![exact_signal(SignalField::Partition), exact_signal(SignalField::Kind)] + evidence_signals(e);
    if e.issue_conflict || e.subject_conflict {
        ComparisonView {
            left: first,
            right: second,
            decision: Decision::Distinct,
            score: Some(0u16),
            method: MatchMethod::Blocked,
            signals,
        }
    } else {
        let score = evidence_score(e);
        ComparisonView {
            left: first,
            right: second,
            decision: fuzzy_decision(cfg, auto_eligible(cfg, e), score),
            score: Some(score),
            method: MatchMethod::Fuzzy,
            signals,
        }
    }
}

/// The comparison of two candidates that passed every hard boundary: a
/// shared exact correlation key, else the evidence.
#[verifier::opaque]
pub open spec fn matched_comparison(
    cfg: ConfigView,
    l: CandidateView,
    r: CandidateView,
    first: Seq<u8>,
    second: Seq<u8>,
) -> ComparisonView {
    if shares_correlation_key(cfg, l, r) {
        let subject = if shares_subject(l.subject_ids, r.subject_ids) {
            exact_signal(SignalField::Subject)
        } else {
            signal(SignalField::Subject, SignalKind::Missing, None)
        };
        ComparisonView {
            left: first,
            right: second,
            decision: Decision::Duplicate,
            score: Some(10_000u16),
            method: MatchMethod::ExactCorrelation,
            signals: seq![
                exact_signal(SignalField::Partition),
                exact_signal(SignalField::Kind),
                exact_signal(SignalField::Issue),
                subject,
            ],
        }
    } else {
        evidence_comparison(cfg, l, r, first, second)
    }
}

/// The comparison of two different occurrences: the partition, kind, and
/// source-policy boundaries in that order, else the match.
pub open spec fn bounded_comparison(
    cfg: ConfigView,
    l: CandidateView,
    r: CandidateView,
    first: Seq<u8>,
    second: Seq<u8>,
) -> ComparisonView {
    if l.partition != r.partition {
        blocked_view(first, second, seq![signal(SignalField::Partition, SignalKind::Different, None)])
    } else if l.kind != r.kind {
        blocked_view(
            first,
            second,
            seq![exact_signal(SignalField::Partition), signal(SignalField::Kind, SignalKind::Different, None)],
        )
    } else if cfg.cross_source_only && l.origin.source == r.origin.source {
        blocked_view(
            first,
            second,
            seq![
                exact_signal(SignalField::Partition),
                exact_signal(SignalField::Kind),
                signal(SignalField::Source, SignalKind::SameSource, None),
            ],
        )
    } else {
        matched_comparison(cfg, l, r, first, second)
    }
}

/// The comparison of two candidates under a policy: the same occurrence,
/// else the bounded comparison; the keys are reported in byte order.
pub open spec fn compare_spec(cfg: ConfigView, l: CandidateView, r: CandidateView) -> ComparisonView {
    let lk = occurrence_key_of(l);
    let rk = occurrence_key_of(r);
    let first = first_key(lk, rk);
    let second = second_key(lk, rk);
    if lk == rk {
        ComparisonView {
            left: first,
            right: second,
            decision: Decision::Duplicate,
            score: Some(10_000u16),
            method: MatchMethod::SameOccurrence,
            signals: seq![exact_signal(SignalField::Source)],
        }
    } else {
        bounded_comparison(cfg, l, r, first, second)
    }
}

// ---------------------------------------------------------------------------
// The engine.
// ---------------------------------------------------------------------------

/// Immutable pairwise and batch deduplication engine.
#[derive(Clone, Debug)]
pub struct Deduplicator {
    config: Config,
}

/// A candidate with its occurrence key and, optionally, its correlation keys
/// computed ahead of a comparison.
pub struct PreparedCandidate<'a> {
    candidate: &'a Candidate,
    occurrence_key: OccurrenceKey,
    correlation_keys: Option<&'a [CorrelationKey]>,
}

/// The value of a [`PreparedCandidate`].
pub struct PreparedView {
    /// The candidate.
    pub candidate: CandidateView,
    /// Its occurrence key.
    pub occurrence_key: Seq<u8>,
    /// Its correlation keys, when supplied.
    pub correlation_keys: Option<Seq<Seq<u8>>>,
}

impl<'a> View for PreparedCandidate<'a> {
    type V = PreparedView;

    closed spec fn view(&self) -> PreparedView {
        PreparedView {
            candidate: self.candidate@,
            occurrence_key: self.occurrence_key@,
            correlation_keys: match self.correlation_keys {
                Some(k) => Some(key_views(k@)),
                None => None,
            },
        }
    }
}

/// Whether prepared keys are the candidate's own under a policy.
pub open spec fn prepared_for(p: PreparedView, cfg: ConfigView) -> bool {
    &&& p.occurrence_key == occurrence_key_of(p.candidate)
    &&& match p.correlation_keys {
        Some(k) => k.to_set() == correlation_key_set(cfg, p.candidate),
        None => true,
    }
}

impl<'a> PreparedCandidate<'a> {
    /// Bundles a candidate with keys computed ahead of time.
    pub fn cached(
        candidate: &'a Candidate,
        occurrence_key: OccurrenceKey,
        correlation_keys: &'a [CorrelationKey],
    ) -> (p: PreparedCandidate<'a>)
        ensures
            p@ == (PreparedView {
                candidate: candidate@,
                occurrence_key: occurrence_key@,
                correlation_keys: Some(key_views(correlation_keys@)),
            }),
    {
        PreparedCandidate { candidate, occurrence_key, correlation_keys: Some(correlation_keys) }
    }
}

/// Whether two key lists share a key.
fn keys_intersect(a: &[CorrelationKey], b: &[CorrelationKey]) -> (r: bool)
    ensures
        r == exists|k: Seq<u8>| #[trigger] key_views(a@).contains(k) && key_views(b@).contains(k),
{
    let ghost av = key_views(a@);
    let ghost bv = key_views(b@);
    let mut i: usize = 0;
    while i < a.len()
        invariant
            i <= a@.len(),
            av == key_views(a@),
            bv == key_views(b@),
            forall|x: int, y: int| #![trigger av[x], bv[y]] 0 <= x < i && 0 <= y < bv.len() ==> av[x] != bv[y],
        decreases a.len() - i,
    {
        let mut j: usize = 0;
        while j < b.len()
            invariant
                i < a@.len(),
                j <= b@.len(),
                av == key_views(a@),
                bv == key_views(b@),
                forall|x: int, y: int| #![trigger av[x], bv[y]] 0 <= x < i && 0 <= y < bv.len() ==> av[x] != bv[y],
                forall|y: int| 0 <= y < j ==> av[i as int] != #[trigger] bv[y],
            decreases b.len() - j,
        {
            let c = a[i].compare(&b[j]);
            proof {
                lemma_byte_antisym(av[i as int], bv[j as int]);
            }
            if c == 0 {
                assert(av.contains(av[i as int]));
                assert(bv.contains(bv[j as int]));
                return true;
            }
            j = j + 1;
        }
        i = i + 1;
    }
    proof {
        assert forall|k: Seq<u8>| !(#[trigger] av.contains(k) && bv.contains(k)) by {
            if av.contains(k) && bv.contains(k) {
                let x = choose|x: int| 0 <= x < av.len() && av[x] == k;
                let y = choose|y: int| 0 <= y < bv.len() && bv[y] == k;
                assert(av[x] != bv[y]);
            }
        }
    }
    false
}

fn make_comparison(
    first: OccurrenceKey,
    second: OccurrenceKey,
    decision: Decision,
    score: Option<Score>,
    method: MatchMethod,
    signals: Vec<Signal>,
) -> (c: Comparison)
    ensures
        c@ == (ComparisonView {
            left: first@,
            right: second@,
            decision,
            score: opt_score(score),
            method,
            signals: signal_views(signals@),
        }),
{
    Comparison { left: first, right: second, decision, score, method, signals }
}

/// Two sequences share an element exactly when their sets do.
proof fn lemma_shared_keys(a: Seq<Seq<u8>>, b: Seq<Seq<u8>>, sa: Set<Seq<u8>>, sb: Set<Seq<u8>>)
    requires
        a.to_set() == sa,
        b.to_set() == sb,
    ensures
        (exists|k: Seq<u8>| #[trigger] a.contains(k) && b.contains(k)) == (exists|k: Seq<u8>| #[trigger] sa.contains(k)
            && sb.contains(k)),
{
    if exists|k: Seq<u8>| #[trigger] a.contains(k) && b.contains(k) {
        let k = choose|k: Seq<u8>| #[trigger] a.contains(k) && b.contains(k);
        assert(a.to_set().contains(k));
        assert(b.to_set().contains(k));
    }
    if exists|k: Seq<u8>| #[trigger] sa.contains(k) && sb.contains(k) {
        let k = choose|k: Seq<u8>| #[trigger] sa.contains(k) && sb.contains(k);
        assert(a.to_set().contains(k));
        assert(a.contains(k));
        assert(b.to_set().contains(k));
        assert(b.contains(k));
    }
}

impl Deduplicator {
    /// Creates an engine from a validated configuration.
    pub fn new(config: Config) -> (d: Deduplicator)
        ensures
            d.policy() == config@,
    {
        Deduplicator { config }
    }

    /// The policy of this engine.
    pub closed spec fn policy(&self) -> ConfigView {
        self.config@
    }

    /// Returns the active policy.
    pub fn config(&self) -> (r: &Config)
        ensures
            r@ == self.policy(),
    {
        &self.config
    }

    /// Computes the source-local key for a candidate.
    pub fn occurrence_key(&self, candidate: &Candidate) -> (k: OccurrenceKey)
        ensures
            k@ == occurrence_key_of(candidate@),
    {
        OccurrenceKey::for_candidate(candidate)
    }

    /// Computes every exact correlation key implied by issue aliases and
    /// subjects, sorted and free of duplicates. By default, an issue without a
    /// structured subject has no exact correlation key; this is enabled by the
    /// `issue_only_exact` policy.
    pub fn correlation_keys(&self, candidate: &Candidate) -> (r: Vec<CorrelationKey>)
        ensures
            keys_sorted(key_views(r@)),
            key_views(r@).to_set() == correlation_key_set(self.policy(), candidate@),
    {
        reveal(correlation_key_set);
        let issues = candidate.issue_ids();
        let subjects = candidate.subject_ids();
        let ghost c = candidate@;
        let ghost cfg = self.config@;
        let issue_only = subjects.len() == 0 && self.config.issue_only_exact();
        let mut keys: Vec<CorrelationKey> = Vec::new();
        assert(key_views(keys@).to_set() =~= Set::<Seq<u8>>::empty());
        let mut i: usize = 0;
        while i < issues.len()
            invariant
                i <= issues@.len(),
                c == candidate@,
                cfg == self.config@,
                issue_views(issues@) == c.issue_ids,
                subject_views(subjects@) == c.subject_ids,
                issue_only == (c.subject_ids.len() == 0 && cfg.issue_only_exact),
                keys_sorted(key_views(keys@)),
                forall|k: Seq<u8>| #[trigger] key_views(keys@).to_set().contains(k) <==> ((exists|x: int, y: int|
                    0 <= x < i && 0 <= y < c.subject_ids.len() && k == #[trigger] correlation_key_of(
                        c.partition,
                        c.kind,
                        c.issue_ids[x],
                        Some(c.subject_ids[y]),
                    )) || (issue_only && exists|x: int|
                    0 <= x < i && k == #[trigger] correlation_key_of(c.partition, c.kind, c.issue_ids[x], None))),
            decreases issues.len() - i,
        {
            assert(c.issue_ids[i as int] == issues@[i as int]@);
            let mut j: usize = 0;
            while j < subjects.len()
                invariant
                    i < issues@.len(),
                    j <= subjects@.len(),
                    c == candidate@,
                    issue_views(issues@) == c.issue_ids,
                    subject_views(subjects@) == c.subject_ids,
                    c.issue_ids[i as int] == issues@[i as int]@,
                    keys_sorted(key_views(keys@)),
                    forall|k: Seq<u8>| #[trigger] key_views(keys@).to_set().contains(k) <==> ((exists|x: int, y: int|
                        0 <= x < i && 0 <= y < c.subject_ids.len() && k == #[trigger] correlation_key_of(
                            c.partition,
                            c.kind,
                            c.issue_ids[x],
                            Some(c.subject_ids[y]),
                        )) || (exists|y: int|
                        0 <= y < j && k == #[trigger] correlation_key_of(
                            c.partition,
                            c.kind,
                            c.issue_ids[i as int],
                            Some(c.subject_ids[y]),
                        )) || (issue_only && exists|x: int|
                        0 <= x < i && k == #[trigger] correlation_key_of(c.partition, c.kind, c.issue_ids[x], None))),
                decreases subjects.len() - j,
            {
                assert(c.subject_ids[j as int] == subjects@[j as int]@);
                let key = CorrelationKey::for_issue_subject(
                    candidate.partition(),
                    candidate.kind(),
                    &issues[i],
                    &subjects[j],
                );
                let ghost before = key_views(keys@).to_set();
                insert_key_unique(&mut keys, key);
                proof {
                    assert forall|k: Seq<u8>| #[trigger] key_views(keys@).to_set().contains(k) <==> ((exists|x: int, y: int|
                        0 <= x < i && 0 <= y < c.subject_ids.len() && k == #[trigger] correlation_key_of(
                            c.partition,
                            c.kind,
                            c.issue_ids[x],
                            Some(c.subject_ids[y]),
                        )) || (exists|y: int|
                        0 <= y < j + 1 && k == #[trigger] correlation_key_of(
                            c.partition,
                            c.kind,
                            c.issue_ids[i as int],
                            Some(c.subject_ids[y]),
                        )) || (issue_only && exists|x: int|
                        0 <= x < i && k == #[trigger] correlation_key_of(c.partition, c.kind, c.issue_ids[x], None))) by {
                        if k == key@ {
                            assert(k == correlation_key_of(c.partition, c.kind, c.issue_ids[i as int], Some(c.subject_ids[j as int])));
                        }
                        if exists|y: int|
                            0 <= y < j + 1 && k == #[trigger] correlation_key_of(
                                c.partition,
                                c.kind,
                                c.issue_ids[i as int],
                                Some(c.subject_ids[y]),
                            ) {
                            let y = choose|y: int|
                                0 <= y < j + 1 && k == #[trigger] correlation_key_of(
                                    c.partition,
                                    c.kind,
                                    c.issue_ids[i as int],
                                    Some(c.subject_ids[y]),
                                );
                            if y < j {
                                assert(before.contains(k));
                            }
                        }
                    }
                }
                j = j + 1;
            }
            if issue_only {
                let key = CorrelationKey::for_issue_only(candidate.partition(), candidate.kind(), &issues[i]);
                insert_key_unique(&mut keys, key);
            }
            proof {
                assert forall|k: Seq<u8>| #[trigger] key_views(keys@).to_set().contains(k) <==> ((exists|x: int, y: int|
                    0 <= x < i + 1 && 0 <= y < c.subject_ids.len() && k == #[trigger] correlation_key_of(
                        c.partition,
                        c.kind,
                        c.issue_ids[x],
                        Some(c.subject_ids[y]),
                    )) || (issue_only && exists|x: int|
                    0 <= x < i + 1 && k == #[trigger] correlation_key_of(c.partition, c.kind, c.issue_ids[x], None))) by {
                    if exists|x: int, y: int|
                        0 <= x < i + 1 && 0 <= y < c.subject_ids.len() && k == #[trigger] correlation_key_of(
                            c.partition,
                            c.kind,
                            c.issue_ids[x],
                            Some(c.subject_ids[y]),
                        ) {
                        let (x, y) = choose|x: int, y: int|
                            0 <= x < i + 1 && 0 <= y < c.subject_ids.len() && k == #[trigger] correlation_key_of(
                                c.partition,
                                c.kind,
                                c.issue_ids[x],
                                Some(c.subject_ids[y]),
                            );
                        if x == i {
                            assert(exists|y: int|
                                0 <= y < c.subject_ids.len() && k == #[trigger] correlation_key_of(
                                    c.partition,
                                    c.kind,
                                    c.issue_ids[i as int],
                                    Some(c.subject_ids[y]),
                                ));
                        }
                    }
                }
            }
            i = i + 1;
        }
        proof {
            assert forall|k: Seq<u8>| #[trigger] key_views(keys@).to_set().contains(k) <==> correlation_key_set(cfg, c).contains(k) by {
            }
            assert(key_views(keys@).to_set() =~= correlation_key_set(cfg, c));
        }
        keys
    }

    fn shares_key(&self, left: &PreparedCandidate, right: &PreparedCandidate) -> (r: bool)
        requires
            prepared_for(left@, self.policy()),
            prepared_for(right@, self.policy()),
        ensures
            r == shares_correlation_key(self.policy(), left@.candidate, right@.candidate),
    {
        let ghost sa = correlation_key_set(self.policy(), left@.candidate);
        let ghost sb = correlation_key_set(self.policy(), right@.candidate);
        let computed_left: Vec<CorrelationKey>;
        let a: &[CorrelationKey] = match left.correlation_keys {
            Some(k) => k,
            None => {
                computed_left = self.correlation_keys(left.candidate);
                computed_left.as_slice()
            },
        };
        let computed_right: Vec<CorrelationKey>;
        let b: &[CorrelationKey] = match right.correlation_keys {
            Some(k) => k,
            None => {
                computed_right = self.correlation_keys(right.candidate);
                computed_right.as_slice()
            },
        };
        assert(key_views(a@).to_set() == sa);
        assert(key_views(b@).to_set() == sb);
        let r = keys_intersect(a, b);
        proof {
            lemma_shared_keys(key_views(a@), key_views(b@), sa, sb);
        }
        r
    }

    fn bounded(
        &self,
        first: OccurrenceKey,
        second: OccurrenceKey,
        left: &PreparedCandidate,
        right: &PreparedCandidate,
    ) -> (c: Comparison)
        requires
            prepared_for(left@, self.policy()),
            prepared_for(right@, self.policy()),
        ensures
            c@ == bounded_comparison(self.policy(), left@.candidate, right@.candidate, first@, second@),
    {
        let l = left.candidate;
        let r = right.candidate;
        let mut signals: Vec<Signal> = Vec::new();
        if !str_equal(l.partition(), r.partition()) {
            signals.push(Signal::new(SignalField::Partition, SignalKind::Different, None));
            assert(signal_views(signals@) =~= seq![signal(SignalField::Partition, SignalKind::Different, None)]);
            return make_comparison(first, second, Decision::NotComparable, None, MatchMethod::Blocked, signals);
        }
        signals.push(Signal::exact(SignalField::Partition));
        if !kinds_equal(l.kind(), r.kind()) {
            signals.push(Signal::new(SignalField::Kind, SignalKind::Different, None));
            assert(signal_views(signals@) =~= seq![
                exact_signal(SignalField::Partition),
                signal(SignalField::Kind, SignalKind::Different, None),
            ]);
            return make_comparison(first, second, Decision::NotComparable, None, MatchMethod::Blocked, signals);
        }
        signals.push(Signal::exact(SignalField::Kind));
        if self.config.cross_source_only() && str_equal(l.origin().source(), r.origin().source()) {
            signals.push(Signal::new(SignalField::Source, SignalKind::SameSource, None));
            assert(signal_views(signals@) =~= seq![
                exact_signal(SignalField::Partition),
                exact_signal(SignalField::Kind),
                signal(SignalField::Source, SignalKind::SameSource, None),
            ]);
            return make_comparison(first, second, Decision::NotComparable, None, MatchMethod::Blocked, signals);
        }
        assert(signal_views(signals@) =~= seq![exact_signal(SignalField::Partition), exact_signal(SignalField::Kind)]);
        self.matched(first, second, left, right, signals)
    }

    /// Compares two candidates whose keys were computed ahead of time; the
    /// result is that of [`Self::compare`].
    pub fn compare_prepared(&self, left: PreparedCandidate, right: PreparedCandidate) -> (c: Comparison)
        requires
            prepared_for(left@, self.policy()),
            prepared_for(right@, self.policy()),
        ensures
            c@ == compare_spec(self.policy(), left@.candidate, right@.candidate),
    {
        let ghost cfg = self.config@;
        let l = left.candidate;
        let r = right.candidate;
        let left_key = left.occurrence_key;
        let right_key = right.occurrence_key;
        let order = left_key.compare(&right_key);
        proof {
            lemma_byte_antisym(left_key@, right_key@);
        }
        let (first, second) = if order <= 0 {
            (left_key, right_key)
        } else {
            (right_key, left_key)
        };
        if order == 0 {
            let mut signals: Vec<Signal> = Vec::new();
            signals.push(Signal::exact(SignalField::Source));
            assert(signal_views(signals@) =~= seq![exact_signal(SignalField::Source)]);
            return make_comparison(
                first,
                second,
                Decision::Duplicate,
                Some(Score::maximum()),
                MatchMethod::SameOccurrence,
                signals,
            );
        }
        self.bounded(first, second, &left, &right)
    }

    fn matched(
        &self,
        first: OccurrenceKey,
        second: OccurrenceKey,
        left: &PreparedCandidate,
        right: &PreparedCandidate,
        signals: Vec<Signal>,
    ) -> (c: Comparison)
        requires
            prepared_for(left@, self.policy()),
            prepared_for(right@, self.policy()),
            signal_views(signals@) == seq![exact_signal(SignalField::Partition), exact_signal(SignalField::Kind)],
        ensures
            c@ == matched_comparison(self.policy(), left@.candidate, right@.candidate, first@, second@),
    {
        reveal(matched_comparison);
        let l = left.candidate;
        let r = right.candidate;
        if self.shares_key(left, right) {
            let mut signals = signals;
            let exact_subject = crate::evidence::subjects_meet(l.subject_ids(), r.subject_ids());
            signals.push(Signal::exact(SignalField::Issue));
            if exact_subject {
                signals.push(Signal::exact(SignalField::Subject));
            } else {
                signals.push(Signal::new(SignalField::Subject, SignalKind::Missing, None));
            }
            assert(signal_views(signals@) =~= matched_comparison(self.policy(), l@, r@, first@, second@).signals);
            return make_comparison(
                first,
                second,
                Decision::Duplicate,
                Some(Score::maximum()),
                MatchMethod::ExactCorrelation,
                signals,
            );
        }
        self.weigh(first, second, l, r, signals)
    }

    fn weigh(&self, first: OccurrenceKey, second: OccurrenceKey, l: &Candidate, r: &Candidate, signals: Vec<Signal>) -> (c:
        Comparison)
        requires
            signal_views(signals@) == seq![exact_signal(SignalField::Partition), exact_signal(SignalField::Kind)],
        ensures
            c@ == evidence_comparison(self.policy(), l@, r@, first@, second@),
    {
        let mut signals = signals;
        let evidence = Evidence::collect(l, r);
        let ghost head = signal_views(signals@);
        let more = evidence.signals();
        let mut k: usize = 0;
        while k < more.len()
            invariant
                k <= more@.len(),
                signal_views(signals@) =~= head + signal_views(more@).take(k as int),
            decreases more.len() - k,
        {
            let ghost before = signal_views(signals@);
            let item = more[k];
            signals.push(item);
            assert(signal_views(signals@) =~= before.push(item@));
            k = k + 1;
            assert(signal_views(signals@) =~= head + signal_views(more@).take(k as int));
        }
        assert(signal_views(more@).take(more@.len() as int) =~= signal_views(more@));
        assert(signal_views(signals@) =~= seq![exact_signal(SignalField::Partition), exact_signal(SignalField::Kind)]
            + evidence_signals(evidence@));
        if evidence.conflict() {
            return make_comparison(
                first,
                second,
                Decision::Distinct,
                Some(Score::from_valid(0)),
                MatchMethod::Blocked,
                signals,
            );
        }
        let (score, eligible) = evidence.score(&self.config);
        let decision = if eligible && score.get() >= self.config.duplicate_threshold().get() {
            Decision::Duplicate
        } else if score.get() >= self.config.review_threshold().get() {
            Decision::Review
        } else {
            Decision::Distinct
        };
        make_comparison(first, second, decision, Some(score), MatchMethod::Fuzzy, signals)
    }

    /// Compares two candidates using hard boundaries, exact keys, and fuzzy evidence.
    pub fn compare(&self, left: &Candidate, right: &Candidate) -> (c: Comparison)
        ensures
            c@ == compare_spec(self.policy(), left@, right@),
    {
        let left_key = self.occurrence_key(left);
        let right_key = self.occurrence_key(right);
        self.compare_prepared(
            PreparedCandidate { candidate: left, occurrence_key: left_key, correlation_keys: None },
            PreparedCandidate { candidate: right, occurrence_key: right_key, correlation_keys: None },
        )
    }
}

impl Default for Deduplicator {
    fn default() -> (d: Self)
        ensures
            d.policy() == ConfigView::defaults(),
    {
        Deduplicator::new(Config::default())
    }
}

// ---------------------------------------------------------------------------
// Laws of comparison.
// ---------------------------------------------------------------------------

/// A candidate with a structured subject has no issue-only correlation key,
/// under any policy: its keys are exactly those of its issue and subject
/// pairs.
pub proof fn lemma_subject_keys_only(cfg: ConfigView, c: CandidateView)
    requires
        c.subject_ids.len() > 0,
    ensures
        forall|k: Seq<u8>|
            #[trigger] correlation_key_set(cfg, c).contains(k) <==> exists|i: int, j: int|
                0 <= i < c.issue_ids.len() && 0 <= j < c.subject_ids.len() && k == correlation_key_of(
                    c.partition,
                    c.kind,
                    c.issue_ids[i],
                    Some(c.subject_ids[j]),
                ),
        forall|other: ConfigView| #[trigger] correlation_key_set(other, c) == correlation_key_set(cfg, c),
{
    reveal(correlation_key_set);
    assert forall|other: ConfigView| #[trigger] correlation_key_set(other, c) == correlation_key_set(cfg, c) by {
        assert(correlation_key_set(other, c) =~= correlation_key_set(cfg, c));
    }
}

/// A candidate without a structured subject has one issue-only key per issue
/// when the policy asks for them, and no correlation key otherwise.
pub proof fn lemma_issue_only_keys(cfg: ConfigView, c: CandidateView)
    requires
        c.subject_ids.len() == 0,
    ensures
        forall|k: Seq<u8>|
            #[trigger] correlation_key_set(cfg, c).contains(k) <==> (cfg.issue_only_exact && exists|i: int|
                0 <= i < c.issue_ids.len() && k == correlation_key_of(c.partition, c.kind, c.issue_ids[i], None)),
{
    reveal(correlation_key_set);
}

/// Two occurrences of one finding reported by two sources, sharing an issue
/// with no structured subject, with identical subject names and identical
/// titles of non-empty text, are a fuzzy duplicate: the score is 9,000 (5,000
/// for the issue, 3,000 for the name, 1,000 for the title) plus 500 when
/// their location text is non-empty, under any policy that makes no
/// issue-only key and asks at most 9,000 for a duplicate.
#[verifier::spinoff_prover]
#[verifier::rlimit(60)]
pub proof fn lemma_same_finding_two_sources(cfg: ConfigView, a: CandidateView, b: CandidateView, n: int)
    requires
        cfg.valid(),
        cfg.duplicate_threshold <= 9_000,
        !cfg.issue_only_exact,
        occurrence_key_of(a) != occurrence_key_of(b),
        a.partition == b.partition,
        a.kind == b.kind,
        !cfg.cross_source_only || a.origin.source != b.origin.source,
        a.issue_ids.len() > 0,
        a.issue_ids == b.issue_ids,
        a.subject_ids.len() == 0,
        b.subject_ids.len() == 0,
        a.subject_names == b.subject_names,
        0 <= n < a.subject_names.len(),
        crate::text::normal_text(a.subject_names[n]).len() > 0,
        a.title == b.title,
        a.title is Some,
        crate::text::normal_text(a.title->Some_0).len() > 0,
        a.location == b.location,
        a.affected_version == b.affected_version,
    ensures
        compare_spec(cfg, a, b).decision == Decision::Duplicate,
        compare_spec(cfg, a, b).method == MatchMethod::Fuzzy,
        compare_spec(cfg, a, b).score == Some(
            (9_000 + crate::evidence::optional_similarity(a.location, b.location) as int / 20) as u16,
        ),
{
    let e = evidence_of(a, b);
    crate::evidence::lemma_same_text_evidence(a, b, n);
    assert(evidence_score(e) as int == 9_000 + e.location as int / 20) by {
        crate::evidence::lemma_shared_issue_score(a, b);
    }
    lemma_issue_only_keys(cfg, a);
    assert(!shares_correlation_key(cfg, a, b));
    assert(auto_eligible(cfg, e));
    let lk = occurrence_key_of(a);
    let rk = occurrence_key_of(b);
    let first = first_key(lk, rk);
    let second = second_key(lk, rk);
    let ev = evidence_comparison(cfg, a, b, first, second);
    assert(ev.decision == Decision::Duplicate && ev.method == MatchMethod::Fuzzy && ev.score == Some(evidence_score(e)));
    assert(matched_comparison(cfg, a, b, first, second) == ev) by {
        reveal(matched_comparison);
    }
    assert(compare_spec(cfg, a, b) == ev);
}

/// Under the default policy, such a pair from two sources is a duplicate
/// with score 9,000, or 9,500 when the shared location has non-empty text.
pub proof fn lemma_same_finding_two_sources_by_default(a: CandidateView, b: CandidateView, n: int)
    requires
        occurrence_key_of(a) != occurrence_key_of(b),
        a.partition == b.partition,
        a.kind == b.kind,
        a.origin.source != b.origin.source,
        a.issue_ids.len() > 0,
        a.issue_ids == b.issue_ids,
        a.subject_ids.len() == 0,
        b.subject_ids.len() == 0,
        a.subject_names == b.subject_names,
        0 <= n < a.subject_names.len(),
        crate::text::normal_text(a.subject_names[n]).len() > 0,
        a.title == b.title,
        a.title is Some,
        crate::text::normal_text(a.title->Some_0).len() > 0,
        a.location == b.location,
        a.affected_version == b.affected_version,
    ensures
        compare_spec(ConfigView::defaults(), a, b).decision == Decision::Duplicate,
        compare_spec(ConfigView::defaults(), a, b).method == MatchMethod::Fuzzy,
        compare_spec(ConfigView::defaults(), a, b).score == Some(9_000u16) || compare_spec(
            ConfigView::defaults(),
            a,
            b,
        ).score == Some(9_500u16),
{
    let cfg = ConfigView::defaults();
    match a.location {
        Some(x) => if crate::text::normal_text(x).len() > 0 {
            crate::normalize::lemma_similarity_self(x);
        },
        None => {},
    }
    lemma_same_finding_two_sources(cfg, a, b, n);
}

/// Every signal of a comparison has a score that agrees with its
/// relationship: the full score for an exact match (and for a similar
/// subject), a score below it for a similar text, and none otherwise.
pub proof fn lemma_signal_scores(cfg: ConfigView, a: CandidateView, b: CandidateView)
    ensures
        forall|i: int|
            0 <= i < compare_spec(cfg, a, b).signals.len() ==> #[trigger] signal_score_valid(
                compare_spec(cfg, a, b).signals[i].field,
                compare_spec(cfg, a, b).signals[i].kind,
                compare_spec(cfg, a, b).signals[i].score,
            ),
{
    reveal(matched_comparison);
    crate::evidence::lemma_evidence_signal_scores(a, b);
    let c = compare_spec(cfg, a, b);
    let e = evidence_of(a, b);
    let front = seq![exact_signal(SignalField::Partition), exact_signal(SignalField::Kind)];
    assert forall|i: int| 0 <= i < c.signals.len() implies #[trigger] signal_score_valid(
        c.signals[i].field,
        c.signals[i].kind,
        c.signals[i].score,
    ) by {
        if c.signals == front + evidence_signals(e) && i >= 2 {
            assert(c.signals[i] == evidence_signals(e)[i - 2]);
        }
    }
}

/// Comparison is symmetric: swapping the candidates gives the same result,
/// keys included.
pub proof fn lemma_compare_symmetric(cfg: ConfigView, a: CandidateView, b: CandidateView)
    ensures
        compare_spec(cfg, a, b) == compare_spec(cfg, b, a),
{
    reveal(matched_comparison);
    let ka = occurrence_key_of(a);
    let kb = occurrence_key_of(b);
    lemma_byte_antisym(ka, kb);
    assert(first_key(ka, kb) == first_key(kb, ka));
    assert(second_key(ka, kb) == second_key(kb, ka));
    crate::evidence::lemma_evidence_symmetric(a, b);
    assert(shares_correlation_key(cfg, a, b) == shares_correlation_key(cfg, b, a)) by {
        if shares_correlation_key(cfg, a, b) {
            let k = choose|k: Seq<u8>| #[trigger] correlation_key_set(cfg, a).contains(k) && correlation_key_set(cfg, b).contains(k);
            assert(correlation_key_set(cfg, b).contains(k) && correlation_key_set(cfg, a).contains(k));
        }
        if shares_correlation_key(cfg, b, a) {
            let k = choose|k: Seq<u8>| #[trigger] correlation_key_set(cfg, b).contains(k) && correlation_key_set(cfg, a).contains(k);
            assert(correlation_key_set(cfg, a).contains(k) && correlation_key_set(cfg, b).contains(k));
        }
    }
    assert(shares_subject(a.subject_ids, b.subject_ids) == shares_subject(b.subject_ids, a.subject_ids)) by {
        reveal(evidence_of);
    }
}

/// The occurrence keys are reported in byte order.
pub proof fn lemma_compare_keys_ordered(cfg: ConfigView, a: CandidateView, b: CandidateView)
    ensures
        byte_sign(compare_spec(cfg, a, b).left, compare_spec(cfg, a, b).right) <= 0,
{
    reveal(matched_comparison);
    lemma_byte_antisym(occurrence_key_of(a), occurrence_key_of(b));
}

/// A comparison reports the two occurrence keys, first the smaller.
pub proof fn lemma_compare_keys(cfg: ConfigView, a: CandidateView, b: CandidateView)
    ensures
        compare_spec(cfg, a, b).left == first_key(occurrence_key_of(a), occurrence_key_of(b)),
        compare_spec(cfg, a, b).right == second_key(occurrence_key_of(a), occurrence_key_of(b)),
{
    reveal(matched_comparison);
}

/// Partitions, finding kinds, and (under the cross-source policy) sources are
/// hard boundaries: two different occurrences are not comparable exactly when
/// one of them separates the candidates, and only then is there no score.
pub proof fn lemma_hard_boundaries(cfg: ConfigView, a: CandidateView, b: CandidateView)
    ensures
        (compare_spec(cfg, a, b).decision == Decision::NotComparable) <==> (occurrence_key_of(a) != occurrence_key_of(b)
            && (a.partition != b.partition || a.kind != b.kind || (cfg.cross_source_only && a.origin.source
            == b.origin.source))),
        (compare_spec(cfg, a, b).score is None) <==> (compare_spec(cfg, a, b).decision == Decision::NotComparable),
        compare_spec(cfg, a, b).decision == Decision::NotComparable ==> compare_spec(cfg, a, b).method
            == MatchMethod::Blocked,
{
    reveal(matched_comparison);
}

/// Every score lies in `0..=10_000`, and fuzzy scores stay below the maximum,
/// which only the same occurrence or an exact key reaches.
pub proof fn lemma_score_range(cfg: ConfigView, a: CandidateView, b: CandidateView)
    ensures
        compare_spec(cfg, a, b).score matches Some(s) ==> s <= 10_000,
        compare_spec(cfg, a, b).method == MatchMethod::Fuzzy ==> (compare_spec(cfg, a, b).score matches Some(s) && s
            < 10_000),
{
    reveal(matched_comparison);
}

/// The same occurrence is always a duplicate of itself.
pub proof fn lemma_same_occurrence_is_duplicate(cfg: ConfigView, a: CandidateView, b: CandidateView)
    requires
        occurrence_key_of(a) == occurrence_key_of(b),
    ensures
        compare_spec(cfg, a, b).decision == Decision::Duplicate,
        compare_spec(cfg, a, b).method == MatchMethod::SameOccurrence,
{
}

/// A shared exact correlation key within the hard boundaries is a duplicate.
pub proof fn lemma_exact_key_is_duplicate(cfg: ConfigView, a: CandidateView, b: CandidateView)
    requires
        occurrence_key_of(a) != occurrence_key_of(b),
        a.partition == b.partition,
        a.kind == b.kind,
        !(cfg.cross_source_only && a.origin.source == b.origin.source),
        shares_correlation_key(cfg, a, b),
    ensures
        compare_spec(cfg, a, b).decision == Decision::Duplicate,
        compare_spec(cfg, a, b).method == MatchMethod::ExactCorrelation,
        compare_spec(cfg, a, b).score == Some(10_000u16),
{
    reveal(matched_comparison);
}

/// Automatic fuzzy correlation needs a shared issue, comparable subject
/// kinds, no conflicting versions or structured details, and a compatible
/// subject coordinate or a strong subject name; text alone never suffices.
pub proof fn lemma_fuzzy_duplicate_is_anchored(cfg: ConfigView, a: CandidateView, b: CandidateView)
    requires
        compare_spec(cfg, a, b).method == MatchMethod::Fuzzy,
        compare_spec(cfg, a, b).decision == Decision::Duplicate,
    ensures
        evidence_of(a, b).shared_issue,
        !evidence_of(a, b).cross_kind_subjects,
        evidence_of(a, b).version_relation != SignalKind::Different,
        !evidence_of(a, b).subject_detail_conflict,
        evidence_of(a, b).compatible_coordinate_match || (evidence_of(a, b).has_subject_name_pair && evidence_of(
            a,
            b,
        ).subject_name > 0 && evidence_of(a, b).subject_name >= cfg.subject_similarity_threshold),
{
    reveal(matched_comparison);
}

/// Conflicting issue identifiers make a comparable pair distinct unless an
/// exact key is shared.
pub proof fn lemma_issue_conflict_is_distinct(cfg: ConfigView, a: CandidateView, b: CandidateView)
    requires
        occurrence_key_of(a) != occurrence_key_of(b),
        a.partition == b.partition,
        a.kind == b.kind,
        !(cfg.cross_source_only && a.origin.source == b.origin.source),
        !shares_correlation_key(cfg, a, b),
        evidence_of(a, b).issue_conflict,
    ensures
        compare_spec(cfg, a, b).decision == Decision::Distinct,
        compare_spec(cfg, a, b).score == Some(0u16),
        compare_spec(cfg, a, b).method == MatchMethod::Blocked,
{
    reveal(matched_comparison);
}

/// Identifiers with the same kind and canonical text have the same identity
/// in keys.
pub proof fn lemma_key_identity(x: crate::identity::SubjectView, y: crate::identity::SubjectView)
    requires
        crate::identity::subject_key(x) == crate::identity::subject_key(y),
    ensures
        crate::identity::subject_full_identity(x) == crate::identity::subject_full_identity(y),
{
}

/// Correlation keys exclude source provenance and the order of aliases: two
/// candidates with the same partition, kind, issue set, and subject
/// identifiers (by kind and canonical text) have the same correlation keys.
pub proof fn lemma_correlation_keys_ignore_provenance(cfg: ConfigView, a: CandidateView, b: CandidateView)
    requires
        a.partition == b.partition,
        a.kind == b.kind,
        a.issue_ids.to_set() == b.issue_ids.to_set(),
        crate::identity::subject_keys(a.subject_ids) == crate::identity::subject_keys(b.subject_ids),
    ensures
        correlation_key_set(cfg, a) == correlation_key_set(cfg, b),
{
    reveal(correlation_key_set);
    assert forall|k: Seq<u8>| #[trigger] correlation_key_set(cfg, a).contains(k) implies correlation_key_set(cfg, b).contains(k) by {
        lemma_key_transfer(cfg, a, b, k);
    }
    assert forall|k: Seq<u8>| #[trigger] correlation_key_set(cfg, b).contains(k) implies correlation_key_set(cfg, a).contains(k) by {
        lemma_key_transfer(cfg, b, a, k);
    }
    assert(correlation_key_set(cfg, a) =~= correlation_key_set(cfg, b));
}

proof fn lemma_key_transfer(cfg: ConfigView, a: CandidateView, b: CandidateView, k: Seq<u8>)
    requires
        a.partition == b.partition,
        a.kind == b.kind,
        a.issue_ids.to_set() == b.issue_ids.to_set(),
        crate::identity::subject_keys(a.subject_ids) == crate::identity::subject_keys(b.subject_ids),
        correlation_key_set(cfg, a).contains(k),
    ensures
        correlation_key_set(cfg, b).contains(k),
{
    reveal(correlation_key_set);
    if exists|i: int, j: int|
        0 <= i < a.issue_ids.len() && 0 <= j < a.subject_ids.len() && k == #[trigger] correlation_key_of(
            a.partition,
            a.kind,
            a.issue_ids[i],
            Some(a.subject_ids[j]),
        ) {
        let (i, j) = choose|i: int, j: int|
            0 <= i < a.issue_ids.len() && 0 <= j < a.subject_ids.len() && k == #[trigger] correlation_key_of(
                a.partition,
                a.kind,
                a.issue_ids[i],
                Some(a.subject_ids[j]),
            );
        assert(a.issue_ids.to_set().contains(a.issue_ids[i]));
        assert(b.issue_ids.contains(a.issue_ids[i]));
        let x = choose|x: int| 0 <= x < b.issue_ids.len() && b.issue_ids[x] == a.issue_ids[i];
        let key = crate::identity::subject_key(a.subject_ids[j]);
        assert(crate::identity::subject_keys(a.subject_ids).contains(key));
        assert(crate::identity::subject_keys(b.subject_ids).contains(key));
        let y = choose|y: int| 0 <= y < b.subject_ids.len() && #[trigger] crate::identity::subject_key(b.subject_ids[y]) == key;
        assert(crate::identity::subject_full_identity(b.subject_ids[y]) == crate::identity::subject_full_identity(
            a.subject_ids[j],
        ));
        assert(k == correlation_key_of(b.partition, b.kind, b.issue_ids[x], Some(b.subject_ids[y])));
    } else {
        let i = choose|i: int| 0 <= i < a.issue_ids.len() && k == #[trigger] correlation_key_of(a.partition, a.kind, a.issue_ids[i], None);
        assert(a.issue_ids.to_set().contains(a.issue_ids[i]));
        assert(b.issue_ids.contains(a.issue_ids[i]));
        let x = choose|x: int| 0 <= x < b.issue_ids.len() && b.issue_ids[x] == a.issue_ids[i];
        assert(k == correlation_key_of(b.partition, b.kind, b.issue_ids[x], None));
        if b.subject_ids.len() > 0 {
            let key = crate::identity::subject_key(b.subject_ids[0]);
            assert(crate::identity::subject_keys(b.subject_ids).contains(key));
            assert(crate::identity::subject_keys(a.subject_ids).contains(key));
        }
    }
}

} // verus!
