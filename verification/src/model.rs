//! Candidates: one source occurrence of one issue on one subject, validated
//! and normalized by [`CandidateBuilder`].
use vstd::prelude::*;

use crate::cpe::NormalizedCpe;
use crate::identity::{
    first_of_key, insert_subject_unique, subject_key, subject_keys, subject_views, subjects_sorted, IdentityError,
    SubjectId, SubjectView,
};
use crate::purl::NormalizedPurl;
use crate::text::{
    any_control, ascii_upper_all, chars_of, has_control, insert_sorted_unique, starts_with_ignore_ascii_case,
    starts_with_ignoring_ascii_case, strictly_sorted, string_of, strings, trim, trim_chars,
    upper_ascii_chars,
};

verus! {

// ---------------------------------------------------------------------------
// Errors.
// ---------------------------------------------------------------------------

/// A candidate construction error.
#[derive(Debug, Eq, PartialEq)]
#[non_exhaustive]
pub enum CandidateError {
    /// A required field was blank.
    EmptyField {
        /// The invalid field name.
        field: &'static str,
    },
    /// An issue identifier was blank.
    EmptyIssueId,
    /// A text field contained a control character.
    ControlCharacter {
        /// The invalid field name.
        field: &'static str,
    },
    /// No structured or textual comparison evidence was supplied.
    NoEvidence,
}

/// The value of a [`CandidateError`], with field names as characters.
pub enum CandidateErrorView {
    /// See [`CandidateError::EmptyField`].
    EmptyField(Seq<char>),
    /// See [`CandidateError::EmptyIssueId`].
    EmptyIssueId,
    /// See [`CandidateError::ControlCharacter`].
    ControlCharacter(Seq<char>),
    /// See [`CandidateError::NoEvidence`].
    NoEvidence,
}

impl View for CandidateError {
    type V = CandidateErrorView;

    open spec fn view(&self) -> CandidateErrorView {
        match self {
            CandidateError::EmptyField { field } => CandidateErrorView::EmptyField(field@),
            CandidateError::EmptyIssueId => CandidateErrorView::EmptyIssueId,
            CandidateError::ControlCharacter { field } => CandidateErrorView::ControlCharacter(field@),
            CandidateError::NoEvidence => CandidateErrorView::NoEvidence,
        }
    }
}

// ---------------------------------------------------------------------------
// Text validation.
// ---------------------------------------------------------------------------

/// A required text field: blank is an error, then any control character
/// (anywhere, before trimming) is an error; the value is kept trimmed.
pub open spec fn required_text(value: Seq<char>, field: Seq<char>) -> Result<Seq<char>, CandidateErrorView> {
    if trim(value).len() == 0 {
        Err(CandidateErrorView::EmptyField(field))
    } else if has_control(value) {
        Err(CandidateErrorView::ControlCharacter(field))
    } else {
        Ok(trim(value))
    }
}

/// An optional text field: absent stays absent, present must be a valid
/// required field.
pub open spec fn optional_text(value: Option<Seq<char>>, field: Seq<char>) -> Result<
    Option<Seq<char>>,
    CandidateErrorView,
> {
    match value {
        None => Ok(None),
        Some(v) => match required_text(v, field) {
            Ok(t) => Ok(Some(t)),
            Err(e) => Err(e),
        },
    }
}

fn required(value: &str, field: &'static str) -> (r: Result<String, CandidateError>)
    ensures
        match r {
            Ok(s) => required_text(value@, field@) == Ok::<Seq<char>, CandidateErrorView>(s@),
            Err(e) => required_text(value@, field@) == Err::<Seq<char>, CandidateErrorView>(e@),
        },
{
    let v = chars_of(value);
    let t = trim_chars(v.as_slice());
    if t.len() == 0 {
        return Err(CandidateError::EmptyField { field });
    }
    if any_control(v.as_slice()) {
        return Err(CandidateError::ControlCharacter { field });
    }
    Ok(string_of(t.as_slice()))
}

fn optional(value: &Option<String>, field: &'static str) -> (r: Result<Option<String>, CandidateError>)
    ensures
        match r {
            Ok(s) => optional_text(opt_string(*value), field@) == Ok::<Option<Seq<char>>, CandidateErrorView>(
                opt_string(s),
            ),
            Err(e) => optional_text(opt_string(*value), field@) == Err::<Option<Seq<char>>, CandidateErrorView>(
                e@,
            ),
        },
{
    match value {
        None => Ok(None),
        Some(v) => match required(v.as_str(), field) {
            Ok(t) => Ok(Some(t)),
            Err(e) => Err(e),
        },
    }
}

/// The character view of an optional string.
pub open spec fn opt_string(v: Option<String>) -> Option<Seq<char>> {
    match v {
        Some(s) => Some(s@),
        None => None,
    }
}

fn clone_opt(v: &Option<String>) -> (r: Option<String>)
    ensures
        opt_string(r) == opt_string(*v),
{
    match v {
        Some(s) => Some(s.clone()),
        None => None,
    }
}

fn as_opt_str(v: &Option<String>) -> (r: Option<&str>)
    ensures
        crate::fingerprint::opt_view(r) == opt_string(*v),
{
    match v {
        Some(s) => Some(s.as_str()),
        None => None,
    }
}

// ---------------------------------------------------------------------------
// Origins.
// ---------------------------------------------------------------------------

/// The value of an [`Origin`].
pub struct OriginView {
    /// The source name.
    pub source: Seq<char>,
    /// The optional source subtype.
    pub subtype: Option<Seq<char>>,
    /// The source's native identifier.
    pub native_id: Seq<char>,
}

/// The source-local identity of one finding occurrence.
#[derive(Debug, Eq, Hash, Ord, PartialEq, PartialOrd)]
pub struct Origin {
    source: String,
    subtype: Option<String>,
    native_id: String,
}

impl View for Origin {
    type V = OriginView;

    closed spec fn view(&self) -> OriginView {
        OriginView { source: self.source@, subtype: opt_string(self.subtype), native_id: self.native_id@ }
    }
}

impl Origin {
    /// Validates and trims an origin: source and native ID are required, the
    /// subtype is optional, and none may contain a control character.
    pub fn new(source: &str, subtype: &Option<String>, native_id: &str) -> (r: Result<Origin, CandidateError>)
        ensures
            match r {
                Ok(o) => required_text(source@, "source"@) == Ok::<Seq<char>, CandidateErrorView>(o@.source) && optional_text(
                    opt_string(*subtype),
                    "subtype"@,
                ) == Ok::<Option<Seq<char>>, CandidateErrorView>(o@.subtype) && required_text(native_id@, "native_id"@)
                    == Ok::<Seq<char>, CandidateErrorView>(o@.native_id),
                Err(e) => Some(e@) == (if required_text(source@, "source"@) is Err {
                    required_error(source@, "source"@)
                } else if optional_text(opt_string(*subtype), "subtype"@) is Err {
                    optional_error(opt_string(*subtype), "subtype"@)
                } else {
                    required_error(native_id@, "native_id"@)
                }) && (required_text(source@, "source"@) is Err || optional_text(opt_string(*subtype), "subtype"@) is Err
                    || required_text(native_id@, "native_id"@) is Err),
            },
    {
        let source = match required(source, "source") {
            Ok(v) => v,
            Err(e) => return Err(e),
        };
        let subtype = match optional(subtype, "subtype") {
            Ok(v) => v,
            Err(e) => return Err(e),
        };
        let native_id = match required(native_id, "native_id") {
            Ok(v) => v,
            Err(e) => return Err(e),
        };
        Ok(Origin { source, subtype, native_id })
    }

    /// Returns the source name, such as a scanner or ingestion adapter.
    pub fn source(&self) -> (r: &str)
        ensures
            r@ == self@.source,
    {
        self.source.as_str()
    }

    /// Returns the optional source subtype.
    pub fn subtype(&self) -> (r: Option<&str>)
        ensures
            crate::fingerprint::opt_view(r) == self@.subtype,
    {
        as_opt_str(&self.subtype)
    }

    /// Returns the source's native identifier for this occurrence.
    pub fn native_id(&self) -> (r: &str)
        ensures
            r@ == self@.native_id,
    {
        self.native_id.as_str()
    }
}

impl Clone for Origin {
    fn clone(&self) -> (r: Self)
        ensures
            r@ == self@,
    {
        Origin { source: self.source.clone(), subtype: clone_opt(&self.subtype), native_id: self.native_id.clone() }
    }
}

// ---------------------------------------------------------------------------
// Issue identifiers.
// ---------------------------------------------------------------------------

/// The namespaces whose identifiers are case-insensitive.
pub open spec fn known_issue_prefix(s: Seq<char>) -> bool {
    ||| starts_with_ignoring_ascii_case(s, seq!['C', 'V', 'E', '-'])
    ||| starts_with_ignoring_ascii_case(s, seq!['C', 'W', 'E', '-'])
    ||| starts_with_ignoring_ascii_case(s, seq!['G', 'H', 'S', 'A', '-'])
    ||| starts_with_ignoring_ascii_case(s, seq!['R', 'U', 'S', 'T', 'S', 'E', 'C', '-'])
}

/// The normalized issue identifier of a raw value: trimmed, non-empty,
/// without control characters, and upper-cased in the well-known
/// case-insensitive namespaces.
pub open spec fn issue_id_spec(value: Seq<char>) -> Result<Seq<char>, CandidateErrorView> {
    let t = trim(value);
    if t.len() == 0 {
        Err(CandidateErrorView::EmptyIssueId)
    } else if has_control(t) {
        Err(CandidateErrorView::ControlCharacter("issue_id"@))
    } else if known_issue_prefix(t) {
        Ok(ascii_upper_all(t))
    } else {
        Ok(t)
    }
}

/// A normalized vulnerability, advisory, rule, or weakness identifier.
#[derive(Debug, Eq, Hash, Ord, PartialEq, PartialOrd)]
pub struct IssueId(String);

impl View for IssueId {
    type V = Seq<char>;

    closed spec fn view(&self) -> Seq<char> {
        self.0@
    }
}

impl IssueId {
    /// Normalizes a non-empty issue identifier.
    ///
    /// Well-known case-insensitive identifiers (`CVE`, `CWE`, `GHSA`, and
    /// `RUSTSEC`) are uppercased. Other namespaces retain their case.
    pub fn new(value: &str) -> (r: Result<IssueId, CandidateError>)
        ensures
            match r {
                Ok(id) => issue_id_spec(value@) == Ok::<Seq<char>, CandidateErrorView>(id@),
                Err(e) => issue_id_spec(value@) == Err::<Seq<char>, CandidateErrorView>(e@),
            },
    {
        proof {
            reveal_strlit("issue_id");
        }
        let v = chars_of(value);
        let t = trim_chars(v.as_slice());
        if t.len() == 0 {
            return Err(CandidateError::EmptyIssueId);
        }
        if any_control(t.as_slice()) {
            return Err(CandidateError::ControlCharacter { field: "issue_id" });
        }
        let cve: [char; 4] = ['C', 'V', 'E', '-'];
        let cwe: [char; 4] = ['C', 'W', 'E', '-'];
        let ghsa: [char; 5] = ['G', 'H', 'S', 'A', '-'];
        let rustsec: [char; 8] = ['R', 'U', 'S', 'T', 'S', 'E', 'C', '-'];
        assert(cve@ =~= seq!['C', 'V', 'E', '-']);
        assert(cwe@ =~= seq!['C', 'W', 'E', '-']);
        assert(ghsa@ =~= seq!['G', 'H', 'S', 'A', '-']);
        assert(rustsec@ =~= seq!['R', 'U', 'S', 'T', 'S', 'E', 'C', '-']);
        let known = starts_with_ignore_ascii_case(t.as_slice(), &cve)
            || starts_with_ignore_ascii_case(t.as_slice(), &cwe)
            || starts_with_ignore_ascii_case(t.as_slice(), &ghsa)
            || starts_with_ignore_ascii_case(t.as_slice(), &rustsec);
        if known {
            let u = upper_ascii_chars(t.as_slice());
            Ok(IssueId(string_of(u.as_slice())))
        } else {
            Ok(IssueId(string_of(t.as_slice())))
        }
    }

    /// Returns the normalized identifier.
    pub fn as_str(&self) -> (r: &str)
        ensures
            r@ == self@,
    {
        self.0.as_str()
    }

    /// Returns the normalized identifier as an owned string.
    pub fn to_string(&self) -> (r: String)
        ensures
            r@ == self@,
    {
        self.0.clone()
    }
}

impl Clone for IssueId {
    fn clone(&self) -> (r: Self)
        ensures
            r@ == self@,
    {
        IssueId(self.0.clone())
    }
}

// ---------------------------------------------------------------------------
// Finding kinds.
// ---------------------------------------------------------------------------

/// The value of a [`FindingKind`].
pub enum KindView {
    /// See [`FindingKind::Vulnerability`].
    Vulnerability,
    /// See [`FindingKind::Misconfiguration`].
    Misconfiguration,
    /// See [`FindingKind::Secret`].
    Secret,
    /// See [`FindingKind::Code`].
    Code,
    /// See [`FindingKind::Other`].
    Other(Seq<char>),
}

/// The tag a finding kind contributes to keys.
pub open spec fn kind_tag_of(k: KindView) -> Seq<char> {
    match k {
        KindView::Vulnerability => "vulnerability"@,
        KindView::Misconfiguration => "misconfiguration"@,
        KindView::Secret => "secret"@,
        KindView::Code => "code"@,
        KindView::Other(_) => "other"@,
    }
}

/// The custom value a finding kind contributes to keys, if any.
pub open spec fn kind_custom_of(k: KindView) -> Option<Seq<char>> {
    match k {
        KindView::Other(v) => Some(v),
        _ => None,
    }
}

/// The broad class of a finding.
#[derive(Debug, Eq, Hash, Ord, PartialEq, PartialOrd)]
#[non_exhaustive]
pub enum FindingKind {
    /// A software or hardware vulnerability.
    Vulnerability,
    /// An insecure configuration or policy violation.
    Misconfiguration,
    /// An exposed credential or secret.
    Secret,
    /// A source-code or static-analysis finding.
    Code,
    /// A caller-defined finding class.
    Other(String),
}

impl View for FindingKind {
    type V = KindView;

    open spec fn view(&self) -> KindView {
        match self {
            FindingKind::Vulnerability => KindView::Vulnerability,
            FindingKind::Misconfiguration => KindView::Misconfiguration,
            FindingKind::Secret => KindView::Secret,
            FindingKind::Code => KindView::Code,
            FindingKind::Other(v) => KindView::Other(v@),
        }
    }
}

impl FindingKind {
    /// Returns the tag this kind contributes to keys.
    pub fn key_tag(&self) -> (r: &'static str)
        ensures
            r@ == kind_tag_of(self@),
    {
        match self {
            FindingKind::Vulnerability => {
                proof {
                    reveal_strlit("vulnerability");
                }
                "vulnerability"
            },
            FindingKind::Misconfiguration => {
                proof {
                    reveal_strlit("misconfiguration");
                }
                "misconfiguration"
            },
            FindingKind::Secret => {
                proof {
                    reveal_strlit("secret");
                }
                "secret"
            },
            FindingKind::Code => {
                proof {
                    reveal_strlit("code");
                }
                "code"
            },
            FindingKind::Other(_) => {
                proof {
                    reveal_strlit("other");
                }
                "other"
            },
        }
    }

    /// Returns the caller-defined value of a custom kind.
    pub fn custom_key(&self) -> (r: Option<&str>)
        ensures
            crate::fingerprint::opt_view(r) == kind_custom_of(self@),
    {
        match self {
            FindingKind::Other(v) => Some(v.as_str()),
            _ => None,
        }
    }
}

/// Whether two finding kinds are equal.
pub fn kinds_equal(a: &FindingKind, b: &FindingKind) -> (r: bool)
    ensures
        r == (a@ == b@),
{
    match (a, b) {
        (FindingKind::Vulnerability, FindingKind::Vulnerability) => true,
        (FindingKind::Misconfiguration, FindingKind::Misconfiguration) => true,
        (FindingKind::Secret, FindingKind::Secret) => true,
        (FindingKind::Code, FindingKind::Code) => true,
        (FindingKind::Other(x), FindingKind::Other(y)) => crate::text::str_equal(x.as_str(), y.as_str()),
        _ => false,
    }
}

impl Default for FindingKind {
    fn default() -> (k: Self)
        ensures
            k@ == KindView::Vulnerability,
    {
        FindingKind::Vulnerability
    }
}

impl Clone for FindingKind {
    fn clone(&self) -> (r: Self)
        ensures
            r@ == self@,
    {
        match self {
            FindingKind::Vulnerability => FindingKind::Vulnerability,
            FindingKind::Misconfiguration => FindingKind::Misconfiguration,
            FindingKind::Secret => FindingKind::Secret,
            FindingKind::Code => FindingKind::Code,
            FindingKind::Other(v) => FindingKind::Other(v.clone()),
        }
    }
}

// ---------------------------------------------------------------------------
// Candidates.
// ---------------------------------------------------------------------------

/// The value of a [`Candidate`].
pub struct CandidateView {
    /// The source-local origin.
    pub origin: OriginView,
    /// The hard correlation boundary.
    pub partition: Seq<char>,
    /// The finding class.
    pub kind: KindView,
    /// Normalized issue identifiers, strictly increasing.
    pub issue_ids: Seq<Seq<char>>,
    /// Structured subject identifiers, strictly increasing by kind and text.
    pub subject_ids: Seq<SubjectView>,
    /// Subject names, trimmed and strictly increasing.
    pub subject_names: Seq<Seq<char>>,
    /// The optional title.
    pub title: Option<Seq<char>>,
    /// The optional location.
    pub location: Option<Seq<char>>,
    /// The optional affected version.
    pub affected_version: Option<Seq<char>>,
}

/// The views of issue identifiers.
pub open spec fn issue_views(v: Seq<IssueId>) -> Seq<Seq<char>> {
    Seq::new(v.len(), |i: int| v[i]@)
}

/// Whether a candidate's identifier lists are strictly sorted.
pub open spec fn candidate_lists_sorted(c: CandidateView) -> bool {
    &&& strictly_sorted(c.issue_ids)
    &&& subjects_sorted(c.subject_ids)
    &&& strictly_sorted(c.subject_names)
}

/// One source occurrence prepared for correlation.
///
/// A candidate must be atomic: it represents one issue on one subject in one
/// caller-defined partition. Issue aliases must identify the same issue, and
/// multiple subject identifiers must identify the same subject.
#[derive(Debug, Eq, PartialEq)]
pub struct Candidate {
    origin: Origin,
    partition: String,
    kind: FindingKind,
    issue_ids: Vec<IssueId>,
    subject_ids: Vec<SubjectId>,
    subject_names: Vec<String>,
    title: Option<String>,
    location: Option<String>,
    affected_version: Option<String>,
}

impl View for Candidate {
    type V = CandidateView;

    closed spec fn view(&self) -> CandidateView {
        CandidateView {
            origin: self.origin@,
            partition: self.partition@,
            kind: self.kind@,
            issue_ids: issue_views(self.issue_ids@),
            subject_ids: subject_views(self.subject_ids@),
            subject_names: strings(self.subject_names@),
            title: opt_string(self.title),
            location: opt_string(self.location),
            affected_version: opt_string(self.affected_version),
        }
    }
}

impl Candidate {
    #[verifier::type_invariant]
    spec fn inv(&self) -> bool {
        candidate_lists_sorted(self@)
    }

    /// Starts a candidate builder with source-local identity.
    pub fn builder(source: &str, native_id: &str) -> (b: CandidateBuilder)
        ensures
            b@ == (BuilderView { source: source@, native_id: native_id@, ..BuilderView::empty() }),
    {
        let issue_ids: Vec<String> = Vec::new();
        let subject_ids: Vec<SubjectId> = Vec::new();
        let subject_names: Vec<String> = Vec::new();
        assert(strings(issue_ids@) =~= Seq::empty());
        assert(subject_views(subject_ids@) =~= Seq::empty());
        assert(strings(subject_names@) =~= Seq::empty());
        CandidateBuilder {
            source: String::from_str(source),
            subtype: None,
            native_id: String::from_str(native_id),
            partition: None,
            kind: FindingKind::Vulnerability,
            issue_ids,
            subject_ids,
            subject_names,
            title: None,
            location: None,
            affected_version: None,
        }
    }

    /// Returns the source-local origin.
    pub fn origin(&self) -> (r: &Origin)
        ensures
            r@ == self@.origin,
    {
        &self.origin
    }

    /// Returns the caller-defined hard correlation boundary.
    pub fn partition(&self) -> (r: &str)
        ensures
            r@ == self@.partition,
    {
        self.partition.as_str()
    }

    /// Returns the finding class.
    pub fn kind(&self) -> (r: &FindingKind)
        ensures
            r@ == self@.kind,
    {
        &self.kind
    }

    /// Returns normalized issue identifiers and aliases, strictly increasing.
    pub fn issue_ids(&self) -> (r: &[IssueId])
        ensures
            issue_views(r@) == self@.issue_ids,
            strictly_sorted(self@.issue_ids),
    {
        proof {
            use_type_invariant(self);
        }
        self.issue_ids.as_slice()
    }

    /// Returns normalized structured subject identifiers, strictly increasing.
    pub fn subject_ids(&self) -> (r: &[SubjectId])
        ensures
            subject_views(r@) == self@.subject_ids,
            subjects_sorted(self@.subject_ids),
    {
        proof {
            use_type_invariant(self);
        }
        self.subject_ids.as_slice()
    }

    /// Returns caller-provided subject names used for fuzzy evidence.
    pub fn subject_names(&self) -> (r: &[String])
        ensures
            strings(r@) == self@.subject_names,
            strictly_sorted(self@.subject_names),
    {
        proof {
            use_type_invariant(self);
        }
        self.subject_names.as_slice()
    }

    /// Returns the optional finding title.
    pub fn title(&self) -> (r: Option<&str>)
        ensures
            crate::fingerprint::opt_view(r) == self@.title,
    {
        as_opt_str(&self.title)
    }

    /// Returns the optional location, such as a path, repository, or image.
    pub fn location(&self) -> (r: Option<&str>)
        ensures
            crate::fingerprint::opt_view(r) == self@.location,
    {
        as_opt_str(&self.location)
    }

    /// Returns the optional affected version supplied separately from subject identifiers.
    pub fn affected_version(&self) -> (r: Option<&str>)
        ensures
            crate::fingerprint::opt_view(r) == self@.affected_version,
    {
        as_opt_str(&self.affected_version)
    }
}

impl Clone for Candidate {
    fn clone(&self) -> (r: Self)
        ensures
            r@ == self@,
    {
        proof {
            use_type_invariant(self);
        }
        let mut issue_ids: Vec<IssueId> = Vec::new();
        let mut i: usize = 0;
        while i < self.issue_ids.len()
            invariant
                i <= self.issue_ids@.len(),
                issue_ids@.len() == i,
                forall|k: int| 0 <= k < i ==> (#[trigger] issue_ids@[k])@ == self.issue_ids@[k]@,
            decreases self.issue_ids.len() - i,
        {
            issue_ids.push(self.issue_ids[i].clone());
            i = i + 1;
        }
        let mut subject_ids: Vec<SubjectId> = Vec::new();
        let mut i: usize = 0;
        while i < self.subject_ids.len()
            invariant
                i <= self.subject_ids@.len(),
                subject_ids@.len() == i,
                forall|k: int| 0 <= k < i ==> (#[trigger] subject_ids@[k])@ == self.subject_ids@[k]@,
            decreases self.subject_ids.len() - i,
        {
            subject_ids.push(self.subject_ids[i].clone());
            i = i + 1;
        }
        let mut subject_names: Vec<String> = Vec::new();
        let mut i: usize = 0;
        while i < self.subject_names.len()
            invariant
                i <= self.subject_names@.len(),
                subject_names@.len() == i,
                forall|k: int| 0 <= k < i ==> (#[trigger] subject_names@[k])@ == self.subject_names@[k]@,
            decreases self.subject_names.len() - i,
        {
            subject_names.push(self.subject_names[i].clone());
            i = i + 1;
        }
        assert(issue_views(issue_ids@) =~= issue_views(self.issue_ids@));
        assert(subject_views(subject_ids@) =~= subject_views(self.subject_ids@));
        assert(strings(subject_names@) =~= strings(self.subject_names@));
        Candidate {
            origin: self.origin.clone(),
            partition: self.partition.clone(),
            kind: self.kind.clone(),
            issue_ids,
            subject_ids,
            subject_names,
            title: clone_opt(&self.title),
            location: clone_opt(&self.location),
            affected_version: clone_opt(&self.affected_version),
        }
    }
}

// ---------------------------------------------------------------------------
// The builder.
// ---------------------------------------------------------------------------

/// The value of a [`CandidateBuilder`]: everything supplied so far, raw.
pub struct BuilderView {
    /// The source name.
    pub source: Seq<char>,
    /// The optional source subtype.
    pub subtype: Option<Seq<char>>,
    /// The native identifier.
    pub native_id: Seq<char>,
    /// The partition, if set.
    pub partition: Option<Seq<char>>,
    /// The finding class.
    pub kind: KindView,
    /// Raw issue identifiers, in the order added.
    pub issue_ids: Seq<Seq<char>>,
    /// Subject identifiers, in the order added.
    pub subject_ids: Seq<SubjectView>,
    /// Raw subject names, in the order added.
    pub subject_names: Seq<Seq<char>>,
    /// The raw title, if set.
    pub title: Option<Seq<char>>,
    /// The raw location, if set.
    pub location: Option<Seq<char>>,
    /// The raw affected version, if set.
    pub affected_version: Option<Seq<char>>,
}

impl BuilderView {
    /// A builder with nothing supplied.
    pub open spec fn empty() -> BuilderView {
        BuilderView {
            source: Seq::empty(),
            subtype: None,
            native_id: Seq::empty(),
            partition: None,
            kind: KindView::Vulnerability,
            issue_ids: Seq::empty(),
            subject_ids: Seq::empty(),
            subject_names: Seq::empty(),
            title: None,
            location: None,
            affected_version: None,
        }
    }
}

/// Builds and validates a [`Candidate`].
#[derive(Debug)]
pub struct CandidateBuilder {
    source: String,
    subtype: Option<String>,
    native_id: String,
    partition: Option<String>,
    kind: FindingKind,
    issue_ids: Vec<String>,
    subject_ids: Vec<SubjectId>,
    subject_names: Vec<String>,
    title: Option<String>,
    location: Option<String>,
    affected_version: Option<String>,
}

impl View for CandidateBuilder {
    type V = BuilderView;

    closed spec fn view(&self) -> BuilderView {
        BuilderView {
            source: self.source@,
            subtype: opt_string(self.subtype),
            native_id: self.native_id@,
            partition: opt_string(self.partition),
            kind: self.kind@,
            issue_ids: strings(self.issue_ids@),
            subject_ids: subject_views(self.subject_ids@),
            subject_names: strings(self.subject_names@),
            title: opt_string(self.title),
            location: opt_string(self.location),
            affected_version: opt_string(self.affected_version),
        }
    }
}

impl Default for CandidateBuilder {
    fn default() -> (b: Self)
        ensures
            b@ == BuilderView::empty(),
    {
        proof {
            reveal_strlit("");
            assert(""@ =~= Seq::<char>::empty());
        }
        Candidate::builder("", "")
    }
}

/// The error of the first invalid issue identifier from index `i` on.
pub open spec fn issues_error_from(v: Seq<Seq<char>>, i: int) -> Option<CandidateErrorView>
    decreases v.len() - i,
{
    if i < 0 || i >= v.len() {
        None
    } else {
        match issue_id_spec(v[i]) {
            Err(e) => Some(e),
            Ok(_) => issues_error_from(v, i + 1),
        }
    }
}

/// The error of the first invalid subject name from index `i` on.
pub open spec fn names_error_from(v: Seq<Seq<char>>, i: int) -> Option<CandidateErrorView>
    decreases v.len() - i,
{
    if i < 0 || i >= v.len() {
        None
    } else {
        match required_text(v[i], "subject_name"@) {
            Err(e) => Some(e),
            Ok(_) => names_error_from(v, i + 1),
        }
    }
}

/// The error of a custom finding kind, if any.
pub open spec fn kind_error(k: KindView) -> Option<CandidateErrorView> {
    match k {
        KindView::Other(v) => match required_text(v, "kind"@) {
            Err(e) => Some(e),
            Ok(_) => None,
        },
        _ => None,
    }
}

/// The error of a required field, if any.
pub open spec fn required_error(value: Seq<char>, field: Seq<char>) -> Option<CandidateErrorView> {
    match required_text(value, field) {
        Err(e) => Some(e),
        Ok(_) => None,
    }
}

/// The error of an optional field, if any.
pub open spec fn optional_error(value: Option<Seq<char>>, field: Seq<char>) -> Option<CandidateErrorView> {
    match optional_text(value, field) {
        Err(e) => Some(e),
        Ok(_) => None,
    }
}

/// The first of two possible errors.
pub open spec fn or_else(first: Option<CandidateErrorView>, second: Option<CandidateErrorView>) -> Option<
    CandidateErrorView,
> {
    if first is Some {
        first
    } else {
        second
    }
}

/// The partition a builder supplies; unset counts as empty.
pub open spec fn partition_or_empty(b: BuilderView) -> Seq<char> {
    match b.partition {
        Some(p) => p,
        None => Seq::empty(),
    }
}

/// The error that [`CandidateBuilder::build`] reports, if any: the source,
/// native ID, partition, subtype, title, location, affected version, custom
/// kind, each issue in order, each subject name in order, and finally the
/// absence of all evidence.
pub open spec fn build_error(b: BuilderView) -> Option<CandidateErrorView> {
    or_else(
        required_error(b.source, "source"@),
        or_else(
            required_error(b.native_id, "native_id"@),
            or_else(
                required_error(partition_or_empty(b), "partition"@),
                or_else(
                    optional_error(b.subtype, "subtype"@),
                    or_else(
                        optional_error(b.title, "title"@),
                        or_else(
                            optional_error(b.location, "location"@),
                            or_else(
                                optional_error(b.affected_version, "affected_version"@),
                                or_else(
                                    kind_error(b.kind),
                                    or_else(
                                        issues_error_from(b.issue_ids, 0),
                                        or_else(
                                            names_error_from(b.subject_names, 0),
                                            if no_evidence(b) {
                                                Some(CandidateErrorView::NoEvidence)
                                            } else {
                                                None
                                            },
                                        ),
                                    ),
                                ),
                            ),
                        ),
                    ),
                ),
            ),
        ),
    )
}

/// Whether a builder carries no evidence at all.
pub open spec fn no_evidence(b: BuilderView) -> bool {
    b.issue_ids.len() == 0 && b.subject_ids.len() == 0 && b.subject_names.len() == 0 && b.title is None
}

/// The normalized issue identifiers a builder supplies.
pub open spec fn normalized_issues(v: Seq<Seq<char>>) -> Set<Seq<char>> {
    Set::new(
        |x: Seq<char>| exists|i: int| 0 <= i < v.len() && #[trigger] issue_id_spec(v[i]) == Ok::<Seq<char>, CandidateErrorView>(x),
    )
}

/// The trimmed subject names a builder supplies.
pub open spec fn trimmed_names(v: Seq<Seq<char>>) -> Set<Seq<char>> {
    Set::new(|x: Seq<char>| exists|i: int| 0 <= i < v.len() && #[trigger] trim(v[i]) == x)
}

/// The trimmed value of a field that has no error.
pub open spec fn trimmed(v: Seq<char>) -> Seq<char> {
    trim(v)
}

/// The trimmed value of an optional field that has no error.
pub open spec fn trimmed_opt(v: Option<Seq<char>>) -> Option<Seq<char>> {
    match v {
        Some(s) => Some(trim(s)),
        None => None,
    }
}

/// The normalized finding kind: custom values trimmed.
pub open spec fn normalized_kind(k: KindView) -> KindView {
    match k {
        KindView::Other(v) => KindView::Other(trim(v)),
        _ => k,
    }
}

/// Whether `c` is the candidate that a valid builder `b` produces: every text
/// trimmed, the custom kind trimmed, the issues normalized, and the issue,
/// subject, and name lists sorted and free of duplicates with exactly the
/// supplied values (subjects up to kind and canonical text, each the first
/// supplied identifier of its kind and canonical text).
pub open spec fn built_from(c: CandidateView, b: BuilderView) -> bool {
    &&& c.origin == OriginView {
        source: trim(b.source),
        subtype: trimmed_opt(b.subtype),
        native_id: trim(b.native_id),
    }
    &&& c.partition == trim(partition_or_empty(b))
    &&& c.kind == normalized_kind(b.kind)
    &&& c.title == trimmed_opt(b.title)
    &&& c.location == trimmed_opt(b.location)
    &&& c.affected_version == trimmed_opt(b.affected_version)
    &&& strictly_sorted(c.issue_ids)
    &&& c.issue_ids.to_set() == normalized_issues(b.issue_ids)
    &&& subjects_sorted(c.subject_ids)
    &&& subject_keys(c.subject_ids) == subject_keys(b.subject_ids)
    &&& forall|k: int| 0 <= k < c.subject_ids.len() ==> first_of_key(b.subject_ids, #[trigger] c.subject_ids[k])
    &&& strictly_sorted(c.subject_names)
    &&& c.subject_names.to_set() == trimmed_names(b.subject_names)
}

impl CandidateBuilder {
    /// Sets an optional subtype within the source.
    pub fn subtype(self, subtype: &str) -> (b: Self)
        ensures
            b@ == (BuilderView { subtype: Some(subtype@), ..self@ }),
    {
        CandidateBuilder { subtype: Some(String::from_str(subtype)), ..self }
    }

    /// Sets the hard correlation boundary.
    ///
    /// Candidates in different partitions are never comparable. Use a literal
    /// value such as `"global"` only when cross-asset correlation is intended.
    pub fn partition(self, partition: &str) -> (b: Self)
        ensures
            b@ == (BuilderView { partition: Some(partition@), ..self@ }),
    {
        CandidateBuilder { partition: Some(String::from_str(partition)), ..self }
    }

    /// Sets the finding class.
    pub fn kind(self, kind: FindingKind) -> (b: Self)
        ensures
            b@ == (BuilderView { kind: kind@, ..self@ }),
    {
        CandidateBuilder { kind, ..self }
    }

    /// Adds an issue identifier or alias.
    pub fn issue(self, issue_id: &str) -> (b: Self)
        ensures
            b@ == (BuilderView { issue_ids: self@.issue_ids.push(issue_id@), ..self@ }),
    {
        let mut this = self;
        let ghost before = strings(this.issue_ids@);
        this.issue_ids.push(String::from_str(issue_id));
        assert(strings(this.issue_ids@) =~= before.push(issue_id@));
        this
    }

    /// Adds another alias for the same atomic issue.
    pub fn issue_alias(self, issue_id: &str) -> (b: Self)
        ensures
            b@ == (BuilderView { issue_ids: self@.issue_ids.push(issue_id@), ..self@ }),
    {
        self.issue(issue_id)
    }

    /// Adds a parsed Package URL subject identifier.
    pub fn purl(self, value: &str) -> (r: Result<Self, IdentityError>)
        ensures
            match r {
                Ok(b) => crate::purl::purl_parse_error(value@) is None && exists|p: crate::purl::PurlView|
                    crate::purl::purl_parsed_as(value@, p) && b@ == (BuilderView {
                        subject_ids: self@.subject_ids.push(SubjectView::Purl(p)),
                        ..self@
                    }),
                Err(e) => crate::purl::purl_parse_error(value@) == Some(e@),
            },
    {
        match NormalizedPurl::parse(value) {
            Ok(p) => Ok(self.subject(SubjectId::Purl(p))),
            Err(e) => Err(e),
        }
    }

    /// Adds a parsed CPE subject identifier.
    pub fn cpe(self, value: &str) -> (r: Result<Self, IdentityError>)
        ensures
            match (r, crate::cpe::cpe_parse_spec(value@)) {
                (Ok(b), Ok(f)) => b@ == (BuilderView {
                    subject_ids: self@.subject_ids.push(SubjectView::Cpe(f)),
                    ..self@
                }),
                (Err(e), Err(m)) => e@ == m,
                _ => false,
            },
    {
        match NormalizedCpe::parse(value) {
            Ok(c) => Ok(self.subject(SubjectId::Cpe(c))),
            Err(e) => Err(e),
        }
    }

    /// Adds an already normalized subject identifier.
    pub fn subject(self, subject: SubjectId) -> (b: Self)
        ensures
            b@ == (BuilderView { subject_ids: self@.subject_ids.push(subject@), ..self@ }),
    {
        let mut this = self;
        let ghost before = subject_views(this.subject_ids@);
        let ghost sv = subject@;
        this.subject_ids.push(subject);
        assert(subject_views(this.subject_ids@) =~= before.push(sv));
        this
    }

    /// Adds a human-readable subject name for fuzzy comparison.
    pub fn subject_name(self, name: &str) -> (b: Self)
        ensures
            b@ == (BuilderView { subject_names: self@.subject_names.push(name@), ..self@ }),
    {
        let mut this = self;
        let ghost before = strings(this.subject_names@);
        this.subject_names.push(String::from_str(name));
        assert(strings(this.subject_names@) =~= before.push(name@));
        this
    }

    /// Sets a title used as fuzzy supporting evidence.
    pub fn title(self, title: &str) -> (b: Self)
        ensures
            b@ == (BuilderView { title: Some(title@), ..self@ }),
    {
        CandidateBuilder { title: Some(String::from_str(title)), ..self }
    }

    /// Sets a location used as supporting evidence.
    pub fn location(self, location: &str) -> (b: Self)
        ensures
            b@ == (BuilderView { location: Some(location@), ..self@ }),
    {
        CandidateBuilder { location: Some(String::from_str(location)), ..self }
    }

    /// Sets an affected version when it is not already encoded in the subject ID.
    pub fn affected_version(self, version: &str) -> (b: Self)
        ensures
            b@ == (BuilderView { affected_version: Some(version@), ..self@ }),
    {
        CandidateBuilder { affected_version: Some(String::from_str(version)), ..self }
    }

    /// Validates and builds the candidate.
    ///
    /// Required identity fields must not be blank, no text may contain a
    /// control character, and at least one issue, subject, subject name, or
    /// title must be supplied.
    #[verifier::rlimit(40)]
    pub fn build(self) -> (r: Result<Candidate, CandidateError>)
        ensures
            match r {
                Ok(c) => build_error(self@) is None && built_from(c@, self@),
                Err(e) => build_error(self@) == Some(e@),
            },
    {
        let ghost b = self@;
        proof {
            reveal_strlit("source");
            reveal_strlit("native_id");
            reveal_strlit("partition");
            reveal_strlit("");
            assert(""@ =~= Seq::<char>::empty());
        }
        let source = match required(self.source.as_str(), "source") {
            Ok(v) => v,
            Err(e) => return Err(e),
        };
        let native_id = match required(self.native_id.as_str(), "native_id") {
            Ok(v) => v,
            Err(e) => return Err(e),
        };
        let partition_raw: &str = match &self.partition {
            Some(p) => p.as_str(),
            None => "",
        };
        let partition = match required(partition_raw, "partition") {
            Ok(v) => v,
            Err(e) => return Err(e),
        };
        let subtype = match optional(&self.subtype, "subtype") {
            Ok(v) => v,
            Err(e) => return Err(e),
        };
        let title = match optional(&self.title, "title") {
            Ok(v) => v,
            Err(e) => return Err(e),
        };
        let location = match optional(&self.location, "location") {
            Ok(v) => v,
            Err(e) => return Err(e),
        };
        let affected_version = match optional(&self.affected_version, "affected_version") {
            Ok(v) => v,
            Err(e) => return Err(e),
        };
        let kind = match &self.kind {
            FindingKind::Other(v) => match required(v.as_str(), "kind") {
                Ok(t) => FindingKind::Other(t),
                Err(e) => return Err(e),
            },
            k => k.clone(),
        };
        let issues = match normalize_issues(&self.issue_ids) {
            Ok(v) => v,
            Err(e) => return Err(e),
        };
        let names = match normalize_names(&self.subject_names) {
            Ok(v) => v,
            Err(e) => return Err(e),
        };
        let subject_ids = normalize_subjects(&self.subject_ids);
        proof {
            evidence_kept(b, issue_views(issues@), subject_views(subject_ids@), strings(names@));
        }
        if issues.len() == 0 && subject_ids.len() == 0 && names.len() == 0 && title.is_none() {
            return Err(CandidateError::NoEvidence);
        }
        let c = Candidate {
            origin: Origin { source, subtype, native_id },
            partition,
            kind,
            issue_ids: issues,
            subject_ids,
            subject_names: names,
            title,
            location,
            affected_version,
        };
        Ok(c)
    }
}

/// A valid builder's lists are empty exactly when their normalized forms are.
proof fn evidence_kept(b: BuilderView, issues: Seq<Seq<char>>, subjects: Seq<SubjectView>, names: Seq<Seq<char>>)
    requires
        issues.to_set() == normalized_issues(b.issue_ids),
        issues_error_from(b.issue_ids, 0) is None,
        subject_keys(subjects) == subject_keys(b.subject_ids),
        names.to_set() == trimmed_names(b.subject_names),
    ensures
        (issues.len() == 0) == (b.issue_ids.len() == 0),
        (subjects.len() == 0) == (b.subject_ids.len() == 0),
        (names.len() == 0) == (b.subject_names.len() == 0),
{
    if b.issue_ids.len() > 0 {
        lemma_issues_ok(b.issue_ids, 0, 0);
        let x = issue_id_spec(b.issue_ids[0])->Ok_0;
        assert(normalized_issues(b.issue_ids).contains(x));
        assert(issues.contains(x));
    }
    if issues.len() > 0 {
        assert(issues.to_set().contains(issues[0]));
    }
    if b.subject_ids.len() > 0 {
        assert(subject_keys(b.subject_ids).contains(subject_key(b.subject_ids[0])));
        let k = subject_key(b.subject_ids[0]);
        assert(exists|i: int| 0 <= i < subjects.len() && #[trigger] subject_key(subjects[i]) == k);
    }
    if subjects.len() > 0 {
        assert(subject_keys(subjects).contains(subject_key(subjects[0])));
        let k = subject_key(subjects[0]);
        assert(exists|i: int| 0 <= i < b.subject_ids.len() && #[trigger] subject_key(b.subject_ids[i]) == k);
    }
    if b.subject_names.len() > 0 {
        assert(trimmed_names(b.subject_names).contains(trim(b.subject_names[0])));
        assert(names.contains(trim(b.subject_names[0])));
    }
    if names.len() > 0 {
        assert(names.to_set().contains(names[0]));
    }
}

/// Without an error from index `i` on, every identifier from `i` on is valid.
proof fn lemma_issues_ok(v: Seq<Seq<char>>, i: int, k: int)
    requires
        0 <= i <= k < v.len(),
        issues_error_from(v, i) is None,
    ensures
        issue_id_spec(v[k]) is Ok,
    decreases k - i,
{
    if i < k {
        lemma_issues_ok(v, i + 1, k);
    }
}

fn normalize_issues(raw: &Vec<String>) -> (r: Result<Vec<IssueId>, CandidateError>)
    ensures
        match r {
            Ok(v) => issues_error_from(strings(raw@), 0) is None && strictly_sorted(issue_views(v@))
                && issue_views(v@).to_set() == normalized_issues(strings(raw@)),
            Err(e) => issues_error_from(strings(raw@), 0) == Some(e@),
        },
{
    let ghost input = strings(raw@);
    let mut acc: Vec<String> = Vec::new();
    assert(strings(acc@).to_set() =~= Set::<Seq<char>>::empty());
    assert(normalized_issues(input.take(0)) =~= Set::<Seq<char>>::empty());
    let mut i: usize = 0;
    while i < raw.len()
        invariant
            i <= raw@.len(),
            input == strings(raw@),
            issues_error_from(input, 0) == issues_error_from(input, i as int),
            strictly_sorted(strings(acc@)),
            strings(acc@).to_set() == normalized_issues(input.take(i as int)),
        decreases raw.len() - i,
    {
        assert(input[i as int] == raw@[i as int]@);
        let id = match IssueId::new(raw[i].as_str()) {
            Ok(id) => id,
            Err(e) => return Err(e),
        };
        let ghost x = id@;
        insert_sorted_unique(&mut acc, id.0);
        proof {
            let t = input.take(i as int);
            let t1 = input.take(i + 1);
            assert forall|y: Seq<char>| #[trigger] normalized_issues(t1).contains(y) == normalized_issues(t).insert(x).contains(y) by {
                if y == x {
                    assert(issue_id_spec(t1[i as int]) == Ok::<Seq<char>, CandidateErrorView>(y));
                } else if normalized_issues(t).contains(y) {
                    let k = choose|k: int| 0 <= k < t.len() && #[trigger] issue_id_spec(t[k]) == Ok::<Seq<char>, CandidateErrorView>(y);
                    assert(t1[k] == t[k]);
                } else if normalized_issues(t1).contains(y) {
                    let k = choose|k: int| 0 <= k < t1.len() && #[trigger] issue_id_spec(t1[k]) == Ok::<Seq<char>, CandidateErrorView>(y);
                    if k < i {
                        assert(t[k] == t1[k]);
                    }
                }
            }
            assert(normalized_issues(t1) =~= normalized_issues(t).insert(x));
        }
        i = i + 1;
    }
    assert(input.take(raw.len() as int) =~= input);
    let mut out: Vec<IssueId> = Vec::new();
    let mut j: usize = 0;
    while j < acc.len()
        invariant
            j <= acc@.len(),
            out@.len() == j,
            forall|k: int| 0 <= k < j ==> (#[trigger] out@[k])@ == acc@[k]@,
        decreases acc.len() - j,
    {
        out.push(IssueId(acc[j].clone()));
        j = j + 1;
    }
    assert(issue_views(out@) =~= strings(acc@));
    Ok(out)
}

fn normalize_names(raw: &Vec<String>) -> (r: Result<Vec<String>, CandidateError>)
    ensures
        match r {
            Ok(v) => names_error_from(strings(raw@), 0) is None && strictly_sorted(strings(v@))
                && strings(v@).to_set() == trimmed_names(strings(raw@)),
            Err(e) => names_error_from(strings(raw@), 0) == Some(e@),
        },
{
    proof {
        reveal_strlit("subject_name");
    }
    let ghost input = strings(raw@);
    let mut acc: Vec<String> = Vec::new();
    assert(strings(acc@).to_set() =~= Set::<Seq<char>>::empty());
    assert(trimmed_names(input.take(0)) =~= Set::<Seq<char>>::empty());
    let mut i: usize = 0;
    while i < raw.len()
        invariant
            i <= raw@.len(),
            input == strings(raw@),
            names_error_from(input, 0) == names_error_from(input, i as int),
            strictly_sorted(strings(acc@)),
            strings(acc@).to_set() == trimmed_names(input.take(i as int)),
        decreases raw.len() - i,
    {
        assert(input[i as int] == raw@[i as int]@);
        let name = match required(raw[i].as_str(), "subject_name") {
            Ok(n) => n,
            Err(e) => return Err(e),
        };
        let ghost x = name@;
        insert_sorted_unique(&mut acc, name);
        proof {
            let t = input.take(i as int);
            let t1 = input.take(i + 1);
            assert forall|y: Seq<char>| #[trigger] trimmed_names(t1).contains(y) == trimmed_names(t).insert(x).contains(y) by {
                if y == x {
                    assert(trim(t1[i as int]) == y);
                } else if trimmed_names(t).contains(y) {
                    let k = choose|k: int| 0 <= k < t.len() && #[trigger] trim(t[k]) == y;
                    assert(t1[k] == t[k]);
                } else if trimmed_names(t1).contains(y) {
                    let k = choose|k: int| 0 <= k < t1.len() && #[trigger] trim(t1[k]) == y;
                    if k < i {
                        assert(t[k] == t1[k]);
                    }
                }
            }
            assert(trimmed_names(t1) =~= trimmed_names(t).insert(x));
        }
        i = i + 1;
    }
    assert(input.take(raw.len() as int) =~= input);
    Ok(acc)
}

/// A first identifier of a key stays first when more follow.
proof fn lemma_first_of_key_extend(v: Seq<SubjectView>, x: SubjectView, s: SubjectView)
    requires
        first_of_key(v, s),
    ensures
        first_of_key(v.push(x), s),
{
    let i = choose|i: int| 0 <= i < v.len() && v[i] == s && forall|j: int| 0 <= j < i ==> #[trigger] subject_key(v[j]) != subject_key(s);
    assert(v.push(x)[i] == s);
    assert forall|j: int| 0 <= j < i implies #[trigger] subject_key(v.push(x)[j]) != subject_key(s) by {
        assert(v.push(x)[j] == v[j]);
    }
}

/// An identifier of a new key is the first of its key.
proof fn lemma_first_of_key_new(v: Seq<SubjectView>, x: SubjectView)
    requires
        !subject_keys(v).contains(subject_key(x)),
    ensures
        first_of_key(v.push(x), x),
{
    let n = v.len() as int;
    assert(v.push(x)[n] == x);
    assert forall|j: int| 0 <= j < n implies #[trigger] subject_key(v.push(x)[j]) != subject_key(x) by {
        assert(v.push(x)[j] == v[j]);
        if subject_key(v[j]) == subject_key(x) {
            assert(subject_keys(v).contains(subject_key(x)));
        }
    }
}

fn normalize_subjects(raw: &Vec<SubjectId>) -> (r: Vec<SubjectId>)
    ensures
        subjects_sorted(subject_views(r@)),
        subject_keys(subject_views(r@)) == subject_keys(subject_views(raw@)),
        forall|k: int| 0 <= k < r@.len() ==> subject_views(raw@).contains(#[trigger] subject_views(r@)[k]),
        forall|k: int| 0 <= k < r@.len() ==> first_of_key(subject_views(raw@), #[trigger] subject_views(r@)[k]),
{
    let ghost input = subject_views(raw@);
    let mut acc: Vec<SubjectId> = Vec::new();
    assert(subject_keys(subject_views(acc@)) =~= subject_keys(input.take(0)));
    let mut i: usize = 0;
    while i < raw.len()
        invariant
            i <= raw@.len(),
            input == subject_views(raw@),
            subjects_sorted(subject_views(acc@)),
            subject_keys(subject_views(acc@)) == subject_keys(input.take(i as int)),
            forall|k: int| 0 <= k < acc@.len() ==> input.contains(#[trigger] subject_views(acc@)[k]),
            forall|k: int| 0 <= k < acc@.len() ==> first_of_key(input.take(i as int), #[trigger] subject_views(acc@)[k]),
        decreases raw.len() - i,
    {
        let item = raw[i].clone();
        assert(item@ == input[i as int]);
        let ghost before = subject_views(acc@);
        insert_subject_unique(&mut acc, item);
        proof {
            assert(input.take(i + 1) =~= input.take(i as int).push(input[i as int]));
            crate::identity::lemma_subject_keys_push(input.take(i as int), input[i as int]);
            let nv = subject_views(acc@);
            assert forall|k: int| 0 <= k < nv.len() implies input.contains(#[trigger] nv[k]) by {
                if before.contains(nv[k]) {
                    let m = choose|m: int| 0 <= m < before.len() && before[m] == nv[k];
                    assert(input.contains(before[m]));
                } else {
                    assert(nv[k] == input[i as int]);
                }
            }
            assert forall|k: int| 0 <= k < nv.len() implies first_of_key(input.take(i + 1), #[trigger] nv[k]) by {
                if before.contains(nv[k]) {
                    let m = choose|m: int| 0 <= m < before.len() && before[m] == nv[k];
                    assert(first_of_key(input.take(i as int), before[m]));
                    lemma_first_of_key_extend(input.take(i as int), input[i as int], nv[k]);
                } else {
                    assert(nv[k] == input[i as int]);
                    assert(!subject_keys(input.take(i as int)).contains(subject_key(input[i as int])));
                    lemma_first_of_key_new(input.take(i as int), input[i as int]);
                }
            }
        }
        i = i + 1;
    }
    assert(input.take(raw.len() as int) =~= input);
    acc
}

/// Building ignores the order and repetition of issue aliases and subject
/// names: builders that supply the same raw values, in any order and with any
/// repetition, produce candidates with identical issue and name lists.
pub proof fn lemma_build_order_independent(c1: CandidateView, b1: BuilderView, c2: CandidateView, b2: BuilderView)
    requires
        built_from(c1, b1),
        built_from(c2, b2),
        b1.issue_ids.to_set() == b2.issue_ids.to_set(),
        b1.subject_names.to_set() == b2.subject_names.to_set(),
    ensures
        c1.issue_ids == c2.issue_ids,
        c1.subject_names == c2.subject_names,
{
    assert forall|x: Seq<char>| #[trigger] normalized_issues(b1.issue_ids).contains(x) == normalized_issues(
        b2.issue_ids,
    ).contains(x) by {
        if normalized_issues(b1.issue_ids).contains(x) {
            let i = choose|i: int| 0 <= i < b1.issue_ids.len() && #[trigger] issue_id_spec(b1.issue_ids[i]) == Ok::<Seq<char>, CandidateErrorView>(x);
            assert(b1.issue_ids.to_set().contains(b1.issue_ids[i]));
            assert(b2.issue_ids.contains(b1.issue_ids[i]));
            let j = choose|j: int| 0 <= j < b2.issue_ids.len() && b2.issue_ids[j] == b1.issue_ids[i];
            assert(issue_id_spec(b2.issue_ids[j]) == Ok::<Seq<char>, CandidateErrorView>(x));
        }
        if normalized_issues(b2.issue_ids).contains(x) {
            let i = choose|i: int| 0 <= i < b2.issue_ids.len() && #[trigger] issue_id_spec(b2.issue_ids[i]) == Ok::<Seq<char>, CandidateErrorView>(x);
            assert(b2.issue_ids.to_set().contains(b2.issue_ids[i]));
            assert(b1.issue_ids.contains(b2.issue_ids[i]));
            let j = choose|j: int| 0 <= j < b1.issue_ids.len() && b1.issue_ids[j] == b2.issue_ids[i];
            assert(issue_id_spec(b1.issue_ids[j]) == Ok::<Seq<char>, CandidateErrorView>(x));
        }
    }
    assert(normalized_issues(b1.issue_ids) =~= normalized_issues(b2.issue_ids));
    crate::text::lemma_sorted_unique(c1.issue_ids, c2.issue_ids);
    assert forall|x: Seq<char>| #[trigger] trimmed_names(b1.subject_names).contains(x) == trimmed_names(
        b2.subject_names,
    ).contains(x) by {
        if trimmed_names(b1.subject_names).contains(x) {
            let i = choose|i: int| 0 <= i < b1.subject_names.len() && #[trigger] trim(b1.subject_names[i]) == x;
            assert(b1.subject_names.to_set().contains(b1.subject_names[i]));
            assert(b2.subject_names.contains(b1.subject_names[i]));
            let j = choose|j: int| 0 <= j < b2.subject_names.len() && b2.subject_names[j] == b1.subject_names[i];
            assert(trim(b2.subject_names[j]) == x);
        }
        if trimmed_names(b2.subject_names).contains(x) {
            let i = choose|i: int| 0 <= i < b2.subject_names.len() && #[trigger] trim(b2.subject_names[i]) == x;
            assert(b2.subject_names.to_set().contains(b2.subject_names[i]));
            assert(b1.subject_names.contains(b2.subject_names[i]));
            let j = choose|j: int| 0 <= j < b1.subject_names.len() && b1.subject_names[j] == b2.subject_names[i];
            assert(trim(b1.subject_names[j]) == x);
        }
    }
    assert(trimmed_names(b1.subject_names) =~= trimmed_names(b2.subject_names));
    crate::text::lemma_sorted_unique(c1.subject_names, c2.subject_names);
}

/// Two first identifiers of one key in a list are one identifier.
proof fn lemma_first_of_key_unique(v: Seq<SubjectView>, x: SubjectView, y: SubjectView)
    requires
        first_of_key(v, x),
        first_of_key(v, y),
        subject_key(x) == subject_key(y),
    ensures
        x == y,
{
    let i = choose|i: int| 0 <= i < v.len() && v[i] == x && forall|j: int| 0 <= j < i ==> #[trigger] subject_key(v[j]) != subject_key(x);
    let k = choose|k: int| 0 <= k < v.len() && v[k] == y && forall|j: int| 0 <= j < k ==> #[trigger] subject_key(v[j]) != subject_key(y);
    if i < k {
        assert(subject_key(v[i]) != subject_key(y));
    } else if k < i {
        assert(subject_key(v[k]) != subject_key(x));
    }
}

/// Building is a function of the builder's value: candidates built from
/// one builder value are equal.
pub proof fn lemma_build_deterministic(c1: CandidateView, c2: CandidateView, b: BuilderView)
    requires
        built_from(c1, b),
        built_from(c2, b),
    ensures
        c1 == c2,
{
    crate::text::lemma_sorted_unique(c1.issue_ids, c2.issue_ids);
    crate::text::lemma_sorted_unique(c1.subject_names, c2.subject_names);
    let s1 = c1.subject_ids;
    let s2 = c2.subject_ids;
    assert forall|x: SubjectView| #[trigger] s1.to_set().contains(x) implies s2.to_set().contains(x) by {
        let k = choose|k: int| 0 <= k < s1.len() && s1[k] == x;
        assert(first_of_key(b.subject_ids, s1[k]));
        assert(subject_keys(s1).contains(subject_key(x)));
        assert(subject_keys(s2).contains(subject_key(x)));
        let m = choose|m: int| 0 <= m < s2.len() && #[trigger] subject_key(s2[m]) == subject_key(x);
        assert(first_of_key(b.subject_ids, s2[m]));
        lemma_first_of_key_unique(b.subject_ids, x, s2[m]);
    }
    assert forall|x: SubjectView| #[trigger] s2.to_set().contains(x) implies s1.to_set().contains(x) by {
        let k = choose|k: int| 0 <= k < s2.len() && s2[k] == x;
        assert(first_of_key(b.subject_ids, s2[k]));
        assert(subject_keys(s2).contains(subject_key(x)));
        assert(subject_keys(s1).contains(subject_key(x)));
        let m = choose|m: int| 0 <= m < s1.len() && #[trigger] subject_key(s1[m]) == subject_key(x);
        assert(first_of_key(b.subject_ids, s1[m]));
        lemma_first_of_key_unique(b.subject_ids, x, s1[m]);
    }
    assert(s1.to_set() =~= s2.to_set());
    crate::identity::lemma_subjects_sorted_unique(s1, s2);
}

/// Whether `t`, upper-cased, begins with `p`.
pub open spec fn upper_begins_with(t: Seq<char>, p: Seq<char>) -> bool {
    t.len() >= p.len() && ascii_upper_all(t).take(p.len() as int) == p
}

/// Whether `t` names an identifier of the CVE, CWE, GHSA or RUSTSEC
/// namespace, in any ASCII case.
pub open spec fn in_uppercased_namespace(t: Seq<char>) -> bool {
    ||| upper_begins_with(t, "CVE-"@)
    ||| upper_begins_with(t, "CWE-"@)
    ||| upper_begins_with(t, "GHSA-"@)
    ||| upper_begins_with(t, "RUSTSEC-"@)
}

/// An upper-case prefix of letters and hyphens is met by `t`, ignoring case,
/// when `t` upper-cased begins with it.
proof fn lemma_upper_prefix(t: Seq<char>, p: Seq<char>)
    requires
        upper_begins_with(t, p),
        forall|i: int| 0 <= i < p.len() ==> ('A' <= #[trigger] p[i] && p[i] <= 'Z') || p[i] == '-',
    ensures
        starts_with_ignoring_ascii_case(t, p),
{
    assert forall|i: int| 0 <= i < p.len() implies crate::text::ascii_lower(#[trigger] t[i]) == crate::text::ascii_lower(p[i]) by {
        assert(ascii_upper_all(t).take(p.len() as int)[i] == p[i]);
        assert(crate::text::ascii_upper(t[i]) == p[i]);
        if 'a' <= t[i] && t[i] <= 'z' {
            assert((t[i] as u32) - 32 == p[i] as u32);
        }
    }
}

/// Identifiers of the CVE, CWE, GHSA and RUSTSEC namespaces are
/// case-insensitive: a value whose trimmed text begins with one of those
/// prefixes, in any ASCII case, and holds no control character normalizes
/// to the ASCII upper-casing of its trimmed text.
pub proof fn lemma_issue_namespaces_uppercased(value: Seq<char>)
    requires
        in_uppercased_namespace(trim(value)),
        !has_control(trim(value)),
    ensures
        issue_id_spec(value) == Ok::<Seq<char>, CandidateErrorView>(ascii_upper_all(trim(value))),
{
    let t = trim(value);
    reveal_strlit("CVE-");
    reveal_strlit("CWE-");
    reveal_strlit("GHSA-");
    reveal_strlit("RUSTSEC-");
    if upper_begins_with(t, "CVE-"@) {
        lemma_upper_prefix(t, "CVE-"@);
        assert("CVE-"@ =~= seq!['C', 'V', 'E', '-']);
    } else if upper_begins_with(t, "CWE-"@) {
        lemma_upper_prefix(t, "CWE-"@);
        assert("CWE-"@ =~= seq!['C', 'W', 'E', '-']);
    } else if upper_begins_with(t, "GHSA-"@) {
        lemma_upper_prefix(t, "GHSA-"@);
        assert("GHSA-"@ =~= seq!['G', 'H', 'S', 'A', '-']);
    } else {
        lemma_upper_prefix(t, "RUSTSEC-"@);
        assert("RUSTSEC-"@ =~= seq!['R', 'U', 'S', 'T', 'S', 'E', 'C', '-']);
    }
}

/// Two identifiers of those namespaces that differ only in ASCII case
/// normalize to the same identifier.
pub proof fn lemma_issue_case_insensitive(a: Seq<char>, b: Seq<char>)
    requires
        in_uppercased_namespace(trim(a)),
        !has_control(trim(a)),
        in_uppercased_namespace(trim(b)),
        !has_control(trim(b)),
        ascii_upper_all(trim(a)) == ascii_upper_all(trim(b)),
    ensures
        issue_id_spec(a) == issue_id_spec(b),
        issue_id_spec(a) is Ok,
{
    lemma_issue_namespaces_uppercased(a);
    lemma_issue_namespaces_uppercased(b);
}

/// Meeting an upper-case prefix of letters and hyphens, ignoring case, means
/// beginning with it once upper-cased.
proof fn lemma_prefix_upper(t: Seq<char>, p: Seq<char>)
    requires
        starts_with_ignoring_ascii_case(t, p),
        forall|i: int| 0 <= i < p.len() ==> ('A' <= #[trigger] p[i] && p[i] <= 'Z') || p[i] == '-',
    ensures
        upper_begins_with(t, p),
{
    assert forall|i: int| 0 <= i < p.len() implies #[trigger] ascii_upper_all(t).take(p.len() as int)[i] == p[i] by {
        assert(crate::text::ascii_lower(t[i]) == crate::text::ascii_lower(p[i]));
        if 'a' <= t[i] && t[i] <= 'z' {
            assert(crate::text::ascii_upper(t[i]) as u32 == t[i] as u32 - 32);
        } else if 'A' <= t[i] && t[i] <= 'Z' {
            assert(crate::text::ascii_lower(t[i]) as u32 == t[i] as u32 + 32);
        }
    }
    assert(ascii_upper_all(t).take(p.len() as int) =~= p);
}

/// Identifiers outside the CVE, CWE, GHSA and RUSTSEC namespaces keep their
/// case: they normalize to their trimmed text.
pub proof fn lemma_issue_other_case_kept(value: Seq<char>)
    requires
        !in_uppercased_namespace(trim(value)),
        issue_id_spec(value) is Ok,
    ensures
        issue_id_spec(value) == Ok::<Seq<char>, CandidateErrorView>(trim(value)),
{
    let t = trim(value);
    reveal_strlit("CVE-");
    reveal_strlit("CWE-");
    reveal_strlit("GHSA-");
    reveal_strlit("RUSTSEC-");
    assert("CVE-"@ =~= seq!['C', 'V', 'E', '-']);
    assert("CWE-"@ =~= seq!['C', 'W', 'E', '-']);
    assert("GHSA-"@ =~= seq!['G', 'H', 'S', 'A', '-']);
    assert("RUSTSEC-"@ =~= seq!['R', 'U', 'S', 'T', 'S', 'E', 'C', '-']);
    if starts_with_ignoring_ascii_case(t, "CVE-"@) {
        lemma_prefix_upper(t, "CVE-"@);
    }
    if starts_with_ignoring_ascii_case(t, "CWE-"@) {
        lemma_prefix_upper(t, "CWE-"@);
    }
    if starts_with_ignoring_ascii_case(t, "GHSA-"@) {
        lemma_prefix_upper(t, "GHSA-"@);
    }
    if starts_with_ignoring_ascii_case(t, "RUSTSEC-"@) {
        lemma_prefix_upper(t, "RUSTSEC-"@);
    }
}

} // verus!
