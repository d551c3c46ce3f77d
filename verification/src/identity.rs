//! Structured subject identifiers: the shared error type and [`SubjectId`].
use vstd::prelude::*;

use crate::cpe::{
    coordinate_fields, cpe23_prefix, cpe_details_compatible, cpe_identity_prefix, cpe_parse_spec,
    field_concrete, format_fields, legacy_body, FieldModel, NormalizedCpe,
};
use crate::purl::{
    purl_details_compatible, purl_identity_prefix, purl_parse_error, purl_parsed_as, NormalizedPurl,
    PurlView,
};
use crate::text::{chars_of, has_prefix, lex_lt, lex_sign, starts_with};

verus! {

/// An error while parsing or normalizing a structured subject identifier.
#[derive(Clone, Debug, Eq, PartialEq)]
#[non_exhaustive]
pub enum IdentityError {
    /// A Package URL failed its underlying syntax or type-specific validation.
    InvalidPurl {
        /// A dependency-independent explanation of the parse failure.
        reason: String,
    },
    /// A percent sign was not followed by exactly two hexadecimal digits.
    InvalidPercentEscape {
        /// The byte offset of the invalid percent sign.
        position: usize,
    },
    /// A Package URL contained an explicit but empty version.
    EmptyPurlVersion,
    /// A Package URL qualifier was not a non-empty `key=value` pair.
    InvalidPurlQualifier {
        /// The invalid raw qualifier pair.
        qualifier: String,
    },
    /// A Package URL qualifier had an empty value.
    EmptyPurlQualifierValue {
        /// The qualifier key.
        key: String,
    },
    /// A Package URL repeated a qualifier key after case normalization.
    DuplicatePurlQualifier {
        /// The normalized duplicate key.
        key: String,
    },
    /// The input was not a supported CPE binding.
    UnsupportedCpeBinding,
    /// A CPE 2.3 formatted string did not contain exactly eleven components.
    CpeComponentCount {
        /// The required component count.
        expected: usize,
        /// The observed component count.
        actual: usize,
    },
    /// A legacy CPE URI contained fields the dependency would silently ignore.
    LegacyCpeComponentCount {
        /// The largest supported legacy component count.
        maximum: usize,
        /// The observed component count.
        actual: usize,
    },
    /// A CPE component ended with an incomplete backslash escape.
    InvalidCpeEscape {
        /// The zero-based component index.
        component: usize,
        /// The byte offset within that component.
        position: usize,
    },
    /// A CPE component was empty or contained a forbidden control character.
    InvalidCpeValue {
        /// The zero-based component index.
        component: usize,
        /// A stable explanation of the failed invariant.
        reason: &'static str,
    },
    /// The CPE part was not application, operating system, hardware, ANY, or NA.
    InvalidCpePart {
        /// The invalid decoded part.
        value: String,
    },
    /// A legacy CPE URI failed strict dependency parsing.
    InvalidLegacyCpe {
        /// A dependency-independent explanation of the parse failure.
        reason: String,
    },
    /// The input was neither a Package URL nor a supported CPE name.
    UnsupportedSubjectId,
}

/// The value of an [`IdentityError`], with text as characters.
pub enum IdentityErrorView {
    /// See [`IdentityError::InvalidPurl`].
    InvalidPurl(Seq<char>),
    /// See [`IdentityError::InvalidPercentEscape`].
    InvalidPercentEscape(usize),
    /// See [`IdentityError::EmptyPurlVersion`].
    EmptyPurlVersion,
    /// See [`IdentityError::InvalidPurlQualifier`].
    InvalidPurlQualifier(Seq<char>),
    /// See [`IdentityError::EmptyPurlQualifierValue`].
    EmptyPurlQualifierValue(Seq<char>),
    /// See [`IdentityError::DuplicatePurlQualifier`].
    DuplicatePurlQualifier(Seq<char>),
    /// See [`IdentityError::UnsupportedCpeBinding`].
    UnsupportedCpeBinding,
    /// See [`IdentityError::CpeComponentCount`]: expected, actual.
    CpeComponentCount(usize, usize),
    /// See [`IdentityError::LegacyCpeComponentCount`]: maximum, actual.
    LegacyCpeComponentCount(usize, usize),
    /// See [`IdentityError::InvalidCpeEscape`]: component, position.
    InvalidCpeEscape(usize, usize),
    /// See [`IdentityError::InvalidCpeValue`]: component, reason.
    InvalidCpeValue(usize, Seq<char>),
    /// See [`IdentityError::InvalidCpePart`].
    InvalidCpePart(Seq<char>),
    /// See [`IdentityError::InvalidLegacyCpe`].
    InvalidLegacyCpe(Seq<char>),
    /// See [`IdentityError::UnsupportedSubjectId`].
    UnsupportedSubjectId,
}

impl View for IdentityError {
    type V = IdentityErrorView;

    open spec fn view(&self) -> IdentityErrorView {
        match self {
            IdentityError::InvalidPurl { reason } => IdentityErrorView::InvalidPurl(reason@),
            IdentityError::InvalidPercentEscape { position } => IdentityErrorView::InvalidPercentEscape(
                *position,
            ),
            IdentityError::EmptyPurlVersion => IdentityErrorView::EmptyPurlVersion,
            IdentityError::InvalidPurlQualifier { qualifier } => IdentityErrorView::InvalidPurlQualifier(
                qualifier@,
            ),
            IdentityError::EmptyPurlQualifierValue { key } => IdentityErrorView::EmptyPurlQualifierValue(
                key@,
            ),
            IdentityError::DuplicatePurlQualifier { key } => IdentityErrorView::DuplicatePurlQualifier(
                key@,
            ),
            IdentityError::UnsupportedCpeBinding => IdentityErrorView::UnsupportedCpeBinding,
            IdentityError::CpeComponentCount { expected, actual } => IdentityErrorView::CpeComponentCount(
                *expected,
                *actual,
            ),
            IdentityError::LegacyCpeComponentCount {
                maximum,
                actual,
            } => IdentityErrorView::LegacyCpeComponentCount(*maximum, *actual),
            IdentityError::InvalidCpeEscape { component, position } => IdentityErrorView::InvalidCpeEscape(
                *component,
                *position,
            ),
            IdentityError::InvalidCpeValue { component, reason } => IdentityErrorView::InvalidCpeValue(
                *component,
                reason@,
            ),
            IdentityError::InvalidCpePart { value } => IdentityErrorView::InvalidCpePart(value@),
            IdentityError::InvalidLegacyCpe { reason } => IdentityErrorView::InvalidLegacyCpe(reason@),
            IdentityError::UnsupportedSubjectId => IdentityErrorView::UnsupportedSubjectId,
        }
    }
}

// ---------------------------------------------------------------------------
// Subject identifiers.
// ---------------------------------------------------------------------------

/// The value of a [`SubjectId`].
pub enum SubjectView {
    /// A Package URL.
    Purl(PurlView),
    /// A CPE name, by its eleven components.
    Cpe(Seq<FieldModel>),
}

/// The Package URL scheme prefix.
pub open spec fn purl_scheme() -> Seq<char> {
    seq!['p', 'k', 'g', ':']
}

/// Why a string is rejected as a subject identifier, if it is: `pkg:` selects
/// the Package URL parser, the CPE bindings select the CPE parser, and
/// anything else is unsupported.
pub open spec fn subject_parse_error(value: Seq<char>) -> Option<IdentityErrorView> {
    if has_prefix(value, purl_scheme()) {
        purl_parse_error(value)
    } else if has_prefix(value, cpe23_prefix()) || legacy_body(value) is Some {
        match cpe_parse_spec(value) {
            Err(e) => Some(e),
            Ok(_) => None,
        }
    } else {
        Some(IdentityErrorView::UnsupportedSubjectId)
    }
}

/// Whether `s` is what an accepted string parses to.
pub open spec fn subject_parsed_as(value: Seq<char>, s: SubjectView) -> bool {
    if has_prefix(value, purl_scheme()) {
        s matches SubjectView::Purl(p) && purl_parsed_as(value, p)
    } else {
        s matches SubjectView::Cpe(f) && cpe_parse_spec(value) == Ok::<Seq<FieldModel>, IdentityErrorView>(f)
    }
}

/// The canonical identifier text.
pub open spec fn subject_canonical(s: SubjectView) -> Seq<char> {
    match s {
        SubjectView::Purl(p) => p.canonical,
        SubjectView::Cpe(f) => format_fields(f),
    }
}

/// The identifier kind: `purl` or `cpe`.
pub open spec fn subject_kind_tag(s: SubjectView) -> Seq<char> {
    match s {
        SubjectView::Purl(_) => "purl"@,
        SubjectView::Cpe(_) => "cpe"@,
    }
}

/// The key-domain-separated identity used in keys.
pub open spec fn subject_full_identity(s: SubjectView) -> Seq<char> {
    match s {
        SubjectView::Purl(p) => purl_identity_prefix() + p.canonical,
        SubjectView::Cpe(f) => cpe_identity_prefix() + format_fields(f),
    }
}

/// The versionless package or product coordinate.
pub open spec fn subject_coordinate(s: SubjectView) -> Seq<char> {
    match s {
        SubjectView::Purl(p) => p.coordinate,
        SubjectView::Cpe(f) => format_fields(coordinate_fields(f)),
    }
}

/// The concrete version, if any.
pub open spec fn subject_version(s: SubjectView) -> Option<Seq<char>> {
    match s {
        SubjectView::Purl(p) => p.version,
        SubjectView::Cpe(f) => field_concrete(f[3]),
    }
}

/// The package name, or the concrete CPE product (empty for ANY and NA).
pub open spec fn subject_name_of(s: SubjectView) -> Seq<char> {
    match s {
        SubjectView::Purl(p) => p.name,
        SubjectView::Cpe(f) => match field_concrete(f[2]) {
            Some(n) => n,
            None => Seq::empty(),
        },
    }
}

/// Whether two identifiers of the same kind can describe the same subject
/// without contradicting details; identifiers of different kinds never can.
pub open spec fn subjects_compatible(a: SubjectView, b: SubjectView) -> bool {
    match (a, b) {
        (SubjectView::Purl(x), SubjectView::Purl(y)) => purl_details_compatible(x, y),
        (SubjectView::Cpe(x), SubjectView::Cpe(y)) => cpe_details_compatible(x, y),
        _ => false,
    }
}

/// The rank of an identifier kind: Package URLs sort before CPE names.
pub open spec fn subject_rank(s: SubjectView) -> int {
    match s {
        SubjectView::Purl(_) => 0,
        SubjectView::Cpe(_) => 1,
    }
}

/// The three-way order of identifiers: by kind, then by canonical text.
pub open spec fn subject_sign(a: SubjectView, b: SubjectView) -> int {
    if subject_rank(a) < subject_rank(b) {
        -1
    } else if subject_rank(a) > subject_rank(b) {
        1
    } else {
        lex_sign(subject_canonical(a), subject_canonical(b))
    }
}

/// Whether `a` sorts strictly before `b`.
pub open spec fn subject_lt(a: SubjectView, b: SubjectView) -> bool {
    subject_sign(a, b) < 0
}

/// The identifier order is antisymmetric.
pub proof fn lemma_subject_antisym(a: SubjectView, b: SubjectView)
    ensures
        subject_sign(a, b) == -subject_sign(b, a),
        subject_sign(a, b) == 0 <==> (subject_rank(a) == subject_rank(b) && subject_canonical(a)
            == subject_canonical(b)),
{
    crate::text::lemma_lex_antisym(subject_canonical(a), subject_canonical(b));
}

/// The identifier order is transitive.
pub proof fn lemma_subject_trans(a: SubjectView, b: SubjectView, c: SubjectView)
    requires
        subject_lt(a, b),
        subject_lt(b, c),
    ensures
        subject_lt(a, c),
{
    if subject_rank(a) == subject_rank(b) && subject_rank(b) == subject_rank(c) {
        crate::text::lemma_lex_trans(subject_canonical(a), subject_canonical(b), subject_canonical(c));
    }
}

/// A normalized structured identifier for a finding subject.
#[derive(Debug, Eq, Hash, Ord, PartialEq, PartialOrd)]
#[non_exhaustive]
pub enum SubjectId {
    /// A Package URL identifier.
    Purl(NormalizedPurl),
    /// A CPE identifier.
    Cpe(NormalizedCpe),
}

impl View for SubjectId {
    type V = SubjectView;

    open spec fn view(&self) -> SubjectView {
        match self {
            SubjectId::Purl(p) => SubjectView::Purl(p@),
            SubjectId::Cpe(c) => SubjectView::Cpe(c@),
        }
    }
}

impl SubjectId {
    /// Parses a Package URL or supported CPE binding based on its prefix.
    pub fn parse(value: &str) -> (r: Result<SubjectId, IdentityError>)
        ensures
            match r {
                Ok(s) => subject_parse_error(value@) is None && subject_parsed_as(value@, s@),
                Err(e) => subject_parse_error(value@) == Some(e@),
            },
    {
        let v = chars_of(value);
        let scheme: [char; 4] = ['p', 'k', 'g', ':'];
        assert(scheme@ =~= purl_scheme());
        if starts_with(v.as_slice(), &scheme) {
            return match NormalizedPurl::parse(value) {
                Ok(p) => Ok(SubjectId::Purl(p)),
                Err(e) => Err(e),
            };
        }
        let prefix: [char; 8] = ['c', 'p', 'e', ':', '2', '.', '3', ':'];
        assert(prefix@ =~= cpe23_prefix());
        if starts_with(v.as_slice(), &prefix) || crate::cpe::legacy_body_of(&v).is_some() {
            match NormalizedCpe::parse(value) {
                Ok(c) => Ok(SubjectId::Cpe(c)),
                Err(e) => Err(e),
            }
        } else {
            Err(IdentityError::UnsupportedSubjectId)
        }
    }

    /// Returns the canonical identifier without its internal key-domain prefix.
    pub fn as_str(&self) -> (r: &str)
        ensures
            r@ == subject_canonical(self@),
    {
        match self {
            SubjectId::Purl(p) => p.as_str(),
            SubjectId::Cpe(c) => c.as_str(),
        }
    }

    /// Returns the canonical identifier as an owned string.
    pub fn to_string(&self) -> (r: String)
        ensures
            r@ == subject_canonical(self@),
    {
        String::from_str(self.as_str())
    }

    /// Returns the canonical identifier, as `as_str` does.
    pub fn as_ref(&self) -> (r: &str)
        ensures
            r@ == subject_canonical(self@),
    {
        self.as_str()
    }

    /// Returns the Package URL when this is a PURL identifier.
    pub fn as_purl(&self) -> (r: Option<&NormalizedPurl>)
        ensures
            match self {
                SubjectId::Purl(p) => r == Some(p),
                SubjectId::Cpe(_) => r is None,
            },
    {
        match self {
            SubjectId::Purl(p) => Some(p),
            SubjectId::Cpe(_) => None,
        }
    }

    /// Returns the CPE when this is a CPE identifier.
    pub fn as_cpe(&self) -> (r: Option<&NormalizedCpe>)
        ensures
            match self {
                SubjectId::Cpe(c) => r == Some(c),
                SubjectId::Purl(_) => r is None,
            },
    {
        match self {
            SubjectId::Cpe(c) => Some(c),
            SubjectId::Purl(_) => None,
        }
    }

    /// Returns the identifier kind used in keys: `purl` or `cpe`.
    pub fn kind_tag(&self) -> (r: &'static str)
        ensures
            r@ == subject_kind_tag(self@),
    {
        match self {
            SubjectId::Purl(_) => {
                proof {
                    reveal_strlit("purl");
                }
                "purl"
            },
            SubjectId::Cpe(_) => {
                proof {
                    reveal_strlit("cpe");
                }
                "cpe"
            },
        }
    }

    /// Returns the key-domain-separated identity used in keys.
    pub fn full_identity(&self) -> (r: &str)
        ensures
            r@ == subject_full_identity(self@),
    {
        match self {
            SubjectId::Purl(p) => p.full_identity(),
            SubjectId::Cpe(c) => c.full_identity(),
        }
    }

    /// Returns the versionless package or product coordinate used for blocking.
    pub fn coordinate(&self) -> (r: &str)
        ensures
            r@ == subject_coordinate(self@),
    {
        match self {
            SubjectId::Purl(p) => p.coordinate(),
            SubjectId::Cpe(c) => c.coordinate(),
        }
    }

    /// Returns the concrete version, if any.
    pub fn version(&self) -> (r: Option<&str>)
        ensures
            crate::fingerprint::opt_view(r) == subject_version(self@),
    {
        match self {
            SubjectId::Purl(p) => p.version(),
            SubjectId::Cpe(c) => c.version(),
        }
    }

    /// Returns the package name, or the concrete CPE product.
    pub fn subject_name(&self) -> (r: &str)
        ensures
            r@ == subject_name_of(self@),
    {
        match self {
            SubjectId::Purl(p) => p.name(),
            SubjectId::Cpe(c) => c.subject_name(),
        }
    }

    /// Returns whether two identifiers can describe the same structured
    /// subject without any of their concrete details contradicting each other.
    pub fn details_compatible(&self, other: &SubjectId) -> (r: bool)
        ensures
            r == subjects_compatible(self@, other@),
    {
        match (self, other) {
            (SubjectId::Purl(a), SubjectId::Purl(b)) => a.details_compatible(b),
            (SubjectId::Cpe(a), SubjectId::Cpe(b)) => a.details_compatible(b),
            _ => false,
        }
    }

    /// Compares two identifiers by kind, then by canonical text: negative,
    /// zero, or positive.
    pub fn compare(&self, other: &SubjectId) -> (r: i8)
        ensures
            r == subject_sign(self@, other@),
    {
        match (self, other) {
            (SubjectId::Purl(_), SubjectId::Cpe(_)) => -1,
            (SubjectId::Cpe(_), SubjectId::Purl(_)) => 1,
            _ => crate::text::compare_str(self.as_str(), other.as_str()),
        }
    }
}

/// Detail compatibility is symmetric.
pub proof fn lemma_details_compatible_symmetric(a: SubjectView, b: SubjectView)
    ensures
        subjects_compatible(a, b) == subjects_compatible(b, a),
{
    match (a, b) {
        (SubjectView::Purl(x), SubjectView::Purl(y)) => {
            assert(crate::purl::qualifiers_compatible(x.qualifiers, y.qualifiers)
                == crate::purl::qualifiers_compatible(y.qualifiers, x.qualifiers));
        },
        (SubjectView::Cpe(x), SubjectView::Cpe(y)) => {},
        _ => {},
    }
}

/// The views of subject identifiers.
pub open spec fn subject_views(v: Seq<SubjectId>) -> Seq<SubjectView> {
    Seq::new(v.len(), |i: int| v[i]@)
}

/// Whether identifiers are strictly increasing by kind and canonical text.
pub open spec fn subjects_sorted(v: Seq<SubjectView>) -> bool {
    forall|i: int, j: int| 0 <= i < j < v.len() ==> subject_lt(#[trigger] v[i], #[trigger] v[j])
}

/// The identifiers of `v` up to kind and canonical text.
pub open spec fn subject_keys(v: Seq<SubjectView>) -> Set<(int, Seq<char>)> {
    Set::new(|k: (int, Seq<char>)| exists|i: int| 0 <= i < v.len() && #[trigger] subject_key(v[i]) == k)
}

/// The kind rank and canonical text that identifiers are ordered and
/// deduplicated by.
pub open spec fn subject_key(s: SubjectView) -> (int, Seq<char>) {
    (subject_rank(s), subject_canonical(s))
}

/// Two identifier lists sorted strictly by key with the same elements are
/// equal.
pub proof fn lemma_subjects_sorted_unique(a: Seq<SubjectView>, b: Seq<SubjectView>)
    requires
        subjects_sorted(a),
        subjects_sorted(b),
        a.to_set() == b.to_set(),
    ensures
        a == b,
    decreases a.len(),
{
    if a.len() == 0 {
        if b.len() > 0 {
            assert(b.to_set().contains(b[0]));
        }
        assert(a =~= b);
    } else {
        assert(a.to_set().contains(a[0]));
        assert(b.contains(a[0]));
        assert(b.to_set().contains(b[0]));
        assert(a.contains(b[0]));
        let j = choose|j: int| 0 <= j < b.len() && b[j] == a[0];
        let i = choose|i: int| 0 <= i < a.len() && a[i] == b[0];
        if j > 0 {
            assert(subject_lt(b[0], b[j]));
            if i > 0 {
                assert(subject_lt(a[0], a[i]));
                lemma_subject_trans(b[0], a[0], b[0]);
            }
            lemma_subject_antisym(b[0], b[0]);
        }
        assert(a[0] == b[0]);
        let ra = a.drop_first();
        let rb = b.drop_first();
        assert forall|x: SubjectView| #[trigger] ra.to_set().contains(x) == rb.to_set().contains(x) by {
            if ra.contains(x) {
                let k = choose|k: int| 0 <= k < ra.len() && ra[k] == x;
                assert(a[k + 1] == x);
                assert(subject_lt(a[0], a[k + 1]));
                lemma_subject_antisym(a[0], x);
                assert(a.to_set().contains(x));
                assert(b.contains(x));
                let m = choose|m: int| 0 <= m < b.len() && b[m] == x;
                assert(m != 0);
                assert(rb[m - 1] == x);
            }
            if rb.contains(x) {
                let k = choose|k: int| 0 <= k < rb.len() && rb[k] == x;
                assert(b[k + 1] == x);
                assert(subject_lt(b[0], b[k + 1]));
                lemma_subject_antisym(b[0], x);
                assert(b.to_set().contains(x));
                assert(a.contains(x));
                let m = choose|m: int| 0 <= m < a.len() && a[m] == x;
                assert(m != 0);
                assert(ra[m - 1] == x);
            }
        }
        assert(ra.to_set() =~= rb.to_set());
        assert forall|p: int, q: int| 0 <= p < q < ra.len() implies subject_lt(#[trigger] ra[p], #[trigger] ra[q]) by {
            assert(subject_lt(a[p + 1], a[q + 1]));
        }
        assert forall|p: int, q: int| 0 <= p < q < rb.len() implies subject_lt(#[trigger] rb[p], #[trigger] rb[q]) by {
            assert(subject_lt(b[p + 1], b[q + 1]));
        }
        lemma_subjects_sorted_unique(ra, rb);
        assert(a =~= seq![a[0]] + ra);
        assert(b =~= seq![b[0]] + rb);
    }
}

/// Whether `s` is the first identifier of `v` with its key.
pub open spec fn first_of_key(v: Seq<SubjectView>, s: SubjectView) -> bool {
    exists|i: int| 0 <= i < v.len() && v[i] == s && forall|j: int| 0 <= j < i ==> #[trigger] subject_key(v[j]) != subject_key(s)
}

/// Appending an identifier adds its key.
pub proof fn lemma_subject_keys_push(v: Seq<SubjectView>, x: SubjectView)
    ensures
        subject_keys(v.push(x)) == subject_keys(v).insert(subject_key(x)),
{
    let nv = v.push(x);
    assert forall|k: (int, Seq<char>)| #[trigger] subject_keys(nv).contains(k) == subject_keys(v).insert(
        subject_key(x),
    ).contains(k) by {
        if k == subject_key(x) {
            assert(subject_key(nv[v.len() as int]) == k);
        } else if subject_keys(v).contains(k) {
            let i = choose|i: int| 0 <= i < v.len() && #[trigger] subject_key(v[i]) == k;
            assert(subject_key(nv[i]) == k);
        } else if subject_keys(nv).contains(k) {
            let i = choose|i: int| 0 <= i < nv.len() && #[trigger] subject_key(nv[i]) == k;
            assert(subject_key(v[i]) == k);
        }
    }
    assert(subject_keys(nv) =~= subject_keys(v).insert(subject_key(x)));
}

proof fn lemma_subject_sorted_insert(v: Seq<SubjectView>, j: int, item: SubjectView)
    requires
        subjects_sorted(v),
        0 <= j <= v.len(),
        forall|k: int| 0 <= k < j ==> subject_lt(#[trigger] v[k], item),
        j < v.len() ==> subject_lt(item, v[j]),
    ensures
        subjects_sorted(v.insert(j, item)),
        subject_keys(v.insert(j, item)) == subject_keys(v).insert(subject_key(item)),
{
    let nv = v.insert(j, item);
    assert forall|a: int, b: int| 0 <= a < b < nv.len() implies subject_lt(#[trigger] nv[a], #[trigger] nv[b]) by {
        if a < j && b == j {
        } else if a == j && b > j {
            if b - 1 > j {
                lemma_subject_trans(item, v[j], v[b - 1]);
            }
        } else if a < j && b > j {
            assert(subject_lt(v[a], v[b - 1]));
        } else if a > j {
            assert(nv[a] == v[a - 1]);
        }
    }
    assert forall|x: (int, Seq<char>)| #[trigger] subject_keys(nv).contains(x) == subject_keys(v).insert(
        subject_key(item),
    ).contains(x) by {
        if x == subject_key(item) {
            assert(subject_key(nv[j]) == x);
        } else if subject_keys(v).contains(x) {
            let k = choose|k: int| 0 <= k < v.len() && #[trigger] subject_key(v[k]) == x;
            if k < j {
                assert(subject_key(nv[k]) == x);
            } else {
                assert(subject_key(nv[k + 1]) == x);
            }
        } else if subject_keys(nv).contains(x) {
            let k = choose|k: int| 0 <= k < nv.len() && #[trigger] subject_key(nv[k]) == x;
            if k < j {
                assert(subject_key(v[k]) == x);
            } else if k > j {
                assert(subject_key(v[k - 1]) == x);
            }
        }
    }
    assert(subject_keys(nv) =~= subject_keys(v).insert(subject_key(item)));
}

/// Adds an identifier to a strictly sorted vector unless one with the same
/// kind and canonical text is already there.
pub fn insert_subject_unique(v: &mut Vec<SubjectId>, item: SubjectId)
    requires
        subjects_sorted(subject_views(old(v)@)),
    ensures
        subjects_sorted(subject_views(final(v)@)),
        subject_keys(subject_views(final(v)@)) == subject_keys(subject_views(old(v)@)).insert(
            subject_key(item@),
        ),
        forall|k: int|
            0 <= k < final(v)@.len() ==> subject_views(old(v)@).contains(#[trigger] subject_views(final(v)@)[k])
                || subject_views(final(v)@)[k] == item@,
        subject_keys(subject_views(old(v)@)).contains(subject_key(item@)) ==> subject_views(final(v)@) == subject_views(
            old(v)@,
        ),
{
    let ghost old_v = subject_views(v@);
    let mut j: usize = 0;
    let mut sign: i8 = 1;
    while j < v.len() && sign > 0
        invariant
            j <= v.len(),
            subject_views(v@) == old_v,
            subjects_sorted(old_v),
            forall|k: int| 0 <= k < j ==> subject_lt(#[trigger] old_v[k], item@),
            sign <= 0 ==> j < v.len() && sign as int == subject_sign(item@, old_v[j as int]),
        decreases v.len() - j + (if sign > 0 { 1int } else { 0int }),
    {
        let c = item.compare(&v[j]);
        assert(old_v[j as int] == v@[j as int]@);
        if c > 0 {
            proof {
                lemma_subject_antisym(item@, old_v[j as int]);
            }
            j = j + 1;
        } else {
            sign = c;
        }
    }
    if sign == 0 {
        proof {
            lemma_subject_antisym(item@, old_v[j as int]);
            assert(subject_key(old_v[j as int]) == subject_key(item@));
            assert(subject_keys(old_v).contains(subject_key(item@)));
            assert(subject_keys(old_v).insert(subject_key(item@)) =~= subject_keys(old_v));
            assert forall|k: int| 0 <= k < old_v.len() implies old_v.contains(#[trigger] old_v[k]) by {}
        }
        return;
    }
    let ghost iv = item@;
    proof {
        if subject_keys(old_v).contains(subject_key(iv)) {
            let m = choose|m: int| 0 <= m < old_v.len() && #[trigger] subject_key(old_v[m]) == subject_key(iv);
            lemma_subject_antisym(old_v[m], iv);
            if m < j {
                assert(subject_lt(old_v[m], iv));
            } else if m == j {
                lemma_subject_antisym(iv, old_v[m]);
            } else {
                assert(subject_lt(old_v[j as int], old_v[m]));
                lemma_subject_trans(iv, old_v[j as int], old_v[m]);
                lemma_subject_antisym(iv, old_v[m]);
            }
        }
    }
    v.insert(j, item);
    proof {
        assert(subject_views(v@) =~= old_v.insert(j as int, iv));
        lemma_subject_sorted_insert(old_v, j as int, iv);
        let nv = subject_views(v@);
        assert forall|k: int| 0 <= k < nv.len() implies old_v.contains(#[trigger] nv[k]) || nv[k] == iv by {
            if k < j {
                assert(nv[k] == old_v[k]);
            } else if k > j {
                assert(nv[k] == old_v[k - 1]);
            }
        }
    }
}

impl Clone for SubjectId {
    fn clone(&self) -> (r: Self)
        ensures
            r@ == self@,
    {
        match self {
            SubjectId::Purl(p) => SubjectId::Purl(p.clone()),
            SubjectId::Cpe(c) => SubjectId::Cpe(c.clone()),
        }
    }
}

impl From<NormalizedPurl> for SubjectId {
    fn from(value: NormalizedPurl) -> (r: SubjectId) {
        SubjectId::Purl(value)
    }
}

impl vstd::std_specs::convert::FromSpecImpl<NormalizedPurl> for SubjectId {
    open spec fn obeys_from_spec() -> bool {
        true
    }

    open spec fn from_spec(v: NormalizedPurl) -> SubjectId {
        SubjectId::Purl(v)
    }
}

impl From<NormalizedCpe> for SubjectId {
    fn from(value: NormalizedCpe) -> (r: SubjectId) {
        SubjectId::Cpe(value)
    }
}

impl vstd::std_specs::convert::FromSpecImpl<NormalizedCpe> for SubjectId {
    open spec fn obeys_from_spec() -> bool {
        true
    }

    open spec fn from_spec(v: NormalizedCpe) -> SubjectId {
        SubjectId::Cpe(v)
    }
}

impl core::str::FromStr for SubjectId {
    type Err = IdentityError;

    fn from_str(value: &str) -> Result<Self, Self::Err> {
        SubjectId::parse(value)
    }
}

} // verus!
