//! Structured and fuzzy evidence between two candidates of one partition and
//! kind, and the score and signals derived from it.
use vstd::prelude::*;

use crate::compare::{exact_signal, signal, signal_score_valid, Score, Signal, SignalField, SignalKind, SignalModel, signal_views};
use crate::config::{Config, ConfigView};
use crate::identity::{
    subject_coordinate, subject_key, subject_kind_tag, subject_name_of, subject_version, subject_views,
    subjects_compatible, SubjectId, SubjectView,
};
use crate::model::{issue_views, Candidate, CandidateView, IssueId};
use crate::normalize::{lemma_similarity_bounded, lemma_similarity_self, lemma_similarity_symmetric, similarity, similarity_spec};
use crate::text::{str_equal, strings};

verus! {

// ---------------------------------------------------------------------------
// Structured evidence.
// ---------------------------------------------------------------------------

/// Whether two issue lists share an identifier.
pub open spec fn shares_issue(a: Seq<Seq<char>>, b: Seq<Seq<char>>) -> bool {
    exists|i: int, j: int| #![trigger a[i], b[j]] 0 <= i < a.len() && 0 <= j < b.len() && a[i] == b[j]
}

/// Whether two subject lists share an identifier (by kind and canonical text).
pub open spec fn shares_subject(a: Seq<SubjectView>, b: Seq<SubjectView>) -> bool {
    exists|i: int, j: int|
        #![trigger a[i], b[j]]
        0 <= i < a.len() && 0 <= j < b.len() && subject_key(a[i]) == subject_key(b[j])
}

/// Whether two identifiers have the same kind and versionless coordinate.
pub open spec fn same_coordinate(x: SubjectView, y: SubjectView) -> bool {
    subject_kind_tag(x) == subject_kind_tag(y) && subject_coordinate(x) == subject_coordinate(y)
}

/// Whether two subject lists share a coordinate.
pub open spec fn coordinates_meet(a: Seq<SubjectView>, b: Seq<SubjectView>) -> bool {
    exists|i: int, j: int| #![trigger a[i], b[j]] 0 <= i < a.len() && 0 <= j < b.len() && same_coordinate(a[i], b[j])
}

/// Whether two subject lists share a coordinate with compatible details.
pub open spec fn compatible_coordinates_meet(a: Seq<SubjectView>, b: Seq<SubjectView>) -> bool {
    exists|i: int, j: int|
        #![trigger a[i], b[j]]
        0 <= i < a.len() && 0 <= j < b.len() && same_coordinate(a[i], b[j]) && subjects_compatible(a[i], b[j])
}

/// Whether two subject lists have identifiers of a common kind.
pub open spec fn kinds_meet(a: Seq<SubjectView>, b: Seq<SubjectView>) -> bool {
    exists|i: int, j: int|
        #![trigger a[i], b[j]]
        0 <= i < a.len() && 0 <= j < b.len() && subject_kind_tag(a[i]) == subject_kind_tag(b[j])
}

/// Whether a candidate names a version: its affected version or a subject's.
pub open spec fn version_in(c: CandidateView, v: Seq<char>) -> bool {
    ||| c.affected_version == Some(v)
    ||| exists|i: int| 0 <= i < c.subject_ids.len() && subject_version(#[trigger] c.subject_ids[i]) == Some(v)
}

/// Whether a candidate names any version.
pub open spec fn has_version(c: CandidateView) -> bool {
    exists|v: Seq<char>| #[trigger] version_in(c, v)
}

/// How the versions of two candidates relate: missing on either side, a
/// shared version, or only different ones.
pub open spec fn version_relation(l: CandidateView, r: CandidateView) -> SignalKind {
    if !has_version(l) || !has_version(r) {
        SignalKind::Missing
    } else if exists|v: Seq<char>| #[trigger] version_in(l, v) && version_in(r, v) {
        SignalKind::Exact
    } else {
        SignalKind::Different
    }
}

// ---------------------------------------------------------------------------
// Fuzzy evidence.
// ---------------------------------------------------------------------------

/// The names compared fuzzily: the subject names, then each identifier's
/// package or product name.
pub open spec fn fuzzy_names(c: CandidateView) -> Seq<Seq<char>> {
    c.subject_names + Seq::new(c.subject_ids.len(), |i: int| subject_name_of(c.subject_ids[i]))
}

/// Whether some text is non-empty.
pub open spec fn has_text(v: Seq<Seq<char>>) -> bool {
    exists|i: int| 0 <= i < v.len() && (#[trigger] v[i]).len() > 0
}

/// The larger of two scores.
pub open spec fn max_score(a: u16, b: u16) -> u16 {
    if a >= b {
        a
    } else {
        b
    }
}

/// The best similarity of `x` against any of `b`.
pub open spec fn best_against(x: Seq<char>, b: Seq<Seq<char>>) -> u16
    decreases b.len(),
{
    if b.len() == 0 {
        0
    } else {
        max_score(best_against(x, b.drop_last()), similarity_spec(x, b.last()))
    }
}

/// The best similarity of any pair, zero without pairs.
pub open spec fn best_similarity(a: Seq<Seq<char>>, b: Seq<Seq<char>>) -> u16
    decreases a.len(),
{
    if a.len() == 0 {
        0
    } else {
        max_score(best_similarity(a.drop_last(), b), best_against(a.last(), b))
    }
}

/// The similarity of two optional texts: zero unless both are present.
pub open spec fn optional_similarity(a: Option<Seq<char>>, b: Option<Seq<char>>) -> u16 {
    match (a, b) {
        (Some(x), Some(y)) => similarity_spec(x, y),
        _ => 0,
    }
}

// ---------------------------------------------------------------------------
// The evidence of a pair.
// ---------------------------------------------------------------------------

/// Everything compared between two candidates.
pub struct EvidenceView {
    /// An issue identifier is shared.
    pub shared_issue: bool,
    /// Both have issues, none shared.
    pub issue_conflict: bool,
    /// A subject identifier is shared.
    pub exact_subject: bool,
    /// A versionless coordinate is shared.
    pub coordinate_match: bool,
    /// A coordinate with compatible details is shared.
    pub compatible_coordinate_match: bool,
    /// Coordinates are shared, but only with conflicting details.
    pub subject_detail_conflict: bool,
    /// Shared issue, comparable subjects, and nothing shared among them.
    pub subject_conflict: bool,
    /// Both have subjects, of no common kind.
    pub cross_kind_subjects: bool,
    /// How the versions relate.
    pub version_relation: SignalKind,
    /// The best subject-name similarity.
    pub subject_name: u16,
    /// The title similarity.
    pub title: u16,
    /// The location similarity.
    pub location: u16,
    /// Both have a non-empty fuzzy name.
    pub has_subject_name_pair: bool,
    /// Both have a title.
    pub has_title_pair: bool,
    /// Both have a location.
    pub has_location_pair: bool,
}

/// The evidence between two candidates.
#[verifier::opaque]
pub open spec fn evidence_of(l: CandidateView, r: CandidateView) -> EvidenceView {
    let shared_issue = shares_issue(l.issue_ids, r.issue_ids);
    let exact_subject = shares_subject(l.subject_ids, r.subject_ids);
    let coordinate_match = coordinates_meet(l.subject_ids, r.subject_ids);
    let compatible = compatible_coordinates_meet(l.subject_ids, r.subject_ids);
    let comparable = kinds_meet(l.subject_ids, r.subject_ids);
    EvidenceView {
        shared_issue,
        issue_conflict: l.issue_ids.len() > 0 && r.issue_ids.len() > 0 && !shared_issue,
        exact_subject,
        coordinate_match,
        compatible_coordinate_match: compatible,
        subject_detail_conflict: coordinate_match && !compatible,
        subject_conflict: shared_issue && comparable && !coordinate_match && !exact_subject,
        cross_kind_subjects: l.subject_ids.len() > 0 && r.subject_ids.len() > 0 && !comparable,
        version_relation: version_relation(l, r),
        subject_name: best_similarity(fuzzy_names(l), fuzzy_names(r)),
        title: optional_similarity(l.title, r.title),
        location: optional_similarity(l.location, r.location),
        has_subject_name_pair: has_text(fuzzy_names(l)) && has_text(fuzzy_names(r)),
        has_title_pair: l.title is Some && r.title is Some,
        has_location_pair: l.location is Some && r.location is Some,
    }
}

/// A weighted share of a score, rounded down.
pub open spec fn contribution(score: u16, weight: int) -> int {
    (score as int) * weight / 10_000
}

/// The uncapped score: anchored by a shared issue and coordinate, a shared
/// issue, a shared subject, a shared coordinate, or else text alone.
pub open spec fn raw_score(e: EvidenceView) -> int {
    if e.shared_issue && e.coordinate_match {
        8_500 + (if e.version_relation == SignalKind::Exact { 500int } else { 0int }) + contribution(e.title, 300)
            + contribution(e.location, 200)
    } else if e.shared_issue {
        5_000 + contribution(e.subject_name, 3_000) + contribution(e.title, 1_000) + contribution(e.location, 500)
    } else if e.exact_subject {
        6_000 + contribution(e.title, 2_000) + contribution(e.location, 1_000)
    } else if e.coordinate_match {
        5_500 + contribution(e.subject_name, 500) + contribution(e.title, 2_000) + contribution(e.location, 1_000)
    } else {
        max_score(e.subject_name, e.title) as int + contribution(e.location, 500)
    }
}

/// The fuzzy score, capped below the maximum so that only exact paths reach it.
pub open spec fn evidence_score(e: EvidenceView) -> u16 {
    if raw_score(e) >= 9_999 {
        9_999
    } else {
        raw_score(e) as u16
    }
}

/// Whether a pair may be merged automatically: a shared issue, comparable
/// subject kinds, no version or detail conflict, and a compatible coordinate
/// or a strong non-zero subject-name similarity.
pub open spec fn auto_eligible(cfg: ConfigView, e: EvidenceView) -> bool {
    let strong_name = e.has_subject_name_pair && e.subject_name > 0 && e.subject_name
        >= cfg.subject_similarity_threshold;
    &&& e.shared_issue
    &&& !e.cross_kind_subjects
    &&& e.version_relation != SignalKind::Different
    &&& !e.subject_detail_conflict
    &&& (e.compatible_coordinate_match || strong_name)
}

/// The signal of a fuzzy field: exact at the maximum, similar below it, and
/// missing without a pair.
pub open spec fn fuzzy_signal(field: SignalField, score: u16, compared: bool) -> SignalModel {
    if compared {
        signal(field, if score == 10_000 { SignalKind::Exact } else { SignalKind::Similar }, Some(score))
    } else {
        signal(field, SignalKind::Missing, None)
    }
}

/// The relationship reported for the subject.
pub open spec fn subject_signal_kind(e: EvidenceView) -> SignalKind {
    if e.exact_subject {
        SignalKind::Exact
    } else if e.subject_detail_conflict {
        SignalKind::Different
    } else if e.coordinate_match {
        SignalKind::Similar
    } else if e.subject_conflict {
        SignalKind::Different
    } else if e.cross_kind_subjects {
        SignalKind::Incomparable
    } else {
        SignalKind::Missing
    }
}

/// The signals of the evidence: issue, subject, version, subject name,
/// title, and location.
pub open spec fn evidence_signals(e: EvidenceView) -> Seq<SignalModel> {
    seq![
        signal(
            SignalField::Issue,
            if e.shared_issue {
                SignalKind::Exact
            } else if e.issue_conflict {
                SignalKind::Different
            } else {
                SignalKind::Missing
            },
            if e.shared_issue { Some(10_000u16) } else { None },
        ),
        signal(
            SignalField::Subject,
            subject_signal_kind(e),
            if e.exact_subject || e.compatible_coordinate_match { Some(10_000u16) } else { None },
        ),
        signal(
            SignalField::Version,
            e.version_relation,
            if e.version_relation == SignalKind::Exact { Some(10_000u16) } else { None },
        ),
        fuzzy_signal(SignalField::SubjectName, e.subject_name, e.has_subject_name_pair),
        fuzzy_signal(SignalField::Title, e.title, e.has_title_pair),
        fuzzy_signal(SignalField::Location, e.location, e.has_location_pair),
    ]
}

// ---------------------------------------------------------------------------
// Computing the evidence.
// ---------------------------------------------------------------------------

fn issues_meet(a: &[IssueId], b: &[IssueId]) -> (r: bool)
    ensures
        r == shares_issue(issue_views(a@), issue_views(b@)),
{
    let ghost av = issue_views(a@);
    let ghost bv = issue_views(b@);
    let mut i: usize = 0;
    while i < a.len()
        invariant
            i <= a@.len(),
            av == issue_views(a@),
            bv == issue_views(b@),
            forall|x: int, y: int| #![trigger av[x], bv[y]] 0 <= x < i && 0 <= y < bv.len() ==> av[x] != bv[y],
        decreases a.len() - i,
    {
        let mut j: usize = 0;
        while j < b.len()
            invariant
                i < a@.len(),
                j <= b@.len(),
                av == issue_views(a@),
                bv == issue_views(b@),
                forall|x: int, y: int| #![trigger av[x], bv[y]] 0 <= x < i && 0 <= y < bv.len() ==> av[x] != bv[y],
                forall|y: int| 0 <= y < j ==> av[i as int] != #[trigger] bv[y],
            decreases b.len() - j,
        {
            if str_equal(a[i].as_str(), b[j].as_str()) {
                assert(av[i as int] == bv[j as int]);
                return true;
            }
            j = j + 1;
        }
        i = i + 1;
    }
    false
}

pub(crate) fn subjects_meet(a: &[SubjectId], b: &[SubjectId]) -> (r: bool)
    ensures
        r == shares_subject(subject_views(a@), subject_views(b@)),
{
    let ghost av = subject_views(a@);
    let ghost bv = subject_views(b@);
    let mut i: usize = 0;
    while i < a.len()
        invariant
            i <= a@.len(),
            av == subject_views(a@),
            bv == subject_views(b@),
            forall|x: int, y: int|
                #![trigger av[x], bv[y]]
                0 <= x < i && 0 <= y < bv.len() ==> subject_key(av[x]) != subject_key(bv[y]),
        decreases a.len() - i,
    {
        let mut j: usize = 0;
        while j < b.len()
            invariant
                i < a@.len(),
                j <= b@.len(),
                av == subject_views(a@),
                bv == subject_views(b@),
                forall|x: int, y: int|
                    #![trigger av[x], bv[y]]
                    0 <= x < i && 0 <= y < bv.len() ==> subject_key(av[x]) != subject_key(bv[y]),
                forall|y: int| 0 <= y < j ==> subject_key(av[i as int]) != subject_key(#[trigger] bv[y]),
            decreases b.len() - j,
        {
            let c = a[i].compare(&b[j]);
            proof {
                crate::identity::lemma_subject_antisym(av[i as int], bv[j as int]);
            }
            if c == 0 {
                assert(subject_key(av[i as int]) == subject_key(bv[j as int]));
                return true;
            }
            j = j + 1;
        }
        i = i + 1;
    }
    false
}

/// Whether two identifiers have the same kind and coordinate.
fn same_coordinate_exec(x: &SubjectId, y: &SubjectId) -> (r: bool)
    ensures
        r == same_coordinate(x@, y@),
{
    str_equal(x.kind_tag(), y.kind_tag()) && str_equal(x.coordinate(), y.coordinate())
}

/// The coordinate, compatible-coordinate, and common-kind relations of two
/// subject lists.
fn subject_relations(a: &[SubjectId], b: &[SubjectId]) -> (r: (bool, bool, bool))
    ensures
        r.0 == coordinates_meet(subject_views(a@), subject_views(b@)),
        r.1 == compatible_coordinates_meet(subject_views(a@), subject_views(b@)),
        r.2 == kinds_meet(subject_views(a@), subject_views(b@)),
{
    let ghost av = subject_views(a@);
    let ghost bv = subject_views(b@);
    let mut coordinate = false;
    let mut compatible = false;
    let mut comparable = false;
    let mut i: usize = 0;
    while i < a.len()
        invariant
            i <= a@.len(),
            av == subject_views(a@),
            bv == subject_views(b@),
            coordinate == exists|x: int, y: int|
                #![trigger av[x], bv[y]]
                0 <= x < i && 0 <= y < bv.len() && same_coordinate(av[x], bv[y]),
            compatible == exists|x: int, y: int|
                #![trigger av[x], bv[y]]
                0 <= x < i && 0 <= y < bv.len() && same_coordinate(av[x], bv[y]) && subjects_compatible(av[x], bv[y]),
            comparable == exists|x: int, y: int|
                #![trigger av[x], bv[y]]
                0 <= x < i && 0 <= y < bv.len() && subject_kind_tag(av[x]) == subject_kind_tag(bv[y]),
        decreases a.len() - i,
    {
        let ghost c0 = coordinate;
        let ghost m0 = compatible;
        let ghost k0 = comparable;
        let mut j: usize = 0;
        while j < b.len()
            invariant
                i < a@.len(),
                j <= b@.len(),
                av == subject_views(a@),
                bv == subject_views(b@),
                c0 == exists|x: int, y: int|
                    #![trigger av[x], bv[y]]
                    0 <= x < i && 0 <= y < bv.len() && same_coordinate(av[x], bv[y]),
                m0 == exists|x: int, y: int|
                    #![trigger av[x], bv[y]]
                    0 <= x < i && 0 <= y < bv.len() && same_coordinate(av[x], bv[y]) && subjects_compatible(av[x], bv[y]),
                k0 == exists|x: int, y: int|
                    #![trigger av[x], bv[y]]
                    0 <= x < i && 0 <= y < bv.len() && subject_kind_tag(av[x]) == subject_kind_tag(bv[y]),
                coordinate == (c0 || exists|y: int| 0 <= y < j && same_coordinate(av[i as int], #[trigger] bv[y])),
                compatible == (m0 || exists|y: int|
                    0 <= y < j && same_coordinate(av[i as int], #[trigger] bv[y]) && subjects_compatible(av[i as int], bv[y])),
                comparable == (k0 || exists|y: int|
                    0 <= y < j && subject_kind_tag(av[i as int]) == subject_kind_tag(#[trigger] bv[y])),
            decreases b.len() - j,
        {
            assert(av[i as int] == a@[i as int]@);
            assert(bv[j as int] == b@[j as int]@);
            let same_kind = str_equal(a[i].kind_tag(), b[j].kind_tag());
            let same = same_kind && str_equal(a[i].coordinate(), b[j].coordinate());
            if same_kind {
                comparable = true;
            }
            if same {
                coordinate = true;
                if a[i].details_compatible(&b[j]) {
                    compatible = true;
                }
            }
            j = j + 1;
        }
        i = i + 1;
    }
    (coordinate, compatible, comparable)
}

/// The versions a candidate names, possibly repeated.
fn versions_of(c: &Candidate) -> (r: Vec<String>)
    ensures
        forall|v: Seq<char>| #[trigger] strings(r@).contains(v) <==> version_in(c@, v),
{
    let mut out: Vec<String> = Vec::new();
    match c.affected_version() {
        Some(v) => out.push(String::from_str(v)),
        None => {},
    }
    let ghost first = strings(out@);
    let subjects = c.subject_ids();
    let ghost sv = subject_views(subjects@);
    let mut i: usize = 0;
    while i < subjects.len()
        invariant
            i <= subjects@.len(),
            sv == subject_views(subjects@),
            sv == c@.subject_ids,
            first.len() <= 1,
            first.len() == 1 <==> c@.affected_version is Some,
            first.len() == 1 ==> c@.affected_version == Some(first[0]),
            forall|v: Seq<char>| #[trigger] strings(out@).contains(v) <==> (first.contains(v)
                || exists|k: int| 0 <= k < i && subject_version(#[trigger] sv[k]) == Some(v)),
        decreases subjects.len() - i,
    {
        assert(sv[i as int] == subjects@[i as int]@);
        let ghost before = strings(out@);
        match subjects[i].version() {
            Some(v) => {
                out.push(String::from_str(v));
                assert(strings(out@) =~= before.push(v@));
                proof {
                    assert forall|w: Seq<char>| #[trigger] strings(out@).contains(w) <==> (first.contains(w)
                        || exists|k: int| 0 <= k < i + 1 && subject_version(#[trigger] sv[k]) == Some(w)) by {
                        if w == v@ {
                            assert(strings(out@)[before.len() as int] == w);
                        }
                        if before.contains(w) {
                            let k = choose|k: int| 0 <= k < before.len() && before[k] == w;
                            assert(strings(out@)[k] == w);
                        }
                        if strings(out@).contains(w) && w != v@ {
                            let k = choose|k: int| 0 <= k < strings(out@).len() && strings(out@)[k] == w;
                            assert(before[k] == w);
                        }
                    }
                }
            },
            None => {
                proof {
                    assert forall|w: Seq<char>| #[trigger] strings(out@).contains(w) <==> (first.contains(w)
                        || exists|k: int| 0 <= k < i + 1 && subject_version(#[trigger] sv[k]) == Some(w)) by {
                        if exists|k: int| 0 <= k < i + 1 && subject_version(#[trigger] sv[k]) == Some(w) {
                            let k = choose|k: int| 0 <= k < i + 1 && subject_version(#[trigger] sv[k]) == Some(w);
                            assert(k < i);
                        }
                    }
                }
            },
        }
        i = i + 1;
    }
    proof {
        assert forall|v: Seq<char>| #[trigger] strings(out@).contains(v) <==> version_in(c@, v) by {
            if first.contains(v) {
                assert(first[0] == v);
            }
            if c@.affected_version == Some(v) {
                assert(first[0] == v);
            }
        }
    }
    out
}

/// The relation of two candidates' versions.
fn relate_versions(l: &Candidate, r: &Candidate) -> (k: SignalKind)
    ensures
        k == version_relation(l@, r@),
{
    let a = versions_of(l);
    let b = versions_of(r);
    let ghost av = strings(a@);
    let ghost bv = strings(b@);
    proof {
        if has_version(l@) {
            let v = choose|v: Seq<char>| #[trigger] version_in(l@, v);
            assert(av.contains(v));
        }
        if has_version(r@) {
            let v = choose|v: Seq<char>| #[trigger] version_in(r@, v);
            assert(bv.contains(v));
        }
        if a.len() > 0 {
            assert(av.contains(av[0]));
            assert(version_in(l@, av[0]));
        }
        if b.len() > 0 {
            assert(bv.contains(bv[0]));
            assert(version_in(r@, bv[0]));
        }
    }
    if a.len() == 0 || b.len() == 0 {
        return SignalKind::Missing;
    }
    let mut i: usize = 0;
    while i < a.len()
        invariant
            i <= a@.len(),
            av == strings(a@),
            bv == strings(b@),
            forall|x: int, y: int| #![trigger av[x], bv[y]] 0 <= x < i && 0 <= y < bv.len() ==> av[x] != bv[y],
            forall|v: Seq<char>| #[trigger] av.contains(v) <==> version_in(l@, v),
            forall|v: Seq<char>| #[trigger] bv.contains(v) <==> version_in(r@, v),
        decreases a.len() - i,
    {
        let mut j: usize = 0;
        while j < b.len()
            invariant
                i < a@.len(),
                j <= b@.len(),
                av == strings(a@),
                bv == strings(b@),
                forall|v: Seq<char>| #[trigger] av.contains(v) <==> version_in(l@, v),
                forall|v: Seq<char>| #[trigger] bv.contains(v) <==> version_in(r@, v),
                forall|x: int, y: int| #![trigger av[x], bv[y]] 0 <= x < i && 0 <= y < bv.len() ==> av[x] != bv[y],
                forall|y: int| 0 <= y < j ==> av[i as int] != #[trigger] bv[y],
            decreases b.len() - j,
        {
            if str_equal(a[i].as_str(), b[j].as_str()) {
                proof {
                    assert(av[i as int] == bv[j as int]);
                    assert(av.contains(av[i as int]));
                    assert(bv.contains(bv[j as int]));
                    assert(version_in(l@, av[i as int]) && version_in(r@, av[i as int]));
                }
                return SignalKind::Exact;
            }
            j = j + 1;
        }
        i = i + 1;
    }
    proof {
        assert forall|v: Seq<char>| !(#[trigger] version_in(l@, v) && version_in(r@, v)) by {
            if version_in(l@, v) && version_in(r@, v) {
                assert(av.contains(v));
                assert(bv.contains(v));
                let x = choose|x: int| 0 <= x < av.len() && av[x] == v;
                let y = choose|y: int| 0 <= y < bv.len() && bv[y] == v;
                assert(av[x] != bv[y]);
            }
        }
    }
    SignalKind::Different
}

/// The names a candidate offers for fuzzy comparison.
fn names_of(c: &Candidate) -> (r: Vec<String>)
    ensures
        strings(r@) == fuzzy_names(c@),
{
    let names = c.subject_names();
    let subjects = c.subject_ids();
    let mut out: Vec<String> = Vec::new();
    let mut i: usize = 0;
    while i < names.len()
        invariant
            i <= names@.len(),
            strings(out@) =~= strings(names@).take(i as int),
        decreases names.len() - i,
    {
        let ghost before = strings(out@);
        let name = names[i].clone();
        assert(name@ == strings(names@)[i as int]);
        out.push(name);
        assert(strings(out@) =~= before.push(strings(names@)[i as int]));
        i = i + 1;
        assert(strings(out@) =~= strings(names@).take(i as int));
    }
    assert(strings(names@).take(names@.len() as int) =~= strings(names@));
    let ghost head = strings(out@);
    let ghost sv = subject_views(subjects@);
    let mut j: usize = 0;
    while j < subjects.len()
        invariant
            j <= subjects@.len(),
            sv == subject_views(subjects@),
            strings(out@) =~= head + Seq::new(j as nat, |k: int| subject_name_of(sv[k])),
        decreases subjects.len() - j,
    {
        assert(sv[j as int] == subjects@[j as int]@);
        let ghost before = strings(out@);
        let name = String::from_str(subjects[j].subject_name());
        assert(name@ == subject_name_of(sv[j as int]));
        out.push(name);
        assert(strings(out@) =~= before.push(subject_name_of(sv[j as int])));
        j = j + 1;
        assert(strings(out@) =~= head + Seq::new(j as nat, |k: int| subject_name_of(sv[k])));
    }
    out
}

fn any_text(v: &Vec<String>) -> (r: bool)
    ensures
        r == has_text(strings(v@)),
{
    let mut i: usize = 0;
    while i < v.len()
        invariant
            i <= v@.len(),
            forall|k: int| 0 <= k < i ==> (#[trigger] strings(v@)[k]).len() == 0,
        decreases v.len() - i,
    {
        if crate::text::chars_of(v[i].as_str()).len() > 0 {
            assert(strings(v@)[i as int].len() > 0);
            return true;
        }
        i = i + 1;
    }
    false
}

fn max_of(a: Score, b: Score) -> (r: Score)
    ensures
        r@ == max_score(a@, b@),
{
    if a.get() >= b.get() {
        a
    } else {
        b
    }
}

fn best_against_exec(x: &str, b: &Vec<String>) -> (s: Score)
    ensures
        s@ == best_against(x@, strings(b@)),
{
    let ghost bv = strings(b@);
    let mut best = Score::from_valid(0);
    let mut j: usize = 0;
    assert(bv.take(0).len() == 0);
    while j < b.len()
        invariant
            j <= b@.len(),
            bv == strings(b@),
            best@ == best_against(x@, bv.take(j as int)),
        decreases b.len() - j,
    {
        let s = similarity(x, b[j].as_str());
        assert(bv.take(j + 1).drop_last() =~= bv.take(j as int));
        assert(bv.take(j + 1).last() == b@[j as int]@);
        best = max_of(best, s);
        j = j + 1;
    }
    assert(bv.take(b@.len() as int) =~= bv);
    best
}

fn best_similarity_exec(a: &Vec<String>, b: &Vec<String>) -> (s: Score)
    ensures
        s@ == best_similarity(strings(a@), strings(b@)),
{
    let ghost av = strings(a@);
    let mut best = Score::from_valid(0);
    let mut i: usize = 0;
    assert(av.take(0).len() == 0);
    while i < a.len()
        invariant
            i <= a@.len(),
            av == strings(a@),
            best@ == best_similarity(av.take(i as int), strings(b@)),
        decreases a.len() - i,
    {
        let s = best_against_exec(a[i].as_str(), b);
        assert(av.take(i + 1).drop_last() =~= av.take(i as int));
        assert(av.take(i + 1).last() == a@[i as int]@);
        best = max_of(best, s);
        i = i + 1;
    }
    assert(av.take(a@.len() as int) =~= av);
    best
}

fn optional_similarity_exec(a: Option<&str>, b: Option<&str>) -> (s: Score)
    ensures
        s@ == optional_similarity(crate::fingerprint::opt_view(a), crate::fingerprint::opt_view(b)),
{
    match (a, b) {
        (Some(x), Some(y)) => similarity(x, y),
        _ => Score::from_valid(0),
    }
}

/// The evidence between two candidates, as computed.
pub(crate) struct Evidence {
    pub(crate) shared_issue: bool,
    pub(crate) issue_conflict: bool,
    pub(crate) exact_subject: bool,
    pub(crate) coordinate_match: bool,
    pub(crate) compatible_coordinate_match: bool,
    pub(crate) subject_detail_conflict: bool,
    pub(crate) subject_conflict: bool,
    pub(crate) cross_kind_subjects: bool,
    pub(crate) version_relation: SignalKind,
    pub(crate) subject_name: Score,
    pub(crate) title: Score,
    pub(crate) location: Score,
    pub(crate) has_subject_name_pair: bool,
    pub(crate) has_title_pair: bool,
    pub(crate) has_location_pair: bool,
}

impl View for Evidence {
    type V = EvidenceView;

    closed spec fn view(&self) -> EvidenceView {
        EvidenceView {
            shared_issue: self.shared_issue,
            issue_conflict: self.issue_conflict,
            exact_subject: self.exact_subject,
            coordinate_match: self.coordinate_match,
            compatible_coordinate_match: self.compatible_coordinate_match,
            subject_detail_conflict: self.subject_detail_conflict,
            subject_conflict: self.subject_conflict,
            cross_kind_subjects: self.cross_kind_subjects,
            version_relation: self.version_relation,
            subject_name: self.subject_name@,
            title: self.title@,
            location: self.location@,
            has_subject_name_pair: self.has_subject_name_pair,
            has_title_pair: self.has_title_pair,
            has_location_pair: self.has_location_pair,
        }
    }
}

fn contribution_exec(score: Score, weight: u32) -> (r: u32)
    requires
        weight <= 3_000,
    ensures
        r == contribution(score@, weight as int),
        r <= weight,
{
    let s: u32 = score.get() as u32;
    assert(s * weight <= 10_000 * 3_000) by (nonlinear_arith)
        requires
            s <= 10_000,
            weight <= 3_000,
    ;
    let r = s * weight / 10_000;
    assert(r <= weight) by (nonlinear_arith)
        requires
            s <= 10_000,
            r == s * weight / 10_000,
    ;
    r
}

impl Evidence {
    /// Collects the evidence between two candidates.
    pub(crate) fn collect(left: &Candidate, right: &Candidate) -> (e: Evidence)
        ensures
            e@ == evidence_of(left@, right@),
    {
        reveal(evidence_of);
        let shared_issue = issues_meet(left.issue_ids(), right.issue_ids());
        let issue_conflict = left.issue_ids().len() > 0 && right.issue_ids().len() > 0 && !shared_issue;
        let exact_subject = subjects_meet(left.subject_ids(), right.subject_ids());
        let (coordinate_match, compatible, comparable) = subject_relations(left.subject_ids(), right.subject_ids());
        let cross_kind_subjects = left.subject_ids().len() > 0 && right.subject_ids().len() > 0 && !comparable;
        let subject_conflict = shared_issue && comparable && !coordinate_match && !exact_subject;
        let version_relation = relate_versions(left, right);
        let left_names = names_of(left);
        let right_names = names_of(right);
        let subject_name = best_similarity_exec(&left_names, &right_names);
        let has_subject_name_pair = any_text(&left_names) && any_text(&right_names);
        let title = optional_similarity_exec(left.title(), right.title());
        let location = optional_similarity_exec(left.location(), right.location());
        Evidence {
            shared_issue,
            issue_conflict,
            exact_subject,
            coordinate_match,
            compatible_coordinate_match: compatible,
            subject_detail_conflict: coordinate_match && !compatible,
            subject_conflict,
            cross_kind_subjects,
            version_relation,
            subject_name,
            title,
            location,
            has_subject_name_pair,
            has_title_pair: left.title().is_some() && right.title().is_some(),
            has_location_pair: left.location().is_some() && right.location().is_some(),
        }
    }

    /// Whether the issues or the subjects conflict.
    pub(crate) fn conflict(&self) -> (r: bool)
        ensures
            r == (self@.issue_conflict || self@.subject_conflict),
    {
        self.issue_conflict || self.subject_conflict
    }

    /// Scores the evidence and decides whether it may merge automatically.
    pub(crate) fn score(&self, config: &Config) -> (r: (Score, bool))
        ensures
            r.0@ == evidence_score(self@),
            r.1 == auto_eligible(config@, self@),
    {
        let value: u32 = if self.shared_issue && self.coordinate_match {
            let bonus: u32 = if self.version_relation == SignalKind::Exact {
                500
            } else {
                0
            };
            8_500 + bonus + contribution_exec(self.title, 300) + contribution_exec(self.location, 200)
        } else if self.shared_issue {
            5_000 + contribution_exec(self.subject_name, 3_000) + contribution_exec(self.title, 1_000)
                + contribution_exec(self.location, 500)
        } else if self.exact_subject {
            6_000 + contribution_exec(self.title, 2_000) + contribution_exec(self.location, 1_000)
        } else if self.coordinate_match {
            5_500 + contribution_exec(self.subject_name, 500) + contribution_exec(self.title, 2_000)
                + contribution_exec(self.location, 1_000)
        } else {
            let primary = max_of(self.subject_name, self.title);
            primary.get() as u32 + contribution_exec(self.location, 500)
        };
        let capped: u16 = if value >= 9_999 {
            9_999
        } else {
            value as u16
        };
        let threshold = config.subject_similarity_threshold();
        let strong_name = self.has_subject_name_pair && self.subject_name.get() > 0
            && self.subject_name.get() >= threshold.get();
        let eligible = self.shared_issue && !self.cross_kind_subjects && self.version_relation
            != SignalKind::Different && !self.subject_detail_conflict && (self.compatible_coordinate_match
            || strong_name);
        (Score::from_valid(capped), eligible)
    }

    /// The signals of the evidence: issue, subject, version, subject name,
    /// title, and location.
    pub(crate) fn signals(&self) -> (r: Vec<Signal>)
        ensures
            signal_views(r@) == evidence_signals(self@),
    {
        let mut out: Vec<Signal> = Vec::new();
        let issue_kind = if self.shared_issue {
            SignalKind::Exact
        } else if self.issue_conflict {
            SignalKind::Different
        } else {
            SignalKind::Missing
        };
        let issue_score = if self.shared_issue {
            Some(Score::maximum())
        } else {
            None
        };
        out.push(Signal::new(SignalField::Issue, issue_kind, issue_score));
        let subject_kind = if self.exact_subject {
            SignalKind::Exact
        } else if self.subject_detail_conflict {
            SignalKind::Different
        } else if self.coordinate_match {
            SignalKind::Similar
        } else if self.subject_conflict {
            SignalKind::Different
        } else if self.cross_kind_subjects {
            SignalKind::Incomparable
        } else {
            SignalKind::Missing
        };
        let subject_score = if self.exact_subject || self.compatible_coordinate_match {
            Some(Score::maximum())
        } else {
            None
        };
        out.push(Signal::new(SignalField::Subject, subject_kind, subject_score));
        let version_score = if self.version_relation == SignalKind::Exact {
            Some(Score::maximum())
        } else {
            None
        };
        out.push(Signal::new(SignalField::Version, self.version_relation, version_score));
        out.push(fuzzy_signal_exec(SignalField::SubjectName, self.subject_name, self.has_subject_name_pair));
        out.push(fuzzy_signal_exec(SignalField::Title, self.title, self.has_title_pair));
        out.push(fuzzy_signal_exec(SignalField::Location, self.location, self.has_location_pair));
        assert(signal_views(out@) =~= evidence_signals(self@));
        out
    }
}

fn fuzzy_signal_exec(field: SignalField, score: Score, compared: bool) -> (s: Signal)
    ensures
        s@ == fuzzy_signal(field, score@, compared),
{
    if compared {
        let kind = if score.get() == 10_000 {
            SignalKind::Exact
        } else {
            SignalKind::Similar
        };
        Signal::new(field, kind, Some(score))
    } else {
        Signal::new(field, SignalKind::Missing, None)
    }
}

// ---------------------------------------------------------------------------
// Symmetry.
// ---------------------------------------------------------------------------

proof fn lemma_best_against_bounds(x: Seq<char>, b: Seq<Seq<char>>)
    ensures
        forall|j: int| 0 <= j < b.len() ==> similarity_spec(x, #[trigger] b[j]) <= best_against(x, b),
        b.len() > 0 ==> exists|j: int| 0 <= j < b.len() && similarity_spec(x, #[trigger] b[j]) == best_against(x, b),
        b.len() == 0 ==> best_against(x, b) == 0,
    decreases b.len(),
{
    if b.len() > 0 {
        let p = b.drop_last();
        lemma_best_against_bounds(x, p);
        assert forall|j: int| 0 <= j < b.len() implies similarity_spec(x, #[trigger] b[j]) <= best_against(x, b) by {
            if j < b.len() - 1 {
                assert(b[j] == p[j]);
            }
        }
        if best_against(x, p) >= similarity_spec(x, b.last()) && p.len() > 0 {
            let j = choose|j: int| 0 <= j < p.len() && similarity_spec(x, #[trigger] p[j]) == best_against(x, p);
            assert(b[j] == p[j]);
        } else {
            assert(b[b.len() - 1] == b.last());
        }
    }
}

proof fn lemma_best_bounds(a: Seq<Seq<char>>, b: Seq<Seq<char>>)
    ensures
        forall|i: int, j: int|
            #![trigger a[i], b[j]]
            0 <= i < a.len() && 0 <= j < b.len() ==> similarity_spec(a[i], b[j]) <= best_similarity(a, b),
        a.len() > 0 && b.len() > 0 ==> exists|i: int, j: int|
            #![trigger a[i], b[j]]
            0 <= i < a.len() && 0 <= j < b.len() && similarity_spec(a[i], b[j]) == best_similarity(a, b),
        a.len() == 0 || b.len() == 0 ==> best_similarity(a, b) == 0,
    decreases a.len(),
{
    if a.len() > 0 {
        let p = a.drop_last();
        lemma_best_bounds(p, b);
        lemma_best_against_bounds(a.last(), b);
        assert forall|i: int, j: int|
            #![trigger a[i], b[j]]
            0 <= i < a.len() && 0 <= j < b.len() implies similarity_spec(a[i], b[j]) <= best_similarity(a, b) by {
            if i < a.len() - 1 {
                assert(a[i] == p[i]);
            } else {
                assert(a[i] == a.last());
            }
        }
        if b.len() > 0 {
            if best_similarity(p, b) >= best_against(a.last(), b) && p.len() > 0 {
                let (i, j) = choose|i: int, j: int|
                    #![trigger p[i], b[j]]
                    0 <= i < p.len() && 0 <= j < b.len() && similarity_spec(p[i], b[j]) == best_similarity(p, b);
                assert(a[i] == p[i]);
            } else {
                let j = choose|j: int| 0 <= j < b.len() && similarity_spec(a.last(), #[trigger] b[j]) == best_against(a.last(), b);
                assert(a[a.len() - 1] == a.last());
                assert(similarity_spec(a[a.len() - 1], b[j]) == best_similarity(a, b));
            }
        }
    }
}

/// The best pair similarity does not depend on which side is which.
pub proof fn lemma_best_similarity_symmetric(a: Seq<Seq<char>>, b: Seq<Seq<char>>)
    ensures
        best_similarity(a, b) == best_similarity(b, a),
{
    lemma_best_bounds(a, b);
    lemma_best_bounds(b, a);
    if a.len() > 0 && b.len() > 0 {
        let (i, j) = choose|i: int, j: int|
            #![trigger a[i], b[j]]
            0 <= i < a.len() && 0 <= j < b.len() && similarity_spec(a[i], b[j]) == best_similarity(a, b);
        lemma_similarity_symmetric(a[i], b[j]);
        let (y, x) = choose|y: int, x: int|
            #![trigger b[y], a[x]]
            0 <= y < b.len() && 0 <= x < a.len() && similarity_spec(b[y], a[x]) == best_similarity(b, a);
        lemma_similarity_symmetric(b[y], a[x]);
    }
}

/// The evidence between two candidates does not depend on their order.
pub proof fn lemma_evidence_symmetric(l: CandidateView, r: CandidateView)
    ensures
        evidence_of(l, r) == evidence_of(r, l),
{
    reveal(evidence_of);
    let (a, b) = (l.subject_ids, r.subject_ids);
    assert(shares_issue(l.issue_ids, r.issue_ids) == shares_issue(r.issue_ids, l.issue_ids)) by {
        if shares_issue(l.issue_ids, r.issue_ids) {
            let (i, j) = choose|i: int, j: int|
                #![trigger l.issue_ids[i], r.issue_ids[j]]
                0 <= i < l.issue_ids.len() && 0 <= j < r.issue_ids.len() && l.issue_ids[i] == r.issue_ids[j];
            assert(r.issue_ids[j] == l.issue_ids[i]);
        }
        if shares_issue(r.issue_ids, l.issue_ids) {
            let (i, j) = choose|i: int, j: int|
                #![trigger r.issue_ids[i], l.issue_ids[j]]
                0 <= i < r.issue_ids.len() && 0 <= j < l.issue_ids.len() && r.issue_ids[i] == l.issue_ids[j];
            assert(l.issue_ids[j] == r.issue_ids[i]);
        }
    }
    assert(shares_subject(a, b) == shares_subject(b, a)) by {
        if shares_subject(a, b) {
            let (i, j) = choose|i: int, j: int|
                #![trigger a[i], b[j]]
                0 <= i < a.len() && 0 <= j < b.len() && subject_key(a[i]) == subject_key(b[j]);
            assert(subject_key(b[j]) == subject_key(a[i]));
        }
        if shares_subject(b, a) {
            let (i, j) = choose|i: int, j: int|
                #![trigger b[i], a[j]]
                0 <= i < b.len() && 0 <= j < a.len() && subject_key(b[i]) == subject_key(a[j]);
            assert(subject_key(a[j]) == subject_key(b[i]));
        }
    }
    assert(coordinates_meet(a, b) == coordinates_meet(b, a)) by {
        if coordinates_meet(a, b) {
            let (i, j) = choose|i: int, j: int|
                #![trigger a[i], b[j]]
                0 <= i < a.len() && 0 <= j < b.len() && same_coordinate(a[i], b[j]);
            assert(same_coordinate(b[j], a[i]));
        }
        if coordinates_meet(b, a) {
            let (i, j) = choose|i: int, j: int|
                #![trigger b[i], a[j]]
                0 <= i < b.len() && 0 <= j < a.len() && same_coordinate(b[i], a[j]);
            assert(same_coordinate(a[j], b[i]));
        }
    }
    assert(compatible_coordinates_meet(a, b) == compatible_coordinates_meet(b, a)) by {
        if compatible_coordinates_meet(a, b) {
            let (i, j) = choose|i: int, j: int|
                #![trigger a[i], b[j]]
                0 <= i < a.len() && 0 <= j < b.len() && same_coordinate(a[i], b[j]) && subjects_compatible(a[i], b[j]);
            crate::identity::lemma_details_compatible_symmetric(a[i], b[j]);
            assert(same_coordinate(b[j], a[i]) && subjects_compatible(b[j], a[i]));
        }
        if compatible_coordinates_meet(b, a) {
            let (i, j) = choose|i: int, j: int|
                #![trigger b[i], a[j]]
                0 <= i < b.len() && 0 <= j < a.len() && same_coordinate(b[i], a[j]) && subjects_compatible(b[i], a[j]);
            crate::identity::lemma_details_compatible_symmetric(b[i], a[j]);
            assert(same_coordinate(a[j], b[i]) && subjects_compatible(a[j], b[i]));
        }
    }
    assert(kinds_meet(a, b) == kinds_meet(b, a)) by {
        if kinds_meet(a, b) {
            let (i, j) = choose|i: int, j: int|
                #![trigger a[i], b[j]]
                0 <= i < a.len() && 0 <= j < b.len() && subject_kind_tag(a[i]) == subject_kind_tag(b[j]);
            assert(subject_kind_tag(b[j]) == subject_kind_tag(a[i]));
        }
        if kinds_meet(b, a) {
            let (i, j) = choose|i: int, j: int|
                #![trigger b[i], a[j]]
                0 <= i < b.len() && 0 <= j < a.len() && subject_kind_tag(b[i]) == subject_kind_tag(a[j]);
            assert(subject_kind_tag(a[j]) == subject_kind_tag(b[i]));
        }
    }
    assert(version_relation(l, r) == version_relation(r, l)) by {
        if exists|v: Seq<char>| #[trigger] version_in(l, v) && version_in(r, v) {
            let v = choose|v: Seq<char>| #[trigger] version_in(l, v) && version_in(r, v);
            assert(version_in(r, v) && version_in(l, v));
        }
        if exists|v: Seq<char>| #[trigger] version_in(r, v) && version_in(l, v) {
            let v = choose|v: Seq<char>| #[trigger] version_in(r, v) && version_in(l, v);
            assert(version_in(l, v) && version_in(r, v));
        }
    }
    lemma_best_similarity_symmetric(fuzzy_names(l), fuzzy_names(r));
    match (l.title, r.title) {
        (Some(x), Some(y)) => lemma_similarity_symmetric(x, y),
        _ => {},
    }
    match (l.location, r.location) {
        (Some(x), Some(y)) => lemma_similarity_symmetric(x, y),
        _ => {},
    }
}

/// The best similarity against a list is at most the full score.
proof fn lemma_best_against_bounded(x: Seq<char>, b: Seq<Seq<char>>)
    ensures
        best_against(x, b) <= 10_000,
    decreases b.len(),
{
    if b.len() > 0 {
        lemma_best_against_bounded(x, b.drop_last());
        lemma_similarity_bounded(x, b.last());
    }
}

/// The best similarity of two lists is at most the full score.
proof fn lemma_best_similarity_bounded(a: Seq<Seq<char>>, b: Seq<Seq<char>>)
    ensures
        best_similarity(a, b) <= 10_000,
    decreases a.len(),
{
    if a.len() > 0 {
        lemma_best_similarity_bounded(a.drop_last(), b);
        lemma_best_against_bounded(a.last(), b);
    }
}

/// The best similarity against a list is at least that of each entry.
proof fn lemma_best_against_at_least(x: Seq<char>, b: Seq<Seq<char>>, j: int)
    requires
        0 <= j < b.len(),
    ensures
        best_against(x, b) >= similarity_spec(x, b[j]),
    decreases b.len(),
{
    if j < b.len() - 1 {
        lemma_best_against_at_least(x, b.drop_last(), j);
        assert(b.drop_last()[j] == b[j]);
    }
}

/// The best similarity of two lists is at least that of each pair.
proof fn lemma_best_similarity_at_least(a: Seq<Seq<char>>, b: Seq<Seq<char>>, i: int, j: int)
    requires
        0 <= i < a.len(),
        0 <= j < b.len(),
    ensures
        best_similarity(a, b) >= similarity_spec(a[i], b[j]),
    decreases a.len(),
{
    if i < a.len() - 1 {
        lemma_best_similarity_at_least(a.drop_last(), b, i, j);
        assert(a.drop_last()[i] == a[i]);
    } else {
        lemma_best_against_at_least(a[i], b, j);
    }
}

/// A list of names with one of non-empty normal form is fully similar to
/// itself.
pub proof fn lemma_best_similarity_self(a: Seq<Seq<char>>, i: int)
    requires
        0 <= i < a.len(),
        crate::text::normal_text(a[i]).len() > 0,
    ensures
        best_similarity(a, a) == 10_000,
{
    lemma_similarity_self(a[i]);
    lemma_best_similarity_at_least(a, a, i, i);
    lemma_best_similarity_bounded(a, a);
}

/// With a shared issue and no shared versionless coordinate, the fuzzy score is 5,000
/// plus three tenths of the subject-name similarity, a tenth of the title
/// similarity and a twentieth of the location similarity, each rounded
/// down, and capped just below the full score: every point of title
/// similarity counts.
pub proof fn lemma_shared_issue_score(l: CandidateView, r: CandidateView)
    requires
        evidence_of(l, r).shared_issue,
        !evidence_of(l, r).coordinate_match,
    ensures
        ({
            let e = evidence_of(l, r);
            let total = 5_000 + e.subject_name as int * 3 / 10 + e.title as int / 10 + e.location as int / 20;
            evidence_score(e) as int == if total >= 9_999 {
                9_999
            } else {
                total
            }
        }),
{
    reveal(evidence_of);
    let e = evidence_of(l, r);
    assert(e.subject_name as int * 3_000 / 10_000 == e.subject_name as int * 3 / 10);
    assert(e.title as int * 1_000 / 10_000 == e.title as int / 10);
    assert(e.location as int * 500 / 10_000 == e.location as int / 20);
}

/// The evidence between two reports of one finding that differ only in
/// origin, sharing an issue with no structured subject and with identical
/// names and titles of non-empty text: a shared issue, fully similar names
/// and titles, no coordinate and no conflict.
pub proof fn lemma_same_text_evidence(a: CandidateView, b: CandidateView, n: int)
    requires
        a.issue_ids.len() > 0,
        a.issue_ids == b.issue_ids,
        a.subject_ids.len() == 0,
        b.subject_ids.len() == 0,
        a.subject_names == b.subject_names,
        0 <= n < a.subject_names.len(),
        crate::text::normal_text(a.subject_names[n]).len() > 0,
        a.title == b.title,
        a.title is Some,
        crate::text::normal_text(a.title->Some_0).len() > 0,
        a.location == b.location,
        a.affected_version == b.affected_version,
    ensures
        evidence_of(a, b).shared_issue,
        !evidence_of(a, b).issue_conflict,
        !evidence_of(a, b).coordinate_match,
        !evidence_of(a, b).compatible_coordinate_match,
        !evidence_of(a, b).subject_detail_conflict,
        !evidence_of(a, b).subject_conflict,
        !evidence_of(a, b).cross_kind_subjects,
        evidence_of(a, b).version_relation != SignalKind::Different,
        evidence_of(a, b).subject_name == 10_000,
        evidence_of(a, b).has_subject_name_pair,
        evidence_of(a, b).title == 10_000,
        evidence_of(a, b).location == optional_similarity(a.location, b.location),
        evidence_of(a, b).location <= 10_000,
{
    reveal(evidence_of);
    assert(a.issue_ids[0] == b.issue_ids[0]);
    let names = fuzzy_names(a);
    assert(names =~= a.subject_names);
    assert(fuzzy_names(b) =~= a.subject_names);
    lemma_best_similarity_self(names, n);
    lemma_similarity_self(a.title->Some_0);
    if a.subject_names[n].len() == 0 {
        assert(a.subject_names[n] =~= Seq::<char>::empty());
    }
    assert(names[n].len() > 0);
    match a.location {
        Some(x) => lemma_similarity_bounded(x, x),
        None => {},
    }
    if a.affected_version is Some {
        let v = a.affected_version->Some_0;
        assert(version_in(a, v) && version_in(b, v));
    }
}

/// A number capped just below the full score.
pub open spec fn below_full(x: int) -> int {
    if x >= 9_999 {
        9_999
    } else {
        x
    }
}

/// The fuzzy score of a pair in each of its cases, in basis points and
/// rounded down, capped just below the full score: a shared issue and
/// versionless coordinate give 8,500, 500 more for an equal version, 3% of
/// the title and 2% of the location similarity; a shared issue alone gives
/// 5,000 with 30% of the name, 10% of the title and 5% of the location
/// similarity; a shared subject gives 6,000 with 20% of the title and 10% of
/// the location similarity; a shared coordinate gives 5,500 with 5% of the
/// name, 20% of the title and 10% of the location similarity; text alone
/// gives the better of the name and title similarity with 5% of the location
/// similarity.
pub proof fn lemma_fuzzy_score_cases(l: CandidateView, r: CandidateView)
    ensures
        ({
            let e = evidence_of(l, r);
            let n = e.subject_name as int;
            let t = e.title as int;
            let loc = e.location as int;
            evidence_score(e) as int == below_full(
                if e.shared_issue && e.coordinate_match {
                    8_500 + (if e.version_relation == SignalKind::Exact { 500int } else { 0int }) + t * 3 / 100 + loc / 50
                } else if e.shared_issue {
                    5_000 + n * 3 / 10 + t / 10 + loc / 20
                } else if e.exact_subject {
                    6_000 + t / 5 + loc / 10
                } else if e.coordinate_match {
                    5_500 + n / 20 + t / 5 + loc / 10
                } else {
                    (if n >= t { n } else { t }) + loc / 20
                },
            )
        }),
{
    let e = evidence_of(l, r);
    let n = e.subject_name as int;
    let t = e.title as int;
    let loc = e.location as int;
    assert(t * 300 / 10_000 == t * 3 / 100);
    assert(loc * 200 / 10_000 == loc / 50);
    assert(n * 3_000 / 10_000 == n * 3 / 10);
    assert(t * 1_000 / 10_000 == t / 10);
    assert(loc * 500 / 10_000 == loc / 20);
    assert(t * 2_000 / 10_000 == t / 5);
    assert(loc * 1_000 / 10_000 == loc / 10);
    assert(n * 500 / 10_000 == n / 20);
}

/// Every evidence signal's score agrees with its relationship: the full
/// score for an exact match (and for a similar subject), a score below it
/// for a similar text, and none for a difference or an absence.
pub proof fn lemma_evidence_signal_scores(l: CandidateView, r: CandidateView)
    ensures
        forall|i: int|
            0 <= i < evidence_signals(evidence_of(l, r)).len() ==> #[trigger] signal_score_valid(
                evidence_signals(evidence_of(l, r))[i].field,
                evidence_signals(evidence_of(l, r))[i].kind,
                evidence_signals(evidence_of(l, r))[i].score,
            ),
{
    reveal(evidence_of);
    let e = evidence_of(l, r);
    lemma_best_similarity_bounded(fuzzy_names(l), fuzzy_names(r));
    match (l.title, r.title) {
        (Some(x), Some(y)) => lemma_similarity_bounded(x, y),
        _ => {},
    }
    match (l.location, r.location) {
        (Some(x), Some(y)) => lemma_similarity_bounded(x, y),
        _ => {},
    }
    let a = l.subject_ids;
    let b = r.subject_ids;
    if compatible_coordinates_meet(a, b) {
        let (i, j) = choose|i: int, j: int|
            #![trigger a[i], b[j]]
            0 <= i < a.len() && 0 <= j < b.len() && same_coordinate(a[i], b[j]) && subjects_compatible(a[i], b[j]);
        assert(0 <= i < a.len() && 0 <= j < b.len() && same_coordinate(a[i], b[j]));
        assert(coordinates_meet(a, b));
    }
    assert(e.compatible_coordinate_match ==> e.coordinate_match);
    let sigs = evidence_signals(e);
    assert(signal_score_valid(sigs[0].field, sigs[0].kind, sigs[0].score));
    assert(signal_score_valid(sigs[1].field, sigs[1].kind, sigs[1].score));
    assert(signal_score_valid(sigs[2].field, sigs[2].kind, sigs[2].score));
    assert(signal_score_valid(sigs[3].field, sigs[3].kind, sigs[3].score));
    assert(signal_score_valid(sigs[4].field, sigs[4].kind, sigs[4].score));
    assert(signal_score_valid(sigs[5].field, sigs[5].kind, sigs[5].score));
}

} // verus!
