//! Batch correlation: exact-key merges, blocked fuzzy candidate pairs, and
//! complete-link fuzzy merges into provenance-preserving clusters.
use vstd::prelude::*;

use crate::compare::{
    compare_spec, correlation_key_set, shares_correlation_key, signal_views, Comparison, ComparisonView,
    Decision, MatchMethod, PreparedCandidate, Score,
};
use crate::config::{ConfigView, OversizedBlockPolicy};
use crate::fingerprint::{byte_sign, key_views, keys_sorted, lemma_byte_antisym, lemma_byte_trans, occurrence_key_of, CorrelationKey, OccurrenceKey};
use crate::identity::{subject_coordinate, subject_kind_tag};
use crate::model::{Candidate, CandidateView, FindingKind, KindView};
use crate::text::lex_sign;

verus! {

// ---------------------------------------------------------------------------
// Results.
// ---------------------------------------------------------------------------

/// The structured key that produced a batch candidate block.
#[derive(Clone, Copy, Debug, PartialEq, Eq, Structural, Hash, PartialOrd, Ord)]
#[non_exhaustive]
pub enum BlockKind {
    /// Candidates shared a normalized issue identifier.
    Issue,
    /// Candidates shared a versionless structured subject coordinate.
    Subject,
}

/// A non-fatal clustering condition returned to the caller.
#[derive(Clone, Copy, Debug, PartialEq, Eq, Structural)]
#[non_exhaustive]
pub enum ClusterWarning {
    /// Fuzzy comparisons were skipped for a block while exact keys were retained.
    OversizedBlock {
        /// The kind of blocking key.
        kind: BlockKind,
        /// The number of candidates in the block.
        size: usize,
        /// The configured maximum block size.
        limit: usize,
    },
}

impl ClusterWarning {
    /// Rebuilds an oversized-block warning when its limit is at least two and
    /// its size exceeds the limit.
    pub fn checked(kind: BlockKind, size: usize, limit: usize) -> (r: Option<ClusterWarning>)
        ensures
            match r {
                Some(w) => limit >= 2 && size > limit && w == (ClusterWarning::OversizedBlock { kind, size, limit }),
                None => !(limit >= 2 && size > limit),
            },
    {
        if limit >= 2 && size > limit {
            Some(ClusterWarning::OversizedBlock { kind, size, limit })
        } else {
            None
        }
    }
}

/// Aggregate counters from a clustering run.
#[derive(Clone, Copy, Debug, PartialEq, Eq, Structural)]
pub struct ClusterStats {
    candidate_count: usize,
    candidate_pair_count: usize,
    comparison_count: usize,
    exact_merge_count: usize,
    fuzzy_merge_count: usize,
    cluster_count: usize,
}

/// The largest number of unordered pairs of `n` candidates.
pub open spec fn max_pairs(n: nat) -> nat {
    n * (if n > 0 { (n - 1) as nat } else { 0nat }) / 2
}

/// Whether run counters are consistent with one another.
pub open spec fn counts_valid(
    candidates: usize,
    candidate_pairs: usize,
    comparisons: usize,
    exact_merges: usize,
    fuzzy_merges: usize,
    clusters: usize,
) -> bool {
    &&& clusters <= candidates
    &&& candidate_pairs <= max_pairs(candidates as nat)
    &&& comparisons >= candidate_pairs
    &&& comparisons <= max_pairs(candidates as nat)
    &&& exact_merges + fuzzy_merges == candidates - clusters
}

impl ClusterStats {
    /// The number of input candidates.
    pub closed spec fn candidates(&self) -> usize {
        self.candidate_count
    }

    /// The number of unique blocked candidate pairs.
    pub closed spec fn candidate_pairs(&self) -> usize {
        self.candidate_pair_count
    }

    /// The number of pair comparisons, including complete-link checks.
    pub closed spec fn comparisons(&self) -> usize {
        self.comparison_count
    }

    /// The number of successful exact-key unions.
    pub closed spec fn exact_merges(&self) -> usize {
        self.exact_merge_count
    }

    /// The number of successful fuzzy complete-link unions.
    pub closed spec fn fuzzy_merges(&self) -> usize {
        self.fuzzy_merge_count
    }

    /// The number of output clusters.
    pub closed spec fn clusters(&self) -> usize {
        self.cluster_count
    }

    /// Rebuilds counters when they are consistent: no more clusters than
    /// candidates, at most `n(n-1)/2` candidate pairs and comparisons, no
    /// fewer comparisons than candidate pairs, and the merges accounting for
    /// every candidate not heading a cluster.
    pub fn from_counts(
        candidate_count: usize,
        candidate_pair_count: usize,
        comparison_count: usize,
        exact_merge_count: usize,
        fuzzy_merge_count: usize,
        cluster_count: usize,
    ) -> (r: Option<ClusterStats>)
        ensures
            match r {
                Some(st) => counts_valid(
                    candidate_count,
                    candidate_pair_count,
                    comparison_count,
                    exact_merge_count,
                    fuzzy_merge_count,
                    cluster_count,
                ) && st.candidates() == candidate_count && st.candidate_pairs() == candidate_pair_count && st.comparisons()
                    == comparison_count && st.exact_merges() == exact_merge_count && st.fuzzy_merges() == fuzzy_merge_count
                    && st.clusters() == cluster_count,
                None => !counts_valid(
                    candidate_count,
                    candidate_pair_count,
                    comparison_count,
                    exact_merge_count,
                    fuzzy_merge_count,
                    cluster_count,
                ),
            },
    {
        let n = candidate_count as u128;
        let below: u128 = if candidate_count > 0 { (candidate_count - 1) as u128 } else { 0 };
        assert(n * below <= 0xffff_ffff_ffff_ffff * 0xffff_ffff_ffff_ffffu128) by (nonlinear_arith)
            requires
                n <= 0xffff_ffff_ffff_ffff,
                below <= 0xffff_ffff_ffff_ffff,
        ;
        let max_pairs: u128 = n * below / 2;
        let valid = cluster_count <= candidate_count && (candidate_pair_count as u128) <= max_pairs && comparison_count
            >= candidate_pair_count && (comparison_count as u128) <= max_pairs && match exact_merge_count.checked_add(
            fuzzy_merge_count,
        ) {
            Some(m) => m == candidate_count - cluster_count,
            None => false,
        };
        if valid {
            Some(
                ClusterStats {
                    candidate_count,
                    candidate_pair_count,
                    comparison_count,
                    exact_merge_count,
                    fuzzy_merge_count,
                    cluster_count,
                },
            )
        } else {
            None
        }
    }

    /// Returns the number of input candidates.
    pub fn candidate_count(&self) -> (r: usize)
        ensures
            r == self.candidates(),
    {
        self.candidate_count
    }

    /// Returns the number of unique blocked candidate pairs.
    pub fn candidate_pair_count(&self) -> (r: usize)
        ensures
            r == self.candidate_pairs(),
    {
        self.candidate_pair_count
    }

    /// Returns the number of pair comparisons, including complete-link checks.
    pub fn comparison_count(&self) -> (r: usize)
        ensures
            r == self.comparisons(),
    {
        self.comparison_count
    }

    /// Returns the number of successful exact-key union operations.
    pub fn exact_merge_count(&self) -> (r: usize)
        ensures
            r == self.exact_merges(),
    {
        self.exact_merge_count
    }

    /// Returns the number of successful fuzzy complete-link union operations.
    pub fn fuzzy_merge_count(&self) -> (r: usize)
        ensures
            r == self.fuzzy_merges(),
    {
        self.fuzzy_merge_count
    }

    /// Returns the number of output clusters, including singletons.
    pub fn cluster_count(&self) -> (r: usize)
        ensures
            r == self.clusters(),
    {
        self.cluster_count
    }
}

impl Default for ClusterStats {
    fn default() -> (s: Self)
        ensures
            s.candidates() == 0,
            s.candidate_pairs() == 0,
            s.comparisons() == 0,
            s.exact_merges() == 0,
            s.fuzzy_merges() == 0,
            s.clusters() == 0,
    {
        ClusterStats {
            candidate_count: 0,
            candidate_pair_count: 0,
            comparison_count: 0,
            exact_merge_count: 0,
            fuzzy_merge_count: 0,
            cluster_count: 0,
        }
    }
}

/// The byte views of occurrence keys.
pub open spec fn occurrence_views(v: Seq<OccurrenceKey>) -> Seq<Seq<u8>> {
    Seq::new(v.len(), |i: int| v[i]@)
}

/// A provenance-preserving group of occurrence keys.
#[derive(Debug, PartialEq, Eq)]
pub struct Cluster {
    members: Vec<OccurrenceKey>,
}

impl View for Cluster {
    type V = Seq<Seq<u8>>;

    closed spec fn view(&self) -> Seq<Seq<u8>> {
        occurrence_views(self.members@)
    }
}

impl Cluster {
    /// Rebuilds a cluster from members that are non-empty and strictly
    /// increasing.
    pub fn from_members(members: Vec<OccurrenceKey>) -> (r: Option<Cluster>)
        ensures
            match r {
                Some(c) => occurrence_views(members@).len() > 0 && keys_sorted(occurrence_views(members@)) && c@ == occurrence_views(
                    members@,
                ),
                None => !(occurrence_views(members@).len() > 0 && keys_sorted(occurrence_views(members@))),
            },
    {
        let ghost v = occurrence_views(members@);
        if members.len() == 0 {
            return None;
        }
        let mut i: usize = 1;
        while i < members.len()
            invariant
                1 <= i <= members@.len(),
                v == occurrence_views(members@),
                forall|a: int, b: int| 0 <= a < b < i ==> byte_sign(#[trigger] v[a], #[trigger] v[b]) < 0,
            decreases members.len() - i,
        {
            if members[i - 1].compare(&members[i]) >= 0 {
                proof {
                    assert(v[i - 1] == members@[i - 1]@ && v[i as int] == members@[i as int]@);
                }
                return None;
            }
            proof {
                assert forall|a: int, b: int| 0 <= a < b < i + 1 implies byte_sign(#[trigger] v[a], #[trigger] v[b]) < 0 by {
                    if b == i && a < i - 1 {
                        lemma_byte_trans(v[a], v[i - 1], v[b]);
                    }
                }
            }
            i = i + 1;
        }
        Some(Cluster { members })
    }

    /// Returns sorted source-local occurrence keys.
    pub fn members(&self) -> (r: &[OccurrenceKey])
        ensures
            occurrence_views(r@) == self@,
    {
        self.members.as_slice()
    }

    /// Returns `true` when the cluster contains more than one occurrence.
    pub fn is_duplicate(&self) -> (r: bool)
        ensures
            r == (self@.len() > 1),
    {
        self.members.len() > 1
    }
}

impl Clone for Cluster {
    fn clone(&self) -> (r: Self)
        ensures
            r@ == self@,
    {
        let mut members: Vec<OccurrenceKey> = Vec::new();
        let mut i: usize = 0;
        while i < self.members.len()
            invariant
                i <= self.members@.len(),
                members@.len() == i,
                forall|k: int| 0 <= k < i ==> (#[trigger] members@[k])@ == self.members@[k]@,
            decreases self.members.len() - i,
        {
            members.push(self.members[i]);
            i = i + 1;
        }
        assert(occurrence_views(members@) =~= occurrence_views(self.members@));
        Cluster { members }
    }
}

/// The views of clusters.
pub open spec fn cluster_views(v: Seq<Cluster>) -> Seq<Seq<Seq<u8>>> {
    Seq::new(v.len(), |i: int| v[i]@)
}

/// The views of comparisons.
pub open spec fn comparison_views(v: Seq<Comparison>) -> Seq<ComparisonView> {
    Seq::new(v.len(), |i: int| v[i]@)
}

/// The value of a [`ClusterResult`].
pub struct ClusterResultView {
    /// The clusters' members.
    pub clusters: Seq<Seq<Seq<u8>>>,
    /// The review pairs.
    pub review_pairs: Seq<ComparisonView>,
    /// The warnings.
    pub warnings: Seq<ClusterWarning>,
    /// The counters.
    pub stats: ClusterStats,
}

/// The complete result of deterministic batch correlation.
#[derive(Debug, PartialEq, Eq)]
pub struct ClusterResult {
    clusters: Vec<Cluster>,
    review_pairs: Vec<Comparison>,
    warnings: Vec<ClusterWarning>,
    stats: ClusterStats,
}

impl View for ClusterResult {
    type V = ClusterResultView;

    closed spec fn view(&self) -> ClusterResultView {
        ClusterResultView {
            clusters: cluster_views(self.clusters@),
            review_pairs: comparison_views(self.review_pairs@),
            warnings: self.warnings@,
            stats: self.stats,
        }
    }
}

impl ClusterResult {
    /// Returns all clusters, including singletons.
    pub fn clusters(&self) -> (r: &[Cluster])
        ensures
            cluster_views(r@) == self@.clusters,
    {
        self.clusters.as_slice()
    }

    /// Returns plausible pairs that were deliberately not auto-merged.
    pub fn review_pairs(&self) -> (r: &[Comparison])
        ensures
            comparison_views(r@) == self@.review_pairs,
    {
        self.review_pairs.as_slice()
    }

    /// Returns non-fatal block warnings.
    pub fn warnings(&self) -> (r: &[ClusterWarning])
        ensures
            r@ == self@.warnings,
    {
        self.warnings.as_slice()
    }

    /// Returns aggregate run counters.
    pub fn stats(&self) -> (r: ClusterStats)
        ensures
            r == self@.stats,
    {
        self.stats
    }
}

impl Clone for ClusterResult {
    fn clone(&self) -> (r: Self)
        ensures
            r@ == self@,
    {
        let mut clusters: Vec<Cluster> = Vec::new();
        let mut i: usize = 0;
        while i < self.clusters.len()
            invariant
                i <= self.clusters@.len(),
                clusters@.len() == i,
                forall|k: int| 0 <= k < i ==> (#[trigger] clusters@[k])@ == self.clusters@[k]@,
            decreases self.clusters.len() - i,
        {
            clusters.push(self.clusters[i].clone());
            i = i + 1;
        }
        let mut review_pairs: Vec<Comparison> = Vec::new();
        let mut j: usize = 0;
        while j < self.review_pairs.len()
            invariant
                j <= self.review_pairs@.len(),
                review_pairs@.len() == j,
                forall|k: int| 0 <= k < j ==> (#[trigger] review_pairs@[k])@ == self.review_pairs@[k]@,
            decreases self.review_pairs.len() - j,
        {
            review_pairs.push(self.review_pairs[j].clone());
            j = j + 1;
        }
        let mut warnings: Vec<ClusterWarning> = Vec::new();
        let mut w: usize = 0;
        while w < self.warnings.len()
            invariant
                w <= self.warnings@.len(),
                warnings@ == self.warnings@.take(w as int),
            decreases self.warnings.len() - w,
        {
            warnings.push(self.warnings[w]);
            w = w + 1;
            assert(warnings@ =~= self.warnings@.take(w as int));
        }
        assert(self.warnings@.take(self.warnings@.len() as int) =~= self.warnings@);
        assert(cluster_views(clusters@) =~= cluster_views(self.clusters@));
        assert(comparison_views(review_pairs@) =~= comparison_views(self.review_pairs@));
        ClusterResult { clusters, review_pairs, warnings, stats: self.stats }
    }
}

/// The number of members over all clusters.
pub open spec fn total_members(clusters: Seq<Seq<Seq<u8>>>) -> nat
    decreases clusters.len(),
{
    if clusters.len() == 0 {
        0
    } else {
        total_members(clusters.drop_last()) + clusters.last().len()
    }
}

/// Whether parts make a consistent result: clusters non-empty, sorted,
/// ordered by first member, and disjoint; as many members and clusters as
/// the counters say; review pairs strictly ordered review decisions between
/// members of two different clusters.
pub open spec fn result_parts_valid(clusters: Seq<Seq<Seq<u8>>>, reviews: Seq<ComparisonView>, stats: ClusterStats) -> bool {
    &&& clusters_sorted(clusters)
    &&& clusters_ordered(clusters)
    &&& clusters_disjoint(clusters)
    &&& total_members(clusters) == stats.candidates()
    &&& clusters.len() == stats.clusters()
    &&& forall|r: int|
        0 <= r < reviews.len() ==> (#[trigger] reviews[r]).decision == Decision::Review && in_some_cluster(clusters, reviews[r].left)
            && in_some_cluster(clusters, reviews[r].right) && !same_cluster(clusters, reviews[r].left, reviews[r].right)
    &&& forall|r1: int, r2: int|
        0 <= r1 < r2 < reviews.len() ==> byte_sign((#[trigger] reviews[r1]).left, (#[trigger] reviews[r2]).left) < 0 || (
        reviews[r1].left == reviews[r2].left && byte_sign(reviews[r1].right, reviews[r2].right) < 0)
}

/// Whether a key is among the members.
fn holds_key(members: &Vec<OccurrenceKey>, key: &OccurrenceKey) -> (r: bool)
    ensures
        r == occurrence_views(members@).contains(key@),
{
    let ghost v = occurrence_views(members@);
    let mut i: usize = 0;
    while i < members.len()
        invariant
            i <= members@.len(),
            v == occurrence_views(members@),
            forall|k: int| 0 <= k < i ==> v[k] != key@,
        decreases members.len() - i,
    {
        let c = members[i].compare(key);
        proof {
            lemma_byte_antisym(members@[i as int]@, key@);
        }
        if c == 0 {
            assert(v[i as int] == key@);
            return true;
        }
        i = i + 1;
    }
    false
}

/// Whether two clusters share a member.
fn share_member(a: &Cluster, b: &Cluster) -> (r: bool)
    ensures
        r == exists|k: Seq<u8>| a@.contains(k) && b@.contains(k),
{
    let mut i: usize = 0;
    while i < b.members.len()
        invariant
            i <= b@.len(),
            b@ == occurrence_views(b.members@),
            forall|k: int| 0 <= k < i ==> !a@.contains(#[trigger] b@[k]),
        decreases b.members.len() - i,
    {
        if holds_key(&a.members, &b.members[i]) {
            assert(b@[i as int] == b.members@[i as int]@);
            assert(a@ == occurrence_views(a.members@));
            assert(a@.contains(b@[i as int]) && b@.contains(b@[i as int]));
            return true;
        }
        assert(b@[i as int] == b.members@[i as int]@);
        i = i + 1;
    }
    proof {
        if exists|k: Seq<u8>| a@.contains(k) && b@.contains(k) {
            let k = choose|k: Seq<u8>| a@.contains(k) && b@.contains(k);
            let j = choose|j: int| 0 <= j < b@.len() && b@[j] == k;
            assert(!a@.contains(b@[j]));
        }
    }
    false
}

/// The first cluster that holds a key.
fn cluster_of(clusters: &Vec<Cluster>, key: &OccurrenceKey) -> (r: Option<usize>)
    ensures
        match r {
            Some(c) => c < clusters@.len() && cluster_views(clusters@)[c as int].contains(key@),
            None => !in_some_cluster(cluster_views(clusters@), key@),
        },
{
    let ghost cv = cluster_views(clusters@);
    let mut c: usize = 0;
    while c < clusters.len()
        invariant
            c <= clusters@.len(),
            cv == cluster_views(clusters@),
            forall|x: int| 0 <= x < c ==> !(#[trigger] cv[x]).contains(key@),
        decreases clusters.len() - c,
    {
        assert(cv[c as int] == clusters@[c as int]@);
        if holds_key(&clusters[c].members, key) {
            return Some(c);
        }
        c = c + 1;
    }
    None
}

impl ClusterResult {
    /// Rebuilds a result from parts that are consistent (see
    /// [`result_parts_valid`]).
    #[verifier::rlimit(30)]
    pub fn from_parts(
        clusters: Vec<Cluster>,
        review_pairs: Vec<Comparison>,
        warnings: Vec<ClusterWarning>,
        stats: ClusterStats,
    ) -> (r: Option<ClusterResult>)
        ensures
            match r {
                Some(res) => result_parts_valid(cluster_views(clusters@), comparison_views(review_pairs@), stats) && res@ == (
                ClusterResultView {
                    clusters: cluster_views(clusters@),
                    review_pairs: comparison_views(review_pairs@),
                    warnings: warnings@,
                    stats,
                }),
                None => !result_parts_valid(cluster_views(clusters@), comparison_views(review_pairs@), stats),
            },
    {
        let ghost cv = cluster_views(clusters@);
        let ghost rv = comparison_views(review_pairs@);
        let mut c: usize = 0;
        let mut total: usize = 0;
        while c < clusters.len()
            invariant
                c <= clusters@.len(),
                cv == cluster_views(clusters@),
                forall|x: int| 0 <= x < c ==> (#[trigger] cv[x]).len() > 0 && keys_sorted(cv[x]),
                forall|x: int, y: int| 0 <= x < y < c ==> byte_sign((#[trigger] cv[x])[0], (#[trigger] cv[y])[0]) < 0,
                forall|x: int, y: int| 0 <= x < y < c ==> !exists|k: Seq<u8>| (#[trigger] cv[x]).contains(k) && (#[trigger] cv[y]).contains(k),
                total == total_members(cv.take(c as int)),
            decreases clusters.len() - c,
        {
            let cluster = &clusters[c];
            assert(cv[c as int] == cluster@);
            let members = &cluster.members;
            if members.len() == 0 {
                assert(cv[c as int].len() == 0);
                return None;
            }
            let mut m: usize = 1;
            while m < members.len()
                invariant
                    1 <= m <= members@.len(),
                    cluster@ == occurrence_views(members@),
                    c < clusters@.len(),
                    cv == cluster_views(clusters@),
                    cv[c as int] == cluster@,
                    forall|a: int, b: int| 0 <= a < b < m ==> byte_sign(#[trigger] cluster@[a], #[trigger] cluster@[b]) < 0,
                decreases members.len() - m,
            {
                if members[m - 1].compare(&members[m]) >= 0 {
                    assert(cluster@[m - 1] == members@[m - 1]@ && cluster@[m as int] == members@[m as int]@);
                    assert(!keys_sorted(cv[c as int]));
                    return None;
                }
                proof {
                    assert forall|a: int, b: int| 0 <= a < b < m + 1 implies byte_sign(#[trigger] cluster@[a], #[trigger] cluster@[b])
                        < 0 by {
                        if b == m && a < m - 1 {
                            lemma_byte_trans(cluster@[a], cluster@[m - 1], cluster@[b]);
                        }
                    }
                }
                m = m + 1;
            }
            if c > 0 {
                let prev = &clusters[c - 1];
                assert(cv[c - 1] == prev@);
                if prev.members[0].compare(&members[0]) >= 0 {
                    assert(cv[c - 1][0] == prev.members@[0]@);
                    assert(cv[c as int][0] == members@[0]@);
                    return None;
                }
                proof {
                    assert(cv[c - 1][0] == prev.members@[0]@);
                    assert(cv[c as int][0] == members@[0]@);
                    assert forall|x: int| 0 <= x < c - 1 implies byte_sign((#[trigger] cv[x])[0], cv[c as int][0]) < 0 by {
                        lemma_byte_trans(cv[x][0], cv[c - 1][0], cv[c as int][0]);
                    }
                }
            }
            let mut x: usize = 0;
            while x < c
                invariant
                    x <= c < clusters@.len(),
                    cv == cluster_views(clusters@),
                    cv[c as int] == cluster@,
                    forall|y: int| 0 <= y < x ==> !exists|k: Seq<u8>| (#[trigger] cv[y]).contains(k) && cv[c as int].contains(k),
                decreases c - x,
            {
                assert(cv[x as int] == clusters@[x as int]@);
                if share_member(&clusters[x], cluster) {
                    proof {
                        let k = choose|k: Seq<u8>| cv[x as int].contains(k) && cv[c as int].contains(k);
                        assert(!clusters_disjoint(cv));
                    }
                    return None;
                }
                x = x + 1;
            }
            total = match total.checked_add(members.len()) {
                Some(t) => t,
                None => {
                    proof {
                        lemma_total_members_prefix(cv, c as int);
                        lemma_total_members_bound(cv, c as int + 1);
                    }
                    return None;
                },
            };
            proof {
                assert(cv.take(c + 1).drop_last() =~= cv.take(c as int));
            }
            c = c + 1;
        }
        assert(cv.take(cv.len() as int) =~= cv);
        if total != stats.candidate_count || clusters.len() != stats.cluster_count {
            return None;
        }
        let mut r: usize = 0;
        while r < review_pairs.len()
            invariant
                r <= review_pairs@.len(),
                cv == cluster_views(clusters@),
                rv == comparison_views(review_pairs@),
                clusters_disjoint(cv),
                forall|q: int|
                    0 <= q < r ==> (#[trigger] rv[q]).decision == Decision::Review && in_some_cluster(cv, rv[q].left) && in_some_cluster(
                        cv,
                        rv[q].right,
                    ) && !same_cluster(cv, rv[q].left, rv[q].right),
                forall|q1: int, q2: int|
                    0 <= q1 < q2 < r ==> byte_sign((#[trigger] rv[q1]).left, (#[trigger] rv[q2]).left) < 0 || (rv[q1].left
                        == rv[q2].left && byte_sign(rv[q1].right, rv[q2].right) < 0),
            decreases review_pairs.len() - r,
        {
            let pair = &review_pairs[r];
            assert(rv[r as int] == pair@);
            if pair.decision() != Decision::Review {
                return None;
            }
            let left = pair.left();
            let right = pair.right();
            let lc = cluster_of(&clusters, &left);
            let rc = cluster_of(&clusters, &right);
            match (lc, rc) {
                (Some(a), Some(b)) => {
                    if a == b {
                        return None;
                    }
                    proof {
                        if same_cluster(cv, left@, right@) {
                            let c2 = choose|c2: int| 0 <= c2 < cv.len() && #[trigger] cv[c2].contains(left@) && cv[c2].contains(right@);
                            if c2 != a {
                                assert(cv[a as int].contains(left@));
                            } else {
                                assert(cv[b as int].contains(right@));
                            }
                        }
                    }
                },
                _ => {
                    return None;
                },
            }
            if r > 0 {
                let prev = &review_pairs[r - 1];
                assert(rv[r - 1] == prev@);
                let l = prev.left().compare(&left);
                let rr = prev.right().compare(&right);
                proof {
                    lemma_byte_antisym(prev@.left, left@);
                }
                if l > 0 || (l == 0 && rr >= 0) {
                    return None;
                }
                proof {
                    assert forall|q: int| 0 <= q < r - 1 implies byte_sign((#[trigger] rv[q]).left, rv[r as int].left) < 0 || (rv[q].left
                        == rv[r as int].left && byte_sign(rv[q].right, rv[r as int].right) < 0) by {
                        let p = r - 1;
                        if byte_sign(rv[q].left, rv[p].left) < 0 {
                            if byte_sign(rv[p].left, rv[r as int].left) < 0 {
                                lemma_byte_trans(rv[q].left, rv[p].left, rv[r as int].left);
                            }
                        } else {
                            if byte_sign(rv[p].left, rv[r as int].left) < 0 {
                            } else {
                                lemma_byte_trans(rv[q].right, rv[p].right, rv[r as int].right);
                            }
                        }
                    }
                }
            }
            r = r + 1;
        }
        Some(ClusterResult { clusters, review_pairs, warnings, stats })
    }
}

/// The members of the first clusters are counted by a prefix.
proof fn lemma_total_members_prefix(cv: Seq<Seq<Seq<u8>>>, c: int)
    requires
        0 <= c < cv.len(),
    ensures
        total_members(cv.take(c + 1)) == total_members(cv.take(c)) + cv[c].len(),
{
    assert(cv.take(c + 1).drop_last() =~= cv.take(c));
}

/// More members than fit a `usize` leave no counter equal to them; a prefix
/// never counts more than the whole.
proof fn lemma_total_members_bound(cv: Seq<Seq<Seq<u8>>>, c: int)
    requires
        0 <= c <= cv.len(),
    ensures
        total_members(cv.take(c)) <= total_members(cv),
    decreases cv.len() - c,
{
    if c < cv.len() {
        lemma_total_members_bound(cv, c + 1);
        lemma_total_members_prefix(cv, c);
    } else {
        assert(cv.take(c) =~= cv);
    }
}

/// A batch clustering failure.
#[derive(Clone, Copy, Debug, PartialEq, Eq)]
#[non_exhaustive]
pub enum ClusterError {
    /// The input contained the same source occurrence more than once.
    DuplicateOccurrence(OccurrenceKey),
    /// A fuzzy block exceeded the configured maximum and policy required an error.
    OversizedBlock {
        /// The kind of blocking key.
        kind: BlockKind,
        /// The number of candidates in the block.
        size: usize,
        /// The configured maximum block size.
        limit: usize,
    },
}

// ---------------------------------------------------------------------------
// Ordering the input by occurrence key.
// ---------------------------------------------------------------------------

/// The byte order is transitive on `<=`.
proof fn lemma_byte_le_trans(a: Seq<u8>, b: Seq<u8>, c: Seq<u8>)
    requires
        byte_sign(a, b) <= 0,
        byte_sign(b, c) <= 0,
    ensures
        byte_sign(a, c) <= 0,
{
    lemma_byte_antisym(a, b);
    lemma_byte_antisym(b, c);
    lemma_byte_antisym(a, c);
    if byte_sign(a, b) < 0 && byte_sign(b, c) < 0 {
        lemma_byte_trans(a, b, c);
    }
}

/// Whether `order` lists every index below `n` exactly once.
pub open spec fn is_permutation(order: Seq<usize>, n: nat) -> bool {
    &&& order.len() == n
    &&& forall|p: int| 0 <= p < order.len() ==> (#[trigger] order[p]) < n
    &&& forall|p: int, q: int| 0 <= p < order.len() && 0 <= q < order.len() && p != q ==> #[trigger] order[p] != #[trigger] order[q]
    &&& forall|i: int| 0 <= i < n ==> #[trigger] order.contains(i as usize)
}

/// Whether the keys are non-decreasing along `order`.
pub open spec fn ordered_by(ks: Seq<Seq<u8>>, order: Seq<usize>) -> bool {
    forall|p: int, q: int| 0 <= p < q < order.len() ==> byte_sign(ks[#[trigger] order[p] as int], ks[#[trigger] order[q] as int]) <= 0
}

/// Whether a key occurs at two different indices.
pub open spec fn duplicated(ks: Seq<Seq<u8>>, k: Seq<u8>) -> bool {
    exists|i: int, j: int| 0 <= i < ks.len() && 0 <= j < ks.len() && i != j && #[trigger] ks[i] == k && #[trigger] ks[j] == k
}

/// The least key that occurs twice, if any.
pub open spec fn least_duplicate(ks: Seq<Seq<u8>>, k: Seq<u8>) -> bool {
    duplicated(ks, k) && forall|other: Seq<u8>| #[trigger] duplicated(ks, other) ==> byte_sign(k, other) <= 0
}

/// Whether all keys are distinct.
pub open spec fn all_distinct(ks: Seq<Seq<u8>>) -> bool {
    forall|i: int, j: int| 0 <= i < ks.len() && 0 <= j < ks.len() && i != j ==> #[trigger] ks[i] != #[trigger] ks[j]
}

/// The positions of keys, ordered by key.
fn order_by_key(keys: &Vec<OccurrenceKey>) -> (order: Vec<usize>)
    ensures
        is_permutation(order@, keys@.len()),
        ordered_by(occurrence_views(keys@), order@),
{
    let ghost ks = occurrence_views(keys@);
    let mut order: Vec<usize> = Vec::new();
    let mut i: usize = 0;
    while i < keys.len()
        invariant
            i <= keys@.len(),
            ks == occurrence_views(keys@),
            order@.len() == i,
            forall|p: int| 0 <= p < order@.len() ==> (#[trigger] order@[p]) < i,
            forall|p: int, q: int| 0 <= p < order@.len() && 0 <= q < order@.len() && p != q ==> #[trigger] order@[p] != #[trigger] order@[q],
            forall|j: int| 0 <= j < i ==> #[trigger] order@.contains(j as usize),
            ordered_by(ks, order@),
        decreases keys.len() - i,
    {
        let mut pos: usize = 0;
        let mut found = false;
        while pos < order.len() && !found
            invariant
                i < keys@.len(),
                ks == occurrence_views(keys@),
                pos <= order@.len(),
                forall|p: int| 0 <= p < order@.len() ==> (#[trigger] order@[p]) < i,
                forall|q: int| 0 <= q < pos ==> byte_sign(ks[#[trigger] order@[q] as int], ks[i as int]) <= 0,
                found ==> pos < order@.len() && byte_sign(ks[i as int], ks[order@[pos as int] as int]) < 0,
            decreases order@.len() - pos + (if found { 0int } else { 1int }),
        {
            let other = order[pos];
            let c = keys[i].compare(&keys[other]);
            assert(ks[i as int] == keys@[i as int]@ && ks[other as int] == keys@[other as int]@);
            proof {
                lemma_byte_antisym(ks[i as int], ks[other as int]);
            }
            if c < 0 {
                found = true;
            } else {
                pos = pos + 1;
            }
        }
        let ghost old_order = order@;
        order.insert(pos, i);
        proof {
            assert(order@ =~= old_order.insert(pos as int, i));
            assert forall|p: int, q: int| 0 <= p < q < order@.len() implies byte_sign(
                ks[#[trigger] order@[p] as int],
                ks[#[trigger] order@[q] as int],
            ) <= 0 by {
                if q < pos {
                    assert(order@[p] == old_order[p] && order@[q] == old_order[q]);
                } else if q == pos {
                    assert(order@[p] == old_order[p]);
                } else if p == pos {
                    assert(order@[q] == old_order[q - 1]);
                    if q - 1 > pos {
                        assert(byte_sign(ks[old_order[pos as int] as int], ks[old_order[q - 1] as int]) <= 0);
                        lemma_byte_le_trans(ks[i as int], ks[old_order[pos as int] as int], ks[old_order[q - 1] as int]);
                    }
                } else if p < pos {
                    assert(order@[p] == old_order[p] && order@[q] == old_order[q - 1]);
                    assert(byte_sign(ks[old_order[p] as int], ks[old_order[q - 1] as int]) <= 0);
                } else {
                    assert(order@[p] == old_order[p - 1] && order@[q] == old_order[q - 1]);
                    assert(byte_sign(ks[old_order[p - 1] as int], ks[old_order[q - 1] as int]) <= 0);
                }
            }
            assert forall|p: int, q: int| 0 <= p < order@.len() && 0 <= q < order@.len() && p != q implies #[trigger] order@[p]
                != #[trigger] order@[q] by {
                if p < pos && q < pos {
                } else if p > pos && q > pos {
                    assert(order@[p] == old_order[p - 1] && order@[q] == old_order[q - 1]);
                } else if p < pos && q > pos {
                    assert(order@[q] == old_order[q - 1]);
                } else if p > pos && q < pos {
                    assert(order@[p] == old_order[p - 1]);
                } else if p == pos {
                    if q < pos {
                        assert(order@[q] == old_order[q]);
                    } else {
                        assert(order@[q] == old_order[q - 1]);
                    }
                } else {
                    if p < pos {
                        assert(order@[p] == old_order[p]);
                    } else {
                        assert(order@[p] == old_order[p - 1]);
                    }
                }
            }
            assert forall|j: int| 0 <= j < i + 1 implies #[trigger] order@.contains(j as usize) by {
                if j == i {
                    assert(order@[pos as int] == i);
                } else {
                    assert(old_order.contains(j as usize));
                    let p = choose|p: int| 0 <= p < old_order.len() && old_order[p] == j as usize;
                    if p < pos {
                        assert(order@[p] == j as usize);
                    } else {
                        assert(order@[p + 1] == j as usize);
                    }
                }
            }
            assert forall|p: int| 0 <= p < order@.len() implies (#[trigger] order@[p]) < i + 1 by {
                if p < pos {
                    assert(order@[p] == old_order[p]);
                } else if p > pos {
                    assert(order@[p] == old_order[p - 1]);
                }
            }
        }
        i = i + 1;
    }
    order
}

/// Where a permutation places an index.
proof fn lemma_position(order: Seq<usize>, n: nat, i: int) -> (p: int)
    requires
        is_permutation(order, n),
        0 <= i < n,
        n <= usize::MAX,
    ensures
        0 <= p < order.len(),
        order[p] as int == i,
{
    assert(order.contains(i as usize));
    let p = choose|p: int| 0 <= p < order.len() && order[p] == i as usize;
    assert(order[p] as int == i);
    p
}

/// Finds the first adjacent pair of equal keys along the order.
fn find_duplicate(keys: &Vec<OccurrenceKey>, order: &Vec<usize>) -> (r: Option<usize>)
    requires
        is_permutation(order@, keys@.len()),
        ordered_by(occurrence_views(keys@), order@),
    ensures
        match r {
            Some(p) => p < order@.len() && least_duplicate(occurrence_views(keys@), occurrence_views(keys@)[order@[p as int] as int]),
            None => all_distinct(occurrence_views(keys@)),
        },
{
    let ghost ks = occurrence_views(keys@);
    let ghost n = keys@.len();
    let mut p: usize = 0;
    while order.len() > 0 && p < order.len() - 1
        invariant
            ks == occurrence_views(keys@),
            n == keys@.len(),
            is_permutation(order@, n),
            ordered_by(ks, order@),
            p <= order@.len() || order@.len() == 0,
            forall|s: int| 0 <= s < p && s + 1 < order@.len() ==> byte_sign(ks[#[trigger] order@[s] as int], ks[order@[s + 1] as int]) < 0,
        decreases order@.len() - p,
    {
        let a = order[p];
        let b = order[p + 1];
        assert(ks[a as int] == keys@[a as int]@ && ks[b as int] == keys@[b as int]@);
        let c = keys[a].compare(&keys[b]);
        proof {
            lemma_byte_antisym(ks[a as int], ks[b as int]);
            assert(byte_sign(ks[order@[p as int] as int], ks[order@[p + 1] as int]) <= 0);
        }
        if c == 0 {
            proof {
                let k = ks[a as int];
                assert(order@[p as int] != order@[p + 1]);
                assert(duplicated(ks, k));
                assert forall|other: Seq<u8>| #[trigger] duplicated(ks, other) implies byte_sign(k, other) <= 0 by {
                    let (i, j) = choose|i: int, j: int|
                        0 <= i < ks.len() && 0 <= j < ks.len() && i != j && #[trigger] ks[i] == other && #[trigger] ks[j] == other;
                    let pi = lemma_position(order@, n, i);
                    let pj = lemma_position(order@, n, j);
                    let lo = if pi < pj { pi } else { pj };
                    let hi = if pi < pj { pj } else { pi };
                    assert(ks[order@[lo] as int] == other);
                    assert(ks[order@[hi] as int] == other);
                    if lo < p {
                        assert(byte_sign(ks[order@[lo] as int], ks[order@[lo + 1] as int]) < 0);
                        if lo + 1 < hi {
                            assert(byte_sign(ks[order@[lo + 1] as int], ks[order@[hi] as int]) <= 0);
                            lemma_byte_antisym(ks[order@[lo + 1] as int], ks[order@[hi] as int]);
                            lemma_byte_antisym(ks[order@[lo] as int], ks[order@[lo + 1] as int]);
                        }
                        lemma_byte_antisym(ks[order@[lo] as int], ks[order@[hi] as int]);
                        assert(false);
                    } else if lo > p {
                        assert(byte_sign(ks[order@[p as int] as int], ks[order@[lo] as int]) <= 0);
                    }
                }
            }
            return Some(p);
        }
        p = p + 1;
    }
    proof {
        assert forall|i: int, j: int| 0 <= i < ks.len() && 0 <= j < ks.len() && i != j implies #[trigger] ks[i]
            != #[trigger] ks[j] by {
            let pi = lemma_position(order@, n, i);
            let pj = lemma_position(order@, n, j);
            let lo = if pi < pj { pi } else { pj };
            let hi = if pi < pj { pj } else { pi };
            assert(pi != pj);
            assert(byte_sign(ks[order@[lo] as int], ks[order@[lo + 1] as int]) < 0);
            if lo + 1 < hi {
                assert(byte_sign(ks[order@[lo + 1] as int], ks[order@[hi] as int]) <= 0);
                lemma_byte_le_trans(ks[order@[lo] as int], ks[order@[lo + 1] as int], ks[order@[hi] as int]);
            }
            lemma_byte_antisym(ks[order@[lo] as int], ks[order@[hi] as int]);
            if lo + 1 < hi {
                if byte_sign(ks[order@[lo] as int], ks[order@[hi] as int]) == 0 {
                    lemma_byte_antisym(ks[order@[lo] as int], ks[order@[lo + 1] as int]);
                    lemma_byte_antisym(ks[order@[lo + 1] as int], ks[order@[hi] as int]);
                }
            }
        }
    }
    None
}

// ---------------------------------------------------------------------------
// Groups of positions (a union-find by relabelling).
// ---------------------------------------------------------------------------

/// Whether positions are strictly increasing.
pub open spec fn increasing(v: Seq<usize>) -> bool {
    forall|i: int, j: int| 0 <= i < j < v.len() ==> #[trigger] v[i] < #[trigger] v[j]
}

/// Appending adds exactly one element.
proof fn lemma_push_contains<T>(s: Seq<T>, x: T)
    ensures
        forall|y: T| #[trigger] s.push(x).contains(y) <==> (s.contains(y) || y == x),
{
    assert forall|y: T| #[trigger] s.push(x).contains(y) <==> (s.contains(y) || y == x) by {
        if s.push(x).contains(y) && y != x {
            let k = choose|k: int| 0 <= k < s.push(x).len() && s.push(x)[k] == y;
            assert(s[k] == y);
        }
        if s.contains(y) {
            let k = choose|k: int| 0 <= k < s.len() && s[k] == y;
            assert(s.push(x)[k] == y);
        }
        if y == x {
            assert(s.push(x)[s.len() as int] == y);
        }
    }
}

/// Merges two strictly increasing lists into one.
fn merge_sorted(a: &Vec<usize>, b: &Vec<usize>) -> (r: Vec<usize>)
    requires
        increasing(a@),
        increasing(b@),
    ensures
        increasing(r@),
        forall|x: usize| #[trigger] r@.contains(x) <==> (a@.contains(x) || b@.contains(x)),
        r@.len() <= a@.len() + b@.len(),
{
    let mut r: Vec<usize> = Vec::new();
    let mut i: usize = 0;
    let mut j: usize = 0;
    while i < a.len() || j < b.len()
        invariant
            i <= a@.len(),
            j <= b@.len(),
            increasing(a@),
            increasing(b@),
            increasing(r@),
            r@.len() <= i + j,
            forall|x: usize| #[trigger] r@.contains(x) <==> (a@.take(i as int).contains(x) || b@.take(j as int).contains(x)),
            r@.len() > 0 ==> (i < a@.len() ==> r@.last() < a@[i as int]) && (j < b@.len() ==> r@.last() < b@[j as int]),
        decreases a@.len() + b@.len() - i - j,
    {
        let ghost before = r@;
        let ghost ta = a@.take(i as int);
        let ghost tb = b@.take(j as int);
        let take_a = j >= b.len() || (i < a.len() && a[i] <= b[j]);
        let x;
        if take_a {
            x = a[i];
            if j < b.len() && b[j] == x {
                j = j + 1;
                assert(b@.take(j as int) =~= tb.push(x));
                proof {
                    lemma_push_contains(tb, x);
                }
            }
            r.push(x);
            i = i + 1;
            assert(a@.take(i as int) =~= ta.push(x));
            proof {
                lemma_push_contains(ta, x);
            }
        } else {
            x = b[j];
            r.push(x);
            j = j + 1;
            assert(b@.take(j as int) =~= tb.push(x));
            proof {
                lemma_push_contains(tb, x);
            }
        }
        proof {
            lemma_push_contains(before, x);
            assert(r@ =~= before.push(x));
            assert forall|p: int, q: int| 0 <= p < q < r@.len() implies #[trigger] r@[p] < #[trigger] r@[q] by {
                if q == r@.len() - 1 && p < before.len() {
                    assert(r@[p] == before[p]);
                    assert(before[before.len() - 1] >= before[p]);
                }
            }
            assert forall|y: usize| #[trigger] r@.contains(y) <==> (a@.take(i as int).contains(y) || b@.take(j as int).contains(y)) by {
                if a@.take(i as int) != ta {
                    assert(a@.take(i as int).contains(y) <==> (ta.contains(y) || y == x));
                }
                if b@.take(j as int) != tb {
                    assert(b@.take(j as int).contains(y) <==> (tb.contains(y) || y == x));
                }
            }
            if i < a@.len() && take_a {
                assert(a@[i - 1] < a@[i as int]);
            }
            if j < b@.len() && j > 0 {
                assert(b@[j - 1] < b@[j as int]);
            }
        }
    }
    assert(a@.take(a@.len() as int) =~= a@);
    assert(b@.take(b@.len() as int) =~= b@);
    r
}

/// A partition of positions `0..n` into groups; each group is named by one
/// of its members, its root.
struct Groups {
    label: Vec<usize>,
    members: Vec<Vec<usize>>,
}

impl Groups {
    /// The number of positions.
    spec fn size(&self) -> nat {
        self.label@.len()
    }

    /// The group of a position.
    spec fn group(&self, p: int) -> int {
        self.label@[p] as int
    }

    spec fn wf(&self) -> bool {
        let n = self.label@.len();
        &&& self.members@.len() == n
        &&& n <= usize::MAX
        &&& forall|p: int| 0 <= p < n ==> (#[trigger] self.label@[p]) < n
        &&& forall|p: int| 0 <= p < n ==> self.label@[self.label@[p] as int] == #[trigger] self.label@[p]
        &&& forall|g: int| 0 <= g < n ==> increasing(#[trigger] self.members@[g]@)
        &&& forall|g: int, q: usize|
            0 <= g < n && q < n ==> (#[trigger] self.members@[g]@.contains(q) <==> self.label@[q as int] == g)
        &&& forall|g: int, k: int| 0 <= g < n && 0 <= k < self.members@[g]@.len() ==> #[trigger] self.members@[g]@[k] < n
    }

    /// The roots: positions that name a group.
    spec fn roots(&self) -> Set<int> {
        Set::new(|g: int| 0 <= g < self.size() && self.label@[g] == g)
    }

    fn new(n: usize) -> (s: Groups)
        ensures
            s.wf(),
            s.size() == n,
            forall|p: int| 0 <= p < n ==> #[trigger] s.label@[p] == p,
            s.roots().finite(),
            s.roots().len() == n,
    {
        let mut label: Vec<usize> = Vec::new();
        let mut members: Vec<Vec<usize>> = Vec::new();
        let mut i: usize = 0;
        while i < n
            invariant
                i <= n,
                label@.len() == i,
                members@.len() == i,
                forall|p: int| 0 <= p < i ==> #[trigger] label@[p] == p,
                forall|g: int| 0 <= g < i ==> (#[trigger] members@[g])@ == seq![g as usize],
            decreases n - i,
        {
            label.push(i);
            let mut one: Vec<usize> = Vec::new();
            one.push(i);
            members.push(one);
            i = i + 1;
        }
        let s = Groups { label, members };
        proof {
            assert forall|g: int, q: usize| 0 <= g < n && q < n implies (#[trigger] s.members@[g]@.contains(q)
                <==> s.label@[q as int] == g) by {
                if s.members@[g]@.contains(q) {
                    let k = choose|k: int| 0 <= k < s.members@[g]@.len() && s.members@[g]@[k] == q;
                    assert(k == 0);
                }
                if s.label@[q as int] == g {
                    assert(s.members@[g]@[0] == q);
                }
            }
            assert(s.roots() =~= vstd::set_lib::set_int_range(0, n as int));
            vstd::set_lib::lemma_int_range(0, n as int);
        }
        s
    }

    fn find(&self, p: usize) -> (g: usize)
        requires
            self.wf(),
            p < self.size(),
        ensures
            g == self.label@[p as int],
            g < self.size(),
            self.label@[g as int] == g,
    {
        self.label[p]
    }

    /// Merges group `h` into group `g`.
    fn union(&mut self, g: usize, h: usize)
        requires
            old(self).wf(),
            g < old(self).size(),
            h < old(self).size(),
            old(self).label@[g as int] == g,
            old(self).label@[h as int] == h,
            g != h,
        ensures
            final(self).wf(),
            final(self).size() == old(self).size(),
            forall|q: int| 0 <= q < old(self).size() ==> #[trigger] final(self).label@[q] == if old(self).label@[q] == h {
                g
            } else {
                old(self).label@[q]
            },
            final(self).roots() == old(self).roots().remove(h as int),
    {
        let ghost n = self.label@.len();
        let ghost old_label = self.label@;
        let ghost old_members = self.members@;
        let moved = self.copy_members(h);
        let mut k: usize = 0;
        while k < moved.len()
            invariant
                k <= moved@.len(),
                moved@ == old_members[h as int]@,
                self.label@.len() == n,
                self.members@ == old_members,
                n <= usize::MAX,
                forall|j: int| 0 <= j < moved@.len() ==> #[trigger] moved@[j] < n,
                forall|q: int| 0 <= q < n ==> #[trigger] self.label@[q] == if moved@.take(k as int).contains(q as usize) {
                    g
                } else {
                    old_label[q]
                },
            decreases moved.len() - k,
        {
            let q = moved[k];
            self.label.set(q, g);
            proof {
                lemma_push_contains(moved@.take(k as int), q);
                assert(moved@.take(k + 1) =~= moved@.take(k as int).push(q));
            }
            k = k + 1;
        }
        assert(moved@.take(moved@.len() as int) =~= moved@);
        let merged = merge_sorted(&self.members[g], &moved);
        self.members.set(g, merged);
        self.members.set(h, Vec::new());
        proof {
            assert forall|q: int| 0 <= q < n implies #[trigger] self.label@[q] == if old_label[q] == h {
                g
            } else {
                old_label[q]
            } by {
                assert(old_members[h as int]@.contains(q as usize) <==> old_label[(q as usize) as int] == h);
            }
            assert forall|g2: int, q: usize| 0 <= g2 < n && q < n implies (#[trigger] self.members@[g2]@.contains(q)
                <==> self.label@[q as int] == g2) by {
                assert(old_members[g2]@.contains(q) <==> old_label[q as int] == g2);
                assert(old_members[h as int]@.contains(q) <==> old_label[q as int] == h);
                assert(old_members[g as int]@.contains(q) <==> old_label[q as int] == g);
            }
            assert forall|g2: int, j: int| 0 <= g2 < n && 0 <= j < self.members@[g2]@.len() implies #[trigger] self.members@[g2]@[j]
                < n by {
                if g2 == g {
                    let x = self.members@[g2]@[j];
                    assert(self.members@[g2]@.contains(x));
                    if old_members[g as int]@.contains(x) {
                        let m = choose|m: int| 0 <= m < old_members[g as int]@.len() && old_members[g as int]@[m] == x;
                    } else {
                        let m = choose|m: int| 0 <= m < moved@.len() && moved@[m] == x;
                    }
                }
            }
            assert forall|p: int| 0 <= p < n implies self.label@[self.label@[p] as int] == #[trigger] self.label@[p] by {
                assert(old_label[old_label[p] as int] == old_label[p]);
            }
            assert(self.roots() =~= old(self).roots().remove(h as int));
        }
    }

    fn copy_members(&self, g: usize) -> (r: Vec<usize>)
        requires
            self.wf(),
            g < self.size(),
        ensures
            r@ == self.members@[g as int]@,
    {
        let src = &self.members[g];
        let mut r: Vec<usize> = Vec::new();
        let mut i: usize = 0;
        while i < src.len()
            invariant
                i <= src@.len(),
                r@ =~= src@.take(i as int),
            decreases src.len() - i,
        {
            r.push(src[i]);
            i = i + 1;
            assert(r@ =~= src@.take(i as int));
        }
        assert(src@.take(src@.len() as int) =~= src@);
        r
    }
}

// ---------------------------------------------------------------------------
// Links by exact keys.
// ---------------------------------------------------------------------------

/// Whether `path` walks through candidates of `cands`, each sharing an exact
/// correlation key with the next.
pub open spec fn key_path(cfg: ConfigView, cands: Seq<CandidateView>, path: Seq<CandidateView>) -> bool {
    &&& path.len() >= 1
    &&& forall|i: int| 0 <= i < path.len() ==> cands.contains(#[trigger] path[i])
    &&& forall|i: int| 0 <= i < path.len() - 1 ==> shares_correlation_key(cfg, #[trigger] path[i], path[i + 1])
}

/// Whether two candidates are joined by a chain of shared exact keys through
/// candidates of `cands`.
pub open spec fn key_linked(cfg: ConfigView, cands: Seq<CandidateView>, a: CandidateView, b: CandidateView) -> bool {
    exists|path: Seq<CandidateView>| #[trigger] key_path(cfg, cands, path) && path[0] == a && path.last() == b
}

/// A candidate is linked to itself.
proof fn lemma_linked_refl(cfg: ConfigView, cands: Seq<CandidateView>, a: CandidateView)
    requires
        cands.contains(a),
    ensures
        key_linked(cfg, cands, a, a),
{
    let path = seq![a];
    assert(key_path(cfg, cands, path));
}

/// Links join across a shared exact key.
proof fn lemma_linked_join(
    cfg: ConfigView,
    cands: Seq<CandidateView>,
    a: CandidateView,
    m: CandidateView,
    n: CandidateView,
    b: CandidateView,
)
    requires
        key_linked(cfg, cands, a, m),
        shares_correlation_key(cfg, m, n),
        key_linked(cfg, cands, n, b),
    ensures
        key_linked(cfg, cands, a, b),
{
    let p1 = choose|path: Seq<CandidateView>| #[trigger] key_path(cfg, cands, path) && path[0] == a && path.last() == m;
    let p2 = choose|path: Seq<CandidateView>| #[trigger] key_path(cfg, cands, path) && path[0] == n && path.last() == b;
    let path = p1 + p2;
    assert forall|i: int| 0 <= i < path.len() implies cands.contains(#[trigger] path[i]) by {
        if i < p1.len() {
            assert(path[i] == p1[i]);
        } else {
            assert(path[i] == p2[i - p1.len()]);
        }
    }
    assert forall|i: int| 0 <= i < path.len() - 1 implies shares_correlation_key(cfg, #[trigger] path[i], path[i + 1]) by {
        if i < p1.len() - 1 {
            assert(path[i] == p1[i] && path[i + 1] == p1[i + 1]);
        } else if i == p1.len() - 1 {
            assert(path[i] == m && path[i + 1] == n);
        } else {
            assert(path[i] == p2[i - p1.len()] && path[i + 1] == p2[i - p1.len() + 1]);
        }
    }
    assert(key_path(cfg, cands, path));
    assert(path[0] == a);
    assert(path.last() == b);
}

/// Sharing an exact key is symmetric.
proof fn lemma_shares_symmetric(cfg: ConfigView, a: CandidateView, b: CandidateView)
    ensures
        shares_correlation_key(cfg, a, b) == shares_correlation_key(cfg, b, a),
{
    if shares_correlation_key(cfg, a, b) {
        let k = choose|k: Seq<u8>| #[trigger] correlation_key_set(cfg, a).contains(k) && correlation_key_set(cfg, b).contains(k);
        assert(correlation_key_set(cfg, b).contains(k) && correlation_key_set(cfg, a).contains(k));
    }
    if shares_correlation_key(cfg, b, a) {
        let k = choose|k: Seq<u8>| #[trigger] correlation_key_set(cfg, b).contains(k) && correlation_key_set(cfg, a).contains(k);
        assert(correlation_key_set(cfg, a).contains(k) && correlation_key_set(cfg, b).contains(k));
    }
}

// ---------------------------------------------------------------------------
// The batch, by position in occurrence-key order.
// ---------------------------------------------------------------------------

/// Candidates in occurrence-key order with their keys.
struct Batch<'a> {
    candidates: Vec<&'a Candidate>,
    keys: Vec<OccurrenceKey>,
    correlation: Vec<Vec<CorrelationKey>>,
}

/// The views of candidates by position.
pub open spec fn candidate_refs(v: Seq<&Candidate>) -> Seq<CandidateView> {
    Seq::new(v.len(), |i: int| v[i]@)
}

impl<'a> Batch<'a> {
    spec fn len(&self) -> nat {
        self.candidates@.len()
    }

    spec fn views(&self) -> Seq<CandidateView> {
        candidate_refs(self.candidates@)
    }

    spec fn wf(&self, cfg: ConfigView) -> bool {
        &&& self.keys@.len() == self.len()
        &&& self.correlation@.len() == self.len()
        &&& self.len() <= usize::MAX
        &&& forall|p: int| 0 <= p < self.len() ==> (#[trigger] self.keys@[p])@ == occurrence_key_of(self.views()[p])
        &&& forall|p: int|
            0 <= p < self.len() ==> key_views((#[trigger] self.correlation@[p])@).to_set() == correlation_key_set(
                cfg,
                self.views()[p],
            )
        &&& forall|p: int| 0 <= p < self.len() ==> keys_sorted(key_views((#[trigger] self.correlation@[p])@))
        &&& forall|p: int, q: int| 0 <= p < q < self.len() ==> byte_sign(#[trigger] self.keys@[p]@, #[trigger] self.keys@[q]@) < 0
    }
}

/// The decision between two candidates.
#[verifier::opaque]
pub open spec fn decision_of(cfg: ConfigView, a: CandidateView, b: CandidateView) -> Decision {
    compare_spec(cfg, a, b).decision
}

/// The comparison of two candidates.
#[verifier::opaque]
pub open spec fn compared(cfg: ConfigView, a: CandidateView, b: CandidateView) -> ComparisonView {
    compare_spec(cfg, a, b)
}

// ---------------------------------------------------------------------------
// Exact merges.
// ---------------------------------------------------------------------------

/// Whether every group's members are pairwise joined by exact keys.
spec fn groups_key_linked(groups: Groups, cfg: ConfigView, views: Seq<CandidateView>) -> bool {
    forall|p: int, q: int|
        0 <= p < groups.size() && 0 <= q < groups.size() && #[trigger] groups.label@[p] == #[trigger] groups.label@[q]
            ==> key_linked(cfg, views, views[p], views[q])
}

/// Whether no group holds two positions from one source.
spec fn groups_source_disjoint(groups: Groups, views: Seq<CandidateView>) -> bool {
    forall|p: int, q: int|
        0 <= p < groups.size() && 0 <= q < groups.size() && p != q && #[trigger] groups.label@[p] == #[trigger] groups.label@[q]
            ==> views[p].origin.source != views[q].origin.source
}

/// Whether block keys are strictly increasing.
spec fn block_keys_sorted(keys: Seq<CorrelationKey>) -> bool {
    forall|x: int, y: int| 0 <= x < y < keys.len() ==> byte_sign(#[trigger] keys[x]@, #[trigger] keys[y]@) < 0
}

/// Whether some block with key `k` holds position `q`.
spec fn has_block(keys: Seq<CorrelationKey>, members: Seq<Vec<usize>>, k: Seq<u8>, q: int) -> bool {
    exists|b: int| 0 <= b < keys.len() && #[trigger] keys[b]@ == k && members[b]@.contains(q as usize)
}

/// Whether every listed correlation key of the positions below `p` (and the
/// first `j` keys of position `p`) names a block that holds the position.
spec fn blocks_complete(batch: &Batch, keys: Seq<CorrelationKey>, members: Seq<Vec<usize>>, p: int, j: int) -> bool {
    forall|q: int, t: int|
        0 <= q <= p && 0 <= t < batch.correlation@[q]@.len() && (q < p || t < j) ==> has_block(
            keys,
            members,
            (#[trigger] batch.correlation@[q]@[t])@,
            q,
        )
}

/// Groups candidate positions by exact correlation key, in key order.
fn exact_blocks(batch: &Batch, cfg: Ghost<ConfigView>) -> (r: (Vec<CorrelationKey>, Vec<Vec<usize>>))
    requires
        batch.wf(cfg@),
    ensures
        r.0@.len() == r.1@.len(),
        forall|b: int, k: int|
            0 <= b < r.1@.len() && 0 <= k < r.1@[b]@.len() ==> #[trigger] r.1@[b]@[k] < batch.len()
                && correlation_key_set(cfg@, batch.views()[r.1@[b]@[k] as int]).contains(r.0@[b]@),
        block_keys_sorted(r.0@),
        forall|b: int| 0 <= b < r.1@.len() ==> (#[trigger] r.1@[b])@.len() > 0,
        forall|b: int| 0 <= b < r.1@.len() ==> increasing(#[trigger] r.1@[b]@),
        forall|q: int, k: Seq<u8>|
            0 <= q < batch.len() && #[trigger] correlation_key_set(cfg@, batch.views()[q]).contains(k) ==> exists|b: int|
                0 <= b < r.0@.len() && #[trigger] r.0@[b]@ == k && r.1@[b]@.contains(q as usize),
{
    let mut keys: Vec<CorrelationKey> = Vec::new();
    let mut members: Vec<Vec<usize>> = Vec::new();
    let mut p: usize = 0;
    while p < batch.candidates.len()
        invariant
            batch.wf(cfg@),
            p <= batch.len(),
            keys@.len() == members@.len(),
            forall|b: int, k: int|
                0 <= b < members@.len() && 0 <= k < members@[b]@.len() ==> #[trigger] members@[b]@[k] < batch.len()
                    && correlation_key_set(cfg@, batch.views()[members@[b]@[k] as int]).contains(keys@[b]@),
            block_keys_sorted(keys@),
            forall|b: int| 0 <= b < members@.len() ==> (#[trigger] members@[b])@.len() > 0,
            blocks_complete(batch, keys@, members@, p as int, 0),
            forall|b: int| 0 <= b < members@.len() ==> increasing(#[trigger] members@[b]@),
            forall|b: int, k: int| 0 <= b < members@.len() && 0 <= k < members@[b]@.len() ==> #[trigger] members@[b]@[k] < p,
        decreases batch.len() - p,
    {
        let own = &batch.correlation[p];
        let mut j: usize = 0;
        while j < own.len()
            invariant
                batch.wf(cfg@),
                p < batch.len(),
                own == &batch.correlation@[p as int],
                j <= own@.len(),
                keys@.len() == members@.len(),
                forall|b: int, k: int|
                    0 <= b < members@.len() && 0 <= k < members@[b]@.len() ==> #[trigger] members@[b]@[k] < batch.len()
                        && correlation_key_set(cfg@, batch.views()[members@[b]@[k] as int]).contains(keys@[b]@),
                block_keys_sorted(keys@),
                forall|b: int| 0 <= b < members@.len() ==> (#[trigger] members@[b])@.len() > 0,
                blocks_complete(batch, keys@, members@, p as int, j as int),
                forall|b: int| 0 <= b < members@.len() ==> increasing(#[trigger] members@[b]@),
                forall|b: int, k: int| 0 <= b < members@.len() && 0 <= k < members@[b]@.len() ==> #[trigger] members@[b]@[k] <= p,
                forall|b: int|
                    0 <= b < members@.len() && (#[trigger] members@[b])@.contains(p) ==> exists|j2: int|
                        0 <= j2 < j && (#[trigger] own@[j2])@ == keys@[b]@,
            decreases own.len() - j,
        {
            let key = own[j];
            proof {
                assert(key_views(own@)[j as int] == key@);
                assert(key_views(own@).to_set().contains(key@));
                assert(key_views(batch.correlation@[p as int]@).to_set() == correlation_key_set(cfg@, batch.views()[p as int]));
                assert(correlation_key_set(cfg@, batch.views()[p as int]).contains(key@));
            }
            let mut pos: usize = 0;
            let mut sign: i8 = 1;
            while pos < keys.len() && sign > 0
                invariant
                    pos <= keys@.len(),
                    sign <= 0 ==> pos < keys@.len() && sign as int == byte_sign(key@, keys@[pos as int]@),
                    forall|x: int| 0 <= x < pos ==> byte_sign(key@, (#[trigger] keys@[x])@) > 0,
                decreases keys@.len() - pos + (if sign > 0 { 1int } else { 0int }),
            {
                let c = key.compare(&keys[pos]);
                if c > 0 {
                    pos = pos + 1;
                } else {
                    sign = c;
                }
            }
            let ghost before_k = keys@;
            let ghost before_m = members@;
            if sign == 0 {
                proof {
                    lemma_byte_antisym(key@, keys@[pos as int]@);
                }
                proof {
                    if before_m[pos as int]@.contains(p) {
                        let j2 = choose|j2: int| 0 <= j2 < j && (#[trigger] own@[j2])@ == before_k[pos as int]@;
                        assert(key_views(own@)[j2] == own@[j2]@ && key_views(own@)[j as int] == own@[j as int]@);
                        assert(byte_sign(key_views(own@)[j2], key_views(own@)[j as int]) < 0);
                        lemma_byte_antisym(own@[j2]@, own@[j as int]@);
                    }
                    assert forall|x: int| 0 <= x < before_m[pos as int]@.len() implies #[trigger] before_m[pos as int]@[x] < p by {
                        assert(before_m[pos as int]@.contains(before_m[pos as int]@[x]));
                    }
                }
                let mut block = members.remove(pos);
                block.push(p);
                members.insert(pos, block);
                proof {
                    assert forall|b2: int| 0 <= b2 < members@.len() implies increasing(#[trigger] members@[b2]@) by {
                        if b2 != pos {
                            assert(members@[b2] == before_m[b2]);
                        } else {
                            assert(members@[b2]@ == before_m[b2]@.push(p));
                        }
                    }
                    assert forall|b2: int, k: int| 0 <= b2 < members@.len() && 0 <= k < members@[b2]@.len() implies #[trigger] members@[b2]@[k]
                        <= p by {
                        if b2 != pos {
                            assert(members@[b2] == before_m[b2]);
                        } else if k < before_m[b2]@.len() {
                            assert(members@[b2]@[k] == before_m[b2]@[k]);
                        }
                    }
                    assert forall|b2: int|
                        0 <= b2 < members@.len() && (#[trigger] members@[b2])@.contains(p) implies exists|j2: int|
                        0 <= j2 < j + 1 && (#[trigger] own@[j2])@ == keys@[b2]@ by {
                        if b2 != pos {
                            assert(members@[b2] == before_m[b2]);
                            let j2 = choose|j2: int| 0 <= j2 < j && (#[trigger] own@[j2])@ == before_k[b2]@;
                            assert(0 <= j2 < j + 1 && own@[j2]@ == keys@[b2]@);
                        } else {
                            assert(own@[j as int]@ == keys@[b2]@);
                        }
                    }
                    assert forall|b: int, k: int|
                        0 <= b < members@.len() && 0 <= k < members@[b]@.len() implies #[trigger] members@[b]@[k] < batch.len()
                            && correlation_key_set(cfg@, batch.views()[members@[b]@[k] as int]).contains(keys@[b]@) by {
                        if b == pos && k < before_m[b]@.len() {
                            assert(members@[b]@[k] == before_m[b]@[k]);
                        } else if b == pos {
                            assert(members@[b]@[k] == p);
                            assert(keys@[b]@ == key@);
                        } else if b != pos {
                            assert(members@[b] == before_m[b]);
                        }
                    }
                    assert forall|b: int| 0 <= b < members@.len() implies (#[trigger] members@[b])@.len() > 0 by {
                        if b != pos {
                            assert(members@[b] == before_m[b]);
                        }
                    }
                    assert forall|q: int, t: int|
                        0 <= q <= p && 0 <= t < batch.correlation@[q]@.len() && (q < p || t < j + 1) implies has_block(
                            keys@,
                            members@,
                            (#[trigger] batch.correlation@[q]@[t])@,
                            q,
                        ) by {
                        if q == p && t == j {
                            assert(members@[pos as int]@.last() == p);
                            assert(members@[pos as int]@.contains(p));
                            assert(keys@[pos as int]@ == batch.correlation@[q]@[t]@);
                        } else {
                            assert(has_block(before_k, before_m, batch.correlation@[q]@[t]@, q));
                            let b = choose|b: int|
                                0 <= b < before_k.len() && #[trigger] before_k[b]@ == batch.correlation@[q]@[t]@ && before_m[b]@.contains(
                                    q as usize,
                                );
                            if b == pos {
                                let x = choose|x: int| 0 <= x < before_m[b]@.len() && before_m[b]@[x] == q as usize;
                                assert(members@[b]@[x] == q as usize);
                                assert(members@[b]@.contains(q as usize));
                            } else {
                                assert(members@[b] == before_m[b]);
                            }
                            assert(keys@[b]@ == batch.correlation@[q]@[t]@);
                        }
                    }
                }
            } else {
                keys.insert(pos, key);
                let mut block: Vec<usize> = Vec::new();
                block.push(p);
                members.insert(pos, block);
                proof {
                    assert forall|b2: int| 0 <= b2 < members@.len() implies increasing(#[trigger] members@[b2]@) by {
                        if b2 < pos {
                            assert(members@[b2] == before_m[b2]);
                        } else if b2 > pos {
                            assert(members@[b2] == before_m[b2 - 1]);
                        }
                    }
                    assert forall|b2: int, k: int| 0 <= b2 < members@.len() && 0 <= k < members@[b2]@.len() implies #[trigger] members@[b2]@[k]
                        <= p by {
                        if b2 < pos {
                            assert(members@[b2] == before_m[b2]);
                        } else if b2 > pos {
                            assert(members@[b2] == before_m[b2 - 1]);
                        }
                    }
                    assert forall|b2: int|
                        0 <= b2 < members@.len() && (#[trigger] members@[b2])@.contains(p) implies exists|j2: int|
                        0 <= j2 < j + 1 && (#[trigger] own@[j2])@ == keys@[b2]@ by {
                        if b2 < pos || b2 > pos {
                            let ob = if b2 < pos { b2 } else { b2 - 1 };
                            assert(members@[b2] == before_m[ob] && keys@[b2] == before_k[ob]);
                            let j2 = choose|j2: int| 0 <= j2 < j && (#[trigger] own@[j2])@ == before_k[ob]@;
                            assert(0 <= j2 < j + 1 && own@[j2]@ == keys@[b2]@);
                        } else {
                            assert(own@[j as int]@ == keys@[b2]@);
                        }
                    }
                    assert forall|b: int, k: int|
                        0 <= b < members@.len() && 0 <= k < members@[b]@.len() implies #[trigger] members@[b]@[k] < batch.len()
                            && correlation_key_set(cfg@, batch.views()[members@[b]@[k] as int]).contains(keys@[b]@) by {
                        if b < pos {
                            assert(members@[b] == before_m[b] && keys@[b] == before_k[b]);
                        } else if b > pos {
                            assert(members@[b] == before_m[b - 1] && keys@[b] == before_k[b - 1]);
                        }
                    }
                    assert forall|b: int| 0 <= b < members@.len() implies (#[trigger] members@[b])@.len() > 0 by {
                        if b < pos {
                            assert(members@[b] == before_m[b]);
                        } else if b > pos {
                            assert(members@[b] == before_m[b - 1]);
                        }
                    }
                    assert forall|x: int, y: int| 0 <= x < y < keys@.len() implies byte_sign(
                        #[trigger] keys@[x]@,
                        #[trigger] keys@[y]@,
                    ) < 0 by {
                        if y < pos {
                            assert(keys@[x] == before_k[x] && keys@[y] == before_k[y]);
                        } else if y == pos {
                            assert(keys@[x] == before_k[x]);
                            lemma_byte_antisym(key@, before_k[x]@);
                        } else if x < pos {
                            assert(keys@[x] == before_k[x] && keys@[y] == before_k[y - 1]);
                        } else if x == pos {
                            assert(keys@[y] == before_k[y - 1]);
                            if y - 1 > pos {
                                assert(byte_sign(before_k[pos as int]@, before_k[y - 1]@) < 0);
                                lemma_byte_trans(key@, before_k[pos as int]@, before_k[y - 1]@);
                            }
                        } else {
                            assert(keys@[x] == before_k[x - 1] && keys@[y] == before_k[y - 1]);
                        }
                    }
                    assert forall|q: int, t: int|
                        0 <= q <= p && 0 <= t < batch.correlation@[q]@.len() && (q < p || t < j + 1) implies has_block(
                            keys@,
                            members@,
                            (#[trigger] batch.correlation@[q]@[t])@,
                            q,
                        ) by {
                        if q == p && t == j {
                            assert(members@[pos as int]@[0] == p);
                            assert(members@[pos as int]@.contains(p));
                            assert(keys@[pos as int]@ == batch.correlation@[q]@[t]@);
                        } else {
                            assert(has_block(before_k, before_m, batch.correlation@[q]@[t]@, q));
                            let b = choose|b: int|
                                0 <= b < before_k.len() && #[trigger] before_k[b]@ == batch.correlation@[q]@[t]@ && before_m[b]@.contains(
                                    q as usize,
                                );
                            if b < pos {
                                assert(members@[b] == before_m[b] && keys@[b] == before_k[b]);
                            } else {
                                assert(members@[b + 1] == before_m[b] && keys@[b + 1] == before_k[b]);
                            }
                        }
                    }
                }
            }
            j = j + 1;
        }
        proof {
            assert forall|q: int, t: int|
                0 <= q <= p + 1 && 0 <= t < batch.correlation@[q]@.len() && (q < p + 1 || t < 0) implies has_block(
                    keys@,
                    members@,
                    (#[trigger] batch.correlation@[q]@[t])@,
                    q,
                ) by {
                assert(q < p || t < j);
            }
            assert(blocks_complete(batch, keys@, members@, p + 1, 0));
        }
        p = p + 1;
    }
    proof {
        assert forall|q: int, k: Seq<u8>|
            0 <= q < batch.len() && #[trigger] correlation_key_set(cfg@, batch.views()[q]).contains(k) implies exists|b: int|
                0 <= b < keys@.len() && #[trigger] keys@[b]@ == k && members@[b]@.contains(q as usize) by {
            assert(key_views(batch.correlation@[q]@).to_set().contains(k));
            let t = choose|t: int| 0 <= t < key_views(batch.correlation@[q]@).len() && key_views(batch.correlation@[q]@)[t] == k;
            assert(batch.correlation@[q]@[t]@ == k);
            assert(has_block(keys@, members@, batch.correlation@[q]@[t]@, q));
        }
    }
    (keys, members)
}

/// Whether two groups hold no two positions from one source.
fn sources_disjoint(groups: &Groups, batch: &Batch, g: usize, h: usize) -> (r: bool)
    requires
        groups.wf(),
        batch.len() == groups.size(),
        g < groups.size(),
        h < groups.size(),
    ensures
        r == forall|a: int, b: int|
            0 <= a < groups.size() && 0 <= b < groups.size() && #[trigger] groups.label@[a] == g && #[trigger] groups.label@[b]
                == h ==> batch.views()[a].origin.source != batch.views()[b].origin.source,
{
    let ghost n = groups.size();
    let left = &groups.members[g];
    let right = &groups.members[h];
    let mut i: usize = 0;
    while i < left.len()
        invariant
            groups.wf(),
            batch.len() == n,
            n == groups.size(),
            g < n,
            h < n,
            left == &groups.members@[g as int],
            right == &groups.members@[h as int],
            i <= left@.len(),
            forall|x: int, y: int|
                0 <= x < i && 0 <= y < right@.len() ==> batch.views()[#[trigger] left@[x] as int].origin.source
                    != batch.views()[#[trigger] right@[y] as int].origin.source,
        decreases left.len() - i,
    {
        let mut j: usize = 0;
        while j < right.len()
            invariant
                groups.wf(),
                batch.len() == n,
                n == groups.size(),
                g < n,
                h < n,
                left == &groups.members@[g as int],
                right == &groups.members@[h as int],
                i < left@.len(),
                j <= right@.len(),
                forall|x: int, y: int|
                    0 <= x < i && 0 <= y < right@.len() ==> batch.views()[#[trigger] left@[x] as int].origin.source
                        != batch.views()[#[trigger] right@[y] as int].origin.source,
                forall|y: int|
                    0 <= y < j ==> batch.views()[left@[i as int] as int].origin.source != batch.views()[#[trigger] right@[y] as int].origin.source,
            decreases right.len() - j,
        {
            let a = left[i];
            let b = right[j];
            assert(a < n && b < n);
            let same = crate::text::str_equal(
                batch.candidates[a].origin().source(),
                batch.candidates[b].origin().source(),
            );
            if same {
                proof {
                    assert(groups.members@[g as int]@[i as int] == a);
                    assert(groups.members@[g as int]@.contains(a));
                    assert(groups.members@[h as int]@[j as int] == b);
                    assert(groups.members@[h as int]@.contains(b));
                    assert(groups.label@[a as int] == g && groups.label@[b as int] == h);
                }
                return false;
            }
            j = j + 1;
        }
        i = i + 1;
    }
    proof {
        assert forall|a: int, b: int|
            0 <= a < n && 0 <= b < n && #[trigger] groups.label@[a] == g && #[trigger] groups.label@[b] == h implies batch.views()[a].origin.source
                != batch.views()[b].origin.source by {
            assert(groups.members@[g as int]@.contains(a as usize));
            assert(groups.members@[h as int]@.contains(b as usize));
            let x = choose|x: int| 0 <= x < left@.len() && left@[x] == a as usize;
            let y = choose|y: int| 0 <= y < right@.len() && right@[y] == b as usize;
        }
    }
    true
}

/// Unions the groups of two roots and keeps the exact-phase invariants,
/// given a witness in each group sharing a key.
proof fn lemma_exact_union(
    old_groups: Groups,
    new_groups: Groups,
    cfg: ConfigView,
    views: Seq<CandidateView>,
    g: int,
    h: int,
    wg: int,
    wh: int,
)
    requires
        old_groups.wf(),
        new_groups.wf(),
        new_groups.size() == old_groups.size(),
        views.len() == old_groups.size(),
        0 <= g < old_groups.size(),
        0 <= h < old_groups.size(),
        0 <= wg < old_groups.size(),
        0 <= wh < old_groups.size(),
        old_groups.label@[wg] == g,
        old_groups.label@[wh] == h,
        shares_correlation_key(cfg, views[wg], views[wh]),
        forall|q: int| 0 <= q < old_groups.size() ==> #[trigger] new_groups.label@[q] == if old_groups.label@[q] == h {
            g as usize
        } else {
            old_groups.label@[q]
        },
        groups_key_linked(old_groups, cfg, views),
    ensures
        groups_key_linked(new_groups, cfg, views),
{
    lemma_shares_symmetric(cfg, views[wg], views[wh]);
    assert forall|p: int, q: int|
        0 <= p < new_groups.size() && 0 <= q < new_groups.size() && #[trigger] new_groups.label@[p]
            == #[trigger] new_groups.label@[q] implies key_linked(cfg, views, views[p], views[q]) by {
        let lp = old_groups.label@[p];
        let lq = old_groups.label@[q];
        if lp == lq {
        } else if lp == g && lq == h {
            assert(old_groups.label@[p] == old_groups.label@[wg]);
            assert(old_groups.label@[wh] == old_groups.label@[q]);
            lemma_linked_join(cfg, views, views[p], views[wg], views[wh], views[q]);
        } else if lp == h && lq == g {
            assert(old_groups.label@[p] == old_groups.label@[wh]);
            assert(old_groups.label@[wg] == old_groups.label@[q]);
            lemma_linked_join(cfg, views, views[p], views[wh], views[wg], views[q]);
        } else {
            assert(new_groups.label@[p] == lp || new_groups.label@[q] == lq);
        }
    }
}

/// Whether every group of `groups` keeps the exact-phase invariants.
spec fn exact_invariant(groups: Groups, cfg: ConfigView, views: Seq<CandidateView>, cross_source_only: bool) -> bool {
    &&& groups.wf()
    &&& groups.size() == views.len()
    &&& groups_key_linked(groups, cfg, views)
    &&& (cross_source_only ==> groups_source_disjoint(groups, views))
    &&& groups.roots().finite()
}

/// Removing a root keeps the set finite and shrinks it by one.
proof fn lemma_roots_remove(roots: Set<int>, h: int, g: int)
    requires
        roots.finite(),
        roots.contains(h),
        roots.contains(g),
        g != h,
    ensures
        roots.remove(h).finite(),
        roots.remove(h).len() == roots.len() - 1,
        roots.remove(h).len() >= 1,
{
    vstd::set::axiom_set_remove_len(roots, h);
    vstd::set_lib::lemma_set_remove_finite_iff(roots, h);
    assert(roots.remove(h).contains(g));
    vstd::set::axiom_set_remove_len(roots.remove(h), g);
    vstd::set_lib::lemma_set_remove_finite_iff(roots.remove(h), g);
}

/// Whether two positions share a group or, under the cross-source policy,
/// their groups hold two members from one source.
spec fn settled(groups: Groups, views: Seq<CandidateView>, cso: bool, x: int, y: int) -> bool {
    ||| groups.label@[x] == groups.label@[y]
    ||| cso && exists|a: int, b: int|
        0 <= a < views.len() && 0 <= b < views.len() && #[trigger] groups.label@[a] == groups.label@[x] && #[trigger] groups.label@[b]
            == groups.label@[y] && views[a].origin.source == views[b].origin.source
}

/// Whether `after` only joins groups of `before`.
spec fn coarsens(before: Groups, after: Groups) -> bool {
    &&& after.size() == before.size()
    &&& forall|x: int, y: int|
        0 <= x < before.size() && 0 <= y < before.size() && #[trigger] before.label@[x] == #[trigger] before.label@[y]
            ==> after.label@[x] == after.label@[y]
}

/// A union only joins groups.
proof fn lemma_union_coarsens(before: Groups, after: Groups, g: int, h: int)
    requires
        after.size() == before.size(),
        forall|q: int| 0 <= q < before.size() ==> #[trigger] after.label@[q] == if before.label@[q] == h {
            g as usize
        } else {
            before.label@[q]
        },
    ensures
        coarsens(before, after),
{
    assert forall|x: int, y: int|
        0 <= x < before.size() && 0 <= y < before.size() && #[trigger] before.label@[x] == #[trigger] before.label@[y]
            implies after.label@[x] == after.label@[y] by {
        assert(after.label@[x] == if before.label@[x] == h { g as usize } else { before.label@[x] });
        assert(after.label@[y] == if before.label@[y] == h { g as usize } else { before.label@[y] });
    }
}

/// Joining groups keeps settled pairs settled.
proof fn lemma_settled_coarsen(before: Groups, after: Groups, views: Seq<CandidateView>, cso: bool, x: int, y: int)
    requires
        coarsens(before, after),
        before.size() == views.len(),
        0 <= x < views.len(),
        0 <= y < views.len(),
        settled(before, views, cso, x, y),
    ensures
        settled(after, views, cso, x, y),
{
    if before.label@[x] != before.label@[y] {
        let (a, b) = choose|a: int, b: int|
            0 <= a < views.len() && 0 <= b < views.len() && #[trigger] before.label@[a] == before.label@[x] && #[trigger] before.label@[b]
                == before.label@[y] && views[a].origin.source == views[b].origin.source;
        assert(after.label@[a] == after.label@[x]);
        assert(after.label@[b] == after.label@[y]);
    }
}

/// Settledness depends only on the two groups, in either order.
proof fn lemma_settled_relabel(groups: Groups, views: Seq<CandidateView>, cso: bool, x: int, y: int, x2: int, y2: int)
    requires
        settled(groups, views, cso, x, y),
        (groups.label@[x] == groups.label@[x2] && groups.label@[y] == groups.label@[y2]) || (groups.label@[x]
            == groups.label@[y2] && groups.label@[y] == groups.label@[x2]),
    ensures
        settled(groups, views, cso, x2, y2),
{
    if groups.label@[x] != groups.label@[y] {
        let (a, b) = choose|a: int, b: int|
            0 <= a < views.len() && 0 <= b < views.len() && #[trigger] groups.label@[a] == groups.label@[x] && #[trigger] groups.label@[b]
                == groups.label@[y] && views[a].origin.source == views[b].origin.source;
        if groups.label@[x] == groups.label@[x2] && groups.label@[y] == groups.label@[y2] {
            assert(groups.label@[a] == groups.label@[x2] && groups.label@[b] == groups.label@[y2]);
        } else {
            assert(groups.label@[b] == groups.label@[x2] && groups.label@[a] == groups.label@[y2]);
        }
    }
}

/// Whether every two members of each block below `b` are settled.
#[verifier::opaque]
spec fn blocks_settled(groups: Groups, views: Seq<CandidateView>, cso: bool, blocks: Seq<Vec<usize>>, b: int) -> bool {
    forall|b2: int, k1: int, k2: int|
        0 <= b2 < b && 0 <= k1 < blocks[b2]@.len() && 0 <= k2 < blocks[b2]@.len() ==> settled(
            groups,
            views,
            cso,
            #[trigger] blocks[b2]@[k1] as int,
            #[trigger] blocks[b2]@[k2] as int,
        )
}

/// Whether each of the first `m` members shares a group with the witness of
/// its home anchor, and every two witnesses are settled.
#[verifier::opaque]
spec fn anchors_hold(
    groups: Groups,
    views: Seq<CandidateView>,
    cso: bool,
    members: Seq<usize>,
    m: int,
    witnesses: Seq<int>,
    homes: Seq<int>,
) -> bool {
    &&& homes.len() == m
    &&& forall|k: int|
        0 <= k < m ==> 0 <= #[trigger] homes[k] < witnesses.len() && groups.label@[members[k] as int] == groups.label@[witnesses[homes[k]]]
    &&& forall|t1: int, t2: int|
        0 <= t1 < witnesses.len() && 0 <= t2 < witnesses.len() ==> settled(groups, views, cso, #[trigger] witnesses[t1], #[trigger] witnesses[t2])
}

/// Whether each anchor is a position whose group holds a witness: a position
/// with the block's key.
#[verifier::opaque]
spec fn anchors_witnessed(
    groups: Groups,
    anchors: Seq<usize>,
    witnesses: Seq<int>,
    n: nat,
    cfg: ConfigView,
    views: Seq<CandidateView>,
    key: Seq<u8>,
) -> bool {
    &&& anchors.len() == witnesses.len()
    &&& forall|t: int|
        0 <= t < anchors.len() ==> #[trigger] anchors[t] < n && 0 <= witnesses[t] < n && groups.label@[witnesses[t]]
            == groups.label@[anchors[t] as int] && correlation_key_set(cfg, views[witnesses[t]]).contains(key)
}

/// Whether the witnesses of the first `t` anchors are settled with `p`.
#[verifier::opaque]
spec fn anchors_checked(groups: Groups, views: Seq<CandidateView>, cso: bool, witnesses: Seq<int>, t: int, p: int) -> bool {
    forall|t2: int| 0 <= t2 < t ==> settled(groups, views, cso, #[trigger] witnesses[t2], p)
}

/// Joining groups keeps blocks and anchors settled.
proof fn lemma_exact_coarsen(
    before: Groups,
    after: Groups,
    views: Seq<CandidateView>,
    cso: bool,
    blocks: Seq<Vec<usize>>,
    b: int,
    members: Seq<usize>,
    m: int,
    witnesses: Seq<int>,
    homes: Seq<int>,
)
    requires
        coarsens(before, after),
        before.size() == views.len(),
        0 <= b <= blocks.len(),
        forall|b2: int, k: int| 0 <= b2 < blocks.len() && 0 <= k < blocks[b2]@.len() ==> #[trigger] blocks[b2]@[k] < views.len(),
        0 <= m <= members.len(),
        forall|k: int| 0 <= k < members.len() ==> #[trigger] members[k] < views.len(),
        forall|t: int| 0 <= t < witnesses.len() ==> 0 <= #[trigger] witnesses[t] < views.len(),
        blocks_settled(before, views, cso, blocks, b),
        anchors_hold(before, views, cso, members, m, witnesses, homes),
    ensures
        blocks_settled(after, views, cso, blocks, b),
        anchors_hold(after, views, cso, members, m, witnesses, homes),
{
    reveal(blocks_settled);
    reveal(anchors_hold);
    assert forall|b2: int, k1: int, k2: int|
        0 <= b2 < b && 0 <= k1 < blocks[b2]@.len() && 0 <= k2 < blocks[b2]@.len() implies settled(
            after,
            views,
            cso,
            #[trigger] blocks[b2]@[k1] as int,
            #[trigger] blocks[b2]@[k2] as int,
        ) by {
        lemma_settled_coarsen(before, after, views, cso, blocks[b2]@[k1] as int, blocks[b2]@[k2] as int);
    }
    assert forall|k: int| 0 <= k < m implies 0 <= #[trigger] homes[k] < witnesses.len() && after.label@[members[k] as int]
        == after.label@[witnesses[homes[k]]] by {
        assert(0 <= witnesses[homes[k]] < views.len());
        assert(before.label@[members[k] as int] == before.label@[witnesses[homes[k]]]);
    }
    assert forall|t1: int, t2: int|
        0 <= t1 < witnesses.len() && 0 <= t2 < witnesses.len() implies settled(after, views, cso, #[trigger] witnesses[t1], #[trigger] witnesses[t2]) by {
        lemma_settled_coarsen(before, after, views, cso, witnesses[t1], witnesses[t2]);
    }
}

/// Whether every two positions sharing an exact correlation key are settled.
#[verifier::opaque]
spec fn exact_settled(groups: Groups, cfg: ConfigView, views: Seq<CandidateView>, cso: bool) -> bool {
    forall|x: int, y: int|
        0 <= x < views.len() && 0 <= y < views.len() && shares_correlation_key(cfg, #[trigger] views[x], #[trigger] views[y])
            ==> settled(groups, views, cso, x, y)
}

/// Joining groups keeps exact pairs settled.
proof fn lemma_exact_settled_coarsen(before: Groups, after: Groups, cfg: ConfigView, views: Seq<CandidateView>, cso: bool)
    requires
        coarsens(before, after),
        before.size() == views.len(),
        exact_settled(before, cfg, views, cso),
    ensures
        exact_settled(after, cfg, views, cso),
{
    reveal(exact_settled);
    assert forall|x: int, y: int|
        0 <= x < views.len() && 0 <= y < views.len() && shares_correlation_key(cfg, #[trigger] views[x], #[trigger] views[y])
            implies settled(after, views, cso, x, y) by {
        lemma_settled_coarsen(before, after, views, cso, x, y);
    }
}

/// Settled blocks settle every two positions that share a key.
proof fn lemma_blocks_exact_settled(
    groups: Groups,
    cfg: ConfigView,
    views: Seq<CandidateView>,
    cso: bool,
    block_keys: Seq<CorrelationKey>,
    blocks: Seq<Vec<usize>>,
)
    requires
        views.len() <= usize::MAX,
        blocks_settled(groups, views, cso, blocks, blocks.len() as int),
        block_keys_sorted(block_keys),
        block_keys.len() == blocks.len(),
        forall|q: int, k: Seq<u8>|
            0 <= q < views.len() && #[trigger] correlation_key_set(cfg, views[q]).contains(k) ==> exists|b: int|
                0 <= b < block_keys.len() && #[trigger] block_keys[b]@ == k && blocks[b]@.contains(q as usize),
    ensures
        exact_settled(groups, cfg, views, cso),
{
    reveal(exact_settled);
    reveal(blocks_settled);
    assert forall|x: int, y: int|
        0 <= x < views.len() && 0 <= y < views.len() && shares_correlation_key(cfg, #[trigger] views[x], #[trigger] views[y])
            implies settled(groups, views, cso, x, y) by {
        let k = choose|k: Seq<u8>| #[trigger] correlation_key_set(cfg, views[x]).contains(k) && correlation_key_set(cfg, views[y]).contains(k);
        let b1 = choose|b: int| 0 <= b < block_keys.len() && #[trigger] block_keys[b]@ == k && blocks[b]@.contains(x as usize);
        let b2 = choose|b: int| 0 <= b < block_keys.len() && #[trigger] block_keys[b]@ == k && blocks[b]@.contains(y as usize);
        if b1 < b2 {
            lemma_byte_antisym(block_keys[b1]@, block_keys[b2]@);
        } else if b2 < b1 {
            lemma_byte_antisym(block_keys[b2]@, block_keys[b1]@);
        }
        let m1 = choose|m: int| 0 <= m < blocks[b1]@.len() && blocks[b1]@[m] == x as usize;
        let m2 = choose|m: int| 0 <= m < blocks[b1]@.len() && blocks[b1]@[m] == y as usize;
        assert(settled(groups, views, cso, blocks[b1]@[m1] as int, blocks[b1]@[m2] as int));
    }
}

/// One exact union of an anchor's group with a member's group keeps the
/// exact-phase invariants and the anchors' witnesses.
#[verifier::spinoff_prover]
proof fn lemma_anchor_union(
    before: Groups,
    after: Groups,
    cfg: ConfigView,
    views: Seq<CandidateView>,
    cso: bool,
    n: nat,
    anchor_root: int,
    current: int,
    w: int,
    p: int,
    anchors: Seq<usize>,
    witnesses: Seq<int>,
    key: Seq<u8>,
    blocks: Seq<Vec<usize>>,
    b: int,
    members: Seq<usize>,
    m: int,
)
    requires
        exact_invariant(before, cfg, views, cso),
        views.len() == n,
        after.wf(),
        after.size() == n,
        after.roots().finite(),
        forall|q: int| 0 <= q < before.size() ==> #[trigger] after.label@[q] == if before.label@[q] == current {
            anchor_root as usize
        } else {
            before.label@[q]
        },
        0 <= anchor_root < n,
        0 <= current < n,
        anchor_root != current,
        0 <= w < n,
        before.label@[w] == anchor_root,
        correlation_key_set(cfg, views[w]).contains(key),
        0 <= p < n,
        before.label@[p] == current,
        correlation_key_set(cfg, views[p]).contains(key),
        cso ==> forall|a: int, c: int|
            0 <= a < n && 0 <= c < n && #[trigger] before.label@[a] == anchor_root && #[trigger] before.label@[c] == current
                ==> views[a].origin.source != views[c].origin.source,
        anchors_witnessed(before, anchors, witnesses, n, cfg, views, key),
        0 <= b <= blocks.len(),
        forall|b2: int, k: int| 0 <= b2 < blocks.len() && 0 <= k < blocks[b2]@.len() ==> #[trigger] blocks[b2]@[k] < n,
        0 <= m <= members.len(),
        forall|k: int| 0 <= k < members.len() ==> #[trigger] members[k] < n,
        !cso ==> forall|b2: int, k: int|
            0 <= b2 < b && 0 <= k < blocks[b2]@.len() ==> before.label@[#[trigger] blocks[b2]@[k] as int]
                == before.label@[blocks[b2]@[0] as int],
        !cso && m > 0 ==> anchors.len() > 0,
        !cso ==> forall|k: int| 0 <= k < m ==> before.label@[#[trigger] members[k] as int] == before.label@[anchors[0] as int],
    ensures
        exact_invariant(after, cfg, views, cso),
        anchors_witnessed(after, anchors, witnesses, n, cfg, views, key),
        !cso ==> forall|b2: int, k: int|
            0 <= b2 < b && 0 <= k < blocks[b2]@.len() ==> after.label@[#[trigger] blocks[b2]@[k] as int]
                == after.label@[blocks[b2]@[0] as int],
        !cso ==> forall|k: int| 0 <= k < m ==> after.label@[#[trigger] members[k] as int] == after.label@[anchors[0] as int],
        after.label@[p] == after.label@[w],
{
    lemma_exact_union(before, after, cfg, views, anchor_root, current, w, p);
    if cso {
        assert forall|x: int, y: int|
            0 <= x < n && 0 <= y < n && x != y && #[trigger] after.label@[x] == #[trigger] after.label@[y] implies views[x].origin.source
                != views[y].origin.source by {
            let lx = before.label@[x];
            let ly = before.label@[y];
            if lx != ly {
                if lx == current {
                    assert(before.label@[y] == anchor_root);
                } else {
                    assert(before.label@[x] == anchor_root);
                    assert(before.label@[y] == current);
                }
            }
        }
    }
    reveal(anchors_witnessed);
    assert forall|t2: int|
        0 <= t2 < anchors.len() implies #[trigger] anchors[t2] < n && 0 <= witnesses[t2] < n && after.label@[witnesses[t2]]
            == after.label@[anchors[t2] as int] && correlation_key_set(cfg, views[witnesses[t2]]).contains(key) by {
        assert(before.label@[witnesses[t2]] == before.label@[anchors[t2] as int]);
    }
    if !cso {
        assert forall|b2: int, k: int|
            0 <= b2 < b && 0 <= k < blocks[b2]@.len() implies after.label@[#[trigger] blocks[b2]@[k] as int]
                == after.label@[blocks[b2]@[0] as int] by {
            assert(blocks[b2]@[0] < n);
            assert(before.label@[blocks[b2]@[k] as int] == before.label@[blocks[b2]@[0] as int]);
        }
        if m > 0 {
            assert(anchors[0] < n);
            assert forall|k: int| 0 <= k < m implies after.label@[#[trigger] members[k] as int] == after.label@[anchors[0] as int] by {
                assert(before.label@[members[k] as int] == before.label@[anchors[0] as int]);
            }
        }
    }
}

/// Whether two groups hold two occurrences of one source.
pub open spec fn groups_clash(cands: Seq<CandidateView>, label: Seq<int>, g: int, h: int) -> bool {
    exists|x: int, y: int|
        0 <= x < cands.len() && 0 <= y < cands.len() && #[trigger] label[x] == g && #[trigger] label[y] == h && cands[x].origin.source
            == cands[y].origin.source
}

/// The first anchor, from the `t`-th on, that a member whose group is `root`
/// settles with: one of its own group, or one whose group it may join.
pub open spec fn anchor_from(cands: Seq<CandidateView>, cso: bool, label: Seq<int>, anchors: Seq<int>, root: int, t: nat) -> Option<
    nat,
>
    decreases anchors.len() - t,
{
    if t >= anchors.len() {
        None
    } else if label[anchors[t as int]] == root {
        Some(t)
    } else if cso && groups_clash(cands, label, label[anchors[t as int]], root) {
        anchor_from(cands, cso, label, anchors, root, t + 1)
    } else {
        Some(t)
    }
}

/// One member of an exact block: its group joins that of the first anchor
/// it settles with, or, with none, the member becomes an anchor.
pub open spec fn exact_member_step(cands: Seq<CandidateView>, cso: bool, state: (Seq<int>, Seq<int>), m: int) -> (Seq<int>, Seq<int>) {
    let label = state.0;
    let anchors = state.1;
    let root = label[m];
    match anchor_from(cands, cso, label, anchors, root, 0) {
        Some(t) => {
            let g = label[anchors[t as int]];
            if g == root {
                state
            } else {
                (Seq::new(label.len(), |x: int| if label[x] == root { g } else { label[x] }), anchors)
            }
        },
        None => (label, anchors.push(m)),
    }
}

/// The members of one exact block, in order, from a state of groups and anchors.
pub open spec fn exact_block_fold(cands: Seq<CandidateView>, cso: bool, state: (Seq<int>, Seq<int>), members: Seq<int>) -> (Seq<int>, Seq<int>)
    decreases members.len(),
{
    if members.len() == 0 {
        state
    } else {
        exact_member_step(cands, cso, exact_block_fold(cands, cso, state, members.drop_last()), members.last())
    }
}

/// The exact blocks in order, each starting with no anchors.
pub open spec fn exact_fold(cands: Seq<CandidateView>, cso: bool, label: Seq<int>, blocks: Seq<Seq<int>>) -> Seq<int>
    decreases blocks.len(),
{
    if blocks.len() == 0 {
        label
    } else {
        exact_block_fold(cands, cso, (exact_fold(cands, cso, label, blocks.drop_last()), Seq::empty()), blocks.last()).0
    }
}

/// Blocks of positions as integers.
spec fn block_view(blocks: Seq<Vec<usize>>) -> Seq<Seq<int>> {
    Seq::new(blocks.len(), |b: int| Seq::new(blocks[b]@.len(), |k: int| blocks[b]@[k] as int))
}

/// A scan that passes an anchor of a clashing group goes on to the next.
proof fn lemma_anchor_skip(cands: Seq<CandidateView>, cso: bool, label: Seq<int>, anchors: Seq<int>, root: int, t: nat)
    requires
        t < anchors.len(),
        label[anchors[t as int]] != root,
        cso && groups_clash(cands, label, label[anchors[t as int]], root),
    ensures
        anchor_from(cands, cso, label, anchors, root, t) == anchor_from(cands, cso, label, anchors, root, t + 1),
{
}

/// A scan stops at an anchor of the member's own group, or of a group it may
/// join.
proof fn lemma_anchor_stop(cands: Seq<CandidateView>, cso: bool, label: Seq<int>, anchors: Seq<int>, root: int, t: nat)
    requires
        t < anchors.len(),
        label[anchors[t as int]] == root || !(cso && groups_clash(cands, label, label[anchors[t as int]], root)),
    ensures
        anchor_from(cands, cso, label, anchors, root, t) == Some(t),
{
}

/// A scan past every anchor finds none.
proof fn lemma_anchor_none(cands: Seq<CandidateView>, cso: bool, label: Seq<int>, anchors: Seq<int>, root: int)
    ensures
        anchor_from(cands, cso, label, anchors, root, anchors.len()) is None,
{
}

/// Unions each exact block's members into groups, anchor by anchor, in key
/// order; under the cross-source policy a union needs disjoint sources.
#[verifier::spinoff_prover]
#[verifier::rlimit(100)]
fn merge_exact(
    batch: &Batch,
    groups: &mut Groups,
    blocks: &Vec<Vec<usize>>,
    block_keys: &Vec<CorrelationKey>,
    cross_source_only: bool,
    cfg: Ghost<ConfigView>,
) -> (merges: usize)
    requires
        batch.wf(cfg@),
        exact_invariant(*old(groups), cfg@, batch.views(), cross_source_only),
        old(groups).roots().len() == batch.len(),
        block_keys@.len() == blocks@.len(),
        forall|b: int, k: int|
            0 <= b < blocks@.len() && 0 <= k < blocks@[b]@.len() ==> #[trigger] blocks@[b]@[k] < batch.len()
                && correlation_key_set(cfg@, batch.views()[blocks@[b]@[k] as int]).contains(block_keys@[b]@),
    ensures
        exact_invariant(*final(groups), cfg@, batch.views(), cross_source_only),
        final(groups).roots().len() + merges == batch.len(),
        !cross_source_only ==> forall|b: int, k: int|
            0 <= b < blocks@.len() && 0 <= k < blocks@[b]@.len() ==> final(groups).label@[#[trigger] blocks@[b]@[k] as int]
                == final(groups).label@[blocks@[b]@[0] as int],
        blocks_settled(*final(groups), batch.views(), cross_source_only, blocks@, blocks@.len() as int),
        label_view(final(groups).label@) == exact_fold(batch.views(), cross_source_only, label_view(old(groups).label@), block_view(blocks@)),
{
    let ghost views = batch.views();
    assert(blocks_settled(*groups, views, cross_source_only, blocks@, 0)) by {
        reveal(blocks_settled);
    }
    let ghost n = batch.len();
    let ghost start = label_view(groups.label@);
    let ghost bv = block_view(blocks@);
    let mut merges: usize = 0;
    let mut b: usize = 0;
    while b < blocks.len()
        invariant
            batch.wf(cfg@),
            views == batch.views(),
            n == batch.len(),
            exact_invariant(*groups, cfg@, views, cross_source_only),
            groups.roots().len() + merges == n,
            block_keys@.len() == blocks@.len(),
            forall|b2: int, k: int|
                0 <= b2 < blocks@.len() && 0 <= k < blocks@[b2]@.len() ==> #[trigger] blocks@[b2]@[k] < n
                    && correlation_key_set(cfg@, views[blocks@[b2]@[k] as int]).contains(block_keys@[b2]@),
            b <= blocks@.len(),
            !cross_source_only ==> forall|b2: int, k: int|
                0 <= b2 < b && 0 <= k < blocks@[b2]@.len() ==> groups.label@[#[trigger] blocks@[b2]@[k] as int]
                    == groups.label@[blocks@[b2]@[0] as int],
            blocks_settled(*groups, views, cross_source_only, blocks@, b as int),
            bv == block_view(blocks@),
            label_view(groups.label@) == exact_fold(views, cross_source_only, start, bv.take(b as int)),
        decreases blocks.len() - b,
    {
        let members = &blocks[b];
        let ghost block_start = label_view(groups.label@);
        let ghost mv = bv[b as int];
        let ghost key = block_keys@[b as int]@;
        let mut anchors: Vec<usize> = Vec::new();
        let ghost mut witnesses: Seq<int> = Seq::empty();
        assert(anchors_witnessed(*groups, anchors@, witnesses, n, cfg@, views, key)) by {
            reveal(anchors_witnessed);
        }
        let ghost mut homes: Seq<int> = Seq::empty();
        assert(anchors_hold(*groups, views, cross_source_only, members@, 0, witnesses, homes)) by {
            reveal(anchors_hold);
        }
        let mut m: usize = 0;
        while m < members.len()
            invariant
                batch.wf(cfg@),
                views == batch.views(),
                n == batch.len(),
                exact_invariant(*groups, cfg@, views, cross_source_only),
                groups.roots().len() + merges == n,
                members == &blocks@[b as int],
                b < blocks@.len(),
                key == block_keys@[b as int]@,
                m <= members@.len(),
                forall|k: int| 0 <= k < members@.len() ==> #[trigger] members@[k] < n && correlation_key_set(
                    cfg@,
                    views[members@[k] as int],
                ).contains(key),
                anchors@.len() == witnesses.len(),
                anchors_witnessed(*groups, anchors@, witnesses, n, cfg@, views, key),
                !cross_source_only ==> forall|b2: int, k: int|
                    0 <= b2 < b && 0 <= k < blocks@[b2]@.len() ==> groups.label@[#[trigger] blocks@[b2]@[k] as int]
                        == groups.label@[blocks@[b2]@[0] as int],
                !cross_source_only && m > 0 ==> anchors@.len() > 0,
                !cross_source_only ==> forall|k: int|
                    0 <= k < m ==> groups.label@[#[trigger] members@[k] as int] == groups.label@[anchors@[0] as int],
                forall|b2: int, k: int|
                    0 <= b2 < blocks@.len() && 0 <= k < blocks@[b2]@.len() ==> #[trigger] blocks@[b2]@[k] < n,
                blocks_settled(*groups, views, cross_source_only, blocks@, b as int),
                anchors_hold(*groups, views, cross_source_only, members@, m as int, witnesses, homes),
                mv == bv[b as int],
                bv == block_view(blocks@),
                mv.len() == members@.len(),
                forall|k: int| 0 <= k < mv.len() ==> #[trigger] mv[k] == members@[k] as int,
                (label_view(groups.label@), witnesses) == exact_block_fold(views, cross_source_only, (block_start, Seq::empty()), mv.take(m as int)),
            decreases members.len() - m,
        {
            let p = members[m];
            assert(p < n);
            let ghost lab0 = label_view(groups.label@);
            let ghost wit0 = witnesses;
            let member_root = groups.find(p);
            let mut assigned = false;
            let ghost mut home: int = 0;
            let mut t: usize = 0;
            assert(anchors_checked(*groups, views, cross_source_only, witnesses, 0, p as int)) by {
                reveal(anchors_checked);
            }
            while t < anchors.len() && !assigned
                invariant
                    batch.wf(cfg@),
                    views == batch.views(),
                    n == batch.len(),
                    exact_invariant(*groups, cfg@, views, cross_source_only),
                    groups.roots().len() + merges == n,
                    p < n,
                    correlation_key_set(cfg@, views[p as int]).contains(key),
                    member_root < n,
                    !assigned ==> groups.label@[p as int] == member_root,
                    groups.label@[member_root as int] == member_root || assigned,
                    t <= anchors@.len(),
                    anchors@.len() == witnesses.len(),
                    anchors_witnessed(*groups, anchors@, witnesses, n, cfg@, views, key),
                    members == &blocks@[b as int],
                    b < blocks@.len(),
                    m < members@.len(),
                    p == members@[m as int],
                    assigned ==> anchors@.len() > 0,
                    forall|b2: int, k: int|
                        0 <= b2 < blocks@.len() && 0 <= k < blocks@[b2]@.len() ==> #[trigger] blocks@[b2]@[k] < n,
                    !cross_source_only ==> forall|b2: int, k: int|
                        0 <= b2 < b && 0 <= k < blocks@[b2]@.len() ==> groups.label@[#[trigger] blocks@[b2]@[k] as int]
                            == groups.label@[blocks@[b2]@[0] as int],
                    !cross_source_only && m > 0 ==> anchors@.len() > 0,
                    !cross_source_only ==> forall|k: int|
                        0 <= k < m ==> groups.label@[#[trigger] members@[k] as int] == groups.label@[anchors@[0] as int],
                    !cross_source_only && anchors@.len() > 0 ==> (assigned ==> groups.label@[p as int] == groups.label@[anchors@[0] as int])
                        && (!assigned ==> t == 0),
                    !assigned ==> anchors_checked(*groups, views, cross_source_only, witnesses, t as int, p as int),
                    blocks_settled(*groups, views, cross_source_only, blocks@, b as int),
                    anchors_hold(*groups, views, cross_source_only, members@, m as int, witnesses, homes),
                    assigned ==> 0 <= home < witnesses.len() && groups.label@[p as int] == groups.label@[witnesses[home]],
                    witnesses == wit0,
                    lab0.len() == n,
                    !assigned ==> label_view(groups.label@) == lab0 && anchor_from(views, cross_source_only, lab0, wit0, lab0[p as int], 0)
                        == anchor_from(views, cross_source_only, lab0, wit0, lab0[p as int], t as nat),
                    assigned ==> (label_view(groups.label@), wit0) == exact_member_step(views, cross_source_only, (lab0, wit0), p as int),
                decreases anchors.len() - t + (if assigned { 0int } else { 1int }),
            {
                let ghost wt = witnesses[t as int];
                assert(anchors@[t as int] < n && 0 <= wt < n && groups.label@[wt] == groups.label@[anchors@[t as int] as int]
                    && correlation_key_set(cfg@, views[wt]).contains(key)) by {
                    reveal(anchors_witnessed);
                }
                let anchor_root = groups.find(anchors[t]);
                let current = groups.find(member_root);
                if anchor_root == current {
                    assigned = true;
                    proof {
                        home = t as int;
                        assert(lab0[wt] == lab0[p as int]);
                        lemma_anchor_stop(views, cross_source_only, lab0, wit0, lab0[p as int], t as nat);
                    }
                } else if cross_source_only && !sources_disjoint(groups, batch, anchor_root, current) {
                    proof {
                        let (a, c) = choose|a: int, c: int|
                            !(0 <= a < groups.size() && 0 <= c < groups.size() && #[trigger] groups.label@[a] == anchor_root
                                && #[trigger] groups.label@[c] == current ==> batch.views()[a].origin.source != batch.views()[c].origin.source);
                        assert(groups.label@[a] == groups.label@[witnesses[t as int]]);
                        assert(groups.label@[c] == groups.label@[p as int]);
                        assert(settled(*groups, views, cross_source_only, witnesses[t as int], p as int)) by {
                            reveal(settled);
                        }
                        assert(anchors_checked(*groups, views, cross_source_only, witnesses, t + 1, p as int)) by {
                            reveal(anchors_checked);
                        }
                        assert(lab0[a] == lab0[wt] && lab0[c] == lab0[p as int]);
                        assert(groups_clash(views, lab0, lab0[wt], lab0[p as int]));
                        lemma_anchor_skip(views, cross_source_only, lab0, wit0, lab0[p as int], t as nat);
                    }
                    t = t + 1;
                } else {
                    let ghost before = *groups;
                    let ghost w = witnesses[t as int];
                    proof {
                        if cross_source_only && groups_clash(views, lab0, lab0[wt], lab0[p as int]) {
                            let (x, y) = choose|x: int, y: int|
                                0 <= x < views.len() && 0 <= y < views.len() && #[trigger] lab0[x] == lab0[wt] && #[trigger] lab0[y]
                                    == lab0[p as int] && views[x].origin.source == views[y].origin.source;
                            assert(groups.label@[x] == anchor_root && groups.label@[y] == current);
                        }
                        lemma_anchor_stop(views, cross_source_only, lab0, wit0, lab0[p as int], t as nat);
                        assert(shares_correlation_key(cfg@, views[w], views[p as int])) by {
                            assert(correlation_key_set(cfg@, views[w]).contains(key));
                        }
                        assert(before.roots().contains(anchor_root as int));
                        assert(before.roots().contains(current as int));
                        lemma_roots_remove(before.roots(), current as int, anchor_root as int);
                    }
                    groups.union(anchor_root, current);
                    proof {
                        assert(label_view(groups.label@) =~= Seq::new(lab0.len(), |x: int| if lab0[x] == lab0[p as int] {
                            lab0[wt]
                        } else {
                            lab0[x]
                        }));
                        lemma_anchor_union(
                            before,
                            *groups,
                            cfg@,
                            views,
                            cross_source_only,
                            n,
                            anchor_root as int,
                            current as int,
                            w,
                            p as int,
                            anchors@,
                            witnesses,
                            key,
                            blocks@,
                            b as int,
                            members@,
                            m as int,
                        );
                        assert(blocks_settled(*groups, views, cross_source_only, blocks@, b as int) && anchors_hold(
                            *groups,
                            views,
                            cross_source_only,
                            members@,
                            m as int,
                            witnesses,
                            homes,
                        )) by {
                            lemma_union_coarsens(before, *groups, anchor_root as int, current as int);
                            assert forall|t2: int| 0 <= t2 < witnesses.len() implies 0 <= #[trigger] witnesses[t2] < views.len() by {
                                reveal(anchors_witnessed);
                                assert(anchors@[t2] < n);
                            }
                            lemma_exact_coarsen(before, *groups, views, cross_source_only, blocks@, b as int, members@, m as int, witnesses, homes);
                        }
                        home = t as int;
                    }
                    merges = merges + 1;
                    assigned = true;
                }
            }
            proof {
                if !assigned {
                    lemma_anchor_none(views, cross_source_only, lab0, wit0, lab0[p as int]);
                }
                let mt = mv.take(m + 1);
                assert(mt.drop_last() =~= mv.take(m as int));
                assert(mt.last() == p as int);
            }
            if !assigned {
                let ghost old_anchors = anchors@;
                let ghost old_witnesses = witnesses;
                anchors.push(member_root);
                proof {
                    witnesses = witnesses.push(p as int);
                    assert(anchors_hold(*groups, views, cross_source_only, members@, m + 1, witnesses, homes.push(old_witnesses.len() as int))) by {
                        reveal(anchors_hold);
                        reveal(anchors_checked);
                        let old_homes = homes;
                        let new_homes = homes.push(old_witnesses.len() as int);
                        assert forall|t1: int, t2: int|
                            0 <= t1 < witnesses.len() && 0 <= t2 < witnesses.len() implies settled(
                            *groups,
                            views,
                            cross_source_only,
                            #[trigger] witnesses[t1],
                            #[trigger] witnesses[t2],
                        ) by {
                            if t1 < old_witnesses.len() && t2 < old_witnesses.len() {
                                assert(witnesses[t1] == old_witnesses[t1] && witnesses[t2] == old_witnesses[t2]);
                            } else if t1 == t2 {
                                reveal(settled);
                            } else if t1 < old_witnesses.len() {
                                assert(witnesses[t1] == old_witnesses[t1]);
                                assert(settled(*groups, views, cross_source_only, old_witnesses[t1], p as int));
                            } else {
                                assert(witnesses[t2] == old_witnesses[t2]);
                                assert(settled(*groups, views, cross_source_only, old_witnesses[t2], p as int));
                                lemma_settled_relabel(*groups, views, cross_source_only, old_witnesses[t2], p as int, p as int, old_witnesses[t2]);
                            }
                        }
                        assert forall|k: int| 0 <= k < m + 1 implies 0 <= #[trigger] new_homes[k] < witnesses.len() && groups.label@[
                            members@[k] as int] == groups.label@[witnesses[new_homes[k]]] by {
                            if k < m {
                                assert(new_homes[k] == old_homes[k]);
                                assert(witnesses[old_homes[k]] == old_witnesses[old_homes[k]]);
                            }
                        }
                    }
                    homes = homes.push(old_witnesses.len() as int);
                    if !cross_source_only {
                        assert(old_anchors.len() == 0);
                        assert(m == 0);
                        assert(anchors@[0] == member_root);
                    }
                    assert(groups.label@[member_root as int] == member_root);
                    assert(anchors_witnessed(*groups, anchors@, witnesses, n, cfg@, views, key)) by {
                        reveal(anchors_witnessed);
                        assert forall|t2: int|
                            0 <= t2 < anchors@.len() implies #[trigger] anchors@[t2] < n && 0 <= witnesses[t2] < n
                                && groups.label@[witnesses[t2]] == groups.label@[anchors@[t2] as int] && correlation_key_set(
                                cfg@,
                                views[witnesses[t2]],
                            ).contains(key) by {
                            if t2 < old_anchors.len() {
                                assert(anchors@[t2] == old_anchors[t2]);
                                assert(witnesses[t2] == old_witnesses[t2]);
                            }
                        }
                    }
                }
            }
            else {
                proof {
                    assert(anchors_hold(*groups, views, cross_source_only, members@, m + 1, witnesses, homes.push(home))) by {
                        reveal(anchors_hold);
                        let old_homes = homes;
                        let new_homes = homes.push(home);
                        assert forall|k: int| 0 <= k < m + 1 implies 0 <= #[trigger] new_homes[k] < witnesses.len() && groups.label@[
                            members@[k] as int] == groups.label@[witnesses[new_homes[k]]] by {
                            if k < m {
                                assert(new_homes[k] == old_homes[k]);
                            }
                        }
                    }
                    homes = homes.push(home);
                }
            }
            proof {
                if !cross_source_only {
                    assert(anchors@.len() > 0);
                    assert(groups.label@[p as int] == groups.label@[anchors@[0] as int]);
                }
            }
            m = m + 1;
        }
        proof {
            assert(mv.take(members@.len() as int) =~= mv);
            let bt = bv.take(b + 1);
            assert(bt.drop_last() =~= bv.take(b as int));
            assert(bt.last() == mv);
        }
        proof {
            if !cross_source_only && members@.len() > 0 {
                assert forall|k: int| 0 <= k < members@.len() implies groups.label@[#[trigger] blocks@[b as int]@[k] as int]
                    == groups.label@[blocks@[b as int]@[0] as int] by {
                    assert(groups.label@[members@[k] as int] == groups.label@[anchors@[0] as int]);
                    assert(groups.label@[members@[0] as int] == groups.label@[anchors@[0] as int]);
                }
            }
            assert(blocks_settled(*groups, views, cross_source_only, blocks@, b + 1)) by {
                reveal(blocks_settled);
                reveal(anchors_hold);
                assert forall|b2: int, k1: int, k2: int|
                    0 <= b2 < b + 1 && 0 <= k1 < blocks@[b2]@.len() && 0 <= k2 < blocks@[b2]@.len() implies settled(
                    *groups,
                    views,
                    cross_source_only,
                    #[trigger] blocks@[b2]@[k1] as int,
                    #[trigger] blocks@[b2]@[k2] as int,
                ) by {
                    if b2 == b {
                        assert(blocks@[b2]@[k1] == members@[k1] && blocks@[b2]@[k2] == members@[k2]);
                        let t1 = homes[k1];
                        let t2 = homes[k2];
                        assert(settled(*groups, views, cross_source_only, witnesses[t1], witnesses[t2]));
                        lemma_settled_relabel(
                            *groups,
                            views,
                            cross_source_only,
                            witnesses[t1],
                            witnesses[t2],
                            members@[k1] as int,
                            members@[k2] as int,
                        );
                    }
                }
            }
        }
        b = b + 1;
    }    assert(bv.take(blocks@.len() as int) =~= bv);

    merges
}

// ---------------------------------------------------------------------------
// Blocks of fuzzy candidates.
// ---------------------------------------------------------------------------

/// A partition, finding kind, and issue or coordinate text that candidates
/// of one block share.
struct BlockKey {
    partition: String,
    kind: FindingKind,
    value: String,
}

/// The value of a fuzzy block key.
pub struct BlockKeyView {
    /// The partition.
    pub partition: Seq<char>,
    /// The finding kind.
    pub kind: KindView,
    /// `issue:` and the issue, or the subject's kind tag, `:`, and its coordinate.
    pub value: Seq<char>,
}

impl View for BlockKey {
    type V = BlockKeyView;

    closed spec fn view(&self) -> BlockKeyView {
        BlockKeyView { partition: self.partition@, kind: self.kind@, value: self.value@ }
    }
}

/// The fuzzy block keys a candidate contributes to, one per issue or per
/// structured subject.
pub open spec fn block_keys_of(kind: BlockKind, c: CandidateView) -> Seq<BlockKeyView> {
    match kind {
        BlockKind::Issue => Seq::new(
            c.issue_ids.len(),
            |t: int| BlockKeyView { partition: c.partition, kind: c.kind, value: "issue:"@ + c.issue_ids[t] },
        ),
        BlockKind::Subject => Seq::new(
            c.subject_ids.len(),
            |t: int|
                BlockKeyView {
                    partition: c.partition,
                    kind: c.kind,
                    value: subject_kind_tag(c.subject_ids[t]) + ":"@ + subject_coordinate(c.subject_ids[t]),
                },
        ),
    }
}

/// How often a key occurs in a sequence of keys.
pub open spec fn key_occurrences(s: Seq<BlockKeyView>, key: BlockKeyView) -> nat
    decreases s.len(),
{
    if s.len() == 0 {
        0
    } else {
        key_occurrences(s.drop_last(), key) + if s.last() == key {
            1nat
        } else {
            0nat
        }
    }
}

/// Adds one candidate's occurrences of a key to a running count.
pub open spec fn size_step(kind: BlockKind, key: BlockKeyView) -> spec_fn(nat, CandidateView) -> nat {
    |acc: nat, c: CandidateView| acc + key_occurrences(block_keys_of(kind, c), key)
}

/// The number of entries of a block: each candidate counts once per issue or
/// subject with the block's key.
pub open spec fn block_size(kind: BlockKind, cs: Seq<CandidateView>, key: BlockKeyView) -> nat {
    cs.fold_left(0nat, size_step(kind, key))
}

/// Whether a block is too large for fuzzy comparison: it has at least two
/// entries and more than the limit.
pub open spec fn oversized(size: nat, limit: usize) -> bool {
    size >= 2 && size > limit
}

/// The rank of a finding kind in its declared order.
pub open spec fn kind_rank_spec(k: KindView) -> u8 {
    match k {
        KindView::Vulnerability => 0,
        KindView::Misconfiguration => 1,
        KindView::Secret => 2,
        KindView::Code => 3,
        KindView::Other(_) => 4,
    }
}

/// The rank of a finding kind in its declared order.
fn kind_rank(k: &FindingKind) -> (r: u8)
    ensures
        r == kind_rank_spec(k@),
{
    match k {
        FindingKind::Vulnerability => 0,
        FindingKind::Misconfiguration => 1,
        FindingKind::Secret => 2,
        FindingKind::Code => 3,
        FindingKind::Other(_) => 4,
    }
}

/// The order of block keys: by partition, then finding kind (an other kind
/// by its text), then value.
pub open spec fn block_key_sign(a: BlockKeyView, b: BlockKeyView) -> int {
    let c = lex_sign(a.partition, b.partition);
    if c != 0 {
        c
    } else if kind_rank_spec(a.kind) < kind_rank_spec(b.kind) {
        -1
    } else if kind_rank_spec(a.kind) > kind_rank_spec(b.kind) {
        1
    } else {
        let d = match (a.kind, b.kind) {
            (KindView::Other(x), KindView::Other(y)) => lex_sign(x, y),
            _ => 0,
        };
        if d != 0 {
            d
        } else {
            lex_sign(a.value, b.value)
        }
    }
}

/// The order of block keys is antisymmetric and zero exactly on equal keys.
proof fn lemma_block_key_antisym(a: BlockKeyView, b: BlockKeyView)
    ensures
        block_key_sign(a, b) == -block_key_sign(b, a),
        block_key_sign(a, b) == 0 <==> a == b,
{
    crate::text::lemma_lex_antisym(a.partition, b.partition);
    crate::text::lemma_lex_antisym(a.value, b.value);
    if let (KindView::Other(x), KindView::Other(y)) = (a.kind, b.kind) {
        crate::text::lemma_lex_antisym(x, y);
    }
    if kind_rank_spec(a.kind) == kind_rank_spec(b.kind) {
        if !(a.kind is Other) {
            assert(a.kind == b.kind);
        }
    }
}

/// The order of block keys is transitive.
proof fn lemma_block_key_trans(a: BlockKeyView, b: BlockKeyView, c: BlockKeyView)
    requires
        block_key_sign(a, b) < 0,
        block_key_sign(b, c) < 0,
    ensures
        block_key_sign(a, c) < 0,
{
    crate::text::lemma_lex_antisym(a.partition, b.partition);
    crate::text::lemma_lex_antisym(b.partition, c.partition);
    crate::text::lemma_lex_antisym(a.partition, c.partition);
    if lex_sign(a.partition, b.partition) < 0 && lex_sign(b.partition, c.partition) < 0 {
        crate::text::lemma_lex_trans(a.partition, b.partition, c.partition);
    }
    if let (KindView::Other(x), KindView::Other(y), KindView::Other(z)) = (a.kind, b.kind, c.kind) {
        crate::text::lemma_lex_antisym(x, y);
        crate::text::lemma_lex_antisym(y, z);
        crate::text::lemma_lex_antisym(x, z);
        if lex_sign(x, y) < 0 && lex_sign(y, z) < 0 {
            crate::text::lemma_lex_trans(x, y, z);
        }
    }
    crate::text::lemma_lex_antisym(a.value, b.value);
    crate::text::lemma_lex_antisym(b.value, c.value);
    if lex_sign(a.value, b.value) < 0 && lex_sign(b.value, c.value) < 0 {
        crate::text::lemma_lex_trans(a.value, b.value, c.value);
    }
}

/// Orders block keys by partition, then finding kind, then text.
fn compare_block_keys(a: &BlockKey, b: &BlockKey) -> (r: i8)
    ensures
        r == block_key_sign(a@, b@),
        (r == 0) == (a@ == b@),
{
    proof {
        lemma_block_key_antisym(a@, b@);
    }
    let c = crate::text::compare_str(a.partition.as_str(), b.partition.as_str());
    proof {
        crate::text::lemma_lex_antisym(a.partition@, b.partition@);
    }
    if c != 0 {
        return c;
    }
    let ra = kind_rank(&a.kind);
    let rb = kind_rank(&b.kind);
    if ra < rb {
        return -1;
    }
    if ra > rb {
        return 1;
    }
    match (&a.kind, &b.kind) {
        (FindingKind::Other(x), FindingKind::Other(y)) => {
            let d = crate::text::compare_str(x.as_str(), y.as_str());
            proof {
                crate::text::lemma_lex_antisym(x@, y@);
            }
            if d != 0 {
                return d;
            }
        },
        _ => {},
    }
    let e = crate::text::compare_str(a.value.as_str(), b.value.as_str());
    proof {
        crate::text::lemma_lex_antisym(a.value@, b.value@);
        assert(a.kind@ == b.kind@);
    }
    e
}

/// Whether block keys and members agree with a map from key to members,
/// each key listed once.
spec fn blocks_match(keys: Seq<BlockKey>, members: Seq<Vec<usize>>, m: Map<BlockKeyView, Seq<usize>>) -> bool {
    &&& keys.len() == members.len()
    &&& forall|x: int, y: int| 0 <= x < keys.len() && 0 <= y < keys.len() && x != y ==> (#[trigger] keys[x])@ != (#[trigger] keys[y])@
    &&& forall|k: BlockKeyView| #[trigger] m.contains_key(k) <==> exists|b: int| 0 <= b < keys.len() && keys[b]@ == k
    &&& forall|b: int| 0 <= b < keys.len() ==> m.contains_key((#[trigger] keys[b])@) && m[keys[b]@] == members[b]@
}

/// Whether block keys are strictly increasing.
spec fn block_keys_ordered(keys: Seq<BlockKey>) -> bool {
    forall|x: int, y: int| 0 <= x < y < keys.len() ==> block_key_sign(#[trigger] keys[x]@, #[trigger] keys[y]@) < 0
}

/// Adds a position to the block with the given key; a new key is inserted
/// before the first listed key that does not order below it.
#[verifier::spinoff_prover]
#[verifier::rlimit(40)]
fn add_to_block(
    keys: &mut Vec<BlockKey>,
    members: &mut Vec<Vec<usize>>,
    key: BlockKey,
    p: usize,
    m: Ghost<Map<BlockKeyView, Seq<usize>>>,
)
    requires
        blocks_match(old(keys)@, old(members)@, m@),
        block_keys_ordered(old(keys)@),
    ensures
        blocks_match(
            final(keys)@,
            final(members)@,
            m@.insert(key@, if m@.contains_key(key@) { m@[key@].push(p) } else { seq![p] }),
        ),
        block_keys_ordered(final(keys)@),
{
    let ghost k = key@;
    let ghost m2 = m@.insert(k, if m@.contains_key(k) { m@[k].push(p) } else { seq![p] });
    let mut pos: usize = 0;
    let mut found = false;
    while pos < keys.len() && !found
        invariant
            pos <= keys@.len(),
            found ==> pos < keys@.len() && keys@[pos as int]@ == k,
            !found ==> forall|x: int| 0 <= x < pos ==> (#[trigger] keys@[x])@ != k,
            k == key@,
        decreases keys@.len() - pos + (if found { 0int } else { 1int }),
    {
        if compare_block_keys(&key, &keys[pos]) == 0 {
            found = true;
        } else {
            pos = pos + 1;
        }
    }
    let ghost before_k = keys@;
    let ghost before_m = members@;
    if found {
        let mut block = members.remove(pos);
        block.push(p);
        members.insert(pos, block);
        proof {
            assert(m@.contains_key(k));
            assert forall|kk: BlockKeyView| #[trigger] m2.contains_key(kk) <==> exists|b: int| 0 <= b < keys@.len() && keys@[b]@ == kk by {
                if m2.contains_key(kk) && kk != k {
                    let b = choose|b: int| 0 <= b < before_k.len() && before_k[b]@ == kk;
                    assert(keys@[b]@ == kk);
                }
                if kk == k {
                    assert(keys@[pos as int]@ == kk);
                }
            }
            assert forall|b: int| 0 <= b < keys@.len() implies m2.contains_key((#[trigger] keys@[b])@) && m2[keys@[b]@] == members@[b]@ by {
                if b != pos {
                    assert(members@[b] == before_m[b]);
                    assert(keys@[b]@ != k);
                } else {
                    assert(members@[b]@ =~= before_m[b]@.push(p));
                }
            }
        }
    } else {
        pos = 0;
        while pos < keys.len() && compare_block_keys(&key, &keys[pos]) > 0
            invariant
                pos <= keys@.len(),
                keys@ == before_k,
                k == key@,
                forall|x: int| 0 <= x < pos ==> block_key_sign(k, (#[trigger] keys@[x])@) > 0,
            decreases keys@.len() - pos,
        {
            pos = pos + 1;
        }
        proof {
            if pos < keys@.len() {
                assert(block_key_sign(k, keys@[pos as int]@) <= 0);
                assert(keys@[pos as int]@ != k);
                lemma_block_key_antisym(k, keys@[pos as int]@);
            }
        }
        keys.insert(pos, key);
        proof {
            assert forall|x: int, y: int| 0 <= x < y < keys@.len() implies block_key_sign(#[trigger] keys@[x]@, #[trigger] keys@[y]@) < 0 by {
                if x < pos && y < pos {
                    assert(keys@[x] == before_k[x] && keys@[y] == before_k[y]);
                } else if x < pos && y == pos {
                    assert(keys@[x] == before_k[x]);
                    lemma_block_key_antisym(k, before_k[x]@);
                } else if x < pos && y > pos {
                    assert(keys@[x] == before_k[x] && keys@[y] == before_k[y - 1]);
                } else if x == pos {
                    assert(keys@[y] == before_k[y - 1]);
                    if y - 1 > pos {
                        assert(block_key_sign(before_k[pos as int]@, before_k[y - 1]@) < 0);
                        lemma_block_key_trans(k, before_k[pos as int]@, before_k[y - 1]@);
                    }
                } else {
                    assert(keys@[x] == before_k[x - 1] && keys@[y] == before_k[y - 1]);
                }
            }
        }
        let mut block: Vec<usize> = Vec::new();
        block.push(p);
        members.insert(pos, block);
        proof {
            assert(!m@.contains_key(k)) by {
                if m@.contains_key(k) {
                    let b = choose|b: int| 0 <= b < before_k.len() && before_k[b]@ == k;
                }
            }
            assert forall|x: int, y: int| 0 <= x < keys@.len() && 0 <= y < keys@.len() && x != y implies (#[trigger] keys@[x])@
                != (#[trigger] keys@[y])@ by {
                if x != pos && y != pos {
                    let x0 = if x < pos { x } else { x - 1 };
                    let y0 = if y < pos { y } else { y - 1 };
                    assert(keys@[x] == before_k[x0] && keys@[y] == before_k[y0]);
                } else if x == pos {
                    let y0 = if y < pos { y } else { y - 1 };
                    assert(keys@[y] == before_k[y0]);
                } else {
                    let x0 = if x < pos { x } else { x - 1 };
                    assert(keys@[x] == before_k[x0]);
                }
            }
            assert forall|kk: BlockKeyView| #[trigger] m2.contains_key(kk) <==> exists|b: int| 0 <= b < keys@.len() && keys@[b]@ == kk by {
                if m2.contains_key(kk) && kk != k {
                    let b = choose|b: int| 0 <= b < before_k.len() && before_k[b]@ == kk;
                    if b < pos {
                        assert(keys@[b]@ == kk);
                    } else {
                        assert(keys@[b + 1]@ == kk);
                    }
                }
                if kk == k {
                    assert(keys@[pos as int]@ == kk);
                }
                if exists|b: int| 0 <= b < keys@.len() && keys@[b]@ == kk {
                    let b = choose|b: int| 0 <= b < keys@.len() && keys@[b]@ == kk;
                    if b < pos {
                        assert(keys@[b] == before_k[b]);
                    } else if b > pos {
                        assert(keys@[b] == before_k[b - 1]);
                    }
                }
            }
            assert forall|b: int| 0 <= b < keys@.len() implies m2.contains_key((#[trigger] keys@[b])@) && m2[keys@[b]@] == members@[b]@ by {
                if b < pos {
                    assert(keys@[b] == before_k[b] && members@[b] == before_m[b]);
                } else if b > pos {
                    assert(keys@[b] == before_k[b - 1] && members@[b] == before_m[b - 1]);
                } else {
                    assert(members@[b]@ =~= seq![p]);
                }
            }
        }
    }
}

/// A prefix, a separator, and a value, joined.
fn text_key(prefix: &str, separator: &str, value: &str) -> (s: String)
    ensures
        s@ == prefix@ + separator@ + value@,
{
    let mut s = String::from_str(prefix);
    s.append(separator);
    s.append(value);
    s
}

/// The number of block keys a candidate contributes.
fn block_key_count(kind: BlockKind, candidate: &Candidate) -> (r: usize)
    ensures
        r == block_keys_of(kind, candidate@).len(),
{
    match kind {
        BlockKind::Issue => {
            let v = candidate.issue_ids();
            v.len()
        },
        BlockKind::Subject => {
            let v = candidate.subject_ids();
            v.len()
        },
    }
}

/// The `t`-th block key a candidate contributes.
fn block_key_at(kind: BlockKind, candidate: &Candidate, t: usize) -> (r: BlockKey)
    requires
        t < block_keys_of(kind, candidate@).len(),
    ensures
        r@ == block_keys_of(kind, candidate@)[t as int],
{
    let partition = String::from_str(candidate.partition());
    let fk = candidate.kind().clone();
    let value = match kind {
        BlockKind::Issue => {
            let issues = candidate.issue_ids();
            assert(issues@[t as int]@ == candidate@.issue_ids[t as int]);
            proof {
                reveal_strlit("issue");
                reveal_strlit(":");
                assert("issue"@ + ":"@ =~= "issue:"@) by {
                    reveal_strlit("issue:");
                }
            }
            text_key("issue", ":", issues[t].as_str())
        },
        BlockKind::Subject => {
            let subjects = candidate.subject_ids();
            assert(subjects@[t as int]@ == candidate@.subject_ids[t as int]);
            text_key(subjects[t].kind_tag(), ":", subjects[t].coordinate())
        },
    };
    BlockKey { partition, kind: fk, value }
}

/// The running size of a block over the first `p` positions and the first
/// `j` keys of position `p`.
spec fn partial_size(kind: BlockKind, views: Seq<CandidateView>, key: BlockKeyView, p: int, j: int) -> nat {
    views.take(p).fold_left(0nat, size_step(kind, key)) + if p < views.len() {
        key_occurrences(block_keys_of(kind, views[p]).take(j), key)
    } else {
        0nat
    }
}

/// Whether `s` holds `p` and `q` at two indices, in either order.
pub open spec fn block_pair(s: Seq<usize>, p: int, q: int) -> bool {
    exists|l: int, r: int|
        0 <= l < r < s.len() && ((#[trigger] s[l] == p && #[trigger] s[r] == q) || (s[l] == q && s[r] == p))
}

/// Whether the key at index `t` of position `q` was added before index `j` of
/// position `p`.
spec fn seen(p: int, j: int, q: int, t: int) -> bool {
    q < p || (q == p && t < j)
}

/// Whether listed blocks are exactly the blocks of one kind over `views`:
/// each key listed once, with its positions as many times as the block counts
/// them, every key of every position listed, and two keys that two
/// occurrences share making a pair of the block.
pub open spec fn blocks_exact(
    kind: BlockKind,
    views: Seq<CandidateView>,
    members: Seq<Vec<usize>>,
    keys: Seq<BlockKeyView>,
) -> bool {
    &&& members.len() == keys.len()
    &&& forall|x: int, y: int| 0 <= x < keys.len() && 0 <= y < keys.len() && x != y ==> #[trigger] keys[x] != #[trigger] keys[y]
    &&& forall|x: int, y: int| 0 <= x < y < keys.len() ==> block_key_sign(#[trigger] keys[x], #[trigger] keys[y]) < 0
    &&& forall|b: int| 0 <= b < keys.len() ==> (#[trigger] members[b])@.len() == block_size(kind, views, keys[b])
    &&& forall|b: int, k: int| 0 <= b < members.len() && 0 <= k < members[b]@.len() ==> #[trigger] members[b]@[k] < views.len()
    &&& forall|p: int, t: int|
        0 <= p < views.len() && 0 <= t < block_keys_of(kind, views[p]).len() ==> keys.contains(
            #[trigger] block_keys_of(kind, views[p])[t],
        )
    &&& forall|p: int, q: int, t1: int, t2: int|
        0 <= p < views.len() && 0 <= q < views.len() && 0 <= t1 < block_keys_of(kind, views[p]).len() && 0 <= t2
            < block_keys_of(kind, views[q]).len() && #[trigger] block_keys_of(kind, views[p])[t1] == #[trigger] block_keys_of(
            kind,
            views[q],
        )[t2] && (p != q || t1 != t2) ==> exists|b: int|
            0 <= b < keys.len() && keys[b] == block_keys_of(kind, views[p])[t1] && #[trigger] block_pair(members[b]@, p, q)
    &&& forall|b: int, l: int, r: int|
        0 <= b < keys.len() && 0 <= l < members[b]@.len() && 0 <= r < members[b]@.len() ==> key_occurrences(
            block_keys_of(kind, views[#[trigger] members[b]@[l] as int]),
            keys[b],
        ) >= (if l != r && members[b]@[l] == #[trigger] members[b]@[r] {
            2nat
        } else {
            1nat
        })
}

/// Whether every key added so far lists its position, and a position with a
/// key twice is listed twice.
spec fn blocks_seen(kind: BlockKind, views: Seq<CandidateView>, m: Map<BlockKeyView, Seq<usize>>, p: int, j: int) -> bool {
    &&& forall|q: int, t: int|
        0 <= q < views.len() && 0 <= t < block_keys_of(kind, views[q]).len() && seen(p, j, q, t) ==> m.contains_key(
            #[trigger] block_keys_of(kind, views[q])[t],
        ) && m[block_keys_of(kind, views[q])[t]].contains(q as usize)
    &&& forall|q: int, t1: int, t2: int|
        0 <= q < views.len() && 0 <= t1 < t2 < block_keys_of(kind, views[q]).len() && #[trigger] block_keys_of(kind, views[q])[t1]
            == #[trigger] block_keys_of(kind, views[q])[t2] && seen(p, j, q, t2) ==> exists|l1: int, l2: int|
            0 <= l1 < l2 < m[block_keys_of(kind, views[q])[t1]].len() && #[trigger] m[block_keys_of(kind, views[q])[t1]][l1]
                == q && #[trigger] m[block_keys_of(kind, views[q])[t1]][l2] == q
}

/// Adding position `p` under its `j`-th key keeps what was seen and sees it.
proof fn lemma_seen_step(
    kind: BlockKind,
    views: Seq<CandidateView>,
    old_m: Map<BlockKeyView, Seq<usize>>,
    m: Map<BlockKeyView, Seq<usize>>,
    p: int,
    j: int,
)
    requires
        0 <= p < views.len(),
        views.len() <= usize::MAX,
        0 <= j < block_keys_of(kind, views[p]).len(),
        blocks_seen(kind, views, old_m, p, j),
        m == old_m.insert(
            block_keys_of(kind, views[p])[j],
            if old_m.contains_key(block_keys_of(kind, views[p])[j]) {
                old_m[block_keys_of(kind, views[p])[j]].push(p as usize)
            } else {
                seq![p as usize]
            },
        ),
    ensures
        blocks_seen(kind, views, m, p, j + 1),
{
    let kk = block_keys_of(kind, views[p])[j];
    assert forall|q: int, t: int|
        0 <= q < views.len() && 0 <= t < block_keys_of(kind, views[q]).len() && seen(p, j + 1, q, t) implies m.contains_key(
            #[trigger] block_keys_of(kind, views[q])[t],
        ) && m[block_keys_of(kind, views[q])[t]].contains(q as usize) by {
        let k = block_keys_of(kind, views[q])[t];
        if q == p && t == j {
            assert(m[kk][m[kk].len() - 1] == p as usize);
        } else {
            assert(old_m.contains_key(k) && old_m[k].contains(q as usize));
            if k == kk {
                let l = choose|l: int| 0 <= l < old_m[k].len() && old_m[k][l] == q as usize;
                assert(m[k][l] == q as usize);
            }
        }
    }
    assert forall|q: int, t1: int, t2: int|
        0 <= q < views.len() && 0 <= t1 < t2 < block_keys_of(kind, views[q]).len() && #[trigger] block_keys_of(kind, views[q])[t1]
            == #[trigger] block_keys_of(kind, views[q])[t2] && seen(p, j + 1, q, t2) implies exists|l1: int, l2: int|
        0 <= l1 < l2 < m[block_keys_of(kind, views[q])[t1]].len() && #[trigger] m[block_keys_of(kind, views[q])[t1]][l1] == q
            && #[trigger] m[block_keys_of(kind, views[q])[t1]][l2] == q by {
        let k = block_keys_of(kind, views[q])[t1];
        if q == p && t2 == j {
            assert(seen(p, j, q, t1));
            assert(old_m.contains_key(k) && old_m[k].contains(q as usize));
            let l1 = choose|l: int| 0 <= l < old_m[k].len() && old_m[k][l] == q as usize;
            let l2 = old_m[k].len() as int;
            assert(m[k] == old_m[k].push(p as usize));
            assert(m[k][l1] == q && m[k][l2] == q);
        } else {
            let (l1, l2) = choose|l1: int, l2: int|
                0 <= l1 < l2 < old_m[k].len() && #[trigger] old_m[k][l1] == q && #[trigger] old_m[k][l2] == q;
            if k == kk {
                assert(m[k][l1] == q && m[k][l2] == q);
            }
        }
    }
}

/// How often a position is listed.
spec fn pos_count(s: Seq<usize>, q: int) -> nat
    decreases s.len(),
{
    if s.len() == 0 {
        0
    } else {
        pos_count(s.drop_last(), q) + if s.last() == q {
            1nat
        } else {
            0nat
        }
    }
}

/// A listed position is counted, and one listed at two indices twice.
proof fn lemma_pos_count(s: Seq<usize>, l: int, r: int)
    requires
        0 <= l < s.len(),
        0 <= r < s.len(),
    ensures
        pos_count(s, s[l] as int) >= 1,
        l != r && s[l] == s[r] ==> pos_count(s, s[l] as int) >= 2,
    decreases s.len(),
{
    let n = s.len() - 1;
    if l < n && r < n {
        lemma_pos_count(s.drop_last(), l, r);
        assert(s.drop_last()[l] == s[l] && s.drop_last()[r] == s[r]);
    } else if l < n {
        lemma_pos_count(s.drop_last(), l, l);
        assert(s.drop_last()[l] == s[l]);
    } else if r < n {
        lemma_pos_count(s.drop_last(), r, r);
        assert(s.drop_last()[r] == s[r]);
    }
}

/// The keys of position `q` that were added before index `j` of position `p`.
spec fn seen_keys(kind: BlockKind, views: Seq<CandidateView>, p: int, j: int, q: int) -> Seq<BlockKeyView> {
    let own = block_keys_of(kind, views[q]);
    own.take(
        if q < p {
            own.len() as int
        } else if q == p {
            j
        } else {
            0
        },
    )
}

/// Whether each key lists each position as often as the position's seen keys
/// hold it.
#[verifier::opaque]
spec fn blocks_counted(kind: BlockKind, views: Seq<CandidateView>, m: Map<BlockKeyView, Seq<usize>>, p: int, j: int) -> bool {
    forall|k: BlockKeyView, q: int|
        0 <= q < views.len() ==> (if m.contains_key(k) {
            pos_count(m[k], q)
        } else {
            0
        }) == #[trigger] key_occurrences(seen_keys(kind, views, p, j, q), k)
}

/// Adding position `p` under its `j`-th key keeps the counts.
proof fn lemma_counted_step(
    kind: BlockKind,
    views: Seq<CandidateView>,
    old_m: Map<BlockKeyView, Seq<usize>>,
    m: Map<BlockKeyView, Seq<usize>>,
    p: int,
    j: int,
)
    requires
        0 <= p < views.len(),
        views.len() <= usize::MAX,
        0 <= j < block_keys_of(kind, views[p]).len(),
        blocks_counted(kind, views, old_m, p, j),
        m == old_m.insert(
            block_keys_of(kind, views[p])[j],
            if old_m.contains_key(block_keys_of(kind, views[p])[j]) {
                old_m[block_keys_of(kind, views[p])[j]].push(p as usize)
            } else {
                seq![p as usize]
            },
        ),
    ensures
        blocks_counted(kind, views, m, p, j + 1),
{
    reveal(blocks_counted);
    let kk = block_keys_of(kind, views[p])[j];
    let own = block_keys_of(kind, views[p]);
    assert(own.take(j + 1).drop_last() =~= own.take(j));
    assert(own.take(j + 1).last() == kk);
    if old_m.contains_key(kk) {
        assert(old_m[kk].push(p as usize).drop_last() =~= old_m[kk]);
    } else {
        assert(seq![p as usize].drop_last() =~= Seq::<usize>::empty());
    }
    assert forall|k: BlockKeyView, q: int|
        0 <= q < views.len() implies (if m.contains_key(k) {
            pos_count(m[k], q)
        } else {
            0
        }) == #[trigger] key_occurrences(seen_keys(kind, views, p, j + 1, q), k) by {
        let before = key_occurrences(seen_keys(kind, views, p, j, q), k);
        assert(before == (if old_m.contains_key(k) {
            pos_count(old_m[k], q)
        } else {
            0
        }));
        let added: nat = if q == p && k == kk { 1 } else { 0 };
        if q != p {
            assert(seen_keys(kind, views, p, j + 1, q) == seen_keys(kind, views, p, j, q));
        } else {
            assert(seen_keys(kind, views, p, j + 1, q) == own.take(j + 1));
            assert(seen_keys(kind, views, p, j, q) == own.take(j));
            assert(key_occurrences(own.take(j + 1), k) == key_occurrences(own.take(j), k) + if kk == k { 1nat } else { 0nat });
        }
        assert(key_occurrences(seen_keys(kind, views, p, j + 1, q), k) == before + added);
        if k == kk {
            if old_m.contains_key(kk) {
                assert(pos_count(m[kk], q) == pos_count(old_m[kk], q) + if p == q { 1nat } else { 0nat });
            } else {
                assert(pos_count(Seq::<usize>::empty(), q) == 0);
                assert(pos_count(m[kk], q) == if p == q { 1nat } else { 0nat });
            }
        } else {
            assert(m.contains_key(k) == old_m.contains_key(k));
            if m.contains_key(k) {
                assert(m[k] == old_m[k]);
            }
        }
    }
}

/// Counts over all positions give each block's multiplicities.
proof fn lemma_counted_final(
    kind: BlockKind,
    views: Seq<CandidateView>,
    m: Map<BlockKeyView, Seq<usize>>,
    keys: Seq<BlockKey>,
    members: Seq<Vec<usize>>,
    key_seq: Seq<BlockKeyView>,
)
    requires
        blocks_counted(kind, views, m, views.len() as int, 0),
        blocks_match(keys, members, m),
        key_seq == Seq::new(keys.len(), |b: int| keys[b]@),
        forall|b: int, k: int| 0 <= b < members.len() && 0 <= k < members[b]@.len() ==> #[trigger] members[b]@[k] < views.len(),
    ensures
        forall|b: int, l: int, r: int|
            0 <= b < key_seq.len() && 0 <= l < members[b]@.len() && 0 <= r < members[b]@.len() ==> key_occurrences(
                block_keys_of(kind, views[#[trigger] members[b]@[l] as int]),
                key_seq[b],
            ) >= (if l != r && members[b]@[l] == #[trigger] members[b]@[r] {
                2nat
            } else {
                1nat
            }),
{
    reveal(blocks_counted);
    assert forall|b: int, l: int, r: int|
        0 <= b < key_seq.len() && 0 <= l < members[b]@.len() && 0 <= r < members[b]@.len() implies key_occurrences(
        block_keys_of(kind, views[#[trigger] members[b]@[l] as int]),
        key_seq[b],
    ) >= (if l != r && members[b]@[l] == #[trigger] members[b]@[r] {
        2nat
    } else {
        1nat
    }) by {
        let k = keys[b]@;
        let q = members[b]@[l] as int;
        assert(m.contains_key(k) && m[k] == members[b]@);
        lemma_pos_count(members[b]@, l, r);
        let own = block_keys_of(kind, views[q]);
        assert(seen_keys(kind, views, views.len() as int, 0, q) =~= own);
        assert(key_occurrences(seen_keys(kind, views, views.len() as int, 0, q), k) == pos_count(m[k], q));
    }
}

/// Once every position is seen, two keys that two occurrences share make a
/// pair of the block listed for that key.
proof fn lemma_seen_pairs(
    kind: BlockKind,
    views: Seq<CandidateView>,
    m: Map<BlockKeyView, Seq<usize>>,
    keys: Seq<BlockKey>,
    members: Seq<Vec<usize>>,
    key_seq: Seq<BlockKeyView>,
)
    requires
        views.len() <= usize::MAX,
        blocks_seen(kind, views, m, views.len() as int, 0),
        blocks_match(keys, members, m),
        key_seq == Seq::new(keys.len(), |b: int| keys[b]@),
    ensures
        forall|p: int, q: int, t1: int, t2: int|
            0 <= p < views.len() && 0 <= q < views.len() && 0 <= t1 < block_keys_of(kind, views[p]).len() && 0 <= t2
                < block_keys_of(kind, views[q]).len() && #[trigger] block_keys_of(kind, views[p])[t1] == #[trigger] block_keys_of(
                kind,
                views[q],
            )[t2] && (p != q || t1 != t2) ==> exists|b: int|
                0 <= b < key_seq.len() && key_seq[b] == block_keys_of(kind, views[p])[t1] && #[trigger] block_pair(
                    members[b]@,
                    p,
                    q,
                ),
{
    assert forall|p: int, q: int, t1: int, t2: int|
        0 <= p < views.len() && 0 <= q < views.len() && 0 <= t1 < block_keys_of(kind, views[p]).len() && 0 <= t2
            < block_keys_of(kind, views[q]).len() && #[trigger] block_keys_of(kind, views[p])[t1] == #[trigger] block_keys_of(
            kind,
            views[q],
        )[t2] && (p != q || t1 != t2) implies exists|b: int|
        0 <= b < key_seq.len() && key_seq[b] == block_keys_of(kind, views[p])[t1] && #[trigger] block_pair(members[b]@, p, q) by {
        let k = block_keys_of(kind, views[p])[t1];
        assert(seen(views.len() as int, 0, p, t1));
        assert(seen(views.len() as int, 0, q, t2));
        assert(m.contains_key(k));
        let b = choose|b: int| 0 <= b < keys.len() && keys[b]@ == k;
        assert(m[k] == members[b]@);
        assert(key_seq[b] == k);
        let s = members[b]@;
        if p != q {
            assert(m[block_keys_of(kind, views[q])[t2]].contains(q as usize));
            let l1 = choose|l: int| 0 <= l < s.len() && s[l] == p as usize;
            let l2 = choose|l: int| 0 <= l < s.len() && s[l] == q as usize;
            if l1 < l2 {
                assert(s[l1] == p && s[l2] == q);
            } else {
                assert(s[l2] == q && s[l1] == p);
            }
            assert(block_pair(s, p, q));
        } else {
            let (a, c) = if t1 < t2 { (t1, t2) } else { (t2, t1) };
            assert(block_keys_of(kind, views[p])[a] == block_keys_of(kind, views[p])[c]);
            assert(seen(views.len() as int, 0, p, c));
            let (l1, l2) = choose|l1: int, l2: int|
                0 <= l1 < l2 < m[block_keys_of(kind, views[p])[a]].len() && #[trigger] m[block_keys_of(kind, views[p])[a]][l1]
                    == p && #[trigger] m[block_keys_of(kind, views[p])[a]][l2] == p;
            assert(s[l1] == p && s[l2] == q);
            assert(block_pair(s, p, q));
        }
    }
}

/// What the listing holds once every position is added.
#[verifier::spinoff_prover]
proof fn lemma_blocks_exact_final(
    kind: BlockKind,
    views: Seq<CandidateView>,
    m: Map<BlockKeyView, Seq<usize>>,
    keys: Seq<BlockKey>,
    members: Seq<Vec<usize>>,
    key_seq: Seq<BlockKeyView>,
)
    requires
        views.len() <= usize::MAX,
        blocks_match(keys, members, m),
        forall|k: BlockKeyView| #[trigger] m.contains_key(k) <==> partial_size(kind, views, k, views.len() as int, 0) > 0,
        forall|k: BlockKeyView| #[trigger] m.contains_key(k) ==> m[k].len() == partial_size(kind, views, k, views.len() as int, 0),
        forall|k: BlockKeyView, i: int| #[trigger] m.contains_key(k) && 0 <= i < m[k].len() ==> #[trigger] m[k][i] < views.len(),
        blocks_seen(kind, views, m, views.len() as int, 0),
        blocks_counted(kind, views, m, views.len() as int, 0),
        key_seq == Seq::new(keys.len(), |b: int| keys[b]@),
        block_keys_ordered(keys),
    ensures
        blocks_exact(kind, views, members, key_seq),
{
    let n = views.len();
    assert(views.take(n as int) =~= views);
    assert forall|k: BlockKeyView| partial_size(kind, views, k, n as int, 0) == block_size(kind, views, k) by {}
    assert forall|b: int| 0 <= b < key_seq.len() implies (#[trigger] members[b])@.len() == block_size(kind, views, key_seq[b]) by {
        assert(m.contains_key(keys[b]@));
    }
    assert forall|b: int, k: int| 0 <= b < members.len() && 0 <= k < members[b]@.len() implies #[trigger] members[b]@[k] < n by {
        assert(m.contains_key(keys[b]@));
        assert(m[keys[b]@][k] == members[b]@[k]);
    }
    assert forall|q: int, t: int|
        0 <= q < n && 0 <= t < block_keys_of(kind, views[q]).len() implies key_seq.contains(
            #[trigger] block_keys_of(kind, views[q])[t],
        ) by {
        let k = block_keys_of(kind, views[q])[t];
        lemma_block_size_positive(kind, views, k, q, t);
        assert(m.contains_key(k));
        let b = choose|b: int| 0 <= b < keys.len() && keys[b]@ == k;
        assert(key_seq[b] == k);
    }
    assert forall|x: int, y: int| 0 <= x < key_seq.len() && 0 <= y < key_seq.len() && x != y implies #[trigger] key_seq[x]
        != #[trigger] key_seq[y] by {
        assert(keys[x]@ != keys[y]@);
    }
    lemma_seen_pairs(kind, views, m, keys, members, key_seq);
    lemma_counted_final(kind, views, m, keys, members, key_seq);
}

/// The blocks of one kind over the batch, in key order.
fn collect_blocks(batch: &Batch, kind: BlockKind, cfg: Ghost<ConfigView>) -> (r: (Vec<Vec<usize>>, Ghost<Seq<BlockKeyView>>))
    requires
        batch.wf(cfg@),
    ensures
        blocks_exact(kind, batch.views(), r.0@, r.1@),
{
    let ghost views = batch.views();
    let ghost n = batch.len();
    let mut keys: Vec<BlockKey> = Vec::new();
    let mut members: Vec<Vec<usize>> = Vec::new();
    let ghost mut m: Map<BlockKeyView, Seq<usize>> = Map::empty();
    assert(blocks_counted(kind, views, m, 0, 0)) by {
        reveal(blocks_counted);
        assert forall|k: BlockKeyView, q: int| 0 <= q < views.len() implies (if m.contains_key(k) {
            pos_count(m[k], q)
        } else {
            0
        }) == #[trigger] key_occurrences(seen_keys(kind, views, 0, 0, q), k) by {
            assert(seen_keys(kind, views, 0, 0, q) =~= Seq::<BlockKeyView>::empty());
        }
    }
    let mut p: usize = 0;
    while p < batch.candidates.len()
        invariant
            views == batch.views(),
            n == batch.len(),
            views.len() == n,
            n <= usize::MAX,
            p <= n,
            blocks_match(keys@, members@, m),
            block_keys_ordered(keys@),
            forall|k: BlockKeyView| #[trigger] m.contains_key(k) <==> partial_size(kind, views, k, p as int, 0) > 0,
            forall|k: BlockKeyView| #[trigger] m.contains_key(k) ==> m[k].len() == partial_size(kind, views, k, p as int, 0),
            forall|k: BlockKeyView, i: int| #[trigger] m.contains_key(k) && 0 <= i < m[k].len() ==> #[trigger] m[k][i] < n,
            blocks_seen(kind, views, m, p as int, 0),
            blocks_counted(kind, views, m, p as int, 0),
        decreases n - p,
    {
        let candidate = batch.candidates[p];
        let count = block_key_count(kind, candidate);
        let ghost own = block_keys_of(kind, views[p as int]);
        assert(candidate@ == views[p as int]);
        let mut j: usize = 0;
        while j < count
            invariant
                views == batch.views(),
                n == batch.len(),
                views.len() == n,
                n <= usize::MAX,
                p < n,
                candidate@ == views[p as int],
                own == block_keys_of(kind, views[p as int]),
                count == own.len(),
                j <= count,
                blocks_match(keys@, members@, m),
                block_keys_ordered(keys@),
                forall|k: BlockKeyView| #[trigger] m.contains_key(k) <==> partial_size(kind, views, k, p as int, j as int) > 0,
                forall|k: BlockKeyView| #[trigger] m.contains_key(k) ==> m[k].len() == partial_size(kind, views, k, p as int, j as int),
                forall|k: BlockKeyView, i: int| #[trigger] m.contains_key(k) && 0 <= i < m[k].len() ==> #[trigger] m[k][i] < n,
                blocks_seen(kind, views, m, p as int, j as int),
                blocks_counted(kind, views, m, p as int, j as int),
            decreases count - j,
        {
            let key = block_key_at(kind, candidate, j);
            let ghost kk = key@;
            let ghost old_m = m;
            add_to_block(&mut keys, &mut members, key, p, Ghost(m));
            proof {
                m = old_m.insert(kk, if old_m.contains_key(kk) { old_m[kk].push(p) } else { seq![p] });
                lemma_seen_step(kind, views, old_m, m, p as int, j as int);
                lemma_counted_step(kind, views, old_m, m, p as int, j as int);
                assert forall|k: BlockKeyView| partial_size(kind, views, k, p as int, j + 1) == partial_size(kind, views, k, p as int, j as int)
                    + if own[j as int] == k { 1nat } else { 0nat } by {
                    assert(own.take(j + 1).drop_last() =~= own.take(j as int));
                }
                assert forall|k: BlockKeyView, i: int| #[trigger] m.contains_key(k) && 0 <= i < m[k].len() implies #[trigger] m[k][i] < n by {
                    if k == kk && old_m.contains_key(kk) && i < old_m[kk].len() {
                        assert(m[k][i] == old_m[kk][i]);
                    }
                }
            }
            j = j + 1;
        }
        proof {
            assert(own.take(own.len() as int) =~= own);
            assert forall|k: BlockKeyView| partial_size(kind, views, k, p + 1, 0) == partial_size(kind, views, k, p as int, count as int) by {
                assert(views.take(p + 1).drop_last() =~= views.take(p as int));
                assert(views.take(p + 1).last() == views[p as int]);
                assert(own.take(0) =~= Seq::<BlockKeyView>::empty());
            }
            assert forall|q: int, t: int| 0 <= t < block_keys_of(kind, views[q]).len() implies seen(p + 1, 0, q, t) == seen(
                p as int,
                count as int,
                q,
                t,
            ) by {}
            assert(blocks_counted(kind, views, m, p + 1, 0)) by {
                reveal(blocks_counted);
                assert forall|k: BlockKeyView, q: int|
                    0 <= q < views.len() implies (if m.contains_key(k) {
                        pos_count(m[k], q)
                    } else {
                        0
                    }) == #[trigger] key_occurrences(seen_keys(kind, views, p + 1, 0, q), k) by {
                    assert(key_occurrences(seen_keys(kind, views, p as int, count as int, q), k) == (if m.contains_key(k) {
                        pos_count(m[k], q)
                    } else {
                        0
                    }));
                    assert(seen_keys(kind, views, p + 1, 0, q) == seen_keys(kind, views, p as int, count as int, q));
                }
            }
        }
        p = p + 1;
    }
    let ghost key_seq = Seq::new(keys@.len(), |b: int| keys@[b]@);
    proof {
        lemma_blocks_exact_final(kind, views, m, keys@, members@, key_seq);
    }
    (members, Ghost(key_seq))
}

/// A key occurring at an index occurs at least once.
proof fn lemma_occurrences_positive(s: Seq<BlockKeyView>, t: int)
    requires
        0 <= t < s.len(),
    ensures
        key_occurrences(s, s[t]) > 0,
    decreases s.len(),
{
    if t < s.len() - 1 {
        lemma_occurrences_positive(s.drop_last(), t);
    }
}

/// A key some position contributes has a non-empty block.
proof fn lemma_block_size_positive(kind: BlockKind, views: Seq<CandidateView>, key: BlockKeyView, q: int, t: int)
    requires
        0 <= q < views.len(),
        0 <= t < block_keys_of(kind, views[q]).len(),
        key == block_keys_of(kind, views[q])[t],
    ensures
        block_size(kind, views, key) > 0,
    decreases views.len(),
{
    if q == views.len() - 1 {
        lemma_occurrences_positive(block_keys_of(kind, views[q]), t);
    } else {
        lemma_block_size_positive(kind, views.drop_last(), key, q, t);
    }
}

/// Adds a position to a strictly increasing list unless it is there.
fn insert_position(v: &mut Vec<usize>, x: usize)
    requires
        increasing(old(v)@),
    ensures
        increasing(final(v)@),
        forall|y: usize| #[trigger] final(v)@.contains(y) <==> (old(v)@.contains(y) || y == x),
{
    let mut pos: usize = 0;
    while pos < v.len() && v[pos] < x
        invariant
            pos <= v@.len(),
            forall|k: int| 0 <= k < pos ==> #[trigger] v@[k] < x,
        decreases v@.len() - pos,
    {
        pos = pos + 1;
    }
    let ghost before = v@;
    if pos < v.len() && v[pos] == x {
        return;
    }
    v.insert(pos, x);
    proof {
        assert(v@ =~= before.insert(pos as int, x));
        assert forall|i: int, j: int| 0 <= i < j < v@.len() implies #[trigger] v@[i] < #[trigger] v@[j] by {
            if i < pos && j == pos {
            } else if i == pos && j > pos {
                assert(v@[j] == before[j - 1]);
                assert(before[pos as int] <= before[j - 1]);
            } else if i < pos && j > pos {
                assert(before[i] < before[j - 1]);
            } else if i > pos {
                assert(before[i - 1] < before[j - 1]);
            }
        }
        assert forall|y: usize| #[trigger] v@.contains(y) <==> (before.contains(y) || y == x) by {
            if v@.contains(y) && y != x {
                let k = choose|k: int| 0 <= k < v@.len() && v@[k] == y;
                if k < pos {
                    assert(before[k] == y);
                } else {
                    assert(before[k - 1] == y);
                }
            }
            if before.contains(y) {
                let k = choose|k: int| 0 <= k < before.len() && before[k] == y;
                if k < pos {
                    assert(v@[k] == y);
                } else {
                    assert(v@[k + 1] == y);
                }
            }
            if y == x {
                assert(v@[pos as int] == y);
            }
        }
    }
}

/// Whether every listed pair is a pair of positions in order.
spec fn pairs_wf(pairs: Seq<Vec<usize>>, n: nat) -> bool {
    &&& pairs.len() == n
    &&& forall|p: int| 0 <= p < n ==> increasing(#[trigger] pairs[p]@)
    &&& forall|p: int, k: int| 0 <= p < n && 0 <= k < pairs[p]@.len() ==> p <= #[trigger] pairs[p]@[k] < n
}

/// The number of listed pairs, saturating at the largest `usize`.
spec fn pairs_total(rows: Seq<Vec<usize>>) -> usize
    decreases rows.len(),
{
    if rows.len() == 0 {
        0
    } else {
        let t = pairs_total(rows.drop_last()) as int + rows.last()@.len();
        if t > usize::MAX {
            usize::MAX
        } else {
            t as usize
        }
    }
}

/// Whether the pair of two positions is listed, under the lower one.
spec fn pair_listed(pairs: Seq<Vec<usize>>, x: int, y: int) -> bool {
    if x <= y {
        pairs[x]@.contains(y as usize)
    } else {
        pairs[y]@.contains(x as usize)
    }
}

/// Whether two positions, in order, are a pair of some block within the
/// limit.
spec fn block_listed(blocks: Seq<Vec<usize>>, limit: usize, p: int, y: int) -> bool {
    p <= y && exists|b: int|
        0 <= b < blocks.len() && !oversized(blocks[b]@.len() as nat, limit) && #[trigger] block_pair(blocks[b]@, p, y)
}

/// Whether every pair listed in `a` is listed in `b`.
spec fn pairs_grow(a: Seq<Vec<usize>>, b: Seq<Vec<usize>>) -> bool {
    &&& a.len() == b.len()
    &&& forall|p: int, y: usize| 0 <= p < a.len() && #[trigger] a[p]@.contains(y) ==> b[p]@.contains(y)
}

/// Growth of listed pairs is transitive.
proof fn lemma_grow_trans(a: Seq<Vec<usize>>, b: Seq<Vec<usize>>, c: Seq<Vec<usize>>)
    requires
        pairs_grow(a, b),
        pairs_grow(b, c),
    ensures
        pairs_grow(a, c),
{
}

/// The number of listed pairs.
spec fn rows_sum(rows: Seq<Vec<usize>>) -> nat
    decreases rows.len(),
{
    if rows.len() == 0 {
        0
    } else {
        rows_sum(rows.drop_last()) + rows.last()@.len()
    }
}

/// The saturating total is the number of listed pairs, capped.
proof fn lemma_pairs_total(rows: Seq<Vec<usize>>)
    ensures
        pairs_total(rows) == if rows_sum(rows) > usize::MAX {
            usize::MAX as nat
        } else {
            rows_sum(rows)
        },
    decreases rows.len(),
{
    if rows.len() > 0 {
        lemma_pairs_total(rows.drop_last());
    }
}

/// The pairs listed under the first `k` positions.
spec fn listed_pairs(rows: Seq<Vec<usize>>, k: int) -> Set<(int, int)> {
    Set::new(|pq: (int, int)| 0 <= pq.0 < k && 0 <= pq.1 < rows.len() && rows[pq.0]@.contains(pq.1 as usize))
}

/// The pairs listed under one position.
spec fn row_pairs(rows: Seq<Vec<usize>>, p: int) -> Set<(int, int)> {
    Set::new(|pq: (int, int)| pq.0 == p && 0 <= pq.1 < rows.len() && rows[p]@.contains(pq.1 as usize))
}

/// A row of distinct positions lists as many pairs as it is long.
proof fn lemma_row_pairs(rows: Seq<Vec<usize>>, p: int)
    requires
        0 <= p < rows.len(),
        rows.len() <= usize::MAX,
        increasing(rows[p]@),
        forall|k: int| 0 <= k < rows[p]@.len() ==> #[trigger] rows[p]@[k] < rows.len(),
    ensures
        row_pairs(rows, p).finite(),
        row_pairs(rows, p).len() == rows[p]@.len(),
{
    let row = rows[p]@;
    assert(row.no_duplicates()) by {
        assert forall|i: int, j: int| 0 <= i < row.len() && 0 <= j < row.len() && i != j implies row[i] != row[j] by {
            if i < j {
                assert(row[i] < row[j]);
            } else {
                assert(row[j] < row[i]);
            }
        }
    }
    row.unique_seq_to_set();
    let f = |x: usize| (p, x as int);
    assert(vstd::relations::injective_on(f, row.to_set())) by {
        assert forall|x: usize, y: usize| row.to_set().contains(x) && row.to_set().contains(y) && #[trigger] f(x) == #[trigger] f(y)
            implies x == y by {}
    }
    assert(row.to_set().map(f) =~= row_pairs(rows, p)) by {
        assert forall|pq: (int, int)| #[trigger] row_pairs(rows, p).contains(pq) implies row.to_set().map(f).contains(pq) by {
            let x = pq.1 as usize;
            assert(row.to_set().contains(x) && f(x) == pq);
        }
        assert forall|pq: (int, int)| #[trigger] row.to_set().map(f).contains(pq) implies row_pairs(rows, p).contains(pq) by {
            let x = choose|x: usize| row.to_set().contains(x) && f(x) == pq;
            let i = choose|i: int| 0 <= i < row.len() && row[i] == x;
            assert(row[i] < rows.len());
        }
    }
    vstd::seq_lib::seq_to_set_is_finite(row);
    vstd::set_lib::lemma_map_size(row.to_set(), row_pairs(rows, p), f);
}

/// The listed pairs number the sum of the row lengths.
proof fn lemma_listed_pairs(rows: Seq<Vec<usize>>, k: int)
    requires
        0 <= k <= rows.len(),
        rows.len() <= usize::MAX,
        forall|p: int| 0 <= p < rows.len() ==> increasing(#[trigger] rows[p]@),
        forall|p: int, j: int| 0 <= p < rows.len() && 0 <= j < rows[p]@.len() ==> #[trigger] rows[p]@[j] < rows.len(),
    ensures
        listed_pairs(rows, k).finite(),
        listed_pairs(rows, k).len() == rows_sum(rows.take(k)),
    decreases k,
{
    if k == 0 {
        assert(listed_pairs(rows, 0) =~= Set::<(int, int)>::empty());
        assert(rows.take(0) =~= Seq::<Vec<usize>>::empty());
    } else {
        lemma_listed_pairs(rows, k - 1);
        lemma_row_pairs(rows, k - 1);
        assert(listed_pairs(rows, k) =~= listed_pairs(rows, k - 1) + row_pairs(rows, k - 1));
        assert(listed_pairs(rows, k - 1).disjoint(row_pairs(rows, k - 1)));
        vstd::set_lib::lemma_set_disjoint_lens(listed_pairs(rows, k - 1), row_pairs(rows, k - 1));
        assert(rows.take(k).drop_last() =~= rows.take(k - 1));
        assert(rows.take(k).last() == rows[k - 1]);
    }
}

/// The number of listed pairs, saturating.
fn count_pairs(pairs: &Vec<Vec<usize>>) -> (r: usize)
    ensures
        r == pairs_total(pairs@),
{
    let mut total: usize = 0;
    let mut p: usize = 0;
    while p < pairs.len()
        invariant
            p <= pairs@.len(),
            total == pairs_total(pairs@.take(p as int)),
        decreases pairs.len() - p,
    {
        assert(pairs@.take(p + 1).drop_last() =~= pairs@.take(p as int));
        total = total.saturating_add(pairs[p].len());
        p = p + 1;
    }
    assert(pairs@.take(pairs@.len() as int) =~= pairs@);
    total
}

/// Whether warnings are oversized blocks under the warning policy.
pub open spec fn warnings_wf(warnings: Seq<ClusterWarning>, limit: usize, policy: OversizedBlockPolicy) -> bool {
    forall|w: int| 0 <= w < warnings.len() ==> (#[trigger] warnings[w] matches ClusterWarning::OversizedBlock {
        size,
        limit: l,
        ..
    } && l == limit && size > limit && policy == OversizedBlockPolicy::ExactOnlyAndWarn)
}

/// The warnings for the oversized blocks of a list, in list order, under
/// the warning policy.
pub open spec fn block_warnings(kind: BlockKind, blocks: Seq<Vec<usize>>, limit: usize, policy: OversizedBlockPolicy) -> Seq<
    ClusterWarning,
>
    decreases blocks.len(),
{
    if blocks.len() == 0 {
        seq![]
    } else {
        let rest = block_warnings(kind, blocks.drop_last(), limit, policy);
        if policy == OversizedBlockPolicy::ExactOnlyAndWarn && oversized(blocks.last()@.len() as nat, limit) {
            rest.push(ClusterWarning::OversizedBlock { kind, size: blocks.last()@.len() as usize, limit })
        } else {
            rest
        }
    }
}

/// Adds every pair of each block within the limit; an oversized block is
/// skipped with a warning or, under the error policy, stops clustering.
fn add_block_pairs(
    kind: BlockKind,
    blocks: &Vec<Vec<usize>>,
    pairs: &mut Vec<Vec<usize>>,
    warnings: &mut Vec<ClusterWarning>,
    limit: usize,
    policy: OversizedBlockPolicy,
    n: Ghost<nat>,
) -> (r: Result<(), ClusterError>)
    requires
        pairs_wf(old(pairs)@, n@),
        warnings_wf(old(warnings)@, limit, policy),
        forall|b: int, k: int| 0 <= b < blocks@.len() && 0 <= k < blocks@[b]@.len() ==> #[trigger] blocks@[b]@[k] < n@,
    ensures
        pairs_wf(final(pairs)@, n@),
        warnings_wf(final(warnings)@, limit, policy),
        pairs_grow(old(pairs)@, final(pairs)@),
        forall|p: int, z: usize|
            0 <= p < n@ && #[trigger] final(pairs)@[p]@.contains(z) ==> old(pairs)@[p]@.contains(z) || block_listed(
                blocks@,
                limit,
                p,
                z as int,
            ),
        match r {
            Ok(_) => final(warnings)@ == old(warnings)@ + block_warnings(kind, blocks@, limit, policy) && (policy
                == OversizedBlockPolicy::Error ==> forall|b: int|
                0 <= b < blocks@.len() ==> !oversized((#[trigger] blocks@[b])@.len() as nat, limit)) && forall|b: int, l: int, r: int|
                0 <= b < blocks@.len() && 0 <= l < r < blocks@[b]@.len() && !oversized(blocks@[b]@.len() as nat, limit)
                    ==> pair_listed(final(pairs)@, #[trigger] blocks@[b]@[l] as int, #[trigger] blocks@[b]@[r] as int),
            Err(ClusterError::OversizedBlock { kind: k, size, limit: l }) => k == kind && l == limit && size > limit && policy
                == OversizedBlockPolicy::Error && exists|b: int|
                0 <= b < blocks@.len() && (#[trigger] blocks@[b])@.len() == size && oversized(size as nat, limit) && forall|b2: int|
                    0 <= b2 < b ==> !oversized(blocks@[b2]@.len() as nat, limit),
            Err(_) => false,
        },
{
    let ghost start = warnings@;
    let ghost start_pairs = pairs@;
    let mut b: usize = 0;
    while b < blocks.len()
        invariant
            pairs_wf(pairs@, n@),
            warnings_wf(warnings@, limit, policy),
            forall|b2: int, k: int| 0 <= b2 < blocks@.len() && 0 <= k < blocks@[b2]@.len() ==> #[trigger] blocks@[b2]@[k] < n@,
            b <= blocks@.len(),
            warnings@ == start + block_warnings(kind, blocks@.take(b as int), limit, policy),
            policy == OversizedBlockPolicy::Error ==> forall|b2: int|
                0 <= b2 < b ==> !oversized((#[trigger] blocks@[b2])@.len() as nat, limit),
            start_pairs == old(pairs)@,
            pairs_grow(start_pairs, pairs@),
            forall|p: int, z: usize|
                0 <= p < n@ && #[trigger] pairs@[p]@.contains(z) ==> start_pairs[p]@.contains(z) || block_listed(
                    blocks@,
                    limit,
                    p,
                    z as int,
                ),
            forall|b2: int, l: int, r: int|
                0 <= b2 < b && 0 <= l < r < blocks@[b2]@.len() && !oversized(blocks@[b2]@.len() as nat, limit) ==> pair_listed(
                    pairs@,
                    #[trigger] blocks@[b2]@[l] as int,
                    #[trigger] blocks@[b2]@[r] as int,
                ),
        decreases blocks.len() - b,
    {
        let members = &blocks[b];
        let size = members.len();
        let ghost iter_start = pairs@;
        assert(blocks@.take(b + 1).drop_last() =~= blocks@.take(b as int));
        if size >= 2 {
            if size > limit {
                match policy {
                    OversizedBlockPolicy::ExactOnlyAndWarn => {
                        let ghost before = warnings@;
                        warnings.push(ClusterWarning::OversizedBlock { kind, size, limit });
                        proof {
                            assert forall|w: int| 0 <= w < warnings@.len() implies (#[trigger] warnings@[w] matches ClusterWarning::OversizedBlock {
                                size,
                                limit: l,
                                ..
                            } && l == limit && size > limit && policy == OversizedBlockPolicy::ExactOnlyAndWarn) by {
                                if w < before.len() {
                                    assert(warnings@[w] == before[w]);
                                }
                            }
                        }
                    },
                    OversizedBlockPolicy::Error => {
                        assert(blocks@[b as int]@.len() == size);
                        return Err(ClusterError::OversizedBlock { kind, size, limit });
                    },
                }
            } else {
                let ghost block_start = pairs@;
                let mut l: usize = 0;
                while l < size
                    invariant
                        size == members@.len(),
                        members == &blocks@[b as int],
                        b < blocks@.len(),
                        pairs_wf(pairs@, n@),
                        forall|b2: int, k: int| 0 <= b2 < blocks@.len() && 0 <= k < blocks@[b2]@.len() ==> #[trigger] blocks@[b2]@[k] < n@,
                        pairs_grow(block_start, pairs@),
                        forall|p: int, z: usize|
                        0 <= p < n@ && #[trigger] pairs@[p]@.contains(z) ==> start_pairs[p]@.contains(z) || block_listed(
                            blocks@,
                            limit,
                            p,
                            z as int,
                        ),
                        b < blocks@.len(),
                        !oversized(size as nat, limit),
                        forall|l2: int, r2: int|
                            0 <= l2 < l && l2 < r2 < size ==> pair_listed(pairs@, #[trigger] members@[l2] as int, #[trigger] members@[r2] as int),
                    decreases size - l,
                {
                    let ghost row_start = pairs@;
                    let mut r: usize = l + 1;
                    while r < size
                        invariant
                            size == members@.len(),
                            members == &blocks@[b as int],
                            b < blocks@.len(),
                            l < size,
                            l + 1 <= r <= size,
                            pairs_wf(pairs@, n@),
                            forall|b2: int, k: int| 0 <= b2 < blocks@.len() && 0 <= k < blocks@[b2]@.len() ==> #[trigger] blocks@[b2]@[k] < n@,
                            pairs_grow(row_start, pairs@),
                            forall|p: int, z: usize|
                            0 <= p < n@ && #[trigger] pairs@[p]@.contains(z) ==> start_pairs[p]@.contains(z) || block_listed(
                                blocks@,
                                limit,
                                p,
                                z as int,
                            ),
                            !oversized(size as nat, limit),
                            forall|r2: int| l < r2 < r ==> pair_listed(pairs@, members@[l as int] as int, #[trigger] members@[r2] as int),
                        decreases size - r,
                    {
                        let x = members[l];
                        let y = members[r];
                        assert(x < n@ && y < n@);
                        let (lo, hi) = if x <= y {
                            (x, y)
                        } else {
                            (y, x)
                        };
                        let ghost before = pairs@;
                        let mut row = pairs.remove(lo);
                        insert_position(&mut row, hi);
                        pairs.insert(lo, row);
                        proof {
                            assert(pairs@ =~= before.update(lo as int, pairs@[lo as int]));
                            assert(pairs_grow(before, pairs@)) by {
                                assert forall|p: int, z: usize| 0 <= p < before.len() && #[trigger] before[p]@.contains(z) implies pairs@[p]@.contains(z) by {
                                    if p != lo {
                                        assert(pairs@[p] == before[p]);
                                    }
                                }
                            }
                            assert(pair_listed(pairs@, x as int, y as int));
                            lemma_grow_trans(row_start, before, pairs@);
                            assert(block_pair(blocks@[b as int]@, lo as int, hi as int)) by {
                                assert(blocks@[b as int]@[l as int] == x && blocks@[b as int]@[r as int] == y);
                            }
                            assert forall|p: int, z: usize|
                                0 <= p < n@ && #[trigger] pairs@[p]@.contains(z) implies start_pairs[p]@.contains(z) || block_listed(
                                blocks@,
                                limit,
                                p,
                                z as int,
                            ) by {
                                if p != lo {
                                    assert(pairs@[p] == before[p]);
                                } else if z != hi {
                                    assert(before[p]@.contains(z));
                                } else {
                                    assert(block_listed(blocks@, limit, p, z as int));
                                }
                            }
                            assert forall|p: int| 0 <= p < n@ implies increasing(#[trigger] pairs@[p]@) by {
                                if p != lo {
                                    assert(pairs@[p] == before[p]);
                                }
                            }
                            assert forall|p: int, k: int| 0 <= p < n@ && 0 <= k < pairs@[p]@.len() implies p <= #[trigger] pairs@[p]@[k] < n@ by {
                                if p != lo {
                                    assert(pairs@[p] == before[p]);
                                } else {
                                    let y2 = pairs@[p]@[k];
                                    assert(pairs@[p]@.contains(y2));
                                    if y2 != hi {
                                        let m = choose|m: int| 0 <= m < before[p]@.len() && before[p]@[m] == y2;
                                    }
                                }
                            }
                        }
                        r = r + 1;
                    }
                    proof {
                        lemma_grow_trans(block_start, row_start, pairs@);
                        assert forall|l2: int, r2: int|
                            0 <= l2 < l + 1 && l2 < r2 < size implies pair_listed(pairs@, #[trigger] members@[l2] as int, #[trigger] members@[r2] as int) by {
                            if l2 < l {
                                let x2 = members@[l2] as int;
                                let y2 = members@[r2] as int;
                                assert(pair_listed(row_start, x2, y2));
                                if x2 <= y2 {
                                    assert(row_start[x2]@.contains(y2 as usize));
                                } else {
                                    assert(row_start[y2]@.contains(x2 as usize));
                                }
                            }
                        }
                    }
                    l = l + 1;
                }
                proof {
                    lemma_grow_trans(start_pairs, block_start, pairs@);
                }
            }
        }
        proof {
            assert forall|b2: int, l: int, r: int|
                0 <= b2 < b + 1 && 0 <= l < r < blocks@[b2]@.len() && !oversized(blocks@[b2]@.len() as nat, limit) implies pair_listed(
                    pairs@,
                    #[trigger] blocks@[b2]@[l] as int,
                    #[trigger] blocks@[b2]@[r] as int,
                ) by {
                if b2 < b {
                    let x2 = blocks@[b2]@[l] as int;
                    let y2 = blocks@[b2]@[r] as int;
                    assert(pair_listed(iter_start, x2, y2));
                    if x2 <= y2 {
                        assert(iter_start[x2]@.contains(y2 as usize));
                    } else {
                        assert(iter_start[y2]@.contains(x2 as usize));
                    }
                }
            }
        }
        b = b + 1;
    }
    assert(blocks@.take(blocks@.len() as int) =~= blocks@);
    Ok(())
}

// ---------------------------------------------------------------------------
// Pair comparisons.
// ---------------------------------------------------------------------------

/// Whether cached decisions are those of the compared positions.
spec fn cache_wf(cache: Seq<Vec<(usize, Decision)>>, cfg: ConfigView, views: Seq<CandidateView>) -> bool {
    &&& cache.len() == views.len()
    &&& forall|p: int, k: int|
        0 <= p < cache.len() && 0 <= k < cache[p]@.len() ==> p <= (#[trigger] cache[p]@[k]).0 < views.len()
            && cache[p]@[k].1 == decision_of(cfg, views[p], views[cache[p]@[k].0 as int])
}

/// The pairs of positions whose decisions are cached.
spec fn cached(cache: Seq<Vec<(usize, Decision)>>) -> Set<(int, int)> {
    Set::new(
        |pq: (int, int)|
            0 <= pq.0 < cache.len() && exists|k: int| 0 <= k < cache[pq.0]@.len() && (#[trigger] cache[pq.0]@[k]).0 as int == pq.1,
    )
}

/// Two positions, the lower first.
spec fn ordered(a: int, b: int) -> (int, int) {
    if a <= b {
        (a, b)
    } else {
        (b, a)
    }
}

/// A count capped at the largest `usize`.
pub open spec fn capped(n: nat) -> int {
    if n > usize::MAX {
        usize::MAX as int
    } else {
        n as int
    }
}

/// Whether review entries are review comparisons of positions, strictly
/// increasing by position pair.
spec fn reviews_wf(reviews: Seq<(usize, usize, Comparison)>, cfg: ConfigView, views: Seq<CandidateView>) -> bool {
    &&& forall|i: int|
        0 <= i < reviews.len() ==> (#[trigger] reviews[i]).0 < reviews[i].1 < views.len() && reviews[i].2@ == compared(
            cfg,
            views[reviews[i].0 as int],
            views[reviews[i].1 as int],
        ) && reviews[i].2@.decision == Decision::Review
    &&& forall|i: int, j: int|
        0 <= i < j < reviews.len() ==> ((#[trigger] reviews[i]).0 < (#[trigger] reviews[j]).0 || (reviews[i].0 == reviews[j].0
            && reviews[i].1 < reviews[j].1))
}

/// Whether fuzzy edges join positions whose comparison is a duplicate.
spec fn edges_wf(edges: Seq<(u16, usize, usize)>, cfg: ConfigView, views: Seq<CandidateView>) -> bool {
    forall|e: int|
        0 <= e < edges.len() ==> (#[trigger] edges[e]).1 <= edges[e].2 < views.len() && decision_of(
            cfg,
            views[edges[e].1 as int],
            views[edges[e].2 as int],
        ) == Decision::Duplicate
}

/// The cached decision for two positions, if any.
fn lookup(cache: &Vec<Vec<(usize, Decision)>>, lo: usize, hi: usize, cfg: Ghost<ConfigView>, views: Ghost<Seq<CandidateView>>) -> (r:
    Option<Decision>)
    requires
        cache_wf(cache@, cfg@, views@),
        lo < cache@.len(),
    ensures
        r matches Some(d) ==> d == decision_of(cfg@, views@[lo as int], views@[hi as int]),
        r is Some <==> cached(cache@).contains((lo as int, hi as int)),
{
    let row = &cache[lo];
    let mut k: usize = 0;
    while k < row.len()
        invariant
            cache_wf(cache@, cfg@, views@),
            lo < cache@.len(),
            row == &cache@[lo as int],
            k <= row@.len(),
            forall|k2: int| 0 <= k2 < k ==> (#[trigger] row@[k2]).0 != hi,
        decreases row.len() - k,
    {
        let (q, d) = row[k];
        if q == hi {
            assert(cache@[lo as int]@[k as int].0 == q);
            assert(cached(cache@).contains((lo as int, hi as int)));
            return Some(d);
        }
        k = k + 1;
    }
    proof {
        if cached(cache@).contains((lo as int, hi as int)) {
            let k2 = choose|k2: int| 0 <= k2 < cache@[lo as int]@.len() && (#[trigger] cache@[lo as int]@[k2]).0 as int == hi as int;
            assert(row@[k2].0 != hi);
        }
    }
    None
}

/// Caches the decision for two positions.
fn remember(cache: &mut Vec<Vec<(usize, Decision)>>, lo: usize, hi: usize, d: Decision, cfg: Ghost<ConfigView>, views: Ghost<Seq<CandidateView>>)
    requires
        cache_wf(old(cache)@, cfg@, views@),
        lo <= hi < old(cache)@.len(),
        d == decision_of(cfg@, views@[lo as int], views@[hi as int]),
    ensures
        cache_wf(final(cache)@, cfg@, views@),
        cached(final(cache)@) == cached(old(cache)@).insert((lo as int, hi as int)),
{
    let ghost before = cache@;
    let mut row = cache.remove(lo);
    row.push((hi, d));
    cache.insert(lo, row);
    proof {
        assert forall|p: int, k: int|
            0 <= p < cache@.len() && 0 <= k < cache@[p]@.len() implies p <= (#[trigger] cache@[p]@[k]).0 < views@.len()
                && cache@[p]@[k].1 == decision_of(cfg@, views@[p], views@[cache@[p]@[k].0 as int]) by {
            if p != lo {
                assert(cache@[p] == before[p]);
            } else if k < before[p]@.len() {
                assert(cache@[p]@[k] == before[p]@[k]);
            }
        }
        assert forall|pq: (int, int)| #[trigger] cached(cache@).contains(pq) <==> cached(before).insert((lo as int, hi as int)).contains(pq) by {
            if 0 <= pq.0 < cache@.len() {
                if pq.0 != lo {
                    assert(cache@[pq.0] == before[pq.0]);
                } else {
                    let row = cache@[pq.0]@;
                    assert(row == before[pq.0]@.push((hi, d)));
                    if cached(cache@).contains(pq) {
                        let k = choose|k: int| 0 <= k < row.len() && (#[trigger] row[k]).0 as int == pq.1;
                        if k < before[pq.0]@.len() {
                            assert(before[pq.0]@[k] == row[k]);
                        }
                    }
                    if cached(before).contains(pq) {
                        let k = choose|k: int| 0 <= k < before[pq.0]@.len() && (#[trigger] before[pq.0]@[k]).0 as int == pq.1;
                        assert(row[k] == before[pq.0]@[k]);
                    }
                    if pq == (lo as int, hi as int) {
                        assert(row[before[pq.0]@.len() as int].0 == hi);
                    }
                }
            }
        }
        assert(cached(cache@) =~= cached(before).insert((lo as int, hi as int)));
    }
}

/// Whether a review entry joins two positions.
spec fn review_listed(reviews: Seq<(usize, usize, Comparison)>, p: int, q: int) -> bool {
    exists|r: int| 0 <= r < reviews.len() && (#[trigger] reviews[r]).0 == p && reviews[r].1 == q
}

/// Whether every review entry of `a` has one in `b`.
spec fn reviews_grow(a: Seq<(usize, usize, Comparison)>, b: Seq<(usize, usize, Comparison)>) -> bool {
    forall|p: int, q: int| review_listed(a, p, q) ==> #[trigger] review_listed(b, p, q)
}

/// Growth of review entries is transitive.
proof fn lemma_reviews_grow_trans(
    a: Seq<(usize, usize, Comparison)>,
    b: Seq<(usize, usize, Comparison)>,
    c: Seq<(usize, usize, Comparison)>,
)
    requires
        reviews_grow(a, b),
        reviews_grow(b, c),
    ensures
        reviews_grow(a, c),
{
    assert forall|p: int, q: int| review_listed(a, p, q) implies #[trigger] review_listed(c, p, q) by {
        assert(review_listed(b, p, q));
    }
}

/// Inserts a review entry in position-pair order, replacing an entry for
/// the same pair.
fn insert_review(
    reviews: &mut Vec<(usize, usize, Comparison)>,
    p: usize,
    q: usize,
    c: Comparison,
    cfg: Ghost<ConfigView>,
    views: Ghost<Seq<CandidateView>>,
)
    requires
        reviews_wf(old(reviews)@, cfg@, views@),
        p < q < views@.len(),
        c@ == compared(cfg@, views@[p as int], views@[q as int]),
        c@.decision == Decision::Review,
    ensures
        reviews_wf(final(reviews)@, cfg@, views@),
        reviews_grow(old(reviews)@, final(reviews)@),
        review_listed(final(reviews)@, p as int, q as int),
{
    let mut pos: usize = 0;
    while pos < reviews.len() && (reviews[pos].0 < p || (reviews[pos].0 == p && reviews[pos].1 < q))
        invariant
            pos <= reviews@.len(),
            forall|k: int| 0 <= k < pos ==> ((#[trigger] reviews@[k]).0 < p || (reviews@[k].0 == p && reviews@[k].1 < q)),
        decreases reviews@.len() - pos,
    {
        pos = pos + 1;
    }
    let ghost before = reviews@;
    if pos < reviews.len() && reviews[pos].0 == p && reviews[pos].1 == q {
        reviews.remove(pos);
        reviews.insert(pos, (p, q, c));
        proof {
            assert forall|i: int| 0 <= i < reviews@.len() implies (#[trigger] reviews@[i]).0 < reviews@[i].1 < views@.len()
                && reviews@[i].2@ == compared(cfg@, views@[reviews@[i].0 as int], views@[reviews@[i].1 as int])
                && reviews@[i].2@.decision == Decision::Review by {
                if i != pos {
                    assert(reviews@[i] == before[i]);
                }
            }
            assert forall|i: int, j: int| 0 <= i < j < reviews@.len() implies ((#[trigger] reviews@[i]).0 < (
            #[trigger] reviews@[j]).0 || (reviews@[i].0 == reviews@[j].0 && reviews@[i].1 < reviews@[j].1)) by {
                assert(before[i].0 < before[j].0 || (before[i].0 == before[j].0 && before[i].1 < before[j].1));
                if i != pos {
                    assert(reviews@[i] == before[i]);
                }
                if j != pos {
                    assert(reviews@[j] == before[j]);
                }
            }
            assert forall|p2: int, q2: int| review_listed(before, p2, q2) implies #[trigger] review_listed(reviews@, p2, q2) by {
                let r = choose|r: int| 0 <= r < before.len() && (#[trigger] before[r]).0 == p2 && before[r].1 == q2;
                if r != pos {
                    assert(reviews@[r] == before[r]);
                } else {
                    assert(reviews@[r].0 == p2 && reviews@[r].1 == q2);
                }
            }
            assert(reviews@[pos as int].0 == p && reviews@[pos as int].1 == q);
        }
        return;
    }
    reviews.insert(pos, (p, q, c));
    proof {
        assert forall|p2: int, q2: int| review_listed(before, p2, q2) implies #[trigger] review_listed(reviews@, p2, q2) by {
            let r = choose|r: int| 0 <= r < before.len() && (#[trigger] before[r]).0 == p2 && before[r].1 == q2;
            if r < pos {
                assert(reviews@[r] == before[r]);
            } else {
                assert(reviews@[r + 1] == before[r]);
            }
        }
        assert(reviews@[pos as int].0 == p && reviews@[pos as int].1 == q);
        assert forall|i: int| 0 <= i < reviews@.len() implies (#[trigger] reviews@[i]).0 < reviews@[i].1 < views@.len()
            && reviews@[i].2@ == compared(cfg@, views@[reviews@[i].0 as int], views@[reviews@[i].1 as int])
            && reviews@[i].2@.decision == Decision::Review by {
            if i < pos {
                assert(reviews@[i] == before[i]);
            } else if i > pos {
                assert(reviews@[i] == before[i - 1]);
            }
        }
        assert forall|i: int, j: int| 0 <= i < j < reviews@.len() implies ((#[trigger] reviews@[i]).0 < (
        #[trigger] reviews@[j]).0 || (reviews@[i].0 == reviews@[j].0 && reviews@[i].1 < reviews@[j].1)) by {
            if i < pos && j < pos {
                assert(reviews@[i] == before[i] && reviews@[j] == before[j]);
            } else if i < pos && j == pos {
                assert(reviews@[i] == before[i]);
            } else if i < pos && j > pos {
                assert(reviews@[i] == before[i] && reviews@[j] == before[j - 1]);
                assert(before[i].0 < before[j - 1].0 || (before[i].0 == before[j - 1].0 && before[i].1 < before[j - 1].1));
            } else if i == pos {
                assert(reviews@[j] == before[j - 1]);
                if j - 1 > pos {
                    assert(before[pos as int].0 < before[j - 1].0 || (before[pos as int].0 == before[j - 1].0
                        && before[pos as int].1 < before[j - 1].1));
                }
            } else {
                assert(reviews@[i] == before[i - 1] && reviews@[j] == before[j - 1]);
                assert(before[i - 1].0 < before[j - 1].0 || (before[i - 1].0 == before[j - 1].0 && before[i - 1].1
                    < before[j - 1].1));
            }
        }
    }
}

/// The pairs of one position with the first `k` members of its row.
spec fn row_prefix(p: int, row: Seq<usize>, k: int) -> Set<(int, int)> {
    Set::new(|pq: (int, int)| pq.0 == p && exists|k2: int| 0 <= k2 < k && #[trigger] row[k2] as int == pq.1)
}

/// One more member of a row adds its pair.
proof fn lemma_row_prefix_step(p: int, row: Seq<usize>, k: int)
    requires
        0 <= k < row.len(),
    ensures
        row_prefix(p, row, k + 1) == row_prefix(p, row, k).insert((p, row[k] as int)),
{
    assert forall|pq: (int, int)| #[trigger] row_prefix(p, row, k + 1).contains(pq) <==> row_prefix(p, row, k).insert((p, row[k] as int)).contains(pq) by {
        if row_prefix(p, row, k + 1).contains(pq) && pq != (p, row[k] as int) {
            let k2 = choose|k2: int| 0 <= k2 < k + 1 && #[trigger] row[k2] as int == pq.1;
            assert(k2 < k);
        }
        if row_prefix(p, row, k).contains(pq) {
            let k2 = choose|k2: int| 0 <= k2 < k && #[trigger] row[k2] as int == pq.1;
            assert(k2 < k + 1);
        }
        if pq == (p, row[k] as int) {
            assert(row[k] as int == pq.1);
        }
    }
    assert(row_prefix(p, row, k + 1) =~= row_prefix(p, row, k).insert((p, row[k] as int)));
}

/// A whole row adds the listed pairs of its position.
proof fn lemma_row_prefix_full(rows: Seq<Vec<usize>>, p: int)
    requires
        pairs_wf(rows, rows.len()),
        0 <= p < rows.len(),
        rows.len() <= usize::MAX,
    ensures
        listed_pairs(rows, p).union(row_prefix(p, rows[p]@, rows[p]@.len() as int)) == listed_pairs(rows, p + 1),
{
    let row = rows[p]@;
    assert forall|pq: (int, int)| #[trigger] listed_pairs(rows, p + 1).contains(pq) <==> listed_pairs(rows, p).union(
        row_prefix(p, row, row.len() as int),
    ).contains(pq) by {
        if pq.0 == p {
            if listed_pairs(rows, p + 1).contains(pq) {
                let k2 = choose|k2: int| 0 <= k2 < row.len() && row[k2] == pq.1 as usize;
                assert(row[k2] < rows.len());
                assert(row[k2] as int == pq.1);
            }
            if row_prefix(p, row, row.len() as int).contains(pq) {
                let k2 = choose|k2: int| 0 <= k2 < row.len() && #[trigger] row[k2] as int == pq.1;
                assert(row[k2] < rows.len());
                assert(row.contains(pq.1 as usize));
            }
        }
    }
    assert(listed_pairs(rows, p).union(row_prefix(p, row, row.len() as int)) =~= listed_pairs(rows, p + 1));
}

/// Whether a fuzzy duplicate edge joins two positions.
spec fn edge_listed(edges: Seq<(u16, usize, usize)>, p: int, q: int) -> bool {
    exists|e: int| 0 <= e < edges.len() && (#[trigger] edges[e]).1 == p && edges[e].2 == q
}

/// Whether a comparison of two candidates is an automatic fuzzy duplicate.
pub open spec fn fuzzy_duplicate(cfg: ConfigView, a: CandidateView, b: CandidateView) -> bool {
    compared(cfg, a, b).decision == Decision::Duplicate && compared(cfg, a, b).method == MatchMethod::Fuzzy
}

/// The score by which a fuzzy edge is ranked: the comparison's score, or
/// the full score where it has none.
pub open spec fn edge_score(cfg: ConfigView, a: CandidateView, b: CandidateView) -> int {
    match compared(cfg, a, b).score {
        Some(s) => s as int,
        None => 10_000,
    }
}

/// Whether an edge joins a listed pair of positions that compares as an
/// automatic fuzzy duplicate, with that comparison's ranking score.
spec fn edge_from_pair(cfg: ConfigView, views: Seq<CandidateView>, pairs: Seq<Vec<usize>>, edge: (u16, usize, usize)) -> bool {
    &&& edge.1 < pairs.len()
    &&& pairs[edge.1 as int]@.contains(edge.2)
    &&& fuzzy_duplicate(cfg, views[edge.1 as int], views[edge.2 as int])
    &&& edge.0 as int == edge_score(cfg, views[edge.1 as int], views[edge.2 as int])
}

/// Whether edges are strictly ranked: a higher score first, then the lower
/// pair of positions.
spec fn edges_ranked(edges: Seq<(u16, usize, usize)>) -> bool {
    forall|e1: int, e2: int| 0 <= e1 < e2 < edges.len() ==> edge_precedes(#[trigger] edges[e1], #[trigger] edges[e2])
}

/// Whether one edge of positions is taken before another.
spec fn edge_precedes(a: (u16, usize, usize), b: (u16, usize, usize)) -> bool {
    ||| a.0 > b.0
    ||| a.0 == b.0 && a.1 < b.1
    ||| a.0 == b.0 && a.1 == b.1 && a.2 < b.2
}

/// Inserts an edge after every edge of a score at least as high; every edge
/// already there is of a lower pair of positions.
fn insert_edge(edges: &mut Vec<(u16, usize, usize)>, edge: (u16, usize, usize), cfg: Ghost<ConfigView>, views: Ghost<Seq<CandidateView>>)
    requires
        edges_wf(old(edges)@, cfg@, views@),
        edges_ranked(old(edges)@),
        forall|e: int| 0 <= e < old(edges)@.len() ==> (#[trigger] old(edges)@[e]).1 < edge.1 || (old(edges)@[e].1 == edge.1 && old(edges)@[e].2 < edge.2),
        edge.1 <= edge.2 < views@.len(),
        decision_of(cfg@, views@[edge.1 as int], views@[edge.2 as int]) == Decision::Duplicate,
    ensures
        edges_wf(final(edges)@, cfg@, views@),
        edges_ranked(final(edges)@),
        forall|p: int, q: int| edge_listed(old(edges)@, p, q) ==> #[trigger] edge_listed(final(edges)@, p, q),
        edge_listed(final(edges)@, edge.1 as int, edge.2 as int),
        forall|e: int| 0 <= e < final(edges)@.len() ==> #[trigger] final(edges)@[e] == edge || old(edges)@.contains(final(edges)@[e]),
{
    let mut pos: usize = 0;
    while pos < edges.len() && edges[pos].0 >= edge.0
        invariant
            pos <= edges@.len(),
            forall|e: int| 0 <= e < pos ==> (#[trigger] edges@[e]).0 >= edge.0,
        decreases edges@.len() - pos,
    {
        pos = pos + 1;
    }
    let ghost before = edges@;
    proof {
        assert forall|e: int| pos <= e < before.len() implies (#[trigger] before[e]).0 < edge.0 by {
            if e > pos {
                assert(edge_precedes(before[pos as int], before[e]));
            }
        }
    }
    edges.insert(pos, edge);
    proof {
        assert forall|e: int| 0 <= e < edges@.len() implies (#[trigger] edges@[e]).1 <= edges@[e].2 < views@.len() && decision_of(
            cfg@,
            views@[edges@[e].1 as int],
            views@[edges@[e].2 as int],
        ) == Decision::Duplicate by {
            if e < pos {
                assert(edges@[e] == before[e]);
            } else if e > pos {
                assert(edges@[e] == before[e - 1]);
            }
        }
        assert forall|p: int, q: int| edge_listed(before, p, q) implies #[trigger] edge_listed(edges@, p, q) by {
            let e = choose|e: int| 0 <= e < before.len() && (#[trigger] before[e]).1 == p && before[e].2 == q;
            if e < pos {
                assert(edges@[e] == before[e]);
            } else {
                assert(edges@[e + 1] == before[e]);
            }
        }
        assert(edges@[pos as int] == edge);
        assert forall|e: int| 0 <= e < edges@.len() implies #[trigger] edges@[e] == edge || before.contains(edges@[e]) by {
            if e < pos {
                assert(edges@[e] == before[e]);
            } else if e > pos {
                assert(edges@[e] == before[e - 1]);
            }
        }
        assert forall|e1: int, e2: int| 0 <= e1 < e2 < edges@.len() implies edge_precedes(#[trigger] edges@[e1], #[trigger] edges@[e2]) by {
            if e1 < pos && e2 < pos {
                assert(edges@[e1] == before[e1] && edges@[e2] == before[e2]);
            } else if e1 < pos && e2 == pos {
                assert(edges@[e1] == before[e1]);
            } else if e1 < pos {
                assert(edges@[e1] == before[e1] && edges@[e2] == before[e2 - 1]);
            } else if e1 == pos {
                assert(edges@[e2] == before[e2 - 1]);
            } else {
                assert(edges@[e1] == before[e1 - 1] && edges@[e2] == before[e2 - 1]);
            }
        }
    }
}

/// The decision is the comparison's decision.
proof fn lemma_decision_compared(cfg: ConfigView, a: CandidateView, b: CandidateView)
    ensures
        decision_of(cfg, a, b) == compared(cfg, a, b).decision,
{
    reveal(decision_of);
    reveal(compared);
}

/// A candidate compared with itself is a duplicate of itself.
proof fn lemma_self_duplicate(cfg: ConfigView, a: CandidateView)
    ensures
        compared(cfg, a, a).decision == Decision::Duplicate,
{
    reveal(compared);
    crate::compare::lemma_same_occurrence_is_duplicate(cfg, a, a);
}

impl crate::compare::Deduplicator {
    fn compare_positions(&self, batch: &Batch, p: usize, q: usize) -> (c: Comparison)
        requires
            batch.wf(self.policy()),
            p < batch.len(),
            q < batch.len(),
        ensures
            c@ == compared(self.policy(), batch.views()[p as int], batch.views()[q as int]),
    {
        let left = PreparedCandidate::cached(batch.candidates[p], batch.keys[p], batch.correlation[p].as_slice());
        let right = PreparedCandidate::cached(batch.candidates[q], batch.keys[q], batch.correlation[q].as_slice());
        proof {
            assert(batch.candidates@[p as int]@ == batch.views()[p as int]);
            assert(batch.candidates@[q as int]@ == batch.views()[q as int]);
        }
        let c = self.compare_prepared(left, right);
        proof {
            reveal(compared);
        }
        c
    }

    /// Compares every blocked pair once, in pair order, caching decisions and
    /// collecting fuzzy duplicate edges and review pairs.
    #[verifier::spinoff_prover]
    #[verifier::rlimit(50)]
    fn compare_pairs(
        &self,
        batch: &Batch,
        pairs: &Vec<Vec<usize>>,
        cache: &mut Vec<Vec<(usize, Decision)>>,
        reviews: &mut Vec<(usize, usize, Comparison)>,
        edges: &mut Vec<(u16, usize, usize)>,
    ) -> (count: usize)
        requires
            batch.wf(self.policy()),
            pairs_wf(pairs@, batch.len()),
            cache_wf(old(cache)@, self.policy(), batch.views()),
            reviews_wf(old(reviews)@, self.policy(), batch.views()),
            old(edges)@.len() == 0,
            forall|x: int| 0 <= x < old(cache)@.len() ==> (#[trigger] old(cache)@[x])@.len() == 0,
        ensures
            cached(final(cache)@) == listed_pairs(pairs@, pairs@.len() as int),
            cache_wf(final(cache)@, self.policy(), batch.views()),
            reviews_wf(final(reviews)@, self.policy(), batch.views()),
            edges_wf(final(edges)@, self.policy(), batch.views()),
            edges_ranked(final(edges)@),
            forall|e: int| 0 <= e < final(edges)@.len() ==> edge_from_pair(self.policy(), batch.views(), pairs@, #[trigger] final(edges)@[e]),
            count == pairs_total(pairs@),
            forall|p: int, q: int|
                0 <= p < pairs@.len() && #[trigger] pairs@[p]@.contains(q as usize) && 0 <= q < pairs@.len() && fuzzy_duplicate(
                    self.policy(),
                    batch.views()[p],
                    batch.views()[q],
                ) ==> edge_listed(final(edges)@, p, q),
            reviews_grow(old(reviews)@, final(reviews)@),
            forall|p: int, q: int|
                0 <= p < pairs@.len() && #[trigger] pairs@[p]@.contains(q as usize) && 0 <= q < pairs@.len() && compared(
                    self.policy(),
                    batch.views()[p],
                    batch.views()[q],
                ).decision == Decision::Review ==> review_listed(final(reviews)@, p, q),
    {
        let ghost start_reviews = reviews@;
        let ghost cfg = self.policy();
        let ghost views = batch.views();
        let ghost n = batch.len();
        let mut count: usize = 0;
        let mut p: usize = 0;
        assert(cached(cache@) =~= listed_pairs(pairs@, 0));
        while p < pairs.len()
            invariant
                batch.wf(cfg),
                cfg == self.policy(),
                views == batch.views(),
                n == batch.len(),
                pairs_wf(pairs@, n),
                cache_wf(cache@, cfg, views),
                reviews_wf(reviews@, cfg, views),
                edges_wf(edges@, cfg, views),
                edges_ranked(edges@),
                forall|e: int| 0 <= e < edges@.len() ==> edge_from_pair(cfg, views, pairs@, #[trigger] edges@[e]),
                forall|e: int| 0 <= e < edges@.len() ==> (#[trigger] edges@[e]).1 < p,
                p <= pairs@.len(),
                count == pairs_total(pairs@.take(p as int)),
                cached(cache@) == listed_pairs(pairs@, p as int),
                forall|p2: int, q: int|
                    0 <= p2 < p && #[trigger] pairs@[p2]@.contains(q as usize) && 0 <= q < pairs@.len() && fuzzy_duplicate(cfg, views[p2], views[q])
                        ==> edge_listed(edges@, p2, q),
                reviews_grow(start_reviews, reviews@),
                forall|p2: int, q: int|
                    0 <= p2 < p && #[trigger] pairs@[p2]@.contains(q as usize) && 0 <= q < pairs@.len() && compared(cfg, views[p2], views[q]).decision
                        == Decision::Review ==> review_listed(reviews@, p2, q),
            decreases pairs.len() - p,
        {
            let row = &pairs[p];
            let ghost base = count;
            assert(pairs@.take(p + 1).drop_last() =~= pairs@.take(p as int));
            let mut k: usize = 0;
            assert(row_prefix(p as int, row@, 0) =~= Set::<(int, int)>::empty());
            assert(cached(cache@) =~= listed_pairs(pairs@, p as int).union(row_prefix(p as int, row@, 0)));
            while k < row.len()
                invariant
                    batch.wf(cfg),
                    cfg == self.policy(),
                    views == batch.views(),
                    n == batch.len(),
                    pairs_wf(pairs@, n),
                    p < pairs@.len(),
                    row == &pairs@[p as int],
                    k <= row@.len(),
                    cache_wf(cache@, cfg, views),
                    cached(cache@) == listed_pairs(pairs@, p as int).union(row_prefix(p as int, row@, k as int)),
                    reviews_wf(reviews@, cfg, views),
                    edges_wf(edges@, cfg, views),
                    edges_ranked(edges@),
                    forall|e: int| 0 <= e < edges@.len() ==> edge_from_pair(cfg, views, pairs@, #[trigger] edges@[e]),
                    forall|e: int|
                        0 <= e < edges@.len() ==> (#[trigger] edges@[e]).1 < p || (edges@[e].1 == p && (k < row@.len() ==> edges@[e].2
                            < row@[k as int])),
                    count == (if base + k > usize::MAX { usize::MAX as int } else { base + k }),
                    forall|p2: int, q: int|
                        0 <= p2 < p && #[trigger] pairs@[p2]@.contains(q as usize) && 0 <= q < pairs@.len() && fuzzy_duplicate(cfg, views[p2], views[q])
                            ==> edge_listed(edges@, p2, q),
                    forall|k2: int| 0 <= k2 < k && fuzzy_duplicate(cfg, views[p as int], views[#[trigger] row@[k2] as int]) ==> edge_listed(
                        edges@,
                        p as int,
                        row@[k2] as int,
                    ),
                    reviews_grow(start_reviews, reviews@),
                    forall|p2: int, q: int|
                        0 <= p2 < p && #[trigger] pairs@[p2]@.contains(q as usize) && 0 <= q < pairs@.len() && compared(cfg, views[p2], views[q]).decision
                            == Decision::Review ==> review_listed(reviews@, p2, q),
                    forall|k2: int|
                        0 <= k2 < k && compared(cfg, views[p as int], views[#[trigger] row@[k2] as int]).decision == Decision::Review
                            ==> review_listed(reviews@, p as int, row@[k2] as int),
                decreases row.len() - k,
            {
                let q = row[k];
                assert(p <= q < n);
                count = count.saturating_add(1);
                let c = self.compare_positions(batch, p, q);
                let d = c.decision();
                proof {
                    lemma_decision_compared(cfg, views[p as int], views[q as int]);
                }
                remember(cache, p, q, d, Ghost(cfg), Ghost(views));
                proof {
                    lemma_row_prefix_step(p as int, row@, k as int);
                    assert(cached(cache@) =~= listed_pairs(pairs@, p as int).union(row_prefix(p as int, row@, k + 1)));
                }
                if d == Decision::Duplicate && c.method() == MatchMethod::Fuzzy {
                    let score: u16 = match c.score() {
                        Some(s) => s.get(),
                        None => 10_000,
                    };
                    proof {
                        reveal(compared);
                        assert(score as int == edge_score(cfg, views[p as int], views[q as int]));
                    }
                    let ghost before_edges = edges@;
                    insert_edge(edges, (score, p, q), Ghost(cfg), Ghost(views));
                    proof {
                        assert forall|e: int| 0 <= e < edges@.len() implies edge_from_pair(cfg, views, pairs@, #[trigger] edges@[e]) by {
                            if edges@[e] != (score, p, q) {
                                let e0 = choose|e0: int| 0 <= e0 < before_edges.len() && before_edges[e0] == edges@[e];
                                assert(edge_from_pair(cfg, views, pairs@, before_edges[e0]));
                            }
                        }
                        assert forall|e: int| 0 <= e < edges@.len() implies (#[trigger] edges@[e]).1 < p || (edges@[e].1 == p && (k + 1
                            < row@.len() ==> edges@[e].2 < row@[k + 1])) by {
                            if k + 1 < row@.len() {
                                assert(row@[k as int] < row@[k + 1]);
                            }
                            if edges@[e] != (score, p, q) {
                                let e0 = choose|e0: int| 0 <= e0 < before_edges.len() && before_edges[e0] == edges@[e];
                                assert(before_edges[e0].1 < p || (before_edges[e0].1 == p && before_edges[e0].2 < row@[k as int]));
                            }
                        }
                    }
                } else if d == Decision::Review {
                    proof {
                        if p == q {
                            lemma_self_duplicate(cfg, views[p as int]);
                        }
                    }
                    let ghost before_reviews = reviews@;
                    insert_review(reviews, p, q, c, Ghost(cfg), Ghost(views));
                    proof {
                        lemma_reviews_grow_trans(start_reviews, before_reviews, reviews@);
                        assert forall|k2: int|
                            0 <= k2 < k && compared(cfg, views[p as int], views[#[trigger] row@[k2] as int]).decision == Decision::Review
                                implies review_listed(reviews@, p as int, row@[k2] as int) by {
                            assert(review_listed(before_reviews, p as int, row@[k2] as int));
                        }
                        assert forall|p2: int, q2: int|
                            0 <= p2 < p && #[trigger] pairs@[p2]@.contains(q2 as usize) && 0 <= q2 < pairs@.len() && compared(cfg, views[p2], views[q2]).decision
                                == Decision::Review implies review_listed(reviews@, p2, q2) by {
                            assert(review_listed(before_reviews, p2, q2));
                        }
                    }
                }
                proof {
                    reveal(compared);
                    if k + 1 < row@.len() {
                        assert(row@[k as int] < row@[k + 1]);
                    }
                }
                k = k + 1;
            }
            proof {
                assert forall|p2: int, q: int|
                    0 <= p2 < p + 1 && #[trigger] pairs@[p2]@.contains(q as usize) && 0 <= q < pairs@.len() && fuzzy_duplicate(cfg, views[p2], views[q])
                        implies edge_listed(edges@, p2, q) by {
                    if p2 == p {
                        let k2 = choose|k2: int| 0 <= k2 < row@.len() && row@[k2] == q as usize;
                        assert(fuzzy_duplicate(cfg, views[p as int], views[row@[k2] as int]));
                    }
                }
                assert forall|p2: int, q: int|
                    0 <= p2 < p + 1 && #[trigger] pairs@[p2]@.contains(q as usize) && 0 <= q < pairs@.len() && compared(cfg, views[p2], views[q]).decision
                        == Decision::Review implies review_listed(reviews@, p2, q) by {
                    if p2 == p {
                        let k2 = choose|k2: int| 0 <= k2 < row@.len() && row@[k2] == q as usize;
                        assert(compared(cfg, views[p as int], views[row@[k2] as int]).decision == Decision::Review);
                    }
                }
            }
            proof {
                lemma_row_prefix_full(pairs@, p as int);
            }
            p = p + 1;
        }
        assert(pairs@.take(pairs@.len() as int) =~= pairs@);
        count
    }
}

// ---------------------------------------------------------------------------
// Complete-link fuzzy merges.
// ---------------------------------------------------------------------------

/// There are no more roots than positions.
proof fn lemma_roots_bound(groups: Groups)
    ensures
        groups.roots().len() <= groups.size(),
        groups.roots().finite(),
{
    let range = vstd::set_lib::set_int_range(0, groups.size() as int);
    vstd::set_lib::lemma_int_range(0, groups.size() as int);
    assert(groups.roots().subset_of(range));
    vstd::set_lib::lemma_len_subset(groups.roots(), range);
}

/// Two different occurrences from one source are never duplicates under the
/// cross-source policy.
proof fn lemma_duplicate_sources(cfg: ConfigView, a: CandidateView, b: CandidateView)
    requires
        decision_of(cfg, a, b) == Decision::Duplicate,
        occurrence_key_of(a) != occurrence_key_of(b),
        cfg.cross_source_only,
    ensures
        a.origin.source != b.origin.source,
{
    reveal(decision_of);
    crate::compare::lemma_hard_boundaries(cfg, a, b);
}

/// The decision between two candidates does not depend on their order.
proof fn lemma_decision_symmetric(cfg: ConfigView, a: CandidateView, b: CandidateView)
    ensures
        decision_of(cfg, a, b) == decision_of(cfg, b, a),
{
    reveal(decision_of);
    crate::compare::lemma_compare_symmetric(cfg, a, b);
}

/// The invariant of the fuzzy phase: groups are unions of exact groups, each
/// pair of members from different exact groups compares as a duplicate, and
/// sources stay distinct under the cross-source policy.
spec fn fuzzy_invariant(
    groups: Groups,
    exact: Seq<usize>,
    cfg: ConfigView,
    views: Seq<CandidateView>,
    cross_source_only: bool,
) -> bool {
    &&& groups.wf()
    &&& groups.size() == views.len()
    &&& groups.roots().finite()
    &&& exact.len() == views.len()
    &&& forall|x: int, y: int|
        0 <= x < views.len() && 0 <= y < views.len() && #[trigger] exact[x] == #[trigger] exact[y] ==> key_linked(
            cfg,
            views,
            views[x],
            views[y],
        )
    &&& forall|x: int, y: int|
        0 <= x < views.len() && 0 <= y < views.len() && #[trigger] groups.label@[x] == #[trigger] groups.label@[y] ==> exact[x]
            == exact[y] || decision_of(cfg, views[x], views[y]) == Decision::Duplicate
    &&& forall|x: int, y: int|
        0 <= x < views.len() && 0 <= y < views.len() && #[trigger] exact[x] == #[trigger] exact[y] ==> groups.label@[x]
            == groups.label@[y]
    &&& (cross_source_only ==> groups_source_disjoint(groups, views))
}

/// One greedy complete-link step over labelled candidates: the groups of
/// the edge's two ends merge, under the first end's label, when they differ
/// and every cross pair of their members compares as a duplicate.
pub open spec fn fuzzy_step(cfg: ConfigView, cands: Seq<CandidateView>, label: Seq<int>, edge: (int, int)) -> Seq<int> {
    let g = label[edge.0];
    let h = label[edge.1];
    if g != h && forall|x: int, y: int|
        0 <= x < cands.len() && 0 <= y < cands.len() && #[trigger] label[x] == g && #[trigger] label[y] == h ==> decision_of(
            cfg,
            cands[x],
            cands[y],
        ) == Decision::Duplicate {
        Seq::new(label.len(), |x: int| if label[x] == h { g } else { label[x] })
    } else {
        label
    }
}

/// The greedy complete-link pass: the steps of the edges, in order.
pub open spec fn fuzzy_fold(cfg: ConfigView, cands: Seq<CandidateView>, label: Seq<int>, edges: Seq<(int, int)>) -> Seq<int>
    decreases edges.len(),
{
    if edges.len() == 0 {
        label
    } else {
        fuzzy_step(cfg, cands, fuzzy_fold(cfg, cands, label, edges.drop_last()), edges.last())
    }
}

/// The pairs, lower key first, that a greedy step decides: every cross pair
/// of the two groups of the edge's ends, when they differ.
pub open spec fn cross_pairs(cands: Seq<CandidateView>, label: Seq<int>, edge: (int, int)) -> Set<(int, int)> {
    Set::new(
        |xy: (int, int)|
            0 <= xy.0 < cands.len() && 0 <= xy.1 < cands.len() && byte_sign(input_keys(cands)[xy.0], input_keys(cands)[xy.1]) <= 0
                && label[edge.0] != label[edge.1] && ((label[xy.0] == label[edge.0] && label[xy.1] == label[edge.1]) || (label[xy.0]
                == label[edge.1] && label[xy.1] == label[edge.0])),
    )
}

/// The pairs the greedy pass decides along the way.
pub open spec fn checked_pairs(cfg: ConfigView, cands: Seq<CandidateView>, label: Seq<int>, edges: Seq<(int, int)>) -> Set<(int, int)>
    decreases edges.len(),
{
    if edges.len() == 0 {
        Set::empty()
    } else {
        checked_pairs(cfg, cands, label, edges.drop_last()).union(
            cross_pairs(cands, fuzzy_fold(cfg, cands, label, edges.drop_last()), edges.last()),
        )
    }
}

/// The ordered cross pairs of two member lists taken so far: all of the
/// first `i` left members, and the first `j` right members of the next.
spec fn cross_done(left: Seq<usize>, right: Seq<usize>, i: int, j: int) -> Set<(int, int)> {
    Set::new(
        |xy: (int, int)|
            exists|i2: int, j2: int|
                0 <= i2 < left.len() && 0 <= j2 < right.len() && (i2 < i || (i2 == i && j2 < j)) && xy == #[trigger] ordered(
                    left[i2] as int,
                    right[j2] as int,
                ),
    )
}

/// Taking one more right member adds its ordered pair.
proof fn lemma_cross_done_step(left: Seq<usize>, right: Seq<usize>, i: int, j: int)
    requires
        0 <= i < left.len(),
        0 <= j < right.len(),
    ensures
        cross_done(left, right, i, j + 1) == cross_done(left, right, i, j).insert(ordered(left[i] as int, right[j] as int)),
{
    let o = ordered(left[i] as int, right[j] as int);
    assert forall|xy: (int, int)| #[trigger] cross_done(left, right, i, j + 1).contains(xy) <==> cross_done(left, right, i, j).insert(o).contains(xy) by {
        if cross_done(left, right, i, j + 1).contains(xy) && xy != o {
            let (i2, j2) = choose|i2: int, j2: int|
                0 <= i2 < left.len() && 0 <= j2 < right.len() && (i2 < i || (i2 == i && j2 < j + 1)) && xy == #[trigger] ordered(
                    left[i2] as int,
                    right[j2] as int,
                );
            assert(i2 < i || (i2 == i && j2 < j));
        }
        if cross_done(left, right, i, j).contains(xy) {
            let (i2, j2) = choose|i2: int, j2: int|
                0 <= i2 < left.len() && 0 <= j2 < right.len() && (i2 < i || (i2 == i && j2 < j)) && xy == #[trigger] ordered(
                    left[i2] as int,
                    right[j2] as int,
                );
            assert(i2 < i || (i2 == i && j2 < j + 1));
        }
        if xy == o {
            assert(i < i || (i == i && j < j + 1));
        }
    }
    assert(cross_done(left, right, i, j + 1) =~= cross_done(left, right, i, j).insert(o));
}

/// A finished row of right members is the start of the next.
proof fn lemma_cross_done_row(left: Seq<usize>, right: Seq<usize>, i: int)
    ensures
        cross_done(left, right, i, right.len() as int) == cross_done(left, right, i + 1, 0),
{
    assert forall|xy: (int, int)| #[trigger] cross_done(left, right, i, right.len() as int).contains(xy) <==> cross_done(left, right, i + 1, 0).contains(xy) by {
        if cross_done(left, right, i, right.len() as int).contains(xy) {
            let (i2, j2) = choose|i2: int, j2: int|
                0 <= i2 < left.len() && 0 <= j2 < right.len() && (i2 < i || (i2 == i && j2 < right.len())) && xy == #[trigger] ordered(
                    left[i2] as int,
                    right[j2] as int,
                );
            assert(i2 < i + 1 || (i2 == i + 1 && j2 < 0));
        }
        if cross_done(left, right, i + 1, 0).contains(xy) {
            let (i2, j2) = choose|i2: int, j2: int|
                0 <= i2 < left.len() && 0 <= j2 < right.len() && (i2 < i + 1 || (i2 == i + 1 && j2 < 0)) && xy == #[trigger] ordered(
                    left[i2] as int,
                    right[j2] as int,
                );
            assert(i2 < i || (i2 == i && j2 < right.len()));
        }
    }
    assert(cross_done(left, right, i, right.len() as int) =~= cross_done(left, right, i + 1, 0));
}

/// All ordered cross pairs of two groups' members are the pairs a greedy
/// step between them decides.
proof fn lemma_cross_done_all(groups: Groups, views: Seq<CandidateView>, keys: Seq<OccurrenceKey>, p: int, q: int, left: Seq<usize>, right: Seq<usize>)
    requires
        groups.wf(),
        groups.size() == views.len(),
        keys.len() == views.len(),
        forall|x: int| 0 <= x < keys.len() ==> (#[trigger] keys[x])@ == occurrence_key_of(views[x]),
        forall|x: int, y: int| 0 <= x < y < keys.len() ==> byte_sign(#[trigger] keys[x]@, #[trigger] keys[y]@) < 0,
        0 <= p < views.len(),
        0 <= q < views.len(),
        groups.label@[p] != groups.label@[q],
        left == groups.members@[groups.label@[p] as int]@,
        right == groups.members@[groups.label@[q] as int]@,
    ensures
        cross_done(left, right, left.len() as int, 0) == cross_pairs(views, label_view(groups.label@), (p, q)),
{
    let lab = label_view(groups.label@);
    let g = lab[p];
    let h = lab[q];
    let ik = input_keys(views);
    assert forall|x: int, y: int| 0 <= x < views.len() && 0 <= y < views.len() implies (byte_sign(#[trigger] ik[x], #[trigger] ik[y])
        <= 0 <==> x <= y) by {
        assert(ik[x] == keys[x]@ && ik[y] == keys[y]@);
        if x < y {
            assert(byte_sign(keys[x]@, keys[y]@) < 0);
        } else if y < x {
            assert(byte_sign(keys[y]@, keys[x]@) < 0);
            lemma_byte_antisym(keys[y]@, keys[x]@);
        } else {
            lemma_byte_antisym(keys[x]@, keys[x]@);
        }
    }
    assert forall|xy: (int, int)| #[trigger] cross_done(left, right, left.len() as int, 0).contains(xy) <==> cross_pairs(views, lab, (p, q)).contains(xy) by {
        if cross_done(left, right, left.len() as int, 0).contains(xy) {
            let (i2, j2) = choose|i2: int, j2: int|
                0 <= i2 < left.len() && 0 <= j2 < right.len() && (i2 < left.len() || (i2 == left.len() && j2 < 0)) && xy
                    == #[trigger] ordered(left[i2] as int, right[j2] as int);
            let a = left[i2] as int;
            let b = right[j2] as int;
            assert(left.contains(left[i2]) && right.contains(right[j2]));
            assert(left[i2] < views.len() && right[j2] < views.len());
            assert(groups.label@[a] == g && groups.label@[b] == h);
        }
        if cross_pairs(views, lab, (p, q)).contains(xy) {
            let x = xy.0;
            let y = xy.1;
            if lab[x] == g {
                assert(left.contains(x as usize) && right.contains(y as usize));
                let i2 = choose|i2: int| 0 <= i2 < left.len() && left[i2] == x as usize;
                let j2 = choose|j2: int| 0 <= j2 < right.len() && right[j2] == y as usize;
                assert(xy == ordered(left[i2] as int, right[j2] as int));
            } else {
                assert(left.contains(y as usize) && right.contains(x as usize));
                let i2 = choose|i2: int| 0 <= i2 < left.len() && left[i2] == y as usize;
                let j2 = choose|j2: int| 0 <= j2 < right.len() && right[j2] == x as usize;
                assert(xy == ordered(left[i2] as int, right[j2] as int));
            }
        }
    }
    assert(cross_done(left, right, left.len() as int, 0) =~= cross_pairs(views, lab, (p, q)));
}

/// Labels as integers.
spec fn label_view(label: Seq<usize>) -> Seq<int> {
    Seq::new(label.len(), |p: int| label[p] as int)
}

/// The pairs of positions that edges join, in order.
spec fn edge_view(edges: Seq<(u16, usize, usize)>) -> Seq<(int, int)> {
    Seq::new(edges.len(), |e: int| (edges[e].1 as int, edges[e].2 as int))
}

/// A merge of two groups whose cross pairs are all duplicates is the greedy
/// step of an edge between them.
proof fn lemma_fuzzy_step_merge(
    before: Groups,
    after: Groups,
    cfg: ConfigView,
    views: Seq<CandidateView>,
    p: int,
    q: int,
    left: Seq<usize>,
    right: Seq<usize>,
)
    requires
        before.wf(),
        before.size() == views.len(),
        after.size() == before.size(),
        0 <= p < views.len(),
        0 <= q < views.len(),
        before.label@[p] != before.label@[q],
        left == before.members@[before.label@[p] as int]@,
        right == before.members@[before.label@[q] as int]@,
        forall|x: int, y: int|
            0 <= x < left.len() && 0 <= y < right.len() ==> decision_of(cfg, views[#[trigger] left[x] as int], views[#[trigger] right[y] as int])
                == Decision::Duplicate,
        forall|x: int| 0 <= x < before.size() ==> #[trigger] after.label@[x] == if before.label@[x] == before.label@[q] {
            before.label@[p]
        } else {
            before.label@[x]
        },
    ensures
        label_view(after.label@) == fuzzy_step(cfg, views, label_view(before.label@), (p, q)),
{
    let lab = label_view(before.label@);
    let g = lab[p];
    let h = lab[q];
    assert forall|x: int, y: int|
        0 <= x < views.len() && 0 <= y < views.len() && #[trigger] lab[x] == g && #[trigger] lab[y] == h implies decision_of(
        cfg,
        views[x],
        views[y],
    ) == Decision::Duplicate by {
        assert(before.members@[g]@.contains(x as usize));
        assert(before.members@[h]@.contains(y as usize));
        let xi = choose|xi: int| 0 <= xi < left.len() && left[xi] == x as usize;
        let yi = choose|yi: int| 0 <= yi < right.len() && right[yi] == y as usize;
        assert(decision_of(cfg, views[left[xi] as int], views[right[yi] as int]) == Decision::Duplicate);
    }
    assert(label_view(after.label@) =~= Seq::new(lab.len(), |x: int| if lab[x] == h { g } else { lab[x] }));
}

/// No greedy step joins two positions of one group, or of two groups that
/// hold a non-duplicate cross pair.
proof fn lemma_fuzzy_step_keep(groups: Groups, cfg: ConfigView, views: Seq<CandidateView>, p: int, q: int)
    requires
        groups.size() == views.len(),
        0 <= p < views.len(),
        0 <= q < views.len(),
        blocked(groups, cfg, views, p, q),
    ensures
        fuzzy_step(cfg, views, label_view(groups.label@), (p, q)) == label_view(groups.label@),
{
    let lab = label_view(groups.label@);
    if groups.label@[p] != groups.label@[q] {
        let (x, y) = choose|x: int, y: int|
            0 <= x < views.len() && 0 <= y < views.len() && #[trigger] groups.label@[x] == groups.label@[p] && #[trigger] groups.label@[y]
                == groups.label@[q] && decision_of(cfg, views[x], views[y]) != Decision::Duplicate;
        assert(lab[x] == lab[p] && lab[y] == lab[q]);
    }
}

/// Whether two positions share a group, or their groups hold two members
/// whose comparison is not a duplicate.
spec fn blocked(groups: Groups, cfg: ConfigView, views: Seq<CandidateView>, p: int, q: int) -> bool {
    ||| groups.label@[p] == groups.label@[q]
    ||| exists|x: int, y: int|
        0 <= x < views.len() && 0 <= y < views.len() && #[trigger] groups.label@[x] == groups.label@[p] && #[trigger] groups.label@[y]
            == groups.label@[q] && decision_of(cfg, views[x], views[y]) != Decision::Duplicate
}

/// Merging two groups keeps blocked pairs blocked.
proof fn lemma_blocked_union(
    before: Groups,
    after: Groups,
    g: int,
    h: int,
    cfg: ConfigView,
    views: Seq<CandidateView>,
    p: int,
    q: int,
)
    requires
        before.size() == views.len(),
        after.size() == before.size(),
        forall|x: int| 0 <= x < before.size() ==> #[trigger] after.label@[x] == if before.label@[x] == h {
            g as usize
        } else {
            before.label@[x]
        },
        0 <= p < views.len(),
        0 <= q < views.len(),
        blocked(before, cfg, views, p, q),
    ensures
        blocked(after, cfg, views, p, q),
{
    assert(after.label@[p] == if before.label@[p] == h { g as usize } else { before.label@[p] });
    assert(after.label@[q] == if before.label@[q] == h { g as usize } else { before.label@[q] });
    if before.label@[p] != before.label@[q] {
        let (x, y) = choose|x: int, y: int|
            0 <= x < views.len() && 0 <= y < views.len() && #[trigger] before.label@[x] == before.label@[p] && #[trigger] before.label@[y]
                == before.label@[q] && decision_of(cfg, views[x], views[y]) != Decision::Duplicate;
        assert(after.label@[x] == if before.label@[x] == h { g as usize } else { before.label@[x] });
        assert(after.label@[y] == if before.label@[y] == h { g as usize } else { before.label@[y] });
    }
}

impl crate::compare::Deduplicator {
    /// The decision for two positions, from the cache or a new comparison.
    fn decide(
        &self,
        batch: &Batch,
        a: usize,
        b: usize,
        cache: &mut Vec<Vec<(usize, Decision)>>,
        reviews: &mut Vec<(usize, usize, Comparison)>,
        count: usize,
    ) -> (r: (Decision, usize))
        requires
            batch.wf(self.policy()),
            a < batch.len(),
            b < batch.len(),
            cache_wf(old(cache)@, self.policy(), batch.views()),
            reviews_wf(old(reviews)@, self.policy(), batch.views()),
            cached(old(cache)@).finite(),
            count == capped(cached(old(cache)@).len()),
        ensures
            r.0 == decision_of(self.policy(), batch.views()[a as int], batch.views()[b as int]),
            r.1 >= count,
            cached(final(cache)@) == cached(old(cache)@).insert(ordered(a as int, b as int)),
            cached(final(cache)@).finite(),
            r.1 == capped(cached(final(cache)@).len()),
            cache_wf(final(cache)@, self.policy(), batch.views()),
            reviews_wf(final(reviews)@, self.policy(), batch.views()),
            reviews_grow(old(reviews)@, final(reviews)@),
    {
        let ghost cfg = self.policy();
        let ghost views = batch.views();
        let (lo, hi) = if a <= b {
            (a, b)
        } else {
            (b, a)
        };
        proof {
            lemma_decision_symmetric(cfg, views[a as int], views[b as int]);
        }
        match lookup(cache, lo, hi, Ghost(cfg), Ghost(views)) {
            Some(d) => (d, count),
            None => {
                let c = self.compare_positions(batch, lo, hi);
                let d = c.decision();
                proof {
                    lemma_decision_compared(cfg, views[lo as int], views[hi as int]);
                }
                remember(cache, lo, hi, d, Ghost(cfg), Ghost(views));
                if d == Decision::Review {
                    proof {
                        if lo == hi {
                            lemma_self_duplicate(cfg, views[lo as int]);
                        }
                    }
                    insert_review(reviews, lo, hi, c, Ghost(cfg), Ghost(views));
                }
                (d, count.saturating_add(1))
            },
        }
    }

    /// Merges the groups of each fuzzy edge, best score first, when every
    /// cross pair of their members is a duplicate.
    #[verifier::spinoff_prover]
    #[verifier::rlimit(40)]
    fn link_fuzzy(
        &self,
        batch: &Batch,
        groups: &mut Groups,
        edges: &Vec<(u16, usize, usize)>,
        cache: &mut Vec<Vec<(usize, Decision)>>,
        reviews: &mut Vec<(usize, usize, Comparison)>,
        count_in: usize,
        exact: Ghost<Seq<usize>>,
    ) -> (r: (usize, usize))
        requires
            batch.wf(self.policy()),
            fuzzy_invariant(*old(groups), exact@, self.policy(), batch.views(), self.policy().cross_source_only),
            edges_wf(edges@, self.policy(), batch.views()),
            cache_wf(old(cache)@, self.policy(), batch.views()),
            reviews_wf(old(reviews)@, self.policy(), batch.views()),
            exact_settled(*old(groups), self.policy(), batch.views(), self.policy().cross_source_only),
            cached(old(cache)@).finite(),
            count_in == capped(cached(old(cache)@).len()),
        ensures
            cached(final(cache)@).finite(),
            r.1 == capped(cached(final(cache)@).len()),
            cached(final(cache)@) == cached(old(cache)@).union(
                checked_pairs(self.policy(), batch.views(), label_view(old(groups).label@), edge_view(edges@)),
            ),
            fuzzy_invariant(*final(groups), exact@, self.policy(), batch.views(), self.policy().cross_source_only),
            exact_settled(*final(groups), self.policy(), batch.views(), self.policy().cross_source_only),
            reviews_grow(old(reviews)@, final(reviews)@),
            final(groups).roots().len() + r.0 == old(groups).roots().len(),
            label_view(final(groups).label@) == fuzzy_fold(self.policy(), batch.views(), label_view(old(groups).label@), edge_view(edges@)),
            r.1 >= count_in,
            cache_wf(final(cache)@, self.policy(), batch.views()),
            reviews_wf(final(reviews)@, self.policy(), batch.views()),
            forall|e: int|
                0 <= e < edges@.len() ==> blocked(
                    *final(groups),
                    self.policy(),
                    batch.views(),
                    (#[trigger] edges@[e]).1 as int,
                    edges@[e].2 as int,
                ),
    {
        let ghost cfg = self.policy();
        let ghost views = batch.views();
        let ghost n = batch.len();
        let ghost start = groups.roots().len();
        let ghost start_reviews = reviews@;
        let ghost start_label = label_view(groups.label@);
        let ghost start_cache = cached(cache@);
        proof {
            lemma_roots_bound(*groups);
        }
        let cross_source_only = self.config().cross_source_only();
        let mut merges: usize = 0;
        let mut count = count_in;
        let mut e: usize = 0;
        while e < edges.len()
            invariant
                batch.wf(cfg),
                cfg == self.policy(),
                views == batch.views(),
                n == batch.len(),
                cross_source_only == cfg.cross_source_only,
                fuzzy_invariant(*groups, exact@, cfg, views, cross_source_only),
                groups.roots().len() + merges == start,
                start <= n,
                edges_wf(edges@, cfg, views),
                cache_wf(cache@, cfg, views),
                reviews_wf(reviews@, cfg, views),
                count >= count_in,
                e <= edges@.len(),
                forall|e2: int| 0 <= e2 < e ==> blocked(*groups, cfg, views, (#[trigger] edges@[e2]).1 as int, edges@[e2].2 as int),
                exact_settled(*groups, cfg, views, cross_source_only),
                reviews_grow(start_reviews, reviews@),
                label_view(groups.label@) == fuzzy_fold(cfg, views, start_label, edge_view(edges@).take(e as int)),
                cached(cache@).finite(),
                count == capped(cached(cache@).len()),
                cached(cache@) == start_cache.union(checked_pairs(cfg, views, start_label, edge_view(edges@).take(e as int))),
            decreases edges.len() - e,
        {
            let ghost iter_start = *groups;
            let ghost iter_cache = cached(cache@);
            let (_, p, q) = edges[e];
            assert(p <= q < n);
            assert(edges@[e as int].1 == p && edges@[e as int].2 == q);
            let gp = groups.find(p);
            let gq = groups.find(q);
            if gp != gq {
                let left = groups.copy_members(gp);
                let right = groups.copy_members(gq);
                let mut complete = true;
                let mut i: usize = 0;
                assert(cross_done(left@, right@, 0, 0) =~= Set::<(int, int)>::empty());
                assert(cached(cache@) =~= iter_cache.union(cross_done(left@, right@, 0, 0)));
                while i < left.len()
                    invariant
                        batch.wf(cfg),
                        cfg == self.policy(),
                        views == batch.views(),
                        n == batch.len(),
                        groups.wf(),
                        groups.size() == n,
                        gp < n,
                        gq < n,
                        left@ == groups.members@[gp as int]@,
                        right@ == groups.members@[gq as int]@,
                        i <= left@.len(),
                        cache_wf(cache@, cfg, views),
                        cached(cache@).finite(),
                        count == capped(cached(cache@).len()),
                        cached(cache@) == iter_cache.union(cross_done(left@, right@, i as int, 0)),
                        reviews_wf(reviews@, cfg, views),
                        count >= count_in,
                        reviews_grow(start_reviews, reviews@),
                        complete ==> forall|x: int, y: int|
                            0 <= x < i && 0 <= y < right@.len() ==> decision_of(
                                cfg,
                                views[#[trigger] left@[x] as int],
                                views[#[trigger] right@[y] as int],
                            ) == Decision::Duplicate,
                        !complete ==> exists|x: int, y: int|
                            0 <= x < left@.len() && 0 <= y < right@.len() && decision_of(
                                cfg,
                                views[#[trigger] left@[x] as int],
                                views[#[trigger] right@[y] as int],
                            ) != Decision::Duplicate,
                    decreases left.len() - i,
                {
                    let mut j: usize = 0;
                    while j < right.len()
                        invariant
                            batch.wf(cfg),
                            cfg == self.policy(),
                            views == batch.views(),
                            n == batch.len(),
                            groups.wf(),
                            groups.size() == n,
                            gp < n,
                            gq < n,
                            left@ == groups.members@[gp as int]@,
                            right@ == groups.members@[gq as int]@,
                            i < left@.len(),
                            j <= right@.len(),
                            cache_wf(cache@, cfg, views),
                            cached(cache@).finite(),
                            count == capped(cached(cache@).len()),
                            cached(cache@) == iter_cache.union(cross_done(left@, right@, i as int, j as int)),
                            reviews_wf(reviews@, cfg, views),
                            count >= count_in,
                            reviews_grow(start_reviews, reviews@),
                            complete ==> forall|x: int, y: int|
                                0 <= x < i && 0 <= y < right@.len() ==> decision_of(
                                    cfg,
                                    views[#[trigger] left@[x] as int],
                                    views[#[trigger] right@[y] as int],
                                ) == Decision::Duplicate,
                            complete ==> forall|y: int|
                                0 <= y < j ==> decision_of(cfg, views[left@[i as int] as int], views[#[trigger] right@[y] as int])
                                    == Decision::Duplicate,
                            !complete ==> exists|x: int, y: int|
                                0 <= x < left@.len() && 0 <= y < right@.len() && decision_of(
                                    cfg,
                                    views[#[trigger] left@[x] as int],
                                    views[#[trigger] right@[y] as int],
                                ) != Decision::Duplicate,
                        decreases right.len() - j,
                    {
                        let a = left[i];
                        let b = right[j];
                        assert(a < n && b < n);
                        let ghost before_reviews = reviews@;
                        let (d, next) = self.decide(batch, a, b, cache, reviews, count);
                        proof {
                            lemma_reviews_grow_trans(start_reviews, before_reviews, reviews@);
                            lemma_cross_done_step(left@, right@, i as int, j as int);
                            assert(cached(cache@) =~= iter_cache.union(cross_done(left@, right@, i as int, j + 1)));
                        }
                        count = next;
                        if d != Decision::Duplicate {
                            complete = false;
                            assert(decision_of(cfg, views[left@[i as int] as int], views[right@[j as int] as int]) != Decision::Duplicate);
                        }
                        j = j + 1;
                    }
                    proof {
                        lemma_cross_done_row(left@, right@, i as int);
                    }
                    i = i + 1;
                }
                proof {
                    lemma_cross_done_all(*groups, views, batch.keys@, p as int, q as int, left@, right@);
                }
                if complete {
                    let ghost before = *groups;
                    proof {
                        assert(before.roots().contains(gp as int));
                        assert(before.roots().contains(gq as int));
                        lemma_roots_remove(before.roots(), gq as int, gp as int);
                    }
                    groups.union(gp, gq);
                    proof {
                        lemma_fuzzy_step_merge(before, *groups, cfg, views, p as int, q as int, left@, right@);
                        assert forall|x: int, y: int|
                            0 <= x < n && 0 <= y < n && #[trigger] exact@[x] == #[trigger] exact@[y] implies groups.label@[x]
                                == groups.label@[y] by {
                            assert(before.label@[x] == before.label@[y]);
                        }
                        assert forall|x: int, y: int|
                            0 <= x < n && 0 <= y < n && #[trigger] groups.label@[x] == #[trigger] groups.label@[y] implies exact@[x]
                                == exact@[y] || decision_of(cfg, views[x], views[y]) == Decision::Duplicate by {
                            let lx = before.label@[x];
                            let ly = before.label@[y];
                            if lx != ly {
                                if lx == gp {
                                    assert(ly == gq);
                                    assert(left@.contains(x as usize));
                                    assert(right@.contains(y as usize));
                                    let xi = choose|xi: int| 0 <= xi < left@.len() && left@[xi] == x as usize;
                                    let yi = choose|yi: int| 0 <= yi < right@.len() && right@[yi] == y as usize;
                                    assert(decision_of(cfg, views[left@[xi] as int], views[right@[yi] as int]) == Decision::Duplicate);
                                } else {
                                    assert(lx == gq && ly == gp);
                                    assert(left@.contains(y as usize));
                                    assert(right@.contains(x as usize));
                                    let yi = choose|yi: int| 0 <= yi < left@.len() && left@[yi] == y as usize;
                                    let xi = choose|xi: int| 0 <= xi < right@.len() && right@[xi] == x as usize;
                                    assert(decision_of(cfg, views[left@[yi] as int], views[right@[xi] as int]) == Decision::Duplicate);
                                    lemma_decision_symmetric(cfg, views[x], views[y]);
                                }
                            }
                        }
                        if cross_source_only {
                            assert forall|x: int, y: int|
                                0 <= x < n && 0 <= y < n && x != y && #[trigger] groups.label@[x] == #[trigger] groups.label@[y]
                                    implies views[x].origin.source != views[y].origin.source by {
                                let lx = before.label@[x];
                                let ly = before.label@[y];
                                if lx != ly {
                                    assert(exact@[x] == exact@[y] || decision_of(cfg, views[x], views[y]) == Decision::Duplicate);
                                    if x < y {
                                        assert(byte_sign(batch.keys@[x]@, batch.keys@[y]@) < 0);
                                        lemma_byte_antisym(batch.keys@[x]@, batch.keys@[y]@);
                                    } else {
                                        assert(byte_sign(batch.keys@[y]@, batch.keys@[x]@) < 0);
                                        lemma_byte_antisym(batch.keys@[y]@, batch.keys@[x]@);
                                    }
                                    if decision_of(cfg, views[x], views[y]) == Decision::Duplicate {
                                        lemma_duplicate_sources(cfg, views[x], views[y]);
                                    } else {
                                        // The two came from the two merged groups, whose cross
                                        // pairs were all checked.
                                        if lx == gp {
                                            assert(left@.contains(x as usize));
                                            assert(right@.contains(y as usize));
                                            let xi = choose|xi: int| 0 <= xi < left@.len() && left@[xi] == x as usize;
                                            let yi = choose|yi: int| 0 <= yi < right@.len() && right@[yi] == y as usize;
                                            assert(decision_of(cfg, views[left@[xi] as int], views[right@[yi] as int]) == Decision::Duplicate);
                                        } else {
                                            assert(left@.contains(y as usize));
                                            assert(right@.contains(x as usize));
                                            let yi = choose|yi: int| 0 <= yi < left@.len() && left@[yi] == y as usize;
                                            let xi = choose|xi: int| 0 <= xi < right@.len() && right@[xi] == x as usize;
                                            assert(decision_of(cfg, views[left@[yi] as int], views[right@[xi] as int]) == Decision::Duplicate);
                                            lemma_decision_symmetric(cfg, views[x], views[y]);
                                        }
                                    }
                                }
                            }
                        }
                    }
                    proof {
                        assert(exact_settled(*groups, cfg, views, cross_source_only)) by {
                            lemma_union_coarsens(before, *groups, gp as int, gq as int);
                            lemma_exact_settled_coarsen(before, *groups, cfg, views, cross_source_only);
                        }
                        assert forall|e2: int| 0 <= e2 < e + 1 implies blocked(
                            *groups,
                            cfg,
                            views,
                            (#[trigger] edges@[e2]).1 as int,
                            edges@[e2].2 as int,
                        ) by {
                            if e2 < e {
                                lemma_blocked_union(before, *groups, gp as int, gq as int, cfg, views, edges@[e2].1 as int, edges@[e2].2 as int);
                            } else {
                                assert(groups.label@[p as int] == groups.label@[q as int]);
                            }
                        }
                    }
                    merges = merges + 1;
                } else {
                    proof {
                        let (x, y) = choose|x: int, y: int|
                            0 <= x < left@.len() && 0 <= y < right@.len() && decision_of(
                                cfg,
                                views[#[trigger] left@[x] as int],
                                views[#[trigger] right@[y] as int],
                            ) != Decision::Duplicate;
                        let a = left@[x];
                        let b = right@[y];
                        assert(groups.members@[gp as int]@.contains(a));
                        assert(groups.members@[gq as int]@.contains(b));
                        assert(groups.label@[a as int] == groups.label@[p as int]);
                        assert(groups.label@[b as int] == groups.label@[q as int]);
                        assert(blocked(*groups, cfg, views, p as int, q as int));
                        lemma_fuzzy_step_keep(*groups, cfg, views, p as int, q as int);
                    }
                }
            }
            proof {
                if gp == gq {
                    lemma_fuzzy_step_keep(*groups, cfg, views, p as int, q as int);
                    assert(cross_pairs(views, label_view(iter_start.label@), (p as int, q as int)) =~= Set::<(int, int)>::empty());
                }
                assert(cached(cache@) == iter_cache.union(cross_pairs(views, label_view(iter_start.label@), (p as int, q as int))));
                assert(label_view(groups.label@) == fuzzy_step(cfg, views, label_view(iter_start.label@), (p as int, q as int)));
                let ev = edge_view(edges@);
                assert(ev.take(e + 1).drop_last() =~= ev.take(e as int));
                assert(ev.take(e + 1).last() == (p as int, q as int));
                assert(cached(cache@) =~= start_cache.union(checked_pairs(cfg, views, start_label, ev.take(e + 1))));
            }
            e = e + 1;
        }
        assert(edge_view(edges@).take(edges@.len() as int) =~= edge_view(edges@));
        assert(cached(cache@) =~= start_cache.union(checked_pairs(cfg, views, start_label, edge_view(edges@))));
        (merges, count)
    }
}

// ---------------------------------------------------------------------------
// Output.
// ---------------------------------------------------------------------------

/// The keys of member positions.
spec fn member_keys(members: Seq<usize>, keys: Seq<OccurrenceKey>) -> Seq<Seq<u8>> {
    Seq::new(members.len(), |k: int| keys[members[k] as int]@)
}

/// Emits one cluster per group, at the group's first position, so that
/// clusters come in order of their first member.
fn build_clusters(groups: &Groups, keys: &Vec<OccurrenceKey>) -> (r: (Vec<Cluster>, Ghost<Seq<int>>, Ghost<Seq<int>>))
    requires
        groups.wf(),
        keys@.len() == groups.size(),
    ensures
        r.1@.len() == r.0@.len(),
        r.1@.no_duplicates(),
        forall|c: int| 0 <= c < r.1@.len() ==> 0 <= #[trigger] r.1@[c] < groups.size() && groups.label@[r.1@[c]] == r.1@[c]
            && groups.members@[r.1@[c]]@.len() > 0 && r.0@[c]@ == member_keys(groups.members@[r.1@[c]]@, keys@),
        r.2@.len() == groups.size(),
        forall|p: int| 0 <= p < groups.size() ==> 0 <= #[trigger] r.2@[p] < r.1@.len() && r.1@[r.2@[p]] == groups.label@[p],
        forall|c1: int, c2: int|
            0 <= c1 < c2 < r.1@.len() ==> groups.members@[#[trigger] r.1@[c1]]@[0] < groups.members@[#[trigger] r.1@[c2]]@[0],
{
    let ghost n = groups.size();
    let mut clusters: Vec<Cluster> = Vec::new();
    let ghost mut roots: Seq<int> = Seq::empty();
    let ghost mut slot: Seq<int> = Seq::empty();
    let mut p: usize = 0;
    while p < keys.len()
        invariant
            groups.wf(),
            n == groups.size(),
            keys@.len() == n,
            p <= n,
            roots.len() == clusters@.len(),
            roots.no_duplicates(),
            forall|c: int| 0 <= c < roots.len() ==> 0 <= #[trigger] roots[c] < n && groups.label@[roots[c]] == roots[c]
                && groups.members@[roots[c]]@.len() > 0 && clusters@[c]@ == member_keys(groups.members@[roots[c]]@, keys@)
                && groups.members@[roots[c]]@[0] < p,
            slot.len() == p,
            forall|q: int| 0 <= q < p ==> 0 <= #[trigger] slot[q] < roots.len() && roots[slot[q]] == groups.label@[q],
            forall|c1: int, c2: int|
                0 <= c1 < c2 < roots.len() ==> groups.members@[#[trigger] roots[c1]]@[0] < groups.members@[#[trigger] roots[c2]]@[0],
        decreases n - p,
    {
        let g = groups.find(p);
        let members = &groups.members[g];
        proof {
            assert(groups.members@[g as int]@.contains(p));
            let k = choose|k: int| 0 <= k < members@.len() && members@[k] == p;
            if k > 0 {
                assert(members@[0] < members@[k]);
            }
            assert(members@.contains(members@[0]));
            assert(groups.label@[members@[0] as int] == g);
        }
        if members[0] == p {
            let mut out: Vec<OccurrenceKey> = Vec::new();
            let mut k: usize = 0;
            while k < members.len()
                invariant
                    groups.wf(),
                    n == groups.size(),
                    keys@.len() == n,
                    g < n,
                    members == &groups.members@[g as int],
                    k <= members@.len(),
                    occurrence_views(out@) =~= member_keys(members@.take(k as int), keys@),
                decreases members.len() - k,
            {
                let m = members[k];
                assert(m < n);
                let ghost before = occurrence_views(out@);
                out.push(keys[m]);
                assert(occurrence_views(out@) =~= before.push(keys@[m as int]@));
                assert(member_keys(members@.take(k + 1), keys@) =~= member_keys(members@.take(k as int), keys@).push(
                    keys@[m as int]@,
                ));
                k = k + 1;
            }
            assert(members@.take(members@.len() as int) =~= members@);
            let ghost old_roots = roots;
            let ghost old_slot = slot;
            clusters.push(Cluster { members: out });
            proof {
                roots = roots.push(g as int);
                slot = slot.push(old_roots.len() as int);
                assert forall|c: int| 0 <= c < roots.len() implies 0 <= #[trigger] roots[c] < n && groups.label@[roots[c]] == roots[c]
                    && groups.members@[roots[c]]@.len() > 0 && clusters@[c]@ == member_keys(groups.members@[roots[c]]@, keys@)
                    && groups.members@[roots[c]]@[0] < p + 1 by {
                    if c < old_roots.len() {
                        assert(roots[c] == old_roots[c]);
                    }
                }
                assert forall|i: int, j: int| 0 <= i < roots.len() && 0 <= j < roots.len() && i != j implies roots[i] != roots[j] by {
                    if i < old_roots.len() && j < old_roots.len() {
                        assert(old_roots.no_duplicates());
                    } else if i == old_roots.len() {
                        assert(groups.members@[roots[j]]@[0] < p);
                    } else {
                        assert(groups.members@[roots[i]]@[0] < p);
                    }
                }
                assert forall|q: int| 0 <= q < p + 1 implies 0 <= #[trigger] slot[q] < roots.len() && roots[slot[q]] == groups.label@[q] by {
                    if q < p {
                        assert(slot[q] == old_slot[q]);
                        assert(roots[old_slot[q]] == old_roots[old_slot[q]]);
                    }
                }
                assert forall|c1: int, c2: int| 0 <= c1 < c2 < roots.len() implies groups.members@[#[trigger] roots[c1]]@[0]
                    < groups.members@[#[trigger] roots[c2]]@[0] by {
                    if c2 < old_roots.len() {
                        assert(roots[c1] == old_roots[c1] && roots[c2] == old_roots[c2]);
                    } else {
                        assert(roots[c1] == old_roots[c1]);
                    }
                }
            }
        } else {
            proof {
                let q = members@[0] as int;
                assert(q < p) by {
                    let k = choose|k: int| 0 <= k < members@.len() && members@[k] == p;
                    if k > 0 {
                        assert(members@[0] < members@[k]);
                    }
                }
                assert(groups.label@[q] == g);
                let ghost old_slot = slot;
                slot = slot.push(old_slot[q]);
                assert forall|q2: int| 0 <= q2 < p + 1 implies 0 <= #[trigger] slot[q2] < roots.len() && roots[slot[q2]] == groups.label@[q2] by {
                    if q2 < p {
                        assert(slot[q2] == old_slot[q2]);
                    }
                }
            }
        }
        p = p + 1;
    }
    (clusters, Ghost(roots), Ghost(slot))
}

/// Keeps the review pairs whose positions ended in different groups, in order.
fn retained_reviews(reviews: &Vec<(usize, usize, Comparison)>, groups: &Groups) -> (r: (Vec<Comparison>, Ghost<Seq<int>>))
    requires
        groups.wf(),
        forall|i: int| 0 <= i < reviews@.len() ==> (#[trigger] reviews@[i]).0 < groups.size() && reviews@[i].1 < groups.size(),
    ensures
        r.1@.len() == r.0@.len(),
        forall|k: int|
            0 <= k < r.0@.len() ==> 0 <= #[trigger] r.1@[k] < reviews@.len() && r.0@[k]@ == reviews@[r.1@[k]].2@
                && groups.label@[reviews@[r.1@[k]].0 as int] != groups.label@[reviews@[r.1@[k]].1 as int],
        forall|k1: int, k2: int| 0 <= k1 < k2 < r.0@.len() ==> #[trigger] r.1@[k1] < #[trigger] r.1@[k2],
        forall|j: int|
            0 <= j < reviews@.len() && groups.label@[(#[trigger] reviews@[j]).0 as int] != groups.label@[reviews@[j].1 as int]
                ==> exists|k: int| 0 <= k < r.1@.len() && r.1@[k] == j,
{
    let mut out: Vec<Comparison> = Vec::new();
    let ghost mut idx: Seq<int> = Seq::empty();
    let mut i: usize = 0;
    while i < reviews.len()
        invariant
            groups.wf(),
            forall|j: int| 0 <= j < reviews@.len() ==> (#[trigger] reviews@[j]).0 < groups.size() && reviews@[j].1 < groups.size(),
            i <= reviews@.len(),
            idx.len() == out@.len(),
            forall|k: int|
                0 <= k < out@.len() ==> 0 <= #[trigger] idx[k] < i && out@[k]@ == reviews@[idx[k]].2@ && groups.label@[reviews@[idx[k]].0 as int]
                    != groups.label@[reviews@[idx[k]].1 as int],
            forall|k1: int, k2: int| 0 <= k1 < k2 < out@.len() ==> #[trigger] idx[k1] < #[trigger] idx[k2],
            forall|j: int|
                0 <= j < i && groups.label@[(#[trigger] reviews@[j]).0 as int] != groups.label@[reviews@[j].1 as int] ==> exists|k: int|
                    0 <= k < idx.len() && idx[k] == j,
        decreases reviews.len() - i,
    {
        let (p, q) = (reviews[i].0, reviews[i].1);
        assert(p < groups.size() && q < groups.size());
        if groups.find(p) != groups.find(q) {
            let ghost old_idx = idx;
            out.push(reviews[i].2.clone());
            proof {
                idx = idx.push(i as int);
                assert forall|k: int|
                    0 <= k < out@.len() implies 0 <= #[trigger] idx[k] < i + 1 && out@[k]@ == reviews@[idx[k]].2@ && groups.label@[reviews@[idx[k]].0 as int]
                        != groups.label@[reviews@[idx[k]].1 as int] by {
                    if k < old_idx.len() {
                        assert(idx[k] == old_idx[k]);
                    }
                }
                assert forall|k1: int, k2: int| 0 <= k1 < k2 < out@.len() implies #[trigger] idx[k1] < #[trigger] idx[k2] by {
                    if k2 < old_idx.len() {
                        assert(idx[k1] == old_idx[k1] && idx[k2] == old_idx[k2]);
                    } else {
                        assert(idx[k1] == old_idx[k1]);
                    }
                }
                assert forall|j: int|
                    0 <= j < i + 1 && groups.label@[(#[trigger] reviews@[j]).0 as int] != groups.label@[reviews@[j].1 as int] implies exists|k: int|
                        0 <= k < idx.len() && idx[k] == j by {
                    if j < i {
                        let k = choose|k: int| 0 <= k < old_idx.len() && old_idx[k] == j;
                        assert(idx[k] == j);
                    } else {
                        assert(idx[old_idx.len() as int] == j);
                    }
                }
            }
        }
        i = i + 1;
    }
    (out, Ghost(idx))
}

// ---------------------------------------------------------------------------
// What a clustering result is.
// ---------------------------------------------------------------------------

/// The views of the input candidates.
pub open spec fn input_views(c: Seq<Candidate>) -> Seq<CandidateView> {
    Seq::new(c.len(), |i: int| c[i]@)
}

/// The occurrence keys of candidates.
pub open spec fn input_keys(cs: Seq<CandidateView>) -> Seq<Seq<u8>> {
    Seq::new(cs.len(), |i: int| occurrence_key_of(cs[i]))
}

/// Whether each cluster is non-empty and strictly sorted.
pub open spec fn clusters_sorted(clusters: Seq<Seq<Seq<u8>>>) -> bool {
    forall|c: int| 0 <= c < clusters.len() ==> (#[trigger] clusters[c]).len() > 0 && keys_sorted(clusters[c])
}

/// Whether clusters are strictly ordered by their first member.
pub open spec fn clusters_ordered(clusters: Seq<Seq<Seq<u8>>>) -> bool {
    forall|c1: int, c2: int|
        0 <= c1 < c2 < clusters.len() ==> byte_sign((#[trigger] clusters[c1])[0], (#[trigger] clusters[c2])[0]) < 0
}

/// Whether some cluster holds a key.
pub open spec fn in_some_cluster(clusters: Seq<Seq<Seq<u8>>>, k: Seq<u8>) -> bool {
    exists|c: int| 0 <= c < clusters.len() && #[trigger] clusters[c].contains(k)
}

/// Whether every key is in some cluster.
pub open spec fn clusters_cover(clusters: Seq<Seq<Seq<u8>>>, ks: Seq<Seq<u8>>) -> bool {
    forall|i: int| 0 <= i < ks.len() ==> in_some_cluster(clusters, #[trigger] ks[i])
}

/// Whether clusters hold nothing but keys.
pub open spec fn clusters_within(clusters: Seq<Seq<Seq<u8>>>, ks: Seq<Seq<u8>>) -> bool {
    forall|c: int, m: int| 0 <= c < clusters.len() && 0 <= m < clusters[c].len() ==> ks.contains(#[trigger] clusters[c][m])
}

/// Whether no key is in two clusters.
pub open spec fn clusters_disjoint(clusters: Seq<Seq<Seq<u8>>>) -> bool {
    forall|c1: int, c2: int, k: Seq<u8>|
        0 <= c1 < clusters.len() && 0 <= c2 < clusters.len() && c1 != c2 && #[trigger] clusters[c1].contains(k)
            ==> !#[trigger] clusters[c2].contains(k)
}

/// Whether clusters partition the input keys: each cluster non-empty and
/// strictly sorted, clusters ordered by first member, every input key in
/// exactly one cluster, and nothing else in any cluster.
pub open spec fn clusters_partition(clusters: Seq<Seq<Seq<u8>>>, ks: Seq<Seq<u8>>) -> bool {
    &&& clusters_sorted(clusters)
    &&& clusters_ordered(clusters)
    &&& clusters_cover(clusters, ks)
    &&& clusters_within(clusters, ks)
    &&& clusters_disjoint(clusters)
}

/// Whether two keys are members of one cluster.
pub open spec fn same_cluster(clusters: Seq<Seq<Seq<u8>>>, a: Seq<u8>, b: Seq<u8>) -> bool {
    exists|c: int| 0 <= c < clusters.len() && #[trigger] clusters[c].contains(a) && clusters[c].contains(b)
}

/// Under the cross-source policy no cluster holds two occurrences of one source.
pub open spec fn clusters_cross_source(cfg: ConfigView, clusters: Seq<Seq<Seq<u8>>>, cs: Seq<CandidateView>) -> bool {
    cfg.cross_source_only ==> forall|i: int, j: int|
        0 <= i < cs.len() && 0 <= j < cs.len() && i != j && same_cluster(clusters, #[trigger] input_keys(cs)[i], #[trigger] input_keys(cs)[j])
            ==> cs[i].origin.source != cs[j].origin.source
}

/// Complete link: two members of one cluster are joined by a chain of shared
/// exact keys, or their own comparison is a duplicate.
pub open spec fn clusters_complete_link(cfg: ConfigView, clusters: Seq<Seq<Seq<u8>>>, cs: Seq<CandidateView>) -> bool {
    forall|i: int, j: int|
        0 <= i < cs.len() && 0 <= j < cs.len() && same_cluster(clusters, #[trigger] input_keys(cs)[i], #[trigger] input_keys(cs)[j])
            ==> key_linked(cfg, cs, cs[i], cs[j]) || decision_of(cfg, cs[i], cs[j]) == Decision::Duplicate
}

/// Without the cross-source policy, candidates that share an exact
/// correlation key end in one cluster.
pub open spec fn clusters_exact_merged(cfg: ConfigView, clusters: Seq<Seq<Seq<u8>>>, cs: Seq<CandidateView>) -> bool {
    !cfg.cross_source_only ==> forall|i: int, j: int|
        0 <= i < cs.len() && 0 <= j < cs.len() && shares_correlation_key(cfg, #[trigger] cs[i], #[trigger] cs[j]) ==> same_cluster(
            clusters,
            input_keys(cs)[i],
            input_keys(cs)[j],
        )
}

/// Review pairs are review comparisons of input candidates left in different
/// clusters, strictly ordered by their key pair.
pub open spec fn reviews_valid(
    cfg: ConfigView,
    reviews: Seq<ComparisonView>,
    clusters: Seq<Seq<Seq<u8>>>,
    cs: Seq<CandidateView>,
) -> bool {
    &&& forall|r: int|
        0 <= r < reviews.len() ==> exists|i: int, j: int|
            0 <= i < cs.len() && 0 <= j < cs.len() && #[trigger] reviews[r] == compared(cfg, cs[i], cs[j])
                && !same_cluster(clusters, input_keys(cs)[i], input_keys(cs)[j])
    &&& forall|r: int| 0 <= r < reviews.len() ==> (#[trigger] reviews[r]).decision == Decision::Review
    &&& forall|r1: int, r2: int|
        0 <= r1 < r2 < reviews.len() ==> byte_sign((#[trigger] reviews[r1]).left, (#[trigger] reviews[r2]).left) < 0 || (
        reviews[r1].left == reviews[r2].left && byte_sign(reviews[r1].right, reviews[r2].right) < 0)
}

/// The counters agree with the result: every input counted, every merge
/// removing one cluster, and every candidate pair compared.
pub open spec fn stats_valid(stats: ClusterStats, n: nat, cluster_count: nat) -> bool {
    &&& stats.candidates() == n
    &&& stats.clusters() == cluster_count
    &&& stats.exact_merges() + stats.fuzzy_merges() + stats.clusters() == n
    &&& stats.comparisons() >= stats.candidate_pairs()
}

/// Whether `ks` lists the oversized blocks of one kind over candidates: in
/// block-key order, each key once, each an oversized block, and every
/// oversized block listed.
pub open spec fn oversized_listing(kind: BlockKind, cs: Seq<CandidateView>, limit: usize, ks: Seq<BlockKeyView>) -> bool {
    &&& ks.no_duplicates()
    &&& forall|x: int, y: int| 0 <= x < y < ks.len() ==> block_key_sign(#[trigger] ks[x], #[trigger] ks[y]) < 0
    &&& forall|x: int| 0 <= x < ks.len() ==> oversized(block_size(kind, cs, #[trigger] ks[x]), limit)
    &&& forall|i: int, t: int|
        0 <= i < cs.len() && 0 <= t < block_keys_of(kind, cs[i]).len() && oversized(
            block_size(kind, cs, block_keys_of(kind, cs[i])[t]),
            limit,
        ) ==> ks.contains(#[trigger] block_keys_of(kind, cs[i])[t])
}

/// The warnings for a listing of oversized blocks.
pub open spec fn listing_warnings(kind: BlockKind, cs: Seq<CandidateView>, limit: usize, ks: Seq<BlockKeyView>) -> Seq<ClusterWarning> {
    Seq::new(ks.len(), |x: int| ClusterWarning::OversizedBlock { kind, size: block_size(kind, cs, ks[x]) as usize, limit })
}

/// Whether no block of one kind is oversized.
pub open spec fn blocks_fit(kind: BlockKind, cs: Seq<CandidateView>, limit: usize) -> bool {
    forall|i: int, t: int|
        0 <= i < cs.len() && 0 <= t < block_keys_of(kind, cs[i]).len() ==> !oversized(
            block_size(kind, cs, #[trigger] block_keys_of(kind, cs[i])[t]),
            limit,
        )
}

/// Whether the first oversized block of one kind, in block-key order, has
/// exactly `size` entries.
pub open spec fn first_oversized_block(kind: BlockKind, cs: Seq<CandidateView>, limit: usize, size: usize) -> bool {
    exists|ks: Seq<BlockKeyView>|
        #[trigger] oversized_listing(kind, cs, limit, ks) && ks.len() > 0 && block_size(kind, cs, ks[0]) == size
}

/// The warnings of a run: under the warning policy, one per oversized block,
/// the issue blocks' first; under the error policy none, and no block is
/// oversized.
pub open spec fn warnings_exact(cfg: ConfigView, cs: Seq<CandidateView>, warnings: Seq<ClusterWarning>) -> bool {
    let limit = cfg.max_block_size;
    if cfg.oversized_block_policy == OversizedBlockPolicy::ExactOnlyAndWarn {
        exists|ik: Seq<BlockKeyView>, sk: Seq<BlockKeyView>|
            oversized_listing(BlockKind::Issue, cs, limit, ik) && oversized_listing(BlockKind::Subject, cs, limit, sk) && warnings
                == #[trigger] listing_warnings(BlockKind::Issue, cs, limit, ik) + #[trigger] listing_warnings(
                BlockKind::Subject,
                cs,
                limit,
                sk,
            )
    } else {
        warnings.len() == 0 && blocks_fit(BlockKind::Issue, cs, limit) && blocks_fit(BlockKind::Subject, cs, limit)
    }
}

/// Exact merges go as far as the source policy allows: candidates that
/// share an exact correlation key end in one cluster, unless, under the
/// cross-source policy, their two clusters hold two occurrences of one source.
pub open spec fn clusters_exact_settled(cfg: ConfigView, clusters: Seq<Seq<Seq<u8>>>, cs: Seq<CandidateView>) -> bool {
    forall|i: int, j: int|
        0 <= i < cs.len() && 0 <= j < cs.len() && shares_correlation_key(cfg, #[trigger] cs[i], #[trigger] cs[j]) ==> same_cluster(
            clusters,
            input_keys(cs)[i],
            input_keys(cs)[j],
        ) || (cfg.cross_source_only && exists|x: int, y: int|
            0 <= x < cs.len() && 0 <= y < cs.len() && x != y && #[trigger] same_cluster(clusters, input_keys(cs)[i], input_keys(cs)[x])
                && #[trigger] same_cluster(clusters, input_keys(cs)[j], input_keys(cs)[y]) && cs[x].origin.source
                == cs[y].origin.source)
}

/// Whether two occurrences (the same one through two of its keys) share a
/// key of one kind whose block is within the limit.
pub open spec fn shares_fitting_block(kind: BlockKind, cs: Seq<CandidateView>, limit: usize, i: int, j: int) -> bool {
    exists|t1: int, t2: int|
        0 <= t1 < block_keys_of(kind, cs[i]).len() && 0 <= t2 < block_keys_of(kind, cs[j]).len() && #[trigger] block_keys_of(
            kind,
            cs[i],
        )[t1] == #[trigger] block_keys_of(kind, cs[j])[t2] && (i != j || t1 != t2) && !oversized(
            block_size(kind, cs, block_keys_of(kind, cs[i])[t1]),
            limit,
        )
}

/// Whether two inputs form a candidate pair: they share an issue block or a
/// subject block within the limit.
pub open spec fn candidate_pair(cfg: ConfigView, cs: Seq<CandidateView>, i: int, j: int) -> bool {
    shares_fitting_block(BlockKind::Issue, cs, cfg.max_block_size, i, j) || shares_fitting_block(
        BlockKind::Subject,
        cs,
        cfg.max_block_size,
        i,
        j,
    )
}

/// The candidate pairs of inputs, each once: the lower occurrence key
/// first, and an input paired with itself when two of its keys share a block.
pub open spec fn candidate_pairs_of(cfg: ConfigView, cs: Seq<CandidateView>) -> Set<(int, int)> {
    Set::new(
        |ij: (int, int)|
            0 <= ij.0 < cs.len() && 0 <= ij.1 < cs.len() && byte_sign(input_keys(cs)[ij.0], input_keys(cs)[ij.1]) <= 0
                && candidate_pair(cfg, cs, ij.0, ij.1),
    )
}

/// Fuzzy merges go as far as complete link allows: a candidate pair that is
/// an automatic fuzzy duplicate ends in one cluster, unless the two clusters
/// hold members whose own comparison is not a duplicate.
pub open spec fn clusters_fuzzy_maximal(cfg: ConfigView, clusters: Seq<Seq<Seq<u8>>>, cs: Seq<CandidateView>) -> bool {
    forall|i: int, j: int|
        0 <= i < cs.len() && 0 <= j < cs.len() && #[trigger] candidate_pair(cfg, cs, i, j) && fuzzy_duplicate(cfg, cs[i], cs[j])
            ==> same_cluster(clusters, input_keys(cs)[i], input_keys(cs)[j]) || exists|x: int, y: int|
            0 <= x < cs.len() && 0 <= y < cs.len() && #[trigger] same_cluster(clusters, input_keys(cs)[i], input_keys(cs)[x])
                && #[trigger] same_cluster(clusters, input_keys(cs)[j], input_keys(cs)[y]) && decision_of(cfg, cs[x], cs[y])
                != Decision::Duplicate
}

/// Every candidate pair whose comparison calls for review and whose members
/// end in different clusters is reported for review.
pub open spec fn reviews_complete(
    cfg: ConfigView,
    reviews: Seq<ComparisonView>,
    clusters: Seq<Seq<Seq<u8>>>,
    cs: Seq<CandidateView>,
) -> bool {
    forall|i: int, j: int|
        0 <= i < cs.len() && 0 <= j < cs.len() && #[trigger] candidate_pair(cfg, cs, i, j) && compared(cfg, cs[i], cs[j]).decision
            == Decision::Review && !same_cluster(clusters, input_keys(cs)[i], input_keys(cs)[j]) ==> exists|r: int|
            0 <= r < reviews.len() && reviews[r] == compared(cfg, cs[i], cs[j])
}

/// Whether fuzzy edge `e1` between inputs is taken before `e2`: the higher
/// ranking score first, then the lower first key, then the lower second key.
pub open spec fn edge_before(cfg: ConfigView, cs: Seq<CandidateView>, e1: (int, int), e2: (int, int)) -> bool {
    let s1 = edge_score(cfg, cs[e1.0], cs[e1.1]);
    let s2 = edge_score(cfg, cs[e2.0], cs[e2.1]);
    let ks = input_keys(cs);
    ||| s1 > s2
    ||| s1 == s2 && byte_sign(ks[e1.0], ks[e2.0]) < 0
    ||| s1 == s2 && e1.0 == e2.0 && byte_sign(ks[e1.1], ks[e2.1]) < 0
}

/// The fuzzy edges of a run in the order they are taken: every candidate
/// pair, lower key first, that compares as an automatic fuzzy duplicate,
/// and nothing else, strictly ranked by `edge_before`.
pub open spec fn fuzzy_edges_ranked(cfg: ConfigView, cs: Seq<CandidateView>, edges: Seq<(int, int)>) -> bool {
    &&& forall|e: int|
        0 <= e < edges.len() ==> 0 <= (#[trigger] edges[e]).0 < cs.len() && 0 <= edges[e].1 < cs.len() && byte_sign(
            input_keys(cs)[edges[e].0],
            input_keys(cs)[edges[e].1],
        ) <= 0 && candidate_pair(cfg, cs, edges[e].0, edges[e].1) && fuzzy_duplicate(cfg, cs[edges[e].0], cs[edges[e].1])
    &&& forall|i: int, j: int|
        0 <= i < cs.len() && 0 <= j < cs.len() && byte_sign(input_keys(cs)[i], input_keys(cs)[j]) <= 0 && #[trigger] candidate_pair(
            cfg,
            cs,
            i,
            j,
        ) && fuzzy_duplicate(cfg, cs[i], cs[j]) ==> edges.contains((i, j))
    &&& forall|e1: int, e2: int| 0 <= e1 < e2 < edges.len() ==> edge_before(cfg, cs, #[trigger] edges[e1], #[trigger] edges[e2])
}

/// A grouping of the inputs as the exact phase may leave it: members of one
/// group are joined by a chain of shared exact keys; under the cross-source
/// policy they come from distinct sources; inputs that share an exact key
/// share a group unless, under that policy, their two groups hold two
/// occurrences of one source.
pub open spec fn exact_grouping(cfg: ConfigView, cs: Seq<CandidateView>, exact: Seq<int>) -> bool {
    &&& exact.len() == cs.len()
    &&& forall|i: int, j: int|
        0 <= i < cs.len() && 0 <= j < cs.len() && #[trigger] exact[i] == #[trigger] exact[j] ==> key_linked(cfg, cs, cs[i], cs[j])
    &&& cfg.cross_source_only ==> forall|i: int, j: int|
        0 <= i < cs.len() && 0 <= j < cs.len() && i != j && #[trigger] exact[i] == #[trigger] exact[j] ==> cs[i].origin.source
            != cs[j].origin.source
    &&& forall|i: int, j: int|
        0 <= i < cs.len() && 0 <= j < cs.len() && shares_correlation_key(cfg, #[trigger] cs[i], #[trigger] cs[j]) ==> exact[i]
            == exact[j] || (cfg.cross_source_only && exists|x: int, y: int|
            0 <= x < cs.len() && 0 <= y < cs.len() && #[trigger] exact[x] == exact[i] && #[trigger] exact[y] == exact[j]
                && cs[x].origin.source == cs[y].origin.source)
}

/// Whether `order` lists the inputs by strictly increasing occurrence key.
pub open spec fn key_order(cs: Seq<CandidateView>, order: Seq<usize>) -> bool {
    &&& is_permutation(order, cs.len())
    &&& forall|p: int, q: int|
        0 <= p < q < order.len() ==> byte_sign(input_keys(cs)[#[trigger] order[p] as int], input_keys(cs)[#[trigger] order[q] as int]) < 0
}

/// The inputs arranged by `order`.
pub open spec fn arranged(cs: Seq<CandidateView>, order: Seq<usize>) -> Seq<CandidateView> {
    Seq::new(order.len(), |p: int| cs[order[p] as int])
}

/// Each of `n` positions labelled by itself.
pub open spec fn identity_labels(n: nat) -> Seq<int> {
    Seq::new(n, |p: int| p)
}

/// Whether `blocks` are the exact blocks of candidates: one per exact
/// correlation key, in key order, each listing in increasing order every
/// position whose candidate has that key (so none is empty).
pub open spec fn exact_blocks_of(cfg: ConfigView, views: Seq<CandidateView>, blocks: Seq<Seq<int>>) -> bool {
    exists|keys: Seq<Seq<u8>>|
        #[trigger] keys_sorted(keys) && keys.len() == blocks.len() && (forall|b: int| 0 <= b < blocks.len() ==> #[trigger] blocks[b].len() > 0) && (forall|b: int, k: int|
            0 <= b < blocks.len() && 0 <= k < blocks[b].len() ==> 0 <= #[trigger] blocks[b][k] < views.len() && correlation_key_set(
                cfg,
                views[blocks[b][k]],
            ).contains(keys[b])) && (forall|b: int, x: int, y: int|
            0 <= b < blocks.len() && 0 <= x < y < blocks[b].len() ==> #[trigger] blocks[b][x] < #[trigger] blocks[b][y]) && (forall|b: int, q: int|
            0 <= b < blocks.len() && 0 <= q < views.len() && #[trigger] correlation_key_set(cfg, views[q]).contains(keys[b]) ==> blocks[b].contains(
                q,
            )) && (forall|q: int, k: Seq<u8>|
            0 <= q < views.len() && #[trigger] correlation_key_set(cfg, views[q]).contains(k) ==> keys.contains(k))
}

/// The exact phase: the inputs in key order, each in a group of its own,
/// their exact blocks folded in order, the labels read back at the inputs.
pub open spec fn exact_phase(cfg: ConfigView, cs: Seq<CandidateView>, exact: Seq<int>) -> bool {
    exists|order: Seq<usize>, blocks: Seq<Seq<int>>| #[trigger] exact_phase_by(cfg, cs, exact, order, blocks)
}

/// The exact phase through a given key order and given exact blocks.
pub open spec fn exact_phase_by(cfg: ConfigView, cs: Seq<CandidateView>, exact: Seq<int>, order: Seq<usize>, blocks: Seq<Seq<int>>) -> bool {
    &&& key_order(cs, order)
    &&& exact_blocks_of(cfg, arranged(cs, order), blocks)
    &&& exact == input_labels(order, exact_fold(arranged(cs, order), cfg.cross_source_only, identity_labels(cs.len()), blocks))
}

/// The clusters are the greedy complete-link pass over the ranked fuzzy
/// edges, started from the groups of the exact phase; the exact merges are the inputs
/// less the exact groups, the fuzzy merges the exact groups less the
/// clusters, and the comparisons the candidate pairs together with the
/// pairs the pass decides, each counted once.
pub open spec fn clusters_fuzzy_greedy(cfg: ConfigView, cs: Seq<CandidateView>, r: ClusterResultView) -> bool {
    exists|exact: Seq<int>, edges: Seq<(int, int)>| #[trigger] fuzzy_greedy_by(cfg, cs, r, exact, edges)
}

/// The greedy pass from a given exact grouping over given ranked edges.
pub open spec fn fuzzy_greedy_by(
    cfg: ConfigView,
    cs: Seq<CandidateView>,
    r: ClusterResultView,
    exact: Seq<int>,
    edges: Seq<(int, int)>,
) -> bool {
    &&& exact_phase(cfg, cs, exact)
    &&& exact_grouping(cfg, cs, exact)
    &&& fuzzy_edges_ranked(cfg, cs, edges)
    &&& r.stats.exact_merges() + exact.to_set().len() == cs.len()
    &&& r.stats.fuzzy_merges() + r.clusters.len() == exact.to_set().len()
    &&& r.stats.comparisons() == capped(candidate_pairs_of(cfg, cs).union(checked_pairs(cfg, cs, exact, edges)).len())
    &&& forall|i: int, j: int|
        0 <= i < cs.len() && 0 <= j < cs.len() ==> (#[trigger] same_cluster(r.clusters, input_keys(cs)[i], input_keys(cs)[j])
            <==> fuzzy_fold(cfg, cs, exact, edges)[i] == fuzzy_fold(cfg, cs, exact, edges)[j])
}

/// Everything a successful clustering of `cs` under `cfg` guarantees.
pub open spec fn cluster_result_valid(cfg: ConfigView, cs: Seq<CandidateView>, r: ClusterResultView) -> bool {
    &&& clusters_partition(r.clusters, input_keys(cs))
    &&& clusters_cross_source(cfg, r.clusters, cs)
    &&& clusters_complete_link(cfg, r.clusters, cs)
    &&& clusters_exact_merged(cfg, r.clusters, cs)
    &&& clusters_exact_settled(cfg, r.clusters, cs)
    &&& clusters_fuzzy_maximal(cfg, r.clusters, cs)
    &&& reviews_valid(cfg, r.review_pairs, r.clusters, cs)
    &&& reviews_complete(cfg, r.review_pairs, r.clusters, cs)
    &&& clusters_fuzzy_greedy(cfg, cs, r)
    &&& warnings_exact(cfg, cs, r.warnings)
    &&& stats_valid(r.stats, cs.len(), r.clusters.len())
    &&& r.stats.comparisons() <= cs.len() * (cs.len() + 1) / 2
    &&& r.stats.candidate_pairs() == if candidate_pairs_of(cfg, cs).len() > usize::MAX {
        usize::MAX as nat
    } else {
        candidate_pairs_of(cfg, cs).len()
    }
}

// ---------------------------------------------------------------------------
// From positions back to the input.
// ---------------------------------------------------------------------------

/// How positions relate to the input: a permutation, the candidates at
/// their positions, and strictly increasing keys.
spec fn placement(order: Seq<usize>, cs: Seq<CandidateView>, views: Seq<CandidateView>, keys: Seq<OccurrenceKey>) -> bool {
    &&& is_permutation(order, cs.len())
    &&& cs.len() <= usize::MAX
    &&& views.len() == cs.len()
    &&& keys.len() == cs.len()
    &&& forall|p: int| 0 <= p < views.len() ==> #[trigger] views[p] == cs[order[p] as int]
    &&& forall|p: int| 0 <= p < keys.len() ==> (#[trigger] keys[p])@ == occurrence_key_of(views[p])
    &&& forall|p: int, q: int| 0 <= p < q < keys.len() ==> byte_sign(#[trigger] keys[p]@, #[trigger] keys[q]@) < 0
}

/// What the emitted clusters are: one per root, its members' keys.
spec fn emitted(groups: Groups, keys: Seq<OccurrenceKey>, clusters: Seq<Seq<Seq<u8>>>, roots: Seq<int>, slot: Seq<int>) -> bool {
    &&& roots.len() == clusters.len()
    &&& roots.no_duplicates()
    &&& forall|c: int| 0 <= c < roots.len() ==> 0 <= #[trigger] roots[c] < groups.size() && groups.label@[roots[c]] == roots[c]
        && groups.members@[roots[c]]@.len() > 0 && clusters[c] == member_keys(groups.members@[roots[c]]@, keys)
    &&& slot.len() == groups.size()
    &&& forall|p: int| 0 <= p < groups.size() ==> 0 <= #[trigger] slot[p] < roots.len() && roots[slot[p]] == groups.label@[p]
    &&& forall|c1: int, c2: int|
        0 <= c1 < c2 < roots.len() ==> groups.members@[#[trigger] roots[c1]]@[0] < groups.members@[#[trigger] roots[c2]]@[0]
}

/// Strictly sorted keys are distinct.
proof fn lemma_keys_injective(keys: Seq<OccurrenceKey>, a: int, b: int)
    requires
        forall|p: int, q: int| 0 <= p < q < keys.len() ==> byte_sign(#[trigger] keys[p]@, #[trigger] keys[q]@) < 0,
        0 <= a < keys.len(),
        0 <= b < keys.len(),
        keys[a]@ == keys[b]@,
    ensures
        a == b,
{
    if a < b {
        lemma_byte_antisym(keys[a]@, keys[b]@);
    } else if b < a {
        lemma_byte_antisym(keys[b]@, keys[a]@);
    }
}

/// The position of an input index, and its key.
proof fn lemma_input_position(order: Seq<usize>, cs: Seq<CandidateView>, views: Seq<CandidateView>, keys: Seq<OccurrenceKey>, i: int) -> (p: int)
    requires
        placement(order, cs, views, keys),
        0 <= i < cs.len(),
    ensures
        0 <= p < cs.len(),
        order[p] as int == i,
        views[p] == cs[i],
        keys[p]@ == input_keys(cs)[i],
{
    let p = lemma_position(order, cs.len(), i);
    assert(views[p] == cs[order[p] as int]);
    p
}

/// A cluster holding an input key holds the position of that input.
proof fn lemma_member_label(
    order: Seq<usize>,
    cs: Seq<CandidateView>,
    views: Seq<CandidateView>,
    groups: Groups,
    keys: Seq<OccurrenceKey>,
    clusters: Seq<Seq<Seq<u8>>>,
    roots: Seq<int>,
    slot: Seq<int>,
    c: int,
    i: int,
) -> (p: int)
    requires
        placement(order, cs, views, keys),
        groups.wf(),
        groups.size() == cs.len(),
        emitted(groups, keys, clusters, roots, slot),
        0 <= c < clusters.len(),
        0 <= i < cs.len(),
        clusters[c].contains(input_keys(cs)[i]),
    ensures
        0 <= p < cs.len(),
        order[p] as int == i,
        views[p] == cs[i],
        groups.label@[p] == roots[c],
{
    let p = lemma_input_position(order, cs, views, keys, i);
    let members = groups.members@[roots[c]]@;
    let m = choose|m: int| 0 <= m < clusters[c].len() && clusters[c][m] == input_keys(cs)[i];
    assert(clusters[c][m] == keys[members[m] as int]@);
    assert(members.contains(members[m]));
    assert(members[m] < groups.size());
    lemma_keys_injective(keys, members[m] as int, p);
    assert(groups.label@[members[m] as int] == roots[c]);
    p
}

/// A chain through the positional candidates is a chain through the input.
proof fn lemma_linked_transfer(cfg: ConfigView, from: Seq<CandidateView>, to: Seq<CandidateView>, a: CandidateView, b: CandidateView)
    requires
        key_linked(cfg, from, a, b),
        forall|v: CandidateView| from.contains(v) ==> #[trigger] to.contains(v),
    ensures
        key_linked(cfg, to, a, b),
{
    let path = choose|path: Seq<CandidateView>| #[trigger] key_path(cfg, from, path) && path[0] == a && path.last() == b;
    assert forall|k: int| 0 <= k < path.len() implies to.contains(#[trigger] path[k]) by {
        assert(from.contains(path[k]));
    }
    assert(key_path(cfg, to, path));
}

/// Emitted clusters are non-empty and strictly sorted.
proof fn lemma_clusters_sorted(
    order: Seq<usize>,
    cs: Seq<CandidateView>,
    views: Seq<CandidateView>,
    groups: Groups,
    keys: Seq<OccurrenceKey>,
    clusters: Seq<Seq<Seq<u8>>>,
    roots: Seq<int>,
    slot: Seq<int>,
)
    requires
        placement(order, cs, views, keys),
        groups.wf(),
        groups.size() == cs.len(),
        emitted(groups, keys, clusters, roots, slot),
    ensures
        clusters_sorted(clusters),
        clusters_ordered(clusters),
{
    let n = cs.len();
    assert forall|c: int| 0 <= c < clusters.len() implies (#[trigger] clusters[c]).len() > 0 && keys_sorted(clusters[c]) by {
        let members = groups.members@[roots[c]]@;
        assert forall|m1: int, m2: int| 0 <= m1 < m2 < clusters[c].len() implies byte_sign(
            #[trigger] clusters[c][m1],
            #[trigger] clusters[c][m2],
        ) < 0 by {
            assert(members[m1] < members[m2]);
            assert(members.contains(members[m2]));
            assert(members[m2] < n);
            assert(byte_sign(keys[members[m1] as int]@, keys[members[m2] as int]@) < 0);
        }
    }
    assert forall|c1: int, c2: int| 0 <= c1 < c2 < clusters.len() implies byte_sign(
        (#[trigger] clusters[c1])[0],
        (#[trigger] clusters[c2])[0],
    ) < 0 by {
        let a = groups.members@[roots[c1]]@;
        let b = groups.members@[roots[c2]]@;
        assert(a[0] < b[0]);
        assert(b.contains(b[0]));
        assert(b[0] < n);
        assert(clusters[c1][0] == keys[a[0] as int]@);
        assert(clusters[c2][0] == keys[b[0] as int]@);
    }
}

/// Each input key is in the cluster of its position.
proof fn lemma_input_in_cluster(
    order: Seq<usize>,
    cs: Seq<CandidateView>,
    views: Seq<CandidateView>,
    groups: Groups,
    keys: Seq<OccurrenceKey>,
    clusters: Seq<Seq<Seq<u8>>>,
    roots: Seq<int>,
    slot: Seq<int>,
    i: int,
) -> (c: int)
    requires
        placement(order, cs, views, keys),
        groups.wf(),
        groups.size() == cs.len(),
        emitted(groups, keys, clusters, roots, slot),
        0 <= i < cs.len(),
    ensures
        0 <= c < clusters.len(),
        clusters[c].contains(input_keys(cs)[i]),
{
    let p = lemma_input_position(order, cs, views, keys, i);
    let c = slot[p];
    let members = groups.members@[roots[c]]@;
    assert(groups.label@[p] == roots[c]);
    assert(members.contains(p as usize));
    let m = choose|m: int| 0 <= m < members.len() && members[m] == p as usize;
    assert(clusters[c][m] == keys[p]@);
    c
}

/// Each cluster member is an input key.
proof fn lemma_cluster_member_input(
    order: Seq<usize>,
    cs: Seq<CandidateView>,
    views: Seq<CandidateView>,
    groups: Groups,
    keys: Seq<OccurrenceKey>,
    clusters: Seq<Seq<Seq<u8>>>,
    roots: Seq<int>,
    slot: Seq<int>,
    c: int,
    m: int,
)
    requires
        placement(order, cs, views, keys),
        groups.wf(),
        groups.size() == cs.len(),
        emitted(groups, keys, clusters, roots, slot),
        0 <= c < clusters.len(),
        0 <= m < clusters[c].len(),
    ensures
        input_keys(cs).contains(clusters[c][m]),
{
    let n = cs.len();
    let members = groups.members@[roots[c]]@;
    let q = members[m] as int;
    assert(members.contains(members[m]));
    assert(q < n);
    assert(views[q] == cs[order[q] as int]);
    assert(order[q] < n);
    assert(input_keys(cs)[order[q] as int] == clusters[c][m]);
}

/// Emitted clusters hold every input key.
proof fn lemma_clusters_cover(
    order: Seq<usize>,
    cs: Seq<CandidateView>,
    views: Seq<CandidateView>,
    groups: Groups,
    keys: Seq<OccurrenceKey>,
    clusters: Seq<Seq<Seq<u8>>>,
    roots: Seq<int>,
    slot: Seq<int>,
)
    requires
        placement(order, cs, views, keys),
        groups.wf(),
        groups.size() == cs.len(),
        emitted(groups, keys, clusters, roots, slot),
    ensures
        clusters_cover(clusters, input_keys(cs)),
{
    assert forall|i: int| 0 <= i < input_keys(cs).len() implies in_some_cluster(clusters, #[trigger] input_keys(cs)[i]) by {
        let c = lemma_input_in_cluster(order, cs, views, groups, keys, clusters, roots, slot, i);
        assert(clusters[c].contains(input_keys(cs)[i]));
    }
}

/// Emitted clusters hold nothing but input keys.
proof fn lemma_clusters_within(
    order: Seq<usize>,
    cs: Seq<CandidateView>,
    views: Seq<CandidateView>,
    groups: Groups,
    keys: Seq<OccurrenceKey>,
    clusters: Seq<Seq<Seq<u8>>>,
    roots: Seq<int>,
    slot: Seq<int>,
)
    requires
        placement(order, cs, views, keys),
        groups.wf(),
        groups.size() == cs.len(),
        emitted(groups, keys, clusters, roots, slot),
    ensures
        clusters_within(clusters, input_keys(cs)),
{
    assert forall|c: int, m: int| 0 <= c < clusters.len() && 0 <= m < clusters[c].len() implies input_keys(cs).contains(
        #[trigger] clusters[c][m],
    ) by {
        lemma_cluster_member_input(order, cs, views, groups, keys, clusters, roots, slot, c, m);
    }
}

/// No key is in two emitted clusters.
proof fn lemma_clusters_disjoint(
    order: Seq<usize>,
    cs: Seq<CandidateView>,
    views: Seq<CandidateView>,
    groups: Groups,
    keys: Seq<OccurrenceKey>,
    clusters: Seq<Seq<Seq<u8>>>,
    roots: Seq<int>,
    slot: Seq<int>,
)
    requires
        placement(order, cs, views, keys),
        groups.wf(),
        groups.size() == cs.len(),
        emitted(groups, keys, clusters, roots, slot),
    ensures
        clusters_disjoint(clusters),
{
    let n = cs.len();
    assert forall|c1: int, c2: int, k: Seq<u8>|
        0 <= c1 < clusters.len() && 0 <= c2 < clusters.len() && c1 != c2 && #[trigger] clusters[c1].contains(k) implies !#[trigger] clusters[c2].contains(k) by {
        if clusters[c2].contains(k) {
            let a = groups.members@[roots[c1]]@;
            let b = groups.members@[roots[c2]]@;
            let m1 = choose|m1: int| 0 <= m1 < clusters[c1].len() && clusters[c1][m1] == k;
            let m2 = choose|m2: int| 0 <= m2 < clusters[c2].len() && clusters[c2][m2] == k;
            assert(a.contains(a[m1]) && b.contains(b[m2]));
            assert(a[m1] < n && b[m2] < n);
            assert(keys[a[m1] as int]@ == keys[b[m2] as int]@);
            lemma_keys_injective(keys, a[m1] as int, b[m2] as int);
            assert(groups.label@[a[m1] as int] == roots[c1]);
            assert(groups.label@[b[m2] as int] == roots[c2]);
        }
    }
}

/// Under the cross-source policy no emitted cluster holds two occurrences of
/// one source.
proof fn lemma_cross_source(
    order: Seq<usize>,
    cs: Seq<CandidateView>,
    views: Seq<CandidateView>,
    groups: Groups,
    keys: Seq<OccurrenceKey>,
    clusters: Seq<Seq<Seq<u8>>>,
    roots: Seq<int>,
    slot: Seq<int>,
    cfg: ConfigView,
)
    requires
        placement(order, cs, views, keys),
        groups.wf(),
        groups.size() == cs.len(),
        emitted(groups, keys, clusters, roots, slot),
        cfg.cross_source_only ==> groups_source_disjoint(groups, views),
    ensures
        clusters_cross_source(cfg, clusters, cs),
{
    if cfg.cross_source_only {
        assert forall|i: int, j: int|
            0 <= i < cs.len() && 0 <= j < cs.len() && i != j && same_cluster(
                clusters,
                #[trigger] input_keys(cs)[i],
                #[trigger] input_keys(cs)[j],
            ) implies cs[i].origin.source != cs[j].origin.source by {
            let c = choose|c: int|
                0 <= c < clusters.len() && #[trigger] clusters[c].contains(input_keys(cs)[i]) && clusters[c].contains(input_keys(cs)[j]);
            let p = lemma_member_label(order, cs, views, groups, keys, clusters, roots, slot, c, i);
            let q = lemma_member_label(order, cs, views, groups, keys, clusters, roots, slot, c, j);
            assert(p != q);
            assert(groups.label@[p] == groups.label@[q]);
        }
    }
}

/// Every two members of an emitted cluster are linked by exact keys or
/// compare as duplicates.
proof fn lemma_complete_link(
    order: Seq<usize>,
    cs: Seq<CandidateView>,
    views: Seq<CandidateView>,
    groups: Groups,
    keys: Seq<OccurrenceKey>,
    clusters: Seq<Seq<Seq<u8>>>,
    roots: Seq<int>,
    slot: Seq<int>,
    cfg: ConfigView,
    exact: Seq<usize>,
)
    requires
        placement(order, cs, views, keys),
        groups.wf(),
        groups.size() == cs.len(),
        emitted(groups, keys, clusters, roots, slot),
        fuzzy_invariant(groups, exact, cfg, views, cfg.cross_source_only),
    ensures
        clusters_complete_link(cfg, clusters, cs),
{
    assert forall|v: CandidateView| views.contains(v) implies #[trigger] cs.contains(v) by {
        let k = choose|k: int| 0 <= k < views.len() && views[k] == v;
        assert(views[k] == cs[order[k] as int]);
    }
    assert forall|i: int, j: int|
        0 <= i < cs.len() && 0 <= j < cs.len() && same_cluster(clusters, #[trigger] input_keys(cs)[i], #[trigger] input_keys(cs)[j])
            implies key_linked(cfg, cs, cs[i], cs[j]) || decision_of(cfg, cs[i], cs[j]) == Decision::Duplicate by {
        let c = choose|c: int|
            0 <= c < clusters.len() && #[trigger] clusters[c].contains(input_keys(cs)[i]) && clusters[c].contains(input_keys(cs)[j]);
        let p = lemma_member_label(order, cs, views, groups, keys, clusters, roots, slot, c, i);
        let q = lemma_member_label(order, cs, views, groups, keys, clusters, roots, slot, c, j);
        assert(groups.label@[p] == groups.label@[q]);
        if exact[p] == exact[q] {
            assert(key_linked(cfg, views, views[p], views[q]));
            lemma_linked_transfer(cfg, views, cs, cs[i], cs[j]);
        }
    }
}

/// The comparison of two candidates is the specified one.
proof fn lemma_compared_spec(cfg: ConfigView, a: CandidateView, b: CandidateView)
    ensures
        compared(cfg, a, b) == compare_spec(cfg, a, b),
{
    reveal(compared);
}

/// A retained review entry names its positions' keys, smaller first.
proof fn lemma_review_entry(
    order: Seq<usize>,
    cs: Seq<CandidateView>,
    views: Seq<CandidateView>,
    keys: Seq<OccurrenceKey>,
    cfg: ConfigView,
    entries: Seq<(usize, usize, Comparison)>,
    t: int,
)
    requires
        placement(order, cs, views, keys),
        reviews_wf(entries, cfg, views),
        0 <= t < entries.len(),
    ensures
        entries[t].2@ == compared(cfg, cs[order[entries[t].0 as int] as int], cs[order[entries[t].1 as int] as int]),
        entries[t].2@.left == keys[entries[t].0 as int]@,
        entries[t].2@.right == keys[entries[t].1 as int]@,
        entries[t].2@.decision == Decision::Review,
{
    let e = entries[t];
    lemma_compared_spec(cfg, views[e.0 as int], views[e.1 as int]);
    crate::compare::lemma_compare_keys(cfg, views[e.0 as int], views[e.1 as int]);
    assert(byte_sign(keys[e.0 as int]@, keys[e.1 as int]@) < 0);
}

/// Each retained review compares two input candidates in different clusters.
proof fn lemma_reviews_apart(
    order: Seq<usize>,
    cs: Seq<CandidateView>,
    views: Seq<CandidateView>,
    groups: Groups,
    keys: Seq<OccurrenceKey>,
    clusters: Seq<Seq<Seq<u8>>>,
    roots: Seq<int>,
    slot: Seq<int>,
    cfg: ConfigView,
    entries: Seq<(usize, usize, Comparison)>,
    out: Seq<ComparisonView>,
    idx: Seq<int>,
    r: int,
)
    requires
        placement(order, cs, views, keys),
        groups.wf(),
        groups.size() == cs.len(),
        emitted(groups, keys, clusters, roots, slot),
        reviews_wf(entries, cfg, views),
        idx.len() == out.len(),
        forall|k: int|
            0 <= k < out.len() ==> 0 <= #[trigger] idx[k] < entries.len() && out[k] == entries[idx[k]].2@
                && groups.label@[entries[idx[k]].0 as int] != groups.label@[entries[idx[k]].1 as int],
        0 <= r < out.len(),
    ensures
        exists|i: int, j: int|
            0 <= i < cs.len() && 0 <= j < cs.len() && #[trigger] out[r] == compared(cfg, cs[i], cs[j]) && !same_cluster(
                clusters,
                input_keys(cs)[i],
                input_keys(cs)[j],
            ),
{
    let e = entries[idx[r]];
    lemma_review_entry(order, cs, views, keys, cfg, entries, idx[r]);
    let p = e.0 as int;
    let q = e.1 as int;
    let i = order[p] as int;
    let j = order[q] as int;
    if same_cluster(clusters, input_keys(cs)[i], input_keys(cs)[j]) {
        let c = choose|c: int|
            0 <= c < clusters.len() && #[trigger] clusters[c].contains(input_keys(cs)[i]) && clusters[c].contains(input_keys(cs)[j]);
        let p2 = lemma_member_label(order, cs, views, groups, keys, clusters, roots, slot, c, i);
        let q2 = lemma_member_label(order, cs, views, groups, keys, clusters, roots, slot, c, j);
        assert(p2 == p);
        assert(q2 == q);
    }
    assert(out[r] == compared(cfg, cs[i], cs[j]));
}

/// Retained reviews come in strictly increasing key-pair order.
proof fn lemma_reviews_ordered(
    order: Seq<usize>,
    cs: Seq<CandidateView>,
    views: Seq<CandidateView>,
    keys: Seq<OccurrenceKey>,
    cfg: ConfigView,
    entries: Seq<(usize, usize, Comparison)>,
    out: Seq<ComparisonView>,
    idx: Seq<int>,
)
    requires
        placement(order, cs, views, keys),
        reviews_wf(entries, cfg, views),
        idx.len() == out.len(),
        forall|k: int| 0 <= k < out.len() ==> 0 <= #[trigger] idx[k] < entries.len() && out[k] == entries[idx[k]].2@,
        forall|k1: int, k2: int| 0 <= k1 < k2 < out.len() ==> #[trigger] idx[k1] < #[trigger] idx[k2],
    ensures
        forall|r1: int, r2: int|
            0 <= r1 < r2 < out.len() ==> byte_sign((#[trigger] out[r1]).left, (#[trigger] out[r2]).left) < 0 || (out[r1].left
                == out[r2].left && byte_sign(out[r1].right, out[r2].right) < 0),
{
    assert forall|r1: int, r2: int| 0 <= r1 < r2 < out.len() implies byte_sign((#[trigger] out[r1]).left, (#[trigger] out[r2]).left) < 0
        || (out[r1].left == out[r2].left && byte_sign(out[r1].right, out[r2].right) < 0) by {
        lemma_review_entry(order, cs, views, keys, cfg, entries, idx[r1]);
        lemma_review_entry(order, cs, views, keys, cfg, entries, idx[r2]);
        let e1 = entries[idx[r1]];
        let e2 = entries[idx[r2]];
        assert(idx[r1] < idx[r2]);
        if e1.0 == e2.0 {
            assert(e1.1 < e2.1);
        }
    }
}

/// Two positions with one label are in one emitted cluster.
proof fn lemma_same_label_same_cluster(
    order: Seq<usize>,
    cs: Seq<CandidateView>,
    views: Seq<CandidateView>,
    groups: Groups,
    keys: Seq<OccurrenceKey>,
    clusters: Seq<Seq<Seq<u8>>>,
    roots: Seq<int>,
    slot: Seq<int>,
    p: int,
    q: int,
)
    requires
        placement(order, cs, views, keys),
        groups.wf(),
        groups.size() == cs.len(),
        emitted(groups, keys, clusters, roots, slot),
        0 <= p < cs.len(),
        0 <= q < cs.len(),
        groups.label@[p] == groups.label@[q],
    ensures
        same_cluster(clusters, keys[p]@, keys[q]@),
{
    let c = slot[p];
    let members = groups.members@[roots[c]]@;
    assert(members.contains(p as usize));
    assert(members.contains(q as usize));
    let mp = choose|mp: int| 0 <= mp < members.len() && members[mp] == p as usize;
    let mq = choose|mq: int| 0 <= mq < members.len() && members[mq] == q as usize;
    assert(clusters[c][mp] == keys[p]@);
    assert(clusters[c][mq] == keys[q]@);
    assert(clusters[c].contains(keys[p]@));
    assert(clusters[c].contains(keys[q]@));
}

/// Without the cross-source policy, candidates sharing an exact key are in
/// one emitted cluster.
proof fn lemma_exact_merged(
    order: Seq<usize>,
    cs: Seq<CandidateView>,
    views: Seq<CandidateView>,
    groups: Groups,
    keys: Seq<OccurrenceKey>,
    clusters: Seq<Seq<Seq<u8>>>,
    roots: Seq<int>,
    slot: Seq<int>,
    cfg: ConfigView,
    exact: Seq<usize>,
    block_keys: Seq<CorrelationKey>,
    blocks: Seq<Vec<usize>>,
)
    requires
        placement(order, cs, views, keys),
        groups.wf(),
        groups.size() == cs.len(),
        emitted(groups, keys, clusters, roots, slot),
        fuzzy_invariant(groups, exact, cfg, views, cfg.cross_source_only),
        block_keys_sorted(block_keys),
        block_keys.len() == blocks.len(),
        forall|q: int, k: Seq<u8>|
            0 <= q < views.len() && #[trigger] correlation_key_set(cfg, views[q]).contains(k) ==> exists|b: int|
                0 <= b < block_keys.len() && #[trigger] block_keys[b]@ == k && blocks[b]@.contains(q as usize),
        forall|b: int, k: int| 0 <= b < blocks.len() && 0 <= k < blocks[b]@.len() ==> #[trigger] blocks[b]@[k] < views.len(),
        !cfg.cross_source_only ==> forall|b: int, k: int|
            0 <= b < blocks.len() && 0 <= k < blocks[b]@.len() ==> exact[#[trigger] blocks[b]@[k] as int] == exact[blocks[b]@[0] as int],
    ensures
        clusters_exact_merged(cfg, clusters, cs),
{
    if !cfg.cross_source_only {
        assert forall|i: int, j: int|
            0 <= i < cs.len() && 0 <= j < cs.len() && shares_correlation_key(cfg, #[trigger] cs[i], #[trigger] cs[j]) implies same_cluster(
                clusters,
                input_keys(cs)[i],
                input_keys(cs)[j],
            ) by {
            let p = lemma_input_position(order, cs, views, keys, i);
            let q = lemma_input_position(order, cs, views, keys, j);
            let k = choose|k: Seq<u8>| #[trigger] correlation_key_set(cfg, cs[i]).contains(k) && correlation_key_set(cfg, cs[j]).contains(k);
            assert(correlation_key_set(cfg, views[p]).contains(k));
            assert(correlation_key_set(cfg, views[q]).contains(k));
            let b1 = choose|b: int| 0 <= b < block_keys.len() && #[trigger] block_keys[b]@ == k && blocks[b]@.contains(p as usize);
            let b2 = choose|b: int| 0 <= b < block_keys.len() && #[trigger] block_keys[b]@ == k && blocks[b]@.contains(q as usize);
            if b1 < b2 {
                lemma_byte_antisym(block_keys[b1]@, block_keys[b2]@);
            } else if b2 < b1 {
                lemma_byte_antisym(block_keys[b2]@, block_keys[b1]@);
            }
            let m1 = choose|m: int| 0 <= m < blocks[b1]@.len() && blocks[b1]@[m] == p as usize;
            let m2 = choose|m: int| 0 <= m < blocks[b1]@.len() && blocks[b1]@[m] == q as usize;
            assert(exact[blocks[b1]@[m1] as int] == exact[blocks[b1]@[0] as int]);
            assert(exact[blocks[b1]@[m2] as int] == exact[blocks[b1]@[0] as int]);
            assert(exact[p] == exact[q]);
            assert(groups.label@[p] == groups.label@[q]);
            lemma_same_label_same_cluster(order, cs, views, groups, keys, clusters, roots, slot, p, q);
        }
    }
}

/// Every candidate pair for review that ends apart is among the retained
/// review entries.
#[verifier::spinoff_prover]
#[verifier::rlimit(40)]
proof fn lemma_reviews_complete(
    order: Seq<usize>,
    cs: Seq<CandidateView>,
    views: Seq<CandidateView>,
    groups: Groups,
    keys: Seq<OccurrenceKey>,
    clusters: Seq<Seq<Seq<u8>>>,
    roots: Seq<int>,
    slot: Seq<int>,
    cfg: ConfigView,
    issue_blocks: Seq<Vec<usize>>,
    issue_keys: Seq<BlockKeyView>,
    subject_blocks: Seq<Vec<usize>>,
    subject_keys: Seq<BlockKeyView>,
    p1: Seq<Vec<usize>>,
    p2: Seq<Vec<usize>>,
    compared_reviews: Seq<(usize, usize, Comparison)>,
    entries: Seq<(usize, usize, Comparison)>,
    out: Seq<ComparisonView>,
    idx: Seq<int>,
)
    requires
        placement(order, cs, views, keys),
        groups.wf(),
        groups.size() == cs.len(),
        emitted(groups, keys, clusters, roots, slot),
        blocks_exact(BlockKind::Issue, views, issue_blocks, issue_keys),
        blocks_exact(BlockKind::Subject, views, subject_blocks, subject_keys),
        forall|b: int, l: int, r: int|
            0 <= b < issue_blocks.len() && 0 <= l < r < issue_blocks[b]@.len() && !oversized(
                issue_blocks[b]@.len() as nat,
                cfg.max_block_size,
            ) ==> pair_listed(p1, #[trigger] issue_blocks[b]@[l] as int, #[trigger] issue_blocks[b]@[r] as int),
        forall|b: int, l: int, r: int|
            0 <= b < subject_blocks.len() && 0 <= l < r < subject_blocks[b]@.len() && !oversized(
                subject_blocks[b]@.len() as nat,
                cfg.max_block_size,
            ) ==> pair_listed(p2, #[trigger] subject_blocks[b]@[l] as int, #[trigger] subject_blocks[b]@[r] as int),
        pairs_grow(p1, p2),
        p2.len() == cs.len(),
        forall|p: int, q: int|
            0 <= p < p2.len() && #[trigger] p2[p]@.contains(q as usize) && 0 <= q < p2.len() && compared(cfg, views[p], views[q]).decision
                == Decision::Review ==> review_listed(compared_reviews, p, q),
        reviews_grow(compared_reviews, entries),
        reviews_wf(entries, cfg, views),
        idx.len() == out.len(),
        forall|k: int| 0 <= k < out.len() ==> 0 <= #[trigger] idx[k] < entries.len() && out[k] == entries[idx[k]].2@,
        forall|j: int|
            0 <= j < entries.len() && groups.label@[(#[trigger] entries[j]).0 as int] != groups.label@[entries[j].1 as int]
                ==> exists|k: int| 0 <= k < idx.len() && idx[k] == j,
    ensures
        reviews_complete(cfg, out, clusters, cs),
{
    assert forall|i: int, j: int|
        0 <= i < cs.len() && 0 <= j < cs.len() && #[trigger] candidate_pair(cfg, cs, i, j) && compared(cfg, cs[i], cs[j]).decision
            == Decision::Review && !same_cluster(clusters, input_keys(cs)[i], input_keys(cs)[j]) implies exists|r: int|
        0 <= r < out.len() && out[r] == compared(cfg, cs[i], cs[j]) by {
        let pi = lemma_input_position(order, cs, views, keys, i);
        let pj = lemma_input_position(order, cs, views, keys, j);
        if shares_fitting_block(BlockKind::Issue, cs, cfg.max_block_size, i, j) {
            lemma_shared_block_listed(BlockKind::Issue, order, cs, views, keys, issue_blocks, issue_keys, p1, cfg.max_block_size, i, j, pi, pj);
        } else {
            lemma_shared_block_listed(
                BlockKind::Subject,
                order,
                cs,
                views,
                keys,
                subject_blocks,
                subject_keys,
                p2,
                cfg.max_block_size,
                i,
                j,
                pi,
                pj,
            );
        }
        let (lo, hi) = if pi <= pj { (pi, pj) } else { (pj, pi) };
        assert(p2[lo]@.contains(hi as usize));
        crate::compare::lemma_compare_symmetric(cfg, cs[i], cs[j]);
        reveal(compared);
        assert(compared(cfg, views[lo], views[hi]) == compared(cfg, cs[i], cs[j]));
        assert(review_listed(compared_reviews, lo, hi));
        assert(review_listed(entries, lo, hi));
        let r0 = choose|r: int| 0 <= r < entries.len() && (#[trigger] entries[r]).0 == lo && entries[r].1 == hi;
        if groups.label@[lo] == groups.label@[hi] {
            lemma_same_label_same_cluster(order, cs, views, groups, keys, clusters, roots, slot, pi, pj);
        }
        assert(groups.label@[entries[r0].0 as int] != groups.label@[entries[r0].1 as int]);
        let k = choose|k: int| 0 <= k < idx.len() && idx[k] == r0;
        assert(out[k] == entries[r0].2@);
    }
}

/// Exact pairs settled among positions are settled among the emitted
/// clusters of the inputs.
proof fn lemma_exact_settled_clusters(
    order: Seq<usize>,
    cs: Seq<CandidateView>,
    views: Seq<CandidateView>,
    groups: Groups,
    keys: Seq<OccurrenceKey>,
    clusters: Seq<Seq<Seq<u8>>>,
    roots: Seq<int>,
    slot: Seq<int>,
    cfg: ConfigView,
)
    requires
        placement(order, cs, views, keys),
        groups.wf(),
        groups.size() == cs.len(),
        emitted(groups, keys, clusters, roots, slot),
        exact_settled(groups, cfg, views, cfg.cross_source_only),
    ensures
        clusters_exact_settled(cfg, clusters, cs),
{
    reveal(exact_settled);
    assert forall|i: int, j: int|
        0 <= i < cs.len() && 0 <= j < cs.len() && shares_correlation_key(cfg, #[trigger] cs[i], #[trigger] cs[j]) implies same_cluster(
            clusters,
            input_keys(cs)[i],
            input_keys(cs)[j],
        ) || (cfg.cross_source_only && exists|x: int, y: int|
            0 <= x < cs.len() && 0 <= y < cs.len() && x != y && #[trigger] same_cluster(clusters, input_keys(cs)[i], input_keys(cs)[x])
                && #[trigger] same_cluster(clusters, input_keys(cs)[j], input_keys(cs)[y]) && cs[x].origin.source
                == cs[y].origin.source) by {
        let pi = lemma_input_position(order, cs, views, keys, i);
        let pj = lemma_input_position(order, cs, views, keys, j);
        assert(shares_correlation_key(cfg, views[pi], views[pj]));
        assert(settled(groups, views, cfg.cross_source_only, pi, pj));
        reveal(settled);
        if groups.label@[pi] == groups.label@[pj] {
            lemma_same_label_same_cluster(order, cs, views, groups, keys, clusters, roots, slot, pi, pj);
        } else {
            let (a, b) = choose|a: int, b: int|
                0 <= a < views.len() && 0 <= b < views.len() && #[trigger] groups.label@[a] == groups.label@[pi] && #[trigger] groups.label@[b]
                    == groups.label@[pj] && views[a].origin.source == views[b].origin.source;
            let ia = order[a] as int;
            let ib = order[b] as int;
            assert(views[a] == cs[ia] && views[b] == cs[ib]);
            assert(keys[a]@ == input_keys(cs)[ia] && keys[b]@ == input_keys(cs)[ib]);
            assert(a != b);
            assert(ia != ib);
            lemma_same_label_same_cluster(order, cs, views, groups, keys, clusters, roots, slot, pi, a);
            lemma_same_label_same_cluster(order, cs, views, groups, keys, clusters, roots, slot, pj, b);
        }
    }
}

/// A key held at least twice is held at two indices.
proof fn lemma_two_occurrences(s: Seq<BlockKeyView>, key: BlockKeyView) -> (t: (int, int))
    requires
        key_occurrences(s, key) >= 2,
    ensures
        0 <= t.0 < s.len(),
        0 <= t.1 < s.len(),
        t.0 != t.1,
        s[t.0] == key,
        s[t.1] == key,
    decreases s.len(),
{
    if s.last() == key {
        let t0 = lemma_occurrence_index(s.drop_last(), key);
        (t0, s.len() - 1)
    } else {
        let (a, b) = lemma_two_occurrences(s.drop_last(), key);
        (a, b)
    }
}

/// Two positions paired in a block within the limit are inputs sharing a
/// fitting block.
proof fn lemma_listed_shares_block(
    kind: BlockKind,
    order: Seq<usize>,
    cs: Seq<CandidateView>,
    views: Seq<CandidateView>,
    keys: Seq<OccurrenceKey>,
    blocks: Seq<Vec<usize>>,
    bkeys: Seq<BlockKeyView>,
    limit: usize,
    p: int,
    q: int,
)
    requires
        placement(order, cs, views, keys),
        blocks_exact(kind, views, blocks, bkeys),
        0 <= p < cs.len(),
        0 <= q < cs.len(),
        block_listed(blocks, limit, p, q),
    ensures
        shares_fitting_block(kind, cs, limit, order[p] as int, order[q] as int),
{
    let b = choose|b: int| 0 <= b < blocks.len() && !oversized(blocks[b]@.len() as nat, limit) && #[trigger] block_pair(blocks[b]@, p, q);
    let s = blocks[b]@;
    let (l, r) = choose|l: int, r: int| 0 <= l < r < s.len() && ((#[trigger] s[l] == p && #[trigger] s[r] == q) || (s[l] == q && s[r] == p));
    let key = bkeys[b];
    let i = order[p] as int;
    let j = order[q] as int;
    assert(views[p] == cs[i] && views[q] == cs[j]);
    assert(key_occurrences(block_keys_of(kind, views[s[l] as int]), bkeys[b]) >= (if l != r && s[l] == s[r] { 2nat } else { 1nat }));
    assert(key_occurrences(block_keys_of(kind, views[s[r] as int]), bkeys[b]) >= (if r != l && s[r] == s[l] { 2nat } else { 1nat }));
    lemma_block_sizes_permuted(kind, order, cs, views);
    assert(s.len() == block_size(kind, views, key));
    if p == q {
        let (t1, t2) = lemma_two_occurrences(block_keys_of(kind, cs[i]), key);
        assert(block_keys_of(kind, cs[i])[t1] == block_keys_of(kind, cs[j])[t2]);
    } else {
        let t1 = lemma_occurrence_index(block_keys_of(kind, cs[i]), key);
        let t2 = lemma_occurrence_index(block_keys_of(kind, cs[j]), key);
        assert(order[p] != order[q]);
        assert(block_keys_of(kind, cs[i])[t1] == block_keys_of(kind, cs[j])[t2]);
    }
}

/// The listed pairs of positions are the candidate pairs of the inputs, so
/// they are as many.
#[verifier::spinoff_prover]
#[verifier::rlimit(40)]
proof fn lemma_candidate_count(
    order: Seq<usize>,
    cs: Seq<CandidateView>,
    views: Seq<CandidateView>,
    keys: Seq<OccurrenceKey>,
    cfg: ConfigView,
    issue_blocks: Seq<Vec<usize>>,
    issue_keys: Seq<BlockKeyView>,
    subject_blocks: Seq<Vec<usize>>,
    subject_keys: Seq<BlockKeyView>,
    p0: Seq<Vec<usize>>,
    p1: Seq<Vec<usize>>,
    p2: Seq<Vec<usize>>,
)
    requires
        placement(order, cs, views, keys),
        blocks_exact(BlockKind::Issue, views, issue_blocks, issue_keys),
        blocks_exact(BlockKind::Subject, views, subject_blocks, subject_keys),
        forall|b: int, l: int, r: int|
            0 <= b < issue_blocks.len() && 0 <= l < r < issue_blocks[b]@.len() && !oversized(
                issue_blocks[b]@.len() as nat,
                cfg.max_block_size,
            ) ==> pair_listed(p1, #[trigger] issue_blocks[b]@[l] as int, #[trigger] issue_blocks[b]@[r] as int),
        forall|b: int, l: int, r: int|
            0 <= b < subject_blocks.len() && 0 <= l < r < subject_blocks[b]@.len() && !oversized(
                subject_blocks[b]@.len() as nat,
                cfg.max_block_size,
            ) ==> pair_listed(p2, #[trigger] subject_blocks[b]@[l] as int, #[trigger] subject_blocks[b]@[r] as int),
        pairs_grow(p1, p2),
        p0.len() == cs.len(),
        forall|p: int| 0 <= p < p0.len() ==> (#[trigger] p0[p])@.len() == 0,
        forall|p: int, z: usize|
            0 <= p < cs.len() && #[trigger] p1[p]@.contains(z) ==> p0[p]@.contains(z) || block_listed(
                issue_blocks,
                cfg.max_block_size,
                p,
                z as int,
            ),
        forall|p: int, z: usize|
            0 <= p < cs.len() && #[trigger] p2[p]@.contains(z) ==> p1[p]@.contains(z) || block_listed(
                subject_blocks,
                cfg.max_block_size,
                p,
                z as int,
            ),
        pairs_wf(p2, cs.len()),
    ensures
        candidate_pairs_of(cfg, cs).finite(),
        candidate_pairs_of(cfg, cs).len() == rows_sum(p2),
        at_inputs(order, listed_pairs(p2, cs.len() as int)) == candidate_pairs_of(cfg, cs),
{
    let n = cs.len();
    let limit = cfg.max_block_size;
    lemma_listed_pairs(p2, n as int);
    assert(p2.take(n as int) =~= p2);
    let listed = listed_pairs(p2, n as int);
    let f = |pq: (int, int)| (order[pq.0] as int, order[pq.1] as int);
    assert(vstd::relations::injective_on(f, listed)) by {
        assert forall|a: (int, int), b: (int, int)| listed.contains(a) && listed.contains(b) && #[trigger] f(a) == #[trigger] f(b)
            implies a == b by {
            assert(order[a.0] == order[b.0] && order[a.1] == order[b.1]);
        }
    }
    assert(listed.map(f) =~= candidate_pairs_of(cfg, cs)) by {
        assert forall|ij: (int, int)| #[trigger] listed.map(f).contains(ij) implies candidate_pairs_of(cfg, cs).contains(ij) by {
            let pq = choose|pq: (int, int)| listed.contains(pq) && f(pq) == ij;
            let p = pq.0;
            let q = pq.1;
            assert(p2[p]@.contains(q as usize));
            let z = q as usize;
            assert(p2[p]@.contains(z));
            if p1[p]@.contains(z) {
                assert(!p0[p]@.contains(z));
                assert(block_listed(issue_blocks, limit, p, q));
                lemma_listed_shares_block(BlockKind::Issue, order, cs, views, keys, issue_blocks, issue_keys, limit, p, q);
            } else {
                assert(block_listed(subject_blocks, limit, p, q));
                lemma_listed_shares_block(BlockKind::Subject, order, cs, views, keys, subject_blocks, subject_keys, limit, p, q);
            }
            assert(p <= q);
            assert(keys[p]@ == input_keys(cs)[ij.0] && keys[q]@ == input_keys(cs)[ij.1]);
            if p < q {
                assert(byte_sign(keys[p]@, keys[q]@) < 0);
            } else {
                lemma_byte_antisym(keys[p]@, keys[q]@);
            }
        }
        assert forall|ij: (int, int)| #[trigger] candidate_pairs_of(cfg, cs).contains(ij) implies listed.map(f).contains(ij) by {
            let i = ij.0;
            let j = ij.1;
            let pi = lemma_input_position(order, cs, views, keys, i);
            let pj = lemma_input_position(order, cs, views, keys, j);
            if pi > pj {
                assert(byte_sign(keys[pj]@, keys[pi]@) < 0);
                lemma_byte_antisym(keys[pj]@, keys[pi]@);
            }
            if shares_fitting_block(BlockKind::Issue, cs, limit, i, j) {
                lemma_shared_block_listed(BlockKind::Issue, order, cs, views, keys, issue_blocks, issue_keys, p1, limit, i, j, pi, pj);
            } else {
                lemma_shared_block_listed(BlockKind::Subject, order, cs, views, keys, subject_blocks, subject_keys, p2, limit, i, j, pi, pj);
            }
            assert(p2[pi]@.contains(pj as usize));
            assert(listed.contains((pi, pj)));
            assert(f((pi, pj)) == ij);
        }
    }
    vstd::set_lib::lemma_map_size(listed, candidate_pairs_of(cfg, cs), f);
    assert(at_inputs(order, listed) =~= listed.map(f));
}

/// Two inputs that share a fitting block have their positions listed as a
/// pair.
proof fn lemma_shared_block_listed(
    kind: BlockKind,
    order: Seq<usize>,
    cs: Seq<CandidateView>,
    views: Seq<CandidateView>,
    keys: Seq<OccurrenceKey>,
    blocks: Seq<Vec<usize>>,
    bkeys: Seq<BlockKeyView>,
    pairs: Seq<Vec<usize>>,
    limit: usize,
    i: int,
    j: int,
    pi: int,
    pj: int,
)
    requires
        placement(order, cs, views, keys),
        blocks_exact(kind, views, blocks, bkeys),
        forall|b: int, l: int, r: int|
            0 <= b < blocks.len() && 0 <= l < r < blocks[b]@.len() && !oversized(blocks[b]@.len() as nat, limit) ==> pair_listed(
                pairs,
                #[trigger] blocks[b]@[l] as int,
                #[trigger] blocks[b]@[r] as int,
            ),
        0 <= i < cs.len(),
        0 <= j < cs.len(),
        0 <= pi < cs.len(),
        0 <= pj < cs.len(),
        order[pi] as int == i,
        order[pj] as int == j,
        shares_fitting_block(kind, cs, limit, i, j),
    ensures
        pair_listed(pairs, pi, pj),
{
    let (t1, t2) = choose|t1: int, t2: int|
        0 <= t1 < block_keys_of(kind, cs[i]).len() && 0 <= t2 < block_keys_of(kind, cs[j]).len() && #[trigger] block_keys_of(
            kind,
            cs[i],
        )[t1] == #[trigger] block_keys_of(kind, cs[j])[t2] && (i != j || t1 != t2) && !oversized(
            block_size(kind, cs, block_keys_of(kind, cs[i])[t1]),
            limit,
        );
    assert(views[pi] == cs[i] && views[pj] == cs[j]);
    let key = block_keys_of(kind, views[pi])[t1];
    assert(block_keys_of(kind, views[pi])[t1] == block_keys_of(kind, views[pj])[t2]);
    assert(pi != pj || t1 != t2);
    let b = choose|b: int| 0 <= b < bkeys.len() && bkeys[b] == key && #[trigger] block_pair(blocks[b]@, pi, pj);
    lemma_block_sizes_permuted(kind, order, cs, views);
    assert(blocks[b]@.len() == block_size(kind, views, bkeys[b]));
    let s = blocks[b]@;
    let (l, r) = choose|l: int, r: int| 0 <= l < r < s.len() && ((#[trigger] s[l] == pi && #[trigger] s[r] == pj) || (s[l] == pj && s[r] == pi));
    assert(pair_listed(pairs, s[l] as int, s[r] as int));
}

/// Each automatic fuzzy duplicate among candidate pairs ends merged or
/// blocked by a non-duplicate cross pair.
#[verifier::spinoff_prover]
#[verifier::rlimit(40)]
proof fn lemma_fuzzy_maximal(
    order: Seq<usize>,
    cs: Seq<CandidateView>,
    views: Seq<CandidateView>,
    groups: Groups,
    keys: Seq<OccurrenceKey>,
    clusters: Seq<Seq<Seq<u8>>>,
    roots: Seq<int>,
    slot: Seq<int>,
    cfg: ConfigView,
    issue_blocks: Seq<Vec<usize>>,
    issue_keys: Seq<BlockKeyView>,
    subject_blocks: Seq<Vec<usize>>,
    subject_keys: Seq<BlockKeyView>,
    p1: Seq<Vec<usize>>,
    p2: Seq<Vec<usize>>,
    edges: Seq<(u16, usize, usize)>,
)
    requires
        placement(order, cs, views, keys),
        groups.wf(),
        groups.size() == cs.len(),
        emitted(groups, keys, clusters, roots, slot),
        blocks_exact(BlockKind::Issue, views, issue_blocks, issue_keys),
        blocks_exact(BlockKind::Subject, views, subject_blocks, subject_keys),
        forall|b: int, l: int, r: int|
            0 <= b < issue_blocks.len() && 0 <= l < r < issue_blocks[b]@.len() && !oversized(
                issue_blocks[b]@.len() as nat,
                cfg.max_block_size,
            ) ==> pair_listed(p1, #[trigger] issue_blocks[b]@[l] as int, #[trigger] issue_blocks[b]@[r] as int),
        forall|b: int, l: int, r: int|
            0 <= b < subject_blocks.len() && 0 <= l < r < subject_blocks[b]@.len() && !oversized(
                subject_blocks[b]@.len() as nat,
                cfg.max_block_size,
            ) ==> pair_listed(p2, #[trigger] subject_blocks[b]@[l] as int, #[trigger] subject_blocks[b]@[r] as int),
        pairs_grow(p1, p2),
        p2.len() == cs.len(),
        forall|p: int, q: int|
            0 <= p < p2.len() && #[trigger] p2[p]@.contains(q as usize) && 0 <= q < p2.len() && fuzzy_duplicate(
                cfg,
                views[p],
                views[q],
            ) ==> edge_listed(edges, p, q),
        forall|e: int| 0 <= e < edges.len() ==> blocked(groups, cfg, views, (#[trigger] edges[e]).1 as int, edges[e].2 as int),
    ensures
        clusters_fuzzy_maximal(cfg, clusters, cs),
{
    assert forall|i: int, j: int|
        0 <= i < cs.len() && 0 <= j < cs.len() && #[trigger] candidate_pair(cfg, cs, i, j) && fuzzy_duplicate(cfg, cs[i], cs[j])
            implies same_cluster(clusters, input_keys(cs)[i], input_keys(cs)[j]) || exists|x: int, y: int|
        0 <= x < cs.len() && 0 <= y < cs.len() && #[trigger] same_cluster(clusters, input_keys(cs)[i], input_keys(cs)[x])
            && #[trigger] same_cluster(clusters, input_keys(cs)[j], input_keys(cs)[y]) && decision_of(cfg, cs[x], cs[y])
            != Decision::Duplicate by {
        let pi = lemma_input_position(order, cs, views, keys, i);
        let pj = lemma_input_position(order, cs, views, keys, j);
        if shares_fitting_block(BlockKind::Issue, cs, cfg.max_block_size, i, j) {
            lemma_shared_block_listed(BlockKind::Issue, order, cs, views, keys, issue_blocks, issue_keys, p1, cfg.max_block_size, i, j, pi, pj);
        } else {
            lemma_shared_block_listed(
                BlockKind::Subject,
                order,
                cs,
                views,
                keys,
                subject_blocks,
                subject_keys,
                p2,
                cfg.max_block_size,
                i,
                j,
                pi,
                pj,
            );
        }
        let (lo, hi) = if pi <= pj { (pi, pj) } else { (pj, pi) };
        assert(p2[lo]@.contains(hi as usize));
        reveal(compared);
        crate::compare::lemma_compare_symmetric(cfg, cs[i], cs[j]);
        assert(fuzzy_duplicate(cfg, views[lo], views[hi]));
        let e = choose|e: int| 0 <= e < edges.len() && (#[trigger] edges[e]).1 == lo && edges[e].2 == hi;
        assert(blocked(groups, cfg, views, lo, hi));
        if groups.label@[lo] == groups.label@[hi] {
            lemma_same_label_same_cluster(order, cs, views, groups, keys, clusters, roots, slot, pi, pj);
        } else {
            let (x, y) = choose|x: int, y: int|
                0 <= x < views.len() && 0 <= y < views.len() && #[trigger] groups.label@[x] == groups.label@[lo]
                    && #[trigger] groups.label@[y] == groups.label@[hi] && decision_of(cfg, views[x], views[y]) != Decision::Duplicate;
            let ix = order[x] as int;
            let iy = order[y] as int;
            assert(views[x] == cs[ix] && views[y] == cs[iy]);
            assert(keys[x]@ == input_keys(cs)[ix] && keys[y]@ == input_keys(cs)[iy]);
            lemma_same_label_same_cluster(order, cs, views, groups, keys, clusters, roots, slot, lo, x);
            lemma_same_label_same_cluster(order, cs, views, groups, keys, clusters, roots, slot, hi, y);
            if pi <= pj {
                assert(same_cluster(clusters, input_keys(cs)[i], input_keys(cs)[ix]));
                assert(same_cluster(clusters, input_keys(cs)[j], input_keys(cs)[iy]));
            } else {
                lemma_decision_symmetric(cfg, views[x], views[y]);
                assert(same_cluster(clusters, input_keys(cs)[i], input_keys(cs)[iy]));
                assert(same_cluster(clusters, input_keys(cs)[j], input_keys(cs)[ix]));
            }
        }
    }
}

/// A sequence read through a permutation has the same elements, as often.
proof fn lemma_permuted_multiset(order: Seq<usize>, cs: Seq<CandidateView>, views: Seq<CandidateView>)
    requires
        is_permutation(order, cs.len()),
        cs.len() <= usize::MAX,
        views.len() == cs.len(),
        forall|p: int| 0 <= p < views.len() ==> #[trigger] views[p] == cs[order[p] as int],
    ensures
        views.to_multiset() == cs.to_multiset(),
    decreases cs.len(),
{
    broadcast use vstd::seq_lib::group_to_multiset_ensures;

    let n = cs.len();
    if n == 0 {
        assert(views =~= cs);
    } else {
        let p = lemma_position(order, n, n - 1);
        let order2 = order.remove(p);
        let views2 = views.remove(p);
        let cs2 = cs.drop_last();
        assert forall|q: int| 0 <= q < order2.len() implies (#[trigger] order2[q]) < cs2.len() by {
            let q0 = if q < p { q } else { q + 1 };
            assert(order2[q] == order[q0]);
            assert(order[q0] != order[p]);
        }
        assert forall|q1: int, q2: int| 0 <= q1 < order2.len() && 0 <= q2 < order2.len() && q1 != q2 implies #[trigger] order2[q1]
            != #[trigger] order2[q2] by {
            let a = if q1 < p { q1 } else { q1 + 1 };
            let b = if q2 < p { q2 } else { q2 + 1 };
            assert(order2[q1] == order[a] && order2[q2] == order[b]);
        }
        assert forall|i: int| 0 <= i < cs2.len() implies #[trigger] order2.contains(i as usize) by {
            let q = lemma_position(order, n, i);
            assert(q != p);
            if q < p {
                assert(order2[q] == order[q]);
            } else {
                assert(order2[q - 1] == order[q]);
            }
        }
        assert forall|q: int| 0 <= q < views2.len() implies #[trigger] views2[q] == cs2[order2[q] as int] by {
            let q0 = if q < p { q } else { q + 1 };
            assert(views2[q] == views[q0] && order2[q] == order[q0]);
        }
        lemma_permuted_multiset(order2, cs2, views2);
        assert(views2.insert(p, views[p]) =~= views);
        assert(cs2.push(cs.last()) =~= cs);
        assert(views[p] == cs.last());
    }
}

/// Block sizes do not depend on the order of the candidates.
proof fn lemma_block_sizes_permuted(kind: BlockKind, order: Seq<usize>, cs: Seq<CandidateView>, views: Seq<CandidateView>)
    requires
        is_permutation(order, cs.len()),
        cs.len() <= usize::MAX,
        views.len() == cs.len(),
        forall|p: int| 0 <= p < views.len() ==> #[trigger] views[p] == cs[order[p] as int],
    ensures
        forall|key: BlockKeyView| #[trigger] block_size(kind, views, key) == block_size(kind, cs, key),
{
    lemma_permuted_multiset(order, cs, views);
    assert forall|key: BlockKeyView| #[trigger] block_size(kind, views, key) == block_size(kind, cs, key) by {
        let f = size_step(kind, key);
        assert(vstd::seq_lib::commutative_foldl(f)) by {
            assert forall|x: CandidateView, y: CandidateView, v: nat| #[trigger] f(f(v, x), y) == f(f(v, y), x) by {}
        }
        vstd::seq_lib::lemma_fold_left_permutation(views, cs, f, 0nat);
    }
}

/// A key that occurs is at some index.
proof fn lemma_occurrence_index(s: Seq<BlockKeyView>, key: BlockKeyView) -> (t: int)
    requires
        key_occurrences(s, key) > 0,
    ensures
        0 <= t < s.len(),
        s[t] == key,
    decreases s.len(),
{
    if s.last() == key {
        s.len() - 1
    } else {
        lemma_occurrence_index(s.drop_last(), key)
    }
}

/// A non-empty block has a candidate that contributes its key.
proof fn lemma_block_contributor(kind: BlockKind, cs: Seq<CandidateView>, key: BlockKeyView) -> (r: (int, int))
    requires
        block_size(kind, cs, key) > 0,
    ensures
        0 <= r.0 < cs.len(),
        0 <= r.1 < block_keys_of(kind, cs[r.0]).len(),
        block_keys_of(kind, cs[r.0])[r.1] == key,
    decreases cs.len(),
{
    if key_occurrences(block_keys_of(kind, cs.last()), key) > 0 {
        let t = lemma_occurrence_index(block_keys_of(kind, cs.last()), key);
        (cs.len() - 1, t)
    } else {
        let r = lemma_block_contributor(kind, cs.drop_last(), key);
        assert(cs.drop_last()[r.0] == cs[r.0]);
        r
    }
}

/// Under the error policy a list of blocks yields no warnings.
proof fn lemma_no_block_warnings(kind: BlockKind, blocks: Seq<Vec<usize>>, limit: usize)
    ensures
        block_warnings(kind, blocks, limit, OversizedBlockPolicy::Error) == Seq::<ClusterWarning>::empty(),
    decreases blocks.len(),
{
    if blocks.len() > 0 {
        lemma_no_block_warnings(kind, blocks.drop_last(), limit);
    }
}

/// The warnings of the first `b` listed blocks, and the keys they are for.
proof fn lemma_listed_warnings(
    kind: BlockKind,
    cs: Seq<CandidateView>,
    views: Seq<CandidateView>,
    blocks: Seq<Vec<usize>>,
    keys: Seq<BlockKeyView>,
    limit: usize,
    b: int,
) -> (ks: Seq<BlockKeyView>)
    requires
        blocks_exact(kind, views, blocks, keys),
        forall|key: BlockKeyView| #[trigger] block_size(kind, views, key) == block_size(kind, cs, key),
        0 <= b <= blocks.len(),
    ensures
        block_warnings(kind, blocks.take(b), limit, OversizedBlockPolicy::ExactOnlyAndWarn) == listing_warnings(kind, cs, limit, ks),
        ks.no_duplicates(),
        forall|x: int| 0 <= x < ks.len() ==> oversized(block_size(kind, cs, #[trigger] ks[x]), limit),
        forall|b2: int| 0 <= b2 < b && oversized(block_size(kind, cs, #[trigger] keys[b2]), limit) ==> ks.contains(keys[b2]),
        forall|x: int| #![trigger ks[x]] 0 <= x < ks.len() ==> exists|b2: int| 0 <= b2 < b && #[trigger] keys[b2] == ks[x],
        forall|x: int, y: int| 0 <= x < y < ks.len() ==> block_key_sign(#[trigger] ks[x], #[trigger] ks[y]) < 0,
    decreases b,
{
    if b == 0 {
        assert(blocks.take(0) =~= Seq::<Vec<usize>>::empty());
        Seq::empty()
    } else {
        let rest = lemma_listed_warnings(kind, cs, views, blocks, keys, limit, b - 1);
        assert(blocks.take(b).drop_last() =~= blocks.take(b - 1));
        assert(blocks.take(b).last() == blocks[b - 1]);
        let size = block_size(kind, cs, keys[b - 1]);
        assert(blocks[b - 1]@.len() == block_size(kind, views, keys[b - 1]));
        if oversized(size, limit) {
            let ks = rest.push(keys[b - 1]);
            assert(listing_warnings(kind, cs, limit, ks) =~= listing_warnings(kind, cs, limit, rest).push(
                ClusterWarning::OversizedBlock { kind, size: blocks[b - 1]@.len() as usize, limit },
            ));
            assert forall|i: int, j: int| 0 <= i < ks.len() && 0 <= j < ks.len() && i != j implies ks[i] != ks[j] by {
                if i < rest.len() && j < rest.len() {
                    assert(rest[i] != rest[j]);
                } else if i == rest.len() {
                    let b2 = choose|b2: int| 0 <= b2 < b - 1 && #[trigger] keys[b2] == rest[j];
                    assert(keys[b2] != keys[b - 1]);
                } else {
                    let b2 = choose|b2: int| 0 <= b2 < b - 1 && #[trigger] keys[b2] == rest[i];
                    assert(keys[b2] != keys[b - 1]);
                }
            }
            assert forall|b2: int| 0 <= b2 < b && oversized(block_size(kind, cs, #[trigger] keys[b2]), limit) implies ks.contains(
                keys[b2],
            ) by {
                if b2 < b - 1 {
                    assert(rest.contains(keys[b2]));
                    let x = choose|x: int| 0 <= x < rest.len() && rest[x] == keys[b2];
                    assert(ks[x] == keys[b2]);
                } else {
                    assert(ks[rest.len() as int] == keys[b2]);
                }
            }
            assert forall|x: int| #![trigger ks[x]] 0 <= x < ks.len() implies exists|b2: int| 0 <= b2 < b && #[trigger] keys[b2] == ks[x] by {
                if x < rest.len() {
                    let b2 = choose|b2: int| 0 <= b2 < b - 1 && #[trigger] keys[b2] == rest[x];
                    assert(keys[b2] == ks[x]);
                } else {
                    assert(keys[b - 1] == ks[x]);
                }
            }
            assert forall|x: int, y: int| 0 <= x < y < ks.len() implies block_key_sign(#[trigger] ks[x], #[trigger] ks[y]) < 0 by {
                if y < rest.len() {
                    assert(ks[x] == rest[x] && ks[y] == rest[y]);
                } else {
                    assert(ks[x] == rest[x]);
                    let b2 = choose|b2: int| 0 <= b2 < b - 1 && #[trigger] keys[b2] == rest[x];
                    assert(block_key_sign(keys[b2], keys[b - 1]) < 0);
                }
            }
            ks
        } else {
            rest
        }
    }
}

/// Under the warning policy, the warnings of all listed blocks are those of
/// a listing of the oversized blocks over the input.
proof fn lemma_listing(
    kind: BlockKind,
    order: Seq<usize>,
    cs: Seq<CandidateView>,
    views: Seq<CandidateView>,
    blocks: Seq<Vec<usize>>,
    keys: Seq<BlockKeyView>,
    limit: usize,
) -> (ks: Seq<BlockKeyView>)
    requires
        blocks_exact(kind, views, blocks, keys),
        is_permutation(order, cs.len()),
        cs.len() <= usize::MAX,
        views.len() == cs.len(),
        forall|p: int| 0 <= p < views.len() ==> #[trigger] views[p] == cs[order[p] as int],
    ensures
        oversized_listing(kind, cs, limit, ks),
        block_warnings(kind, blocks, limit, OversizedBlockPolicy::ExactOnlyAndWarn) == listing_warnings(kind, cs, limit, ks),
{
    lemma_block_sizes_permuted(kind, order, cs, views);
    let ks = lemma_listed_warnings(kind, cs, views, blocks, keys, limit, blocks.len() as int);
    assert(blocks.take(blocks.len() as int) =~= blocks);
    assert forall|i: int, t: int|
        0 <= i < cs.len() && 0 <= t < block_keys_of(kind, cs[i]).len() && oversized(
            block_size(kind, cs, block_keys_of(kind, cs[i])[t]),
            limit,
        ) implies ks.contains(#[trigger] block_keys_of(kind, cs[i])[t]) by {
        let p = lemma_position(order, cs.len(), i);
        assert(views[p] == cs[i]);
        let b = choose|b: int| 0 <= b < keys.len() && #[trigger] keys[b] == #[trigger] block_keys_of(kind, views[p])[t];
    }
    ks
}

/// Under the error policy, blocks that all fit mean no oversized block over
/// the input.
proof fn lemma_fit(
    kind: BlockKind,
    order: Seq<usize>,
    cs: Seq<CandidateView>,
    views: Seq<CandidateView>,
    blocks: Seq<Vec<usize>>,
    keys: Seq<BlockKeyView>,
    limit: usize,
)
    requires
        blocks_exact(kind, views, blocks, keys),
        is_permutation(order, cs.len()),
        cs.len() <= usize::MAX,
        views.len() == cs.len(),
        forall|p: int| 0 <= p < views.len() ==> #[trigger] views[p] == cs[order[p] as int],
        forall|b: int| 0 <= b < blocks.len() ==> !oversized((#[trigger] blocks[b])@.len() as nat, limit),
    ensures
        blocks_fit(kind, cs, limit),
{
    lemma_block_sizes_permuted(kind, order, cs, views);
    assert forall|i: int, t: int| 0 <= i < cs.len() && 0 <= t < block_keys_of(kind, cs[i]).len() implies !oversized(
        block_size(kind, cs, #[trigger] block_keys_of(kind, cs[i])[t]),
        limit,
    ) by {
        let p = lemma_position(order, cs.len(), i);
        assert(views[p] == cs[i]);
        let b = choose|b: int| 0 <= b < keys.len() && #[trigger] keys[b] == #[trigger] block_keys_of(kind, views[p])[t];
        assert(blocks[b]@.len() == block_size(kind, views, keys[b]));
    }
}

/// The first oversized block met, in key order, is the first oversized block
/// over the input.
proof fn lemma_first_oversized(
    kind: BlockKind,
    order: Seq<usize>,
    cs: Seq<CandidateView>,
    views: Seq<CandidateView>,
    blocks: Seq<Vec<usize>>,
    keys: Seq<BlockKeyView>,
    limit: usize,
    size: usize,
)
    requires
        blocks_exact(kind, views, blocks, keys),
        is_permutation(order, cs.len()),
        cs.len() <= usize::MAX,
        views.len() == cs.len(),
        forall|p: int| 0 <= p < views.len() ==> #[trigger] views[p] == cs[order[p] as int],
        exists|b: int|
            0 <= b < blocks.len() && (#[trigger] blocks[b])@.len() == size && oversized(size as nat, limit) && forall|b2: int|
                0 <= b2 < b ==> !oversized(blocks[b2]@.len() as nat, limit),
    ensures
        first_oversized_block(kind, cs, limit, size),
{
    lemma_block_sizes_permuted(kind, order, cs, views);
    let b = choose|b: int|
        0 <= b < blocks.len() && (#[trigger] blocks[b])@.len() == size && oversized(size as nat, limit) && forall|b2: int|
            0 <= b2 < b ==> !oversized(blocks[b2]@.len() as nat, limit);
    let ks = lemma_listing(kind, order, cs, views, blocks, keys, limit);
    let full = lemma_listed_warnings(kind, cs, views, blocks, keys, limit, blocks.len() as int);
    assert(block_size(kind, cs, keys[b]) == size);
    assert(ks.contains(keys[b])) by {
        let (i, t) = lemma_block_contributor(kind, cs, keys[b]);
        assert(block_keys_of(kind, cs[i])[t] == keys[b]);
    }
    let x = choose|x: int| 0 <= x < ks.len() && ks[x] == keys[b];
    if x > 0 {
        assert(block_key_sign(ks[0], ks[x]) < 0);
        assert(oversized(block_size(kind, cs, ks[0]), limit));
        let (i, t) = lemma_block_contributor(kind, cs, ks[0]);
        let pi = lemma_position(order, cs.len(), i);
        assert(views[pi] == cs[i]);
        assert(keys.contains(block_keys_of(kind, views[pi])[t]));
        let b2 = choose|b2: int| 0 <= b2 < keys.len() && keys[b2] == ks[0];
        assert(blocks[b2]@.len() == block_size(kind, views, keys[b2]));
        if b2 > b {
            assert(block_key_sign(keys[b], keys[b2]) < 0);
            lemma_block_key_antisym(keys[b], keys[b2]);
        } else if b2 == b {
            lemma_block_key_antisym(ks[0], ks[x]);
        }
    }
    assert(oversized_listing(kind, cs, limit, ks));
}

/// The warnings of both kinds' blocks are exactly those of the input.
proof fn lemma_warnings(
    order: Seq<usize>,
    cs: Seq<CandidateView>,
    views: Seq<CandidateView>,
    cfg: ConfigView,
    issue_blocks: Seq<Vec<usize>>,
    issue_keys: Seq<BlockKeyView>,
    subject_blocks: Seq<Vec<usize>>,
    subject_keys: Seq<BlockKeyView>,
    warnings: Seq<ClusterWarning>,
)
    requires
        blocks_exact(BlockKind::Issue, views, issue_blocks, issue_keys),
        blocks_exact(BlockKind::Subject, views, subject_blocks, subject_keys),
        is_permutation(order, cs.len()),
        cs.len() <= usize::MAX,
        views.len() == cs.len(),
        forall|p: int| 0 <= p < views.len() ==> #[trigger] views[p] == cs[order[p] as int],
        warnings == block_warnings(BlockKind::Issue, issue_blocks, cfg.max_block_size, cfg.oversized_block_policy)
            + block_warnings(BlockKind::Subject, subject_blocks, cfg.max_block_size, cfg.oversized_block_policy),
        cfg.oversized_block_policy == OversizedBlockPolicy::Error ==> forall|b: int|
            0 <= b < issue_blocks.len() ==> !oversized((#[trigger] issue_blocks[b])@.len() as nat, cfg.max_block_size),
        cfg.oversized_block_policy == OversizedBlockPolicy::Error ==> forall|b: int|
            0 <= b < subject_blocks.len() ==> !oversized((#[trigger] subject_blocks[b])@.len() as nat, cfg.max_block_size),
    ensures
        warnings_exact(cfg, cs, warnings),
{
    let limit = cfg.max_block_size;
    if cfg.oversized_block_policy == OversizedBlockPolicy::ExactOnlyAndWarn {
        let ik = lemma_listing(BlockKind::Issue, order, cs, views, issue_blocks, issue_keys, limit);
        let sk = lemma_listing(BlockKind::Subject, order, cs, views, subject_blocks, subject_keys, limit);
        assert(warnings == listing_warnings(BlockKind::Issue, cs, limit, ik) + listing_warnings(BlockKind::Subject, cs, limit, sk));
    } else {
        lemma_no_block_warnings(BlockKind::Issue, issue_blocks, limit);
        lemma_no_block_warnings(BlockKind::Subject, subject_blocks, limit);
        lemma_fit(BlockKind::Issue, order, cs, views, issue_blocks, issue_keys, limit);
        lemma_fit(BlockKind::Subject, order, cs, views, subject_blocks, subject_keys, limit);
        assert(warnings =~= Seq::<ClusterWarning>::empty());
    }
}

/// The retained review entries are review comparisons of input candidates
/// left in different clusters, in key-pair order.
proof fn lemma_reviews(
    order: Seq<usize>,
    cs: Seq<CandidateView>,
    views: Seq<CandidateView>,
    groups: Groups,
    keys: Seq<OccurrenceKey>,
    clusters: Seq<Seq<Seq<u8>>>,
    roots: Seq<int>,
    slot: Seq<int>,
    cfg: ConfigView,
    entries: Seq<(usize, usize, Comparison)>,
    out: Seq<ComparisonView>,
    idx: Seq<int>,
)
    requires
        placement(order, cs, views, keys),
        groups.wf(),
        groups.size() == cs.len(),
        emitted(groups, keys, clusters, roots, slot),
        reviews_wf(entries, cfg, views),
        idx.len() == out.len(),
        forall|k: int|
            0 <= k < out.len() ==> 0 <= #[trigger] idx[k] < entries.len() && out[k] == entries[idx[k]].2@
                && groups.label@[entries[idx[k]].0 as int] != groups.label@[entries[idx[k]].1 as int],
        forall|k1: int, k2: int| 0 <= k1 < k2 < out.len() ==> #[trigger] idx[k1] < #[trigger] idx[k2],
    ensures
        reviews_valid(cfg, out, clusters, cs),
{
    assert forall|r: int| 0 <= r < out.len() implies exists|i: int, j: int|
        0 <= i < cs.len() && 0 <= j < cs.len() && #[trigger] out[r] == compared(cfg, cs[i], cs[j]) && !same_cluster(
            clusters,
            input_keys(cs)[i],
            input_keys(cs)[j],
        ) by {
        lemma_reviews_apart(order, cs, views, groups, keys, clusters, roots, slot, cfg, entries, out, idx, r);
    }
    assert forall|r: int| 0 <= r < out.len() implies (#[trigger] out[r]).decision == Decision::Review by {
        lemma_review_entry(order, cs, views, keys, cfg, entries, idx[r]);
    }
    lemma_reviews_ordered(order, cs, views, keys, cfg, entries, out, idx);
}

/// Labels of positions read as labels of the inputs at those positions.
pub open spec fn input_labels(order: Seq<usize>, lab: Seq<int>) -> Seq<int> {
    Seq::new(lab.len(), |i: int| lab[choose|p: int| 0 <= p < order.len() && order[p] == i])
}

/// Edges of positions read as edges of the inputs at those positions.
spec fn input_edges(order: Seq<usize>, ev: Seq<(int, int)>) -> Seq<(int, int)> {
    Seq::new(ev.len(), |e: int| (order[ev[e].0] as int, order[ev[e].1] as int))
}

/// The input at a position carries that position's label.
proof fn lemma_input_label(order: Seq<usize>, lab: Seq<int>, p: int)
    requires
        is_permutation(order, lab.len()),
        0 <= p < lab.len(),
    ensures
        input_labels(order, lab)[order[p] as int] == lab[p],
{
    let i = order[p] as int;
    assert(0 <= p < order.len() && order[p] == i);
    let p2 = choose|p2: int| 0 <= p2 < order.len() && order[p2] == i;
    assert(order[p2] == order[p]);
}

/// The greedy pass keeps the number of labels.
proof fn lemma_fold_len(cfg: ConfigView, cands: Seq<CandidateView>, lab: Seq<int>, ev: Seq<(int, int)>)
    ensures
        fuzzy_fold(cfg, cands, lab, ev).len() == lab.len(),
    decreases ev.len(),
{
    if ev.len() > 0 {
        lemma_fold_len(cfg, cands, lab, ev.drop_last());
    }
}

/// Whether `views` is `cs` read through the permutation `order`.
spec fn rearranged(order: Seq<usize>, cs: Seq<CandidateView>, views: Seq<CandidateView>) -> bool {
    &&& is_permutation(order, cs.len())
    &&& cs.len() <= usize::MAX
    &&& views.len() == cs.len()
    &&& forall|p: int| 0 <= p < views.len() ==> #[trigger] views[p] == cs[order[p] as int]
}

/// Positions placed by key are a rearrangement.
proof fn lemma_placement_rearranged(order: Seq<usize>, cs: Seq<CandidateView>, views: Seq<CandidateView>, keys: Seq<OccurrenceKey>)
    requires
        placement(order, cs, views, keys),
    ensures
        rearranged(order, cs, views),
{
}

/// Each input of a rearrangement stands at some position.
proof fn lemma_rearranged_position(order: Seq<usize>, cs: Seq<CandidateView>, views: Seq<CandidateView>, i: int) -> (p: int)
    requires
        rearranged(order, cs, views),
        0 <= i < cs.len(),
    ensures
        0 <= p < cs.len(),
        order[p] as int == i,
        views[p] == cs[i],
{
    let p = lemma_position(order, cs.len(), i);
    assert(views[p] == cs[order[p] as int]);
    p
}

/// A greedy step over positions is the same step over the inputs.
proof fn lemma_step_permuted(
    order: Seq<usize>,
    cs: Seq<CandidateView>,
    views: Seq<CandidateView>,
    keys: Seq<OccurrenceKey>,
    cfg: ConfigView,
    lab: Seq<int>,
    edge: (int, int),
)
    requires
        rearranged(order, cs, views),
        lab.len() == cs.len(),
        0 <= edge.0 < cs.len(),
        0 <= edge.1 < cs.len(),
    ensures
        fuzzy_step(cfg, cs, input_labels(order, lab), (order[edge.0] as int, order[edge.1] as int)) == input_labels(
            order,
            fuzzy_step(cfg, views, lab, edge),
        ),
{
    let m = input_labels(order, lab);
    lemma_input_label(order, lab, edge.0);
    lemma_input_label(order, lab, edge.1);
    let g = lab[edge.0];
    let h = lab[edge.1];
    let pos_ok = forall|x: int, y: int|
        0 <= x < views.len() && 0 <= y < views.len() && #[trigger] lab[x] == g && #[trigger] lab[y] == h ==> decision_of(
            cfg,
            views[x],
            views[y],
        ) == Decision::Duplicate;
    let in_ok = forall|x: int, y: int|
        0 <= x < cs.len() && 0 <= y < cs.len() && #[trigger] m[x] == g && #[trigger] m[y] == h ==> decision_of(cfg, cs[x], cs[y])
            == Decision::Duplicate;
    if pos_ok {
        assert forall|x: int, y: int|
            0 <= x < cs.len() && 0 <= y < cs.len() && #[trigger] m[x] == g && #[trigger] m[y] == h implies decision_of(
            cfg,
            cs[x],
            cs[y],
        ) == Decision::Duplicate by {
            let px = lemma_rearranged_position(order, cs, views, x);
            let py = lemma_rearranged_position(order, cs, views, y);
            lemma_input_label(order, lab, px);
            lemma_input_label(order, lab, py);
            assert(lab[px] == g && lab[py] == h);
        }
    }
    if in_ok {
        assert forall|x: int, y: int|
            0 <= x < views.len() && 0 <= y < views.len() && #[trigger] lab[x] == g && #[trigger] lab[y] == h implies decision_of(
            cfg,
            views[x],
            views[y],
        ) == Decision::Duplicate by {
            lemma_input_label(order, lab, x);
            lemma_input_label(order, lab, y);
            assert(views[x] == cs[order[x] as int] && views[y] == cs[order[y] as int]);
            assert(m[order[x] as int] == g && m[order[y] as int] == h);
        }
    }
    assert(pos_ok == in_ok);
    if g != h && pos_ok {
        let stepped = Seq::new(lab.len(), |x: int| if lab[x] == h { g } else { lab[x] });
        assert forall|i: int| 0 <= i < m.len() implies #[trigger] input_labels(order, stepped)[i] == (if m[i] == h {
            g
        } else {
            m[i]
        }) by {
            lemma_position(order, cs.len(), i);
            let c = choose|p: int| 0 <= p < order.len() && order[p] == i;
            assert(0 <= c < order.len());
        }
        assert(input_labels(order, stepped) =~= Seq::new(m.len(), |x: int| if m[x] == h { g } else { m[x] }));
    }
}

/// The greedy pass over positions is the same pass over the inputs.
proof fn lemma_fold_permuted(
    order: Seq<usize>,
    cs: Seq<CandidateView>,
    views: Seq<CandidateView>,
    keys: Seq<OccurrenceKey>,
    cfg: ConfigView,
    lab: Seq<int>,
    ev: Seq<(int, int)>,
)
    requires
        rearranged(order, cs, views),
        lab.len() == cs.len(),
        forall|e: int| 0 <= e < ev.len() ==> 0 <= (#[trigger] ev[e]).0 < cs.len() && 0 <= ev[e].1 < cs.len(),
    ensures
        fuzzy_fold(cfg, cs, input_labels(order, lab), input_edges(order, ev)) == input_labels(order, fuzzy_fold(cfg, views, lab, ev)),
    decreases ev.len(),
{
    if ev.len() > 0 {
        let rest = ev.drop_last();
        lemma_fold_permuted(order, cs, views, keys, cfg, lab, rest);
        assert(input_edges(order, ev).drop_last() =~= input_edges(order, rest));
        lemma_fold_len(cfg, views, lab, rest);
        lemma_step_permuted(order, cs, views, keys, cfg, fuzzy_fold(cfg, views, lab, rest), ev.last());
    } else {
        assert(input_edges(order, ev) =~= Seq::<(int, int)>::empty());
    }
}

/// A listed pair of positions is a candidate pair of the inputs there.
proof fn lemma_listed_candidate(
    order: Seq<usize>,
    cs: Seq<CandidateView>,
    views: Seq<CandidateView>,
    keys: Seq<OccurrenceKey>,
    cfg: ConfigView,
    issue_blocks: Seq<Vec<usize>>,
    issue_keys: Seq<BlockKeyView>,
    subject_blocks: Seq<Vec<usize>>,
    subject_keys: Seq<BlockKeyView>,
    p0: Seq<Vec<usize>>,
    p1: Seq<Vec<usize>>,
    p2: Seq<Vec<usize>>,
    p: int,
    q: int,
)
    requires
        placement(order, cs, views, keys),
        blocks_exact(BlockKind::Issue, views, issue_blocks, issue_keys),
        blocks_exact(BlockKind::Subject, views, subject_blocks, subject_keys),
        p0.len() == cs.len(),
        forall|x: int| 0 <= x < p0.len() ==> (#[trigger] p0[x])@.len() == 0,
        forall|x: int, z: usize|
            0 <= x < cs.len() && #[trigger] p1[x]@.contains(z) ==> p0[x]@.contains(z) || block_listed(
                issue_blocks,
                cfg.max_block_size,
                x,
                z as int,
            ),
        forall|x: int, z: usize|
            0 <= x < cs.len() && #[trigger] p2[x]@.contains(z) ==> p1[x]@.contains(z) || block_listed(
                subject_blocks,
                cfg.max_block_size,
                x,
                z as int,
            ),
        pairs_wf(p2, cs.len()),
        0 <= p < cs.len(),
        0 <= q < cs.len(),
        p2[p]@.contains(q as usize),
    ensures
        p <= q,
        candidate_pair(cfg, cs, order[p] as int, order[q] as int),
        byte_sign(input_keys(cs)[order[p] as int], input_keys(cs)[order[q] as int]) <= 0,
{
    let limit = cfg.max_block_size;
    let z = q as usize;
    let k = choose|k: int| 0 <= k < p2[p]@.len() && p2[p]@[k] == z;
    assert(p <= p2[p]@[k] < cs.len());
    if p1[p]@.contains(z) {
        assert(!p0[p]@.contains(z));
        lemma_listed_shares_block(BlockKind::Issue, order, cs, views, keys, issue_blocks, issue_keys, limit, p, q);
    } else {
        lemma_listed_shares_block(BlockKind::Subject, order, cs, views, keys, subject_blocks, subject_keys, limit, p, q);
    }
    assert(views[p] == cs[order[p] as int] && views[q] == cs[order[q] as int]);
    assert(keys[p]@ == input_keys(cs)[order[p] as int] && keys[q]@ == input_keys(cs)[order[q] as int]);
    if p < q {
        assert(byte_sign(keys[p]@, keys[q]@) < 0);
    } else {
        lemma_byte_antisym(keys[p]@, keys[q]@);
    }
}

/// The ranked edges of positions, read at the inputs, are the ranked fuzzy
/// edges of the inputs.
#[verifier::spinoff_prover]
#[verifier::rlimit(40)]
proof fn lemma_edges_ranked(
    order: Seq<usize>,
    cs: Seq<CandidateView>,
    views: Seq<CandidateView>,
    keys: Seq<OccurrenceKey>,
    cfg: ConfigView,
    issue_blocks: Seq<Vec<usize>>,
    issue_keys: Seq<BlockKeyView>,
    subject_blocks: Seq<Vec<usize>>,
    subject_keys: Seq<BlockKeyView>,
    p0: Seq<Vec<usize>>,
    p1: Seq<Vec<usize>>,
    p2: Seq<Vec<usize>>,
    edges: Seq<(u16, usize, usize)>,
)
    requires
        placement(order, cs, views, keys),
        blocks_exact(BlockKind::Issue, views, issue_blocks, issue_keys),
        blocks_exact(BlockKind::Subject, views, subject_blocks, subject_keys),
        forall|b: int, l: int, r: int|
            0 <= b < issue_blocks.len() && 0 <= l < r < issue_blocks[b]@.len() && !oversized(
                issue_blocks[b]@.len() as nat,
                cfg.max_block_size,
            ) ==> pair_listed(p1, #[trigger] issue_blocks[b]@[l] as int, #[trigger] issue_blocks[b]@[r] as int),
        forall|b: int, l: int, r: int|
            0 <= b < subject_blocks.len() && 0 <= l < r < subject_blocks[b]@.len() && !oversized(
                subject_blocks[b]@.len() as nat,
                cfg.max_block_size,
            ) ==> pair_listed(p2, #[trigger] subject_blocks[b]@[l] as int, #[trigger] subject_blocks[b]@[r] as int),
        pairs_grow(p1, p2),
        p0.len() == cs.len(),
        forall|x: int| 0 <= x < p0.len() ==> (#[trigger] p0[x])@.len() == 0,
        forall|x: int, z: usize|
            0 <= x < cs.len() && #[trigger] p1[x]@.contains(z) ==> p0[x]@.contains(z) || block_listed(
                issue_blocks,
                cfg.max_block_size,
                x,
                z as int,
            ),
        forall|x: int, z: usize|
            0 <= x < cs.len() && #[trigger] p2[x]@.contains(z) ==> p1[x]@.contains(z) || block_listed(
                subject_blocks,
                cfg.max_block_size,
                x,
                z as int,
            ),
        pairs_wf(p2, cs.len()),
        edges_wf(edges, cfg, views),
        edges_ranked(edges),
        forall|e: int| 0 <= e < edges.len() ==> edge_from_pair(cfg, views, p2, #[trigger] edges[e]),
        forall|p: int, q: int|
            0 <= p < p2.len() && #[trigger] p2[p]@.contains(q as usize) && 0 <= q < p2.len() && fuzzy_duplicate(
                cfg,
                views[p],
                views[q],
            ) ==> edge_listed(edges, p, q),
    ensures
        fuzzy_edges_ranked(cfg, cs, input_edges(order, edge_view(edges))),
{
    let ie = input_edges(order, edge_view(edges));
    assert forall|e: int| 0 <= e < ie.len() implies 0 <= (#[trigger] ie[e]).0 < cs.len() && 0 <= ie[e].1 < cs.len() && byte_sign(
        input_keys(cs)[ie[e].0],
        input_keys(cs)[ie[e].1],
    ) <= 0 && candidate_pair(cfg, cs, ie[e].0, ie[e].1) && fuzzy_duplicate(cfg, cs[ie[e].0], cs[ie[e].1]) by {
        let p = edges[e].1 as int;
        let q = edges[e].2 as int;
        assert(edge_from_pair(cfg, views, p2, edges[e]));
        lemma_listed_candidate(order, cs, views, keys, cfg, issue_blocks, issue_keys, subject_blocks, subject_keys, p0, p1, p2, p, q);
        assert(views[p] == cs[order[p] as int] && views[q] == cs[order[q] as int]);
    }
    assert forall|i: int, j: int|
        0 <= i < cs.len() && 0 <= j < cs.len() && byte_sign(input_keys(cs)[i], input_keys(cs)[j]) <= 0 && #[trigger] candidate_pair(
            cfg,
            cs,
            i,
            j,
        ) && fuzzy_duplicate(cfg, cs[i], cs[j]) implies ie.contains((i, j)) by {
        let limit = cfg.max_block_size;
        let pi = lemma_input_position(order, cs, views, keys, i);
        let pj = lemma_input_position(order, cs, views, keys, j);
        if pi > pj {
            assert(byte_sign(keys[pj]@, keys[pi]@) < 0);
            lemma_byte_antisym(keys[pj]@, keys[pi]@);
        }
        if shares_fitting_block(BlockKind::Issue, cs, limit, i, j) {
            lemma_shared_block_listed(BlockKind::Issue, order, cs, views, keys, issue_blocks, issue_keys, p1, limit, i, j, pi, pj);
        } else {
            lemma_shared_block_listed(BlockKind::Subject, order, cs, views, keys, subject_blocks, subject_keys, p2, limit, i, j, pi, pj);
        }
        assert(p2[pi]@.contains(pj as usize));
        let e = choose|e: int| 0 <= e < edges.len() && (#[trigger] edges[e]).1 == pi && edges[e].2 == pj;
        assert(ie[e] == (i, j));
    }
    assert forall|e1: int, e2: int| 0 <= e1 < e2 < ie.len() implies edge_before(cfg, cs, #[trigger] ie[e1], #[trigger] ie[e2]) by {
        assert(edge_precedes(edges[e1], edges[e2]));
        assert(edge_from_pair(cfg, views, p2, edges[e1]));
        assert(edge_from_pair(cfg, views, p2, edges[e2]));
        let a = edges[e1].1 as int;
        let b = edges[e1].2 as int;
        let c = edges[e2].1 as int;
        let d = edges[e2].2 as int;
        assert(views[a] == cs[order[a] as int] && views[b] == cs[order[b] as int]);
        assert(views[c] == cs[order[c] as int] && views[d] == cs[order[d] as int]);
        assert(keys[a]@ == input_keys(cs)[order[a] as int] && keys[c]@ == input_keys(cs)[order[c] as int]);
        assert(keys[b]@ == input_keys(cs)[order[b] as int] && keys[d]@ == input_keys(cs)[order[d] as int]);
        if a < c {
            assert(byte_sign(keys[a]@, keys[c]@) < 0);
        }
        if a == c && b < d {
            assert(byte_sign(keys[b]@, keys[d]@) < 0);
        }
    }
}

/// The groups the exact phase leaves, read at the inputs, are an exact
/// grouping with as many groups as roots.
proof fn lemma_exact_grouping(
    order: Seq<usize>,
    cs: Seq<CandidateView>,
    views: Seq<CandidateView>,
    keys: Seq<OccurrenceKey>,
    cfg: ConfigView,
    exact: Groups,
)
    requires
        placement(order, cs, views, keys),
        fuzzy_invariant(exact, exact.label@, cfg, views, cfg.cross_source_only),
        exact_settled(exact, cfg, views, cfg.cross_source_only),
    ensures
        exact_grouping(cfg, cs, input_labels(order, label_view(exact.label@))),
        input_labels(order, label_view(exact.label@)).to_set() == exact.roots(),
{
    let lab = label_view(exact.label@);
    let m = input_labels(order, lab);
    assert forall|v: CandidateView| views.contains(v) implies #[trigger] cs.contains(v) by {
        let p = choose|p: int| 0 <= p < views.len() && views[p] == v;
        assert(cs[order[p] as int] == v);
    }
    assert forall|i: int, j: int| 0 <= i < cs.len() && 0 <= j < cs.len() && #[trigger] m[i] == #[trigger] m[j] implies key_linked(
        cfg,
        cs,
        cs[i],
        cs[j],
    ) by {
        let pi = lemma_input_position(order, cs, views, keys, i);
        let pj = lemma_input_position(order, cs, views, keys, j);
        lemma_input_label(order, lab, pi);
        lemma_input_label(order, lab, pj);
        assert(exact.label@[pi] == exact.label@[pj]);
        lemma_linked_transfer(cfg, views, cs, cs[i], cs[j]);
    }
    if cfg.cross_source_only {
        assert forall|i: int, j: int|
            0 <= i < cs.len() && 0 <= j < cs.len() && i != j && #[trigger] m[i] == #[trigger] m[j] implies cs[i].origin.source
            != cs[j].origin.source by {
            let pi = lemma_input_position(order, cs, views, keys, i);
            let pj = lemma_input_position(order, cs, views, keys, j);
            lemma_input_label(order, lab, pi);
            lemma_input_label(order, lab, pj);
            assert(exact.label@[pi] == exact.label@[pj]);
        }
    }
    assert forall|i: int, j: int|
        0 <= i < cs.len() && 0 <= j < cs.len() && shares_correlation_key(cfg, #[trigger] cs[i], #[trigger] cs[j]) implies m[i]
        == m[j] || (cfg.cross_source_only && exists|x: int, y: int|
        0 <= x < cs.len() && 0 <= y < cs.len() && #[trigger] m[x] == m[i] && #[trigger] m[y] == m[j] && cs[x].origin.source
            == cs[y].origin.source) by {
        let pi = lemma_input_position(order, cs, views, keys, i);
        let pj = lemma_input_position(order, cs, views, keys, j);
        lemma_input_label(order, lab, pi);
        lemma_input_label(order, lab, pj);
        reveal(exact_settled);
        assert(shares_correlation_key(cfg, views[pi], views[pj]));
        assert(settled(exact, views, cfg.cross_source_only, pi, pj));
        if exact.label@[pi] != exact.label@[pj] {
            let (a, b) = choose|a: int, b: int|
                0 <= a < views.len() && 0 <= b < views.len() && #[trigger] exact.label@[a] == exact.label@[pi] && #[trigger] exact.label@[b]
                    == exact.label@[pj] && views[a].origin.source == views[b].origin.source;
            lemma_input_label(order, lab, a);
            lemma_input_label(order, lab, b);
            let x = order[a] as int;
            let y = order[b] as int;
            assert(views[a] == cs[x] && views[b] == cs[y]);
            assert(m[x] == m[i] && m[y] == m[j]);
        }
    }
    assert forall|g: int| #[trigger] m.to_set().contains(g) implies exact.roots().contains(g) by {
        let i = choose|i: int| 0 <= i < m.len() && m[i] == g;
        let p = lemma_input_position(order, cs, views, keys, i);
        lemma_input_label(order, lab, p);
        assert(exact.label@[exact.label@[p] as int] == exact.label@[p]);
    }
    assert forall|g: int| #[trigger] exact.roots().contains(g) implies m.to_set().contains(g) by {
        lemma_input_label(order, lab, g);
        assert(m[order[g] as int] == g);
    }
    assert(m.to_set() =~= exact.roots());
}

/// The pairs of positions, the lower first, below `n`.
spec fn position_pairs(n: int) -> Set<(int, int)> {
    Set::new(|pq: (int, int)| 0 <= pq.0 <= pq.1 < n)
}

/// There are `n(n+1)/2` pairs of positions below `n`, the lower first.
proof fn lemma_position_pairs_len(n: nat)
    ensures
        position_pairs(n as int).finite(),
        position_pairs(n as int).len() == n * (n + 1) / 2,
    decreases n,
{
    if n == 0 {
        assert(position_pairs(0) =~= Set::<(int, int)>::empty());
    } else {
        let m = (n - 1) as nat;
        lemma_position_pairs_len(m);
        let column = Set::new(|pq: (int, int)| 0 <= pq.0 <= m && pq.1 == m as int);
        let f = |p: int| (p, m as int);
        let range = vstd::set_lib::set_int_range(0, n as int);
        vstd::set_lib::lemma_int_range(0, n as int);
        assert(vstd::relations::injective_on(f, range));
        assert(range.map(f) =~= column) by {
            assert forall|pq: (int, int)| #[trigger] column.contains(pq) implies range.map(f).contains(pq) by {
                assert(range.contains(pq.0) && f(pq.0) == pq);
            }
        }
        vstd::set_lib::lemma_map_size(range, column, f);
        assert(position_pairs(m as int).disjoint(column));
        vstd::set_lib::lemma_set_disjoint_lens(position_pairs(m as int), column);
        assert(position_pairs(n as int) =~= position_pairs(m as int) + column);
        assert(n * (n + 1) == m * (m + 1) + 2 * n) by (nonlinear_arith)
            requires
                m + 1 == n,
        ;
        assert((m * (m + 1) + 2 * n) / 2 == m * (m + 1) / 2 + n);
    }
}

/// The cached pairs are at most `n(n+1)/2`.
proof fn lemma_cached_len(cache: Seq<Vec<(usize, Decision)>>, cfg: ConfigView, views: Seq<CandidateView>)
    requires
        cache_wf(cache, cfg, views),
    ensures
        cached(cache).finite(),
        cached(cache).len() <= views.len() * (views.len() + 1) / 2,
{
    lemma_position_pairs_len(views.len());
    assert forall|pq: (int, int)| #[trigger] cached(cache).contains(pq) implies position_pairs(views.len() as int).contains(pq) by {
        let k = choose|k: int| 0 <= k < cache[pq.0]@.len() && (#[trigger] cache[pq.0]@[k]).0 as int == pq.1;
    }
    vstd::set_lib::lemma_len_subset(cached(cache), position_pairs(views.len() as int));
}

/// Pairs of positions read as pairs of the inputs at those positions.
spec fn at_inputs(order: Seq<usize>, s: Set<(int, int)>) -> Set<(int, int)> {
    s.map(|pq: (int, int)| (order[pq.0] as int, order[pq.1] as int))
}

/// Reading pairs at the inputs distributes over union.
proof fn lemma_at_inputs_union(order: Seq<usize>, a: Set<(int, int)>, b: Set<(int, int)>)
    ensures
        at_inputs(order, a.union(b)) == at_inputs(order, a).union(at_inputs(order, b)),
{
    assert forall|ij: (int, int)| #[trigger] at_inputs(order, a.union(b)).contains(ij) <==> at_inputs(order, a).union(at_inputs(order, b)).contains(ij) by {
        if at_inputs(order, a.union(b)).contains(ij) {
            let pq = choose|pq: (int, int)| a.union(b).contains(pq) && (order[pq.0] as int, order[pq.1] as int) == ij;
            if a.contains(pq) {
                assert(at_inputs(order, a).contains(ij));
            } else {
                assert(at_inputs(order, b).contains(ij));
            }
        }
        if at_inputs(order, a).contains(ij) {
            let pq = choose|pq: (int, int)| a.contains(pq) && (order[pq.0] as int, order[pq.1] as int) == ij;
            assert(a.union(b).contains(pq));
        }
        if at_inputs(order, b).contains(ij) {
            let pq = choose|pq: (int, int)| b.contains(pq) && (order[pq.0] as int, order[pq.1] as int) == ij;
            assert(a.union(b).contains(pq));
        }
    }
    assert(at_inputs(order, a.union(b)) =~= at_inputs(order, a).union(at_inputs(order, b)));
}

/// The pairs a greedy step over positions decides are, at the inputs, those
/// of the same step over the inputs.
proof fn lemma_cross_permuted(
    order: Seq<usize>,
    cs: Seq<CandidateView>,
    views: Seq<CandidateView>,
    keys: Seq<OccurrenceKey>,
    lab: Seq<int>,
    edge: (int, int),
)
    requires
        rearranged(order, cs, views),
        lab.len() == cs.len(),
        0 <= edge.0 < cs.len(),
        0 <= edge.1 < cs.len(),
    ensures
        at_inputs(order, cross_pairs(views, lab, edge)) == cross_pairs(cs, input_labels(order, lab), (order[edge.0] as int, order[edge.1] as int)),
{
    let m = input_labels(order, lab);
    let e2 = (order[edge.0] as int, order[edge.1] as int);
    lemma_input_label(order, lab, edge.0);
    lemma_input_label(order, lab, edge.1);
    assert forall|ij: (int, int)| #[trigger] at_inputs(order, cross_pairs(views, lab, edge)).contains(ij) <==> cross_pairs(cs, m, e2).contains(ij) by {
        if at_inputs(order, cross_pairs(views, lab, edge)).contains(ij) {
            let pq = choose|pq: (int, int)| cross_pairs(views, lab, edge).contains(pq) && (order[pq.0] as int, order[pq.1] as int) == ij;
            lemma_input_label(order, lab, pq.0);
            lemma_input_label(order, lab, pq.1);
            assert(views[pq.0] == cs[ij.0] && views[pq.1] == cs[ij.1]);
            assert(input_keys(views)[pq.0] == input_keys(cs)[ij.0]);
            assert(input_keys(views)[pq.1] == input_keys(cs)[ij.1]);
        }
        if cross_pairs(cs, m, e2).contains(ij) {
            let pi = lemma_rearranged_position(order, cs, views, ij.0);
            let pj = lemma_rearranged_position(order, cs, views, ij.1);
            lemma_input_label(order, lab, pi);
            lemma_input_label(order, lab, pj);
            assert(input_keys(views)[pi] == input_keys(cs)[ij.0]);
            assert(input_keys(views)[pj] == input_keys(cs)[ij.1]);
            assert(cross_pairs(views, lab, edge).contains((pi, pj)));
        }
    }
    assert(at_inputs(order, cross_pairs(views, lab, edge)) =~= cross_pairs(cs, m, e2));
}

/// The pairs the greedy pass over positions decides are, at the inputs,
/// those of the same pass over the inputs.
proof fn lemma_checked_permuted(
    order: Seq<usize>,
    cs: Seq<CandidateView>,
    views: Seq<CandidateView>,
    keys: Seq<OccurrenceKey>,
    cfg: ConfigView,
    lab: Seq<int>,
    ev: Seq<(int, int)>,
)
    requires
        rearranged(order, cs, views),
        lab.len() == cs.len(),
        forall|e: int| 0 <= e < ev.len() ==> 0 <= (#[trigger] ev[e]).0 < cs.len() && 0 <= ev[e].1 < cs.len(),
    ensures
        at_inputs(order, checked_pairs(cfg, views, lab, ev)) == checked_pairs(cfg, cs, input_labels(order, lab), input_edges(order, ev)),
    decreases ev.len(),
{
    if ev.len() == 0 {
        assert(at_inputs(order, Set::<(int, int)>::empty()) =~= Set::<(int, int)>::empty());
        assert(input_edges(order, ev) =~= Seq::<(int, int)>::empty());
    } else {
        let rest = ev.drop_last();
        lemma_checked_permuted(order, cs, views, keys, cfg, lab, rest);
        lemma_fold_permuted(order, cs, views, keys, cfg, lab, rest);
        lemma_fold_len(cfg, views, lab, rest);
        assert(input_edges(order, ev).drop_last() =~= input_edges(order, rest));
        lemma_cross_permuted(order, cs, views, keys, fuzzy_fold(cfg, views, lab, rest), ev.last());
        lemma_at_inputs_union(
            order,
            checked_pairs(cfg, views, lab, rest),
            cross_pairs(views, fuzzy_fold(cfg, views, lab, rest), ev.last()),
        );
    }
}

/// Cached pairs are pairs of positions.
proof fn lemma_cached_bounds(cache: Seq<Vec<(usize, Decision)>>, cfg: ConfigView, views: Seq<CandidateView>)
    requires
        cache_wf(cache, cfg, views),
    ensures
        forall|pq: (int, int)| #[trigger] cached(cache).contains(pq) ==> 0 <= pq.0 < views.len() && 0 <= pq.1 < views.len(),
{
    assert forall|pq: (int, int)| #[trigger] cached(cache).contains(pq) implies 0 <= pq.0 < views.len() && 0 <= pq.1 < views.len() by {
        let k = choose|k: int| 0 <= k < cache[pq.0]@.len() && (#[trigger] cache[pq.0]@[k]).0 as int == pq.1;
    }
}

/// Pairs of positions, read at the inputs, are as many.
proof fn lemma_at_inputs_len(order: Seq<usize>, n: nat, s: Set<(int, int)>)
    requires
        is_permutation(order, n),
        s.finite(),
        forall|pq: (int, int)| #[trigger] s.contains(pq) ==> 0 <= pq.0 < n && 0 <= pq.1 < n,
    ensures
        at_inputs(order, s).len() == s.len(),
        at_inputs(order, s).finite(),
{
    let f = |pq: (int, int)| (order[pq.0] as int, order[pq.1] as int);
    assert(vstd::relations::injective_on(f, s)) by {
        assert forall|a: (int, int), b: (int, int)| s.contains(a) && s.contains(b) && #[trigger] f(a) == #[trigger] f(b) implies a == b by {
            assert(order[a.0] == order[b.0] && order[a.1] == order[b.1]);
        }
    }
    assert(at_inputs(order, s) =~= s.map(f));
    vstd::set_lib::lemma_map_size(s, s.map(f), f);
}

/// The groups the exact merges leave are those of the exact phase.
proof fn lemma_exact_phase(
    order: Seq<usize>,
    cs: Seq<CandidateView>,
    views: Seq<CandidateView>,
    keys: Seq<OccurrenceKey>,
    cfg: ConfigView,
    exact: Seq<usize>,
    block_keys: Seq<CorrelationKey>,
    blocks: Seq<Vec<usize>>,
)
    requires
        placement(order, cs, views, keys),
        label_view(exact) == exact_fold(views, cfg.cross_source_only, identity_labels(cs.len()), block_view(blocks)),
        block_keys.len() == blocks.len(),
        forall|b: int, k: int|
            0 <= b < blocks.len() && 0 <= k < blocks[b]@.len() ==> #[trigger] blocks[b]@[k] < views.len() && correlation_key_set(
                cfg,
                views[blocks[b]@[k] as int],
            ).contains(block_keys[b]@),
        block_keys_sorted(block_keys),
        forall|b: int| 0 <= b < blocks.len() ==> increasing(#[trigger] blocks[b]@),
        forall|b: int| 0 <= b < blocks.len() ==> (#[trigger] blocks[b])@.len() > 0,
        forall|q: int, k: Seq<u8>|
            0 <= q < views.len() && #[trigger] correlation_key_set(cfg, views[q]).contains(k) ==> exists|b: int|
                0 <= b < block_keys.len() && #[trigger] block_keys[b]@ == k && blocks[b]@.contains(q as usize),
    ensures
        exact_phase(cfg, cs, input_labels(order, label_view(exact))),
{
    let bv = block_view(blocks);
    let kv = Seq::new(block_keys.len(), |b: int| block_keys[b]@);
    assert(arranged(cs, order) =~= views) by {
        assert forall|p: int| 0 <= p < views.len() implies #[trigger] arranged(cs, order)[p] == views[p] by {
            assert(views[p] == cs[order[p] as int]);
        }
    }
    assert(key_order(cs, order)) by {
        assert forall|p: int, q: int| 0 <= p < q < order.len() implies byte_sign(
            input_keys(cs)[#[trigger] order[p] as int],
            input_keys(cs)[#[trigger] order[q] as int],
        ) < 0 by {
            assert(views[p] == cs[order[p] as int] && views[q] == cs[order[q] as int]);
            assert(keys[p]@ == input_keys(cs)[order[p] as int] && keys[q]@ == input_keys(cs)[order[q] as int]);
            assert(byte_sign(keys[p]@, keys[q]@) < 0);
        }
    }
    assert(keys_sorted(kv)) by {
        assert forall|x: int, y: int| 0 <= x < y < kv.len() implies byte_sign(#[trigger] kv[x], #[trigger] kv[y]) < 0 by {
            assert(byte_sign(block_keys[x]@, block_keys[y]@) < 0);
        }
    }
    assert forall|b: int, q: int|
        0 <= b < bv.len() && 0 <= q < views.len() && #[trigger] correlation_key_set(cfg, views[q]).contains(kv[b]) implies bv[b].contains(q) by {
        let b2 = choose|b2: int| 0 <= b2 < block_keys.len() && #[trigger] block_keys[b2]@ == kv[b] && blocks[b2]@.contains(q as usize);
        if b2 != b {
            if b < b2 {
                assert(byte_sign(block_keys[b]@, block_keys[b2]@) < 0);
            } else {
                assert(byte_sign(block_keys[b2]@, block_keys[b]@) < 0);
            }
            lemma_byte_antisym(block_keys[b]@, block_keys[b2]@);
        }
        let k = choose|k: int| 0 <= k < blocks[b]@.len() && blocks[b]@[k] == q as usize;
        assert(bv[b][k] == q);
    }
    assert forall|q: int, k: Seq<u8>| 0 <= q < views.len() && #[trigger] correlation_key_set(cfg, views[q]).contains(k) implies kv.contains(
        k,
    ) by {
        let b2 = choose|b2: int| 0 <= b2 < block_keys.len() && #[trigger] block_keys[b2]@ == k && blocks[b2]@.contains(q as usize);
        assert(kv[b2] == k);
    }
    assert forall|b: int, x: int, y: int| 0 <= b < bv.len() && 0 <= x < y < bv[b].len() implies #[trigger] bv[b][x] < #[trigger] bv[b][y] by {
        assert(blocks[b]@[x] < blocks[b]@[y]);
    }
    assert forall|b: int, k: int| 0 <= b < bv.len() && 0 <= k < bv[b].len() implies 0 <= #[trigger] bv[b][k] < views.len()
        && correlation_key_set(cfg, views[bv[b][k]]).contains(kv[b]) by {
        assert(bv[b][k] == blocks[b]@[k] as int);
    }
    assert forall|b: int| 0 <= b < bv.len() implies #[trigger] bv[b].len() > 0 by {
        assert(blocks[b]@.len() > 0);
    }
    assert(exact_blocks_of(cfg, views, bv));
    assert(exact_fold(arranged(cs, order), cfg.cross_source_only, identity_labels(cs.len()), bv) == label_view(exact));
    assert(exact_phase_by(cfg, cs, input_labels(order, label_view(exact)), order, bv));
}

/// The emitted clusters are the greedy complete-link pass over the ranked
/// fuzzy edges of the inputs, from their exact grouping.
proof fn lemma_fuzzy_greedy(
    order: Seq<usize>,
    cs: Seq<CandidateView>,
    views: Seq<CandidateView>,
    groups: Groups,
    keys: Seq<OccurrenceKey>,
    clusters: Seq<Seq<Seq<u8>>>,
    roots: Seq<int>,
    slot: Seq<int>,
    cfg: ConfigView,
    exact: Groups,
    edges: Seq<(u16, usize, usize)>,
    r: ClusterResultView,
    listed: Seq<Vec<usize>>,
    decided: Set<(int, int)>,
)
    requires
        placement(order, cs, views, keys),
        groups.wf(),
        groups.size() == cs.len(),
        emitted(groups, keys, clusters, roots, slot),
        exact.size() == cs.len(),
        exact_grouping(cfg, cs, input_labels(order, label_view(exact.label@))),
        exact_phase(cfg, cs, input_labels(order, label_view(exact.label@))),
        input_labels(order, label_view(exact.label@)).to_set() == exact.roots(),
        fuzzy_edges_ranked(cfg, cs, input_edges(order, edge_view(edges))),
        edges_wf(edges, cfg, views),
        label_view(groups.label@) == fuzzy_fold(cfg, views, label_view(exact.label@), edge_view(edges)),
        r.clusters == clusters,
        r.stats.exact_merges() + exact.roots().len() == cs.len(),
        r.stats.fuzzy_merges() + groups.roots().len() == exact.roots().len(),
        clusters.len() == groups.roots().len(),
        decided.finite(),
        forall|pq: (int, int)| #[trigger] decided.contains(pq) ==> 0 <= pq.0 < cs.len() && 0 <= pq.1 < cs.len(),
        decided == listed_pairs(listed, cs.len() as int).union(checked_pairs(cfg, views, label_view(exact.label@), edge_view(edges))),
        at_inputs(order, listed_pairs(listed, cs.len() as int)) == candidate_pairs_of(cfg, cs),
        r.stats.comparisons() == capped(decided.len()),
    ensures
        clusters_fuzzy_greedy(cfg, cs, r),
{
    let ex = input_labels(order, label_view(exact.label@));
    let ev = edge_view(edges);
    let ie = input_edges(order, ev);
    lemma_placement_rearranged(order, cs, views, keys);
    lemma_fold_permuted(order, cs, views, keys, cfg, label_view(exact.label@), ev);
    let fold = fuzzy_fold(cfg, cs, ex, ie);
    lemma_checked_permuted(order, cs, views, keys, cfg, label_view(exact.label@), ev);
    lemma_at_inputs_union(order, listed_pairs(listed, cs.len() as int), checked_pairs(cfg, views, label_view(exact.label@), ev));
    lemma_at_inputs_len(order, cs.len(), decided);
    assert(at_inputs(order, decided) == candidate_pairs_of(cfg, cs).union(checked_pairs(cfg, cs, ex, ie)));
    let lab = label_view(groups.label@);
    assert forall|i: int, j: int| 0 <= i < cs.len() && 0 <= j < cs.len() implies (#[trigger] same_cluster(
        clusters,
        input_keys(cs)[i],
        input_keys(cs)[j],
    ) <==> fold[i] == fold[j]) by {
        let pi = lemma_input_position(order, cs, views, keys, i);
        let pj = lemma_input_position(order, cs, views, keys, j);
        lemma_input_label(order, lab, pi);
        lemma_input_label(order, lab, pj);
        if groups.label@[pi] == groups.label@[pj] {
            lemma_same_label_same_cluster(order, cs, views, groups, keys, clusters, roots, slot, pi, pj);
        }
        if same_cluster(clusters, input_keys(cs)[i], input_keys(cs)[j]) {
            let c = choose|c: int| 0 <= c < clusters.len() && #[trigger] clusters[c].contains(input_keys(cs)[i]) && clusters[c].contains(
                input_keys(cs)[j],
            );
            let qi = lemma_member_label(order, cs, views, groups, keys, clusters, roots, slot, c, i);
            let qj = lemma_member_label(order, cs, views, groups, keys, clusters, roots, slot, c, j);
            assert(order[qi] == order[pi]);
            assert(order[qj] == order[pj]);
        }
    }
    assert(fuzzy_greedy_by(cfg, cs, r, ex, ie));
}

/// The emitted clusters are as many as the groups.
proof fn lemma_cluster_count(groups: Groups, keys: Seq<OccurrenceKey>, clusters: Seq<Seq<Seq<u8>>>, roots: Seq<int>, slot: Seq<int>)
    requires
        groups.wf(),
        emitted(groups, keys, clusters, roots, slot),
    ensures
        clusters.len() == groups.roots().len(),
{
    assert forall|g: int| #[trigger] groups.roots().contains(g) implies roots.to_set().contains(g) by {
        assert(roots[slot[g]] == g);
    }
    assert forall|g: int| #[trigger] roots.to_set().contains(g) implies groups.roots().contains(g) by {
        let c = choose|c: int| 0 <= c < roots.len() && roots[c] == g;
    }
    assert(roots.to_set() =~= groups.roots());
    roots.unique_seq_to_set();
}

/// The emitted clusters partition the input keys.
proof fn lemma_partition(
    order: Seq<usize>,
    cs: Seq<CandidateView>,
    views: Seq<CandidateView>,
    groups: Groups,
    keys: Seq<OccurrenceKey>,
    clusters: Seq<Seq<Seq<u8>>>,
    roots: Seq<int>,
    slot: Seq<int>,
)
    requires
        placement(order, cs, views, keys),
        groups.wf(),
        groups.size() == cs.len(),
        emitted(groups, keys, clusters, roots, slot),
    ensures
        clusters_partition(clusters, input_keys(cs)),
{
    lemma_clusters_sorted(order, cs, views, groups, keys, clusters, roots, slot);
    lemma_clusters_cover(order, cs, views, groups, keys, clusters, roots, slot);
    lemma_clusters_within(order, cs, views, groups, keys, clusters, roots, slot);
    lemma_clusters_disjoint(order, cs, views, groups, keys, clusters, roots, slot);
}

// ---------------------------------------------------------------------------
// Batch correlation.
// ---------------------------------------------------------------------------

impl crate::compare::Deduplicator {
    /// Correlates a batch into deterministic, provenance-preserving clusters.
    ///
    /// Exact keys are unioned first. Fuzzy merges then use complete-link
    /// semantics: every cross-pair between two existing groups must independently
    /// qualify as [`Decision::Duplicate`]. Fuzzy edges are taken best score first,
    /// ties by their pair of occurrence keys. Text-only pairs are not generated in
    /// batch mode, preventing unrestricted quadratic comparison. With the default
    /// cross-source-only policy, exact and fuzzy clusters both contain at most one
    /// occurrence from each source.
    ///
    /// Fails with [`ClusterError::DuplicateOccurrence`], naming the least
    /// repeated key, exactly when two inputs share an occurrence key; fails with
    /// [`ClusterError::OversizedBlock`] only under the error policy, for the
    /// first block larger than the configured maximum (issue blocks before
    /// subject blocks, each in block-key order).
    #[verifier::spinoff_prover]
    #[verifier::rlimit(60)]
    pub fn cluster(&self, candidates: &[Candidate]) -> (r: Result<ClusterResult, ClusterError>)
        ensures
            match r {
                Ok(result) => all_distinct(input_keys(input_views(candidates@))) && cluster_result_valid(
                    self.policy(),
                    input_views(candidates@),
                    result@,
                ),
                Err(ClusterError::DuplicateOccurrence(k)) => least_duplicate(input_keys(input_views(candidates@)), k@),
                Err(ClusterError::OversizedBlock { kind, size, limit }) => all_distinct(input_keys(input_views(candidates@)))
                    && self.policy().oversized_block_policy == OversizedBlockPolicy::Error && limit == self.policy().max_block_size
                    && size > limit && first_oversized_block(kind, input_views(candidates@), limit, size) && (kind
                    == BlockKind::Subject ==> blocks_fit(BlockKind::Issue, input_views(candidates@), limit)),
            },
    {
        let ghost cfg = self.policy();
        let ghost cs = input_views(candidates@);
        let n = candidates.len();
        let mut keys: Vec<OccurrenceKey> = Vec::new();
        let mut i: usize = 0;
        while i < n
            invariant
                n == candidates@.len(),
                cs == input_views(candidates@),
                i <= n,
                keys@.len() == i,
                forall|k: int| 0 <= k < i ==> (#[trigger] keys@[k])@ == occurrence_key_of(cs[k]),
            decreases n - i,
        {
            keys.push(self.occurrence_key(&candidates[i]));
            i = i + 1;
        }
        assert(occurrence_views(keys@) =~= input_keys(cs));
        let order = order_by_key(&keys);
        match find_duplicate(&keys, &order) {
            Some(p) => {
                return Err(ClusterError::DuplicateOccurrence(keys[order[p]]));
            },
            None => {},
        }
        let mut batch_candidates: Vec<&Candidate> = Vec::new();
        let mut batch_keys: Vec<OccurrenceKey> = Vec::new();
        let mut correlation: Vec<Vec<CorrelationKey>> = Vec::new();
        let mut p: usize = 0;
        while p < n
            invariant
                n == candidates@.len(),
                cs == input_views(candidates@),
                cfg == self.policy(),
                keys@.len() == n,
                forall|k: int| 0 <= k < n ==> (#[trigger] keys@[k])@ == occurrence_key_of(cs[k]),
                is_permutation(order@, n as nat),
                p <= n,
                batch_candidates@.len() == p,
                batch_keys@.len() == p,
                correlation@.len() == p,
                forall|q: int| 0 <= q < p ==> (#[trigger] batch_candidates@[q])@ == cs[order@[q] as int],
                forall|q: int| 0 <= q < p ==> (#[trigger] batch_keys@[q]) == keys@[order@[q] as int],
                forall|q: int|
                    0 <= q < p ==> key_views((#[trigger] correlation@[q])@).to_set() == correlation_key_set(cfg, cs[order@[q] as int])
                        && keys_sorted(key_views(correlation@[q]@)),
            decreases n - p,
        {
            let x = order[p];
            batch_candidates.push(&candidates[x]);
            batch_keys.push(keys[x]);
            correlation.push(self.correlation_keys(&candidates[x]));
            p = p + 1;
        }
        let batch = Batch { candidates: batch_candidates, keys: batch_keys, correlation };
        let ghost views = batch.views();
        proof {
            assert forall|q: int| 0 <= q < n implies #[trigger] views[q] == cs[order@[q] as int] by {
                assert(views[q] == batch.candidates@[q]@);
            }
            assert forall|q1: int, q2: int| 0 <= q1 < q2 < n implies byte_sign(
                #[trigger] batch.keys@[q1]@,
                #[trigger] batch.keys@[q2]@,
            ) < 0 by {
                let a = order@[q1] as int;
                let b = order@[q2] as int;
                assert(byte_sign(occurrence_views(keys@)[a], occurrence_views(keys@)[b]) <= 0);
                assert(a != b);
                assert(occurrence_views(keys@)[a] != occurrence_views(keys@)[b]);
                lemma_byte_antisym(keys@[a]@, keys@[b]@);
            }
            assert(batch.wf(cfg));
            assert(placement(order@, cs, views, batch.keys@));
        }
        let mut groups = Groups::new(n);
        let cross_source_only = self.config().cross_source_only();
        proof {
            assert forall|x: int, y: int|
                0 <= x < n && 0 <= y < n && #[trigger] groups.label@[x] == #[trigger] groups.label@[y] implies key_linked(
                cfg,
                views,
                views[x],
                views[y],
            ) by {
                assert(views.contains(views[x]));
                lemma_linked_refl(cfg, views, views[x]);
            }
        }
        let (block_keys, blocks) = exact_blocks(&batch, Ghost(cfg));
        let ghost init_label = label_view(groups.label@);
        let exact_merges = merge_exact(&batch, &mut groups, &blocks, &block_keys, cross_source_only, Ghost(cfg));
        proof {
            lemma_blocks_exact_settled(groups, cfg, views, cross_source_only, block_keys@, blocks@);
        }
        let ghost exact = groups.label@;
        let ghost exact_groups: Groups = groups;
        let (issue_blocks, Ghost(issue_keys)) = collect_blocks(&batch, BlockKind::Issue, Ghost(cfg));
        let (subject_blocks, Ghost(subject_keys)) = collect_blocks(&batch, BlockKind::Subject, Ghost(cfg));
        let limit = self.config().max_block_size();
        let policy = self.config().oversized_block_policy();
        let mut warnings: Vec<ClusterWarning> = Vec::new();
        let mut pairs: Vec<Vec<usize>> = Vec::new();
        let mut cache: Vec<Vec<(usize, Decision)>> = Vec::new();
        let mut q: usize = 0;
        while q < n
            invariant
                q <= n,
                pairs@.len() == q,
                cache@.len() == q,
                forall|k: int| 0 <= k < q ==> (#[trigger] pairs@[k])@.len() == 0,
                forall|k: int| 0 <= k < q ==> (#[trigger] cache@[k])@.len() == 0,
            decreases n - q,
        {
            pairs.push(Vec::new());
            cache.push(Vec::new());
            q = q + 1;
        }
        let ghost empty_pairs = pairs@;
        match add_block_pairs(BlockKind::Issue, &issue_blocks, &mut pairs, &mut warnings, limit, policy, Ghost(n as nat)) {
            Err(e) => {
                proof {
                    if let ClusterError::OversizedBlock { size, .. } = e {
                        lemma_first_oversized(BlockKind::Issue, order@, cs, views, issue_blocks@, issue_keys, limit, size);
                    }
                }
                return Err(e);
            },
            Ok(_) => {},
        }
        let ghost after_issue = warnings@;
        let ghost issue_pairs = pairs@;
        proof {
            if policy == OversizedBlockPolicy::Error {
                lemma_fit(BlockKind::Issue, order@, cs, views, issue_blocks@, issue_keys, limit);
            }
        }
        match add_block_pairs(BlockKind::Subject, &subject_blocks, &mut pairs, &mut warnings, limit, policy, Ghost(n as nat)) {
            Err(e) => {
                proof {
                    if let ClusterError::OversizedBlock { size, .. } = e {
                        lemma_first_oversized(BlockKind::Subject, order@, cs, views, subject_blocks@, subject_keys, limit, size);
                    }
                }
                return Err(e);
            },
            Ok(_) => {},
        }
        proof {
            lemma_warnings(order@, cs, views, cfg, issue_blocks@, issue_keys, subject_blocks@, subject_keys, warnings@);
        }
        let ghost listed = pairs@;
        let candidate_pairs = count_pairs(&pairs);
        let mut reviews: Vec<(usize, usize, Comparison)> = Vec::new();
        let mut edges: Vec<(u16, usize, usize)> = Vec::new();
        let compared_pairs = self.compare_pairs(&batch, &pairs, &mut cache, &mut reviews, &mut edges);
        let ghost compared_reviews = reviews@;
        let ghost listed_cache = cache@;
        proof {
            lemma_listed_pairs(listed, n as int);
            assert(listed.take(n as int) =~= listed);
            lemma_pairs_total(listed);
        }
        let (fuzzy_merges, comparisons) = self.link_fuzzy(&batch, &mut groups, &edges, &mut cache, &mut reviews, compared_pairs, Ghost(exact));
        let (review_pairs, Ghost(idx)) = retained_reviews(&reviews, &groups);
        let (clusters, Ghost(roots), Ghost(slot)) = build_clusters(&groups, &batch.keys);
        let ghost cluster_seq = cluster_views(clusters@);
        proof {
            assert(emitted(groups, batch.keys@, cluster_seq, roots, slot));
            lemma_partition(order@, cs, views, groups, batch.keys@, cluster_seq, roots, slot);
            lemma_cross_source(order@, cs, views, groups, batch.keys@, cluster_seq, roots, slot, cfg);
            lemma_complete_link(order@, cs, views, groups, batch.keys@, cluster_seq, roots, slot, cfg, exact);
            lemma_reviews(order@, cs, views, groups, batch.keys@, cluster_seq, roots, slot, cfg, reviews@, comparison_views(review_pairs@), idx);
            lemma_cluster_count(groups, batch.keys@, cluster_seq, roots, slot);
            lemma_exact_settled_clusters(order@, cs, views, groups, batch.keys@, cluster_seq, roots, slot, cfg);
            lemma_candidate_count(
                order@,
                cs,
                views,
                batch.keys@,
                cfg,
                issue_blocks@,
                issue_keys,
                subject_blocks@,
                subject_keys,
                empty_pairs,
                issue_pairs,
                listed,
            );
            lemma_pairs_total(listed);
            lemma_reviews_complete(
                order@,
                cs,
                views,
                groups,
                batch.keys@,
                cluster_seq,
                roots,
                slot,
                cfg,
                issue_blocks@,
                issue_keys,
                subject_blocks@,
                subject_keys,
                issue_pairs,
                listed,
                compared_reviews,
                reviews@,
                comparison_views(review_pairs@),
                idx,
            );
            lemma_fuzzy_maximal(
                order@,
                cs,
                views,
                groups,
                batch.keys@,
                cluster_seq,
                roots,
                slot,
                cfg,
                issue_blocks@,
                issue_keys,
                subject_blocks@,
                subject_keys,
                issue_pairs,
                listed,
                edges@,
            );
            lemma_exact_merged(
                order@,
                cs,
                views,
                groups,
                batch.keys@,
                cluster_seq,
                roots,
                slot,
                cfg,
                exact,
                block_keys@,
                blocks@,
            );
        }
        proof {
            lemma_edges_ranked(
                order@,
                cs,
                views,
                batch.keys@,
                cfg,
                issue_blocks@,
                issue_keys,
                subject_blocks@,
                subject_keys,
                empty_pairs,
                issue_pairs,
                listed,
                edges@,
            );
            lemma_exact_grouping(order@, cs, views, batch.keys@, cfg, exact_groups);
            assert(init_label =~= identity_labels(cs.len()));
            lemma_exact_phase(order@, cs, views, batch.keys@, cfg, exact, block_keys@, blocks@);
        }
        let stats = ClusterStats {
            candidate_count: n,
            candidate_pair_count: candidate_pairs,
            comparison_count: comparisons,
            exact_merge_count: exact_merges,
            fuzzy_merge_count: fuzzy_merges,
            cluster_count: clusters.len(),
        };
        let result = ClusterResult { clusters, review_pairs, warnings, stats };
        proof {
            lemma_cached_bounds(cache@, cfg, views);
            lemma_cached_len(cache@, cfg, views);
            lemma_fuzzy_greedy(
                order@,
                cs,
                views,
                groups,
                batch.keys@,
                cluster_seq,
                roots,
                slot,
                cfg,
                exact_groups,
                edges@,
                result@,
                listed,
                cached(cache@),
            );
        }
        Ok(result)
    }
}

// ---------------------------------------------------------------------------
// Independence of the input order.
// ---------------------------------------------------------------------------

/// Two sequences strictly ordered by one asymmetric relation, with the same
/// elements, are equal.
proof fn lemma_ranked_unique<A>(a: Seq<A>, b: Seq<A>, lt: spec_fn(A, A) -> bool)
    requires
        forall|x: A, y: A| #[trigger] lt(x, y) ==> !lt(y, x),
        forall|i: int, j: int| 0 <= i < j < a.len() ==> lt(#[trigger] a[i], #[trigger] a[j]),
        forall|i: int, j: int| 0 <= i < j < b.len() ==> lt(#[trigger] b[i], #[trigger] b[j]),
        a.to_set() == b.to_set(),
    ensures
        a == b,
    decreases a.len(),
{
    if a.len() == 0 {
        if b.len() > 0 {
            assert(b.to_set().contains(b[0]));
        }
        assert(a =~= b);
    } else {
        assert(a.to_set().contains(a[0]));
        assert(b.contains(a[0]));
        assert(b.to_set().contains(b[0]));
        assert(a.contains(b[0]));
        let j = choose|j: int| 0 <= j < b.len() && b[j] == a[0];
        let i = choose|i: int| 0 <= i < a.len() && a[i] == b[0];
        if j > 0 && i > 0 {
            assert(lt(b[0], b[j]));
            assert(lt(a[0], a[i]));
        }
        assert(a[0] == b[0]);
        let ra = a.drop_first();
        let rb = b.drop_first();
        assert forall|x: A| #[trigger] ra.to_set().contains(x) == rb.to_set().contains(x) by {
            if ra.contains(x) {
                let k = choose|k: int| 0 <= k < ra.len() && ra[k] == x;
                assert(a[k + 1] == x);
                assert(lt(a[0], a[k + 1]));
                assert(a.to_set().contains(x));
                assert(b.contains(x));
                let m = choose|m: int| 0 <= m < b.len() && b[m] == x;
                assert(m != 0);
                assert(rb[m - 1] == x);
            }
            if rb.contains(x) {
                let k = choose|k: int| 0 <= k < rb.len() && rb[k] == x;
                assert(b[k + 1] == x);
                assert(lt(b[0], b[k + 1]));
                assert(b.to_set().contains(x));
                assert(a.contains(x));
                let m = choose|m: int| 0 <= m < a.len() && a[m] == x;
                assert(m != 0);
                assert(ra[m - 1] == x);
            }
        }
        assert(ra.to_set() =~= rb.to_set());
        assert forall|p: int, q: int| 0 <= p < q < ra.len() implies lt(#[trigger] ra[p], #[trigger] ra[q]) by {
            assert(lt(a[p + 1], a[q + 1]));
        }
        assert forall|p: int, q: int| 0 <= p < q < rb.len() implies lt(#[trigger] rb[p], #[trigger] rb[q]) by {
            assert(lt(b[p + 1], b[q + 1]));
        }
        lemma_ranked_unique(ra, rb, lt);
        assert(a =~= seq![a[0]] + ra);
        assert(b =~= seq![b[0]] + rb);
    }
}

/// Byte order is asymmetric.
proof fn lemma_byte_lt_asym()
    ensures
        forall|x: Seq<u8>, y: Seq<u8>| #[trigger] byte_lt(x, y) ==> !byte_lt(y, x),
{
    assert forall|x: Seq<u8>, y: Seq<u8>| #[trigger] byte_lt(x, y) implies !byte_lt(y, x) by {
        lemma_byte_antisym(x, y);
    }
}

/// Strict byte order.
spec fn byte_lt(x: Seq<u8>, y: Seq<u8>) -> bool {
    byte_sign(x, y) < 0
}

/// Strict order of integers.
spec fn int_lt(x: int, y: int) -> bool {
    x < y
}

/// The input keys read along an order.
spec fn keys_along(cs: Seq<CandidateView>, o: Seq<usize>) -> Seq<Seq<u8>> {
    Seq::new(o.len(), |p: int| input_keys(cs)[o[p] as int])
}

/// Keys read along a key order are strictly increasing.
proof fn lemma_keys_along_sorted(cs: Seq<CandidateView>, o: Seq<usize>)
    requires
        key_order(cs, o),
    ensures
        forall|i: int, j: int| 0 <= i < j < keys_along(cs, o).len() ==> byte_lt(#[trigger] keys_along(cs, o)[i], #[trigger] keys_along(cs, o)[j]),
{
    assert forall|i: int, j: int| 0 <= i < j < keys_along(cs, o).len() implies byte_lt(
        #[trigger] keys_along(cs, o)[i],
        #[trigger] keys_along(cs, o)[j],
    ) by {
        assert(byte_sign(input_keys(cs)[o[i] as int], input_keys(cs)[o[j] as int]) < 0);
    }
}

/// Keys read along two permutations are the same keys.
proof fn lemma_keys_along_set(cs: Seq<CandidateView>, o1: Seq<usize>, o2: Seq<usize>)
    requires
        is_permutation(o1, cs.len()),
        is_permutation(o2, cs.len()),
        cs.len() <= usize::MAX,
    ensures
        keys_along(cs, o1).to_set() == keys_along(cs, o2).to_set(),
{
    let k1 = keys_along(cs, o1);
    let k2 = keys_along(cs, o2);
    assert forall|x: Seq<u8>| #[trigger] k1.to_set().contains(x) implies k2.to_set().contains(x) by {
        let p = choose|p: int| 0 <= p < k1.len() && k1[p] == x;
        let q = lemma_position(o2, cs.len(), o1[p] as int);
        assert(k2[q] == x);
    }
    assert forall|x: Seq<u8>| #[trigger] k2.to_set().contains(x) implies k1.to_set().contains(x) by {
        let p = choose|p: int| 0 <= p < k2.len() && k2[p] == x;
        let q = lemma_position(o1, cs.len(), o2[p] as int);
        assert(k1[q] == x);
    }
    assert(k1.to_set() =~= k2.to_set());
}

/// A key order of the inputs is unique.
proof fn lemma_key_order_unique(cs: Seq<CandidateView>, o1: Seq<usize>, o2: Seq<usize>)
    requires
        key_order(cs, o1),
        key_order(cs, o2),
        all_distinct(input_keys(cs)),
        cs.len() <= usize::MAX,
    ensures
        o1 == o2,
{
    let k1 = keys_along(cs, o1);
    let k2 = keys_along(cs, o2);
    assert(k1 == k2) by {
        lemma_byte_lt_asym();
        lemma_keys_along_sorted(cs, o1);
        lemma_keys_along_sorted(cs, o2);
        lemma_keys_along_set(cs, o1, o2);
        lemma_ranked_unique(k1, k2, |x: Seq<u8>, y: Seq<u8>| byte_lt(x, y));
    }
    assert forall|p: int| 0 <= p < o1.len() implies o1[p] == o2[p] by {
        assert(k1[p] == k2[p]);
        assert(input_keys(cs)[o1[p] as int] == input_keys(cs)[o2[p] as int]);
    }
    assert(o1 =~= o2);
}

/// The exact blocks of candidates are unique.
proof fn lemma_exact_blocks_unique(cfg: ConfigView, v: Seq<CandidateView>, b1: Seq<Seq<int>>, b2: Seq<Seq<int>>)
    requires
        exact_blocks_of(cfg, v, b1),
        exact_blocks_of(cfg, v, b2),
    ensures
        b1 == b2,
{
    let k1 = choose|keys: Seq<Seq<u8>>|
        #[trigger] keys_sorted(keys) && keys.len() == b1.len() && (forall|b: int| 0 <= b < b1.len() ==> #[trigger] b1[b].len() > 0) && (
        forall|b: int, k: int|
            0 <= b < b1.len() && 0 <= k < b1[b].len() ==> 0 <= #[trigger] b1[b][k] < v.len() && correlation_key_set(
                cfg,
                v[b1[b][k]],
            ).contains(keys[b])) && (forall|b: int, x: int, y: int|
            0 <= b < b1.len() && 0 <= x < y < b1[b].len() ==> #[trigger] b1[b][x] < #[trigger] b1[b][y]) && (forall|b: int, q: int|
            0 <= b < b1.len() && 0 <= q < v.len() && #[trigger] correlation_key_set(cfg, v[q]).contains(keys[b]) ==> b1[b].contains(q))
            && (forall|q: int, k: Seq<u8>| 0 <= q < v.len() && #[trigger] correlation_key_set(cfg, v[q]).contains(k) ==> keys.contains(k));
    let k2 = choose|keys: Seq<Seq<u8>>|
        #[trigger] keys_sorted(keys) && keys.len() == b2.len() && (forall|b: int| 0 <= b < b2.len() ==> #[trigger] b2[b].len() > 0) && (
        forall|b: int, k: int|
            0 <= b < b2.len() && 0 <= k < b2[b].len() ==> 0 <= #[trigger] b2[b][k] < v.len() && correlation_key_set(
                cfg,
                v[b2[b][k]],
            ).contains(keys[b])) && (forall|b: int, x: int, y: int|
            0 <= b < b2.len() && 0 <= x < y < b2[b].len() ==> #[trigger] b2[b][x] < #[trigger] b2[b][y]) && (forall|b: int, q: int|
            0 <= b < b2.len() && 0 <= q < v.len() && #[trigger] correlation_key_set(cfg, v[q]).contains(keys[b]) ==> b2[b].contains(q))
            && (forall|q: int, k: Seq<u8>| 0 <= q < v.len() && #[trigger] correlation_key_set(cfg, v[q]).contains(k) ==> keys.contains(k));
    lemma_byte_lt_asym();
    assert forall|x: Seq<u8>| #[trigger] k1.to_set().contains(x) == k2.to_set().contains(x) by {
        if k1.contains(x) {
            let b = choose|b: int| 0 <= b < k1.len() && k1[b] == x;
            let q = b1[b][0];
            assert(correlation_key_set(cfg, v[q]).contains(k1[b]));
        }
        if k2.contains(x) {
            let b = choose|b: int| 0 <= b < k2.len() && k2[b] == x;
            let q = b2[b][0];
            assert(correlation_key_set(cfg, v[q]).contains(k2[b]));
        }
    }
    assert(k1.to_set() =~= k2.to_set());
    assert forall|i: int, j: int| 0 <= i < j < k1.len() implies byte_lt(#[trigger] k1[i], #[trigger] k1[j]) by {}
    assert forall|i: int, j: int| 0 <= i < j < k2.len() implies byte_lt(#[trigger] k2[i], #[trigger] k2[j]) by {}
    lemma_ranked_unique(k1, k2, |x: Seq<u8>, y: Seq<u8>| byte_lt(x, y));
    assert forall|b: int| 0 <= b < b1.len() implies #[trigger] b1[b] == b2[b] by {
        assert forall|q: int| #[trigger] b1[b].to_set().contains(q) == b2[b].to_set().contains(q) by {
            if b1[b].contains(q) {
                let k = choose|k: int| 0 <= k < b1[b].len() && b1[b][k] == q;
                assert(correlation_key_set(cfg, v[q]).contains(k2[b]));
            }
            if b2[b].contains(q) {
                let k = choose|k: int| 0 <= k < b2[b].len() && b2[b][k] == q;
                assert(correlation_key_set(cfg, v[q]).contains(k1[b]));
            }
        }
        assert(b1[b].to_set() =~= b2[b].to_set());
        assert forall|i: int, j: int| 0 <= i < j < b1[b].len() implies int_lt(#[trigger] b1[b][i], #[trigger] b1[b][j]) by {}
        assert forall|i: int, j: int| 0 <= i < j < b2[b].len() implies int_lt(#[trigger] b2[b][i], #[trigger] b2[b][j]) by {}
        lemma_ranked_unique(b1[b], b2[b], |x: int, y: int| int_lt(x, y));
    }
    assert(b1 =~= b2);
}

/// The members of an exact block keep the number of labels.
proof fn lemma_exact_block_fold_len(cands: Seq<CandidateView>, cso: bool, state: (Seq<int>, Seq<int>), members: Seq<int>)
    ensures
        exact_block_fold(cands, cso, state, members).0.len() == state.0.len(),
    decreases members.len(),
{
    if members.len() > 0 {
        lemma_exact_block_fold_len(cands, cso, state, members.drop_last());
    }
}

/// The exact phase keeps the number of labels.
proof fn lemma_exact_fold_len(cands: Seq<CandidateView>, cso: bool, label: Seq<int>, blocks: Seq<Seq<int>>)
    ensures
        exact_fold(cands, cso, label, blocks).len() == label.len(),
    decreases blocks.len(),
{
    if blocks.len() > 0 {
        lemma_exact_fold_len(cands, cso, label, blocks.drop_last());
        lemma_exact_block_fold_len(
            cands,
            cso,
            (exact_fold(cands, cso, label, blocks.drop_last()), Seq::empty()),
            blocks.last(),
        );
    }
}

/// An order of rearranged inputs, composed with the rearrangement.
spec fn composed(order: Seq<usize>, o: Seq<usize>) -> Seq<usize> {
    Seq::new(o.len(), |p: int| order[o[p] as int])
}

/// A key order of rearranged inputs, composed with the rearrangement, is a
/// key order of the inputs, arranging them alike.
proof fn lemma_composed_key_order(cs: Seq<CandidateView>, order: Seq<usize>, cs2: Seq<CandidateView>, o2: Seq<usize>)
    requires
        rearranged(order, cs, cs2),
        key_order(cs2, o2),
    ensures
        key_order(cs, composed(order, o2)),
        arranged(cs2, o2) == arranged(cs, composed(order, o2)),
{
    let n = cs.len();
    let c = composed(order, o2);
    assert forall|p: int, q: int| 0 <= p < c.len() && 0 <= q < c.len() && p != q implies #[trigger] c[p] != #[trigger] c[q] by {
        assert(o2[p] != o2[q]);
    }
    assert forall|i: int| 0 <= i < n implies #[trigger] c.contains(i as usize) by {
        let x = lemma_position(order, n, i);
        let y = lemma_position(o2, n, x);
        assert(c[y] == i as usize);
    }
    assert forall|p: int, q: int| 0 <= p < q < c.len() implies byte_sign(
        input_keys(cs)[#[trigger] c[p] as int],
        input_keys(cs)[#[trigger] c[q] as int],
    ) < 0 by {
        assert(cs2[o2[p] as int] == cs[c[p] as int]);
        assert(cs2[o2[q] as int] == cs[c[q] as int]);
        assert(byte_sign(input_keys(cs2)[o2[p] as int], input_keys(cs2)[o2[q] as int]) < 0);
    }
    assert forall|p: int| 0 <= p < n implies #[trigger] arranged(cs2, o2)[p] == arranged(cs, c)[p] by {
        assert(cs2[o2[p] as int] == cs[order[o2[p] as int] as int]);
    }
    assert(arranged(cs2, o2) =~= arranged(cs, c));
}

/// Labels read through two orders, one the other composed with a
/// rearrangement, agree through the rearrangement.
proof fn lemma_composed_labels(order: Seq<usize>, o2: Seq<usize>, lab: Seq<int>)
    requires
        is_permutation(order, lab.len()),
        is_permutation(o2, lab.len()),
        is_permutation(composed(order, o2), lab.len()),
        lab.len() <= usize::MAX,
    ensures
        input_labels(composed(order, o2), lab) == input_labels(order, input_labels(o2, lab)),
{
    let n = lab.len();
    let c = composed(order, o2);
    let e2 = input_labels(o2, lab);
    assert forall|i: int| 0 <= i < n implies #[trigger] input_labels(c, lab)[i] == input_labels(order, e2)[i] by {
        let p = lemma_position(order, n, i);
        let q = lemma_position(o2, n, p);
        lemma_input_label(o2, lab, q);
        lemma_input_label(c, lab, q);
        lemma_input_label(order, e2, p);
        assert(c[q] as int == i);
    }
    assert(input_labels(c, lab) =~= input_labels(order, e2));
}

/// Edge order is asymmetric.
proof fn lemma_edge_before_asym(cfg: ConfigView, cs: Seq<CandidateView>)
    ensures
        forall|a: (int, int), b: (int, int)| #[trigger] edge_before(cfg, cs, a, b) ==> !edge_before(cfg, cs, b, a),
{
    assert forall|a: (int, int), b: (int, int)| #[trigger] edge_before(cfg, cs, a, b) implies !edge_before(cfg, cs, b, a) by {
        let ks = input_keys(cs);
        lemma_byte_antisym(ks[a.0], ks[b.0]);
        lemma_byte_antisym(ks[a.1], ks[b.1]);
        lemma_byte_antisym(ks[a.0], ks[a.0]);
    }
}

/// Candidate pairs do not depend on where the inputs stand.
proof fn lemma_candidate_pair_rearranged(
    cfg: ConfigView,
    cs: Seq<CandidateView>,
    order: Seq<usize>,
    cs2: Seq<CandidateView>,
    x: int,
    y: int,
)
    requires
        rearranged(order, cs, cs2),
        0 <= x < cs.len(),
        0 <= y < cs.len(),
    ensures
        candidate_pair(cfg, cs2, x, y) == candidate_pair(cfg, cs, order[x] as int, order[y] as int),
{
    lemma_block_sizes_permuted(BlockKind::Issue, order, cs, cs2);
    lemma_block_sizes_permuted(BlockKind::Subject, order, cs, cs2);
    let i = order[x] as int;
    let j = order[y] as int;
    assert(cs2[x] == cs[i] && cs2[y] == cs[j]);
    assert((x != y) == (i != j));
}

/// Ranked fuzzy edges of rearranged inputs, read at the inputs, are the
/// ranked fuzzy edges of the inputs.
proof fn lemma_edges_rearranged(cfg: ConfigView, cs: Seq<CandidateView>, order: Seq<usize>, cs2: Seq<CandidateView>, e2: Seq<(int, int)>)
    requires
        rearranged(order, cs, cs2),
        fuzzy_edges_ranked(cfg, cs2, e2),
    ensures
        fuzzy_edges_ranked(cfg, cs, input_edges(order, e2)),
{
    let ie = input_edges(order, e2);
    assert forall|x: int| 0 <= x < cs.len() implies #[trigger] input_keys(cs2)[x] == input_keys(cs)[order[x] as int] by {
        assert(cs2[x] == cs[order[x] as int]);
    }
    assert forall|e: int| 0 <= e < ie.len() implies 0 <= (#[trigger] ie[e]).0 < cs.len() && 0 <= ie[e].1 < cs.len() && byte_sign(
        input_keys(cs)[ie[e].0],
        input_keys(cs)[ie[e].1],
    ) <= 0 && candidate_pair(cfg, cs, ie[e].0, ie[e].1) && fuzzy_duplicate(cfg, cs[ie[e].0], cs[ie[e].1]) by {
        let x = e2[e].0;
        let y = e2[e].1;
        lemma_candidate_pair_rearranged(cfg, cs, order, cs2, x, y);
        assert(cs2[x] == cs[order[x] as int] && cs2[y] == cs[order[y] as int]);
        assert(input_keys(cs2)[x] == input_keys(cs)[order[x] as int]);
        assert(input_keys(cs2)[y] == input_keys(cs)[order[y] as int]);
    }
    assert forall|i: int, j: int|
        0 <= i < cs.len() && 0 <= j < cs.len() && byte_sign(input_keys(cs)[i], input_keys(cs)[j]) <= 0 && #[trigger] candidate_pair(
            cfg,
            cs,
            i,
            j,
        ) && fuzzy_duplicate(cfg, cs[i], cs[j]) implies ie.contains((i, j)) by {
        let x = lemma_rearranged_position(order, cs, cs2, i);
        let y = lemma_rearranged_position(order, cs, cs2, j);
        lemma_candidate_pair_rearranged(cfg, cs, order, cs2, x, y);
        assert(input_keys(cs2)[x] == input_keys(cs)[i]);
        assert(input_keys(cs2)[y] == input_keys(cs)[j]);
        assert(candidate_pair(cfg, cs2, x, y));
        assert(e2.contains((x, y)));
        let e = choose|e: int| 0 <= e < e2.len() && e2[e] == (x, y);
        assert(ie[e] == (i, j));
    }
    assert forall|a: int, b: int| 0 <= a < b < ie.len() implies edge_before(cfg, cs, #[trigger] ie[a], #[trigger] ie[b]) by {
        assert(edge_before(cfg, cs2, e2[a], e2[b]));
        let p = e2[a];
        let q = e2[b];
        assert(cs2[p.0] == cs[order[p.0] as int] && cs2[p.1] == cs[order[p.1] as int]);
        assert(cs2[q.0] == cs[order[q.0] as int] && cs2[q.1] == cs[order[q.1] as int]);
        assert(input_keys(cs2)[p.0] == input_keys(cs)[order[p.0] as int]);
        assert(input_keys(cs2)[p.1] == input_keys(cs)[order[p.1] as int]);
        assert(input_keys(cs2)[q.0] == input_keys(cs)[order[q.0] as int]);
        assert(input_keys(cs2)[q.1] == input_keys(cs)[order[q.1] as int]);
        assert((p.0 == q.0) == (order[p.0] == order[q.0]));
    }
}

/// Two rankings of the fuzzy edges of one input are one ranking.
proof fn lemma_edges_unique(cfg: ConfigView, cs: Seq<CandidateView>, a: Seq<(int, int)>, b: Seq<(int, int)>)
    requires
        fuzzy_edges_ranked(cfg, cs, a),
        fuzzy_edges_ranked(cfg, cs, b),
    ensures
        a == b,
{
    lemma_edge_before_asym(cfg, cs);
    assert forall|x: (int, int)| #[trigger] a.to_set().contains(x) == b.to_set().contains(x) by {
        if a.contains(x) {
            let e = choose|e: int| 0 <= e < a.len() && a[e] == x;
            assert(candidate_pair(cfg, cs, a[e].0, a[e].1));
        }
        if b.contains(x) {
            let e = choose|e: int| 0 <= e < b.len() && b[e] == x;
            assert(candidate_pair(cfg, cs, b[e].0, b[e].1));
        }
    }
    assert(a.to_set() =~= b.to_set());
    lemma_ranked_unique(a, b, |x: (int, int), y: (int, int)| edge_before(cfg, cs, x, y));
}

/// Two partitions of one set of keys into sorted clusters, ordered by first
/// member, that put the same pairs of keys together are equal.
#[verifier::spinoff_prover]
proof fn lemma_partition_unique(c1: Seq<Seq<Seq<u8>>>, c2: Seq<Seq<Seq<u8>>>, ks: Seq<Seq<u8>>)
    requires
        clusters_partition(c1, ks),
        clusters_sorted(c2),
        clusters_ordered(c2),
        clusters_disjoint(c2),
        forall|k: Seq<u8>| #[trigger] ks.contains(k) ==> in_some_cluster(c2, k),
        forall|c: int, m: int| 0 <= c < c2.len() && 0 <= m < c2[c].len() ==> ks.contains(#[trigger] c2[c][m]),
        forall|a: Seq<u8>, b: Seq<u8>|
            ks.contains(a) && ks.contains(b) ==> (#[trigger] same_cluster(c1, a, b) <==> #[trigger] same_cluster(c2, a, b)),
    ensures
        c1 == c2,
{
    lemma_byte_lt_asym();
    assert forall|a: Seq<Seq<u8>>| #[trigger] c1.to_set().contains(a) ==> c2.to_set().contains(a) by {
        if c1.contains(a) {
            let c = choose|c: int| 0 <= c < c1.len() && c1[c] == a;
            lemma_cluster_in(c1, c2, ks, c);
        }
    }
    assert forall|a: Seq<Seq<u8>>| #[trigger] c2.to_set().contains(a) ==> c1.to_set().contains(a) by {
        if c2.contains(a) {
            let c = choose|c: int| 0 <= c < c2.len() && c2[c] == a;
            lemma_cluster_in_back(c1, c2, ks, c);
        }
    }
    assert(c1.to_set() =~= c2.to_set());
    assert forall|x: int, y: int| 0 <= x < y < c1.len() implies byte_lt(#[trigger] c1[x][0], #[trigger] c1[y][0]) by {}
    assert forall|x: int, y: int| 0 <= x < y < c2.len() implies byte_lt(#[trigger] c2[x][0], #[trigger] c2[y][0]) by {}
    let lt = |a: Seq<Seq<u8>>, b: Seq<Seq<u8>>| byte_lt(a[0], b[0]);
    assert forall|a: Seq<Seq<u8>>, b: Seq<Seq<u8>>| #[trigger] lt(a, b) implies !lt(b, a) by {
        lemma_byte_antisym(a[0], b[0]);
    }
    assert forall|x: int, y: int| 0 <= x < y < c1.len() implies lt(#[trigger] c1[x], #[trigger] c1[y]) by {
        assert(byte_lt(c1[x][0], c1[y][0]));
    }
    assert forall|x: int, y: int| 0 <= x < y < c2.len() implies lt(#[trigger] c2[x], #[trigger] c2[y]) by {
        assert(byte_lt(c2[x][0], c2[y][0]));
    }
    lemma_ranked_unique(c1, c2, lt);
}

/// A cluster of the first partition is a cluster of the second.
proof fn lemma_cluster_in(c1: Seq<Seq<Seq<u8>>>, c2: Seq<Seq<Seq<u8>>>, ks: Seq<Seq<u8>>, c: int)
    requires
        clusters_partition(c1, ks),
        clusters_sorted(c2),
        clusters_disjoint(c2),
        forall|k: Seq<u8>| #[trigger] ks.contains(k) ==> in_some_cluster(c2, k),
        forall|cc: int, m: int| 0 <= cc < c2.len() && 0 <= m < c2[cc].len() ==> ks.contains(#[trigger] c2[cc][m]),
        forall|a: Seq<u8>, b: Seq<u8>|
            ks.contains(a) && ks.contains(b) ==> (#[trigger] same_cluster(c1, a, b) <==> #[trigger] same_cluster(c2, a, b)),
        0 <= c < c1.len(),
    ensures
        c2.contains(c1[c]),
{
    let a = c1[c];
    let k = a[0];
    assert(ks.contains(k));
    assert(a.contains(k));
    let d = choose|d: int| 0 <= d < c2.len() && #[trigger] c2[d].contains(k);
    let b = c2[d];
    assert forall|x: Seq<u8>| #[trigger] a.to_set().contains(x) == b.to_set().contains(x) by {
        if a.contains(x) {
            assert(ks.contains(x));
            assert(c1[c].contains(k) && c1[c].contains(x));
            assert(same_cluster(c1, k, x));
            assert(same_cluster(c2, k, x));
            let e = choose|e: int| 0 <= e < c2.len() && #[trigger] c2[e].contains(k) && c2[e].contains(x);
            if e != d {
                assert(c2[d].contains(k));
                assert(c2[e].contains(k));
                assert(false);
            }
        }
        if b.contains(x) {
            let m = choose|m: int| 0 <= m < b.len() && b[m] == x;
            assert(ks.contains(c2[d][m]));
            assert(c2[d].contains(k) && c2[d].contains(x));
            assert(same_cluster(c2, k, x));
            assert(same_cluster(c1, k, x));
            let e = choose|e: int| 0 <= e < c1.len() && #[trigger] c1[e].contains(k) && c1[e].contains(x);
            if e != c {
                assert(c1[c].contains(k));
                assert(c1[e].contains(k));
                assert(false);
            }
        }
    }
    assert(a.to_set() =~= b.to_set());
    lemma_byte_lt_asym();
    assert forall|x: int, y: int| 0 <= x < y < a.len() implies byte_lt(#[trigger] a[x], #[trigger] a[y]) by {}
    assert forall|x: int, y: int| 0 <= x < y < b.len() implies byte_lt(#[trigger] b[x], #[trigger] b[y]) by {}
    lemma_ranked_unique(a, b, |x: Seq<u8>, y: Seq<u8>| byte_lt(x, y));
    assert(c2[d] == c1[c]);
}

/// A cluster of the second partition is a cluster of the first.
proof fn lemma_cluster_in_back(c1: Seq<Seq<Seq<u8>>>, c2: Seq<Seq<Seq<u8>>>, ks: Seq<Seq<u8>>, c: int)
    requires
        clusters_partition(c1, ks),
        clusters_sorted(c2),
        clusters_disjoint(c2),
        forall|cc: int, m: int| 0 <= cc < c2.len() && 0 <= m < c2[cc].len() ==> ks.contains(#[trigger] c2[cc][m]),
        forall|a: Seq<u8>, b: Seq<u8>|
            ks.contains(a) && ks.contains(b) ==> (#[trigger] same_cluster(c1, a, b) <==> #[trigger] same_cluster(c2, a, b)),
        0 <= c < c2.len(),
    ensures
        c1.contains(c2[c]),
{
    let b = c2[c];
    let k = b[0];
    assert(ks.contains(b[0]));
    let i = choose|i: int| 0 <= i < ks.len() && ks[i] == k;
    assert(in_some_cluster(c1, ks[i]));
    let d = choose|d: int| 0 <= d < c1.len() && #[trigger] c1[d].contains(k);
    let a = c1[d];
    assert(b.contains(k));
    assert forall|x: Seq<u8>| #[trigger] a.to_set().contains(x) == b.to_set().contains(x) by {
        if a.contains(x) {
            assert(ks.contains(x));
            assert(c1[d].contains(k) && c1[d].contains(x));
            assert(same_cluster(c1, k, x));
            assert(same_cluster(c2, k, x));
            let e = choose|e: int| 0 <= e < c2.len() && #[trigger] c2[e].contains(k) && c2[e].contains(x);
            if e != c {
                assert(c2[c].contains(k));
                assert(c2[e].contains(k));
                assert(false);
            }
        }
        if b.contains(x) {
            let m = choose|m: int| 0 <= m < b.len() && b[m] == x;
            assert(ks.contains(c2[c][m]));
            assert(c2[c].contains(k) && c2[c].contains(x));
            assert(same_cluster(c2, k, x));
            assert(same_cluster(c1, k, x));
            let e = choose|e: int| 0 <= e < c1.len() && #[trigger] c1[e].contains(k) && c1[e].contains(x);
            if e != d {
                assert(c1[d].contains(k));
                assert(c1[e].contains(k));
                assert(false);
            }
        }
    }
    assert(a.to_set() =~= b.to_set());
    lemma_byte_lt_asym();
    assert forall|x: int, y: int| 0 <= x < y < a.len() implies byte_lt(#[trigger] a[x], #[trigger] a[y]) by {}
    assert forall|x: int, y: int| 0 <= x < y < b.len() implies byte_lt(#[trigger] b[x], #[trigger] b[y]) by {}
    lemma_ranked_unique(a, b, |x: Seq<u8>, y: Seq<u8>| byte_lt(x, y));
    assert(c1[d] == c2[c]);
}

/// Over one input, the listing of the oversized blocks of a kind is unique.
proof fn lemma_listing_unique(kind: BlockKind, cs: Seq<CandidateView>, limit: usize, a: Seq<BlockKeyView>, b: Seq<BlockKeyView>)
    requires
        oversized_listing(kind, cs, limit, a),
        oversized_listing(kind, cs, limit, b),
    ensures
        a == b,
{
    assert forall|k: BlockKeyView| #[trigger] a.to_set().contains(k) == b.to_set().contains(k) by {
        if a.contains(k) {
            let x = choose|x: int| 0 <= x < a.len() && a[x] == k;
            assert(oversized(block_size(kind, cs, a[x]), limit));
            let (i, t) = lemma_block_contributor(kind, cs, k);
            assert(b.contains(block_keys_of(kind, cs[i])[t]));
        }
        if b.contains(k) {
            let x = choose|x: int| 0 <= x < b.len() && b[x] == k;
            assert(oversized(block_size(kind, cs, b[x]), limit));
            let (i, t) = lemma_block_contributor(kind, cs, k);
            assert(a.contains(block_keys_of(kind, cs[i])[t]));
        }
    }
    assert(a.to_set() =~= b.to_set());
    let lt = |x: BlockKeyView, y: BlockKeyView| block_key_sign(x, y) < 0;
    assert forall|x: BlockKeyView, y: BlockKeyView| #[trigger] lt(x, y) implies !lt(y, x) by {
        lemma_block_key_antisym(x, y);
    }
    assert forall|i: int, j: int| 0 <= i < j < a.len() implies lt(#[trigger] a[i], #[trigger] a[j]) by {
        assert(block_key_sign(a[i], a[j]) < 0);
    }
    assert forall|i: int, j: int| 0 <= i < j < b.len() implies lt(#[trigger] b[i], #[trigger] b[j]) by {
        assert(block_key_sign(b[i], b[j]) < 0);
    }
    lemma_ranked_unique(a, b, lt);
}

/// A listing of the oversized blocks of a rearranged input lists them for
/// the input too, with the same warnings.
proof fn lemma_listing_rearranged(
    kind: BlockKind,
    order: Seq<usize>,
    cs: Seq<CandidateView>,
    views: Seq<CandidateView>,
    limit: usize,
    ks: Seq<BlockKeyView>,
)
    requires
        rearranged(order, cs, views),
        oversized_listing(kind, views, limit, ks),
    ensures
        oversized_listing(kind, cs, limit, ks),
        listing_warnings(kind, views, limit, ks) == listing_warnings(kind, cs, limit, ks),
{
    lemma_block_sizes_permuted(kind, order, cs, views);
    assert forall|i: int, t: int|
        0 <= i < cs.len() && 0 <= t < block_keys_of(kind, cs[i]).len() && oversized(
            block_size(kind, cs, block_keys_of(kind, cs[i])[t]),
            limit,
        ) implies ks.contains(#[trigger] block_keys_of(kind, cs[i])[t]) by {
        let p = lemma_rearranged_position(order, cs, views, i);
        assert(block_keys_of(kind, views[p])[t] == block_keys_of(kind, cs[i])[t]);
    }
    assert(listing_warnings(kind, views, limit, ks) =~= listing_warnings(kind, cs, limit, ks));
}

/// The warnings of a result do not depend on the order of the input.
proof fn lemma_warnings_rearranged(
    cfg: ConfigView,
    order: Seq<usize>,
    cs: Seq<CandidateView>,
    views: Seq<CandidateView>,
    w1: Seq<ClusterWarning>,
    w2: Seq<ClusterWarning>,
)
    requires
        rearranged(order, cs, views),
        warnings_exact(cfg, cs, w1),
        warnings_exact(cfg, views, w2),
    ensures
        w1 == w2,
{
    let limit = cfg.max_block_size;
    if cfg.oversized_block_policy == OversizedBlockPolicy::ExactOnlyAndWarn {
        let (ik1, sk1) = choose|ik: Seq<BlockKeyView>, sk: Seq<BlockKeyView>|
            oversized_listing(BlockKind::Issue, cs, limit, ik) && oversized_listing(BlockKind::Subject, cs, limit, sk) && w1
                == #[trigger] listing_warnings(BlockKind::Issue, cs, limit, ik) + #[trigger] listing_warnings(
                BlockKind::Subject,
                cs,
                limit,
                sk,
            );
        let (ik2, sk2) = choose|ik: Seq<BlockKeyView>, sk: Seq<BlockKeyView>|
            oversized_listing(BlockKind::Issue, views, limit, ik) && oversized_listing(BlockKind::Subject, views, limit, sk)
                && w2 == #[trigger] listing_warnings(BlockKind::Issue, views, limit, ik) + #[trigger] listing_warnings(
                BlockKind::Subject,
                views,
                limit,
                sk,
            );
        lemma_listing_rearranged(BlockKind::Issue, order, cs, views, limit, ik2);
        lemma_listing_rearranged(BlockKind::Subject, order, cs, views, limit, sk2);
        lemma_listing_unique(BlockKind::Issue, cs, limit, ik1, ik2);
        lemma_listing_unique(BlockKind::Subject, cs, limit, sk1, sk2);
    }
}

/// Pairs of positions below `n` form a finite set.
proof fn lemma_pairs_below_finite(n: nat, s: Set<(int, int)>)
    requires
        forall|pq: (int, int)| #[trigger] s.contains(pq) ==> 0 <= pq.0 < n && 0 <= pq.1 < n,
    ensures
        s.finite(),
{
    lemma_position_pairs_len(n);
    let lower = position_pairs(n as int);
    let swap = |pq: (int, int)| (pq.1, pq.0);
    lower.lemma_map_finite(swap);
    let all = lower.union(lower.map(swap));
    assert forall|pq: (int, int)| #[trigger] s.contains(pq) implies all.contains(pq) by {
        if pq.0 > pq.1 {
            assert(lower.contains((pq.1, pq.0)));
            assert(swap((pq.1, pq.0)) == pq);
        }
    }
    vstd::set_lib::lemma_set_subset_finite(all, s);
}

/// The pairs a greedy pass decides are pairs of inputs.
proof fn lemma_checked_bounds(cfg: ConfigView, cs: Seq<CandidateView>, lab: Seq<int>, edges: Seq<(int, int)>)
    ensures
        forall|pq: (int, int)| #[trigger] checked_pairs(cfg, cs, lab, edges).contains(pq) ==> 0 <= pq.0 < cs.len() && 0 <= pq.1 < cs.len(),
    decreases edges.len(),
{
    if edges.len() > 0 {
        let rest = edges.drop_last();
        lemma_checked_bounds(cfg, cs, lab, rest);
        let cross = cross_pairs(cs, fuzzy_fold(cfg, cs, lab, rest), edges.last());
        assert forall|pq: (int, int)| #[trigger] checked_pairs(cfg, cs, lab, edges).contains(pq) implies 0 <= pq.0 < cs.len() && 0
            <= pq.1 < cs.len() by {
            if !checked_pairs(cfg, cs, lab, rest).contains(pq) {
                assert(cross.contains(pq));
            }
        }
    }
}

/// The candidate pairs of a rearranged input, read at the inputs, are the
/// candidate pairs of the input.
proof fn lemma_candidate_pairs_rearranged(cfg: ConfigView, order: Seq<usize>, cs: Seq<CandidateView>, views: Seq<CandidateView>)
    requires
        rearranged(order, cs, views),
    ensures
        at_inputs(order, candidate_pairs_of(cfg, views)) == candidate_pairs_of(cfg, cs),
{
    let a = at_inputs(order, candidate_pairs_of(cfg, views));
    let b = candidate_pairs_of(cfg, cs);
    assert forall|ij: (int, int)| #[trigger] a.contains(ij) <==> b.contains(ij) by {
        if a.contains(ij) {
            let pq = choose|pq: (int, int)| candidate_pairs_of(cfg, views).contains(pq) && (order[pq.0] as int, order[pq.1] as int) == ij;
            lemma_candidate_pair_rearranged(cfg, cs, order, views, pq.0, pq.1);
            assert(input_keys(views)[pq.0] == input_keys(cs)[ij.0]);
            assert(input_keys(views)[pq.1] == input_keys(cs)[ij.1]);
        }
        if b.contains(ij) {
            let p = lemma_rearranged_position(order, cs, views, ij.0);
            let q = lemma_rearranged_position(order, cs, views, ij.1);
            lemma_candidate_pair_rearranged(cfg, cs, order, views, p, q);
            assert(input_keys(views)[p] == input_keys(cs)[ij.0]);
            assert(input_keys(views)[q] == input_keys(cs)[ij.1]);
            assert(candidate_pairs_of(cfg, views).contains((p, q)));
        }
    }
    assert(a =~= b);
}

/// The counters of a result do not depend on the order of the input, once
/// its groups, edges and clusters are those of the rearranged input.
proof fn lemma_stats_rearranged(
    cfg: ConfigView,
    order: Seq<usize>,
    cs: Seq<CandidateView>,
    cs2: Seq<CandidateView>,
    r1: ClusterResultView,
    r2: ClusterResultView,
    ex1: Seq<int>,
    ed1: Seq<(int, int)>,
    ex2: Seq<int>,
    ed2: Seq<(int, int)>,
)
    requires
        rearranged(order, cs, cs2),
        fuzzy_greedy_by(cfg, cs, r1, ex1, ed1),
        fuzzy_greedy_by(cfg, cs2, r2, ex2, ed2),
        ex1 == input_labels(order, ex2),
        ex2.len() == cs.len(),
        ed1 == input_edges(order, ed2),
        r1.clusters == r2.clusters,
        stats_valid(r1.stats, cs.len(), r1.clusters.len()),
        stats_valid(r2.stats, cs2.len(), r2.clusters.len()),
        r1.stats.candidate_pairs() == capped(candidate_pairs_of(cfg, cs).len()),
        r2.stats.candidate_pairs() == capped(candidate_pairs_of(cfg, cs2).len()),
    ensures
        r1.stats == r2.stats,
{
    let n = cs.len();
    assert forall|l: int| #[trigger] ex1.to_set().contains(l) == ex2.to_set().contains(l) by {
        if ex1.to_set().contains(l) {
            let i = choose|i: int| 0 <= i < ex1.len() && ex1[i] == l;
            let x = lemma_rearranged_position(order, cs, cs2, i);
            lemma_input_label(order, ex2, x);
            assert(ex2[x] == l);
        }
        if ex2.to_set().contains(l) {
            let x = choose|x: int| 0 <= x < ex2.len() && ex2[x] == l;
            lemma_input_label(order, ex2, x);
            assert(ex1[order[x] as int] == l);
        }
    }
    assert(ex1.to_set() =~= ex2.to_set());
    lemma_candidate_pairs_rearranged(cfg, order, cs, cs2);
    lemma_checked_permuted(order, cs, cs2, Seq::<OccurrenceKey>::empty(), cfg, ex2, ed2);
    let cp2 = candidate_pairs_of(cfg, cs2);
    let all2 = cp2.union(checked_pairs(cfg, cs2, ex2, ed2));
    lemma_checked_bounds(cfg, cs2, ex2, ed2);
    lemma_pairs_below_finite(n, cp2);
    lemma_pairs_below_finite(n, all2);
    lemma_at_inputs_len(order, n, cp2);
    lemma_at_inputs_len(order, n, all2);
    lemma_at_inputs_union(order, cp2, checked_pairs(cfg, cs2, ex2, ed2));
    assert(at_inputs(order, all2) == candidate_pairs_of(cfg, cs).union(checked_pairs(cfg, cs, ex1, ed1)));
    assert(r1.stats.comparisons() == r2.stats.comparisons());
    assert(r1.stats.candidate_pairs() == r2.stats.candidate_pairs());
    assert(r1.stats.exact_merges() == r2.stats.exact_merges());
    assert(r1.stats.fuzzy_merges() == r2.stats.fuzzy_merges());
    assert(r1.stats.candidates() == r2.stats.candidates());
    assert(r1.stats.clusters() == r2.stats.clusters());
}

/// Clustering does not depend on the order of the input: for a
/// rearrangement of distinct inputs, two inputs share a cluster of the one
/// result exactly when they share a cluster of the other, and the two
/// results hold the same clusters, the same warnings and the same counters.
pub proof fn lemma_cluster_order_invariant(
    cfg: ConfigView,
    cs: Seq<CandidateView>,
    order: Seq<usize>,
    r1: ClusterResultView,
    r2: ClusterResultView,
)
    requires
        is_permutation(order, cs.len()),
        cs.len() <= usize::MAX,
        all_distinct(input_keys(cs)),
        cluster_result_valid(cfg, cs, r1),
        cluster_result_valid(cfg, arranged(cs, order), r2),
    ensures
        forall|i: int, j: int|
            0 <= i < cs.len() && 0 <= j < cs.len() ==> (same_cluster(r1.clusters, input_keys(cs)[i], input_keys(cs)[j])
                <==> same_cluster(r2.clusters, input_keys(cs)[i], input_keys(cs)[j])),
        r1.clusters == r2.clusters,
        r1.warnings == r2.warnings,
        r1.stats == r2.stats,
{
    let n = cs.len();
    let cs2 = arranged(cs, order);
    assert(rearranged(order, cs, cs2));
    let (ex1, ed1) = choose|exact: Seq<int>, edges: Seq<(int, int)>| #[trigger] fuzzy_greedy_by(cfg, cs, r1, exact, edges);
    let (ex2, ed2) = choose|exact: Seq<int>, edges: Seq<(int, int)>| #[trigger] fuzzy_greedy_by(cfg, cs2, r2, exact, edges);
    let (o1, bl1) = choose|o: Seq<usize>, blocks: Seq<Seq<int>>| #[trigger] exact_phase_by(cfg, cs, ex1, o, blocks);
    let (o2, bl2) = choose|o: Seq<usize>, blocks: Seq<Seq<int>>| #[trigger] exact_phase_by(cfg, cs2, ex2, o, blocks);
    lemma_composed_key_order(cs, order, cs2, o2);
    lemma_key_order_unique(cs, o1, composed(order, o2));
    let v = arranged(cs, o1);
    lemma_exact_blocks_unique(cfg, v, bl1, bl2);
    let lab = exact_fold(v, cfg.cross_source_only, identity_labels(n), bl1);
    assert(ex1 == input_labels(o1, lab));
    assert(ex2 == input_labels(o2, lab));
    lemma_exact_fold_len(v, cfg.cross_source_only, identity_labels(n), bl1);
    lemma_composed_labels(order, o2, lab);
    assert(ex1 == input_labels(order, ex2));
    lemma_edges_rearranged(cfg, cs, order, cs2, ed2);
    lemma_edges_unique(cfg, cs, ed1, input_edges(order, ed2));
    lemma_fold_permuted(order, cs, cs2, Seq::<OccurrenceKey>::empty(), cfg, ex2, ed2);
    let f2 = fuzzy_fold(cfg, cs2, ex2, ed2);
    lemma_fold_len(cfg, cs2, ex2, ed2);
    assert forall|i: int, j: int| 0 <= i < n && 0 <= j < n implies (same_cluster(r1.clusters, input_keys(cs)[i], input_keys(cs)[j])
        <==> same_cluster(r2.clusters, input_keys(cs)[i], input_keys(cs)[j])) by {
        let x = lemma_rearranged_position(order, cs, cs2, i);
        let y = lemma_rearranged_position(order, cs, cs2, j);
        lemma_input_label(order, f2, x);
        lemma_input_label(order, f2, y);
        assert(input_keys(cs2)[x] == input_keys(cs)[i]);
        assert(input_keys(cs2)[y] == input_keys(cs)[j]);
        assert(same_cluster(r1.clusters, input_keys(cs)[i], input_keys(cs)[j]) <==> fuzzy_fold(cfg, cs, ex1, ed1)[i] == fuzzy_fold(
            cfg,
            cs,
            ex1,
            ed1,
        )[j]);
        assert(same_cluster(r2.clusters, input_keys(cs2)[x], input_keys(cs2)[y]) <==> f2[x] == f2[y]);
    }
    let ks = input_keys(cs);
    let ks2 = input_keys(cs2);
    assert forall|k: Seq<u8>| #[trigger] ks.contains(k) implies in_some_cluster(r2.clusters, k) by {
        let i = choose|i: int| 0 <= i < ks.len() && ks[i] == k;
        let x = lemma_rearranged_position(order, cs, cs2, i);
        assert(ks2[x] == k);
        assert(in_some_cluster(r2.clusters, ks2[x]));
    }
    assert forall|c: int, m: int| 0 <= c < r2.clusters.len() && 0 <= m < r2.clusters[c].len() implies ks.contains(
        #[trigger] r2.clusters[c][m],
    ) by {
        assert(ks2.contains(r2.clusters[c][m]));
        let x = choose|x: int| 0 <= x < ks2.len() && ks2[x] == r2.clusters[c][m];
        assert(ks[order[x] as int] == ks2[x]);
    }
    assert forall|a: Seq<u8>, b: Seq<u8>| ks.contains(a) && ks.contains(b) implies (#[trigger] same_cluster(r1.clusters, a, b)
        <==> #[trigger] same_cluster(r2.clusters, a, b)) by {
        let i = choose|i: int| 0 <= i < ks.len() && ks[i] == a;
        let j = choose|j: int| 0 <= j < ks.len() && ks[j] == b;
        assert(same_cluster(r1.clusters, ks[i], ks[j]) <==> same_cluster(r2.clusters, ks[i], ks[j]));
    }
    lemma_partition_unique(r1.clusters, r2.clusters, ks);
    lemma_warnings_rearranged(cfg, order, cs, cs2, r1.warnings, r2.warnings);
    lemma_stats_rearranged(cfg, order, cs, cs2, r1, r2, ex1, ed1, ex2, ed2);
}

} // verus!
