use custos_dedup::{
    Candidate, Config, Decision, Deduplicator, MatchMethod, PreparedCandidate, Score, SignalField, SignalKind,
};

fn finding(source: &str, native_id: &str, title: &str) -> Candidate {
    Candidate::builder(source, native_id)
        .partition("repo:example")
        .issue("CVE-2024-3094")
        .subject_name("xz-utils")
        .title(title)
        .build()
        .unwrap()
}

fn purl_finding(source: &str, native_id: &str, purl: &str) -> Candidate {
    Candidate::builder(source, native_id)
        .partition("repo:example")
        .issue("CVE-2024-3094")
        .purl(purl)
        .unwrap()
        .build()
        .unwrap()
}

fn assert_equivalent(engine: &Deduplicator, left: &Candidate, right: &Candidate) {
    let left_key = engine.occurrence_key(left);
    let right_key = engine.occurrence_key(right);
    let left_correlation = engine.correlation_keys(left);
    let right_correlation = engine.correlation_keys(right);
    let cached = engine.compare_prepared(
        PreparedCandidate::cached(left, left_key, &left_correlation),
        PreparedCandidate::cached(right, right_key, &right_correlation),
    );

    assert_eq!(cached, engine.compare(left, right));
}

#[test]
fn compare_is_symmetric() {
    let engine = Deduplicator::default();
    let left = finding("one", "1", "Backdoored xz package");
    let right = finding("two", "2", "xz package backdoor");

    assert_eq!(engine.compare(&left, &right), engine.compare(&right, &left));
}

#[test]
fn cached_comparison_matches_the_public_pairwise_path() {
    let engine = Deduplicator::default();
    let same = finding("one", "1", "Finding");
    assert_equivalent(&engine, &same, &same);

    let fuzzy_left = finding("one", "1", "Backdoored xz package");
    let fuzzy_right = finding("two", "2", "xz package backdoor");
    assert_equivalent(&engine, &fuzzy_left, &fuzzy_right);

    let exact_left = purl_finding("one", "1", "pkg:cargo/widget@1.0.0");
    let exact_right = purl_finding("two", "2", "pkg:cargo/widget@1.0.0");
    assert_equivalent(&engine, &exact_left, &exact_right);

    let different_partition = Candidate::builder("two", "3")
        .partition("repo:different")
        .issue("CVE-2024-3094")
        .title("Finding")
        .build()
        .unwrap();
    assert_equivalent(&engine, &same, &different_partition);
}

#[test]
fn compare_blocks_different_partitions() {
    let engine = Deduplicator::default();
    let left = finding("one", "1", "Finding");
    let right = Candidate::builder("two", "2")
        .partition("repo:different")
        .issue("CVE-2024-3094")
        .title("Finding")
        .build()
        .unwrap();

    assert_eq!(engine.compare(&left, &right).decision(), Decision::NotComparable);
}

#[test]
fn compare_blocks_conflicting_issue_ids() {
    let engine = Deduplicator::default();
    let left = finding("one", "1", "Identical title");
    let right = Candidate::builder("two", "2")
        .partition("repo:example")
        .issue("CVE-2024-9999")
        .subject_name("xz-utils")
        .title("Identical title")
        .build()
        .unwrap();

    assert_eq!(engine.compare(&left, &right).decision(), Decision::Distinct);
}

#[test]
fn text_only_similarity_never_auto_merges() {
    let engine = Deduplicator::default();
    let left = Candidate::builder("one", "1")
        .partition("repo:example")
        .title("Public S3 bucket")
        .build()
        .unwrap();
    let right = Candidate::builder("two", "2")
        .partition("repo:example")
        .title("Public S3 bucket")
        .build()
        .unwrap();

    assert_eq!(engine.compare(&left, &right).decision(), Decision::Review);
}

#[test]
fn conflicting_versions_require_review() {
    let engine = Deduplicator::default();
    let left = purl_finding("one", "1", "pkg:cargo/widget@1.0.0");
    let right = purl_finding("two", "2", "pkg:cargo/widget@2.0.0");

    assert_eq!(engine.compare(&left, &right).decision(), Decision::Review);
}

#[test]
fn conflicting_purl_qualifiers_require_review() {
    let engine = Deduplicator::default();
    let left = purl_finding("one", "1", "pkg:deb/debian/widget@1.0?arch=amd64");
    let right = purl_finding("two", "2", "pkg:deb/debian/widget@1.0?arch=arm64");

    let comparison = engine.compare(&left, &right);
    assert_eq!(comparison.decision(), Decision::Review);
    assert!(comparison
        .signals()
        .iter()
        .any(|signal| { signal.field() == SignalField::Subject && signal.kind() == SignalKind::Different }));
}

#[test]
fn one_sided_purl_qualifiers_remain_compatible() {
    let engine = Deduplicator::default();
    let left = purl_finding("one", "1", "pkg:deb/debian/widget@1.0?arch=amd64");
    let right = purl_finding("two", "2", "pkg:deb/debian/widget@1.0");

    let comparison = engine.compare(&left, &right);
    assert_eq!(comparison.decision(), Decision::Duplicate);
    assert!(comparison.signals().iter().any(|signal| {
        signal.field() == SignalField::Subject
            && signal.kind() == SignalKind::Similar
            && signal.score() == Some(Score::maximum())
    }));
}

#[test]
fn zero_subject_threshold_does_not_treat_missing_names_as_an_anchor() {
    let engine = Deduplicator::new(
        Config::builder()
            .duplicate_threshold(5_000)
            .review_threshold(0)
            .subject_similarity_threshold(0)
            .build()
            .unwrap(),
    );
    let left = Candidate::builder("one", "1")
        .partition("repo:example")
        .issue("CVE-2024-3094")
        .build()
        .unwrap();
    let right = Candidate::builder("two", "2")
        .partition("repo:example")
        .issue("CVE-2024-3094")
        .build()
        .unwrap();

    assert_eq!(engine.compare(&left, &right).decision(), Decision::Review);
}

#[test]
fn same_source_policy_runs_after_same_occurrence_detection() {
    let engine = Deduplicator::default();
    let candidate = finding("one", "1", "Finding");
    assert_eq!(engine.compare(&candidate, &candidate).method(), MatchMethod::SameOccurrence);
}

#[test]
fn correlation_keys_are_alias_order_independent() {
    let engine = Deduplicator::new(Config::builder().issue_only_exact(true).build().unwrap());
    let left = Candidate::builder("one", "1")
        .partition("global")
        .issue("GHSA-AAAA-BBBB-CCCC")
        .issue("CVE-2024-1")
        .build()
        .unwrap();
    let right = Candidate::builder("two", "2")
        .partition("global")
        .issue("CVE-2024-1")
        .issue("GHSA-AAAA-BBBB-CCCC")
        .build()
        .unwrap();

    assert_eq!(engine.correlation_keys(&left), engine.correlation_keys(&right));
}

#[test]
fn score_rejects_values_above_maximum() {
    assert_eq!(Score::new(10_001).unwrap_err().value(), 10_001);
}

// Further cases.

#[test]
fn score_accepts_the_maximum_and_reports_its_value() {
    assert_eq!(Score::new(10_000).unwrap(), Score::maximum());
    assert_eq!(Score::maximum().get(), 10_000);
    assert_eq!(Score::new(0).unwrap().get(), 0);
}

#[test]
fn comparison_reports_ordered_keys() {
    let engine = Deduplicator::default();
    let left = finding("one", "1", "Backdoored xz package");
    let right = finding("two", "2", "xz package backdoor");
    let comparison = engine.compare(&right, &left);
    let (a, b) = (engine.occurrence_key(&left), engine.occurrence_key(&right));
    let (low, high) = if a <= b { (a, b) } else { (b, a) };
    assert_eq!(comparison.left(), low);
    assert_eq!(comparison.right(), high);
}

#[test]
fn shared_exact_key_is_an_exact_duplicate_with_full_score() {
    let engine = Deduplicator::default();
    let left = purl_finding("one", "1", "pkg:cargo/widget@1.0.0");
    let right = purl_finding("two", "2", "pkg:cargo/widget@1.0.0");
    let comparison = engine.compare(&left, &right);
    assert_eq!(comparison.decision(), Decision::Duplicate);
    assert_eq!(comparison.method(), MatchMethod::ExactCorrelation);
    assert_eq!(comparison.score(), Some(Score::maximum()));
}

#[test]
fn same_source_findings_are_not_comparable_by_default() {
    let engine = Deduplicator::default();
    let left = finding("one", "1", "Finding");
    let right = finding("one", "2", "Finding");
    let comparison = engine.compare(&left, &right);
    assert_eq!(comparison.decision(), Decision::NotComparable);
    assert_eq!(comparison.method(), MatchMethod::Blocked);
    assert_eq!(comparison.score(), None);

    let permissive = Deduplicator::new(Config::builder().cross_source_only(false).build().unwrap());
    assert_ne!(permissive.compare(&left, &right).decision(), Decision::NotComparable);
}

#[test]
fn fuzzy_duplicates_carry_a_score_within_range() {
    let engine = Deduplicator::default();
    let left = finding("one", "1", "Backdoored xz package");
    let right = finding("two", "2", "Backdoored xz package");
    let comparison = engine.compare(&left, &right);
    let score = comparison.score().unwrap().get();
    assert!(score <= 10_000);
    assert_eq!(comparison.method(), MatchMethod::Fuzzy);
}
