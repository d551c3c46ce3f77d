use custos_dedup::{
    Candidate, CandidateError, Cluster, ClusterResult, ClusterStats, Comparison, Config, Deduplicator, Signal, SignalField,
    SignalKind, Score,
};

fn named(source: &str, id: &str, name: &str) -> Candidate {
    Candidate::builder(source, id)
        .partition("global")
        .issue("CVE-2024-1")
        .subject_name(name)
        .build()
        .unwrap()
}

fn finding(source: &str, native_id: &str, title: &str) -> Candidate {
    Candidate::builder(source, native_id)
        .partition("repo:example")
        .issue("CVE-2024-3094")
        .subject_name("xz-utils")
        .title(title)
        .build()
        .unwrap()
}

#[test]
fn results_rebuild_from_parts_and_reject_empty_clusters() {
    let result = Deduplicator::default()
        .cluster(&[named("one", "1", "xz utils"), named("two", "2", "xz-utils")])
        .unwrap();
    let rebuilt = ClusterResult::from_parts(
        result.clusters().to_vec(),
        result.review_pairs().to_vec(),
        result.warnings().to_vec(),
        result.stats(),
    )
    .unwrap();
    assert_eq!(rebuilt, result);
    assert!(Cluster::from_members(vec![]).is_none());
}

#[test]
fn results_reject_statistics_that_do_not_match_contents() {
    let result = Deduplicator::default().cluster(&[named("one", "1", "package")]).unwrap();
    let two_candidates = ClusterStats::from_counts(2, 0, 0, 1, 0, 1).unwrap();
    assert!(ClusterResult::from_parts(
        result.clusters().to_vec(),
        result.review_pairs().to_vec(),
        result.warnings().to_vec(),
        two_candidates,
    )
    .is_none());
}

#[test]
fn comparisons_rebuild_from_parts_and_reject_reversed_keys() {
    let engine = Deduplicator::default();
    let comparison = engine.compare(
        &finding("one", "1", "Backdoored xz package"),
        &finding("two", "2", "xz package backdoor"),
    );
    let rebuilt = Comparison::from_parts(
        comparison.left(),
        comparison.right(),
        comparison.decision(),
        comparison.score(),
        comparison.method(),
        comparison.signals().to_vec(),
    )
    .unwrap();
    assert_eq!(rebuilt, comparison);
    assert!(Comparison::from_parts(
        comparison.right(),
        comparison.left(),
        comparison.decision(),
        comparison.score(),
        comparison.method(),
        comparison.signals().to_vec(),
    )
    .is_none());
}

#[test]
fn signals_reject_a_perfect_score_labeled_as_similar() {
    assert!(Signal::from_parts(SignalField::Title, SignalKind::Similar, Some(Score::maximum())).is_none());
}

#[test]
fn engine_signal_scores_agree_with_their_relationships() {
    let engine = Deduplicator::default();
    let comparison = engine.compare(
        &finding("one", "1", "Backdoored xz package"),
        &finding("two", "2", "xz package backdoor"),
    );
    for signal in comparison.signals() {
        assert!(Signal::from_parts(signal.field(), signal.kind(), signal.score()).is_some());
    }
}

#[test]
fn candidates_without_evidence_are_rejected() {
    let result = Candidate::builder("scanner", "17").partition("global").build();
    assert_eq!(result, Err(CandidateError::NoEvidence));
}

#[test]
fn configs_reject_a_review_threshold_above_the_duplicate_threshold() {
    assert!(Config::builder()
        .duplicate_threshold(8_000)
        .review_threshold(9_000)
        .subject_similarity_threshold(9_000)
        .build()
        .is_err());
}
