use custos_dedup::{
    BlockKind, Candidate, Cluster, ClusterResult, ClusterStats, ClusterWarning, Comparison, Decision, Deduplicator,
    MatchMethod, OccurrenceKey, Origin, Score, Signal, SignalField, SignalKind,
};

fn named(source: &str, id: &str, name: &str) -> Candidate {
    Candidate::builder(source, id)
        .partition("global")
        .issue("CVE-2024-1")
        .subject_name(name)
        .build()
        .unwrap()
}

fn key(source: &str, id: &str) -> OccurrenceKey {
    OccurrenceKey::for_candidate(&named(source, id, "package"))
}

fn ordered_keys() -> (OccurrenceKey, OccurrenceKey) {
    let a = key("one", "1");
    let b = key("two", "2");
    if a < b {
        (a, b)
    } else {
        (b, a)
    }
}

#[test]
fn signal_scores_must_agree_with_relationships() {
    let max = Some(Score::maximum());
    let half = Some(Score::new(5_000).unwrap());
    assert!(Signal::from_parts(SignalField::Title, SignalKind::Exact, max).is_some());
    assert!(Signal::from_parts(SignalField::Title, SignalKind::Exact, half).is_none());
    assert!(Signal::from_parts(SignalField::Subject, SignalKind::Similar, max).is_some());
    assert!(Signal::from_parts(SignalField::Title, SignalKind::Similar, max).is_none());
    assert!(Signal::from_parts(SignalField::Title, SignalKind::Similar, half).is_some());
    assert!(Signal::from_parts(SignalField::Title, SignalKind::Missing, None).is_some());
    assert!(Signal::from_parts(SignalField::Title, SignalKind::Missing, half).is_none());
    let signal = Signal::from_parts(SignalField::Issue, SignalKind::Different, None).unwrap();
    assert_eq!((signal.field(), signal.kind(), signal.score()), (SignalField::Issue, SignalKind::Different, None));
}

#[test]
fn comparison_parts_must_be_consistent() {
    let (low, high) = ordered_keys();
    let exact = Signal::from_parts(SignalField::Issue, SignalKind::Exact, Some(Score::maximum())).unwrap();
    let title = Signal::from_parts(SignalField::Title, SignalKind::Similar, Some(Score::new(9_000).unwrap())).unwrap();

    let fuzzy = Comparison::from_parts(
        low,
        high,
        Decision::Review,
        Some(Score::new(7_000).unwrap()),
        MatchMethod::Fuzzy,
        vec![exact, title],
    )
    .unwrap();
    assert_eq!(fuzzy.left(), low);
    assert_eq!(fuzzy.signals().len(), 2);

    // Reversed keys.
    assert!(Comparison::from_parts(high, low, Decision::Review, Some(Score::new(7_000).unwrap()), MatchMethod::Fuzzy, vec![exact])
        .is_none());
    // Signals out of field order.
    assert!(Comparison::from_parts(
        low,
        high,
        Decision::Review,
        Some(Score::new(7_000).unwrap()),
        MatchMethod::Fuzzy,
        vec![title, exact]
    )
    .is_none());
    // No signals.
    assert!(Comparison::from_parts(low, high, Decision::Review, Some(Score::new(7_000).unwrap()), MatchMethod::Fuzzy, vec![])
        .is_none());
    // A fuzzy comparison cannot carry the maximum score.
    assert!(Comparison::from_parts(low, high, Decision::Duplicate, Some(Score::maximum()), MatchMethod::Fuzzy, vec![exact])
        .is_none());
    // Same occurrence needs equal keys.
    assert!(Comparison::from_parts(low, low, Decision::Duplicate, Some(Score::maximum()), MatchMethod::SameOccurrence, vec![exact])
        .is_some());
    assert!(Comparison::from_parts(low, high, Decision::Duplicate, Some(Score::maximum()), MatchMethod::SameOccurrence, vec![exact])
        .is_none());
    // Blocked comparisons have no score, or a zero score with a distinct decision.
    assert!(Comparison::from_parts(low, high, Decision::NotComparable, None, MatchMethod::Blocked, vec![exact]).is_some());
    assert!(Comparison::from_parts(
        low,
        high,
        Decision::Distinct,
        Some(Score::new(0).unwrap()),
        MatchMethod::Blocked,
        vec![exact]
    )
    .is_some());
    assert!(Comparison::from_parts(low, high, Decision::Distinct, None, MatchMethod::Blocked, vec![exact]).is_none());
}

#[test]
fn engine_comparisons_rebuild_from_their_parts() {
    let engine = Deduplicator::default();
    let comparison = engine.compare(&named("one", "1", "xz utils"), &named("two", "2", "xz-utils"));
    let rebuilt = Comparison::from_parts(
        comparison.left(),
        comparison.right(),
        comparison.decision(),
        comparison.score(),
        comparison.method(),
        comparison.signals().to_vec(),
    )
    .unwrap();
    assert_eq!(rebuilt, comparison);
}

#[test]
fn warnings_need_a_limit_of_two_and_a_larger_size() {
    assert_eq!(
        ClusterWarning::checked(BlockKind::Issue, 3, 2),
        Some(ClusterWarning::OversizedBlock { kind: BlockKind::Issue, size: 3, limit: 2 })
    );
    assert!(ClusterWarning::checked(BlockKind::Issue, 2, 2).is_none());
    assert!(ClusterWarning::checked(BlockKind::Subject, 5, 1).is_none());
}

#[test]
fn stats_counts_must_be_consistent() {
    assert!(ClusterStats::from_counts(2, 1, 1, 1, 0, 1).is_some());
    let stats = ClusterStats::from_counts(3, 3, 3, 1, 1, 1).unwrap();
    assert_eq!(stats.candidate_count(), 3);
    assert_eq!(stats.fuzzy_merge_count(), 1);
    // More clusters than candidates.
    assert!(ClusterStats::from_counts(1, 0, 0, 0, 0, 2).is_none());
    // More pairs than two candidates have.
    assert!(ClusterStats::from_counts(2, 2, 2, 1, 0, 1).is_none());
    // Fewer comparisons than pairs.
    assert!(ClusterStats::from_counts(3, 2, 1, 1, 0, 2).is_none());
    // Merges not accounting for the candidates.
    assert!(ClusterStats::from_counts(3, 0, 0, 0, 0, 2).is_none());
    assert!(ClusterStats::from_counts(0, 0, 0, 0, 0, 0).is_some());
}

#[test]
fn cluster_members_must_be_sorted_and_unique() {
    let (low, high) = ordered_keys();
    let cluster = Cluster::from_members(vec![low, high]).unwrap();
    assert_eq!(cluster.members(), [low, high]);
    assert!(cluster.is_duplicate());
    assert!(Cluster::from_members(vec![high, low]).is_none());
    assert!(Cluster::from_members(vec![low, low]).is_none());
    assert!(Cluster::from_members(vec![]).is_none());
    assert!(!Cluster::from_members(vec![low]).unwrap().is_duplicate());
}

#[test]
fn engine_results_rebuild_from_their_parts() {
    let engine = Deduplicator::default();
    let result = engine
        .cluster(&[named("one", "1", "acme widget"), named("two", "2", "acme widget"), named("three", "3", "other")])
        .unwrap();
    let rebuilt = ClusterResult::from_parts(
        result.clusters().to_vec(),
        result.review_pairs().to_vec(),
        result.warnings().to_vec(),
        result.stats(),
    )
    .unwrap();
    assert_eq!(rebuilt, result);
    assert_eq!(result.clone(), result);
}

#[test]
fn result_parts_must_be_consistent() {
    let (low, high) = ordered_keys();
    let both = Cluster::from_members(vec![low, high]).unwrap();
    let first = Cluster::from_members(vec![low]).unwrap();
    let second = Cluster::from_members(vec![high]).unwrap();
    let one = ClusterStats::from_counts(2, 0, 0, 1, 0, 1).unwrap();
    let two = ClusterStats::from_counts(2, 0, 0, 0, 0, 2).unwrap();

    assert!(ClusterResult::from_parts(vec![both.clone()], vec![], vec![], one).is_some());
    assert!(ClusterResult::from_parts(vec![first.clone(), second.clone()], vec![], vec![], two).is_some());
    // Clusters out of order.
    assert!(ClusterResult::from_parts(vec![second.clone(), first.clone()], vec![], vec![], two).is_none());
    // A key in two clusters.
    assert!(ClusterResult::from_parts(vec![both.clone(), second.clone()], vec![], vec![], two).is_none());
    // Counts that do not match.
    assert!(ClusterResult::from_parts(vec![both.clone()], vec![], vec![], two).is_none());

    let title = Signal::from_parts(SignalField::Title, SignalKind::Similar, Some(Score::new(8_000).unwrap())).unwrap();
    let review = Comparison::from_parts(low, high, Decision::Review, Some(Score::new(7_000).unwrap()), MatchMethod::Fuzzy, vec![title])
        .unwrap();
    assert!(ClusterResult::from_parts(vec![first.clone(), second.clone()], vec![review.clone()], vec![], two).is_some());
    // A review pair inside one cluster.
    assert!(ClusterResult::from_parts(vec![both], vec![review.clone()], vec![], one).is_none());
    // Repeated review pairs.
    assert!(ClusterResult::from_parts(vec![first, second], vec![review.clone(), review], vec![], two).is_none());
}

#[test]
fn origins_are_trimmed_and_validated() {
    let origin = Origin::new(" scanner ", &Some(" agent ".to_owned()), " 17 ").unwrap();
    assert_eq!(origin.source(), "scanner");
    assert_eq!(origin.subtype(), Some("agent"));
    assert_eq!(origin.native_id(), "17");
    assert!(Origin::new("scanner", &None, "17").unwrap().subtype().is_none());
    assert!(Origin::new(" ", &None, "17").is_err());
    assert!(Origin::new("scanner", &Some("  ".to_owned()), "17").is_err());
    assert!(Origin::new("scanner", &None, "1\u{0007}7").is_err());
}
