use custos_dedup::{
    BlockKind, Candidate, ClusterError, ClusterWarning, Config, Decision, Deduplicator, OversizedBlockPolicy,
};

fn named(source: &str, id: &str, name: &str) -> Candidate {
    Candidate::builder(source, id)
        .partition("global")
        .issue("CVE-2024-1")
        .subject_name(name)
        .build()
        .unwrap()
}

fn widget(source: &str, id: &str, purl: &str) -> Candidate {
    Candidate::builder(source, id)
        .partition("global")
        .issue("CVE-2024-1")
        .purl(purl)
        .unwrap()
        .build()
        .unwrap()
}

#[test]
fn cluster_retains_singletons() {
    let candidates = [
        Candidate::builder("one", "1")
            .partition("a")
            .issue("CVE-2024-1")
            .build()
            .unwrap(),
        Candidate::builder("two", "2")
            .partition("b")
            .issue("CVE-2024-1")
            .build()
            .unwrap(),
    ];

    let result = Deduplicator::default().cluster(&candidates).unwrap();
    assert_eq!(result.clusters().len(), 2);
}

#[test]
fn cluster_rejects_duplicate_occurrence_keys() {
    let candidate = named("one", "1", "package");
    let error = Deduplicator::default()
        .cluster(&[candidate.clone(), candidate])
        .unwrap_err();
    assert!(matches!(error, ClusterError::DuplicateOccurrence(_)));
}

#[test]
fn cluster_does_not_generate_unblocked_text_only_pairs() {
    let candidates = [
        Candidate::builder("one", "1")
            .partition("global")
            .title("Identical finding")
            .build()
            .unwrap(),
        Candidate::builder("two", "2")
            .partition("global")
            .title("Identical finding")
            .build()
            .unwrap(),
    ];

    let result = Deduplicator::default().cluster(&candidates).unwrap();
    assert_eq!(result.stats().candidate_pair_count(), 0);
}

#[test]
fn oversized_fuzzy_block_warns_and_keeps_exact_only() {
    let engine = Deduplicator::new(Config::builder().max_block_size(2).build().unwrap());
    let candidates = [
        named("one", "1", "alpha"),
        named("two", "2", "beta"),
        named("three", "3", "gamma"),
    ];

    let result = engine.cluster(&candidates).unwrap();
    assert_eq!(result.stats().candidate_pair_count(), 0);
    assert_eq!(
        result.warnings(),
        [ClusterWarning::OversizedBlock {
            kind: BlockKind::Issue,
            size: 3,
            limit: 2,
        }]
    );
}

#[test]
fn oversized_fuzzy_block_can_be_an_error() {
    let engine = Deduplicator::new(
        Config::builder()
            .max_block_size(2)
            .oversized_block_policy(OversizedBlockPolicy::Error)
            .build()
            .unwrap(),
    );
    let candidates = [
        named("one", "1", "alpha"),
        named("two", "2", "beta"),
        named("three", "3", "gamma"),
    ];

    assert_eq!(
        engine.cluster(&candidates).unwrap_err(),
        ClusterError::OversizedBlock {
            kind: BlockKind::Issue,
            size: 3,
            limit: 2,
        }
    );
}

#[test]
fn fuzzy_clustering_uses_complete_link_not_connected_components() {
    let engine = Deduplicator::new(
        Config::builder()
            .duplicate_threshold(7_000)
            .review_threshold(6_000)
            .subject_similarity_threshold(7_000)
            .build()
            .unwrap(),
    );
    let candidates = [
        named("one", "1", "alpha beta"),
        named("two", "2", "alpha beta gamma"),
        named("three", "3", "beta gamma"),
    ];

    let result = engine.cluster(&candidates).unwrap();
    let largest = result
        .clusters()
        .iter()
        .map(|cluster| cluster.members().len())
        .max();
    assert_eq!(largest, Some(2));
}

#[test]
fn clustering_is_input_order_invariant() {
    let engine = Deduplicator::default();
    let left = named("one", "1", "xz utils");
    let right = named("two", "2", "xz-utils");
    let first = engine.cluster(&[left.clone(), right.clone()]).unwrap();
    let second = engine.cluster(&[right, left]).unwrap();
    assert_eq!(first, second);
}

#[test]
fn exact_clustering_does_not_bridge_same_source_occurrences() {
    let candidates = [
        widget("one", "1", "pkg:generic/widget@1"),
        widget("one", "2", "pkg:generic/widget@1"),
        widget("two", "3", "pkg:generic/widget@1"),
    ];

    let engine = Deduplicator::default();
    let result = engine.cluster(&candidates).unwrap();
    let reordered = engine
        .cluster(&[
            candidates[2].clone(),
            candidates[0].clone(),
            candidates[1].clone(),
        ])
        .unwrap();
    assert_eq!(result.clusters().len(), 2);
    assert_eq!(
        result
            .clusters()
            .iter()
            .map(|cluster| cluster.members().len())
            .max(),
        Some(2)
    );
    assert_eq!(result, reordered);
}

#[test]
fn oversized_subject_block_warns_and_keeps_exact_only() {
    let engine = Deduplicator::new(Config::builder().max_block_size(2).build().unwrap());
    let candidates = [
        Candidate::builder("one", "1")
            .partition("global")
            .purl("pkg:generic/widget@1.0")
            .unwrap()
            .build()
            .unwrap(),
        Candidate::builder("two", "2")
            .partition("global")
            .purl("pkg:generic/widget@2.0")
            .unwrap()
            .build()
            .unwrap(),
        Candidate::builder("three", "3")
            .partition("global")
            .purl("pkg:generic/widget@3.0")
            .unwrap()
            .build()
            .unwrap(),
    ];

    let result = engine.cluster(&candidates).unwrap();
    assert_eq!(result.stats().candidate_pair_count(), 0);
    assert_eq!(
        result.warnings(),
        [ClusterWarning::OversizedBlock {
            kind: BlockKind::Subject,
            size: 3,
            limit: 2,
        }]
    );
}

#[test]
fn cluster_reports_review_pairs_for_plausible_but_unmerged_matches() {
    let engine = Deduplicator::default();
    let candidates = [
        named("one", "1", "acme widget"),
        named("two", "2", "acme widget"),
    ];

    let result = engine.cluster(&candidates).unwrap();
    assert_eq!(result.clusters().len(), 2);
    assert_eq!(result.review_pairs().len(), 1);
    assert_eq!(result.review_pairs()[0].decision(), Decision::Review);
}

#[test]
fn cluster_stats_reports_expected_counts_for_a_simple_exact_merge() {
    let candidates = [
        widget("one", "1", "pkg:generic/widget@1.0"),
        widget("two", "2", "pkg:generic/widget@1.0"),
    ];

    let stats = Deduplicator::default().cluster(&candidates).unwrap().stats();
    assert_eq!(stats.candidate_count(), 2);
    assert_eq!(stats.candidate_pair_count(), 1);
    assert_eq!(stats.comparison_count(), 1);
    assert_eq!(stats.exact_merge_count(), 1);
    assert_eq!(stats.fuzzy_merge_count(), 0);
    assert_eq!(stats.cluster_count(), 1);
}

// Further cases.

#[test]
fn empty_batch_yields_no_clusters() {
    let result = Deduplicator::default().cluster(&[]).unwrap();
    assert!(result.clusters().is_empty());
    assert!(result.review_pairs().is_empty());
    assert!(result.warnings().is_empty());
    assert_eq!(result.stats().candidate_count(), 0);
    assert_eq!(result.stats().cluster_count(), 0);
}

#[test]
fn duplicate_occurrence_error_names_the_repeated_key() {
    let engine = Deduplicator::default();
    let repeated = named("one", "1", "package");
    let other = named("two", "2", "other");
    let error = engine
        .cluster(&[repeated.clone(), other, repeated.clone()])
        .unwrap_err();
    assert_eq!(error, ClusterError::DuplicateOccurrence(engine.occurrence_key(&repeated)));
}

#[test]
fn clusters_partition_the_input_in_first_member_order() {
    let engine = Deduplicator::default();
    let candidates = [
        widget("one", "1", "pkg:generic/widget@1"),
        widget("two", "2", "pkg:generic/widget@1"),
        widget("three", "3", "pkg:generic/gadget@1"),
        named("four", "4", "unrelated"),
    ];
    let result = engine.cluster(&candidates).unwrap();

    let mut seen = Vec::new();
    for cluster in result.clusters() {
        let members = cluster.members();
        assert!(!members.is_empty());
        assert!(members.windows(2).all(|pair| pair[0] < pair[1]));
        seen.extend_from_slice(members);
    }
    assert!(result
        .clusters()
        .windows(2)
        .all(|pair| pair[0].members()[0] < pair[1].members()[0]));
    seen.sort();
    let mut expected = candidates
        .iter()
        .map(|candidate| engine.occurrence_key(candidate))
        .collect::<Vec<_>>();
    expected.sort();
    assert_eq!(seen, expected);

    let stats = result.stats();
    assert_eq!(stats.cluster_count(), result.clusters().len());
    assert_eq!(
        stats.exact_merge_count() + stats.fuzzy_merge_count() + stats.cluster_count(),
        stats.candidate_count()
    );
    assert!(stats.comparison_count() >= stats.candidate_pair_count());
}

#[test]
fn exact_aliases_merge_across_sources() {
    let engine = Deduplicator::default();
    let candidates = [
        widget("one", "1", "pkg:generic/widget@1"),
        widget("two", "2", "pkg:generic/widget@1"),
        widget("three", "3", "pkg:generic/widget@1"),
    ];
    let result = engine.cluster(&candidates).unwrap();
    assert_eq!(result.clusters().len(), 1);
    assert!(result.clusters()[0].is_duplicate());
    assert_eq!(result.stats().exact_merge_count(), 2);
}

#[test]
fn same_source_occurrences_merge_when_the_policy_allows() {
    let engine = Deduplicator::new(Config::builder().cross_source_only(false).build().unwrap());
    let candidates = [
        widget("one", "1", "pkg:generic/widget@1"),
        widget("one", "2", "pkg:generic/widget@1"),
        widget("two", "3", "pkg:generic/widget@1"),
    ];
    let result = engine.cluster(&candidates).unwrap();
    assert_eq!(result.clusters().len(), 1);
    assert_eq!(result.clusters()[0].members().len(), 3);
}

#[test]
fn review_pairs_are_between_different_clusters() {
    let engine = Deduplicator::default();
    let candidates = [
        named("one", "1", "acme widget"),
        named("two", "2", "acme widget"),
        named("three", "3", "acme widget"),
    ];
    let result = engine.cluster(&candidates).unwrap();
    for pair in result.review_pairs() {
        assert_eq!(pair.decision(), Decision::Review);
        assert!(pair.left() < pair.right());
        let holds = |key| {
            result
                .clusters()
                .iter()
                .position(|cluster| cluster.members().contains(&key))
                .unwrap()
        };
        assert_ne!(holds(pair.left()), holds(pair.right()));
    }
    assert!(result
        .review_pairs()
        .windows(2)
        .all(|pair| (pair[0].left(), pair[0].right()) < (pair[1].left(), pair[1].right())));
}

#[test]
fn warnings_are_absent_under_the_error_policy_when_blocks_fit() {
    let engine = Deduplicator::new(
        Config::builder()
            .max_block_size(3)
            .oversized_block_policy(OversizedBlockPolicy::Error)
            .build()
            .unwrap(),
    );
    let candidates = [
        named("one", "1", "alpha"),
        named("two", "2", "beta"),
        named("three", "3", "gamma"),
    ];
    let result = engine.cluster(&candidates).unwrap();
    assert!(result.warnings().is_empty());
    assert_eq!(result.stats().candidate_pair_count(), 3);
}

#[test]
fn fuzzy_clustering_is_the_same_for_every_input_order() {
    let engine = Deduplicator::new(
        Config::builder()
            .duplicate_threshold(7_000)
            .review_threshold(6_000)
            .subject_similarity_threshold(7_000)
            .build()
            .unwrap(),
    );
    let a = named("one", "1", "alpha beta");
    let b = named("two", "2", "alpha beta gamma");
    let c = named("three", "3", "beta gamma");
    let first = engine.cluster(&[a.clone(), b.clone(), c.clone()]).unwrap();
    let orders = [
        [a.clone(), c.clone(), b.clone()],
        [b.clone(), a.clone(), c.clone()],
        [b.clone(), c.clone(), a.clone()],
        [c.clone(), a.clone(), b.clone()],
        [c.clone(), b.clone(), a.clone()],
    ];
    for order in orders.iter() {
        assert_eq!(engine.cluster(order).unwrap(), first);
    }
    assert_eq!(first.stats().comparison_count(), 3);
    assert_eq!(first.stats().fuzzy_merge_count(), 1);
}

#[test]
fn a_lone_candidate_needs_no_comparison() {
    let result = Deduplicator::default().cluster(&[named("one", "1", "alpha")]).unwrap();
    assert_eq!(result.stats().comparison_count(), 0);
    assert_eq!(result.stats().exact_merge_count(), 0);
    assert_eq!(result.stats().fuzzy_merge_count(), 0);
}

#[test]
fn a_candidate_with_two_versions_of_one_package_is_paired_with_itself() {
    let candidate = Candidate::builder("one", "1")
        .partition("global")
        .purl("pkg:npm/left-pad@1.0.0")
        .unwrap()
        .purl("pkg:npm/left-pad@2.0.0")
        .unwrap()
        .build()
        .unwrap();
    let result = Deduplicator::default().cluster(&[candidate]).unwrap();
    assert_eq!(result.clusters().len(), 1);
    assert_eq!(result.stats().candidate_pair_count(), 1);
    assert_eq!(result.stats().comparison_count(), 1);
}

#[test]
fn oversized_block_warnings_are_the_same_for_every_input_order() {
    let engine = Deduplicator::new(Config::builder().max_block_size(2).build().unwrap());
    let a = widget("one", "1", "pkg:generic/widget@1.0");
    let b = widget("two", "2", "pkg:generic/widget@2.0");
    let c = widget("three", "3", "pkg:generic/widget@3.0");
    let expected = [
        ClusterWarning::OversizedBlock {
            kind: BlockKind::Issue,
            size: 3,
            limit: 2,
        },
        ClusterWarning::OversizedBlock {
            kind: BlockKind::Subject,
            size: 3,
            limit: 2,
        },
    ];
    let orders = [
        [a.clone(), b.clone(), c.clone()],
        [c.clone(), b.clone(), a.clone()],
        [b.clone(), c.clone(), a.clone()],
    ];
    let first = engine.cluster(&orders[0]).unwrap();
    for order in orders.iter() {
        let result = engine.cluster(order).unwrap();
        assert_eq!(result.warnings(), expected);
        assert_eq!(result.clusters(), first.clusters());
    }
}
