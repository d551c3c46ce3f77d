use custos_dedup::{Config, ConfigError, OversizedBlockPolicy};

#[test]
fn defaults_are_conservative() {
    let config = Config::default();
    assert_eq!(
        (
            config.duplicate_threshold().get(),
            config.review_threshold().get(),
            config.cross_source_only(),
            config.issue_only_exact()
        ),
        (8_500, 6_500, true, false)
    );
}

#[test]
fn build_rejects_reversed_thresholds() {
    let error = Config::builder()
        .duplicate_threshold(8_000)
        .review_threshold(8_001)
        .build()
        .unwrap_err();
    assert_eq!(error, ConfigError::ThresholdOrder);
}

// Further cases.

#[test]
fn defaults_bound_blocks_and_warn() {
    let config = Config::default();
    assert_eq!(config.subject_similarity_threshold().get(), 9_000);
    assert_eq!(config.max_block_size(), 1_000);
    assert_eq!(config.oversized_block_policy(), OversizedBlockPolicy::ExactOnlyAndWarn);
}

#[test]
fn build_rejects_scores_above_the_maximum() {
    let error = Config::builder().duplicate_threshold(10_001).build().unwrap_err();
    assert_eq!(
        error,
        ConfigError::ScoreOutOfRange {
            field: "duplicate_threshold",
            value: 10_001
        }
    );
    let error = Config::builder().subject_similarity_threshold(20_000).build().unwrap_err();
    assert_eq!(
        error,
        ConfigError::ScoreOutOfRange {
            field: "subject_similarity_threshold",
            value: 20_000
        }
    );
}

#[test]
fn build_rejects_blocks_smaller_than_a_pair() {
    assert_eq!(Config::builder().max_block_size(1).build().unwrap_err(), ConfigError::BlockSize(1));
    assert!(Config::builder().max_block_size(2).build().is_ok());
}

#[test]
fn builder_values_are_kept() {
    let config = Config::builder()
        .duplicate_threshold(9_000)
        .review_threshold(7_000)
        .subject_similarity_threshold(9_200)
        .cross_source_only(false)
        .issue_only_exact(true)
        .max_block_size(500)
        .oversized_block_policy(OversizedBlockPolicy::Error)
        .build()
        .unwrap();
    assert_eq!(config.duplicate_threshold().get(), 9_000);
    assert_eq!(config.review_threshold().get(), 7_000);
    assert_eq!(config.subject_similarity_threshold().get(), 9_200);
    assert!(!config.cross_source_only());
    assert!(config.issue_only_exact());
    assert_eq!(config.max_block_size(), 500);
    assert_eq!(config.oversized_block_policy(), OversizedBlockPolicy::Error);
}
