//! Validated comparison and clustering policy.
use vstd::prelude::*;

use crate::compare::Score;

verus! {

/// How clustering handles an oversized fuzzy candidate block.
#[derive(Clone, Copy, Debug, PartialEq, Eq, Structural)]
#[non_exhaustive]
pub enum OversizedBlockPolicy {
    /// Keep exact-key matches, skip fuzzy pairs, and return a warning.
    ExactOnlyAndWarn,
    /// Stop clustering with an error.
    Error,
}

/// The policy values of a [`Config`].
pub struct ConfigView {
    /// Minimum score for an automatic duplicate decision.
    pub duplicate_threshold: u16,
    /// Minimum score surfaced for review.
    pub review_threshold: u16,
    /// Subject-name similarity that counts as a strong anchor.
    pub subject_similarity_threshold: u16,
    /// Whether different occurrences from one source are excluded.
    pub cross_source_only: bool,
    /// Whether a shared issue without a subject creates an exact key.
    pub issue_only_exact: bool,
    /// Largest block eligible for fuzzy pair generation.
    pub max_block_size: usize,
    /// Oversized-block behavior.
    pub oversized_block_policy: OversizedBlockPolicy,
}

impl ConfigView {
    /// The invariants every built configuration satisfies.
    pub open spec fn valid(self) -> bool {
        &&& self.duplicate_threshold <= 10_000
        &&& self.review_threshold <= 10_000
        &&& self.subject_similarity_threshold <= 10_000
        &&& self.review_threshold <= self.duplicate_threshold
        &&& self.max_block_size >= 2
    }

    /// The conservative defaults.
    pub open spec fn defaults() -> ConfigView {
        ConfigView {
            duplicate_threshold: 8_500,
            review_threshold: 6_500,
            subject_similarity_threshold: 9_000,
            cross_source_only: true,
            issue_only_exact: false,
            max_block_size: 1_000,
            oversized_block_policy: OversizedBlockPolicy::ExactOnlyAndWarn,
        }
    }
}

/// Validated comparison and clustering policy.
#[derive(Clone, Copy, Debug, PartialEq, Eq)]
pub struct Config {
    duplicate_threshold: Score,
    review_threshold: Score,
    subject_similarity_threshold: Score,
    cross_source_only: bool,
    issue_only_exact: bool,
    max_block_size: usize,
    oversized_block_policy: OversizedBlockPolicy,
}

impl View for Config {
    type V = ConfigView;

    closed spec fn view(&self) -> ConfigView {
        ConfigView {
            duplicate_threshold: self.duplicate_threshold@,
            review_threshold: self.review_threshold@,
            subject_similarity_threshold: self.subject_similarity_threshold@,
            cross_source_only: self.cross_source_only,
            issue_only_exact: self.issue_only_exact,
            max_block_size: self.max_block_size,
            oversized_block_policy: self.oversized_block_policy,
        }
    }
}

impl Config {
    /// Starts a configuration builder with conservative defaults.
    pub fn builder() -> (b: ConfigBuilder)
        ensures
            b@ == ConfigView::defaults(),
    {
        ConfigBuilder::default()
    }

    /// Returns the minimum score eligible for an automatic duplicate decision.
    pub fn duplicate_threshold(&self) -> (r: Score)
        ensures
            r@ == self@.duplicate_threshold,
    {
        self.duplicate_threshold
    }

    /// Returns the minimum score surfaced for human review.
    pub fn review_threshold(&self) -> (r: Score)
        ensures
            r@ == self@.review_threshold,
    {
        self.review_threshold
    }

    /// Returns the fuzzy subject-name threshold used as a strong anchor.
    pub fn subject_similarity_threshold(&self) -> (r: Score)
        ensures
            r@ == self@.subject_similarity_threshold,
    {
        self.subject_similarity_threshold
    }

    /// Returns whether different occurrences from one source are excluded.
    pub fn cross_source_only(&self) -> (r: bool)
        ensures
            r == self@.cross_source_only,
    {
        self.cross_source_only
    }

    /// Returns whether a shared issue without a subject creates an exact key.
    pub fn issue_only_exact(&self) -> (r: bool)
        ensures
            r == self@.issue_only_exact,
    {
        self.issue_only_exact
    }

    /// Returns the largest block eligible for fuzzy pair generation.
    pub fn max_block_size(&self) -> (r: usize)
        ensures
            r == self@.max_block_size,
    {
        self.max_block_size
    }

    /// Returns the oversized-block behavior.
    pub fn oversized_block_policy(&self) -> (r: OversizedBlockPolicy)
        ensures
            r == self@.oversized_block_policy,
    {
        self.oversized_block_policy
    }
}

impl Default for Config {
    fn default() -> (c: Self)
        ensures
            c@ == ConfigView::defaults(),
    {
        Config {
            duplicate_threshold: Score::from_valid(8_500),
            review_threshold: Score::from_valid(6_500),
            subject_similarity_threshold: Score::from_valid(9_000),
            cross_source_only: true,
            issue_only_exact: false,
            max_block_size: 1_000,
            oversized_block_policy: OversizedBlockPolicy::ExactOnlyAndWarn,
        }
    }
}

/// The unvalidated values held by a [`ConfigBuilder`].
pub struct ConfigBuilderView {
    /// Requested duplicate threshold.
    pub duplicate_threshold: u16,
    /// Requested review threshold.
    pub review_threshold: u16,
    /// Requested subject-name threshold.
    pub subject_similarity_threshold: u16,
    /// Requested cross-source-only flag.
    pub cross_source_only: bool,
    /// Requested issue-only exact flag.
    pub issue_only_exact: bool,
    /// Requested maximum block size.
    pub max_block_size: usize,
    /// Requested oversized-block policy.
    pub oversized_block_policy: OversizedBlockPolicy,
}

/// Builds a validated [`Config`].
#[derive(Clone, Debug)]
pub struct ConfigBuilder {
    duplicate_threshold: u16,
    review_threshold: u16,
    subject_similarity_threshold: u16,
    cross_source_only: bool,
    issue_only_exact: bool,
    max_block_size: usize,
    oversized_block_policy: OversizedBlockPolicy,
}

impl View for ConfigBuilder {
    type V = ConfigView;

    closed spec fn view(&self) -> ConfigView {
        ConfigView {
            duplicate_threshold: self.duplicate_threshold,
            review_threshold: self.review_threshold,
            subject_similarity_threshold: self.subject_similarity_threshold,
            cross_source_only: self.cross_source_only,
            issue_only_exact: self.issue_only_exact,
            max_block_size: self.max_block_size,
            oversized_block_policy: self.oversized_block_policy,
        }
    }
}

impl Default for ConfigBuilder {
    fn default() -> (b: Self)
        ensures
            b@ == ConfigView::defaults(),
    {
        ConfigBuilder {
            duplicate_threshold: 8_500,
            review_threshold: 6_500,
            subject_similarity_threshold: 9_000,
            cross_source_only: true,
            issue_only_exact: false,
            max_block_size: 1_000,
            oversized_block_policy: OversizedBlockPolicy::ExactOnlyAndWarn,
        }
    }
}

impl ConfigBuilder {
    /// Sets the automatic duplicate threshold in basis points (`0..=10_000`).
    pub fn duplicate_threshold(self, value: u16) -> (b: Self)
        ensures
            b@ == (ConfigView { duplicate_threshold: value, ..self@ }),
    {
        ConfigBuilder { duplicate_threshold: value, ..self }
    }

    /// Sets the review threshold in basis points (`0..=10_000`).
    pub fn review_threshold(self, value: u16) -> (b: Self)
        ensures
            b@ == (ConfigView { review_threshold: value, ..self@ }),
    {
        ConfigBuilder { review_threshold: value, ..self }
    }

    /// Sets the fuzzy subject-name anchor threshold in basis points.
    pub fn subject_similarity_threshold(self, value: u16) -> (b: Self)
        ensures
            b@ == (ConfigView { subject_similarity_threshold: value, ..self@ }),
    {
        ConfigBuilder { subject_similarity_threshold: value, ..self }
    }

    /// Restricts comparison of different occurrences to different sources.
    pub fn cross_source_only(self, value: bool) -> (b: Self)
        ensures
            b@ == (ConfigView { cross_source_only: value, ..self@ }),
    {
        ConfigBuilder { cross_source_only: value, ..self }
    }

    /// Enables exact issue-only keys when neither candidate has a subject.
    pub fn issue_only_exact(self, value: bool) -> (b: Self)
        ensures
            b@ == (ConfigView { issue_only_exact: value, ..self@ }),
    {
        ConfigBuilder { issue_only_exact: value, ..self }
    }

    /// Sets the largest fuzzy candidate block.
    pub fn max_block_size(self, value: usize) -> (b: Self)
        ensures
            b@ == (ConfigView { max_block_size: value, ..self@ }),
    {
        ConfigBuilder { max_block_size: value, ..self }
    }

    /// Sets the oversized-block behavior.
    pub fn oversized_block_policy(self, value: OversizedBlockPolicy) -> (b: Self)
        ensures
            b@ == (ConfigView { oversized_block_policy: value, ..self@ }),
    {
        ConfigBuilder { oversized_block_policy: value, ..self }
    }

    /// Validates and builds the configuration.
    ///
    /// Scores above 10,000 are reported first, in field order, then a review
    /// threshold above the duplicate threshold, then a block limit below two.
    pub fn build(self) -> (r: Result<Config, ConfigError>)
        ensures
            match r {
                Ok(c) => build_error(self@) is None && c@ == self@ && c@.valid(),
                Err(e) => build_error(self@) == Some(e),
            },
    {
        if self.duplicate_threshold > 10_000 {
            return Err(ConfigError::ScoreOutOfRange {
                field: "duplicate_threshold",
                value: self.duplicate_threshold,
            });
        }
        if self.review_threshold > 10_000 {
            return Err(ConfigError::ScoreOutOfRange {
                field: "review_threshold",
                value: self.review_threshold,
            });
        }
        if self.subject_similarity_threshold > 10_000 {
            return Err(ConfigError::ScoreOutOfRange {
                field: "subject_similarity_threshold",
                value: self.subject_similarity_threshold,
            });
        }
        if self.review_threshold > self.duplicate_threshold {
            return Err(ConfigError::ThresholdOrder);
        }
        if self.max_block_size < 2 {
            return Err(ConfigError::BlockSize(self.max_block_size));
        }
        let c = Config {
            duplicate_threshold: Score::from_valid(self.duplicate_threshold),
            review_threshold: Score::from_valid(self.review_threshold),
            subject_similarity_threshold: Score::from_valid(self.subject_similarity_threshold),
            cross_source_only: self.cross_source_only,
            issue_only_exact: self.issue_only_exact,
            max_block_size: self.max_block_size,
            oversized_block_policy: self.oversized_block_policy,
        };
        proof {
            assert(c@ == self@);
        }
        Ok(c)
    }
}

/// The first check that requested values fail, in the order
/// [`ConfigBuilder::build`] applies them, or `None` when all pass.
pub open spec fn build_error(v: ConfigView) -> Option<ConfigError> {
    if v.duplicate_threshold > 10_000 {
        Some(ConfigError::ScoreOutOfRange { field: "duplicate_threshold", value: v.duplicate_threshold })
    } else if v.review_threshold > 10_000 {
        Some(ConfigError::ScoreOutOfRange { field: "review_threshold", value: v.review_threshold })
    } else if v.subject_similarity_threshold > 10_000 {
        Some(ConfigError::ScoreOutOfRange {
            field: "subject_similarity_threshold",
            value: v.subject_similarity_threshold,
        })
    } else if v.review_threshold > v.duplicate_threshold {
        Some(ConfigError::ThresholdOrder)
    } else if v.max_block_size < 2 {
        Some(ConfigError::BlockSize(v.max_block_size))
    } else {
        None
    }
}

/// An invalid deduplication policy.
#[derive(Clone, Debug, PartialEq, Eq)]
#[non_exhaustive]
pub enum ConfigError {
    /// A score exceeded 10,000 basis points.
    ScoreOutOfRange {
        /// The invalid field name.
        field: &'static str,
        /// The invalid value.
        value: u16,
    },
    /// The review threshold exceeded the duplicate threshold.
    ThresholdOrder,
    /// The maximum fuzzy block size was too small.
    BlockSize(usize),
}

/// Every configuration [`ConfigBuilder::build`] accepts satisfies the
/// documented invariants, and one is accepted exactly when the requested
/// values satisfy them.
pub proof fn lemma_build_accepts_exactly_valid(v: ConfigView)
    ensures
        build_error(v) is None <==> v.valid(),
{
}

} // verus!
