use custos_dedup::{Candidate, CorrelationKey, FindingKind, KeyParseError, OccurrenceKey};

#[test]
fn occurrence_key_is_domain_separated_and_stable() {
    let candidate = Candidate::builder("scanner", "42")
        .partition("global")
        .issue("CVE-2024-1")
        .build()
        .unwrap();

    assert_eq!(
        OccurrenceKey::for_candidate(&candidate).to_string(),
        "occ:v1:450c326009b8cd7997128cb8dec1198ffc90c42a71bb588b31d598ed08cd17a4"
    );
}

#[test]
fn occurrence_key_changes_with_source_identity() {
    let left = Candidate::builder("one", "42")
        .partition("global")
        .issue("CVE-2024-1")
        .build()
        .unwrap();
    let right = Candidate::builder("two", "42")
        .partition("global")
        .issue("CVE-2024-1")
        .build()
        .unwrap();

    assert_ne!(OccurrenceKey::for_candidate(&left), OccurrenceKey::for_candidate(&right));
}

#[test]
fn correlation_key_is_domain_separated_and_stable() {
    let candidate = Candidate::builder("scanner", "42")
        .partition("global")
        .issue("CVE-2024-1")
        .purl("pkg:cargo/widget@1.0.0")
        .unwrap()
        .build()
        .unwrap();
    let key = CorrelationKey::for_issue_subject(
        candidate.partition(),
        candidate.kind(),
        &candidate.issue_ids()[0],
        &candidate.subject_ids()[0],
    );

    assert_eq!(
        key.to_string(),
        "corr:v1:424a766e50abab734784726f6e678f9d4b938cc9fcaa8c6e8fec562637698ae2"
    );
    assert_eq!(key.to_string().parse::<CorrelationKey>().unwrap(), key);
}

#[test]
fn occurrence_key_respects_hard_boundaries() {
    let first = Candidate::builder("one", "42")
        .partition("asset:a")
        .issue("CVE-2024-1")
        .build()
        .unwrap();
    let second = Candidate::builder("one", "42")
        .partition("asset:b")
        .issue("CVE-2024-1")
        .build()
        .unwrap();

    assert_ne!(OccurrenceKey::for_candidate(&first), OccurrenceKey::for_candidate(&second));
}

#[test]
fn built_in_and_custom_finding_kinds_are_domain_separated() {
    let built_in = Candidate::builder("one", "42")
        .partition("global")
        .kind(FindingKind::Vulnerability)
        .issue("CVE-2024-1")
        .build()
        .unwrap();
    let custom = Candidate::builder("one", "42")
        .partition("global")
        .kind(FindingKind::Other("vulnerability".to_owned()))
        .issue("CVE-2024-1")
        .build()
        .unwrap();

    assert_ne!(OccurrenceKey::for_candidate(&built_in), OccurrenceKey::for_candidate(&custom));
}

#[test]
fn occurrence_key_round_trips_through_display() {
    let candidate = Candidate::builder("one", "42")
        .partition("global")
        .issue("CVE-2024-1")
        .build()
        .unwrap();
    let key = OccurrenceKey::for_candidate(&candidate);

    assert_eq!(key.to_string().parse::<OccurrenceKey>().unwrap(), key);
}

// Further cases.

#[test]
fn occurrence_key_parse_round_trips_bytes() {
    let candidate = Candidate::builder("scanner", "42")
        .partition("global")
        .issue("CVE-2024-1")
        .build()
        .unwrap();
    let key = OccurrenceKey::for_candidate(&candidate);
    let parsed = OccurrenceKey::parse(&key.to_string()).unwrap();
    assert_eq!(parsed.as_bytes(), key.as_bytes());
    assert_eq!(key.as_bytes()[0], 0x45);
}

#[test]
fn key_parsing_rejects_wrong_prefix_and_bad_digests() {
    let text = "occ:v1:450c326009b8cd7997128cb8dec1198ffc90c42a71bb588b31d598ed08cd17a4";
    assert!(text.parse::<CorrelationKey>().is_err());
    assert!(OccurrenceKey::parse("occ:v1:450c").is_err());
    assert!(OccurrenceKey::parse("occ:v1:450c326009b8cd7997128cb8dec1198ffc90c42a71bb588b31d598ed08cd17aZ").is_err());
    assert!(OccurrenceKey::parse(&text.to_uppercase()).is_err());
    let _: Option<KeyParseError> = OccurrenceKey::parse("").err();
}

#[test]
fn issue_only_correlation_key_differs_from_subject_key() {
    let candidate = Candidate::builder("scanner", "42")
        .partition("global")
        .issue("CVE-2024-1")
        .purl("pkg:cargo/widget@1.0.0")
        .unwrap()
        .build()
        .unwrap();
    let issue_only = CorrelationKey::for_issue_only(candidate.partition(), candidate.kind(), &candidate.issue_ids()[0]);
    let with_subject = CorrelationKey::for_issue_subject(
        candidate.partition(),
        candidate.kind(),
        &candidate.issue_ids()[0],
        &candidate.subject_ids()[0],
    );
    assert_ne!(issue_only, with_subject);
    assert!(issue_only.to_string().starts_with("corr:v1:"));
}

#[test]
fn occurrence_key_ignores_evidence_fields() {
    let left = Candidate::builder("one", "42")
        .partition("global")
        .issue("CVE-2024-1")
        .build()
        .unwrap();
    let right = Candidate::builder("one", "42")
        .partition("global")
        .issue("CVE-2024-2")
        .title("Other evidence")
        .build()
        .unwrap();
    assert_eq!(OccurrenceKey::for_candidate(&left), OccurrenceKey::for_candidate(&right));
}
