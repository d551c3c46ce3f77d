use custos_dedup::{Candidate, CandidateError, FindingKind, IssueId, SubjectId};

#[test]
fn issue_id_normalizes_known_identifier_case() {
    assert_eq!(IssueId::new(" cve-2024-3094 ").unwrap().as_str(), "CVE-2024-3094");
}

#[test]
fn issue_id_preserves_unknown_identifier_case() {
    assert_eq!(IssueId::new("Vendor-AbC").unwrap().as_str(), "Vendor-AbC");
}

#[test]
fn build_sorts_and_deduplicates_aliases() {
    let candidate = Candidate::builder("one", "17")
        .partition("global")
        .issue("CVE-2024-2")
        .issue("cve-2024-1")
        .issue("CVE-2024-2")
        .build()
        .unwrap();

    let actual = candidate.issue_ids().iter().map(IssueId::as_str).collect::<Vec<_>>();
    assert_eq!(actual, ["CVE-2024-1", "CVE-2024-2"]);
}

#[test]
fn build_rejects_missing_partition() {
    let error = Candidate::builder("one", "17").issue("CVE-2024-1").build().unwrap_err();
    assert_eq!(error, CandidateError::EmptyField { field: "partition" });
}

#[test]
fn build_rejects_candidate_without_evidence() {
    let error = Candidate::builder("one", "17").partition("global").build().unwrap_err();
    assert_eq!(error, CandidateError::NoEvidence);
}

#[test]
fn custom_finding_kind_is_trimmed() {
    let candidate = Candidate::builder("one", "17")
        .partition("global")
        .kind(FindingKind::Other("  policy  ".to_owned()))
        .title("Finding")
        .build()
        .unwrap();

    assert_eq!(candidate.kind(), &FindingKind::Other("policy".to_owned()));
}

#[test]
fn issue_id_rejects_empty_value() {
    assert_eq!(IssueId::new("   ").unwrap_err(), CandidateError::EmptyIssueId);
}

#[test]
fn issue_id_rejects_control_characters() {
    assert_eq!(
        IssueId::new("CVE-2024-1\u{0007}").unwrap_err(),
        CandidateError::ControlCharacter { field: "issue_id" }
    );
}

#[test]
fn build_rejects_control_character_in_title() {
    let error = Candidate::builder("one", "17")
        .partition("global")
        .title("bad\u{0007}title")
        .build()
        .unwrap_err();
    assert_eq!(error, CandidateError::ControlCharacter { field: "title" });
}

#[test]
fn build_rejects_blank_subject_name() {
    let error = Candidate::builder("one", "17")
        .partition("global")
        .title("Finding")
        .subject_name("   ")
        .build()
        .unwrap_err();
    assert_eq!(error, CandidateError::EmptyField { field: "subject_name" });
}

#[test]
fn custom_finding_kind_rejects_blank_value() {
    let error = Candidate::builder("one", "17")
        .partition("global")
        .kind(FindingKind::Other("   ".to_owned()))
        .title("Finding")
        .build()
        .unwrap_err();
    assert_eq!(error, CandidateError::EmptyField { field: "kind" });
}

#[test]
fn build_sorts_and_deduplicates_subject_ids_and_names() {
    let candidate = Candidate::builder("one", "17")
        .partition("global")
        .purl("pkg:generic/widget@2")
        .unwrap()
        .purl("pkg:generic/widget@1")
        .unwrap()
        .purl("pkg:generic/widget@1")
        .unwrap()
        .subject_name("Zeta")
        .subject_name("Alpha")
        .subject_name("Zeta")
        .build()
        .unwrap();

    assert_eq!(candidate.subject_ids().len(), 2);
    let names = candidate.subject_names().iter().map(String::as_str).collect::<Vec<_>>();
    assert_eq!(names, ["Alpha", "Zeta"]);
}

#[test]
fn builder_stores_optional_fields_trimmed() {
    let candidate = Candidate::builder("one", "17")
        .subtype(" agent ")
        .partition("global")
        .issue("CVE-2024-1")
        .location(" /etc/passwd ")
        .affected_version(" 1.2.3 ")
        .build()
        .unwrap();

    assert_eq!(candidate.origin().subtype(), Some("agent"));
    assert_eq!(candidate.location(), Some("/etc/passwd"));
    assert_eq!(candidate.affected_version(), Some("1.2.3"));
}

#[test]
fn issue_id_display_matches_as_str() {
    let issue = IssueId::new("cve-2024-1").unwrap();
    assert_eq!(issue.to_string(), issue.as_str());
}

// Further cases.

#[test]
fn build_rejects_blank_source_and_native_id() {
    let error = Candidate::builder("  ", "17").partition("global").issue("CVE-2024-1").build().unwrap_err();
    assert_eq!(error, CandidateError::EmptyField { field: "source" });
    let error = Candidate::builder("one", " ").partition("global").issue("CVE-2024-1").build().unwrap_err();
    assert_eq!(error, CandidateError::EmptyField { field: "native_id" });
}

#[test]
fn build_rejects_control_characters_in_partition() {
    let error = Candidate::builder("one", "17")
        .partition("glo\u{0001}bal")
        .issue("CVE-2024-1")
        .build()
        .unwrap_err();
    assert_eq!(error, CandidateError::ControlCharacter { field: "partition" });
}

#[test]
fn build_rejects_bad_issue_ids() {
    let error = Candidate::builder("one", "17").partition("global").issue("  ").build().unwrap_err();
    assert_eq!(error, CandidateError::EmptyIssueId);
}

#[test]
fn builder_keeps_origin_and_defaults() {
    let candidate = Candidate::builder(" scanner ", " 17 ")
        .partition(" global ")
        .title(" Finding ")
        .build()
        .unwrap();
    assert_eq!(candidate.origin().source(), "scanner");
    assert_eq!(candidate.origin().native_id(), "17");
    assert_eq!(candidate.origin().subtype(), None);
    assert_eq!(candidate.partition(), "global");
    assert_eq!(candidate.kind(), &FindingKind::Vulnerability);
    assert_eq!(candidate.title(), Some("Finding"));
    assert_eq!(candidate.location(), None);
    assert!(candidate.issue_ids().is_empty());
}

#[test]
fn builder_adds_aliases_and_subjects() {
    let subject = SubjectId::parse("cpe:2.3:a:acme:widget:1:*:*:*:*:*:*:*").unwrap();
    let candidate = Candidate::builder("one", "17")
        .partition("global")
        .issue("CVE-2024-1")
        .issue_alias("GHSA-aaaa-bbbb-cccc")
        .subject(subject.clone())
        .cpe("cpe:/a:acme:widget:1")
        .unwrap()
        .build()
        .unwrap();
    assert_eq!(candidate.issue_ids().len(), 2);
    assert_eq!(candidate.subject_ids().len(), 1);
    assert_eq!(candidate.subject_ids()[0], subject);
}

#[test]
fn builder_rejects_an_invalid_purl() {
    assert!(Candidate::builder("one", "17").purl("pkg:generic/widget@").is_err());
    assert!(Candidate::builder("one", "17").cpe("not-a-cpe").is_err());
}

#[test]
fn finding_kind_defaults_to_vulnerability() {
    assert_eq!(FindingKind::default(), FindingKind::Vulnerability);
    assert_eq!(FindingKind::Secret.key_tag(), "secret");
    assert_eq!(FindingKind::Other("policy".to_owned()).custom_key(), Some("policy"));
}

#[test]
fn builders_of_equal_values_build_equal_candidates() {
    let by_purl = Candidate::builder("scanner", "17")
        .partition("global")
        .issue_alias("cve-2024-1")
        .purl("pkg:npm/left-pad@1.0.0")
        .unwrap()
        .build()
        .unwrap();
    let by_subject = Candidate::builder("scanner", "17")
        .partition("global")
        .issue("cve-2024-1")
        .subject(SubjectId::parse("pkg:npm/left-pad@1.0.0").unwrap())
        .build()
        .unwrap();
    assert_eq!(by_purl, by_subject);
}

#[test]
fn an_alias_builds_like_an_issue() {
    let by_alias = Candidate::builder("one", "1")
        .partition("global")
        .issue_alias("GHSA-aaaa-bbbb-cccc")
        .build()
        .unwrap();
    let by_issue = Candidate::builder("one", "1")
        .partition("global")
        .issue("GHSA-aaaa-bbbb-cccc")
        .build()
        .unwrap();
    assert_eq!(by_alias, by_issue);
}

#[test]
fn a_purl_builds_like_its_parsed_subject() {
    let subject = SubjectId::parse("pkg:npm/left-pad@1.0.0").unwrap();
    let by_purl = Candidate::builder("one", "1")
        .partition("global")
        .purl("pkg:npm/left-pad@1.0.0")
        .unwrap()
        .build()
        .unwrap();
    let by_subject = Candidate::builder("one", "1")
        .partition("global")
        .subject(subject)
        .build()
        .unwrap();
    assert_eq!(by_purl, by_subject);
}
