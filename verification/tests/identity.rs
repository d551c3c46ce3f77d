use custos_dedup::{IdentityError, NormalizedCpe, NormalizedPurl, SubjectId};

const VERSION: usize = 3;
const PRODUCT: usize = 2;
const LANGUAGE: usize = 6;

#[test]
fn purl_canonicalizes_type_namespaces_names_and_qualifiers() {
    let purl = NormalizedPurl::parse("pkg:GITHUB/Package-URL/Purl-Spec@1?Z=two&a=one").unwrap();

    assert_eq!(purl.as_str(), "pkg:github/package-url/purl-spec@1?a=one&z=two");
}

#[test]
fn purl_exposes_sorted_components_and_versionless_coordinate() {
    let purl = NormalizedPurl::parse("pkg:deb/debian/xz-utils@5.6.1?distro=bookworm&arch=amd64#src/lib").unwrap();

    assert_eq!(purl.ty(), "deb");
    assert_eq!(purl.namespace(), Some("debian"));
    assert_eq!(purl.name(), "xz-utils");
    assert_eq!(purl.version(), Some("5.6.1"));
    assert_eq!(purl.subpath(), Some("src/lib"));
    assert_eq!(purl.qualifiers(), [("arch", "amd64"), ("distro", "bookworm")]);
    assert_eq!(purl.coordinate(), "pkg:deb/debian/xz-utils");
}

#[test]
fn purl_rejects_malformed_percent_escape() {
    let error = NormalizedPurl::parse("pkg:generic/widget%ZZ@1").unwrap_err();

    assert_eq!(error, IdentityError::InvalidPercentEscape { position: 18 });
}

#[test]
fn purl_rejects_empty_version() {
    assert_eq!(NormalizedPurl::parse("pkg:generic/widget@").unwrap_err(), IdentityError::EmptyPurlVersion);
}

#[test]
fn purl_rejects_empty_qualifier_value() {
    assert_eq!(
        NormalizedPurl::parse("pkg:generic/widget?arch=").unwrap_err(),
        IdentityError::EmptyPurlQualifierValue { key: "arch".to_owned() }
    );
}

#[test]
fn purl_rejects_bare_qualifier() {
    assert_eq!(
        NormalizedPurl::parse("pkg:generic/widget?arch").unwrap_err(),
        IdentityError::InvalidPurlQualifier { qualifier: "arch".to_owned() }
    );
}

#[test]
fn purl_rejects_duplicate_qualifiers_after_case_normalization() {
    assert_eq!(
        NormalizedPurl::parse("pkg:generic/widget?Arch=x86&arch=arm64").unwrap_err(),
        IdentityError::DuplicatePurlQualifier { key: "arch".to_owned() }
    );
}

#[test]
fn purl_normalization_is_idempotent() {
    let first = NormalizedPurl::parse("pkg:PYPI/Django_package@1%2bdev").unwrap();
    let second = NormalizedPurl::parse(first.as_str()).unwrap();

    assert_eq!(first, second);
}

#[test]
fn formatted_cpe_round_trips_all_components() {
    let input = "cpe:2.3:a:microsoft:internet_explorer:8.0.6001:beta:*:en-us:*:windows:x64:*";
    let cpe = NormalizedCpe::parse(input).unwrap();

    assert_eq!(cpe.as_str(), input);
    assert_eq!(cpe.part(), "a");
    assert_eq!(cpe.vendor(), "microsoft");
    assert_eq!(cpe.product(), "internet_explorer");
    assert_eq!(cpe.version(), Some("8.0.6001"));
    assert_eq!(cpe.update(), "beta");
    assert_eq!(cpe.language(), "en-us");
    assert_eq!(cpe.target_sw(), "windows");
    assert_eq!(cpe.target_hw(), "x64");
}

#[test]
fn formatted_cpe_handles_escaped_colons_and_backslashes() {
    let input = r"cpe:2.3:a:acme:widget\:pro\\edition:1.0:*:*:*:*:*:*:*";
    let cpe = NormalizedCpe::parse(input).unwrap();

    assert_eq!(cpe.product(), r"widget:pro\edition");
    assert_eq!(cpe.as_str(), input);
}

#[test]
fn formatted_cpe_uses_backslash_parity_for_delimiters() {
    let input = r"cpe:2.3:a:foo\\:bar:1:*:*:*:*:*:*:*";
    let cpe = NormalizedCpe::parse(input).unwrap();

    assert_eq!(cpe.vendor(), "foo\\");
    assert_eq!(cpe.product(), "bar");
    assert_eq!(cpe.as_str(), input);
}

#[test]
fn formatted_cpe_rejects_redundant_escapes() {
    let error = NormalizedCpe::parse(r"cpe:2.3:a:acme:wid\get:1.0:*:*:*:*:*:*:*").unwrap_err();

    assert!(matches!(error, IdentityError::InvalidCpeValue { component: PRODUCT, .. }));
}

#[test]
fn formatted_cpe_preserves_wildcard_and_literal_star_semantics() {
    let wildcard = NormalizedCpe::parse(r"cpe:2.3:a:acme:widget:8.*:sp?:*:*:*:*:*:*").unwrap();
    let literal = NormalizedCpe::parse(r"cpe:2.3:a:acme:widget:8.\*:sp?:*:*:*:*:*:*").unwrap();

    assert_eq!(wildcard.version(), Some("8.*"));
    assert_eq!(literal.version(), Some("8.*"));
    assert_eq!(wildcard.as_str(), r"cpe:2.3:a:acme:widget:8.*:sp?:*:*:*:*:*:*");
    assert_eq!(literal.as_str(), r"cpe:2.3:a:acme:widget:8.\*:sp?:*:*:*:*:*:*");
    assert_ne!(wildcard, literal);
}

#[test]
fn formatted_cpe_rejects_embedded_wildcards() {
    let error = NormalizedCpe::parse("cpe:2.3:a:acme:widget:8.*.1570:*:*:*:*:*:*:*").unwrap_err();

    assert!(matches!(error, IdentityError::InvalidCpeValue { component: VERSION, .. }));
}

#[test]
fn formatted_cpe_enforces_wildcard_edge_grammar() {
    let cpe = NormalizedCpe::parse("cpe:2.3:a:acme:widget:??8.0??:*:*:*:*:*:*:*").unwrap();
    let mixed = NormalizedCpe::parse("cpe:2.3:a:acme:widget:?*8.0:*:*:*:*:*:*:*").unwrap_err();
    let repeated_star = NormalizedCpe::parse("cpe:2.3:a:acme:widget:8.0**:*:*:*:*:*:*:*").unwrap_err();

    assert_eq!(cpe.as_str(), "cpe:2.3:a:acme:widget:??8.0??:*:*:*:*:*:*:*");
    assert!(matches!(mixed, IdentityError::InvalidCpeValue { component: VERSION, .. }));
    assert!(matches!(repeated_star, IdentityError::InvalidCpeValue { component: VERSION, .. }));
}

#[test]
fn formatted_cpe_rejects_bare_question_mark_but_preserves_quoted_literal() {
    let bare = NormalizedCpe::parse("cpe:2.3:a:acme:widget:?:*:*:*:*:*:*:*").unwrap_err();
    let literal = NormalizedCpe::parse(r"cpe:2.3:a:micr\?osoft:widget:1:*:*:*:*:*:*:*").unwrap();

    assert!(matches!(bare, IdentityError::InvalidCpeValue { component: VERSION, .. }));
    assert_eq!(literal.vendor(), "micr?osoft");
    assert_eq!(literal.as_str(), r"cpe:2.3:a:micr\?osoft:widget:1:*:*:*:*:*:*:*");
}

#[test]
fn formatted_cpe_requires_punctuation_to_be_quoted() {
    let unquoted = NormalizedCpe::parse("cpe:2.3:a:acme:big$money_2010:1.0:*:*:*:*:*:*:*").unwrap_err();
    let quoted = NormalizedCpe::parse(r"cpe:2.3:a:acme:big\$money_2010:1.0:*:*:*:*:*:*:*").unwrap();

    assert!(matches!(unquoted, IdentityError::InvalidCpeValue { component: PRODUCT, .. }));
    assert_eq!(quoted.product(), "big$money_2010");
    assert_eq!(quoted.as_str(), r"cpe:2.3:a:acme:big\$money_2010:1.0:*:*:*:*:*:*:*");
}

#[test]
fn formatted_cpe_accepts_nistir_7695_examples() {
    let examples = [
        "cpe:2.3:a:microsoft:internet_explorer:8.0.6001:beta:*:*:*:*:*:*",
        "cpe:2.3:a:hp:insight:7.4.0.1570:-:*:*:online:win2003:x64:*",
        "cpe:2.3:a:hp:openview_network_manager:7.51:*:*:*:*:linux:*:*",
        r"cpe:2.3:a:foo\\bar:big\$money_2010:*:*:*:*:special:ipod_touch:80gb:*",
    ];

    for example in examples {
        let cpe = NormalizedCpe::parse(example).unwrap();
        assert_eq!(cpe.as_str(), example);
    }
}

#[test]
fn formatted_cpe_validates_language_tags() {
    let alpha_region = NormalizedCpe::parse("cpe:2.3:a:acme:widget:1.0:*:*:en-US:*:*:*:*").unwrap();
    let numeric_region = NormalizedCpe::parse("cpe:2.3:a:acme:widget:1.0:*:*:eng-419:*:*:*:*").unwrap();
    let invalid = NormalizedCpe::parse("cpe:2.3:a:acme:widget:1.0:*:*:english:*:*:*:*").unwrap_err();

    assert_eq!(alpha_region.language(), "en-us");
    assert_eq!(numeric_region.language(), "eng-419");
    assert!(matches!(invalid, IdentityError::InvalidCpeValue { component: LANGUAGE, .. }));
}

#[test]
fn formatted_cpe_rejects_wrong_component_count() {
    let error = NormalizedCpe::parse("cpe:2.3:a:acme:widget:1.0:*:*:*:*:*:*").unwrap_err();

    assert_eq!(error, IdentityError::CpeComponentCount { expected: 11, actual: 10 });
}

#[test]
fn formatted_cpe_rejects_trailing_escape() {
    let error = NormalizedCpe::parse("cpe:2.3:a:acme:widget:1.0:*:*:*:*:*:*:\\").unwrap_err();

    assert!(matches!(error, IdentityError::InvalidCpeEscape { .. }));
}

#[test]
fn formatted_cpe_rejects_invalid_part() {
    assert_eq!(
        NormalizedCpe::parse("cpe:2.3:x:acme:widget:1.0:*:*:*:*:*:*:*").unwrap_err(),
        IdentityError::InvalidCpePart { value: "x".to_owned() }
    );
}

#[test]
fn cpe_coordinate_preserves_only_type_vendor_and_product() {
    let cpe = NormalizedCpe::parse("cpe:2.3:a:acme:widget:1.0:update:edition:en:pro:linux:x64:other").unwrap();

    assert_eq!(cpe.coordinate(), "cpe:2.3:a:acme:widget:*:*:*:*:*:*:*:*");
}

#[test]
fn legacy_cpe_normalizes_to_common_formatted_binding() {
    let cpe = NormalizedCpe::parse("cpe:/a:microsoft:internet_explorer:8.0.6001:beta").unwrap();

    assert_eq!(cpe.as_str(), "cpe:2.3:a:microsoft:internet_explorer:8.0.6001:beta:*:*:*:*:*:*");
}

#[test]
fn legacy_cpe_distinguishes_wildcard_and_literal_encodings() {
    let wildcard = NormalizedCpe::parse("cpe:/a:microsoft:internet_explorer:8.%02:sp%01").unwrap();
    let literal = NormalizedCpe::parse("cpe:/a:microsoft:internet_explorer:8.%2a:sp%3f").unwrap();

    assert_eq!(wildcard.as_str(), "cpe:2.3:a:microsoft:internet_explorer:8.*:sp?:*:*:*:*:*:*");
    assert_eq!(literal.as_str(), r"cpe:2.3:a:microsoft:internet_explorer:8.\*:sp\?:*:*:*:*:*:*");
    assert_eq!(wildcard.version(), Some("8.*"));
    assert_eq!(literal.version(), Some("8.*"));
    assert_eq!(wildcard.update(), "sp?");
    assert_eq!(literal.update(), "sp?");
    assert_ne!(wildcard, literal);
    assert_eq!(wildcard, NormalizedCpe::parse(wildcard.as_str()).unwrap());
    assert_eq!(literal, NormalizedCpe::parse(literal.as_str()).unwrap());
}

#[test]
fn legacy_packed_edition_expands_to_cpe23_fields() {
    let cpe = NormalizedCpe::parse("cpe:/a:hp:insight_diagnostics:7.4.0.1570:-:~~online~win2003~x64~").unwrap();

    assert_eq!(cpe.as_str(), "cpe:2.3:a:hp:insight_diagnostics:7.4.0.1570:-:*:*:online:win2003:x64:*");
}

#[test]
fn legacy_packed_edition_preserves_wildcard_and_literal_encodings() {
    let cpe = NormalizedCpe::parse("cpe:/a:hp:insight:7.4:-:~ed%02~pro%01~win%2a~x64%3f~other").unwrap();

    assert_eq!(cpe.edition(), "ed*");
    assert_eq!(cpe.sw_edition(), "pro?");
    assert_eq!(cpe.target_sw(), "win*");
    assert_eq!(cpe.target_hw(), "x64?");
    assert_eq!(cpe.as_str(), r"cpe:2.3:a:hp:insight:7.4:-:ed*:*:pro?:win\*:x64\?:other");
}

#[test]
fn legacy_vendor_prefix_is_removed_by_normalization() {
    let plain = NormalizedCpe::parse("cpe:/a:acme:widget:1.0").unwrap();
    let prefixed = NormalizedCpe::parse("x-cpe:/a:acme:widget:1.0").unwrap();

    assert_eq!(plain, prefixed);
}

#[test]
fn legacy_cpe_rejects_fields_the_dependency_would_ignore() {
    let error = NormalizedCpe::parse("cpe:/a:acme:widget:1.0:update:edition:en:ignored").unwrap_err();

    assert_eq!(error, IdentityError::LegacyCpeComponentCount { maximum: 7, actual: 8 });
}

#[test]
fn legacy_and_formatted_bindings_have_equal_semantics() {
    let legacy = NormalizedCpe::parse("cpe:/a:acme:widget:1.0").unwrap();
    let formatted = NormalizedCpe::parse("cpe:2.3:a:acme:widget:1.0:*:*:*:*:*:*:*").unwrap();

    assert_eq!(legacy, formatted);
}

#[test]
fn formatted_and_legacy_cpe_values_compare_case_insensitively() {
    let legacy = NormalizedCpe::parse("cpe:/a:microsoft:internet_explorer:8.0:beta").unwrap();
    let formatted = NormalizedCpe::parse("cpe:2.3:a:MICROSOFT:Internet_Explorer:8.0:BETA:*:*:*:*:*:*").unwrap();

    assert_eq!(legacy, formatted);
    assert_eq!(formatted.as_str(), "cpe:2.3:a:microsoft:internet_explorer:8.0:beta:*:*:*:*:*:*");
}

#[test]
fn cpe_normalization_is_idempotent() {
    let first = NormalizedCpe::parse("cpe:/a:acme:widget:1.0").unwrap();
    let second = NormalizedCpe::parse(first.as_str()).unwrap();

    assert_eq!(first, second);
}

#[test]
fn subject_id_dispatches_and_domain_separates_identifiers() {
    let purl = SubjectId::parse("pkg:generic/widget@1").unwrap();
    let cpe = SubjectId::parse("cpe:2.3:a:acme:widget:1:*:*:*:*:*:*:*").unwrap();

    assert_eq!(purl.kind_tag(), "purl");
    assert_eq!(cpe.kind_tag(), "cpe");
    assert!(purl.full_identity().starts_with("subject:purl:v1:"));
    assert!(cpe.full_identity().starts_with("subject:cpe:v1:"));
    assert_ne!(purl.full_identity(), cpe.full_identity());
}

#[test]
fn subject_id_exposes_engine_helpers() {
    let subject = SubjectId::parse("pkg:npm/%40scope/widget@2.0.0").unwrap();

    assert_eq!(subject.coordinate(), "pkg:npm/%40scope/widget");
    assert_eq!(subject.version(), Some("2.0.0"));
    assert_eq!(subject.subject_name(), "widget");
}

#[test]
fn purl_detail_compatibility_rejects_only_overlapping_conflicts() {
    let unspecified = SubjectId::parse("pkg:generic/widget").unwrap();
    let version_one = SubjectId::parse("pkg:generic/widget@1").unwrap();
    let version_two = SubjectId::parse("pkg:generic/widget@2").unwrap();
    let arch = SubjectId::parse("pkg:generic/widget?arch=x86_64").unwrap();
    let arch_with_distro = SubjectId::parse("pkg:generic/widget?arch=x86_64&distro=bookworm").unwrap();
    let other_arch = SubjectId::parse("pkg:generic/widget?arch=aarch64").unwrap();
    let distro = SubjectId::parse("pkg:generic/widget?distro=bookworm").unwrap();
    let source = SubjectId::parse("pkg:generic/widget#src/lib").unwrap();
    let binary = SubjectId::parse("pkg:generic/widget#bin/widget").unwrap();
    let other_coordinate = SubjectId::parse("pkg:generic/other@1").unwrap();

    assert!(unspecified.details_compatible(&version_one));
    assert!(version_one.details_compatible(&unspecified));
    assert!(!version_one.details_compatible(&version_two));
    assert!(arch.details_compatible(&arch_with_distro));
    assert!(arch.details_compatible(&distro));
    assert!(!arch.details_compatible(&other_arch));
    assert!(unspecified.details_compatible(&source));
    assert!(!source.details_compatible(&binary));
    assert!(!version_one.details_compatible(&other_coordinate));
}

#[test]
fn cpe_detail_compatibility_is_conservative_about_concrete_values() {
    let any = SubjectId::parse("cpe:2.3:a:acme:widget:*:*:*:*:*:*:*:*").unwrap();
    let version_one = SubjectId::parse("cpe:2.3:a:acme:widget:1.0:*:*:*:*:*:*:*").unwrap();
    let version_one_again = SubjectId::parse("cpe:2.3:a:acme:widget:1.0:*:*:*:*:*:*:*").unwrap();
    let version_two = SubjectId::parse("cpe:2.3:a:acme:widget:2.0:*:*:*:*:*:*:*").unwrap();
    let not_applicable = SubjectId::parse("cpe:2.3:a:acme:widget:-:*:*:*:*:*:*:*").unwrap();
    let wildcard = SubjectId::parse("cpe:2.3:a:acme:widget:1.*:*:*:*:*:*:*:*").unwrap();
    let wildcard_again = SubjectId::parse("cpe:2.3:a:acme:widget:1.*:*:*:*:*:*:*:*").unwrap();
    let literal_star = SubjectId::parse(r"cpe:2.3:a:acme:widget:1.\*:*:*:*:*:*:*:*").unwrap();
    let other_coordinate = SubjectId::parse("cpe:2.3:a:acme:gadget:1.0:*:*:*:*:*:*:*").unwrap();

    assert!(any.details_compatible(&version_one));
    assert!(version_one.details_compatible(&any));
    assert!(version_one.details_compatible(&version_one_again));
    assert!(!version_one.details_compatible(&version_two));
    assert!(any.details_compatible(&not_applicable));
    assert!(!not_applicable.details_compatible(&version_one));
    assert!(wildcard.details_compatible(&wildcard_again));
    assert!(!wildcard.details_compatible(&version_one));
    assert!(!wildcard.details_compatible(&literal_star));
    assert!(!version_one.details_compatible(&other_coordinate));
}

#[test]
fn subject_detail_compatibility_requires_the_same_identifier_kind() {
    let purl = SubjectId::parse("pkg:generic/widget@1").unwrap();
    let cpe = SubjectId::parse("cpe:2.3:a:acme:widget:1:*:*:*:*:*:*:*").unwrap();

    assert!(!purl.details_compatible(&cpe));
    assert!(!cpe.details_compatible(&purl));
}

#[test]
fn subject_id_rejects_unknown_prefix() {
    assert_eq!(SubjectId::parse("docker:acme/widget").unwrap_err(), IdentityError::UnsupportedSubjectId);
}

#[test]
fn cpe_parse_rejects_unsupported_binding() {
    assert_eq!(NormalizedCpe::parse("not-a-cpe").unwrap_err(), IdentityError::UnsupportedCpeBinding);
}

#[test]
fn purl_parse_rejects_non_pkg_scheme() {
    assert!(matches!(NormalizedPurl::parse("not-a-purl"), Err(IdentityError::InvalidPurl { .. })));
}

#[test]
fn normalized_purl_display_matches_as_str() {
    let purl = NormalizedPurl::parse("pkg:generic/widget@1").unwrap();
    assert_eq!(purl.to_string(), purl.as_str());
}

#[test]
fn normalized_cpe_display_matches_as_str() {
    let cpe = NormalizedCpe::parse("cpe:2.3:a:acme:widget:1:*:*:*:*:*:*:*").unwrap();
    assert_eq!(cpe.to_string(), cpe.as_str());
}

#[test]
fn subject_id_display_and_as_ref_agree_with_as_str() {
    let subject = SubjectId::parse("pkg:generic/widget@1").unwrap();
    assert_eq!(subject.to_string(), subject.as_str());
    assert_eq!(subject.as_ref(), subject.as_str());
}

#[test]
fn subject_id_from_conversions_preserve_identity() {
    let purl = NormalizedPurl::parse("pkg:generic/widget@1").unwrap();
    let subject: SubjectId = purl.clone().into();
    assert_eq!(subject.as_purl(), Some(&purl));

    let cpe = NormalizedCpe::parse("cpe:2.3:a:acme:widget:1:*:*:*:*:*:*:*").unwrap();
    let subject2: SubjectId = cpe.clone().into();
    assert_eq!(subject2.as_cpe(), Some(&cpe));
}

// Further cases.

#[test]
fn subject_ids_parse_from_strings() {
    let subject: SubjectId = "pkg:generic/widget@1".parse().unwrap();
    assert_eq!(subject, SubjectId::parse("pkg:generic/widget@1").unwrap());
    let purl: NormalizedPurl = "pkg:generic/widget@1".parse().unwrap();
    assert_eq!(purl.as_str(), "pkg:generic/widget@1");
    let cpe: NormalizedCpe = "cpe:/a:acme:widget:1".parse().unwrap();
    assert_eq!(cpe.as_str(), "cpe:2.3:a:acme:widget:1:*:*:*:*:*:*:*");
}

#[test]
fn purl_without_optional_parts_reports_none() {
    let purl = NormalizedPurl::parse("pkg:generic/widget").unwrap();
    assert_eq!(purl.namespace(), None);
    assert_eq!(purl.version(), None);
    assert_eq!(purl.subpath(), None);
    assert!(purl.qualifiers().is_empty());
    assert_eq!(purl.coordinate(), "pkg:generic/widget");
}

#[test]
fn cpe_version_is_absent_for_logical_values() {
    let any = NormalizedCpe::parse("cpe:2.3:a:acme:widget:*:*:*:*:*:*:*:*").unwrap();
    let na = NormalizedCpe::parse("cpe:2.3:a:acme:widget:-:*:*:*:*:*:*:*").unwrap();
    assert_eq!(any.version(), None);
    assert_eq!(na.version(), None);
    assert_eq!(any.version_component(), "*");
    assert_eq!(na.version_component(), "-");
}

#[test]
fn subject_ids_of_different_kinds_have_distinct_coordinates() {
    let cpe = SubjectId::parse("cpe:/a:acme:widget:1.0").unwrap();
    assert_eq!(cpe.kind_tag(), "cpe");
    assert_eq!(cpe.coordinate(), "cpe:2.3:a:acme:widget:*:*:*:*:*:*:*:*");
    assert_eq!(cpe.version(), Some("1.0"));
    assert_eq!(cpe.subject_name(), "widget");
    assert_eq!(cpe.as_cpe().unwrap().vendor(), "acme");
    assert!(cpe.as_purl().is_none());
}
