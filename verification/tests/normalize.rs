use custos_dedup::normalize::{similarity, text};

#[test]
fn text_collapses_case_punctuation_and_whitespace() {
    assert_eq!(text("  OpenSSL: Buffer   Overflow! "), "openssl buffer overflow");
}

#[test]
fn text_keeps_unicode_letters() {
    assert_eq!(text("CAFÉ déjà-vu"), "café déjà vu");
}

#[test]
fn text_lowercases_titlecase_characters_on_the_fast_path() {
    assert_eq!(text("ǅeta widget"), "ǆeta widget");
    assert_eq!(text("ǅeta widget"), text("ǅeta-widget"));
}

#[test]
fn similarity_is_zero_when_either_side_is_empty() {
    assert_eq!(similarity("", "finding").get(), 0);
}

// Further cases.

#[test]
fn similarity_of_identical_text_is_the_maximum() {
    assert_eq!(similarity("xz utils", "xz utils").get(), 10_000);
    assert_eq!(similarity("finding", "").get(), 0);
}

#[test]
fn similarity_is_symmetric_and_exact_for_simple_edits() {
    assert_eq!(similarity("abcd", "abce"), similarity("abce", "abcd"));
    // Indel distance 2 over 8 characters: (8 - 2) / 8 = 7500 basis points.
    assert_eq!(similarity("abcd", "abce").get(), 7_500);
    // Indel distance 1 over 7 characters: 6 / 7 = 8571.43, rounded to 8571.
    assert_eq!(similarity("abc", "abcd").get(), 8_571);
}

#[test]
fn similarity_compares_normalized_text() {
    assert_eq!(similarity("XZ-Utils", "xz utils").get(), 10_000);
}

#[test]
fn text_of_punctuation_only_is_empty() {
    assert_eq!(text(" -- !! "), "");
}
