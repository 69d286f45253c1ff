use aurora::clean::clean_whisper_text;

// Test that verifies tag removal and extra space cleanup.
#[test]
fn test_clean_whisper_text_removes_tags_and_extra_spaces() {
    let text = "Voici un exemple [_BEG_]avec des [_TT_99]balises   et   des espaces   inutiles.";
    let cleaned = clean_whisper_text(text);
    assert!(!cleaned.contains("[_BEG_]"));
    assert!(!cleaned.contains("[_TT_"));
    assert!(!cleaned.contains("  "));
}

#[test]
fn clean_exact_output() {
    let text = "Voici un exemple [_BEG_]avec des [_TT_99]balises   et   des espaces   inutiles.";
    assert_eq!(
        clean_whisper_text(text),
        "Voici un exemple avec des balises et des espaces inutiles."
    );
}

#[test]
fn clean_collapses_all_whitespace_kinds() {
    assert_eq!(clean_whisper_text("a\t\nb"), "a b");
    assert_eq!(clean_whisper_text("a \t \n b"), "a b");
}

#[test]
fn clean_trims_ends() {
    assert_eq!(clean_whisper_text("   bonjour tout le monde   "), "bonjour tout le monde");
    assert_eq!(clean_whisper_text("   "), "");
    assert_eq!(clean_whisper_text(""), "");
}

#[test]
fn clean_removes_adjacent_tags_without_spacing() {
    assert_eq!(clean_whisper_text("a[_TT_123]b"), "ab");
    assert_eq!(clean_whisper_text("[_BEG_][_TT_7]ok"), "ok");
}

#[test]
fn clean_scans_tags_left_to_right_without_rescanning() {
    // removing an inner marker can splice an outer one together; the
    // scan does not revisit what it already emitted
    assert_eq!(clean_whisper_text("[_B[_BEG_]EG_]"), "[_BEG_]");
}

#[test]
fn clean_keeps_incomplete_tags() {
    // no digits between the marker and the bracket: not a tag
    assert_eq!(clean_whisper_text("[_TT_]x"), "[_TT_]x");
    assert_eq!(clean_whisper_text("[_BEG_x"), "[_BEG_x");
}
