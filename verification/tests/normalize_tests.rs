use hashline::normalize::{detect_line_ending, normalize_to_lf, restore_line_endings, strip_bom, LineEnding};


#[test]
fn test_detect_lf() {
    assert_eq!(detect_line_ending("hello\nworld\n"), LineEnding::Lf);
}

#[test]
fn test_detect_crlf() {
    assert_eq!(detect_line_ending("hello\r\nworld\r\n"), LineEnding::Crlf);
}

#[test]
fn test_detect_default_lf() {
    assert_eq!(detect_line_ending("hello world"), LineEnding::Lf);
}

#[test]
fn test_normalize_to_lf() {
    assert_eq!(normalize_to_lf("a\r\nb\nc\r"), "a\nb\nc\n");
}

#[test]
fn test_strip_bom_present() {
    let result = strip_bom("\u{FEFF}hello\n");
    assert_eq!(result.bom, "\u{FEFF}");
    assert_eq!(result.text, "hello\n");
}

#[test]
fn test_strip_bom_absent() {
    let result = strip_bom("hello\n");
    assert_eq!(result.bom, "");
    assert_eq!(result.text, "hello\n");
}

#[test]
fn test_restore_line_endings() {
    assert_eq!(
        restore_line_endings("a\nb\n", LineEnding::Crlf),
        "a\r\nb\r\n"
    );
    assert_eq!(restore_line_endings("a\nb\n", LineEnding::Lf), "a\nb\n");
}

#[test]
fn test_normalize_utf8_multibyte_roundtrip() {
    let input = "# Brainrot MoneyPopUpManager — floating +$ UI on cash gains.\nline2\n";
    let normalized = normalize_to_lf(input);
    assert_eq!(normalized, input);
    // Em dash — is U+2014, encoded as E2 80 94 in UTF-8 (3 bytes)
    assert!(normalized.contains('—'));
}

#[test]
fn test_normalize_utf8_multibyte_crlf() {
    let input = "# em dash — and arrow →\r\nsecond line\r\n";
    let normalized = normalize_to_lf(input);
    assert_eq!(normalized, "# em dash — and arrow →\nsecond line\n");
    assert!(normalized.contains('—'));
    assert!(normalized.contains('→'));
}

#[test]
fn test_normalize_utf8_en_dash() {
    let input = "en dash – and em dash —\n";
    let normalized = normalize_to_lf(input);
    assert_eq!(normalized, input);
    assert!(normalized.contains('–'));
    assert!(normalized.contains('—'));
}

#[test]
fn test_normalize_utf8_accented() {
    let input = "café résumé naïve façade\n";
    let normalized = normalize_to_lf(input);
    assert_eq!(normalized, input);
}

#[test]
fn test_normalize_crlf_utf8_multibyte() {
    let input = "—\r\n—\r\n";
    let normalized = normalize_to_lf(input);
    assert_eq!(normalized, "—\n—\n");
}
