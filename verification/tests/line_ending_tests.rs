use textbuf::line_ending::LineEnding;
use textbuf::encoding::Encoding;

#[test]
fn test_line_ending_detection() {
    assert_eq!(LineEnding::detect("hello\nworld").unwrap(), LineEnding::LF);
    assert_eq!(LineEnding::detect("hello\r\nworld").unwrap(), LineEnding::CRLF);
    assert_eq!(LineEnding::detect("hello\rworld").unwrap(), LineEnding::CR);
}

#[test]
fn test_line_ending_conversion() {
    let text = "line1\nline2\nline3";
    let converted = LineEnding::LF.convert_text(text, LineEnding::CRLF);
    assert_eq!(converted, "line1\r\nline2\r\nline3");
}

#[test]
fn test_line_counting() {
    let text = "line1\nline2\nline3";
    assert_eq!(LineEnding::LF.count_lines(text), 3);

    let text_crlf = "line1\r\nline2\r\nline3";
    assert_eq!(LineEnding::CRLF.count_lines(text_crlf), 3);
}

#[test]
fn test_unicode_line_endings() {
    assert!(LineEnding::NEL.is_unicode());
    assert!(LineEnding::LS.is_unicode());
    assert!(LineEnding::PS.is_unicode());
    assert!(!LineEnding::LF.is_unicode());
    assert!(!LineEnding::CRLF.is_unicode());
}

#[test]
fn test_from_str() {
    assert_eq!("LF".parse::<LineEnding>().unwrap(), LineEnding::LF);
    assert_eq!("CRLF".parse::<LineEnding>().unwrap(), LineEnding::CRLF);
    assert!("invalid".parse::<LineEnding>().is_err());
}

#[test]
fn test_empty_text() {
    assert_eq!(LineEnding::LF.count_lines(""), 1);
    assert_eq!(LineEnding::detect("").unwrap(), LineEnding::default());
}

#[test]
fn test_majority_rule() {
    // Two CRLF terminators beat one LF.
    assert_eq!(LineEnding::detect("a\nb\r\nc\r\nd").unwrap(), LineEnding::CRLF);
    // A tie falls back to the default.
    assert_eq!(LineEnding::detect("a\nb\rc").unwrap(), LineEnding::LF);
}

#[test]
fn test_normalization() {
    let text = "line1\r\nline2\r\nline3";
    let normalized = LineEnding::CRLF.normalize_to_lf(text);
    assert_eq!(normalized, "line1\nline2\nline3");
    assert!(!normalized.contains('\r'));
}

#[test]
fn test_split_lines() {
    let pieces = LineEnding::LF.split_lines("a\nbb\n");
    assert_eq!(pieces, vec!["a", "bb", ""]);
    let pieces = LineEnding::CRLF.split_lines("x\r\ny");
    assert_eq!(pieces, vec!["x", "y"]);
    let pieces = LineEnding::Unknown.split_lines("one two");
    assert_eq!(pieces, vec!["one", "two"]);
}

#[test]
fn test_terminator_text_and_bytes() {
    assert_eq!(LineEnding::CRLF.as_str(), "\r\n");
    assert_eq!(LineEnding::NEL.as_str(), "\u{0085}");
    assert_eq!(LineEnding::LF.len_chars(), 1);
    assert_eq!(LineEnding::CRLF.len_chars(), 2);
    assert_eq!(LineEnding::NEL.as_bytes(&Encoding::UTF8), vec![0xC2, 0x85]);
    assert_eq!(LineEnding::NEL.len_bytes(&Encoding::LATIN1), 1);
    assert_eq!(LineEnding::all().len(), 6);
    assert_eq!(LineEnding::platform_default(), LineEnding::LF);
}

#[test]
fn test_from_bytes() {
    let detected = LineEnding::from_bytes(b"a\r\nb", &Encoding::UTF8).unwrap();
    assert_eq!(detected, LineEnding::CRLF);
    assert!(LineEnding::from_bytes(&[0xFF, 0xFF, 0xFF], &Encoding::UTF8).is_err());
}
