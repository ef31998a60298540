use textbuf::validation::{
    validate_utf8, validate_control_characters, validate_line_endings,
    validate_encoding_compatibility, validate_content,
};
use textbuf::encoding::Encoding;
use textbuf::line_ending::LineEnding;

#[test]
fn test_validate_utf8_valid() {
    let content = "Hello, 世界!".as_bytes();
    assert!(validate_utf8(content).is_ok());
}

#[test]
fn test_validate_utf8_invalid() {
    let content = &[0xFF, 0xFE];
    assert!(validate_utf8(content).is_err());
}

#[test]
fn test_validate_control_characters_valid() {
    let content = "Hello\nWorld\tTest\r";
    assert!(validate_control_characters(content).is_ok());
}

#[test]
fn test_validate_control_characters_invalid() {
    let content = "Hello\x00World";
    assert!(validate_control_characters(content).is_err());
}

#[test]
fn test_validate_line_endings_valid() {
    let content = "line1\r\nline2\r\nline3";
    assert!(validate_line_endings(content, LineEnding::CRLF).is_ok());
}

#[test]
fn test_validate_line_endings_invalid() {
    let content = "line1\nline2\r\nline3";
    assert!(validate_line_endings(content, LineEnding::CRLF).is_err());
}

#[test]
fn test_validate_content_valid() {
    let content = "Hello\nWorld".as_bytes();
    assert!(validate_content(content, &Encoding::UTF8, LineEnding::LF).is_ok());
}

#[test]
fn test_validate_unicode_line_endings() {
    let content = "line1\u{0085}line2";
    assert!(validate_line_endings(content, LineEnding::NEL).is_ok());

    let content = "line1\u{2028}line2";
    assert!(validate_line_endings(content, LineEnding::LS).is_ok());
}

#[test]
fn test_validate_encoding_compatibility_errors() {
    assert!(validate_encoding_compatibility("ok".as_bytes(), &Encoding::UTF8).is_ok());
    assert!(validate_encoding_compatibility(&[0xC3], &Encoding::UTF8).is_err());
    assert!(validate_encoding_compatibility(&[0x41, 0xFF], &Encoding::ASCII).is_err());
}

#[test]
fn test_validate_content_rejections() {
    // An encoding failure, a control character, and a terminator mismatch.
    assert!(validate_content(&[0xC3], &Encoding::UTF8, LineEnding::LF).is_err());
    assert!(validate_content(b"a\x01b", &Encoding::UTF8, LineEnding::LF).is_err());
    assert!(validate_content(b"a\r\nb", &Encoding::UTF8, LineEnding::LF).is_err());
}
