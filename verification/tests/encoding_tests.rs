use textbuf::encoding::{Encoding, EncodingHandler};

#[test]
fn test_utf8_encoding() {
    let handler = EncodingHandler::new(Encoding::UTF8);
    let text = "Hello, 世界!";

    let encoded = handler.encode(text).unwrap();
    let decoded = handler.decode(&encoded).unwrap();

    assert_eq!(text, decoded);
}

#[test]
fn test_bom_detection() {
    let utf8_with_bom = vec![0xEF, 0xBB, 0xBF, b'H', b'i'];
    let (encoding, has_bom) = EncodingHandler::detect_encoding(&utf8_with_bom).unwrap();

    assert_eq!(encoding, Encoding::UTF8);
    assert!(has_bom);
}

#[test]
fn test_ascii_encoding() {
    let handler = EncodingHandler::new(Encoding::ASCII);
    let text = "Hello World!";

    let encoded = handler.encode(text).unwrap();
    let decoded = handler.decode(&encoded).unwrap();

    assert_eq!(text, decoded);
}

#[test]
fn test_invalid_ascii() {
    let handler = EncodingHandler::new(Encoding::ASCII);
    let text = "Héllo!";

    let result = handler.encode(text);
    assert!(result.is_err());
}

#[test]
fn test_latin1_encoding() {
    let handler = EncodingHandler::new(Encoding::LATIN1);
    let text = "Café";

    let encoded = handler.encode(text).unwrap();
    let decoded = handler.decode(&encoded).unwrap();

    assert_eq!(text, decoded);
}

#[test]
fn test_encoding_round_trips() {
    // Every supported encoding decodes its own encoding of a representable
    // text back to the same text.
    let ascii_text = "line one";
    for encoding in Encoding::all() {
        let handler = EncodingHandler::new(encoding);
        let encoded = handler.encode(ascii_text).unwrap();
        assert_eq!(handler.decode(&encoded).unwrap(), ascii_text);
    }
    let utf16 = EncodingHandler::new(Encoding::UTF16BE);
    let wide = "héllo 🌍";
    assert_eq!(utf16.decode(&utf16.encode(wide).unwrap()).unwrap(), wide);
    let w1252 = EncodingHandler::new(Encoding::WINDOWS1252);
    let quoted = "caf\u{e9} \u{20ac}5 \u{2013} ok";
    assert_eq!(w1252.decode(&w1252.encode(quoted).unwrap()).unwrap(), quoted);
}

#[test]
fn test_latin1_unrepresentable() {
    let handler = EncodingHandler::new(Encoding::LATIN1);
    assert!(handler.encode("snowman \u{2603}").is_err());
}

#[test]
fn test_bom_round_trip() {
    let handler = EncodingHandler::new(Encoding::UTF16LE).with_bom();
    let encoded = handler.encode("hi").unwrap();
    assert_eq!(&encoded[0..2], &[0xFF, 0xFE]);
    assert_eq!(handler.decode(&encoded).unwrap(), "hi");
}

#[test]
fn test_detect_encoding_without_bom() {
    let (encoding, has_bom) = EncodingHandler::detect_encoding("plain".as_bytes()).unwrap();
    assert_eq!(encoding, Encoding::UTF8);
    assert!(!has_bom);
    let (encoding, has_bom) = EncodingHandler::detect_encoding(&[b'a', 0xFF, 0x01]).unwrap();
    assert_eq!(encoding, Encoding::LATIN1);
    assert!(!has_bom);
}

#[test]
fn test_utf16_invalid_sequences() {
    let handler = EncodingHandler::new(Encoding::UTF16LE);
    // Odd length.
    assert!(handler.decode(&[0x41]).is_err());
    // A lone high surrogate.
    assert!(handler.decode(&[0x00, 0xD8]).is_err());
}

#[test]
fn test_encoding_names() {
    assert_eq!(Encoding::UTF8.name(), "UTF-8");
    assert_eq!(Encoding::LATIN1.name(), "ISO-8859-1");
    assert_eq!(Encoding::from_name("UTF-16BE"), Some(Encoding::UTF16BE));
    assert_eq!(Encoding::from_name("KOI8-R"), None);
    assert_eq!(Encoding::all().len(), 7);
    assert_eq!(Encoding::default(), Encoding::UTF8);
}
