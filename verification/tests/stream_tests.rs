use textbuf::stream::{StreamReader, StreamWriter, stream_convert};
use textbuf::encoding::Encoding;
use textbuf::line_ending::LineEnding;

#[test]
fn test_stream_reader_utf8() {
    let data = "Hello\nWorld\n".as_bytes();
    let mut reader = StreamReader::new(data.to_vec(), Encoding::UTF8);

    let result = reader.read_all().unwrap();
    assert_eq!(result, "Hello\nWorld\n");
}

#[test]
fn test_stream_writer_utf8() {
    let mut writer = StreamWriter::new(Encoding::UTF8).with_line_ending(LineEnding::LF);
    writer.write_line("Hello").unwrap();
    writer.write_line("World").unwrap();

    let result = String::from_utf8(writer.into_bytes()).unwrap();
    assert_eq!(result, "Hello\nWorld\n");
}

#[test]
fn test_stream_convert() {
    let input = "Hello\r\nWorld\r\n".as_bytes();

    let (bytes_written, output) = stream_convert(
        input,
        Encoding::UTF8,
        Encoding::UTF8,
        LineEnding::CRLF,
        LineEnding::LF,
    )
    .unwrap();

    let result = String::from_utf8(output).unwrap();
    assert_eq!(result, "Hello\nWorld\n");
    assert!(bytes_written > 0);
}

#[test]
fn test_stream_reader_chunks() {
    let data = "Hello World Test".as_bytes();
    let mut reader = StreamReader::new(data.to_vec(), Encoding::UTF8).with_chunk_size(5);

    let mut chunks = Vec::new();
    while let Some(chunk) = reader.read_chunk().unwrap() {
        chunks.push(chunk);
    }

    assert!(!chunks.is_empty());
    let combined: String = chunks.into_iter().collect();
    assert_eq!(combined, "Hello World Test");
}

#[test]
fn test_stream_reader_lines() {
    let data = "one\ntwo\nthree".as_bytes();
    let mut reader = StreamReader::new(data.to_vec(), Encoding::UTF8);
    assert_eq!(reader.read_line().unwrap().unwrap(), "one\n");
    assert_eq!(reader.read_line().unwrap().unwrap(), "two\n");
    assert_eq!(reader.read_line().unwrap().unwrap(), "three");
    assert!(reader.read_line().unwrap().is_none());
}

#[test]
fn test_stream_writer_converts_terminators() {
    let mut writer = StreamWriter::new(Encoding::UTF8).with_line_ending(LineEnding::CRLF);
    writer.write_text("a\nb").unwrap();
    assert_eq!(writer.bytes(), b"a\r\nb");
}

#[test]
fn test_stream_reader_validation_failure() {
    let mut reader = StreamReader::new(vec![0xFF, 0x41], Encoding::LATIN1);
    assert!(reader.read_all().is_err());
    let mut lenient = StreamReader::new(vec![0xFF, 0x41], Encoding::LATIN1).with_validation(false);
    assert_eq!(lenient.read_all().unwrap(), "\u{FF}A");
}

#[test]
fn test_stream_writer_lines_prefix_on_failure() {
    let mut writer = StreamWriter::new(Encoding::ASCII).with_line_ending(LineEnding::LF);
    let lines = vec!["ok".to_string(), "bad é".to_string(), "after".to_string()];
    assert!(writer.write_lines(lines).is_err());
    // The lines before the unrepresentable one stay written.
    assert_eq!(writer.bytes(), b"ok\n");

    let mut writer = StreamWriter::new(Encoding::ASCII).with_line_ending(LineEnding::LF);
    writer.write_lines(vec!["a".to_string(), "b".to_string()]).unwrap();
    assert_eq!(writer.bytes(), b"a\nb\n");
}
