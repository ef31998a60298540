use textbuf::chunk::Chunk;

#[test]
fn test_chunk_creation() {
    let chunk = Chunk::new("Hello\nworld\n".to_string());
    assert_eq!(chunk.len(), 12);
    assert_eq!(chunk.text(), "Hello\nworld\n");
    assert_eq!(chunk.line_endings(), &[5, 11]);
    assert_eq!(chunk.line_count(), 3);
}

#[test]
fn test_empty_chunk() {
    let chunk = Chunk::default();
    assert!(chunk.is_empty());
    assert_eq!(chunk.len(), 0);
    assert_eq!(chunk.line_count(), 1);
    assert_eq!(chunk.line_endings().len(), 0);
}

#[test]
fn test_single_line() {
    let chunk = Chunk::new("Hello world".to_string());
    assert_eq!(chunk.line_count(), 1);
    assert_eq!(chunk.line_at(0), Some("Hello world"));
    assert_eq!(chunk.line_at(1), None);
}

#[test]
fn test_multiple_lines() {
    let chunk = Chunk::new("line1\nline2\nline3".to_string());
    assert_eq!(chunk.line_count(), 3);
    assert_eq!(chunk.line_at(0), Some("line1"));
    assert_eq!(chunk.line_at(1), Some("line2"));
    assert_eq!(chunk.line_at(2), Some("line3"));
    assert_eq!(chunk.line_at(3), None);
}

#[test]
fn test_slice() {
    let chunk = Chunk::new("Hello world".to_string());
    let slice = chunk.slice(0..5).unwrap();
    assert_eq!(slice.text(), "Hello");

    let slice = chunk.slice(6..11).unwrap();
    assert_eq!(slice.text(), "world");

    assert!(chunk.slice(20..25).is_none());
    assert!(chunk.slice(5..4).is_none());
}

#[test]
fn test_slice_utf8() {
    let chunk = Chunk::new("Héllo wörld 🌍".to_string());

    // Valid slice at character boundaries: "Hé" spans three bytes.
    let slice = chunk.slice(0..3).unwrap();
    assert_eq!(slice.text(), "Hé");

    // A slice that cuts a character in half yields no result.
    assert!(chunk.slice(0..2).is_none());
    let emoji_pos = chunk.text().rfind('🌍').unwrap();
    assert!(chunk.slice(emoji_pos + 1..emoji_pos + 2).is_none());
}

#[test]
fn test_split_at() {
    let chunk = Chunk::new("Hello world".to_string());
    let (left, right) = chunk.split_at(5).unwrap();
    assert_eq!(left.text(), "Hello");
    assert_eq!(right.text(), " world");

    let (left, right) = chunk.split_at(0).unwrap();
    assert_eq!(left.text(), "");
    assert_eq!(right.text(), "Hello world");

    assert!(chunk.split_at(20).is_none());
}

#[test]
fn test_split_at_utf8() {
    let chunk = Chunk::new("Héllo 🌍".to_string());

    // Valid split at a character boundary: "Héllo " spans seven bytes.
    let (left, right) = chunk.split_at(7).unwrap();
    assert_eq!(left.text(), "Héllo ");
    assert_eq!(right.text(), "🌍");

    // Invalid split not at a character boundary.
    assert!(chunk.split_at(2).is_none()); // Inside é
}

#[test]
fn test_concat() {
    let chunk1 = Chunk::new("Hello ".to_string());
    let chunk2 = Chunk::new("world!".to_string());
    let result = chunk1.concat(&chunk2);
    assert_eq!(result.text(), "Hello world!");
}

#[test]
fn test_replace_range() {
    let chunk = Chunk::new("Hello world".to_string());
    let result = chunk.replace_range(6..11, "Rust").unwrap();
    assert_eq!(result.text(), "Hello Rust");

    let result = chunk.replace_range(0..5, "Hi").unwrap();
    assert_eq!(result.text(), "Hi world");

    assert!(chunk.replace_range(20..25, "test").is_none());
    assert!(chunk.replace_range(5..4, "test").is_none());
}

#[test]
fn test_find_operations() {
    let chunk = Chunk::new("Hello world, hello rust".to_string());

    assert_eq!(chunk.find("world"), Some(6));
    assert_eq!(chunk.find("hello"), Some(13)); // case sensitive
    assert_eq!(chunk.find("xyz"), None);

    assert_eq!(chunk.rfind("hello"), Some(13));
    assert_eq!(chunk.rfind("Hello"), Some(0));

    assert!(chunk.contains("world"));
    assert!(!chunk.contains("World"));

    assert!(chunk.starts_with("Hello"));
    assert!(!chunk.starts_with("hello"));

    assert!(chunk.ends_with("rust"));
    assert!(!chunk.ends_with("Rust"));
}

#[test]
fn test_trim_operations() {
    let chunk = Chunk::new("  Hello world  ".to_string());

    assert_eq!(chunk.trim().text(), "Hello world");
    assert_eq!(chunk.trim_start().text(), "Hello world  ");
    assert_eq!(chunk.trim_end().text(), "  Hello world");

    let no_spaces = Chunk::new("Hello".to_string());
    assert_eq!(no_spaces.trim().text(), "Hello");
}

#[test]
fn test_insert_operations() {
    let chunk = Chunk::new("Hello world".to_string());

    let result = chunk.insert(5, ',').unwrap();
    assert_eq!(result.text(), "Hello, world");

    let result = chunk.insert_str(5, ", beautiful").unwrap();
    assert_eq!(result.text(), "Hello, beautiful world");

    // Boundary conditions.
    let result = chunk.insert(0, 'H').unwrap();
    assert_eq!(result.text(), "HHello world");

    let result = chunk.insert(chunk.len(), '!').unwrap();
    assert_eq!(result.text(), "Hello world!");

    // Invalid positions.
    assert!(chunk.insert(chunk.len() + 1, 'x').is_none());
}

#[test]
fn test_insert_utf8() {
    let chunk = Chunk::new("Hello world".to_string());

    let result = chunk.insert(5, '🌍').unwrap();
    assert_eq!(result.text(), "Hello🌍 world");

    let result = chunk.insert_str(5, " 🌍").unwrap();
    assert_eq!(result.text(), "Hello 🌍 world");
}

#[test]
fn test_remove_operations() {
    let chunk = Chunk::new("Hello world".to_string());

    let (result, removed) = chunk.remove(5).unwrap();
    assert_eq!(result.text(), "Helloworld");
    assert_eq!(removed, ' ');

    let (result, removed) = chunk.remove(0).unwrap();
    assert_eq!(result.text(), "ello world");
    assert_eq!(removed, 'H');

    // With a multi-byte character: 🌍 starts at byte 3 of "Hé🌍llo".
    let utf8_chunk = Chunk::new("Hé🌍llo".to_string());
    let (result, removed) = utf8_chunk.remove(3).unwrap();
    assert_eq!(result.text(), "Héllo");
    assert_eq!(removed, '🌍');

    // An offset inside a character yields no result.
    assert!(utf8_chunk.remove(2).is_none());

    // Invalid positions.
    assert!(chunk.remove(chunk.len()).is_none());
}

#[test]
fn test_iterator() {
    let chunk = Chunk::new("abc".to_string());
    let chars: Vec<char> = chunk.iter().collect();
    assert_eq!(chars, vec!['a', 'b', 'c']);
}

#[test]
fn test_from_implementations() {
    let chunk1 = Chunk::from("Hello");
    assert_eq!(chunk1.text(), "Hello");

    let chunk2 = Chunk::from("World".to_string());
    assert_eq!(chunk2.text(), "World");
}

#[test]
fn test_display() {
    let chunk = Chunk::new("Hello world".to_string());
    assert_eq!(format!("{}", chunk.text()), "Hello world");
}

#[test]
fn test_rope_operations_simulation() {
    let chunks = vec![
        Chunk::new("Hello ".to_string()),
        Chunk::new("beautiful ".to_string()),
        Chunk::new("world!".to_string()),
    ];

    let mut result = chunks[0].clone();
    for chunk in &chunks[1..] {
        result = result.concat(chunk);
    }
    assert_eq!(result.text(), "Hello beautiful world!");

    let (left, right) = result.split_at(6).unwrap();
    let middle_chunk = Chunk::new("amazing ".to_string());
    let final_result = left.concat(&middle_chunk).concat(&right);
    assert_eq!(final_result.text(), "Hello amazing beautiful world!");
}

#[test]
fn test_text_editing_workflow() {
    let mut document = Chunk::new("fn main() {\n    println!(\"Hello\");\n}".to_string());

    let insert_pos = document.find("Hello").unwrap();
    document = document.replace_range(insert_pos..insert_pos + 5, "World").unwrap();
    assert!(document.contains("println!(\"World\")"));

    let brace_pos = document.rfind("}").unwrap();
    document = document.insert(brace_pos, '\n').unwrap();
    assert_eq!(document.line_count(), 4);

    assert!(document.starts_with("fn main()"));
    assert!(document.ends_with("\n}"));
}

#[test]
fn test_large_text_performance() {
    let large_text = "a".repeat(10000) + "\n" + &"b".repeat(10000);
    let chunk = Chunk::new(large_text);

    assert_eq!(chunk.len(), 20001);
    assert_eq!(chunk.line_count(), 2);
    assert_eq!(chunk.line_at(0).unwrap().len(), 10000);
    assert_eq!(chunk.line_at(1).unwrap().len(), 10000);

    let slice = chunk.slice(5000..15000).unwrap();
    assert_eq!(slice.len(), 10000);
}

#[test]
fn test_unicode_edge_cases() {
    let unicode_text = "🌍🌎🌏\n한글\nРусский\n中文\némoji: 👨‍💻";
    let chunk = Chunk::new(unicode_text.to_string());

    assert_eq!(chunk.line_count(), 5);
    assert!(chunk.line_at(0).unwrap().contains("🌍"));
    assert!(chunk.line_at(1).unwrap().contains("한글"));
    assert!(chunk.line_at(2).unwrap().contains("Русский"));
    assert!(chunk.line_at(3).unwrap().contains("中文"));
    assert!(chunk.line_at(4).unwrap().contains("👨‍💻"));

    let (left, right) = chunk.split_at(chunk.text().find('\n').unwrap()).unwrap();
    assert_eq!(left.text(), "🌍🌎🌏");
    assert!(right.text().starts_with('\n'));
}

#[test]
fn test_error_conditions() {
    let chunk = Chunk::new("test".to_string());

    assert!(chunk.slice(10..20).is_none());
    assert!(chunk.split_at(10).is_none());
    assert!(chunk.replace_range(10..20, "x").is_none());
    assert!(chunk.insert(10, 'x').is_none());
    assert!(chunk.remove(10).is_none());

    assert!(chunk.slice(3..2).is_none());
    assert!(chunk.replace_range(3..2, "x").is_none());

    assert!(chunk.byte_to_char(100).is_none());
    assert!(chunk.char_to_byte(100).is_none());
}

#[test]
fn test_utf8_boundary_rejection_leaves_chunk_unchanged() {
    // An index inside a character yields no result from any cutting
    // operation, and the chunk itself is untouched.
    let chunk = Chunk::new("aé".to_string());
    assert!(chunk.slice(0..2).is_none());
    assert!(chunk.split_at(2).is_none());
    assert!(chunk.insert(2, 'x').is_none());
    assert!(chunk.insert_str(2, "x").is_none());
    assert!(chunk.remove(2).is_none());
    assert_eq!(chunk.text(), "aé");
    assert_eq!(chunk.len(), 3);
}

#[test]
fn test_byte_char_conversion() {
    let chunk = Chunk::new("Héllo 🌍".to_string());
    assert_eq!(chunk.char_len(), 7);
    assert_eq!(chunk.len(), 11);
    assert_eq!(chunk.byte_to_char(0), Some(0));
    assert_eq!(chunk.byte_to_char(1), Some(1));
    assert_eq!(chunk.byte_to_char(2), None); // inside é
    assert_eq!(chunk.byte_to_char(3), Some(2));
    assert_eq!(chunk.char_to_byte(0), Some(0));
    assert_eq!(chunk.char_to_byte(1), Some(1));
    assert_eq!(chunk.char_to_byte(2), Some(3)); // after é
    assert_eq!(chunk.char_to_byte(7), Some(11)); // end of text
}
