use textbuf::node::Node;
use textbuf::rope_iter::{RopeIterator, TraversalDirection};
use textbuf::encoding::Encoding;
use textbuf::line_ending::LineEnding;

fn two_chunk_tree() -> Node {
    let mut root = Node::new(String::new(), Encoding::UTF8, LineEnding::LF);
    root.add_child(Node::new("Hello ".to_string(), Encoding::UTF8, LineEnding::LF));
    root.add_child(Node::new("World".to_string(), Encoding::UTF8, LineEnding::LF));
    root
}

#[test]
fn test_iterator_coverage() {
    let root = two_chunk_tree();
    let mut iter = RopeIterator::new(&root, None);
    assert_eq!(iter.remaining_length(), 11);
    let mut collected = String::new();
    while let Some(c) = iter.next() {
        collected.push(c);
    }
    assert_eq!(collected, "Hello World");
    assert_eq!(iter.remaining_length(), 0);

    let mut iter = RopeIterator::new(&root, None);
    assert!(iter.seek_to_position(6));
    assert_eq!(iter.next(), Some('W'));
    assert!(!iter.seek_to_position(12));
}

#[test]
fn test_range_restriction() {
    let root = Node::new("Hello World".to_string(), Encoding::UTF8, LineEnding::LF);
    let mut iter = RopeIterator::new(&root, Some(2..5));
    let mut collected = String::new();
    while let Some(c) = iter.next() {
        collected.push(c);
    }
    assert_eq!(collected, "llo");
    assert_eq!(iter.next(), None);
    assert_eq!(iter.remaining_length(), 0);
}

#[test]
fn test_peek_and_peek_ahead() {
    let root = two_chunk_tree();
    let mut iter = RopeIterator::new(&root, None);
    assert_eq!(iter.peek(), Some('H'));
    assert_eq!(iter.peek_ahead(0), Some('H'));
    assert_eq!(iter.peek_ahead(6), Some('W'));
    assert_eq!(iter.peek_ahead(11), None);
    assert_eq!(iter.next(), Some('H'));
    assert_eq!(iter.peek(), Some('e'));
    assert_eq!(iter.position(), 1);
}

#[test]
fn test_backward_traversal() {
    let root = Node::new("abc".to_string(), Encoding::UTF8, LineEnding::LF);
    let mut iter = RopeIterator::new(&root, None);
    assert!(iter.seek_to_position(2));
    assert_eq!(iter.next_back(), Some('c'));
    assert_eq!(iter.direction(), TraversalDirection::Backward);
    assert_eq!(iter.next(), Some('b'));
    assert_eq!(iter.next(), Some('a'));
    assert_eq!(iter.next(), None);
    assert_eq!(iter.next(), None);
}

#[test]
fn test_with_direction() {
    let root = Node::new("ab".to_string(), Encoding::UTF8, LineEnding::LF);
    let mut iter = RopeIterator::with_direction(&root, None, TraversalDirection::Backward);
    assert_eq!(iter.direction(), TraversalDirection::Backward);
    assert_eq!(iter.next(), Some('a'));
    assert_eq!(iter.next(), None);
}

#[test]
fn test_collect_and_take_skip() {
    let root = Node::new("  abc def".to_string(), Encoding::UTF8, LineEnding::LF);
    let mut iter = RopeIterator::new(&root, None);
    assert_eq!(iter.skip_while(|c| c == ' '), 2);
    let word = iter.take_while(|c| c != ' ');
    assert_eq!(word, "abc");
    let rest = iter.collect_string(None);
    assert_eq!(rest, " def");

    let mut iter = RopeIterator::new(&root, None);
    assert_eq!(iter.collect_string(Some(4)), "  ab");
}

#[test]
fn test_byte_view() {
    let root = Node::new("aé".to_string(), Encoding::UTF8, LineEnding::LF);
    let mut bytes = RopeIterator::new(&root, None).bytes();
    assert_eq!(bytes.next(), Some(b'a'));
    // Only the first byte of a multi-byte character is produced.
    assert_eq!(bytes.next(), Some(0xC3));
    assert_eq!(bytes.next(), None);
}

#[test]
fn test_line_view() {
    let root = Node::new("one\ntwo\n".to_string(), Encoding::UTF8, LineEnding::LF);
    let mut lines = RopeIterator::new(&root, None).lines();
    assert_eq!(lines.next(), Some("one".to_string()));
    assert_eq!(lines.next(), Some("two".to_string()));
    assert_eq!(lines.next(), None);
}

#[test]
fn test_chunk_view() {
    let root = two_chunk_tree();
    let mut chunks = RopeIterator::chunks(&root, None);
    assert_eq!(chunks.next().unwrap().text(), "Hello ");
    assert_eq!(chunks.next().unwrap().text(), "World");
    assert!(chunks.next().is_none());

    let mut restricted = RopeIterator::chunks(&root, Some(0..3));
    assert_eq!(restricted.next().unwrap().text(), "Hello ");
    assert!(restricted.next().is_none());
}
