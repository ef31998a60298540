use textbuf::node::Node;
use textbuf::encoding::Encoding;
use textbuf::line_ending::LineEnding;

#[test]
fn test_node_creation() {
    let node = Node::new("Hello, world!".to_string(), Encoding::UTF8, LineEnding::LF);
    assert_eq!(node.get_content(), "Hello, world!");
    assert_eq!(node.length, 13);
    assert!(node.is_leaf());
}

#[test]
fn test_child_operations() {
    let mut parent = Node::new("Parent".to_string(), Encoding::UTF8, LineEnding::LF);
    let child = Node::new("Child".to_string(), Encoding::UTF8, LineEnding::LF);

    parent.add_child(child);
    assert_eq!(parent.child_count(), 1);
    assert_eq!(parent.total_length(), 11);

    let removed = parent.remove_child(0);
    assert!(removed.is_some());
    assert_eq!(parent.child_count(), 0);
}

#[test]
fn test_split_merge() {
    let mut node = Node::new("Hello, world!".to_string(), Encoding::UTF8, LineEnding::LF);
    let split_node = node.split(7);

    assert!(split_node.is_some());
    assert_eq!(node.get_content(), "Hello, ");
    assert_eq!(split_node.unwrap().get_content(), "world!");
}

#[test]
fn test_find_node() {
    let mut parent = Node::new("Parent".to_string(), Encoding::UTF8, LineEnding::LF);
    let child = Node::new("Child".to_string(), Encoding::UTF8, LineEnding::LF);

    parent.add_child(child);

    let found = parent.find_node(3);
    assert!(found.is_some());
    assert_eq!(found.unwrap().get_content(), "Parent");

    let found_child = parent.find_node(8);
    assert!(found_child.is_some());
    assert_eq!(found_child.unwrap().get_content(), "Child");
}

#[test]
fn test_balance() {
    let mut node = Node::with_capacity("Root".to_string(), Encoding::UTF8, LineEnding::LF, 10);
    for i in 0..6 {
        let child = Node::new(format!("Child{}", i), Encoding::UTF8, LineEnding::LF);
        node.add_child(child);
    }

    node.balance();
    assert!(node.child_count() <= 4);
}

#[test]
fn test_balance_preserves_total_length() {
    let mut node = Node::new(String::new(), Encoding::UTF8, LineEnding::LF);
    for i in 0..6 {
        node.add_child(Node::new(format!("c{}", i), Encoding::UTF8, LineEnding::LF));
    }
    let before = node.total_length();
    node.balance();
    assert_eq!(node.total_length(), before);
    assert_eq!(node.child_count(), 4);
}

#[test]
fn test_merge_rejects_mismatched_configuration() {
    let mut lhs = Node::new("a".to_string(), Encoding::UTF8, LineEnding::LF);
    let rhs = Node::new("b".to_string(), Encoding::ASCII, LineEnding::LF);
    assert!(lhs.merge(rhs).is_err());
    assert_eq!(lhs.get_content(), "a");

    let rhs2 = Node::new("b".to_string(), Encoding::UTF8, LineEnding::LF);
    assert!(lhs.merge(rhs2).is_ok());
    assert_eq!(lhs.get_content(), "ab");
}

#[test]
fn test_set_content_validates() {
    let mut node = Node::new("start".to_string(), Encoding::ASCII, LineEnding::LF);
    assert!(node.set_content("plain".to_string()).is_ok());
    assert_eq!(node.length, 5);
    // Not representable in ASCII: the node keeps its prior content.
    assert!(node.set_content("café".to_string()).is_err());
    assert_eq!(node.get_content(), "plain");
    // A raw control character is rejected.
    assert!(node.set_content("a\u{0}b".to_string()).is_err());
    // A foreign terminator is rejected.
    assert!(node.set_content("a\r\nb".to_string()).is_err());
    assert_eq!(node.get_content(), "plain");
}

#[test]
fn test_compact_collapses_single_child() {
    let mut node = Node::new(String::new(), Encoding::UTF8, LineEnding::LF);
    node.add_child(Node::new(String::new(), Encoding::UTF8, LineEnding::LF));
    node.add_child(Node::new("kept".to_string(), Encoding::UTF8, LineEnding::LF));
    node.compact();
    assert_eq!(node.get_content(), "kept");
    assert!(node.is_leaf());
}

#[test]
fn test_stream_read_write() {
    let mut node = Node::new("Hello world".to_string(), Encoding::UTF8, LineEnding::LF);
    assert_eq!(node.stream_read(0..5), "Hello");
    assert_eq!(node.stream_read(6..11), "world");
    assert_eq!(node.stream_read(6..20), "");
    assert!(node.stream_write(6..11, "there".to_string()).is_ok());
    assert_eq!(node.get_content(), "Hello there");
    assert!(node.stream_write(20..30, "x".to_string()).is_err());
    assert_eq!(node.get_content(), "Hello there");
}

#[test]
fn test_depth() {
    let mut root = Node::new("r".to_string(), Encoding::UTF8, LineEnding::LF);
    assert_eq!(root.depth(), 1);
    let mut mid = Node::new("m".to_string(), Encoding::UTF8, LineEnding::LF);
    mid.add_child(Node::new("leaf".to_string(), Encoding::UTF8, LineEnding::LF));
    root.add_child(mid);
    assert_eq!(root.depth(), 3);
}

#[test]
fn test_append_content() {
    let mut node = Node::new("ab".to_string(), Encoding::UTF8, LineEnding::LF);
    assert!(node.append_content("cd").is_ok());
    assert_eq!(node.get_content(), "abcd");
    assert_eq!(node.length, 4);
}
