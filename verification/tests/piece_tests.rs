use std::sync::Arc;
use textbuf::piece::Piece;
use textbuf::descriptor::PieceDescriptor;
use textbuf::piece_buffer::{Buffer, BufferId};

#[test]
fn test_piece_split_merge_round_trip() {
    let piece = Piece::new(7, 10..30);
    let (left, right) = piece.split_at(8);
    assert_eq!(left.start, 10);
    assert_eq!(left.end, 18);
    assert_eq!(right.start, 18);
    assert_eq!(right.end, 30);
    assert!(left.can_merge(&right));
    assert_eq!(left.merge(&right), Some(piece));
}

#[test]
fn test_piece_predicates() {
    let a = Piece::with_length(1, 0, 10);
    let b = Piece::with_length(1, 10, 5);
    let c = Piece::with_length(2, 10, 5);
    assert!(a.can_merge(&b));
    assert!(b.can_merge(&a));
    assert!(!a.can_merge(&c));
    assert!(a.contains(9));
    assert!(!a.contains(10));
    assert!(!a.overlaps(&b));
    assert!(a.overlaps(&Piece::with_length(1, 9, 3)));
}

#[test]
fn test_piece_shift_and_truncate() {
    let piece = Piece::with_length(0, 5, 10);
    assert_eq!(piece.shift(3), Some(Piece::with_length(0, 8, 10)));
    assert_eq!(piece.shift(-5), Some(Piece::with_length(0, 0, 10)));
    assert_eq!(piece.shift(-6), None);
    assert_eq!(piece.shift_unchecked(-5), Piece::with_length(0, 0, 10));
    assert_eq!(piece.truncate(4).len(), 4);
    assert_eq!(piece.truncate(100).len(), 10);
    assert_eq!(piece.extend(5).len(), 15);
}

#[test]
fn test_descriptor_coordinate_round_trip() {
    let descriptor = PieceDescriptor::from_piece(Piece::with_length(3, 100, 20), 40);
    assert_eq!(descriptor.global_end(), 60);
    for global in 40..60 {
        assert!(descriptor.contains_global(global));
        let local = descriptor.global_to_local(global).unwrap();
        assert_eq!(descriptor.local_to_global(local).unwrap(), global);
    }
    assert_eq!(descriptor.global_to_local(39), None);
    assert_eq!(descriptor.global_to_local(60), None);
    assert_eq!(descriptor.local_to_global(99), None);
    assert_eq!(descriptor.local_to_global(120), None);
}

#[test]
fn test_descriptor_split_range() {
    let descriptor = PieceDescriptor::from_piece(Piece::with_length(0, 0, 10), 10);
    let (left, middle, right) = descriptor.split_range(12..15).unwrap();
    let left = left.unwrap();
    let right = right.unwrap();
    assert_eq!(left.global_start, 10);
    assert_eq!(left.global_end(), 12);
    assert_eq!(middle.global_start, 12);
    assert_eq!(middle.global_end(), 15);
    assert_eq!(right.global_start, 15);
    assert_eq!(right.global_end(), 20);
    assert!(descriptor.split_range(15..15).is_none());
    assert!(descriptor.split_range(30..40).is_none());
}

#[test]
fn test_descriptor_split_at_and_merge() {
    let descriptor = PieceDescriptor::from_piece(Piece::with_length(0, 0, 10), 10);
    let (left, right) = descriptor.split_at(14).unwrap();
    assert_eq!(left.len(), 4);
    assert_eq!(right.len(), 6);
    assert!(left.can_merge(&right));
    let merged = left.merge(&right).unwrap();
    assert_eq!(merged.global_start, 10);
    assert_eq!(merged.len(), 10);
    assert!(descriptor.split_at(10).is_none());
    assert!(descriptor.split_at(20).is_none());
}

#[test]
fn test_buffer_length_invariant() {
    let mut buffer = Buffer::new();
    assert!(buffer.is_empty());
    buffer.add_piece(Piece::with_length(0, 0, 5));
    buffer.add_piece(Piece::with_length(0, 5, 7));
    assert_eq!(buffer.len(), 12);
    assert_eq!(buffer.pieces_count(), 2);

    buffer.insert_piece(1, Piece::with_length(1, 0, 3)).unwrap();
    assert_eq!(buffer.len(), 15);
    assert!(buffer.insert_piece(9, Piece::with_length(1, 0, 3)).is_err());
    assert_eq!(buffer.len(), 15);

    let removed = buffer.remove_piece(1).unwrap();
    assert_eq!(removed.len(), 3);
    assert_eq!(buffer.len(), 12);
    assert!(buffer.remove_piece(5).is_none());

    buffer.swap_pieces(0, 1).unwrap();
    assert_eq!(buffer.len(), 12);
    assert!(buffer.swap_pieces(0, 9).is_err());

    buffer.truncate_pieces(1);
    assert_eq!(buffer.pieces_count(), 1);
    assert_eq!(buffer.len(), 7);

    buffer.clear();
    assert_eq!(buffer.len(), 0);
}

#[test]
fn test_buffer_from_pieces() {
    let buffer = Buffer::from_pieces(vec![
        Piece::with_length(0, 0, 4),
        Piece::with_length(0, 4, 6),
    ]);
    assert_eq!(buffer.len(), 10);
    assert_eq!(buffer.pieces_count(), 2);
    assert_eq!(*buffer.get_piece(0).unwrap(), Arc::new(Piece::with_length(0, 0, 4)));
    assert!(buffer.get_piece(2).is_none());
    let mut extended = buffer;
    extended.extend_pieces(vec![Piece::with_length(1, 0, 2)]);
    assert_eq!(extended.len(), 12);
}

#[test]
fn test_buffer_id() {
    let mut id = BufferId::new(5);
    assert_eq!(id.id(), 5);
    id.increment();
    assert_eq!(id.id(), 6);
    id.decrement();
    assert_eq!(id.id(), 5);
    id.add(10);
    assert_eq!(id.id(), 15);
    id.sub(20);
    assert_eq!(id.id(), 0);
    assert_eq!(BufferId::from(3).id(), 3);
    assert_eq!(BufferId::default().id(), 0);
}
