use rusbit::PieceQueue;
use std::collections::VecDeque;

#[test]
fn four_takes_on_three_pieces() {
    let mut q = PieceQueue::for_pieces(3);
    let a = q.get_next_piece().unwrap();
    let b = q.get_next_piece().unwrap();
    let c = q.get_next_piece().unwrap();
    let mut got = vec![a, b, c];
    got.sort();
    assert_eq!(got, vec![0, 1, 2]);
    assert_eq!(q.get_next_piece(), None);
}

#[test]
fn requeued_piece_is_taken_again() {
    let mut q = PieceQueue::new(VecDeque::from(vec![0, 1, 2, 3]));
    assert_eq!(q.get_next_piece(), Some(0));
    assert_eq!(q.get_next_piece(), Some(1));
    assert_eq!(q.get_next_piece(), Some(2));
    q.requeue_piece(2);
    assert_eq!(q.get_next_piece(), Some(3));
    assert_eq!(q.get_next_piece(), Some(2));
    assert_eq!(q.get_next_piece(), None);
}

#[test]
fn completed_pieces_finish_the_queue() {
    let mut q = PieceQueue::new(VecDeque::from(vec![5, 6]));
    assert_eq!(q.get_next_piece(), Some(5));
    assert_eq!(q.get_next_piece(), Some(6));
    assert_eq!(q.get_next_piece(), None);
    assert!(!q.is_finished());
    q.mark_piece_complete(5);
    q.mark_piece_complete(6);
    assert!(q.is_finished());
}

#[test]
fn release_gives_back_only_assigned_pieces() {
    let mut q = PieceQueue::for_pieces(2);
    assert_eq!(q.get_next_piece(), Some(0));
    assert!(q.is_in_flight(0));
    q.release_piece(1);
    q.release_piece(0);
    assert!(!q.is_in_flight(0));
    q.release_piece(0);
    assert_eq!(q.get_next_piece(), Some(1));
    assert_eq!(q.get_next_piece(), Some(0));
    assert_eq!(q.get_next_piece(), None);
}

#[test]
fn many_takes_never_repeat() {
    let mut q = PieceQueue::for_pieces(6);
    let mut seen = Vec::new();
    while let Some(p) = q.get_next_piece() {
        assert!(!seen.contains(&p));
        seen.push(p);
    }
    assert_eq!(seen.len(), 6);
}
