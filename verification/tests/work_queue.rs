use atorrent::queue;
use atorrent::worker;

#[test]
fn push_accumulates_and_pop_takes_richest() {
    let mut q = worker::PieceQueue::new();
    q.push(0, 1);
    q.push(1, 1);
    q.push(1, 1);
    q.push(2, 5);
    assert_eq!(q.frequency_of(0), Some(1));
    assert_eq!(q.frequency_of(1), Some(2));
    assert_eq!(q.frequency_of(2), Some(5));

    // the popped entry has the highest frequency among the available ones
    let bitfield = vec![true, true, true];
    assert_eq!(q.pop(&bitfield), Some((2, 5)));
    assert_eq!(q.frequency_of(2), None);
    assert_eq!(q.pop(&bitfield), Some((1, 2)));
    assert_eq!(q.pop(&bitfield), Some((0, 1)));
    assert_eq!(q.pop(&bitfield), None);
}

#[test]
fn pop_respects_availability() {
    let mut q = worker::PieceQueue::new();
    q.push(0, 9);
    q.push(1, 1);
    // piece 0 is richer but the peer only holds piece 1
    let bitfield = vec![false, true];
    assert_eq!(q.pop(&bitfield), Some((1, 1)));
    assert_eq!(q.pop(&bitfield), None);
    assert_eq!(q.frequency_of(0), Some(9));
}

#[test]
fn completed_push_is_dropped() {
    let mut q = worker::PieceQueue::new();
    assert!(q.complete(3));
    assert!(!q.complete(3));
    q.push(3, 10);
    assert_eq!(q.frequency_of(3), None);
    // other pieces are unaffected
    q.push(4, 2);
    assert_eq!(q.frequency_of(4), Some(2));
}

#[test]
fn close_stops_pops() {
    let mut q = worker::PieceQueue::new();
    q.push(0, 1);
    q.close();
    assert_eq!(q.pop(&vec![true]), None);
    assert_eq!(q.frequency_of(0), Some(1));
}

#[test]
fn frequency_mass_is_conserved() {
    let mut q = worker::PieceQueue::new();
    let mut pushed: i64 = 0;
    let mut popped: i64 = 0;
    for (item, f) in [(0usize, 3usize), (1, 1), (2, 4), (1, 2), (0, 1)] {
        q.push(item, f);
        pushed += f as i64;
    }
    let bitfield = vec![true, true, true];
    for _ in 0..2 {
        let (_, f) = q.pop(&bitfield).unwrap();
        popped += f as i64;
    }
    let stored: i64 = [0usize, 1, 2]
        .iter()
        .map(|i| q.frequency_of(*i).unwrap_or(0) as i64)
        .sum();
    assert_eq!(pushed - popped, stored);
}

#[test]
fn release_restores_standing() {
    let mut q = worker::PieceQueue::new();
    q.push(5, 7);
    let bitfield = vec![false, false, false, false, false, true];
    let (item, f) = q.pop(&bitfield).unwrap();
    assert_eq!((item, f), (5, 7));
    assert_eq!(q.frequency_of(5), None);
    // a release pushes back exactly what was popped
    q.push(item, f);
    assert_eq!(q.frequency_of(5), Some(7));
}

#[test]
fn plain_queue_variant_behaves_alike() {
    let mut q = queue::PieceQueue::new();
    q.push(0, 2);
    q.push(1, 3);
    assert!(q.complete(9));
    q.push(9, 1);
    let bitfield = vec![true, true];
    assert_eq!(q.pop(&bitfield), Some((1, 3)));
    assert_eq!(q.pop(&bitfield), Some((0, 2)));
    assert_eq!(q.pop(&bitfield), None);
}
