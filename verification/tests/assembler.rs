use atorrent::message::build_request;
use atorrent::piece::Piece;
use atorrent::torrent_parser::Torrent;

fn torrent_one_piece(piece_len: i32) -> Torrent {
    Torrent::new(
        piece_len as i128,
        piece_len,
        vec![vec![0u8; 20]],
        Vec::new(),
        vec![(String::from("a"), piece_len as i128)],
        Vec::new(),
    )
    .unwrap()
}

#[test]
fn requests_ascend_and_last_is_short() {
    let t = torrent_one_piece(2 * 16384 + 100);
    let mut p = Piece::new(0, 2, &t);
    assert_eq!(p.length, 3);
    assert_eq!(p.frequency, 2);
    assert!(!p.is_done());

    assert_eq!(p.request(&t), Some(build_request(0, 0, 16384)));
    assert_eq!(p.request(&t), Some(build_request(0, 16384, 16384)));
    // the final block carries the remainder
    assert_eq!(p.request(&t), Some(build_request(0, 32768, 100)));
    assert_eq!(p.request(&t), None);
    assert!(p.is_done());
}

#[test]
fn blocks_assemble_in_order() {
    let t = torrent_one_piece(2 * 16384 + 100);
    let mut p = Piece::new(0, 1, &t);
    while p.request(&t).is_some() {}

    let b0 = vec![1u8; 16384];
    let b1 = vec![2u8; 16384];
    let b2 = vec![3u8; 100];
    // out of order arrival is fine; completion comes with the last one
    assert!(!p.add_block(1, b1.clone()));
    assert!(!p.add_block(0, b0.clone()));
    assert!(p.add_block(2, b2.clone()));

    let mut expected = b0;
    expected.extend_from_slice(&b1);
    expected.extend_from_slice(&b2);
    assert_eq!(p.assemble(), expected);
}

#[test]
fn get_needed_finds_first_unrequested() {
    let t = torrent_one_piece(3 * 16384);
    let mut p = Piece::new(0, 1, &t);
    assert_eq!(p.get_needed(&t), Some(0));
    p.request(&t);
    assert_eq!(p.get_needed(&t), Some(1));
    p.request(&t);
    p.request(&t);
    assert_eq!(p.get_needed(&t), None);
}
