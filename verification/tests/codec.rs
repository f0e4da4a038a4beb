use atorrent::download::{get_packet_size, is_handshake, FrameBuffer};
use atorrent::message::{
    build_bitfield, build_cancel, build_choke, build_handshake, build_have, build_interested,
    build_keep_alive, build_piece, build_port, build_request, build_unchoke, build_uninterested,
    parse,
};
use atorrent::torrent_parser::Torrent;
use sha1::Digest;

fn sample_torrent() -> Torrent {
    let data: Vec<u8> = vec![7u8; 16384];
    let hash = sha1::Sha1::digest(&data).to_vec();
    Torrent::new(
        16384,
        16384,
        vec![hash],
        vec![4u8, 58, 97, 98],
        vec![(String::from("out.bin"), 16384)],
        vec![String::from("udp://tracker.example.com:1337/announce")],
    )
    .unwrap()
}

#[test]
fn have_round_trip() {
    let frame = build_have(7);
    assert_eq!(frame, vec![0, 0, 0, 5, 4, 0, 0, 0, 7]);
    let m = parse(&frame).unwrap();
    assert_eq!(m.id, 4);
    assert_eq!(m.size, 5);
    assert_eq!(m.have_message.unwrap().piece_index, 7);
    assert!(m.bitfield_message.is_none());
    assert!(m.piece_message.is_none());
}

#[test]
fn bitfield_round_trip_full_and_empty() {
    let frame = build_bitfield(&[0b1010_0000, 0xff]);
    let m = parse(&frame).unwrap();
    assert_eq!(m.id, 5);
    let bits = m.bitfield_message.unwrap().bitfield;
    assert_eq!(bits.len(), 16);
    assert_eq!(
        &bits[..8],
        &[true, false, true, false, false, false, false, false]
    );
    assert!(bits[8..].iter().all(|b| *b));

    let empty = build_bitfield(&[]);
    let m2 = parse(&empty).unwrap();
    assert_eq!(m2.id, 5);
    assert_eq!(m2.bitfield_message.unwrap().bitfield.len(), 0);
}

#[test]
fn piece_round_trip_short_last_block() {
    let block: Vec<u8> = (0..100u32).map(|x| x as u8).collect();
    let frame = build_piece(3, 16384, block.clone());
    assert_eq!(frame[0..4], [0, 0, 0, 109]);
    let m = parse(&frame).unwrap();
    assert_eq!(m.id, 7);
    let pm = m.piece_message.unwrap();
    assert_eq!(pm.piece_index, 3);
    assert_eq!(pm.block_begin, 16384);
    assert_eq!(pm.block, block);
}

#[test]
fn simple_messages_round_trip() {
    for (frame, id) in [
        (build_choke(), 0),
        (build_unchoke(), 1),
        (build_interested(), 2),
        (build_uninterested(), 3),
    ] {
        assert_eq!(frame, vec![0, 0, 0, 1, id as u8]);
        let m = parse(&frame).unwrap();
        assert_eq!(m.id, id);
        assert_eq!(m.size, 1);
    }
}

#[test]
fn request_cancel_port_decode() {
    let frame = build_request(0, 0, 16384);
    assert_eq!(frame, vec![0, 0, 0, 13, 6, 0, 0, 0, 0, 0, 0, 0, 0, 0, 0, 64, 0]);
    let m = parse(&frame).unwrap();
    assert_eq!(m.id, 6);
    assert_eq!(m.size, 13);

    let c = parse(&build_cancel(1, 2, 3)).unwrap();
    assert_eq!(c.id, 8);
    assert_eq!(c.size, 13);

    let p = parse(&build_port(6881)).unwrap();
    assert_eq!(p.id, 9);
    assert_eq!(p.size, 3);
}

#[test]
fn keep_alive_is_framing_only() {
    let frame = build_keep_alive();
    assert_eq!(frame, vec![0, 0, 0, 0]);
    assert!(parse(&frame).is_none());
    assert_eq!(get_packet_size(&frame), Some(4));
}

#[test]
fn handshake_layout() {
    let t = sample_torrent();
    let hs = build_handshake(&t);
    assert_eq!(hs.len(), 68);
    assert_eq!(hs[0], 19);
    assert_eq!(&hs[1..20], b"BitTorrent protocol");
    assert_eq!(&hs[20..28], &[0u8; 8]);
    let info_hash = sha1::Sha1::digest(&t.info_raw).to_vec();
    assert_eq!(&hs[28..48], info_hash.as_slice());
    assert_eq!(&hs[48..56], b"-AT0001-");
    assert!(is_handshake(&hs));
    assert!(!is_handshake(&build_choke()));
    assert_eq!(get_packet_size(&hs), Some(68));
}

#[test]
fn packet_size_framing_rule() {
    assert_eq!(get_packet_size(&[]), None);
    assert_eq!(get_packet_size(&[0, 0]), None);
    assert_eq!(get_packet_size(&[0, 0, 0]), None);
    assert_eq!(get_packet_size(&[0, 0, 0, 5]), Some(9));
    // bytes 1 and 2 spell "Bi": the handshake shortcut applies
    assert_eq!(get_packet_size(&[19, 0x42, 0x69]), Some(68));
}

#[test]
fn framed_decoding_independent_of_splits() {
    let t = sample_torrent();
    let frames: Vec<Vec<u8>> = vec![
        build_handshake(&t),
        build_unchoke(),
        build_have(0),
        build_keep_alive(),
        build_piece(0, 0, vec![9u8; 50]),
    ];
    let stream: Vec<u8> = frames.iter().flatten().copied().collect();

    for split in [1usize, 2, 3, 7, 68, 100, stream.len()] {
        let mut buf = FrameBuffer::new();
        let mut got: Vec<Vec<u8>> = Vec::new();
        for chunk in stream.chunks(split) {
            buf.feed(chunk);
            while let Some(f) = buf.next_frame() {
                got.push(f);
            }
        }
        assert_eq!(got, frames, "split {split} changed the decoded frames");
    }
}
