use atorrent::download::{Peer, Status};
use atorrent::message::{
    build_bitfield, build_handshake, build_have, build_keep_alive, build_piece, build_port,
    build_request, build_unchoke,
};
use atorrent::peers::Download;
use atorrent::torrent_parser::Torrent;
use sha1::Digest;

fn digest(data: &[u8]) -> Vec<u8> {
    sha1::Sha1::digest(data).to_vec()
}

/// A torrent whose pieces are exactly the given byte blobs.
fn make_torrent(piece_len: i32, pieces: &[Vec<u8>]) -> Torrent {
    let total: i128 = pieces.iter().map(|p| p.len() as i128).sum();
    let hashes: Vec<Vec<u8>> = pieces.iter().map(|p| digest(p)).collect();
    Torrent::new(
        total,
        piece_len,
        hashes,
        vec![1u8, 2, 3],
        vec![(String::from("payload.bin"), total)],
        Vec::new(),
    )
    .unwrap()
}

#[test]
fn single_piece_single_block_download() {
    let data = vec![42u8; 16384];
    let t = make_torrent(16384, &[data.clone()]);
    let mut dl = Download::new(make_torrent(16384, &[data.clone()]));
    let mut peer = Peer::new(([127, 0, 0, 1], 6881), Status::Leeching, t);

    // handshake is answered with interested
    let hs = build_handshake(&make_torrent(16384, &[data.clone()]));
    let act = peer.on_socket(&hs, &mut dl.work_queue);
    assert!(act.keep_open);
    assert_eq!(act.outgoing, vec![vec![0, 0, 0, 1, 2]]);

    // the bitfield advertises the piece; the session claims it
    let act = peer.on_socket(&build_bitfield(&[0b1000_0000]), &mut dl.work_queue);
    assert!(act.keep_open);
    assert!(peer.piece.is_some());
    assert_eq!(peer.frequency, Some(1));

    // unchoke starts the single block request
    let act = peer.on_socket(&build_unchoke(), &mut dl.work_queue);
    assert!(act.keep_open);
    assert_eq!(act.outgoing, vec![build_request(0, 0, 16384)]);

    // the block arrives, the piece verifies and is delivered
    let act = peer.on_socket(&build_piece(0, 0, data.clone()), &mut dl.work_queue);
    let pw = act.deliver.expect("verified piece must be delivered");
    assert_eq!(pw.piece_index, 0);
    assert_eq!(pw.data, data);
    // no further piece is claimable, so the session closes
    assert!(!act.keep_open);

    let (fresh, finished) = dl.on_piece(pw.piece_index);
    assert!(fresh);
    assert!(finished);
    assert_eq!(dl.completed_count, 1);

    // the whole file is one write at offset zero
    let plan = dl.files.write_plan(&dl.torrent, 0, pw.data.len());
    let op = plan[0].as_ref().unwrap();
    assert_eq!((op.seek, op.data_start, op.data_end), (0, 0, 16384));
}

#[test]
fn two_pieces_served_by_two_peers() {
    let p0 = vec![1u8; 16384];
    let p1 = vec![2u8; 16384];
    let t = make_torrent(16384, &[p0.clone(), p1.clone()]);
    let mut dl = Download::new(make_torrent(16384, &[p0.clone(), p1.clone()]));

    let mut peer_a = Peer::new(([10, 0, 0, 1], 1), Status::Leeching, t);
    let mut peer_b = Peer::new(
        ([10, 0, 0, 2], 2),
        Status::Leeching,
        make_torrent(16384, &[p0.clone(), p1.clone()]),
    );

    assert!(dl.register_peer(([10, 0, 0, 1], 1)));
    assert!(dl.register_peer(([10, 0, 0, 2], 2)));

    // A holds only piece 0, B only piece 1
    let act = peer_a.on_socket(&build_bitfield(&[0b1000_0000]), &mut dl.work_queue);
    assert!(act.keep_open);
    let act = peer_b.on_socket(&build_bitfield(&[0b0100_0000]), &mut dl.work_queue);
    assert!(act.keep_open);

    peer_a.on_socket(&build_unchoke(), &mut dl.work_queue);
    peer_b.on_socket(&build_unchoke(), &mut dl.work_queue);

    let act_b = peer_b.on_socket(&build_piece(1, 0, p1.clone()), &mut dl.work_queue);
    let act_a = peer_a.on_socket(&build_piece(0, 0, p0.clone()), &mut dl.work_queue);

    let pw_b = act_b.deliver.unwrap();
    let pw_a = act_a.deliver.unwrap();
    assert_eq!(pw_b.piece_index, 1);
    assert_eq!(pw_b.data, p1);
    assert_eq!(pw_a.piece_index, 0);
    assert_eq!(pw_a.data, p0);

    // completion in arbitrary order; finished after both
    let (fresh, finished) = dl.on_piece(1);
    assert!(fresh && !finished);
    let (fresh, finished) = dl.on_piece(0);
    assert!(fresh && finished);
}

#[test]
fn hash_mismatch_releases_piece_without_closing() {
    let good = vec![5u8; 16384];
    let t = make_torrent(16384, &[good.clone()]);
    let mut dl = Download::new(make_torrent(16384, &[good.clone()]));
    let mut peer = Peer::new(([127, 0, 0, 1], 1), Status::Leeching, t);

    peer.on_socket(&build_bitfield(&[0b1000_0000]), &mut dl.work_queue);
    peer.on_socket(&build_unchoke(), &mut dl.work_queue);

    // corrupted bytes: the piece fails verification and is released at its
    // original frequency; this session immediately re-claims it
    let bad = vec![6u8; 16384];
    let act = peer.on_socket(&build_piece(0, 0, bad), &mut dl.work_queue);
    assert!(act.deliver.is_none());
    assert!(act.keep_open);
    assert_eq!(peer.frequency, Some(1));
    assert_eq!(peer.piece.as_ref().unwrap().piece_index, 0);
    // the re-claimed piece is requested afresh
    assert_eq!(act.outgoing, vec![build_request(0, 0, 16384)]);

    // correct bytes now complete the download
    let act = peer.on_socket(&build_piece(0, 0, good.clone()), &mut dl.work_queue);
    let pw = act.deliver.unwrap();
    assert_eq!(pw.data, good);
    let (fresh, finished) = dl.on_piece(0);
    assert!(fresh && finished);
}

#[test]
fn empty_bitfield_closes_session() {
    let data = vec![9u8; 16384];
    let t = make_torrent(16384, &[data.clone()]);
    let mut dl = Download::new(make_torrent(16384, &[data]));
    let mut peer = Peer::new(([127, 0, 0, 1], 1), Status::Leeching, t);
    let act = peer.on_socket(&build_bitfield(&[0b0000_0000]), &mut dl.work_queue);
    assert!(!act.keep_open);
    assert!(peer.piece.is_none());
}

#[test]
fn never_unchoked_session_requests_nothing() {
    // the peer sends its bitfield but never unchokes: a piece is claimed,
    // no request goes out, and nothing is delivered; the stall clock in the
    // surrounding program closes such a session after ten seconds
    let data = vec![3u8; 16384];
    let t = make_torrent(16384, &[data.clone()]);
    let mut dl = Download::new(make_torrent(16384, &[data]));
    let mut peer = Peer::new(([127, 0, 0, 1], 1), Status::Leeching, t);
    let act = peer.on_socket(&build_bitfield(&[0b1000_0000]), &mut dl.work_queue);
    assert!(act.keep_open);
    assert!(act.outgoing.is_empty());
    assert!(act.deliver.is_none());
    assert!(peer.piece.is_some());
}

#[test]
fn duplicate_endpoints_are_admitted_once() {
    let data = vec![8u8; 16384];
    let mut dl = Download::new(make_torrent(16384, &[data]));
    assert!(dl.register_peer(([1, 2, 3, 4], 80)));
    assert!(dl.register_peer(([1, 2, 3, 5], 80)));
    assert!(!dl.register_peer(([1, 2, 3, 4], 80)));
    assert!(dl.register_peer(([1, 2, 3, 4], 81)));
    assert_eq!(dl.peers.len(), 3);
}

#[test]
fn exit_releases_held_piece_losslessly() {
    let data = vec![4u8; 16384];
    let t = make_torrent(16384, &[data.clone()]);
    let mut dl = Download::new(make_torrent(16384, &[data]));
    let mut peer = Peer::new(([127, 0, 0, 1], 1), Status::Leeching, t);
    peer.on_socket(&build_bitfield(&[0b1000_0000]), &mut dl.work_queue);
    assert!(peer.piece.is_some());
    assert_eq!(dl.work_queue.frequency_of(0), None);
    peer.exit(&mut dl.work_queue);
    assert_eq!(dl.work_queue.frequency_of(0), Some(1));
}

#[test]
fn closing_status_ends_session() {
    let data = vec![2u8; 16384];
    let t = make_torrent(16384, &[data]);
    let mut peer = Peer::new(([127, 0, 0, 1], 1), Status::Leeching, t);
    assert!(!peer.set_status(Status::Halted));
    assert!(peer.set_status(Status::Closing));
}

#[test]
fn last_piece_short_requests() {
    // two pieces of 32768, the last one 16384: piece 0 takes two full
    // blocks, piece 1 one
    let p0 = vec![1u8; 32768];
    let p1 = vec![2u8; 16384];
    let t = make_torrent(32768, &[p0.clone(), p1.clone()]);
    let mut dl = Download::new(make_torrent(32768, &[p0.clone(), p1.clone()]));
    let mut peer = Peer::new(([127, 0, 0, 1], 1), Status::Leeching, t);

    peer.on_socket(&build_bitfield(&[0b1100_0000]), &mut dl.work_queue);
    let act = peer.on_socket(&build_unchoke(), &mut dl.work_queue);
    let claimed = peer.piece.as_ref().unwrap().piece_index;
    if claimed == 0 {
        assert_eq!(
            act.outgoing,
            vec![build_request(0, 0, 16384), build_request(0, 16384, 16384)]
        );
    } else {
        assert_eq!(act.outgoing, vec![build_request(1, 0, 16384)]);
    }

    // serve both pieces from this one peer
    let mut delivered = 0;
    let mut total_bytes = 0;
    let mut next = claimed;
    for _ in 0..2 {
        let bytes = if next == 0 { p0.clone() } else { p1.clone() };
        let mut last = None;
        for (b, chunk) in bytes.chunks(16384).enumerate() {
            let act = peer.on_socket(
                &build_piece(next, (b * 16384) as i32, chunk.to_vec()),
                &mut dl.work_queue,
            );
            last = Some(act);
        }
        let act = last.unwrap();
        let pw = act.deliver.expect("completed piece must verify");
        total_bytes += pw.data.len();
        dl.on_piece(pw.piece_index);
        delivered += 1;
        if act.keep_open {
            next = peer.piece.as_ref().unwrap().piece_index;
        }
    }
    assert_eq!(delivered, 2);
    assert_eq!(total_bytes, 49152);
    assert_eq!(dl.completed_count, 2);
}

#[test]
fn keep_alive_and_ignored_ids_are_no_ops() {
    let data = vec![6u8; 16384];
    let t = make_torrent(16384, &[data.clone()]);
    let mut dl = Download::new(make_torrent(16384, &[data]));
    let mut peer = Peer::new(([127, 0, 0, 1], 1), Status::Leeching, t);
    peer.on_socket(&build_bitfield(&[0b1000_0000]), &mut dl.work_queue);

    // keep-alive, have, port, and an unknown id leave everything as it is
    for frame in [
        build_keep_alive(),
        build_have(0),
        build_port(6881),
        vec![0, 0, 0, 1, 14],
    ] {
        let act = peer.on_socket(&frame, &mut dl.work_queue);
        assert!(act.keep_open);
        assert!(act.outgoing.is_empty());
        assert!(act.deliver.is_none());
    }
    assert_eq!(peer.piece.as_ref().unwrap().piece_index, 0);
    assert_eq!(peer.frequency, Some(1));
}
