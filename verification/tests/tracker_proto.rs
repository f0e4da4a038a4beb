use atorrent::torrent_parser::Torrent;
use atorrent::tracker::{
    build_announce_req, build_conn_req, parse_udp, on_socket, Announce, Resp, RespTypes,
    TrackerReply,
};
use sha1::Digest;

fn sample_torrent() -> Torrent {
    Torrent::new(
        16384,
        16384,
        vec![vec![9u8; 20]],
        vec![105u8, 52, 58, 115, 112, 97, 109, 101],
        vec![(String::from("a.bin"), 16384)],
        vec![String::from("udp://tracker.example.com:1337/announce")],
    )
    .unwrap()
}

#[test]
fn conn_req_layout() {
    let req = build_conn_req();
    assert_eq!(req.len(), 16);
    assert_eq!(&req[0..8], &[0, 0, 4, 23, 39, 16, 25, 128]);
    assert_eq!(&req[8..12], &[0, 0, 0, 0]);
}

#[test]
fn announce_req_layout() {
    let t = sample_torrent();
    let req = build_announce_req(0x0102030405060708, &t, 6881);
    assert_eq!(req.len(), 98);
    assert_eq!(&req[0..8], &[1, 2, 3, 4, 5, 6, 7, 8]);
    assert_eq!(&req[8..12], &[0, 0, 0, 1]);
    let info_hash = sha1::Sha1::digest(&t.info_raw).to_vec();
    assert_eq!(&req[16..36], info_hash.as_slice());
    assert_eq!(&req[36..44], b"-AT0001-");
    assert_eq!(&req[56..64], &[0u8; 8]);
    // left == total size
    assert_eq!(&req[64..72], &[0, 0, 0, 0, 0, 0, 64, 0]);
    assert_eq!(&req[72..80], &[0u8; 8]);
    assert_eq!(&req[80..88], &[0u8; 8]);
    // num_want == -1
    assert_eq!(&req[92..96], &[255, 255, 255, 255]);
    // listen port
    assert_eq!(&req[96..98], &[26, 225]);
}

#[test]
fn announce_response_parses_peers() {
    let mut buf: Vec<u8> = Vec::new();
    buf.extend_from_slice(&[0, 0, 0, 1]); // action
    buf.extend_from_slice(&[0, 0, 0, 42]); // transaction id
    buf.extend_from_slice(&[0, 0, 7, 8]); // interval
    buf.extend_from_slice(&[0, 0, 0, 3]); // leechers
    buf.extend_from_slice(&[0, 0, 0, 4]); // seeders
    buf.extend_from_slice(&[10, 0, 0, 1, 0x1a, 0xe1]); // 10.0.0.1:6881
    buf.extend_from_slice(&[192, 168, 1, 2, 0, 80]); // 192.168.1.2:80
    let a = Announce::from_buff(&buf, buf.len());
    assert_eq!(a.action, 1);
    assert_eq!(a.transaction_id, 42);
    assert_eq!(a.interval, 0x708);
    assert_eq!(a.leechers, 3);
    assert_eq!(a.seeders, 4);
    assert_eq!(a.peers, vec![([10, 0, 0, 1], 6881), ([192, 168, 1, 2], 80)]);
}

#[test]
fn connect_response_parses() {
    let buf = [0u8, 0, 0, 0, 0, 0, 0, 9, 1, 2, 3, 4, 5, 6, 7, 8];
    let r = Resp::from_buff(&buf);
    assert_eq!(r.connection_id, 0x0102030405060708);
    assert!(matches!(RespTypes::from_u32(0), RespTypes::Connect));
    assert!(matches!(RespTypes::from_u32(1), RespTypes::Announce));
    assert!(matches!(RespTypes::from_u32(7), RespTypes::Announce));
}

#[test]
fn socket_step_connect_then_announce() {
    let t = sample_torrent();
    // a connect response asks for the announce request to be sent
    let mut connect: Vec<u8> = vec![0, 0, 0, 0, 0, 0, 0, 42];
    connect.extend_from_slice(&[9, 9, 9, 9, 9, 9, 9, 9]);
    match on_socket(&connect, connect.len(), &t, 6881) {
        Some(TrackerReply::Reply(m)) => {
            assert_eq!(m.len(), 98);
            assert_eq!(&m[0..8], &[9u8; 8]);
            assert_eq!(&m[8..12], &[0, 0, 0, 1]);
            assert_eq!(&m[64..72], &[0, 0, 0, 0, 0, 0, 64, 0]);
            assert_eq!(&m[92..96], &[255, 255, 255, 255]);
            assert_eq!(&m[96..98], &[26, 225]);
        }
        _ => panic!("connect response must yield an announce request"),
    }
    // an announce response yields the peers
    let mut announce: Vec<u8> = Vec::new();
    announce.extend_from_slice(&[0, 0, 0, 1, 0, 0, 0, 1, 0, 0, 0, 1, 0, 0, 0, 0, 0, 0, 0, 1]);
    announce.extend_from_slice(&[1, 2, 3, 4, 0, 80]);
    match on_socket(&announce, announce.len(), &t, 6881) {
        Some(TrackerReply::Peers(a)) => {
            assert_eq!(a.peers, vec![([1, 2, 3, 4], 80)]);
        }
        _ => panic!("announce response must yield peers"),
    }
    // malformed datagrams are dropped
    assert!(on_socket(&[0, 0], 2, &t, 6881).is_none());
    assert!(on_socket(&connect, 8, &t, 6881).is_none());
}

#[test]
fn udp_urls_resolve_others_skip() {
    assert_eq!(
        parse_udp("udp://tracker.example.com:1337/announce"),
        Some((String::from("tracker.example.com"), 1337))
    );
    assert_eq!(parse_udp("http://tracker.example.com:80/announce"), None);
    assert_eq!(parse_udp("UDP://tracker.example.com:1337/announce"), Some((
        String::from("tracker.example.com"),
        1337,
    )));
    assert_eq!(parse_udp("udp://tracker.example.com/announce"), None);
    assert_eq!(parse_udp("not a url"), None);
}
