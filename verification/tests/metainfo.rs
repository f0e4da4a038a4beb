use atorrent::file::TorrentFiles;
use atorrent::torrent_parser::{size, Torrent};

fn hashes(n: usize) -> Vec<Vec<u8>> {
    (0..n).map(|i| vec![i as u8; 20]).collect()
}

fn torrent(total: i128, piece_len: i32, n: usize) -> Torrent {
    Torrent::new(
        total,
        piece_len,
        hashes(n),
        vec![100u8, 101],
        vec![(String::from("a.bin"), total)],
        Vec::new(),
    )
    .unwrap()
}

#[test]
fn constructor_validates() {
    // wrong hash width
    assert!(Torrent::new(
        16384,
        16384,
        vec![vec![0u8; 19]],
        Vec::new(),
        vec![(String::from("a"), 16384)],
        Vec::new()
    )
    .is_none());
    // piece count does not cover the content
    assert!(Torrent::new(
        32768,
        16384,
        hashes(1),
        Vec::new(),
        vec![(String::from("a"), 32768)],
        Vec::new()
    )
    .is_none());
    // file lengths do not sum to the total
    assert!(Torrent::new(
        16384,
        16384,
        hashes(1),
        Vec::new(),
        vec![(String::from("a"), 100)],
        Vec::new()
    )
    .is_none());
    // non-positive sizes
    assert!(Torrent::new(0, 16384, Vec::new(), Vec::new(), Vec::new(), Vec::new()).is_none());
    assert!(Torrent::new(1, 0, hashes(1), Vec::new(), vec![(String::from("a"), 1)], Vec::new())
        .is_none());
    // a valid one
    assert!(Torrent::new(
        16384,
        16384,
        hashes(1),
        Vec::new(),
        vec![(String::from("a"), 16384)],
        Vec::new()
    )
    .is_some());
}

#[test]
fn last_piece_short() {
    // total = 2 * piece_len + r with 0 < r < piece_len
    let t = torrent(2 * 32768 + 1000, 32768, 3);
    assert_eq!(t.num_pieces, 3);
    assert_eq!(t.piece_len(0), 32768);
    assert_eq!(t.piece_len(1), 32768);
    assert_eq!(t.piece_len(2), 1000);
    assert_eq!(t.blocks_per_piece(0), 2);
    assert_eq!(t.blocks_per_piece(2), 1);
}

#[test]
fn exact_multiple_keeps_full_last_piece() {
    let t = torrent(49152, 32768, 2);
    assert_eq!(t.num_pieces, 2);
    assert_eq!(t.piece_len(0), 32768);
    assert_eq!(t.piece_len(1), 16384);
    assert_eq!(t.blocks_per_piece(0), 2);
    assert_eq!(t.blocks_per_piece(1), 1);
    assert_eq!(t.block_len(0, 0), 16384);
    assert_eq!(t.block_len(0, 1), 16384);
    assert_eq!(t.block_len(1, 0), 16384);
}

#[test]
fn last_block_short() {
    let t = torrent(16384 + 100, 16384 + 100, 1);
    assert_eq!(t.blocks_per_piece(0), 2);
    assert_eq!(t.block_len(0, 0), 16384);
    assert_eq!(t.block_len(0, 1), 100);
}

#[test]
fn size_sums_file_lengths() {
    let files = vec![
        (String::from("a"), 10i128),
        (String::from("b"), 20),
        (String::from("c"), 30),
    ];
    assert_eq!(size(&files), Some(60));
    assert_eq!(size(&Vec::new()), Some(0));
    assert_eq!(size(&vec![(String::from("a"), -1i128)]), None);
}

#[test]
fn file_table_offsets() {
    let t = Torrent::new(
        100,
        64,
        hashes(2),
        Vec::new(),
        vec![
            (String::from("x"), 30),
            (String::from("y"), 50),
            (String::from("z"), 20),
        ],
        Vec::new(),
    )
    .unwrap();
    let files = TorrentFiles::new(&t);
    assert_eq!(files.files.len(), 3);
    assert_eq!(files.files[0].offset, 0);
    assert_eq!(files.files[1].offset, 30);
    assert_eq!(files.files[2].offset, 80);
    assert_eq!(files.files[1].path, "y");
    assert_eq!(files.files[2].size, 20);
}

#[test]
fn write_plan_spans_files() {
    let t = Torrent::new(
        100,
        64,
        hashes(2),
        Vec::new(),
        vec![
            (String::from("x"), 30),
            (String::from("y"), 50),
            (String::from("z"), 20),
        ],
        Vec::new(),
    )
    .unwrap();
    let files = TorrentFiles::new(&t);
    // piece 0 spans bytes 0..64: 30 into x, 34 into y
    let plan = files.write_plan(&t, 0, 64);
    assert_eq!(plan.len(), 3);
    let op0 = plan[0].as_ref().unwrap();
    assert_eq!((op0.seek, op0.data_start, op0.data_end), (0, 0, 30));
    let op1 = plan[1].as_ref().unwrap();
    assert_eq!((op1.seek, op1.data_start, op1.data_end), (0, 30, 64));
    assert!(plan[2].is_none());
    // piece 1 spans bytes 64..100: 16 into y, 20 into z
    let plan2 = files.write_plan(&t, 1, 36);
    let op1b = plan2[1].as_ref().unwrap();
    assert_eq!((op1b.seek, op1b.data_start, op1b.data_end), (34, 0, 16));
    let op2b = plan2[2].as_ref().unwrap();
    assert_eq!((op2b.seek, op2b.data_start, op2b.data_end), (0, 16, 36));
    assert!(plan2[0].is_none());
}
