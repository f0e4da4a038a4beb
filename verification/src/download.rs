//! The peer session: framing of the incoming byte stream, dispatch of each
//! frame, and the state machine that claims pieces from the shared work
//! queue, requests their blocks, verifies them, and releases them on
//! failure. The surrounding program owns the socket, the clock, and the
//! channels; it feeds received bytes in and carries the returned actions out.

use crate::digest::{sha1_digest, sha1_of};
use crate::endian::{bytes_eq, copy_bytes, push_slice, u32_from_be};
use crate::message::{
    build_interested, parse, parse_ok, parsed_bitfield, protocol_bytes, request_bytes,
    BitfieldMessage, PieceMessage,
};
use crate::piece::{concat_blocks, count_true, Piece, PieceWrite};
use crate::torrent_parser::Torrent;
use crate::worker::{spec_available, PieceQueue};
use crate::Address;
use vstd::prelude::*;

verus! {

/// Session lifecycle signals carried on the status broadcast. Only
/// `Closing` has semantics today; the others are placeholders that a session
/// records and otherwise ignores.
#[derive(Clone, Copy, Debug, PartialEq, Eq, Structural)]
pub enum Status {
    Closing,
    Leeching,
    Peering,
    Seeding,
    Halted,
}

/// The framing rule: a buffer whose bytes 1 and 2 spell `"Bi"` opens a
/// handshake of `buf[0] + 49` bytes; otherwise the first four bytes are a
/// big-endian length and the frame spans that length plus the four prefix
/// bytes. `None` means the buffer is too short to decide.
pub open spec fn spec_frame_len(s: Seq<u8>) -> Option<int> {
    if s.len() >= 3 && s[1] == 0x42 && s[2] == 0x69 {
        Some(s[0] + 49)
    } else if s.len() >= 4 {
        Some(u32_from_be(s.subrange(0, 4)) + 4)
    } else {
        None
    }
}

/// Computes the length of the frame opening at `packet`, or `None` when
/// fewer bytes than the framing rule needs have arrived, or when the frame
/// could not fit in memory.
pub fn get_packet_size(packet: &[u8]) -> (r: Option<usize>)
    ensures
        match (r, spec_frame_len(packet@)) {
            (Some(n), Some(m)) => n == m,
            (None, Some(m)) => m > usize::MAX,
            (None, None) => true,
            (Some(_), None) => false,
        },
{
    if packet.len() >= 3 && packet[1] == 0x42 && packet[2] == 0x69 {
        Some(packet[0] as usize + 49)
    } else if packet.len() >= 4 {
        let len32 = crate::endian::read_u32_be(packet, 0);
        if len32 as u64 + 4 > usize::MAX as u64 {
            None
        } else {
            Some(len32 as usize + 4)
        }
    } else {
        None
    }
}

/// Whether a complete frame is a handshake: its length is `buf[0] + 49` and
/// bytes 1 through 19 spell the protocol string.
pub open spec fn spec_is_handshake(s: Seq<u8>) -> bool {
    &&& s.len() >= 1
    &&& s.len() == s[0] + 49
    &&& s.subrange(1, 20) == protocol_bytes()
}

/// Byte `i` of the protocol string.
fn protocol_byte(i: usize) -> (r: u8)
    requires
        i < 19,
    ensures
        r == protocol_bytes()[i as int],
{
    match i {
        0 => 66,
        1 => 105,
        2 => 116,
        3 => 84,
        4 => 111,
        5 => 114,
        6 => 114,
        7 => 101,
        8 => 110,
        9 => 116,
        10 => 32,
        11 => 112,
        12 => 114,
        13 => 111,
        14 => 116,
        15 => 111,
        16 => 99,
        17 => 111,
        18 => 108,
        _ => 0,
    }
}

/// Decides whether a complete frame is a handshake.
#[verifier::loop_isolation(false)]
pub fn is_handshake(msg: &[u8]) -> (r: bool)
    ensures
        r == spec_is_handshake(msg@),
{
    if msg.len() < 49 {
        return false;
    }
    if msg.len() != msg[0] as usize + 49 {
        return false;
    }
    let mut i: usize = 0;
    while i < 19
        invariant
            i <= 19,
            forall|j: int| 0 <= j < i ==> msg@[1 + j] == protocol_bytes()[j],
        decreases 19 - i,
    {
        if msg[1 + i] != protocol_byte(i) {
            proof {
                assert(msg@.subrange(1, 20)[i as int] != protocol_bytes()[i as int]);
            }
            return false;
        }
        i = i + 1;
    }
    proof {
        assert(msg@.subrange(1, 20) =~= protocol_bytes());
    }
    true
}

/// Whether a session holding `bitfield` may work on `piece`: the peer
/// advertises it.
pub fn is_available(piece: usize, bitfield: &[bool]) -> (r: bool)
    ensures
        r == spec_available(piece, bitfield@),
{
    piece < bitfield.len() && bitfield[piece]
}

/// Whether an assembled piece hashes to its entry in the metainfo hash
/// table.
pub fn is_correct(piece: &PieceWrite, torrent: &Torrent) -> (r: bool)
    ensures
        r == (piece.piece_index < torrent.hashes@.len() && sha1_of(piece.data@)
            == torrent.hashes@[piece.piece_index as int]@),
{
    if piece.piece_index >= torrent.hashes.len() {
        return false;
    }
    let digest = sha1_digest(&piece.data);
    bytes_eq(digest.as_slice(), torrent.hashes[piece.piece_index].as_slice())
}

/// The frames read off a byte stream, in order: the first complete frame,
/// then those of the rest. A stream whose head frame is incomplete yields
/// nothing yet.
pub open spec fn frames_of(s: Seq<u8>) -> Seq<Seq<u8>>
    decreases s.len(),
{
    match spec_frame_len(s) {
        Some(n) => if 0 < n <= s.len() {
            seq![s.take(n)] + frames_of(s.skip(n))
        } else {
            seq![]
        },
        None => seq![],
    }
}

/// A well-formed frame: the framing rule reads exactly its own length.
pub open spec fn valid_frame(f: Seq<u8>) -> bool {
    spec_frame_len(f) == Some(f.len() as int)
}

/// The concatenation of a sequence of frames.
pub open spec fn flatten_frames(fs: Seq<Seq<u8>>) -> Seq<u8>
    decreases fs.len(),
{
    if fs.len() == 0 {
        Seq::empty()
    } else {
        fs.first() + flatten_frames(fs.drop_first())
    }
}

/// A valid frame at the head of a stream is read off whole: framing never
/// mixes its bytes with what follows.
pub proof fn lemma_frames_prepend(f: Seq<u8>, rest: Seq<u8>)
    requires
        valid_frame(f),
    ensures
        frames_of(f + rest) == seq![f] + frames_of(rest),
{
    let s = f + rest;
    assert(s.subrange(0, 4) =~= f.subrange(0, 4));
    assert(spec_frame_len(s) == Some(f.len() as int));
    assert(s.take(f.len() as int) =~= f);
    assert(s.skip(f.len() as int) =~= rest);
}

/// Framed decoding of a concatenation of valid frames yields exactly those
/// frames, however the bytes arrived.
pub proof fn lemma_frames_of_concat(fs: Seq<Seq<u8>>)
    requires
        forall|i: int| 0 <= i < fs.len() ==> valid_frame(#[trigger] fs[i]),
    ensures
        frames_of(flatten_frames(fs)) == fs,
    decreases fs.len(),
{
    if fs.len() == 0 {
        assert(flatten_frames(fs).len() == 0);
        assert(frames_of(flatten_frames(fs)) =~= fs);
    } else {
        assert(forall|i: int| 0 <= i < fs.drop_first().len() ==> valid_frame(
            #[trigger] fs.drop_first()[i],
        )) by {
            assert(forall|i: int|
                0 <= i < fs.drop_first().len() ==> fs.drop_first()[i] == fs[i + 1]);
        }
        lemma_frames_of_concat(fs.drop_first());
        lemma_frames_prepend(fs.first(), flatten_frames(fs.drop_first()));
        assert(seq![fs.first()] + fs.drop_first() =~= fs);
    }
}

/// A handshake frame is read off by the framing rule at exactly its own 68
/// bytes.
pub proof fn lemma_handshake_valid_frame(info_hash: Seq<u8>, tail: Seq<u8>)
    requires
        info_hash.len() == 20,
        tail.len() == 12,
    ensures
        valid_frame(crate::message::handshake_bytes(info_hash, tail)),
        crate::message::handshake_bytes(info_hash, tail).len() == 68,
{
    let s = crate::message::handshake_bytes(info_hash, tail);
    assert(s[0] == 19 && s[1] == 66 && s[2] == 105);
}

/// A length-prefixed frame whose bytes 1 and 2 do not spell the handshake
/// discriminator is read off by the framing rule at exactly its own length.
pub proof fn lemma_regular_valid_frame(s: Seq<u8>)
    requires
        s.len() >= 4,
        s.len() == u32_from_be(s.subrange(0, 4)) + 4,
        s[1] != 0x42 || s[2] != 0x69,
    ensures
        valid_frame(s),
{
}

/// The accumulation buffer of a session's read loop: received bytes are fed
/// in as they arrive, complete frames are taken off the front.
pub struct FrameBuffer {
    pub data: Vec<u8>,
}

impl FrameBuffer {
    /// An empty buffer.
    pub fn new() -> (r: FrameBuffer)
        ensures
            r.data@.len() == 0,
    {
        FrameBuffer { data: Vec::new() }
    }

    /// Appends newly received bytes. The pending stream is the concatenation
    /// of everything fed, in order, minus the frames already taken — so the
    /// frames produced depend only on the byte stream, not on how reads
    /// split it.
    pub fn feed(&mut self, chunk: &[u8])
        ensures
            final(self).data@ == old(self).data@ + chunk@,
    {
        push_slice(&mut self.data, chunk);
    }

    /// Takes the first complete frame off the buffer, or returns `None` when
    /// the frame is still incomplete.
    pub fn next_frame(&mut self) -> (r: Option<Vec<u8>>)
        ensures
            match r {
                Some(f) => {
                    &&& spec_frame_len(old(self).data@) == Some(f@.len() as int)
                    &&& f@.len() > 0
                    &&& f@ == old(self).data@.take(f@.len() as int)
                    &&& final(self).data@ == old(self).data@.skip(f@.len() as int)
                },
                None => {
                    &&& final(self).data@ == old(self).data@
                    &&& match spec_frame_len(old(self).data@) {
                        Some(n) => n > old(self).data@.len() || n > usize::MAX,
                        None => true,
                    }
                },
            },
    {
        match get_packet_size(self.data.as_slice()) {
            Some(n) => {
                if n <= self.data.len() {
                    let mut rest = self.data.split_off(n);
                    core::mem::swap(&mut self.data, &mut rest);
                    Some(rest)
                } else {
                    None
                }
            },
            None => None,
        }
    }
}

/// Saturating addition capped at `usize::MAX`, matching the queue's push.
pub open spec fn sat_add(prev: int, f: int) -> int {
    if prev + f <= usize::MAX {
        prev + f
    } else {
        usize::MAX as int
    }
}

/// Every piece index stored in the queue belongs to the torrent.
pub open spec fn keys_valid(q: PieceQueue, t: Torrent) -> bool {
    forall|k: usize| #[trigger] q.freq_map().dom().contains(k) ==> k < t.num_pieces
}

/// Whether a set bit of an arriving bitfield is counted into the queue: it
/// names a piece of the torrent that is not yet complete.
pub open spec fn counted_bit(bits: Seq<bool>, q: PieceQueue, t: Torrent, k: usize) -> bool {
    &&& k < bits.len()
    &&& bits[k as int]
    &&& k < t.num_pieces
    &&& !q.is_completed(k)
}

/// Copies a boolean slice into a fresh vector.
fn copy_bools(s: &[bool]) -> (r: Vec<bool>)
    ensures
        r@ == s@,
{
    let mut v: Vec<bool> = Vec::new();
    let mut i: usize = 0;
    while i < s.len()
        invariant
            i <= s@.len(),
            v@ == s@.subrange(0, i as int),
        decreases s@.len() - i,
    {
        v.push(s[i]);
        i = i + 1;
        assert(v@ =~= s@.subrange(0, i as int));
    }
    assert(v@ =~= s@);
    v
}

/// The frequency map after a bitfield is counted in: every set bit naming
/// an incomplete piece of the torrent gains one advertisement.
pub open spec fn bits_pushed_map(q: PieceQueue, bits: Seq<bool>, t: Torrent) -> Map<usize, usize> {
    Map::new(
        |k: usize| q.freq_map().dom().contains(k) || counted_bit(bits, q, t, k),
        |k: usize|
            if counted_bit(bits, q, t, k) {
                sat_add(q.freq_or_zero(k), 1) as usize
            } else {
                q.freq_map()[k]
            },
    )
}

/// Counts one advertisement for every set bit that names an incomplete piece
/// of the torrent.
#[verifier::loop_isolation(false)]
fn push_bits(queue: &mut PieceQueue, bits: &Vec<bool>, torrent: &Torrent)
    requires
        old(queue).wf(),
    ensures
        final(queue).wf(),
        final(queue).completed@ == old(queue).completed@,
        final(queue).finished == old(queue).finished,
        final(queue).freq_map() == bits_pushed_map(*old(queue), bits@, *torrent),
        keys_valid(*old(queue), *torrent) ==> keys_valid(*final(queue), *torrent),
{
    let mut i: usize = 0;
    proof {
        assert(queue.freq_map() =~= bits_pushed_map(*old(queue), bits@.take(0), *torrent));
    }
    while i < bits.len()
        invariant
            i <= bits@.len(),
            queue.wf(),
            queue.completed@ == old(queue).completed@,
            queue.finished == old(queue).finished,
            queue.freq_map() == bits_pushed_map(*old(queue), bits@.take(i as int), *torrent),
        decreases bits@.len() - i,
    {
        let ghost before = *queue;
        if bits[i] && i < torrent.num_pieces {
            queue.push(i, 1);
        }
        i = i + 1;
        proof {
            assert forall|k: usize|
                counted_bit(bits@.take(i as int), *old(queue), *torrent, k) == (counted_bit(
                    bits@.take(i - 1),
                    *old(queue),
                    *torrent,
                    k,
                ) || (k == i - 1 && counted_bit(bits@, *old(queue), *torrent, k))) by {}
            if counted_bit(bits@, *old(queue), *torrent, (i - 1) as usize) {
                assert(!before.is_completed((i - 1) as usize));
                assert(before.freq_or_zero((i - 1) as usize) == old(queue).freq_or_zero(
                    (i - 1) as usize,
                ));
            }
            assert(queue.freq_map() =~= bits_pushed_map(
                *old(queue),
                bits@.take(i as int),
                *torrent,
            ));
        }
    }
    proof {
        assert(bits@.take(bits@.len() as int) =~= bits@);
    }
}

/// What a fresh assembler claimed from the queue looks like.
pub open spec fn fresh_piece(p: Piece, t: Torrent, k: usize, f: usize) -> bool {
    &&& p.piece_index == k as i32
    &&& p.frequency == f
    &&& p.length == t.spec_blocks_per_piece(k as int)
    &&& p.completed == 0
    &&& p.requested == 0
    &&& p.blocks is None
    &&& forall|i: int| 0 <= i < p.length ==> !p.blocks_requested@[i]
}

/// The request messages still owed for the blocks of `flags` that are not
/// yet requested, from block `b` on, in ascending block order.
pub open spec fn request_msgs_from(flags: Seq<bool>, piece_index: i32, t: Torrent, b: int) -> Seq<
    Seq<u8>,
>
    decreases flags.len() - b,
{
    if b < 0 || b >= flags.len() {
        seq![]
    } else if flags[b] {
        request_msgs_from(flags, piece_index, t, b + 1)
    } else {
        seq![
            request_bytes(
                piece_index,
                (16384 * b) as i32,
                t.spec_block_len(piece_index as int, b) as u32,
            ),
        ] + request_msgs_from(flags, piece_index, t, b + 1)
    }
}

/// Every block request a fresh assembler for piece `k` will issue.
pub open spec fn all_block_requests(t: Torrent, k: usize) -> Seq<Seq<u8>> {
    request_msgs_from(
        Seq::new(t.spec_blocks_per_piece(k as int) as nat, |i: int| false),
        k as i32,
        t,
        0,
    )
}

/// The owed requests depend only on the flags from `b` on.
proof fn lemma_req_msgs_suffix_eq(f1: Seq<bool>, f2: Seq<bool>, piece_index: i32, t: Torrent, b: int)
    requires
        f1.len() == f2.len(),
        forall|j: int| b <= j < f1.len() ==> f1[j] == f2[j],
    ensures
        request_msgs_from(f1, piece_index, t, b) == request_msgs_from(f2, piece_index, t, b),
    decreases f1.len() - b,
{
    if 0 <= b < f1.len() {
        lemma_req_msgs_suffix_eq(f1, f2, piece_index, t, b + 1);
    }
}

/// Requesting the first unrequested block peels the head off the owed list.
proof fn lemma_req_msgs_first(flags: Seq<bool>, piece_index: i32, t: Torrent, j: int, b0: int)
    requires
        0 <= j <= b0 < flags.len(),
        !flags[b0],
        forall|i: int| j <= i < b0 ==> flags[i],
    ensures
        request_msgs_from(flags, piece_index, t, j) == seq![
            request_bytes(
                piece_index,
                (16384 * b0) as i32,
                t.spec_block_len(piece_index as int, b0) as u32,
            ),
        ] + request_msgs_from(flags.update(b0, true), piece_index, t, j),
    decreases b0 - j,
{
    let flags2 = flags.update(b0, true);
    if j == b0 {
        lemma_req_msgs_suffix_eq(flags, flags2, piece_index, t, b0 + 1);
    } else {
        lemma_req_msgs_first(flags, piece_index, t, j + 1, b0);
    }
}

/// Nothing is owed once every block from `j` on is requested.
proof fn lemma_req_msgs_done(flags: Seq<bool>, piece_index: i32, t: Torrent, j: int)
    requires
        forall|i: int| 0 <= i < flags.len() ==> flags[i],
    ensures
        request_msgs_from(flags, piece_index, t, j) == Seq::<Seq<u8>>::empty(),
    decreases flags.len() - j,
{
    if 0 <= j < flags.len() {
        lemma_req_msgs_done(flags, piece_index, t, j + 1);
    }
    assert(request_msgs_from(flags, piece_index, t, j) =~= Seq::<Seq<u8>>::empty());
}

/// Concatenation of block payloads depends only on the bytes of each block.
proof fn lemma_concat_blocks_congruence(a: Seq<Vec<u8>>, b: Seq<Vec<u8>>)
    requires
        a.len() == b.len(),
        forall|i: int| 0 <= i < a.len() ==> (#[trigger] a[i])@ == b[i]@,
    ensures
        concat_blocks(a) == concat_blocks(b),
    decreases a.len(),
{
    if a.len() > 0 {
        assert(forall|i: int|
            0 <= i < a.drop_last().len() ==> (#[trigger] a.drop_last()[i])@ == b.drop_last()[i]@);
        lemma_concat_blocks_congruence(a.drop_last(), b.drop_last());
    }
}

/// The assembled prefix of a consistent piece grows by whole blocks, and the
/// full assembly spans exactly the piece length.
proof fn lemma_assembled_len(bs: Seq<Vec<u8>>, t: Torrent, pi: int, k: int)
    requires
        t.wf(),
        0 <= pi < t.num_pieces,
        bs.len() == t.spec_blocks_per_piece(pi),
        0 <= k <= bs.len(),
        forall|i: int| 0 <= i < bs.len() ==> (#[trigger] bs[i])@.len() == t.spec_block_len(pi, i),
    ensures
        concat_blocks(bs.take(k)).len() == if k < bs.len() {
            16384 * k
        } else {
            t.spec_piece_len(pi)
        },
    decreases k,
{
    vstd::arithmetic::div_mod::lemma_mod_bound(t.size as int, t.piece_len as int);
    vstd::arithmetic::div_mod::lemma_fundamental_div_mod(t.spec_piece_len(pi) + 16383, 16384);
    vstd::arithmetic::div_mod::lemma_mod_bound(t.spec_piece_len(pi) + 16383, 16384);
    if k > 0 {
        lemma_assembled_len(bs, t, pi, k - 1);
        assert(bs.take(k).drop_last() =~= bs.take(k - 1));
        assert(bs.take(k).last() == bs[k - 1]);
    } else {
        assert(concat_blocks(bs.take(0)).len() == 0);
    }
}

/// What the session asks the surrounding program to do after one frame:
/// whether to keep the connection, which wire messages to write, which
/// verified piece to hand to the coordinator, and whether the stall clock
/// may be reset.
pub struct SocketAction {
    pub keep_open: bool,
    pub outgoing: Vec<Vec<u8>>,
    pub deliver: Option<PieceWrite>,
    pub progress: bool,
}

/// One peer session's state: the claimed piece and its popped frequency, the
/// choke flag, the peer's advertised bitfield, the lifecycle status, the
/// peer's address, and the torrent being downloaded.
pub struct Peer {
    pub piece: Option<Piece>,
    pub frequency: Option<usize>,
    pub choked: bool,
    pub bitfield: Vec<bool>,
    pub status: Status,
    pub addr: Address,
    pub torrent: Torrent,
}

impl Peer {
    /// Session invariant: the torrent is well formed, and a claimed piece is
    /// a well-formed assembler of this torrent whose popped frequency is
    /// recorded.
    pub open spec fn wf(self) -> bool {
        &&& self.torrent.wf()
        &&& match self.piece {
            Some(p) => {
                &&& p.wf()
                &&& p.consistent_with(self.torrent)
                &&& self.frequency == Some(p.frequency)
                &&& (p.requested > 0 ==> p.blocks is Some)
            },
            None => true,
        }
    }

    /// The parts of a session that frame handling never changes.
    pub open spec fn same_identity(self, other: Peer) -> bool {
        &&& self.torrent == other.torrent
        &&& self.addr == other.addr
        &&& self.status == other.status
    }

    /// A fresh session for one peer address.
    pub fn new(addr: Address, status: Status, torrent: Torrent) -> (r: Peer)
        requires
            torrent.wf(),
        ensures
            r.wf(),
            r.addr == addr,
            r.status == status,
            r.torrent == torrent,
            !r.choked,
            r.bitfield@.len() == 0,
            r.piece is None,
            r.frequency is None,
    {
        Peer {
            piece: None,
            frequency: None,
            choked: false,
            bitfield: Vec::new(),
            status,
            addr,
            torrent,
        }
    }

    /// The peer choked us: stop expecting requested blocks to arrive. The
    /// claimed piece is kept; the peer may unchoke us later.
    pub fn choke_handler(&mut self)
        ensures
            *final(self) == (Peer { choked: true, ..*old(self) }),
    {
        self.choked = true;
    }

    /// The peer unchoked us: resume requesting the blocks of the claimed
    /// piece. Returns the request messages to write.
    pub fn unchoke_handler(&mut self) -> (msgs: Vec<Vec<u8>>)
        requires
            old(self).wf(),
        ensures
            final(self).wf(),
            old(self).same_identity(*final(self)),
            !final(self).choked,
            final(self).bitfield@ == old(self).bitfield@,
            final(self).frequency == old(self).frequency,
            old(self).piece is None ==> final(self).piece is None && msgs@.len() == 0,
            old(self).piece matches Some(p) ==> {
                &&& final(self).piece matches Some(p2)
                &&& p2.piece_index == p.piece_index
                &&& p2.frequency == p.frequency
                &&& p2.length == p.length
                &&& p2.completed == p.completed
                &&& p2.requested == p2.length
                &&& (forall|i: int|
                    0 <= i < p.length ==> p2.block_present(i) == p.block_present(i))
                &&& (p.blocks matches Some(bs) ==> p2.blocks matches Some(bs2) && bs2 == bs)
                &&& (p.blocks is None ==> p2.blocks is None || (p2.blocks matches Some(bs2)
                    && bs2@.len() == p.length && forall|i: int|
                    0 <= i < bs2@.len() ==> (#[trigger] bs2@[i])@.len() == 0))
                &&& msgs@.map_values(|m: Vec<u8>| m@) == request_msgs_from(
                    p.blocks_requested@,
                    p.piece_index,
                    old(self).torrent,
                    0,
                )
            },
    {
        self.choked = false;
        self.request_piece()
    }

    /// Issues request messages for every block of the claimed piece that has
    /// not been requested yet, in ascending block order. Returns nothing
    /// when choked or when no piece is claimed.
    #[verifier::loop_isolation(false)]
    pub fn request_piece(&mut self) -> (msgs: Vec<Vec<u8>>)
        requires
            old(self).wf(),
        ensures
            final(self).wf(),
            old(self).same_identity(*final(self)),
            final(self).choked == old(self).choked,
            final(self).bitfield@ == old(self).bitfield@,
            final(self).frequency == old(self).frequency,
            old(self).choked || old(self).piece is None ==> *final(self) == *old(self)
                && msgs@.len() == 0,
            old(self).piece matches Some(p) ==> old(self).choked || {
                &&& final(self).piece matches Some(p2)
                &&& p2.piece_index == p.piece_index
                &&& p2.frequency == p.frequency
                &&& p2.length == p.length
                &&& p2.completed == p.completed
                &&& p2.requested == p2.length
                &&& (forall|i: int|
                    0 <= i < p.length ==> p2.block_present(i) == p.block_present(i))
                &&& (p.blocks matches Some(bs) ==> p2.blocks matches Some(bs2) && bs2 == bs)
                &&& (p.blocks is None ==> p2.blocks is None || (p2.blocks matches Some(bs2)
                    && bs2@.len() == p.length && forall|i: int|
                    0 <= i < bs2@.len() ==> (#[trigger] bs2@[i])@.len() == 0))
                &&& msgs@.map_values(|m: Vec<u8>| m@) == request_msgs_from(
                    p.blocks_requested@,
                    p.piece_index,
                    old(self).torrent,
                    0,
                )
            },
    {
        let mut msgs: Vec<Vec<u8>> = Vec::new();
        if self.choked {
            return msgs;
        }
        let taken = self.piece.take();
        match taken {
            None => {
                msgs
            },
            Some(mut p) => {
                let ghost orig = p;
                proof {
                    p.lemma_counters_ordered();
                }
                while p.requested < p.length
                    invariant
                        p.wf(),
                        p.consistent_with(self.torrent),
                        p.requested <= p.length,
                        p.piece_index == orig.piece_index,
                        p.frequency == orig.frequency,
                        p.length == orig.length,
                        p.completed == orig.completed,
                        p.requested > 0 || p.blocks == orig.blocks,
                        orig.requested > 0 ==> p.requested > 0,
                        (p.requested > 0 ==> p.blocks is Some),
                        orig.blocks matches Some(bs) ==> p.blocks matches Some(bs2) && bs2 == bs,
                        orig.blocks is None ==> p.blocks is None || (p.blocks matches Some(bs2)
                            && bs2@.len() == orig.length && forall|i: int|
                            0 <= i < bs2@.len() ==> (#[trigger] bs2@[i])@.len() == 0),
                        forall|i: int|
                            0 <= i < orig.length ==> p.block_present(i) == orig.block_present(i),
                        msgs@.map_values(|m: Vec<u8>| m@) + request_msgs_from(
                            p.blocks_requested@,
                            orig.piece_index,
                            self.torrent,
                            0,
                        ) == request_msgs_from(
                            orig.blocks_requested@,
                            orig.piece_index,
                            self.torrent,
                            0,
                        ),
                    decreases p.length - p.requested,
                {
                    let ghost flags_before = p.blocks_requested@;
                    let ghost msgs_before = msgs@;
                    let next = p.request(&self.torrent);
                    match next {
                        Some(m) => {
                            proof {
                                let b0 = choose|b: int|
                                    {
                                        &&& 0 <= b < flags_before.len()
                                        &&& !flags_before[b]
                                        &&& (forall|j: int| 0 <= j < b ==> flags_before[j])
                                        &&& m@ == request_bytes(
                                            orig.piece_index,
                                            (16384 * b) as i32,
                                            self.torrent.spec_block_len(
                                                orig.piece_index as int,
                                                b,
                                            ) as u32,
                                        )
                                        &&& p.blocks_requested@ == flags_before.update(b, true)
                                        &&& p.requested == count_true(flags_before) + 1
                                    };
                                lemma_req_msgs_first(
                                    flags_before,
                                    orig.piece_index,
                                    self.torrent,
                                    0,
                                    b0,
                                );
                            }
                            msgs.push(m);
                            proof {
                                assert(msgs@.map_values(|mm: Vec<u8>| mm@) =~= msgs_before
                                    .map_values(|mm: Vec<u8>| mm@).push(m@));
                                assert(msgs@.map_values(|mm: Vec<u8>| mm@) + request_msgs_from(
                                    p.blocks_requested@,
                                    orig.piece_index,
                                    self.torrent,
                                    0,
                                ) =~= request_msgs_from(
                                    orig.blocks_requested@,
                                    orig.piece_index,
                                    self.torrent,
                                    0,
                                ));
                            }
                        },
                        None => {
                            proof {
                                assert(false);
                            }
                        },
                    }
                    proof {
                        crate::piece::lemma_count_true_bounds(p.blocks_requested@);
                    }
                }
                proof {
                    crate::piece::lemma_count_true_bounds(p.blocks_requested@);
                    lemma_req_msgs_done(p.blocks_requested@, orig.piece_index, self.torrent, 0);
                    assert(msgs@.map_values(|mm: Vec<u8>| mm@) + Seq::<Seq<u8>>::empty()
                        =~= msgs@.map_values(|mm: Vec<u8>| mm@));
                }
                self.piece = Some(p);
                msgs
            },
        }
    }

    /// Claims the best available piece from the queue. On success the
    /// session holds a fresh assembler for it and remembers its frequency.
    pub fn pop_piece(&mut self, queue: &mut PieceQueue) -> (r: bool)
        requires
            old(self).wf(),
            old(self).piece is None,
            old(queue).wf(),
            keys_valid(*old(queue), old(self).torrent),
        ensures
            final(self).wf(),
            final(queue).wf(),
            keys_valid(*final(queue), final(self).torrent),
            old(self).same_identity(*final(self)),
            final(self).choked == old(self).choked,
            final(self).bitfield@ == old(self).bitfield@,
            final(queue).completed@ == old(queue).completed@,
            final(queue).finished == old(queue).finished,
            r ==> exists|k: usize|
                {
                    let f = old(queue).freq_map()[k];
                    &&& spec_available(k, old(self).bitfield@)
                    &&& #[trigger] old(queue).freq_map().dom().contains(k)
                    &&& (forall|k2: usize|
                        #[trigger] old(queue).freq_map().dom().contains(k2) && spec_available(
                            k2,
                            old(self).bitfield@,
                        ) ==> old(queue).freq_map()[k2] <= f)
                    &&& final(queue).freq_map() == old(queue).freq_map().remove(k)
                    &&& final(self).piece matches Some(p) && fresh_piece(
                        p,
                        old(self).torrent,
                        k,
                        f,
                    )
                    &&& final(self).frequency == Some(f)
                },
            !r ==> final(self).piece is None && final(self).frequency is None && final(queue).queue@ == old(queue).queue@ && (old(queue).finished || forall|k: usize|
                #[trigger] old(queue).freq_map().dom().contains(k) ==> !spec_available(
                    k,
                    old(self).bitfield@,
                )),
    {
        let r = match queue.pop(&self.bitfield) {
            Some((piece_idx, freq)) => {
                let p = crate::piece::Piece::new(piece_idx as i32, freq, &self.torrent);
                self.piece = Some(p);
                self.frequency = Some(freq);
                true
            },
            None => {
                self.frequency = None;
                false
            },
        };
        proof {
            assert forall|k2: usize| #[trigger]
                queue.freq_map().dom().contains(k2) implies k2 < self.torrent.num_pieces by {
                assert(old(queue).freq_map().dom().contains(k2));
            }
        }
        r
    }

    /// Ingests the peer's bitfield: stores it, counts one advertisement per
    /// set bit naming an incomplete piece of the torrent, and tries to claim
    /// a piece. Returns false — close the session — when nothing is
    /// claimable from this peer. A bitfield with no usable bit set always
    /// closes the session.
    pub fn bitfield_handler(
        &mut self,
        queue: &mut PieceQueue,
        bitfield_message: &BitfieldMessage,
    ) -> (r: bool)
        requires
            old(self).wf(),
            old(self).piece is None,
            old(queue).wf(),
            keys_valid(*old(queue), old(self).torrent),
        ensures
            final(self).wf(),
            final(queue).wf(),
            keys_valid(*final(queue), final(self).torrent),
            old(self).same_identity(*final(self)),
            final(self).choked == old(self).choked,
            final(self).bitfield@ == bitfield_message.bitfield@,
            final(queue).completed@ == old(queue).completed@,
            final(queue).finished == old(queue).finished,
            (forall|j: int|
                0 <= j < bitfield_message.bitfield@.len() ==> !bitfield_message.bitfield@[j]) ==> r
                == false,
            ({
                let m1 = bits_pushed_map(*old(queue), bitfield_message.bitfield@, old(self).torrent);
                if r {
                    exists|k: usize|
                        {
                            let f = m1[k];
                            &&& spec_available(k, bitfield_message.bitfield@)
                            &&& #[trigger] m1.dom().contains(k)
                            &&& (forall|k2: usize|
                                #[trigger] m1.dom().contains(k2) && spec_available(
                                    k2,
                                    bitfield_message.bitfield@,
                                ) ==> m1[k2] <= f)
                            &&& final(queue).freq_map() == m1.remove(k)
                            &&& final(self).piece matches Some(p) && fresh_piece(
                                p,
                                old(self).torrent,
                                k,
                                f,
                            )
                            &&& final(self).frequency == Some(f)
                        }
                } else {
                    &&& final(self).piece is None
                    &&& final(self).frequency is None
                    &&& final(queue).freq_map() == m1
                    &&& (old(queue).finished || forall|k: usize|
                        #[trigger] m1.dom().contains(k) ==> !spec_available(
                            k,
                            bitfield_message.bitfield@,
                        ))
                }
            }),
    {
        self.bitfield = copy_bools(bitfield_message.bitfield.as_slice());
        push_bits(queue, &self.bitfield, &self.torrent);
        let ghost m1 = queue.freq_map();
        let r = self.pop_piece(queue);
        proof {
            if forall|j: int|
                0 <= j < bitfield_message.bitfield@.len() ==> !bitfield_message.bitfield@[j] {
                if r {
                    let k = choose|k: usize|
                        spec_available(k, old(self).bitfield@) && #[trigger] old(queue).freq_map().dom().contains(k);
                    assert(false);
                }
            }
        }
        r
    }

    /// Releases the claimed piece, if any, back to the queue at exactly the
    /// frequency it was popped with, so another session can claim it. Called
    /// on session teardown; the session state itself is left as it is.
    pub fn exit(&mut self, queue: &mut PieceQueue)
        requires
            old(self).wf(),
            old(queue).wf(),
        ensures
            *final(self) == *old(self),
            final(queue).wf(),
            final(queue).completed@ == old(queue).completed@,
            final(queue).finished == old(queue).finished,
            old(self).piece is None ==> final(queue).queue@ == old(queue).queue@,
            old(self).piece matches Some(p) ==> (if old(queue).is_completed(
                p.piece_index as usize,
            ) {
                final(queue).queue@ == old(queue).queue@
            } else {
                let idx = p.piece_index as usize;
                let next = sat_add(old(queue).freq_or_zero(idx), p.frequency as int);
                &&& final(queue).freq_map() == old(queue).freq_map().insert(idx, next as usize)
                &&& final(queue).total() == old(queue).total() + next - old(queue).freq_or_zero(
                    idx,
                )
            }),
    {
        match &self.piece {
            Some(p) => {
                let f: usize = match self.frequency {
                    Some(f) => f,
                    None => {
                        proof {
                            assert(false);
                        }
                        0
                    },
                };
                queue.push(p.piece_index as usize, f);
            },
            None => {},
        }
    }

    /// After a completed piece is resolved, the session claims from `m1` the
    /// piece with the highest frequency among those the bitfield makes
    /// available: the entry leaves the queue, a fresh assembler for it is
    /// held, and — unless choked — every one of its block requests is
    /// issued.
    pub open spec fn claims_next(
        m1: Map<usize, usize>,
        bits: Seq<bool>,
        t: Torrent,
        post_q: Map<usize, usize>,
        post_piece: Option<Piece>,
        post_freq: Option<usize>,
        outgoing: Seq<Vec<u8>>,
        choked: bool,
    ) -> bool {
        exists|k: usize|
            {
                let f = m1[k];
                &&& spec_available(k, bits)
                &&& #[trigger] m1.dom().contains(k)
                &&& (forall|k2: usize|
                    #[trigger] m1.dom().contains(k2) && spec_available(k2, bits) ==> m1[k2] <= f)
                &&& post_q == m1.remove(k)
                &&& post_piece matches Some(p2)
                &&& p2.piece_index == k as i32
                &&& p2.frequency == f
                &&& p2.length == t.spec_blocks_per_piece(k as int)
                &&& p2.completed == 0
                &&& post_freq == Some(f)
                &&& (!choked ==> p2.requested == p2.length && outgoing.map_values(|m: Vec<u8>| m@)
                    == all_block_requests(t, k))
                &&& (choked ==> p2.requested == 0 && outgoing.len() == 0)
            }
    }

    /// Whether a piece message's block offset falls inside the claimed
    /// piece.
    pub open spec fn block_in_range(p: Piece, begin: i32) -> bool {
        &&& 0 <= begin
        &&& begin as int / 16384 < p.length
    }

    /// Whether an arriving block is stored: it was requested, has not
    /// arrived yet, and carries exactly the declared block length.
    pub open spec fn block_acceptable(p: Piece, t: Torrent, begin: i32, data: Seq<u8>) -> bool {
        let b = begin as int / 16384;
        &&& p.blocks_requested@[b]
        &&& !p.block_present(b)
        &&& data.len() == t.spec_block_len(p.piece_index as int, b)
        &&& data.len() > 0
    }

    /// Handles a piece message: stores the block; when the piece completes,
    /// verifies its hash, delivers it or releases it back to the queue at
    /// its popped frequency, claims the next piece, and — unless choked —
    /// requests its blocks. Closes the session when no piece is claimed,
    /// when the offset is out of range, or when no next piece is available.
    #[verifier::rlimit(100)]
    #[verifier::spinoff_prover]
    pub fn piece_handler(&mut self, queue: &mut PieceQueue, piece_resp: &PieceMessage) -> (r:
        SocketAction)
        requires
            old(self).wf(),
            old(queue).wf(),
            keys_valid(*old(queue), old(self).torrent),
        ensures
            final(self).wf(),
            final(queue).wf(),
            keys_valid(*final(queue), final(self).torrent),
            old(self).same_identity(*final(self)),
            final(self).choked == old(self).choked,
            final(self).bitfield@ == old(self).bitfield@,
            final(queue).completed@ == old(queue).completed@,
            final(queue).finished == old(queue).finished,
            r.deliver matches Some(pw) ==> {
                &&& pw.piece_index < old(self).torrent.num_pieces
                &&& sha1_of(pw.data@) == old(self).torrent.hashes@[pw.piece_index as int]@
                &&& pw.data@.len() == old(self).torrent.spec_piece_len(pw.piece_index as int)
            },
            old(self).piece is None ==> !r.keep_open && *final(self) == *old(self) && final(queue).queue@ == old(queue).queue@ && r.deliver is None && r.outgoing@.len() == 0,
            old(self).piece matches Some(p) ==> (!Peer::block_in_range(
                p,
                piece_resp.block_begin,
            ) ==> {
                &&& !r.keep_open
                &&& final(queue).queue@ == old(queue).queue@
                &&& r.deliver is None
                &&& r.outgoing@.len() == 0
                &&& final(self).piece == old(self).piece
                &&& final(self).frequency == old(self).frequency
            }),
            old(self).piece matches Some(p) ==> (Peer::block_in_range(p, piece_resp.block_begin)
                && !Peer::block_acceptable(
                p,
                old(self).torrent,
                piece_resp.block_begin,
                piece_resp.block@,
            ) ==> {
                &&& r.keep_open
                &&& !r.progress
                &&& final(queue).queue@ == old(queue).queue@
                &&& r.deliver is None
                &&& r.outgoing@.len() == 0
                &&& final(self).piece == old(self).piece
                &&& final(self).frequency == old(self).frequency
            }),
            old(self).piece matches Some(p) ==> (Peer::block_in_range(p, piece_resp.block_begin)
                && Peer::block_acceptable(
                p,
                old(self).torrent,
                piece_resp.block_begin,
                piece_resp.block@,
            ) && p.completed + 1 < p.length ==> ({
                let b = piece_resp.block_begin as int / 16384;
                &&& r.keep_open
                &&& !r.progress
                &&& final(queue).queue@ == old(queue).queue@
                &&& r.deliver is None
                &&& r.outgoing@.len() == 0
                &&& final(self).frequency == old(self).frequency
                &&& final(self).piece matches Some(p2)
                &&& p2.piece_index == p.piece_index
                &&& p2.frequency == p.frequency
                &&& p2.length == p.length
                &&& p2.completed == p.completed + 1
                &&& p2.blocks_requested == p.blocks_requested
                &&& p2.block_present(b)
                &&& (p2.blocks matches Some(bs2) && bs2[b]@ == piece_resp.block@)
                &&& (forall|i: int|
                    0 <= i < p.length && i != b ==> p2.block_present(i) == p.block_present(i))
            })),
            old(self).piece matches Some(p) ==> (Peer::block_in_range(p, piece_resp.block_begin)
                && Peer::block_acceptable(
                p,
                old(self).torrent,
                piece_resp.block_begin,
                piece_resp.block@,
            ) && p.completed + 1 >= p.length ==> ({
                let b = piece_resp.block_begin as int / 16384;
                let t = old(self).torrent;
                let idx = p.piece_index as usize;
                let assembled = concat_blocks(p.blocks->Some_0@.update(b, piece_resp.block));
                let ok = sha1_of(assembled) == t.hashes@[p.piece_index as int]@;
                let m1 = if ok || old(queue).is_completed(idx) {
                    old(queue).freq_map()
                } else {
                    old(queue).freq_map().insert(
                        idx,
                        sat_add(old(queue).freq_or_zero(idx), p.frequency as int) as usize,
                    )
                };
                &&& (r.deliver matches Some(pw) ==> pw.piece_index == idx && pw.data@ == assembled)
                &&& (r.deliver is Some <==> ok)
                &&& r.progress == r.keep_open
                &&& (r.keep_open ==> Peer::claims_next(
                    m1,
                    old(self).bitfield@,
                    t,
                    final(queue).freq_map(),
                    final(self).piece,
                    final(self).frequency,
                    r.outgoing@,
                    old(self).choked,
                ))
                &&& (!r.keep_open ==> final(self).piece is None && final(self).frequency is None
                    && final(queue).freq_map() == m1 && r.outgoing@.len() == 0 && (old(queue).finished || forall|k: usize|
                    #[trigger] m1.dom().contains(k) ==> !spec_available(k, old(self).bitfield@)))
            })),
    {
        let outgoing: Vec<Vec<u8>> = Vec::new();
        if self.piece.is_none() {
            return SocketAction { keep_open: false, outgoing, deliver: None, progress: false };
        }
        let mut p = match self.piece.take() {
            Some(p) => p,
            None => {
                proof {
                    assert(false);
                }
                return SocketAction { keep_open: false, outgoing, deliver: None, progress: false };
            },
        };
        let begin = piece_resp.block_begin;
        if begin < 0 {
            self.piece = Some(p);
            return SocketAction { keep_open: false, outgoing, deliver: None, progress: false };
        }
        let bidx: usize = (begin / 16384) as usize;
        proof {
            assert(begin / 16384 >= 0);
            assert(bidx as int == piece_resp.block_begin as int / 16384);
        }
        if bidx >= p.length {
            self.piece = Some(p);
            return SocketAction { keep_open: false, outgoing, deliver: None, progress: false };
        }
        if !p.blocks_requested[bidx] {
            self.piece = Some(p);
            return SocketAction { keep_open: true, outgoing, deliver: None, progress: false };
        }
        proof {
            crate::piece::lemma_count_true_pos(p.blocks_requested@, bidx as int);
        }
        let present = match &p.blocks {
            Some(bs) => bs[bidx].len() > 0,
            None => {
                proof {
                    assert(false);
                }
                false
            },
        };
        if present {
            self.piece = Some(p);
            return SocketAction { keep_open: true, outgoing, deliver: None, progress: false };
        }
        let expected = self.torrent.block_len(p.piece_index, bidx as i32);
        if piece_resp.block.len() == 0 || piece_resp.block.len() != expected as usize {
            self.piece = Some(p);
            return SocketAction { keep_open: true, outgoing, deliver: None, progress: false };
        }
        let data = copy_bytes(piece_resp.block.as_slice());
        let ghost p_before = p;
        let completed = p.add_block(bidx, data);
        proof {
            assert forall|i: int|
                0 <= i < p.length && #[trigger] p.block_present(i) implies (match p.blocks {
                Some(bs) => bs[i]@.len() == self.torrent.spec_block_len(p.piece_index as int, i),
                None => false,
            }) by {
                if i != bidx as int {
                    assert(p_before.block_present(i) == p.block_present(i));
                }
            }
        }
        if !completed {
            proof {
                crate::piece::lemma_count_true_bounds(p_before.presence());
                assert(!p_before.presence()[bidx as int]);
            }
            self.piece = Some(p);
            return SocketAction { keep_open: true, outgoing, deliver: None, progress: false };
        }
        proof {
            crate::piece::lemma_count_true_bounds(p.presence());
            assert forall|i: int| 0 <= i < p.length implies #[trigger] p.block_present(i) by {
                assert(p.presence()[i] == p.block_present(i));
            }
            lemma_concat_blocks_congruence(
                p.blocks->Some_0@,
                p_before.blocks->Some_0@.update(bidx as int, piece_resp.block),
            );
            assert forall|i: int| 0 <= i < p.blocks->Some_0@.len() implies (
                #[trigger] p.blocks->Some_0@[i])@.len() == self.torrent.spec_block_len(
                p.piece_index as int,
                i,
            ) by {
                assert(p.block_present(i));
            }
            lemma_assembled_len(
                p.blocks->Some_0@,
                self.torrent,
                p.piece_index as int,
                p.length as int,
            );
            assert(p.blocks->Some_0@.take(p.length as int) =~= p.blocks->Some_0@);
        }
        let data_full = p.assemble();
        let idxu: usize = p.piece_index as usize;
        let pw = PieceWrite { data: data_full, piece_index: idxu };
        let ok = is_correct(&pw, &self.torrent);
        let freq: usize = p.frequency;
        let ghost assembled_v = concat_blocks(
            p_before.blocks->Some_0@.update(bidx as int, piece_resp.block),
        );
        let ghost okv = sha1_of(assembled_v) == old(self).torrent.hashes@[
            p_before.piece_index as int
        ]@;
        proof {
            assert(okv == ok);
        }
        let mut deliver: Option<PieceWrite> = None;
        if ok {
            deliver = Some(pw);
        } else {
            queue.push(idxu, freq);
        }
        self.frequency = None;
        let ghost m1v = if okv || old(queue).is_completed(idxu) {
            old(queue).freq_map()
        } else {
            old(queue).freq_map().insert(
                idxu,
                sat_add(old(queue).freq_or_zero(idxu), p_before.frequency as int) as usize,
            )
        };
        proof {
            assert(queue.freq_map() == m1v);
            assert forall|k2: usize| #[trigger]
                queue.freq_map().dom().contains(k2) implies k2 < self.torrent.num_pieces by {
                if k2 != idxu {
                    assert(old(queue).freq_map().dom().contains(k2));
                }
            }
        }
        let ghost q1 = *queue;
        let claimed = self.pop_piece(queue);
        if !claimed {
            return SocketAction { keep_open: false, outgoing, deliver, progress: false };
        }
        let ghost fresh_self = *self;
        let mut outgoing2: Vec<Vec<u8>> = Vec::new();
        if !self.choked {
            outgoing2 = self.request_piece();
        }
        proof {
            let k0 = choose|k: usize|
                {
                    let f = q1.freq_map()[k];
                    &&& spec_available(k, old(self).bitfield@)
                    &&& #[trigger] q1.freq_map().dom().contains(k)
                    &&& (forall|k2: usize|
                        #[trigger] q1.freq_map().dom().contains(k2) && spec_available(
                            k2,
                            old(self).bitfield@,
                        ) ==> q1.freq_map()[k2] <= f)
                    &&& queue.freq_map() == q1.freq_map().remove(k)
                    &&& fresh_self.piece matches Some(pf) && fresh_piece(
                        pf,
                        old(self).torrent,
                        k,
                        f,
                    )
                    &&& fresh_self.frequency == Some(f)
                };
            assert(m1v.dom().contains(k0));
            match fresh_self.piece {
                Some(pf) => {
                    if !old(self).choked {
                        assert(pf.blocks_requested@ =~= Seq::new(
                            old(self).torrent.spec_blocks_per_piece(k0 as int) as nat,
                            |i: int| false,
                        ));
                    }
                },
                None => {
                    assert(false);
                },
            }
            assert({
                let f = m1v[k0];
                &&& spec_available(k0, old(self).bitfield@)
                &&& m1v.dom().contains(k0)
                &&& (forall|k2: usize|
                    #[trigger] m1v.dom().contains(k2) && spec_available(k2, old(self).bitfield@)
                        ==> m1v[k2] <= f)
                &&& queue.freq_map() == m1v.remove(k0)
                &&& self.piece matches Some(p2)
                &&& p2.piece_index == k0 as i32
                &&& p2.frequency == f
                &&& p2.length == old(self).torrent.spec_blocks_per_piece(k0 as int)
                &&& p2.completed == 0
                &&& self.frequency == Some(f)
                &&& (!old(self).choked ==> p2.requested == p2.length && outgoing2@.map_values(
                    |m: Vec<u8>| m@,
                ) == all_block_requests(old(self).torrent, k0))
                &&& (old(self).choked ==> p2.requested == 0 && outgoing2@.len() == 0)
            });
            assert(Peer::claims_next(
                m1v,
                old(self).bitfield@,
                old(self).torrent,
                queue.freq_map(),
                self.piece,
                self.frequency,
                outgoing2@,
                old(self).choked,
            ));
        }
        SocketAction { keep_open: true, outgoing: outgoing2, deliver, progress: true }
    }

    /// Dispatches one complete frame: a handshake is answered with
    /// interested; choke, unchoke, bitfield, and piece messages drive the
    /// session; have, keep-alive (the 4-byte frame with length prefix zero),
    /// port, and unknown ids are ignored; a frame that does not decode
    /// closes the session.
    pub fn on_socket(&mut self, msg: &[u8], queue: &mut PieceQueue) -> (r: SocketAction)
        requires
            old(self).wf(),
            old(queue).wf(),
            keys_valid(*old(queue), old(self).torrent),
        ensures
            final(self).wf(),
            final(queue).wf(),
            keys_valid(*final(queue), final(self).torrent),
            old(self).same_identity(*final(self)),
            final(queue).completed@ == old(queue).completed@,
            final(queue).finished == old(queue).finished,
            r.deliver matches Some(pw) ==> {
                &&& pw.piece_index < old(self).torrent.num_pieces
                &&& sha1_of(pw.data@) == old(self).torrent.hashes@[pw.piece_index as int]@
                &&& pw.data@.len() == old(self).torrent.spec_piece_len(pw.piece_index as int)
            },
            spec_is_handshake(msg@) ==> r.keep_open && *final(self) == *old(self) && final(queue).queue@ == old(queue).queue@ && r.outgoing@.len() == 1 && r.outgoing@[0]@
                == crate::message::simple_msg_bytes(2) && r.deliver is None,
            !spec_is_handshake(msg@) && msg@.len() == 4 ==> r.keep_open && *final(self) == *old(
                self,
            ) && final(queue).queue@ == old(queue).queue@ && r.deliver is None && r.outgoing@.len()
                == 0,
            !spec_is_handshake(msg@) && msg@.len() != 4 && !parse_ok(msg@) ==> !r.keep_open
                && *final(self) == *old(self) && final(queue).queue@ == old(queue).queue@
                && r.deliver is None && r.outgoing@.len() == 0,
            !spec_is_handshake(msg@) && parse_ok(msg@) && msg@[4] == 0 ==> r.keep_open && *final(self) == (Peer { choked: true, ..*old(self) }) && final(queue).queue@ == old(queue).queue@ && r.deliver is None && r.outgoing@.len() == 0,
            !spec_is_handshake(msg@) && parse_ok(msg@) && msg@[4] == 1 ==> r.keep_open && !final(self).choked && final(queue).queue@ == old(queue).queue@ && r.deliver is None && (old(self).piece matches Some(p) ==> final(self).piece matches Some(p2) && p2.requested
                == p2.length && r.outgoing@.map_values(|m: Vec<u8>| m@) == request_msgs_from(
                p.blocks_requested@,
                p.piece_index,
                old(self).torrent,
                0,
            )) && (old(self).piece is None ==> final(self).piece is None && r.outgoing@.len()
                == 0),
            !spec_is_handshake(msg@) && parse_ok(msg@) && msg@[4] == 5 && old(self).piece is Some
                ==> !r.keep_open && final(queue).queue@ == old(queue).queue@ && r.deliver is None,
            !spec_is_handshake(msg@) && parse_ok(msg@) && msg@[4] == 5 && old(self).piece is None
                ==> {
                &&& final(self).bitfield@ == parsed_bitfield(msg@)
                &&& r.deliver is None
                &&& r.outgoing@.len() == 0
                &&& ((forall|j: int|
                    0 <= j < parsed_bitfield(msg@).len() ==> !parsed_bitfield(msg@)[j]) ==> !r
                    .keep_open)
                &&& (r.keep_open ==> final(self).piece is Some)
                &&& (!r.keep_open ==> final(self).piece is None)
            },
            !spec_is_handshake(msg@) && parse_ok(msg@) && msg@[4] == 7 && old(self).piece is None
                ==> !r.keep_open && *final(self) == *old(self) && final(queue).queue@ == old(queue).queue@ && r.deliver is None && r.outgoing@.len() == 0,
            !spec_is_handshake(msg@) && parse_ok(msg@) && msg@[4] != 0 && msg@[4] != 1 && msg@[4]
                != 5 && msg@[4] != 7 ==> r.keep_open && *final(self) == *old(self) && final(queue).queue@ == old(queue).queue@ && r.deliver is None && r.outgoing@.len() == 0,
    {
        let no_send: Vec<Vec<u8>> = Vec::new();
        if is_handshake(msg) {
            let mut outgoing: Vec<Vec<u8>> = Vec::new();
            outgoing.push(build_interested());
            return SocketAction { keep_open: true, outgoing, deliver: None, progress: false };
        }
        if msg.len() == 4 {
            return SocketAction {
                keep_open: true,
                outgoing: no_send,
                deliver: None,
                progress: false,
            };
        }
        let m = match parse(msg) {
            Some(m) => m,
            None => {
                return SocketAction {
                    keep_open: false,
                    outgoing: no_send,
                    deliver: None,
                    progress: false,
                };
            },
        };
        let idb = msg[4];
        if idb == 0 {
            self.choke_handler();
            SocketAction { keep_open: true, outgoing: no_send, deliver: None, progress: false }
        } else if idb == 1 {
            let outgoing = self.unchoke_handler();
            SocketAction { keep_open: true, outgoing, deliver: None, progress: false }
        } else if idb == 5 {
            if self.piece.is_some() {
                return SocketAction {
                    keep_open: false,
                    outgoing: no_send,
                    deliver: None,
                    progress: false,
                };
            }
            let bm = match m.bitfield_message {
                Some(bm) => bm,
                None => {
                    proof {
                        assert(false);
                    }
                    return SocketAction {
                        keep_open: false,
                        outgoing: no_send,
                        deliver: None,
                        progress: false,
                    };
                },
            };
            let keep = self.bitfield_handler(queue, &bm);
            SocketAction { keep_open: keep, outgoing: no_send, deliver: None, progress: false }
        } else if idb == 7 {
            let pm = match m.piece_message {
                Some(pm) => pm,
                None => {
                    proof {
                        assert(false);
                    }
                    return SocketAction {
                        keep_open: false,
                        outgoing: no_send,
                        deliver: None,
                        progress: false,
                    };
                },
            };
            self.piece_handler(queue, &pm)
        } else {
            SocketAction { keep_open: true, outgoing: no_send, deliver: None, progress: false }
        }
    }

    /// Records a broadcast status. Returns true exactly on `Closing`: the
    /// session must shut its socket down and release its piece.
    pub fn set_status(&mut self, status: Status) -> (r: bool)
        ensures
            *final(self) == (Peer { status, ..*old(self) }),
            r == (status is Closing),
    {
        self.status = status;
        match status {
            Status::Closing => true,
            _ => false,
        }
    }
}

} // verus!
