//! The peer-wire codec: builders for every outgoing message and the decoder
//! for incoming frames. All messages are length-prefixed big-endian; the
//! handshake alone carries no length prefix.

use crate::digest::sha1_of;
use crate::endian::{
    i32_be_bytes, i32_from_be, lemma_i32_be_round_trip, lemma_u32_be_round_trip, push_i32_be,
    push_slice, push_u16_be, push_u32_be, push_u64_be, read_i32_be, u16_be_bytes, u32_be_bytes,
    u64_be_bytes,
};
use crate::torrent_parser::Torrent;
use vstd::prelude::*;

verus! {

/// The 19 bytes of `"BitTorrent protocol"`.
pub open spec fn protocol_bytes() -> Seq<u8> {
    seq![66u8, 105, 116, 84, 111, 114, 114, 101, 110, 116, 32, 112, 114, 111, 116, 111, 99, 111,
        108]
}

/// The 8 bytes of the fixed peer-id prefix `"-AT0001-"`.
pub open spec fn peer_id_prefix_bytes() -> Seq<u8> {
    seq![45u8, 65, 84, 48, 48, 48, 49, 45]
}

/// The handshake: pstrlen 19, the protocol string, 8 reserved zero bytes,
/// the 20-byte info hash, and the 20-byte peer id whose last 12 bytes vary.
pub open spec fn handshake_bytes(info_hash: Seq<u8>, peer_tail: Seq<u8>) -> Seq<u8> {
    seq![19u8] + protocol_bytes() + u32_be_bytes(0) + u32_be_bytes(0) + info_hash
        + peer_id_prefix_bytes() + peer_tail
}

/// Whether `s` is a handshake frame for `info_hash` from this client: only
/// the 12-byte random tail of the peer id is left open.
pub open spec fn is_handshake_for(s: Seq<u8>, info_hash: Seq<u8>) -> bool {
    exists|tail: Seq<u8>| tail.len() == 12 && s == handshake_bytes(info_hash, tail)
}

/// The keep-alive message: length 0, no id.
pub open spec fn keep_alive_bytes() -> Seq<u8> {
    u32_be_bytes(0)
}

/// A payloadless message: length 1 and the id byte.
pub open spec fn simple_msg_bytes(id: u8) -> Seq<u8> {
    u32_be_bytes(1).push(id)
}

/// The have message: length 5, id 4, and the piece index.
pub open spec fn have_bytes(piece_index: u32) -> Seq<u8> {
    u32_be_bytes(5).push(4u8) + u32_be_bytes(piece_index)
}

/// The bitfield message: length, id 5, and the packed bits.
pub open spec fn bitfield_bytes(bitfield: Seq<u8>) -> Seq<u8> {
    u32_be_bytes((bitfield.len() + 1) as u32).push(5u8) + bitfield
}

/// The request message: length 13, id 6, piece index, block offset, block
/// length.
pub open spec fn request_bytes(piece_index: i32, block_begin: i32, block_length: u32) -> Seq<u8> {
    u32_be_bytes(13).push(6u8) + i32_be_bytes(piece_index) + i32_be_bytes(block_begin)
        + u32_be_bytes(block_length)
}

/// The piece message: length, id 7, piece index, block offset, block bytes.
pub open spec fn piece_msg_bytes(piece_index: i32, block_begin: i32, block: Seq<u8>) -> Seq<u8> {
    u32_be_bytes((block.len() + 9) as u32).push(7u8) + i32_be_bytes(piece_index) + i32_be_bytes(
        block_begin,
    ) + block
}

/// The cancel message: length 13, id 8, and the same layout as a request.
pub open spec fn cancel_bytes(piece_index: i32, block_begin: i32, block_length: i32) -> Seq<u8> {
    u32_be_bytes(13).push(8u8) + i32_be_bytes(piece_index) + i32_be_bytes(block_begin)
        + i32_be_bytes(block_length)
}

/// The port message: length 3, id 9, and the port.
pub open spec fn port_bytes(port: u16) -> Seq<u8> {
    u32_be_bytes(3).push(9u8) + u16_be_bytes(port)
}

/// Appends the protocol string.
fn push_protocol(v: &mut Vec<u8>)
    ensures
        final(v)@ == old(v)@ + protocol_bytes(),
{
    v.push(66);
    v.push(105);
    v.push(116);
    v.push(84);
    v.push(111);
    v.push(114);
    v.push(114);
    v.push(101);
    v.push(110);
    v.push(116);
    v.push(32);
    v.push(112);
    v.push(114);
    v.push(111);
    v.push(116);
    v.push(111);
    v.push(99);
    v.push(111);
    v.push(108);
    assert(final(v)@ =~= old(v)@ + protocol_bytes());
}

/// Appends the fixed peer-id prefix.
fn push_peer_id_prefix(v: &mut Vec<u8>)
    ensures
        final(v)@ == old(v)@ + peer_id_prefix_bytes(),
{
    v.push(45);
    v.push(65);
    v.push(84);
    v.push(48);
    v.push(48);
    v.push(48);
    v.push(49);
    v.push(45);
    assert(final(v)@ =~= old(v)@ + peer_id_prefix_bytes());
}

/// Builds the handshake for `torrent`, drawing the 12 random tail bytes of
/// the peer id.
pub fn build_handshake(torrent: &Torrent) -> (r: Vec<u8>)
    ensures
        r@.len() == 68,
        is_handshake_for(r@, sha1_of(torrent.info_raw@)),
{
    let info_hash = torrent.info_hash();
    let mut buf: Vec<u8> = Vec::new();
    buf.push(19);
    push_protocol(&mut buf);
    push_u32_be(&mut buf, 0);
    push_u32_be(&mut buf, 0);
    push_slice(&mut buf, info_hash.as_slice());
    push_peer_id_prefix(&mut buf);
    let r64: u64 = rand::random::<u64>();
    let r32: u32 = rand::random::<u32>();
    push_u64_be(&mut buf, r64);
    push_u32_be(&mut buf, r32);
    proof {
        let tail = u64_be_bytes(r64) + u32_be_bytes(r32);
        assert(buf@ =~= handshake_bytes(sha1_of(torrent.info_raw@), tail));
    }
    buf
}

/// Builds the keep-alive message.
pub fn build_keep_alive() -> (r: Vec<u8>)
    ensures
        r@ == keep_alive_bytes(),
{
    let mut buf: Vec<u8> = Vec::new();
    push_u32_be(&mut buf, 0);
    assert(buf@ =~= keep_alive_bytes());
    buf
}

/// Builds a payloadless message with the given id.
fn build_simple(id: u8) -> (r: Vec<u8>)
    ensures
        r@ == simple_msg_bytes(id),
{
    let mut buf: Vec<u8> = Vec::new();
    push_u32_be(&mut buf, 1);
    buf.push(id);
    assert(buf@ =~= simple_msg_bytes(id));
    buf
}

/// Builds the choke message.
pub fn build_choke() -> (r: Vec<u8>)
    ensures
        r@ == simple_msg_bytes(0),
{
    build_simple(0)
}

/// Builds the unchoke message.
pub fn build_unchoke() -> (r: Vec<u8>)
    ensures
        r@ == simple_msg_bytes(1),
{
    build_simple(1)
}

/// Builds the interested message.
pub fn build_interested() -> (r: Vec<u8>)
    ensures
        r@ == simple_msg_bytes(2),
{
    build_simple(2)
}

/// Builds the uninterested message.
pub fn build_uninterested() -> (r: Vec<u8>)
    ensures
        r@ == simple_msg_bytes(3),
{
    build_simple(3)
}

/// Builds the have message for a piece index.
pub fn build_have(piece_index: u32) -> (r: Vec<u8>)
    ensures
        r@ == have_bytes(piece_index),
{
    let mut buf: Vec<u8> = Vec::new();
    push_u32_be(&mut buf, 5);
    buf.push(4);
    push_u32_be(&mut buf, piece_index);
    assert(buf@ =~= have_bytes(piece_index));
    buf
}

/// Builds the bitfield message from already packed bits.
pub fn build_bitfield(bitfield: &[u8]) -> (r: Vec<u8>)
    requires
        bitfield@.len() + 1 <= u32::MAX,
    ensures
        r@ == bitfield_bytes(bitfield@),
{
    let mut buf: Vec<u8> = Vec::new();
    push_u32_be(&mut buf, (bitfield.len() + 1) as u32);
    buf.push(5);
    push_slice(&mut buf, bitfield);
    assert(buf@ =~= bitfield_bytes(bitfield@));
    buf
}

/// Builds the request message for one block.
pub fn build_request(piece_index: i32, block_index: i32, block_length: u32) -> (r: Vec<u8>)
    ensures
        r@ == request_bytes(piece_index, block_index, block_length),
{
    let mut buf: Vec<u8> = Vec::new();
    push_u32_be(&mut buf, 13);
    buf.push(6);
    push_i32_be(&mut buf, piece_index);
    push_i32_be(&mut buf, block_index);
    push_u32_be(&mut buf, block_length);
    assert(buf@ =~= request_bytes(piece_index, block_index, block_length));
    buf
}

/// Builds the piece message carrying one block.
pub fn build_piece(piece_index: i32, block_index: i32, block: Vec<u8>) -> (r: Vec<u8>)
    requires
        block@.len() + 9 <= u32::MAX,
    ensures
        r@ == piece_msg_bytes(piece_index, block_index, block@),
{
    let mut buf: Vec<u8> = Vec::new();
    push_u32_be(&mut buf, (block.len() + 9) as u32);
    buf.push(7);
    push_i32_be(&mut buf, piece_index);
    push_i32_be(&mut buf, block_index);
    push_slice(&mut buf, block.as_slice());
    assert(buf@ =~= piece_msg_bytes(piece_index, block_index, block@));
    buf
}

/// Builds the cancel message for one block.
pub fn build_cancel(piece_index: i32, block_index: i32, block_length: i32) -> (r: Vec<u8>)
    ensures
        r@ == cancel_bytes(piece_index, block_index, block_length),
{
    let mut buf: Vec<u8> = Vec::new();
    push_u32_be(&mut buf, 13);
    buf.push(8);
    push_i32_be(&mut buf, piece_index);
    push_i32_be(&mut buf, block_index);
    push_i32_be(&mut buf, block_length);
    assert(buf@ =~= cancel_bytes(piece_index, block_index, block_length));
    buf
}

/// Builds the port message.
pub fn build_port(port: u16) -> (r: Vec<u8>)
    ensures
        r@ == port_bytes(port),
{
    let mut buf: Vec<u8> = Vec::new();
    push_u32_be(&mut buf, 3);
    buf.push(9);
    push_u16_be(&mut buf, port);
    assert(buf@ =~= port_bytes(port));
    buf
}

/// A decoded piece message.
pub struct PieceMessage {
    pub piece_index: i32,
    pub block_begin: i32,
    pub block: Vec<u8>,
}

/// A decoded have message.
pub struct HaveMessage {
    pub piece_index: i32,
}

/// A decoded bitfield message, one boolean per advertised piece.
pub struct BitfieldMessage {
    pub bitfield: Vec<bool>,
}

/// A decoded regular message: the length prefix, the id, and the typed
/// payload of the ids this client consumes.
pub struct Message {
    pub size: i32,
    pub id: i8,
    pub have_message: Option<HaveMessage>,
    pub bitfield_message: Option<BitfieldMessage>,
    pub piece_message: Option<PieceMessage>,
}

/// Bit `k` (MSB first) of byte `b`.
pub open spec fn bit_of_byte(b: u8, k: int) -> bool {
    (b >> ((7 - k) as u8)) & 1 == 1
}

/// The booleans packed MSB-first into `p`, eight per byte.
pub open spec fn unpack_bits(p: Seq<u8>) -> Seq<bool> {
    Seq::new(p.len() * 8, |j: int| bit_of_byte(p[j / 8], j % 8))
}

/// Whether a frame decodes at all: it has a length prefix and an id, and the
/// payload is not truncated for the ids whose payload this client reads.
pub open spec fn parse_ok(msg: Seq<u8>) -> bool {
    &&& msg.len() >= 5
    &&& !(msg[4] == 4 && msg.len() < 9)
    &&& !(msg[4] == 7 && msg.len() < 13)
}

/// The length prefix of a decoded frame.
pub open spec fn parsed_size(msg: Seq<u8>) -> i32 {
    i32_from_be(msg.subrange(0, 4))
}

/// The id byte of a decoded frame.
pub open spec fn parsed_id(msg: Seq<u8>) -> i8 {
    msg[4] as i8
}

/// The piece index of a decoded have message.
pub open spec fn parsed_have_index(msg: Seq<u8>) -> i32 {
    i32_from_be(msg.subrange(5, 9))
}

/// The unpacked bits of a decoded bitfield message.
pub open spec fn parsed_bitfield(msg: Seq<u8>) -> Seq<bool> {
    unpack_bits(msg.skip(5))
}

/// The piece index of a decoded piece message.
pub open spec fn parsed_piece_index(msg: Seq<u8>) -> i32 {
    i32_from_be(msg.subrange(5, 9))
}

/// The block offset of a decoded piece message.
pub open spec fn parsed_block_begin(msg: Seq<u8>) -> i32 {
    i32_from_be(msg.subrange(9, 13))
}

/// The block bytes of a decoded piece message.
pub open spec fn parsed_block(msg: Seq<u8>) -> Seq<u8> {
    msg.skip(13)
}

/// Decodes one length-prefixed frame into a typed message. Returns `None`
/// exactly when the frame is truncated: shorter than a header, or shorter
/// than the fixed payload of a have or piece message.
pub fn parse(msg: &[u8]) -> (r: Option<Message>)
    ensures
        r is Some <==> parse_ok(msg@),
        match r {
            Some(m) => {
                &&& m.size == parsed_size(msg@)
                &&& m.id == parsed_id(msg@)
                &&& if msg@[4] == 4 {
                    &&& m.have_message matches Some(h) && h.piece_index == parsed_have_index(msg@)
                    &&& m.bitfield_message is None
                    &&& m.piece_message is None
                } else if msg@[4] == 5 {
                    &&& m.have_message is None
                    &&& m.bitfield_message matches Some(b) && b.bitfield@ == parsed_bitfield(msg@)
                    &&& m.piece_message is None
                } else if msg@[4] == 7 {
                    &&& m.have_message is None
                    &&& m.bitfield_message is None
                    &&& m.piece_message matches Some(p) && p.piece_index == parsed_piece_index(msg@)
                        && p.block_begin == parsed_block_begin(msg@) && p.block@ == parsed_block(
                        msg@,
                    )
                } else {
                    &&& m.have_message is None
                    &&& m.bitfield_message is None
                    &&& m.piece_message is None
                }
            },
            None => true,
        },
{
    if msg.len() < 5 {
        return None;
    }
    let size = read_i32_be(msg, 0);
    let id_byte = msg[4];
    let id = #[verifier::truncate] (id_byte as i8);
    if id_byte == 4 {
        if msg.len() < 9 {
            return None;
        }
        let piece_index = read_i32_be(msg, 5);
        Some(
            Message {
                size,
                id,
                have_message: Some(HaveMessage { piece_index }),
                bitfield_message: None,
                piece_message: None,
            },
        )
    } else if id_byte == 5 {
        let mut bitfield: Vec<bool> = Vec::new();
        let mut bi: usize = 5;
        while bi < msg.len()
            invariant
                5 <= bi <= msg@.len(),
                5 <= msg@.len(),
                msg@[4] == 5,
                bitfield@.len() == (bi - 5) * 8,
                forall|j: int|
                    0 <= j < bitfield@.len() ==> #[trigger] bitfield@[j] == bit_of_byte(
                        msg@[5 + j / 8],
                        j % 8,
                    ),
            decreases msg@.len() - bi,
        {
            let byte = msg[bi];
            let mut k: usize = 0;
            while k < 8
                invariant
                    k <= 8,
                    5 <= bi < msg@.len(),
                    byte == msg@[bi as int],
                    bitfield@.len() == (bi - 5) * 8 + k,
                    forall|j: int|
                        0 <= j < bitfield@.len() ==> #[trigger] bitfield@[j] == bit_of_byte(
                            msg@[5 + j / 8],
                            j % 8,
                        ),
                decreases 8 - k,
            {
                let bit = (byte >> ((7 - k) as u8)) & 1;
                bitfield.push(bit == 1);
                proof {
                    let j = bitfield@.len() - 1;
                    lemma_div8(j, bi - 5);
                    assert(bitfield@[j] == bit_of_byte(msg@[5 + j / 8], j % 8));
                }
                k = k + 1;
            }
            bi = bi + 1;
        }
        proof {
            lemma_unpacked(bitfield@, msg@.skip(5));
        }
        Some(
            Message {
                size,
                id,
                have_message: None,
                bitfield_message: Some(BitfieldMessage { bitfield }),
                piece_message: None,
            },
        )
    } else if id_byte == 7 {
        if msg.len() < 13 {
            return None;
        }
        let piece_index = read_i32_be(msg, 5);
        let block_begin = read_i32_be(msg, 9);
        let mut block: Vec<u8> = Vec::new();
        let mut i: usize = 13;
        while i < msg.len()
            invariant
                13 <= i <= msg@.len(),
                block@ == msg@.subrange(13, i as int),
            decreases msg@.len() - i,
        {
            block.push(msg[i]);
            i = i + 1;
            assert(block@ =~= msg@.subrange(13, i as int));
        }
        assert(block@ =~= parsed_block(msg@));
        Some(
            Message {
                size,
                id,
                have_message: None,
                bitfield_message: None,
                piece_message: Some(PieceMessage { piece_index, block_begin, block }),
            },
        )
    } else {
        Some(Message { size, id, have_message: None, bitfield_message: None, piece_message: None })
    }
}

/// Position `8 * byte_index + k` of an unpacked bitfield falls in byte
/// `byte_index` at bit `k`.
proof fn lemma_div8(j: int, byte_index: int)
    requires
        0 <= byte_index,
        8 * byte_index <= j < 8 * byte_index + 8,
    ensures
        j / 8 == byte_index,
        j % 8 == j - 8 * byte_index,
{
    vstd::arithmetic::div_mod::lemma_fundamental_div_mod_converse(j, 8, byte_index,
        j - 8 * byte_index);
}

/// A boolean sequence that matches `unpack_bits(p)` pointwise is
/// `unpack_bits(p)`.
proof fn lemma_unpacked(bits: Seq<bool>, p: Seq<u8>)
    requires
        bits.len() == p.len() * 8,
        forall|j: int| 0 <= j < bits.len() ==> #[trigger] bits[j] == bit_of_byte(p[j / 8], j % 8),
    ensures
        bits == unpack_bits(p),
{
    assert forall|j: int| 0 <= j < bits.len() implies bits[j] == unpack_bits(p)[j] by {
        assert(0 <= j / 8 < p.len()) by {
            vstd::arithmetic::div_mod::lemma_div_is_ordered(0, j, 8);
            if j / 8 >= p.len() {
                vstd::arithmetic::div_mod::lemma_fundamental_div_mod(j, 8);
                vstd::arithmetic::div_mod::lemma_mod_bound(j, 8);
            }
        }
    }
    assert(bits =~= unpack_bits(p));
}


/// Round trip for the have message: decoding what the builder encodes
/// recovers the id, the length prefix, and the piece index.
pub proof fn lemma_have_round_trip(piece_index: u32)
    ensures
        parse_ok(have_bytes(piece_index)),
        have_bytes(piece_index)[4] == 4,
        parsed_size(have_bytes(piece_index)) == 5,
        parsed_have_index(have_bytes(piece_index)) == piece_index as i32,
{
    let s = have_bytes(piece_index);
    assert(s.subrange(0, 4) =~= u32_be_bytes(5));
    assert(s.subrange(5, 9) =~= u32_be_bytes(piece_index));
    lemma_u32_be_round_trip(5);
    lemma_u32_be_round_trip(piece_index);
}

/// Round trip for the bitfield message: decoding what the builder encodes
/// recovers the id, the length prefix, and every packed bit.
pub proof fn lemma_bitfield_round_trip(bits: Seq<u8>)
    requires
        bits.len() + 1 <= i32::MAX,
    ensures
        parse_ok(bitfield_bytes(bits)),
        bitfield_bytes(bits)[4] == 5,
        parsed_size(bitfield_bytes(bits)) == bits.len() + 1,
        parsed_bitfield(bitfield_bytes(bits)) == unpack_bits(bits),
{
    let s = bitfield_bytes(bits);
    assert(s.subrange(0, 4) =~= u32_be_bytes((bits.len() + 1) as u32));
    lemma_u32_be_round_trip((bits.len() + 1) as u32);
    assert(s.skip(5) =~= bits);
}

/// Round trip for the piece message: decoding what the builder encodes
/// recovers the id, the piece index, the block offset, and the block bytes.
pub proof fn lemma_piece_round_trip(piece_index: i32, block_begin: i32, block: Seq<u8>)
    ensures
        block.len() + 9 <= i32::MAX ==> {
            let s = piece_msg_bytes(piece_index, block_begin, block);
            &&& parse_ok(s)
            &&& s[4] == 7
            &&& parsed_size(s) == block.len() + 9
            &&& parsed_piece_index(s) == piece_index
            &&& parsed_block_begin(s) == block_begin
            &&& parsed_block(s) == block
        },
{
    if block.len() + 9 <= i32::MAX {
        let s = piece_msg_bytes(piece_index, block_begin, block);
        assert(s.subrange(0, 4) =~= u32_be_bytes((block.len() + 9) as u32));
        assert(s.subrange(5, 9) =~= i32_be_bytes(piece_index));
        assert(s.subrange(9, 13) =~= i32_be_bytes(block_begin));
        assert(s.skip(13) =~= block);
        lemma_u32_be_round_trip((block.len() + 9) as u32);
        lemma_i32_be_round_trip(piece_index);
        lemma_i32_be_round_trip(block_begin);
    }
}

/// Round trip for the payloadless messages: the id byte and length survive;
/// the ids whose payload the decoder reads need that payload to decode.
pub proof fn lemma_simple_round_trip(id: u8)
    ensures
        simple_msg_bytes(id)[4] == id,
        parse_ok(simple_msg_bytes(id)) <==> id != 4 && id != 7,
        parsed_size(simple_msg_bytes(id)) == 1,
{
    let s = simple_msg_bytes(id);
    assert(s.subrange(0, 4) =~= u32_be_bytes(1));
    lemma_u32_be_round_trip(1);
}

/// The request message decodes to its id and length; the decoder leaves the
/// payload of requests to the serving side and does not read it back.
pub proof fn lemma_request_decodes(piece_index: i32, block_begin: i32, block_length: u32)
    ensures
        parse_ok(request_bytes(piece_index, block_begin, block_length)),
        request_bytes(piece_index, block_begin, block_length)[4] == 6,
        parsed_size(request_bytes(piece_index, block_begin, block_length)) == 13,
{
    let s = request_bytes(piece_index, block_begin, block_length);
    assert(s.subrange(0, 4) =~= u32_be_bytes(13));
    lemma_u32_be_round_trip(13);
}

/// The cancel message decodes to its id and length.
pub proof fn lemma_cancel_decodes(piece_index: i32, block_begin: i32, block_length: i32)
    ensures
        parse_ok(cancel_bytes(piece_index, block_begin, block_length)),
        cancel_bytes(piece_index, block_begin, block_length)[4] == 8,
        parsed_size(cancel_bytes(piece_index, block_begin, block_length)) == 13,
{
    let s = cancel_bytes(piece_index, block_begin, block_length);
    assert(s.subrange(0, 4) =~= u32_be_bytes(13));
    lemma_u32_be_round_trip(13);
}

/// The port message decodes to its id and length.
pub proof fn lemma_port_decodes(port: u16)
    ensures
        parse_ok(port_bytes(port)),
        port_bytes(port)[4] == 9,
        parsed_size(port_bytes(port)) == 3,
{
    let s = port_bytes(port);
    assert(s.subrange(0, 4) =~= u32_be_bytes(3));
    lemma_u32_be_round_trip(3);
}

/// The keep-alive frame carries no id byte, so the decoder yields nothing
/// for it; it is consumed by framing alone.
pub proof fn lemma_keep_alive_not_parsed()
    ensures
        !parse_ok(keep_alive_bytes()),
        keep_alive_bytes().len() == 4,
{
}

} // verus!
