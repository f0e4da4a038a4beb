//! The UDP tracker exchange: the connect and announce request builders and
//! the response parsers. The surrounding program owns the socket; it sends
//! what these functions build and hands back each received datagram.

use crate::digest::sha1_of;
use crate::endian::{
    push_i32_be, push_slice, push_u16_be, push_u32_be, push_u64_be, read_u16_be, read_u32_be,
    read_u64_be, i32_be_bytes, u16_be_bytes, u16_from_be, u32_be_bytes, u32_from_be, u64_be_bytes,
    u64_from_be,
};
use crate::message::peer_id_prefix_bytes;
use crate::torrent_parser::Torrent;
use crate::Address;
use vstd::prelude::*;
use vstd::string::StringExecFns;

verus! {

/// A connect response: the action and transaction id echoed back, and the
/// connection id to carry into the announce request.
pub struct Resp {
    pub _action: u32,
    pub _transaction_id: u32,
    pub connection_id: u64,
}

/// An announce response: the header counters and the peer endpoints packed
/// six bytes each.
pub struct Announce {
    pub action: u32,
    pub transaction_id: u32,
    pub interval: u32,
    pub leechers: u32,
    pub seeders: u32,
    pub peers: Vec<Address>,
}

/// One tracker's contribution: its announce response and the address it was
/// reached at.
pub struct Tracker {
    pub announce: Announce,
    pub url: String,
}

impl Announce {
    /// What decoding an announce datagram of `num_bytes` bytes yields: the
    /// five header words, then one 6-byte `(IPv4, port)` record per peer.
    pub open spec fn parsed_from(self, buf: Seq<u8>, num_bytes: int) -> bool {
        &&& self.action == u32_from_be(buf.subrange(0, 4))
        &&& self.transaction_id == u32_from_be(buf.subrange(4, 8))
        &&& self.interval == u32_from_be(buf.subrange(8, 12))
        &&& self.leechers == u32_from_be(buf.subrange(12, 16))
        &&& self.seeders == u32_from_be(buf.subrange(16, 20))
        &&& self.peers@.len() == (num_bytes - 20) / 6
        &&& forall|n: int|
            0 <= n < self.peers@.len() ==> {
                &&& (#[trigger] self.peers@[n]).0@[0] == buf[20 + 6 * n]
                &&& self.peers@[n].0@[1] == buf[21 + 6 * n]
                &&& self.peers@[n].0@[2] == buf[22 + 6 * n]
                &&& self.peers@[n].0@[3] == buf[23 + 6 * n]
                &&& self.peers@[n].1 == u16_from_be(buf.subrange(24 + 6 * n, 26 + 6 * n))
            }
    }

    /// Decodes an announce response datagram.
    #[verifier::loop_isolation(false)]
    pub fn from_buff(buf: &[u8], num_bytes: usize) -> (r: Announce)
        requires
            20 <= num_bytes <= buf@.len(),
        ensures
            r.parsed_from(buf@, num_bytes as int),
    {
        let count: usize = (num_bytes - 20) / 6;
        proof {
            vstd::arithmetic::div_mod::lemma_fundamental_div_mod(num_bytes - 20, 6);
            vstd::arithmetic::div_mod::lemma_mod_bound(num_bytes - 20, 6);
        }
        let mut peers: Vec<Address> = Vec::new();
        let mut n: usize = 0;
        while n < count
            invariant
                n <= count,
                peers@.len() == n,
                forall|i: int|
                    0 <= i < n ==> {
                        &&& (#[trigger] peers@[i]).0@[0] == buf@[20 + 6 * i]
                        &&& peers@[i].0@[1] == buf@[21 + 6 * i]
                        &&& peers@[i].0@[2] == buf@[22 + 6 * i]
                        &&& peers@[i].0@[3] == buf@[23 + 6 * i]
                        &&& peers@[i].1 == u16_from_be(buf@.subrange(24 + 6 * i, 26 + 6 * i))
                    },
            decreases count - n,
        {
            let off: usize = n * 6 + 20;
            let ip: [u8; 4] = [buf[off], buf[off + 1], buf[off + 2], buf[off + 3]];
            let port: u16 = read_u16_be(buf, off + 4);
            let peer: Address = (ip, port);
            peers.push(peer);
            n = n + 1;
        }
        Announce {
            action: read_u32_be(buf, 0),
            transaction_id: read_u32_be(buf, 4),
            interval: read_u32_be(buf, 8),
            leechers: read_u32_be(buf, 12),
            seeders: read_u32_be(buf, 16),
            peers,
        }
    }
}

impl Resp {
    /// Decodes a connect response datagram.
    pub fn from_buff(buf: &[u8]) -> (r: Resp)
        requires
            buf@.len() >= 16,
        ensures
            r._action == u32_from_be(buf@.subrange(0, 4)),
            r._transaction_id == u32_from_be(buf@.subrange(4, 8)),
            r.connection_id == u64_from_be(buf@.subrange(8, 16)),
    {
        Resp {
            _action: read_u32_be(buf, 0),
            _transaction_id: read_u32_be(buf, 4),
            connection_id: read_u64_be(buf, 8),
        }
    }
}

/// The action codes a tracker datagram can open with; anything but a
/// connect response is treated as an announce response.
pub enum RespTypes {
    Connect,
    Announce,
}

impl RespTypes {
    /// Classifies an action code: 0 is a connect response, everything else
    /// an announce response.
    pub fn from_u32(x: u32) -> (r: RespTypes)
        ensures
            r is Connect <==> x == 0,
    {
        match x {
            0 => RespTypes::Connect,
            1 => RespTypes::Announce,
            _ => RespTypes::Announce,
        }
    }
}

/// Builds the 16-byte connect request: the protocol magic, action 0, and a
/// random transaction id.
pub fn build_conn_req() -> (r: Vec<u8>)
    ensures
        r@.len() == 16,
        r@.subrange(0, 8) == u64_be_bytes(0x41727101980),
        r@.subrange(8, 12) == u32_be_bytes(0),
{
    let mut buffer: Vec<u8> = Vec::new();
    push_u64_be(&mut buffer, 0x41727101980);
    push_u32_be(&mut buffer, 0);
    let tid: u32 = rand::random::<u32>();
    push_u32_be(&mut buffer, tid);
    proof {
        assert(buffer@.subrange(0, 8) =~= u64_be_bytes(0x41727101980));
        assert(buffer@.subrange(8, 12) =~= u32_be_bytes(0));
    }
    buffer
}

/// Builds the 98-byte announce request. The transaction id, the 12-byte
/// peer-id tail, and the key are drawn at random; every other field is
/// pinned: the connection id, action 1, the info hash, the peer-id prefix,
/// zero progress counters with `left` equal to the total size, event and ip
/// zero, `num_want` -1, and the listen port.
pub fn build_announce_req(conn_id: u64, torrent: &Torrent, port: u16) -> (r: Vec<u8>)
    requires
        torrent.wf(),
    ensures
        r@.len() == 98,
        r@.subrange(0, 8) == u64_be_bytes(conn_id),
        r@.subrange(8, 12) == u32_be_bytes(1),
        r@.subrange(16, 36) == sha1_of(torrent.info_raw@),
        r@.subrange(36, 44) == peer_id_prefix_bytes(),
        r@.subrange(56, 64) == u64_be_bytes(0),
        r@.subrange(64, 72) == u64_be_bytes(torrent.size as u64),
        r@.subrange(72, 80) == u64_be_bytes(0),
        r@.subrange(80, 84) == u32_be_bytes(0),
        r@.subrange(84, 88) == u32_be_bytes(0),
        r@.subrange(92, 96) == i32_be_bytes(-1i32),
        r@.subrange(96, 98) == u16_be_bytes(port),
{
    let mut buf: Vec<u8> = Vec::new();
    push_u64_be(&mut buf, conn_id);
    push_u32_be(&mut buf, 1);
    let tid: u32 = rand::random::<u32>();
    push_u32_be(&mut buf, tid);
    let info_hash = torrent.info_hash();
    push_slice(&mut buf, info_hash.as_slice());
    let mut prefix: Vec<u8> = Vec::new();
    prefix.push(45);
    prefix.push(65);
    prefix.push(84);
    prefix.push(48);
    prefix.push(48);
    prefix.push(48);
    prefix.push(49);
    prefix.push(45);
    proof {
        assert(prefix@ =~= peer_id_prefix_bytes());
    }
    push_slice(&mut buf, prefix.as_slice());
    let tail64: u64 = rand::random::<u64>();
    let tail32: u32 = rand::random::<u32>();
    push_u64_be(&mut buf, tail64);
    push_u32_be(&mut buf, tail32);
    push_u64_be(&mut buf, 0);
    push_u64_be(&mut buf, torrent.size as u64);
    push_u64_be(&mut buf, 0);
    push_u32_be(&mut buf, 0);
    push_u32_be(&mut buf, 0);
    let key: u32 = rand::random::<u32>();
    push_u32_be(&mut buf, key);
    push_i32_be(&mut buf, -1i32);
    push_u16_be(&mut buf, port);
    proof {
        assert(buf@.subrange(0, 8) =~= u64_be_bytes(conn_id));
        assert(buf@.subrange(8, 12) =~= u32_be_bytes(1));
        assert(buf@.subrange(16, 36) =~= sha1_of(torrent.info_raw@));
        assert(buf@.subrange(36, 44) =~= peer_id_prefix_bytes());
        assert(buf@.subrange(56, 64) =~= u64_be_bytes(0));
        assert(buf@.subrange(64, 72) =~= u64_be_bytes(torrent.size as u64));
        assert(buf@.subrange(72, 80) =~= u64_be_bytes(0));
        assert(buf@.subrange(80, 84) =~= u32_be_bytes(0));
        assert(buf@.subrange(84, 88) =~= u32_be_bytes(0));
        assert(buf@.subrange(92, 96) =~= i32_be_bytes(-1i32));
        assert(buf@.subrange(96, 98) =~= u16_be_bytes(port));
    }
    buf
}

/// What one received datagram asks for: a reply to send back, or the final
/// peer list.
pub enum TrackerReply {
    Reply(Vec<u8>),
    Peers(Announce),
}

/// Classifies one tracker datagram: a connect response yields the announce
/// request to send next; anything else is decoded as the announce response.
/// A datagram too short for its kind is malformed and yields `None`.
pub fn on_socket(buf: &[u8], num_bytes: usize, torrent: &Torrent, port: u16) -> (r: Option<
    TrackerReply,
>)
    requires
        torrent.wf(),
        num_bytes <= buf@.len(),
    ensures
        num_bytes < 4 ==> r is None,
        num_bytes >= 4 && u32_from_be(buf@.subrange(0, 4)) == 0 ==> (if num_bytes >= 16 {
            r matches Some(TrackerReply::Reply(m)) && ({
                &&& m@.len() == 98
                &&& m@.subrange(0, 8) == u64_be_bytes(u64_from_be(buf@.subrange(8, 16)))
                &&& m@.subrange(8, 12) == u32_be_bytes(1)
                &&& m@.subrange(16, 36) == sha1_of(torrent.info_raw@)
                &&& m@.subrange(36, 44) == peer_id_prefix_bytes()
                &&& m@.subrange(56, 64) == u64_be_bytes(0)
                &&& m@.subrange(64, 72) == u64_be_bytes(torrent.size as u64)
                &&& m@.subrange(72, 80) == u64_be_bytes(0)
                &&& m@.subrange(80, 84) == u32_be_bytes(0)
                &&& m@.subrange(84, 88) == u32_be_bytes(0)
                &&& m@.subrange(92, 96) == i32_be_bytes(-1i32)
                &&& m@.subrange(96, 98) == u16_be_bytes(port)
            })
        } else {
            r is None
        }),
        num_bytes >= 4 && u32_from_be(buf@.subrange(0, 4)) != 0 ==> (if num_bytes >= 20 {
            r matches Some(TrackerReply::Peers(a)) && a.parsed_from(buf@, num_bytes as int)
        } else {
            r is None
        }),
{
    if num_bytes < 4 {
        return None;
    }
    let action = RespTypes::from_u32(read_u32_be(buf, 0));
    match action {
        RespTypes::Announce => {
            if num_bytes < 20 {
                return None;
            }
            Some(TrackerReply::Peers(Announce::from_buff(buf, num_bytes)))
        },
        RespTypes::Connect => {
            if num_bytes < 16 {
                return None;
            }
            let resp = Resp::from_buff(buf);
            Some(TrackerReply::Reply(build_announce_req(resp.connection_id, torrent, port)))
        },
    }
}

/// The scheme, host, and port a URL names, or `None` when the string does
/// not parse as a URL carrying both a host and an explicitly written port.
pub uninterp spec fn url_parts_of(url: Seq<char>) -> Option<(Seq<char>, Seq<char>, u16)>;

/// Relies on `url::Url::parse` and its `scheme`, `host_str`, and `port`
/// accessors: parsing depends on the string alone, and the result carries
/// the scheme, the host, and the explicitly written port as plain values.
#[verifier::external_body]
fn url_parts(addr: &str) -> (r: Option<(String, String, u16)>)
    ensures
        match r {
            Some(p) => url_parts_of(addr@) == Some((p.0@, p.1@, p.2)),
            None => url_parts_of(addr@) is None,
        },
{
    match url::Url::parse(addr) {
        Ok(u) => match (u.host_str(), u.port()) {
            (Some(h), Some(p)) => Some((u.scheme().to_string(), h.to_string(), p)),
            _ => None,
        },
        Err(_) => None,
    }
}

/// Resolves a tracker URL to the `(host, port)` endpoint to send datagrams
/// to. URLs whose scheme is not `udp`, and URLs without a host or an
/// explicit port, are skipped.
pub fn parse_udp(addr: &str) -> (r: Option<(String, u16)>)
    ensures
        match r {
            Some(hp) => url_parts_of(addr@) matches Some(p) && p.0 == "udp"@ && hp.0@ == p.1
                && hp.1 == p.2,
            None => url_parts_of(addr@) is None || (url_parts_of(addr@) matches Some(p) && p.0
                != "udp"@),
        },
{
    match url_parts(addr) {
        Some((scheme, host, port)) => {
            let udp: String = String::from_str("udp");
            if scheme == udp {
                Some((host, port))
            } else {
                None
            }
        },
        None => None,
    }
}

} // verus!
