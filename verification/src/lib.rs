use vstd::prelude::*;

pub mod digest;
pub mod download;
pub mod message;
pub mod peers;
pub mod piece;
pub mod queue;
pub mod endian;
pub mod file;
pub mod rng;
pub mod torrent_parser;
pub mod tracker;
pub mod worker;

verus! {

/// An IPv4 peer endpoint: four address octets and a TCP port.
pub type Address = ([u8; 4], u16);

} // verus!
