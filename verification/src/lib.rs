//! Protocol and coordination engine of a BitTorrent client: the bencode
//! codec, metainfo and magnet parsing, tracker packets and sessions, the peer
//! wire protocol, the piece scheduler and the on-disk layout arithmetic.
//!
//! Everything here works on plain values. Sockets, files, clocks and DNS are
//! left to the caller, which feeds bytes and timestamps in and carries the
//! returned actions out.

pub mod text;
pub mod helpers;
pub mod wire;
pub mod bencode;
pub mod hash;
pub mod urls;
pub mod entropy;
pub mod data;
pub mod metainfo;
pub mod framing;
pub mod pwp;
pub mod udp;
pub mod bitmap;
pub mod piece_map;
pub mod fs;
pub mod piece_manager;
pub mod responses;
pub mod tracker_session;
pub mod tracker;
pub mod magnet;
pub mod extensions;
pub mod peer;
pub mod scrape;
pub mod writer;
pub mod krpc;
pub mod laws;

use vstd::prelude::*;

verus! {

/// Size of a transfer block on the peer wire, in bytes (16 KiB).
pub const BLOCK_SIZE: usize = 16384;

/// Port the client listens on and announces to trackers.
pub const BITTORRENT_PORT: u16 = 1317;

} // verus!
