//! A minimal BitTorrent client core, verified with Verus: a bencode codec
//! proved to round-trip, a `.torrent` reader that computes the info hash
//! over the canonical re-encoding of the `info` dictionary, the tracker
//! query and compact peer list, the peer wire framing and handshake, and a
//! per-piece downloader with SHA-1 verification. Network and file I/O live
//! outside the library and call in with plain values.

pub mod bencode;
pub mod decoder;
pub mod digits;
pub mod encoder;
pub mod helper;
pub mod meta_info;
pub mod peer_info;
pub mod peer_protocol;
pub mod piece;
pub mod roundtrip;
pub mod torrent_manager;
pub mod tracker_client;
pub mod utils;
