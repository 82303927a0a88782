use vstd::prelude::*;
use crate::bencode::{
    dict_get, dict_lookup, lemma_dict_lookup_wf, spec_decode, spec_encode, wf, Bencode, BValue,
};
use crate::decoder::decode_bencoded_value;
use crate::encoder::encode_value;
use crate::meta_info::Metainfo;
use crate::peer_info::Peer;
use crate::roundtrip::lemma_decode_sound;
use crate::utils::{byte_vector_to_utf8_string, calculate_sha1_hash, hex_chars_of, sha1_of,
    bytes_to_hex};

verus! {

pub open spec fn announce_key() -> Seq<u8> {
    seq![0x61u8, 0x6eu8, 0x6eu8, 0x6fu8, 0x75u8, 0x6eu8, 0x63u8, 0x65u8]
}

pub open spec fn info_key() -> Seq<u8> {
    seq![0x69u8, 0x6eu8, 0x66u8, 0x6fu8]
}

pub open spec fn length_key() -> Seq<u8> {
    seq![0x6cu8, 0x65u8, 0x6eu8, 0x67u8, 0x74u8, 0x68u8]
}

pub open spec fn piece_length_key() -> Seq<u8> {
    seq![
        0x70u8,
        0x69u8,
        0x65u8,
        0x63u8,
        0x65u8,
        0x20u8,
        0x6cu8,
        0x65u8,
        0x6eu8,
        0x67u8,
        0x74u8,
        0x68u8,
    ]
}

pub open spec fn pieces_key() -> Seq<u8> {
    seq![0x70u8, 0x69u8, 0x65u8, 0x63u8, 0x65u8, 0x73u8]
}

fn key_announce() -> (r: Vec<u8>)
    ensures
        r@ == announce_key(),
{
    let mut k: Vec<u8> = Vec::new();
    k.push(0x61);
    k.push(0x6e);
    k.push(0x6e);
    k.push(0x6f);
    k.push(0x75);
    k.push(0x6e);
    k.push(0x63);
    k.push(0x65);
    proof {
        assert(k@ =~= announce_key());
    }
    k
}

fn key_info() -> (r: Vec<u8>)
    ensures
        r@ == info_key(),
{
    let mut k: Vec<u8> = Vec::new();
    k.push(0x69);
    k.push(0x6e);
    k.push(0x66);
    k.push(0x6f);
    proof {
        assert(k@ =~= info_key());
    }
    k
}

fn key_length() -> (r: Vec<u8>)
    ensures
        r@ == length_key(),
{
    let mut k: Vec<u8> = Vec::new();
    k.push(0x6c);
    k.push(0x65);
    k.push(0x6e);
    k.push(0x67);
    k.push(0x74);
    k.push(0x68);
    proof {
        assert(k@ =~= length_key());
    }
    k
}

fn key_piece_length() -> (r: Vec<u8>)
    ensures
        r@ == piece_length_key(),
{
    let mut k: Vec<u8> = Vec::new();
    k.push(0x70);
    k.push(0x69);
    k.push(0x65);
    k.push(0x63);
    k.push(0x65);
    k.push(0x20);
    k.push(0x6c);
    k.push(0x65);
    k.push(0x6e);
    k.push(0x67);
    k.push(0x74);
    k.push(0x68);
    proof {
        assert(k@ =~= piece_length_key());
    }
    k
}

fn key_pieces() -> (r: Vec<u8>)
    ensures
        r@ == pieces_key(),
{
    let mut k: Vec<u8> = Vec::new();
    k.push(0x70);
    k.push(0x69);
    k.push(0x65);
    k.push(0x63);
    k.push(0x65);
    k.push(0x73);
    proof {
        assert(k@ =~= pieces_key());
    }
    k
}

/// What a well-formed `.torrent` file holds, read off its bencoded tree.
pub struct TorrentFields {
    pub announce: Seq<u8>,
    pub info: BValue,
    pub length: int,
    pub piece_length: int,
    pub pieces: Seq<u8>,
}

/// Reads the torrent fields out of raw `.torrent` bytes: the bytes must be
/// one complete bencoded dictionary; `announce` must be UTF-8 text; the
/// `info` dictionary must carry a positive `length`, a positive
/// `piece length`, and a `pieces` string of whole 20-byte digests whose
/// count matches the number of pieces the length demands.
pub open spec fn spec_torrent_fields(data: Seq<u8>) -> Option<TorrentFields> {
    match spec_decode(data) {
        Some((v, n)) => {
            if n == data.len() {
                match v {
                    BValue::Dict(es) => {
                        match (dict_lookup(es, announce_key()), dict_lookup(es, info_key())) {
                            (Some(BValue::Bytes(a)), Some(BValue::Dict(ies))) => {
                                if vstd::utf8::valid_utf8(a) {
                                    match (
                                        dict_lookup(ies, length_key()),
                                        dict_lookup(ies, piece_length_key()),
                                        dict_lookup(ies, pieces_key()),
                                    ) {
                                        (
                                            Some(BValue::Int(l)),
                                            Some(BValue::Int(pl)),
                                            Some(BValue::Bytes(ps)),
                                        ) => {
                                            if l > 0 && pl > 0 && ps.len() % 20 == 0 && ps.len()
                                                / 20 == (l + pl - 1) / pl {
                                                Some(
                                                    TorrentFields {
                                                        announce: a,
                                                        info: BValue::Dict(ies),
                                                        length: l,
                                                        piece_length: pl,
                                                        pieces: ps,
                                                    },
                                                )
                                            } else {
                                                None
                                            }
                                        },
                                        _ => None,
                                    }
                                } else {
                                    None
                                }
                            },
                            _ => None,
                        }
                    },
                    _ => None,
                }
            } else {
                None
            }
        },
        None => None,
    }
}

/// Why a `.torrent` file was rejected.
#[derive(Debug)]
pub enum TorrentError {
    /// The bytes are not one complete bencoded value.
    BadBencode,
    /// The top-level value is not a dictionary.
    NotADict,
    /// `announce` is missing or not a byte string.
    MissingAnnounce,
    /// `announce` is not UTF-8 text.
    AnnounceNotUtf8,
    /// `info` is missing or not a dictionary.
    MissingInfo,
    /// `info.length` is missing, not an integer, or not positive.
    BadLength,
    /// `info.piece length` is missing, not an integer, or not positive.
    BadPieceLength,
    /// `info.pieces` is missing, not a byte string, not whole 20-byte
    /// digests, or its digest count does not match the length.
    BadPieces,
}

/// The agreement a parsed record keeps with the file it was read from.
pub open spec fn metainfo_matches(m: Metainfo, tf: TorrentFields) -> bool {
    &&& (m.view_tracker_url() matches Some(u) && u@ == vstd::utf8::decode_utf8(tf.announce))
    &&& (m.view_length() matches Some(l) && l as int == tf.length)
    &&& (m.view_piece_length() matches Some(pl) && pl as int == tf.piece_length)
    &&& (m.view_hash() matches Some(h) && h@ == hex_chars_of(sha1_of(spec_encode(tf.info))))
    &&& (m.view_piece_hashes() matches Some(hs) && hs@.len() == tf.pieces.len() / 20 && (forall|
        i: int,
    |
        0 <= i < hs@.len() ==> (#[trigger] hs@[i])@ == hex_chars_of(
            tf.pieces.subrange(20 * i, 20 * i + 20),
        )))
}

/// Reads a `.torrent` file into a `Metainfo` record. Succeeds exactly on
/// the files `spec_torrent_fields` accepts; the record then reports the
/// tracker URL, the lengths, the hex info hash of the canonically
/// re-encoded `info` dictionary, and the hex digest of every piece.
pub fn parse_metainfo(data: &[u8]) -> (r: Result<Metainfo, TorrentError>)
    ensures
        r is Ok <==> spec_torrent_fields(data@) is Some,
        r matches Ok(m) ==> metainfo_matches(m, spec_torrent_fields(data@)->Some_0),
{
    let root = match decode_bencoded_value(data) {
        Ok((v, end)) => {
            if end != data.len() {
                return Err(TorrentError::BadBencode);
            }
            v
        },
        Err(_) => {
            return Err(TorrentError::BadBencode);
        },
    };
    proof {
        lemma_decode_sound(data@);
    }
    let entries = match root {
        Bencode::Dict(entries) => entries,
        _ => {
            return Err(TorrentError::NotADict);
        },
    };
    let ka = key_announce();
    let announce = match dict_get(&entries, ka.as_slice()) {
        Some(v) => {
            match v {
                Bencode::Bytes(a) => a,
                _ => {
                    return Err(TorrentError::MissingAnnounce);
                },
            }
        },
        None => {
            return Err(TorrentError::MissingAnnounce);
        },
    };
    let ki = key_info();
    let info = match dict_get(&entries, ki.as_slice()) {
        Some(v) => {
            match v {
                Bencode::Dict(_) => v,
                _ => {
                    return Err(TorrentError::MissingInfo);
                },
            }
        },
        None => {
            return Err(TorrentError::MissingInfo);
        },
    };
    let info_entries = match info {
        Bencode::Dict(ies) => ies,
        _ => {
            return Err(TorrentError::MissingInfo);
        },
    };
    let url = match byte_vector_to_utf8_string(announce.clone()) {
        Ok(u) => u,
        Err(_) => {
            return Err(TorrentError::AnnounceNotUtf8);
        },
    };
    let kl = key_length();
    let length = match dict_get(info_entries, kl.as_slice()) {
        Some(v) => {
            match v {
                Bencode::Int(l) => *l,
                _ => {
                    return Err(TorrentError::BadLength);
                },
            }
        },
        None => {
            return Err(TorrentError::BadLength);
        },
    };
    if length <= 0 {
        return Err(TorrentError::BadLength);
    }
    let kp = key_piece_length();
    let piece_length = match dict_get(info_entries, kp.as_slice()) {
        Some(v) => {
            match v {
                Bencode::Int(pl) => *pl,
                _ => {
                    return Err(TorrentError::BadPieceLength);
                },
            }
        },
        None => {
            return Err(TorrentError::BadPieceLength);
        },
    };
    if piece_length <= 0 {
        return Err(TorrentError::BadPieceLength);
    }
    let ks = key_pieces();
    let pieces = match dict_get(info_entries, ks.as_slice()) {
        Some(v) => {
            match v {
                Bencode::Bytes(ps) => ps,
                _ => {
                    return Err(TorrentError::BadPieces);
                },
            }
        },
        None => {
            return Err(TorrentError::BadPieces);
        },
    };
    if pieces.len() % 20 != 0 {
        return Err(TorrentError::BadPieces);
    }
    let chunk_count: u64 = (pieces.len() / 20) as u64;
    let expected_count: u64 = ((length as u64) + (piece_length as u64) - 1) / (piece_length as u64);
    if chunk_count != expected_count {
        return Err(TorrentError::BadPieces);
    }
    proof {
        let es = crate::bencode::deep_view_entries(entries@);
        assert(wf(BValue::Dict(es)));
        lemma_dict_lookup_wf(es, info_key());
        assert(wf(info.deep_view()));
    }
    let encoded_info = encode_value(info);
    let hash = calculate_sha1_hash(encoded_info);
    let mut piece_hashes: Vec<String> = Vec::new();
    let n20 = pieces.len() / 20;
    proof {
        vstd::arithmetic::div_mod::lemma_fundamental_div_mod(pieces@.len() as int, 20);
    }
    let mut i: usize = 0;
    while i < n20
        invariant
            0 <= i <= n20,
            n20 == pieces@.len() / 20,
            pieces@.len() % 20 == 0,
            20 * n20 == pieces@.len(),
            pieces@.len() <= usize::MAX,
            piece_hashes@.len() == i,
            forall|k: int|
                0 <= k < i ==> (#[trigger] piece_hashes@[k])@ == hex_chars_of(
                    pieces@.subrange(20 * k, 20 * k + 20),
                ),
        decreases n20 - i,
    {
        let start = 20 * i;
        let chunk = vstd::slice::slice_subrange(pieces.as_slice(), start, start + 20);
        let hex = bytes_to_hex(chunk);
        piece_hashes.push(hex);
        i = i + 1;
    }
    let mut m = Metainfo::new();
    m.set_tracker_url(url);
    m.set_length(length);
    m.set_piece_length(piece_length);
    m.set_hash(hash);
    m.set_piece_hashes(piece_hashes);
    Ok(m)
}

/// Composes the parsed metainfo and the tracker's peer list, and answers
/// questions the command surface asks.
pub struct TorrentManager {
    metainfo: Option<Metainfo>,
    peers: Option<Vec<Peer>>,
}

impl TorrentManager {
    pub closed spec fn view_metainfo(&self) -> Option<Metainfo> {
        self.metainfo
    }

    pub closed spec fn view_peers(&self) -> Option<Vec<Peer>> {
        self.peers
    }

    pub fn new() -> (r: Self)
        ensures
            r.view_metainfo() is None,
            r.view_peers() is None,
    {
        TorrentManager { metainfo: None, peers: None }
    }

    /// Reads a `.torrent` file and keeps its record.
    pub fn parse_meta_info_file(&mut self, data: &[u8]) -> (r: Result<(), TorrentError>)
        ensures
            r is Ok <==> spec_torrent_fields(data@) is Some,
            r matches Ok(()) ==> final(self).view_metainfo() matches Some(m) && metainfo_matches(
                m,
                spec_torrent_fields(data@)->Some_0,
            ),
            r is Err ==> *final(self) == *old(self),
            final(self).view_peers() == old(self).view_peers(),
    {
        match parse_metainfo(data) {
            Ok(m) => {
                self.metainfo = Some(m);
                Ok(())
            },
            Err(e) => Err(e),
        }
    }

    pub fn get_metainfo(&self) -> (r: &Option<Metainfo>)
        ensures
            *r == self.view_metainfo(),
    {
        &self.metainfo
    }

    /// Keeps the peer list the tracker reported.
    pub fn set_peers(&mut self, peers: Vec<Peer>)
        ensures
            final(self).view_peers() == Some(peers),
            final(self).view_metainfo() == old(self).view_metainfo(),
    {
        self.peers = Some(peers);
    }

    pub fn get_peers(&self) -> (r: &Option<Vec<Peer>>)
        ensures
            *r == self.view_peers(),
    {
        &self.peers
    }

    /// The peer this client downloads from: the second reported peer when
    /// there is one, else the first, else none.
    pub fn pick_peer(&self) -> (r: Option<&Peer>)
        ensures
            match r {
                Some(p) => self.view_peers() matches Some(ps) && ps@.len() > 0 && *p == (
                if ps@.len() > 1 {
                    ps@[1]
                } else {
                    ps@[0]
                }),
                None => self.view_peers() is None || self.view_peers()->Some_0@.len() == 0,
            },
    {
        match &self.peers {
            Some(ps) => {
                if ps.len() > 1 {
                    Some(&ps[1])
                } else if ps.len() == 1 {
                    Some(&ps[0])
                } else {
                    None
                }
            },
            None => None,
        }
    }
}

} // verus!
