use vstd::prelude::*;
use vstd::string::StringExecFns;
use crate::bencode::{dict_get, dict_lookup, spec_decode, Bencode, BValue};
use crate::decoder::decode_bencoded_value;
use crate::peer_info::{parse_compact_peers, peer_addr_chars, Peer};
use crate::utils::{hex_bytes_of, int_chars_of, is_hex_seq, decimal_string_i64,
    hex_to_byte_representation};

verus! {

/// A byte the tracker query string carries unescaped: an ASCII letter or
/// digit.
pub open spec fn is_url_plain(b: u8) -> bool {
    (0x30 <= b <= 0x39) || (0x41 <= b <= 0x5a) || (0x61 <= b <= 0x7a)
}

/// An uppercase hex digit for a value below 16.
pub open spec fn hex_digit_upper(n: u8) -> char {
    if n < 10 {
        ((n + 0x30) as u8) as char
    } else {
        ((n + 0x37) as u8) as char
    }
}

/// The percent-encoding of bytes with every byte escaped except ASCII
/// letters and digits: `%XX` with uppercase hex.
pub open spec fn percent_chars_of(bytes: Seq<u8>) -> Seq<char>
    decreases bytes.len(),
{
    if bytes.len() == 0 {
        Seq::empty()
    } else {
        (if is_url_plain(bytes[0]) {
            seq![bytes[0] as char]
        } else {
            seq!['%', hex_digit_upper(bytes[0] / 16), hex_digit_upper(bytes[0] % 16)]
        }) + percent_chars_of(bytes.drop_first())
    }
}

/// Relies on percent_encoding::percent_encode with the NON_ALPHANUMERIC set:
/// ASCII letters and digits pass through; every other byte becomes `%XX`
/// with uppercase hex digits.
#[verifier::external_body]
fn percent_encode_all(data: &[u8]) -> (r: String)
    ensures
        r@ == percent_chars_of(data@),
{
    percent_encoding::percent_encode(data, percent_encoding::NON_ALPHANUMERIC).to_string()
}

/// Relies on nanoid::format with the URL-safe alphabet: an identifier of
/// exactly twenty characters, drawn at random.
#[verifier::external_body]
pub fn generate_peer_id() -> (r: String)
    ensures
        r@.len() == 20,
{
    nanoid::format(nanoid::rngs::default, &nanoid::alphabet::SAFE, 20)
}

/// The announce URL for one tracker request: the info hash percent-encoded,
/// the fixed client parameters, and `left` set to the whole length.
pub fn build_announce_url(root_url: &String, length: i64, hex_info_hash: &String, peer_id: &String)
    -> (r: String)
    requires
        is_hex_seq(hex_info_hash@),
    ensures
        r@ == root_url@ + "?info_hash="@ + percent_chars_of(hex_bytes_of(hex_info_hash@))
            + "&peer_id="@ + peer_id@ + "&port=6881&uploaded=0&downloaded=0&left="@ + int_chars_of(
            length as int,
        ) + "&compact=1"@,
{
    let info_hash_bytes = hex_to_byte_representation(hex_info_hash);
    let encoded_hash = percent_encode_all(info_hash_bytes.as_slice());
    let mut out = String::new();
    out.append(root_url.as_str());
    out.append("?info_hash=");
    out.append(encoded_hash.as_str());
    out.append("&peer_id=");
    out.append(peer_id.as_str());
    out.append("&port=6881&uploaded=0&downloaded=0&left=");
    let left = decimal_string_i64(length);
    out.append(left.as_str());
    out.append("&compact=1");
    out
}

/// The announce URL for one tracker request, under a freshly drawn peer
/// id: the shape of `build_announce_url`, with some twenty-character
/// identifier in the `peer_id` slot.
pub fn announce_url_with_fresh_peer_id(root_url: &String, length: i64, hex_info_hash: &String)
    -> (r: String)
    requires
        is_hex_seq(hex_info_hash@),
    ensures
        exists|pid: Seq<char>|
            pid.len() == 20 && r@ == root_url@ + "?info_hash="@ + percent_chars_of(
                hex_bytes_of(hex_info_hash@),
            ) + "&peer_id="@ + pid + "&port=6881&uploaded=0&downloaded=0&left="@ + int_chars_of(
                length as int,
            ) + "&compact=1"@,
{
    let peer_id = generate_peer_id();
    let r = build_announce_url(root_url, length, hex_info_hash, &peer_id);
    proof {
        assert(peer_id@.len() == 20 && r@ == root_url@ + "?info_hash="@ + percent_chars_of(
            hex_bytes_of(hex_info_hash@),
        ) + "&peer_id="@ + peer_id@ + "&port=6881&uploaded=0&downloaded=0&left="@ + int_chars_of(
            length as int,
        ) + "&compact=1"@);
    }
    r
}

/// The key under which the tracker's response lists its peers.
pub open spec fn peers_key() -> Seq<u8> {
    seq![0x70u8, 0x65u8, 0x65u8, 0x72u8, 0x73u8]
}

/// The compact peer bytes a tracker response carries: the response must be
/// one bencoded dictionary whose `peers` entry is a byte string of whole
/// six-byte entries.
pub open spec fn spec_tracker_peers(body: Seq<u8>) -> Option<Seq<u8>> {
    match spec_decode(body) {
        Some((v, n)) => {
            if n == body.len() {
                match v {
                    BValue::Dict(es) => {
                        match dict_lookup(es, peers_key()) {
                            Some(pv) => match pv {
                                BValue::Bytes(ps) => if ps.len() % 6 == 0 {
                                    Some(ps)
                                } else {
                                    None
                                },
                                _ => None,
                            },
                            None => None,
                        }
                    },
                    _ => None,
                }
            } else {
                None
            }
        },
        None => None,
    }
}

/// Why a tracker response was rejected.
#[derive(Debug)]
pub enum TrackerError {
    /// The body is not one complete bencoded value.
    BadBencode,
    /// The body is not a dictionary.
    NotADict,
    /// The dictionary has no `peers` byte string.
    MissingPeers,
    /// The peer list is not made of whole six-byte entries.
    BadPeerList,
}

/// Reads the peers out of a tracker response body. Succeeds exactly when
/// the body is one bencoded dictionary carrying a well-shaped compact
/// `peers` byte string; each reported peer spells one six-byte entry.
pub fn parse_tracker_response(body: &[u8]) -> (r: Result<Vec<Peer>, TrackerError>)
    ensures
        r is Ok <==> spec_tracker_peers(body@) is Some,
        r matches Ok(v) ==> {
            let ps = spec_tracker_peers(body@)->Some_0;
            &&& v@.len() == ps.len() / 6
            &&& forall|i: int|
                0 <= i < v@.len() ==> (#[trigger] v@[i].view_ip()) == peer_addr_chars(
                    ps.subrange(6 * i, 6 * i + 6),
                )
        },
{
    let decoded = match decode_bencoded_value(body) {
        Ok((v, end)) => {
            if end != body.len() {
                return Err(TrackerError::BadBencode);
            }
            v
        },
        Err(_) => {
            return Err(TrackerError::BadBencode);
        },
    };
    let entries = match decoded {
        Bencode::Dict(entries) => entries,
        _ => {
            return Err(TrackerError::NotADict);
        },
    };
    let mut key: Vec<u8> = Vec::new();
    key.push(0x70);
    key.push(0x65);
    key.push(0x65);
    key.push(0x72);
    key.push(0x73);
    proof {
        assert(key@ =~= peers_key());
    }
    let peers_bytes = match dict_get(&entries, key.as_slice()) {
        Some(v) => {
            match v {
                Bencode::Bytes(ps) => ps,
                _ => {
                    return Err(TrackerError::MissingPeers);
                },
            }
        },
        None => {
            return Err(TrackerError::MissingPeers);
        },
    };
    match parse_compact_peers(peers_bytes.as_slice()) {
        Ok(v) => Ok(v),
        Err(_) => Err(TrackerError::BadPeerList),
    }
}

} // verus!
