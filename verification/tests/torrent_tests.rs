use sha1::Digest;
use torrent_client::bencode::Bencode;
use torrent_client::decoder::decode_complete;
use torrent_client::encoder::encode_value;
use torrent_client::meta_info::Metainfo;
use torrent_client::torrent_manager::{parse_metainfo, TorrentManager};
use torrent_client::utils::{
    byte_vector_to_utf8_string, bytes_to_hex, calculate_sha1_hash, calculate_sha1_hash_with_ref,
    hex_to_byte_representation,
};

fn build_torrent(announce: &str, length: i64, piece_length: i64, pieces: &[u8]) -> Vec<u8> {
    let info = Bencode::Dict(vec![
        (b"length".to_vec(), Bencode::Int(length)),
        (b"piece length".to_vec(), Bencode::Int(piece_length)),
        (b"pieces".to_vec(), Bencode::Bytes(pieces.to_vec())),
    ]);
    let root = Bencode::Dict(vec![
        (b"announce".to_vec(), Bencode::Bytes(announce.as_bytes().to_vec())),
        (b"info".to_vec(), info),
    ]);
    encode_value(&root)
}

#[test]
fn test_parse_meta_info_file() {
    // length 12345 with piece length 512 takes 25 pieces, so `pieces` must
    // hold 25 twenty-byte digests.
    let pieces: Vec<u8> = (0..500u32).map(|i| (i % 251) as u8).collect();
    let data = build_torrent("http://tracker.example.com/announce", 12345, 512, &pieces);
    let mut manager = TorrentManager::new();
    assert!(manager.parse_meta_info_file(&data).is_ok());
    let m = manager.get_metainfo().as_ref().unwrap();
    assert_eq!(
        m.get_tracker_url().as_ref().unwrap(),
        "http://tracker.example.com/announce"
    );
    assert_eq!(m.get_length().unwrap(), 12345);
    assert_eq!(m.get_piece_length().unwrap(), 512);
    let hashes = m.get_piece_hashes().as_ref().unwrap();
    assert_eq!(hashes.len(), 25);
    assert_eq!(hashes[0], hex::encode(&pieces[0..20]));
    assert_eq!(hashes[24], hex::encode(&pieces[480..500]));
}

#[test]
fn parse_tolerates_extra_info_fields() {
    // A `name` entry (or any other extra field) rides along untouched.
    let info = Bencode::Dict(vec![
        (b"length".to_vec(), Bencode::Int(40)),
        (b"name".to_vec(), Bencode::Bytes(b"hello".to_vec())),
        (b"piece length".to_vec(), Bencode::Int(20)),
        (b"pieces".to_vec(), Bencode::Bytes(vec![9u8; 40])),
    ]);
    let root = Bencode::Dict(vec![
        (b"announce".to_vec(), Bencode::Bytes(b"http://t".to_vec())),
        (b"info".to_vec(), info),
    ]);
    let m = parse_metainfo(&encode_value(&root)).expect("extra fields are fine");
    assert_eq!(m.get_length().unwrap(), 40);
    assert_eq!(m.get_piece_hashes().as_ref().unwrap().len(), 2);
}

#[test]
fn parse_rejects_mismatched_piece_count() {
    // 18 bytes of `pieces` is not a whole number of 20-byte digests.
    let data = build_torrent("http://t", 12345, 512, b"piecehashesexample");
    assert!(parse_metainfo(&data).is_err());
    // A single digest cannot cover 25 pieces either.
    let one = [7u8; 20];
    let data = build_torrent("http://t", 12345, 512, &one);
    assert!(parse_metainfo(&data).is_err());
}

#[test]
fn parse_rejects_structural_errors() {
    assert!(parse_metainfo(b"i42e").is_err());
    assert!(parse_metainfo(b"not bencode").is_err());
    // No announce.
    let info = Bencode::Dict(vec![
        (b"length".to_vec(), Bencode::Int(20)),
        (b"piece length".to_vec(), Bencode::Int(20)),
        (b"pieces".to_vec(), Bencode::Bytes(vec![0; 20])),
    ]);
    let root = Bencode::Dict(vec![(b"info".to_vec(), info)]);
    assert!(parse_metainfo(&encode_value(&root)).is_err());
    // Zero length.
    let data = build_torrent("http://t", 0, 512, &[0u8; 20]);
    assert!(parse_metainfo(&data).is_err());
}

#[test]
fn info_hash_matches_sha1_of_info_literal() {
    // The canonical encoding of the info dictionary is hashed; for this
    // torrent that encoding is the literal byte run below.
    let twenty = [0xabu8; 20];
    let mut info_literal = b"d6:lengthi12345e4:name5:hello12:piece lengthi512e6:pieces20:".to_vec();
    info_literal.extend_from_slice(&twenty);
    info_literal.push(b'e');
    let mut torrent = b"d8:announce8:http://t4:info".to_vec();
    torrent.extend_from_slice(&info_literal);
    torrent.push(b'e');
    let root = decode_complete(&torrent).expect("canonical torrent decodes");
    let entries = match root {
        Bencode::Dict(es) => es,
        _ => panic!("torrent must be a dictionary"),
    };
    let info = &entries
        .iter()
        .find(|e| e.0 == b"info".to_vec())
        .expect("info present")
        .1;
    let encoded_info = encode_value(info);
    assert_eq!(encoded_info, info_literal);
    let expected = hex::encode(sha1::Sha1::digest(&info_literal));
    assert_eq!(calculate_sha1_hash(encoded_info), expected);
}

#[test]
fn sha1_hex_of_known_input() {
    assert_eq!(
        calculate_sha1_hash(b"abc".to_vec()),
        "a9993e364706816aba3e25717850c26c9cd0d89d"
    );
    assert_eq!(
        calculate_sha1_hash_with_ref(&b"abc".to_vec()),
        "a9993e364706816aba3e25717850c26c9cd0d89d"
    );
}

#[test]
fn hex_round_trip() {
    assert_eq!(bytes_to_hex(&[0xde, 0xad, 0x01]), "dead01");
    assert_eq!(
        hex_to_byte_representation(&"dead01".to_string()),
        vec![0xde, 0xad, 0x01]
    );
    assert_eq!(
        hex_to_byte_representation(&"DEAD01".to_string()),
        vec![0xde, 0xad, 0x01]
    );
}

#[test]
fn utf8_conversion() {
    assert_eq!(
        byte_vector_to_utf8_string(b"hello".to_vec()).unwrap(),
        "hello"
    );
    assert!(byte_vector_to_utf8_string(vec![0xff, 0xfe]).is_err());
}

#[test]
fn formatted_info_lines() {
    let mut m = Metainfo::new();
    m.set_tracker_url("http://t".to_string());
    m.set_length(42);
    m.set_hash("aa".to_string());
    m.set_piece_length(7);
    m.set_piece_hashes(vec!["h1".to_string(), "h2".to_string()]);
    let text = m.get_formatted_info();
    assert_eq!(
        text,
        "Tracker URL: http://t\nLength: 42\nInfo Hash: aa\nPiece Length: 7\nPiece Hashes:\nh1\nh2\n"
    );
    let empty = Metainfo::new();
    assert_eq!(
        empty.get_formatted_info(),
        "Tracker URL: N/A\nLength: N/A\nInfo Hash: N/A\nPiece Length: N/A\nPiece Hashes:\nN/A\n"
    );
}
