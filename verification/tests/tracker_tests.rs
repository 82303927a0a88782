use torrent_client::helper::create_request_url;
use torrent_client::peer_info::{parse_compact_peers, Peer};
use torrent_client::tracker_client::{
    build_announce_url, generate_peer_id, parse_tracker_response,
};

#[test]
fn compact_peer_list() {
    let peers = b"\xC0\xA8\x00\x01\x1A\xE1\x0A\x00\x00\x02\x1A\xE1";
    let parsed = parse_compact_peers(peers).expect("twelve bytes are two peers");
    assert_eq!(parsed.len(), 2);
    assert_eq!(parsed[0].get_ip_address(), "192.168.0.1:6881");
    assert_eq!(parsed[1].get_ip_address(), "10.0.0.2:6881");
}

#[test]
fn compact_peer_list_rejects_ragged_length() {
    assert!(parse_compact_peers(b"\x01\x02\x03\x04\x05").is_err());
    assert!(parse_compact_peers(b"\x01\x02\x03\x04\x05\x06\x07").is_err());
    assert_eq!(parse_compact_peers(b"").unwrap().len(), 0);
}

#[test]
fn tracker_response_peers() {
    let mut body = b"d8:intervali1800e5:peers12:".to_vec();
    body.extend_from_slice(b"\xC0\xA8\x00\x01\x1A\xE1\x0A\x00\x00\x02\x1A\xE1");
    body.push(b'e');
    let peers = parse_tracker_response(&body).expect("well-formed response");
    assert_eq!(peers.len(), 2);
    assert_eq!(peers[0].get_ip_address(), "192.168.0.1:6881");
    assert_eq!(peers[1].get_ip_address(), "10.0.0.2:6881");
}

#[test]
fn tracker_response_errors() {
    assert!(parse_tracker_response(b"not bencode").is_err());
    assert!(parse_tracker_response(b"i42e").is_err());
    assert!(parse_tracker_response(b"d8:intervali1800ee").is_err());
    // peers not a multiple of six bytes
    assert!(parse_tracker_response(b"d5:peers5:abcdee").is_err());
}

#[test]
fn announce_url_shape() {
    let url = build_announce_url(
        &"http://tracker/announce".to_string(),
        12345,
        &"ff00a1".to_string(),
        &"PEERPEERPEERPEERPEER".to_string(),
    );
    assert_eq!(
        url,
        "http://tracker/announce?info_hash=%FF%00%A1&peer_id=PEERPEERPEERPEERPEER\
         &port=6881&uploaded=0&downloaded=0&left=12345&compact=1"
    );
}

#[test]
fn request_url_joins_params() {
    let params = vec![
        ("a".to_string(), "1".to_string()),
        ("b".to_string(), "two".to_string()),
    ];
    assert_eq!(
        create_request_url("http://x".to_string(), params),
        "http://x?a=1&b=two"
    );
    assert_eq!(
        create_request_url("http://x".to_string(), vec![]),
        "http://x?"
    );
}

#[test]
fn peer_id_is_twenty_characters() {
    let id = generate_peer_id();
    assert_eq!(id.chars().count(), 20);
    let other = Peer::new("1.2.3.4:5".to_string());
    assert_eq!(other.get_ip_address(), "1.2.3.4:5");
}
