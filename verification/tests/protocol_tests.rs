use sha1::Digest;
use torrent_client::peer_protocol::{
    after_send_interested, build_handshake, build_message, build_request_payload, on_receive,
    parse_frame_length, parse_handshake, parse_piece_payload, split_message, SessionState,
};
use torrent_client::piece::{concat_all, piece_length_for_index, PieceDownload};

#[test]
fn handshake_round_trip() {
    let info_hash = vec![0x11u8; 20];
    let peer_id: Vec<u8> = (0..20u8).collect();
    let frame = build_handshake(&info_hash, &peer_id);
    assert_eq!(frame.len(), 68);
    assert_eq!(frame[0], 19);
    assert_eq!(&frame[1..20], b"BitTorrent protocol");
    assert_eq!(&frame[20..28], &[0u8; 8]);
    assert_eq!(&frame[28..48], info_hash.as_slice());
    assert_eq!(&frame[48..68], peer_id.as_slice());
    // The twenty-byte suffix of the remote frame is reported as the remote
    // peer id, exactly as it arrived.
    let remote_id = parse_handshake(&frame, &info_hash).expect("matching handshake");
    assert_eq!(remote_id, peer_id);
}

#[test]
fn handshake_rejects_mismatches() {
    let info_hash = vec![0x11u8; 20];
    let other_hash = vec![0x22u8; 20];
    let peer_id = vec![0x33u8; 20];
    let frame = build_handshake(&info_hash, &peer_id);
    assert!(parse_handshake(&frame, &other_hash).is_err());
    let mut short = frame.clone();
    short.pop();
    assert!(parse_handshake(&short, &info_hash).is_err());
    let mut wrong_name = frame.clone();
    wrong_name[5] = b'x';
    assert!(parse_handshake(&wrong_name, &info_hash).is_err());
}

#[test]
fn message_framing() {
    let payload = vec![1u8, 2, 3];
    let frame = build_message(7, &payload);
    assert_eq!(frame, vec![0, 0, 0, 4, 7, 1, 2, 3]);
    let prefix = frame[0..4].to_vec();
    assert_eq!(parse_frame_length(&prefix), 4);
    let body = frame[4..].to_vec();
    let (id, got) = split_message(&body);
    assert_eq!(id, 7);
    assert_eq!(got, payload);
}

#[test]
fn request_payload_layout() {
    let p = build_request_payload(1, 0x4000, 16384);
    assert_eq!(
        p,
        vec![0, 0, 0, 1, 0, 0, 0x40, 0, 0, 0, 0x40, 0]
    );
}

#[test]
fn piece_payload_layout() {
    let mut payload = vec![0, 0, 0, 2, 0, 0, 0x40, 0];
    payload.extend_from_slice(b"blockdata");
    let (index, begin, block) = parse_piece_payload(&payload).expect("eight-byte header");
    assert_eq!(index, 2);
    assert_eq!(begin, 0x4000);
    assert_eq!(block, b"blockdata".to_vec());
    assert!(parse_piece_payload(&vec![0, 0, 0]).is_err());
}

#[test]
fn negotiation_follows_the_expected_exchange() {
    // The peer sends its bitfield, ignores `interested`, then unchokes.
    let state = SessionState::Handshaken;
    let state = on_receive(state, Some(5)).expect("bitfield moves the session on");
    assert_eq!(state, SessionState::BitfieldReceived);
    let state = after_send_interested(state).expect("interest may be declared");
    assert_eq!(state, SessionState::Interested);
    // Keep-alives and have messages change nothing while waiting.
    let state = on_receive(state, None).expect("keep-alive is tolerated");
    let state = on_receive(state, Some(4)).expect("have is tolerated");
    let state = on_receive(state, Some(9)).expect("port is tolerated");
    assert_eq!(state, SessionState::Interested);
    let state = on_receive(state, Some(1)).expect("unchoke rewards interest");
    assert_eq!(state, SessionState::Unchoked);
}

#[test]
fn negotiation_rejects_unexpected_messages() {
    assert!(on_receive(SessionState::Handshaken, Some(1)).is_err());
    assert!(on_receive(SessionState::Interested, Some(5)).is_err());
    assert!(on_receive(SessionState::Unchoked, Some(0)).is_err());
    assert!(after_send_interested(SessionState::Handshaken).is_err());
}

#[test]
fn download_block_returns_bytes_verbatim() {
    // One full 16384-byte block makes up the whole piece.
    let block: Vec<u8> = (0..16384u32).map(|i| (i % 251) as u8).collect();
    let mut dl = PieceDownload::new(0, 16384);
    let (index, begin, len) = dl.next_request().expect("one block to fetch");
    assert_eq!((index, begin, len), (0, 0, 16384));
    dl.accept_block(0, 0, &block).expect("the block answers the request");
    assert!(dl.next_request().is_none());
    let expected = hex::encode(sha1::Sha1::digest(&block));
    let piece = dl.into_piece(&expected).expect("hash matches");
    assert_eq!(piece, block);
}

#[test]
fn piece_download_walks_blocks_in_order() {
    // 20000 bytes: one full block then a 3616-byte tail.
    let mut dl = PieceDownload::new(3, 20000);
    let (index, begin, len) = dl.next_request().unwrap();
    assert_eq!((index, begin, len), (3, 0, 16384));
    let first = vec![0xaau8; 16384];
    dl.accept_block(3, 0, &first).unwrap();
    let (index, begin, len) = dl.next_request().unwrap();
    assert_eq!((index, begin, len), (3, 16384, 3616));
    let second = vec![0xbbu8; 3616];
    dl.accept_block(3, 16384, &second).unwrap();
    assert!(dl.next_request().is_none());
    let mut whole = first.clone();
    whole.extend_from_slice(&second);
    let good = hex::encode(sha1::Sha1::digest(&whole));
    let piece = dl.into_piece(&good).unwrap();
    assert_eq!(piece, whole);
}

#[test]
fn piece_download_rejects_wrong_blocks() {
    let mut dl = PieceDownload::new(1, 16384);
    let block = vec![0u8; 16384];
    assert!(dl.accept_block(2, 0, &block).is_err());
    assert!(dl.accept_block(1, 100, &block).is_err());
    assert!(dl.accept_block(1, 0, &vec![0u8; 100]).is_err());
    dl.accept_block(1, 0, &block).unwrap();
    let wrong = "0000000000000000000000000000000000000000".to_string();
    assert!(dl.into_piece(&wrong).is_err());
}

#[test]
fn incomplete_piece_is_refused() {
    let dl = PieceDownload::new(0, 16384);
    let any = hex::encode(sha1::Sha1::digest(b""));
    assert!(dl.into_piece(&any).is_err());
}

#[test]
fn piece_lengths_partition_the_file() {
    // length 12345 with piece length 512: 25 pieces, the last 57 bytes.
    assert_eq!(piece_length_for_index(12345, 512, 25, 0), 512);
    assert_eq!(piece_length_for_index(12345, 512, 25, 23), 512);
    assert_eq!(piece_length_for_index(12345, 512, 25, 24), 57);
    // An evenly divided file keeps full pieces to the end.
    assert_eq!(piece_length_for_index(1024, 512, 2, 1), 512);
    let mut total: u64 = 0;
    for i in 0..25 {
        total += piece_length_for_index(12345, 512, 25, i) as u64;
    }
    assert_eq!(total, 12345);
}

#[test]
fn concatenated_pieces_form_the_file() {
    let pieces = vec![vec![1u8, 2, 3], vec![4u8, 5], vec![6u8]];
    assert_eq!(concat_all(&pieces), vec![1, 2, 3, 4, 5, 6]);
    assert_eq!(concat_all(&Vec::new()), Vec::<u8>::new());
}
