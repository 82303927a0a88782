use vstd::prelude::*;
use crate::bencode::bytes_eq;

verus! {

/// The nineteen ASCII bytes of `BitTorrent protocol`.
pub open spec fn protocol_name_bytes() -> Seq<u8> {
    seq![
        0x42u8,
        0x69u8,
        0x74u8,
        0x54u8,
        0x6fu8,
        0x72u8,
        0x72u8,
        0x65u8,
        0x6eu8,
        0x74u8,
        0x20u8,
        0x70u8,
        0x72u8,
        0x6fu8,
        0x74u8,
        0x6fu8,
        0x63u8,
        0x6fu8,
        0x6cu8,
    ]
}

fn protocol_name() -> (r: Vec<u8>)
    ensures
        r@ == protocol_name_bytes(),
{
    let mut k: Vec<u8> = Vec::new();
    k.push(0x42);
    k.push(0x69);
    k.push(0x74);
    k.push(0x54);
    k.push(0x6f);
    k.push(0x72);
    k.push(0x72);
    k.push(0x65);
    k.push(0x6e);
    k.push(0x74);
    k.push(0x20);
    k.push(0x70);
    k.push(0x72);
    k.push(0x6f);
    k.push(0x74);
    k.push(0x6f);
    k.push(0x63);
    k.push(0x6f);
    k.push(0x6c);
    proof {
        assert(k@ =~= protocol_name_bytes());
    }
    k
}

/// The 68-byte handshake frame: the protocol name length, the protocol
/// name, eight reserved zeros, the info hash and the local peer id.
pub open spec fn handshake_bytes(info_hash: Seq<u8>, peer_id: Seq<u8>) -> Seq<u8> {
    seq![19u8] + protocol_name_bytes() + seq![0u8, 0u8, 0u8, 0u8, 0u8, 0u8, 0u8, 0u8] + info_hash
        + peer_id
}

/// Builds the handshake frame this client sends right after connecting.
pub fn build_handshake(info_hash: &Vec<u8>, peer_id: &Vec<u8>) -> (r: Vec<u8>)
    requires
        info_hash@.len() == 20,
        peer_id@.len() == 20,
    ensures
        r@ == handshake_bytes(info_hash@, peer_id@),
        r@.len() == 68,
{
    let mut r: Vec<u8> = Vec::new();
    r.push(19);
    let name = protocol_name();
    r.extend_from_slice(name.as_slice());
    let mut i: usize = 0;
    while i < 8
        invariant
            0 <= i <= 8,
            r@ == seq![19u8] + protocol_name_bytes() + Seq::new((i as nat), |_j: int| 0u8),
        decreases 8 - i,
    {
        r.push(0);
        proof {
            assert(Seq::new((i + 1) as nat, |_j: int| 0u8) =~= Seq::new(
                i as nat,
                |_j: int| 0u8,
            ).push(0u8));
        }
        i = i + 1;
    }
    r.extend_from_slice(info_hash.as_slice());
    r.extend_from_slice(peer_id.as_slice());
    proof {
        assert(Seq::new(8nat, |_j: int| 0u8) =~= seq![0u8, 0u8, 0u8, 0u8, 0u8, 0u8, 0u8, 0u8]);
        assert(r@ =~= handshake_bytes(info_hash@, peer_id@));
    }
    r
}

/// Whether a remote handshake frame is acceptable for `info_hash`: exactly
/// 68 bytes, the right protocol name, and the same info hash.
pub open spec fn handshake_ok(frame: Seq<u8>, info_hash: Seq<u8>) -> bool {
    &&& frame.len() == 68
    &&& frame[0] == 19
    &&& frame.subrange(1, 20) == protocol_name_bytes()
    &&& frame.subrange(28, 48) == info_hash
}

/// The handshake was refused: wrong length, wrong protocol name, or an
/// info hash other than the one this session serves.
#[derive(Debug)]
pub struct HandshakeError;

/// Checks a remote handshake frame and hands back the remote peer id: the
/// frame's final twenty bytes, exactly as they arrived.
pub fn parse_handshake(frame: &Vec<u8>, info_hash: &Vec<u8>) -> (r: Result<
    Vec<u8>,
    HandshakeError,
>)
    requires
        info_hash@.len() == 20,
    ensures
        r is Ok <==> handshake_ok(frame@, info_hash@),
        r matches Ok(peer_id) ==> peer_id@ == frame@.subrange(48, 68),
{
    if frame.len() != 68 {
        return Err(HandshakeError);
    }
    if frame[0] != 19 {
        return Err(HandshakeError);
    }
    let name = protocol_name();
    let got_name = vstd::slice::slice_subrange(frame.as_slice(), 1, 20);
    if !bytes_eq(got_name, name.as_slice()) {
        return Err(HandshakeError);
    }
    let got_hash = vstd::slice::slice_subrange(frame.as_slice(), 28, 48);
    if !bytes_eq(got_hash, info_hash.as_slice()) {
        return Err(HandshakeError);
    }
    let peer_id = vstd::slice::slice_to_vec(vstd::slice::slice_subrange(frame.as_slice(), 48, 68));
    Ok(peer_id)
}

/// The four big-endian bytes of a 32-bit length prefix.
pub open spec fn u32_be_bytes(n: u32) -> Seq<u8> {
    seq![(n >> 24) as u8, ((n >> 16) & 0xff) as u8, ((n >> 8) & 0xff) as u8, (n & 0xff) as u8]
}

/// The 32-bit value four big-endian bytes spell.
pub open spec fn be32_of(s: Seq<u8>) -> u32 {
    ((s[0] as u32) << 24 | (s[1] as u32) << 16 | (s[2] as u32) << 8 | (s[3] as u32)) as u32
}

/// Writing a length prefix and reading it back returns the same value.
pub proof fn lemma_u32_be_round_trip(n: u32)
    ensures
        be32_of(u32_be_bytes(n)) == n,
{
    let s = u32_be_bytes(n);
    assert(((((n >> 24) as u8) as u32) << 24 | ((((n >> 16) & 0xff) as u8) as u32) << 16 | ((((n
        >> 8) & 0xff) as u8) as u32) << 8 | (((n & 0xff) as u8) as u32)) as u32 == n)
        by (bit_vector);
}

/// Reads a frame's four-byte big-endian length prefix.
pub fn parse_frame_length(prefix: &Vec<u8>) -> (r: u32)
    requires
        prefix@.len() == 4,
    ensures
        r == be32_of(prefix@),
{
    (prefix[0] as u32) << 24 | (prefix[1] as u32) << 16 | (prefix[2] as u32) << 8 | (
    prefix[3] as u32)
}

/// Frames a message: the big-endian length of the id plus payload, the id,
/// then the payload.
pub fn build_message(message_id: u8, payload: &Vec<u8>) -> (r: Vec<u8>)
    requires
        payload@.len() + 1 <= u32::MAX,
    ensures
        r@ == u32_be_bytes((payload@.len() + 1) as u32) + seq![message_id] + payload@,
{
    let len: u32 = (payload.len() as u32) + 1;
    let mut r: Vec<u8> = Vec::new();
    r.push((len >> 24) as u8);
    r.push(((len >> 16) & 0xff) as u8);
    r.push(((len >> 8) & 0xff) as u8);
    r.push((len & 0xff) as u8);
    r.push(message_id);
    r.extend_from_slice(payload.as_slice());
    proof {
        assert(r@ =~= u32_be_bytes(len) + seq![message_id] + payload@);
    }
    r
}

/// Splits a received frame body into its message id and payload.
pub fn split_message(body: &Vec<u8>) -> (r: (u8, Vec<u8>))
    requires
        body@.len() >= 1,
    ensures
        r.0 == body@[0],
        r.1@ == body@.skip(1),
{
    let id = body[0];
    let payload = vstd::slice::slice_to_vec(
        vstd::slice::slice_subrange(body.as_slice(), 1, body.len()),
    );
    proof {
        assert(body@.subrange(1, body@.len() as int) =~= body@.skip(1));
    }
    (id, payload)
}

/// The payload of a `request` message: piece index, begin offset and block
/// length, each big-endian.
pub fn build_request_payload(index: u32, begin: u32, length: u32) -> (r: Vec<u8>)
    ensures
        r@ == u32_be_bytes(index) + u32_be_bytes(begin) + u32_be_bytes(length),
        r@.len() == 12,
{
    let mut r: Vec<u8> = Vec::new();
    r.push((index >> 24) as u8);
    r.push(((index >> 16) & 0xff) as u8);
    r.push(((index >> 8) & 0xff) as u8);
    r.push((index & 0xff) as u8);
    r.push((begin >> 24) as u8);
    r.push(((begin >> 16) & 0xff) as u8);
    r.push(((begin >> 8) & 0xff) as u8);
    r.push((begin & 0xff) as u8);
    r.push((length >> 24) as u8);
    r.push(((length >> 16) & 0xff) as u8);
    r.push(((length >> 8) & 0xff) as u8);
    r.push((length & 0xff) as u8);
    proof {
        assert(r@ =~= u32_be_bytes(index) + u32_be_bytes(begin) + u32_be_bytes(length));
    }
    r
}

/// The payload of a `piece` message was too short to name its piece and
/// offset.
#[derive(Debug)]
pub struct PiecePayloadError;

/// Splits a `piece` message payload into the piece index, the begin offset
/// and the block bytes. Fails exactly when fewer than eight bytes arrived.
pub fn parse_piece_payload(payload: &Vec<u8>) -> (r: Result<(u32, u32, Vec<u8>), PiecePayloadError>)
    ensures
        r is Ok <==> payload@.len() >= 8,
        r matches Ok(p) ==> {
            &&& p.0 == be32_of(payload@.subrange(0, 4))
            &&& p.1 == be32_of(payload@.subrange(4, 8))
            &&& p.2@ == payload@.skip(8)
        },
{
    if payload.len() < 8 {
        return Err(PiecePayloadError);
    }
    let index = (payload[0] as u32) << 24 | (payload[1] as u32) << 16 | (payload[2] as u32) << 8
        | (payload[3] as u32);
    let begin = (payload[4] as u32) << 24 | (payload[5] as u32) << 16 | (payload[6] as u32) << 8
        | (payload[7] as u32);
    let block = vstd::slice::slice_to_vec(
        vstd::slice::slice_subrange(payload.as_slice(), 8, payload.len()),
    );
    proof {
        let pre = payload@.subrange(0, 4);
        assert(pre[0] == payload@[0] && pre[1] == payload@[1] && pre[2] == payload@[2] && pre[3]
            == payload@[3]);
        let mid = payload@.subrange(4, 8);
        assert(mid[0] == payload@[4] && mid[1] == payload@[5] && mid[2] == payload@[6] && mid[3]
            == payload@[7]);
        assert(payload@.subrange(8, payload@.len() as int) =~= payload@.skip(8));
    }
    Ok((index, begin, block))
}

/// Where a peer session stands in the pre-download negotiation.
#[derive(PartialEq, Eq, Structural, Clone, Copy, Debug)]
pub enum SessionState {
    /// The TCP connection is open; no handshake yet.
    Connected,
    /// Handshakes have been exchanged.
    Handshaken,
    /// The peer's bitfield has arrived.
    BitfieldReceived,
    /// This client has declared interest.
    Interested,
    /// The peer has unchoked this client: block requests may flow.
    Unchoked,
    /// The session is over; nothing more may be sent.
    Closed,
}

/// A message arrived that the negotiation does not allow in the current
/// state; the session must close.
pub struct UnexpectedMessage;

/// What receiving one frame does to the negotiation. A keep-alive
/// (`message_id` of `None`) and the `have` and `port` messages are
/// tolerated in any pre-download state and change nothing. The `bitfield`
/// message moves a handshaken session on; `unchoke` rewards a declared
/// interest. Anything else is fatal.
pub open spec fn spec_on_receive(state: SessionState, message_id: Option<u8>) -> Result<
    SessionState,
    SessionState,
> {
    match message_id {
        None => Ok(state),
        Some(id) => {
            if id == 4 || id == 9 {
                Ok(state)
            } else if id == 5 && state == SessionState::Handshaken {
                Ok(SessionState::BitfieldReceived)
            } else if id == 1 && state == SessionState::Interested {
                Ok(SessionState::Unchoked)
            } else {
                Err(SessionState::Closed)
            }
        },
    }
}

/// Applies one received frame to the negotiation state. An error closes
/// the session.
pub fn on_receive(state: SessionState, message_id: Option<u8>) -> (r: Result<
    SessionState,
    SessionState,
>)
    ensures
        r == spec_on_receive(state, message_id),
{
    match message_id {
        None => Ok(state),
        Some(id) => {
            if id == 4 || id == 9 {
                Ok(state)
            } else if id == 5 && state == SessionState::Handshaken {
                Ok(SessionState::BitfieldReceived)
            } else if id == 1 && state == SessionState::Interested {
                Ok(SessionState::Unchoked)
            } else {
                Err(SessionState::Closed)
            }
        },
    }
}

/// The state after this client sends `interested`: only a session that has
/// seen the bitfield may declare interest.
pub fn after_send_interested(state: SessionState) -> (r: Result<SessionState, SessionState>)
    ensures
        state == SessionState::BitfieldReceived ==> r == Ok::<SessionState, SessionState>(
            SessionState::Interested,
        ),
        state != SessionState::BitfieldReceived ==> r == Err::<SessionState, SessionState>(
            SessionState::Closed,
        ),
{
    if state == SessionState::BitfieldReceived {
        Ok(SessionState::Interested)
    } else {
        Err(SessionState::Closed)
    }
}

} // verus!
