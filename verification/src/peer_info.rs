use vstd::prelude::*;
use vstd::string::StringExecFns;
use crate::utils::{dec_chars_of, decimal_string_u64};

verus! {

/// A peer as the tracker reports it: its socket address spelled
/// `a.b.c.d:port`.
pub struct Peer {
    ip_address: String,
}

impl Peer {
    /// The characters of the peer's address.
    pub closed spec fn view_ip(&self) -> Seq<char> {
        self.ip_address@
    }

    pub fn new(ip_address: String) -> (r: Self)
        ensures
            r.view_ip() == ip_address@,
    {
        Peer { ip_address }
    }

    pub fn get_ip_address(&self) -> (r: &String)
        ensures
            r@ == self.view_ip(),
    {
        &self.ip_address
    }
}

/// The address one compact six-byte entry spells: four dotted decimal
/// octets, a colon, and the big-endian port.
pub open spec fn peer_addr_chars(entry: Seq<u8>) -> Seq<char> {
    dec_chars_of(entry[0] as nat) + "."@ + dec_chars_of(entry[1] as nat) + "."@ + dec_chars_of(
        entry[2] as nat,
    ) + "."@ + dec_chars_of(entry[3] as nat) + ":"@ + dec_chars_of(
        (entry[4] as nat) * 256 + (entry[5] as nat),
    )
}

/// The compact peer list did not hold whole six-byte entries.
#[derive(Debug)]
pub struct PeerListError;

/// Reads a compact peer list: six bytes per peer, big-endian port. Fails
/// exactly when the length is not a multiple of six.
pub fn parse_compact_peers(peers: &[u8]) -> (r: Result<Vec<Peer>, PeerListError>)
    ensures
        r is Ok <==> peers@.len() % 6 == 0,
        r matches Ok(v) ==> {
            &&& v@.len() == peers@.len() / 6
            &&& forall|i: int|
                0 <= i < v@.len() ==> (#[trigger] v@[i].view_ip()) == peer_addr_chars(
                    peers@.subrange(6 * i, 6 * i + 6),
                )
        },
{
    if peers.len() % 6 != 0 {
        return Err(PeerListError);
    }
    let n = peers.len() / 6;
    proof {
        vstd::arithmetic::div_mod::lemma_fundamental_div_mod(peers@.len() as int, 6);
    }
    let mut out: Vec<Peer> = Vec::new();
    let mut i: usize = 0;
    while i < n
        invariant
            0 <= i <= n,
            n == peers@.len() / 6,
            peers@.len() % 6 == 0,
            6 * n == peers@.len(),
            peers@.len() <= usize::MAX,
            out@.len() == i,
            forall|k: int|
                0 <= k < i ==> (#[trigger] out@[k].view_ip()) == peer_addr_chars(
                    peers@.subrange(6 * k, 6 * k + 6),
                ),
        decreases n - i,
    {
        let base = 6 * i;
        let mut addr = String::new();
        let o0 = decimal_string_u64(peers[base] as u64);
        addr.append(o0.as_str());
        addr.append(".");
        let o1 = decimal_string_u64(peers[base + 1] as u64);
        addr.append(o1.as_str());
        addr.append(".");
        let o2 = decimal_string_u64(peers[base + 2] as u64);
        addr.append(o2.as_str());
        addr.append(".");
        let o3 = decimal_string_u64(peers[base + 3] as u64);
        addr.append(o3.as_str());
        addr.append(":");
        let port: u64 = (peers[base + 4] as u64) * 256 + (peers[base + 5] as u64);
        let p = decimal_string_u64(port);
        addr.append(p.as_str());
        proof {
            let entry = peers@.subrange(6 * i as int, 6 * i + 6);
            assert(entry[0] == peers@[6 * i as int]);
            assert(entry[1] == peers@[6 * i + 1]);
            assert(entry[2] == peers@[6 * i + 2]);
            assert(entry[3] == peers@[6 * i + 3]);
            assert(entry[4] == peers@[6 * i + 4]);
            assert(entry[5] == peers@[6 * i + 5]);
            assert(addr@ == peer_addr_chars(entry));
        }
        out.push(Peer::new(addr));
        i = i + 1;
    }
    Ok(out)
}

} // verus!
