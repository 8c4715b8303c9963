//! The tracker: the request to it and the peers in its answer.

use crate::decimal::{ascii_text, decimal, lemma_decimal_length, push_decimal_text};
use crate::outside::{
    percent_encode, percent_text, set_url_query, unreserved, url_with_query,
};
use vstd::prelude::*;

verus! {

/// The answer of a tracker.
#[derive(Debug)]
pub struct TrackerResponse {
    /// The peers that the client can connect to, 6 bytes each: the IP address
    /// and the port number.
    pub peers: Vec<u8>,
    /// The number of seconds to wait between regular requests.
    pub interval: usize,
}

/// The address of a peer.
#[derive(Debug, Clone, Copy, PartialEq, Eq)]
pub struct PeerAddr {
    pub ip: [u8; 4],
    pub port: u16,
}

/// The address that the six bytes of `peers` from `6 * i` on stand for.
pub open spec fn peer_at(peers: Seq<u8>, i: int) -> (Seq<u8>, int) {
    (peers.subrange(6 * i, 6 * i + 4), peers[6 * i + 4] * 0x100 + peers[6 * i + 5])
}

impl View for PeerAddr {
    type V = (Seq<u8>, int);

    open spec fn view(&self) -> (Seq<u8>, int) {
        (self.ip@, self.port as int)
    }
}

impl PeerAddr {
    /// The address in dotted notation, and the port.
    pub fn to_text(&self) -> (text: String)
        ensures
            text@ == ascii_text(decimal(self@.0[0] as nat)) + "."@ + ascii_text(
                decimal(self@.0[1] as nat),
            ) + "."@ + ascii_text(decimal(self@.0[2] as nat)) + "."@ + ascii_text(
                decimal(self@.0[3] as nat),
            ) + ":"@ + ascii_text(decimal(self@.1 as nat)),
    {
        let mut text = String::new();
        push_decimal_text(&mut text, self.ip[0] as usize);
        text.append(".");
        push_decimal_text(&mut text, self.ip[1] as usize);
        text.append(".");
        push_decimal_text(&mut text, self.ip[2] as usize);
        text.append(".");
        push_decimal_text(&mut text, self.ip[3] as usize);
        text.append(":");
        push_decimal_text(&mut text, self.port as usize);
        assert(Seq::<char>::empty() + ascii_text(decimal(self@.0[0] as nat)) =~= ascii_text(
            decimal(self@.0[0] as nat),
        ));
        text
    }
}

impl TrackerResponse {
    /// The peers of the answer; bytes that are left over make no peer.
    pub fn addresses(&self) -> (addrs: Vec<PeerAddr>)
        ensures
            addrs@.len() == self.peers@.len() / 6,
            forall|i: int|
                0 <= i < addrs@.len() ==> (#[trigger] addrs@[i])@ == peer_at(self.peers@, i),
    {
        let n = self.peers.len() / 6;
        let mut addrs: Vec<PeerAddr> = Vec::new();
        let mut i: usize = 0;
        while i < n
            invariant
                i <= n,
                n == self.peers@.len() / 6,
                self.peers@.len() <= usize::MAX,
                addrs@.len() == i,
                forall|j: int|
                    0 <= j < i ==> (#[trigger] addrs@[j])@ == peer_at(self.peers@, j),
            decreases n - i,
        {
            let at = 6 * i;
            let ip = [
                self.peers[at],
                self.peers[at + 1],
                self.peers[at + 2],
                self.peers[at + 3],
            ];
            let port = self.peers[at + 4] as u16 * 0x100 + self.peers[at + 5] as u16;
            assert(ip@ =~= self.peers@.subrange(6 * i, 6 * i + 4));
            addrs.push(PeerAddr { ip, port });
            i += 1;
        }
        addrs
    }
}

/// The query of a request to a tracker. The identifier of the client and the
/// hash of the torrent are raw bytes, so they go in percent-encoding.
pub open spec fn query_text(peer_id: Seq<u8>, left: nat, info_hash: Seq<u8>) -> Seq<char> {
    "port=6881&uploaded=0&downloaded=0&compact=1&peer_id="@ + percent_text(peer_id) + "&left="@
        + ascii_text(decimal(left)) + "&info_hash="@ + percent_text(info_hash)
}

/// The query of a request to a tracker, for a client that still has `left`
/// bytes to fetch.
pub fn tracker_query(peer_id: &[u8; 20], left: usize, info_hash: &[u8; 20]) -> (query: String)
    ensures
        query@ == query_text(peer_id@, left as nat, info_hash@),
{
    let mut query = String::from_str("port=6881&uploaded=0&downloaded=0&compact=1&peer_id=");
    query.append(percent_encode(peer_id.as_slice()).as_str());
    query.append("&left=");
    push_decimal_text(&mut query, left);
    query.append("&info_hash=");
    query.append(percent_encode(info_hash.as_slice()).as_str());
    query
}

/// Percent-encoding makes at most three characters of a byte.
proof fn lemma_percent_length(bytes: Seq<u8>)
    ensures
        percent_text(bytes).len() <= 3 * bytes.len(),
    decreases bytes.len(),
{
    if bytes.len() > 0 {
        lemma_percent_length(bytes.drop_last());
    }
}

/// A query has a bounded length.
pub(crate) proof fn lemma_query_length(peer_id: Seq<u8>, left: usize, info_hash: Seq<u8>)
    requires
        peer_id.len() == 20,
        info_hash.len() == 20,
    ensures
        query_text(peer_id, left as nat, info_hash).len() <= 220,
{
    reveal_strlit("port=6881&uploaded=0&downloaded=0&compact=1&peer_id=");
    reveal_strlit("&left=");
    reveal_strlit("&info_hash=");
    lemma_decimal_length(left);
    lemma_percent_length(peer_id);
    lemma_percent_length(info_hash);
}

/// A tracker address that is no URL.
#[derive(Debug, Clone, Copy, PartialEq, Eq, Structural)]
pub struct InvalidAnnounce;

/// The URL to fetch from a tracker: its address with `query` for a query.
pub fn tracker_url(announce: &str, query: &str) -> (url: Result<String, InvalidAnnounce>)
    requires
        announce@.len() + query@.len() < 0x100_0000,
    ensures
        match url_with_query(announce@, query@) {
            Some(text) => url matches Ok(u) && u@ == text,
            None => url is Err,
        },
{
    match set_url_query(announce, query) {
        Some(text) => Ok(text),
        None => Err(InvalidAnnounce),
    }
}

/// A peer is read back from the six bytes that stand for it, whatever peers
/// stand before it and whatever bytes behind it.
pub proof fn law_peer_is_read_back(before: Seq<u8>, ip: Seq<u8>, port: u16, after: Seq<u8>)
    requires
        before.len() % 6 == 0,
        ip.len() == 4,
    ensures
        peer_at(
            before + ip + seq![(port / 0x100) as u8, (port % 0x100) as u8] + after,
            before.len() as int / 6,
        ) == (ip, port as int),
{
    let peers = before + ip + seq![(port / 0x100) as u8, (port % 0x100) as u8] + after;
    let i = before.len() as int / 6;
    assert(6 * i == before.len());
    assert(peers.subrange(6 * i, 6 * i + 4) =~= ip);
}

/// An identifier of letters and digits, or any other unreserved bytes, goes into
/// a query as it is.
pub proof fn law_unreserved_bytes_stay(bytes: Seq<u8>)
    requires
        forall|i: int| 0 <= i < bytes.len() ==> unreserved(#[trigger] bytes[i]),
    ensures
        percent_text(bytes) == ascii_text(bytes),
    decreases bytes.len(),
{
    if bytes.len() > 0 {
        let fewer = bytes.drop_last();
        assert forall|i: int| 0 <= i < fewer.len() implies unreserved(#[trigger] fewer[i]) by {
            assert(fewer[i] == bytes[i]);
        }
        law_unreserved_bytes_stay(fewer);
        assert(unreserved(bytes[bytes.len() - 1]));
    }
    assert(percent_text(bytes) =~= ascii_text(bytes));
}

} // verus!
