//! What the commands ask of a torrent.

use crate::outside::{hex_encode, hex_text, sha1_digest, url_with_query};
use crate::peer::{protocol_string, Handshake};
use crate::torrent::Torrent;
use crate::tracker::{
    lemma_query_length, query_text, tracker_query, tracker_url, InvalidAnnounce,
};
use vstd::prelude::*;

verus! {

/// The URL that asks the tracker of a torrent for peers, with one piece left
/// to fetch.
pub fn peers_url(torrent: &Torrent, peer_id: &[u8; 20]) -> (url: Result<String, InvalidAnnounce>)
    requires
        torrent.info.encoded().len() * 8 <= u64::MAX,
        torrent.announce@.len() + 220 < 0x100_0000,
    ensures
        match url_with_query(
            torrent.announce@,
            query_text(
                peer_id@,
                torrent.info.piece_length as nat,
                sha1_digest(torrent.info.encoded()),
            ),
        ) {
            Some(text) => url matches Ok(u) && u@ == text,
            None => url is Err,
        },
{
    let hash = torrent.info_sha1();
    let query = tracker_query(peer_id, torrent.info.piece_length, &hash);
    proof {
        lemma_query_length(peer_id@, torrent.info.piece_length, hash@);
    }
    tracker_url(torrent.announce.as_str(), query.as_str())
}

/// The handshake to send to a peer of a torrent, from a client that drew
/// `peer_id` for its identifier.
pub fn handshake_to_send(torrent: &Torrent, peer_id: [u8; 20]) -> (h: Handshake)
    requires
        torrent.info.encoded().len() * 8 <= u64::MAX,
    ensures
        h.length == 19,
        h.string@ == protocol_string(),
        h.reserved@ == Seq::new(8, |i: int| 0u8),
        h.info_hash@ == sha1_digest(torrent.info.encoded()),
        h.peer_id == peer_id,
{
    Handshake::new(torrent.info_sha1(), peer_id)
}

/// The identifier of the peer that answered a handshake, in hexadecimal.
pub fn answering_peer(response: &[u8; 68]) -> (id: String)
    ensures
        id@ == hex_text(response@.subrange(48, 68)),
{
    let h = Handshake::from_bytes(response);
    hex_encode(h.peer_id.as_slice())
}

} // verus!
