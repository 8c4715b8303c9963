//! What a tracker is asked and what is made of its answer; what the commands send;
//! how a piece is cut up among files.

use crate::commands::{answering_peer, handshake_to_send, peers_url};
use crate::decimal::{ascii_text, decimal};
use crate::notation::{
    is_escape_of, is_hex_of, is_notation, law_escape_is_read_back, law_hex_is_read_back,
    law_notation_is_read_back,
};
use crate::outside::{buffered, percent_text, sha1_digest, url_with_query};
use crate::peer::Handshake;
use crate::torrent::Torrent;
use crate::tracker::{
    query_text, tracker_query, tracker_url, InvalidAnnounce, PeerAddr, TrackerResponse,
};
use crate::utils::{sizes_before, split_piece_for_files};
use crate::wire_laws::law_handshake_layout;
use bytes::BytesMut;
use std::path::PathBuf;
use vstd::prelude::*;

verus! {

/// Whether `query` asks a tracker for peers: on behalf of the client of `peer_id`,
/// which has `left` bytes to fetch of the torrent of `info_hash`.
pub open spec fn asks_for_peers(
    query: Seq<char>,
    peer_id: Seq<u8>,
    left: int,
    info_hash: Seq<u8>,
) -> bool {
    exists|id: Seq<char>, n: Seq<char>, hash: Seq<char>|
        #[trigger] is_escape_of(id, peer_id) && #[trigger] is_notation(n, left)
            && #[trigger] is_escape_of(hash, info_hash) && query
            == "port=6881&uploaded=0&downloaded=0&compact=1&peer_id="@ + id + "&left="@ + n
            + "&info_hash="@ + hash
}

pub(crate) proof fn lemma_query_asks(peer_id: Seq<u8>, left: nat, info_hash: Seq<u8>)
    ensures
        asks_for_peers(query_text(peer_id, left, info_hash), peer_id, left as int, info_hash),
{
    law_escape_is_read_back(peer_id);
    law_escape_is_read_back(info_hash);
    law_notation_is_read_back(left);
    let (id, n, hash) = (
        percent_text(peer_id),
        ascii_text(decimal(left)),
        percent_text(info_hash),
    );
    assert(is_escape_of(id, peer_id) && is_notation(n, left as int) && is_escape_of(
        hash,
        info_hash,
    ));
    assert(query_text(peer_id, left, info_hash)
        == "port=6881&uploaded=0&downloaded=0&compact=1&peer_id="@ + id + "&left="@ + n
        + "&info_hash="@ + hash);
}

/// A query to a tracker tells it the port, the identifier of the client, the
/// bytes that are left to fetch and the hash of the torrent.
pub proof fn law_query_asks_for_peers(
    peer_id: [u8; 20],
    left: usize,
    info_hash: [u8; 20],
    query: String,
)
    requires
        call_ensures(tracker_query, (&peer_id, left, &info_hash), query),
    ensures
        asks_for_peers(query@, peer_id@, left as int, info_hash@),
{
    lemma_query_asks(peer_id@, left as nat, info_hash@);
}

/// The URL to fetch is the address of the tracker with the query, and there is
/// one exactly where the address is a URL.
pub proof fn law_url_has_query(announce: &str, query: &str, url: Result<String, InvalidAnnounce>)
    requires
        call_ensures(tracker_url, (announce, query), url),
    ensures
        url is Err <==> url_with_query(announce@, query@) is None,
        url matches Ok(u) ==> url_with_query(announce@, query@) == Some(u@),
{
}

/// The command on peers asks the tracker of the torrent, under the hash of its
/// info dictionary, with the length of a piece left to fetch.
pub proof fn law_peers_command_asks_tracker(
    torrent: Torrent,
    peer_id: [u8; 20],
    bytes: Vec<u8>,
    url: Result<String, InvalidAnnounce>,
)
    requires
        call_ensures(Torrent::info, (&torrent,), bytes),
        call_ensures(peers_url, (&torrent, &peer_id), url),
    ensures
        exists|query: Seq<char>|
            #[trigger] asks_for_peers(
                query,
                peer_id@,
                torrent.info.piece_length as int,
                sha1_digest(bytes@),
            ) && url_with_query(torrent.announce@, query) == match url {
                Ok(u) => Some(u@),
                Err(_) => None,
            },
{
    lemma_query_asks(peer_id@, torrent.info.piece_length as nat, sha1_digest(bytes@));
    let query = query_text(peer_id@, torrent.info.piece_length as nat, sha1_digest(bytes@));
    assert(asks_for_peers(
        query,
        peer_id@,
        torrent.info.piece_length as int,
        sha1_digest(bytes@),
    ));
}

/// The answer of a tracker names a peer by each six bytes: four for the address
/// and two for the port, the higher first. Bytes that are left over name none.
pub proof fn law_answer_names_peers(answer: TrackerResponse, addrs: Vec<PeerAddr>)
    requires
        call_ensures(TrackerResponse::addresses, (&answer,), addrs),
    ensures
        6 * addrs@.len() <= answer.peers@.len() < 6 * addrs@.len() + 6,
        forall|i: int|
            0 <= i < addrs@.len() ==> {
                &&& (#[trigger] addrs@[i]).ip@ == answer.peers@.subrange(6 * i, 6 * i + 4)
                &&& addrs@[i].port == 256 * answer.peers@[6 * i + 4] + answer.peers@[6 * i + 5]
            },
{
    assert forall|i: int| 0 <= i < addrs@.len() implies {
        &&& (#[trigger] addrs@[i]).ip@ == answer.peers@.subrange(6 * i, 6 * i + 4)
        &&& addrs@[i].port == 256 * answer.peers@[6 * i + 4] + answer.peers@[6 * i + 5]
    } by {
        assert(addrs@[i]@ == (addrs@[i].ip@, addrs@[i].port as int));
    }
}

/// An address is told as four numbers with points between them, a colon and the
/// port.
pub proof fn law_address_is_told(addr: PeerAddr, text: String)
    requires
        call_ensures(PeerAddr::to_text, (&addr,), text),
    ensures
        exists|a: Seq<char>, b: Seq<char>, c: Seq<char>, d: Seq<char>, p: Seq<char>|
            #[trigger] is_notation(a, addr.ip@[0] as int) && #[trigger] is_notation(
                b,
                addr.ip@[1] as int,
            ) && #[trigger] is_notation(c, addr.ip@[2] as int) && #[trigger] is_notation(
                d,
                addr.ip@[3] as int,
            ) && #[trigger] is_notation(p, addr.port as int) && text@ == a + "."@ + b + "."@ + c
                + "."@ + d + ":"@ + p,
{
    assert(addr@ == (addr.ip@, addr.port as int));
    let (a, b, c, d, p) = (
        ascii_text(decimal(addr.ip@[0] as nat)),
        ascii_text(decimal(addr.ip@[1] as nat)),
        ascii_text(decimal(addr.ip@[2] as nat)),
        ascii_text(decimal(addr.ip@[3] as nat)),
        ascii_text(decimal(addr.port as nat)),
    );
    law_notation_is_read_back(addr.ip@[0] as nat);
    law_notation_is_read_back(addr.ip@[1] as nat);
    law_notation_is_read_back(addr.ip@[2] as nat);
    law_notation_is_read_back(addr.ip@[3] as nat);
    law_notation_is_read_back(addr.port as nat);
    assert(is_notation(a, addr.ip@[0] as int) && is_notation(b, addr.ip@[1] as int) && is_notation(
        c,
        addr.ip@[2] as int,
    ) && is_notation(d, addr.ip@[3] as int) && is_notation(p, addr.port as int));
}

/// The handshake of the command goes out for the hash of the torrent's info
/// dictionary and under the drawn identifier.
pub proof fn law_command_sends_handshake(
    torrent: Torrent,
    peer_id: [u8; 20],
    bytes: Vec<u8>,
    h: Handshake,
    sent: BytesMut,
)
    requires
        call_ensures(Torrent::info, (&torrent,), bytes),
        call_ensures(handshake_to_send, (&torrent, peer_id), h),
        call_ensures(Handshake::to_bytes, (&h,), sent),
    ensures
        buffered(sent).len() == 68,
        buffered(sent)[0] == 19,
        forall|i: int|
            0 <= i < 19 ==> #[trigger] buffered(sent)[1 + i] == ("BitTorrent protocol"@)[i] as u8,
        forall|i: int| 20 <= i < 28 ==> #[trigger] buffered(sent)[i] == 0,
        buffered(sent).subrange(28, 48) == sha1_digest(bytes@),
        buffered(sent).subrange(48, 68) == peer_id@,
{
    reveal_strlit("BitTorrent protocol");
    law_handshake_layout(h, sent);
    let b = buffered(sent);
    assert forall|i: int| 0 <= i < 19 implies #[trigger] b[1 + i] == ("BitTorrent protocol"@)[i] as u8 by {
        assert(b[1 + i] == b.subrange(1, 20)[i]);
        assert(h.string@[i] == ("BitTorrent protocol"@)[i] as u8);
    }
    assert forall|i: int| 20 <= i < 28 implies #[trigger] b[i] == 0 by {
        assert(b[i] == b.subrange(20, 28)[i - 20]);
    }
}

/// The peer that answered is told by the last twenty bytes of its handshake.
pub proof fn law_answering_peer_is_told(response: [u8; 68], id: String)
    requires
        call_ensures(answering_peer, (&response,), id),
    ensures
        is_hex_of(id@, response@.subrange(48, 68)),
{
    law_hex_is_read_back(response@.subrange(48, 68));
}

/// The sum of the sizes of files.
pub open spec fn sizes_together(files: Seq<(PathBuf, usize, usize)>) -> int
    decreases files.len(),
{
    if files.len() == 0 {
        0
    } else {
        sizes_together(files.drop_last()) + files.last().2
    }
}

proof fn lemma_sizes(files: Seq<(PathBuf, usize, usize)>, n: int)
    requires
        0 <= n <= files.len(),
    ensures
        sizes_before(files, n) == sizes_together(files.take(n)),
        0 <= sizes_before(files, n),
    decreases n,
{
    if n > 0 {
        lemma_sizes(files, n - 1);
        assert(files.take(n).drop_last() =~= files.take(n - 1));
    }
}

proof fn lemma_sizes_grow(files: Seq<(PathBuf, usize, usize)>, i: int, n: int)
    requires
        0 <= i <= n <= files.len(),
    ensures
        sizes_before(files, i) <= sizes_before(files, n),
    decreases n,
{
    if i < n {
        lemma_sizes_grow(files, i, n - 1);
    }
}

proof fn lemma_parts_flatten(
    files: Seq<(PathBuf, usize, usize)>,
    piece: Seq<u8>,
    parts: Seq<Seq<u8>>,
    n: int,
)
    requires
        0 <= n <= files.len() == parts.len(),
        sizes_before(files, files.len() as int) <= piece.len(),
        forall|i: int|
            0 <= i < parts.len() ==> #[trigger] parts[i] == piece.subrange(
                sizes_before(files, i),
                sizes_before(files, i) + files[i].2,
            ),
    ensures
        parts.take(n).flatten_alt() == piece.take(sizes_before(files, n)),
    decreases n,
{
    lemma_sizes(files, n);
    lemma_sizes_grow(files, n, files.len() as int);
    if n == 0 {
        assert(parts.take(0).flatten_alt() =~= piece.take(0));
    } else {
        lemma_sizes(files, n - 1);
        lemma_parts_flatten(files, piece, parts, n - 1);
        assert(parts.take(n).drop_last() =~= parts.take(n - 1));
        assert(parts.take(n).last() == parts[n - 1]);
        assert(parts.take(n).flatten_alt() =~= piece.take(sizes_before(files, n)));
    }
}

/// A piece is cut up among files without a gap: each file gets as many bytes as
/// its size says, keeps its name and its offset, and the parts put end to end are
/// the start of the piece.
pub proof fn law_files_share_piece(
    files: Vec<(PathBuf, usize, usize)>,
    piece: Vec<u8>,
    parts: Vec<(PathBuf, usize, Vec<u8>)>,
)
    requires
        sizes_together(files@) <= piece@.len(),
        call_ensures(split_piece_for_files, (files, piece), parts),
    ensures
        parts@.len() == files@.len(),
        forall|i: int|
            0 <= i < parts@.len() ==> {
                &&& (#[trigger] parts@[i]).0 == files@[i].0
                &&& parts@[i].1 == files@[i].1
                &&& parts@[i].2@.len() == files@[i].2
            },
        parts@.map_values(|p: (PathBuf, usize, Vec<u8>)| p.2@).flatten_alt() == piece@.take(
            sizes_together(files@),
        ),
{
    let n = files@.len() as int;
    let contents = parts@.map_values(|p: (PathBuf, usize, Vec<u8>)| p.2@);
    lemma_sizes(files@, n);
    assert(files@.take(n) =~= files@);
    assert forall|i: int| 0 <= i < n implies #[trigger] contents[i] == piece@.subrange(
        sizes_before(files@, i),
        sizes_before(files@, i) + files@[i].2,
    ) by {
        assert(parts@[i].2@ == contents[i]);
    }
    assert forall|i: int| 0 <= i < n implies {
        &&& (#[trigger] parts@[i]).0 == files@[i].0
        &&& parts@[i].1 == files@[i].1
        &&& parts@[i].2@.len() == files@[i].2
    } by {
        lemma_sizes(files@, i);
        lemma_sizes_grow(files@, i + 1, n);
    }
    lemma_parts_flatten(files@, piece@, contents, n);
    assert(contents.take(n) =~= contents);
}

} // verus!
