//! What a download asks for, what it takes in, what it keeps and where that goes.

use crate::agent_laws::law_agent_delivers_block;
use crate::downloader::{
    batch, block_size, block_start, law_pieces_tile_files, law_requests_are_small,
    peers_to_connect, piece_requests, planned, range_requests, Delivery, Downloader, Greeting,
    NoPeers,
};
use crate::outside::{sha1_digest, url_with_query};
use crate::peer::{Message, PeerHandle, PeerMessage};
use crate::peer_agent::{AgentAction, AgentEvent, PeerAgent};
use crate::piece::{ChunkOutOfBounds, Piece};
use crate::recovery::{
    can_start, drained, law_retrieval_accounts_for_pieces, lemma_awaited, started,
};
use crate::retrieval::{BlockError, Retrieval, RetrievalState};
use crate::torrent::{lengths_before, FileDetails, FileList, Info, Torrent};
use crate::tracker::{query_text, InvalidAnnounce};
use crate::tracker_laws::{asks_for_peers, lemma_query_asks};
use crate::wire::be_bytes;
use crate::wire_laws::{lemma_number_bytes, number_at};
use std::collections::HashMap;
use vstd::prelude::*;

verus! {

/// The lengths of files together.
pub open spec fn lengths_together(files: Seq<FileDetails>) -> int
    decreases files.len(),
{
    if files.len() == 0 {
        0
    } else {
        files.first().length + lengths_together(files.drop_first())
    }
}

/// The number of bytes that a torrent offers.
pub open spec fn bytes_offered(files: FileList) -> int {
    match files {
        FileList::SingleFile { length } => length as int,
        FileList::MultiFile { files } => lengths_together(files@),
    }
}

/// Whether `size` is the length of piece `i`: pieces have the piece length, but
/// for the last, which ends with the files.
pub open spec fn is_size_of(info: Info, i: int, size: int) -> bool {
    &&& size <= info.piece_length
    &&& i * info.piece_length + size <= bytes_offered(info.files)
    &&& size == info.piece_length || i * info.piece_length + size == bytes_offered(info.files)
}

/// Whether `after` is `before` with `block` in place from `offset` on.
pub open spec fn is_with_block(
    before: Seq<u8>,
    offset: int,
    block: Seq<u8>,
    after: Seq<u8>,
) -> bool {
    &&& after.len() == before.len()
    &&& forall|x: int|
        0 <= x < after.len() ==> #[trigger] after[x] == if offset <= x < offset + block.len() {
            block[x - offset]
        } else {
            before[x]
        }
}

proof fn lemma_lengths(files: Seq<FileDetails>, n: int)
    requires
        0 <= n <= files.len(),
    ensures
        lengths_before(files, n) == lengths_together(files.take(n)),
    decreases n,
{
    if n > 0 {
        lemma_lengths(files, n - 1);
        lemma_lengths_push(files.take(n - 1), files[n - 1]);
        assert(files.take(n) =~= files.take(n - 1).push(files[n - 1]));
    }
}

proof fn lemma_lengths_push(files: Seq<FileDetails>, file: FileDetails)
    ensures
        lengths_together(files.push(file)) == lengths_together(files) + file.length,
    decreases files.len(),
{
    let more = files.push(file);
    if files.len() == 0 {
        assert(more.drop_first() =~= Seq::<FileDetails>::empty());
        assert(lengths_together(Seq::<FileDetails>::empty()) == 0);
    } else {
        assert(more.drop_first() =~= files.drop_first().push(file));
        lemma_lengths_push(files.drop_first(), file);
    }
}

proof fn lemma_lengths_positive(files: Seq<FileDetails>)
    ensures
        0 <= lengths_together(files),
    decreases files.len(),
{
    if files.len() > 0 {
        lemma_lengths_positive(files.drop_first());
    }
}

proof fn lemma_total(files: FileList)
    ensures
        0 <= files.total() == bytes_offered(files),
{
    if let FileList::MultiFile { files: list } = files {
        lemma_lengths(list@, list@.len() as int);
        lemma_lengths_positive(list@);
        assert(list@.take(list@.len() as int) =~= list@);
    }
}

proof fn lemma_size(info: Info, i: int)
    ensures
        is_size_of(info, i, info.piece_size(i)),
{
    lemma_total(info.files);
}

/// A new piece is zero bytes, none of which was written.
pub proof fn law_new_piece_is_blank(
    size: usize,
    piece: Piece,
    length: usize,
    writes: usize,
    done: bool,
    bytes: Vec<u8>,
)
    requires
        call_ensures(Piece::new, (size,), piece),
        call_ensures(Piece::expected_length, (&piece,), length),
        call_ensures(Piece::writes, (&piece,), writes),
        call_ensures(Piece::done, (&piece,), done),
        call_ensures(Piece::bytes, (piece,), bytes),
    ensures
        length == size,
        writes == 0,
        done <==> size == 0,
        bytes@.len() == size,
        forall|x: int| 0 <= x < size ==> #[trigger] bytes@[x] == 0,
{
}

/// What a piece holds can be asked of it; it is done exactly where as many bytes
/// were written as it has.
pub proof fn law_piece_tells_what_it_holds(
    piece: Piece,
    length: usize,
    writes: usize,
    done: bool,
    bytes: Vec<u8>,
)
    requires
        call_ensures(Piece::expected_length, (&piece,), length),
        call_ensures(Piece::writes, (&piece,), writes),
        call_ensures(Piece::done, (&piece,), done),
        call_ensures(Piece::bytes, (piece,), bytes),
    ensures
        length == bytes@.len(),
        bytes@ == piece@.bytes,
        writes == piece@.writes,
        done <==> writes == length,
{
}

/// A chunk is written exactly where it fits. It then stands from its offset on,
/// the other bytes are as they were, and its bytes are counted. A chunk that does
/// not fit changes nothing.
pub proof fn law_chunk_is_written_in_place(
    piece: &mut Piece,
    offset: usize,
    chunk: &[u8],
    r: Result<(), ChunkOutOfBounds>,
)
    requires
        call_ensures(Piece::write, (piece, offset, chunk), r),
    ensures
        r is Ok <==> offset + chunk@.len() <= old(piece)@.bytes.len(),
        r is Ok ==> is_with_block(
            old(piece)@.bytes,
            offset as int,
            chunk@,
            final(piece)@.bytes,
        ) && final(piece)@.writes == old(piece)@.writes + chunk@.len(),
        r is Err ==> final(piece)@ == old(piece)@,
{
}

/// A new retrieval waits for nothing and has nothing.
pub proof fn law_new_retrieval_is_empty(r: Retrieval, p: usize)
    requires
        call_ensures(Retrieval::new, (), r),
    ensures
        !r@.pending.contains_key(p),
        !r@.finished.contains_key(p),
{
}

/// A piece that is expected is pending as a blank of its size; nothing else
/// changes.
pub proof fn law_expected_piece_is_pending(
    r: &mut Retrieval,
    piece_i: usize,
    size: usize,
    done: (),
    q: usize,
)
    requires
        call_ensures(Retrieval::expect, (r, piece_i, size), done),
    ensures
        final(r)@.pending.contains_key(piece_i),
        final(r)@.pending[piece_i].writes == 0,
        final(r)@.pending[piece_i].bytes.len() == size,
        forall|x: int|
            0 <= x < size ==> #[trigger] final(r)@.pending[piece_i].bytes[x] == 0,
        q != piece_i ==> final(r)@.pending.contains_key(q) == old(r)@.pending.contains_key(q),
        q != piece_i && old(r)@.pending.contains_key(q) ==> final(r)@.pending[q]
            == old(r)@.pending[q],
        final(r)@.finished == old(r)@.finished,
{
}

/// What a retrieval holds can be asked of it: whether it still waits, how far a
/// piece is, and at the end every finished piece with all its bytes.
pub proof fn law_retrieval_tells_what_it_holds(
    r: Retrieval,
    done: bool,
    p: usize,
    progress: Option<(usize, usize)>,
    pieces: HashMap<usize, Vec<u8>>,
)
    requires
        call_ensures(Retrieval::is_done, (&r,), done),
        call_ensures(Retrieval::progress, (&r, p), progress),
        call_ensures(Retrieval::into_pieces, (r,), pieces),
    ensures
        done <==> forall|q: usize| !#[trigger] r@.pending.contains_key(q),
        progress is Some <==> r@.pending.contains_key(p),
        progress matches Some((writes, size)) ==> writes == r@.pending[p].writes && size
            == r@.pending[p].bytes.len(),
        forall|q: usize| #[trigger] pieces@.contains_key(q) <==> r@.finished.contains_key(q),
        forall|q: usize| #[trigger] pieces@.contains_key(q) ==> pieces@[q]@ == r@.finished[q],
{
    let views = pieces@.map_values(|v: Vec<u8>| v@);
    assert forall|q: usize| #[trigger] pieces@.contains_key(q) <==> r@.finished.contains_key(q) by {
        assert(views.contains_key(q) == pieces@.contains_key(q));
    }
    assert forall|q: usize| #[trigger] pieces@.contains_key(q) implies pieces@[q]@
        == r@.finished[q] by {
        assert(views.contains_key(q));
        assert(views[q] == pieces@[q]@);
    }
    if forall|q: usize| !#[trigger] r@.pending.contains_key(q) {
        assert(r@.pending.dom() =~= Set::empty());
    }
    if done {
        assert forall|q: usize| !#[trigger] r@.pending.contains_key(q) by {
            assert(!r@.pending.dom().contains(q));
        }
    }
}

/// A block is stored exactly where its piece is awaited and it fits. A piece that
/// then has as many bytes written as it has is given out whole, and no longer
/// awaited; any other stays, with the block in it. Nothing is finished by that.
pub proof fn law_block_is_stored_in_place(
    r: &mut Retrieval,
    p: usize,
    offset: usize,
    block: &[u8],
    out: Result<Option<Vec<u8>>, BlockError>,
)
    requires
        call_ensures(Retrieval::store, (r, p, offset, block), out),
    ensures
        out matches Err(e) ==> final(r)@ == old(r)@ && e == if old(r)@.pending.contains_key(p) {
            BlockError::OutOfBounds
        } else {
            BlockError::Unrequested
        },
        out is Ok <==> old(r)@.pending.contains_key(p) && offset + block@.len()
            <= old(r)@.pending[p].bytes.len(),
        out matches Ok(Some(bytes)) ==> {
            &&& is_with_block(old(r)@.pending[p].bytes, offset as int, block@, bytes@)
            &&& old(r)@.pending[p].writes + block@.len() == bytes@.len()
            &&& !final(r)@.pending.contains_key(p)
        },
        out matches Ok(None) ==> {
            &&& final(r)@.pending.contains_key(p)
            &&& is_with_block(
                old(r)@.pending[p].bytes,
                offset as int,
                block@,
                final(r)@.pending[p].bytes,
            )
            &&& final(r)@.pending[p].writes == old(r)@.pending[p].writes + block@.len()
            &&& final(r)@.pending[p].writes != final(r)@.pending[p].bytes.len()
        },
        final(r)@.finished == old(r)@.finished,
        forall|q: usize|
            q != p ==> {
                &&& #[trigger] final(r)@.pending.contains_key(q) == old(r)@.pending.contains_key(q)
                &&& old(r)@.pending.contains_key(q) ==> final(r)@.pending[q] == old(r)@.pending[q]
            },
{
}

/// A complete piece is kept exactly where its digest is the expected one, byte by
/// byte; else nothing changes.
pub proof fn law_piece_is_kept_by_digest(
    r: &mut Retrieval,
    piece_i: usize,
    bytes: Vec<u8>,
    expected: [u8; 20],
    digest: [u8; 20],
    out: Result<(), BlockError>,
    q: usize,
)
    requires
        call_ensures(Retrieval::settle, (r, piece_i, bytes, &expected, &digest), out),
    ensures
        out is Ok <==> forall|i: int| 0 <= i < 20 ==> #[trigger] expected@[i] == digest@[i],
        out is Ok ==> final(r)@.finished.contains_key(piece_i) && final(r)@.finished[piece_i]
            == bytes@,
        out matches Err(e) ==> e == BlockError::Corrupt && final(r)@ == old(r)@,
        final(r)@.pending == old(r)@.pending,
        q != piece_i ==> final(r)@.finished.contains_key(q) == old(r)@.finished.contains_key(q),
        q != piece_i && old(r)@.finished.contains_key(q) ==> final(r)@.finished[q]
            == old(r)@.finished[q],
{
    if forall|i: int| 0 <= i < 20 ==> #[trigger] expected@[i] == digest@[i] {
        assert(expected@ =~= digest@);
    }
}

/// A new download has the identifier, the torrent, and one state for each twenty
/// bytes of digests, none of them set.
pub proof fn law_new_download_has_every_piece_to_fetch(
    torrent: Torrent,
    id: [u8; 20],
    d: Downloader,
    held: &Torrent,
    own_id: [u8; 20],
    state: &[bool],
)
    requires
        call_ensures(Downloader::new, (torrent, id), d),
        call_ensures(Downloader::torrent, (&d,), held),
        call_ensures(Downloader::id, (&d,), own_id),
        call_ensures(Downloader::pieces_state, (&d,), state),
    ensures
        *held == torrent,
        own_id@ == id@,
        20 * state@.len() <= torrent.info.pieces@.len() < 20 * state@.len() + 20,
        forall|i: int| 0 <= i < state@.len() ==> !#[trigger] state@[i],
{
}

/// What a download holds can be asked of it.
pub proof fn law_download_tells_what_it_holds(
    d: Downloader,
    held: &Torrent,
    id: [u8; 20],
    state: &[bool],
)
    requires
        call_ensures(Downloader::torrent, (&d,), held),
        call_ensures(Downloader::id, (&d,), id),
        call_ensures(Downloader::pieces_state, (&d,), state),
    ensures
        *held == d@.torrent,
        id@ == d@.id,
        state@ == d@.pieces_state,
{
}

/// Noting that a piece is on disk sets its state and changes nothing else.
pub proof fn law_written_piece_is_noted(d: &mut Downloader, i: usize, done: ())
    requires
        call_ensures(Downloader::mark_written, (d, i), done),
        i < old(d)@.pieces_state.len(),
    ensures
        final(d)@.id == old(d)@.id,
        final(d)@.torrent == old(d)@.torrent,
        final(d)@.pieces_state.len() == old(d)@.pieces_state.len(),
        final(d)@.pieces_state[i as int],
        forall|j: int|
            0 <= j < old(d)@.pieces_state.len() && j != i ==> #[trigger] final(d)@.pieces_state[j]
                == old(d)@.pieces_state[j],
{
}

/// The length of a torrent is that of its files together, where it can be counted.
pub proof fn law_total_is_that_of_files(d: Downloader, n: usize, checked: Option<usize>)
    requires
        call_ensures(Downloader::total_length, (&d,), n),
        call_ensures(Downloader::checked_total, (&d,), checked),
    ensures
        checked is None <==> bytes_offered(d@.torrent.info.files) > usize::MAX,
        checked matches Some(total) ==> total == bytes_offered(d@.torrent.info.files),
        bytes_offered(d@.torrent.info.files) <= usize::MAX ==> n == bytes_offered(
            d@.torrent.info.files,
        ),
{
    lemma_total(d@.torrent.info.files);
}

/// A piece has the piece length, but for the last, which ends with the files.
pub proof fn law_piece_length_is_right(d: Downloader, i: usize, n: usize)
    requires
        call_ensures(Downloader::piece_length, (&d, i), n),
    ensures
        is_size_of(d@.torrent.info, i as int, n as int),
{
    lemma_size(d@.torrent.info, i as int);
}

/// A piece can be located exactly where it starts inside files whose length can be
/// counted, and placed exactly where it ends inside the single file.
pub proof fn law_bounds_of_files_are_kept(
    d: Downloader,
    i: usize,
    located: bool,
    len: usize,
    placed: bool,
)
    requires
        call_ensures(Downloader::can_locate, (&d, i), located),
        call_ensures(Downloader::can_place, (&d, i, len), placed),
    ensures
        located <==> bytes_offered(d@.torrent.info.files) <= usize::MAX && i
            * d@.torrent.info.piece_length <= bytes_offered(d@.torrent.info.files),
        placed <==> (d@.torrent.info.files matches FileList::SingleFile { length } && i
            * d@.torrent.info.piece_length + len <= length),
{
    lemma_total(d@.torrent.info.files);
    assert(i * d@.torrent.info.piece_length == d@.torrent.info.piece_length * i)
        by (nonlinear_arith);
}

/// The digest of a piece is its twenty bytes of the torrent.
pub proof fn law_expected_digest_is_the_torrents(d: Downloader, piece_i: usize, hash: [u8; 20])
    requires
        20 * piece_i + 20 <= d@.torrent.info.pieces@.len(),
        call_ensures(Downloader::expected_hash, (&d, piece_i), hash),
    ensures
        forall|j: int|
            0 <= j < 20 ==> #[trigger] hash@[j] == d@.torrent.info.pieces@[20 * piece_i + j],
{
    assert forall|j: int| 0 <= j < 20 implies #[trigger] hash@[j]
        == d@.torrent.info.pieces@[20 * piece_i + j] by {
        assert(hash@[j] == d@.torrent.info.pieces@.subrange(
            20 * piece_i,
            20 * piece_i + 20,
        )[j]);
    }
}

/// Whether `m` asks for `len` bytes of piece `piece` from `offset` on, each of the
/// three with its low 32 bits.
pub open spec fn asks_for(m: PeerMessage, piece: int, offset: int, len: int) -> bool {
    &&& m.length@ == seq![0u8, 0u8, 0u8, 13u8]
    &&& m.kind == 6
    &&& m.content@.len() == 12
    &&& number_at(m.content@, 0) == piece % 0x1_0000_0000
    &&& number_at(m.content@, 4) == offset % 0x1_0000_0000
    &&& number_at(m.content@, 8) == len % 0x1_0000_0000
}

/// Whether block `k` of a piece of `size` bytes has `len` bytes: blocks have
/// 16384, but for the last, which ends with the piece.
pub open spec fn is_block_length(size: int, k: int, len: int) -> bool {
    &&& 0 < len <= 16384
    &&& 16384 * k + len <= size
    &&& len == 16384 || 16384 * k + len == size
}

/// Whether `m` asks for block `k` of piece `piece`, which has `size` bytes.
pub open spec fn asks_for_block(m: PeerMessage, piece: int, size: int, k: int) -> bool {
    exists|len: int|
        #[trigger] is_block_length(size, k, len) && asks_for(m, piece, 16384 * k, len)
}

proof fn lemma_request(m: PeerMessage, piece: int, offset: int, len: int)
    requires
        m@ == Message::request(piece, offset, len),
        0 <= piece,
        0 <= offset,
        0 <= len,
    ensures
        asks_for(m, piece, offset, len),
{
    assert(m@.length == m.length@);
    assert(m@.content == m.content@);
    assert(m@.kind == m.kind);
    assert(m.length@ =~= seq![0u8, 0u8, 0u8, 13u8]);
    let c = m.content@;
    let (p, o, s) = (
        be_bytes(piece),
        be_bytes(offset),
        be_bytes(len),
    );
    assert(c == p + o + s);
    assert(c[0] == p[0] && c[1] == p[1] && c[2] == p[2] && c[3] == p[3]);
    assert(c[4] == o[0] && c[5] == o[1] && c[6] == o[2] && c[7] == o[3]);
    assert(c[8] == s[0] && c[9] == s[1] && c[10] == s[2] && c[11] == s[3]);
    lemma_number_bytes(piece);
    lemma_number_bytes(offset);
    lemma_number_bytes(len);
}

/// The requests for a piece ask for that piece, block by block from its start to
/// its end, without a gap and without asking for a byte twice. There are requests
/// exactly where there is a peer.
pub proof fn law_requests_ask_for_piece(
    d: Downloader,
    piece_i: usize,
    n_peers: usize,
    size: usize,
    plan: Result<Vec<(usize, PeerMessage)>, NoPeers>,
)
    requires
        call_ensures(Downloader::piece_length, (&d, piece_i), size),
        call_ensures(Downloader::request_piece, (&d, piece_i, n_peers), plan),
    ensures
        plan is Ok <==> n_peers > 0,
        plan matches Ok(requests) ==> {
            &&& 16384 * (requests@.len() - 1) < size <= 16384 * requests@.len()
            &&& forall|k: int|
                0 <= k < requests@.len() ==> asks_for_block(
                    (#[trigger] requests@[k]).1,
                    piece_i as int,
                    size as int,
                    k,
                )
        },
{
    if let Ok(requests) = plan {
        let p = piece_requests(piece_i as int, size as int, n_peers as int);
        assert(planned(requests@) == p);
        assert(planned(requests@).len() == requests@.len());
        assert(requests@.len() == (size + 16383) / 16384);
        assert forall|k: int| 0 <= k < requests@.len() implies asks_for_block(
            (#[trigger] requests@[k]).1,
            piece_i as int,
            size as int,
            k,
        ) by {
            assert(planned(requests@)[k] == p[k]);
            law_requests_are_small(size as int, k);
            let len = block_size(size as int, k);
            lemma_request(requests@[k].1, piece_i as int, block_start(k), len);
            assert(is_block_length(size as int, k, len) && asks_for(
                requests@[k].1,
                piece_i as int,
                16384 * k,
                len,
            ));
        }
    }
}

/// The peers take turns, in their order, from the first on.
pub proof fn law_requests_go_round(
    d: Downloader,
    piece_i: usize,
    n_peers: usize,
    requests: Vec<(usize, PeerMessage)>,
    k: int,
)
    requires
        call_ensures(
            Downloader::request_piece,
            (&d, piece_i, n_peers),
            Ok::<Vec<(usize, PeerMessage)>, NoPeers>(requests),
        ),
        0 <= k < requests@.len(),
    ensures
        requests@[k].0 < n_peers,
        k == 0 ==> requests@[k].0 == 0,
        k > 0 ==> requests@[k].0 == if requests@[k - 1].0 + 1 < n_peers {
            requests@[k - 1].0 + 1
        } else {
            0
        },
{
    let size = d@.torrent.info.piece_size(piece_i as int);
    let p = piece_requests(piece_i as int, size, n_peers as int);
    let n = n_peers as int;
    assert(planned(requests@) == p);
    assert(planned(requests@).len() == requests@.len());
    assert(planned(requests@)[k] == p[k]);
    assert(requests@[k].0 == k % n);
    if k == 0 {
        vstd::arithmetic::div_mod::lemma_small_mod(0, n_peers as nat);
    } else {
        assert(planned(requests@)[k - 1] == p[k - 1]);
        assert(requests@[k - 1].0 == (k - 1) % n);
        let r = (k - 1) % n;
        vstd::arithmetic::div_mod::lemma_fundamental_div_mod(k - 1, n);
        let q = (k - 1) / n;
        if r + 1 < n {
            vstd::arithmetic::div_mod::lemma_fundamental_div_mod_converse(k, n, q, r + 1);
        } else {
            assert(k == (q + 1) * n + 0) by (nonlinear_arith)
                requires
                    k - 1 == n * q + r,
                    r + 1 == n,
            ;
            vstd::arithmetic::div_mod::lemma_fundamental_div_mod_converse(k, n, q + 1, 0);
        }
    }
}

/// Whether two plans send the same messages to the same peers.
pub open spec fn same_plan(a: Seq<(usize, PeerMessage)>, b: Seq<(usize, PeerMessage)>) -> bool {
    &&& a.len() == b.len()
    &&& forall|k: int|
        0 <= k < a.len() ==> {
            &&& (#[trigger] a[k]).0 == b[k].0
            &&& a[k].1.length@ == b[k].1.length@
            &&& a[k].1.kind == b[k].1.kind
            &&& a[k].1.content@ == b[k].1.content@
        }
}

proof fn lemma_same_plan(a: Seq<(usize, PeerMessage)>, b: Seq<(usize, PeerMessage)>)
    requires
        planned(a) == planned(b),
    ensures
        same_plan(a, b),
{
    assert(planned(a).len() == a.len());
    assert(planned(b).len() == b.len());
    assert forall|k: int| 0 <= k < a.len() implies {
        &&& (#[trigger] a[k]).0 == b[k].0
        &&& a[k].1.length@ == b[k].1.length@
        &&& a[k].1.kind == b[k].1.kind
        &&& a[k].1.content@ == b[k].1.content@
    } by {
        let (x, y) = (a[k].1, b[k].1);
        assert(planned(a)[k] == planned(b)[k]);
        assert(planned(a)[k] == (a[k].0 as int, x@));
        assert(planned(b)[k] == (b[k].0 as int, y@));
        assert(x@.length == x.length@ && y@.length == y.length@);
        assert(x@.kind == x.kind && y@.kind == y.kind);
        assert(x@.content == x.content@ && y@.content == y.content@);
    }
}

/// The requests for several pieces are those for each of them, one piece after
/// the other.
pub proof fn law_range_is_requested_piece_by_piece(
    d: Downloader,
    pieces: &[usize],
    more: &[usize],
    last: usize,
    n_peers: usize,
    requests: Vec<(usize, PeerMessage)>,
    retrieval: Retrieval,
    others: Vec<(usize, PeerMessage)>,
    all: Vec<(usize, PeerMessage)>,
    all_retrieval: Retrieval,
)
    requires
        n_peers > 0,
        more@ == pieces@.push(last),
        call_ensures(
            Downloader::download_range,
            (&d, pieces, n_peers),
            Ok::<(Vec<(usize, PeerMessage)>, Retrieval), NoPeers>((requests, retrieval)),
        ),
        call_ensures(
            Downloader::request_piece,
            (&d, last, n_peers),
            Ok::<Vec<(usize, PeerMessage)>, NoPeers>(others),
        ),
        call_ensures(
            Downloader::download_range,
            (&d, more, n_peers),
            Ok::<(Vec<(usize, PeerMessage)>, Retrieval), NoPeers>((all, all_retrieval)),
        ),
    ensures
        same_plan(all@, requests@ + others@),
        pieces@.len() == 0 ==> requests@.len() == 0,
{
    let info = d@.torrent.info;
    let n = pieces@.len() as int;
    lemma_range_prefix(info, pieces@, more@, n, n_peers as int);
    assert(more@[n] == last);
    assert(planned(requests@ + others@) =~= planned(requests@) + planned(others@));
    assert(planned(all@) == range_requests(info, more@, n + 1, n_peers as int));
    lemma_same_plan(all@, requests@ + others@);
    if n == 0 {
        assert(planned(requests@).len() == requests@.len());
    }
}

proof fn lemma_range_prefix(info: Info, a: Seq<usize>, b: Seq<usize>, n: int, n_peers: int)
    requires
        0 <= n <= a.len(),
        n <= b.len(),
        forall|i: int| 0 <= i < n ==> #[trigger] a[i] == b[i],
    ensures
        range_requests(info, a, n, n_peers) == range_requests(info, b, n, n_peers),
    decreases n,
{
    if n > 0 {
        lemma_range_prefix(info, a, b, n - 1, n_peers);
        assert(a[n - 1] == b[n - 1]);
    }
}

/// Requests fail exactly where something is asked for and there is no peer; where
/// nothing is asked for, nothing is requested.
pub proof fn law_range_needs_a_peer(
    d: Downloader,
    pieces: &[usize],
    n_peers: usize,
    r: Result<(Vec<(usize, PeerMessage)>, Retrieval), NoPeers>,
)
    requires
        call_ensures(Downloader::download_range, (&d, pieces, n_peers), r),
    ensures
        r is Err <==> n_peers == 0 && pieces@.len() > 0,
        r matches Ok((requests, _)) ==> pieces@.len() == 0 ==> requests@.len() == 0,
{
    if let Ok((requests, _)) = r {
        assert(planned(requests@).len() == requests@.len());
    }
}

/// Whether each of `pieces` starts inside the files, whose length can be counted.
pub open spec fn start_inside(info: Info, pieces: Seq<usize>) -> bool {
    &&& bytes_offered(info.files) <= usize::MAX
    &&& forall|p: usize| #[trigger]
        pieces.contains(p) ==> p * info.piece_length <= bytes_offered(info.files)
}

proof fn lemma_start_inside(info: Info, pieces: Seq<usize>)
    requires
        start_inside(info, pieces),
    ensures
        can_start(info, pieces),
{
    lemma_total(info.files);
}

/// Whether the pieces of `pieces` are pending as blanks of their lengths, and
/// nothing else is pending or finished.
pub open spec fn waits_for(info: Info, pieces: Seq<usize>, state: RetrievalState) -> bool {
    &&& forall|p: usize| #[trigger] state.pending.contains_key(p) <==> pieces.contains(p)
    &&& forall|p: usize| !#[trigger] state.finished.contains_key(p)
    &&& forall|p: usize| #[trigger]
        state.pending.contains_key(p) ==> {
            &&& state.pending[p].writes == 0
            &&& is_size_of(info, p as int, state.pending[p].bytes.len() as int)
            &&& forall|x: int|
                0 <= x < state.pending[p].bytes.len() ==> #[trigger] state.pending[p].bytes[x] == 0
        }
}

/// A download waits for the pieces that it is told to retrieve or to request, for
/// all bytes of each, and for no others.
pub proof fn law_requested_pieces_are_awaited(
    d: Downloader,
    pieces: &[usize],
    r: Retrieval,
    n_peers: usize,
    requests: Vec<(usize, PeerMessage)>,
    same: Retrieval,
)
    requires
        start_inside(d@.torrent.info, pieces@),
        call_ensures(Downloader::retrieve_pieces, (&d, pieces), r),
        call_ensures(
            Downloader::download_range,
            (&d, pieces, n_peers),
            Ok::<(Vec<(usize, PeerMessage)>, Retrieval), NoPeers>((requests, same)),
        ),
    ensures
        waits_for(d@.torrent.info, pieces@, r@),
        waits_for(d@.torrent.info, pieces@, same@),
{
    let info = d@.torrent.info;
    let state = started(info, pieces@);
    lemma_start_inside(info, pieces@);
    lemma_awaited(info, pieces@, pieces@.len() as int);
    assert(pieces@.take(pieces@.len() as int) =~= pieces@);
    assert(r@.pending == state.pending && same@.pending == state.pending);
    assert forall|p: usize| #[trigger] state.pending.contains_key(p) implies {
        &&& state.pending[p].writes == 0
        &&& is_size_of(info, p as int, state.pending[p].bytes.len() as int)
        &&& forall|x: int|
            0 <= x < state.pending[p].bytes.len() ==> #[trigger] state.pending[p].bytes[x] == 0
    } by {
        lemma_size(info, p as int);
        assert(pieces@.contains(p));
        assert(info.piece_size(p as int) >= 0);
    }
    assert(waits_for(info, pieces@, r@)) by {
        assert forall|p: usize| #[trigger] r@.pending.contains_key(p) implies
            state.pending.contains_key(p) by {}
    }
    assert(waits_for(info, pieces@, same@)) by {
        assert forall|p: usize| #[trigger] same@.pending.contains_key(p) implies
            state.pending.contains_key(p) by {}
    }
}

/// What comes of a block: a block of a piece that is not awaited, or beyond the
/// end of its piece, is refused and changes nothing. Any other is put into its
/// piece. Where that makes as many bytes as the piece has, the piece is no longer
/// awaited; it is kept exactly where the SHA-1 digest of its bytes is the one at
/// its place in the torrent, and refused as corrupt else.
pub proof fn law_block_is_taken_or_refused(
    d: Downloader,
    r: &mut Retrieval,
    p: usize,
    offset: usize,
    block: &[u8],
    out: Result<bool, BlockError>,
    whole: Seq<u8>,
)
    requires
        call_ensures(Downloader::receive_block, (&d, r, p, offset, block), out),
        old(r)@.pending.contains_key(p) && offset + block@.len() <= old(r)@.pending[p].bytes.len()
            ==> is_with_block(old(r)@.pending[p].bytes, offset as int, block@, whole),
    ensures
        ({
            let before = old(r)@;
            let after = final(r)@;
            let expected = d@.torrent.info.pieces@.subrange(20 * p, 20 * p + 20);
            if !before.pending.contains_key(p) {
                out == Err::<bool, BlockError>(BlockError::Unrequested) && after == before
            } else if offset + block@.len() > before.pending[p].bytes.len() {
                out == Err::<bool, BlockError>(BlockError::OutOfBounds) && after == before
            } else if before.pending[p].writes + block@.len() != whole.len() {
                &&& out == Ok::<bool, BlockError>(false)
                &&& after.pending.contains_key(p)
                &&& after.pending[p].bytes == whole
                &&& after.pending[p].writes == before.pending[p].writes + block@.len()
                &&& after.finished == before.finished
            } else if sha1_digest(whole) == expected {
                &&& out matches Ok(done)
                &&& done <==> forall|q: usize| !#[trigger] after.pending.contains_key(q)
                &&& !after.pending.contains_key(p)
                &&& after.finished.contains_key(p)
                &&& after.finished[p] == whole
            } else {
                &&& out == Err::<bool, BlockError>(BlockError::Corrupt)
                &&& !after.pending.contains_key(p)
                &&& after.finished == before.finished
            }
        }),
        forall|q: usize|
            q != p ==> {
                &&& #[trigger] final(r)@.pending.contains_key(q) == old(r)@.pending.contains_key(q)
                &&& old(r)@.pending.contains_key(q) ==> final(r)@.pending[q] == old(r)@.pending[q]
            },
        forall|q: usize|
            q != p ==> {
                &&& #[trigger] final(r)@.finished.contains_key(q) == old(r)@.finished.contains_key(
                    q,
                )
                &&& old(r)@.finished.contains_key(q) ==> final(r)@.finished[q]
                    == old(r)@.finished[q]
            },
{
    let before = old(r)@;
    let after = final(r)@;
    if before.pending.contains_key(p) && offset + block@.len() <= before.pending[p].bytes.len() {
        let with = before.pending[p].written(offset as int, block@);
        assert(with.bytes =~= whole);
        assert(20 * p == p * 20);
        if before.pending[p].writes + block@.len() != whole.len() {
            assert(after.pending.contains_key(p));
            assert(after.pending.dom().contains(p));
        } else if forall|q: usize| !#[trigger] after.pending.contains_key(q) {
            assert(after.pending.dom() =~= Set::empty());
        } else {
            let q = choose|q: usize| #[trigger] after.pending.contains_key(q);
            assert(after.pending.dom().contains(q));
        }
    }
}

/// Whether every finished piece has, as its SHA-1 digest, its twenty bytes of the
/// torrent.
pub open spec fn digests_hold(pieces: Seq<u8>, state: RetrievalState) -> bool {
    forall|p: usize| #[trigger]
        state.finished.contains_key(p) ==> sha1_digest(state.finished[p]) == pieces.subrange(
            20 * p,
            20 * p + 20,
        )
}

/// Whatever block comes in, every finished piece has the digest of the torrent.
pub proof fn law_kept_pieces_have_their_digests(
    d: Downloader,
    r: &mut Retrieval,
    p: usize,
    offset: usize,
    block: &[u8],
    out: Result<bool, BlockError>,
)
    requires
        call_ensures(Downloader::receive_block, (&d, r, p, offset, block), out),
        digests_hold(d@.torrent.info.pieces@, old(r)@),
    ensures
        digests_hold(d@.torrent.info.pieces@, final(r)@),
{
    let before = old(r)@;
    let whole = if before.pending.contains_key(p) {
        before.pending[p].written(offset as int, block@).bytes
    } else {
        Seq::empty()
    };
    law_block_is_taken_or_refused(d, r, p, offset, block, out, whole);
    let after = final(r)@;
    assert forall|q: usize| #[trigger] after.finished.contains_key(q) implies sha1_digest(
        after.finished[q],
    ) == d@.torrent.info.pieces@.subrange(20 * q, 20 * q + 20) by {
        if q != p || !(sha1_digest(whole) == d@.torrent.info.pieces@.subrange(
            20 * p,
            20 * p + 20,
        )) {
            assert(before.finished.contains_key(q));
        }
    }
}

/// Whatever blocks come in, and however many, every finished piece was asked for,
/// has its length, and has as its SHA-1 digest its twenty bytes of the torrent.
pub proof fn law_finished_pieces_are_the_torrents(
    info: Info,
    pieces: Seq<usize>,
    queue: Seq<Delivery>,
    p: usize,
)
    requires
        start_inside(info, pieces),
        forall|j: int| 0 <= j < queue.len() ==> 0 <= (#[trigger] queue[j]).offset,
        drained(info, started(info, pieces), queue).0.finished.contains_key(p),
    ensures
        pieces.contains(p),
        is_size_of(
            info,
            p as int,
            drained(info, started(info, pieces), queue).0.finished[p].len() as int,
        ),
        sha1_digest(drained(info, started(info, pieces), queue).0.finished[p])
            == info.pieces@.subrange(20 * p, 20 * p + 20),
{
    lemma_start_inside(info, pieces);
    law_retrieval_accounts_for_pieces(info, pieces, queue);
    lemma_size(info, p as int);
    assert(20 * p == p * 20);
}

/// A block can be received exactly where it is refused at sight or its numbers can
/// be counted with, and a piece that it completes has a digest in the torrent.
pub proof fn law_receivable_blocks_are_told(
    d: Downloader,
    r: Retrieval,
    p: usize,
    offset: usize,
    block: &[u8],
    b: bool,
)
    requires
        call_ensures(Downloader::can_receive, (&d, &r, p, offset, block), b),
    ensures
        r@.pending.contains_key(p) && offset + block@.len() > usize::MAX ==> !b,
        !r@.pending.contains_key(p) ==> b,
        r@.pending.contains_key(p) && r@.pending[p].bytes.len() < offset + block@.len()
            <= usize::MAX ==> b,
        r@.pending.contains_key(p) && offset + block@.len() <= r@.pending[p].bytes.len()
            && offset + block@.len() <= usize::MAX ==> (b <==> r@.pending[p].writes + block@.len()
            <= usize::MAX && (r@.pending[p].writes + block@.len() == r@.pending[p].bytes.len()
            ==> 20 * p + 20 <= d@.torrent.info.pieces@.len() && r@.pending[p].bytes.len() * 8
            <= u64::MAX)),
{
    if r@.pending.contains_key(p) && offset + block@.len() <= r@.pending[p].bytes.len() {
        assert(r@.pending[p].written(offset as int, block@).bytes.len()
            == r@.pending[p].bytes.len());
    }
}

/// A piece goes to the file of the torrent's name, as it is, at its place.
pub proof fn law_piece_goes_to_its_place(
    d: Downloader,
    i: usize,
    piece: &[u8],
    writes: Vec<(&str, usize, &[u8])>,
)
    requires
        call_ensures(Downloader::write_piece, (&d, i, piece), writes),
    ensures
        writes@.len() == 1,
        writes@[0].0@ == d@.torrent.info.name@,
        writes@[0].1 == i * d@.torrent.info.piece_length,
        writes@[0].2@ == piece@,
{
    assert(i * d@.torrent.info.piece_length == d@.torrent.info.piece_length * i)
        by (nonlinear_arith);
}

/// The batches of a download follow each other without a gap from the first piece
/// to the last that the torrent has a digest of, one or two pieces each.
pub proof fn law_batches_run_through_pieces(
    d: Downloader,
    ranges: Vec<(usize, usize)>,
    k: int,
)
    requires
        call_ensures(Downloader::batches, (&d,), ranges),
        0 <= k < ranges@.len(),
    ensures
        ranges@[k].0 < ranges@[k].1 <= ranges@[k].0 + 2,
        k == 0 ==> ranges@[k].0 == 0,
        k > 0 ==> ranges@[k].0 == ranges@[k - 1].1,
        k == ranges@.len() - 1 ==> 20 * ranges@[k].1 <= d@.torrent.info.pieces@.len() < 20
            * ranges@[k].1 + 20,
{
    let n = d@.torrent.info.piece_count();
    assert(ranges@[k].0 == 2 * k);
    if k > 0 {
        assert(ranges@[k - 1].1 == batch(n, k - 1).1);
    }
}

/// Each piece that the torrent has a digest of is in one batch.
pub proof fn law_every_digest_is_in_a_batch(
    d: Downloader,
    ranges: Vec<(usize, usize)>,
    i: int,
)
    requires
        call_ensures(Downloader::batches, (&d,), ranges),
        0 <= i,
        20 * i + 20 <= d@.torrent.info.pieces@.len(),
    ensures
        exists|k: int|
            0 <= k < ranges@.len() && (#[trigger] ranges@[k]).0 <= i < ranges@[k].1,
{
    let k = i / 2;
    assert(ranges@[k].0 <= i < ranges@[k].1);
}

/// Where the torrent has as many digests as its files have pieces, the batches
/// reach every byte of the files.
pub proof fn law_batches_reach_every_byte(
    torrent: Torrent,
    id: [u8; 20],
    d: Downloader,
    ranges: Vec<(usize, usize)>,
    x: int,
)
    requires
        call_ensures(Downloader::new, (torrent, id), d),
        call_ensures(Downloader::batches, (&d,), ranges),
        torrent.info.piece_length > 0,
        torrent.info.pieces@.len() % 20 == 0,
        bytes_offered(torrent.info.files) <= torrent.info.pieces@.len() / 20
            * torrent.info.piece_length,
        0 <= x < bytes_offered(torrent.info.files) <= usize::MAX,
    ensures
        exists|k: int, i: int, size: int|
            0 <= k < ranges@.len() && (#[trigger] ranges@[k]).0 <= i < ranges@[k].1
                && #[trigger] is_size_of(torrent.info, i, size) && i * torrent.info.piece_length
                <= x < i * torrent.info.piece_length + size,
{
    let info = torrent.info;
    let n = info.pieces@.len() as int / 20;
    lemma_total(info.files);
    law_pieces_tile_files(info, x);
    let i = choose|i: int| 0 <= i && info.has_start(i) && #[trigger] info.in_piece(i, x);
    let size = info.piece_size(i);
    lemma_size(info, i);
    assert(i < n) by (nonlinear_arith)
        requires
            i * info.piece_length <= x,
            x < n * info.piece_length,
            info.piece_length > 0,
    ;
    law_every_digest_is_in_a_batch(d, ranges, i);
    let k = choose|k: int| 0 <= k < ranges@.len() && (#[trigger] ranges@[k]).0 <= i < ranges@[k].1;
    assert(0 <= k < ranges@.len() && ranges@[k].0 <= i < ranges@[k].1 && is_size_of(
        info,
        i,
        size,
    ));
}

/// A block that answers a request is handed to the client for the piece and the
/// offset that were asked for. The answer repeats the first eight bytes of the
/// request's content, and the block follows.
pub proof fn law_answer_is_for_the_request(
    m: PeerMessage,
    piece: int,
    offset: int,
    len: int,
    agent: &mut PeerAgent,
    answer: PeerMessage,
    block: Seq<u8>,
    action: AgentAction,
)
    requires
        asks_for(m, piece, offset, len),
        0 <= piece <= u32::MAX,
        0 <= offset <= u32::MAX,
        answer.kind == 7,
        answer.content@ == m.content@.take(8) + block,
        call_ensures(PeerAgent::handle, (agent, AgentEvent::Received(answer)), action),
    ensures
        action matches AgentAction::Deliver(p, o, data) && p == piece && o == offset && data@
            == block,
{
    let (c, a) = (m.content@, answer.content@);
    law_agent_delivers_block(agent, AgentEvent::Received(answer), action);
    assert(a[0] == c[0] && a[1] == c[1] && a[2] == c[2] && a[3] == c[3]);
    assert(a[4] == c[4] && a[5] == c[5] && a[6] == c[6] && a[7] == c[7]);
    assert(a.skip(8) =~= block);
}

/// The tracker of the torrent is asked on behalf of this client, under the hash
/// of the torrent's info dictionary, with all bytes left to fetch.
pub proof fn law_own_tracker_is_asked(
    d: Downloader,
    bytes: Vec<u8>,
    url: Result<String, InvalidAnnounce>,
)
    requires
        call_ensures(Torrent::info, (&d@.torrent,), bytes),
        call_ensures(Downloader::tracker_request, (&d,), url),
    ensures
        exists|query: Seq<char>|
            #[trigger] asks_for_peers(
                query,
                d@.id,
                bytes_offered(d@.torrent.info.files),
                sha1_digest(bytes@),
            ) && url_with_query(d@.torrent.announce@, query) == match url {
                Ok(u) => Some(u@),
                Err(_) => None,
            },
{
    let total = d@.torrent.info.files.total();
    lemma_total(d@.torrent.info.files);
    lemma_query_asks(d@.id, total as nat, sha1_digest(bytes@));
    let query = query_text(d@.id, total as nat, sha1_digest(bytes@));
    assert(asks_for_peers(
        query,
        d@.id,
        bytes_offered(d@.torrent.info.files),
        sha1_digest(bytes@),
    ));
}

/// As many peers are connected to as are asked for, where there are so many and
/// any are asked for; else all there are.
pub proof fn law_asked_number_of_peers(available: usize, n: usize, m: usize)
    requires
        call_ensures(peers_to_connect, (available, n), m),
    ensures
        m <= available,
        n == 0 || n > available ==> m == available,
        0 < n <= available ==> m == n,
{
}

/// A peer is greeted in order: its bit field is waited for, interest is told, its
/// word on choking is waited for, and then it is connected. A wait ends with the
/// peer's word or with the connection, and with nothing else.
pub proof fn law_peer_is_greeted_in_order(
    step: Greeting,
    peer: PeerHandle,
    closed: bool,
    next: Greeting,
)
    requires
        call_ensures(Greeting::next, (step, &peer, closed), next),
    ensures
        step is AwaitBitfield ==> next == if peer.bitfield is Some || closed {
            Greeting::SendInterested
        } else {
            Greeting::AwaitBitfield
        },
        step is SendInterested ==> next == Greeting::AwaitStatus,
        step is AwaitStatus ==> next == if peer.status is Some || closed {
            Greeting::Connected
        } else {
            Greeting::AwaitStatus
        },
        step is Connected ==> next == Greeting::Connected,
{
}

/// Each refusal is told in its own words.
pub proof fn law_refusals_are_told(
    no_peers: &str,
    chunk: &str,
    unrequested: &str,
    out_of_bounds: &str,
    corrupt: &str,
)
    requires
        call_ensures(NoPeers::message, (&NoPeers,), no_peers),
        call_ensures(ChunkOutOfBounds::message, (&ChunkOutOfBounds,), chunk),
        call_ensures(BlockError::message, (&BlockError::Unrequested,), unrequested),
        call_ensures(BlockError::message, (&BlockError::OutOfBounds,), out_of_bounds),
        call_ensures(BlockError::message, (&BlockError::Corrupt,), corrupt),
    ensures
        no_peers@ == "No peers available"@,
        chunk@ == "Cannot fit chunk into piece"@,
        unrequested@ == "Receive a block that we did not request"@,
        out_of_bounds@ == "Save block in memory"@,
        corrupt@ == "Piece does not have the expected hash"@,
{
}

} // verus!
