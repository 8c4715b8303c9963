//! The download of a torrent: its pieces, the blocks to request for them and
//! from whom, and what to do with the blocks that come in.

use crate::consts::{BLOCK_SIZE, PIECE_SHA1_LENGTH};
use crate::outside::{sha1, sha1_digest, url_with_query};
use crate::peer::{Message, PeerHandle, PeerMessage};
use crate::piece::PieceState;
use crate::retrieval::{BlockError, Retrieval, RetrievalState};
use crate::torrent::{lengths_before, FileDetails, FileList, Info, Torrent};
use crate::tracker::{
    lemma_query_length, query_text, tracker_query, tracker_url, InvalidAnnounce,
};
use crate::wire::array20;
use vstd::arithmetic::div_mod::lemma_fundamental_div_mod;
use vstd::prelude::*;

verus! {

/// A download in progress.
#[derive(Debug)]
pub struct Downloader {
    id: [u8; 20],
    torrent: Torrent,
    pieces_state: Vec<bool>,
}

/// What a `Downloader` holds.
pub struct Download {
    /// The identifier that this client goes by.
    pub id: Seq<u8>,
    pub torrent: Torrent,
    /// Which pieces are on disk.
    pub pieces_state: Seq<bool>,
}

impl View for Downloader {
    type V = Download;

    closed spec fn view(&self) -> Download {
        Download { id: self.id@, torrent: self.torrent, pieces_state: self.pieces_state@ }
    }
}

/// No peer to send a request to.
#[derive(Debug, Clone, Copy, PartialEq, Eq, Structural)]
pub struct NoPeers;

impl NoPeers {
    pub fn message(&self) -> (text: &'static str)
        ensures
            text@ == "No peers available"@,
    {
        "No peers available"
    }
}

/// The number of blocks of a piece of `size` bytes.
pub open spec fn block_count(size: int) -> int {
    (size + BLOCK_SIZE - 1) / (BLOCK_SIZE as int)
}

/// The offset of block `k` in its piece.
pub open spec fn block_start(k: int) -> int {
    k * BLOCK_SIZE
}

/// The length of block `k` of a piece of `size` bytes: the last block holds
/// what is left.
pub open spec fn block_size(size: int, k: int) -> int {
    if size - block_start(k) < BLOCK_SIZE {
        size - block_start(k)
    } else {
        BLOCK_SIZE as int
    }
}

/// Whether byte `x` of a piece of `size` bytes lies in block `k`.
pub open spec fn in_block(size: int, k: int, x: int) -> bool {
    block_start(k) <= x < block_start(k) + block_size(size, k)
}

/// The requests for a piece of `size` bytes, each with the number of the peer
/// that it goes to: the peers take turns.
pub open spec fn piece_requests(piece: int, size: int, n_peers: int) -> Seq<(int, Message)> {
    Seq::new(
        block_count(size) as nat,
        |k: int| (k % n_peers, Message::request(piece, block_start(k), block_size(size, k))),
    )
}

/// The requests for the first `n` of several pieces, one after the other.
pub open spec fn range_requests(info: Info, pieces: Seq<usize>, n: int, n_peers: int) -> Seq<
    (int, Message),
>
    decreases n,
{
    if n <= 0 {
        Seq::empty()
    } else {
        range_requests(info, pieces, n - 1, n_peers) + piece_requests(
            pieces[n - 1] as int,
            info.piece_size(pieces[n - 1] as int),
            n_peers,
        )
    }
}

/// What a plan holds.
pub open spec fn planned(plan: Seq<(usize, PeerMessage)>) -> Seq<(int, Message)> {
    plan.map_values(|p: (usize, PeerMessage)| (p.0 as int, p.1@))
}

/// The number of batches that `n` pieces are fetched in.
pub open spec fn batch_count(n: int) -> int {
    (n + 1) / 2
}

/// Batch `k` of `n` pieces: its first piece, and the one behind its last.
pub open spec fn batch(n: int, k: int) -> (int, int) {
    (
        2 * k,
        if 2 * k + 2 < n {
            2 * k + 2
        } else {
            n
        },
    )
}

/// Whether piece `i` of `n` is in batch `k`.
pub open spec fn in_batch(n: int, k: int, i: int) -> bool {
    batch(n, k).0 <= i < batch(n, k).1
}

/// The pieces to wait for, once the first `n` of `pieces` are requested.
pub open spec fn awaited(info: Info, pieces: Seq<usize>, n: int) -> Map<usize, PieceState>
    decreases n,
{
    if n <= 0 {
        Map::empty()
    } else {
        awaited(info, pieces, n - 1).insert(
            pieces[n - 1],
            PieceState::blank(info.piece_size(pieces[n - 1] as int) as nat),
        )
    }
}

/// Whether the bytes of a piece have the digest that the torrent gives.
pub open spec fn genuine(info: Info, piece: int, bytes: Seq<u8>) -> bool {
    info.piece_digest(piece) == sha1_digest(bytes)
}

/// Whether every finished piece has the digest that the torrent gives.
pub open spec fn all_genuine(info: Info, state: RetrievalState) -> bool {
    forall|p: usize| #[trigger]
        state.finished.contains_key(p) ==> genuine(info, p as int, state.finished[p])
}

/// A block as a peer sends it: the piece, the offset in it, and the bytes.
pub struct Delivery {
    pub piece: usize,
    pub offset: int,
    pub block: Seq<u8>,
}

/// Why a block, or the piece that it completes, is refused, if it is.
pub open spec fn fault(info: Info, state: RetrievalState, d: Delivery) -> Option<BlockError> {
    match state.refusal(d.piece, d.offset, d.block.len() as int) {
        Some(e) => Some(e),
        None => if state.completes(d.piece, d.offset, d.block) && !genuine(
            info,
            d.piece as int,
            state.piece_with(d.piece, d.offset, d.block).bytes,
        ) {
            Some(BlockError::Corrupt)
        } else {
            None
        },
    }
}

/// The state once a block came in.
pub open spec fn received(info: Info, state: RetrievalState, d: Delivery) -> RetrievalState {
    if state.refusal(d.piece, d.offset, d.block.len() as int) is Some {
        state
    } else {
        let stored = state.stored(d.piece, d.offset, d.block);
        let bytes = state.piece_with(d.piece, d.offset, d.block).bytes;
        if state.completes(d.piece, d.offset, d.block) && genuine(info, d.piece as int, bytes) {
            stored.settled(d.piece, bytes)
        } else {
            stored
        }
    }
}

/// A block whose numbers the machine can count with, and for a piece that it
/// completes a digest that the torrent gives.
pub open spec fn countable(info: Info, state: RetrievalState, d: Delivery) -> bool {
    &&& state.pending.contains_key(d.piece) ==> d.offset + d.block.len() <= usize::MAX
    &&& state.refusal(d.piece, d.offset, d.block.len() as int) is None ==> {
        &&& state.pending[d.piece].writes + d.block.len() <= usize::MAX
        &&& state.completes(d.piece, d.offset, d.block) ==> {
            &&& d.piece < info.piece_count()
            &&& state.pending[d.piece].bytes.len() * 8 <= u64::MAX
        }
    }
}

/// The lengths of fewer files are no more.
proof fn lemma_lengths_grow(files: Seq<FileDetails>, i: int, n: int)
    requires
        0 <= i <= n <= files.len(),
    ensures
        0 <= lengths_before(files, i) <= lengths_before(files, n),
    decreases n,
{
    if i < n {
        lemma_lengths_grow(files, i, n - 1);
    } else if n > 0 {
        lemma_lengths_grow(files, n - 1, n - 1);
    }
}

impl Downloader {
    /// One state for each piece.
    pub open spec fn well_formed(&self) -> bool {
        self@.pieces_state.len() == self@.torrent.info.piece_count()
    }

    /// A download that has nothing on disk yet, by a client that drew `id` for
    /// its identifier.
    pub fn new(torrent: Torrent, id: [u8; 20]) -> (d: Self)
        ensures
            d.well_formed(),
            d@.id == id@,
            d@.torrent == torrent,
            d@.pieces_state == Seq::new(torrent.info.piece_count() as nat, |i: int| false),
    {
        let n = torrent.info.pieces.len() / PIECE_SHA1_LENGTH;
        let pieces_state = match Self::load_pieces_state() {
            Some(state) => state,
            None => vec![false; n],
        };
        let d = Downloader { id, torrent, pieces_state };
        assert(d@.pieces_state =~= Seq::new(torrent.info.piece_count() as nat, |i: int| false));
        d
    }

    /// The state of an earlier download: none is kept.
    fn load_pieces_state() -> (state: Option<Vec<bool>>)
        ensures
            state is None,
    {
        None
    }

    /// The identifier that this client goes by.
    pub fn id(&self) -> (id: [u8; 20])
        ensures
            id@ == self@.id,
    {
        self.id
    }

    pub fn torrent(&self) -> (torrent: &Torrent)
        ensures
            *torrent == self@.torrent,
    {
        &self.torrent
    }

    /// Which pieces are on disk.
    pub fn pieces_state(&self) -> (state: &[bool])
        ensures
            state@ == self@.pieces_state,
    {
        self.pieces_state.as_slice()
    }

    /// The length of all files together, where the machine can count it.
    pub fn checked_total(&self) -> (n: Option<usize>)
        ensures
            match n {
                Some(total) => total == self@.torrent.info.files.total(),
                None => self@.torrent.info.files.total() > usize::MAX,
            },
    {
        match &self.torrent.info.files {
            FileList::SingleFile { length } => Some(*length),
            FileList::MultiFile { files } => {
                let mut sum: usize = 0;
                let mut i: usize = 0;
                while i < files.len()
                    invariant
                        i <= files@.len(),
                        sum == lengths_before(files@, i as int),
                        self@.torrent.info.files.total() == lengths_before(
                            files@,
                            files@.len() as int,
                        ),
                    decreases files@.len() - i,
                {
                    proof {
                        lemma_lengths_grow(files@, i + 1, files@.len() as int);
                    }
                    match sum.checked_add(files[i].length) {
                        Some(more) => {
                            sum = more;
                        },
                        None => {
                            return None;
                        },
                    }
                    i += 1;
                }
                Some(sum)
            },
        }
    }

    /// The length of all files together.
    pub fn total_length(&self) -> (n: usize)
        requires
            self@.torrent.info.files.total() <= usize::MAX,
        ensures
            n == self@.torrent.info.files.total(),
    {
        self.checked_total().unwrap()
    }

    /// Whether a piece starts inside the files, whose length the machine can
    /// count.
    pub fn can_locate(&self, i: usize) -> (b: bool)
        ensures
            b == self@.torrent.info.has_start(i as int),
    {
        match self.checked_total() {
            Some(total) => match i.checked_mul(self.torrent.info.piece_length) {
                Some(start) => start <= total,
                None => false,
            },
            None => false,
        }
    }

    /// The length of piece `i`.
    pub fn piece_length(&self, i: usize) -> (n: usize)
        requires
            self@.torrent.info.has_start(i as int),
        ensures
            n == self@.torrent.info.piece_size(i as int),
    {
        assert(0 <= i * self.torrent.info.piece_length) by (nonlinear_arith);
        let left = self.total_length() - i * self.torrent.info.piece_length;
        if left < self.torrent.info.piece_length {
            left
        } else {
            self.torrent.info.piece_length
        }
    }

    /// The digest that the torrent gives for a piece.
    pub fn expected_hash(&self, piece_i: usize) -> (hash: [u8; 20])
        requires
            piece_i < self@.torrent.info.piece_count(),
        ensures
            hash@ == self@.torrent.info.piece_digest(piece_i as int),
    {
        let len = self.torrent.info.pieces.len();
        assert(len == self.torrent.info.pieces@.len());
        array20(self.torrent.info.pieces.as_slice(), piece_i * PIECE_SHA1_LENGTH)
    }

    /// The requests for the blocks of a piece, each with the number of the
    /// peer that it goes to.
    pub fn request_piece(&self, piece_i: usize, n_peers: usize) -> (plan: Result<
        Vec<(usize, PeerMessage)>,
        NoPeers,
    >)
        requires
            n_peers > 0 ==> self@.torrent.info.has_start(piece_i as int),
        ensures
            match plan {
                Ok(requests) => n_peers > 0 && planned(requests@) == piece_requests(
                    piece_i as int,
                    self@.torrent.info.piece_size(piece_i as int),
                    n_peers as int,
                ),
                Err(_) => n_peers == 0,
            },
    {
        if n_peers == 0 {
            return Err(NoPeers);
        }
        let size = self.piece_length(piece_i);
        let n_block = size / BLOCK_SIZE + if size % BLOCK_SIZE > 0 {
            1
        } else {
            0
        };
        let mut requests: Vec<(usize, PeerMessage)> = Vec::new();
        let mut k: usize = 0;
        while k < n_block
            invariant
                k <= n_block == block_count(size as int),
                n_peers > 0,
                planned(requests@) =~= piece_requests(
                    piece_i as int,
                    size as int,
                    n_peers as int,
                ).take(k as int),
            decreases n_block - k,
        {
            let offset = k * BLOCK_SIZE;
            let left = size - offset;
            let len = if left < BLOCK_SIZE {
                left
            } else {
                BLOCK_SIZE
            };
            let req = PeerMessage::new_request(piece_i, offset, len);
            let ghost before = requests@;
            requests.push((k % n_peers, req));
            assert(planned(requests@) =~= planned(before).push(
                ((k % n_peers) as int, req@),
            ));
            k += 1;
        }
        Ok(requests)
    }

    /// The requests for several pieces, one piece after the other.
    fn request_range(&self, pieces: &[usize], n_peers: usize) -> (plan: Result<
        Vec<(usize, PeerMessage)>,
        NoPeers,
    >)
        requires
            n_peers > 0 ==> forall|i: int|
                0 <= i < pieces@.len() ==> self@.torrent.info.has_start(#[trigger] pieces@[i] as int),
        ensures
            match plan {
                Ok(requests) => (n_peers > 0 || pieces@.len() == 0) && planned(requests@)
                    == range_requests(
                    self@.torrent.info,
                    pieces@,
                    pieces@.len() as int,
                    n_peers as int,
                ),
                Err(_) => n_peers == 0 && pieces@.len() > 0,
            },
    {
        let mut requests: Vec<(usize, PeerMessage)> = Vec::new();
        let mut i: usize = 0;
        while i < pieces.len()
            invariant
                i <= pieces@.len(),
                i > 0 ==> n_peers > 0,
                n_peers > 0 ==> forall|i: int|
                    0 <= i < pieces@.len() ==> self@.torrent.info.has_start(
                        #[trigger] pieces@[i] as int,
                    ),
                planned(requests@) =~= range_requests(
                    self@.torrent.info,
                    pieces@,
                    i as int,
                    n_peers as int,
                ),
            decreases pieces@.len() - i,
        {
            match self.request_piece(pieces[i], n_peers) {
                Err(e) => {
                    return Err(e);
                },
                Ok(mut more) => {
                    let ghost before = requests@;
                    let ghost added = more@;
                    requests.append(&mut more);
                    assert(planned(requests@) =~= planned(before) + planned(added));
                },
            }
            i += 1;
        }
        Ok(requests)
    }

    /// Waits for several pieces.
    pub fn retrieve_pieces(&self, indices: &[usize]) -> (r: Retrieval)
        requires
            forall|i: int|
                0 <= i < indices@.len() ==> self@.torrent.info.has_start(
                    #[trigger] indices@[i] as int,
                ),
        ensures
            r@.pending == awaited(self@.torrent.info, indices@, indices@.len() as int),
            r@.finished == Map::<usize, Seq<u8>>::empty(),
    {
        let mut r = Retrieval::new();
        let mut i: usize = 0;
        while i < indices.len()
            invariant
                i <= indices@.len(),
                forall|i: int|
                    0 <= i < indices@.len() ==> self@.torrent.info.has_start(
                        #[trigger] indices@[i] as int,
                    ),
                r@.pending == awaited(self@.torrent.info, indices@, i as int),
                r@.finished == Map::<usize, Seq<u8>>::empty(),
            decreases indices@.len() - i,
        {
            let size = self.piece_length(indices[i]);
            r.expect(indices[i], size);
            i += 1;
        }
        r
    }

    /// The requests for several pieces, and what to wait for once they are
    /// sent.
    pub fn download_range(&self, pieces: &[usize], n_peers: usize) -> (r: Result<
        (Vec<(usize, PeerMessage)>, Retrieval),
        NoPeers,
    >)
        requires
            n_peers > 0 ==> forall|i: int|
                0 <= i < pieces@.len() ==> self@.torrent.info.has_start(#[trigger] pieces@[i] as int),
        ensures
            match r {
                Ok((requests, retrieval)) => {
                    &&& n_peers > 0 || pieces@.len() == 0
                    &&& planned(requests@) == range_requests(
                        self@.torrent.info,
                        pieces@,
                        pieces@.len() as int,
                        n_peers as int,
                    )
                    &&& retrieval@.pending == awaited(
                        self@.torrent.info,
                        pieces@,
                        pieces@.len() as int,
                    )
                    &&& retrieval@.finished == Map::<usize, Seq<u8>>::empty()
                },
                Err(_) => n_peers == 0 && pieces@.len() > 0,
            },
    {
        match self.request_range(pieces, n_peers) {
            Ok(requests) => Ok((requests, self.retrieve_pieces(pieces))),
            Err(e) => Err(e),
        }
    }

    /// Whether the machine can count with the numbers of a block, and a piece
    /// that it completes has a digest in the torrent.
    pub fn can_receive(
        &self,
        retrieval: &Retrieval,
        piece_i: usize,
        offset: usize,
        block: &[u8],
    ) -> (b: bool)
        ensures
            b == countable(
                self@.torrent.info,
                retrieval@,
                Delivery { piece: piece_i, offset: offset as int, block: block@ },
            ),
    {
        match retrieval.progress(piece_i) {
            None => true,
            Some((writes, size)) => match offset.checked_add(block.len()) {
                None => false,
                Some(end) => if end > size {
                    true
                } else {
                    match writes.checked_add(block.len()) {
                        None => false,
                        Some(n) => {
                            let ghost d = Delivery {
                                piece: piece_i,
                                offset: offset as int,
                                block: block@,
                            };
                            assert(retrieval@.piece_with(d.piece, d.offset, d.block).bytes.len()
                                == size);
                            n != size || (piece_i < self.torrent.info.pieces.len()
                                / PIECE_SHA1_LENGTH && size as u64 <= u64::MAX / 8)
                        },
                    }
                },
            },
        }
    }

    /// Takes a block in, and keeps the piece that it completes where its
    /// digest is the expected one. Tells whether that was the last piece.
    pub fn receive_block(
        &self,
        retrieval: &mut Retrieval,
        piece_i: usize,
        offset: usize,
        block: &[u8],
    ) -> (r: Result<bool, BlockError>)
        requires
            countable(
                self@.torrent.info,
                old(retrieval)@,
                (Delivery { piece: piece_i, offset: offset as int, block: block@ }),
            ),
        ensures
            final(retrieval)@ == received(
                self@.torrent.info,
                old(retrieval)@,
                (Delivery { piece: piece_i, offset: offset as int, block: block@ }),
            ),
            match fault(
                self@.torrent.info,
                old(retrieval)@,
                (Delivery { piece: piece_i, offset: offset as int, block: block@ }),
            ) {
                Some(e) => r matches Err(x) && x == e,
                None => r matches Ok(done) && done == final(retrieval)@.pending.dom().is_empty(),
            },
    {
        match retrieval.store(piece_i, offset, block) {
            Err(e) => Err(e),
            Ok(None) => Ok(retrieval.is_done()),
            Ok(Some(bytes)) => {
                let expected = self.expected_hash(piece_i);
                let digest = sha1(bytes.as_slice());
                match retrieval.settle(piece_i, bytes, &expected, &digest) {
                    Ok(()) => Ok(retrieval.is_done()),
                    Err(e) => Err(e),
                }
            },
        }
    }

    /// Whether `len` bytes of a piece fit into the single file.
    pub fn can_place(&self, i: usize, len: usize) -> (b: bool)
        ensures
            b == (self@.torrent.info.files matches FileList::SingleFile { length }
                && self@.torrent.info.piece_length * i + len <= length),
    {
        match &self.torrent.info.files {
            FileList::SingleFile { length } => match self.torrent.info.piece_length.checked_mul(i) {
                Some(start) => start <= *length && len <= *length - start,
                None => false,
            },
            FileList::MultiFile { .. } => false,
        }
    }

    /// Where a piece goes on disk: the file, the offset in it, and the bytes.
    pub fn write_piece<'a>(&'a self, i: usize, piece: &'a [u8]) -> (writes: Vec<
        (&'a str, usize, &'a [u8]),
    >)
        requires
            self@.torrent.info.files is SingleFile,
            self@.torrent.info.piece_length * i + piece@.len()
                <= self@.torrent.info.files->length,
        ensures
            writes@.len() == 1,
            writes@[0].0@ == self@.torrent.info.name@,
            writes@[0].1 == self@.torrent.info.piece_length * i,
            writes@[0].2@ == piece@,
    {
        assert(0 <= self.torrent.info.piece_length * i) by (nonlinear_arith);
        let offset = self.torrent.info.piece_length * i;
        let mut writes: Vec<(&'a str, usize, &'a [u8])> = Vec::new();
        writes.push((self.torrent.info.name.as_str(), offset, piece));
        writes
    }

    /// The URL that asks the tracker for peers.
    pub fn tracker_request(&self) -> (url: Result<String, InvalidAnnounce>)
        requires
            self@.torrent.info.files.total() <= usize::MAX,
            self@.torrent.info.encoded().len() * 8 <= u64::MAX,
            self@.torrent.announce@.len() + 220 < 0x100_0000,
        ensures
            match url_with_query(
                self@.torrent.announce@,
                query_text(
                    self@.id,
                    self@.torrent.info.files.total() as nat,
                    sha1_digest(self@.torrent.info.encoded()),
                ),
            ) {
                Some(text) => url matches Ok(u) && u@ == text,
                None => url is Err,
            },
    {
        let left = self.total_length();
        let hash = self.torrent.info_sha1();
        let query = tracker_query(&self.id, left, &hash);
        proof {
            lemma_query_length(self.id@, left, hash@);
        }
        tracker_url(self.torrent.announce.as_str(), query.as_str())
    }

    /// The ranges of pieces to fetch one after the other: so few at a time that
    /// they can wait in memory until they are written to disk.
    pub fn batches(&self) -> (ranges: Vec<(usize, usize)>)
        requires
            self.well_formed(),
        ensures
            ranges@.len() == batch_count(self@.torrent.info.piece_count()),
            forall|k: int|
                0 <= k < ranges@.len() ==> {
                    &&& (#[trigger] ranges@[k]).0 == batch(self@.torrent.info.piece_count(), k).0
                    &&& ranges@[k].1 == batch(self@.torrent.info.piece_count(), k).1
                },
    {
        let n = self.pieces_state.len();
        let mut ranges: Vec<(usize, usize)> = Vec::new();
        let mut start: usize = 0;
        while start < n
            invariant
                n == self@.torrent.info.piece_count(),
                start == 2 * ranges@.len() || (start == n && n == 2 * ranges@.len() - 1),
                start <= n,
                forall|k: int|
                    0 <= k < ranges@.len() ==> {
                        &&& (#[trigger] ranges@[k]).0 == batch(n as int, k).0
                        &&& ranges@[k].1 == batch(n as int, k).1
                    },
            decreases n - start,
        {
            let end = if n - start > 2 {
                start + 2
            } else {
                n
            };
            ranges.push((start, end));
            start = end;
        }
        ranges
    }

    /// Notes that a piece is on disk.
    pub fn mark_written(&mut self, i: usize)
        requires
            old(self).well_formed(),
            i < old(self)@.torrent.info.piece_count(),
        ensures
            final(self).well_formed(),
            final(self)@.id == old(self)@.id,
            final(self)@.torrent == old(self)@.torrent,
            final(self)@.pieces_state == old(self)@.pieces_state.update(i as int, true),
    {
        self.pieces_state.set(i, true);
    }
}

/// How many of the peers that a tracker names are connected to, where `n` are
/// asked for: all of them where that is none or more than there are.
pub fn peers_to_connect(available: usize, n: usize) -> (m: usize)
    ensures
        m == if 0 < n <= available {
            n
        } else {
            available
        },
{
    if 0 < n && n <= available {
        n
    } else {
        available
    }
}

/// How far a connection is with a peer that did the handshake.
#[derive(Debug, Clone, Copy, PartialEq, Eq, Structural)]
pub enum Greeting {
    /// Wait until the peer tells which pieces it has.
    AwaitBitfield,
    /// Tell the peer that this client is interested.
    SendInterested,
    /// Wait until the peer tells whether it chokes this client.
    AwaitStatus,
    /// Blocks can be requested.
    Connected,
}

impl Greeting {
    /// The place of the step in the order of steps.
    pub open spec fn rank(self) -> int {
        match self {
            Greeting::AwaitBitfield => 0,
            Greeting::SendInterested => 1,
            Greeting::AwaitStatus => 2,
            Greeting::Connected => 3,
        }
    }

    /// What ends the step: the peer's word, or, where one waits for it, the
    /// end of the connection; interest is told at once.
    pub open spec fn over(self, peer: PeerHandle, closed: bool) -> bool {
        match self {
            Greeting::AwaitBitfield => peer.bitfield is Some || closed,
            Greeting::SendInterested => true,
            Greeting::AwaitStatus => peer.status is Some || closed,
            Greeting::Connected => false,
        }
    }

    /// The next step, given what is known of the peer and whether the
    /// connection to it is closed.
    pub fn next(self, peer: &PeerHandle, closed: bool) -> (step: Greeting)
        ensures
            step.rank() == self.rank() + if self.over(*peer, closed) {
                1int
            } else {
                0
            },
    {
        match self {
            Greeting::AwaitBitfield => if peer.bitfield.is_some() || closed {
                Greeting::SendInterested
            } else {
                self
            },
            Greeting::SendInterested => Greeting::AwaitStatus,
            Greeting::AwaitStatus => if peer.status.is_some() || closed {
                Greeting::Connected
            } else {
                self
            },
            Greeting::Connected => self,
        }
    }
}

/// The pieces tile the files: each byte lies in one piece and in no other.
pub proof fn law_pieces_tile_files(info: Info, x: int)
    requires
        info.piece_length > 0,
        0 <= x < info.files.total() <= usize::MAX,
    ensures
        exists|i: int| 0 <= i && info.has_start(i) && #[trigger] info.in_piece(i, x),
        forall|i: int, j: int|
            0 <= i && 0 <= j && #[trigger] info.in_piece(i, x) && #[trigger] info.in_piece(j, x)
                ==> i == j,
{
    let size = info.piece_length as int;
    lemma_fundamental_div_mod(x, size);
    let i = x / size;
    assert(i >= 0) by (nonlinear_arith)
        requires
            i == x / size,
            x >= 0,
            size > 0,
    ;
    assert(i * size <= x < i * size + size) by (nonlinear_arith)
        requires
            x == size * i + x % size,
            0 <= x % size < size,
    ;
    assert(info.has_start(i));
    assert(info.in_piece(i, x));
    assert forall|i: int, j: int|
        0 <= i && 0 <= j && #[trigger] info.in_piece(i, x) && #[trigger] info.in_piece(
            j,
            x,
        ) implies i == j by {
        assert(i == j) by (nonlinear_arith)
            requires
                i * size <= x < i * size + size,
                j * size <= x < j * size + size,
                size > 0,
        ;
    }
}

/// The blocks that are requested of a piece tile it: each byte lies in one
/// block and in no other.
pub proof fn law_blocks_tile_piece(size: int, x: int)
    requires
        0 <= x < size,
    ensures
        exists|k: int| 0 <= k < block_count(size) && #[trigger] in_block(size, k, x),
        forall|k: int, j: int|
            0 <= k && 0 <= j && #[trigger] in_block(size, k, x) && #[trigger] in_block(size, j, x)
                ==> k == j,
{
    assert(in_block(size, x / (BLOCK_SIZE as int), x));
}

/// Each request asks for at least one byte and for no more than a block holds.
pub proof fn law_requests_are_small(size: int, k: int)
    requires
        0 <= k < block_count(size),
    ensures
        0 < block_size(size, k) <= BLOCK_SIZE,
        0 <= block_start(k),
        block_start(k) + block_size(size, k) <= size,
{
}

/// The peers take turns: as many requests in a row as there are peers go to
/// as many different peers.
pub proof fn law_peers_take_turns(piece: int, size: int, n_peers: int, k: int, j: int)
    requires
        n_peers > 0,
        0 <= k < j < block_count(size),
    ensures
        0 <= piece_requests(piece, size, n_peers)[k].0 < n_peers,
        j < k + n_peers ==> piece_requests(piece, size, n_peers)[k].0 != piece_requests(
            piece,
            size,
            n_peers,
        )[j].0,
        j == k + n_peers ==> piece_requests(piece, size, n_peers)[k].0 == piece_requests(
            piece,
            size,
            n_peers,
        )[j].0,
{
    lemma_fundamental_div_mod(k, n_peers);
    lemma_fundamental_div_mod(j, n_peers);
    let (a, b) = (k / n_peers, j / n_peers);
    if j < k + n_peers && k % n_peers == j % n_peers {
        assert(j - k == n_peers * (b - a)) by (nonlinear_arith)
            requires
                k == n_peers * a + k % n_peers,
                j == n_peers * b + j % n_peers,
                k % n_peers == j % n_peers,
        ;
        assert(false) by (nonlinear_arith)
            requires
                0 < n_peers * (b - a) < n_peers,
                n_peers > 0,
        ;
    }
    if j == k + n_peers {
        vstd::arithmetic::div_mod::lemma_mod_add_multiples_vanish(k, n_peers);
    }
}

/// The batches cover the pieces: each piece is fetched in one batch and in no
/// other.
pub proof fn law_batches_cover_pieces(n: int, i: int)
    requires
        0 <= i < n,
    ensures
        exists|k: int| 0 <= k < batch_count(n) && #[trigger] in_batch(n, k, i),
        forall|k: int, j: int|
            0 <= k && 0 <= j && #[trigger] in_batch(n, k, i) && #[trigger] in_batch(n, j, i)
                ==> k == j,
{
    assert(in_batch(n, i / 2, i));
}

/// Only genuine pieces are kept: whatever block comes in, each finished piece
/// has the digest that the torrent gives.
pub proof fn law_finished_pieces_are_genuine(info: Info, state: RetrievalState, d: Delivery)
    requires
        all_genuine(info, state),
    ensures
        all_genuine(info, received(info, state, d)),
{
}

/// A block that is refused changes nothing, and neither a refused block nor a
/// corrupt piece changes what is finished.
pub proof fn law_faults_keep_finished_pieces(info: Info, state: RetrievalState, d: Delivery)
    requires
        fault(info, state, d) is Some,
    ensures
        received(info, state, d).finished == state.finished,
        fault(info, state, d) != Some(BlockError::Corrupt) ==> received(info, state, d) == state,
{
}

/// A block touches its own piece only.
pub proof fn law_other_pieces_are_unchanged(
    info: Info,
    state: RetrievalState,
    d: Delivery,
    other: usize,
)
    requires
        other != d.piece,
    ensures
        received(info, state, d).pending.contains_key(other) == state.pending.contains_key(other),
        received(info, state, d).finished.contains_key(other) == state.finished.contains_key(other),
        state.pending.contains_key(other) ==> received(info, state, d).pending[other]
            == state.pending[other],
        state.finished.contains_key(other) ==> received(info, state, d).finished[other]
            == state.finished[other],
{
}

/// Once a piece came to its end, further blocks of it are refused.
pub proof fn law_no_piece_is_taken_twice(
    info: Info,
    state: RetrievalState,
    d: Delivery,
    later: Delivery,
)
    requires
        state.refusal(d.piece, d.offset, d.block.len() as int) is None,
        state.completes(d.piece, d.offset, d.block),
        later.piece == d.piece,
    ensures
        fault(info, received(info, state, d), later) == Some(BlockError::Unrequested),
{
}

} // verus!
