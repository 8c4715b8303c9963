//! The blocks of requested pieces, as they come in.

use crate::piece::{Piece, PieceState};
use crate::wire::same20;
use std::collections::HashMap;
use vstd::prelude::*;

verus! {

broadcast use vstd::std_specs::hash::group_hash_axioms;

/// Requested pieces that are not complete yet, and those that are.
#[derive(Debug)]
pub struct Retrieval {
    pending: HashMap<usize, Piece>,
    finished: HashMap<usize, Vec<u8>>,
}

/// What a `Retrieval` holds.
pub struct RetrievalState {
    pub pending: Map<usize, PieceState>,
    pub finished: Map<usize, Seq<u8>>,
}

impl View for Retrieval {
    type V = RetrievalState;

    closed spec fn view(&self) -> RetrievalState {
        RetrievalState {
            pending: self.pending@.map_values(|p: Piece| p@),
            finished: self.finished@.map_values(|v: Vec<u8>| v@),
        }
    }
}

/// Why a block is not taken, or a piece is not kept.
#[derive(Debug, Clone, Copy, PartialEq, Eq, Structural)]
pub enum BlockError {
    /// The block belongs to no piece that is still to come.
    Unrequested,
    /// The block reaches beyond the end of its piece.
    OutOfBounds,
    /// The digest of the piece is not the expected one.
    Corrupt,
}

impl BlockError {
    pub fn message(&self) -> (text: &'static str)
        ensures
            text@ == match self {
                BlockError::Unrequested => "Receive a block that we did not request"@,
                BlockError::OutOfBounds => "Save block in memory"@,
                BlockError::Corrupt => "Piece does not have the expected hash"@,
            },
    {
        match self {
            BlockError::Unrequested => "Receive a block that we did not request",
            BlockError::OutOfBounds => "Save block in memory",
            BlockError::Corrupt => "Piece does not have the expected hash",
        }
    }
}

impl RetrievalState {
    /// Why a block of `len` bytes at `offset` of a piece is not taken, if it
    /// is not.
    pub open spec fn refusal(self, piece: usize, offset: int, len: int) -> Option<BlockError> {
        if !self.pending.contains_key(piece) {
            Some(BlockError::Unrequested)
        } else if !self.pending[piece].fits(offset, len) {
            Some(BlockError::OutOfBounds)
        } else {
            None
        }
    }

    /// The piece with the block in it.
    pub open spec fn piece_with(self, piece: usize, offset: int, block: Seq<u8>) -> PieceState {
        self.pending[piece].written(offset, block)
    }

    /// Whether the block makes its piece complete.
    pub open spec fn completes(self, piece: usize, offset: int, block: Seq<u8>) -> bool {
        self.piece_with(piece, offset, block).complete()
    }

    /// The state once the block is in its piece, and the piece taken out where
    /// that makes it complete.
    pub open spec fn stored(self, piece: usize, offset: int, block: Seq<u8>) -> RetrievalState {
        RetrievalState {
            pending: if self.completes(piece, offset, block) {
                self.pending.remove(piece)
            } else {
                self.pending.insert(piece, self.piece_with(piece, offset, block))
            },
            finished: self.finished,
        }
    }

    /// The state with a finished piece more.
    pub open spec fn settled(self, piece: usize, bytes: Seq<u8>) -> RetrievalState {
        RetrievalState { pending: self.pending, finished: self.finished.insert(piece, bytes) }
    }
}

impl Retrieval {
    /// Nothing requested.
    pub fn new() -> (r: Self)
        ensures
            r@.pending == Map::<usize, PieceState>::empty(),
            r@.finished == Map::<usize, Seq<u8>>::empty(),
    {
        let r = Retrieval { pending: HashMap::new(), finished: HashMap::new() };
        assert(r@.pending =~= Map::<usize, PieceState>::empty());
        assert(r@.finished =~= Map::<usize, Seq<u8>>::empty());
        r
    }

    /// Waits for a piece of `size` bytes.
    pub fn expect(&mut self, piece_i: usize, size: usize)
        ensures
            final(self)@.pending == old(self)@.pending.insert(
                piece_i,
                PieceState::blank(size as nat),
            ),
            final(self)@.finished == old(self)@.finished,
    {
        let piece = Piece::new(size);
        self.pending.insert(piece_i, piece);
        assert(self@.pending =~= old(self)@.pending.insert(piece_i, PieceState::blank(size as nat)));
    }

    /// Whether every requested piece came to its end.
    pub fn is_done(&self) -> (b: bool)
        ensures
            b == self@.pending.dom().is_empty(),
    {
        assert(self@.pending.dom() =~= self.pending@.dom());
        self.pending.is_empty()
    }

    /// The number of bytes written to a piece that is still to come, and its
    /// length.
    pub fn progress(&self, piece_i: usize) -> (r: Option<(usize, usize)>)
        ensures
            match r {
                Some((writes, len)) => {
                    &&& self@.pending.contains_key(piece_i)
                    &&& self@.pending[piece_i].writes == writes
                    &&& self@.pending[piece_i].bytes.len() == len
                },
                None => !self@.pending.contains_key(piece_i),
            },
    {
        match self.pending.get(&piece_i) {
            Some(piece) => Some((piece.writes(), piece.expected_length())),
            None => None,
        }
    }

    /// Puts a block into its piece. A piece that is then complete is taken out
    /// and given back.
    pub fn store(&mut self, piece_i: usize, offset: usize, block: &[u8]) -> (r: Result<
        Option<Vec<u8>>,
        BlockError,
    >)
        requires
            old(self)@.pending.contains_key(piece_i) ==> offset + block@.len() <= usize::MAX,
            old(self)@.refusal(piece_i, offset as int, block@.len() as int) is None
                ==> old(self)@.pending[piece_i].writes + block@.len() <= usize::MAX,
        ensures
            match old(self)@.refusal(piece_i, offset as int, block@.len() as int) {
                Some(e) => r matches Err(x) && x == e && final(self)@ == old(self)@,
                None => final(self)@ == old(self)@.stored(piece_i, offset as int, block@) && if old(
                    self,
                )@.completes(piece_i, offset as int, block@) {
                    r matches Ok(Some(bytes)) && bytes@ == old(self)@.piece_with(
                        piece_i,
                        offset as int,
                        block@,
                    ).bytes
                } else {
                    r matches Ok(None)
                },
            },
    {
        let ghost before = self@;
        match self.pending.remove(&piece_i) {
            None => {
                assert(self@.pending =~= before.pending);
                Err(BlockError::Unrequested)
            },
            Some(mut piece) => {
                match piece.write(offset, block) {
                    Err(_) => {
                        self.pending.insert(piece_i, piece);
                        assert(self@.pending =~= before.pending);
                        Err(BlockError::OutOfBounds)
                    },
                    Ok(()) => if piece.done() {
                        assert(self@.pending =~= before.pending.remove(piece_i));
                        Ok(Some(piece.bytes()))
                    } else {
                        self.pending.insert(piece_i, piece);
                        assert(self@.pending =~= before.stored(
                            piece_i,
                            offset as int,
                            block@,
                        ).pending);
                        Ok(None)
                    },
                }
            },
        }
    }

    /// Keeps a complete piece where its digest is the expected one.
    pub fn settle(
        &mut self,
        piece_i: usize,
        bytes: Vec<u8>,
        expected: &[u8; 20],
        digest: &[u8; 20],
    ) -> (r: Result<(), BlockError>)
        ensures
            if expected@ == digest@ {
                r is Ok && final(self)@ == old(self)@.settled(piece_i, bytes@)
            } else {
                r == Err::<(), BlockError>(BlockError::Corrupt) && final(self)@ == old(self)@
            },
    {
        if same20(expected, digest) {
            self.finished.insert(piece_i, bytes);
            assert(self@.finished =~= old(self)@.finished.insert(piece_i, bytes@));
            Ok(())
        } else {
            Err(BlockError::Corrupt)
        }
    }

    /// The finished pieces.
    pub fn into_pieces(self) -> (pieces: HashMap<usize, Vec<u8>>)
        ensures
            pieces@.map_values(|v: Vec<u8>| v@) == self@.finished,
    {
        self.finished
    }
}

} // verus!
