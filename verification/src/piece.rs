//! One piece of the download, assembled from blocks.

use vstd::prelude::*;

verus! {

/// A piece in memory: its bytes, and how many bytes were written to it.
#[derive(Debug)]
pub struct Piece {
    bytes: Vec<u8>,
    writes: usize,
}

/// What a `Piece` holds.
pub struct PieceState {
    pub bytes: Seq<u8>,
    pub writes: int,
}

impl View for Piece {
    type V = PieceState;

    closed spec fn view(&self) -> PieceState {
        PieceState { bytes: self.bytes@, writes: self.writes as int }
    }
}

impl PieceState {
    /// A piece of `size` zero bytes that nothing was written to.
    pub open spec fn blank(size: nat) -> PieceState {
        PieceState { bytes: Seq::new(size, |i: int| 0u8), writes: 0 }
    }

    /// Whether a chunk of `len` bytes at `offset` lies inside the piece.
    pub open spec fn fits(self, offset: int, len: int) -> bool {
        offset + len <= self.bytes.len()
    }

    /// The piece with `chunk` at `offset`.
    pub open spec fn written(self, offset: int, chunk: Seq<u8>) -> PieceState {
        PieceState {
            bytes: self.bytes.take(offset) + chunk + self.bytes.skip(offset + chunk.len()),
            writes: self.writes + chunk.len(),
        }
    }

    /// Whether as many bytes were written as the piece has.
    pub open spec fn complete(self) -> bool {
        self.writes == self.bytes.len()
    }
}

/// A chunk that reaches beyond the end of its piece.
#[derive(Debug, Clone, Copy, PartialEq, Eq, Structural)]
pub struct ChunkOutOfBounds;

impl ChunkOutOfBounds {
    pub fn message(&self) -> (text: &'static str)
        ensures
            text@ == "Cannot fit chunk into piece"@,
    {
        "Cannot fit chunk into piece"
    }
}

impl Piece {
    pub fn new(size: usize) -> (piece: Self)
        ensures
            piece@ == PieceState::blank(size as nat),
    {
        let bytes = vec![0u8; size];
        assert(bytes@ =~= Seq::new(size as nat, |i: int| 0u8));
        Piece { bytes, writes: 0 }
    }

    /// Puts `chunk` at `offset`; a chunk that does not fit changes nothing.
    pub fn write(&mut self, offset: usize, chunk: &[u8]) -> (r: Result<(), ChunkOutOfBounds>)
        requires
            offset + chunk@.len() <= usize::MAX,
            old(self)@.fits(offset as int, chunk@.len() as int) ==> old(self)@.writes
                + chunk@.len() <= usize::MAX,
        ensures
            r is Ok <==> old(self)@.fits(offset as int, chunk@.len() as int),
            r is Ok ==> final(self)@ == old(self)@.written(offset as int, chunk@),
            r is Err ==> *final(self) == *old(self),
    {
        let end = offset + chunk.len();
        if end > self.bytes.len() {
            return Err(ChunkOutOfBounds);
        }
        let ghost before = self.bytes@;
        let mut i: usize = 0;
        while i < chunk.len()
            invariant
                i <= chunk@.len(),
                end == offset + chunk@.len(),
                end <= before.len(),
                self.writes == old(self).writes,
                self.bytes@ =~= before.take(offset as int) + chunk@.take(i as int) + before.skip(
                    offset + i,
                ),
            decreases chunk@.len() - i,
        {
            let b = chunk[i];
            self.bytes[offset + i] = b;
            i += 1;
        }
        assert(chunk@.take(i as int) =~= chunk@);
        self.writes += chunk.len();
        Ok(())
    }

    pub fn bytes(self) -> (bytes: Vec<u8>)
        ensures
            bytes@ == self@.bytes,
    {
        self.bytes
    }

    pub fn expected_length(&self) -> (n: usize)
        ensures
            n == self@.bytes.len(),
    {
        self.bytes.len()
    }

    pub fn writes(&self) -> (n: usize)
        ensures
            n == self@.writes,
    {
        self.writes
    }

    pub fn done(&self) -> (b: bool)
        ensures
            b == self@.complete(),
    {
        self.writes == self.expected_length()
    }
}

/// A chunk is read back from where it was written, the rest of the piece is as
/// it was, and the piece keeps its length.
pub proof fn law_write_is_read_back(piece: PieceState, offset: int, chunk: Seq<u8>)
    requires
        0 <= offset,
        piece.fits(offset, chunk.len() as int),
    ensures
        piece.written(offset, chunk).bytes.len() == piece.bytes.len(),
        piece.written(offset, chunk).bytes.subrange(offset, offset + chunk.len()) == chunk,
        forall|x: int|
            0 <= x < piece.bytes.len() && !(offset <= x < offset + chunk.len())
                ==> #[trigger] piece.written(offset, chunk).bytes[x] == piece.bytes[x],
{
    assert(piece.written(offset, chunk).bytes.subrange(offset, offset + chunk.len()) =~= chunk);
}

/// Chunks that do not overlap can be written in either order.
pub proof fn law_disjoint_writes_commute(
    piece: PieceState,
    offset: int,
    chunk: Seq<u8>,
    other_offset: int,
    other: Seq<u8>,
)
    requires
        0 <= offset,
        offset + chunk.len() <= other_offset,
        piece.fits(other_offset, other.len() as int),
    ensures
        piece.written(offset, chunk).written(other_offset, other) == piece.written(
            other_offset,
            other,
        ).written(offset, chunk),
{
    assert(piece.written(offset, chunk).written(other_offset, other).bytes =~= piece.written(
        other_offset,
        other,
    ).written(offset, chunk).bytes);
}

} // verus!
