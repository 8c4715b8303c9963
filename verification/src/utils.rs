//! Cutting pieces up among files.

use std::path::PathBuf;
use vstd::prelude::*;

verus! {

/// The sizes of the first `n` files together.
pub open spec fn sizes_before(files: Seq<(PathBuf, usize, usize)>, n: int) -> int
    decreases n,
{
    if n <= 0 {
        0
    } else {
        sizes_before(files, n - 1) + files[n - 1].2
    }
}

/// The part of `piece` that file `i` gets.
pub open spec fn part_of(files: Seq<(PathBuf, usize, usize)>, piece: Seq<u8>, i: int) -> Seq<u8> {
    piece.subrange(sizes_before(files, i), sizes_before(files, i) + files[i].2)
}

/// Cuts `piece` up among `files`, each given with its offset and its size: each
/// file gets the next bytes of the piece, as many as its size.
pub fn split_piece_for_files(files: Vec<(PathBuf, usize, usize)>, piece: Vec<u8>) -> (parts: Vec<
    (PathBuf, usize, Vec<u8>),
>)
    requires
        forall|i: int|
            0 <= i < files@.len() ==> sizes_before(files@, i) + (#[trigger] files@[i]).2
                <= piece@.len(),
    ensures
        parts@.len() == files@.len(),
        forall|i: int|
            0 <= i < files@.len() ==> {
                &&& (#[trigger] parts@[i]).0 == files@[i].0
                &&& parts@[i].1 == files@[i].1
                &&& parts@[i].2@ == part_of(files@, piece@, i)
            },
{
    let ghost all = files@;
    let mut parts: Vec<(PathBuf, usize, Vec<u8>)> = Vec::new();
    let mut head: usize = 0;
    let len = piece.len();
    for file in it: files
        invariant
            len == piece@.len(),
            it.seq() == all,
            parts@.len() == it.index(),
            head == sizes_before(all, it.index() as int),
            forall|i: int|
                0 <= i < all.len() ==> sizes_before(all, i) + (#[trigger] all[i]).2
                    <= piece@.len(),
            forall|i: int|
                0 <= i < it.index() ==> {
                    &&& (#[trigger] parts@[i]).0 == all[i].0
                    &&& parts@[i].1 == all[i].1
                    &&& parts@[i].2@ == part_of(all, piece@, i)
                },
    {
        let (path, offset, size) = file;
        assert(all[it.index() as int].2 == size);
        let end = head + size;
        let mut part: Vec<u8> = Vec::new();
        let mut i: usize = head;
        while i < end
            invariant
                head <= i <= end <= piece@.len(),
                part@ =~= piece@.subrange(head as int, i as int),
            decreases end - i,
        {
            part.push(piece[i]);
            i += 1;
        }
        parts.push((path, offset, part));
        head = end;
    }
    parts
}

/// The parts of the first `n` files put end to end.
pub open spec fn parts_joined(files: Seq<(PathBuf, usize, usize)>, piece: Seq<u8>, n: int) -> Seq<
    u8,
>
    decreases n,
{
    if n <= 0 {
        Seq::empty()
    } else {
        parts_joined(files, piece, n - 1) + part_of(files, piece, n - 1)
    }
}

proof fn lemma_parts_joined(files: Seq<(PathBuf, usize, usize)>, piece: Seq<u8>, n: int)
    requires
        0 <= n <= files.len(),
        forall|i: int|
            0 <= i < files.len() ==> sizes_before(files, i) + (#[trigger] files[i]).2
                <= piece.len(),
    ensures
        0 <= sizes_before(files, n) <= piece.len(),
        parts_joined(files, piece, n) == piece.take(sizes_before(files, n)),
    decreases n,
{
    if n > 0 {
        lemma_parts_joined(files, piece, n - 1);
        assert(sizes_before(files, n - 1) + files[n - 1].2 <= piece.len());
    }
    assert(parts_joined(files, piece, n) =~= piece.take(sizes_before(files, n)));
}

/// The parts of a piece put end to end are the start of the piece, and where the
/// files are as long as the piece, the whole of it.
pub proof fn law_parts_give_piece_back(files: Seq<(PathBuf, usize, usize)>, piece: Seq<u8>)
    requires
        forall|i: int|
            0 <= i < files.len() ==> sizes_before(files, i) + (#[trigger] files[i]).2
                <= piece.len(),
    ensures
        parts_joined(files, piece, files.len() as int) == piece.take(
            sizes_before(files, files.len() as int),
        ),
        sizes_before(files, files.len() as int) == piece.len() ==> parts_joined(
            files,
            piece,
            files.len() as int,
        ) == piece,
{
    lemma_parts_joined(files, piece, files.len() as int);
    assert(piece.take(piece.len() as int) =~= piece);
}

} // verus!
