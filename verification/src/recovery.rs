//! That a download gives back what was shared: the blocks of the pieces, however
//! they are cut and in whatever order they come in, make up the pieces.

use crate::downloader::{
    all_genuine, awaited, block_count, block_size, block_start, countable, fault, genuine,
    in_block, law_blocks_tile_piece, law_finished_pieces_are_genuine, law_requests_are_small,
    received, Delivery,
};
use crate::piece::{law_write_is_read_back, PieceState};
use crate::retrieval::{BlockError, RetrievalState};
use crate::torrent::Info;
use vstd::prelude::*;
use vstd::set_lib::{
    lemma_int_range, lemma_len_subset, lemma_set_disjoint_lens, lemma_subset_equality,
    set_int_range,
};

verus! {

/// The contents of the pieces that are asked for: not empty, as the torrent
/// describes them, and not too long to be hashed.
pub open spec fn shared(info: Info, pieces: Seq<usize>, data: Map<usize, Seq<u8>>) -> bool {
    forall|p: usize| #[trigger]
        pieces.contains(p) ==> {
            &&& p < info.piece_count()
            &&& info.has_start(p as int)
            &&& data.contains_key(p)
            &&& 0 < data[p].len() == info.piece_size(p as int)
            &&& data[p].len() * 8 <= u64::MAX
            &&& genuine(info, p as int, data[p])
        }
}

/// Whether a block is made of the shared bytes of a piece that is asked for.
pub open spec fn is_part(pieces: Seq<usize>, data: Map<usize, Seq<u8>>, d: Delivery) -> bool {
    &&& pieces.contains(d.piece)
    &&& 0 < d.block.len()
    &&& 0 <= d.offset
    &&& d.offset + d.block.len() <= data[d.piece].len()
    &&& d.block == data[d.piece].subrange(d.offset, d.offset + d.block.len())
}

/// Whether byte `x` of piece `p` is in a block.
pub open spec fn covers(d: Delivery, p: usize, x: int) -> bool {
    d.piece == p && d.offset <= x < d.offset + d.block.len()
}

/// Whether byte `x` of piece `p` is in some block.
pub open spec fn is_covered(blocks: Seq<Delivery>, p: usize, x: int) -> bool {
    exists|j: int| 0 <= j < blocks.len() && covers(#[trigger] blocks[j], p, x)
}

/// Blocks, none of them empty, that cover each byte of the pieces that are asked
/// for once, and nothing else.
pub open spec fn is_cut(
    pieces: Seq<usize>,
    data: Map<usize, Seq<u8>>,
    blocks: Seq<Delivery>,
) -> bool {
    &&& forall|j: int| 0 <= j < blocks.len() ==> is_part(pieces, data, #[trigger] blocks[j])
    &&& forall|p: usize, x: int|
        pieces.contains(p) && 0 <= x < data[p].len() ==> #[trigger] is_covered(blocks, p, x)
    &&& forall|i: int, j: int, p: usize, x: int|
        0 <= i < blocks.len() && 0 <= j < blocks.len() && #[trigger] covers(blocks[i], p, x)
            && #[trigger] covers(blocks[j], p, x) ==> i == j
}

/// The state in which pieces were asked for and no block came in yet.
pub open spec fn started(info: Info, pieces: Seq<usize>) -> RetrievalState {
    RetrievalState { pending: awaited(info, pieces, pieces.len() as int), finished: Map::empty() }
}

/// The state once the first `n` blocks came in.
pub open spec fn after(
    info: Info,
    pieces: Seq<usize>,
    blocks: Seq<Delivery>,
    n: int,
) -> RetrievalState
    decreases n,
{
    if n <= 0 {
        started(info, pieces)
    } else {
        received(info, after(info, pieces, blocks, n - 1), blocks[n - 1])
    }
}

/// What comes of a queue of blocks that are taken in one by one until all pieces
/// are there, a block is at fault or the queue is empty: the state, the fault,
/// and the blocks that are left in the queue.
pub open spec fn drained(info: Info, state: RetrievalState, queue: Seq<Delivery>) -> (
    RetrievalState,
    Option<BlockError>,
    Seq<Delivery>,
)
    decreases queue.len(),
{
    if state.pending.dom().is_empty() || queue.len() == 0 {
        (state, None, queue)
    } else {
        let next = received(info, state, queue[0]);
        match fault(info, state, queue[0]) {
            Some(e) => (next, Some(e), queue.drop_first()),
            None => drained(info, next, queue.drop_first()),
        }
    }
}

/// The bytes of piece `p` in the first `n` blocks.
spec fn got(blocks: Seq<Delivery>, n: int, p: usize) -> Set<int> {
    Set::new(|x: int| exists|j: int| 0 <= j < n && covers(#[trigger] blocks[j], p, x))
}

/// What is in of a piece is as it was shared.
spec fn partial(known: Set<int>, whole: Seq<u8>, state: PieceState) -> bool {
    &&& state.bytes.len() == whole.len()
    &&& state.writes == known.len()
    &&& forall|x: int| #[trigger] known.contains(x) ==> state.bytes[x] == whole[x]
}

/// What holds of the state, where `known(p)` are the bytes of piece `p` that came
/// in.
spec fn progress(
    pieces: Seq<usize>,
    data: Map<usize, Seq<u8>>,
    known: spec_fn(usize) -> Set<int>,
    state: RetrievalState,
) -> bool {
    &&& forall|p: usize| #[trigger]
        pieces.contains(p) ==> known(p).subset_of(set_int_range(0, data[p].len() as int))
    &&& forall|p: usize| #[trigger]
        state.pending.contains_key(p) <==> pieces.contains(p) && known(p) != set_int_range(
            0,
            data[p].len() as int,
        )
    &&& forall|p: usize| #[trigger]
        state.finished.contains_key(p) <==> pieces.contains(p) && known(p) == set_int_range(
            0,
            data[p].len() as int,
        )
    &&& forall|p: usize| #[trigger]
        state.pending.contains_key(p) ==> partial(known(p), data[p], state.pending[p])
    &&& forall|p: usize| #[trigger]
        state.finished.contains_key(p) ==> state.finished[p] == data[p]
}

/// The pieces that are waited for are those that were asked for, all blank.
pub(crate) proof fn lemma_awaited(info: Info, pieces: Seq<usize>, n: int)
    requires
        0 <= n <= pieces.len(),
    ensures
        forall|p: usize| #[trigger]
            awaited(info, pieces, n).contains_key(p) <==> pieces.take(n).contains(p),
        forall|p: usize| #[trigger]
            awaited(info, pieces, n).contains_key(p) ==> awaited(info, pieces, n)[p]
                == PieceState::blank(info.piece_size(p as int) as nat),
    decreases n,
{
    if n > 0 {
        lemma_awaited(info, pieces, n - 1);
        let fewer = awaited(info, pieces, n - 1);
        let last = pieces[n - 1];
        assert(pieces.take(n) =~= pieces.take(n - 1).push(last));
        assert forall|p: usize| #[trigger]
            awaited(info, pieces, n).contains_key(p) <==> pieces.take(n).contains(p) by {
            assert(awaited(info, pieces, n).contains_key(p) <==> p == last || fewer.contains_key(
                p,
            ));
            if p == last {
                assert(pieces.take(n)[n - 1] == p);
            }
            if fewer.contains_key(p) {
                let j = choose|j: int| 0 <= j < n - 1 && #[trigger] pieces.take(n - 1)[j] == p;
                assert(pieces.take(n)[j] == p);
            }
            if pieces.take(n).contains(p) && p != last {
                let j = choose|j: int| 0 <= j < n && #[trigger] pieces.take(n)[j] == p;
                assert(pieces.take(n - 1)[j] == p);
            }
        }
        assert forall|p: usize| #[trigger] awaited(info, pieces, n).contains_key(p) implies awaited(
            info,
            pieces,
            n,
        )[p] == PieceState::blank(info.piece_size(p as int) as nat) by {
            if p != last {
                assert(fewer.contains_key(p));
            }
        }
    }
}

/// Nothing is in at the start.
proof fn lemma_start(
    info: Info,
    pieces: Seq<usize>,
    data: Map<usize, Seq<u8>>,
    known: spec_fn(usize) -> Set<int>,
)
    requires
        shared(info, pieces, data),
        forall|p: usize| #[trigger] known(p) == Set::<int>::empty(),
    ensures
        progress(pieces, data, known, started(info, pieces)),
{
    lemma_awaited(info, pieces, pieces.len() as int);
    assert(pieces.take(pieces.len() as int) =~= pieces);
    assert forall|p: usize| #[trigger] pieces.contains(p) implies known(p) != set_int_range(
        0,
        data[p].len() as int,
    ) by {
        assert(set_int_range(0, data[p].len() as int).contains(0));
        assert(!known(p).contains(0));
    }
}

/// More bytes of a piece are in, and they count.
proof fn lemma_more_known(known: Set<int>, offset: int, len: int, size: int)
    requires
        known.subset_of(set_int_range(0, size)),
        0 <= offset,
        0 <= len,
        offset + len <= size,
        forall|x: int| offset <= x < offset + len ==> !#[trigger] known.contains(x),
    ensures
        (known + set_int_range(offset, offset + len)).subset_of(set_int_range(0, size)),
        (known + set_int_range(offset, offset + len)).len() == known.len() + len,
        known.len() + len <= size,
        known.len() + len == size <==> known + set_int_range(offset, offset + len)
            == set_int_range(0, size),
{
    let block = set_int_range(offset, offset + len);
    let all = set_int_range(0, size);
    lemma_int_range(0, size);
    lemma_int_range(offset, offset + len);
    lemma_len_subset(known, all);
    assert(known.disjoint(block));
    lemma_set_disjoint_lens(known, block);
    assert((known + block).subset_of(all));
    lemma_len_subset(known + block, all);
    if known.len() + len == size {
        lemma_subset_equality(known + block, all);
    }
}

/// A block of the shared data whose bytes are new is taken, and brings its piece
/// forward.
proof fn lemma_step(
    info: Info,
    pieces: Seq<usize>,
    data: Map<usize, Seq<u8>>,
    known: spec_fn(usize) -> Set<int>,
    more: spec_fn(usize) -> Set<int>,
    state: RetrievalState,
    d: Delivery,
)
    requires
        shared(info, pieces, data),
        progress(pieces, data, known, state),
        is_part(pieces, data, d),
        forall|x: int| #[trigger] covers(d, d.piece, x) ==> !known(d.piece).contains(x),
        more(d.piece) == known(d.piece) + set_int_range(d.offset, d.offset + d.block.len()),
        forall|q: usize| q != d.piece ==> #[trigger] more(q) == known(q),
    ensures
        !state.pending.dom().is_empty(),
        countable(info, state, d),
        fault(info, state, d) is None,
        progress(pieces, data, more, received(info, state, d)),
{
    let p = d.piece;
    let whole = data[p];
    let size = whole.len() as int;
    assert(pieces.contains(p));
    assert(known(p) != set_int_range(0, size)) by {
        assert(covers(d, p, d.offset));
        assert(set_int_range(0, size).contains(d.offset));
    }
    assert(state.pending.contains_key(p));
    assert(state.pending.dom().contains(p));
    let before = state.pending[p];
    assert(partial(known(p), whole, before));
    let had = known(p);
    assert forall|x: int| d.offset <= x < d.offset + d.block.len() implies !#[trigger] had.contains(
        x,
    ) by {
        assert(covers(d, p, x));
    }
    lemma_more_known(had, d.offset, d.block.len() as int, size);
    assert(state.refusal(d.piece, d.offset, d.block.len() as int) is None);
    let with = state.piece_with(d.piece, d.offset, d.block);
    assert(partial(more(p), whole, with)) by {
        assert forall|x: int| #[trigger] more(p).contains(x) implies with.bytes[x] == whole[x] by {
            assert(set_int_range(0, size).contains(x));
            if d.offset <= x < d.offset + d.block.len() {
                assert(with.bytes[x] == d.block[x - d.offset]);
            } else {
                assert(known(p).contains(x));
                assert(before.bytes[x] == whole[x]);
            }
        }
    }
    assert(state.completes(d.piece, d.offset, d.block) <==> more(p) == set_int_range(0, size));
    if more(p) == set_int_range(0, size) {
        assert(with.bytes =~= whole) by {
            assert forall|x: int| 0 <= x < size implies with.bytes[x] == whole[x] by {
                assert(more(p).contains(x));
            }
        }
        assert(genuine(info, p as int, whole));
    }
    assert(countable(info, state, d)) by {
        assert(p * info.piece_length >= 0) by (nonlinear_arith);
    }
    let next = received(info, state, d);
    assert(!state.finished.contains_key(p));
    assert forall|q: usize| #[trigger] pieces.contains(q) implies more(q).subset_of(
        set_int_range(0, data[q].len() as int),
    ) by {
        assert(q != p ==> more(q) == known(q));
    }
    assert forall|q: usize| #[trigger] next.pending.contains_key(q) <==> pieces.contains(q) && more(
        q,
    ) != set_int_range(0, data[q].len() as int) by {
        assert(q != p ==> next.pending.contains_key(q) == state.pending.contains_key(q));
        assert(q != p ==> more(q) == known(q));
    }
    assert forall|q: usize| #[trigger] next.finished.contains_key(q) <==> pieces.contains(q)
        && more(q) == set_int_range(0, data[q].len() as int) by {
        assert(q != p ==> next.finished.contains_key(q) == state.finished.contains_key(q));
        assert(q != p ==> more(q) == known(q));
    }
    assert forall|q: usize| #[trigger] next.pending.contains_key(q) implies partial(
        more(q),
        data[q],
        next.pending[q],
    ) by {
        if q != p {
            assert(state.pending.contains_key(q));
            assert(more(q) == known(q));
        }
    }
    assert forall|q: usize| #[trigger] next.finished.contains_key(q) implies next.finished[q]
        == data[q] by {
        if q != p {
            assert(state.finished.contains_key(q));
        }
    }
}

/// The blocks of a cut bring new bytes.
proof fn lemma_got(
    pieces: Seq<usize>,
    data: Map<usize, Seq<u8>>,
    blocks: Seq<Delivery>,
    n: int,
)
    requires
        is_cut(pieces, data, blocks),
        0 <= n < blocks.len(),
    ensures
        forall|x: int| #[trigger]
            covers(blocks[n], blocks[n].piece, x) ==> !got(blocks, n, blocks[n].piece).contains(x),
        got(blocks, n + 1, blocks[n].piece) == got(blocks, n, blocks[n].piece) + set_int_range(
            blocks[n].offset,
            blocks[n].offset + blocks[n].block.len(),
        ),
        forall|q: usize|
            q != blocks[n].piece ==> #[trigger] got(blocks, n + 1, q) == got(blocks, n, q),
{
    let d = blocks[n];
    let p = d.piece;
    assert forall|x: int| #[trigger] covers(d, p, x) implies !got(blocks, n, p).contains(x) by {
        if got(blocks, n, p).contains(x) {
            let j = choose|j: int| 0 <= j < n && covers(#[trigger] blocks[j], p, x);
            assert(covers(blocks[j], p, x) && covers(blocks[n], p, x));
        }
    }
    assert forall|q: usize, x: int| #[trigger] got(blocks, n + 1, q).contains(x) <==> got(
        blocks,
        n,
        q,
    ).contains(x) || covers(d, q, x) by {
        if got(blocks, n, q).contains(x) {
            let j = choose|j: int| 0 <= j < n && covers(#[trigger] blocks[j], q, x);
            assert(covers(blocks[j], q, x));
        }
        if covers(d, q, x) {
            assert(covers(blocks[n], q, x));
        }
    }
    assert(got(blocks, n + 1, p) =~= got(blocks, n, p) + set_int_range(
        d.offset,
        d.offset + d.block.len(),
    ));
    assert forall|q: usize| q != p implies #[trigger] got(blocks, n + 1, q) == got(
        blocks,
        n,
        q,
    ) by {
        assert(got(blocks, n + 1, q) =~= got(blocks, n, q));
    }
}

proof fn lemma_progress(
    info: Info,
    pieces: Seq<usize>,
    data: Map<usize, Seq<u8>>,
    blocks: Seq<Delivery>,
    n: int,
)
    requires
        shared(info, pieces, data),
        is_cut(pieces, data, blocks),
        0 <= n <= blocks.len(),
    ensures
        progress(
            pieces,
            data,
            |p: usize| got(blocks, n, p),
            after(info, pieces, blocks, n),
        ),
        n < blocks.len() ==> {
            let state = after(info, pieces, blocks, n);
            &&& !state.pending.dom().is_empty()
            &&& countable(info, state, blocks[n])
            &&& fault(info, state, blocks[n]) is None
        },
    decreases n,
{
    let known = |p: usize| got(blocks, n, p);
    if n == 0 {
        assert forall|p: usize| #[trigger] known(p) == Set::<int>::empty() by {
            assert(got(blocks, 0, p) =~= Set::<int>::empty());
        }
        lemma_start(info, pieces, data, known);
    } else {
        let fewer = |p: usize| got(blocks, n - 1, p);
        let earlier = after(info, pieces, blocks, n - 1);
        lemma_progress(info, pieces, data, blocks, n - 1);
        lemma_got(pieces, data, blocks, n - 1);
        lemma_step(info, pieces, data, fewer, known, earlier, blocks[n - 1]);
    }
    if n < blocks.len() {
        let more = |p: usize| got(blocks, n + 1, p);
        lemma_got(pieces, data, blocks, n);
        lemma_step(info, pieces, data, known, more, after(info, pieces, blocks, n), blocks[n]);
    }
}

/// The pieces that are asked for, with the contents that were shared.
pub open spec fn wanted(pieces: Seq<usize>, data: Map<usize, Seq<u8>>) -> Map<usize, Seq<u8>> {
    Map::new(|p: usize| pieces.contains(p), |p: usize| data[p])
}

/// A download gives back what was shared. Let the pieces that were asked for be
/// cut into blocks, none of them empty, that cover each byte once, and let the
/// blocks come in, in whatever order. Then every block is taken, the download is
/// not done before the last block, and with that block it is done: the finished
/// pieces are those that were asked for, with the contents that were shared.
pub proof fn law_any_cut_recovers_pieces(
    info: Info,
    pieces: Seq<usize>,
    data: Map<usize, Seq<u8>>,
    blocks: Seq<Delivery>,
)
    requires
        shared(info, pieces, data),
        is_cut(pieces, data, blocks),
    ensures
        forall|n: int|
            #![trigger after(info, pieces, blocks, n)]
            0 <= n < blocks.len() ==> {
                &&& countable(info, after(info, pieces, blocks, n), blocks[n])
                &&& fault(info, after(info, pieces, blocks, n), blocks[n]) is None
                &&& !after(info, pieces, blocks, n).pending.dom().is_empty()
            },
        after(info, pieces, blocks, blocks.len() as int).pending.dom().is_empty(),
        after(info, pieces, blocks, blocks.len() as int).finished == wanted(pieces, data),
{
    assert forall|n: int|
        #![trigger after(info, pieces, blocks, n)]
        0 <= n < blocks.len() implies {
        &&& countable(info, after(info, pieces, blocks, n), blocks[n])
        &&& fault(info, after(info, pieces, blocks, n), blocks[n]) is None
        &&& !after(info, pieces, blocks, n).pending.dom().is_empty()
    } by {
        lemma_progress(info, pieces, data, blocks, n);
    }
    let n = blocks.len() as int;
    let end = after(info, pieces, blocks, n);
    let known = |p: usize| got(blocks, n, p);
    lemma_progress(info, pieces, data, blocks, n);
    assert forall|p: usize| #[trigger] pieces.contains(p) implies known(p) == set_int_range(
        0,
        data[p].len() as int,
    ) by {
        assert forall|x: int| 0 <= x < data[p].len() implies got(blocks, n, p).contains(x) by {
            assert(is_covered(blocks, p, x));
            let j = choose|j: int| 0 <= j < n && covers(#[trigger] blocks[j], p, x);
            assert(covers(blocks[j], p, x));
        }
        assert(known(p) =~= set_int_range(0, data[p].len() as int));
    }
    assert forall|p: usize| !end.pending.dom().contains(p) by {
        assert(!end.pending.contains_key(p));
    }
    assert(end.pending.dom() =~= Set::empty());
    assert forall|p: usize| #[trigger] end.finished.contains_key(p) <==> wanted(
        pieces,
        data,
    ).contains_key(p) by {}
    assert(end.finished =~= wanted(pieces, data));
}

/// The blocks from the `n`th on, taken out of the queue.
proof fn lemma_drained(
    info: Info,
    pieces: Seq<usize>,
    data: Map<usize, Seq<u8>>,
    blocks: Seq<Delivery>,
    others: Seq<Delivery>,
    n: int,
)
    requires
        shared(info, pieces, data),
        is_cut(pieces, data, blocks),
        0 <= n <= blocks.len(),
    ensures
        drained(info, after(info, pieces, blocks, n), blocks.skip(n) + others) == (
            after(info, pieces, blocks, blocks.len() as int),
            None::<BlockError>,
            others,
        ),
    decreases blocks.len() - n,
{
    law_any_cut_recovers_pieces(info, pieces, data, blocks);
    let state = after(info, pieces, blocks, n);
    let queue = blocks.skip(n) + others;
    if n == blocks.len() {
        assert(queue =~= others);
    } else {
        assert(queue[0] == blocks[n]);
        assert(queue.drop_first() =~= blocks.skip(n + 1) + others);
        assert(received(info, state, queue[0]) == after(info, pieces, blocks, n + 1));
        lemma_drained(info, pieces, data, blocks, others, n + 1);
    }
}

/// Of a queue that starts with a cut of the pieces, in whatever order, exactly
/// the blocks of the cut are taken, and what is behind them stays.
pub proof fn law_no_further_block_is_taken(
    info: Info,
    pieces: Seq<usize>,
    data: Map<usize, Seq<u8>>,
    blocks: Seq<Delivery>,
    others: Seq<Delivery>,
)
    requires
        shared(info, pieces, data),
        is_cut(pieces, data, blocks),
    ensures
        drained(info, started(info, pieces), blocks + others).0.finished == wanted(pieces, data),
        drained(info, started(info, pieces), blocks + others).0.pending.dom().is_empty(),
        drained(info, started(info, pieces), blocks + others).1 is None,
        drained(info, started(info, pieces), blocks + others).2 == others,
{
    law_any_cut_recovers_pieces(info, pieces, data, blocks);
    lemma_drained(info, pieces, data, blocks, others, 0);
    assert(blocks.skip(0) =~= blocks);
}

/// Where no piece is asked for, no block is taken and nothing is finished.
pub proof fn law_no_piece_takes_no_block(info: Info, queue: Seq<Delivery>)
    ensures
        drained(info, started(info, Seq::empty()), queue) == (
            started(info, Seq::empty()),
            None::<BlockError>,
            queue,
        ),
        started(info, Seq::empty()).finished == Map::<usize, Seq<u8>>::empty(),
{
    assert(started(info, Seq::empty()).pending.dom() =~= Set::empty());
}

/// How the pieces are cut and in which order the blocks come makes no difference
/// to what is finished.
pub proof fn law_order_makes_no_difference(
    info: Info,
    pieces: Seq<usize>,
    data: Map<usize, Seq<u8>>,
    blocks: Seq<Delivery>,
    others: Seq<Delivery>,
)
    requires
        shared(info, pieces, data),
        is_cut(pieces, data, blocks),
        is_cut(pieces, data, others),
    ensures
        drained(info, started(info, pieces), blocks).0.finished == drained(
            info,
            started(info, pieces),
            others,
        ).0.finished,
{
    law_no_further_block_is_taken(info, pieces, data, blocks, Seq::empty());
    law_no_further_block_is_taken(info, pieces, data, others, Seq::empty());
    assert(blocks + Seq::empty() =~= blocks);
    assert(others + Seq::empty() =~= others);
}

/// The pieces of a state are among those that were asked for, none is both
/// pending and finished, and each has its length.
pub open spec fn in_order(info: Info, pieces: Seq<usize>, state: RetrievalState) -> bool {
    &&& forall|p: usize| #[trigger]
        state.pending.contains_key(p) ==> {
            &&& pieces.contains(p)
            &&& !state.finished.contains_key(p)
            &&& state.pending[p].bytes.len() == info.piece_size(p as int)
        }
    &&& forall|p: usize| #[trigger]
        state.finished.contains_key(p) ==> {
            &&& pieces.contains(p)
            &&& !state.pending.contains_key(p)
            &&& state.finished[p].len() == info.piece_size(p as int)
        }
}

/// Each piece that was asked for is pending or finished.
pub open spec fn all_there(pieces: Seq<usize>, state: RetrievalState) -> bool {
    forall|p: usize| #[trigger]
        pieces.contains(p) ==> state.pending.contains_key(p) || state.finished.contains_key(p)
}

/// Whether the pieces that are asked for start inside the files.
pub open spec fn can_start(info: Info, pieces: Seq<usize>) -> bool {
    forall|p: usize| #[trigger] pieces.contains(p) ==> info.has_start(p as int)
}

/// Before any block came in, the pieces that were asked for are the pending ones,
/// each with its length.
pub proof fn law_start_is_in_order(info: Info, pieces: Seq<usize>)
    requires
        can_start(info, pieces),
    ensures
        in_order(info, pieces, started(info, pieces)),
        all_there(pieces, started(info, pieces)),
        all_genuine(info, started(info, pieces)),
{
    lemma_awaited(info, pieces, pieces.len() as int);
    assert(pieces.take(pieces.len() as int) =~= pieces);
    let state = started(info, pieces);
    assert forall|p: usize| #[trigger] state.pending.contains_key(p) implies
        state.pending[p].bytes.len() == info.piece_size(p as int) by {
        assert(pieces.contains(p));
        assert(info.piece_size(p as int) >= 0);
    }
    assert forall|p: usize| #[trigger] pieces.contains(p) implies state.pending.contains_key(p) by {}
}

/// Whatever block comes in, the pieces stay in order; and where the block is not
/// at fault, no piece that was asked for is lost.
pub proof fn law_block_keeps_order(
    info: Info,
    pieces: Seq<usize>,
    state: RetrievalState,
    d: Delivery,
)
    requires
        0 <= d.offset,
        in_order(info, pieces, state),
    ensures
        in_order(info, pieces, received(info, state, d)),
        fault(info, state, d) is None && all_there(pieces, state) ==> all_there(
            pieces,
            received(info, state, d),
        ),
{
    let next = received(info, state, d);
    if state.refusal(d.piece, d.offset, d.block.len() as int) is None {
        law_write_is_read_back(state.pending[d.piece], d.offset, d.block);
        assert forall|p: usize| #[trigger] next.pending.contains_key(p) implies {
            &&& pieces.contains(p)
            &&& !next.finished.contains_key(p)
            &&& next.pending[p].bytes.len() == info.piece_size(p as int)
        } by {
            assert(state.pending.contains_key(p));
        }
        assert forall|p: usize| #[trigger] next.finished.contains_key(p) implies {
            &&& pieces.contains(p)
            &&& !next.pending.contains_key(p)
            &&& next.finished[p].len() == info.piece_size(p as int)
        } by {
            if p != d.piece {
                assert(state.finished.contains_key(p));
            }
        }
        if fault(info, state, d) is None && all_there(pieces, state) {
            assert forall|p: usize| #[trigger] pieces.contains(p) implies next.pending.contains_key(
                p,
            ) || next.finished.contains_key(p) by {
                assert(state.pending.contains_key(p) || state.finished.contains_key(p));
            }
        }
    }
}

/// A queue of blocks keeps the pieces in order and genuine.
proof fn lemma_drained_in_order(
    info: Info,
    pieces: Seq<usize>,
    state: RetrievalState,
    queue: Seq<Delivery>,
)
    requires
        forall|j: int| 0 <= j < queue.len() ==> 0 <= (#[trigger] queue[j]).offset,
        in_order(info, pieces, state),
        all_genuine(info, state),
    ensures
        in_order(info, pieces, drained(info, state, queue).0),
        all_genuine(info, drained(info, state, queue).0),
        drained(info, state, queue).1 is None && all_there(pieces, state) ==> all_there(
            pieces,
            drained(info, state, queue).0,
        ),
    decreases queue.len(),
{
    if !state.pending.dom().is_empty() && queue.len() > 0 {
        let next = received(info, state, queue[0]);
        let rest = queue.drop_first();
        law_block_keeps_order(info, pieces, state, queue[0]);
        law_finished_pieces_are_genuine(info, state, queue[0]);
        assert forall|j: int| 0 <= j < rest.len() implies 0 <= (#[trigger] rest[j]).offset by {
            assert(rest[j] == queue[j + 1]);
        }
        lemma_drained_in_order(info, pieces, next, rest);
    }
}

/// Whatever blocks come in, each finished piece was asked for, is no longer
/// pending, has its length and has the digest that the torrent gives. Where none
/// of the blocks is at fault, each piece that was asked for is pending or
/// finished, so that once no piece is pending, the finished pieces are exactly
/// those that were asked for.
pub proof fn law_retrieval_accounts_for_pieces(
    info: Info,
    pieces: Seq<usize>,
    queue: Seq<Delivery>,
)
    requires
        can_start(info, pieces),
        forall|j: int| 0 <= j < queue.len() ==> 0 <= (#[trigger] queue[j]).offset,
    ensures
        ({
            let (end, trouble, _) = drained(info, started(info, pieces), queue);
            &&& in_order(info, pieces, end)
            &&& all_genuine(info, end)
            &&& trouble is None ==> forall|p: usize| #[trigger]
                pieces.contains(p) <==> end.pending.contains_key(p) || end.finished.contains_key(p)
            &&& trouble is None && end.pending.dom().is_empty() ==> forall|p: usize| #[trigger]
                end.finished.contains_key(p) <==> pieces.contains(p)
        }),
{
    law_start_is_in_order(info, pieces);
    lemma_drained_in_order(info, pieces, started(info, pieces), queue);
    let (end, trouble, _) = drained(info, started(info, pieces), queue);
    if trouble is None {
        assert(all_there(pieces, end));
        assert forall|p: usize| #[trigger] pieces.contains(p) <==> end.pending.contains_key(p)
            || end.finished.contains_key(p) by {}
        if end.pending.dom().is_empty() {
            assert forall|p: usize| #[trigger] end.finished.contains_key(p) <==> pieces.contains(
                p,
            ) by {
                assert(!end.pending.dom().contains(p));
            }
        }
    }
}

/// Whether `b`, a piece and the number of a block in it, is among the blocks
/// that are requested of the pieces.
pub open spec fn is_requested(info: Info, pieces: Seq<usize>, b: (usize, int)) -> bool {
    pieces.contains(b.0) && 0 <= b.1 < block_count(info.piece_size(b.0 as int))
}

/// An order in which each requested block comes once.
pub open spec fn each_block_once(
    info: Info,
    pieces: Seq<usize>,
    order: Seq<(usize, int)>,
) -> bool {
    &&& order.no_duplicates()
    &&& forall|b: (usize, int)| #[trigger] order.contains(b) <==> is_requested(info, pieces, b)
}

/// The delivery of a requested block.
pub open spec fn delivery(info: Info, data: Map<usize, Seq<u8>>, b: (usize, int)) -> Delivery {
    Delivery {
        piece: b.0,
        offset: block_start(b.1),
        block: data[b.0].subrange(
            block_start(b.1),
            block_start(b.1) + block_size(info.piece_size(b.0 as int), b.1),
        ),
    }
}

/// The deliveries of requested blocks.
pub open spec fn deliveries(
    info: Info,
    data: Map<usize, Seq<u8>>,
    order: Seq<(usize, int)>,
) -> Seq<Delivery> {
    order.map_values(|b: (usize, int)| delivery(info, data, b))
}

/// The blocks that this client requests are a cut of the pieces: delivered in
/// whatever order, they give the pieces back.
pub proof fn law_requested_blocks_are_a_cut(
    info: Info,
    pieces: Seq<usize>,
    data: Map<usize, Seq<u8>>,
    order: Seq<(usize, int)>,
)
    requires
        shared(info, pieces, data),
        each_block_once(info, pieces, order),
    ensures
        is_cut(pieces, data, deliveries(info, data, order)),
{
    let blocks = deliveries(info, data, order);
    assert forall|j: int| 0 <= j < blocks.len() implies is_part(
        pieces,
        data,
        #[trigger] blocks[j],
    ) by {
        assert(order.contains(order[j]));
        law_requests_are_small(info.piece_size(order[j].0 as int), order[j].1);
        let d = blocks[j];
        assert(d.block =~= data[d.piece].subrange(d.offset, d.offset + d.block.len()));
    }
    assert forall|p: usize, x: int|
        pieces.contains(p) && 0 <= x < data[p].len() implies #[trigger] is_covered(
        blocks,
        p,
        x,
    ) by {
        let size = info.piece_size(p as int);
        law_blocks_tile_piece(size, x);
        let k = choose|k: int| 0 <= k < block_count(size) && #[trigger] in_block(size, k, x);
        law_requests_are_small(size, k);
        assert(is_requested(info, pieces, (p, k)));
        assert(order.contains((p, k)));
        let j = choose|j: int| 0 <= j < order.len() && #[trigger] order[j] == (p, k);
        assert(covers(blocks[j], p, x));
    }
    assert forall|i: int, j: int, p: usize, x: int|
        0 <= i < blocks.len() && 0 <= j < blocks.len() && #[trigger] covers(blocks[i], p, x)
            && #[trigger] covers(blocks[j], p, x) implies i == j by {
        let size = info.piece_size(p as int);
        assert(order.contains(order[i]));
        assert(order.contains(order[j]));
        law_requests_are_small(size, order[i].1);
        law_requests_are_small(size, order[j].1);
        assert(in_block(size, order[i].1, x));
        assert(in_block(size, order[j].1, x));
        law_blocks_tile_piece(size, x);
        assert(order[i] == order[j]);
    }
}

/// The number of pieces that the files are split into.
pub open spec fn pieces_in_files(info: Info) -> int {
    (info.files.total() + info.piece_length - 1) / (info.piece_length as int)
}

/// Piece `i` of a file.
pub open spec fn piece_of(info: Info, file: Seq<u8>, i: int) -> Seq<u8> {
    file.subrange(i * info.piece_length, i * info.piece_length + info.piece_size(i))
}

/// The first `n` pieces of a file one behind the other.
pub open spec fn pieces_joined(info: Info, file: Seq<u8>, n: int) -> Seq<u8>
    decreases n,
{
    if n <= 0 {
        Seq::empty()
    } else {
        pieces_joined(info, file, n - 1) + piece_of(info, file, n - 1)
    }
}

/// What `n` pieces come to.
proof fn lemma_pieces_joined(info: Info, file: Seq<u8>, n: int)
    requires
        info.piece_length > 0,
        file.len() == info.files.total(),
        0 <= n <= pieces_in_files(info),
    ensures
        n < pieces_in_files(info) ==> n * info.piece_length < file.len(),
        pieces_joined(info, file, n) == if n * info.piece_length < file.len() {
            file.take(n * info.piece_length)
        } else {
            file
        },
    decreases n,
{
    let size = info.piece_length as int;
    let total = file.len() as int;
    let m = pieces_in_files(info);
    vstd::arithmetic::div_mod::lemma_fundamental_div_mod(total + size - 1, size);
    assert(total <= m * size < total + size) by (nonlinear_arith)
        requires
            total + size - 1 == size * m + (total + size - 1) % size,
            0 <= (total + size - 1) % size < size,
    ;
    if n < m {
        assert(n * size < total) by (nonlinear_arith)
            requires
                n < m,
                m * size < total + size,
                size > 0,
        ;
    } else {
        assert(n * size >= total);
    }
    if n == 0 {
        assert(n * size == 0) by (nonlinear_arith)
            requires
                n == 0,
        ;
        if total > 0 {
            assert(file.take(0) =~= Seq::<u8>::empty());
        } else {
            assert(file =~= Seq::<u8>::empty());
        }
    } else {
        lemma_pieces_joined(info, file, n - 1);
        assert(n * size == (n - 1) * size + size) by (nonlinear_arith);
        assert((n - 1) * size >= 0) by (nonlinear_arith)
            requires
                n >= 1,
                size > 0,
        ;
        let joined = file.take((n - 1) * size) + piece_of(info, file, n - 1);
        assert(pieces_joined(info, file, n) == joined);
        if n * size < total {
            assert(joined =~= file.take(n * size));
        } else {
            assert(joined =~= file);
        }
    }
}

/// The pieces of a file, each written where it belongs, make up the file: they
/// fit into it and one behind the other give it back.
pub proof fn law_pieces_make_up_file(info: Info, file: Seq<u8>)
    requires
        info.piece_length > 0,
        file.len() == info.files.total(),
    ensures
        pieces_joined(info, file, pieces_in_files(info)) == file,
        forall|i: int|
            0 <= i < pieces_in_files(info) ==> info.piece_length * i + (#[trigger] piece_of(
                info,
                file,
                i,
            )).len() <= file.len(),
        forall|i: int|
            0 <= i < pieces_in_files(info) ==> (#[trigger] pieces_joined(info, file, i)).len()
                == info.piece_length * i,
{
    let m = pieces_in_files(info);
    assert(m >= 0) by (nonlinear_arith)
        requires
            m == (file.len() + info.piece_length - 1) / (info.piece_length as int),
            info.piece_length > 0,
    ;
    lemma_pieces_joined(info, file, m);
    vstd::arithmetic::div_mod::lemma_fundamental_div_mod(
        file.len() + info.piece_length - 1,
        info.piece_length as int,
    );
    assert(m * info.piece_length >= file.len()) by (nonlinear_arith)
        requires
            file.len() + info.piece_length - 1 == info.piece_length * m + (file.len()
                + info.piece_length - 1) % (info.piece_length as int),
            0 <= (file.len() + info.piece_length - 1) % (info.piece_length as int)
                < info.piece_length,
    ;
    assert forall|i: int| 0 <= i < m implies info.piece_length * i + (#[trigger] piece_of(
        info,
        file,
        i,
    )).len() <= file.len() by {
        lemma_pieces_joined(info, file, i);
        assert(i * info.piece_length >= 0) by (nonlinear_arith)
            requires
                i >= 0,
        ;
        assert(info.piece_length * i == i * info.piece_length) by (nonlinear_arith);
    }
    assert forall|i: int| 0 <= i < m implies (#[trigger] pieces_joined(info, file, i)).len()
        == info.piece_length * i by {
        lemma_pieces_joined(info, file, i);
        assert(i * info.piece_length >= 0) by (nonlinear_arith)
            requires
                i >= 0,
        ;
        assert(info.piece_length * i == i * info.piece_length) by (nonlinear_arith);
    }
}

} // verus!
