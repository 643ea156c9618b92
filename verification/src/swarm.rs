//! A swarm that cooperates, seen from the piece manager: sessions reserve blocks,
//! peers answer requests with the true bytes, sessions abandon what they hold, in
//! any order. However the moves interleave, every answer that is accepted brings
//! the download one block nearer to its end and no piece fails; when no block is
//! left to come the download is done and nothing is reserved.

use crate::digest::sha1_digest;
use crate::manager::laws::{
    lemma_conservation, lemma_delivered_wf, lemma_delivery_progress, lemma_done_holds_nothing,
    lemma_nothing_to_come, lemma_open_members, lemma_released_wf, lemma_reserved_wf,
};
use crate::manager::{count_all, ManagerView, Outcome};
use crate::piece::laws::{
    lemma_count_extremes, lemma_downloaded_is_truth, lemma_layout_bounds, lemma_layout_coherent, lemma_stored_agrees,
    lemma_stored_keeps, lemma_to_come_same,
};
use crate::piece::{count_in, first_n, BlockRef, BlockState, PieceStatus, PieceView};
use vstd::prelude::*;
use vstd::seq_lib::lemma_seq_take_contains;

verus! {

/// Whether `truth` is the content that the pieces stand for: for every piece its
/// bytes, as many as the piece is long, which hash to the target of the piece.
pub open spec fn honest(v: ManagerView, truth: Seq<Seq<u8>>) -> bool {
    &&& truth.len() == v.pieces.len()
    &&& forall|i: int|
        0 <= i < v.pieces.len() ==> (#[trigger] truth[i]).len() == v.size_of(i)
            && v.pieces[i].hash == sha1_digest(truth[i])
}

/// Whether every buffer holds the true bytes wherever a block has arrived.
pub open spec fn agrees(v: ManagerView, truth: Seq<Seq<u8>>) -> bool {
    forall|i: int| 0 <= i < v.pieces.len() ==> (#[trigger] v.pieces[i]).agrees(truth[i])
}

/// Whether no piece waits for its digest.
pub open spec fn settled(v: ManagerView) -> bool {
    forall|i: int|
        0 <= i < v.pieces.len() ==> (#[trigger] v.pieces[i]).status
            != PieceStatus::AwaitingVerify
}

/// The true bytes of the block of piece `piece` that starts at `offset`.
pub open spec fn block_bytes(
    v: ManagerView,
    truth: Seq<Seq<u8>>,
    piece: usize,
    offset: usize,
) -> Seq<u8> {
    let p = v.pieces[piece as int];
    truth[piece as int].subrange(offset as int, offset + p.blocks[p.index_at(offset)].length)
}

/// Whether `after` has the pieces of `before` and no piece has failed in it that had
/// not failed in `before`.
pub open spec fn none_failed(before: ManagerView, after: ManagerView) -> bool {
    &&& after.pieces.len() == before.pieces.len()
    &&& forall|i: int|
        0 <= i < after.pieces.len() && (#[trigger] after.pieces[i]).status == PieceStatus::Failed
            ==> before.pieces[i].status == PieceStatus::Failed
}

/// A move of the swarm.
pub enum Move {
    /// A session reserves up to `n` free blocks of the pieces in `has`, as
    /// `PieceManager::reserve_batch` does.
    Reserve { n: int, has: Set<usize>, owner: usize },
    /// A peer answers the request for the block of `piece` at `offset` with the true
    /// bytes, which go to `PieceManager::deliver`.
    Answer { piece: usize, offset: usize },
    /// A session gives back what it holds, as `PieceManager::abandon` does.
    Abandon { owner: usize },
}

/// Whether the move is an answer that is accepted: a peer was asked for the block.
pub open spec fn accepted(v: ManagerView, m: Move) -> bool {
    m matches Move::Answer { piece, offset } && v.requested(piece, offset)
}

/// The state after a move. An answer to a request that nobody made changes
/// nothing.
pub open spec fn moved(v: ManagerView, truth: Seq<Seq<u8>>, m: Move) -> ManagerView {
    match m {
        Move::Reserve { n, has, owner } => v.reserved(first_n(v.open(has), n), owner),
        Move::Answer { piece, offset } => if v.requested(piece, offset) {
            v.delivered(piece, offset, block_bytes(v, truth, piece, offset))
        } else {
            v
        },
        Move::Abandon { owner } => v.released(owner),
    }
}

/// The state after the moves, one after the other.
pub open spec fn run(v: ManagerView, truth: Seq<Seq<u8>>, moves: Seq<Move>) -> ManagerView
    decreases moves.len(),
{
    if moves.len() == 0 {
        v
    } else {
        moved(run(v, truth, moves.drop_last()), truth, moves.last())
    }
}

/// The number of answers among the moves that are accepted.
pub open spec fn answers(v: ManagerView, truth: Seq<Seq<u8>>, moves: Seq<Move>) -> nat
    decreases moves.len(),
{
    if moves.len() == 0 {
        0
    } else {
        answers(v, truth, moves.drop_last()) + if accepted(
            run(v, truth, moves.drop_last()),
            moves.last(),
        ) {
            1nat
        } else {
            0nat
        }
    }
}

/// Pieces of which as many blocks are to come, one by one, have as many to come
/// together.
pub proof fn lemma_to_come_all(a: Seq<PieceView>, b: Seq<PieceView>)
    requires
        a.len() == b.len(),
        forall|i: int| 0 <= i < a.len() ==> (#[trigger] a[i]).to_come() == b[i].to_come(),
    ensures
        count_all(a, BlockState::NotRequested) + count_all(a, BlockState::Requested) == count_all(
            b,
            BlockState::NotRequested,
        ) + count_all(b, BlockState::Requested),
    decreases a.len(),
{
    if a.len() > 0 {
        assert(a.last() == a[a.len() - 1]);
        assert(b.last() == b[b.len() - 1]);
        assert(a[a.len() - 1].to_come() == b[a.len() - 1].to_come());
        assert forall|i: int| 0 <= i < a.drop_last().len() implies (
        #[trigger] a.drop_last()[i]).to_come() == b.drop_last()[i].to_come() by {
            assert(a[i].to_come() == b[i].to_come());
        }
        lemma_to_come_all(a.drop_last(), b.drop_last());
    }
}

/// An answer with the true bytes is accepted, does not make its piece fail, and
/// leaves one block less to come; the state stays in order and in agreement with
/// the truth.
pub proof fn lemma_answer(v: ManagerView, truth: Seq<Seq<u8>>, piece: usize, offset: usize)
    requires
        v.wf(),
        honest(v, truth),
        agrees(v, truth),
        settled(v),
        v.requested(piece, offset),
    ensures
        ({
            let bytes = block_bytes(v, truth, piece, offset);
            let after = v.delivered(piece, offset, bytes);
            &&& v.delivery_fault(piece, offset, bytes.len() as int) is None
            &&& v.outcome(piece, offset, bytes) != Outcome::PieceFailed
            &&& after.wf()
            &&& honest(after, truth)
            &&& agrees(after, truth)
            &&& settled(after)
            &&& none_failed(v, after)
            &&& after.to_come() + 1 == v.to_come()
        }),
{
    let p = v.pieces[piece as int];
    let t = truth[piece as int];
    let size = v.size_of(piece as int);
    let bs = v.block_size as int;
    let j = p.index_at(offset);
    let bytes = block_bytes(v, truth, piece, offset);
    assert(v.piece_ok(piece as int));
    assert(t.len() == size);
    assert(p.agrees(t));
    lemma_layout_coherent(p, size, bs);
    lemma_layout_bounds(p, size, bs, j);
    assert(bytes.len() == p.blocks[j].length);
    assert(v.delivery_fault(piece, offset, bytes.len() as int) is None);
    let q = p.stored(offset, bytes, size);
    lemma_stored_keeps(p, offset, bytes, size, bs);
    lemma_stored_agrees(p, offset, t, size, bs);
    if q.status == PieceStatus::AwaitingVerify {
        assert(q.all_in(BlockState::Downloaded));
        lemma_downloaded_is_truth(q, t, size, bs);
        assert(sha1_digest(q.data) == q.hash);
    }
    lemma_delivered_wf(v, piece, offset, bytes);
    lemma_delivery_progress(v, piece, offset, bytes);
    let after = v.delivered(piece, offset, bytes);
    assert forall|i: int| 0 <= i < after.pieces.len() implies (#[trigger] truth[i]).len()
        == after.size_of(i) && after.pieces[i].hash == sha1_digest(truth[i]) by {
        assert(truth[i].len() == v.size_of(i));
    }
    assert forall|i: int| 0 <= i < after.pieces.len() implies (#[trigger] after.pieces[i]).agrees(
        truth[i],
    ) by {
        if i != piece {
            assert(v.pieces[i].agrees(truth[i]));
        }
    }
    assert forall|i: int| 0 <= i < after.pieces.len() implies (#[trigger] after.pieces[i]).status
        != PieceStatus::AwaitingVerify by {
        if i != piece {
            assert(v.pieces[i].status != PieceStatus::AwaitingVerify);
        }
    }
}

/// A block of the batch is one that nobody was asked for.
pub proof fn lemma_batch_is_free(v: ManagerView, batch: Seq<BlockRef>, i: int, j: int)
    requires
        v.wf(),
        forall|r: BlockRef| #[trigger] batch.contains(r) ==> v.is_open(r),
        0 <= i < v.pieces.len(),
        0 <= j < v.pieces[i].blocks.len(),
        batch.contains(v.pieces[i].blocks[j].coords()),
    ensures
        v.pieces[i].blocks[j].state == BlockState::NotRequested,
{
    let p = v.pieces[i];
    let r = p.blocks[j].coords();
    assert(v.piece_ok(i));
    lemma_layout_coherent(p, v.size_of(i), v.block_size as int);
    assert(v.is_open(r));
    let m = choose|m: int|
        0 <= r.piece < v.pieces.len() && 0 <= m < v.pieces[r.piece as int].blocks.len() && (
        #[trigger] v.pieces[r.piece as int].blocks[m]).coords() == r
            && v.pieces[r.piece as int].blocks[m].state == BlockState::NotRequested;
    assert(r.piece == i);
    if m != j {
        if m < j {
            assert(p.blocks[m].offset != p.blocks[j].offset);
        } else {
            assert(p.blocks[j].offset != p.blocks[m].offset);
        }
    }
}

/// A reservation leaves as many blocks to come; the state stays in order and in
/// agreement with the truth.
pub proof fn lemma_reserve(
    v: ManagerView,
    truth: Seq<Seq<u8>>,
    n: int,
    has: Set<usize>,
    owner: usize,
)
    requires
        v.wf(),
        honest(v, truth),
        agrees(v, truth),
        settled(v),
    ensures
        ({
            let after = v.reserved(first_n(v.open(has), n), owner);
            &&& after.wf()
            &&& honest(after, truth)
            &&& agrees(after, truth)
            &&& settled(after)
            &&& none_failed(v, after)
            &&& after.to_come() == v.to_come()
        }),
{
    let batch = first_n(v.open(has), n);
    let after = v.reserved(batch, owner);
    lemma_open_members(v, has, v.pieces.len() as int);
    assert forall|r: BlockRef| #[trigger] batch.contains(r) implies v.is_open(r) by {
        if batch != v.open(has) {
            lemma_seq_take_contains(v.open(has), n, r);
        }
        assert(v.open(has).contains(r));
    }
    lemma_reserved_wf(v, batch, owner);
    assert forall|i: int| 0 <= i < v.pieces.len() implies (#[trigger] after.pieces[i]).agrees(
        truth[i],
    ) && after.pieces[i].to_come() == v.pieces[i].to_come() && after.pieces[i].status
        == v.pieces[i].status by {
        let p = v.pieces[i];
        let q = after.pieces[i];
        assert(p.agrees(truth[i]));
        assert forall|j: int| 0 <= j < p.blocks.len() implies (#[trigger] p.blocks[j]).to_come()
            == q.blocks[j].to_come() && (q.blocks[j].state == BlockState::Downloaded
            ==> q.blocks[j] == p.blocks[j]) by {
            if batch.contains(p.blocks[j].coords()) {
                lemma_batch_is_free(v, batch, i, j);
            }
        }
        lemma_to_come_same(p.blocks, q.blocks);
        assert forall|j: int|
            0 <= j < q.blocks.len() && (#[trigger] q.blocks[j]).state
                == BlockState::Downloaded implies q.block_agrees(j, truth[i]) by {
            assert(p.blocks[j].to_come() == q.blocks[j].to_come());
            assert(p.block_agrees(j, truth[i]));
        }
    }
    lemma_to_come_all(v.pieces, after.pieces);
    assert forall|i: int| 0 <= i < after.pieces.len() implies (#[trigger] truth[i]).len()
        == after.size_of(i) && after.pieces[i].hash == sha1_digest(truth[i]) by {
        assert(truth[i].len() == v.size_of(i));
    }
    assert forall|i: int| 0 <= i < after.pieces.len() implies (#[trigger] after.pieces[i]).status
        != PieceStatus::AwaitingVerify by {
        assert(v.pieces[i].status != PieceStatus::AwaitingVerify);
    }
}

/// Abandoning leaves as many blocks to come; the state stays in order and in
/// agreement with the truth.
pub proof fn lemma_abandon(v: ManagerView, truth: Seq<Seq<u8>>, owner: usize)
    requires
        v.wf(),
        honest(v, truth),
        agrees(v, truth),
        settled(v),
    ensures
        ({
            let after = v.released(owner);
            &&& after.wf()
            &&& honest(after, truth)
            &&& agrees(after, truth)
            &&& settled(after)
            &&& none_failed(v, after)
            &&& after.to_come() == v.to_come()
        }),
{
    let after = v.released(owner);
    lemma_released_wf(v, owner);
    assert forall|i: int| 0 <= i < v.pieces.len() implies (#[trigger] after.pieces[i]).agrees(
        truth[i],
    ) && after.pieces[i].to_come() == v.pieces[i].to_come() && after.pieces[i].status
        == v.pieces[i].status by {
        let p = v.pieces[i];
        let q = after.pieces[i];
        assert(v.piece_ok(i));
        assert(p.agrees(truth[i]));
        assert forall|j: int| 0 <= j < p.blocks.len() implies (#[trigger] p.blocks[j]).to_come()
            == q.blocks[j].to_come() && (q.blocks[j].state == BlockState::Downloaded
            ==> q.blocks[j] == p.blocks[j]) by {
            assert(p.blocks[j].owner is Some ==> p.blocks[j].state == BlockState::Requested);
        }
        lemma_to_come_same(p.blocks, q.blocks);
        assert forall|j: int|
            0 <= j < q.blocks.len() && (#[trigger] q.blocks[j]).state
                == BlockState::Downloaded implies q.block_agrees(j, truth[i]) by {
            assert(p.blocks[j].to_come() == q.blocks[j].to_come());
            assert(p.block_agrees(j, truth[i]));
        }
    }
    lemma_to_come_all(v.pieces, after.pieces);
    assert forall|i: int| 0 <= i < after.pieces.len() implies (#[trigger] truth[i]).len()
        == after.size_of(i) && after.pieces[i].hash == sha1_digest(truth[i]) by {
        assert(truth[i].len() == v.size_of(i));
    }
    assert forall|i: int| 0 <= i < after.pieces.len() implies (#[trigger] after.pieces[i]).status
        != PieceStatus::AwaitingVerify by {
        assert(v.pieces[i].status != PieceStatus::AwaitingVerify);
    }
}

/// Whatever the move, the state stays in order and in agreement with the truth, and
/// one block less is to come exactly when the move is an answer that is accepted.
pub proof fn lemma_move(v: ManagerView, truth: Seq<Seq<u8>>, m: Move)
    requires
        v.wf(),
        honest(v, truth),
        agrees(v, truth),
        settled(v),
    ensures
        moved(v, truth, m).wf(),
        honest(moved(v, truth, m), truth),
        agrees(moved(v, truth, m), truth),
        settled(moved(v, truth, m)),
        none_failed(v, moved(v, truth, m)),
        moved(v, truth, m).to_come() + (if accepted(v, m) {
            1nat
        } else {
            0nat
        }) == v.to_come(),
{
    match m {
        Move::Reserve { n, has, owner } => {
            lemma_reserve(v, truth, n, has, owner);
        },
        Move::Answer { piece, offset } => {
            if v.requested(piece, offset) {
                lemma_answer(v, truth, piece, offset);
            }
        },
        Move::Abandon { owner } => {
            lemma_abandon(v, truth, owner);
        },
    }
}

/// The download from a cooperating swarm, whatever the interleaving: after any
/// moves the state is in order and agrees with the truth, no piece has failed that
/// had not failed at the start, and the blocks still to come are those of the start
/// less the answers that were accepted. So no more
/// answers are accepted than blocks were to come; while the download is not done a
/// block is still to come; and when none is, every piece is complete and nothing is
/// reserved.
pub proof fn lemma_cooperating_swarm(v: ManagerView, truth: Seq<Seq<u8>>, moves: Seq<Move>)
    requires
        v.wf(),
        honest(v, truth),
        agrees(v, truth),
        settled(v),
    ensures
        run(v, truth, moves).wf(),
        honest(run(v, truth, moves), truth),
        agrees(run(v, truth, moves), truth),
        settled(run(v, truth, moves)),
        none_failed(v, run(v, truth, moves)),
        run(v, truth, moves).to_come() + answers(v, truth, moves) == v.to_come(),
        answers(v, truth, moves) <= v.to_come(),
        run(v, truth, moves).to_come() == 0 <==> run(v, truth, moves).all_complete(),
        run(v, truth, moves).all_complete() ==> run(v, truth, moves).holds_nothing(),
    decreases moves.len(),
{
    let end = run(v, truth, moves);
    if moves.len() > 0 {
        lemma_cooperating_swarm(v, truth, moves.drop_last());
        lemma_move(run(v, truth, moves.drop_last()), truth, moves.last());
    }
    if end.to_come() == 0 {
        lemma_nothing_to_come(end);
    }
    if end.all_complete() {
        lemma_done_holds_nothing(end);
        lemma_none_to_come_when_done(end);
    }
}

/// When every piece is complete, no block is to come.
pub proof fn lemma_none_to_come_when_done(v: ManagerView)
    requires
        v.wf(),
        v.all_complete(),
    ensures
        v.to_come() == 0,
{
    lemma_done_holds_nothing(v);
    lemma_conservation(v.pieces);
}

/// The state at the start of a download is one from which a cooperating swarm can
/// go on: nothing has arrived, so no buffer disagrees with the truth, and no piece
/// waits for its digest.
pub proof fn lemma_start(v: ManagerView, truth: Seq<Seq<u8>>)
    requires
        v.wf(),
        forall|i: int|
            0 <= i < v.pieces.len() ==> (#[trigger] v.pieces[i]).all_in(BlockState::NotRequested),
    ensures
        agrees(v, truth),
        settled(v),
{
    assert forall|i: int| 0 <= i < v.pieces.len() implies (#[trigger] v.pieces[i]).agrees(
        truth[i],
    ) && v.pieces[i].status != PieceStatus::AwaitingVerify by {
        assert(v.piece_ok(i));
        assert(v.pieces[i].all_in(BlockState::NotRequested));
        assert(v.pieces[i].blocks[0].state == BlockState::NotRequested);
    }
}

/// Whether some block waits for an answer.
pub open spec fn awaited(v: ManagerView) -> bool {
    exists|at: (usize, usize)| #[trigger] v.requested(at.0, at.1)
}

/// A move that brings the download on: the answer to a request that is out, or,
/// where none is out, the reservation of one free block by a session whose peer has
/// every piece.
pub open spec fn helpful(v: ManagerView) -> Move {
    if awaited(v) {
        let at = choose|at: (usize, usize)| #[trigger] v.requested(at.0, at.1);
        Move::Answer { piece: at.0, offset: at.1 }
    } else {
        Move::Reserve { n: 1, has: Set::full(), owner: 0 }
    }
}

/// The state after up to `k` helpful moves, none once no block is to come.
pub open spec fn pursued(v: ManagerView, truth: Seq<Seq<u8>>, k: nat) -> ManagerView
    decreases k,
{
    if k == 0 || v.to_come() == 0 {
        v
    } else {
        pursued(moved(v, truth, helpful(v)), truth, (k - 1) as nat)
    }
}

/// The helpful moves that the download is away from its end, at most: two for each
/// block to come, one less where a request is out.
pub open spec fn distance(v: ManagerView) -> nat {
    if v.to_come() == 0 {
        0
    } else if awaited(v) {
        (2 * v.to_come() - 1) as nat
    } else {
        2 * v.to_come()
    }
}

/// Where blocks are counted in a state, some block is in it.
pub proof fn lemma_counted_somewhere(pieces: Seq<PieceView>, state: BlockState)
    requires
        count_all(pieces, state) > 0,
    ensures
        exists|i: int, j: int|
            0 <= i < pieces.len() && 0 <= j < pieces[i].blocks.len() && (
            #[trigger] pieces[i].blocks[j]).state == state,
    decreases pieces.len(),
{
    let last = pieces.last();
    assert(last == pieces[pieces.len() - 1]);
    if count_in(last.blocks, state) > 0 {
        lemma_count_extremes(last.blocks, state);
        let j = choose|j: int| 0 <= j < last.blocks.len() && (#[trigger] last.blocks[j]).state
            == state;
        assert(pieces[pieces.len() - 1].blocks[j].state == state);
    } else {
        lemma_counted_somewhere(pieces.drop_last(), state);
        let (i, j) = choose|i: int, j: int|
            0 <= i < pieces.drop_last().len() && 0 <= j < pieces.drop_last()[i].blocks.len() && (
            #[trigger] pieces.drop_last()[i].blocks[j]).state == state;
        assert(pieces.drop_last()[i] == pieces[i]);
        assert(pieces[i].blocks[j].state == state);
    }
}

/// A block that is in state requested waits for an answer.
pub proof fn lemma_requested_block(v: ManagerView, i: int, j: int)
    requires
        v.wf(),
        0 <= i < v.pieces.len(),
        0 <= j < v.pieces[i].blocks.len(),
        v.pieces[i].blocks[j].state == BlockState::Requested,
    ensures
        v.requested(i as usize, v.pieces[i].blocks[j].offset),
        awaited(v),
{
    let p = v.pieces[i];
    let offset = p.blocks[j].offset;
    assert(v.piece_ok(i));
    lemma_layout_coherent(p, v.size_of(i), v.block_size as int);
    assert(p.has_block_at(offset));
    let m = p.index_at(offset);
    if m != j {
        if m < j {
            assert(p.blocks[m].offset != p.blocks[j].offset);
        } else {
            assert(p.blocks[j].offset != p.blocks[m].offset);
        }
    }
    let at = (i as usize, offset);
    assert(v.requested(at.0, at.1));
}

/// While blocks are to come and no request is out, a session whose peer has every
/// piece gets a block when it reserves one, and a request is out afterwards.
pub proof fn lemma_reserve_finds_work(v: ManagerView, owner: usize)
    requires
        v.wf(),
        v.to_come() > 0,
        !awaited(v),
    ensures
        first_n(v.open(Set::full()), 1).len() == 1,
        awaited(v.reserved(first_n(v.open(Set::full()), 1), owner)),
{
    let all = Set::<usize>::full();
    let batch = first_n(v.open(all), 1);
    let after = v.reserved(batch, owner);
    if count_all(v.pieces, BlockState::Requested) > 0 {
        lemma_counted_somewhere(v.pieces, BlockState::Requested);
        let (i, j) = choose|i: int, j: int|
            0 <= i < v.pieces.len() && 0 <= j < v.pieces[i].blocks.len() && (
            #[trigger] v.pieces[i].blocks[j]).state == BlockState::Requested;
        lemma_requested_block(v, i, j);
    }
    lemma_counted_somewhere(v.pieces, BlockState::NotRequested);
    let (i, j) = choose|i: int, j: int|
        0 <= i < v.pieces.len() && 0 <= j < v.pieces[i].blocks.len() && (
        #[trigger] v.pieces[i].blocks[j]).state == BlockState::NotRequested;
    lemma_open_members(v, all, v.pieces.len() as int);
    assert(all.contains(i as usize));
    assert(v.open(all).contains(v.pieces[i].blocks[j].coords()));
    assert(v.open(all).len() >= 1);
    let r = v.open(all)[0];
    assert(batch.len() == 1);
    assert(batch[0] == r);
    assert(batch.contains(r));
    assert(v.open(all).contains(r));
    assert(v.is_open(r));
    let m = choose|m: int|
        0 <= r.piece < v.pieces.len() && 0 <= m < v.pieces[r.piece as int].blocks.len() && (
        #[trigger] v.pieces[r.piece as int].blocks[m]).coords() == r
            && v.pieces[r.piece as int].blocks[m].state == BlockState::NotRequested;
    assert forall|x: BlockRef| #[trigger] batch.contains(x) implies v.is_open(x) by {
        assert(x == r);
    }
    lemma_reserved_wf(v, batch, owner);
    assert(after.pieces[r.piece as int].blocks[m].state == BlockState::Requested);
    lemma_requested_block(after, r.piece as int, m);
}

/// A helpful move brings the download one step nearer to its end.
pub proof fn lemma_helpful(v: ManagerView, truth: Seq<Seq<u8>>)
    requires
        v.wf(),
        honest(v, truth),
        agrees(v, truth),
        settled(v),
        v.to_come() > 0,
    ensures
        distance(moved(v, truth, helpful(v))) < distance(v),
{
    lemma_move(v, truth, helpful(v));
    if !awaited(v) {
        lemma_reserve_finds_work(v, 0);
    }
}

/// From a state that is in order and agrees with the truth, as many helpful moves
/// as the distance says, or more, complete every piece and leave nothing reserved.
pub proof fn lemma_pursuit_ends(v: ManagerView, truth: Seq<Seq<u8>>, k: nat)
    requires
        v.wf(),
        honest(v, truth),
        agrees(v, truth),
        settled(v),
        distance(v) <= k,
    ensures
        pursued(v, truth, k).wf(),
        pursued(v, truth, k).all_complete(),
        pursued(v, truth, k).holds_nothing(),
        none_failed(v, pursued(v, truth, k)),
    decreases k,
{
    if v.to_come() == 0 {
        lemma_nothing_to_come(v);
        lemma_done_holds_nothing(v);
    } else {
        let next = moved(v, truth, helpful(v));
        lemma_move(v, truth, helpful(v));
        lemma_helpful(v, truth);
        lemma_pursuit_ends(next, truth, (k - 1) as nat);
    }
}

/// No interleaving leads a download from a cooperating swarm into a dead end: from
/// the state after any moves, two helpful moves for each block that is still to come
/// complete every piece and leave no block requested.
pub proof fn lemma_no_dead_end(v: ManagerView, truth: Seq<Seq<u8>>, moves: Seq<Move>)
    requires
        v.wf(),
        honest(v, truth),
        agrees(v, truth),
        settled(v),
    ensures
        ({
            let at = run(v, truth, moves);
            let end = pursued(at, truth, 2 * at.to_come());
            &&& end.all_complete()
            &&& end.holds_nothing()
            &&& end.to_come() == 0
            &&& none_failed(v, end)
        }),
{
    let at = run(v, truth, moves);
    lemma_cooperating_swarm(v, truth, moves);
    lemma_pursuit_ends(at, truth, 2 * at.to_come());
    lemma_none_to_come_when_done(pursued(at, truth, 2 * at.to_come()));
}

} // verus!
