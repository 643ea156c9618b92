//! What holds of the piece manager: its counts are conserved, a reservation that
//! is abandoned leaves no trace, and only the right digest completes a piece.

use crate::digest::sha1_digest;
use crate::manager::{blocks_in, complete_in, count_all, precedes, ManagerView, Outcome};
use crate::piece::laws::{
    lemma_concluded_keeps, lemma_count_extremes, lemma_count_none, lemma_count_partition,
    lemma_count_update, lemma_layout_coherent, lemma_open_upto_blocks, lemma_open_upto_members,
    lemma_piece_open_ascends, lemma_released_keeps, lemma_reserved_keeps, lemma_stored_keeps,
};
use crate::piece::{BlockRef, BlockState, PieceStatus, PieceView, count_in, first_n};
use vstd::prelude::*;
use vstd::seq_lib::{lemma_seq_concat_contains_all_elements, lemma_seq_take_contains};

verus! {

/// Conservation: every block is in exactly one of the four states, so the four
/// counts add up to the number of blocks.
pub proof fn lemma_conservation(pieces: Seq<PieceView>)
    ensures
        count_all(pieces, BlockState::NotRequested) + count_all(pieces, BlockState::Requested)
            + count_all(pieces, BlockState::Downloaded) + count_all(pieces, BlockState::Verified)
            == blocks_in(pieces),
    decreases pieces.len(),
{
    if pieces.len() > 0 {
        lemma_conservation(pieces.drop_last());
        lemma_count_partition(pieces.last().blocks);
    }
}

/// In a piece that is not complete, every block is free, requested or downloaded:
/// these three counts add up to the number of its blocks. In a complete piece every
/// block is verified.
pub proof fn lemma_piece_conservation(v: ManagerView, i: int)
    requires
        v.wf(),
        0 <= i < v.pieces.len(),
    ensures
        v.pieces[i].status != PieceStatus::Complete ==> count_in(
            v.pieces[i].blocks,
            BlockState::NotRequested,
        ) + count_in(v.pieces[i].blocks, BlockState::Requested) + count_in(
            v.pieces[i].blocks,
            BlockState::Downloaded,
        ) == v.pieces[i].blocks.len(),
        v.pieces[i].status == PieceStatus::Complete ==> count_in(
            v.pieces[i].blocks,
            BlockState::Verified,
        ) == v.pieces[i].blocks.len(),
{
    assert(v.piece_ok(i));
    lemma_count_partition(v.pieces[i].blocks);
    lemma_count_extremes(v.pieces[i].blocks, BlockState::Verified);
}

/// Reserving blocks for an owner who holds none and then abandoning that owner
/// leaves the state as it was.
pub proof fn lemma_reserve_then_abandon(
    v: ManagerView,
    n: int,
    has: Set<usize>,
    owner: usize,
)
    requires
        v.wf(),
        v.holds_none(owner),
    ensures
        v.reserved(first_n(v.open(has), n), owner).released(owner) == v,
{
    let batch = first_n(v.open(has), n);
    let w = v.reserved(batch, owner).released(owner);
    lemma_open_members(v, has, v.pieces.len() as int);
    assert forall|i: int| 0 <= i < v.pieces.len() implies w.pieces[i] == v.pieces[i] by {
        let p = v.pieces[i];
        assert(v.piece_ok(i));
        lemma_layout_coherent(p, v.size_of(i), v.block_size as int);
        assert forall|j: int| 0 <= j < p.blocks.len() implies w.pieces[i].blocks[j]
            == p.blocks[j] by {
            let r = p.blocks[j].coords();
            assert(p.blocks[j].owner != Some(owner));
            if batch.contains(r) {
                if batch != v.open(has) {
                    lemma_seq_take_contains(v.open(has), n, r);
                }
                assert(v.open(has).contains(r));
                assert(v.is_open(r));
                let m = choose|m: int|
                    0 <= r.piece < v.pieces.len() && 0 <= m < v.pieces[r.piece as int].blocks.len()
                        && (#[trigger] v.pieces[r.piece as int].blocks[m]).coords() == r
                        && v.pieces[r.piece as int].blocks[m].state == BlockState::NotRequested;
                if m != j {
                    if m < j {
                        assert(p.blocks[m].offset != p.blocks[j].offset);
                    } else {
                        assert(p.blocks[j].offset != p.blocks[m].offset);
                    }
                }
                assert(p.blocks[j].owner is Some ==> p.blocks[j].state == BlockState::Requested);
            }
        }
        assert(w.pieces[i].blocks =~= p.blocks);
    }
    assert(w.pieces =~= v.pieces);
}

/// A piece becomes complete only by a digest that is its target: settling a piece
/// with any other digest leaves it failed, with every block free again.
pub proof fn lemma_only_the_target_completes(v: ManagerView, piece: usize, digest: Seq<u8>)
    requires
        v.wf(),
        piece < v.pieces.len(),
        v.pieces[piece as int].status == PieceStatus::AwaitingVerify,
    ensures
        v.concluded(piece, digest).pieces[piece as int].status == PieceStatus::Complete <==> digest
            == v.pieces[piece as int].hash,
        digest != v.pieces[piece as int].hash ==> {
            &&& v.concluded(piece, digest).pieces[piece as int].status == PieceStatus::Failed
            &&& v.concluded(piece, digest).pieces[piece as int].all_in(BlockState::NotRequested)
            &&& v.concluded(piece, digest).completed == v.completed
        },
        digest == v.pieces[piece as int].hash ==> v.concluded(piece, digest).completed
            == v.completed + 1,
        forall|i: int|
            0 <= i < v.pieces.len() && i != piece ==> v.concluded(piece, digest).pieces[i]
                == v.pieces[i],
{
    lemma_complete_count(v.pieces);
    lemma_pieces_counted(v.pieces);
    assert forall|i: int| 0 <= i < v.pieces.len() implies (#[trigger] v.pieces[i]).blocks.len()
        >= 1 by {
        assert(v.piece_ok(i));
    }
}

/// What a delivery completes: the piece of a block that is accepted is complete
/// afterwards exactly when that was its last block and the SHA-1 digest of its bytes
/// is its target; and no other piece changes.
pub proof fn lemma_delivery_completes(v: ManagerView, piece: usize, offset: usize, bytes: Seq<u8>)
    requires
        v.wf(),
        v.delivery_fault(piece, offset, bytes.len() as int) is None,
    ensures
        ({
            let stored = v.stored(piece, offset, bytes).pieces[piece as int];
            let after = v.delivered(piece, offset, bytes);
            &&& after.pieces[piece as int].status == PieceStatus::Complete <==> stored.all_in(
                BlockState::Downloaded,
            ) && sha1_digest(stored.data) == stored.hash
            &&& after.pieces[piece as int].status == PieceStatus::Failed <==> stored.all_in(
                BlockState::Downloaded,
            ) && sha1_digest(stored.data) != stored.hash
            &&& after.pieces[piece as int].status == PieceStatus::Failed
                ==> after.pieces[piece as int].all_in(BlockState::NotRequested)
            &&& forall|i: int|
                0 <= i < v.pieces.len() && i != piece ==> after.pieces[i] == v.pieces[i]
        }),
{
    let p = v.pieces[piece as int];
    assert(v.piece_ok(piece as int));
    let j = p.index_at(offset);
    assert(p.blocks[j].state == BlockState::Requested);
    assert(p.status != PieceStatus::Complete);
    if p.status == PieceStatus::AwaitingVerify {
        assert(p.blocks[j].state == BlockState::Downloaded);
    }
    let q = p.downloaded_at(offset);
    let r = PieceView { blocks: p.blocks_with(offset), ..p };
    assert(q.blocks == r.blocks);
    assert(r.all_in(BlockState::Downloaded) == q.all_in(BlockState::Downloaded));
}

/// What marking a block as downloaded settles: a block that a peer was asked for is
/// downloaded, and its piece, if that was its last block, is complete exactly when
/// the SHA-1 digest of its buffer is its target and has failed, with every block
/// free again, otherwise; the piece never stays waiting for its digest, and no other
/// piece changes.
pub proof fn lemma_mark_settles(v: ManagerView, piece: usize, offset: usize)
    requires
        v.wf(),
        v.requested(piece, offset),
    ensures
        ({
            let marked = v.downloaded_at(piece, offset).pieces[piece as int];
            let after = v.downloaded_at(piece, offset).concluded(
                piece,
                sha1_digest(marked.data),
            );
            &&& after.pieces[piece as int].status == PieceStatus::Complete <==> marked.all_in(
                BlockState::Downloaded,
            ) && sha1_digest(marked.data) == marked.hash
            &&& after.pieces[piece as int].status == PieceStatus::Failed <==> marked.all_in(
                BlockState::Downloaded,
            ) && sha1_digest(marked.data) != marked.hash
            &&& after.pieces[piece as int].status == PieceStatus::Failed
                ==> after.pieces[piece as int].all_in(BlockState::NotRequested)
            &&& after.pieces[piece as int].status != PieceStatus::AwaitingVerify
            &&& !marked.all_in(BlockState::Downloaded) ==> after.pieces[piece as int] == marked
            &&& forall|i: int|
                0 <= i < v.pieces.len() && i != piece ==> after.pieces[i] == v.pieces[i]
        }),
{
    let p = v.pieces[piece as int];
    assert(v.piece_ok(piece as int));
    let j = p.index_at(offset);
    assert(p.blocks[j].state == BlockState::Requested);
    assert(p.status != PieceStatus::Complete);
    if p.status == PieceStatus::AwaitingVerify {
        assert(p.blocks[j].state == BlockState::Downloaded);
    }
    let q = p.downloaded_at(offset);
    let r = PieceView { blocks: p.blocks_with(offset), ..p };
    assert(q.blocks == r.blocks);
    assert(r.all_in(BlockState::Downloaded) == q.all_in(BlockState::Downloaded));
}

/// Once complete, a piece stays complete: reserving, abandoning, marking, storing
/// and settling leave the status of a complete piece as it is.
pub proof fn lemma_complete_stays(
    v: ManagerView,
    i: int,
    batch: Seq<BlockRef>,
    owner: usize,
    piece: usize,
    offset: usize,
    bytes: Seq<u8>,
    digest: Seq<u8>,
)
    requires
        v.wf(),
        0 <= i < v.pieces.len(),
        v.pieces[i].status == PieceStatus::Complete,
    ensures
        v.reserved(batch, owner).pieces[i].status == PieceStatus::Complete,
        v.released(owner).pieces[i].status == PieceStatus::Complete,
        v.requested_at(piece, offset).pieces[i].status == PieceStatus::Complete,
        v.downloaded_at(piece, offset).pieces[i].status == PieceStatus::Complete,
        piece < v.pieces.len() ==> v.stored(piece, offset, bytes).pieces[i].status
            == PieceStatus::Complete,
        v.concluded(piece, digest).pieces[i].status == PieceStatus::Complete,
{
    assert(v.piece_ok(i));
    if v.pieces[i].requested(offset) {
        let j = v.pieces[i].index_at(offset);
        assert(v.pieces[i].blocks[j].state == BlockState::Verified);
    }
}

/// Abandoning an owner leaves it without a reservation, and gives no other owner
/// one.
pub proof fn lemma_released_holds_none(v: ManagerView, owner: usize, other: usize)
    requires
        v.wf(),
    ensures
        v.released(owner).holds_none(owner),
        v.holds_none(other) ==> v.released(owner).holds_none(other),
{
    let w = v.released(owner);
    assert forall|i: int, j: int|
        0 <= i < w.pieces.len() && 0 <= j < w.pieces[i].blocks.len() implies (
    #[trigger] w.pieces[i].blocks[j]).owner != Some(owner) by {
        assert(w.pieces[i].blocks[j] == v.pieces[i].released(owner).blocks[j]);
    }
    if v.holds_none(other) {
        assert forall|i: int, j: int|
            0 <= i < w.pieces.len() && 0 <= j < w.pieces[i].blocks.len() implies (
        #[trigger] w.pieces[i].blocks[j]).owner != Some(other) by {
            assert(w.pieces[i].blocks[j] == v.pieces[i].released(owner).blocks[j]);
            assert(v.pieces[i].blocks[j].owner != Some(other));
        }
    }
}

/// Storing a block that is accepted, and settling its piece, keep the manager's
/// invariant.
pub proof fn lemma_delivered_wf(v: ManagerView, piece: usize, offset: usize, bytes: Seq<u8>)
    requires
        v.wf(),
        v.delivery_fault(piece, offset, bytes.len() as int) is None,
    ensures
        v.stored(piece, offset, bytes).wf(),
        v.delivered(piece, offset, bytes).wf(),
{
    let p = v.pieces[piece as int];
    let size = v.size_of(piece as int);
    assert(v.piece_ok(piece as int));
    let j = p.index_at(offset);
    assert(p.blocks[j].state == BlockState::Requested);
    assert(p.status != PieceStatus::Complete);
    let q = p.stored(offset, bytes, size);
    lemma_stored_keeps(p, offset, bytes, size, v.block_size as int);
    assert(q.blocks[j].state == BlockState::Downloaded) by {
        assert(q.blocks[j] == p.blocks_with(offset)[j]);
    }
    assert(q.status != PieceStatus::Complete);
    lemma_replaced_wf(v, piece as int, q);
    let stored = v.stored(piece, offset, bytes);
    if q.status == PieceStatus::AwaitingVerify {
        let digest = sha1_digest(q.data);
        let r = q.concluded(digest);
        let after = stored.concluded(piece, digest);
        lemma_concluded_keeps(q, digest, size, v.block_size as int);
        lemma_replace_piece(stored.pieces, piece as int, r);
        lemma_complete_count(stored.pieces);
        lemma_pieces_counted(stored.pieces);
        assert forall|i: int| 0 <= i < stored.pieces.len() implies (
        #[trigger] stored.pieces[i]).blocks.len() >= 1 by {
            assert(stored.piece_ok(i));
        }
        assert forall|i: int| 0 <= i < after.pieces.len() implies #[trigger] after.piece_ok(
            i,
        ) by {
            assert(stored.piece_ok(i));
        }
    }
}

/// Progress: a block that is accepted, and does not make its piece fail, leaves one
/// block less to come.
pub proof fn lemma_delivery_progress(v: ManagerView, piece: usize, offset: usize, bytes: Seq<u8>)
    requires
        v.wf(),
        v.delivery_fault(piece, offset, bytes.len() as int) is None,
        v.outcome(piece, offset, bytes) != Outcome::PieceFailed,
    ensures
        v.delivered(piece, offset, bytes).to_come() + 1 == v.to_come(),
{
    let p = v.pieces[piece as int];
    let size = v.size_of(piece as int);
    assert(v.piece_ok(piece as int));
    lemma_layout_coherent(p, size, v.block_size as int);
    let j = p.index_at(offset);
    assert(p.blocks[j].state == BlockState::Requested);
    assert(p.status != PieceStatus::Complete);
    if p.status == PieceStatus::AwaitingVerify {
        assert(p.blocks[j].state == BlockState::Downloaded);
    }
    let q = p.stored(offset, bytes, size);
    let changed = p.blocks[j].put(BlockState::Downloaded);
    assert(q.blocks =~= p.blocks.update(j, changed)) by {
        assert forall|k: int| 0 <= k < p.blocks.len() implies q.blocks[k] == p.blocks.update(
            j,
            changed,
        )[k] by {
            if k != j && p.blocks[k].offset == offset {
                if k < j {
                    assert(p.blocks[k].offset != p.blocks[j].offset);
                } else {
                    assert(p.blocks[j].offset != p.blocks[k].offset);
                }
            }
        }
    }
    lemma_count_update(p.blocks, j, changed, BlockState::NotRequested);
    lemma_count_update(p.blocks, j, changed, BlockState::Requested);
    let stored = v.stored(piece, offset, bytes);
    lemma_count_replace(v.pieces, piece as int, q, BlockState::NotRequested);
    lemma_count_replace(v.pieces, piece as int, q, BlockState::Requested);
    if q.status == PieceStatus::AwaitingVerify {
        let digest = sha1_digest(q.data);
        let r = q.concluded(digest);
        lemma_stored_keeps(p, offset, bytes, size, v.block_size as int);
        assert(q.all_in(BlockState::Downloaded));
        lemma_count_extremes(q.blocks, BlockState::NotRequested);
        lemma_count_extremes(q.blocks, BlockState::Requested);
        lemma_count_extremes(r.blocks, BlockState::NotRequested);
        lemma_count_extremes(r.blocks, BlockState::Requested);
        lemma_count_replace(stored.pieces, piece as int, r, BlockState::NotRequested);
        lemma_count_replace(stored.pieces, piece as int, r, BlockState::Requested);
    }
}

/// When no block is to come and no piece awaits its digest, the download is done.
pub proof fn lemma_nothing_to_come(v: ManagerView)
    requires
        v.wf(),
        v.to_come() == 0,
        forall|i: int|
            0 <= i < v.pieces.len() ==> (#[trigger] v.pieces[i]).status
                != PieceStatus::AwaitingVerify,
    ensures
        v.all_complete(),
{
    lemma_counted_nowhere(v.pieces, BlockState::NotRequested);
    lemma_counted_nowhere(v.pieces, BlockState::Requested);
    assert forall|i: int| 0 <= i < v.pieces.len() implies (#[trigger] v.pieces[i]).status
        == PieceStatus::Complete by {
        let p = v.pieces[i];
        assert(v.piece_ok(i));
        lemma_count_none(p.blocks, BlockState::NotRequested);
        lemma_count_none(p.blocks, BlockState::Requested);
        if p.status != PieceStatus::Complete {
            assert forall|j: int| 0 <= j < p.blocks.len() implies (#[trigger] p.blocks[j]).state
                == BlockState::Downloaded by {
                assert(p.blocks[j].state != BlockState::Verified);
            }
            assert(p.all_in(BlockState::Downloaded));
        }
    }
}

/// Replacing one piece changes the count of a state by what the piece takes from it
/// or adds to it.
pub proof fn lemma_count_replace(a: Seq<PieceView>, i: int, p: PieceView, state: BlockState)
    requires
        0 <= i < a.len(),
    ensures
        count_all(a.update(i, p), state) + count_in(a[i].blocks, state) == count_all(a, state)
            + count_in(p.blocks, state),
    decreases a.len(),
{
    let b = a.update(i, p);
    assert(a.last() == a[a.len() - 1]);
    assert(b.last() == b[b.len() - 1]);
    if i == a.len() - 1 {
        assert(b.drop_last() =~= a.drop_last());
    } else {
        assert(b.drop_last() =~= a.drop_last().update(i, p));
        assert(a.drop_last()[i] == a[i]);
        lemma_count_replace(a.drop_last(), i, p, state);
    }
}

/// Where no block is counted in a state, no piece has a block that is.
pub proof fn lemma_counted_nowhere(pieces: Seq<PieceView>, state: BlockState)
    requires
        count_all(pieces, state) == 0,
    ensures
        forall|i: int| 0 <= i < pieces.len() ==> count_in((#[trigger] pieces[i]).blocks, state) == 0,
    decreases pieces.len(),
{
    if pieces.len() > 0 {
        lemma_counted_nowhere(pieces.drop_last(), state);
        assert(pieces.last() == pieces[pieces.len() - 1]);
        assert forall|i: int| 0 <= i < pieces.len() implies count_in(
            (#[trigger] pieces[i]).blocks,
            state,
        ) == 0 by {
            if i < pieces.len() - 1 {
                assert(pieces.drop_last()[i] == pieces[i]);
            }
        }
    }
}

/// When every piece is complete, every block is verified: none is requested, so
/// no reservation is outstanding.
pub proof fn lemma_done_holds_nothing(v: ManagerView)
    requires
        v.wf(),
        v.all_complete(),
    ensures
        v.holds_nothing(),
        count_all(v.pieces, BlockState::Requested) == 0,
        count_all(v.pieces, BlockState::Verified) == blocks_in(v.pieces),
{
    assert forall|i: int, j: int|
        0 <= i < v.pieces.len() && 0 <= j < v.pieces[i].blocks.len() implies (
    #[trigger] v.pieces[i].blocks[j]).state == BlockState::Verified by {
        assert(v.piece_ok(i));
        assert(v.pieces[i].status == PieceStatus::Complete);
    }
    assert forall|i: int, j: int|
        0 <= i < v.pieces.len() && 0 <= j < v.pieces[i].blocks.len() implies (
    #[trigger] v.pieces[i].blocks[j]).owner is None by {
        assert(v.piece_ok(i));
        assert(v.pieces[i].blocks[j].state == BlockState::Verified);
    }
    lemma_all_verified(v.pieces);
    lemma_conservation(v.pieces);
    lemma_requested_none(v.pieces);
}

/// The order of handing out: the free blocks are listed by ascending piece index,
/// and within a piece by ascending offset, so that no block is listed twice.
pub proof fn lemma_open_ascends(v: ManagerView, has: Set<usize>, i: int)
    requires
        v.wf(),
        0 <= i <= v.pieces.len(),
    ensures
        forall|a: int, b: int|
            0 <= a < b < v.open_upto(has, i).len() ==> precedes(
                #[trigger] v.open_upto(has, i)[a],
                #[trigger] v.open_upto(has, i)[b],
            ),
    decreases i,
{
    if i > 0 {
        lemma_open_ascends(v, has, i - 1);
        lemma_open_members(v, has, i - 1);
        let before = v.open_upto(has, i - 1);
        let p = v.pieces[i - 1];
        assert(v.piece_ok(i - 1));
        lemma_piece_open_ascends(
            p,
            v.size_of(i - 1),
            v.block_size as int,
            p.blocks.len() as int,
        );
        let here = if has.contains((i - 1) as usize) {
            p.open()
        } else {
            Seq::empty()
        };
        let all = before + here;
        assert forall|a: int, b: int| 0 <= a < b < all.len() implies precedes(
            #[trigger] all[a],
            #[trigger] all[b],
        ) by {
            if b < before.len() {
                assert(precedes(before[a], before[b]));
            } else if a < before.len() {
                assert(before.contains(before[a]));
                assert(all[b] == here[b - before.len()]);
                assert(here[b - before.len()].piece == p.index);
            } else {
                assert(all[a] == here[a - before.len()]);
                assert(all[b] == here[b - before.len()]);
            }
        }
    }
}

/// Reserving free blocks keeps the manager's invariant.
pub proof fn lemma_reserved_wf(v: ManagerView, batch: Seq<BlockRef>, owner: usize)
    requires
        v.wf(),
        forall|r: BlockRef| #[trigger] batch.contains(r) ==> v.is_open(r),
    ensures
        v.reserved(batch, owner).wf(),
{
    let w = v.reserved(batch, owner);
    assert forall|i: int| 0 <= i < w.pieces.len() implies #[trigger] w.piece_ok(i) by {
        assert(v.piece_ok(i));
        let p = v.pieces[i];
        lemma_layout_coherent(p, v.size_of(i), v.block_size as int);
        assert forall|j: int|
            0 <= j < p.blocks.len() && batch.contains((#[trigger] p.blocks[j]).coords()) implies p.blocks[j].state
            == BlockState::NotRequested by {
            let r = p.blocks[j].coords();
            assert(v.is_open(r));
            let m = choose|m: int|
                0 <= r.piece < v.pieces.len() && 0 <= m < v.pieces[r.piece as int].blocks.len()
                    && (#[trigger] v.pieces[r.piece as int].blocks[m]).coords() == r
                    && v.pieces[r.piece as int].blocks[m].state == BlockState::NotRequested;
            assert(r.piece == i);
            if m != j {
                if m < j {
                    assert(p.blocks[m].offset != p.blocks[j].offset);
                } else {
                    assert(p.blocks[j].offset != p.blocks[m].offset);
                }
            }
        }
        lemma_reserved_keeps(p, batch, owner, v.size_of(i), v.block_size as int);
    }
    lemma_same_shape(v.pieces, w.pieces);
}

/// Releasing an owner's blocks keeps the manager's invariant.
pub proof fn lemma_released_wf(v: ManagerView, owner: usize)
    requires
        v.wf(),
    ensures
        v.released(owner).wf(),
{
    let w = v.released(owner);
    assert forall|i: int| 0 <= i < w.pieces.len() implies #[trigger] w.piece_ok(i) by {
        assert(v.piece_ok(i));
        lemma_released_keeps(v.pieces[i], owner, v.size_of(i), v.block_size as int);
    }
    lemma_same_shape(v.pieces, w.pieces);
}

/// Replacing a piece by one that is in order and no more or less complete keeps
/// the manager's invariant.
pub proof fn lemma_replaced_wf(v: ManagerView, i: int, p: PieceView)
    requires
        v.wf(),
        0 <= i < v.pieces.len(),
        p.index == i,
        p.hash.len() == 20,
        p.layout(v.size_of(i), v.block_size as int),
        p.valid(v.size_of(i)),
        p.blocks.len() == v.pieces[i].blocks.len(),
        (p.status == PieceStatus::Complete) == (v.pieces[i].status == PieceStatus::Complete),
    ensures
        (ManagerView { pieces: v.pieces.update(i, p), ..v }).wf(),
{
    let w = ManagerView { pieces: v.pieces.update(i, p), ..v };
    assert forall|k: int| 0 <= k < w.pieces.len() implies #[trigger] w.piece_ok(k) by {
        assert(v.piece_ok(k));
    }
    lemma_replace_piece(v.pieces, i, p);
}

/// What the list of free blocks before piece `i` holds: blocks of earlier pieces
/// that nobody was asked for.
pub proof fn lemma_open_members(v: ManagerView, has: Set<usize>, i: int)
    requires
        v.wf(),
        0 <= i <= v.pieces.len(),
    ensures
        forall|r: BlockRef| #[trigger]
            v.open_upto(has, i).contains(r) ==> r.piece < i && has.contains(r.piece) && v.is_open(
                r,
            ),
        forall|k: int, j: int|
            0 <= k < i && has.contains(k as usize) && 0 <= j < v.pieces[k].blocks.len() && (
            #[trigger] v.pieces[k].blocks[j]).state == BlockState::NotRequested
                ==> v.open_upto(has, i).contains(v.pieces[k].blocks[j].coords()),
    decreases i,
{
    if i > 0 {
        lemma_open_members(v, has, i - 1);
        let before = v.open_upto(has, i - 1);
        let p = v.pieces[i - 1];
        assert(v.piece_ok(i - 1));
        lemma_layout_coherent(p, v.size_of(i - 1), v.block_size as int);
        lemma_open_upto_members(p, p.blocks.len() as int);
        let here = if has.contains((i - 1) as usize) {
            p.open()
        } else {
            Seq::empty()
        };
        assert forall|r: BlockRef| #[trigger] (before + here).contains(r) implies r.piece < i
            && has.contains(r.piece) && v.is_open(r) by {
            lemma_seq_concat_contains_all_elements(before, here, r);
            if !before.contains(r) {
                assert(here.contains(r));
                assert(r.piece == p.index);
                let m = choose|m: int| 0 <= m < here.len() && here[m] == r;
                lemma_open_upto_blocks(p, p.blocks.len() as int, m);
            }
        }
        assert forall|k: int, j: int|
            0 <= k < i && has.contains(k as usize) && 0 <= j < v.pieces[k].blocks.len() && (
            #[trigger] v.pieces[k].blocks[j]).state == BlockState::NotRequested implies (before
            + here).contains(v.pieces[k].blocks[j].coords()) by {
            let r = v.pieces[k].blocks[j].coords();
            lemma_seq_concat_contains_all_elements(before, here, r);
            if k == i - 1 {
                assert(here.contains(p.blocks[j].coords()));
            }
        }
    }
}

/// Pieces with the same statuses and as many blocks count alike.
pub proof fn lemma_same_shape(a: Seq<PieceView>, b: Seq<PieceView>)
    requires
        a.len() == b.len(),
        forall|i: int|
            0 <= i < a.len() ==> (#[trigger] a[i]).status == b[i].status && a[i].blocks.len()
                == b[i].blocks.len(),
    ensures
        complete_in(a) == complete_in(b),
        blocks_in(a) == blocks_in(b),
    decreases a.len(),
{
    if a.len() > 0 {
        assert(a.last() == a[a.len() - 1]);
        assert(b.last() == b[b.len() - 1]);
        assert forall|i: int| 0 <= i < a.drop_last().len() implies (#[trigger] a.drop_last()[i]).status
            == b.drop_last()[i].status && a.drop_last()[i].blocks.len()
            == b.drop_last()[i].blocks.len() by {
            assert(a.drop_last()[i] == a[i]);
        }
        lemma_same_shape(a.drop_last(), b.drop_last());
    }
}

/// Replacing one piece by one with as many blocks changes the number of complete
/// pieces by what that piece adds or takes away.
pub proof fn lemma_replace_piece(a: Seq<PieceView>, i: int, p: PieceView)
    requires
        0 <= i < a.len(),
        p.blocks.len() == a[i].blocks.len(),
    ensures
        blocks_in(a.update(i, p)) == blocks_in(a),
        complete_in(a.update(i, p)) + (if a[i].status == PieceStatus::Complete {
            1nat
        } else {
            0nat
        }) == complete_in(a) + (if p.status == PieceStatus::Complete {
            1nat
        } else {
            0nat
        }),
    decreases a.len(),
{
    let b = a.update(i, p);
    assert(a.last() == a[a.len() - 1]);
    assert(b.last() == b[b.len() - 1]);
    if i == a.len() - 1 {
        assert(b.drop_last() =~= a.drop_last());
    } else {
        assert(b.drop_last() =~= a.drop_last().update(i, p));
        assert(a.drop_last()[i] == a[i]);
        lemma_replace_piece(a.drop_last(), i, p);
    }
}

/// There are at most as many complete pieces as pieces, and exactly as many when
/// every piece is complete.
pub proof fn lemma_complete_count(a: Seq<PieceView>)
    ensures
        complete_in(a) <= a.len(),
        complete_in(a) == a.len() <==> (forall|i: int|
            0 <= i < a.len() ==> (#[trigger] a[i]).status == PieceStatus::Complete),
    decreases a.len(),
{
    if a.len() > 0 {
        lemma_complete_count(a.drop_last());
        assert(a.last() == a[a.len() - 1]);
        assert forall|i: int| 0 <= i < a.drop_last().len() implies a.drop_last()[i] == a[i] by {}
        if complete_in(a) == a.len() {
            assert forall|i: int| 0 <= i < a.len() implies (#[trigger] a[i]).status
                == PieceStatus::Complete by {
                if i < a.len() - 1 {
                    assert(a.drop_last()[i].status == PieceStatus::Complete);
                }
            }
        }
        if forall|i: int| 0 <= i < a.len() ==> (#[trigger] a[i]).status == PieceStatus::Complete {
            assert forall|i: int| 0 <= i < a.drop_last().len() implies (
            #[trigger] a.drop_last()[i]).status == PieceStatus::Complete by {
                assert(a[i].status == PieceStatus::Complete);
            }
        }
    }
}

/// There are no more pieces than blocks, where every piece has a block.
pub proof fn lemma_pieces_counted(pieces: Seq<PieceView>)
    ensures
        (forall|i: int| 0 <= i < pieces.len() ==> (#[trigger] pieces[i]).blocks.len() >= 1)
            ==> pieces.len() <= blocks_in(pieces),
    decreases pieces.len(),
{
    if pieces.len() > 0 {
        lemma_pieces_counted(pieces.drop_last());
        assert(pieces.last() == pieces[pieces.len() - 1]);
        assert forall|i: int| 0 <= i < pieces.drop_last().len() implies pieces.drop_last()[i]
            == pieces[i] by {}
    }
}

/// The first pieces have no more blocks than all of them.
pub proof fn lemma_blocks_in_take(pieces: Seq<PieceView>, i: int)
    requires
        0 <= i <= pieces.len(),
    ensures
        blocks_in(pieces.take(i)) <= blocks_in(pieces),
    decreases pieces.len() - i,
{
    if i < pieces.len() {
        lemma_blocks_in_take(pieces, i + 1);
        assert(pieces.take(i + 1).drop_last() =~= pieces.take(i));
    } else {
        assert(pieces.take(i) =~= pieces);
    }
}

/// Where every block is verified, none is requested.
pub proof fn lemma_requested_none(pieces: Seq<PieceView>)
    requires
        forall|i: int, j: int|
            0 <= i < pieces.len() && 0 <= j < pieces[i].blocks.len() ==> (
            #[trigger] pieces[i].blocks[j]).state == BlockState::Verified,
    ensures
        count_all(pieces, BlockState::Requested) == 0,
    decreases pieces.len(),
{
    if pieces.len() > 0 {
        let rest = pieces.drop_last();
        assert forall|i: int, j: int|
            0 <= i < rest.len() && 0 <= j < rest[i].blocks.len() implies (
        #[trigger] rest[i].blocks[j]).state == BlockState::Verified by {
            assert(rest[i] == pieces[i]);
            assert(pieces[i].blocks[j].state == BlockState::Verified);
        }
        lemma_requested_none(rest);
        let last = pieces.last();
        assert(last == pieces[pieces.len() - 1]);
        assert forall|j: int| 0 <= j < last.blocks.len() implies (#[trigger] last.blocks[j]).state
            != BlockState::Requested by {
            assert(pieces[pieces.len() - 1].blocks[j].state == BlockState::Verified);
        }
        lemma_count_extremes(last.blocks, BlockState::Requested);
    }
}

/// Where every block is verified, the verified blocks are all the blocks.
pub proof fn lemma_all_verified(pieces: Seq<PieceView>)
    requires
        forall|i: int, j: int|
            0 <= i < pieces.len() && 0 <= j < pieces[i].blocks.len() ==> (
            #[trigger] pieces[i].blocks[j]).state == BlockState::Verified,
    ensures
        count_all(pieces, BlockState::Verified) == blocks_in(pieces),
    decreases pieces.len(),
{
    if pieces.len() > 0 {
        let rest = pieces.drop_last();
        assert forall|i: int, j: int|
            0 <= i < rest.len() && 0 <= j < rest[i].blocks.len() implies (
        #[trigger] rest[i].blocks[j]).state == BlockState::Verified by {
            assert(rest[i] == pieces[i]);
            assert(pieces[i].blocks[j].state == BlockState::Verified);
        }
        lemma_all_verified(rest);
        let last = pieces.last();
        assert(last == pieces[pieces.len() - 1]);
        assert forall|j: int| 0 <= j < last.blocks.len() implies (#[trigger] last.blocks[j]).state
            == BlockState::Verified by {
            assert(pieces[pieces.len() - 1].blocks[j].state == BlockState::Verified);
        }
        lemma_count_extremes(last.blocks, BlockState::Verified);
    }
}

} // verus!
