//! What holds of the blocks of a piece, whatever their states.

use crate::piece::{Block, BlockRef, BlockState, PieceStatus, PieceView, count_in, first_n};
use vstd::prelude::*;

verus! {

/// The four states share the blocks among them.
pub proof fn lemma_count_partition(blocks: Seq<Block>)
    ensures
        count_in(blocks, BlockState::NotRequested) + count_in(blocks, BlockState::Requested)
            + count_in(blocks, BlockState::Downloaded) + count_in(blocks, BlockState::Verified)
            == blocks.len(),
    decreases blocks.len(),
{
    if blocks.len() > 0 {
        lemma_count_partition(blocks.drop_last());
    }
}

/// Where no block is in `state`, the count is zero; where all are, it is their
/// number.
pub proof fn lemma_count_extremes(blocks: Seq<Block>, state: BlockState)
    ensures
        (forall|j: int| 0 <= j < blocks.len() ==> (#[trigger] blocks[j]).state != state)
            ==> count_in(blocks, state) == 0,
        (forall|j: int| 0 <= j < blocks.len() ==> (#[trigger] blocks[j]).state == state)
            ==> count_in(blocks, state) == blocks.len(),
    decreases blocks.len(),
{
    if blocks.len() > 0 {
        lemma_count_extremes(blocks.drop_last(), state);
        assert(blocks.last() == blocks[blocks.len() - 1]);
        assert forall|j: int| 0 <= j < blocks.drop_last().len() implies blocks.drop_last()[j]
            == blocks[j] by {}
    }
}

/// Changing one block changes the count of a state by what the block takes from it
/// or adds to it.
pub proof fn lemma_count_update(blocks: Seq<Block>, j: int, b: Block, state: BlockState)
    requires
        0 <= j < blocks.len(),
    ensures
        count_in(blocks.update(j, b), state) + (if blocks[j].state == state {
            1nat
        } else {
            0nat
        }) == count_in(blocks, state) + (if b.state == state {
            1nat
        } else {
            0nat
        }),
    decreases blocks.len(),
{
    let after = blocks.update(j, b);
    assert(blocks.last() == blocks[blocks.len() - 1]);
    assert(after.last() == after[after.len() - 1]);
    if j == blocks.len() - 1 {
        assert(after.drop_last() =~= blocks.drop_last());
    } else {
        assert(after.drop_last() =~= blocks.drop_last().update(j, b));
        assert(blocks.drop_last()[j] == blocks[j]);
        lemma_count_update(blocks.drop_last(), j, b, state);
    }
}

/// Where no block is counted in a state, no block is in it.
pub proof fn lemma_count_none(blocks: Seq<Block>, state: BlockState)
    requires
        count_in(blocks, state) == 0,
    ensures
        forall|j: int| 0 <= j < blocks.len() ==> (#[trigger] blocks[j]).state != state,
    decreases blocks.len(),
{
    if blocks.len() > 0 {
        lemma_count_none(blocks.drop_last(), state);
        assert(blocks.last() == blocks[blocks.len() - 1]);
        assert forall|j: int| 0 <= j < blocks.len() implies (#[trigger] blocks[j]).state
            != state by {
            if j < blocks.len() - 1 {
                assert(blocks.drop_last()[j] == blocks[j]);
            }
        }
    }
}

/// In a piece that is laid out in blocks, no two blocks start at the same offset.
pub proof fn lemma_layout_coherent(p: PieceView, size: int, block_size: int)
    requires
        p.layout(size, block_size),
        block_size > 0,
    ensures
        p.coherent(),
{
    assert forall|j: int, k: int| 0 <= j < k < p.blocks.len() implies (#[trigger] p.blocks[j]).offset
        != (#[trigger] p.blocks[k]).offset by {
        assert(j * block_size < k * block_size) by (nonlinear_arith)
            requires
                0 <= j < k,
                block_size > 0,
        ;
    }
}

/// Every block of a piece that is laid out in blocks ends within the piece.
pub proof fn lemma_layout_bounds(p: PieceView, size: int, block_size: int, j: int)
    requires
        p.layout(size, block_size),
        block_size > 0,
        0 <= j < p.blocks.len(),
    ensures
        p.blocks[j].offset + p.blocks[j].length <= size,
        p.blocks[j].length > 0,
        p.blocks.len() <= size,
{
    let last = p.blocks.len() - 1;
    assert(p.blocks.last() == p.blocks[last]);
    assert(last <= last * block_size) by (nonlinear_arith)
        requires
            last >= 0,
            block_size >= 1,
    ;
    if j < last {
        assert((j + 1) * block_size <= last * block_size) by (nonlinear_arith)
            requires
                0 <= j + 1 <= last,
                block_size > 0,
        ;
        assert((j + 1) * block_size == j * block_size + block_size) by (nonlinear_arith);
    }
}

/// The blocks before `j` that nobody was asked for are the first of those before
/// any later index.
pub proof fn lemma_open_upto_prefix(p: PieceView, j: int, k: int)
    requires
        0 <= j <= k,
    ensures
        p.open_upto(j).len() <= p.open_upto(k).len(),
        p.open_upto(k).take(p.open_upto(j).len() as int) == p.open_upto(j),
    decreases k - j,
{
    if j < k {
        lemma_open_upto_prefix(p, j, k - 1);
        assert(p.open_upto(k).take(p.open_upto(j).len() as int) =~= p.open_upto(k - 1).take(
            p.open_upto(j).len() as int,
        ));
    } else {
        assert(p.open_upto(k).take(p.open_upto(j).len() as int) =~= p.open_upto(j));
    }
}

/// The list of free blocks before `j` holds exactly the coordinates of the free
/// blocks before `j`, each of this piece.
pub proof fn lemma_open_upto_members(p: PieceView, j: int)
    requires
        0 <= j <= p.blocks.len(),
        p.coherent(),
    ensures
        forall|m: int|
            0 <= m < p.blocks.len() ==> (p.open_upto(j).contains((#[trigger] p.blocks[m]).coords())
                <==> m < j && p.blocks[m].state == BlockState::NotRequested),
        forall|r: BlockRef| p.open_upto(j).contains(r) ==> r.piece == p.index,
    decreases j,
{
    if j > 0 {
        lemma_open_upto_members(p, j - 1);
        let before = p.open_upto(j - 1);
        let b = p.blocks[j - 1];
        if b.state == BlockState::NotRequested {
            let now = before.push(b.coords());
            assert(now == p.open_upto(j));
            assert forall|r: BlockRef| now.contains(r) <==> before.contains(r) || r
                == b.coords() by {
                if now.contains(r) {
                    let i = choose|i: int| 0 <= i < now.len() && now[i] == r;
                    if i < before.len() {
                        assert(before[i] == r);
                    }
                }
                if before.contains(r) {
                    let i = choose|i: int| 0 <= i < before.len() && before[i] == r;
                    assert(now[i] == r);
                }
                if r == b.coords() {
                    assert(now[before.len() as int] == r);
                }
            }
            assert forall|m: int| 0 <= m < p.blocks.len() implies (now.contains(
                (#[trigger] p.blocks[m]).coords(),
            ) <==> m < j && p.blocks[m].state == BlockState::NotRequested) by {
                if m != j - 1 && p.blocks[m].coords() == b.coords() {
                    if m < j - 1 {
                        assert(p.blocks[m].offset != p.blocks[j - 1].offset);
                    } else {
                        assert(p.blocks[j - 1].offset != p.blocks[m].offset);
                    }
                }
            }
        }
    } else {
        assert(p.open_upto(j) =~= Seq::<BlockRef>::empty());
    }
}

/// Every entry of a piece's list of free blocks is the coordinates of one of its
/// blocks that nobody was asked for.
pub proof fn lemma_open_upto_blocks(p: PieceView, j: int, m: int)
    requires
        0 <= j <= p.blocks.len(),
        0 <= m < p.open_upto(j).len(),
    ensures
        exists|k: int|
            0 <= k < j && (#[trigger] p.blocks[k]).coords() == p.open_upto(j)[m]
                && p.blocks[k].state == BlockState::NotRequested,
    decreases j,
{
    if j > 0 {
        let before = p.open_upto(j - 1);
        if m < before.len() {
            lemma_open_upto_blocks(p, j - 1, m);
            let k = choose|k: int|
                0 <= k < j - 1 && (#[trigger] p.blocks[k]).coords() == before[m]
                    && p.blocks[k].state == BlockState::NotRequested;
            assert(p.blocks[k].coords() == p.open_upto(j)[m]);
        } else {
            assert(p.blocks[j - 1].coords() == p.open_upto(j)[m]);
        }
    }
}

/// The free blocks of a piece are listed by ascending offset.
pub proof fn lemma_piece_open_ascends(p: PieceView, size: int, block_size: int, j: int)
    requires
        p.layout(size, block_size),
        block_size > 0,
        0 <= j <= p.blocks.len(),
    ensures
        forall|m: int|
            0 <= m < p.open_upto(j).len() ==> (#[trigger] p.open_upto(j)[m]).offset < j
                * block_size && p.open_upto(j)[m].piece == p.index,
        forall|a: int, b: int|
            0 <= a < b < p.open_upto(j).len() ==> (#[trigger] p.open_upto(j)[a]).offset < (
            #[trigger] p.open_upto(j)[b]).offset,
    decreases j,
{
    if j > 0 {
        lemma_piece_open_ascends(p, size, block_size, j - 1);
        assert((j - 1) * block_size < j * block_size) by (nonlinear_arith)
            requires
                block_size > 0,
        ;
        let before = p.open_upto(j - 1);
        let now = p.open_upto(j);
        let last = p.blocks[j - 1];
        assert(last.offset == (j - 1) * block_size && last.piece == p.index);
        assert forall|m: int| 0 <= m < now.len() implies (#[trigger] now[m]).offset < j
            * block_size && now[m].piece == p.index by {
            if m < before.len() {
                assert(now[m] == before[m]);
            } else {
                assert(now[m] == last.coords());
            }
        }
        assert forall|a: int, b: int| 0 <= a < b < now.len() implies (#[trigger] now[a]).offset < (
        #[trigger] now[b]).offset by {
            assert(now[a] == before[a]);
            if b < before.len() {
                assert(now[b] == before[b]);
            } else {
                assert(now[b] == last.coords());
            }
        }
    }
}

/// The first `n` of two lists in a row are the first `n` of the first list and, of
/// the second, as many as are then missing.
pub proof fn lemma_first_n_concat<A>(a: Seq<A>, b: Seq<A>, n: int)
    ensures
        first_n(a + b, n) == first_n(a, n) + first_n(b, n - first_n(a, n).len()),
{
    assert(first_n(a + b, n) =~= first_n(a, n) + first_n(b, n - first_n(a, n).len()));
}

/// Two lists that hold the same blocks of a piece reserve the same.
pub proof fn lemma_reserved_same(p: PieceView, a: Seq<BlockRef>, b: Seq<BlockRef>, owner: usize)
    requires
        forall|j: int|
            0 <= j < p.blocks.len() ==> a.contains((#[trigger] p.blocks[j]).coords())
                == b.contains(p.blocks[j].coords()),
    ensures
        p.reserved(a, owner) == p.reserved(b, owner),
{
    assert(p.reserved(a, owner).blocks =~= p.reserved(b, owner).blocks);
}

/// A list that holds no block of a piece reserves nothing of it.
pub proof fn lemma_reserved_none(p: PieceView, a: Seq<BlockRef>, owner: usize)
    requires
        forall|j: int| 0 <= j < p.blocks.len() ==> !a.contains((#[trigger] p.blocks[j]).coords()),
    ensures
        p.reserved(a, owner) == p,
{
    assert(p.reserved(a, owner).blocks =~= p.blocks);
}

/// Reserving free blocks keeps a piece laid out and its states fitting.
pub proof fn lemma_reserved_keeps(
    p: PieceView,
    batch: Seq<BlockRef>,
    owner: usize,
    size: int,
    block_size: int,
)
    requires
        p.layout(size, block_size),
        p.valid(size),
        forall|j: int|
            0 <= j < p.blocks.len() && batch.contains((#[trigger] p.blocks[j]).coords())
                ==> p.blocks[j].state == BlockState::NotRequested,
    ensures
        p.reserved(batch, owner).layout(size, block_size),
        p.reserved(batch, owner).valid(size),
{
    let q = p.reserved(batch, owner);
    assert(q.blocks.last() == q.blocks[q.blocks.len() - 1]);
    assert(p.blocks.last() == p.blocks[p.blocks.len() - 1]);
    assert forall|j: int| 0 <= j < q.blocks.len() implies ((#[trigger] q.blocks[j]).state
        == BlockState::Verified <==> q.status == PieceStatus::Complete) by {
        assert(p.blocks[j].state == BlockState::Verified <==> p.status == PieceStatus::Complete);
    }
    if q.status == PieceStatus::AwaitingVerify {
        assert forall|j: int| 0 <= j < q.blocks.len() implies (#[trigger] q.blocks[j]).state
            == BlockState::Downloaded by {
            assert(p.blocks[j].state == BlockState::Downloaded);
        }
    }
    if q.all_in(BlockState::Downloaded) {
        assert forall|j: int| 0 <= j < p.blocks.len() implies (#[trigger] p.blocks[j]).state
            == BlockState::Downloaded by {
            assert(q.blocks[j].state == BlockState::Downloaded);
        }
    }
}

/// Releasing an owner's blocks keeps a piece laid out and its states fitting.
pub proof fn lemma_released_keeps(p: PieceView, owner: usize, size: int, block_size: int)
    requires
        p.layout(size, block_size),
        p.valid(size),
    ensures
        p.released(owner).layout(size, block_size),
        p.released(owner).valid(size),
{
    let q = p.released(owner);
    assert(q.blocks.last() == q.blocks[q.blocks.len() - 1]);
    assert(p.blocks.last() == p.blocks[p.blocks.len() - 1]);
    assert forall|j: int| 0 <= j < q.blocks.len() implies ((#[trigger] q.blocks[j]).state
        == BlockState::Verified <==> q.status == PieceStatus::Complete) by {
        assert(p.blocks[j].state == BlockState::Verified <==> p.status == PieceStatus::Complete);
        assert(p.blocks[j].owner is Some ==> p.blocks[j].state == BlockState::Requested);
    }
    if q.status == PieceStatus::AwaitingVerify {
        assert forall|j: int| 0 <= j < q.blocks.len() implies (#[trigger] q.blocks[j]).state
            == BlockState::Downloaded by {
            assert(p.blocks[j].state == BlockState::Downloaded);
            assert(p.blocks[j].owner is Some ==> p.blocks[j].state == BlockState::Requested);
        }
    }
    if q.all_in(BlockState::Downloaded) {
        assert forall|j: int| 0 <= j < p.blocks.len() implies (#[trigger] p.blocks[j]).state
            == BlockState::Downloaded by {
            assert(q.blocks[j].state == BlockState::Downloaded);
        }
    }
}

/// Marking a block as requested keeps a piece laid out and its states fitting.
pub proof fn lemma_requested_keeps(p: PieceView, offset: usize, size: int, block_size: int)
    requires
        p.layout(size, block_size),
        p.valid(size),
    ensures
        p.requested_at(offset).layout(size, block_size),
        p.requested_at(offset).valid(size),
{
    let q = p.requested_at(offset);
    assert(q.blocks.last() == q.blocks[q.blocks.len() - 1]);
    assert(p.blocks.last() == p.blocks[p.blocks.len() - 1]);
    assert forall|j: int| 0 <= j < q.blocks.len() implies ((#[trigger] q.blocks[j]).state
        == BlockState::Verified <==> q.status == PieceStatus::Complete) by {
        assert(p.blocks[j].state == BlockState::Verified <==> p.status == PieceStatus::Complete);
    }
    assert forall|j: int| 0 <= j < q.blocks.len() && (#[trigger] q.blocks[j]).owner is Some implies q.blocks[j].state
        == BlockState::Requested by {
        assert(p.blocks[j].owner is Some ==> p.blocks[j].state == BlockState::Requested);
    }
    if q.status == PieceStatus::AwaitingVerify {
        assert forall|j: int| 0 <= j < q.blocks.len() implies (#[trigger] q.blocks[j]).state
            == BlockState::Downloaded by {
            assert(p.blocks[j].state == BlockState::Downloaded);
        }
    }
    if q.all_in(BlockState::Downloaded) {
        assert forall|j: int| 0 <= j < p.blocks.len() implies (#[trigger] p.blocks[j]).state
            == BlockState::Downloaded by {
            assert(q.blocks[j].state == BlockState::Downloaded);
        }
    }
}

/// Storing a block keeps a piece laid out and its states fitting.
pub proof fn lemma_stored_keeps(
    p: PieceView,
    offset: usize,
    bytes: Seq<u8>,
    size: int,
    block_size: int,
)
    requires
        p.layout(size, block_size),
        p.valid(size),
        size >= 0,
    ensures
        p.downloaded_at(offset).layout(size, block_size),
        p.downloaded_at(offset).valid(size),
        p.stored(offset, bytes, size).layout(size, block_size),
        p.stored(offset, bytes, size).valid(size),
        p.stored(offset, bytes, size).data.len() == size,
{
    let q = p.downloaded_at(offset);
    assert(q.blocks.len() == p.blocks.len());
    assert(q.blocks.last() == q.blocks[q.blocks.len() - 1]);
    assert(p.blocks.last() == p.blocks[p.blocks.len() - 1]);
    assert forall|j: int| 0 <= j < q.blocks.len() implies ((#[trigger] q.blocks[j]).state
        == BlockState::Verified <==> q.status == PieceStatus::Complete) by {
        assert(p.blocks[j].state == BlockState::Verified <==> p.status == PieceStatus::Complete);
    }
    assert forall|j: int| 0 <= j < q.blocks.len() && (#[trigger] q.blocks[j]).owner is Some implies q.blocks[j].state
        == BlockState::Requested by {
        assert(p.blocks[j].owner is Some ==> p.blocks[j].state == BlockState::Requested);
    }
    if q.status == PieceStatus::AwaitingVerify {
        if q != p {
            let r = PieceView { blocks: p.blocks_with(offset), ..p };
            assert(r.all_in(BlockState::Downloaded));
            assert forall|j: int| 0 <= j < q.blocks.len() implies (#[trigger] q.blocks[j]).state
                == BlockState::Downloaded by {
                assert(r.blocks[j].state == BlockState::Downloaded);
            }
        }
    }
    let s = p.stored(offset, bytes, size);
    assert(s.blocks == q.blocks);
    assert(s.all_in(BlockState::Downloaded) == q.all_in(BlockState::Downloaded));
}

/// Settling a piece keeps it laid out and its states fitting.
pub proof fn lemma_concluded_keeps(p: PieceView, digest: Seq<u8>, size: int, block_size: int)
    requires
        p.layout(size, block_size),
        p.valid(size),
    ensures
        p.concluded(digest).layout(size, block_size),
        p.concluded(digest).valid(size),
{
    let q = p.concluded(digest);
    assert(q.blocks.len() == p.blocks.len());
    assert(q.blocks.last() == q.blocks[q.blocks.len() - 1]);
    assert(p.blocks.last() == p.blocks[p.blocks.len() - 1]);
}

/// The blocks of a piece lie one after the other: an earlier block ends where a
/// later one starts, or before.
pub proof fn lemma_layout_order(p: PieceView, size: int, block_size: int, m: int, j: int)
    requires
        p.layout(size, block_size),
        block_size > 0,
        0 <= m < j < p.blocks.len(),
    ensures
        p.blocks[m].offset + p.blocks[m].length <= p.blocks[j].offset,
        j == m + 1 ==> p.blocks[m].offset + p.blocks[m].length == p.blocks[j].offset,
{
    assert((m + 1) * block_size <= j * block_size) by (nonlinear_arith)
        requires
            0 <= m + 1 <= j,
            block_size > 0,
    ;
    assert((m + 1) * block_size == m * block_size + block_size) by (nonlinear_arith);
    assert(p.blocks[m].length == block_size);
}

/// Two lists of blocks of which the same ones are still to come count as many to
/// come.
pub proof fn lemma_to_come_same(a: Seq<Block>, b: Seq<Block>)
    requires
        a.len() == b.len(),
        forall|j: int| 0 <= j < a.len() ==> (#[trigger] a[j]).to_come() == b[j].to_come(),
    ensures
        count_in(a, BlockState::NotRequested) + count_in(a, BlockState::Requested) == count_in(
            b,
            BlockState::NotRequested,
        ) + count_in(b, BlockState::Requested),
    decreases a.len(),
{
    if a.len() > 0 {
        assert(a.last() == a[a.len() - 1]);
        assert(b.last() == b[b.len() - 1]);
        assert(a[a.len() - 1].to_come() == b[a.len() - 1].to_come());
        assert forall|j: int| 0 <= j < a.drop_last().len() implies (
        #[trigger] a.drop_last()[j]).to_come() == b.drop_last()[j].to_come() by {
            assert(a[j].to_come() == b[j].to_come());
        }
        lemma_to_come_same(a.drop_last(), b.drop_last());
    }
}

/// A block that arrives with the true bytes leaves the buffer in agreement with
/// them, wherever a block has arrived.
pub proof fn lemma_stored_agrees(
    p: PieceView,
    offset: usize,
    truth: Seq<u8>,
    size: int,
    block_size: int,
)
    requires
        p.layout(size, block_size),
        block_size > 0,
        truth.len() == size,
        p.agrees(truth),
        p.requested(offset),
    ensures
        ({
            let b = p.blocks[p.index_at(offset)];
            p.stored(offset, truth.subrange(offset as int, offset + b.length), size).agrees(truth)
        }),
{
    let j = p.index_at(offset);
    let b = p.blocks[j];
    let bytes = truth.subrange(offset as int, offset + b.length);
    let q = p.stored(offset, bytes, size);
    lemma_layout_coherent(p, size, block_size);
    lemma_layout_bounds(p, size, block_size, j);
    assert(q.data.len() == size);
    assert forall|m: int|
        0 <= m < q.blocks.len() && (#[trigger] q.blocks[m]).state
            == BlockState::Downloaded implies q.block_agrees(m, truth) by {
        lemma_layout_bounds(p, size, block_size, m);
        let from = q.blocks[m].offset as int;
        let to = q.blocks[m].offset + q.blocks[m].length;
        if m == j {
            assert(q.data.subrange(from, to) =~= truth.subrange(from, to));
        } else {
            if m < j {
                lemma_layout_order(p, size, block_size, m, j);
                assert(p.blocks[m].offset != p.blocks[j].offset);
            } else {
                lemma_layout_order(p, size, block_size, j, m);
                assert(p.blocks[j].offset != p.blocks[m].offset);
            }
            assert(q.blocks[m] == p.blocks[m]);
            assert(p.block_agrees(m, truth));
            assert forall|k: int| from <= k < to implies q.data[k] == truth[k] by {
                assert(p.data.subrange(from, to)[k - from] == truth.subrange(from, to)[k - from]);
            }
            assert(q.data.subrange(from, to) =~= truth.subrange(from, to));
        }
    }
}

/// Where every block up to block `j` has arrived and the buffer agrees with the true
/// bytes, the buffer holds them up to the end of block `j`.
pub proof fn lemma_prefix_is_truth(
    p: PieceView,
    truth: Seq<u8>,
    size: int,
    block_size: int,
    j: int,
)
    requires
        p.layout(size, block_size),
        block_size > 0,
        truth.len() == size,
        p.agrees(truth),
        p.all_in(BlockState::Downloaded),
        0 <= j < p.blocks.len(),
    ensures
        p.data.len() == size,
        p.data.subrange(0, p.blocks[j].offset + p.blocks[j].length) == truth.subrange(
            0,
            p.blocks[j].offset + p.blocks[j].length,
        ),
    decreases j,
{
    lemma_layout_bounds(p, size, block_size, j);
    assert(p.blocks[j].state == BlockState::Downloaded);
    assert(p.block_agrees(j, truth));
    let from = p.blocks[j].offset as int;
    let to = p.blocks[j].offset + p.blocks[j].length;
    if j > 0 {
        lemma_prefix_is_truth(p, truth, size, block_size, j - 1);
        lemma_layout_order(p, size, block_size, j - 1, j);
    } else {
        assert(0 * block_size == 0) by (nonlinear_arith);
    }
    assert forall|k: int| 0 <= k < to implies p.data[k] == truth[k] by {
        if k < from {
            assert(p.data.subrange(0, from)[k] == truth.subrange(0, from)[k]);
        } else {
            assert(p.data.subrange(from, to)[k - from] == truth.subrange(from, to)[k - from]);
        }
    }
    assert(p.data.subrange(0, to) =~= truth.subrange(0, to));
}

/// A piece of which every block has arrived with the true bytes holds the true
/// bytes.
pub proof fn lemma_downloaded_is_truth(p: PieceView, truth: Seq<u8>, size: int, block_size: int)
    requires
        p.layout(size, block_size),
        block_size > 0,
        truth.len() == size,
        p.agrees(truth),
        p.all_in(BlockState::Downloaded),
    ensures
        p.data == truth,
{
    let last = p.blocks.len() - 1;
    assert(p.blocks.last() == p.blocks[last]);
    lemma_prefix_is_truth(p, truth, size, block_size, last);
    assert(p.data.subrange(0, size) =~= p.data);
    assert(truth.subrange(0, size) =~= truth);
}

} // verus!
