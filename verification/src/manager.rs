//! The piece manager: the one place that knows what is still to be downloaded. It
//! hands out blocks to sessions, takes the blocks that arrive, and lets a piece
//! count as complete only when its bytes hash to the digest of the metainfo.

use crate::digest::{sha1, sha1_digest};
use crate::error::{ApplicationError, Fault};
use crate::manager::laws::{
    lemma_blocks_in_take, lemma_complete_count, lemma_conservation, lemma_open_members,
    lemma_released_wf, lemma_replace_piece, lemma_replaced_wf, lemma_reserved_wf,
};
use crate::piece::laws::{
    lemma_concluded_keeps, lemma_first_n_concat, lemma_layout_bounds, lemma_layout_coherent,
    lemma_open_upto_members, lemma_requested_keeps, lemma_reserved_none, lemma_reserved_same,
    lemma_stored_keeps,
};
use crate::piece::{
    Block, BlockRef, BlockState, Piece, PieceStatus, PieceView, count_in, first_n, laid_out,
};
use crate::torrent::{last_piece_length, lemma_total_not_negative, Torrent};
use std::collections::HashSet;
use vstd::prelude::*;
use vstd::seq_lib::{lemma_seq_concat_contains_all_elements, lemma_seq_take_contains};

pub mod laws;

verus! {

broadcast use vstd::std_specs::hash::group_hash_axioms;

/// What a delivered block led to.
#[derive(Debug, Clone, Copy, PartialEq, Eq, Structural)]
pub enum Outcome {
    /// The block is stored and its piece still misses blocks.
    BlockStored,
    /// The block was the last of its piece, and the piece passed its hash.
    PieceComplete,
    /// The block was the last of its piece, and the piece missed its hash: all its
    /// blocks are to be downloaded again.
    PieceFailed,
}

/// How far the download is, in blocks and in pieces.
#[derive(Debug, Clone, Copy, PartialEq, Eq, Structural)]
pub struct Progress {
    /// Blocks that nobody was asked for.
    pub not_requested: usize,
    /// Blocks that a peer was asked for.
    pub requested: usize,
    /// Blocks that arrived and are not verified.
    pub downloaded: usize,
    /// Blocks of pieces that passed their hash.
    pub verified: usize,
    /// Pieces that passed their hash.
    pub pieces_complete: usize,
    /// All pieces.
    pub pieces_total: usize,
}

/// The state of all pieces.
pub struct PieceManager {
    /// The pieces, by index.
    pub pieces: Vec<Piece>,
    /// Length of every piece but the last.
    pub len: usize,
    /// Length of the last piece.
    pub last_len: usize,
    /// Length of every block but the last of a piece.
    pub block_size: usize,
    /// Number of complete pieces.
    pub completed: usize,
}

/// A [`PieceManager`] with sequences in place of vectors.
pub struct ManagerView {
    pub pieces: Seq<PieceView>,
    pub len: usize,
    pub last_len: usize,
    pub block_size: usize,
    pub completed: usize,
}

/// The pieces as views.
pub open spec fn views(pieces: Seq<Piece>) -> Seq<PieceView> {
    Seq::new(pieces.len(), |i: int| pieces[i]@)
}

impl View for PieceManager {
    type V = ManagerView;

    open spec fn view(&self) -> ManagerView {
        ManagerView {
            pieces: views(self.pieces@),
            len: self.len,
            last_len: self.last_len,
            block_size: self.block_size,
            completed: self.completed,
        }
    }
}

/// The number of complete pieces among `pieces`.
pub open spec fn complete_in(pieces: Seq<PieceView>) -> nat
    decreases pieces.len(),
{
    if pieces.len() == 0 {
        0
    } else {
        complete_in(pieces.drop_last()) + if pieces.last().status == PieceStatus::Complete {
            1nat
        } else {
            0nat
        }
    }
}

/// The number of blocks of `pieces`.
pub open spec fn blocks_in(pieces: Seq<PieceView>) -> nat
    decreases pieces.len(),
{
    if pieces.len() == 0 {
        0
    } else {
        blocks_in(pieces.drop_last()) + pieces.last().blocks.len()
    }
}

/// The number of blocks of `pieces` that are in `state`.
pub open spec fn count_all(pieces: Seq<PieceView>, state: BlockState) -> nat
    decreases pieces.len(),
{
    if pieces.len() == 0 {
        0
    } else {
        count_all(pieces.drop_last(), state) + count_in(pieces.last().blocks, state)
    }
}

/// Whether block `a` is handed out before block `b`: it lies in an earlier piece,
/// or in the same piece at a smaller offset.
pub open spec fn precedes(a: BlockRef, b: BlockRef) -> bool {
    a.piece < b.piece || (a.piece == b.piece && a.offset < b.offset)
}

impl ManagerView {
    /// Length of piece `i`: only the last piece may be shorter than the others.
    pub open spec fn size_of(self, i: int) -> int {
        if i == self.pieces.len() - 1 {
            self.last_len as int
        } else {
            self.len as int
        }
    }

    /// Piece `i` stands at its index, is cut into blocks of the block size, and the
    /// states of its blocks fit its status.
    pub open spec fn piece_ok(self, i: int) -> bool {
        &&& self.pieces[i].index == i
        &&& self.pieces[i].hash.len() == 20
        &&& self.pieces[i].layout(self.size_of(i), self.block_size as int)
        &&& self.pieces[i].valid(self.size_of(i))
    }

    /// The invariant of the manager: every piece is in order, the completion counter
    /// counts the complete pieces, and the blocks can be counted.
    pub open spec fn wf(self) -> bool {
        &&& self.block_size > 0
        &&& 0 < self.last_len <= self.len
        &&& forall|i: int| 0 <= i < self.pieces.len() ==> #[trigger] self.piece_ok(i)
        &&& self.completed == complete_in(self.pieces)
        &&& blocks_in(self.pieces) <= usize::MAX
    }

    /// Whether every piece is complete.
    pub open spec fn all_complete(self) -> bool {
        forall|i: int|
            0 <= i < self.pieces.len() ==> (#[trigger] self.pieces[i]).status
                == PieceStatus::Complete
    }

    /// The coordinates of the free blocks of the pieces before index `i` that are in
    /// `has`, by piece and then by offset.
    pub open spec fn open_upto(self, has: Set<usize>, i: int) -> Seq<BlockRef>
        decreases i,
    {
        if i <= 0 {
            Seq::empty()
        } else {
            self.open_upto(has, i - 1) + if has.contains((i - 1) as usize) {
                self.pieces[i - 1].open()
            } else {
                Seq::empty()
            }
        }
    }

    /// The coordinates of the free blocks of the pieces in `has`, by piece and then
    /// by offset.
    pub open spec fn open(self, has: Set<usize>) -> Seq<BlockRef> {
        self.open_upto(has, self.pieces.len() as int)
    }

    /// Whether `r` names a block that nobody was asked for.
    pub open spec fn is_open(self, r: BlockRef) -> bool {
        exists|j: int|
            0 <= r.piece < self.pieces.len() && 0 <= j < self.pieces[r.piece as int].blocks.len()
                && (#[trigger] self.pieces[r.piece as int].blocks[j]).coords() == r
                && self.pieces[r.piece as int].blocks[j].state == BlockState::NotRequested
    }

    /// Whether `owner` holds no reservation.
    pub open spec fn holds_none(self, owner: usize) -> bool {
        forall|i: int, j: int|
            0 <= i < self.pieces.len() && 0 <= j < self.pieces[i].blocks.len() ==> (
            #[trigger] self.pieces[i].blocks[j]).owner != Some(owner)
    }

    /// The state with the blocks of `batch` requested for `owner`.
    pub open spec fn reserved(self, batch: Seq<BlockRef>, owner: usize) -> ManagerView {
        ManagerView {
            pieces: Seq::new(self.pieces.len(), |i: int| self.pieces[i].reserved(batch, owner)),
            ..self
        }
    }

    /// The state with the blocks that `owner` reserved free again.
    pub open spec fn released(self, owner: usize) -> ManagerView {
        ManagerView {
            pieces: Seq::new(self.pieces.len(), |i: int| self.pieces[i].released(owner)),
            ..self
        }
    }

    /// The state with the block of piece `piece` at `offset` requested, if there is
    /// one that nobody was asked for.
    pub open spec fn requested_at(self, piece: usize, offset: usize) -> ManagerView {
        if piece < self.pieces.len() {
            ManagerView {
                pieces: self.pieces.update(
                    piece as int,
                    self.pieces[piece as int].requested_at(offset),
                ),
                ..self
            }
        } else {
            self
        }
    }

    /// Whether piece `piece` has a block at `offset` that a peer was asked for.
    pub open spec fn requested(self, piece: usize, offset: usize) -> bool {
        piece < self.pieces.len() && self.pieces[piece as int].requested(offset)
    }

    /// The state with the block of piece `piece` at `offset` downloaded, if a peer
    /// was asked for it; the same state otherwise.
    pub open spec fn downloaded_at(self, piece: usize, offset: usize) -> ManagerView {
        if piece < self.pieces.len() {
            ManagerView {
                pieces: self.pieces.update(
                    piece as int,
                    self.pieces[piece as int].downloaded_at(offset),
                ),
                ..self
            }
        } else {
            self
        }
    }

    /// Why a block of `length` bytes for piece `piece` at `offset` is refused, if it
    /// is: no block starts there or the length is another, or nobody asked for it.
    pub open spec fn delivery_fault(self, piece: usize, offset: usize, length: int) -> Option<
        Fault,
    > {
        if piece >= self.pieces.len() || !self.pieces[piece as int].has_block_at(offset) {
            Some(Fault::BlockOutOfBounds)
        } else {
            let p = self.pieces[piece as int];
            let b = p.blocks[p.index_at(offset)];
            if b.length != length {
                Some(Fault::BlockOutOfBounds)
            } else if b.state != BlockState::Requested {
                Some(Fault::UnexpectedPiece)
            } else {
                None
            }
        }
    }

    /// The state after the block of piece `piece` at `offset` arrived with `bytes`.
    pub open spec fn stored(self, piece: usize, offset: usize, bytes: Seq<u8>) -> ManagerView {
        ManagerView {
            pieces: self.pieces.update(
                piece as int,
                self.pieces[piece as int].stored(offset, bytes, self.size_of(piece as int)),
            ),
            ..self
        }
    }

    /// The state after piece `piece`, which awaits its digest, was found to have
    /// `digest`. Any other piece is left as it is.
    pub open spec fn concluded(self, piece: usize, digest: Seq<u8>) -> ManagerView {
        if piece < self.pieces.len() && self.pieces[piece as int].status
            == PieceStatus::AwaitingVerify {
            ManagerView {
                pieces: self.pieces.update(
                    piece as int,
                    self.pieces[piece as int].concluded(digest),
                ),
                completed: if digest == self.pieces[piece as int].hash {
                    (self.completed + 1) as usize
                } else {
                    self.completed
                },
                ..self
            }
        } else {
            self
        }
    }

    /// The state after a block that is accepted was delivered: the block is stored,
    /// and its piece, if that was its last block, is settled with the SHA-1 digest
    /// of its bytes.
    pub open spec fn delivered(self, piece: usize, offset: usize, bytes: Seq<u8>) -> ManagerView {
        let stored = self.stored(piece, offset, bytes);
        stored.concluded(piece, sha1_digest(stored.pieces[piece as int].data))
    }

    /// What the delivery of a block that is accepted leads to.
    pub open spec fn outcome(self, piece: usize, offset: usize, bytes: Seq<u8>) -> Outcome {
        let after = self.stored(piece, offset, bytes).pieces[piece as int];
        if after.status != PieceStatus::AwaitingVerify {
            Outcome::BlockStored
        } else if sha1_digest(after.data) == after.hash {
            Outcome::PieceComplete
        } else {
            Outcome::PieceFailed
        }
    }

    /// The number of blocks that are still to come: those that nobody was asked for
    /// and those that a peer was asked for.
    pub open spec fn to_come(self) -> nat {
        count_all(self.pieces, BlockState::NotRequested) + count_all(
            self.pieces,
            BlockState::Requested,
        )
    }

    /// Whether a piece has missed its hash with blocks of `limit` sessions or more.
    pub open spec fn corrupt(self, limit: usize) -> bool {
        exists|i: int|
            0 <= i < self.pieces.len() && (#[trigger] self.pieces[i]).suspects.len() >= limit
    }

    /// Whether every piece index, offset and length fits the 32 bits that the wire
    /// protocol gives them.
    pub open spec fn fits_wire(self) -> bool {
        self.pieces.len() <= 0x1_0000_0000 && self.len <= 0xffff_ffff
    }

    /// Whether no block is reserved for anybody.
    pub open spec fn holds_nothing(self) -> bool {
        forall|i: int, j: int|
            0 <= i < self.pieces.len() && 0 <= j < self.pieces[i].blocks.len() ==> (
            #[trigger] self.pieces[i].blocks[j]).owner is None
    }
}

impl PieceManager {
    /// Cuts a piece of `size` bytes into blocks of `block_size` bytes, none of them
    /// requested.
    fn cut(index: usize, size: usize, block_size: usize) -> (blocks: Vec<Block>)
        requires
            size > 0,
            block_size > 0,
        ensures
            laid_out(blocks@, index, size as int, block_size as int),
            blocks@.len() <= size,
            forall|j: int|
                0 <= j < blocks@.len() ==> (#[trigger] blocks@[j]).state
                    == BlockState::NotRequested && blocks@[j].owner is None,
    {
        let mut blocks: Vec<Block> = Vec::new();
        let mut off: usize = 0;
        assert(0 * block_size == 0) by (nonlinear_arith);
        loop
            invariant_except_break
                off < size,
                block_size > 0,
                off == blocks@.len() * block_size,
                blocks@.len() <= off,
                forall|j: int|
                    0 <= j < blocks@.len() ==> {
                        &&& (#[trigger] blocks@[j]).piece == index
                        &&& blocks@[j].offset == j * block_size
                        &&& blocks@[j].length == block_size
                        &&& blocks@[j].state == BlockState::NotRequested
                        &&& blocks@[j].owner is None
                    },
            ensures
                laid_out(blocks@, index, size as int, block_size as int),
                blocks@.len() <= size,
                forall|j: int|
                    0 <= j < blocks@.len() ==> (#[trigger] blocks@[j]).state
                        == BlockState::NotRequested && blocks@[j].owner is None,
            decreases size - off,
        {
            let rest: usize = size - off;
            let ghost k = blocks@.len() as int;
            assert((k + 1) * block_size == k * block_size + block_size) by (nonlinear_arith);
            if rest <= block_size {
                blocks.push(
                    Block {
                        piece: index,
                        offset: off,
                        length: rest,
                        state: BlockState::NotRequested,
                        owner: None,
                    },
                );
                assert(blocks@.last() == blocks@[k]);
                break ;
            }
            blocks.push(
                Block {
                    piece: index,
                    offset: off,
                    length: block_size,
                    state: BlockState::NotRequested,
                    owner: None,
                },
            );
            off += block_size;
        }
        blocks
    }

    /// The state at the start of a download: every piece of the torrent cut into
    /// blocks of `block_size` bytes, and nothing requested.
    pub fn new(torrent: &Torrent, block_size: usize) -> (m: Self)
        requires
            torrent.wf(),
            block_size > 0,
            torrent.info.total() <= usize::MAX,
            torrent.info.piece_length <= usize::MAX,
        ensures
            m@.wf(),
            m.block_size == block_size,
            m.len == torrent.info.piece_length,
            m.last_len == last_piece_length(
                torrent.info.total(),
                torrent.info.piece_length as int,
                torrent.info.piece_count(),
            ),
            m.completed == 0,
            m@.pieces.len() == torrent.info.piece_count(),
            forall|i: int|
                0 <= i < m@.pieces.len() ==> {
                    &&& (#[trigger] m@.pieces[i]).status == PieceStatus::Incomplete
                    &&& m@.pieces[i].hash == torrent.info.pieces@.subrange(20 * i, 20 * i + 20)
                    &&& m@.pieces[i].data.len() == 0
                    &&& m@.pieces[i].sources.len() == 0
                    &&& m@.pieces[i].suspects.len() == 0
                    &&& m@.pieces[i].all_in(BlockState::NotRequested)
                },
            m@.holds_nothing(),
    {
        let len: usize = torrent.piece_length() as usize;
        let cnt: usize = torrent.pieces_count();
        let last_len: usize = torrent.last_piece_length() as usize;
        let ghost total = torrent.info.total();
        let mut pieces: Vec<Piece> = Vec::new();
        let mut i: usize = 0;
        proof {
            assert(cnt * len == (cnt - 1) * len + len) by (nonlinear_arith);
            assert(cnt == 0 ==> (cnt - 1) * len == -len) by (nonlinear_arith);
            lemma_total_not_negative(torrent.info.lengths());
        }
        while i < cnt
            invariant
                i <= cnt,
                block_size > 0,
                0 < last_len <= len,
                cnt == torrent.info.piece_count(),
                cnt > 0 ==> (cnt - 1) * len + last_len == total,
                total <= usize::MAX,
                pieces@.len() == i,
                complete_in(views(pieces@)) == 0,
                blocks_in(views(pieces@)) <= (if i == cnt {
                    (cnt - 1) * len + last_len
                } else {
                    i * len
                }),
                forall|k: int|
                    0 <= k < i ==> {
                        &&& (#[trigger] pieces@[k])@.index == k
                        &&& pieces@[k]@.hash == torrent.info.pieces@.subrange(20 * k, 20 * k + 20)
                        &&& pieces@[k]@.status == PieceStatus::Incomplete
                        &&& pieces@[k]@.data.len() == 0
                        &&& pieces@[k]@.sources.len() == 0
                        &&& pieces@[k]@.suspects.len() == 0
                        &&& pieces@[k]@.layout(
                            if k == cnt - 1 {
                                last_len as int
                            } else {
                                len as int
                            },
                            block_size as int,
                        )
                        &&& forall|j: int|
                            0 <= j < pieces@[k]@.blocks.len() ==> (
                            #[trigger] pieces@[k]@.blocks[j]).state == BlockState::NotRequested
                                && pieces@[k]@.blocks[j].owner is None
                    },
            decreases cnt - i,
        {
            let size: usize = if i == cnt - 1 {
                last_len
            } else {
                len
            };
            let blocks = Self::cut(i, size, block_size);
            let hash = torrent.piece_hash(i);
            let ghost before = views(pieces@);
            let piece = Piece {
                index: i,
                blocks,
                hash,
                status: PieceStatus::Incomplete,
                data: Vec::new(),
                sources: Vec::new(),
                suspects: Vec::new(),
            };
            pieces.push(piece);
            proof {
                let now = views(pieces@);
                assert(now.drop_last() =~= before);
                assert(now.last() == piece@);
                assert((i + 1) * len == i * len + len) by (nonlinear_arith);
                if i + 1 < cnt {
                } else {
                    assert(i * len == (cnt - 1) * len);
                }
            }
            i += 1;
        }
        let m = PieceManager { pieces, len, last_len, block_size, completed: 0 };
        proof {
            assert forall|k: int| 0 <= k < m@.pieces.len() implies #[trigger] m@.piece_ok(k) by {
                assert(m@.pieces[k] == pieces@[k]@);
            }
            assert forall|k: int| 0 <= k < m@.pieces.len() implies {
                &&& (#[trigger] m@.pieces[k]).status == PieceStatus::Incomplete
                &&& m@.pieces[k].hash == torrent.info.pieces@.subrange(20 * k, 20 * k + 20)
                &&& m@.pieces[k].data.len() == 0
                &&& m@.pieces[k].sources.len() == 0
                &&& m@.pieces[k].suspects.len() == 0
                &&& m@.pieces[k].all_in(BlockState::NotRequested)
            } by {
                assert(m@.pieces[k] == pieces@[k]@);
            }
            assert forall|k: int, j: int|
                0 <= k < m@.pieces.len() && 0 <= j < m@.pieces[k].blocks.len() implies (
            #[trigger] m@.pieces[k].blocks[j]).owner is None by {
                assert(m@.pieces[k] == pieces@[k]@);
            }
        }
        m
    }

    /// Marks the block of piece `pidx` at offset `boff` as requested, for nobody in
    /// particular, if there is such a block and nobody was asked for it yet.
    pub fn mark_block_requested(&mut self, pidx: usize, boff: usize)
        requires
            old(self)@.wf(),
        ensures
            final(self)@.wf(),
            final(self)@ == old(self)@.requested_at(pidx, boff),
    {
        let ghost before = self@;
        if pidx < self.pieces.len() {
            proof {
                assert(before.piece_ok(pidx as int));
                lemma_layout_coherent(
                    before.pieces[pidx as int],
                    before.size_of(pidx as int),
                    before.block_size as int,
                );
                lemma_requested_keeps(
                    before.pieces[pidx as int],
                    boff,
                    before.size_of(pidx as int),
                    before.block_size as int,
                );
                lemma_replaced_wf(
                    before,
                    pidx as int,
                    before.pieces[pidx as int].requested_at(boff),
                );
            }
            self.pieces[pidx].mark_requested(boff);
            assert(self@.pieces =~= before.requested_at(pidx, boff).pieces);
        }
    }

    /// Marks the block of piece `pidx` at offset `boff` as downloaded, if a peer was
    /// asked for it; a block that does not exist, or that nobody was asked for,
    /// changes nothing. A piece whose last block this was is settled at once with the
    /// SHA-1 digest of its buffer: it is complete if that is the target of the
    /// metainfo, and has failed, with all its blocks free again, if not.
    pub fn mark_block_downloaded(&mut self, pidx: usize, boff: usize)
        requires
            old(self)@.wf(),
        ensures
            final(self)@.wf(),
            old(self)@.requested(pidx, boff) ==> final(self)@ == old(self)@.downloaded_at(
                pidx,
                boff,
            ).concluded(
                pidx,
                sha1_digest(old(self)@.downloaded_at(pidx, boff).pieces[pidx as int].data),
            ),
            !old(self)@.requested(pidx, boff) ==> final(self)@ == old(self)@,
    {
        let ghost before = self@;
        if pidx >= self.pieces.len() {
            return ;
        }
        proof {
            assert(before.piece_ok(pidx as int));
            lemma_layout_coherent(
                before.pieces[pidx as int],
                before.size_of(pidx as int),
                before.block_size as int,
            );
        }
        if self.pieces[pidx].requested(boff) {
            proof {
                lemma_stored_keeps(
                    before.pieces[pidx as int],
                    boff,
                    Seq::empty(),
                    before.size_of(pidx as int),
                    before.block_size as int,
                );
                lemma_replaced_wf(
                    before,
                    pidx as int,
                    before.pieces[pidx as int].downloaded_at(boff),
                );
            }
            self.pieces[pidx].mark_downloaded(boff);
            assert(self@.pieces =~= before.downloaded_at(pidx, boff).pieces);
            if self.pieces[pidx].status == PieceStatus::AwaitingVerify {
                let digest = sha1(self.pieces[pidx].data.as_slice());
                self.conclude(pidx, &digest);
            }
        }
    }

    /// Whether piece `pidx` exists and passed its hash.
    pub fn is_piece_complete(&self, pidx: usize) -> (b: bool)
        ensures
            b == (pidx < self@.pieces.len() && self@.pieces[pidx as int].status
                == PieceStatus::Complete),
    {
        if pidx < self.pieces.len() {
            self.pieces[pidx].status == PieceStatus::Complete
        } else {
            false
        }
    }

    /// The status of piece `pidx`, if there is such a piece.
    pub fn piece_status(&self, pidx: usize) -> (r: Option<PieceStatus>)
        ensures
            r == (if pidx < self@.pieces.len() {
                Some(self@.pieces[pidx as int].status)
            } else {
                None
            }),
    {
        if pidx < self.pieces.len() {
            Some(self.pieces[pidx].status)
        } else {
            None
        }
    }

    /// The blocks that nobody was asked for, as piece index and offset, by piece and
    /// then by offset.
    pub fn needed_blocks(&self) -> (r: Vec<(usize, usize)>)
        ensures
            r@.len() == self@.open(Set::full()).len(),
            forall|k: int|
                0 <= k < r@.len() ==> #[trigger] r@[k] == (
                    self@.open(Set::full())[k].piece,
                    self@.open(Set::full())[k].offset,
                ),
    {
        let ghost all = Set::<usize>::full();
        let mut refs: Vec<BlockRef> = Vec::new();
        let mut i: usize = 0;
        while i < self.pieces.len()
            invariant
                i <= self.pieces.len(),
                all == Set::<usize>::full(),
                refs@ == self@.open_upto(all, i as int),
            decreases self.pieces.len() - i,
        {
            self.pieces[i].collect_open(&mut refs);
            i += 1;
        }
        let mut r: Vec<(usize, usize)> = Vec::new();
        let mut k: usize = 0;
        while k < refs.len()
            invariant
                k <= refs.len(),
                r@.len() == k,
                forall|m: int| 0 <= m < k ==> #[trigger] r@[m] == (refs@[m].piece, refs@[m].offset),
            decreases refs.len() - k,
        {
            r.push((refs[k].piece, refs[k].offset));
            k += 1;
        }
        r
    }

    /// Reserves up to `n` free blocks of the pieces in `peer_has` for `owner`: the
    /// first ones by piece index and then by offset. They are requested from then on;
    /// no other block changes.
    pub fn reserve_batch(&mut self, n: usize, peer_has: &HashSet<usize>, owner: usize) -> (batch:
        Vec<BlockRef>)
        requires
            old(self)@.wf(),
        ensures
            final(self)@.wf(),
            batch@ == first_n(old(self)@.open(peer_has@), n as int),
            final(self)@ == old(self)@.reserved(batch@, owner),
    {
        let ghost before = self@;
        let ghost has = peer_has@;
        let count = self.pieces.len();
        let mut batch: Vec<BlockRef> = Vec::new();
        let mut i: usize = 0;
        assert(self@.pieces =~= before.reserved(batch@, owner).pieces) by {
            assert forall|k: int| 0 <= k < count implies before.pieces[k].reserved(batch@, owner)
                == before.pieces[k] by {
                lemma_reserved_none(before.pieces[k], batch@, owner);
            }
        }
        while i < count
            invariant
                i <= count,
                count == before.pieces.len(),
                before.wf(),
                has == peer_has@,
                self.len == before.len,
                self.last_len == before.last_len,
                self.block_size == before.block_size,
                self.completed == before.completed,
                self.pieces@.len() == count,
                batch@ == first_n(before.open_upto(has, i as int), n as int),
                forall|k: int|
                    0 <= k < i ==> (#[trigger] self.pieces@[k])@ == before.pieces[k].reserved(
                        batch@,
                        owner,
                    ),
                forall|k: int| i <= k < count ==> (#[trigger] self.pieces@[k])@ == before.pieces[k],
            decreases count - i,
        {
            let ghost prior = batch@;
            let ghost p = before.pieces[i as int];
            let ghost upto = before.open_upto(has, i as int);
            proof {
                assert(before.piece_ok(i as int));
                lemma_layout_coherent(p, before.size_of(i as int), before.block_size as int);
                lemma_open_members(before, has, i as int);
                lemma_open_upto_members(p, p.blocks.len() as int);
                assert forall|r: BlockRef| prior.contains(r) implies r.piece < i by {
                    if prior != upto {
                        lemma_seq_take_contains(upto, n as int, r);
                    }
                    assert(upto.contains(r));
                }
            }
            if batch.len() < n && peer_has.contains(&i) {
                self.pieces[i].reserve(n - batch.len(), owner, &mut batch);
                proof {
                    let added = first_n(p.open(), n - prior.len());
                    assert(batch@ == prior + added);
                    lemma_first_n_concat(upto, p.open(), n as int);
                    assert forall|r: BlockRef| added.contains(r) implies r.piece == i by {
                        if added != p.open() {
                            lemma_seq_take_contains(p.open(), n - prior.len(), r);
                        }
                        assert(p.open().contains(r));
                    }
                    assert forall|k: int| 0 <= k < i implies (#[trigger] self.pieces@[k])@
                        == before.pieces[k].reserved(batch@, owner) by {
                        let q = before.pieces[k];
                        assert(before.piece_ok(k));
                        assert forall|j: int| 0 <= j < q.blocks.len() implies prior.contains(
                            (#[trigger] q.blocks[j]).coords(),
                        ) == batch@.contains(q.blocks[j].coords()) by {
                            lemma_seq_concat_contains_all_elements(
                                prior,
                                added,
                                q.blocks[j].coords(),
                            );
                        }
                        lemma_reserved_same(q, prior, batch@, owner);
                    }
                    assert forall|j: int| 0 <= j < p.blocks.len() implies added.contains(
                        (#[trigger] p.blocks[j]).coords(),
                    ) == batch@.contains(p.blocks[j].coords()) by {
                        lemma_seq_concat_contains_all_elements(prior, added, p.blocks[j].coords());
                    }
                    lemma_reserved_same(p, added, batch@, owner);
                }
            } else {
                proof {
                    lemma_first_n_concat(upto, p.open(), n as int);
                    assert forall|j: int| 0 <= j < p.blocks.len() implies !prior.contains(
                        (#[trigger] p.blocks[j]).coords(),
                    ) by {}
                    lemma_reserved_none(p, prior, owner);
                }
            }
            i += 1;
        }
        proof {
            lemma_open_members(before, has, count as int);
            assert forall|r: BlockRef| #[trigger] batch@.contains(r) implies before.is_open(r) by {
                if batch@ != before.open(has) {
                    lemma_seq_take_contains(before.open(has), n as int, r);
                }
                assert(before.open(has).contains(r));
            }
            lemma_reserved_wf(before, batch@, owner);
            assert(self@.pieces =~= before.reserved(batch@, owner).pieces);
        }
        batch
    }

    /// Frees every block that `owner` reserved: nobody was asked for it from then on.
    pub fn abandon(&mut self, owner: usize)
        requires
            old(self)@.wf(),
        ensures
            final(self)@.wf(),
            final(self)@ == old(self)@.released(owner),
    {
        let ghost before = self@;
        let count = self.pieces.len();
        let mut i: usize = 0;
        while i < count
            invariant
                i <= count,
                count == before.pieces.len(),
                self.len == before.len,
                self.last_len == before.last_len,
                self.block_size == before.block_size,
                self.completed == before.completed,
                self.pieces@.len() == count,
                forall|k: int|
                    0 <= k < i ==> (#[trigger] self.pieces@[k])@ == before.pieces[k].released(owner),
                forall|k: int| i <= k < count ==> (#[trigger] self.pieces@[k])@ == before.pieces[k],
            decreases count - i,
        {
            self.pieces[i].release(owner);
            i += 1;
        }
        proof {
            lemma_released_wf(before, owner);
            assert(self@.pieces =~= before.released(owner).pieces);
        }
    }

    /// Takes the block of piece `piece_index` at `offset`: its bytes go into the
    /// buffer of the piece and it counts as downloaded. Returns whether the piece
    /// awaits its digest now. A block that does not exist or has another length, and
    /// one that nobody asked for, are refused and change nothing.
    pub fn store(&mut self, piece_index: usize, offset: usize, bytes: &[u8]) -> (r: Result<
        bool,
        ApplicationError,
    >)
        requires
            old(self)@.wf(),
        ensures
            final(self)@.wf(),
            match r {
                Ok(awaiting) => {
                    &&& old(self)@.delivery_fault(piece_index, offset, bytes@.len() as int) is None
                    &&& final(self)@ == old(self)@.stored(piece_index, offset, bytes@)
                    &&& awaiting == (final(self)@.pieces[piece_index as int].status
                        == PieceStatus::AwaitingVerify)
                },
                Err(e) => {
                    &&& final(self)@ == old(self)@
                    &&& old(self)@.delivery_fault(piece_index, offset, bytes@.len() as int)
                        == Some(e.fault())
                    &&& e is ProtocolError
                },
            },
    {
        let ghost before = self@;
        if piece_index >= self.pieces.len() {
            return Err(ApplicationError::ProtocolError(Fault::BlockOutOfBounds));
        }
        let ghost p = before.pieces[piece_index as int];
        let ghost size = before.size_of(piece_index as int);
        proof {
            assert(before.piece_ok(piece_index as int));
            lemma_layout_coherent(p, size, before.block_size as int);
        }
        let j = match self.pieces[piece_index].find(offset) {
            Some(j) => j,
            None => {
                return Err(ApplicationError::ProtocolError(Fault::BlockOutOfBounds));
            },
        };
        proof {
            let c = p.index_at(offset);
            if c != j {
                if c < j {
                    assert(p.blocks[c].offset != p.blocks[j as int].offset);
                } else {
                    assert(p.blocks[j as int].offset != p.blocks[c].offset);
                }
            }
            lemma_layout_bounds(p, size, before.block_size as int, j as int);
        }
        if self.pieces[piece_index].blocks[j].length != bytes.len() {
            return Err(ApplicationError::ProtocolError(Fault::BlockOutOfBounds));
        }
        if self.pieces[piece_index].blocks[j].state != BlockState::Requested {
            return Err(ApplicationError::ProtocolError(Fault::UnexpectedPiece));
        }
        let size_now: usize = if piece_index == self.pieces.len() - 1 {
            self.last_len
        } else {
            self.len
        };
        proof {
            lemma_stored_keeps(p, offset, bytes@, size, before.block_size as int);
            lemma_replaced_wf(before, piece_index as int, p.stored(offset, bytes@, size));
        }
        self.pieces[piece_index].store(offset, bytes, size_now);
        assert(self@.pieces =~= before.stored(piece_index, offset, bytes@).pieces);
        Ok(self.pieces[piece_index].status == PieceStatus::AwaitingVerify)
    }

    /// Settles piece `piece_index` with the digest of its bytes, if it awaits one:
    /// where the digest is the target of the metainfo, the piece is complete and the
    /// completion counter grows by one; where it is not, the piece has failed and all
    /// its blocks are free again. Returns whether the digest was the target, and
    /// `None`, with nothing changed, for a piece that awaits no digest.
    pub fn conclude(&mut self, piece_index: usize, digest: &[u8; 20]) -> (r: Option<bool>)
        requires
            old(self)@.wf(),
        ensures
            final(self)@.wf(),
            final(self)@ == old(self)@.concluded(piece_index, digest@),
            r == (if piece_index < old(self)@.pieces.len() && old(self)@.pieces[piece_index as int].status
                == PieceStatus::AwaitingVerify {
                Some(digest@ == old(self)@.pieces[piece_index as int].hash)
            } else {
                None
            }),
    {
        let ghost before = self@;
        if piece_index >= self.pieces.len() {
            return None;
        }
        if self.pieces[piece_index].status != PieceStatus::AwaitingVerify {
            return None;
        }
        let ghost p = before.pieces[piece_index as int];
        proof {
            assert(before.piece_ok(piece_index as int));
            lemma_concluded_keeps(
                p,
                digest@,
                before.size_of(piece_index as int),
                before.block_size as int,
            );
            lemma_replace_piece(before.pieces, piece_index as int, p.concluded(digest@));
            lemma_complete_count(before.pieces);
            lemma_complete_count(before.pieces.update(piece_index as int, p.concluded(digest@)));
        }
        let ok = self.pieces[piece_index].conclude(digest);
        if ok {
            self.completed = self.completed + 1;
        }
        proof {
            assert(self@.pieces =~= before.concluded(piece_index, digest@).pieces);
            assert forall|k: int| 0 <= k < self@.pieces.len() implies #[trigger] self@.piece_ok(
                k,
            ) by {
                assert(before.piece_ok(k));
            }
        }
        Some(ok)
    }

    /// Takes a block that arrived, and settles its piece if that was the last block:
    /// the piece is complete exactly when the SHA-1 digest of its buffer is the
    /// target of the metainfo, and has failed, with all its blocks free again,
    /// otherwise. A block that is refused changes nothing.
    pub fn deliver(&mut self, piece_index: usize, offset: usize, bytes: &[u8]) -> (r: Result<
        Outcome,
        ApplicationError,
    >)
        requires
            old(self)@.wf(),
        ensures
            final(self)@.wf(),
            match r {
                Ok(outcome) => {
                    &&& old(self)@.delivery_fault(piece_index, offset, bytes@.len() as int) is None
                    &&& final(self)@ == old(self)@.delivered(piece_index, offset, bytes@)
                    &&& outcome == old(self)@.outcome(piece_index, offset, bytes@)
                },
                Err(e) => {
                    &&& final(self)@ == old(self)@
                    &&& old(self)@.delivery_fault(piece_index, offset, bytes@.len() as int)
                        == Some(e.fault())
                    &&& e is ProtocolError
                },
            },
    {
        let awaiting = match self.store(piece_index, offset, bytes) {
            Ok(awaiting) => awaiting,
            Err(e) => {
                return Err(e);
            },
        };
        if !awaiting {
            return Ok(Outcome::BlockStored);
        }
        let digest = sha1(self.pieces[piece_index].data.as_slice());
        match self.conclude(piece_index, &digest) {
            Some(true) => Ok(Outcome::PieceComplete),
            _ => Ok(Outcome::PieceFailed),
        }
    }

    /// The bytes of piece `pidx` that arrived, if there is such a piece.
    pub fn piece_data(&self, pidx: usize) -> (r: Option<&Vec<u8>>)
        ensures
            match r {
                Some(data) => pidx < self@.pieces.len() && data@ == self@.pieces[pidx as int].data,
                None => pidx >= self@.pieces.len(),
            },
    {
        if pidx < self.pieces.len() {
            Some(&self.pieces[pidx].data)
        } else {
            None
        }
    }

    /// Tells whether the swarm is corrupt: a piece has missed its hash with blocks of
    /// `limit` sessions or more.
    pub fn check_swarm(&self, limit: usize) -> (r: Result<(), ApplicationError>)
        ensures
            match r {
                Ok(_) => !self@.corrupt(limit),
                Err(e) => self@.corrupt(limit) && e == ApplicationError::WorkerError(
                    Fault::SwarmCorrupt,
                ),
            },
    {
        let mut i: usize = 0;
        while i < self.pieces.len()
            invariant
                i <= self.pieces@.len(),
                forall|k: int| 0 <= k < i ==> (#[trigger] self@.pieces[k]).suspects.len() < limit,
            decreases self.pieces@.len() - i,
        {
            if self.pieces[i].suspects.len() >= limit {
                assert(self@.pieces[i as int].suspects.len() >= limit);
                return Err(ApplicationError::WorkerError(Fault::SwarmCorrupt));
            }
            i += 1;
        }
        Ok(())
    }

    /// Whether every piece index, offset and length fits the 32 bits that the wire
    /// protocol gives them.
    pub fn fits_wire(&self) -> (b: bool)
        ensures
            b == self@.fits_wire(),
    {
        self.pieces.len() as u128 <= 0x1_0000_0000 && self.len as u128 <= 0xffff_ffff
    }

    /// Whether every piece passed its hash: the completion counter has reached the
    /// number of pieces.
    pub fn is_done(&self) -> (b: bool)
        requires
            self@.wf(),
        ensures
            b == self@.all_complete(),
    {
        proof {
            lemma_complete_count(self@.pieces);
        }
        self.completed == self.pieces.len()
    }

    /// The counts of blocks by state, and of pieces.
    pub fn progress_snapshot(&self) -> (p: Progress)
        requires
            self@.wf(),
        ensures
            p.not_requested == count_all(self@.pieces, BlockState::NotRequested),
            p.requested == count_all(self@.pieces, BlockState::Requested),
            p.downloaded == count_all(self@.pieces, BlockState::Downloaded),
            p.verified == count_all(self@.pieces, BlockState::Verified),
            p.not_requested + p.requested + p.downloaded + p.verified == blocks_in(self@.pieces),
            p.pieces_complete == complete_in(self@.pieces),
            p.pieces_total == self@.pieces.len(),
    {
        let mut p = Progress {
            not_requested: 0,
            requested: 0,
            downloaded: 0,
            verified: 0,
            pieces_complete: self.completed,
            pieces_total: self.pieces.len(),
        };
        let ghost all = self@.pieces;
        let mut i: usize = 0;
        proof {
            lemma_conservation(all);
        }
        while i < self.pieces.len()
            invariant
                i <= self.pieces.len(),
                all == self@.pieces,
                blocks_in(all) <= usize::MAX,
                p.pieces_complete == self.completed,
                p.pieces_total == self.pieces.len(),
                p.not_requested == count_all(all.take(i as int), BlockState::NotRequested),
                p.requested == count_all(all.take(i as int), BlockState::Requested),
                p.downloaded == count_all(all.take(i as int), BlockState::Downloaded),
                p.verified == count_all(all.take(i as int), BlockState::Verified),
            decreases self.pieces.len() - i,
        {
            proof {
                assert(all.take(i + 1).drop_last() =~= all.take(i as int));
                assert(all.take(i + 1).last() == self.pieces@[i as int]@);
                lemma_conservation(all.take(i + 1));
                lemma_blocks_in_take(all, i + 1);
            }
            p.not_requested = p.not_requested + self.pieces[i].count(BlockState::NotRequested);
            p.requested = p.requested + self.pieces[i].count(BlockState::Requested);
            p.downloaded = p.downloaded + self.pieces[i].count(BlockState::Downloaded);
            p.verified = p.verified + self.pieces[i].count(BlockState::Verified);
            i += 1;
        }
        assert(all.take(i as int) =~= all);
        p
    }
}

} // verus!
