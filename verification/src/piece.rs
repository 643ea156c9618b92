//! Pieces and their blocks: the cells in which the content is asked for and stored.

use crate::piece::laws::{lemma_open_upto_members, lemma_open_upto_prefix};
use vstd::prelude::*;

pub mod laws;

verus! {

/// Where a block stands in its download.
#[derive(Debug, Clone, Copy, PartialEq, Eq, Structural)]
pub enum BlockState {
    /// Nobody was asked for the block.
    NotRequested,
    /// A peer was asked for the block, and it has not arrived.
    Requested,
    /// The block arrived; its piece is not verified.
    Downloaded,
    /// The block belongs to a piece that passed its hash.
    Verified,
}

/// Where a piece stands in its download.
#[derive(Debug, Clone, Copy, PartialEq, Eq, Structural)]
pub enum PieceStatus {
    /// Blocks are missing.
    Incomplete,
    /// All blocks arrived and the digest of the piece is awaited.
    AwaitingVerify,
    /// The piece passed its hash.
    Complete,
    /// The piece missed its hash and nothing of it has arrived since.
    Failed,
}

/// The coordinates of a block: what a request names.
#[derive(Debug, Clone, Copy, PartialEq, Eq, Structural)]
pub struct BlockRef {
    /// Index of the piece.
    pub piece: usize,
    /// Offset of the block in the piece, in bytes.
    pub offset: usize,
    /// Length of the block in bytes.
    pub length: usize,
}

/// A cell of a piece.
#[derive(Debug, Clone, Copy, PartialEq, Eq)]
pub struct Block {
    /// Index of the piece that the block belongs to.
    pub piece: usize,
    /// Offset from the start of the piece, in bytes.
    pub offset: usize,
    /// Length in bytes.
    pub length: usize,
    /// State of the download.
    pub state: BlockState,
    /// Who reserved the block, where the reservation named someone.
    pub owner: Option<usize>,
}

/// A piece of the content.
#[derive(Debug, Clone, PartialEq, Eq)]
pub struct Piece {
    /// Index of the piece, from 0.
    pub index: usize,
    /// The blocks of the piece, by offset.
    pub blocks: Vec<Block>,
    /// The SHA-1 digest that the piece must have.
    pub hash: [u8; 20],
    /// State of the download.
    pub status: PieceStatus,
    /// The bytes that arrived; empty until the first block is stored.
    pub data: Vec<u8>,
    /// Who delivered the blocks that arrived since the piece was last settled.
    pub sources: Vec<usize>,
    /// Who delivered blocks to the piece when it missed its hash.
    pub suspects: Vec<usize>,
}

/// A [`Piece`] with sequences in place of vectors.
pub struct PieceView {
    pub index: usize,
    pub blocks: Seq<Block>,
    pub hash: Seq<u8>,
    pub status: PieceStatus,
    pub data: Seq<u8>,
    pub sources: Seq<usize>,
    pub suspects: Seq<usize>,
}

impl View for Piece {
    type V = PieceView;

    open spec fn view(&self) -> PieceView {
        PieceView {
            index: self.index,
            blocks: self.blocks@,
            hash: self.hash@,
            status: self.status,
            data: self.data@,
            sources: self.sources@,
            suspects: self.suspects@,
        }
    }
}

/// The first `n` items of `s`, or all of them where there are fewer.
pub open spec fn first_n<A>(s: Seq<A>, n: int) -> Seq<A> {
    if n >= s.len() {
        s
    } else if n <= 0 {
        Seq::empty()
    } else {
        s.take(n)
    }
}

/// `size` zero bytes.
pub open spec fn zeros(size: int) -> Seq<u8> {
    Seq::new(size as nat, |i: int| 0u8)
}

/// `base` with the bytes from `offset` on replaced by `bytes`.
pub open spec fn overwrite(base: Seq<u8>, offset: int, bytes: Seq<u8>) -> Seq<u8> {
    Seq::new(
        base.len(),
        |i: int|
            if offset <= i < offset + bytes.len() {
                bytes[i - offset]
            } else {
                base[i]
            },
    )
}

/// The list with `x` at its end, unless it holds `x` already.
pub open spec fn with_one(list: Seq<usize>, x: usize) -> Seq<usize> {
    if list.contains(x) {
        list
    } else {
        list.push(x)
    }
}

/// The list with those of the first `n` of `more` at its end that it does not hold.
pub open spec fn with_each(list: Seq<usize>, more: Seq<usize>, n: int) -> Seq<usize>
    decreases n,
{
    if n <= 0 || n > more.len() {
        list
    } else {
        with_one(with_each(list, more, n - 1), more[n - 1])
    }
}

/// The number of blocks among `blocks` that are in `state`.
pub open spec fn count_in(blocks: Seq<Block>, state: BlockState) -> nat
    decreases blocks.len(),
{
    if blocks.len() == 0 {
        0
    } else {
        count_in(blocks.drop_last(), state) + if blocks.last().state == state {
            1nat
        } else {
            0nat
        }
    }
}

impl Block {
    /// Whether the block is still to come: nobody was asked for it, or a peer was.
    pub open spec fn to_come(self) -> bool {
        self.state == BlockState::NotRequested || self.state == BlockState::Requested
    }

    /// The coordinates of the block.
    pub open spec fn coords(self) -> BlockRef {
        BlockRef { piece: self.piece, offset: self.offset, length: self.length }
    }

    /// The block, requested for `owner`.
    pub open spec fn taken_by(self, owner: usize) -> Block {
        Block { state: BlockState::Requested, owner: Some(owner), ..self }
    }

    /// The block in `state`, reserved for nobody.
    pub open spec fn put(self, state: BlockState) -> Block {
        Block { state, owner: None, ..self }
    }
}

/// The blocks cut piece `index`, of `size` bytes, into cells of `block_size` bytes,
/// the last one possibly shorter but not empty: the offsets increase without a gap
/// and the lengths add up to `size`.
pub open spec fn laid_out(blocks: Seq<Block>, index: usize, size: int, block_size: int) -> bool {
    &&& blocks.len() >= 1
    &&& forall|j: int|
        0 <= j < blocks.len() ==> {
            &&& (#[trigger] blocks[j]).piece == index
            &&& blocks[j].offset == j * block_size
        }
    &&& forall|j: int| 0 <= j < blocks.len() - 1 ==> (#[trigger] blocks[j]).length == block_size
    &&& 0 < blocks.last().length <= block_size
    &&& blocks.last().offset + blocks.last().length == size
}

impl PieceView {
    /// The blocks cut the piece, of `size` bytes, into cells of `block_size` bytes.
    pub open spec fn layout(self, size: int, block_size: int) -> bool {
        laid_out(self.blocks, self.index, size, block_size)
    }

    /// Every block names this piece, and no two blocks start at the same offset.
    pub open spec fn coherent(self) -> bool {
        &&& forall|j: int| 0 <= j < self.blocks.len() ==> (#[trigger] self.blocks[j]).piece == self.index
        &&& forall|j: int, k: int|
            0 <= j < k < self.blocks.len() ==> (#[trigger] self.blocks[j]).offset != (
            #[trigger] self.blocks[k]).offset
    }

    /// The states of the blocks fit the status of the piece: only a requested block
    /// has an owner, the blocks of a complete piece are exactly the verified ones,
    /// and a piece awaits its digest exactly when it has all its blocks.
    pub open spec fn valid(self, size: int) -> bool {
        &&& forall|j: int|
            0 <= j < self.blocks.len() && (#[trigger] self.blocks[j]).owner is Some
                ==> self.blocks[j].state == BlockState::Requested
        &&& forall|j: int|
            0 <= j < self.blocks.len() ==> ((#[trigger] self.blocks[j]).state
                == BlockState::Verified <==> self.status == PieceStatus::Complete)
        &&& self.status == PieceStatus::AwaitingVerify <==> self.all_in(BlockState::Downloaded)
        &&& self.data.len() == 0 || self.data.len() == size
    }

    /// Whether every block is in `state`.
    pub open spec fn all_in(self, state: BlockState) -> bool {
        forall|j: int| 0 <= j < self.blocks.len() ==> (#[trigger] self.blocks[j]).state == state
    }

    /// The coordinates of the blocks before index `j` that nobody was asked for, in
    /// the order of their offsets.
    pub open spec fn open_upto(self, j: int) -> Seq<BlockRef>
        decreases j,
    {
        if j <= 0 {
            Seq::empty()
        } else {
            let before = self.open_upto(j - 1);
            if self.blocks[j - 1].state == BlockState::NotRequested {
                before.push(self.blocks[j - 1].coords())
            } else {
                before
            }
        }
    }

    /// The coordinates of all blocks that nobody was asked for.
    pub open spec fn open(self) -> Seq<BlockRef> {
        self.open_upto(self.blocks.len() as int)
    }

    /// Whether a block starts at `offset`.
    pub open spec fn has_block_at(self, offset: usize) -> bool {
        exists|j: int| 0 <= j < self.blocks.len() && (#[trigger] self.blocks[j]).offset == offset
    }

    /// The index of the block that starts at `offset`, where there is one.
    pub open spec fn index_at(self, offset: usize) -> int {
        choose|j: int| 0 <= j < self.blocks.len() && (#[trigger] self.blocks[j]).offset == offset
    }

    /// The piece with the blocks of `batch` requested for `owner`.
    pub open spec fn reserved(self, batch: Seq<BlockRef>, owner: usize) -> PieceView {
        PieceView {
            blocks: Seq::new(
                self.blocks.len(),
                |j: int|
                    if batch.contains(self.blocks[j].coords()) {
                        self.blocks[j].taken_by(owner)
                    } else {
                        self.blocks[j]
                    },
            ),
            ..self
        }
    }

    /// The piece with the blocks that `owner` reserved free again.
    pub open spec fn released(self, owner: usize) -> PieceView {
        PieceView {
            blocks: Seq::new(
                self.blocks.len(),
                |j: int|
                    if self.blocks[j].owner == Some(owner) {
                        self.blocks[j].put(BlockState::NotRequested)
                    } else {
                        self.blocks[j]
                    },
            ),
            ..self
        }
    }

    /// The piece with the block at `offset` requested, for nobody in particular, if
    /// nobody was asked for it yet.
    pub open spec fn requested_at(self, offset: usize) -> PieceView {
        PieceView {
            blocks: Seq::new(
                self.blocks.len(),
                |j: int|
                    if self.blocks[j].offset == offset && self.blocks[j].state
                        == BlockState::NotRequested {
                        Block { state: BlockState::Requested, ..self.blocks[j] }
                    } else {
                        self.blocks[j]
                    },
            ),
            ..self
        }
    }

    /// The blocks with the one at `offset` downloaded and reserved for nobody.
    pub open spec fn blocks_with(self, offset: usize) -> Seq<Block> {
        Seq::new(
            self.blocks.len(),
            |j: int|
                if self.blocks[j].offset == offset {
                    self.blocks[j].put(BlockState::Downloaded)
                } else {
                    self.blocks[j]
                },
        )
    }

    /// The piece with every block in `state`, reserved for nobody.
    pub open spec fn with_all(self, state: BlockState) -> PieceView {
        PieceView {
            blocks: Seq::new(self.blocks.len(), |j: int| self.blocks[j].put(state)),
            ..self
        }
    }

    /// Whether the buffer has the size of `truth` and holds its bytes where block `j`
    /// lies.
    pub open spec fn block_agrees(self, j: int, truth: Seq<u8>) -> bool {
        &&& self.data.len() == truth.len()
        &&& self.data.subrange(
            self.blocks[j].offset as int,
            self.blocks[j].offset + self.blocks[j].length,
        ) == truth.subrange(
            self.blocks[j].offset as int,
            self.blocks[j].offset + self.blocks[j].length,
        )
    }

    /// Whether the buffer holds the bytes `truth` wherever a block has arrived.
    pub open spec fn agrees(self, truth: Seq<u8>) -> bool {
        forall|j: int|
            0 <= j < self.blocks.len() && (#[trigger] self.blocks[j]).state
                == BlockState::Downloaded ==> self.block_agrees(j, truth)
    }

    /// The number of blocks that are still to come: those that nobody was asked for
    /// and those that a peer was asked for.
    pub open spec fn to_come(self) -> nat {
        count_in(self.blocks, BlockState::NotRequested) + count_in(
            self.blocks,
            BlockState::Requested,
        )
    }

    /// Whether a block starts at `offset` and a peer was asked for it.
    pub open spec fn requested(self, offset: usize) -> bool {
        self.has_block_at(offset) && self.blocks[self.index_at(offset)].state
            == BlockState::Requested
    }

    /// The piece with the block at `offset` downloaded, if a peer was asked for it:
    /// the piece awaits its digest if that was its last block and is incomplete if
    /// not, and whoever had reserved the block counts among its sources. Where no
    /// block starts there, or nobody was asked for it, the piece stays as it is.
    pub open spec fn downloaded_at(self, offset: usize) -> PieceView {
        if !self.requested(offset) {
            self
        } else {
            let blocks = self.blocks_with(offset);
            PieceView {
                blocks,
                status: if (PieceView { blocks, ..self }).all_in(BlockState::Downloaded) {
                    PieceStatus::AwaitingVerify
                } else {
                    PieceStatus::Incomplete
                },
                sources: match self.blocks[self.index_at(offset)].owner {
                    Some(owner) => with_one(self.sources, owner),
                    None => self.sources,
                },
                ..self
            }
        }
    }

    /// The piece after the block at `offset` arrived with `bytes`: the block is
    /// downloaded, and the bytes lie in the buffer of `size` bytes at its offset.
    pub open spec fn stored(self, offset: usize, bytes: Seq<u8>, size: int) -> PieceView {
        let base = if self.data.len() == size {
            self.data
        } else {
            zeros(size)
        };
        PieceView { data: overwrite(base, offset as int, bytes), ..self.downloaded_at(offset) }
    }

    /// The piece after its digest was compared with its target: complete with
    /// verified blocks if they agree; failed, with all blocks free and its sources
    /// among its suspects, otherwise.
    pub open spec fn concluded(self, digest: Seq<u8>) -> PieceView {
        if digest == self.hash {
            PieceView {
                status: PieceStatus::Complete,
                sources: Seq::empty(),
                ..self.with_all(BlockState::Verified)
            }
        } else {
            PieceView {
                status: PieceStatus::Failed,
                sources: Seq::empty(),
                suspects: with_each(self.suspects, self.sources, self.sources.len() as int),
                ..self.with_all(BlockState::NotRequested)
            }
        }
    }
}

impl Piece {
    /// Requests up to `limit` free blocks for `owner`, in the order of their offsets,
    /// and appends their coordinates to `batch`.
    pub fn reserve(&mut self, limit: usize, owner: usize, batch: &mut Vec<BlockRef>)
        requires
            old(self)@.coherent(),
        ensures
            final(self)@ == old(self)@.reserved(first_n(old(self)@.open(), limit as int), owner),
            final(batch)@ == old(batch)@ + first_n(old(self)@.open(), limit as int),
    {
        let n = self.blocks.len();
        let ghost before = self@;
        let ghost start = batch@;
        let mut j: usize = 0;
        let mut taken: usize = 0;
        while j < n && taken < limit
            invariant
                n == before.blocks.len(),
                j <= n,
                taken <= limit,
                self.index == before.index,
                self.hash@ == before.hash,
                self.status == before.status,
                self.data@ == before.data,
                self.sources@ == before.sources,
                self.suspects@ == before.suspects,
                self.blocks@.len() == n,
                batch@ == start + before.open_upto(j as int),
                taken == before.open_upto(j as int).len(),
                forall|m: int|
                    0 <= m < j ==> #[trigger] self.blocks@[m] == (if before.blocks[m].state
                        == BlockState::NotRequested {
                        before.blocks[m].taken_by(owner)
                    } else {
                        before.blocks[m]
                    }),
                forall|m: int| j <= m < n ==> #[trigger] self.blocks@[m] == before.blocks[m],
            decreases n - j,
        {
            if self.blocks[j].state == BlockState::NotRequested {
                let b = self.blocks[j];
                self.blocks[j].state = BlockState::Requested;
                self.blocks[j].owner = Some(owner);
                batch.push(BlockRef { piece: b.piece, offset: b.offset, length: b.length });
                taken += 1;
                assert(batch@ =~= start + before.open_upto(j + 1));
            }
            j += 1;
        }
        proof {
            let got = before.open_upto(j as int);
            lemma_open_upto_prefix(before, j as int, n as int);
            assert(got == first_n(before.open(), limit as int));
            lemma_open_upto_members(before, j as int);
            assert(self@.blocks =~= before.reserved(got, owner).blocks);
        }
    }

    /// Frees the blocks that `owner` reserved.
    pub fn release(&mut self, owner: usize)
        ensures
            final(self)@ == old(self)@.released(owner),
    {
        let n = self.blocks.len();
        let ghost before = self@;
        let mut j: usize = 0;
        while j < n
            invariant
                n == before.blocks.len(),
                j <= n,
                self.index == before.index,
                self.hash@ == before.hash,
                self.status == before.status,
                self.data@ == before.data,
                self.sources@ == before.sources,
                self.suspects@ == before.suspects,
                self.blocks@.len() == n,
                forall|m: int|
                    0 <= m < j ==> #[trigger] self.blocks@[m] == before.released(owner).blocks[m],
                forall|m: int| j <= m < n ==> #[trigger] self.blocks@[m] == before.blocks[m],
            decreases n - j,
        {
            let held = match self.blocks[j].owner {
                Some(o) => o == owner,
                None => false,
            };
            if held {
                self.blocks[j].state = BlockState::NotRequested;
                self.blocks[j].owner = None;
            }
            j += 1;
        }
        assert(self@.blocks =~= before.released(owner).blocks);
    }

    /// Puts every block in `state`, reserved for nobody.
    pub fn set_all(&mut self, state: BlockState)
        ensures
            final(self)@ == old(self)@.with_all(state),
    {
        let n = self.blocks.len();
        let ghost before = self@;
        let mut j: usize = 0;
        while j < n
            invariant
                n == before.blocks.len(),
                j <= n,
                self.index == before.index,
                self.hash@ == before.hash,
                self.status == before.status,
                self.data@ == before.data,
                self.sources@ == before.sources,
                self.suspects@ == before.suspects,
                self.blocks@.len() == n,
                forall|m: int| 0 <= m < j ==> #[trigger] self.blocks@[m] == before.blocks[m].put(state),
                forall|m: int| j <= m < n ==> #[trigger] self.blocks@[m] == before.blocks[m],
            decreases n - j,
        {
            self.blocks[j].state = state;
            self.blocks[j].owner = None;
            j += 1;
        }
        assert(self@.blocks =~= before.with_all(state).blocks);
    }

    /// Whether every block is in `state`.
    pub fn all_in(&self, state: BlockState) -> (b: bool)
        ensures
            b == self@.all_in(state),
    {
        let mut j: usize = 0;
        while j < self.blocks.len()
            invariant
                j <= self.blocks.len(),
                forall|m: int| 0 <= m < j ==> (#[trigger] self.blocks@[m]).state == state,
            decreases self.blocks.len() - j,
        {
            if self.blocks[j].state != state {
                return false;
            }
            j += 1;
        }
        true
    }

    /// The index of the block that starts at `offset`.
    pub fn find(&self, offset: usize) -> (r: Option<usize>)
        ensures
            match r {
                Some(j) => j < self.blocks.len() && self.blocks[j as int].offset == offset,
                None => forall|j: int|
                    0 <= j < self.blocks.len() ==> (#[trigger] self.blocks[j]).offset != offset,
            },
    {
        let mut j: usize = 0;
        while j < self.blocks.len()
            invariant
                j <= self.blocks.len(),
                forall|m: int| 0 <= m < j ==> (#[trigger] self.blocks@[m]).offset != offset,
            decreases self.blocks.len() - j,
        {
            if self.blocks[j].offset == offset {
                return Some(j);
            }
            j += 1;
        }
        None
    }

    /// The number of blocks in `state`.
    pub fn count(&self, state: BlockState) -> (n: usize)
        ensures
            n == count_in(self.blocks@, state),
    {
        let mut n: usize = 0;
        let mut j: usize = 0;
        while j < self.blocks.len()
            invariant
                j <= self.blocks.len(),
                n <= j,
                n == count_in(self.blocks@.take(j as int), state),
            decreases self.blocks.len() - j,
        {
            assert(self.blocks@.take(j + 1).drop_last() =~= self.blocks@.take(j as int));
            if self.blocks[j].state == state {
                n += 1;
            }
            j += 1;
        }
        assert(self.blocks@.take(j as int) =~= self.blocks@);
        n
    }

    /// Appends the coordinates of the blocks that nobody was asked for to `out`.
    pub fn collect_open(&self, out: &mut Vec<BlockRef>)
        ensures
            final(out)@ == old(out)@ + self@.open(),
    {
        let ghost start = out@;
        let mut j: usize = 0;
        while j < self.blocks.len()
            invariant
                j <= self.blocks.len(),
                out@ == start + self@.open_upto(j as int),
            decreases self.blocks.len() - j,
        {
            if self.blocks[j].state == BlockState::NotRequested {
                let b = self.blocks[j];
                out.push(BlockRef { piece: b.piece, offset: b.offset, length: b.length });
            }
            assert(out@ =~= start + self@.open_upto(j + 1));
            j += 1;
        }
    }

    /// Marks the block at `offset` as requested, if nobody was asked for it yet.
    pub fn mark_requested(&mut self, offset: usize)
        requires
            old(self)@.coherent(),
        ensures
            final(self)@ == old(self)@.requested_at(offset),
    {
        let ghost before = self@;
        match self.find(offset) {
            Some(j) => {
                if self.blocks[j].state == BlockState::NotRequested {
                    self.blocks[j].state = BlockState::Requested;
                }
                assert(self@.blocks =~= before.requested_at(offset).blocks);
            },
            None => {
                assert(self@.blocks =~= before.requested_at(offset).blocks);
            },
        }
    }

    /// Whether a block starts at `offset` and a peer was asked for it.
    pub fn requested(&self, offset: usize) -> (b: bool)
        requires
            self@.coherent(),
        ensures
            b == self@.requested(offset),
    {
        match self.find(offset) {
            Some(j) => {
                proof {
                    let c = self@.index_at(offset);
                    if c != j {
                        if c < j {
                            assert(self@.blocks[c].offset != self@.blocks[j as int].offset);
                        } else {
                            assert(self@.blocks[j as int].offset != self@.blocks[c].offset);
                        }
                    }
                }
                self.blocks[j].state == BlockState::Requested
            },
            None => false,
        }
    }

    /// Marks the block at `offset` as downloaded, if a peer was asked for it.
    pub fn mark_downloaded(&mut self, offset: usize)
        requires
            old(self)@.coherent(),
        ensures
            final(self)@ == old(self)@.downloaded_at(offset),
    {
        let ghost before = self@;
        if !self.requested(offset) {
            return ;
        }
        match self.find(offset) {
            Some(j) => {
                proof {
                    let c = before.index_at(offset);
                    if c != j {
                        if c < j {
                            assert(before.blocks[c].offset != before.blocks[j as int].offset);
                        } else {
                            assert(before.blocks[j as int].offset != before.blocks[c].offset);
                        }
                    }
                }
                match self.blocks[j].owner {
                    Some(owner) => Self::note(&mut self.sources, owner),
                    None => {},
                }
                self.blocks[j].state = BlockState::Downloaded;
                self.blocks[j].owner = None;
                assert(self@.blocks =~= before.blocks_with(offset));
                let all = self.all_in(BlockState::Downloaded);
                self.status = if all {
                    PieceStatus::AwaitingVerify
                } else {
                    PieceStatus::Incomplete
                };
            },
            None => {},
        }
    }

    /// Puts `x` at the end of `list`, unless the list holds it already.
    pub fn note(list: &mut Vec<usize>, x: usize)
        ensures
            final(list)@ == with_one(old(list)@, x),
    {
        let mut i: usize = 0;
        while i < list.len()
            invariant
                i <= list@.len(),
                list@ == old(list)@,
                forall|k: int| 0 <= k < i ==> list@[k] != x,
            decreases list@.len() - i,
        {
            if list[i] == x {
                assert(list@.contains(x));
                return ;
            }
            i += 1;
        }
        assert(!list@.contains(x));
        list.push(x);
    }

    /// Writes `bytes` into the buffer of `size` bytes at `offset` and marks the block
    /// that starts there as downloaded.
    pub fn store(&mut self, offset: usize, bytes: &[u8], size: usize)
        requires
            old(self)@.coherent(),
            offset + bytes@.len() <= size,
        ensures
            final(self)@ == old(self)@.stored(offset, bytes@, size as int),
    {
        let ghost before = self@;
        if self.data.len() != size {
            self.data = vec![0u8; size];
            assert(self.data@ =~= zeros(size as int));
        }
        let ghost base = self.data@;
        let mut k: usize = 0;
        while k < bytes.len()
            invariant
                k <= bytes@.len(),
                offset + bytes@.len() <= size,
                base.len() == size,
                self.data@.len() == size,
                self.index == before.index,
                self.hash@ == before.hash,
                self.status == before.status,
                self.sources@ == before.sources,
                self.suspects@ == before.suspects,
                self.blocks@ == before.blocks,
                forall|i: int|
                    0 <= i < size ==> #[trigger] self.data@[i] == (if offset <= i < offset + k {
                        bytes@[i - offset]
                    } else {
                        base[i]
                    }),
            decreases bytes@.len() - k,
        {
            self.data[offset + k] = bytes[k];
            k += 1;
        }
        assert(self.data@ =~= overwrite(base, offset as int, bytes@));
        self.mark_downloaded(offset);
    }

    /// Settles a piece whose digest is `digest`: complete if that is the target,
    /// failed with all blocks free again if not.
    pub fn conclude(&mut self, digest: &[u8; 20]) -> (ok: bool)
        ensures
            ok == (digest@ == old(self)@.hash),
            final(self)@ == old(self)@.concluded(digest@),
    {
        let mut same = true;
        let mut k: usize = 0;
        while k < 20
            invariant
                k <= 20,
                same == (forall|i: int| 0 <= i < k ==> digest@[i] == self.hash@[i]),
            decreases 20 - k,
        {
            if digest[k] != self.hash[k] {
                same = false;
            }
            k += 1;
        }
        assert(same == (digest@ =~= self.hash@));
        if same {
            self.set_all(BlockState::Verified);
            self.status = PieceStatus::Complete;
            self.sources = Vec::new();
        } else {
            self.set_all(BlockState::NotRequested);
            self.status = PieceStatus::Failed;
            let ghost before = self@;
            let mut i: usize = 0;
            while i < self.sources.len()
                invariant
                    i <= self.sources@.len(),
                    self@ == (PieceView { suspects: self.suspects@, ..before }),
                    self.suspects@ == with_each(before.suspects, before.sources, i as int),
                decreases self.sources@.len() - i,
            {
                let x = self.sources[i];
                Self::note(&mut self.suspects, x);
                i += 1;
            }
            self.sources = Vec::new();
        }
        same
    }
}

} // verus!
