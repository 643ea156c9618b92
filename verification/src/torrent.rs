//! The metainfo of a torrent: where to announce, how the content is cut into
//! pieces, and which files it holds.

use crate::digest::{sha1, sha1_digest};
use vstd::prelude::*;

pub mod load;

verus! {

/// A file of a multi-file torrent, as the metainfo lists it.
#[derive(Debug, Clone, PartialEq, Eq)]
pub struct TorrentFile {
    /// Length in bytes.
    pub length: i64,
    /// Path segments below the torrent's name.
    pub path: Vec<String>,
}

/// A file of the torrent with its path from the download directory.
#[derive(Debug, Clone, PartialEq, Eq)]
pub struct FileEntry {
    /// Length in bytes.
    pub length: i64,
    /// Path segments, the torrent's name first.
    pub path: Vec<String>,
}

/// The `info` dictionary of the metainfo.
#[derive(Debug, Clone, PartialEq, Eq)]
pub struct Info {
    /// Name of the file, or of the directory of a multi-file torrent.
    pub name: String,
    /// Length of every piece but the last, in bytes.
    pub piece_length: i64,
    /// The SHA-1 digests of the pieces, twenty bytes each.
    pub pieces: Vec<u8>,
    /// Length of the single file.
    pub length: Option<i64>,
    /// The files of a multi-file torrent.
    pub files: Option<Vec<TorrentFile>>,
}

/// A parsed metainfo file.
#[derive(Debug, Clone, PartialEq, Eq)]
pub struct Torrent {
    /// URL of the tracker.
    pub announce: String,
    /// The `info` dictionary.
    pub info: Info,
    /// The bytes of the `info` dictionary exactly as the file held them.
    pub info_raw_bytes: Vec<u8>,
}

/// The sum of the lengths.
pub open spec fn total_of(lengths: Seq<i64>) -> int
    decreases lengths.len(),
{
    if lengths.len() == 0 {
        0
    } else {
        total_of(lengths.drop_last()) + lengths.last()
    }
}

/// Lengths that are not negative do not add up to a negative total.
pub proof fn lemma_total_not_negative(lengths: Seq<i64>)
    requires
        forall|i: int| 0 <= i < lengths.len() ==> #[trigger] lengths[i] >= 0,
    ensures
        total_of(lengths) >= 0,
    decreases lengths.len(),
{
    if lengths.len() > 0 {
        lemma_total_not_negative(lengths.drop_last());
    }
}

/// Whether `count` pieces of `piece_length` bytes, the last one possibly shorter but
/// not empty, hold exactly `total` bytes.
pub open spec fn consistent(total: int, piece_length: int, count: int) -> bool {
    (count - 1) * piece_length < total <= count * piece_length
}

/// Length of the last piece: what the pieces before it leave of the total, where
/// nothing left stands for a full piece.
pub open spec fn last_piece_length(total: int, piece_length: int, count: int) -> int {
    let rest = total - (count - 1) * piece_length;
    if rest == 0 {
        piece_length
    } else {
        rest
    }
}

/// The path segments as sequences of characters.
pub open spec fn segments(path: Seq<String>) -> Seq<Seq<char>> {
    Seq::new(path.len(), |k: int| path[k]@)
}

impl Info {
    /// The lengths of the files, in the order of the metainfo. A torrent without a
    /// file list is one file, of length 0 where none is given.
    pub open spec fn lengths(&self) -> Seq<i64> {
        match self.files {
            Some(files) => Seq::new(files@.len(), |i: int| files@[i].length),
            None => seq![
                match self.length {
                    Some(n) => n,
                    None => 0,
                },
            ],
        }
    }

    /// The path segments of file `i`: the torrent's name, then the file's own.
    pub open spec fn path_of(&self, i: int) -> Seq<Seq<char>> {
        match self.files {
            Some(files) => seq![self.name@] + segments(files@[i].path@),
            None => seq![self.name@],
        }
    }

    /// Total size of the content.
    pub open spec fn total(&self) -> int {
        total_of(self.lengths())
    }

    /// Number of pieces.
    pub open spec fn piece_count(&self) -> int {
        self.pieces@.len() as int / 20
    }
}

impl Torrent {
    /// What loading guarantees of a metainfo: a positive piece length, a piece table
    /// of whole digests, file lengths that are not negative, and a total that the
    /// piece table accounts for.
    pub open spec fn wf(&self) -> bool {
        &&& self.info.piece_length > 0
        &&& self.info.pieces@.len() % 20 == 0
        &&& forall|i: int|
            0 <= i < self.info.lengths().len() ==> #[trigger] self.info.lengths()[i] >= 0
        &&& self.info.total() <= i64::MAX
        &&& consistent(
            self.info.total(),
            self.info.piece_length as int,
            self.info.piece_count(),
        )
    }

    /// The info-hash: SHA-1 of the `info` dictionary's bytes as the file held them.
    pub fn info_hash(&self) -> (h: [u8; 20])
        ensures
            h@ == sha1_digest(self.info_raw_bytes@),
    {
        sha1(self.info_raw_bytes.as_slice())
    }

    /// Number of pieces: a twentieth of the piece table's length.
    pub fn pieces_count(&self) -> (n: usize)
        ensures
            n == self.info.piece_count(),
    {
        self.info.pieces.len() / 20
    }

    /// Length of every piece but the last.
    pub fn piece_length(&self) -> (n: i64)
        ensures
            n == self.info.piece_length,
    {
        self.info.piece_length
    }

    /// The digest that piece `i` must have.
    pub fn piece_hash(&self, i: usize) -> (h: [u8; 20])
        requires
            i < self.info.piece_count(),
        ensures
            h@ == self.info.pieces@.subrange(20 * i, 20 * i + 20),
    {
        let mut h: [u8; 20] = [0u8; 20];
        let len = self.info.pieces.len();
        assert(20 * i + 20 <= len);
        let mut k: usize = 0;
        while k < 20
            invariant
                k <= 20,
                20 * i + 20 <= self.info.pieces@.len() <= usize::MAX,
                forall|m: int| 0 <= m < k ==> h@[m] == self.info.pieces@[20 * i + m],
            decreases 20 - k,
        {
            h[k] = self.info.pieces[20 * i + k];
            k += 1;
        }
        assert(h@ =~= self.info.pieces@.subrange(20 * i, 20 * i + 20));
        h
    }

    /// Total size of the content: the sum of the file lengths.
    pub fn total_size(&self) -> (n: i64)
        requires
            i64::MIN <= self.info.total() <= i64::MAX,
        ensures
            n == self.info.total(),
    {
        match &self.info.files {
            Some(files) => {
                let mut sum: i128 = 0;
                let mut i: usize = 0;
                let ghost lengths = self.info.lengths();
                while i < files.len()
                    invariant
                        i <= files.len(),
                        lengths == self.info.lengths(),
                        lengths.len() == files@.len(),
                        self.info.files == Some(*files),
                        sum == total_of(lengths.take(i as int)),
                        i64::MIN * i <= sum <= i64::MAX * i,
                    decreases files.len() - i,
                {
                    assert(lengths.take(i + 1).drop_last() =~= lengths.take(i as int));
                    assert(lengths.take(i + 1).last() == files@[i as int].length);
                    sum = sum + files[i].length as i128;
                    i += 1;
                }
                assert(lengths.take(i as int) =~= lengths);
                sum as i64
            },
            None => {
                let n: i64 = match self.info.length {
                    Some(n) => n,
                    None => 0,
                };
                assert(self.info.lengths().drop_last() =~= Seq::<i64>::empty());
                assert(total_of(Seq::<i64>::empty()) == 0);
                n
            },
        }
    }

    /// Length of the last piece.
    pub fn last_piece_length(&self) -> (n: i64)
        requires
            self.wf(),
        ensures
            n == last_piece_length(
                self.info.total(),
                self.info.piece_length as int,
                self.info.piece_count(),
            ),
            0 < n <= self.info.piece_length,
    {
        proof {
            lemma_total_not_negative(self.info.lengths());
        }
        let total = self.total_size();
        let count = self.pieces_count();
        let piece_length = self.info.piece_length;
        let ghost c = self.info.piece_count();
        let ghost pl = self.info.piece_length as int;
        let ghost t = self.info.total();
        assert(c * pl == (c - 1) * pl + pl) by (nonlinear_arith);
        if count == 0 {
            assert((c - 1) * pl == -pl) by (nonlinear_arith)
                requires
                    c == 0,
            ;
            piece_length
        } else {
            assert(0 <= (c - 1) * pl) by (nonlinear_arith)
                requires
                    c >= 1,
                    pl > 0,
            ;
            let before: i128 = (count as i128 - 1) * (piece_length as i128);
            assert(before == (c - 1) * pl);
            (total as i128 - before) as i64
        }
    }

    /// The files of the torrent, a single file listed like the others.
    pub fn files(&self) -> (r: Vec<FileEntry>)
        ensures
            r@.len() == self.info.lengths().len(),
            forall|i: int|
                0 <= i < r@.len() ==> {
                    &&& (#[trigger] r@[i]).length == self.info.lengths()[i]
                    &&& segments(r@[i].path@) == self.info.path_of(i)
                },
    {
        let mut r: Vec<FileEntry> = Vec::new();
        match &self.info.files {
            Some(files) => {
                let mut i: usize = 0;
                while i < files.len()
                    invariant
                        i <= files.len(),
                        self.info.files == Some(*files),
                        r@.len() == i,
                        forall|k: int|
                            0 <= k < i ==> {
                                &&& (#[trigger] r@[k]).length == self.info.lengths()[k]
                                &&& segments(r@[k].path@) == self.info.path_of(k)
                            },
                    decreases files.len() - i,
                {
                    let mut path: Vec<String> = Vec::new();
                    path.push(self.info.name.clone());
                    let mut j: usize = 0;
                    while j < files[i].path.len()
                        invariant
                            i < files.len(),
                            j <= files[i as int].path.len(),
                            path@.len() == 1 + j,
                            path@[0]@ == self.info.name@,
                            forall|k: int| 0 <= k < j ==> path@[1 + k]@ == files[i as int].path@[k]@,
                        decreases files[i as int].path.len() - j,
                    {
                        path.push(files[i].path[j].clone());
                        j += 1;
                    }
                    assert(segments(path@) =~= self.info.path_of(i as int));
                    r.push(FileEntry { length: files[i].length, path });
                    i += 1;
                }
            },
            None => {
                let length: i64 = match self.info.length {
                    Some(n) => n,
                    None => 0,
                };
                let mut path: Vec<String> = Vec::new();
                path.push(self.info.name.clone());
                assert(segments(path@) =~= self.info.path_of(0));
                r.push(FileEntry { length, path });
            },
        }
        r
    }
}

} // verus!
