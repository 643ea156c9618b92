//! Loading a metainfo file: from the bytes of the file to a [`Torrent`].

use crate::bencode::decode::{decode, value_span};
use crate::bencode::grammar::parse;
use crate::bencode::laws::{lemma_first_byte, stands_at};
use crate::bencode::{lemma_list_view, list_view, Bencode, Value};
use crate::error::{ApplicationError, Fault};
use crate::text::utf8_text;
use crate::torrent::{consistent, segments, total_of, Info, Torrent, TorrentFile};
use vstd::prelude::*;
use vstd::slice::{slice_subrange, slice_to_vec};
use vstd::utf8::{decode_utf8, valid_utf8};

verus! {

/// The key `announce`.
pub const KEY_ANNOUNCE: [u8; 8] = [0x61, 0x6e, 0x6e, 0x6f, 0x75, 0x6e, 0x63, 0x65];

/// The key `info`.
pub const KEY_INFO: [u8; 4] = [0x69, 0x6e, 0x66, 0x6f];

/// The key `name`.
pub const KEY_NAME: [u8; 4] = [0x6e, 0x61, 0x6d, 0x65];

/// The key `piece length`.
pub const KEY_PIECE_LENGTH: [u8; 12] = [
    0x70, 0x69, 0x65, 0x63, 0x65, 0x20, 0x6c, 0x65, 0x6e, 0x67, 0x74, 0x68,
];

/// The key `pieces`.
pub const KEY_PIECES: [u8; 6] = [0x70, 0x69, 0x65, 0x63, 0x65, 0x73];

/// The key `length`.
pub const KEY_LENGTH: [u8; 6] = [0x6c, 0x65, 0x6e, 0x67, 0x74, 0x68];

/// The key `files`.
pub const KEY_FILES: [u8; 5] = [0x66, 0x69, 0x6c, 0x65, 0x73];

/// The key `path`.
pub const KEY_PATH: [u8; 4] = [0x70, 0x61, 0x74, 0x68];

/// A file as the metainfo lists it.
pub struct FileView {
    /// Length in bytes.
    pub length: int,
    /// Path segments below the torrent's name.
    pub path: Seq<Seq<char>>,
}

/// What a metainfo says.
pub struct Metainfo {
    /// URL of the tracker.
    pub announce: Seq<char>,
    /// Name of the file, or of the directory of a multi-file torrent.
    pub name: Seq<char>,
    /// Length of every piece but the last.
    pub piece_length: int,
    /// The digests of the pieces, twenty bytes each.
    pub pieces: Seq<u8>,
    /// Length of the single file, if one is given.
    pub length: Option<int>,
    /// The file list, if there is one.
    pub files: Option<Seq<FileView>>,
    /// The encoding of the `info` dictionary.
    pub info_raw: Seq<u8>,
}

/// The text of a byte string that is valid UTF-8.
pub open spec fn text_of(b: Option<Bencode>) -> Option<Seq<char>> {
    match b {
        Some(Bencode::Bytes(x)) => if valid_utf8(x) {
            Some(decode_utf8(x))
        } else {
            None
        },
        _ => None,
    }
}

/// The texts of the first `n` of `items`, if each of them is text.
pub open spec fn path_of(items: Seq<Bencode>, n: int) -> Option<Seq<Seq<char>>>
    decreases n,
{
    if n <= 0 || n > items.len() {
        Some(Seq::empty())
    } else {
        match (path_of(items, n - 1), text_of(Some(items[n - 1]))) {
            (Some(front), Some(t)) => Some(front.push(t)),
            _ => None,
        }
    }
}

/// The file that an entry of the file list describes: a dictionary with an integer
/// `length` and a list of texts as `path`.
pub open spec fn file_of(b: Bencode) -> Option<FileView> {
    match (b.get(KEY_LENGTH@), b.get(KEY_PATH@)) {
        (Some(Bencode::Int(n)), Some(Bencode::List(items))) => match path_of(
            items,
            items.len() as int,
        ) {
            Some(path) => Some(FileView { length: n, path }),
            None => None,
        },
        _ => None,
    }
}

/// The files that the first `n` of `items` describe, if each of them describes one.
pub open spec fn files_of(items: Seq<Bencode>, n: int) -> Option<Seq<FileView>>
    decreases n,
{
    if n <= 0 || n > items.len() {
        Some(Seq::empty())
    } else {
        match (files_of(items, n - 1), file_of(items[n - 1])) {
            (Some(front), Some(f)) => Some(front.push(f)),
            _ => None,
        }
    }
}

/// The lengths of the files of a metainfo; one file, of length 0 where none is
/// given, if there is no file list.
pub open spec fn lengths_of(m: Metainfo) -> Seq<i64> {
    match m.files {
        Some(files) => Seq::new(files.len(), |i: int| files[i].length as i64),
        None => seq![
            match m.length {
                Some(n) => n as i64,
                None => 0i64,
            },
        ],
    }
}

/// Whether the lengths of a metainfo fit: the piece table holds whole digests, the
/// piece length is positive, no file length is negative, and the pieces hold
/// exactly the total.
pub open spec fn lengths_fit(m: Metainfo) -> bool {
    &&& m.pieces.len() % 20 == 0
    &&& m.piece_length > 0
    &&& forall|i: int| 0 <= i < lengths_of(m).len() ==> #[trigger] lengths_of(m)[i] >= 0
    &&& total_of(lengths_of(m)) <= i64::MAX
    &&& consistent(total_of(lengths_of(m)), m.piece_length, m.pieces.len() as int / 20)
}

/// What the document `doc` says as a metainfo, or why it is none: a field is
/// missing where `announce`, `info`, `name`, `piece length` or `pieces` is absent
/// or of another kind, or where `length`, `files` or an entry of the file list is
/// of another kind; the lengths are inconsistent where they do not fit.
pub open spec fn read_metainfo(doc: Bencode) -> Result<Metainfo, Fault> {
    let info = doc.get(KEY_INFO@);
    let announce = text_of(doc.get(KEY_ANNOUNCE@));
    if announce is None || !(info matches Some(Bencode::Dict(_))) {
        Err(Fault::MissingField)
    } else {
        let info = info.unwrap();
        let name = text_of(info.get(KEY_NAME@));
        let piece_length = info.get(KEY_PIECE_LENGTH@);
        let pieces = info.get(KEY_PIECES@);
        let length = info.get(KEY_LENGTH@);
        let files = info.get(KEY_FILES@);
        if name is None || !(piece_length matches Some(Bencode::Int(_))) || !(pieces matches Some(
            Bencode::Bytes(_),
        )) || !(length is None || length matches Some(Bencode::Int(_))) || !(files is None
            || files matches Some(Bencode::List(_))) {
            Err(Fault::MissingField)
        } else if files matches Some(Bencode::List(items)) && files_of(items, items.len() as int)
            is None {
            Err(Fault::MissingField)
        } else {
            let m = Metainfo {
                announce: announce.unwrap(),
                name: name.unwrap(),
                piece_length: piece_length.unwrap()->Int_0,
                pieces: pieces.unwrap()->Bytes_0,
                length: match length {
                    Some(Bencode::Int(n)) => Some(n),
                    _ => None,
                },
                files: match files {
                    Some(Bencode::List(items)) => files_of(items, items.len() as int),
                    _ => None,
                },
                info_raw: info.encoding(),
            };
            if lengths_fit(m) {
                Ok(m)
            } else {
                Err(Fault::InconsistentLength)
            }
        }
    }
}

/// The files of a torrent as the metainfo lists them.
pub open spec fn file_views(files: Seq<TorrentFile>) -> Seq<FileView> {
    Seq::new(
        files.len(),
        |i: int| FileView { length: files[i].length as int, path: segments(files[i].path@) },
    )
}

impl View for Torrent {
    type V = Metainfo;

    open spec fn view(&self) -> Metainfo {
        Metainfo {
            announce: self.announce@,
            name: self.info.name@,
            piece_length: self.info.piece_length as int,
            pieces: self.info.pieces@,
            length: match self.info.length {
                Some(n) => Some(n as int),
                None => None,
            },
            files: match self.info.files {
                Some(files) => Some(file_views(files@)),
                None => None,
            },
            info_raw: self.info_raw_bytes@,
        }
    }
}

/// Reads a field that must be text.
fn read_text(v: Option<&Value>) -> (r: Option<String>)
    ensures
        match r {
            Some(t) => text_of(
                match v {
                    Some(b) => Some(b@),
                    None => None,
                },
            ) == Some(t@),
            None => text_of(
                match v {
                    Some(b) => Some(b@),
                    None => None,
                },
            ) is None,
        },
{
    match v {
        Some(Value::Bytes(b)) => utf8_text(b.as_slice()),
        _ => None,
    }
}

/// Once a path segment is no text, the path is none, however long.
proof fn lemma_path_fails(items: Seq<Bencode>, n: int, m: int)
    requires
        0 <= n <= m <= items.len(),
        path_of(items, n) is None,
    ensures
        path_of(items, m) is None,
    decreases m - n,
{
    if n < m {
        lemma_path_fails(items, n, m - 1);
    }
}

/// Once an entry of the file list describes no file, the list is none, however
/// long.
proof fn lemma_files_fail(items: Seq<Bencode>, n: int, m: int)
    requires
        0 <= n <= m <= items.len(),
        files_of(items, n) is None,
    ensures
        files_of(items, m) is None,
    decreases m - n,
{
    if n < m {
        lemma_files_fail(items, n, m - 1);
    }
}

/// Reads the path segments of a file.
fn read_path(items: &Vec<Value>) -> (r: Option<Vec<String>>)
    ensures
        match r {
            Some(path) => path_of(
                list_view(items@, items@.len() as int),
                items@.len() as int,
            ) == Some(segments(path@)),
            None => path_of(list_view(items@, items@.len() as int), items@.len() as int) is None,
        },
{
    let ghost all = list_view(items@, items@.len() as int);
    proof {
        lemma_list_view(items@, items@.len() as int);
    }
    let mut path: Vec<String> = Vec::new();
    let mut i: usize = 0;
    assert(segments(path@) =~= Seq::<Seq<char>>::empty());
    while i < items.len()
        invariant
            i <= items.len(),
            all == list_view(items@, items@.len() as int),
            all.len() == items@.len(),
            forall|k: int| 0 <= k < all.len() ==> #[trigger] all[k] == items@[k]@,
            path_of(all, i as int) == Some(segments(path@)),
        decreases items.len() - i,
    {
        let ghost before = segments(path@);
        match read_text(Some(&items[i])) {
            Some(t) => {
                path.push(t);
                assert(segments(path@) =~= before.push(t@));
            },
            None => {
                proof {
                    assert(path_of(all, i + 1) is None);
                    lemma_path_fails(all, i + 1, all.len() as int);
                }
                return None;
            },
        }
        i += 1;
    }
    Some(path)
}

/// Reads an entry of the file list.
fn read_file(v: &Value) -> (r: Option<TorrentFile>)
    ensures
        match r {
            Some(f) => file_of(v@) == Some(
                FileView { length: f.length as int, path: segments(f.path@) },
            ),
            None => file_of(v@) is None,
        },
{
    let length: i64 = match v.get(KEY_LENGTH.as_slice()) {
        Some(found) => match found.as_int() {
            Some(n) => n,
            None => {
                return None;
            },
        },
        None => {
            return None;
        },
    };
    let items = match v.get(KEY_PATH.as_slice()) {
        Some(found) => match found.as_list() {
            Some(items) => items,
            None => {
                return None;
            },
        },
        None => {
            return None;
        },
    };
    proof {
        lemma_list_view(items@, items@.len() as int);
    }
    match read_path(items) {
        Some(path) => Some(TorrentFile { length, path }),
        None => None,
    }
}

/// Reads the file list.
fn read_files(items: &Vec<Value>) -> (r: Option<Vec<TorrentFile>>)
    ensures
        match r {
            Some(files) => files_of(
                list_view(items@, items@.len() as int),
                items@.len() as int,
            ) == Some(file_views(files@)),
            None => files_of(list_view(items@, items@.len() as int), items@.len() as int) is None,
        },
{
    let ghost all = list_view(items@, items@.len() as int);
    proof {
        lemma_list_view(items@, items@.len() as int);
    }
    let mut files: Vec<TorrentFile> = Vec::new();
    let mut i: usize = 0;
    assert(file_views(files@) =~= Seq::<FileView>::empty());
    while i < items.len()
        invariant
            i <= items.len(),
            all == list_view(items@, items@.len() as int),
            all.len() == items@.len(),
            forall|k: int| 0 <= k < all.len() ==> #[trigger] all[k] == items@[k]@,
            files_of(all, i as int) == Some(file_views(files@)),
        decreases items.len() - i,
    {
        let ghost before = file_views(files@);
        match read_file(&items[i]) {
            Some(f) => {
                let ghost fv = FileView { length: f.length as int, path: segments(f.path@) };
                files.push(f);
                assert(file_views(files@) =~= before.push(fv));
            },
            None => {
                proof {
                    assert(files_of(all, i + 1) is None);
                    lemma_files_fail(all, i + 1, all.len() as int);
                }
                return None;
            },
        }
        i += 1;
    }
    Some(files)
}

/// With lengths that are not negative, the first of them add up to no more than
/// all of them.
proof fn lemma_total_grows(lengths: Seq<i64>, k: int)
    requires
        0 <= k <= lengths.len(),
        forall|i: int| 0 <= i < lengths.len() ==> #[trigger] lengths[i] >= 0,
    ensures
        total_of(lengths.take(k)) <= total_of(lengths),
    decreases lengths.len() - k,
{
    if k < lengths.len() {
        lemma_total_grows(lengths, k + 1);
        assert(lengths.take(k + 1).drop_last() =~= lengths.take(k));
        assert(lengths.take(k + 1).last() == lengths[k]);
    } else {
        assert(lengths.take(k) =~= lengths);
    }
}

/// The sum of the lengths, if none is negative and the sum fits in 64 bits.
fn sum_lengths(info: &Info) -> (r: Option<i64>)
    ensures
        match r {
            Some(total) => {
                &&& forall|i: int|
                    0 <= i < info.lengths().len() ==> #[trigger] info.lengths()[i] >= 0
                &&& total == info.total()
            },
            None => !(forall|i: int|
                0 <= i < info.lengths().len() ==> #[trigger] info.lengths()[i] >= 0)
                || info.total() > i64::MAX,
        },
{
    let ghost lengths = info.lengths();
    match &info.files {
        Some(files) => {
            let mut sum: i64 = 0;
            let mut i: usize = 0;
            while i < files.len()
                invariant
                    i <= files.len(),
                    info.files == Some(*files),
                    lengths == info.lengths(),
                    lengths.len() == files@.len(),
                    forall|k: int| 0 <= k < i ==> #[trigger] lengths[k] >= 0,
                    0 <= sum == total_of(lengths.take(i as int)),
                decreases files.len() - i,
            {
                let length = files[i].length;
                proof {
                    assert(lengths.take(i + 1).drop_last() =~= lengths.take(i as int));
                    assert(lengths.take(i + 1).last() == length);
                    assert(lengths[i as int] == length);
                }
                if length < 0 {
                    return None;
                }
                if length > i64::MAX - sum {
                    proof {
                        if forall|k: int| 0 <= k < lengths.len() ==> #[trigger] lengths[k] >= 0 {
                            lemma_total_grows(lengths, i + 1);
                        }
                    }
                    return None;
                }
                sum = sum + length;
                i += 1;
            }
            assert(lengths.take(i as int) =~= lengths);
            Some(sum)
        },
        None => {
            let n: i64 = match info.length {
                Some(n) => n,
                None => 0,
            };
            assert(lengths.drop_last() =~= Seq::<i64>::empty());
            assert(total_of(lengths.drop_last()) == 0);
            assert(lengths[0] == n);
            if n < 0 {
                None
            } else {
                Some(n)
            }
        },
    }
}

/// Whether the lengths of `info` fit: what [`Torrent::wf`] asks.
fn lengths_fit_in(info: &Info) -> (r: bool)
    ensures
        r == {
            &&& info.piece_length > 0
            &&& info.pieces@.len() % 20 == 0
            &&& forall|i: int| 0 <= i < info.lengths().len() ==> #[trigger] info.lengths()[i] >= 0
            &&& info.total() <= i64::MAX
            &&& consistent(info.total(), info.piece_length as int, info.piece_count())
        },
{
    if info.piece_length <= 0 || info.pieces.len() % 20 != 0 {
        return false;
    }
    let total: i64 = match sum_lengths(info) {
        Some(total) => total,
        None => {
            return false;
        },
    };
    let count: usize = info.pieces.len() / 20;
    let piece_length: i64 = info.piece_length;
    assert(0 <= count * piece_length <= 0xffff_ffff_ffff_ffff * 0x8000_0000_0000_0000)
        by (nonlinear_arith)
        requires
            0 <= count <= 0xffff_ffff_ffff_ffff,
            0 <= piece_length <= 0x8000_0000_0000_0000,
    ;
    assert(count * piece_length == (count - 1) * piece_length + piece_length)
        by (nonlinear_arith);
    let all: i128 = (count as i128) * (piece_length as i128);
    let before: i128 = all - piece_length as i128;
    before < total as i128 && total as i128 <= all
}

impl Torrent {
    /// Whether the lengths of the metainfo fit, as they do after loading.
    pub fn check(&self) -> (ok: bool)
        ensures
            ok == self.wf(),
    {
        lengths_fit_in(&self.info)
    }

    /// Reads a metainfo file from its bytes.
    ///
    /// The bytes must be canonical bencode, hold the fields of a metainfo, and give
    /// lengths that fit; which of these fails is told by the error. The bytes of the
    /// `info` dictionary are kept exactly as `data` holds them.
    pub fn from_bytes(data: &[u8]) -> (r: Result<Torrent, ApplicationError>)
        ensures
            match parse(data@) {
                None => r matches Err(e) && e == ApplicationError::ParserError(
                    Fault::MalformedBencode,
                ),
                Some(doc) => match read_metainfo(doc) {
                    Ok(m) => r matches Ok(t) && t@ == m,
                    Err(f) => r matches Err(e) && e == ApplicationError::ParserError(f),
                },
            },
            r matches Ok(t) ==> t.wf() && exists|at: int| stands_at(data@, at, t.info_raw_bytes@),
    {
        let missing = ApplicationError::ParserError(Fault::MissingField);
        let doc = match decode(data) {
            Ok(doc) => doc,
            Err(e) => {
                return Err(e);
            },
        };
        let announce = match read_text(doc.get(KEY_ANNOUNCE.as_slice())) {
            Some(text) => text,
            None => {
                return Err(missing);
            },
        };
        let info = match doc.get(KEY_INFO.as_slice()) {
            Some(info) => info,
            None => {
                return Err(missing);
            },
        };
        match info {
            Value::Dict(_) => {},
            _ => {
                return Err(missing);
            },
        }
        let name = match read_text(info.get(KEY_NAME.as_slice())) {
            Some(text) => text,
            None => {
                return Err(missing);
            },
        };
        let piece_length: i64 = match info.get(KEY_PIECE_LENGTH.as_slice()) {
            Some(found) => match found.as_int() {
                Some(n) => n,
                None => {
                    return Err(missing);
                },
            },
            None => {
                return Err(missing);
            },
        };
        let pieces: Vec<u8> = match info.get(KEY_PIECES.as_slice()) {
            Some(found) => match found.as_bytes() {
                Some(b) => slice_to_vec(b.as_slice()),
                None => {
                    return Err(missing);
                },
            },
            None => {
                return Err(missing);
            },
        };
        let length: Option<i64> = match info.get(KEY_LENGTH.as_slice()) {
            Some(found) => match found.as_int() {
                Some(n) => Some(n),
                None => {
                    return Err(missing);
                },
            },
            None => None,
        };
        let files: Option<Vec<TorrentFile>> = match info.get(KEY_FILES.as_slice()) {
            Some(found) => match found.as_list() {
                Some(items) => {
                    proof {
                        lemma_list_view(items@, items@.len() as int);
                    }
                    match read_files(items) {
                        Some(files) => Some(files),
                        None => {
                            return Err(missing);
                        },
                    }
                },
                None => {
                    return Err(missing);
                },
            },
            None => None,
        };
        let info_raw_bytes: Vec<u8> = match value_span(data, KEY_INFO.as_slice()) {
            Some((start, end)) => {
                assert(stands_at(data@, start as int, data@.subrange(start as int, end as int)));
                slice_to_vec(slice_subrange(data, start, end))
            },
            None => {
                return Err(missing);
            },
        };
        let t = Torrent {
            announce,
            info: Info { name, piece_length, pieces, length, files },
            info_raw_bytes,
        };
        proof {
            assert(lengths_of(t@) =~= t.info.lengths());
        }
        if !lengths_fit_in(&t.info) {
            return Err(ApplicationError::ParserError(Fault::InconsistentLength));
        }
        Ok(t)
    }
}

/// The bytes that a metainfo keeps for its info-hash are the encoding of the value
/// under `info`: a dictionary, so that they reach from its opening `d` to the `e`
/// that closes it.
pub proof fn lemma_info_range(doc: Bencode)
    requires
        read_metainfo(doc) is Ok,
    ensures
        doc.get(KEY_INFO@) matches Some(info) && info is Dict && read_metainfo(
            doc,
        ).unwrap().info_raw == info.encoding() && info.encoding().first() == 100
            && info.encoding().last() == 101,
{
    let info = doc.get(KEY_INFO@).unwrap();
    lemma_first_byte(info);
}

} // verus!
