use leech::bencode::{encode, Value};
use leech::error::{ApplicationError, Fault};
use leech::torrent::{FileEntry, Info, Torrent, TorrentFile};
use sha1::{Digest, Sha1};

fn bytes(s: &str) -> Value {
    Value::Bytes(s.as_bytes().to_vec())
}

fn entry(k: &str, v: Value) -> (Vec<u8>, Value) {
    (k.as_bytes().to_vec(), v)
}

fn table(count: usize) -> Vec<u8> {
    (0..count * 20).map(|i| (i % 251) as u8).collect()
}

fn single_info(length: i64, piece_length: i64, pieces: Vec<u8>) -> Value {
    Value::Dict(vec![
        entry("length", Value::Int(length)),
        entry("name", bytes("file.bin")),
        entry("piece length", Value::Int(piece_length)),
        entry("pieces", Value::Bytes(pieces)),
    ])
}

fn metainfo(info: Value) -> Vec<u8> {
    encode(&Value::Dict(vec![
        entry("announce", bytes("http://tracker.example.com/announce")),
        entry("info", info),
    ]))
}

fn file(length: i64, path: &[&str]) -> Value {
    Value::Dict(vec![
        entry("length", Value::Int(length)),
        entry("path", Value::List(path.iter().map(|s| bytes(s)).collect())),
    ])
}

fn multi_info(files: Vec<Value>, piece_length: i64, pieces: Vec<u8>) -> Value {
    Value::Dict(vec![
        entry("files", Value::List(files)),
        entry("name", bytes("album")),
        entry("piece length", Value::Int(piece_length)),
        entry("pieces", Value::Bytes(pieces)),
    ])
}

fn fault(data: &[u8]) -> Fault {
    match Torrent::from_bytes(data) {
        Err(ApplicationError::ParserError(f)) => f,
        other => panic!("expected a parser error, got {:?}", other),
    }
}

fn words(path: &[&str]) -> Vec<String> {
    path.iter().map(|s| s.to_string()).collect()
}

#[test]
fn single_file_metainfo_is_loaded() {
    let data = metainfo(single_info(40000, 32768, table(2)));
    let t = Torrent::from_bytes(&data).unwrap();
    assert_eq!(t.announce, "http://tracker.example.com/announce");
    assert_eq!(t.info.name, "file.bin");
    assert_eq!(t.info.piece_length, 32768);
    assert_eq!(t.info.pieces, table(2));
    assert_eq!(t.info.length, Some(40000));
    assert_eq!(t.info.files, None);
    assert!(t.check());
    assert_eq!(t.piece_length(), 32768);
    assert_eq!(t.pieces_count(), 2);
    assert_eq!(t.total_size(), 40000);
    assert_eq!(t.last_piece_length(), 7232);
    assert_eq!(t.files(), vec![FileEntry { length: 40000, path: words(&["file.bin"]) }]);
}

#[test]
fn piece_hashes_are_the_twenty_byte_groups() {
    let data = metainfo(single_info(40000, 32768, table(2)));
    let t = Torrent::from_bytes(&data).unwrap();
    let all = table(2);
    assert_eq!(t.piece_hash(0).to_vec(), all[0..20].to_vec());
    assert_eq!(t.piece_hash(1).to_vec(), all[20..40].to_vec());
}

#[test]
fn info_hash_is_sha1_of_the_info_bytes_of_the_file() {
    let data = metainfo(single_info(40000, 32768, table(2)));
    let t = Torrent::from_bytes(&data).unwrap();
    let key = b"4:info";
    let at = data.windows(key.len()).position(|w| w == key).unwrap() + key.len();
    let raw = &data[at..data.len() - 1];
    assert_eq!(raw[0], b'd');
    assert_eq!(raw[raw.len() - 1], b'e');
    assert_eq!(t.info_raw_bytes, raw.to_vec());
    let expected: [u8; 20] = Sha1::digest(raw).into();
    assert_eq!(t.info_hash(), expected);
    assert_ne!(t.info_hash().to_vec(), raw[..20].to_vec());
}

#[test]
fn info_hash_of_known_bytes() {
    let t = Torrent {
        announce: String::from("http://t/"),
        info: Info {
            name: String::from("n"),
            piece_length: 1,
            pieces: vec![],
            length: Some(0),
            files: None,
        },
        info_raw_bytes: b"abc".to_vec(),
    };
    assert_eq!(
        t.info_hash(),
        [
            0xa9, 0x99, 0x3e, 0x36, 0x47, 0x06, 0x81, 0x6a, 0xba, 0x3e, 0x25, 0x71, 0x78, 0x50,
            0xc2, 0x6c, 0x9c, 0xd0, 0xd8, 0x9d
        ]
    );
}

#[test]
fn multi_file_metainfo_is_loaded() {
    let files = vec![file(30000, &["dir", "a.txt"]), file(0, &["empty"]), file(10000, &["b.bin"])];
    let data = metainfo(multi_info(files, 16384, table(3)));
    let t = Torrent::from_bytes(&data).unwrap();
    assert_eq!(t.info.name, "album");
    assert_eq!(t.info.length, None);
    assert_eq!(
        t.info.files,
        Some(vec![
            TorrentFile { length: 30000, path: words(&["dir", "a.txt"]) },
            TorrentFile { length: 0, path: words(&["empty"]) },
            TorrentFile { length: 10000, path: words(&["b.bin"]) },
        ])
    );
    assert_eq!(t.total_size(), 40000);
    assert_eq!(t.pieces_count(), 3);
    assert_eq!(t.last_piece_length(), 40000 - 2 * 16384);
    assert_eq!(
        t.files(),
        vec![
            FileEntry { length: 30000, path: words(&["album", "dir", "a.txt"]) },
            FileEntry { length: 0, path: words(&["album", "empty"]) },
            FileEntry { length: 10000, path: words(&["album", "b.bin"]) },
        ]
    );
}

#[test]
fn a_total_that_fills_its_pieces_has_a_full_last_piece() {
    let data = metainfo(single_info(65536, 32768, table(2)));
    let t = Torrent::from_bytes(&data).unwrap();
    assert_eq!(t.last_piece_length(), 32768);
    let empty = metainfo(single_info(0, 32768, vec![]));
    let t0 = Torrent::from_bytes(&empty).unwrap();
    assert_eq!(t0.pieces_count(), 0);
    assert_eq!(t0.total_size(), 0);
    assert_eq!(t0.last_piece_length(), 32768);
}

#[test]
fn a_metainfo_without_length_or_files_is_one_empty_file() {
    let info = Value::Dict(vec![
        entry("name", bytes("nothing")),
        entry("piece length", Value::Int(16384)),
        entry("pieces", Value::Bytes(vec![])),
    ]);
    let t = Torrent::from_bytes(&metainfo(info)).unwrap();
    assert_eq!(t.files(), vec![FileEntry { length: 0, path: words(&["nothing"]) }]);
    assert_eq!(t.total_size(), 0);
}

#[test]
fn bytes_that_are_no_bencode_are_malformed() {
    assert_eq!(fault(b""), Fault::MalformedBencode);
    assert_eq!(fault(b"not a torrent"), Fault::MalformedBencode);
    let mut data = metainfo(single_info(40000, 32768, table(2)));
    data.pop();
    assert_eq!(fault(&data), Fault::MalformedBencode);
    let mut more = metainfo(single_info(40000, 32768, table(2)));
    more.push(b'e');
    assert_eq!(fault(&more), Fault::MalformedBencode);
}

#[test]
fn missing_fields_are_told() {
    assert_eq!(fault(b"i1e"), Fault::MissingField);
    assert_eq!(fault(b"de"), Fault::MissingField);
    let info = single_info(40000, 32768, table(2));
    assert_eq!(fault(&encode(&Value::Dict(vec![entry("info", info)]))), Fault::MissingField);
    assert_eq!(
        fault(&encode(&Value::Dict(vec![entry("announce", bytes("http://t/"))]))),
        Fault::MissingField
    );
    assert_eq!(fault(&metainfo(bytes("no dictionary"))), Fault::MissingField);
    let no_name = Value::Dict(vec![
        entry("length", Value::Int(1)),
        entry("piece length", Value::Int(1)),
        entry("pieces", Value::Bytes(table(1))),
    ]);
    assert_eq!(fault(&metainfo(no_name)), Fault::MissingField);
    let no_piece_length = Value::Dict(vec![
        entry("length", Value::Int(1)),
        entry("name", bytes("x")),
        entry("pieces", Value::Bytes(table(1))),
    ]);
    assert_eq!(fault(&metainfo(no_piece_length)), Fault::MissingField);
    let no_pieces = Value::Dict(vec![
        entry("length", Value::Int(1)),
        entry("name", bytes("x")),
        entry("piece length", Value::Int(1)),
    ]);
    assert_eq!(fault(&metainfo(no_pieces)), Fault::MissingField);
}

#[test]
fn fields_of_another_kind_count_as_missing() {
    let text_length = Value::Dict(vec![
        entry("length", bytes("1")),
        entry("name", bytes("x")),
        entry("piece length", Value::Int(1)),
        entry("pieces", Value::Bytes(table(1))),
    ]);
    assert_eq!(fault(&metainfo(text_length)), Fault::MissingField);
    let int_name = Value::Dict(vec![
        entry("length", Value::Int(1)),
        entry("name", Value::Int(5)),
        entry("piece length", Value::Int(1)),
        entry("pieces", Value::Bytes(table(1))),
    ]);
    assert_eq!(fault(&metainfo(int_name)), Fault::MissingField);
    let files_dict = Value::Dict(vec![
        entry("files", Value::Dict(vec![])),
        entry("name", bytes("x")),
        entry("piece length", Value::Int(1)),
        entry("pieces", Value::Bytes(table(1))),
    ]);
    assert_eq!(fault(&metainfo(files_dict)), Fault::MissingField);
    let bad_entry = multi_info(vec![file(1, &["a"]), Value::Int(3)], 1, table(1));
    assert_eq!(fault(&metainfo(bad_entry)), Fault::MissingField);
    let bad_path = multi_info(
        vec![Value::Dict(vec![
            entry("length", Value::Int(1)),
            entry("path", Value::List(vec![Value::Int(1)])),
        ])],
        1,
        table(1),
    );
    assert_eq!(fault(&metainfo(bad_path)), Fault::MissingField);
    let announce = encode(&Value::Dict(vec![
        entry("announce", Value::Int(1)),
        entry("info", single_info(1, 1, table(1))),
    ]));
    assert_eq!(fault(&announce), Fault::MissingField);
}

#[test]
fn text_that_is_no_utf8_counts_as_missing() {
    let data = encode(&Value::Dict(vec![
        entry("announce", Value::Bytes(vec![b'h', 0xff, 0xfe])),
        entry("info", single_info(1, 1, table(1))),
    ]));
    assert_eq!(fault(&data), Fault::MissingField);
    let ok = encode(&Value::Dict(vec![
        entry("announce", Value::Bytes("http://t\u{e9}/".as_bytes().to_vec())),
        entry("info", single_info(1, 1, table(1))),
    ]));
    assert_eq!(Torrent::from_bytes(&ok).unwrap().announce, "http://t\u{e9}/");
}

#[test]
fn lengths_that_do_not_fit_are_told() {
    let mut odd = table(2);
    odd.pop();
    assert_eq!(fault(&metainfo(single_info(40000, 32768, odd))), Fault::InconsistentLength);
    assert_eq!(fault(&metainfo(single_info(40000, 0, table(2)))), Fault::InconsistentLength);
    assert_eq!(fault(&metainfo(single_info(40000, -1, table(2)))), Fault::InconsistentLength);
    assert_eq!(fault(&metainfo(single_info(-5, 32768, vec![]))), Fault::InconsistentLength);
    assert_eq!(fault(&metainfo(single_info(40000, 32768, table(3)))), Fault::InconsistentLength);
    assert_eq!(fault(&metainfo(single_info(40000, 32768, table(1)))), Fault::InconsistentLength);
    assert_eq!(fault(&metainfo(single_info(0, 32768, table(1)))), Fault::InconsistentLength);
    assert_eq!(fault(&metainfo(single_info(32769, 32768, table(1)))), Fault::InconsistentLength);
    let files = vec![file(i64::MAX, &["a"]), file(1, &["b"])];
    assert_eq!(fault(&metainfo(multi_info(files, 16384, table(1)))), Fault::InconsistentLength);
    let negative = vec![file(10, &["a"]), file(-10, &["b"])];
    assert_eq!(fault(&metainfo(multi_info(negative, 16384, vec![]))), Fault::InconsistentLength);
}

#[test]
fn check_tells_whether_the_lengths_fit() {
    let mut t = Torrent::from_bytes(&metainfo(single_info(40000, 32768, table(2)))).unwrap();
    assert!(t.check());
    t.info.length = Some(100000);
    assert!(!t.check());
    t.info.length = Some(40000);
    t.info.piece_length = 0;
    assert!(!t.check());
}
