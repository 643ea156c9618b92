//! The bencode format: integers, byte strings, lists and dictionaries.

use crate::decimal::{digits_of, write_decimal};
use vstd::prelude::*;

pub mod decode;
pub mod grammar;
pub mod laws;

verus! {

/// A bencoded value.
#[derive(Debug, PartialEq, Eq)]
pub enum Value {
    /// An integer.
    Int(i64),
    /// A byte string.
    Bytes(Vec<u8>),
    /// A list of values.
    List(Vec<Value>),
    /// A dictionary: keys with their values, in the order of the encoding.
    Dict(Vec<(Vec<u8>, Value)>),
}

/// What a [`Value`] holds, with sequences in place of vectors.
pub enum Bencode {
    Int(int),
    Bytes(Seq<u8>),
    List(Seq<Bencode>),
    Dict(Seq<(Seq<u8>, Bencode)>),
}

/// The views of the first `n` of `items`.
pub open spec fn list_view(items: Seq<Value>, n: int) -> Seq<Bencode>
    decreases items, n,
{
    if n <= 0 || n > items.len() {
        Seq::empty()
    } else {
        list_view(items, n - 1).push(items[n - 1].view())
    }
}

/// The views of the first `n` of `entries`.
pub open spec fn dict_view(entries: Seq<(Vec<u8>, Value)>, n: int) -> Seq<(Seq<u8>, Bencode)>
    decreases entries, n,
{
    if n <= 0 || n > entries.len() {
        Seq::empty()
    } else {
        dict_view(entries, n - 1).push((entries[n - 1].0@, entries[n - 1].1.view()))
    }
}

impl View for Value {
    type V = Bencode;

    open spec fn view(&self) -> Bencode
        decreases self,
    {
        match self {
            Value::Int(n) => Bencode::Int(*n as int),
            Value::Bytes(b) => Bencode::Bytes(b@),
            Value::List(items) => Bencode::List(list_view(items@, items@.len() as int)),
            Value::Dict(entries) => Bencode::Dict(dict_view(entries@, entries@.len() as int)),
        }
    }
}

/// The text of an integer: its digits, after a minus sign if it is negative.
pub open spec fn int_text(n: int) -> Seq<u8> {
    if n < 0 {
        seq![45u8] + digits_of((-n) as nat)
    } else {
        digits_of(n as nat)
    }
}

/// The encoding of a byte string: its length, a colon, the bytes.
pub open spec fn bytes_encoding(b: Seq<u8>) -> Seq<u8> {
    digits_of(b.len()) + seq![58u8] + b
}

/// The encodings of `items` from index `k` on, one after the other.
pub open spec fn list_encoding(items: Seq<Bencode>, k: int) -> Seq<u8>
    decreases items, items.len() - k,
{
    if k < 0 || k >= items.len() {
        Seq::empty()
    } else {
        items[k].encoding() + list_encoding(items, k + 1)
    }
}

/// The encodings of `entries` from index `k` on: each key as a byte string, then
/// its value.
pub open spec fn dict_encoding(entries: Seq<(Seq<u8>, Bencode)>, k: int) -> Seq<u8>
    decreases entries, entries.len() - k,
{
    if k < 0 || k >= entries.len() {
        Seq::empty()
    } else {
        bytes_encoding(entries[k].0) + entries[k].1.encoding() + dict_encoding(entries, k + 1)
    }
}

impl Bencode {
    /// The bytes that encode the value.
    pub open spec fn encoding(self) -> Seq<u8>
        decreases self,
    {
        match self {
            Bencode::Int(n) => seq![105u8] + int_text(n) + seq![101u8],
            Bencode::Bytes(b) => bytes_encoding(b),
            Bencode::List(items) => seq![108u8] + list_encoding(items, 0) + seq![101u8],
            Bencode::Dict(entries) => seq![100u8] + dict_encoding(entries, 0) + seq![101u8],
        }
    }
}

/// The views of the first `n` items are as many, each the view of its item.
pub proof fn lemma_list_view(items: Seq<Value>, n: int)
    requires
        0 <= n <= items.len(),
    ensures
        list_view(items, n).len() == n,
        forall|i: int| 0 <= i < n ==> #[trigger] list_view(items, n)[i] == items[i]@,
    decreases n,
{
    if n > 0 {
        lemma_list_view(items, n - 1);
        assert(list_view(items, n) == list_view(items, n - 1).push(items[n - 1].view()));
    }
}

/// The views of the first `n` entries are as many, each the view of its entry.
pub proof fn lemma_dict_view(entries: Seq<(Vec<u8>, Value)>, n: int)
    requires
        0 <= n <= entries.len(),
    ensures
        dict_view(entries, n).len() == n,
        forall|i: int|
            0 <= i < n ==> #[trigger] dict_view(entries, n)[i] == (entries[i].0@, entries[i].1@),
    decreases n,
{
    if n > 0 {
        lemma_dict_view(entries, n - 1);
        assert(dict_view(entries, n) == dict_view(entries, n - 1).push(
            (entries[n - 1].0@, entries[n - 1].1.view()),
        ));
    }
}

/// Appends the encoding of the byte string `b` to `out`.
pub fn encode_bytes(b: &Vec<u8>, out: &mut Vec<u8>)
    ensures
        final(out)@ == old(out)@ + bytes_encoding(b@),
{
    write_decimal(b.len() as u64, out);
    out.push(58);
    out.extend_from_slice(b.as_slice());
    assert(out@ =~= old(out)@ + bytes_encoding(b@));
}

/// Appends the encoding of `v` to `out`.
pub fn encode_into(v: &Value, out: &mut Vec<u8>)
    ensures
        final(out)@ == old(out)@ + v@.encoding(),
    decreases v,
{
    let ghost start = out@;
    match v {
        Value::Int(n) => {
            out.push(105);
            if *n < 0 {
                out.push(45);
                let magnitude: u64 = (-(*n as i128)) as u64;
                write_decimal(magnitude, out);
            } else {
                write_decimal(*n as u64, out);
            }
            out.push(101);
            assert(out@ =~= start + v@.encoding());
        },
        Value::Bytes(b) => {
            encode_bytes(b, out);
        },
        Value::List(items) => {
            out.push(108);
            let ghost all = list_view(items@, items@.len() as int);
            proof {
                lemma_list_view(items@, items@.len() as int);
            }
            let mut i: usize = 0;
            while i < items.len()
                invariant
                    i <= items.len(),
                    all == list_view(items@, items@.len() as int),
                    all.len() == items@.len(),
                    forall|k: int| 0 <= k < all.len() ==> #[trigger] all[k] == items@[k]@,
                    start + seq![108u8] + list_encoding(all, 0) == out@ + list_encoding(
                        all,
                        i as int,
                    ),
                    forall|k: int| 0 <= k < items@.len() ==> decreases_to!(v => items@[k]),
                decreases items.len() - i,
            {
                let ghost before = out@;
                encode_into(&items[i], out);
                assert(out@ + list_encoding(all, i + 1) =~= before + list_encoding(all, i as int));
                i += 1;
            }
            out.push(101);
            assert(out@ =~= start + v@.encoding());
        },
        Value::Dict(entries) => {
            out.push(100);
            let ghost all = dict_view(entries@, entries@.len() as int);
            proof {
                lemma_dict_view(entries@, entries@.len() as int);
            }
            let mut i: usize = 0;
            while i < entries.len()
                invariant
                    i <= entries.len(),
                    all == dict_view(entries@, entries@.len() as int),
                    all.len() == entries@.len(),
                    forall|k: int|
                        0 <= k < all.len() ==> #[trigger] all[k] == (
                            entries@[k].0@,
                            entries@[k].1@,
                        ),
                    start + seq![100u8] + dict_encoding(all, 0) == out@ + dict_encoding(
                        all,
                        i as int,
                    ),
                    forall|k: int| 0 <= k < entries@.len() ==> decreases_to!(v => entries@[k].1),
                decreases entries.len() - i,
            {
                let ghost before = out@;
                encode_bytes(&entries[i].0, out);
                encode_into(&entries[i].1, out);
                assert(out@ + dict_encoding(all, i + 1) =~= before + dict_encoding(all, i as int));
                i += 1;
            }
            out.push(101);
            assert(out@ =~= start + v@.encoding());
        },
    }
}

/// The bytes that encode `v`.
pub fn encode(v: &Value) -> (out: Vec<u8>)
    ensures
        out@ == v@.encoding(),
{
    let mut out: Vec<u8> = Vec::new();
    encode_into(v, &mut out);
    assert(out@ =~= v@.encoding());
    out
}

/// The index of the first entry from index `k` on whose key is `key`.
pub open spec fn find_key(entries: Seq<(Seq<u8>, Bencode)>, key: Seq<u8>, k: int) -> Option<int>
    decreases entries.len() - k,
{
    if k < 0 || k >= entries.len() {
        None
    } else if entries[k].0 == key {
        Some(k)
    } else {
        find_key(entries, key, k + 1)
    }
}

impl Bencode {
    /// The value under `key`, if this is a dictionary that has the key.
    pub open spec fn get(self, key: Seq<u8>) -> Option<Bencode> {
        match self {
            Bencode::Dict(entries) => match find_key(entries, key, 0) {
                Some(i) => Some(entries[i].1),
                None => None,
            },
            _ => None,
        }
    }

    /// The integer, if this is one.
    pub open spec fn as_int(self) -> Option<int> {
        match self {
            Bencode::Int(n) => Some(n),
            _ => None,
        }
    }

    /// The bytes, if this is a byte string.
    pub open spec fn as_bytes(self) -> Option<Seq<u8>> {
        match self {
            Bencode::Bytes(b) => Some(b),
            _ => None,
        }
    }

    /// The items, if this is a list.
    pub open spec fn as_list(self) -> Option<Seq<Bencode>> {
        match self {
            Bencode::List(items) => Some(items),
            _ => None,
        }
    }
}

/// Whether two byte strings hold the same bytes.
pub fn same_bytes(a: &[u8], b: &[u8]) -> (r: bool)
    ensures
        r == (a@ == b@),
{
    if a.len() != b.len() {
        return false;
    }
    let mut k: usize = 0;
    while k < a.len()
        invariant
            k <= a@.len(),
            a@.len() == b@.len(),
            forall|i: int| 0 <= i < k ==> a@[i] == b@[i],
        decreases a@.len() - k,
    {
        if a[k] != b[k] {
            return false;
        }
        k += 1;
    }
    assert(a@ =~= b@);
    true
}

impl Value {
    /// The value under `key`, if this is a dictionary that has the key.
    pub fn get(&self, key: &[u8]) -> (r: Option<&Value>)
        ensures
            match r {
                Some(v) => self@.get(key@) == Some(v@),
                None => self@.get(key@) is None,
            },
    {
        match self {
            Value::Dict(entries) => {
                let ghost all = dict_view(entries@, entries@.len() as int);
                proof {
                    lemma_dict_view(entries@, entries@.len() as int);
                }
                let mut i: usize = 0;
                while i < entries.len()
                    invariant
                        i <= entries.len(),
                        self@ == Bencode::Dict(all),
                        all.len() == entries@.len(),
                        forall|k: int|
                            0 <= k < all.len() ==> #[trigger] all[k] == (
                                entries@[k].0@,
                                entries@[k].1@,
                            ),
                        find_key(all, key@, 0) == find_key(all, key@, i as int),
                    decreases entries.len() - i,
                {
                    assert(all[i as int] == (entries@[i as int].0@, entries@[i as int].1@));
                    if same_bytes(entries[i].0.as_slice(), key) {
                        assert(find_key(all, key@, i as int) == Some(i as int));
                        return Some(&entries[i].1);
                    }
                    i += 1;
                }
                None
            },
            _ => None,
        }
    }

    /// Takes the value under `key` out, if this is a dictionary that has the key.
    pub fn take(self, key: &[u8]) -> (r: Option<Value>)
        ensures
            match r {
                Some(v) => self@.get(key@) == Some(v@),
                None => self@.get(key@) is None,
            },
    {
        let ghost whole = self@;
        match self {
            Value::Dict(mut entries) => {
                let ghost all = dict_view(entries@, entries@.len() as int);
                proof {
                    lemma_dict_view(entries@, entries@.len() as int);
                }
                let mut i: usize = 0;
                while i < entries.len()
                    invariant
                        i <= entries.len(),
                        whole == self@,
                        whole == Bencode::Dict(all),
                        all.len() == entries@.len(),
                        forall|k: int|
                            0 <= k < all.len() ==> #[trigger] all[k] == (
                                entries@[k].0@,
                                entries@[k].1@,
                            ),
                        find_key(all, key@, 0) == find_key(all, key@, i as int),
                    decreases entries.len() - i,
                {
                    assert(all[i as int] == (entries@[i as int].0@, entries@[i as int].1@));
                    if same_bytes(entries[i].0.as_slice(), key) {
                        assert(find_key(all, key@, i as int) == Some(i as int));
                        let (_, value) = entries.remove(i);
                        return Some(value);
                    }
                    i += 1;
                }
                None
            },
            _ => None,
        }
    }

    /// The integer, if this is one.
    pub fn as_int(&self) -> (r: Option<i64>)
        ensures
            match r {
                Some(n) => self@.as_int() == Some(n as int),
                None => self@.as_int() is None,
            },
    {
        match self {
            Value::Int(n) => Some(*n),
            _ => None,
        }
    }

    /// The bytes, if this is a byte string.
    pub fn as_bytes(&self) -> (r: Option<&Vec<u8>>)
        ensures
            match r {
                Some(b) => self@.as_bytes() == Some(b@),
                None => self@.as_bytes() is None,
            },
    {
        match self {
            Value::Bytes(b) => Some(b),
            _ => None,
        }
    }

    /// The items, if this is a list.
    pub fn as_list(&self) -> (r: Option<&Vec<Value>>)
        ensures
            match r {
                Some(items) => self@.as_list() == Some(list_view(items@, items@.len() as int)),
                None => self@.as_list() is None,
            },
    {
        match self {
            Value::List(items) => Some(items),
            _ => None,
        }
    }
}

} // verus!
