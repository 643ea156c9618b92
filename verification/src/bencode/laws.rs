//! What holds of the grammar and the encoding together: the decoder undoes the
//! encoder, and the encoder undoes the decoder.

use crate::bencode::grammar::{
    ascends_at, canonical_entries, canonical_items, digit_run, follows, parse, parse_bytes,
    parse_dict, parse_int, parse_list, parse_number, parse_value,
};
use crate::bencode::{bytes_encoding, dict_encoding, int_text, list_encoding, Bencode};
use crate::decimal::{
    canonical_digits, digits_of, is_digit, lemma_digits_canonical, lemma_digits_of_value,
    lemma_value_of_digits,
};
use vstd::prelude::*;

verus! {

/// Whether the bytes `x` stand in `s` from `pos` on.
pub open spec fn stands_at(s: Seq<u8>, pos: int, x: Seq<u8>) -> bool {
    &&& 0 <= pos
    &&& pos + x.len() <= s.len()
    &&& s.subrange(pos, pos + x.len()) == x
}

/// Where two runs of bytes stand in a row, each stands at its place.
pub proof fn lemma_stands_split(s: Seq<u8>, pos: int, x: Seq<u8>, y: Seq<u8>)
    requires
        stands_at(s, pos, x + y),
    ensures
        stands_at(s, pos, x),
        stands_at(s, pos + x.len(), y),
{
    let z = x + y;
    let whole = s.subrange(pos, pos + z.len());
    assert forall|i: int| 0 <= i < x.len() implies s.subrange(pos, pos + x.len())[i] == x[i] by {
        assert(whole[i] == z[i]);
    }
    assert(s.subrange(pos, pos + x.len()) =~= x);
    assert forall|i: int| 0 <= i < y.len() implies s.subrange(
        pos + x.len(),
        pos + x.len() + y.len(),
    )[i] == y[i] by {
        assert(whole[x.len() + i] == z[x.len() + i]);
    }
    assert(s.subrange(pos + x.len(), pos + x.len() + y.len()) =~= y);
}

/// A byte of a run that stands in `s` is the byte of `s` at its place.
pub proof fn lemma_stands_index(s: Seq<u8>, pos: int, x: Seq<u8>, i: int)
    requires
        stands_at(s, pos, x),
        0 <= i < x.len(),
    ensures
        s[pos + i] == x[i],
{
    assert(s.subrange(pos, pos + x.len())[i] == x[i]);
}

/// The run of digits from `pos` ends within `s`, holds only digits, and no digit
/// follows it.
pub proof fn lemma_digit_run_bounds(s: Seq<u8>, pos: int)
    requires
        0 <= pos <= s.len(),
    ensures
        pos <= digit_run(s, pos) <= s.len(),
        forall|k: int| pos <= k < digit_run(s, pos) ==> is_digit(#[trigger] s[k]),
        digit_run(s, pos) < s.len() ==> !is_digit(s[digit_run(s, pos)]),
    decreases s.len() - pos,
{
    if pos < s.len() && is_digit(s[pos]) {
        lemma_digit_run_bounds(s, pos + 1);
    }
}

/// Digits from `pos` up to `end`, with no digit after them, are the run of digits
/// from `pos`.
pub proof fn lemma_digit_run_exact(s: Seq<u8>, pos: int, end: int)
    requires
        0 <= pos <= end <= s.len(),
        forall|k: int| pos <= k < end ==> is_digit(#[trigger] s[k]),
        end == s.len() || !is_digit(s[end]),
    ensures
        digit_run(s, pos) == end,
    decreases end - pos,
{
    if pos < end {
        assert(is_digit(s[pos]));
        lemma_digit_run_exact(s, pos + 1, end);
    }
}

/// A number that was read ends after `pos` and within `s`, and what was read are
/// its digits.
pub proof fn lemma_number_sound(s: Seq<u8>, pos: int)
    ensures
        match parse_number(s, pos) {
            Some((n, end)) => pos < end <= s.len() && s.subrange(pos, end) == digits_of(n) && (
            end < s.len() ==> !is_digit(s[end])),
            None => true,
        },
{
    if 0 <= pos <= s.len() {
        lemma_digit_run_bounds(s, pos);
        let end = digit_run(s, pos);
        if canonical_digits(s.subrange(pos, end)) {
            lemma_digits_of_value(s.subrange(pos, end));
        }
    }
}

/// Where the digits of `n` stand at `pos` and no digit follows them, `n` is read.
pub proof fn lemma_number_total(n: nat, s: Seq<u8>, pos: int)
    requires
        stands_at(s, pos, digits_of(n)),
        pos + digits_of(n).len() == s.len() || !is_digit(s[pos + digits_of(n).len()]),
    ensures
        parse_number(s, pos) == Some((n, pos + digits_of(n).len())),
{
    let d = digits_of(n);
    let end = pos + d.len();
    lemma_digits_canonical(n);
    lemma_value_of_digits(n);
    assert forall|k: int| pos <= k < end implies is_digit(#[trigger] s[k]) by {
        lemma_stands_index(s, pos, d, k - pos);
        assert(is_digit(d[k - pos]));
    }
    lemma_digit_run_exact(s, pos, end);
}

/// An encoding is not empty, and its first byte tells its kind: `i`, `l`, `d`, or a
/// digit for a byte string.
pub proof fn lemma_first_byte(b: Bencode)
    ensures
        b.encoding().len() >= 2,
        match b {
            Bencode::Int(_) => b.encoding()[0] == 105,
            Bencode::Bytes(_) => is_digit(b.encoding()[0]),
            Bencode::List(_) => b.encoding()[0] == 108,
            Bencode::Dict(_) => b.encoding()[0] == 100,
        },
{
    match b {
        Bencode::Bytes(bytes) => {
            lemma_digits_canonical(bytes.len());
            assert(is_digit(digits_of(bytes.len())[0]));
            assert(b.encoding()[0] == digits_of(bytes.len())[0]);
        },
        Bencode::Int(n) => {
            if n < 0 {
                lemma_digits_canonical((-n) as nat);
            } else {
                lemma_digits_canonical(n as nat);
            }
        },
        _ => {},
    }
}

/// The encoding of a byte string starts with a digit.
pub proof fn lemma_bytes_first(b: Seq<u8>)
    ensures
        bytes_encoding(b).len() >= 2,
        is_digit(bytes_encoding(b)[0]),
{
    lemma_digits_canonical(b.len());
    assert(is_digit(digits_of(b.len())[0]));
    assert(bytes_encoding(b)[0] == digits_of(b.len())[0]);
}

/// A byte string that was read ends after `pos` and within `s`, and what was read
/// is its encoding.
pub proof fn lemma_bytes_sound(s: Seq<u8>, pos: int)
    ensures
        match parse_bytes(s, pos) {
            Some((b, end)) => pos < end <= s.len() && s.subrange(pos, end) == bytes_encoding(b),
            None => true,
        },
{
    lemma_number_sound(s, pos);
    match parse_bytes(s, pos) {
        Some((b, end)) => {
            let (n, colon) = parse_number(s, pos).unwrap();
            assert(b.len() == n);
            assert(s.subrange(pos, end) =~= digits_of(n) + seq![58u8] + b);
        },
        None => {},
    }
}

/// Where the encoding of a byte string stands at `pos`, that byte string is read.
pub proof fn lemma_bytes_total(b: Seq<u8>, s: Seq<u8>, pos: int)
    requires
        stands_at(s, pos, bytes_encoding(b)),
    ensures
        parse_bytes(s, pos) == Some((b, pos + bytes_encoding(b).len())),
{
    let d = digits_of(b.len());
    let tail = seq![58u8] + b;
    assert(bytes_encoding(b) =~= d + tail);
    lemma_stands_split(s, pos, d, tail);
    lemma_stands_split(s, pos + d.len(), seq![58u8], b);
    lemma_stands_index(s, pos + d.len(), seq![58u8], 0);
    lemma_number_total(b.len(), s, pos);
}

/// An integer that was read ends after `pos` and within `s`, fits in 64 bits, and
/// what was read is its encoding.
pub proof fn lemma_int_sound(s: Seq<u8>, pos: int)
    requires
        0 <= pos < s.len(),
        s[pos] == 105,
    ensures
        match parse_int(s, pos) {
            Some((v, end)) => pos < end <= s.len() && i64::MIN <= v <= i64::MAX && s.subrange(
                pos,
                end,
            ) == Bencode::Int(v).encoding(),
            None => true,
        },
{
    let negative = pos + 1 < s.len() && s[pos + 1] == 45;
    let start = if negative {
        pos + 2
    } else {
        pos + 1
    };
    lemma_number_sound(s, start);
    match parse_int(s, pos) {
        Some((v, end)) => {
            let (n, stop) = parse_number(s, start).unwrap();
            if negative {
                assert(s.subrange(pos, end) =~= seq![105u8] + (seq![45u8] + digits_of(n)) + seq![
                    101u8,
                ]);
            } else {
                assert(s.subrange(pos, end) =~= seq![105u8] + digits_of(n) + seq![101u8]);
            }
        },
        None => {},
    }
}

/// Where the encoding of an integer of 64 bits stands at `pos`, that integer is
/// read.
pub proof fn lemma_int_total(v: int, s: Seq<u8>, pos: int)
    requires
        i64::MIN <= v <= i64::MAX,
        stands_at(s, pos, Bencode::Int(v).encoding()),
    ensures
        parse_int(s, pos) == Some((v, pos + Bencode::Int(v).encoding().len())),
{
    let enc = Bencode::Int(v).encoding();
    let text = int_text(v);
    assert(enc =~= seq![105u8] + (text + seq![101u8]));
    lemma_stands_split(s, pos, seq![105u8], text + seq![101u8]);
    lemma_stands_split(s, pos + 1, text, seq![101u8]);
    lemma_stands_index(s, pos + 1 + text.len(), seq![101u8], 0);
    if v < 0 {
        let n = (-v) as nat;
        let d = digits_of(n);
        lemma_digits_canonical(n);
        lemma_stands_split(s, pos + 1, seq![45u8], d);
        lemma_stands_index(s, pos + 1, seq![45u8], 0);
        lemma_number_total(n, s, pos + 2);
    } else {
        let n = v as nat;
        let d = digits_of(n);
        lemma_digits_canonical(n);
        lemma_stands_index(s, pos + 1, d, 0);
        assert(is_digit(d[0]));
        lemma_number_total(n, s, pos + 1);
    }
}

/// The items after the first encode as they do on their own.
pub proof fn lemma_list_shift(item: Bencode, rest: Seq<Bencode>, k: int)
    requires
        0 <= k <= rest.len(),
    ensures
        list_encoding(seq![item] + rest, k + 1) == list_encoding(rest, k),
        canonical_items(seq![item] + rest, k + 1) == canonical_items(rest, k),
    decreases rest.len() - k,
{
    let all = seq![item] + rest;
    if k < rest.len() {
        lemma_list_shift(item, rest, k + 1);
        assert(all[k + 1] == rest[k]);
    }
}

/// The entries after the first encode as they do on their own.
pub proof fn lemma_dict_shift(entry: (Seq<u8>, Bencode), rest: Seq<(Seq<u8>, Bencode)>, k: int)
    requires
        0 <= k <= rest.len(),
    ensures
        dict_encoding(seq![entry] + rest, k + 1) == dict_encoding(rest, k),
        canonical_entries(seq![entry] + rest, k + 1) == canonical_entries(rest, k),
    decreases rest.len() - k,
{
    let all = seq![entry] + rest;
    if k < rest.len() {
        lemma_dict_shift(entry, rest, k + 1);
        assert(all[k + 1] == rest[k]);
    }
}

/// What a parse that succeeds at `pos` says: it ends after `pos` and within `s`,
/// the value is canonical, and the bytes that it read are the value's encoding.
pub proof fn lemma_parse_sound(s: Seq<u8>, pos: int)
    ensures
        match parse_value(s, pos) {
            Some((v, end)) => pos < end <= s.len() && v.canonical() && s.subrange(pos, end)
                == v.encoding(),
            None => true,
        },
    decreases s.len() - pos, 0int,
{
    if 0 <= pos < s.len() {
        if s[pos] == 105 {
            lemma_int_sound(s, pos);
        } else if s[pos] == 108 {
            lemma_list_sound(s, pos + 1);
            match parse_list(s, pos + 1) {
                Some((items, end)) => {
                    assert(s.subrange(pos, end) =~= seq![108u8] + s.subrange(pos + 1, end));
                    assert(s.subrange(pos, end) =~= Bencode::List(items).encoding());
                },
                None => {},
            }
        } else if s[pos] == 100 {
            lemma_dict_sound(s, pos + 1, None);
            match parse_dict(s, pos + 1, None) {
                Some((entries, end)) => {
                    assert(s.subrange(pos, end) =~= seq![100u8] + s.subrange(pos + 1, end));
                    assert(s.subrange(pos, end) =~= Bencode::Dict(entries).encoding());
                },
                None => {},
            }
        } else {
            lemma_bytes_sound(s, pos);
        }
    }
}

/// What a list that was read says: it ends within `s`, its items are canonical, and
/// the bytes that were read are their encodings and the closing `e`.
pub proof fn lemma_list_sound(s: Seq<u8>, pos: int)
    ensures
        match parse_list(s, pos) {
            Some((items, end)) => pos < end <= s.len() && canonical_items(items, 0) && s.subrange(
                pos,
                end,
            ) == list_encoding(items, 0) + seq![101u8],
            None => true,
        },
    decreases s.len() - pos, 1int,
{
    if 0 <= pos < s.len() {
        if s[pos] == 101 {
            assert(s.subrange(pos, pos + 1) =~= list_encoding(Seq::<Bencode>::empty(), 0) + seq![
                101u8,
            ]);
        } else {
            lemma_parse_sound(s, pos);
            match parse_value(s, pos) {
                Some((item, next)) => {
                    lemma_list_sound(s, next);
                    match parse_list(s, next) {
                        Some((rest, end)) => {
                            let items = seq![item] + rest;
                            lemma_list_shift(item, rest, 0);
                            assert(items[0] == item);
                            assert(s.subrange(pos, end) =~= s.subrange(pos, next) + s.subrange(
                                next,
                                end,
                            ));
                            assert(list_encoding(items, 0) + seq![101u8] =~= item.encoding() + (
                            list_encoding(rest, 0) + seq![101u8]));
                        },
                        None => {},
                    }
                },
                None => {},
            }
        }
    }
}

/// What a dictionary that was read says: it ends within `s`, its keys ascend from
/// `prev` on, its values are canonical, and the bytes that were read are the
/// encodings of its entries and the closing `e`.
pub proof fn lemma_dict_sound(s: Seq<u8>, pos: int, prev: Option<Seq<u8>>)
    ensures
        match parse_dict(s, pos, prev) {
            Some((entries, end)) => {
                &&& pos < end <= s.len()
                &&& canonical_entries(entries, 0)
                &&& forall|i: int| 0 <= i < entries.len() ==> #[trigger] ascends_at(entries, i)
                &&& entries.len() > 0 ==> follows(prev, entries[0].0)
                &&& s.subrange(pos, end) == dict_encoding(entries, 0) + seq![101u8]
            },
            None => true,
        },
    decreases s.len() - pos, 1int,
{
    if 0 <= pos < s.len() {
        if s[pos] == 101 {
            assert(s.subrange(pos, pos + 1) =~= dict_encoding(
                Seq::<(Seq<u8>, Bencode)>::empty(),
                0,
            ) + seq![101u8]);
        } else {
            lemma_bytes_sound(s, pos);
            match parse_bytes(s, pos) {
                Some((key, at)) => {
                    lemma_parse_sound(s, at);
                    match parse_value(s, at) {
                        Some((value, next)) => {
                            lemma_dict_sound(s, next, Some(key));
                            match parse_dict(s, next, Some(key)) {
                                Some((rest, end)) => {
                                    if at > pos && follows(prev, key) && next > at {
                                        let entry = (key, value);
                                        let entries = seq![entry] + rest;
                                        lemma_dict_shift(entry, rest, 0);
                                        assert(entries[0] == entry);
                                        assert forall|i: int|
                                            0 <= i < entries.len() implies #[trigger] ascends_at(
                                            entries,
                                            i,
                                        ) by {
                                            if i == 1 {
                                                assert(entries[1] == rest[0]);
                                            } else if i > 1 {
                                                assert(ascends_at(rest, i - 1));
                                                assert(entries[i] == rest[i - 1]);
                                                assert(entries[i - 1] == rest[i - 2]);
                                            }
                                        }
                                        assert(s.subrange(pos, end) =~= s.subrange(pos, at)
                                            + s.subrange(at, next) + s.subrange(next, end));
                                        assert(dict_encoding(entries, 0) + seq![101u8]
                                            =~= bytes_encoding(key) + value.encoding() + (
                                        dict_encoding(rest, 0) + seq![101u8]));
                                    }
                                },
                                None => {},
                            }
                        },
                        None => {},
                    }
                },
                None => {},
            }
        }
    }
}

/// Where the encoding of a canonical value stands at `pos`, the parse at `pos`
/// gives that value and ends after the encoding.
pub proof fn lemma_parse_total(b: Bencode, s: Seq<u8>, pos: int)
    requires
        b.canonical(),
        stands_at(s, pos, b.encoding()),
    ensures
        parse_value(s, pos) == Some((b, pos + b.encoding().len())),
    decreases b,
{
    lemma_first_byte(b);
    lemma_stands_index(s, pos, b.encoding(), 0);
    match b {
        Bencode::Int(n) => {
            lemma_int_total(n, s, pos);
        },
        Bencode::Bytes(bytes) => {
            lemma_bytes_total(bytes, s, pos);
        },
        Bencode::List(items) => {
            let inner = list_encoding(items, 0) + seq![101u8];
            assert(b.encoding() =~= seq![108u8] + inner);
            lemma_stands_split(s, pos, seq![108u8], inner);
            lemma_list_total(items, 0, s, pos + 1);
            assert(items.skip(0) =~= items);
        },
        Bencode::Dict(entries) => {
            let inner = dict_encoding(entries, 0) + seq![101u8];
            assert(b.encoding() =~= seq![100u8] + inner);
            lemma_stands_split(s, pos, seq![100u8], inner);
            lemma_dict_total(entries, 0, s, pos + 1);
            assert(entries.skip(0) =~= entries);
        },
    }
}

/// Where the encodings of the canonical items from index `k` on stand at `pos`,
/// followed by the closing `e`, those items are read.
pub proof fn lemma_list_total(items: Seq<Bencode>, k: int, s: Seq<u8>, pos: int)
    requires
        0 <= k <= items.len(),
        canonical_items(items, k),
        stands_at(s, pos, list_encoding(items, k) + seq![101u8]),
    ensures
        parse_list(s, pos) == Some(
            (items.skip(k), pos + list_encoding(items, k).len() + 1),
        ),
    decreases items, items.len() - k,
{
    let here = list_encoding(items, k) + seq![101u8];
    if k == items.len() {
        lemma_stands_index(s, pos, here, 0);
        assert(items.skip(k) =~= Seq::<Bencode>::empty());
    } else {
        let item = items[k];
        let after = list_encoding(items, k + 1) + seq![101u8];
        assert(here =~= item.encoding() + after);
        lemma_first_byte(item);
        lemma_stands_index(s, pos, here, 0);
        assert(here[0] == item.encoding()[0]);
        lemma_stands_split(s, pos, item.encoding(), after);
        lemma_parse_total(item, s, pos);
        lemma_list_total(items, k + 1, s, pos + item.encoding().len());
        assert(seq![item] + items.skip(k + 1) =~= items.skip(k));
    }
}

/// Where the encodings of the canonical entries from index `k` on stand at `pos`,
/// followed by the closing `e`, and their keys ascend, those entries are read.
pub proof fn lemma_dict_total(entries: Seq<(Seq<u8>, Bencode)>, k: int, s: Seq<u8>, pos: int)
    requires
        0 <= k <= entries.len(),
        canonical_entries(entries, k),
        forall|i: int| 0 <= i < entries.len() ==> #[trigger] ascends_at(entries, i),
        stands_at(s, pos, dict_encoding(entries, k) + seq![101u8]),
    ensures
        parse_dict(
            s,
            pos,
            if k == 0 {
                None
            } else {
                Some(entries[k - 1].0)
            },
        ) == Some((entries.skip(k), pos + dict_encoding(entries, k).len() + 1)),
    decreases entries, entries.len() - k,
{
    let here = dict_encoding(entries, k) + seq![101u8];
    if k == entries.len() {
        lemma_stands_index(s, pos, here, 0);
        assert(entries.skip(k) =~= Seq::<(Seq<u8>, Bencode)>::empty());
    } else {
        let key = entries[k].0;
        let value = entries[k].1;
        let after = dict_encoding(entries, k + 1) + seq![101u8];
        assert(here =~= bytes_encoding(key) + (value.encoding() + after));
        lemma_bytes_first(key);
        lemma_first_byte(value);
        lemma_stands_index(s, pos, here, 0);
        assert(here[0] == bytes_encoding(key)[0]);
        lemma_stands_split(s, pos, bytes_encoding(key), value.encoding() + after);
        lemma_stands_split(s, pos + bytes_encoding(key).len(), value.encoding(), after);
        lemma_bytes_total(key, s, pos);
        assert(ascends_at(entries, k));
        lemma_parse_total(value, s, pos + bytes_encoding(key).len());
        lemma_dict_total(
            entries,
            k + 1,
            s,
            pos + bytes_encoding(key).len() + value.encoding().len(),
        );
        assert(seq![(key, value)] + entries.skip(k + 1) =~= entries.skip(k));
    }
}

/// Decoding undoes encoding: the encoding of a canonical value is read back as that
/// value.
pub proof fn lemma_decode_encode(b: Bencode)
    requires
        b.canonical(),
    ensures
        parse(b.encoding()) == Some(b),
{
    let s = b.encoding();
    assert(s.subrange(0, s.len() as int) =~= s);
    lemma_parse_total(b, s, 0);
}

/// Encoding undoes decoding: bytes that are read as a value are that value's
/// encoding, and the value is canonical.
pub proof fn lemma_encode_decode(s: Seq<u8>)
    ensures
        match parse(s) {
            Some(b) => b.canonical() && b.encoding() == s,
            None => true,
        },
{
    lemma_parse_sound(s, 0);
    match parse(s) {
        Some(b) => {
            assert(s.subrange(0, s.len() as int) =~= s);
        },
        None => {},
    }
}

/// Two canonical values with the same encoding are the same value.
pub proof fn lemma_encoding_injective(a: Bencode, b: Bencode)
    requires
        a.canonical(),
        b.canonical(),
        a.encoding() == b.encoding(),
    ensures
        a == b,
{
    lemma_decode_encode(a);
    lemma_decode_encode(b);
}

} // verus!
