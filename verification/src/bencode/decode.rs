//! The decoder: it accepts exactly the canonical encodings.

use crate::bencode::grammar::{
    before, before_from, digit_run, parse, parse_bytes, parse_dict, parse_int, parse_list,
    parse_number, parse_value,
};
use crate::bencode::laws::{lemma_parse_sound, lemma_parse_total};
use crate::bencode::{
    dict_view, find_key, lemma_dict_view, lemma_list_view, list_view, same_bytes, Bencode, Value,
};
use crate::decimal::{all_digits, canonical_digits, is_digit, read_decimal};
use crate::error::{ApplicationError, Fault};
use vstd::prelude::*;
use vstd::slice::{slice_subrange, slice_to_vec};

verus! {

/// Finds the end of the run of digits that starts at `pos`.
pub fn scan_digits(buf: &[u8], pos: usize) -> (end: usize)
    requires
        pos <= buf@.len(),
    ensures
        end == digit_run(buf@, pos as int),
        pos <= end <= buf@.len(),
        all_digits(buf@.subrange(pos as int, end as int)),
{
    let mut end: usize = pos;
    while end < buf.len() && 48 <= buf[end] && buf[end] <= 57
        invariant
            pos <= end <= buf@.len(),
            digit_run(buf@, pos as int) == digit_run(buf@, end as int),
            forall|k: int| pos <= k < end ==> is_digit(#[trigger] buf@[k]),
        decreases buf@.len() - end,
    {
        end += 1;
    }
    assert forall|k: int| 0 <= k < end - pos implies is_digit(
        #[trigger] buf@.subrange(pos as int, end as int)[k],
    ) by {
        assert(is_digit(buf@[pos + k]));
    }
    end
}

/// Reads the number written at `pos`.
pub fn decode_number(buf: &[u8], pos: usize) -> (r: Option<(u64, usize)>)
    requires
        pos <= buf@.len(),
    ensures
        match r {
            Some((n, end)) => parse_number(buf@, pos as int) == Some((n as nat, end as int))
                && pos < end <= buf@.len(),
            None => match parse_number(buf@, pos as int) {
                Some((n, _)) => n > u64::MAX,
                None => true,
            },
        },
        pos <= digit_run(buf@, pos as int) <= buf@.len(),
{
    let end = scan_digits(buf, pos);
    let ghost text = buf@.subrange(pos as int, end as int);
    if end == pos {
        return None;
    }
    assert(text[0] == buf@[pos as int]);
    if end - pos > 1 && buf[pos] == 48 {
        return None;
    }
    assert(canonical_digits(text));
    match read_decimal(buf, pos, end) {
        Some(n) => Some((n, end)),
        None => None,
    }
}

/// Reads the byte string written at `pos`.
pub fn decode_bytes(buf: &[u8], pos: usize) -> (r: Option<(Vec<u8>, usize)>)
    requires
        pos <= buf@.len(),
    ensures
        match r {
            Some((b, end)) => parse_bytes(buf@, pos as int) == Some((b@, end as int)) && pos < end
                <= buf@.len(),
            None => parse_bytes(buf@, pos as int) is None,
        },
{
    let len = buf.len();
    let (n, end) = match decode_number(buf, pos) {
        Some(found) => found,
        None => {
            proof {
                match parse_number(buf@, pos as int) {
                    Some((m, e)) => {
                        assert(m > len - (e + 1));
                    },
                    None => {},
                }
            }
            return None;
        },
    };
    if end >= len || buf[end] != 58 {
        return None;
    }
    let rest: usize = buf.len() - (end + 1);
    if n > rest as u64 {
        return None;
    }
    let stop: usize = end + 1 + n as usize;
    let b = slice_to_vec(slice_subrange(buf, end + 1, stop));
    Some((b, stop))
}

/// Reads the integer written after the `i` at `pos`.
pub fn decode_int(buf: &[u8], pos: usize) -> (r: Option<(i64, usize)>)
    requires
        pos < buf@.len(),
    ensures
        match r {
            Some((v, end)) => parse_int(buf@, pos as int) == Some((v as int, end as int)) && pos
                < end <= buf@.len(),
            None => parse_int(buf@, pos as int) is None,
        },
{
    let len = buf.len();
    let negative = pos + 1 < len && buf[pos + 1] == 45;
    let start: usize = if negative {
        pos + 2
    } else {
        pos + 1
    };
    let (n, end) = match decode_number(buf, start) {
        Some(found) => found,
        None => {
            return None;
        },
    };
    if end >= buf.len() || buf[end] != 101 {
        return None;
    }
    if negative {
        if n == 0 || n > 0x8000_0000_0000_0000 {
            return None;
        }
        let v: i64 = if n == 0x8000_0000_0000_0000 {
            i64::MIN
        } else {
            -(n as i64)
        };
        Some((v, end + 1))
    } else {
        if n > 0x7fff_ffff_ffff_ffff {
            return None;
        }
        Some((n as i64, end + 1))
    }
}

/// Whether `a` comes before `b` in the order of byte strings.
pub fn comes_before(a: &[u8], b: &[u8]) -> (r: bool)
    ensures
        r == before(a@, b@),
{
    let mut k: usize = 0;
    loop
        invariant
            k <= a@.len(),
            k <= b@.len(),
            before(a@, b@) == before_from(a@, b@, k as int),
        decreases a@.len() - k,
    {
        if k >= b.len() {
            return false;
        }
        if k >= a.len() {
            return true;
        }
        if a[k] != b[k] {
            return a[k] < b[k];
        }
        k += 1;
    }
}

/// What a list is once `r` is known of its rest: the items `front` and then the
/// items of `r`.
pub open spec fn after_items(front: Seq<Bencode>, r: Option<(Seq<Bencode>, int)>) -> Option<
    (Seq<Bencode>, int),
> {
    match r {
        Some((rest, end)) => Some((front + rest, end)),
        None => None,
    }
}

/// What a dictionary is once `r` is known of its rest: the entries `front` and then
/// the entries of `r`.
pub open spec fn after_entries(
    front: Seq<(Seq<u8>, Bencode)>,
    r: Option<(Seq<(Seq<u8>, Bencode)>, int)>,
) -> Option<(Seq<(Seq<u8>, Bencode)>, int)> {
    match r {
        Some((rest, end)) => Some((front + rest, end)),
        None => None,
    }
}

/// Reads the value written at `pos`.
pub fn decode_value(buf: &[u8], pos: usize) -> (r: Option<(Value, usize)>)
    requires
        pos <= buf@.len(),
    ensures
        match r {
            Some((v, end)) => parse_value(buf@, pos as int) == Some((v@, end as int)) && pos < end
                <= buf@.len(),
            None => parse_value(buf@, pos as int) is None,
        },
    decreases buf@.len() - pos, 0int,
{
    if pos >= buf.len() {
        return None;
    }
    let tag: u8 = buf[pos];
    if tag == 105 {
        match decode_int(buf, pos) {
            Some((n, end)) => Some((Value::Int(n), end)),
            None => None,
        }
    } else if tag == 108 {
        match decode_list(buf, pos + 1) {
            Some((items, end)) => Some((Value::List(items), end)),
            None => None,
        }
    } else if tag == 100 {
        match decode_dict(buf, pos + 1) {
            Some((entries, end)) => Some((Value::Dict(entries), end)),
            None => None,
        }
    } else {
        match decode_bytes(buf, pos) {
            Some((b, end)) => Some((Value::Bytes(b), end)),
            None => None,
        }
    }
}

/// Reads the items of a list from `first` up to its closing `e`.
pub fn decode_list(buf: &[u8], first: usize) -> (r: Option<(Vec<Value>, usize)>)
    requires
        first <= buf@.len(),
    ensures
        match r {
            Some((items, end)) => parse_list(buf@, first as int) == Some(
                (list_view(items@, items@.len() as int), end as int),
            ) && first < end <= buf@.len(),
            None => parse_list(buf@, first as int) is None,
        },
    decreases buf@.len() - first, 1int,
{
    let mut items: Vec<Value> = Vec::new();
    let mut pos: usize = first;
    assert(list_view(items@, 0) + Seq::<Bencode>::empty() =~= Seq::<Bencode>::empty());
    loop
        invariant
            first <= pos <= buf@.len(),
            parse_list(buf@, first as int) == after_items(
                list_view(items@, items@.len() as int),
                parse_list(buf@, pos as int),
            ),
        decreases buf@.len() - pos,
    {
        if pos >= buf.len() {
            return None;
        }
        let ghost front = list_view(items@, items@.len() as int);
        if buf[pos] == 101 {
            assert(front + Seq::<Bencode>::empty() =~= front);
            return Some((items, pos + 1));
        }
        let (item, next) = match decode_value(buf, pos) {
            Some(found) => found,
            None => {
                return None;
            },
        };
        let ghost old_items = items@;
        items.push(item);
        proof {
            lemma_list_view(old_items, old_items.len() as int);
            lemma_list_view(items@, items@.len() as int);
            let now = list_view(items@, items@.len() as int);
            assert(now =~= front + seq![item@]);
            match parse_list(buf@, next as int) {
                Some((rest, end)) => {
                    assert(now + rest =~= front + (seq![item@] + rest));
                },
                None => {},
            }
        }
        pos = next;
    }
}

/// Reads the entries of a dictionary from `first` up to its closing `e`.
pub fn decode_dict(buf: &[u8], first: usize) -> (r: Option<(Vec<(Vec<u8>, Value)>, usize)>)
    requires
        first <= buf@.len(),
    ensures
        match r {
            Some((entries, end)) => parse_dict(buf@, first as int, None) == Some(
                (dict_view(entries@, entries@.len() as int), end as int),
            ) && first < end <= buf@.len(),
            None => parse_dict(buf@, first as int, None) is None,
        },
    decreases buf@.len() - first, 1int,
{
    let mut entries: Vec<(Vec<u8>, Value)> = Vec::new();
    let mut pos: usize = first;
    assert(dict_view(entries@, 0) + Seq::<(Seq<u8>, Bencode)>::empty() =~= Seq::<
        (Seq<u8>, Bencode),
    >::empty());
    loop
        invariant
            first <= pos <= buf@.len(),
            parse_dict(buf@, first as int, None) == after_entries(
                dict_view(entries@, entries@.len() as int),
                parse_dict(
                    buf@,
                    pos as int,
                    if entries@.len() == 0 {
                        None
                    } else {
                        Some(entries@.last().0@)
                    },
                ),
            ),
        decreases buf@.len() - pos,
    {
        if pos >= buf.len() {
            return None;
        }
        let ghost front = dict_view(entries@, entries@.len() as int);
        if buf[pos] == 101 {
            assert(front + Seq::<(Seq<u8>, Bencode)>::empty() =~= front);
            return Some((entries, pos + 1));
        }
        let (key, at) = match decode_bytes(buf, pos) {
            Some(found) => found,
            None => {
                return None;
            },
        };
        if entries.len() > 0 {
            let last = entries.len() - 1;
            if !comes_before(entries[last].0.as_slice(), key.as_slice()) {
                return None;
            }
        }
        let (value, next) = match decode_value(buf, at) {
            Some(found) => found,
            None => {
                return None;
            },
        };
        let ghost old_entries = entries@;
        let ghost entry = (key@, value@);
        entries.push((key, value));
        proof {
            lemma_dict_view(old_entries, old_entries.len() as int);
            lemma_dict_view(entries@, entries@.len() as int);
            let now = dict_view(entries@, entries@.len() as int);
            assert(now =~= front + seq![entry]);
            match parse_dict(buf@, next as int, Some(entry.0)) {
                Some((rest, end)) => {
                    assert(now + rest =~= front + (seq![entry] + rest));
                },
                None => {},
            }
        }
        pos = next;
    }
}

/// What the result of [`decode`] says, for comparison with the grammar.
pub open spec fn decoded(r: Result<Value, ApplicationError>) -> Option<Bencode> {
    match r {
        Ok(v) => Some(v@),
        Err(_) => None,
    }
}

/// Decodes `bytes`, which must be the canonical encoding of one value and nothing
/// more.
///
/// Accepted are exactly the encodings of canonical values: an accepted value
/// encodes to `bytes` again, and where the bytes are refused, no canonical value
/// encodes to them. So truncated input, a length or an integer that is not written
/// in canonical digits, dictionary keys that do not ascend, and bytes after the
/// value are all refused. Nesting is followed as deep as the input goes.
pub fn decode(bytes: &[u8]) -> (r: Result<Value, ApplicationError>)
    ensures
        decoded(r) == parse(bytes@),
        match r {
            Ok(v) => v@.canonical() && v@.encoding() == bytes@,
            Err(e) => e == ApplicationError::ParserError(Fault::MalformedBencode) && forall|
                b: Bencode,
            |
                b.canonical() ==> #[trigger] b.encoding() != bytes@,
        },
{
    proof {
        lemma_parse_sound(bytes@, 0);
        assert forall|b: Bencode| b.canonical() && #[trigger] b.encoding() == bytes@ implies parse(
            bytes@,
        ) == Some(b) by {
            assert(bytes@.subrange(0, bytes@.len() as int) =~= bytes@);
            lemma_parse_total(b, bytes@, 0);
        }
    }
    match decode_value(bytes, 0) {
        Some((v, end)) => {
            if end == bytes.len() {
                assert(bytes@.subrange(0, end as int) =~= bytes@);
                Ok(v)
            } else {
                Err(ApplicationError::ParserError(Fault::MalformedBencode))
            }
        },
        None => Err(ApplicationError::ParserError(Fault::MalformedBencode)),
    }
}

/// Finds where in `bytes` the value under `key` stands, if `bytes` encode a
/// dictionary that has the key: the bytes from the first to the second position
/// returned are the encoding of that value, exactly as `bytes` hold it.
pub fn value_span(bytes: &[u8], key: &[u8]) -> (r: Option<(usize, usize)>)
    ensures
        match r {
            Some((start, end)) => {
                &&& start <= end <= bytes@.len()
                &&& parse(bytes@) is Some
                &&& parse(bytes@).unwrap().get(key@) is Some
                &&& bytes@.subrange(start as int, end as int) == parse(bytes@).unwrap().get(
                    key@,
                ).unwrap().encoding()
            },
            None => parse(bytes@) is Some ==> parse(bytes@).unwrap().get(key@) is None,
        },
{
    match decode(bytes) {
        Ok(Value::Dict(_)) => {},
        _ => {
            return None;
        },
    }
    let ghost entries = parse(bytes@).unwrap()->Dict_0;
    let ghost mut k: int = 0;
    let ghost mut prev: Option<Seq<u8>> = None;
    let mut pos: usize = 1;
    loop
        invariant
            1 <= pos <= bytes@.len(),
            parse(bytes@) == Some(Bencode::Dict(entries)),
            0 <= k <= entries.len(),
            parse_dict(bytes@, pos as int, prev) == Some((entries.skip(k), bytes@.len() as int)),
            find_key(entries, key@, 0) == find_key(entries, key@, k),
        decreases bytes@.len() - pos,
    {
        if pos >= bytes.len() || bytes[pos] == 101 {
            return None;
        }
        let (name, at) = match decode_bytes(bytes, pos) {
            Some(found) => found,
            None => {
                return None;
            },
        };
        let (value, next) = match decode_value(bytes, at) {
            Some(found) => found,
            None => {
                return None;
            },
        };
        proof {
            let rest = parse_dict(bytes@, next as int, Some(name@)).unwrap().0;
            assert(entries.skip(k) == seq![(name@, value@)] + rest);
            assert(entries.skip(k)[0] == (name@, value@));
            assert(entries[k] == (name@, value@));
            assert(rest =~= entries.skip(k + 1)) by {
                assert forall|i: int| 0 <= i < rest.len() implies rest[i] == entries.skip(k + 1)[i] by {
                    assert(entries.skip(k)[i + 1] == rest[i]);
                }
            }
            lemma_parse_sound(bytes@, at as int);
        }
        if same_bytes(name.as_slice(), key) {
            return Some((at, next));
        }
        proof {
            k = k + 1;
            prev = Some(name@);
        }
        pos = next;
    }
}

} // verus!
