//! The grammar of canonical bencode, as a parser on sequences of bytes.

use crate::bencode::Bencode;
use crate::decimal::{canonical_digits, is_digit, value_of};
use vstd::prelude::*;

verus! {

/// Where the run of digits that starts at `pos` ends.
pub open spec fn digit_run(s: Seq<u8>, pos: int) -> int
    decreases s.len() - pos,
{
    if 0 <= pos < s.len() && is_digit(s[pos]) {
        digit_run(s, pos + 1)
    } else {
        pos
    }
}

/// The number written at `pos`, with the position after it: a run of digits
/// without a leading zero.
pub open spec fn parse_number(s: Seq<u8>, pos: int) -> Option<(nat, int)> {
    let end = digit_run(s, pos);
    if 0 <= pos <= s.len() && canonical_digits(s.subrange(pos, end)) {
        Some((value_of(s.subrange(pos, end)), end))
    } else {
        None
    }
}

/// The integer written after the `i` at `pos`, with the position after its `e`. It
/// has no leading zero, is not "-0" and fits in 64 bits.
pub open spec fn parse_int(s: Seq<u8>, pos: int) -> Option<(int, int)> {
    let negative = pos + 1 < s.len() && s[pos + 1] == 45;
    let start = if negative {
        pos + 2
    } else {
        pos + 1
    };
    match parse_number(s, start) {
        None => None,
        Some((n, end)) => {
            let v = if negative {
                -(n as int)
            } else {
                n as int
            };
            if end >= s.len() || s[end] != 101 || (negative && n == 0) || v < i64::MIN || v
                > i64::MAX {
                None
            } else {
                Some((v, end + 1))
            }
        },
    }
}

/// The byte string written at `pos`, with the position after it: its length, a
/// colon, and as many bytes.
pub open spec fn parse_bytes(s: Seq<u8>, pos: int) -> Option<(Seq<u8>, int)> {
    match parse_number(s, pos) {
        None => None,
        Some((n, end)) => {
            if end >= s.len() || s[end] != 58 || n > s.len() - (end + 1) {
                None
            } else {
                Some((s.subrange(end + 1, end + 1 + n), end + 1 + n))
            }
        },
    }
}

/// Whether `a` comes before `b` in the order of byte strings, looking from index `k`
/// on: at the first difference the byte of `a` is smaller, or `a` ends first.
pub open spec fn before_from(a: Seq<u8>, b: Seq<u8>, k: int) -> bool
    decreases a.len() - k,
{
    if k < 0 || k >= b.len() {
        false
    } else if k >= a.len() {
        true
    } else if a[k] != b[k] {
        a[k] < b[k]
    } else {
        before_from(a, b, k + 1)
    }
}

/// Whether `a` comes before `b` in the order of byte strings.
pub open spec fn before(a: Seq<u8>, b: Seq<u8>) -> bool {
    before_from(a, b, 0)
}

/// Whether a key may follow the key `prev`, if there is one.
pub open spec fn follows(prev: Option<Seq<u8>>, key: Seq<u8>) -> bool {
    match prev {
        Some(p) => before(p, key),
        None => true,
    }
}

/// The value written at `pos`, with the position after it.
pub open spec fn parse_value(s: Seq<u8>, pos: int) -> Option<(Bencode, int)>
    decreases s.len() - pos, 0int,
{
    if pos < 0 || pos >= s.len() {
        None
    } else if s[pos] == 105 {
        match parse_int(s, pos) {
            Some((n, end)) => Some((Bencode::Int(n), end)),
            None => None,
        }
    } else if s[pos] == 108 {
        match parse_list(s, pos + 1) {
            Some((items, end)) => Some((Bencode::List(items), end)),
            None => None,
        }
    } else if s[pos] == 100 {
        match parse_dict(s, pos + 1, None) {
            Some((entries, end)) => Some((Bencode::Dict(entries), end)),
            None => None,
        }
    } else {
        match parse_bytes(s, pos) {
            Some((b, end)) => Some((Bencode::Bytes(b), end)),
            None => None,
        }
    }
}

/// The items written from `pos` up to the closing `e`, with the position after it.
pub open spec fn parse_list(s: Seq<u8>, pos: int) -> Option<(Seq<Bencode>, int)>
    decreases s.len() - pos, 1int,
{
    if pos < 0 || pos >= s.len() {
        None
    } else if s[pos] == 101 {
        Some((Seq::empty(), pos + 1))
    } else {
        match parse_value(s, pos) {
            None => None,
            Some((item, next)) => {
                if next <= pos || next > s.len() {
                    None
                } else {
                    match parse_list(s, next) {
                        None => None,
                        Some((rest, end)) => Some((seq![item] + rest, end)),
                    }
                }
            },
        }
    }
}

/// The entries written from `pos` up to the closing `e`, with the position after
/// it. Each key is a byte string and comes after the one before it, and after
/// `prev`, in the order of byte strings.
pub open spec fn parse_dict(s: Seq<u8>, pos: int, prev: Option<Seq<u8>>) -> Option<
    (Seq<(Seq<u8>, Bencode)>, int),
>
    decreases s.len() - pos, 1int,
{
    if pos < 0 || pos >= s.len() {
        None
    } else if s[pos] == 101 {
        Some((Seq::empty(), pos + 1))
    } else {
        match parse_bytes(s, pos) {
            None => None,
            Some((key, at)) => {
                if at <= pos || !follows(prev, key) {
                    None
                } else {
                    match parse_value(s, at) {
                        None => None,
                        Some((value, next)) => {
                            if next <= at || next > s.len() {
                                None
                            } else {
                                match parse_dict(s, next, Some(key)) {
                                    None => None,
                                    Some((rest, end)) => Some((seq![(key, value)] + rest, end)),
                                }
                            }
                        },
                    }
                }
            },
        }
    }
}

/// The value that `s` encodes canonically, if it encodes one and nothing follows.
pub open spec fn parse(s: Seq<u8>) -> Option<Bencode> {
    match parse_value(s, 0) {
        Some((v, end)) => if end == s.len() {
            Some(v)
        } else {
            None
        },
        None => None,
    }
}

/// Whether the key of entry `i` comes after the key of the entry before it.
pub open spec fn ascends_at(entries: Seq<(Seq<u8>, Bencode)>, i: int) -> bool {
    i <= 0 || before(entries[i - 1].0, entries[i].0)
}

/// Whether the values of the entries from index `k` on are canonical.
pub open spec fn canonical_entries(entries: Seq<(Seq<u8>, Bencode)>, k: int) -> bool
    decreases entries, entries.len() - k,
{
    if k < 0 || k >= entries.len() {
        true
    } else {
        entries[k].1.canonical() && canonical_entries(entries, k + 1)
    }
}

/// Whether the items from index `k` on are canonical.
pub open spec fn canonical_items(items: Seq<Bencode>, k: int) -> bool
    decreases items, items.len() - k,
{
    if k < 0 || k >= items.len() {
        true
    } else {
        items[k].canonical() && canonical_items(items, k + 1)
    }
}

impl Bencode {
    /// Whether the value is one that canonical bencode can write: its integers fit
    /// in 64 bits, and the keys of each dictionary ascend, so that none occurs
    /// twice.
    pub open spec fn canonical(self) -> bool
        decreases self,
    {
        match self {
            Bencode::Int(n) => i64::MIN <= n <= i64::MAX,
            Bencode::Bytes(_) => true,
            Bencode::List(items) => canonical_items(items, 0),
            Bencode::Dict(entries) => {
                &&& forall|i: int| 0 <= i < entries.len() ==> #[trigger] ascends_at(entries, i)
                &&& canonical_entries(entries, 0)
            },
        }
    }
}

} // verus!
