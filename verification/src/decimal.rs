//! Numbers in decimal ASCII, as bencoded data and announce queries write them.

use vstd::prelude::*;

verus! {

/// Whether `b` is an ASCII digit.
pub open spec fn is_digit(b: u8) -> bool {
    48 <= b <= 57
}

/// The decimal digits of `n` in ASCII, without leading zeros.
pub open spec fn digits_of(n: nat) -> Seq<u8>
    decreases n,
{
    if n < 10 {
        seq![(48 + n) as u8]
    } else {
        digits_of(n / 10).push((48 + n % 10) as u8)
    }
}

/// The number that the ASCII digits `d` write.
pub open spec fn value_of(d: Seq<u8>) -> nat
    decreases d.len(),
{
    if d.len() == 0 {
        0
    } else {
        value_of(d.drop_last()) * 10 + (d.last() - 48) as nat
    }
}

/// Whether every byte of `d` is a digit.
pub open spec fn all_digits(d: Seq<u8>) -> bool {
    forall|i: int| 0 <= i < d.len() ==> is_digit(#[trigger] d[i])
}

/// Whether `d` is a number as it is written canonically: at least one digit, only
/// digits, and no leading zero but in "0" itself.
pub open spec fn canonical_digits(d: Seq<u8>) -> bool {
    &&& d.len() >= 1
    &&& all_digits(d)
    &&& d.len() > 1 ==> d[0] != 48
}

/// The digits of a number are canonical.
pub proof fn lemma_digits_canonical(n: nat)
    ensures
        canonical_digits(digits_of(n)),
        n > 0 ==> digits_of(n)[0] != 48,
    decreases n,
{
    if n >= 10 {
        lemma_digits_canonical(n / 10);
    }
}

/// The digits of a number write that number.
pub proof fn lemma_value_of_digits(n: nat)
    ensures
        value_of(digits_of(n)) == n,
    decreases n,
{
    if n >= 10 {
        lemma_value_of_digits(n / 10);
        assert(digits_of(n).drop_last() =~= digits_of(n / 10));
    } else {
        assert(digits_of(n).drop_last() =~= Seq::<u8>::empty());
        assert(value_of(digits_of(n).drop_last()) == 0);
    }
}

/// Digits without a leading zero write a number that is not zero, unless they are
/// "0".
pub proof fn lemma_value_positive(d: Seq<u8>)
    requires
        d.len() >= 1,
        all_digits(d),
        d[0] != 48,
    ensures
        value_of(d) >= 1,
    decreases d.len(),
{
    if d.len() > 1 {
        assert(d.drop_last()[0] == d[0]);
        lemma_value_positive(d.drop_last());
    } else {
        assert(d.last() == d[0]);
        assert(d.drop_last().len() == 0);
        assert(value_of(d.drop_last()) == 0);
    }
}

/// Canonical digits are the digits of the number that they write.
pub proof fn lemma_digits_of_value(d: Seq<u8>)
    requires
        canonical_digits(d),
    ensures
        digits_of(value_of(d)) == d,
    decreases d.len(),
{
    let last = (d.last() - 48) as nat;
    assert(is_digit(d[d.len() - 1]));
    if d.len() == 1 {
        assert(d.drop_last().len() == 0);
        assert(value_of(d.drop_last()) == 0);
        assert(value_of(d) == last);
        assert(digits_of(last) =~= d);
    } else {
        let front = d.drop_last();
        assert(front[0] == d[0]);
        assert forall|i: int| 0 <= i < front.len() implies is_digit(#[trigger] front[i]) by {
            assert(front[i] == d[i]);
        }
        lemma_value_positive(front);
        lemma_digits_of_value(front);
        let n = value_of(d);
        assert(n == value_of(front) * 10 + last);
        assert(n / 10 == value_of(front));
        assert(n % 10 == last);
        assert(digits_of(n) =~= d);
    }
}

/// Digits write a number below ten to the power of their count; with one more digit
/// the number does not get smaller.
pub proof fn lemma_value_grows(d: Seq<u8>, k: int)
    requires
        all_digits(d),
        0 <= k <= d.len(),
    ensures
        value_of(d.take(k)) <= value_of(d),
    decreases d.len() - k,
{
    if k < d.len() {
        lemma_value_grows(d, k + 1);
        assert(d.take(k + 1).drop_last() =~= d.take(k));
        assert(is_digit(d[k]));
        assert(d.take(k + 1).last() == d[k]);
    } else {
        assert(d.take(k) =~= d);
    }
}

/// Appends the decimal digits of `n` to `out`.
pub fn write_decimal(n: u64, out: &mut Vec<u8>)
    ensures
        final(out)@ == old(out)@ + digits_of(n as nat),
    decreases n,
{
    if n >= 10 {
        write_decimal(n / 10, out);
    }
    let digit: u8 = (n % 10) as u8;
    out.push(48 + digit);
    assert(out@ =~= old(out)@ + digits_of(n as nat));
}

/// Reads the digits `buf[start..end]` as a number, if it fits in 64 bits.
pub fn read_decimal(buf: &[u8], start: usize, end: usize) -> (r: Option<u64>)
    requires
        start <= end <= buf@.len(),
        all_digits(buf@.subrange(start as int, end as int)),
    ensures
        match r {
            Some(n) => n == value_of(buf@.subrange(start as int, end as int)),
            None => value_of(buf@.subrange(start as int, end as int)) > u64::MAX,
        },
{
    let ghost text = buf@.subrange(start as int, end as int);
    let mut n: u64 = 0;
    let mut i: usize = start;
    assert(text.take(0).len() == 0);
    while i < end
        invariant
            start <= i <= end <= buf@.len(),
            text == buf@.subrange(start as int, end as int),
            all_digits(text),
            n == value_of(text.take(i - start)),
        decreases end - i,
    {
        let ghost k = i - start;
        proof {
            assert(text.take(k + 1).drop_last() =~= text.take(k));
            assert(text.take(k + 1).last() == text[k]);
            assert(text[k] == buf@[i as int]);
            assert(is_digit(text[k]));
            lemma_value_grows(text, k + 1);
        }
        let digit: u64 = (buf[i] - 48) as u64;
        if n > (u64::MAX - digit) / 10 {
            return None;
        }
        n = n * 10 + digit;
        i += 1;
    }
    assert(text.take(end - start) =~= text);
    Some(n)
}

} // verus!
