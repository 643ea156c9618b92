//! Bitfields: the pieces that a peer advertises, one bit each, the first piece in
//! the highest bit of the first byte.

use crate::error::{ApplicationError, Fault};
use std::collections::HashSet;
use vstd::prelude::*;

verus! {

broadcast use vstd::std_specs::hash::group_hash_axioms;

/// The value of bit `k` of a byte, counted from the highest bit.
pub open spec fn weight(k: int) -> int {
    if k == 0 {
        128
    } else if k == 1 {
        64
    } else if k == 2 {
        32
    } else if k == 3 {
        16
    } else if k == 4 {
        8
    } else if k == 5 {
        4
    } else if k == 6 {
        2
    } else {
        1
    }
}

/// Whether bit `k` of `byte` is set, counted from the highest bit.
pub open spec fn bit_of(byte: u8, k: int) -> bool {
    (byte as int / weight(k)) % 2 == 1
}

/// Whether the bitfield advertises piece `i`: bit `i % 8` of byte `i / 8` is set.
pub open spec fn has_bit(bits: Seq<u8>, i: int) -> bool {
    0 <= i < 8 * bits.len() && bit_of(bits[i / 8], i % 8)
}

/// The pieces that the bitfield advertises.
pub open spec fn advertised(bits: Seq<u8>) -> Set<usize> {
    Set::new(|i: usize| has_bit(bits, i as int))
}

/// Whether every bit that is set stands for one of `count` pieces: the bits beyond
/// are padding and must be zero.
pub open spec fn in_range(bits: Seq<u8>, count: int) -> bool {
    forall|i: int| #[trigger] has_bit(bits, i) ==> i < count
}

/// Whether bit `k` of `byte` is set, counted from the highest bit.
pub fn test_bit(byte: u8, k: usize) -> (b: bool)
    requires
        k < 8,
    ensures
        b == bit_of(byte, k as int),
{
    let table: [u8; 8] = [128, 64, 32, 16, 8, 4, 2, 1];
    (byte / table[k]) % 2 == 1
}

/// A byte of which no bit is set is zero.
proof fn lemma_zero_byte(byte: u8)
    ensures
        byte == 0 <==> (forall|k: int| 0 <= k < 8 ==> !#[trigger] bit_of(byte, k)),
{
    if byte != 0 {
        if forall|k: int| 0 <= k < 8 ==> !#[trigger] bit_of(byte, k) {
            assert(!bit_of(byte, 0));
            assert(!bit_of(byte, 1));
            assert(!bit_of(byte, 2));
            assert(!bit_of(byte, 3));
            assert(!bit_of(byte, 4));
            assert(!bit_of(byte, 5));
            assert(!bit_of(byte, 6));
            assert(!bit_of(byte, 7));
            assert(false);
        }
    }
}

/// Reads the bitfield of a peer for a torrent of `count` pieces.
///
/// Returns the set of pieces whose bit is set. A bit that is set beyond the last
/// piece makes the bitfield out of range.
pub fn bitfield_pieces(bits: &[u8], count: usize) -> (r: Result<HashSet<usize>, ApplicationError>)
    ensures
        match r {
            Ok(set) => in_range(bits@, count as int) && set@ == advertised(bits@),
            Err(e) => !in_range(bits@, count as int) && e == ApplicationError::ParserError(
                Fault::BitfieldOutOfRange,
            ),
        },
{
    let mut set: HashSet<usize> = HashSet::new();
    let mut j: usize = 0;
    while j < bits.len()
        invariant
            j <= bits@.len(),
            forall|i: int| 0 <= i < 8 * j && #[trigger] has_bit(bits@, i) ==> i < count,
            forall|i: usize| set@.contains(i) <==> i < 8 * j && has_bit(bits@, i as int),
        decreases bits@.len() - j,
    {
        let byte: u8 = bits[j];
        if j > (usize::MAX - 7) / 8 {
            if byte != 0 {
                proof {
                    lemma_zero_byte(byte);
                    let k = choose|k: int| 0 <= k < 8 && #[trigger] bit_of(byte, k);
                    assert(has_bit(bits@, 8 * j + k));
                }
                return Err(ApplicationError::ParserError(Fault::BitfieldOutOfRange));
            }
            proof {
                lemma_zero_byte(byte);
                assert forall|i: int| 8 * j <= i < 8 * (j + 1) implies !has_bit(bits@, i) by {
                    assert(!bit_of(byte, i % 8));
                }
            }
        } else {
            let mut k: usize = 0;
            while k < 8
                invariant
                    k <= 8,
                    j < bits@.len(),
                    j <= (usize::MAX - 7) / 8,
                    byte == bits@[j as int],
                    forall|i: int| 0 <= i < 8 * j + k && #[trigger] has_bit(bits@, i) ==> i < count,
                    forall|i: usize|
                        set@.contains(i) <==> i < 8 * j + k && has_bit(bits@, i as int),
                decreases 8 - k,
            {
                let index: usize = 8 * j + k;
                if test_bit(byte, k) {
                    assert(has_bit(bits@, index as int));
                    if index >= count {
                        return Err(ApplicationError::ParserError(Fault::BitfieldOutOfRange));
                    }
                    set.insert(index);
                } else {
                    assert(!has_bit(bits@, index as int));
                }
                k += 1;
            }
        }
        j += 1;
    }
    assert(set@ =~= advertised(bits@));
    Ok(set)
}

} // verus!
