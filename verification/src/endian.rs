//! Big-endian 32-bit integers, as the peer wire protocol frames them.

use byteorder::{BigEndian, ReadBytesExt, WriteBytesExt};
use vstd::prelude::*;

verus! {

/// The number that four bytes spell, most significant byte first.
pub open spec fn be_u32(s: Seq<u8>) -> int
    recommends
        s.len() == 4,
{
    s[0] * 0x100_0000 + s[1] * 0x1_0000 + s[2] * 0x100 + s[3]
}

/// The four bytes that spell `n`, most significant byte first.
pub open spec fn be_bytes(n: u32) -> Seq<u8> {
    seq![
        (n / 0x100_0000) as u8,
        ((n / 0x1_0000) % 0x100) as u8,
        ((n / 0x100) % 0x100) as u8,
        (n % 0x100) as u8,
    ]
}

/// Four bytes always spell a number that fits in 32 bits.
pub proof fn lemma_be_u32_range(s: Seq<u8>)
    requires
        s.len() == 4,
    ensures
        0 <= be_u32(s) <= u32::MAX,
{
}

/// Reading back the bytes of `n` gives `n`.
pub proof fn lemma_be_bytes_then_u32(n: u32)
    ensures
        be_bytes(n).len() == 4,
        be_u32(be_bytes(n)) == n,
{
}

/// Spelling the number that four bytes spell gives the same four bytes.
pub proof fn lemma_be_u32_then_bytes(s: Seq<u8>)
    requires
        s.len() == 4,
    ensures
        be_bytes(be_u32(s) as u32) == s,
{
    let n = be_u32(s) as u32;
    assert(n == be_u32(s));
    assert(be_bytes(n) =~= s);
}

/// Reads four bytes of `buf`, starting at `at`, as a big-endian number.
///
/// Trusted: calls `ReadBytesExt::read_u32::<BigEndian>` of `byteorder` on the tail of
/// `buf`. The contract claims that the call fails exactly when fewer than four bytes
/// are left, and that it otherwise returns the big-endian value of the next four.
#[verifier::external_body]
pub(crate) fn read_be_u32(buf: &[u8], at: usize) -> (r: Option<u32>)
    requires
        at <= buf@.len(),
    ensures
        at + 4 <= buf@.len() ==> r == Some(be_u32(buf@.subrange(at as int, at + 4)) as u32),
        at + 4 > buf@.len() ==> r is None,
{
    let mut rest = &buf[at..];
    rest.read_u32::<BigEndian>().ok()
}

/// Appends the four big-endian bytes of `n` to `buf`.
///
/// Trusted: calls `WriteBytesExt::write_u32::<BigEndian>` of `byteorder` on the
/// vector. The contract claims that exactly the four bytes of `n`, most significant
/// first, are appended, and that writing to a vector does not fail.
#[verifier::external_body]
pub(crate) fn write_be_u32(buf: &mut Vec<u8>, n: u32)
    ensures
        final(buf)@ == old(buf)@ + be_bytes(n),
{
    let _ = buf.write_u32::<BigEndian>(n);
}

} // verus!
