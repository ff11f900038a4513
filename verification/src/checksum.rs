//! CRC-32 checksums.

use crate::bytes::{
    le_bytes, le_value, lemma_byte_range, lemma_le_bytes_of_value, lemma_le_round_trip,
};
use vstd::prelude::*;

verus! {

/// One step of the division by the CRC-32 polynomial, whose coefficients stand lowest power first:
/// the remainder loses its lowest bit, and the polynomial is taken off where that bit was set.
pub open spec fn crc_shift(c: u32) -> u32 {
    if c & 1 == 1 {
        (c >> 1) ^ 0xedb8_8320
    } else {
        c >> 1
    }
}

/// The remainder `c` after one more byte.
pub open spec fn crc_byte(c: u32, byte: u8) -> u32 {
    let x = c ^ (byte as u32);
    crc_shift(crc_shift(crc_shift(crc_shift(crc_shift(crc_shift(crc_shift(crc_shift(x))))))))
}

/// The remainder after `bytes`; at first every bit is set.
pub open spec fn crc_remainder(bytes: Seq<u8>) -> u32
    decreases bytes.len(),
{
    if bytes.len() == 0 {
        0xffff_ffff
    } else {
        crc_byte(crc_remainder(bytes.drop_last()), bytes.last())
    }
}

/// The CRC-32 (IEEE 802.3) of `bytes`: the complement of the remainder.
#[verifier::opaque]
pub open spec fn crc32(bytes: Seq<u8>) -> u32 {
    crc_remainder(bytes) ^ 0xffff_ffff
}

/// Calls `crc32fast::hash`: the CRC-32 of the bytes, which that crate computes by the polynomial of
/// IEEE 802.3, many bytes at a time.
#[verifier::external_body]
pub(crate) fn checksum(bytes: &[u8]) -> (r: u32)
    ensures
        r == crc32(bytes@),
{
    crc32fast::hash(bytes)
}

/// A checksum in the making.
#[verifier::external_type_specification]
#[verifier::external_body]
pub struct ExHasher(crc32fast::Hasher);

/// The bytes that a checksum in the making has taken in.
pub uninterp spec fn hashed(h: crc32fast::Hasher) -> Seq<u8>;

/// Calls `crc32fast::Hasher::new`: a checksum that has taken in nothing.
#[verifier::external_body]
pub(crate) fn new_hasher() -> (h: crc32fast::Hasher)
    ensures
        hashed(h) == Seq::<u8>::empty(),
{
    crc32fast::Hasher::new()
}

/// Calls `crc32fast::Hasher::update`: the checksum takes in more bytes.
#[verifier::external_body]
pub(crate) fn update_hasher(h: &mut crc32fast::Hasher, bytes: &[u8])
    requires
        hashed(*old(h)).len() + bytes@.len() <= u64::MAX,
    ensures
        hashed(*final(h)) == hashed(*old(h)) + bytes@,
{
    h.update(bytes)
}

/// Calls `crc32fast::Hasher::finalize`: the CRC-32 of what the checksum has taken in.
#[verifier::external_body]
pub(crate) fn finish_hasher(h: crc32fast::Hasher) -> (r: u32)
    ensures
        r == crc32(hashed(h)),
{
    h.finalize()
}

// ---------------------------------------------------------------------------
// What a checksum notices
// ---------------------------------------------------------------------------

/// Whether `b` is `a` but for the byte at `i`.
pub open spec fn one_byte_apart(a: Seq<u8>, b: Seq<u8>, i: int) -> bool {
    &&& a.len() == b.len()
    &&& 0 <= i < a.len()
    &&& a[i] != b[i]
    &&& forall|k: int| 0 <= k < a.len() && k != i ==> #[trigger] a[k] == b[k]
}

proof fn lemma_shift_injective(a: u32, b: u32)
    ensures
        crc_shift(a) == crc_shift(b) ==> a == b,
{
    assert((if a & 1 == 1 {
        (a >> 1) ^ 0xedb8_8320u32
    } else {
        a >> 1
    }) == (if b & 1 == 1 {
        (b >> 1) ^ 0xedb8_8320u32
    } else {
        b >> 1
    }) ==> a == b) by (bit_vector);
}

proof fn lemma_byte_injective(c: u32, d: u32, x: u8, y: u8)
    requires
        crc_byte(c, x) == crc_byte(d, y),
    ensures
        x == y ==> c == d,
        c == d ==> x == y,
{
    let (p, q) = (c ^ (x as u32), d ^ (y as u32));
    let (p1, q1) = (crc_shift(p), crc_shift(q));
    let (p2, q2) = (crc_shift(p1), crc_shift(q1));
    let (p3, q3) = (crc_shift(p2), crc_shift(q2));
    let (p4, q4) = (crc_shift(p3), crc_shift(q3));
    let (p5, q5) = (crc_shift(p4), crc_shift(q4));
    let (p6, q6) = (crc_shift(p5), crc_shift(q5));
    let (p7, q7) = (crc_shift(p6), crc_shift(q6));
    lemma_shift_injective(p7, q7);
    lemma_shift_injective(p6, q6);
    lemma_shift_injective(p5, q5);
    lemma_shift_injective(p4, q4);
    lemma_shift_injective(p3, q3);
    lemma_shift_injective(p2, q2);
    lemma_shift_injective(p1, q1);
    lemma_shift_injective(p, q);
    assert(c ^ (x as u32) == d ^ (y as u32) && x == y ==> c == d) by (bit_vector);
    assert(c ^ (x as u32) == d ^ (y as u32) && c == d ==> x == y) by (bit_vector);
}

proof fn lemma_remainders_differ(a: Seq<u8>, b: Seq<u8>, i: int)
    requires
        one_byte_apart(a, b, i),
    ensures
        crc_remainder(a) != crc_remainder(b),
    decreases a.len(),
{
    let (c, d) = (crc_remainder(a.drop_last()), crc_remainder(b.drop_last()));
    if i == a.len() - 1 {
        assert(a.drop_last() =~= b.drop_last());
    } else {
        assert(one_byte_apart(a.drop_last(), b.drop_last(), i));
        lemma_remainders_differ(a.drop_last(), b.drop_last(), i);
        assert(a[a.len() - 1] == b[a.len() - 1]);
    }
    if crc_remainder(a) == crc_remainder(b) {
        lemma_byte_injective(c, d, a.last(), b.last());
    }
}

/// A checksum notices every change within one byte, that of a single bit among them.
pub proof fn changed_byte_changes_the_checksum(a: Seq<u8>, b: Seq<u8>, i: int)
    requires
        one_byte_apart(a, b, i),
    ensures
        crc32(a) != crc32(b),
{
    reveal(crc32);
    lemma_remainders_differ(a, b, i);
    let (x, y) = (crc_remainder(a), crc_remainder(b));
    assert(x ^ 0xffff_ffff == y ^ 0xffff_ffff ==> x == y) by (bit_vector);
}

/// Of bytes that end with the checksum of the others, no byte can be changed without that ceasing to
/// hold.
pub proof fn changed_byte_breaks_the_seal(bytes: Seq<u8>, b: Seq<u8>, i: int)
    requires
        one_byte_apart(bytes + le_bytes(crc32(bytes) as nat, 4), b, i),
    ensures
        le_value(b.subrange(b.len() - 4, b.len() as int)) != crc32(b.take(b.len() - 4)),
{
    let n = bytes.len() as int;
    let tail = le_bytes(crc32(bytes) as nat, 4);
    let whole = bytes + tail;
    let other = b.subrange(n, n + 4);
    lemma_byte_range();
    lemma_le_round_trip(crc32(bytes) as nat, 4);
    assert(b.len() == n + 4);
    if i < n {
        assert forall|k: int| 0 <= k < 4 implies #[trigger] other[k] == tail[k] by {
            assert(whole[n + k] == b[n + k]);
        }
        assert(other =~= tail);
        assert forall|k: int| 0 <= k < n && k != i implies #[trigger] bytes[k] == b.take(n)[k] by {
            assert(whole[k] == b[k]);
        }
        assert(whole[i] == bytes[i]);
        changed_byte_changes_the_checksum(bytes, b.take(n), i);
    } else {
        assert forall|k: int| 0 <= k < n implies #[trigger] bytes[k] == b.take(n)[k] by {
            assert(whole[k] == b[k]);
        }
        assert(bytes =~= b.take(n));
        assert(whole[i] == tail[i - n]);
        assert(other[i - n] != tail[i - n]);
        lemma_le_bytes_of_value(other);
    }
}

} // verus!
