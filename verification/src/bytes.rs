//! Little-endian integers and length-prefixed fields in byte sequences.

use vstd::prelude::*;
use vstd::slice::*;

verus! {

/// The number that `s` spells, least significant byte first.
pub open spec fn le_value(s: Seq<u8>) -> nat
    decreases s.len(),
{
    if s.len() == 0 {
        0
    } else {
        s[0] as nat + 256 * le_value(s.skip(1))
    }
}

/// The low `width` bytes of `v`, least significant first.
pub open spec fn le_bytes(v: nat, width: nat) -> Seq<u8>
    decreases width,
{
    if width == 0 {
        Seq::empty()
    } else {
        seq![(v % 256) as u8] + le_bytes(v / 256, (width - 1) as nat)
    }
}

/// The number of values that `width` bytes can spell.
pub open spec fn byte_range(width: nat) -> nat
    decreases width,
{
    if width == 0 {
        1
    } else {
        256 * byte_range((width - 1) as nat)
    }
}

pub proof fn lemma_byte_range()
    ensures
        byte_range(1) == 0x100,
        byte_range(2) == 0x1_0000,
        byte_range(4) == 0x1_0000_0000,
        byte_range(8) == 0x1_0000_0000_0000_0000,
{
    reveal_with_fuel(byte_range, 9);
}

pub proof fn lemma_byte_range_monotonic(a: nat, b: nat)
    requires
        a <= b,
    ensures
        byte_range(a) <= byte_range(b),
        byte_range(a) > 0,
    decreases b,
{
    if a == b {
        if a > 0 {
            lemma_byte_range_monotonic((a - 1) as nat, (b - 1) as nat);
        }
    } else {
        lemma_byte_range_monotonic(a, (b - 1) as nat);
    }
}

pub proof fn lemma_le_bytes_len(v: nat, width: nat)
    ensures
        le_bytes(v, width).len() == width,
    decreases width,
{
    if width > 0 {
        lemma_le_bytes_len(v / 256, (width - 1) as nat);
    }
}

pub proof fn lemma_le_value_bound(s: Seq<u8>)
    ensures
        le_value(s) < byte_range(s.len()),
    decreases s.len(),
{
    if s.len() > 0 {
        lemma_le_value_bound(s.skip(1));
    }
}

/// A number written in enough bytes reads back as itself.
pub proof fn lemma_le_round_trip(v: nat, width: nat)
    requires
        v < byte_range(width),
    ensures
        le_value(le_bytes(v, width)) == v,
        le_bytes(v, width).len() == width,
    decreases width,
{
    lemma_le_bytes_len(v, width);
    if width > 0 {
        let rest = le_bytes(v / 256, (width - 1) as nat);
        assert(v / 256 < byte_range((width - 1) as nat));
        lemma_le_round_trip(v / 256, (width - 1) as nat);
        assert(le_bytes(v, width).skip(1) =~= rest);
    }
}

/// Bytes are the little-endian form of the number that they spell.
pub proof fn lemma_le_bytes_of_value(s: Seq<u8>)
    ensures
        le_bytes(le_value(s), s.len()) == s,
    decreases s.len(),
{
    if s.len() > 0 {
        let rest = le_value(s.skip(1));
        lemma_le_bytes_of_value(s.skip(1));
        assert(le_value(s) % 256 == s[0] as nat);
        assert(le_value(s) / 256 == rest);
        assert(le_bytes(le_value(s), s.len()) =~= s);
    } else {
        assert(le_bytes(le_value(s), s.len()) =~= s);
    }
}

/// The two's complement reading of a 64-bit number.
pub open spec fn i64_of(v: nat) -> int {
    if v < 0x8000_0000_0000_0000 {
        v as int
    } else {
        v - 0x1_0000_0000_0000_0000
    }
}

/// The 64-bit two's complement form of a signed number.
pub open spec fn i64_bits(v: int) -> nat {
    if v >= 0 {
        v as nat
    } else {
        (v + 0x1_0000_0000_0000_0000) as nat
    }
}

pub proof fn lemma_i64_round_trip(v: int)
    requires
        i64::MIN <= v <= i64::MAX,
    ensures
        i64_of(i64_bits(v)) == v,
        i64_bits(v) < byte_range(8),
{
    lemma_byte_range();
}

/// The signed number with the two's complement form `v`.
pub fn i64_from_bits(v: u64) -> (r: i64)
    ensures
        r == i64_of(v as nat),
{
    if v < 0x8000_0000_0000_0000 {
        v as i64
    } else {
        let back: u64 = 0xFFFF_FFFF_FFFF_FFFF - v;
        -1 - (back as i64)
    }
}

/// The two's complement form of `v`.
pub fn i64_to_bits(v: i64) -> (r: u64)
    ensures
        r == i64_bits(v as int),
{
    if v >= 0 {
        v as u64
    } else {
        let back: i64 = -1 - v;
        0xFFFF_FFFF_FFFF_FFFF - (back as u64)
    }
}

/// Appends the bytes of `other`.
pub fn push_bytes(out: &mut Vec<u8>, other: &[u8])
    ensures
        final(out)@ == old(out)@ + other@,
{
    out.extend_from_slice(other);
    assert(out@ =~= old(out)@ + other@);
}

/// Appends the low `width` bytes of `value`, least significant first.
pub fn push_le(out: &mut Vec<u8>, value: u64, width: usize)
    ensures
        final(out)@ == old(out)@ + le_bytes(value as nat, width as nat),
{
    let mut rest: u64 = value;
    let mut i: usize = 0;
    assert(out@ + le_bytes(value as nat, width as nat) =~= old(out)@ + le_bytes(
        value as nat,
        width as nat,
    ));
    while i < width
        invariant
            i <= width,
            out@ + le_bytes(rest as nat, (width - i) as nat) == old(out)@ + le_bytes(
                value as nat,
                width as nat,
            ),
        decreases width - i,
    {
        let ghost before = out@;
        let low: u8 = (rest % 256) as u8;
        out.push(low);
        proof {
            let tail = le_bytes((rest / 256) as nat, (width - i - 1) as nat);
            assert(le_bytes(rest as nat, (width - i) as nat) == seq![low] + tail);
            assert(out@ + tail =~= before + (seq![low] + tail));
        }
        rest = rest / 256;
        i = i + 1;
    }
    assert(out@ + Seq::<u8>::empty() =~= out@);
}

/// The number that `s` spells, least significant byte first.
pub fn le_to_u64(s: &[u8]) -> (r: u64)
    requires
        s@.len() <= 8,
    ensures
        r == le_value(s@),
{
    let mut acc: u64 = 0;
    let mut i: usize = s.len();
    assert(s@.skip(s@.len() as int) =~= Seq::<u8>::empty());
    while i > 0
        invariant
            i <= s@.len() <= 8,
            acc == le_value(s@.skip(i as int)),
        decreases i,
    {
        proof {
            let tail = s@.skip(i as int);
            let longer = s@.skip(i - 1);
            assert(longer.skip(1) =~= tail);
            lemma_le_value_bound(longer);
            lemma_byte_range_monotonic(longer.len(), 8);
            lemma_byte_range();
        }
        i = i - 1;
        acc = acc * 256 + s[i] as u64;
    }
    assert(s@.skip(0) =~= s@);
    acc
}

/// The first `n` bytes of `input` and the rest, if there are that many.
pub open spec fn split_bytes(input: Seq<u8>, n: nat) -> Option<(Seq<u8>, Seq<u8>)> {
    if n <= input.len() {
        Some((input.take(n as int), input.skip(n as int)))
    } else {
        None
    }
}

/// The number in the first `width` bytes of `input` and the rest, if there are that many.
pub open spec fn split_le(input: Seq<u8>, width: nat) -> Option<(nat, Seq<u8>)> {
    match split_bytes(input, width) {
        Some((head, rest)) => Some((le_value(head), rest)),
        None => None,
    }
}

/// The part of `input` behind its first `n` bytes.
pub fn skip_bytes(input: &[u8], n: usize) -> (r: &[u8])
    requires
        n <= input@.len(),
    ensures
        r@ == input@.skip(n as int),
{
    slice_subrange(input, n, input.len())
}

/// Splits `n` bytes off the front of `input`.
pub fn take_bytes(input: &[u8], n: usize) -> (r: Option<(&[u8], &[u8])>)
    ensures
        match r {
            Some((head, rest)) => split_bytes(input@, n as nat) == Some((head@, rest@)),
            None => split_bytes(input@, n as nat) is None,
        },
{
    if n <= input.len() {
        let head = slice_subrange(input, 0, n);
        let rest = skip_bytes(input, n);
        assert(head@ =~= input@.take(n as int));
        Some((head, rest))
    } else {
        None
    }
}

/// Splits a 16-bit number off the front of `input`.
pub fn take_u16(input: &[u8]) -> (r: Option<(u16, &[u8])>)
    ensures
        match r {
            Some((v, rest)) => split_le(input@, 2) == Some((v as nat, rest@)),
            None => split_le(input@, 2) is None,
        },
{
    match take_bytes(input, 2) {
        Some((head, rest)) => {
            let v: u64 = le_to_u64(head);
            proof {
                lemma_le_value_bound(head@);
                lemma_byte_range();
            }
            Some((v as u16, rest))
        },
        None => None,
    }
}

/// Splits a 32-bit number off the front of `input`.
pub fn take_u32(input: &[u8]) -> (r: Option<(u32, &[u8])>)
    ensures
        match r {
            Some((v, rest)) => split_le(input@, 4) == Some((v as nat, rest@)),
            None => split_le(input@, 4) is None,
        },
{
    match take_bytes(input, 4) {
        Some((head, rest)) => {
            let v: u64 = le_to_u64(head);
            proof {
                lemma_le_value_bound(head@);
                lemma_byte_range();
            }
            Some((v as u32, rest))
        },
        None => None,
    }
}

/// Splits a 64-bit number off the front of `input`.
pub fn take_u64(input: &[u8]) -> (r: Option<(u64, &[u8])>)
    ensures
        match r {
            Some((v, rest)) => split_le(input@, 8) == Some((v as nat, rest@)),
            None => split_le(input@, 8) is None,
        },
{
    match take_bytes(input, 8) {
        Some((head, rest)) => {
            let v: u64 = le_to_u64(head);
            Some((v, rest))
        },
        None => None,
    }
}

/// Joining sequences is associative.
pub proof fn lemma_join_assoc(a: Seq<u8>, b: Seq<u8>, c: Seq<u8>)
    ensures
        (a + b) + c == a + (b + c),
{
    assert((a + b) + c =~= a + (b + c));
}

/// Joining nothing changes nothing.
pub proof fn lemma_join_nothing(a: Seq<u8>)
    ensures
        a + Seq::<u8>::empty() == a,
{
    assert(a + Seq::<u8>::empty() =~= a);
}

/// What was put in front of a sequence is split off again.
pub proof fn lemma_split_bytes(head: Seq<u8>, rest: Seq<u8>)
    ensures
        split_bytes(head + rest, head.len()) == Some((head, rest)),
{
    assert((head + rest).take(head.len() as int) =~= head);
    assert((head + rest).skip(head.len() as int) =~= rest);
}

/// A number that was put in front of a sequence is split off again.
pub proof fn lemma_split_le(v: nat, width: nat, rest: Seq<u8>)
    requires
        v < byte_range(width),
    ensures
        split_le(le_bytes(v, width) + rest, width) == Some((v, rest)),
{
    lemma_le_round_trip(v, width);
    lemma_split_bytes(le_bytes(v, width), rest);
}

} // verus!
