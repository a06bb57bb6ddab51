//! Little-endian integers and fixed-width text fields, as byte sequences.
//!
//! Every multi-byte number of a system file is little-endian. The
//! specification functions here say which bytes a number occupies; the
//! executable functions append exactly those bytes to a buffer.

use vstd::prelude::*;

verus! {

/// The `n` low-order bytes of `v`, least significant first.
pub open spec fn le_bytes(v: nat, n: nat) -> Seq<u8>
    decreases n,
{
    if n == 0 {
        Seq::empty()
    } else {
        seq![(v % 256) as u8] + le_bytes(v / 256, (n - 1) as nat)
    }
}

/// The unsigned number that has the same 32 bits as `v` in two's complement.
pub open spec fn i32_bits(v: i32) -> nat {
    if v >= 0 {
        v as nat
    } else {
        (v + 0x1_0000_0000) as nat
    }
}

/// The unsigned number that has the same 64 bits as `v` in two's complement.
pub open spec fn i64_bits(v: i64) -> nat {
    if v >= 0 {
        v as nat
    } else {
        (v + 0x1_0000_0000_0000_0000) as nat
    }
}

/// The four bytes of a little-endian `i32`.
pub open spec fn le_i32(v: i32) -> Seq<u8> {
    le_bytes(i32_bits(v), 4)
}

/// The eight bytes of a little-endian `u64`.
pub open spec fn le_u64(v: u64) -> Seq<u8> {
    le_bytes(v as nat, 8)
}

/// The eight bytes of a little-endian `i64`.
pub open spec fn le_i64(v: i64) -> Seq<u8> {
    le_bytes(i64_bits(v), 8)
}

/// The number that `bytes` spell, least significant byte first.
pub open spec fn le_value(bytes: Seq<u8>) -> nat
    decreases bytes.len(),
{
    if bytes.len() == 0 {
        0
    } else {
        bytes[0] as nat + 256 * le_value(bytes.drop_first())
    }
}

/// `n` copies of the byte `b`.
pub open spec fn repeat(b: u8, n: nat) -> Seq<u8> {
    Seq::new(n, |i: int| b)
}

/// The first `width` bytes of `text`, followed by as many ASCII spaces as
/// it takes to fill `width` bytes.
pub open spec fn padded(text: Seq<u8>, width: nat) -> Seq<u8> {
    if text.len() >= width {
        text.subrange(0, width as int)
    } else {
        text + repeat(0x20, (width - text.len()) as nat)
    }
}

/// The ASCII space.
pub const SPACE: u8 = 0x20;

/// Appending in two steps is appending the concatenation.
pub proof fn lemma_append_assoc(base: Seq<u8>, acc: Seq<u8>, piece: Seq<u8>)
    ensures
        (base + acc) + piece == base + (acc + piece),
{
    assert((base + acc) + piece =~= base + (acc + piece));
}

/// A number written on `n` bytes takes `n` bytes.
pub proof fn lemma_le_bytes_len(v: nat, n: nat)
    ensures
        le_bytes(v, n).len() == n,
    decreases n,
{
    if n > 0 {
        lemma_le_bytes_len(v / 256, (n - 1) as nat);
    }
}

/// A padded text is exactly as long as asked.
pub proof fn lemma_padded_len(text: Seq<u8>, width: nat)
    ensures
        padded(text, width).len() == width,
{
}

/// Reading back the `n` bytes of a number below `256^n` gives the number:
/// here for the eight bytes of a `u64`.
pub proof fn lemma_le_u64_roundtrip(v: u64)
    ensures
        le_u64(v).len() == 8,
        le_value(le_u64(v)) == v,
{
    lemma_le_bytes_len(v as nat, 8);
    lemma_le_value_of_le_bytes(v as nat, 8);
    assert((v as nat) / 0x1_0000_0000_0000_0000 == 0);
    assert(vstd::arithmetic::power::pow(256, 8) == 0x1_0000_0000_0000_0000) by {
        reveal_with_fuel(vstd::arithmetic::power::pow, 9);
    }
}

/// Reading back the four bytes of a number that is not negative gives the
/// number.
pub proof fn lemma_le_i32_roundtrip(v: i32)
    requires
        v >= 0,
    ensures
        le_i32(v).len() == 4,
        le_value(le_i32(v)) == v,
{
    lemma_le_bytes_len(v as nat, 4);
    lemma_le_value_of_le_bytes(v as nat, 4);
    assert(vstd::arithmetic::power::pow(256, 4) == 0x1_0000_0000) by {
        reveal_with_fuel(vstd::arithmetic::power::pow, 5);
    }
    assert((v as nat) % 0x1_0000_0000 == v as nat);
}

/// The bytes of `v` spell `v` modulo `256^n`.
pub proof fn lemma_le_value_of_le_bytes(v: nat, n: nat)
    ensures
        le_value(le_bytes(v, n)) == v % (vstd::arithmetic::power::pow(256, n) as nat),
    decreases n,
{
    let p = vstd::arithmetic::power::pow(256, n);
    reveal_with_fuel(vstd::arithmetic::power::pow, 2);
    if n == 0 {
        assert(p == 1);
    } else {
        let m = (n - 1) as nat;
        let q = vstd::arithmetic::power::pow(256, m);
        vstd::arithmetic::power::lemma_pow_positive(256, m);
        assert(p == 256 * q);
        lemma_le_value_of_le_bytes(v / 256, m);
        lemma_le_bytes_len(v / 256, m);
        let s = le_bytes(v, n);
        assert(s.drop_first() =~= le_bytes(v / 256, m));
        assert(s[0] == (v % 256) as u8);
        assert(le_value(s) == v % 256 + 256 * ((v / 256) % (q as nat)));
        vstd::arithmetic::div_mod::lemma_breakdown(v as int, 256, q);
        vstd::arithmetic::mul::lemma_mul_is_commutative(256, q);
    }
}

/// Appends `src` to `out`.
pub fn write_bytes(out: &mut Vec<u8>, src: &[u8])
    ensures
        final(out)@ == old(out)@ + src@,
{
    let mut i: usize = 0;
    while i < src.len()
        invariant
            i <= src.len(),
            out@ == old(out)@ + src@.subrange(0, i as int),
        decreases src.len() - i,
    {
        out.push(src[i]);
        i += 1;
    }
    assert(src@.subrange(0, src.len() as int) =~= src@);
}

/// Appends `n` copies of `b` to `out`.
pub fn write_repeat(out: &mut Vec<u8>, b: u8, n: usize)
    ensures
        final(out)@ == old(out)@ + repeat(b, n as nat),
{
    let mut i: usize = 0;
    while i < n
        invariant
            i <= n,
            out@ =~= old(out)@ + repeat(b, i as nat),
        decreases n - i,
    {
        out.push(b);
        i += 1;
    }
}

/// Appends `text`, cut or space-padded to exactly `width` bytes.
pub fn write_padded(out: &mut Vec<u8>, text: &[u8], width: usize)
    ensures
        final(out)@ == old(out)@ + padded(text@, width as nat),
{
    let take: usize = if text.len() < width { text.len() } else { width };
    let mut i: usize = 0;
    while i < take
        invariant
            i <= take,
            take <= text.len(),
            out@ == old(out)@ + text@.subrange(0, i as int),
        decreases take - i,
    {
        out.push(text[i]);
        i += 1;
    }
    if text.len() < width {
        assert(text@.subrange(0, take as int) =~= text@);
        write_repeat(out, SPACE, width - take);
        assert(out@ =~= old(out)@ + padded(text@, width as nat));
    }
}

/// Appends the four little-endian bytes of `v`.
pub fn write_le_u32(out: &mut Vec<u8>, v: u32)
    ensures
        final(out)@ == old(out)@ + le_bytes(v as nat, 4),
{
    let b0: u8 = (v % 256) as u8;
    let b1: u8 = ((v / 256) % 256) as u8;
    let b2: u8 = ((v / 65536) % 256) as u8;
    let b3: u8 = ((v / 16777216) % 256) as u8;
    out.push(b0);
    out.push(b1);
    out.push(b2);
    out.push(b3);
    proof {
        reveal_with_fuel(le_bytes, 5);
        assert(out@ =~= old(out)@ + le_bytes(v as nat, 4));
    }
}

/// Appends the four little-endian bytes of `v`, in two's complement.
pub fn write_le_i32(out: &mut Vec<u8>, v: i32)
    ensures
        final(out)@ == old(out)@ + le_i32(v),
{
    let u: u32 = if v >= 0 {
        v as u32
    } else {
        (v as i64 + 0x1_0000_0000i64) as u32
    };
    write_le_u32(out, u);
}

/// Appends the eight little-endian bytes of `v`.
pub fn write_le_u64(out: &mut Vec<u8>, v: u64)
    ensures
        final(out)@ == old(out)@ + le_u64(v),
{
    let mut rest: u64 = v;
    let mut i: usize = 0;
    let ghost start = out@;
    while i < 8
        invariant
            i <= 8,
            start == old(out)@,
            out@.len() == start.len() + i,
            out@ + le_bytes(rest as nat, (8 - i) as nat) =~= start + le_bytes(v as nat, 8),
        decreases 8 - i,
    {
        proof {
            reveal_with_fuel(le_bytes, 2);
        }
        let ghost before = out@;
        let b: u8 = (rest % 256) as u8;
        out.push(b);
        assert(before + le_bytes(rest as nat, (8 - i) as nat) =~= out@ + le_bytes(
            (rest / 256) as nat,
            (8 - i - 1) as nat,
        ));
        rest = rest / 256;
        i += 1;
    }
    assert(le_bytes(rest as nat, 0) =~= Seq::<u8>::empty());
    assert(out@ =~= out@ + le_bytes(rest as nat, 0));
}

/// Appends the eight little-endian bytes of `v`, in two's complement.
pub fn write_le_i64(out: &mut Vec<u8>, v: i64)
    ensures
        final(out)@ == old(out)@ + le_i64(v),
{
    let u: u64 = if v >= 0 {
        v as u64
    } else {
        (v as i128 + 0x1_0000_0000_0000_0000i128) as u64
    };
    write_le_u64(out, u);
}

} // verus!
