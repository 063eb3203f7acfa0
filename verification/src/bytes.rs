//! Big-endian integers, as every file and frame of the store writes them.

use vstd::prelude::*;

verus! {

/// The two bytes of `x`, most significant first.
pub open spec fn be_u16(x: u16) -> Seq<u8> {
    seq![(x >> 8) as u8, x as u8]
}

/// The four bytes of `x`, most significant first.
pub open spec fn be_u32(x: u32) -> Seq<u8> {
    seq![(x >> 24) as u8, (x >> 16) as u8, (x >> 8) as u8, x as u8]
}

/// The eight bytes of `x`, most significant first.
pub open spec fn be_u64(x: u64) -> Seq<u8> {
    seq![
        (x >> 56) as u8,
        (x >> 48) as u8,
        (x >> 40) as u8,
        (x >> 32) as u8,
        (x >> 24) as u8,
        (x >> 16) as u8,
        (x >> 8) as u8,
        x as u8,
    ]
}

/// The integer whose bytes are `s[0]` and `s[1]`.
pub open spec fn from_be_u16(s: Seq<u8>) -> u16 {
    (s[0] as u16) << 8 | (s[1] as u16)
}

/// The integer whose bytes are the first four of `s`.
pub open spec fn from_be_u32(s: Seq<u8>) -> u32 {
    (s[0] as u32) << 24 | (s[1] as u32) << 16 | (s[2] as u32) << 8 | (s[3] as u32)
}

/// The integer whose bytes are the first eight of `s`.
pub open spec fn from_be_u64(s: Seq<u8>) -> u64 {
    (s[0] as u64) << 56 | (s[1] as u64) << 48 | (s[2] as u64) << 40 | (s[3] as u64) << 32 | (
    s[4] as u64) << 24 | (s[5] as u64) << 16 | (s[6] as u64) << 8 | (s[7] as u64)
}

/// Reading back the two bytes of an integer gives the integer.
pub proof fn lemma_be_u16_roundtrip(x: u16)
    ensures
        from_be_u16(be_u16(x)) == x,
        be_u16(x).len() == 2,
{
    assert(((x >> 8) as u8 as u16) << 8 | (x as u8 as u16) == x) by (bit_vector);
}

/// Reading back the four bytes of an integer gives the integer.
pub proof fn lemma_be_u32_roundtrip(x: u32)
    ensures
        from_be_u32(be_u32(x)) == x,
        be_u32(x).len() == 4,
{
    assert(((x >> 24) as u8 as u32) << 24 | ((x >> 16) as u8 as u32) << 16 | ((x >> 8) as u8 as u32)
        << 8 | (x as u8 as u32) == x) by (bit_vector);
}

/// Reading back the eight bytes of an integer gives the integer.
pub proof fn lemma_be_u64_roundtrip(x: u64)
    ensures
        from_be_u64(be_u64(x)) == x,
        be_u64(x).len() == 8,
{
    assert(((x >> 56) as u8 as u64) << 56 | ((x >> 48) as u8 as u64) << 48 | ((x >> 40) as u8 as u64)
        << 40 | ((x >> 32) as u8 as u64) << 32 | ((x >> 24) as u8 as u64) << 24 | ((
    x >> 16) as u8 as u64) << 16 | ((x >> 8) as u8 as u64) << 8 | (x as u8 as u64) == x)
        by (bit_vector);
}

/// The first byte of an integer counts the most: two bytes `a` and `b` stand for
/// `256 * a + b`, and an integer is written as the two bytes that stand for it.
pub proof fn lemma_be_u16_value(s: Seq<u8>, x: u16)
    ensures
        from_be_u16(s) == s[0] * 256 + s[1],
        be_u16(x).len() == 2,
        be_u16(x)[0] * 256 + be_u16(x)[1] == x,
{
    lemma_be_u16_roundtrip(x);
    lemma_u16_sum(s[0], s[1]);
    let t = be_u16(x);
    lemma_u16_sum(t[0], t[1]);
}

/// The first byte of an integer counts the most, and each after it 256 times less.
pub proof fn lemma_be_u32_value(s: Seq<u8>, x: u32)
    ensures
        from_be_u32(s) == s[0] * 0x100_0000 + s[1] * 0x1_0000 + s[2] * 0x100 + s[3],
        be_u32(x).len() == 4,
        be_u32(x)[0] * 0x100_0000 + be_u32(x)[1] * 0x1_0000 + be_u32(x)[2] * 0x100 + be_u32(x)[3]
            == x,
{
    lemma_be_u32_roundtrip(x);
    lemma_u32_sum(s[0], s[1], s[2], s[3]);
    let t = be_u32(x);
    lemma_u32_sum(t[0], t[1], t[2], t[3]);
}

/// The first byte of an integer counts the most, and each after it 256 times less.
pub proof fn lemma_be_u64_value(s: Seq<u8>, x: u64)
    ensures
        from_be_u64(s) == s[0] * 0x100_0000_0000_0000 + s[1] * 0x1_0000_0000_0000 + s[2]
            * 0x100_0000_0000 + s[3] * 0x1_0000_0000 + s[4] * 0x100_0000 + s[5] * 0x1_0000 + s[6]
            * 0x100 + s[7],
        be_u64(x).len() == 8,
        be_u64(x)[0] * 0x100_0000_0000_0000 + be_u64(x)[1] * 0x1_0000_0000_0000 + be_u64(x)[2]
            * 0x100_0000_0000 + be_u64(x)[3] * 0x1_0000_0000 + be_u64(x)[4] * 0x100_0000 + be_u64(
            x,
        )[5] * 0x1_0000 + be_u64(x)[6] * 0x100 + be_u64(x)[7] == x,
{
    lemma_be_u64_roundtrip(x);
    lemma_u64_sum(s[0], s[1], s[2], s[3], s[4], s[5], s[6], s[7]);
    let t = be_u64(x);
    lemma_u64_sum(t[0], t[1], t[2], t[3], t[4], t[5], t[6], t[7]);
}

proof fn lemma_u16_sum(a: u8, b: u8)
    ensures
        (a as u16) << 8 | (b as u16) == (a as u16) * 0x100 + (b as u16),
{
    assert((a as u16) << 8 | (b as u16) == (a as u16) * 0x100 + (b as u16)) by (bit_vector);
}

proof fn lemma_u32_sum(a: u8, b: u8, c: u8, d: u8)
    ensures
        (a as u32) << 24 | (b as u32) << 16 | (c as u32) << 8 | (d as u32) == (a as u32) * 0x1000000 + (b as u32) * 0x10000 + (c as u32) * 0x100 + (d as u32),
{
    assert((a as u32) << 24 | (b as u32) << 16 | (c as u32) << 8 | (d as u32) == (a as u32) * 0x1000000 + (b as u32) * 0x10000 + (c as u32) * 0x100 + (d as u32)) by (bit_vector);
}

proof fn lemma_u64_sum(a: u8, b: u8, c: u8, d: u8, e: u8, f: u8, g: u8, h: u8)
    ensures
        (a as u64) << 56 | (b as u64) << 48 | (c as u64) << 40 | (d as u64) << 32 | (e as u64) << 24 | (f as u64) << 16 | (g as u64) << 8 | (h as u64) == (a as u64) * 0x100000000000000 + (b as u64) * 0x1000000000000 + (c as u64) * 0x10000000000 + (d as u64) * 0x100000000 + (e as u64) * 0x1000000 + (f as u64) * 0x10000 + (g as u64) * 0x100 + (h as u64),
{
    assert((a as u64) << 56 | (b as u64) << 48 | (c as u64) << 40 | (d as u64) << 32 | (e as u64) << 24 | (f as u64) << 16 | (g as u64) << 8 | (h as u64) == (a as u64) * 0x100000000000000 + (b as u64) * 0x1000000000000 + (c as u64) * 0x10000000000 + (d as u64) * 0x100000000 + (e as u64) * 0x1000000 + (f as u64) * 0x10000 + (g as u64) * 0x100 + (h as u64)) by (bit_vector);
}

/// Writing four bytes that were read as an integer gives the bytes.
pub proof fn lemma_from_be_u32_roundtrip(s: Seq<u8>)
    requires
        s.len() == 4,
    ensures
        be_u32(from_be_u32(s)) == s,
{
    let (a, b, c, d) = (s[0], s[1], s[2], s[3]);
    let x = (a as u32) << 24 | (b as u32) << 16 | (c as u32) << 8 | (d as u32);
    assert((x >> 24) as u8 == a && (x >> 16) as u8 == b && (x >> 8) as u8 == c && x as u8 == d)
        by (bit_vector)
        requires
            x == (a as u32) << 24 | (b as u32) << 16 | (c as u32) << 8 | (d as u32),
    ;
    assert(be_u32(x) =~= s);
}

/// Writing eight bytes that were read as an integer gives the bytes.
pub proof fn lemma_from_be_u64_roundtrip(s: Seq<u8>)
    requires
        s.len() == 8,
    ensures
        be_u64(from_be_u64(s)) == s,
{
    let (a, b, c, d) = (s[0], s[1], s[2], s[3]);
    let (e, f, g, h) = (s[4], s[5], s[6], s[7]);
    let x = from_be_u64(s);
    assert((x >> 56) as u8 == a && (x >> 48) as u8 == b && (x >> 40) as u8 == c && (x >> 32) as u8
        == d && (x >> 24) as u8 == e && (x >> 16) as u8 == f && (x >> 8) as u8 == g && x as u8 == h)
        by (bit_vector)
        requires
            x == (a as u64) << 56 | (b as u64) << 48 | (c as u64) << 40 | (d as u64) << 32 | (
            e as u64) << 24 | (f as u64) << 16 | (g as u64) << 8 | (h as u64),
    ;
    assert(be_u64(x) =~= s);
}

/// Appends the two bytes of `x` to `buf`.
pub fn push_u16(buf: &mut Vec<u8>, x: u16)
    ensures
        final(buf)@ == old(buf)@ + be_u16(x),
{
    buf.push((x >> 8) as u8);
    buf.push(x as u8);
    assert(buf@ =~= old(buf)@ + be_u16(x));
}

/// Appends the four bytes of `x` to `buf`.
pub fn push_u32(buf: &mut Vec<u8>, x: u32)
    ensures
        final(buf)@ == old(buf)@ + be_u32(x),
{
    buf.push((x >> 24) as u8);
    buf.push((x >> 16) as u8);
    buf.push((x >> 8) as u8);
    buf.push(x as u8);
    assert(buf@ =~= old(buf)@ + be_u32(x));
}

/// Appends the eight bytes of `x` to `buf`.
pub fn push_u64(buf: &mut Vec<u8>, x: u64)
    ensures
        final(buf)@ == old(buf)@ + be_u64(x),
{
    buf.push((x >> 56) as u8);
    buf.push((x >> 48) as u8);
    buf.push((x >> 40) as u8);
    buf.push((x >> 32) as u8);
    buf.push((x >> 24) as u8);
    buf.push((x >> 16) as u8);
    buf.push((x >> 8) as u8);
    buf.push(x as u8);
    assert(buf@ =~= old(buf)@ + be_u64(x));
}

/// Appends all of `src` to `buf`.
pub fn push_all(buf: &mut Vec<u8>, src: &[u8])
    ensures
        final(buf)@ == old(buf)@ + src@,
{
    buf.extend_from_slice(src);
    assert(buf@ =~= old(buf)@ + src@);
}

/// The integer stored in the two bytes of `data` from `pos` on.
pub fn read_u16(data: &[u8], pos: usize) -> (x: u16)
    requires
        pos + 2 <= data@.len(),
    ensures
        x == from_be_u16(data@.subrange(pos as int, pos + 2)),
{
    (data[pos] as u16) << 8 | (data[pos + 1] as u16)
}

/// The integer stored in the four bytes of `data` from `pos` on.
pub fn read_u32(data: &[u8], pos: usize) -> (x: u32)
    requires
        pos + 4 <= data@.len(),
    ensures
        x == from_be_u32(data@.subrange(pos as int, pos + 4)),
{
    (data[pos] as u32) << 24 | (data[pos + 1] as u32) << 16 | (data[pos + 2] as u32) << 8 | (
    data[pos + 3] as u32)
}

/// The integer stored in the eight bytes of `data` from `pos` on.
pub fn read_u64(data: &[u8], pos: usize) -> (x: u64)
    requires
        pos + 8 <= data@.len(),
    ensures
        x == from_be_u64(data@.subrange(pos as int, pos + 8)),
{
    (data[pos] as u64) << 56 | (data[pos + 1] as u64) << 48 | (data[pos + 2] as u64) << 40 | (
    data[pos + 3] as u64) << 32 | (data[pos + 4] as u64) << 24 | (data[pos + 5] as u64) << 16 | (
    data[pos + 6] as u64) << 8 | (data[pos + 7] as u64)
}

/// A copy of the bytes of `data` from `start` up to `end`.
pub fn copy_range(data: &[u8], start: usize, end: usize) -> (out: Vec<u8>)
    requires
        start <= end <= data@.len(),
    ensures
        out@ == data@.subrange(start as int, end as int),
{
    let mut out: Vec<u8> = Vec::new();
    let mut i: usize = start;
    while i < end
        invariant
            start <= i <= end <= data@.len(),
            out@ == data@.subrange(start as int, i as int),
        decreases end - i,
    {
        out.push(data[i]);
        i += 1;
        assert(out@ =~= data@.subrange(start as int, i as int));
    }
    out
}

} // verus!
