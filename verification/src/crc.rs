//! CRC-32 with the reflected IEEE polynomial.

use vstd::prelude::*;

verus! {

pub const REFLECTED_POLYNOMIAL: u32 = 0xEDB88320;

/// One step of the division: a one shifted out is answered by the polynomial.
pub open spec fn crc_bit(c: u32) -> u32 {
    if c & 1 == 1 {
        (c >> 1) ^ 0xEDB88320
    } else {
        c >> 1
    }
}

/// `n` steps of the division.
pub open spec fn crc_bits(c: u32, n: nat) -> u32
    decreases n,
{
    if n == 0 {
        c
    } else {
        crc_bit(crc_bits(c, (n - 1) as nat))
    }
}

/// The register after one more byte: the byte enters at the low end, and eight
/// bits are divided out.
pub open spec fn crc_byte(c: u32, b: u8) -> u32 {
    crc_bits(c ^ (b as u32), 8)
}

/// The register after all of `data`.
pub open spec fn crc_update(c: u32, data: Seq<u8>) -> u32
    decreases data.len(),
{
    if data.len() == 0 {
        c
    } else {
        crc_byte(crc_update(c, data.drop_last()), data.last())
    }
}

/// The checksum of `data` with the register starting at `seed`.
pub open spec fn checksum_seeded(data: Seq<u8>, seed: u32) -> u32 {
    crc_update(seed, data) ^ 0xFFFF_FFFF
}

/// The checksum of `data`.
pub open spec fn checksum(data: Seq<u8>) -> u32 {
    checksum_seeded(data, 0xFFFF_FFFF)
}

/// What is left of a register after some of its bits were divided out: each step halves
/// it, and where the half is not whole the polynomial is added.
pub open spec fn divided(c: u32, n: nat) -> u32
    decreases n,
{
    if n == 0 {
        c
    } else {
        let d = divided(c, (n - 1) as nat);
        if d % 2 == 1 {
            (d / 2) ^ 0xEDB8_8320
        } else {
            d / 2
        }
    }
}

proof fn lemma_divided(c: u32, n: nat)
    ensures
        crc_bits(c, n) == divided(c, n),
    decreases n,
{
    if n > 0 {
        lemma_divided(c, (n - 1) as nat);
        let d = divided(c, (n - 1) as nat);
        lemma_low_bit(d);
    }
}

proof fn lemma_low_bit(d: u32)
    ensures
        d & 1 == 1 <==> d % 2 == 1,
        d >> 1 == d / 2,
        (d ^ 0xFFFF_FFFF) ^ 0xFFFF_FFFF == d,
        d ^ d == 0,
{
    assert((d & 1 == 1 <==> d % 2 == 1) && d >> 1 == d / 2 && (d ^ 0xFFFF_FFFF) ^ 0xFFFF_FFFF == d
        && d ^ d == 0)
        by (bit_vector);
}

/// The checksum of no bytes is 0, and that of one more byte follows from that of the bytes
/// before it: the byte is added to the register, and its eight bits are divided out.
pub proof fn lemma_checksum_step(data: Seq<u8>, b: u8, seed: u32)
    ensures
        checksum(Seq::empty()) == 0,
        checksum_seeded(Seq::empty(), seed) == seed ^ 0xFFFF_FFFF,
        checksum(data) == checksum_seeded(data, 0xFFFF_FFFF),
        checksum_seeded(data.push(b), seed) == divided(
            (checksum_seeded(data, seed) ^ 0xFFFF_FFFF) ^ (b as u32),
            8,
        ) ^ 0xFFFF_FFFF,
{
    assert(data.push(b).drop_last() =~= data);
    let r = crc_update(seed, data);
    lemma_low_bit(r);
    lemma_low_bit(0xFFFF_FFFF);
    lemma_divided(r ^ (b as u32), 8);
}

proof fn lemma_crc_bit_split(a: u32, b: u32)
    ensures
        a & 1 == 0 ==> crc_bit(a ^ b) == (a >> 1) ^ crc_bit(b),
{
    assert(a & 1 == 0 ==> (if (a ^ b) & 1 == 1 {
        ((a ^ b) >> 1) ^ 0xEDB88320
    } else {
        (a ^ b) >> 1
    }) == (a >> 1) ^ (if b & 1 == 1 {
        (b >> 1) ^ 0xEDB88320
    } else {
        b >> 1
    })) by (bit_vector);
}

/// Dividing out eight bits looks at the low byte alone; the rest moves down.
proof fn lemma_crc_low_byte(c: u32, n: nat)
    requires
        n <= 8,
    ensures
        crc_bits(c, n) == ((c & 0xFFFF_FF00) >> (n as u32)) ^ crc_bits(c & 0xFF, n),
    decreases n,
{
    if n == 0 {
        assert(c == ((c & 0xFFFF_FF00) >> 0u32) ^ (c & 0xFF)) by (bit_vector);
    } else {
        let m = (n - 1) as u32;
        lemma_crc_low_byte(c, (n - 1) as nat);
        let hi = (c & 0xFFFF_FF00) >> m;
        let lo = crc_bits(c & 0xFF, (n - 1) as nat);
        assert(hi & 1 == 0) by (bit_vector)
            requires
                hi == (c & 0xFFFF_FF00) >> m,
                m < 8,
        ;
        lemma_crc_bit_split(hi, lo);
        assert(hi >> 1 == (c & 0xFFFF_FF00) >> ((m + 1) as u32)) by (bit_vector)
            requires
                hi == (c & 0xFFFF_FF00) >> m,
                m < 8,
        ;
        assert(n as u32 == (m + 1) as u32);
    }
}

proof fn lemma_crc_byte_by_table(c: u32, b: u8)
    ensures
        crc_byte(c, b) == crc_bits((((c as u8) ^ b) as u32), 8) ^ (c >> 8),
{
    let x = c ^ (b as u32);
    lemma_crc_low_byte(x, 8);
    assert((x & 0xFFFF_FF00) >> 8u32 == c >> 8) by (bit_vector)
        requires
            x == c ^ (b as u32),
    ;
    assert(x & 0xFF == (((c as u8) ^ b) as u32)) by (bit_vector)
        requires
            x == c ^ (b as u32),
    ;
    let t = crc_bits(x & 0xFF, 8);
    assert((c >> 8) ^ t == t ^ (c >> 8)) by (bit_vector);
}

/// The checksum of every single byte's remainder.
fn make_lookup_table() -> (table: Vec<u32>)
    ensures
        table@.len() == 256,
        forall|i: int| 0 <= i < 256 ==> #[trigger] table@[i] == crc_bits(i as u32, 8),
{
    let mut table: Vec<u32> = Vec::new();
    let mut i: u32 = 0;
    while i < 256
        invariant
            i <= 256,
            table@.len() == i,
            forall|k: int| 0 <= k < i ==> #[trigger] table@[k] == crc_bits(k as u32, 8),
        decreases 256 - i,
    {
        let mut crc: u32 = i;
        let mut j: u32 = 0;
        while j < 8
            invariant
                j <= 8,
                crc == crc_bits(i, j as nat),
            decreases 8 - j,
        {
            if crc & 1 == 1 {
                crc = (crc >> 1) ^ REFLECTED_POLYNOMIAL;
            } else {
                crc = crc >> 1;
            }
            j += 1;
        }
        table.push(crc);
        i += 1;
    }
    table
}

/// The CRC-32 checksum of `data`.
pub fn crc32(data: &[u8]) -> (r: u32)
    ensures
        r == checksum(data@),
{
    crc32_seeded(data, 0xFFFF_FFFF)
}

/// The CRC-32 checksum of `data`, with the register starting at `seed`.
pub fn crc32_seeded(data: &[u8], seed: u32) -> (r: u32)
    ensures
        r == checksum_seeded(data@, seed),
{
    let table = make_lookup_table();
    let mut crc: u32 = seed;
    let mut i: usize = 0;
    while i < data.len()
        invariant
            i <= data@.len(),
            table@.len() == 256,
            forall|k: int| 0 <= k < 256 ==> #[trigger] table@[k] == crc_bits(k as u32, 8),
            crc == crc_update(seed, data@.take(i as int)),
        decreases data@.len() - i,
    {
        let byte = data[i];
        let index: usize = ((crc as u8) ^ byte) as usize;
        proof {
            lemma_crc_byte_by_table(crc, byte);
            assert(data@.take(i + 1).drop_last() =~= data@.take(i as int));
        }
        crc = table[index] ^ (crc >> 8);
        i += 1;
    }
    assert(data@.take(i as int) =~= data@);
    crc ^ 0xFFFF_FFFF
}

proof fn lemma_crc_bit_injective(a: u32, b: u32)
    requires
        crc_bit(a) == crc_bit(b),
    ensures
        a == b,
{
    assert((if a & 1 == 1 {
        (a >> 1) ^ 0xEDB88320
    } else {
        a >> 1
    }) == (if b & 1 == 1 {
        (b >> 1) ^ 0xEDB88320
    } else {
        b >> 1
    }) ==> a == b) by (bit_vector);
}

proof fn lemma_crc_bits_injective(a: u32, b: u32, n: nat)
    requires
        crc_bits(a, n) == crc_bits(b, n),
    ensures
        a == b,
    decreases n,
{
    if n > 0 {
        lemma_crc_bit_injective(crc_bits(a, (n - 1) as nat), crc_bits(b, (n - 1) as nat));
        lemma_crc_bits_injective(a, b, (n - 1) as nat);
    }
}

proof fn lemma_crc_update_injective(a: u32, b: u32, data: Seq<u8>)
    requires
        crc_update(a, data) == crc_update(b, data),
    ensures
        a == b,
    decreases data.len(),
{
    if data.len() > 0 {
        let x = crc_update(a, data.drop_last());
        let y = crc_update(b, data.drop_last());
        let d = data.last() as u32;
        lemma_crc_bits_injective(x ^ d, y ^ d, 8);
        assert(x ^ d == y ^ d ==> x == y) by (bit_vector);
        lemma_crc_update_injective(a, b, data.drop_last());
    }
}

proof fn lemma_crc_update_concat(c: u32, a: Seq<u8>, b: Seq<u8>)
    ensures
        crc_update(c, a + b) == crc_update(crc_update(c, a), b),
    decreases b.len(),
{
    if b.len() == 0 {
        assert(a + b =~= a);
    } else {
        lemma_crc_update_concat(c, a, b.drop_last());
        assert((a + b).drop_last() =~= a + b.drop_last());
    }
}

/// A change of exactly one byte changes the checksum.
pub proof fn lemma_single_byte_change_detected(data: Seq<u8>, i: int, b: u8)
    requires
        0 <= i < data.len(),
        b != data[i],
    ensures
        checksum(data.update(i, b)) != checksum(data),
{
    let changed = data.update(i, b);
    let head = data.take(i);
    let tail = data.skip(i + 1);
    let seed = 0xFFFF_FFFFu32;
    assert(data =~= head.push(data[i]) + tail);
    assert(changed =~= head.push(b) + tail);
    lemma_crc_update_concat(seed, head.push(data[i]), tail);
    lemma_crc_update_concat(seed, head.push(b), tail);
    assert(head.push(data[i]).drop_last() =~= head);
    assert(head.push(b).drop_last() =~= head);
    let x = crc_update(seed, data);
    let y = crc_update(seed, changed);
    assert(x ^ 0xFFFF_FFFF == y ^ 0xFFFF_FFFF ==> x == y) by (bit_vector);
    if x == y {
        let r = crc_update(seed, head);
        let c1 = crc_byte(r, data[i]);
        let c2 = crc_byte(r, b);
        lemma_crc_update_injective(c1, c2, tail);
        let d1 = data[i];
        lemma_crc_bits_injective(r ^ (d1 as u32), r ^ (b as u32), 8);
        assert(r ^ (d1 as u32) == r ^ (b as u32) ==> d1 == b) by (bit_vector);
    }
}

} // verus!
