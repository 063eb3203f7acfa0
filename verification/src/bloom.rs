//! Bloom filters over strings.

use vstd::prelude::*;
use vstd::utf8::encode_utf8;

use crate::crc::{checksum, checksum_seeded, crc32, crc32_seeded};

verus! {

const BLOOM_SALT: u32 = 0x517CC1B7;

/// A filter that never forgets a key that was put in, and that may take a few
/// others for one.
pub struct BloomFilter {
    bits: Vec<u8>,
    hash_count: u32,
}

/// What a filter holds: its size in bytes, the number of its hash functions, and
/// the numbers of the bits that are set.
#[verifier::ext_equal]
pub struct BloomView {
    pub size: nat,
    pub hash_count: u32,
    pub bits: Set<int>,
}

/// Whether bit `j` of `bytes` is set.
pub open spec fn bit_set(bytes: Seq<u8>, j: int) -> bool {
    bytes[j / 8] & (1u8 << ((j % 8) as u8)) != 0
}

/// The bit that the hash function `i` gives for `key` in a filter of `size` bytes.
pub open spec fn slot(key: Seq<char>, i: u32, size: nat) -> int {
    let h1 = checksum(encode_utf8(key));
    let h2 = checksum_seeded(encode_utf8(key), 0x517CC1B7);
    h1.wrapping_add(i.wrapping_mul(h2)) as int % (size * 8) as int
}

impl BloomView {
    /// Whether every bit of `key` is set.
    pub open spec fn might_contain(self, key: Seq<char>) -> bool {
        forall|i: u32| i < self.hash_count ==> self.bits.contains(#[trigger] slot(key, i, self.size))
    }

    /// The filter with the bits of `key` set.
    pub open spec fn insert(self, key: Seq<char>) -> BloomView {
        BloomView {
            bits: Set::new(
                |j: int|
                    self.bits.contains(j) || exists|i: u32|
                        i < self.hash_count && j == #[trigger] slot(key, i, self.size),
            ),
            ..self
        }
    }

    /// The filter with the bits of all `keys` set.
    pub open spec fn insert_all(self, keys: Seq<Seq<char>>) -> BloomView
        decreases keys.len(),
    {
        if keys.len() == 0 {
            self
        } else {
            self.insert_all(keys.drop_last()).insert(keys.last())
        }
    }

    /// A filter without a single bit set.
    pub open spec fn empty(size: nat, hash_count: u32) -> BloomView {
        BloomView { size, hash_count, bits: Set::empty() }
    }

    /// Whether the filter has a bit for each of its hash functions.
    pub open spec fn usable(self) -> bool {
        self.hash_count > 0 ==> 0 < self.size && self.size * 8 <= usize::MAX
    }
}

/// A filter keeps its size and its hash functions.
pub proof fn lemma_insert_all_shape(f: BloomView, keys: Seq<Seq<char>>)
    ensures
        f.insert_all(keys).size == f.size,
        f.insert_all(keys).hash_count == f.hash_count,
        f.bits.subset_of(f.insert_all(keys).bits),
    decreases keys.len(),
{
    if keys.len() > 0 {
        lemma_insert_all_shape(f, keys.drop_last());
    }
}

/// The bit that the number `i` gives for two checksums of a key: the second is added `i`
/// times to the first, in 32 bits, and the bits of the filter are counted round.
pub open spec fn spread(h1: u32, h2: u32, i: u32, size: nat) -> int {
    (h1 as int + i as int * h2 as int) % 0x1_0000_0000 % (8 * size as int)
}

proof fn lemma_spread(key: Seq<char>, i: u32, size: nat)
    requires
        size > 0,
    ensures
        slot(key, i, size) == spread(
            checksum(encode_utf8(key)),
            checksum_seeded(encode_utf8(key), 0x517C_C1B7),
            i,
            size,
        ),
{
    let h1 = checksum(encode_utf8(key));
    let h2 = checksum_seeded(encode_utf8(key), 0x517C_C1B7);
    let p = i as int * h2 as int;
    assert(p >= 0) by (nonlinear_arith)
        requires
            p == i as int * h2 as int,
            i >= 0,
            h2 >= 0,
    ;
    assert(i.wrapping_mul(h2) as int == p % 0x1_0000_0000);
    assert(h1.wrapping_add(i.wrapping_mul(h2)) as int == (h1 as int + p % 0x1_0000_0000)
        % 0x1_0000_0000);
    vstd::arithmetic::div_mod::lemma_add_mod_noop(h1 as int, p, 0x1_0000_0000);
    assert(h1 as int % 0x1_0000_0000 == h1 as int);
}

/// A filter takes a key for one that was put in just where all bits of the key are set, and
/// putting a key in sets those bits and no other. The bits of a key come from two checksums
/// of its bytes, as many of them as the filter has hash functions; an empty filter denies
/// every key.
pub proof fn lemma_bits_of_key(f: BloomView, key: Seq<char>, j: int)
    requires
        f.size > 0,
    ensures
        ({
            let h1 = checksum(encode_utf8(key));
            let h2 = checksum_seeded(encode_utf8(key), 0x517C_C1B7);
            &&& f.insert(key).bits.contains(j) <==> f.bits.contains(j) || exists|i: u32|
                i < f.hash_count && j == #[trigger] spread(h1, h2, i, f.size)
            &&& f.might_contain(key) <==> forall|i: u32|
                i < f.hash_count ==> f.bits.contains(#[trigger] spread(h1, h2, i, f.size))
            &&& f.insert(key).size == f.size && f.insert(key).hash_count == f.hash_count
        }),
        f.hash_count > 0 ==> !BloomView::empty(f.size, f.hash_count).might_contain(key),
        !BloomView::empty(f.size, f.hash_count).bits.contains(j),
        f.insert_all(Seq::empty()) == f,
{
    let h1 = checksum(encode_utf8(key));
    let h2 = checksum_seeded(encode_utf8(key), 0x517C_C1B7);
    assert forall|i: u32|
        #![trigger slot(key, i, f.size)]
        #![trigger spread(h1, h2, i, f.size)]
        slot(key, i, f.size) == spread(h1, h2, i, f.size) by {
        lemma_spread(key, i, f.size);
    }
    if f.hash_count > 0 {
        let e = BloomView::empty(f.size, f.hash_count);
        assert(!e.bits.contains(slot(key, 0, e.size)));
    }
}

/// There are no false negatives: a filter might contain every key that was put in,
/// whatever was put in before or after it.
pub proof fn lemma_no_false_negatives(f: BloomView, keys: Seq<Seq<char>>, n: int)
    requires
        0 <= n < keys.len(),
    ensures
        f.insert_all(keys).might_contain(keys[n]),
    decreases keys.len(),
{
    let before = f.insert_all(keys.drop_last());
    let after = before.insert(keys.last());
    lemma_insert_all_shape(f, keys.drop_last());
    if n < keys.len() - 1 {
        lemma_no_false_negatives(f, keys.drop_last(), n);
    }
    assert forall|i: u32| i < after.hash_count implies after.bits.contains(
        #[trigger] slot(keys[n], i, after.size),
    ) by {
        if n < keys.len() - 1 {
            assert(before.bits.contains(slot(keys.drop_last()[n], i, before.size)));
        }
    }
}

impl View for BloomFilter {
    type V = BloomView;

    closed spec fn view(&self) -> BloomView {
        BloomView {
            size: self.bits@.len(),
            hash_count: self.hash_count,
            bits: Set::new(|j: int| 0 <= j < self.bits@.len() * 8 && bit_set(self.bits@, j)),
        }
    }
}

impl BloomFilter {
    /// An empty filter of `size` bytes.
    pub fn new(size: usize, hash_count: u32) -> (f: Self)
        ensures
            f@ == BloomView::empty(size as nat, hash_count),
    {
        let bits: Vec<u8> = vec![0u8; size];
        let f = BloomFilter { bits, hash_count };
        assert(forall|x: u8| 0u8 & x == 0) by (bit_vector);
        assert(f@.bits =~= Set::<int>::empty());
        f
    }

    fn bit_index(h1: u32, h2: u32, i: u32, len: usize) -> (j: usize)
        requires
            0 < len,
            len * 8 <= usize::MAX,
        ensures
            j == h1.wrapping_add(i.wrapping_mul(h2)) as int % (len * 8) as int,
            j < len * 8,
    {
        let hash_i: u32 = h1.wrapping_add(i.wrapping_mul(h2));
        hash_i as usize % (len * 8)
    }

    /// Whether `key` may have been put in. It is `true` for every key that was.
    pub fn might_contain(&self, key: &str) -> (r: bool)
        requires
            self@.usable(),
        ensures
            r == self@.might_contain(key@),
    {
        let h1 = crc32(key.as_bytes());
        let h2 = crc32_seeded(key.as_bytes(), BLOOM_SALT);
        for i in 0..self.hash_count
            invariant
                self@.usable(),
                h1 == checksum(encode_utf8(key@)),
                h2 == checksum_seeded(encode_utf8(key@), 0x517CC1B7),
                forall|k: u32| k < i ==> self@.bits.contains(#[trigger] slot(key@, k, self@.size)),
        {
            let j = Self::bit_index(h1, h2, i, self.bits.len());
            assert(j == slot(key@, i, self@.size));
            let offset = (j % 8) as u8;
            if self.bits[j / 8] & (1u8 << offset) == 0 {
                assert(!self@.bits.contains(slot(key@, i, self@.size)));
                return false;
            }
        }
        true
    }

    /// Puts `key` in.
    pub fn insert(&mut self, key: &str)
        requires
            old(self)@.usable(),
        ensures
            final(self)@ == old(self)@.insert(key@),
    {
        let h1 = crc32(key.as_bytes());
        let h2 = crc32_seeded(key.as_bytes(), BLOOM_SALT);
        let count = self.hash_count;
        for i in 0..count
            invariant
                old(self)@.usable(),
                self@.size == old(self)@.size,
                self@.hash_count == old(self)@.hash_count,
                count == self.hash_count,
                h1 == checksum(encode_utf8(key@)),
                h2 == checksum_seeded(encode_utf8(key@), 0x517CC1B7),
                forall|j: int| #[trigger]
                    self@.bits.contains(j) <==> old(self)@.bits.contains(j) || exists|k: u32|
                        k < i && j == #[trigger] slot(key@, k, old(self)@.size),
        {
            let ghost before = self.bits@;
            let ghost was = self@;
            let j = Self::bit_index(h1, h2, i, self.bits.len());
            assert(j == slot(key@, i, self@.size));
            let b: usize = j / 8;
            let offset = (j % 8) as u8;
            let x: u8 = self.bits[b];
            let y: u8 = x | (1u8 << offset);
            self.bits.set(b, y);
            assert forall|k: int| #[trigger] self@.bits.contains(k) <==> was.bits.contains(k) || k
                == j by {
                if 0 <= k < before.len() * 8 && k / 8 == b {
                    let p = (k % 8) as u8;
                    assert((y & (1u8 << p) != 0) == (x & (1u8 << p) != 0 || offset == p))
                        by (bit_vector)
                        requires
                            y == x | (1u8 << offset),
                            offset < 8,
                            p < 8,
                    ;
                }
            }
        }
        assert(self@.bits =~= old(self)@.insert(key@).bits);
    }
}

} // verus!
