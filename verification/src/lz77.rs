//! LZ77 compression: literals, and matches against the last 32 KiB.
//!
//! A compressed stream is a run of tokens. A literal is a zero byte and the
//! byte itself. A match is a one byte, then the distance back and the length,
//! each as a variable-length integer.

use vstd::prelude::*;

verus! {

pub const SEARCH_WINDOW: usize = 32_768;

pub const LOOKAHEAD_WINDOW: usize = 258;

pub const MAX_CHAIN: usize = 128;

pub const HASH_SIZE: usize = 32_768;

pub const H_SHIFT: u32 = 5;

/// The compressor.
pub struct Lz77;

/// A match: how far back it starts, and how long it is.
struct Match {
    offset: usize,
    len: usize,
}

/// The rolling hash after one more byte.
pub open spec fn roll(prev: u32, byte: u8) -> u32 {
    ((prev << 5u32) ^ (byte as u32)) & 32767
}

/// Three bytes that are fed make the rolling hash forget what came before them, and it
/// is always less than the size of the table.
pub proof fn lemma_roll_forgets(s: u32, t: u32, a: u8, b: u8, c: u8)
    ensures
        roll(roll(roll(s, a), b), c) == roll(roll(roll(t, a), b), c),
        roll(s, a) < HASH_SIZE,
{
    let x = a as u32;
    let y = b as u32;
    let z = c as u32;
    assert(((((((((s << 5u32) ^ x) & 32767) << 5u32) ^ y) & 32767) << 5u32) ^ z) & 32767 == (((((((
    (t << 5u32) ^ x) & 32767) << 5u32) ^ y) & 32767) << 5u32) ^ z) & 32767) by (bit_vector);
    assert(((s << 5u32) ^ x) & 32767 < 32768) by (bit_vector);
}

/// The rolling hash takes up ten bits of what it was, and the byte that is fed.
pub proof fn lemma_roll(prev: u32, byte: u8)
    ensures
        roll(prev, byte) == ((prev % 1024) * 32) as u32 ^ (byte as u32),
{
    let x = byte as u32;
    assert(x < 256 ==> ((prev << 5u32) ^ x) & 32767 == ((prev % 1024) * 32) as u32 ^ x)
        by (bit_vector);
}

/// The rolling hash after all of `s`, from zero.
pub open spec fn roll_all(s: Seq<u8>) -> u32
    decreases s.len(),
{
    if s.len() == 0 {
        0
    } else {
        roll(roll_all(s.drop_last()), s.last())
    }
}

/// The hash of the three bytes at `p`.
pub open spec fn trigram(data: Seq<u8>, p: int) -> u32 {
    roll(roll(roll(0, data[p]), data[p + 1]), data[p + 2])
}

proof fn lemma_roll_is_trigram(data: Seq<u8>, p: int)
    requires
        0 <= p,
        p + 3 <= data.len(),
    ensures
        roll_all(data.take(p + 3)) == trigram(data, p),
        trigram(data, p) < 32768,
{
    reveal_with_fuel(roll_all, 4);
    let s3 = data.take(p + 3);
    let s2 = data.take(p + 2);
    let s1 = data.take(p + 1);
    assert(s3.drop_last() =~= s2);
    assert(s2.drop_last() =~= s1);
    assert(s1.drop_last() =~= data.take(p));
    let x = roll_all(data.take(p));
    let (a, b, c) = (data[p], data[p + 1], data[p + 2]);
    assert(((((((x << 5u32) ^ (a as u32)) & 32767) << 5u32 ^ (b as u32)) & 32767) << 5u32 ^ (
    c as u32)) & 32767 == ((((((0u32 << 5u32) ^ (a as u32)) & 32767) << 5u32 ^ (b as u32)) & 32767)
        << 5u32 ^ (c as u32)) & 32767) by (bit_vector);
    let y = roll(roll(0, a), b);
    assert(((y << 5u32) ^ (c as u32)) & 32767 < 32768) by (bit_vector);
}

/// The last position before `n` at which three bytes hash to `h`.
pub open spec fn last_with_hash(data: Seq<u8>, h: u32, n: int) -> Option<int>
    decreases n,
{
    if n <= 0 {
        None
    } else if n + 2 <= data.len() && trigram(data, n - 1) == h {
        Some(n - 1)
    } else {
        last_with_hash(data, h, n - 1)
    }
}

proof fn lemma_last_with_hash(data: Seq<u8>, h: u32, n: int)
    ensures
        last_with_hash(data, h, n) is Some ==> {
            let p = last_with_hash(data, h, n)->0;
            0 <= p < n && p + 3 <= data.len() && trigram(data, p) == h
        },
    decreases n,
{
    if n > 0 {
        lemma_last_with_hash(data, h, n - 1);
    }
}

/// How many of the bytes at `c` and at `pos` agree, beyond the first `k`, within
/// the lookahead.
pub open spec fn match_len(data: Seq<u8>, c: int, pos: int, k: nat) -> nat
    decreases data.len() - pos - k,
{
    if k < LOOKAHEAD_WINDOW && pos + k < data.len() && data[c + k] == data[pos + k] {
        match_len(data, c, pos, k + 1)
    } else {
        k
    }
}

/// The best of `best` and the matches at `candidate` and at the older positions
/// with its hash: the longest, and of equally long ones the nearest. At most
/// `budget` candidates are tried, and none outside the search window.
pub open spec fn best_of(
    data: Seq<u8>,
    pos: int,
    candidate: Option<int>,
    budget: nat,
    best: (int, nat),
) -> (int, nat)
    decreases budget,
{
    match candidate {
        None => best,
        Some(c) => if budget == 0 || c < pos - SEARCH_WINDOW {
            best
        } else {
            let l = match_len(data, c, pos, 0);
            let better = if l > best.1 {
                (pos - c, l)
            } else {
                best
            };
            best_of(
                data,
                pos,
                last_with_hash(data, trigram(data, c), c),
                (budget - 1) as nat,
                better,
            )
        },
    }
}

/// The match that the compressor takes at `pos`, as distance and length: none
/// where it would be shorter than three bytes.
pub open spec fn best_match(data: Seq<u8>, pos: int) -> Option<(int, nat)> {
    if pos + 3 > data.len() {
        None
    } else {
        let b = best_of(
            data,
            pos,
            last_with_hash(data, trigram(data, pos), pos),
            MAX_CHAIN as nat,
            (0, 0),
        );
        if b.1 < 3 {
            None
        } else {
            Some(b)
        }
    }
}

/// An integer in groups of seven bits, lowest first; the high bit of a byte says
/// that more follow.
pub open spec fn varint(v: u32) -> Seq<u8>
    decreases v,
{
    if v >= 128 {
        proof {
            assert(v >= 128 ==> v >> 7u32 < v) by (bit_vector);
        }
        seq![((v & 127) | 128) as u8] + varint(v >> 7u32)
    } else {
        seq![(v & 127) as u8]
    }
}

/// The compressed form of `data` from `pos` on.
pub open spec fn compressed_from(data: Seq<u8>, pos: int) -> Seq<u8>
    decreases data.len() - pos,
{
    if pos >= data.len() {
        Seq::empty()
    } else {
        match best_match(data, pos) {
            Some((offset, len)) => if 0 < len && pos + len <= data.len() {
                seq![1u8] + varint(offset as u32) + varint(len as u32) + compressed_from(
                    data,
                    pos + len,
                )
            } else {
                Seq::empty()
            },
            None => seq![0u8, data[pos]] + compressed_from(data, pos + 1),
        }
    }
}

/// The compressed form of `data`.
pub open spec fn compressed(data: Seq<u8>) -> Seq<u8> {
    compressed_from(data, 0)
}

/// Reads the rest of a variable-length integer: its value, and how many bytes it
/// took. None where the bytes end or the integer does not fit 32 bits.
pub open spec fn varint_rest(s: Seq<u8>, shift: u32, acc: u32) -> Option<(u32, nat)>
    decreases s.len(),
{
    if s.len() == 0 || shift >= 32 {
        None
    } else {
        let v = acc | ((s[0] & 127) as u32) << shift;
        if s[0] & 128 == 0 {
            Some((v, 1))
        } else {
            match varint_rest(s.skip(1), (shift + 7) as u32, v) {
                Some((w, n)) => Some((w, n + 1)),
                None => None,
            }
        }
    }
}

/// Reads a variable-length integer. At the end of the bytes it is zero.
pub open spec fn varint_read(s: Seq<u8>) -> Option<(u32, nat)> {
    if s.len() == 0 {
        Some((0, 0))
    } else {
        varint_rest(s, 0, 0)
    }
}

/// `out` with `len` more bytes, each a copy of the one `offset` before it.
pub open spec fn copy_back(out: Seq<u8>, offset: int, len: nat) -> Seq<u8>
    decreases len,
{
    if len == 0 {
        out
    } else {
        let shorter = copy_back(out, offset, (len - 1) as nat);
        shorter.push(shorter[shorter.len() - offset])
    }
}

/// What the tokens of `s` append to `out`, if they are well formed.
pub open spec fn decompressed_onto(s: Seq<u8>, out: Seq<u8>) -> Option<Seq<u8>>
    decreases s.len(),
{
    if s.len() == 0 {
        Some(out)
    } else if s[0] == 0 {
        if s.len() < 2 {
            None
        } else {
            decompressed_onto(s.skip(2), out.push(s[1]))
        }
    } else if s[0] == 1 {
        let t = s.skip(1);
        match varint_read(t) {
            None => None,
            Some((offset, n1)) => match varint_read(t.skip(n1 as int)) {
                None => None,
                Some((len, n2)) => if offset > out.len() || (offset == 0 && len > 0) || n1 + n2
                    > t.len() {
                    None
                } else {
                    decompressed_onto(
                        t.skip((n1 + n2) as int),
                        copy_back(out, offset as int, len as nat),
                    )
                },
            },
        }
    } else {
        None
    }
}

/// The bytes that `data` is the compressed form of, if it is well formed.
pub open spec fn decompressed(data: Seq<u8>) -> Option<Seq<u8>> {
    decompressed_onto(data, Seq::empty())
}

proof fn lemma_varint_rest_len(s: Seq<u8>, shift: u32, acc: u32)
    ensures
        match varint_rest(s, shift, acc) {
            Some((v, n)) => 1 <= n <= s.len(),
            None => true,
        },
    decreases s.len(),
{
    if s.len() > 0 && shift < 32 {
        let v = acc | ((s[0] & 127) as u32) << shift;
        lemma_varint_rest_len(s.skip(1), (shift + 7) as u32, v);
    }
}

proof fn lemma_varint_rest_roundtrip(v: u32, tail: Seq<u8>, shift: u32, acc: u32)
    requires
        shift < 32,
        v <= 0xFFFF_FFFFu32 >> shift,
    ensures
        varint_rest(varint(v) + tail, shift, acc) == Some((acc | v << shift, varint(v).len())),
        varint(v).len() >= 1,
    decreases v,
{
    let s = varint(v) + tail;
    if v >= 128 {
        let w = v >> 7u32;
        assert(w < v) by (bit_vector)
            requires
                v >= 128,
                w == v >> 7u32,
        ;
        assert(shift + 7 < 32) by (bit_vector)
            requires
                shift < 32,
                v >= 128,
                v <= 0xFFFF_FFFFu32 >> shift,
        ;
        let shift2 = (shift + 7) as u32;
        assert(w <= 0xFFFF_FFFFu32 >> shift2) by (bit_vector)
            requires
                w == v >> 7u32,
                shift2 == shift + 7,
                shift2 < 32,
                v <= 0xFFFF_FFFFu32 >> shift,
        ;
        let first = ((v & 127) | 128) as u8;
        assert(s[0] == first);
        assert(first & 128 != 0 && (first & 127) as u32 == v & 127) by (bit_vector)
            requires
                first == ((v & 127) | 128) as u8,
        ;
        let acc2 = acc | ((first & 127) as u32) << shift;
        assert(acc2 | w << shift2 == acc | v << shift) by (bit_vector)
            requires
                acc2 == acc | ((v & 127) as u32) << shift,
                w == v >> 7u32,
                shift2 == shift + 7,
                shift2 < 32,
        ;
        lemma_varint_rest_roundtrip(w, tail, shift2, acc2);
        assert(s.skip(1) =~= varint(w) + tail);
    } else {
        let first = (v & 127) as u8;
        assert(s[0] == first);
        assert(first & 128 == 0 && (first & 127) as u32 == v) by (bit_vector)
            requires
                first == (v & 127) as u8,
                v < 128,
        ;
    }
}

/// Reading an integer gives back what was written, whatever follows it; it takes one
/// byte to five.
pub proof fn lemma_varint_roundtrip(v: u32, tail: Seq<u8>)
    ensures
        varint_read(varint(v) + tail) == Some((v, varint(v).len())),
        1 <= varint(v).len() <= 5,
{
    let a = v >> 7u32;
    let b = a >> 7u32;
    let c = b >> 7u32;
    let d = c >> 7u32;
    assert(((((v >> 7u32) >> 7u32) >> 7u32) >> 7u32) < 128) by (bit_vector);
    assert(varint(d).len() == 1);
    assert(varint(c).len() <= 2);
    assert(varint(b).len() <= 3);
    assert(varint(a).len() <= 4);
    assert(0xFFFF_FFFFu32 >> 0u32 == 0xFFFF_FFFFu32) by (bit_vector);
    lemma_varint_rest_roundtrip(v, tail, 0, 0);
    assert(0u32 | v << 0u32 == v) by (bit_vector);
}

proof fn lemma_match_len(data: Seq<u8>, c: int, pos: int, k: nat)
    requires
        0 <= c < pos,
        k <= LOOKAHEAD_WINDOW,
        pos + k <= data.len(),
        forall|q: int| pos <= q < pos + k ==> data[q - pos + c] == #[trigger] data[q],
    ensures
        k <= match_len(data, c, pos, k) <= LOOKAHEAD_WINDOW,
        pos + match_len(data, c, pos, k) <= data.len(),
        forall|q: int|
            pos <= q < pos + match_len(data, c, pos, k) ==> data[q - pos + c] == #[trigger] data[q],
    decreases data.len() - pos - k,
{
    if k < LOOKAHEAD_WINDOW && pos + k < data.len() && data[c + k] == data[pos + k] {
        lemma_match_len(data, c, pos, k + 1);
    }
}

/// Whether `m`, a distance and a length, is a repetition at `pos`.
pub open spec fn repeats(data: Seq<u8>, pos: int, m: (int, nat)) -> bool {
    &&& m.1 > 0 ==> 0 < m.0 <= pos
    &&& m.0 <= SEARCH_WINDOW
    &&& m.1 <= LOOKAHEAD_WINDOW
    &&& pos + m.1 <= data.len()
    &&& forall|q: int| pos <= q < pos + m.1 ==> data[q - m.0] == #[trigger] data[q]
}

proof fn lemma_best_of(
    data: Seq<u8>,
    pos: int,
    candidate: Option<int>,
    budget: nat,
    best: (int, nat),
)
    requires
        0 <= pos <= data.len(),
        candidate is Some ==> 0 <= candidate->0 < pos,
        repeats(data, pos, best),
    ensures
        repeats(data, pos, best_of(data, pos, candidate, budget, best)),
    decreases budget,
{
    if let Some(c) = candidate {
        if budget > 0 && c >= pos - SEARCH_WINDOW {
            lemma_match_len(data, c, pos, 0);
            let l = match_len(data, c, pos, 0);
            let better = if l > best.1 {
                (pos - c, l)
            } else {
                best
            };
            lemma_last_with_hash(data, trigram(data, c), c);
            assert(repeats(data, pos, better)) by {
                assert forall|q: int| pos <= q < pos + better.1 implies data[q - better.0]
                    == #[trigger] data[q] by {
                    if l > best.1 {
                        assert(data[q - pos + c] == data[q]);
                    }
                }
            }
            lemma_best_of(
                data,
                pos,
                last_with_hash(data, trigram(data, c), c),
                (budget - 1) as nat,
                better,
            );
        }
    }
}

/// A match is 3 to 258 bytes long, starts at most 32768 bytes back and not before the
/// first byte, and repeats what stands there.
pub proof fn lemma_best_match(data: Seq<u8>, pos: int)
    requires
        0 <= pos < data.len(),
    ensures
        best_match(data, pos) matches Some((offset, len)) ==> {
            &&& 3 <= len <= LOOKAHEAD_WINDOW
            &&& 1 <= offset <= SEARCH_WINDOW
            &&& offset <= pos
            &&& pos + len <= data.len()
            &&& repeats(data, pos, (offset, len))
        },
{
    if pos + 3 <= data.len() {
        lemma_last_with_hash(data, trigram(data, pos), pos);
        lemma_best_of(
            data,
            pos,
            last_with_hash(data, trigram(data, pos), pos),
            MAX_CHAIN as nat,
            (0, 0),
        );
    }
}

proof fn lemma_varint_len(v: u32)
    ensures
        v < 16_384 ==> varint(v).len() <= 2,
        v < 2_097_152 ==> varint(v).len() <= 3,
{
    let a = v >> 7u32;
    let b = a >> 7u32;
    assert(v < 16_384 ==> a < 128) by (bit_vector)
        requires
            a == v >> 7u32,
    ;
    assert(v < 2_097_152 ==> b < 128) by (bit_vector)
        requires
            a == v >> 7u32,
            b == a >> 7u32,
    ;
    reveal_with_fuel(varint, 3);
}

proof fn lemma_compressed_len(data: Seq<u8>, pos: int)
    requires
        0 <= pos <= data.len(),
    ensures
        compressed_from(data, pos).len() <= 2 * (data.len() - pos),
    decreases data.len() - pos,
{
    if pos < data.len() {
        lemma_best_match(data, pos);
        match best_match(data, pos) {
            Some((offset, len)) => {
                lemma_varint_len(offset as u32);
                lemma_varint_len(len as u32);
                lemma_compressed_len(data, pos + len);
            },
            None => {
                lemma_compressed_len(data, pos + 1);
            },
        }
    }
}

/// The compressed form of some bytes is at most twice as long as they are.
pub proof fn lemma_compressed_size(data: Seq<u8>)
    ensures
        compressed(data).len() <= 2 * data.len(),
{
    lemma_compressed_len(data, 0);
}

proof fn lemma_copy_back_repeats(data: Seq<u8>, pos: int, offset: int, total: nat, len: nat)
    requires
        repeats(data, pos, (offset, total)),
        total > 0,
        len <= total,
        0 <= pos,
    ensures
        copy_back(data.take(pos), offset, len) == data.take(pos + len),
    decreases len,
{
    if len > 0 {
        lemma_copy_back_repeats(data, pos, offset, total, (len - 1) as nat);
        let shorter = data.take(pos + len - 1);
        assert(data[pos + len - 1 - offset] == data[pos + len - 1]);
        assert(data.take(pos + len) =~= shorter.push(shorter[shorter.len() - offset]));
    } else {
        assert(data.take(pos + len) =~= data.take(pos));
    }
}

proof fn lemma_roundtrip_from(data: Seq<u8>, pos: int)
    requires
        0 <= pos <= data.len(),
    ensures
        decompressed_onto(compressed_from(data, pos), data.take(pos)) == Some(data),
    decreases data.len() - pos,
{
    let s = compressed_from(data, pos);
    if pos == data.len() {
        assert(data.take(pos) =~= data);
    } else {
        lemma_best_match(data, pos);
        match best_match(data, pos) {
            Some((offset, len)) => {
                let rest = compressed_from(data, pos + len);
                let vo = varint(offset as u32);
                let vl = varint(len as u32);
                let t = s.skip(1);
                assert(t =~= vo + (vl + rest));
                lemma_varint_roundtrip(offset as u32, vl + rest);
                assert(t.skip(vo.len() as int) =~= vl + rest);
                lemma_varint_roundtrip(len as u32, rest);
                assert(t.skip((vo.len() + vl.len()) as int) =~= rest);
                lemma_copy_back_repeats(data, pos, offset, len, len);
                lemma_roundtrip_from(data, pos + len);
            },
            None => {
                assert(s.skip(2) =~= compressed_from(data, pos + 1));
                assert(data.take(pos + 1) =~= data.take(pos).push(data[pos]));
                lemma_roundtrip_from(data, pos + 1);
            },
        }
    }
}

/// How many positions strictly between two have a hash.
pub open spec fn with_hash_between(data: Seq<u8>, h: u32, lo: int, hi: int) -> nat
    decreases hi - lo,
{
    if hi <= lo + 1 {
        0
    } else {
        with_hash_between(data, h, lo, hi - 1) + if trigram(data, hi - 1) == h {
            1nat
        } else {
            0nat
        }
    }
}

proof fn lemma_between_bound(data: Seq<u8>, h: u32, lo: int, hi: int)
    requires
        lo < hi,
    ensures
        with_hash_between(data, h, lo, hi) <= hi - lo - 1,
    decreases hi - lo,
{
    if hi > lo + 1 {
        lemma_between_bound(data, h, lo, hi - 1);
    }
}

/// The last position with a hash is no earlier than any that has it, and there is none of
/// the hash between it and the end of the search.
proof fn lemma_last_is_last(data: Seq<u8>, h: u32, c: int, n: int)
    requires
        0 <= c < n,
        n + 2 <= data.len(),
        trigram(data, c) == h,
    ensures
        last_with_hash(data, h, n) matches Some(p) && c <= p < n && trigram(data, p) == h && (c < p
            ==> with_hash_between(data, h, c, n) == with_hash_between(data, h, c, p) + 1),
    decreases n,
{
    if trigram(data, n - 1) != h {
        lemma_last_is_last(data, h, c, n - 1);
    }
}

proof fn lemma_best_grows(
    data: Seq<u8>,
    pos: int,
    candidate: Option<int>,
    budget: nat,
    best: (int, nat),
)
    ensures
        best_of(data, pos, candidate, budget, best).1 >= best.1,
        best_of(data, pos, candidate, budget, best).1 == best.1 ==> best_of(
            data,
            pos,
            candidate,
            budget,
            best,
        ) == best,
    decreases budget,
{
    if let Some(c) = candidate {
        if budget > 0 && c >= pos - SEARCH_WINDOW {
            let l = match_len(data, c, pos, 0);
            let better = if l > best.1 {
                (pos - c, l)
            } else {
                best
            };
            lemma_best_grows(
                data,
                pos,
                last_with_hash(data, trigram(data, c), c),
                (budget - 1) as nat,
                better,
            );
        }
    }
}

proof fn lemma_best_reaches(
    data: Seq<u8>,
    pos: int,
    n: int,
    c: int,
    budget: nat,
    best: (int, nat),
)
    requires
        0 <= c < n <= pos,
        pos + 3 <= data.len(),
        c >= pos - SEARCH_WINDOW,
        trigram(data, c) == trigram(data, pos),
        with_hash_between(data, trigram(data, pos), c, n) < budget,
    ensures
        ({
            let b = best_of(
                data,
                pos,
                last_with_hash(data, trigram(data, pos), n),
                budget,
                best,
            );
            let l = match_len(data, c, pos, 0);
            &&& b.1 >= l
            &&& b.1 == l && best.1 < l ==> b.0 <= pos - c
        }),
    decreases budget,
{
    let h = trigram(data, pos);
    lemma_last_is_last(data, h, c, n);
    let p = last_with_hash(data, h, n)->0;
    let l = match_len(data, p, pos, 0);
    let better = if l > best.1 {
        (pos - p, l)
    } else {
        best
    };
    let less = (budget - 1) as nat;
    lemma_best_grows(data, pos, last_with_hash(data, h, p), less, better);
    if c < p {
        lemma_best_reaches(data, pos, p, c, less, better);
    }
}

proof fn lemma_agreeing(data: Seq<u8>, c: int, pos: int, k: nat, l: nat)
    requires
        k <= l <= LOOKAHEAD_WINDOW,
        pos + l <= data.len(),
        forall|j: int| 0 <= j < l ==> data[c + j] == #[trigger] data[pos + j],
    ensures
        match_len(data, c, pos, k) >= l,
    decreases l - k,
{
    if k < l {
        assert(data[c + k as int] == data[pos + k as int]);
        lemma_agreeing(data, c, pos, k + 1, l);
    } else if k < LOOKAHEAD_WINDOW && pos + k < data.len() && data[c + k] == data[pos + k] {
        lemma_match_grows(data, c, pos, k + 1);
    }
}

proof fn lemma_match_grows(data: Seq<u8>, c: int, pos: int, k: nat)
    ensures
        match_len(data, c, pos, k) >= k,
    decreases data.len() - pos - k,
{
    if k < LOOKAHEAD_WINDOW && pos + k < data.len() && data[c + k] == data[pos + k] {
        lemma_match_grows(data, c, pos, k + 1);
    }
}

/// The compressor takes the repetition that it finds. Where the bytes at a position, three
/// of them or more, stand at an earlier position too, not more than 32768 bytes back and
/// with fewer than 128 positions of their hash between, the compressed form goes on there
/// with a match that is at least as long, and no further back if it is just as long.
pub proof fn lemma_match_taken(data: Seq<u8>, pos: int, c: int, l: nat)
    requires
        0 <= c < pos,
        pos - c <= 32_768,
        3 <= l <= 258,
        pos + l <= data.len(),
        forall|j: int| 0 <= j < l ==> data[c + j] == #[trigger] data[pos + j],
        with_hash_between(data, trigram(data, pos), c, pos) < 128,
    ensures
        best_match(data, pos) matches Some((offset, len)) && len >= l && (len == l ==> offset <= pos
            - c) && compressed_from(data, pos) == seq![1u8] + varint(offset as u32) + varint(
            len as u32,
        ) + compressed_from(data, pos + len),
{
    assert(data[c + 0] == data[pos + 0]);
    assert(data[c + 1] == data[pos + 1]);
    assert(data[c + 2] == data[pos + 2]);
    assert(trigram(data, c) == trigram(data, pos));
    lemma_best_reaches(data, pos, pos, c, MAX_CHAIN as nat, (0, 0));
    lemma_agreeing(data, c, pos, 0, l);
    lemma_best_match(data, pos);
}

proof fn lemma_none_after(data: Seq<u8>, h: u32, n: int)
    requires
        n + 2 <= data.len(),
    ensures
        last_with_hash(data, h, n) matches Some(p) ==> 0 <= p < n && trigram(data, p) == h
            && with_hash_between(data, h, p, n) == 0,
    decreases n,
{
    if n > 0 && trigram(data, n - 1) != h {
        lemma_none_after(data, h, n - 1);
    }
}

proof fn lemma_best_near(data: Seq<u8>, pos: int, n: int, budget: nat, best: (int, nat))
    requires
        0 <= n <= pos,
        pos + 3 <= data.len(),
    ensures
        ({
            let h = trigram(data, pos);
            let b = best_of(data, pos, last_with_hash(data, h, n), budget, best);
            b == best || (0 <= pos - b.0 < n && trigram(data, pos - b.0) == h && with_hash_between(
                data,
                h,
                pos - b.0,
                n,
            ) < budget)
        }),
    decreases budget,
{
    let h = trigram(data, pos);
    lemma_none_after(data, h, n);
    if let Some(c) = last_with_hash(data, h, n) {
        if budget > 0 && c >= pos - SEARCH_WINDOW {
            let l = match_len(data, c, pos, 0);
            let better = if l > best.1 {
                (pos - c, l)
            } else {
                best
            };
            let less = (budget - 1) as nat;
            lemma_best_near(data, pos, c, less, better);
            let b = best_of(data, pos, last_with_hash(data, h, c), less, better);
            if b != better {
                lemma_last_is_last(data, h, pos - b.0, n);
            }
        }
    }
}

/// The compressor takes no repetition that is shorter than three bytes or longer than 258,
/// none from more than 32768 bytes back, and none with 128 positions of its hash or more
/// between.
pub proof fn lemma_match_limits(data: Seq<u8>, pos: int)
    requires
        0 <= pos < data.len(),
    ensures
        best_match(data, pos) matches Some((offset, len)) ==> 3 <= len <= 258 && 1 <= offset
            <= 32_768 && offset <= pos && pos + len <= data.len() && with_hash_between(
            data,
            trigram(data, pos),
            pos - offset,
            pos,
        ) < 128,
{
    lemma_best_match(data, pos);
    if pos + 3 <= data.len() {
        lemma_best_near(data, pos, pos, MAX_CHAIN as nat, (0, 0));
    }
}

/// What was among the last 128 bytes is always found again, whatever the hashes are.
pub proof fn lemma_near_match_taken(data: Seq<u8>, pos: int, c: int, l: nat)
    requires
        0 <= c < pos,
        pos - c <= 128,
        3 <= l <= 258,
        pos + l <= data.len(),
        forall|j: int| 0 <= j < l ==> data[c + j] == #[trigger] data[pos + j],
    ensures
        best_match(data, pos) matches Some((offset, len)) && len >= l && (len == l ==> offset <= pos
            - c) && compressed_from(data, pos) == seq![1u8] + varint(offset as u32) + varint(
            len as u32,
        ) + compressed_from(data, pos + len),
{
    lemma_between_bound(data, trigram(data, pos), c, pos);
    lemma_match_taken(data, pos, c, l);
}

/// The compressed form is made of tokens that cover the bytes one after the other: a match,
/// which repeats bytes that stand before it, or else one byte as it is.
pub proof fn lemma_tokens(data: Seq<u8>, pos: int)
    requires
        0 <= pos <= data.len(),
    ensures
        compressed(data) == compressed_from(data, 0),
        pos == data.len() ==> compressed_from(data, pos).len() == 0,
        pos < data.len() ==> match best_match(data, pos) {
            Some((offset, len)) => {
                &&& 3 <= len <= 258
                &&& 1 <= offset <= 32_768
                &&& offset <= pos
                &&& pos + len <= data.len()
                &&& forall|q: int| pos <= q < pos + len ==> data[q - offset] == #[trigger] data[q]
                &&& compressed_from(data, pos) == seq![1u8] + varint(offset as u32) + varint(
                    len as u32,
                ) + compressed_from(data, pos + len)
            },
            None => compressed_from(data, pos) == seq![0u8, data[pos]] + compressed_from(
                data,
                pos + 1,
            ),
        },
{
    if pos < data.len() {
        lemma_best_match(data, pos);
    }
}

/// An integer is written seven bits to a byte, the lowest first; 128 is added to each byte
/// but the last.
pub proof fn lemma_varint_bytes(v: u32)
    ensures
        v < 128 ==> varint(v) == seq![v as u8],
        v >= 128 ==> varint(v) == seq![(128 + v % 128) as u8] + varint(v / 128),
{
    assert(v < 128 ==> (v & 127) as u8 == v as u8) by (bit_vector);
    assert(((v & 127) | 128) as u8 == (128 + v % 128) as u8 && v >> 7u32 == v / 128)
        by (bit_vector);
}

proof fn lemma_copied_back(out: Seq<u8>, offset: int, len: nat)
    requires
        1 <= offset <= out.len(),
    ensures
        copy_back(out, offset, len).len() == out.len() + len,
        forall|i: int|
            0 <= i < out.len() ==> (#[trigger] copy_back(out, offset, len)[i]) == out[i],
        forall|i: int|
            out.len() <= i < out.len() + len ==> (#[trigger] copy_back(out, offset, len)[i])
                == copy_back(out, offset, len)[i - offset],
    decreases len,
{
    if len > 0 {
        lemma_copied_back(out, offset, (len - 1) as nat);
    }
}

/// What tokens say to the decompressor. A zero byte is followed by a byte as it is. A one is
/// followed by a distance and a length, and repeats as many bytes from that far back, which
/// may be bytes that it has just put there. Other tokens are refused, and so is a distance
/// beyond the first byte.
pub proof fn lemma_decompressed_tokens(s: Seq<u8>, out: Seq<u8>, b: u8, offset: u32, len: u32)
    ensures
        decompressed_onto(Seq::empty(), out) == Some(out),
        decompressed_onto(seq![0u8, b] + s, out) == decompressed_onto(s, out.push(b)),
        b > 1 ==> decompressed_onto(seq![b] + s, out) is None,
        offset > out.len() ==> decompressed_onto(
            seq![1u8] + varint(offset) + varint(len) + s,
            out,
        ) is None,
        1 <= offset <= out.len() ==> exists|to: Seq<u8>|
            {
                &&& to.len() == out.len() + len
                &&& forall|i: int| 0 <= i < out.len() ==> (#[trigger] to[i]) == out[i]
                &&& forall|i: int|
                    out.len() <= i < to.len() ==> (#[trigger] to[i]) == to[i - offset]
                &&& decompressed_onto(seq![1u8] + varint(offset) + varint(len) + s, out)
                    == #[trigger] decompressed_onto(s, to)
            },
{
    let lit = seq![0u8, b] + s;
    assert(lit.skip(2) =~= s);
    let m = seq![1u8] + varint(offset) + varint(len) + s;
    let t = m.skip(1);
    let vo = varint(offset);
    let vl = varint(len);
    assert(t =~= vo + (vl + s));
    lemma_varint_roundtrip(offset, vl + s);
    assert(t.skip(vo.len() as int) =~= vl + s);
    lemma_varint_roundtrip(len, s);
    assert(t.skip((vo.len() + vl.len()) as int) =~= s);
    if 1 <= offset <= out.len() {
        lemma_copied_back(out, offset as int, len as nat);
        let to = copy_back(out, offset as int, len as nat);
        assert(decompressed_onto(m, out) == decompressed_onto(s, to));
    }
}

/// Decompressing the compressed form of any bytes gives the bytes back.
pub proof fn lemma_decompress_compressed(data: Seq<u8>)
    ensures
        decompressed(compressed(data)) == Some(data),
{
    lemma_roundtrip_from(data, 0);
    assert(data.take(0) =~= Seq::<u8>::empty());
}

/// A position of a chain, as the specification writes it.
spec fn as_position(p: Option<usize>) -> Option<int> {
    match p {
        Some(x) => Some(x as int),
        None => None,
    }
}

/// Whether a hash table and chains can be followed: the entries are positions of the
/// data, and a chain leads to ever older ones.
pub open spec fn links_valid(
    data: Seq<u8>,
    table: Seq<Option<usize>>,
    chain: Seq<Option<usize>>,
) -> bool {
    &&& chain.len() == data.len()
    &&& forall|h: int|
        0 <= h < table.len() ==> (#[trigger] table[h] matches Some(c) ==> c < data.len())
    &&& forall|p: int|
        0 <= p < chain.len() ==> (#[trigger] chain[p] matches Some(c) ==> c < p)
}

/// The best of `best` and the matches at `candidate` and at the positions that its chain
/// leads to: the longest, and of equally long ones the first. At most `budget` positions
/// are looked at. Those that are not before `pos` are passed over, and one outside the
/// search window ends it.
pub open spec fn best_on_path(
    data: Seq<u8>,
    chain: Seq<Option<usize>>,
    pos: int,
    candidate: Option<usize>,
    budget: nat,
    best: (int, nat),
) -> (int, nat)
    decreases budget,
{
    match candidate {
        None => best,
        Some(c) => if budget == 0 {
            best
        } else if c >= pos {
            best_on_path(data, chain, pos, chain[c as int], (budget - 1) as nat, best)
        } else if c < pos - SEARCH_WINDOW {
            best
        } else {
            let l = match_len(data, c as int, pos, 0);
            let better = if l > best.1 {
                (pos - c, l)
            } else {
                best
            };
            best_on_path(data, chain, pos, chain[c as int], (budget - 1) as nat, better)
        },
    }
}

/// The match that is found at `pos` along the chain that begins at the entry of a hash:
/// none where it would be shorter than three bytes.
pub open spec fn path_match(
    data: Seq<u8>,
    table: Seq<Option<usize>>,
    chain: Seq<Option<usize>>,
    pos: int,
    hash: int,
) -> Option<(int, nat)> {
    if pos + 3 > data.len() {
        None
    } else {
        let b = best_on_path(data, chain, pos, table[hash], MAX_CHAIN as nat, (0, 0));
        if b.1 < 3 {
            None
        } else {
            Some(b)
        }
    }
}

/// The position that is reached from `candidate` in `n` steps along the chain.
pub open spec fn on_path(chain: Seq<Option<usize>>, candidate: Option<usize>, n: nat) -> Option<
    usize,
>
    decreases n,
{
    match candidate {
        None => None,
        Some(c) => if n == 0 {
            candidate
        } else {
            on_path(chain, chain[c as int], (n - 1) as nat)
        },
    }
}

/// Whether the position that is reached in `n` steps is looked at: the path goes that far,
/// and no position on the way to it, nor it itself, is outside the search window.
pub open spec fn looked_at(
    chain: Seq<Option<usize>>,
    pos: int,
    candidate: Option<usize>,
    n: nat,
) -> bool
    decreases n,
{
    match candidate {
        None => false,
        Some(c) => c >= pos - SEARCH_WINDOW && (n == 0 || looked_at(
            chain,
            pos,
            chain[c as int],
            (n - 1) as nat,
        )),
    }
}

/// Along a path that is valid, the best match repeats bytes within the search window, is
/// no shorter than that at any position that is looked at, and is the first of its
/// length.
proof fn lemma_best_on_path(
    data: Seq<u8>,
    table: Seq<Option<usize>>,
    chain: Seq<Option<usize>>,
    pos: int,
    candidate: Option<usize>,
    budget: nat,
    best: (int, nat),
)
    requires
        0 <= pos <= data.len(),
        links_valid(data, table, chain),
        candidate matches Some(c) ==> c < data.len(),
        repeats(data, pos, best),
    ensures
        ({
            let b = best_on_path(data, chain, pos, candidate, budget, best);
            &&& repeats(data, pos, b)
            &&& b.1 >= best.1
            &&& forall|n: nat|
                n < budget && #[trigger] looked_at(chain, pos, candidate, n) && on_path(
                    chain,
                    candidate,
                    n,
                )->0 < pos ==> match_len(
                    data,
                    on_path(chain, candidate, n)->0 as int,
                    pos,
                    0,
                ) <= b.1
            &&& b.1 == best.1 ==> b == best
            &&& b.1 > best.1 ==> exists|n: nat|
                {
                    &&& n < budget
                    &&& #[trigger] looked_at(chain, pos, candidate, n)
                    &&& on_path(chain, candidate, n)->0 == pos - b.0
                    &&& match_len(data, pos - b.0, pos, 0) == b.1
                    &&& forall|m: nat|
                        m < n && #[trigger] looked_at(chain, pos, candidate, m) && on_path(
                            chain,
                            candidate,
                            m,
                        )->0 < pos ==> match_len(
                            data,
                            on_path(chain, candidate, m)->0 as int,
                            pos,
                            0,
                        ) < b.1
                }
        }),
    decreases budget,
{
    let b = best_on_path(data, chain, pos, candidate, budget, best);
    if let Some(c) = candidate {
        if budget > 0 && c >= pos - SEARCH_WINDOW {
            let next = chain[c as int];
            let less = (budget - 1) as nat;
            let l = match_len(data, c as int, pos, 0);
            let better = if c < pos && l > best.1 {
                (pos - c, l)
            } else {
                best
            };
            if c < pos {
                lemma_match_len(data, c as int, pos, 0);
                assert(repeats(data, pos, better)) by {
                    assert forall|q: int| pos <= q < pos + better.1 implies data[q - better.0]
                        == #[trigger] data[q] by {
                        if l > best.1 {
                            assert(data[q - pos + c] == data[q]);
                        }
                    }
                }
            }
            lemma_best_on_path(data, table, chain, pos, next, less, better);
            assert(b == best_on_path(data, chain, pos, next, less, better));
            assert forall|n: nat|
                n < budget && #[trigger] looked_at(chain, pos, candidate, n) && on_path(
                    chain,
                    candidate,
                    n,
                )->0 < pos implies match_len(
                data,
                on_path(chain, candidate, n)->0 as int,
                pos,
                0,
            ) <= b.1 by {
                if n > 0 {
                    assert(looked_at(chain, pos, next, (n - 1) as nat));
                    assert(on_path(chain, candidate, n) == on_path(chain, next, (n - 1) as nat));
                }
            }
            if b.1 > best.1 {
                let w: nat = if b.1 > better.1 {
                    let k = choose|n: nat|
                        {
                            &&& n < less
                            &&& #[trigger] looked_at(chain, pos, next, n)
                            &&& on_path(chain, next, n)->0 == pos - b.0
                            &&& match_len(data, pos - b.0, pos, 0) == b.1
                            &&& forall|m: nat|
                                m < n && #[trigger] looked_at(chain, pos, next, m) && on_path(
                                    chain,
                                    next,
                                    m,
                                )->0 < pos ==> match_len(
                                    data,
                                    on_path(chain, next, m)->0 as int,
                                    pos,
                                    0,
                                ) < b.1
                        };
                    assert(looked_at(chain, pos, candidate, k + 1));
                    k + 1
                } else {
                    assert(looked_at(chain, pos, candidate, 0));
                    0
                };
                assert forall|m: nat|
                    m < w && #[trigger] looked_at(chain, pos, candidate, m) && on_path(
                        chain,
                        candidate,
                        m,
                    )->0 < pos implies match_len(
                    data,
                    on_path(chain, candidate, m)->0 as int,
                    pos,
                    0,
                ) < b.1 by {
                    if m > 0 {
                        assert(looked_at(chain, pos, next, (m - 1) as nat));
                        assert(on_path(chain, candidate, m) == on_path(
                            chain,
                            next,
                            (m - 1) as nat,
                        ));
                    }
                }
                assert(looked_at(chain, pos, candidate, w));
            }
        }
    }
}

/// What is found along a valid path is the first of the longest matches on it, and
/// repeats bytes within the search window. Nothing is found only where every match on it
/// is shorter than three bytes.
pub proof fn lemma_path_match(
    data: Seq<u8>,
    table: Seq<Option<usize>>,
    chain: Seq<Option<usize>>,
    pos: int,
    hash: int,
)
    requires
        0 <= pos,
        pos + 3 <= data.len(),
        0 <= hash < table.len(),
        links_valid(data, table, chain),
    ensures
        match path_match(data, table, chain, pos, hash) {
            Some((offset, len)) => {
                &&& 3 <= len <= LOOKAHEAD_WINDOW
                &&& 1 <= offset <= pos
                &&& offset <= SEARCH_WINDOW
                &&& pos + len <= data.len()
                &&& forall|q: int| pos <= q < pos + len ==> data[q - offset] == #[trigger] data[q]
                &&& forall|n: nat|
                    n < MAX_CHAIN && #[trigger] looked_at(chain, pos, table[hash], n) && on_path(
                        chain,
                        table[hash],
                        n,
                    )->0 < pos ==> match_len(
                        data,
                        on_path(chain, table[hash], n)->0 as int,
                        pos,
                        0,
                    ) <= len
                &&& exists|n: nat|
                    {
                        &&& n < MAX_CHAIN
                        &&& #[trigger] looked_at(chain, pos, table[hash], n)
                        &&& on_path(chain, table[hash], n)->0 == pos - offset
                        &&& match_len(data, pos - offset, pos, 0) == len
                        &&& forall|m: nat|
                            m < n && #[trigger] looked_at(chain, pos, table[hash], m) && on_path(
                                chain,
                                table[hash],
                                m,
                            )->0 < pos ==> match_len(
                                data,
                                on_path(chain, table[hash], m)->0 as int,
                                pos,
                                0,
                            ) < len
                    }
            },
            None => forall|n: nat|
                n < MAX_CHAIN && #[trigger] looked_at(chain, pos, table[hash], n) && on_path(
                    chain,
                    table[hash],
                    n,
                )->0 < pos ==> match_len(
                    data,
                    on_path(chain, table[hash], n)->0 as int,
                    pos,
                    0,
                ) < 3,
        },
{
    lemma_best_on_path(data, table, chain, pos, table[hash], MAX_CHAIN as nat, (0, 0));
}

/// Where the chains hold the positions of each hash, what is found along them is the
/// match that the compressor takes.
proof fn lemma_path_is_best(
    data: Seq<u8>,
    table: Seq<Option<usize>>,
    chain: Seq<Option<usize>>,
    pos: int,
    candidate: Option<usize>,
    budget: nat,
    best: (int, nat),
)
    requires
        chains_hold(data, table, chain, pos),
        0 <= pos <= data.len(),
        candidate matches Some(c) ==> c < pos && c + 3 <= data.len(),
    ensures
        best_on_path(data, chain, pos, candidate, budget, best) == best_of(
            data,
            pos,
            as_position(candidate),
            budget,
            best,
        ),
    decreases budget,
{
    if let Some(c) = candidate {
        if budget > 0 && c >= pos - SEARCH_WINDOW {
            let l = match_len(data, c as int, pos, 0);
            let better = if l > best.1 {
                (pos - c, l)
            } else {
                best
            };
            lemma_last_with_hash(data, trigram(data, c as int), c as int);
            lemma_path_is_best(
                data,
                table,
                chain,
                pos,
                chain[c as int],
                (budget - 1) as nat,
                better,
            );
        }
    }
}

/// What the hash table and the chains hold once every position before `n` is in.
spec fn chains_hold(
    data: Seq<u8>,
    table: Seq<Option<usize>>,
    chain: Seq<Option<usize>>,
    n: int,
) -> bool {
    &&& table.len() == HASH_SIZE
    &&& links_valid(data, table, chain)
    &&& forall|h: int|
        0 <= h < HASH_SIZE ==> as_position(#[trigger] table[h]) == last_with_hash(
            data,
            h as u32,
            n,
        )
    &&& forall|p: int|
        0 <= p < n && p + 3 <= data.len() ==> as_position(#[trigger] chain[p]) == last_with_hash(
            data,
            trigram(data, p),
            p,
        )
}

/// Puts position `pos`, whose three bytes hash to `hash`, at the head of its
/// chain.
fn insert_position(
    data: &[u8],
    pos: usize,
    hash: u32,
    table: &mut Vec<Option<usize>>,
    chain: &mut Vec<Option<usize>>,
)
    requires
        pos < data@.len(),
        pos + 3 <= data@.len() ==> hash == trigram(data@, pos as int) && hash < 32768,
        chains_hold(data@, old(table)@, old(chain)@, pos as int),
    ensures
        chains_hold(data@, final(table)@, final(chain)@, pos + 1),
{
    if data.len() - pos >= 3 {
        let h = hash as usize;
        let old_head = table[h];
        proof {
            lemma_last_with_hash(data@, hash, pos as int);
        }
        chain[pos] = old_head;
        table[h] = Some(pos);
        proof {
            assert(links_valid(data@, table@, chain@)) by {
                assert forall|p: int| 0 <= p < chain@.len() implies (
                #[trigger] chain@[p] matches Some(c) ==> c < p) by {
                    if p != pos {
                        assert(chain@[p] == old(chain)@[p]);
                    }
                }
                assert forall|k: int| 0 <= k < table@.len() implies (
                #[trigger] table@[k] matches Some(c) ==> c < data@.len()) by {
                    if k != h {
                        assert(table@[k] == old(table)@[k]);
                    }
                }
            }
            assert forall|k: int| 0 <= k < HASH_SIZE implies as_position(#[trigger] table@[k])
                == last_with_hash(data@, k as u32, pos + 1) by {
                if k != h {
                    assert(table@[k] == old(table)@[k]);
                    assert(k as u32 != hash);
                }
            }
            assert forall|p: int| 0 <= p < pos + 1 && p + 3 <= data@.len() implies as_position(
                #[trigger] chain@[p],
            ) == last_with_hash(data@, trigram(data@, p), p) by {
                if p != pos {
                    assert(chain@[p] == old(chain)@[p]);
                }
            }
        }
    } else {
        proof {
            assert forall|k: int| 0 <= k < HASH_SIZE implies as_position(#[trigger] table@[k])
                == last_with_hash(data@, k as u32, pos + 1) by {}
        }
    }
}

impl Lz77 {
    /// Compresses `data`.
    pub fn encode(data: &[u8]) -> (output: Vec<u8>)
        ensures
            output@ == compressed(data@),
            decompressed(output@) == Some(data@),
            output@.len() <= 2 * data@.len(),
    {
        proof {
            lemma_compressed_size(data@);
        }
        let mut output: Vec<u8> = Vec::new();
        let mut table: Vec<Option<usize>> = vec![None; HASH_SIZE];
        let mut chain: Vec<Option<usize>> = vec![None; data.len()];
        let mut pos: usize = 0;

        // Prime the rolling hash with the first two bytes, so that feeding
        // data[pos + 2] at each step gives the hash of the three bytes at pos.
        let mut hash: u32 = 0;
        if data.len() >= 2 {
            hash = Self::rolling_hash(Self::rolling_hash(0, data[0]), data[1]);
            proof {
                reveal_with_fuel(roll_all, 3);
                assert(data@.take(2).drop_last().drop_last() =~= Seq::<u8>::empty());
            }
        }
        proof {
            lemma_decompress_compressed(data@);
        }

        while pos < data.len()
            invariant
                pos <= data@.len(),
                chains_hold(data@, table@, chain@, pos as int),
                pos + 2 <= data@.len() ==> hash == roll_all(data@.take(pos + 2)),
                hash < HASH_SIZE,
                output@ + compressed_from(data@, pos as int) == compressed(data@),
            decreases data@.len() - pos,
        {
            if data.len() - pos > 2 {
                hash = Self::rolling_hash(hash, data[pos + 2]);
                proof {
                    assert(data@.take(pos + 3).drop_last() =~= data@.take(pos + 2));
                    lemma_roll_is_trigram(data@, pos as int);
                }
            }
            proof {
                lemma_best_match(data@, pos as int);
                if pos + 3 <= data@.len() {
                    lemma_last_with_hash(data@, hash, pos as int);
                    lemma_path_is_best(
                        data@,
                        table@,
                        chain@,
                        pos as int,
                        table@[hash as int],
                        MAX_CHAIN as nat,
                        (0, 0),
                    );
                }
            }
            let ghost before = output@;
            match Self::find_longest_match(data, pos, hash, &table, &chain) {
                Some(best_match) => {
                    output.push(1);
                    Self::encode_varint(best_match.offset as u32, &mut output);
                    Self::encode_varint(best_match.len as u32, &mut output);
                    assert(output@ + compressed_from(data@, pos + best_match.len) =~= before
                        + compressed_from(data@, pos as int));

                    let start: usize = pos;
                    let end: usize = pos + best_match.len;
                    while pos < end
                        invariant
                            start <= pos <= end <= data@.len(),
                            start < end,
                            chains_hold(data@, table@, chain@, pos as int),
                            pos == start && pos + 3 <= data@.len() ==> hash == roll_all(
                                data@.take(pos + 3),
                            ),
                            pos > start && pos + 2 <= data@.len() ==> hash == roll_all(
                                data@.take(pos + 2),
                            ),
                            hash < HASH_SIZE,
                        decreases end - pos,
                    {
                        if pos > start && data.len() - pos > 2 {
                            hash = Self::rolling_hash(hash, data[pos + 2]);
                            assert(data@.take(pos + 3).drop_last() =~= data@.take(pos + 2));
                        }
                        proof {
                            if pos + 3 <= data@.len() {
                                lemma_roll_is_trigram(data@, pos as int);
                            }
                        }
                        insert_position(data, pos, hash, &mut table, &mut chain);
                        pos += 1;
                    }
                },
                None => {
                    output.push(0);
                    output.push(data[pos]);
                    assert(output@ + compressed_from(data@, pos + 1) =~= before + compressed_from(
                        data@,
                        pos as int,
                    ));
                    insert_position(data, pos, hash, &mut table, &mut chain);
                    pos += 1;
                },
            }
        }
        assert(output@ =~= output@ + compressed_from(data@, pos as int));
        output
    }

    /// Decompresses `data`.
    pub fn decode(data: &[u8]) -> (output: Vec<u8>)
        requires
            decompressed(data@) is Some,
        ensures
            decompressed(data@) == Some(output@),
    {
        Self::try_decode(data).unwrap()
    }

    /// Decompresses `data`, or says that it is not well formed.
    pub fn try_decode(data: &[u8]) -> (r: Option<Vec<u8>>)
        ensures
            match r {
                Some(output) => decompressed(data@) == Some(output@),
                None => decompressed(data@) is None,
            },
    {
        let mut output: Vec<u8> = Vec::new();
        let mut pos: usize = 0;
        assert(data@.skip(0) =~= data@);
        while pos < data.len()
            invariant
                pos <= data@.len(),
                decompressed(data@) == decompressed_onto(data@.skip(pos as int), output@),
            decreases data@.len() - pos,
        {
            let ghost s = data@.skip(pos as int);
            let token = data[pos];
            assert(s[0] == token);
            pos += 1;
            let ghost t = s.skip(1);
            assert(t =~= data@.skip(pos as int));
            if token == 0 {
                if pos >= data.len() {
                    return None;
                }
                assert(s[1] == data@[pos as int]);
                assert(s.skip(2) =~= data@.skip(pos + 1));
                output.push(data[pos]);
                pos += 1;
            } else if token == 1 {
                let (offset, offset_len) = match Self::decode_varint(data, pos) {
                    Some(x) => x,
                    None => {
                        return None;
                    },
                };
                pos += offset_len;
                assert(t.skip(offset_len as int) =~= data@.skip(pos as int));
                let (length, length_len) = match Self::decode_varint(data, pos) {
                    Some(x) => x,
                    None => {
                        return None;
                    },
                };
                pos += length_len;
                assert(t.skip(offset_len + length_len) =~= data@.skip(pos as int));
                if offset as u64 > output.len() as u64 || (offset == 0 && length > 0) {
                    return None;
                }
                let ghost out0 = output@;
                let mut i: u32 = 0;
                while i < length
                    invariant
                        i <= length,
                        offset <= out0.len(),
                        offset > 0 || length == 0,
                        output@ == copy_back(out0, offset as int, i as nat),
                        output@.len() == out0.len() + i,
                    decreases length - i,
                {
                    let byte = output[output.len() - offset as usize];
                    output.push(byte);
                    i += 1;
                }
            } else {
                return None;
            }
        }
        assert(data@.skip(pos as int) =~= Seq::<u8>::empty());
        Some(output)
    }

    fn find_longest_match(
        data: &[u8],
        pos: usize,
        hash: u32,
        table: &Vec<Option<usize>>,
        chain: &Vec<Option<usize>>,
    ) -> (r: Option<Match>)
        requires
            pos < data@.len(),
            hash < table@.len(),
            links_valid(data@, table@, chain@),
        ensures
            match r {
                Some(m) => path_match(data@, table@, chain@, pos as int, hash as int) == Some(
                    (m.offset as int, m.len as nat),
                ),
                None => path_match(data@, table@, chain@, pos as int, hash as int) is None,
            },
    {
        if data.len() - pos < 3 {
            return None;
        }
        let mut best_offset: usize = 0;
        let mut best_len: usize = 0;
        let search_start: usize = if pos > SEARCH_WINDOW {
            pos - SEARCH_WINDOW
        } else {
            0
        };
        let mut iteration: usize = 0;
        let mut candidate: Option<usize> = table[hash as usize];
        let ghost goal = best_on_path(
            data@,
            chain@,
            pos as int,
            candidate,
            MAX_CHAIN as nat,
            (0, 0),
        );
        while candidate.is_some() && iteration < MAX_CHAIN
            invariant_except_break
                pos < data@.len(),
                links_valid(data@, table@, chain@),
                iteration <= MAX_CHAIN,
                search_start <= pos,
                search_start == pos - SEARCH_WINDOW || (search_start == 0 && pos <= SEARCH_WINDOW),
                candidate is Some ==> candidate->0 < data@.len(),
                goal == best_on_path(
                    data@,
                    chain@,
                    pos as int,
                    candidate,
                    (MAX_CHAIN - iteration) as nat,
                    (best_offset as int, best_len as nat),
                ),
            ensures
                goal == (best_offset as int, best_len as nat),
            decreases MAX_CHAIN - iteration,
        {
            iteration += 1;
            let c: usize = candidate.unwrap();
            if c < pos {
                if c < search_start {
                    break;
                }
                let mut len: usize = 0;
                while len < LOOKAHEAD_WINDOW && len < data.len() - pos && data[c + len] == data[pos
                    + len]
                    invariant
                        c < pos < data@.len(),
                        len <= data@.len() - pos,
                        len <= LOOKAHEAD_WINDOW,
                        match_len(data@, c as int, pos as int, 0) == match_len(
                            data@,
                            c as int,
                            pos as int,
                            len as nat,
                        ),
                    decreases data@.len() - pos - len,
                {
                    len += 1;
                }
                if len > best_len {
                    best_len = len;
                    best_offset = pos - c;
                }
            }
            candidate = chain[c];
        }
        if best_len < 3 {
            return None;
        }
        Some(Match { offset: best_offset, len: best_len })
    }

    /// Appends an integer in groups of seven bits.
    pub fn encode_varint(value: u32, output: &mut Vec<u8>)
        ensures
            final(output)@ == old(output)@ + varint(value),
    {
        let mut rest: u32 = value;
        while rest >= 128
            invariant
                output@ + varint(rest) == old(output)@ + varint(value),
            decreases rest,
        {
            let ghost before = output@;
            output.push(((rest & 127) | 128) as u8);
            assert(output@ + varint(rest >> 7u32) =~= before + varint(rest));
            assert(rest >= 128 ==> rest >> 7u32 < rest) by (bit_vector);
            rest = rest >> 7u32;
        }
        let ghost before = output@;
        output.push((rest & 127) as u8);
        assert(output@ =~= before + varint(rest));
    }

    /// Reads an integer in groups of seven bits: its value, and how many bytes it took.
    pub fn decode_varint(data: &[u8], pos: usize) -> (r: Option<(u32, usize)>)
        requires
            pos <= data@.len(),
        ensures
            match r {
                Some((v, n)) => varint_read(data@.skip(pos as int)) == Some((v, n as nat)) && n
                    <= data@.len() - pos,
                None => varint_read(data@.skip(pos as int)) is None,
            },
    {
        if pos == data.len() {
            return Some((0, 0));
        }
        let ghost s = data@.skip(pos as int);
        let mut value: u32 = 0;
        let mut shift: u32 = 0;
        let mut i: usize = 0;
        assert(s.skip(0) =~= s);
        while i < data.len() - pos && shift < 32
            invariant
                pos <= data@.len(),
                s == data@.skip(pos as int),
                i <= data@.len() - pos,
                shift <= 38,
                varint_read(s) == (match varint_rest(s.skip(i as int), shift, value) {
                    Some((w, n)) => Some((w, (n + i) as nat)),
                    None => None,
                }),
            decreases data@.len() - pos - i,
        {
            let byte = data[pos + i];
            let ghost rest = s.skip(i as int);
            assert(rest[0] == byte);
            assert(rest.skip(1) =~= s.skip(i + 1));
            value = value | ((byte & 127) as u32) << shift;
            i += 1;
            if byte & 128 == 0 {
                return Some((value, i));
            }
            shift += 7;
        }
        None
    }

    /// The rolling hash after one more byte.
    pub fn rolling_hash(prev: u32, byte: u8) -> (h: u32)
        ensures
            h == roll(prev, byte),
            h < HASH_SIZE,
    {
        proof {
            lemma_roll_forgets(prev, prev, byte, byte, byte);
        }
        ((prev << H_SHIFT) ^ (byte as u32)) & (HASH_SIZE as u32 - 1)
    }
}

} // verus!
