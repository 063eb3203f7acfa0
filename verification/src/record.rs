//! Key-value records, as segment files, write-ahead logs and sorted tables hold
//! them.
//!
//! A record is a header, the key and the value. The header is 21 bytes, all
//! integers big-endian:
//!
//! ```text
//! | crc32 (4 B) | key_size (8 B) | value_size (8 B) | flags (1 B) |
//! ```
//!
//! The lowest flag marks a deletion. The next one says that eight more header
//! bytes follow, which hold the time at which the record expires. The checksum
//! covers everything after itself.

use vstd::prelude::*;
use vstd::utf8::{decode_utf8, encode_utf8, valid_utf8};

use crate::bytes::{
    be_u32, be_u64, copy_range, from_be_u32, from_be_u64, lemma_be_u32_roundtrip,
    lemma_be_u64_roundtrip, lemma_from_be_u32_roundtrip, push_all, push_u32, push_u64, read_u32,
    read_u64,
};
use crate::crc::{checksum, crc32, lemma_single_byte_change_detected};
use crate::error::StoreError;
use crate::text::{
    byte_len, lemma_utf8_bytes_roundtrip, lemma_utf8_roundtrip, len_of, string_from_utf8,
};

verus! {

pub const SIZE_FIELD_LEN: usize = 8;

pub const TOMBSTONE_LEN: usize = 1;

pub const CRC_LEN: usize = 4;

pub const TTL_LEN: usize = 8;

pub const RECORD_HEADER_LEN: usize = 21;

pub const MAX_KEY_SIZE: usize = 1_048_576;

pub const MAX_VALUE_SIZE: usize = 5_242_880;

pub const FLAG_TOMBSTONE: u8 = 1;

pub const FLAG_HAS_EXPIRY: u8 = 2;

/// The header that precedes every record.
#[derive(Clone, Copy, PartialEq, Eq, Structural, Debug)]
pub struct RecordHeader {
    /// CRC-32 checksum of everything after it.
    pub crc32: u32,
    /// Length of the key in bytes.
    pub key_size: u64,
    /// Length of the value in bytes.
    pub value_size: u64,
    /// Whether the record marks a deletion.
    pub tombstone: bool,
    /// The time, in milliseconds, from which on the record has expired.
    pub expiry_ms: Option<u64>,
}

/// A key-value record.
#[derive(Debug)]
pub struct Record {
    pub header: RecordHeader,
    pub key: String,
    pub value: String,
}

/// What a record says.
pub struct RecordView {
    pub key: Seq<char>,
    pub value: Seq<char>,
    pub tombstone: bool,
    pub expiry_ms: Option<u64>,
}

/// The record of a write.
pub open spec fn record_of(key: Seq<char>, value: Seq<char>, expiry_ms: Option<u64>) -> RecordView {
    RecordView { key, value, tombstone: false, expiry_ms }
}

/// The record of a deletion.
pub open spec fn tombstone_of(key: Seq<char>) -> RecordView {
    RecordView { key, value: Seq::empty(), tombstone: true, expiry_ms: None }
}

/// The flag byte of a record.
pub open spec fn flags_of(tombstone: bool, expiry_ms: Option<u64>) -> u8 {
    if expiry_ms is Some {
        if tombstone {
            3
        } else {
            2
        }
    } else if tombstone {
        1
    } else {
        0
    }
}

/// The header bytes that hold the time of expiry.
pub open spec fn expiry_bytes(expiry_ms: Option<u64>) -> Seq<u8> {
    match expiry_ms {
        Some(t) => be_u64(t),
        None => Seq::empty(),
    }
}

/// Everything after the checksum.
pub open spec fn payload(h: RecordHeader, key: Seq<u8>, value: Seq<u8>) -> Seq<u8> {
    be_u64(h.key_size) + be_u64(h.value_size) + seq![flags_of(h.tombstone, h.expiry_ms)]
        + expiry_bytes(h.expiry_ms) + key + value
}

/// The bytes of a record with the header fields of `h` and a fresh checksum.
pub open spec fn record_bytes(h: RecordHeader, key: Seq<u8>, value: Seq<u8>) -> Seq<u8> {
    be_u32(checksum(payload(h, key, value))) + payload(h, key, value)
}

/// The header of a record that says `r`, but for the checksum.
pub open spec fn header_of(r: RecordView) -> RecordHeader {
    RecordHeader {
        crc32: 0,
        key_size: byte_len(r.key) as u64,
        value_size: byte_len(r.value) as u64,
        tombstone: r.tombstone,
        expiry_ms: r.expiry_ms,
    }
}

/// The bytes of a record that says `r`.
pub open spec fn encoded(r: RecordView) -> Seq<u8> {
    record_bytes(header_of(r), encode_utf8(r.key), encode_utf8(r.value))
}

/// Whether key and value are short enough to be read back.
pub open spec fn within_limits(r: RecordView) -> bool {
    byte_len(r.key) <= MAX_KEY_SIZE && byte_len(r.value) <= MAX_VALUE_SIZE
}

/// The number of header bytes.
pub open spec fn header_len(expiry_ms: Option<u64>) -> nat {
    if expiry_ms is Some {
        (RECORD_HEADER_LEN + TTL_LEN) as nat
    } else {
        RECORD_HEADER_LEN as nat
    }
}

/// The number of bytes of a record that says `r`.
pub open spec fn record_len(r: RecordView) -> nat {
    header_len(r.expiry_ms) + byte_len(r.key) + byte_len(r.value)
}

/// Whether a flag byte says that a time of expiry follows.
pub open spec fn flags_have_expiry(b: u8) -> bool {
    b == FLAG_HAS_EXPIRY || b == FLAG_HAS_EXPIRY + FLAG_TOMBSTONE
}

/// The header that `s` begins with.
pub open spec fn parse_header(s: Seq<u8>) -> Result<RecordHeader, StoreError> {
    if s.len() < RECORD_HEADER_LEN {
        Err(StoreError::UnexpectedEof)
    } else {
        let b = s[20];
        let timed = flags_have_expiry(b);
        if timed && s.len() < RECORD_HEADER_LEN + TTL_LEN {
            Err(StoreError::UnexpectedEof)
        } else {
            Ok(
                RecordHeader {
                    crc32: from_be_u32(s.subrange(0, 4)),
                    key_size: from_be_u64(s.subrange(4, 12)),
                    value_size: from_be_u64(s.subrange(12, 20)),
                    tombstone: if timed {
                        b == FLAG_HAS_EXPIRY + FLAG_TOMBSTONE
                    } else {
                        b != 0
                    },
                    expiry_ms: if timed {
                        Some(from_be_u64(s.subrange(21, 29)))
                    } else {
                        None
                    },
                },
            )
        }
    }
}

/// The record that `s` begins with, and how many bytes it takes.
#[verifier::opaque]
pub open spec fn parse_record(s: Seq<u8>) -> Result<(RecordView, nat), StoreError> {
    match parse_header(s) {
        Err(e) => Err(e),
        Ok(h) => {
            let hl = header_len(h.expiry_ms) as int;
            let ke = hl + h.key_size;
            let ve = ke + h.value_size;
            if h.key_size > MAX_KEY_SIZE || h.value_size > MAX_VALUE_SIZE {
                Err(StoreError::TooLarge)
            } else if s.len() < ve {
                Err(StoreError::UnexpectedEof)
            } else {
                let k = s.subrange(hl, ke);
                let v = s.subrange(ke, ve);
                if checksum(s.subrange(4, ve)) != h.crc32 {
                    Err(StoreError::CrcMismatch)
                } else if !valid_utf8(k) || !valid_utf8(v) {
                    Err(StoreError::InvalidUtf8)
                } else {
                    Ok(
                        (
                            RecordView {
                                key: decode_utf8(k),
                                value: decode_utf8(v),
                                tombstone: h.tombstone,
                                expiry_ms: h.expiry_ms,
                            },
                            ve as nat,
                        ),
                    )
                }
            }
        },
    }
}

/// The records of `data` from `pos` on with their positions, and what stopped the
/// reading: nothing where the bytes were used up.
pub open spec fn parse_stream(data: Seq<u8>, pos: int) -> (
    Seq<(int, RecordView)>,
    Option<StoreError>,
)
    decreases data.len() - pos,
{
    if pos < 0 || pos >= data.len() {
        (Seq::empty(), None)
    } else {
        match parse_record(data.skip(pos)) {
            Err(e) => (Seq::empty(), Some(e)),
            Ok((r, n)) => if 0 < n && pos + n <= data.len() {
                let (rest, end) = parse_stream(data, pos + n);
                (seq![(pos, r)] + rest, end)
            } else {
                (Seq::empty(), None)
            },
        }
    }
}

/// A record's bytes are as many as its header, key and value have.
pub proof fn lemma_encoded_len(r: RecordView)
    ensures
        encoded(r).len() == record_len(r),
{
}

/// How a record is laid out: a checksum of all that follows it, the sizes of key and value,
/// a byte that has 1 for a deletion and 2 for a time of expiry, that time where there is one,
/// the key and the value.
pub proof fn lemma_record_layout(r: RecordView)
    requires
        encode_utf8(r.key).len() <= u64::MAX,
        encode_utf8(r.value).len() <= u64::MAX,
    ensures
        ({
            let rest = be_u64(encode_utf8(r.key).len() as u64) + be_u64(
                encode_utf8(r.value).len() as u64,
            ) + seq![
                ((if r.tombstone {
                    1int
                } else {
                    0int
                }) + (if r.expiry_ms is Some {
                    2int
                } else {
                    0int
                })) as u8,
            ] + (match r.expiry_ms {
                Some(t) => be_u64(t),
                None => Seq::empty(),
            }) + encode_utf8(r.key) + encode_utf8(r.value);
            &&& encoded(r) == be_u32(checksum(rest)) + rest
            &&& encoded(r).len() == 21 + (if r.expiry_ms is Some {
                8int
            } else {
                0int
            }) + encode_utf8(r.key).len() + encode_utf8(r.value).len()
            &&& record_len(r) == encoded(r).len()
        }),
{
}

/// What the records of a write and of a deletion say, and which records are small enough:
/// those whose key has at most a mebibyte and whose value has at most five.
pub proof fn lemma_record_limits(key: Seq<char>, value: Seq<char>, expiry_ms: Option<u64>)
    ensures
        ({
            let w = record_of(key, value, expiry_ms);
            &&& w.key == key
            &&& w.value == value
            &&& !w.tombstone
            &&& w.expiry_ms == expiry_ms
            &&& within_limits(w) <==> encode_utf8(key).len() <= 1024 * 1024 && encode_utf8(
                value,
            ).len() <= 5 * 1024 * 1024
            &&& tombstone_of(key).key == key
            &&& tombstone_of(key).tombstone
            &&& tombstone_of(key).expiry_ms is None
            &&& tombstone_of(key).value.len() == 0
        }),
{
}

/// A header that announces a larger key or value than there can be is refused as such,
/// whatever follows it; one that is not all there is refused as broken off.
pub proof fn lemma_header_refused(s: Seq<u8>)
    ensures
        s.len() < 21 ==> parse_record(s) == Err::<(RecordView, nat), StoreError>(
            StoreError::UnexpectedEof,
        ),
        s.len() >= 29 && (from_be_u64(s.subrange(4, 12)) > 1024 * 1024 || from_be_u64(
            s.subrange(12, 20),
        ) > 5 * 1024 * 1024) ==> parse_record(s) == Err::<(RecordView, nat), StoreError>(
            StoreError::TooLarge,
        ),
{
    reveal(parse_record);
}

/// A parsed record takes at least a header and ends within the bytes.
pub proof fn lemma_parse_record_len(s: Seq<u8>)
    ensures
        match parse_record(s) {
            Ok((r, n)) => RECORD_HEADER_LEN <= n <= s.len(),
            Err(_) => true,
        },
{
    reveal(parse_record);
}

/// A record that can be read is within the limits.
pub proof fn lemma_parsed_within_limits(s: Seq<u8>)
    ensures
        match parse_record(s) {
            Ok((r, n)) => within_limits(r) && n == record_len(r),
            Err(_) => true,
        },
{
    reveal(parse_record);
    if let Ok(h) = parse_header(s) {
        let hl = header_len(h.expiry_ms) as int;
        if hl + h.key_size + h.value_size <= s.len() {
            let k = s.subrange(hl, hl + h.key_size);
            let v = s.subrange(hl + h.key_size, hl + h.key_size + h.value_size);
            if valid_utf8(k) {
                lemma_utf8_bytes_roundtrip(k);
            }
            if valid_utf8(v) {
                lemma_utf8_bytes_roundtrip(v);
            }
        }
    }
}

/// Reading a record looks at no byte after it.
pub proof fn lemma_parse_record_prefix(s: Seq<u8>, t: Seq<u8>)
    requires
        parse_record(s) is Ok,
    ensures
        parse_record(s + t) == parse_record(s),
{
    reveal(parse_record);
    let st = s + t;
    let h = parse_header(s)->Ok_0;
    assert(st.subrange(0, 4) =~= s.subrange(0, 4));
    assert(st.subrange(4, 12) =~= s.subrange(4, 12));
    assert(st.subrange(12, 20) =~= s.subrange(12, 20));
    if flags_have_expiry(s[20]) {
        assert(st.subrange(21, 29) =~= s.subrange(21, 29));
    }
    assert(parse_header(st) == parse_header(s));
    let hl = header_len(h.expiry_ms) as int;
    let ke = hl + h.key_size;
    let ve = ke + h.value_size;
    assert(st.subrange(hl, ke) =~= s.subrange(hl, ke));
    assert(st.subrange(ke, ve) =~= s.subrange(ke, ve));
    assert(st.subrange(4, ve) =~= s.subrange(4, ve));
}

proof fn lemma_record_bytes_parts(h: RecordHeader, key: Seq<u8>, value: Seq<u8>, tail: Seq<u8>)
    requires
        key.len() == h.key_size,
        value.len() == h.value_size,
    ensures
        ({
            let s = record_bytes(h, key, value) + tail;
            let hl = header_len(h.expiry_ms) as int;
            &&& parse_header(s) == Ok::<_, StoreError>(
                RecordHeader { crc32: checksum(payload(h, key, value)), ..h },
            )
            &&& s.subrange(hl, hl + h.key_size) == key
            &&& s.subrange(hl + h.key_size, hl + h.key_size + h.value_size) == value
            &&& s.subrange(4, hl + h.key_size + h.value_size) == payload(h, key, value)
            &&& record_bytes(h, key, value).len() == hl + h.key_size + h.value_size
        }),
{
    let p = payload(h, key, value);
    let s = record_bytes(h, key, value) + tail;
    let hl = header_len(h.expiry_ms) as int;
    lemma_be_u32_roundtrip(checksum(p));
    lemma_be_u64_roundtrip(h.key_size);
    lemma_be_u64_roundtrip(h.value_size);
    assert(s.subrange(0, 4) =~= be_u32(checksum(p)));
    assert(s.subrange(4, 12) =~= be_u64(h.key_size));
    assert(s.subrange(12, 20) =~= be_u64(h.value_size));
    assert(s[20] == flags_of(h.tombstone, h.expiry_ms));
    match h.expiry_ms {
        Some(t) => {
            lemma_be_u64_roundtrip(t);
            assert(s.subrange(21, 29) =~= be_u64(t));
        },
        None => {},
    }
    assert(s.subrange(hl, hl + h.key_size) =~= key);
    assert(s.subrange(hl + h.key_size, hl + h.key_size + h.value_size) =~= value);
    assert(s.subrange(4, hl + h.key_size + h.value_size) =~= p);
}

/// A record that was written is read back, whatever follows it.
pub proof fn lemma_record_roundtrip(r: RecordView, tail: Seq<u8>)
    requires
        within_limits(r),
    ensures
        parse_record(encoded(r) + tail) == Ok::<(RecordView, nat), StoreError>((r, record_len(r))),
{
    reveal(parse_record);
    let k = encode_utf8(r.key);
    let v = encode_utf8(r.value);
    lemma_utf8_roundtrip(r.key);
    lemma_utf8_roundtrip(r.value);
    lemma_record_bytes_parts(header_of(r), k, v, tail);
}

/// A record with one byte changed is refused, or it is read as one of another length.
///
/// Only a byte of the sizes or of the flags can make a record longer or shorter; its
/// checksum then is that of other bytes.
pub proof fn lemma_changed_byte(r: RecordView, i: int, b: u8, tail: Seq<u8>)
    requires
        within_limits(r),
        0 <= i < record_len(r),
        b != encoded(r)[i],
    ensures
        parse_record(encoded(r).update(i, b) + tail) matches Ok((_, n)) ==> n != record_len(r) && 4
            <= i <= 20,
{
    reveal(parse_record);
    let h = header_of(r);
    let p = payload(h, encode_utf8(r.key), encode_utf8(r.value));
    let whole = encoded(r);
    let bad = whole.update(i, b) + tail;
    let ve = record_len(r) as int;
    lemma_encoded_len(r);
    assert(whole == be_u32(checksum(p)) + p);
    assert(be_u32(checksum(p)).len() == 4);
    lemma_be_u32_roundtrip(checksum(p));
    if i < 4 || i > 20 {
        lemma_corruption_detected(r, i, b, tail);
    } else if parse_record(bad) is Ok && (parse_record(bad)->Ok_0).1 == record_len(r) {
        assert(bad.subrange(0, 4) =~= be_u32(checksum(p)));
        assert(bad.subrange(4, ve) =~= p.update(i - 4, b));
        lemma_single_byte_change_detected(p, i - 4, b);
    }
}

/// A record with one byte changed in the checksum, in the flags or after them is
/// refused: its checksum does not match. A change of the flags must leave open whether
/// a time of expiry follows.
pub proof fn lemma_corruption_detected(r: RecordView, i: int, b: u8, tail: Seq<u8>)
    requires
        within_limits(r),
        0 <= i < 4 || 20 <= i < record_len(r),
        i == 20 ==> flags_have_expiry(b) == r.expiry_ms is Some,
        b != encoded(r)[i],
    ensures
        parse_record(encoded(r).update(i, b) + tail) == Err::<(RecordView, nat), StoreError>(
            StoreError::CrcMismatch,
        ),
{
    reveal(parse_record);
    let h = header_of(r);
    let p = payload(h, encode_utf8(r.key), encode_utf8(r.value));
    let whole = encoded(r);
    let bad = whole.update(i, b) + tail;
    let ve = record_len(r) as int;
    lemma_encoded_len(r);
    assert(whole == be_u32(checksum(p)) + p);
    assert(be_u32(checksum(p)).len() == 4);
    lemma_be_u32_roundtrip(checksum(p));
    lemma_be_u64_roundtrip(h.key_size);
    lemma_be_u64_roundtrip(h.value_size);
    assert(bad.subrange(4, 12) =~= be_u64(h.key_size));
    assert(bad.subrange(12, 20) =~= be_u64(h.value_size));
    assert(whole[20] == flags_of(h.tombstone, h.expiry_ms));
    assert(flags_have_expiry(bad[20]) == h.expiry_ms is Some);
    let hb = parse_header(bad)->Ok_0;
    assert(parse_header(bad) is Ok);
    assert(hb.key_size == h.key_size);
    assert(hb.value_size == h.value_size);
    assert(header_len(hb.expiry_ms) == header_len(h.expiry_ms));
    if i < 4 {
        assert(bad.subrange(4, ve) =~= p);
        assert(bad.subrange(0, 4)[i] != be_u32(checksum(p))[i]);
        lemma_from_be_u32_roundtrip(bad.subrange(0, 4));
    } else {
        assert(bad.subrange(0, 4) =~= be_u32(checksum(p)));
        assert(bad.subrange(4, ve) =~= p.update(i - 4, b));
        lemma_single_byte_change_detected(p, i - 4, b);
    }
}

/// Appending a record to bytes that were read to their end appends it to what is
/// read.
pub proof fn lemma_parse_stream_append(data: Seq<u8>, pos: int, r: RecordView)
    requires
        0 <= pos <= data.len(),
        parse_stream(data, pos).1 is None,
        within_limits(r),
    ensures
        parse_stream(data + encoded(r), pos) == (
            parse_stream(data, pos).0.push((data.len() as int, r)),
            None::<StoreError>,
        ),
    decreases data.len() - pos,
{
    let more = data + encoded(r);
    lemma_encoded_len(r);
    if pos == data.len() {
        lemma_record_roundtrip(r, Seq::empty());
        assert(more.skip(pos) =~= encoded(r) + Seq::<u8>::empty());
        let n = record_len(r) as int;
        assert(parse_stream(more, pos + n) == (
            Seq::<(int, RecordView)>::empty(),
            None::<StoreError>,
        ));
        assert(parse_stream(more, pos).0 =~= seq![(pos, r)]);
    } else {
        let s = data.skip(pos);
        lemma_parse_record_len(s);
        assert(more.skip(pos) =~= s + encoded(r));
        lemma_parse_record_prefix(s, encoded(r));
        let (r0, n) = parse_record(s)->Ok_0;
        lemma_parse_stream_append(data, pos + n, r);
        assert(parse_stream(more, pos).0 =~= parse_stream(data, pos).0.push(
            (data.len() as int, r),
        ));
    }
}

/// A record is read in the same way where bytes after it are missing.
pub proof fn lemma_parse_record_cut(s: Seq<u8>, m: int)
    requires
        parse_record(s) is Ok,
        (parse_record(s)->Ok_0).1 <= m <= s.len(),
    ensures
        parse_record(s.take(m)) == parse_record(s),
{
    reveal(parse_record);
    let st = s.take(m);
    let h = parse_header(s)->Ok_0;
    assert(st.subrange(0, 4) =~= s.subrange(0, 4));
    assert(st.subrange(4, 12) =~= s.subrange(4, 12));
    assert(st.subrange(12, 20) =~= s.subrange(12, 20));
    if flags_have_expiry(s[20]) {
        assert(st.subrange(21, 29) =~= s.subrange(21, 29));
    }
    assert(parse_header(st) == parse_header(s));
    let hl = header_len(h.expiry_ms) as int;
    let ke = hl + h.key_size;
    let ve = ke + h.value_size;
    assert(st.subrange(hl, ke) =~= s.subrange(hl, ke));
    assert(st.subrange(ke, ve) =~= s.subrange(ke, ve));
    assert(st.subrange(4, ve) =~= s.subrange(4, ve));
}

/// Where the whole records of `data` from `pos` on end.
pub open spec fn whole_len(data: Seq<u8>, pos: int) -> int
    decreases data.len() - pos,
{
    if pos < 0 || pos >= data.len() {
        pos
    } else {
        match parse_record(data.skip(pos)) {
            Err(_) => pos,
            Ok((_, n)) => if 0 < n && pos + n <= data.len() {
                whole_len(data, pos + n)
            } else {
                pos
            },
        }
    }
}

/// Bytes that are cut to their whole records hold the same records, and nothing else.
pub proof fn lemma_whole(data: Seq<u8>, pos: int)
    requires
        0 <= pos <= data.len(),
    ensures
        pos <= whole_len(data, pos) <= data.len(),
        parse_stream(data.take(whole_len(data, pos)), pos) == (
            parse_stream(data, pos).0,
            None::<StoreError>,
        ),
    decreases data.len() - pos,
{
    let w = whole_len(data, pos);
    if pos < data.len() {
        let s = data.skip(pos);
        lemma_parse_record_len(s);
        if let Ok((r, n)) = parse_record(s) {
            lemma_whole(data, pos + n);
            assert(data.take(w).skip(pos) =~= s.take(w - pos));
            lemma_parse_record_cut(s, w - pos);
        }
    }
}

/// Records with their positions, which lie further on.
pub open spec fn shifted(records: Seq<(int, RecordView)>, by: int) -> Seq<(int, RecordView)> {
    records.map_values(|x: (int, RecordView)| (x.0 + by, x.1))
}

proof fn lemma_parse_stream_shifted(a: Seq<u8>, b: Seq<u8>, pos: int)
    requires
        0 <= pos <= b.len(),
    ensures
        parse_stream(a + b, a.len() + pos) == (
            shifted(parse_stream(b, pos).0, a.len() as int),
            parse_stream(b, pos).1,
        ),
    decreases b.len() - pos,
{
    let k = a.len() as int;
    let all = a + b;
    if pos < b.len() {
        let s = b.skip(pos);
        lemma_parse_record_len(s);
        assert(all.skip(k + pos) =~= s);
        if let Ok((r, n)) = parse_record(s) {
            lemma_parse_stream_shifted(a, b, pos + n);
            assert(parse_stream(all, k + pos).0 =~= shifted(parse_stream(b, pos).0, k));
        } else {
            assert(shifted(parse_stream(b, pos).0, k) =~= Seq::<(int, RecordView)>::empty());
        }
    } else {
        assert(shifted(parse_stream(b, pos).0, k) =~= Seq::<(int, RecordView)>::empty());
    }
}

/// Bytes that follow others which were read to their end are read after them.
pub proof fn lemma_parse_stream_concat(a: Seq<u8>, b: Seq<u8>, pos: int)
    requires
        0 <= pos <= a.len(),
        parse_stream(a, pos).1 is None,
    ensures
        parse_stream(a + b, pos) == (
            parse_stream(a, pos).0 + shifted(parse_stream(b, 0).0, a.len() as int),
            parse_stream(b, 0).1,
        ),
    decreases a.len() - pos,
{
    let all = a + b;
    let tail = shifted(parse_stream(b, 0).0, a.len() as int);
    if pos == a.len() {
        lemma_parse_stream_shifted(a, b, 0);
        assert(Seq::<(int, RecordView)>::empty() + tail =~= tail);
    } else {
        let s = a.skip(pos);
        lemma_parse_record_len(s);
        assert(all.skip(pos) =~= s + b);
        lemma_parse_record_prefix(s, b);
        let (r, n) = parse_record(s)->Ok_0;
        lemma_parse_stream_concat(a, b, pos + n);
        assert(parse_stream(all, pos).0 =~= parse_stream(a, pos).0 + tail);
    }
}

/// A record of which only the first bytes were written ends too early.
pub proof fn lemma_broken_off(r: RecordView, n: int)
    requires
        within_limits(r),
        0 <= n < encoded(r).len(),
    ensures
        parse_record(encoded(r).take(n)) == Err::<(RecordView, nat), StoreError>(
            StoreError::UnexpectedEof,
        ),
{
    reveal(parse_record);
    let s = encoded(r) + Seq::<u8>::empty();
    let st = encoded(r).take(n);
    let h = header_of(r);
    lemma_record_bytes_parts(h, encode_utf8(r.key), encode_utf8(r.value), Seq::empty());
    assert(s =~= encoded(r));
    if n >= RECORD_HEADER_LEN {
        assert(st[20] == s[20]);
        assert(st.subrange(0, 4) =~= s.subrange(0, 4));
        assert(st.subrange(4, 12) =~= s.subrange(4, 12));
        assert(st.subrange(12, 20) =~= s.subrange(12, 20));
        if n >= RECORD_HEADER_LEN + TTL_LEN {
            assert(st.subrange(21, 29) =~= s.subrange(21, 29));
        }
    }
}

proof fn lemma_whole_before(a: Seq<u8>, b: Seq<u8>, pos: int)
    requires
        0 <= pos <= a.len(),
        parse_stream(a, pos).1 is None,
        b.len() > 0 ==> parse_record(b) is Err,
    ensures
        whole_len(a + b, pos) == a.len(),
    decreases a.len() - pos,
{
    let all = a + b;
    if pos == a.len() {
        assert(all.skip(pos) =~= b);
    } else {
        let s = a.skip(pos);
        lemma_parse_record_len(s);
        assert(all.skip(pos) =~= s + b);
        lemma_parse_record_prefix(s, b);
        lemma_whole_before(a, b, pos + (parse_record(s)->Ok_0).1);
    }
}

/// Bytes that hold nothing but whole records are cut nowhere.
pub proof fn lemma_whole_all(data: Seq<u8>)
    requires
        parse_stream(data, 0).1 is None,
    ensures
        whole_len(data, 0) == data.len(),
{
    lemma_whole_before(data, Seq::empty(), 0);
    assert(data + Seq::<u8>::empty() =~= data);
}

/// Bytes that hold whole records, and then one that was broken off, hold the whole ones.
pub proof fn lemma_torn(a: Seq<u8>, r: RecordView, n: int)
    requires
        parse_stream(a, 0).1 is None,
        within_limits(r),
        0 <= n < encoded(r).len(),
    ensures
        whole_len(a + encoded(r).take(n), 0) == a.len(),
        parse_stream(a + encoded(r).take(n), 0).0 == parse_stream(a, 0).0,
        parse_stream(a + encoded(r).take(n), 0).1 == (if n > 0 {
            Some(StoreError::UnexpectedEof)
        } else {
            None
        }),
{
    let b = encoded(r).take(n);
    lemma_broken_off(r, n);
    lemma_whole_before(a, b, 0);
    lemma_parse_stream_concat(a, b, 0);
    assert(b.skip(0) =~= b);
    assert(parse_stream(b, 0).0 =~= Seq::<(int, RecordView)>::empty());
    assert(parse_stream(a + b, 0).0 =~= parse_stream(a, 0).0);
}

/// The record at a position that was read is read at that position alone too.
pub proof fn lemma_parse_stream_at(data: Seq<u8>, pos: int, i: int)
    requires
        0 <= pos <= data.len(),
        0 <= i < parse_stream(data, pos).0.len(),
    ensures
        ({
            let (p, r) = parse_stream(data, pos).0[i];
            &&& pos <= p < data.len()
            &&& parse_record(data.skip(p)) is Ok
            &&& (parse_record(data.skip(p))->Ok_0).0 == r
        }),
    decreases data.len() - pos,
{
    if pos < data.len() {
        let s = data.skip(pos);
        lemma_parse_record_len(s);
        if let Ok((r0, n)) = parse_record(s) {
            if i > 0 {
                lemma_parse_stream_at(data, pos + n, i - 1);
            }
        }
    }
}

impl View for Record {
    type V = RecordView;

    open spec fn view(&self) -> RecordView {
        RecordView {
            key: self.key@,
            value: self.value@,
            tombstone: self.header.tombstone,
            expiry_ms: self.header.expiry_ms,
        }
    }
}

impl RecordHeader {
    /// Whether the record marks a deletion.
    pub fn is_tombstone(&self) -> (r: bool)
        ensures
            r == self.tombstone,
    {
        self.tombstone
    }

    fn flags(&self) -> (b: u8)
        ensures
            b == flags_of(self.tombstone, self.expiry_ms),
    {
        let t: u8 = if self.tombstone {
            FLAG_TOMBSTONE
        } else {
            0
        };
        let e: u8 = if self.expiry_ms.is_some() {
            FLAG_HAS_EXPIRY
        } else {
            0
        };
        t + e
    }
}

impl Record {
    /// Whether the header gives the sizes of the key and the value.
    pub open spec fn sized(&self) -> bool {
        &&& self.header.key_size == byte_len(self.key@)
        &&& self.header.value_size == byte_len(self.value@)
    }

    /// A record that says that `key` has `value`, or that it was deleted.
    pub fn build(key: String, value: String, tombstone: bool, expiry_ms: Option<u64>) -> (r: Record)
        ensures
            r.sized(),
            r@ == (RecordView { key: key@, value: value@, tombstone, expiry_ms }),
    {
        let key_size = len_of(key.as_str()) as u64;
        let value_size = len_of(value.as_str()) as u64;
        Record {
            header: RecordHeader { crc32: 0, key_size, value_size, tombstone, expiry_ms },
            key,
            value,
        }
    }

    /// The number of bytes that this record occupies: header, key and value.
    pub fn size_on_disk(&self) -> (n: u64)
        requires
            header_len(self.header.expiry_ms) + self.header.key_size + self.header.value_size
                <= u64::MAX,
        ensures
            n == header_len(self.header.expiry_ms) + self.header.key_size + self.header.value_size,
            self.sized() ==> n == record_len(self@),
    {
        let head: u64 = if self.header.expiry_ms.is_some() {
            (RECORD_HEADER_LEN + TTL_LEN) as u64
        } else {
            RECORD_HEADER_LEN as u64
        };
        head + self.header.key_size + self.header.value_size
    }

    /// Appends this record to the end of `file` with a fresh checksum. Returns
    /// the offset at which it starts.
    pub fn append(&self, file: &mut Vec<u8>) -> (offset: u64)
        ensures
            offset == old(file)@.len(),
            final(file)@ == old(file)@ + record_bytes(
                self.header,
                encode_utf8(self.key@),
                encode_utf8(self.value@),
            ),
            self.sized() ==> final(file)@ == old(file)@ + encoded(self@),
    {
        let offset = file.len() as u64;
        let bytes = self.to_be_bytes();
        push_all(file, bytes.as_slice());
        offset
    }

    /// Reads the header at `pos`.
    pub fn read_header(data: &[u8], pos: usize) -> (r: Result<RecordHeader, StoreError>)
        requires
            pos <= data@.len(),
        ensures
            r == parse_header(data@.skip(pos as int)),
    {
        let ghost s = data@.skip(pos as int);
        if data.len() - pos < RECORD_HEADER_LEN {
            return Err(StoreError::UnexpectedEof);
        }
        assert(s.subrange(0, 4) =~= data@.subrange(pos as int, pos + 4));
        assert(s.subrange(4, 12) =~= data@.subrange(pos + 4, pos + 12));
        assert(s.subrange(12, 20) =~= data@.subrange(pos + 12, pos + 20));
        let crc32 = read_u32(data, pos);
        let key_size = read_u64(data, pos + 4);
        let value_size = read_u64(data, pos + 12);
        let b = data[pos + 20];
        assert(s[20] == b);
        if b == FLAG_HAS_EXPIRY || b == FLAG_HAS_EXPIRY + FLAG_TOMBSTONE {
            if data.len() - pos < RECORD_HEADER_LEN + TTL_LEN {
                return Err(StoreError::UnexpectedEof);
            }
            assert(s.subrange(21, 29) =~= data@.subrange(pos + 21, pos + 29));
            let expiry = read_u64(data, pos + 21);
            Ok(
                RecordHeader {
                    crc32,
                    key_size,
                    value_size,
                    tombstone: b == FLAG_HAS_EXPIRY + FLAG_TOMBSTONE,
                    expiry_ms: Some(expiry),
                },
            )
        } else {
            Ok(RecordHeader { crc32, key_size, value_size, tombstone: b != 0, expiry_ms: None })
        }
    }

    /// Reads the record at `offset`.
    pub fn read_record_at(data: &[u8], offset: u64) -> (r: Result<Record, StoreError>)
        ensures
            match r {
                Ok(rec) => offset <= data@.len() && rec.sized() && parse_record(
                    data@.skip(offset as int),
                ) is Ok && (parse_record(data@.skip(offset as int))->Ok_0).0 == rec@
                    && rec.header.crc32 == from_be_u32(
                    data@.subrange(offset as int, offset + 4),
                ),
                Err(e) => if offset > data@.len() {
                    e == StoreError::UnexpectedEof
                } else {
                    parse_record(data@.skip(offset as int)) == Err::<(RecordView, nat), StoreError>(
                        e,
                    )
                },
            },
    {
        if offset > data.len() as u64 {
            return Err(StoreError::UnexpectedEof);
        }
        match Record::read_next(data, offset as usize) {
            Ok((rec, _)) => Ok(rec),
            Err(e) => Err(e),
        }
    }

    /// Reads the record at `pos`. Returns it with the position after it.
    ///
    /// The sizes are checked before the key and the value are read; then come the
    /// checksum and, last, that both strings are valid UTF-8.
    pub fn read_next(data: &[u8], pos: usize) -> (r: Result<(Record, usize), StoreError>)
        requires
            pos <= data@.len(),
        ensures
            match r {
                Ok((rec, next)) => pos < next <= data@.len() && rec.sized() && parse_record(
                    data@.skip(pos as int),
                ) == Ok::<(RecordView, nat), StoreError>((rec@, (next - pos) as nat))
                    && rec.header.crc32 == from_be_u32(data@.subrange(pos as int, pos + 4)),
                Err(e) => parse_record(data@.skip(pos as int)) == Err::<
                    (RecordView, nat),
                    StoreError,
                >(e),
            },
    {
        reveal(parse_record);
        let ghost s = data@.skip(pos as int);
        let header = match Record::read_header(data, pos) {
            Ok(h) => h,
            Err(e) => {
                return Err(e);
            },
        };
        if header.key_size > MAX_KEY_SIZE as u64 || header.value_size > MAX_VALUE_SIZE as u64 {
            return Err(StoreError::TooLarge);
        }
        let head: usize = if header.expiry_ms.is_some() {
            RECORD_HEADER_LEN + TTL_LEN
        } else {
            RECORD_HEADER_LEN
        };
        let key_size = header.key_size as usize;
        let value_size = header.value_size as usize;
        if data.len() - pos < head + key_size + value_size {
            return Err(StoreError::UnexpectedEof);
        }
        let key_start: usize = pos + head;
        let value_start: usize = key_start + key_size;
        let end: usize = value_start + value_size;
        let k_buf = copy_range(data, key_start, value_start);
        let v_buf = copy_range(data, value_start, end);
        assert(k_buf@ =~= s.subrange(head as int, head + key_size));
        assert(v_buf@ =~= s.subrange(head + key_size, head + key_size + value_size));
        let body = copy_range(data, pos + CRC_LEN, end);
        assert(body@ =~= s.subrange(4, head + key_size + value_size));
        if crc32(body.as_slice()) != header.crc32 {
            return Err(StoreError::CrcMismatch);
        }
        proof {
            if valid_utf8(k_buf@) {
                vstd::utf8::decode_utf8_encode_utf8(k_buf@);
            }
            if valid_utf8(v_buf@) {
                vstd::utf8::decode_utf8_encode_utf8(v_buf@);
            }
        }
        let key = match string_from_utf8(k_buf) {
            Some(k) => k,
            None => {
                return Err(StoreError::InvalidUtf8);
            },
        };
        let value = match string_from_utf8(v_buf) {
            Some(v) => v,
            None => {
                return Err(StoreError::InvalidUtf8);
            },
        };
        assert(s.subrange(0, 4) =~= data@.subrange(pos as int, pos + 4));
        Ok((Record { header, key, value }, end))
    }

    fn payload_bytes(header: &RecordHeader, key: &[u8], value: &[u8]) -> (buf: Vec<u8>)
        ensures
            buf@ == payload(*header, key@, value@),
    {
        let mut buf: Vec<u8> = Vec::new();
        push_u64(&mut buf, header.key_size);
        push_u64(&mut buf, header.value_size);
        buf.push(header.flags());
        match header.expiry_ms {
            Some(t) => {
                push_u64(&mut buf, t);
            },
            None => {},
        }
        push_all(&mut buf, key);
        push_all(&mut buf, value);
        assert(buf@ =~= payload(*header, key@, value@));
        buf
    }

    /// The bytes of this record, with a fresh checksum.
    pub fn to_be_bytes(&self) -> (buf: Vec<u8>)
        ensures
            buf@ == record_bytes(self.header, encode_utf8(self.key@), encode_utf8(self.value@)),
            self.sized() ==> buf@ == encoded(self@),
    {
        let body = Record::payload_bytes(
            &self.header,
            self.key.as_str().as_bytes(),
            self.value.as_str().as_bytes(),
        );
        let mut buf: Vec<u8> = Vec::new();
        push_u32(&mut buf, crc32(body.as_slice()));
        push_all(&mut buf, body.as_slice());
        assert(buf@ =~= record_bytes(self.header, encode_utf8(self.key@), encode_utf8(self.value@)));
        assert(payload(self.header, encode_utf8(self.key@), encode_utf8(self.value@)) == payload(
            RecordHeader { crc32: 0, ..self.header },
            encode_utf8(self.key@),
            encode_utf8(self.value@),
        ));
        buf
    }
}

/// What bytes say of a record. The byte after the sizes tells whether a time of expiry
/// follows, and whether the record is a deletion: 2 and 3 announce a time, and all but 0 and
/// 2 a deletion. Sizes that are too large are refused first, then bytes that end too early,
/// then a checksum that does not match what follows it, then text that is no UTF-8.
pub proof fn lemma_record_read(s: Seq<u8>)
    requires
        s.len() >= 29,
    ensures
        ({
            let timed = s[20] == 2 || s[20] == 3;
            let start: int = if timed {
                29
            } else {
                21
            };
            let key_size = from_be_u64(s.subrange(4, 12)) as int;
            let value_size = from_be_u64(s.subrange(12, 20)) as int;
            let mid = start + key_size;
            let end = mid + value_size;
            let large = key_size > 1024 * 1024 || value_size > 5 * 1024 * 1024;
            let sum = from_be_u32(s.subrange(0, 4));
            match parse_record(s) {
                Ok((r, n)) => {
                    &&& !large
                    &&& n == end <= s.len()
                    &&& checksum(s.subrange(4, end)) == sum
                    &&& encode_utf8(r.key) == s.subrange(start, mid)
                    &&& encode_utf8(r.value) == s.subrange(mid, end)
                    &&& r.tombstone <==> s[20] != 0 && s[20] != 2
                    &&& r.expiry_ms == if timed {
                        Some(from_be_u64(s.subrange(21, 29)))
                    } else {
                        None
                    }
                },
                Err(StoreError::TooLarge) => large,
                Err(StoreError::UnexpectedEof) => !large && s.len() < end,
                Err(StoreError::CrcMismatch) => !large && end <= s.len() && checksum(
                    s.subrange(4, end),
                ) != sum,
                Err(StoreError::InvalidUtf8) => !large && end <= s.len() && checksum(
                    s.subrange(4, end),
                ) == sum && !(valid_utf8(s.subrange(start, mid)) && valid_utf8(
                    s.subrange(mid, end),
                )),
                Err(_) => false,
            }
        }),
{
    reveal(parse_record);
    if let Ok(h) = parse_header(s) {
        let hl = header_len(h.expiry_ms) as int;
        if hl + h.key_size + h.value_size <= s.len() {
            let k = s.subrange(hl, hl + h.key_size);
            let v = s.subrange(hl + h.key_size, hl + h.key_size + h.value_size);
            if valid_utf8(k) {
                lemma_utf8_bytes_roundtrip(k);
            }
            if valid_utf8(v) {
                lemma_utf8_bytes_roundtrip(v);
            }
        }
    }
}

/// Bytes that hold whole records, and then something that is none, give the whole ones, and
/// what is wrong with the rest.
pub proof fn lemma_damaged(a: Seq<u8>, b: Seq<u8>, e: StoreError)
    requires
        parse_stream(a, 0).1 is None,
        b.len() > 0,
        parse_record(b) == Err::<(RecordView, nat), StoreError>(e),
    ensures
        parse_stream(a + b, 0).0 == parse_stream(a, 0).0,
        parse_stream(a + b, 0).1 == Some(e),
{
    lemma_parse_stream_concat(a, b, 0);
    assert(b.skip(0) =~= b);
    assert(parse_stream(b, 0).0 =~= Seq::<(int, RecordView)>::empty());
    assert(parse_stream(a + b, 0).0 =~= parse_stream(a, 0).0);
}

} // verus!
