//! Hint files: the keys of a segment with the offsets of their records.
//!
//! ```text
//! | key_size (8 B) | offset (8 B) | tombstone (1 B) | key (key_size B) |
//! ```

use vstd::prelude::*;
use vstd::utf8::{decode_utf8, encode_utf8, valid_utf8};

use crate::bytes::{
    be_u64, copy_range, from_be_u64, lemma_be_u64_roundtrip, push_all, push_u64, read_u64,
};
use crate::error::StoreError;
use crate::text::{byte_len, lemma_utf8_bytes_roundtrip, lemma_utf8_roundtrip, string_from_utf8};

verus! {

pub const HINT_HEADER_LEN: usize = 17;

/// Hint files as a whole.
pub struct Hint {}

/// Where the record of a key stands.
#[derive(Debug)]
pub struct HintEntry {
    pub key_size: u64,
    pub offset: u64,
    pub tombstone: bool,
    pub key: String,
}

/// What a hint entry says.
pub struct HintView {
    pub key_size: u64,
    pub offset: u64,
    pub tombstone: bool,
    pub key: Seq<char>,
}

impl View for HintEntry {
    type V = HintView;

    open spec fn view(&self) -> HintView {
        HintView {
            key_size: self.key_size,
            offset: self.offset,
            tombstone: self.tombstone,
            key: self.key@,
        }
    }
}

impl HintView {
    /// Whether the entry gives the size of its key.
    pub open spec fn sized(self) -> bool {
        self.key_size == byte_len(self.key)
    }
}

/// The bytes of an entry.
#[verifier::opaque]
pub open spec fn hint_bytes(e: HintView) -> Seq<u8> {
    be_u64(e.key_size) + be_u64(e.offset) + seq![
        if e.tombstone {
            1u8
        } else {
            0u8
        },
    ] + encode_utf8(e.key)
}

/// The bytes of a hint file.
pub open spec fn hint_file(entries: Seq<HintView>) -> Seq<u8>
    decreases entries.len(),
{
    if entries.len() == 0 {
        Seq::empty()
    } else {
        hint_file(entries.drop_last()) + hint_bytes(entries.last())
    }
}

/// The entry that `s` begins with, and how many bytes it takes.
#[verifier::opaque]
pub open spec fn parse_hint(s: Seq<u8>) -> Result<(HintView, nat), StoreError> {
    if s.len() < HINT_HEADER_LEN {
        Err(StoreError::UnexpectedEof)
    } else {
        let n = from_be_u64(s.subrange(0, 8));
        if s.len() < HINT_HEADER_LEN + n {
            Err(StoreError::UnexpectedEof)
        } else if !valid_utf8(s.subrange(17, 17 + n)) {
            Err(StoreError::InvalidUtf8)
        } else {
            Ok(
                (
                    HintView {
                        key_size: n,
                        offset: from_be_u64(s.subrange(8, 16)),
                        tombstone: s[16] != 0,
                        key: decode_utf8(s.subrange(17, 17 + n)),
                    },
                    (17 + n) as nat,
                ),
            )
        }
    }
}

/// How an entry is laid out: the size of the key, the offset of its record, a 1 for a
/// deletion and else a 0, and the key. Fewer bytes than that are refused.
pub proof fn lemma_hint_layout(e: HintView, s: Seq<u8>)
    ensures
        hint_bytes(e) == be_u64(e.key_size) + be_u64(e.offset) + seq![
            if e.tombstone {
                1u8
            } else {
                0u8
            },
        ] + encode_utf8(e.key),
        hint_file(Seq::empty()) == Seq::<u8>::empty(),
        s.len() < 17 || s.len() < 17 + from_be_u64(s.subrange(0, 8)) ==> parse_hint(s) == Err::<
            (HintView, nat),
            StoreError,
        >(StoreError::UnexpectedEof),
{
    reveal(hint_bytes);
    reveal(parse_hint);
}

/// The entries of a hint file from `pos` on.
pub open spec fn parse_hints(data: Seq<u8>, pos: int) -> Result<Seq<HintView>, StoreError>
    decreases data.len() - pos,
{
    if pos < 0 || pos >= data.len() {
        Ok(Seq::empty())
    } else {
        match parse_hint(data.skip(pos)) {
            Err(e) => Err(e),
            Ok((h, n)) => if 0 < n && pos + n <= data.len() {
                match parse_hints(data, pos + n) {
                    Err(e) => Err(e),
                    Ok(rest) => Ok(seq![h] + rest),
                }
            } else {
                Ok(Seq::empty())
            },
        }
    }
}

/// An entry is read back from its bytes, whatever follows it.
pub proof fn lemma_hint_roundtrip(e: HintView, tail: Seq<u8>)
    requires
        e.sized(),
    ensures
        hint_bytes(e).len() == 17 + e.key_size,
        parse_hint(hint_bytes(e) + tail) == Ok::<(HintView, nat), StoreError>(
            (e, (17 + e.key_size) as nat),
        ),
{
    reveal(hint_bytes);
    reveal(parse_hint);
    let s = hint_bytes(e) + tail;
    lemma_be_u64_roundtrip(e.key_size);
    lemma_be_u64_roundtrip(e.offset);
    lemma_utf8_roundtrip(e.key);
    assert(s.subrange(0, 8) =~= be_u64(e.key_size));
    assert(s.subrange(8, 16) =~= be_u64(e.offset));
    assert(s.subrange(17, 17 + e.key_size) =~= encode_utf8(e.key));
}

proof fn lemma_hint_file_from(entries: Seq<HintView>, k: int)
    requires
        0 <= k <= entries.len(),
        forall|i: int| 0 <= i < entries.len() ==> (#[trigger] entries[i]).sized(),
    ensures
        hint_file(entries.take(k)).len() <= hint_file(entries).len(),
        hint_file(entries).take(hint_file(entries.take(k)).len() as int) == hint_file(
            entries.take(k),
        ),
        parse_hints(hint_file(entries), hint_file(entries.take(k)).len() as int) == Ok::<
            Seq<HintView>,
            StoreError,
        >(entries.skip(k)),
    decreases entries.len() - k,
{
    let data = hint_file(entries);
    let before = hint_file(entries.take(k));
    if k == entries.len() {
        assert(entries.take(k) =~= entries);
        assert(data.take(before.len() as int) =~= data);
        assert(entries.skip(k) =~= Seq::<HintView>::empty());
    } else {
        lemma_hint_file_from(entries, k + 1);
        assert(entries.take(k + 1).drop_last() =~= entries.take(k));
        let next = hint_file(entries.take(k + 1));
        assert(next == before + hint_bytes(entries[k]));
        let pos = before.len() as int;
        assert(data.take(pos) =~= data.take(next.len() as int).take(pos));
        assert(next.take(pos) =~= before);
        assert(data.skip(pos) =~= hint_bytes(entries[k]) + data.skip(next.len() as int)) by {
            assert(data =~= next + data.skip(next.len() as int));
        }
        lemma_hint_roundtrip(entries[k], data.skip(next.len() as int));
        assert(entries.skip(k) =~= seq![entries[k]] + entries.skip(k + 1));
    }
}

/// What was written to a hint file is read back from it.
pub proof fn lemma_hint_file_roundtrip(entries: Seq<HintView>)
    requires
        forall|i: int| 0 <= i < entries.len() ==> (#[trigger] entries[i]).sized(),
    ensures
        parse_hints(hint_file(entries), 0) == Ok::<Seq<HintView>, StoreError>(entries),
{
    lemma_hint_file_from(entries, 0);
    assert(entries.take(0) =~= Seq::<HintView>::empty());
    assert(entries.skip(0) =~= entries);
}

/// What the entries of a slice say.
pub open spec fn hint_views(entries: Seq<HintEntry>) -> Seq<HintView> {
    entries.map_values(|e: HintEntry| e@)
}

impl Hint {
    /// Puts the entries into `file`, in place of what it held.
    pub fn write_file(file: &mut Vec<u8>, entries: &[HintEntry])
        ensures
            final(file)@ == hint_file(hint_views(entries@)),
    {
        file.clear();
        let ghost views = hint_views(entries@);
        assert(views.take(0) =~= Seq::<HintView>::empty());
        for i in 0..entries.len()
            invariant
                views == hint_views(entries@),
                file@ == hint_file(views.take(i as int)),
        {
            reveal(hint_bytes);
            let entry = &entries[i];
            let ghost before = file@;
            push_u64(file, entry.key_size);
            push_u64(file, entry.offset);
            file.push(
                if entry.tombstone {
                    1u8
                } else {
                    0u8
                },
            );
            push_all(file, entry.key.as_str().as_bytes());
            assert(views[i as int] == entry@);
            assert(file@ =~= before + hint_bytes(entry@));
            assert(views.take(i + 1).drop_last() =~= views.take(i as int));
        }
        assert(views.take(entries@.len() as int) =~= views);
    }

    /// Reads the entries of a hint file.
    pub fn read_file(data: &[u8]) -> (r: Result<Vec<HintEntry>, StoreError>)
        ensures
            match r {
                Ok(entries) => parse_hints(data@, 0) == Ok::<Seq<HintView>, StoreError>(
                    hint_views(entries@),
                ),
                Err(e) => parse_hints(data@, 0) == Err::<Seq<HintView>, StoreError>(e),
            },
    {
        let mut entries: Vec<HintEntry> = Vec::new();
        let mut pos: usize = 0;
        proof {
            if let Ok(all) = parse_hints(data@, 0) {
                assert(hint_views(entries@) + all =~= all);
            }
        }
        while pos < data.len()
            invariant
                pos <= data@.len(),
                match parse_hints(data@, pos as int) {
                    Ok(rest) => parse_hints(data@, 0) == Ok::<Seq<HintView>, StoreError>(
                        hint_views(entries@) + rest,
                    ),
                    Err(e) => parse_hints(data@, 0) == Err::<Seq<HintView>, StoreError>(e),
                },
            decreases data@.len() - pos,
        {
            reveal(parse_hint);
            let ghost s = data@.skip(pos as int);
            if data.len() - pos < HINT_HEADER_LEN {
                return Err(StoreError::UnexpectedEof);
            }
            assert(s.subrange(0, 8) =~= data@.subrange(pos as int, pos + 8));
            assert(s.subrange(8, 16) =~= data@.subrange(pos + 8, pos + 16));
            let key_size = read_u64(data, pos);
            let offset = read_u64(data, pos + 8);
            let tombstone = data[pos + 16] != 0;
            if ((data.len() - pos - HINT_HEADER_LEN) as u64) < key_size {
                return Err(StoreError::UnexpectedEof);
            }
            let end: usize = pos + HINT_HEADER_LEN + key_size as usize;
            let key_buf = copy_range(data, pos + HINT_HEADER_LEN, end);
            assert(key_buf@ =~= s.subrange(17, 17 + key_size));
            let key = match string_from_utf8(key_buf) {
                Some(k) => k,
                None => {
                    return Err(StoreError::InvalidUtf8);
                },
            };
            let entry = HintEntry { key_size, offset, tombstone, key };
            let ghost before = hint_views(entries@);
            let ghost e = entry@;
            entries.push(entry);
            assert(hint_views(entries@) =~= before.push(e));
            proof {
                if let Ok(rest) = parse_hints(data@, end as int) {
                    assert(before + (seq![e] + rest) =~= before.push(e) + rest);
                }
            }
            pos = end;
        }
        assert(hint_views(entries@) + Seq::<HintView>::empty() =~= hint_views(entries@));
        Ok(entries)
    }
}

/// What bytes say of an entry: the size of the key, the offset, whether it is of a deletion,
/// and the key itself, which has to be UTF-8.
pub proof fn lemma_hint_read(s: Seq<u8>)
    requires
        s.len() >= 17,
        s.len() >= 17 + from_be_u64(s.subrange(0, 8)),
    ensures
        ({
            let end = 17 + from_be_u64(s.subrange(0, 8));
            match parse_hint(s) {
                Ok((h, n)) => {
                    &&& n == end
                    &&& h.key_size == from_be_u64(s.subrange(0, 8))
                    &&& h.offset == from_be_u64(s.subrange(8, 16))
                    &&& h.tombstone <==> s[16] != 0
                    &&& encode_utf8(h.key) == s.subrange(17, end)
                },
                Err(e) => e == StoreError::InvalidUtf8 && !valid_utf8(s.subrange(17, end)),
            }
        }),
{
    reveal(parse_hint);
    let k = s.subrange(17, 17 + from_be_u64(s.subrange(0, 8)));
    if valid_utf8(k) {
        lemma_utf8_bytes_roundtrip(k);
    }
}

/// Where entries are read, one that cannot be makes all of them unreadable, and so does one
/// that comes after those that can.
pub proof fn lemma_damaged_hints(data: Seq<u8>, pos: int)
    requires
        0 <= pos < data.len(),
    ensures
        match parse_hint(data.skip(pos)) {
            Err(e) => parse_hints(data, pos) == Err::<Seq<HintView>, StoreError>(e),
            Ok((h, n)) => match parse_hints(data, pos + n) {
                Err(e) => parse_hints(data, pos) == Err::<Seq<HintView>, StoreError>(e),
                Ok(rest) => parse_hints(data, pos) == Ok::<Seq<HintView>, StoreError>(
                    seq![h] + rest,
                ),
            },
        },
{
    reveal(parse_hint);
}

} // verus!
