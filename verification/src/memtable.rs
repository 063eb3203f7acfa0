//! The in-memory table of recent writes.

use vstd::prelude::*;
use vstd::utf8::encode_utf8;

use crate::record::{record_of, tombstone_of, RecordView, TTL_LEN};
use crate::sorted_map::{added_at, changed_at, keys_in_order, keys_of, StringMap};
use crate::text::{byte_len, len_of};

verus! {

/// What a memtable holds for a key.
#[derive(Debug)]
pub struct MemtableEntry {
    /// The value, or nothing where the key was deleted.
    pub value: Option<String>,
    /// The time from which on the entry has expired.
    pub expiry_ms: Option<u64>,
}

/// What an entry says.
pub struct EntryView {
    pub value: Option<Seq<char>>,
    pub expiry_ms: Option<u64>,
}

/// What a string that may be missing says.
pub open spec fn value_view(v: Option<String>) -> Option<Seq<char>> {
    match v {
        Some(s) => Some(s@),
        None => None,
    }
}

impl View for MemtableEntry {
    type V = EntryView;

    open spec fn view(&self) -> EntryView {
        EntryView { value: value_view(self.value), expiry_ms: self.expiry_ms }
    }
}

/// The record of an entry.
pub open spec fn entry_record(k: Seq<char>, e: EntryView) -> RecordView {
    match e.value {
        Some(v) => record_of(k, v, e.expiry_ms),
        None => tombstone_of(k),
    }
}

/// The entry of a record.
pub open spec fn record_entry(r: RecordView) -> EntryView {
    if r.tombstone {
        EntryView { value: None, expiry_ms: None }
    } else {
        EntryView { value: Some(r.value), expiry_ms: r.expiry_ms }
    }
}

/// What a memtable holds, and the size that it counts.
#[verifier::ext_equal]
pub struct MemtableView {
    pub entries: Map<Seq<char>, EntryView>,
    pub size: int,
}

/// The bytes that a value counts for.
pub open spec fn value_size(e: EntryView) -> int {
    match e.value {
        Some(v) => byte_len(v) as int,
        None => 0,
    }
}

/// The bytes that a time of expiry counts for.
pub open spec fn expiry_size(e: EntryView) -> int {
    if e.expiry_ms is Some {
        TTL_LEN as int
    } else {
        0
    }
}

/// The bytes that a key with its entry counts for.
pub open spec fn entry_size(k: Seq<char>, e: EntryView) -> int {
    byte_len(k) + value_size(e) + expiry_size(e)
}

/// The bytes that all entries count for.
pub open spec fn total_size(keys: Seq<Seq<char>>, entries: Seq<EntryView>) -> int
    decreases keys.len(),
{
    if keys.len() == 0 || entries.len() != keys.len() {
        0
    } else {
        total_size(keys.drop_last(), entries.drop_last()) + entry_size(keys.last(), entries.last())
    }
}

impl MemtableView {
    /// An empty table.
    pub open spec fn empty() -> MemtableView {
        MemtableView { entries: Map::empty(), size: 0 }
    }

    /// The table after a write. What the key counted for before no longer counts.
    pub open spec fn insert(self, k: Seq<char>, v: Seq<char>, expiry_ms: Option<u64>) -> MemtableView {
        let e = EntryView { value: Some(v), expiry_ms };
        MemtableView {
            entries: self.entries.insert(k, e),
            size: if self.entries.contains_key(k) {
                self.size - value_size(self.entries[k]) - expiry_size(self.entries[k]) + value_size(
                    e,
                ) + expiry_size(e)
            } else {
                self.size + entry_size(k, e)
            },
        }
    }

    /// The table after a deletion. The value of the key no longer counts.
    pub open spec fn remove(self, k: Seq<char>) -> MemtableView {
        MemtableView {
            entries: self.entries.insert(k, EntryView { value: None, expiry_ms: None }),
            size: if self.entries.contains_key(k) {
                self.size - value_size(self.entries[k])
            } else {
                self.size + byte_len(k)
            },
        }
    }
}

proof fn lemma_total_nonnegative(keys: Seq<Seq<char>>, entries: Seq<EntryView>)
    ensures
        total_size(keys, entries) >= 0,
    decreases keys.len(),
{
    if keys.len() > 0 && entries.len() == keys.len() {
        lemma_total_nonnegative(keys.drop_last(), entries.drop_last());
    }
}

proof fn lemma_total_insert(
    keys: Seq<Seq<char>>,
    entries: Seq<EntryView>,
    p: int,
    k: Seq<char>,
    e: EntryView,
)
    requires
        keys.len() == entries.len(),
        0 <= p <= keys.len(),
    ensures
        total_size(keys.insert(p, k), entries.insert(p, e)) == total_size(keys, entries)
            + entry_size(k, e),
    decreases keys.len(),
{
    let ks = keys.insert(p, k);
    let es = entries.insert(p, e);
    if p == keys.len() {
        assert(ks.drop_last() =~= keys);
        assert(es.drop_last() =~= entries);
    } else {
        assert(ks.drop_last() =~= keys.drop_last().insert(p, k));
        assert(es.drop_last() =~= entries.drop_last().insert(p, e));
        lemma_total_insert(keys.drop_last(), entries.drop_last(), p, k, e);
    }
}

proof fn lemma_total_update(keys: Seq<Seq<char>>, entries: Seq<EntryView>, p: int, e: EntryView)
    requires
        keys.len() == entries.len(),
        0 <= p < keys.len(),
    ensures
        total_size(keys, entries.update(p, e)) == total_size(keys, entries) - entry_size(
            keys[p],
            entries[p],
        ) + entry_size(keys[p], e),
        entry_size(keys[p], entries[p]) <= total_size(keys, entries),
    decreases keys.len(),
{
    let es = entries.update(p, e);
    lemma_total_nonnegative(keys.drop_last(), entries.drop_last());
    if p == keys.len() - 1 {
        assert(es.drop_last() =~= entries.drop_last());
    } else {
        assert(es.drop_last() =~= entries.drop_last().update(p, e));
        lemma_total_update(keys.drop_last(), entries.drop_last(), p, e);
    }
}

proof fn lemma_total_remove(keys: Seq<Seq<char>>, entries: Seq<EntryView>, p: int)
    requires
        keys.len() == entries.len(),
        0 <= p < keys.len(),
    ensures
        total_size(keys.remove(p), entries.remove(p)) == total_size(keys, entries) - entry_size(
            keys[p],
            entries[p],
        ),
{
    assert(keys.remove(p).insert(p, keys[p]) =~= keys);
    assert(entries.remove(p).insert(p, entries[p]) =~= entries);
    lemma_total_insert(keys.remove(p), entries.remove(p), p, keys[p], entries[p]);
}

/// A sorted table of the latest writes, with the bytes that they count for.
pub struct Memtable {
    entries: StringMap<MemtableEntry>,
    size_bytes: usize,
}

impl View for Memtable {
    type V = MemtableView;

    closed spec fn view(&self) -> MemtableView {
        MemtableView { entries: self.entries@, size: self.size_bytes as int }
    }
}

/// Whether the size of a table is what its entries take together.
pub open spec fn sized_exactly(v: MemtableView) -> bool {
    v.size == total_size(
        keys_in_order(v.entries),
        keys_in_order(v.entries).map_values(|k: Seq<char>| v.entries[k]),
    )
}

impl Memtable {
    /// The keys, in order.
    pub closed spec fn keys_seq(&self) -> Seq<Seq<char>> {
        self.entries.keys_seq()
    }

    /// The entries, in the order of their keys.
    pub closed spec fn entries_seq(&self) -> Seq<EntryView> {
        self.entries.values_seq()
    }

    /// The keys are in order, and no entry is left out of the size.
    pub closed spec fn wf(&self) -> bool {
        &&& self.entries.wf()
        &&& self.size_bytes >= total_size(self.entries.keys_seq(), self.entries.values_seq())
    }

    /// The order of the entries is that of their keys, and the size counts each of
    /// them.
    pub proof fn lemma_order(&self)
        requires
            self.wf(),
        ensures
            keys_of(self@.entries, self.keys_seq()),
            keys_in_order(self@.entries) == self.keys_seq(),
            self.keys_seq().len() == self.entries_seq().len(),
            forall|i: int|
                0 <= i < self.keys_seq().len() ==> self@.entries.contains_key(
                    #[trigger] self.keys_seq()[i],
                ) && self@.entries[self.keys_seq()[i]] == self.entries_seq()[i],
            self@.size >= total_size(self.keys_seq(), self.entries_seq()),
    {
        self.entries.lemma_keys();
        assert forall|i: int| 0 <= i < self.keys_seq().len() implies self@.entries.contains_key(
            #[trigger] self.keys_seq()[i],
        ) && self@.entries[self.keys_seq()[i]] == self.entries_seq()[i] by {
            self.entries.lemma_at(i);
        }
    }

    /// The entries in the order of their keys, as the map gives them.
    proof fn lemma_sized(&self)
        requires
            self.wf(),
        ensures
            sized_exactly(self@) <==> self.size_bytes == total_size(
                self.entries.keys_seq(),
                self.entries.values_seq(),
            ),
    {
        self.lemma_order();
        let m = self@.entries;
        assert(keys_in_order(m).map_values(|k: Seq<char>| m[k]) =~= self.entries_seq());
    }

    /// An empty table.
    pub fn new() -> (m: Self)
        ensures
            m.wf(),
            sized_exactly(m@),
            m@ == MemtableView::empty(),
            m.keys_seq() == Seq::<Seq<char>>::empty(),
    {
        let m = Memtable { entries: StringMap::new(), size_bytes: 0 };
        proof {
            m.lemma_sized();
        }
        m
    }

    /// The value of `key`: nothing in place of it where the key was deleted.
    pub fn entry(&self, key: &str) -> (r: Option<&Option<String>>)
        requires
            self.wf(),
        ensures
            match r {
                Some(v) => self@.entries.contains_key(key@) && value_view(*v)
                    == self@.entries[key@].value,
                None => !self@.entries.contains_key(key@),
            },
    {
        match self.entries.get(key) {
            Some(e) => Some(&e.value),
            None => None,
        }
    }

    /// The whole entry of `key`.
    pub fn timed_entry(&self, key: &str) -> (r: Option<&MemtableEntry>)
        requires
            self.wf(),
        ensures
            match r {
                Some(e) => self@.entries.contains_key(key@) && e@ == self@.entries[key@],
                None => !self@.entries.contains_key(key@),
            },
    {
        self.entries.get(key)
    }

    /// Sets the value of `key`, with no time of expiry.
    pub fn insert(&mut self, key: String, value: String)
        requires
            old(self).wf(),
            old(self)@.size + byte_len(key@) + byte_len(value@) <= usize::MAX,
        ensures
            final(self).wf(),
            final(self)@ == old(self)@.insert(key@, value@, None),
            sized_exactly(old(self)@) ==> sized_exactly(final(self)@),
    {
        self.insert_with_expiry(key, value, None)
    }

    /// Sets the value of `key` and the time at which it expires.
    pub fn insert_with_expiry(&mut self, key: String, value: String, expiry_ms: Option<u64>)
        requires
            old(self).wf(),
            old(self)@.size + entry_size(
                key@,
                EntryView { value: Some(value@), expiry_ms },
            ) <= usize::MAX,
        ensures
            final(self).wf(),
            final(self)@ == old(self)@.insert(key@, value@, expiry_ms),
            sized_exactly(old(self)@) ==> sized_exactly(final(self)@),
    {
        proof {
            self.lemma_sized();
        }
        let ghost k = key@;
        let ghost keys = self.entries.keys_seq();
        let ghost olds = self.entries.values_seq();
        let ghost e = EntryView { value: Some(value@), expiry_ms };
        let key_len = len_of(key.as_str());
        let value_len = len_of(value.as_str());
        let ttl_bytes: usize = if expiry_ms.is_some() {
            TTL_LEN
        } else {
            0
        };
        let entry = MemtableEntry { value: Some(value), expiry_ms };
        assert(entry@ == e);
        match self.entries.insert(key, entry) {
            Some(old_entry) => {
                let old_value_len: usize = match &old_entry.value {
                    Some(v) => len_of(v.as_str()),
                    None => 0,
                };
                let old_ttl: usize = if old_entry.expiry_ms.is_some() {
                    TTL_LEN
                } else {
                    0
                };
                proof {
                    let p = choose|p: int|
                        #[trigger] changed_at(
                            keys,
                            olds,
                            self.entries.keys_seq(),
                            self.entries.values_seq(),
                            k,
                            e,
                            p,
                        ) && olds[p] == old_entry@;
                    lemma_total_update(keys, olds, p, e);
                }
                self.size_bytes = self.size_bytes - old_value_len - old_ttl + value_len + ttl_bytes;
            },
            None => {
                proof {
                    let p = choose|p: int|
                        #[trigger] added_at(
                            keys,
                            olds,
                            self.entries.keys_seq(),
                            self.entries.values_seq(),
                            k,
                            e,
                            p,
                        );
                    lemma_total_insert(keys, olds, p, k, e);
                }
                self.size_bytes = self.size_bytes + key_len + value_len + ttl_bytes;
            },
        }
        proof {
            self.lemma_sized();
        }
    }

    /// Marks `key` as deleted.
    pub fn remove(&mut self, key: String)
        requires
            old(self).wf(),
            old(self)@.size + byte_len(key@) <= usize::MAX,
        ensures
            final(self).wf(),
            final(self)@ == old(self)@.remove(key@),
            sized_exactly(old(self)@) && (old(self)@.entries.contains_key(key@) ==> old(
                self,
            )@.entries[key@].expiry_ms is None) ==> sized_exactly(final(self)@),
    {
        proof {
            self.lemma_sized();
        }
        let ghost k = key@;
        let ghost keys = self.entries.keys_seq();
        let ghost olds = self.entries.values_seq();
        let ghost e = EntryView { value: None, expiry_ms: None };
        let key_len = len_of(key.as_str());
        let entry = MemtableEntry { value: None, expiry_ms: None };
        assert(entry@ == e);
        match self.entries.insert(key, entry) {
            Some(old_entry) => {
                let old_value_len: usize = match &old_entry.value {
                    Some(v) => len_of(v.as_str()),
                    None => 0,
                };
                proof {
                    let p = choose|p: int|
                        #[trigger] changed_at(
                            keys,
                            olds,
                            self.entries.keys_seq(),
                            self.entries.values_seq(),
                            k,
                            e,
                            p,
                        ) && olds[p] == old_entry@;
                    lemma_total_update(keys, olds, p, e);
                }
                self.size_bytes = self.size_bytes - old_value_len;
            },
            None => {
                proof {
                    let p = choose|p: int|
                        #[trigger] added_at(
                            keys,
                            olds,
                            self.entries.keys_seq(),
                            self.entries.values_seq(),
                            k,
                            e,
                            p,
                        );
                    lemma_total_insert(keys, olds, p, k, e);
                }
                self.size_bytes = self.size_bytes + key_len;
            },
        }
        proof {
            self.lemma_sized();
        }
    }

    /// The bytes that the entries will count for once `key` has a value, or is deleted
    /// where there is none.
    pub fn size_after(&self, key: &str, value: Option<&str>, expiry_ms: Option<u64>) -> (n: usize)
        requires
            self.wf(),
            match value {
                Some(v) => self@.size + entry_size(
                    key@,
                    EntryView { value: Some(v@), expiry_ms },
                ) <= usize::MAX,
                None => self@.size + byte_len(key@) <= usize::MAX,
            },
        ensures
            n == match value {
                Some(v) => self@.insert(key@, v@, expiry_ms).size,
                None => self@.remove(key@).size,
            },
    {
        let there = self.entries.get(key);
        let old_ttl: usize = match there {
            Some(e) if e.expiry_ms.is_some() => TTL_LEN,
            _ => 0,
        };
        let old_value_len: usize = match there {
            Some(e) => match &e.value {
                Some(v) => len_of(v.as_str()),
                None => 0,
            },
            None => 0,
        };
        proof {
            if self@.entries.contains_key(key@) {
                let p = self.entries.lemma_position(key@);
                self.entries.lemma_at(p);
                lemma_total_update(
                    self.entries.keys_seq(),
                    self.entries.values_seq(),
                    p,
                    self.entries.values_seq()[p],
                );
            }
        }
        let new_key_len: usize = match there {
            Some(_) => 0,
            None => len_of(key),
        };
        match value {
            Some(v) => {
                let ttl: usize = if expiry_ms.is_some() {
                    TTL_LEN
                } else {
                    0
                };
                self.size_bytes - old_value_len - old_ttl + new_key_len + len_of(v) + ttl
            },
            None => self.size_bytes - old_value_len + new_key_len,
        }
    }

    /// The bytes that the entries count for.
    pub fn size_bytes(&self) -> (n: usize)
        ensures
            n == self@.size,
    {
        self.size_bytes
    }

    /// The entries, in the order of their keys.
    pub fn entries(&self) -> (m: &StringMap<MemtableEntry>)
        requires
            self.wf(),
        ensures
            m.wf(),
            m@ == self@.entries,
            m.keys_seq() == self.keys_seq(),
            m.values_seq() == self.entries_seq(),
    {
        &self.entries
    }

    /// Removes every entry.
    pub fn clear(&mut self)
        ensures
            final(self).wf(),
            final(self)@ == MemtableView::empty(),
            final(self).keys_seq() == Seq::<Seq<char>>::empty(),
    {
        self.entries.clear();
        self.size_bytes = 0;
    }

    /// Removes the keys that were deleted, and counts the size anew.
    pub fn drop_tombstones(&mut self)
        requires
            old(self).wf(),
        ensures
            final(self).wf(),
            final(self)@.entries == old(self)@.entries.restrict(
                Set::new(
                    |k: Seq<char>|
                        old(self)@.entries.contains_key(k) && old(self)@.entries[k].value is Some,
                ),
            ),
            final(self)@.size == total_size(final(self).keys_seq(), final(self).entries_seq()),
    {
        let ghost m = self.entries@;
        let mut i: usize = self.entries.len();
        while i > 0
            invariant
                m == old(self).entries@,
                self.size_bytes == old(self).size_bytes,
                self.entries.wf(),
                i <= self.entries.keys_seq().len(),
                total_size(self.entries.keys_seq(), self.entries.values_seq()) <= self.size_bytes,
                forall|k: Seq<char>| #[trigger]
                    self.entries@.contains_key(k) ==> m.contains_key(k) && self.entries@[k] == m[k],
                forall|j: int|
                    i <= j < self.entries.keys_seq().len() ==> (
                    #[trigger] self.entries.values_seq()[j]).value is Some,
                forall|k: Seq<char>| #[trigger]
                    m.contains_key(k) && m[k].value is Some ==> self.entries@.contains_key(k),
            decreases i,
        {
            i = i - 1;
            proof {
                self.entries.lemma_at(i as int);
            }
            if self.entries.value_at(i).value.is_none() {
                let ghost before = self.entries;
                let ghost key = self.entries.keys_seq()[i as int];
                let _ = self.entries.remove_at(i);
                proof {
                    lemma_total_remove(before.keys_seq(), before.values_seq(), i as int);
                    lemma_total_nonnegative(seq![key], seq![before.values_seq()[i as int]]);
                }
            }
        }
        let mut size: usize = 0;
        let n = self.entries.len();
        let ghost keys = self.entries.keys_seq();
        let ghost es = self.entries.values_seq();
        for j in 0..n
            invariant
                self.entries.wf(),
                keys == self.entries.keys_seq(),
                es == self.entries.values_seq(),
                n == keys.len(),
                keys.len() == es.len(),
                size == total_size(keys.take(j as int), es.take(j as int)),
                total_size(keys, es) <= usize::MAX,
        {
            let e = self.entries.value_at(j);
            proof {
                assert(keys.take(j + 1).drop_last() =~= keys.take(j as int));
                assert(es.take(j + 1).drop_last() =~= es.take(j as int));
                lemma_total_prefix(keys, es, j + 1);
            }
            let value_len: usize = match &e.value {
                Some(v) => len_of(v.as_str()),
                None => 0,
            };
            let ttl: usize = if e.expiry_ms.is_some() {
                TTL_LEN
            } else {
                0
            };
            size = size + len_of(self.entries.key_at(j).as_str()) + value_len + ttl;
        }
        assert(keys.take(n as int) =~= keys);
        assert(es.take(n as int) =~= es);
        self.size_bytes = size;
        proof {
            assert forall|k: Seq<char>| #[trigger] self.entries@.contains_key(k) implies m[k].value is Some by {
                let j = self.entries.lemma_position(k);
                assert(es[j].value is Some);
            }
            assert(self@.entries =~= m.restrict(
                Set::new(|k: Seq<char>| m.contains_key(k) && m[k].value is Some),
            ));
        }
    }
}

proof fn lemma_total_prefix(keys: Seq<Seq<char>>, entries: Seq<EntryView>, n: int)
    requires
        keys.len() == entries.len(),
        0 <= n <= keys.len(),
    ensures
        total_size(keys.take(n), entries.take(n)) <= total_size(keys, entries),
    decreases keys.len() - n,
{
    if n < keys.len() {
        lemma_total_prefix(keys, entries, n + 1);
        assert(keys.take(n + 1).drop_last() =~= keys.take(n));
        assert(entries.take(n + 1).drop_last() =~= entries.take(n));
    } else {
        assert(keys.take(n) =~= keys);
        assert(entries.take(n) =~= entries);
    }
}

impl Default for Memtable {
    fn default() -> (m: Self)
        ensures
            m.wf(),
            m@ == MemtableView::empty(),
    {
        Memtable::new()
    }
}

/// A write leaves the key with its value and its time of expiry, and every other key as it
/// was. A table counts the bytes of its keys and values, and eight for each time of expiry.
pub proof fn lemma_inserted(
    m: MemtableView,
    k: Seq<char>,
    v: Seq<char>,
    expiry_ms: Option<u64>,
    other: Seq<char>,
    before: Seq<char>,
)
    ensures
        m.insert(k, v, expiry_ms).entries.contains_key(k),
        m.insert(k, v, expiry_ms).entries[k].value == Some(v),
        m.insert(k, v, expiry_ms).entries[k].expiry_ms == expiry_ms,
        other != k ==> m.insert(k, v, expiry_ms).entries.contains_key(other)
            == m.entries.contains_key(other) && (m.entries.contains_key(other) ==> m.insert(
            k,
            v,
            expiry_ms,
        ).entries[other] == m.entries[other]),
        !m.entries.contains_key(k) ==> m.insert(k, v, expiry_ms).size == m.size + encode_utf8(
            k,
        ).len() + encode_utf8(v).len() + (if expiry_ms is Some {
            8int
        } else {
            0int
        }),
        // The same write once more changes nothing.
        m.insert(k, v, expiry_ms).insert(k, v, expiry_ms) == m.insert(k, v, expiry_ms),
        // A deletion takes the value out of the count.
        m.insert(k, v, expiry_ms).remove(k).size == m.insert(k, v, expiry_ms).size - encode_utf8(
            v,
        ).len(),
        !m.entries.contains_key(k) ==> m.remove(k).size == m.size + encode_utf8(k).len(),
        // What the key held before does not count.
        m.insert(k, before, None).insert(k, v, expiry_ms) == m.insert(k, v, expiry_ms),
{
    assert(m.insert(k, v, expiry_ms).insert(k, v, expiry_ms).entries =~= m.insert(
        k,
        v,
        expiry_ms,
    ).entries);
    assert(m.insert(k, before, None).insert(k, v, expiry_ms).entries =~= m.insert(k, v, expiry_ms).entries);
}

/// A deletion leaves the key without a value and without a time of expiry, and every other
/// key as it was. A second one changes nothing.
pub proof fn lemma_removed(m: MemtableView, k: Seq<char>, other: Seq<char>)
    ensures
        m.remove(k).entries.contains_key(k),
        m.remove(k).entries[k].value is None,
        m.remove(k).entries[k].expiry_ms is None,
        other != k ==> m.remove(k).entries.contains_key(other) == m.entries.contains_key(other) && (
        m.entries.contains_key(other) ==> m.remove(k).entries[other] == m.entries[other]),
        m.remove(k).remove(k) == m.remove(k),
{
    assert(m.remove(k).remove(k).entries =~= m.remove(k).entries);
}

/// A value and a deletion are logged as records of their own kind, with the key, the value
/// and the time of expiry, and are read back from them.
pub proof fn lemma_entry_records(k: Seq<char>, v: Seq<char>, expiry_ms: Option<u64>)
    ensures
        ({
            let r = entry_record(k, EntryView { value: Some(v), expiry_ms });
            &&& r.key == k
            &&& r.value == v
            &&& r.expiry_ms == expiry_ms
            &&& !r.tombstone
            &&& record_entry(r).value == Some(v)
            &&& record_entry(r).expiry_ms == expiry_ms
        }),
        ({
            let r = entry_record(k, EntryView { value: None, expiry_ms });
            &&& r.key == k
            &&& r.value.len() == 0
            &&& r.expiry_ms is None
            &&& r.tombstone
            &&& record_entry(r).value is None
        }),
{
}

/// Entries count for the bytes of their keys and values, and eight for each time of expiry,
/// added up.
pub proof fn lemma_total_size(
    keys: Seq<Seq<char>>,
    entries: Seq<EntryView>,
    k: Seq<char>,
    e: EntryView,
)
    requires
        keys.len() == entries.len(),
    ensures
        total_size(Seq::empty(), Seq::empty()) == 0,
        total_size(keys.push(k), entries.push(e)) == total_size(keys, entries) + encode_utf8(
            k,
        ).len() + (match e.value {
            Some(v) => encode_utf8(v).len() as int,
            None => 0,
        }) + (if e.expiry_ms is Some {
            8int
        } else {
            0int
        }),
{
    assert(keys.push(k).drop_last() =~= keys);
    assert(entries.push(e).drop_last() =~= entries);
}

} // verus!
