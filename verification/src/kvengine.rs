//! The hash-index engine: an index in memory, records in append-only segments,
//! and a log of what the latest segment may lack.

use vstd::prelude::*;
use vstd::string::StringExecFns;
use vstd::utf8::encode_utf8;

use crate::directory::{content, empties, files_fit, syncs, Change, Directory, Files};
use crate::engine::{error_in, unexpired, visible, Clock, Contents, Live, StorageEngine, TtlOutcome};
use crate::error::StoreError;
use crate::hash_index::{HashIndex, IndexEntry, IndexMap};
use crate::hint::{hint_file, hint_views, Hint, HintEntry, HintView};
use crate::memtable::{entry_record, value_size, EntryView, Memtable, MemtableEntry};
use crate::number::decimal;
use crate::record::{
    encoded, lemma_encoded_len, lemma_parsed_within_limits, record_len, record_of, tombstone_of,
    within_limits, Record, RecordView, MAX_KEY_SIZE, MAX_VALUE_SIZE,
};
use crate::recovery::{
    applied, durable, lasting, lemma_compacted_records, lemma_durable_compacted,
    lemma_durable_deleted, lemma_durable_new, lemma_durable_put, lemma_recovers, lemma_reopened,
    lemma_reopens, needed_only, usual,
};
use crate::segment::{
    get_segments, lemma_filename_injective, lemma_filename_no_hint,
    lemma_hint_filename_injective, lemma_segment_names, segment_filename, segment_hint_filename,
    segment_views, segments_of, Segment, SegmentView,
};
use crate::settings::FSyncStrategy;
use crate::sorted_map::{
    keys_in_order, lemma_orderable, lemma_orderable_part, orderable, strictly_sorted,
};
use crate::store::{
    appended, begun, contents_at, counted, empty_store, find, later_stamp, lemma_begun,
    lemma_sound_appended, lemma_sound_begun, lemma_sound_removed, lemma_sound_written,
    lemma_touched, load_index, load_segments, must_roll, next_stamp, record_at, segment_file,
    sound, sync_due, synced_by, touched, SegmentStore, StoreView,
};
use crate::text::{byte_len, key_lt, len_of, string_views};
use crate::utils::{expired, has_expired};
use crate::wal::{
    entries_within_limits, lemma_replayed_limits, lemma_wal_name, replayed, wal_filename, Wal,
};

verus! {

/// What an engine holds, in memory and in its directory.
pub struct KvView {
    pub files: Files,
    pub store: StoreView,
    pub dead_bytes: u64,
    pub total_bytes: u64,
    pub segment_count: usize,
}

/// The log of a database is none of its segments.
pub proof fn lemma_wal_is_no_segment(name: Seq<char>, timestamp: u64)
    ensures
        wal_filename(name) != segment_file(name, timestamp),
{
    assert(wal_filename(name).last() == 'l');
    assert(segment_file(name, timestamp).last() == 'b');
}

/// A change of the log leaves the records of the segments.
pub proof fn lemma_sound_wal(files: Files, name: Seq<char>, index: IndexMap, data: Seq<u8>)
    requires
        sound(files, name, index),
    ensures
        sound(files.insert(wal_filename(name), data), name, index),
        contents_at(files.insert(wal_filename(name), data), name, index) == contents_at(
            files,
            name,
            index,
        ),
{
    let files2 = files.insert(wal_filename(name), data);
    assert forall|k: Seq<char>| #[trigger] index.contains_key(k) implies record_at(
        files2,
        name,
        index[k],
    ) == record_at(files, name, index[k]) by {
        lemma_wal_is_no_segment(name, index[k].segment_timestamp);
    }
    assert forall|k: Seq<char>| #[trigger] index.contains_key(k) implies crate::store::entry_sound(
        files2,
        name,
        k,
        index[k],
    ) by {
        assert(crate::store::entry_sound(files, name, k, index[k]));
    }
    assert(contents_at(files2, name, index) =~= contents_at(files, name, index));
}

impl KvView {
    /// Whether every key of the index can be read.
    pub open spec fn sound(self) -> bool {
        sound(self.files, self.store.name, self.store.index)
    }

    /// The keys with their values and times of expiry.
    pub open spec fn contents(self) -> Contents {
        contents_at(self.files, self.store.name, self.store.index)
    }

    /// The name of the log.
    pub open spec fn wal(self) -> Seq<char> {
        wal_filename(self.store.name)
    }

    /// The name of the segment file that is written to.
    pub open spec fn active_file(self) -> Seq<char> {
        segment_file(self.store.name, self.store.active)
    }
}

/// An engine without keys.
pub open spec fn kv_new(
    files: Files,
    name: Seq<char>,
    max_segment_bytes: u64,
    fsync_strategy: FSyncStrategy,
    now_ms: u64,
) -> KvView {
    KvView {
        files: touched(begun(files, name, now_ms), wal_filename(name)),
        store: empty_store(name, now_ms, max_segment_bytes, fsync_strategy),
        dead_bytes: 0,
        total_bytes: 0,
        segment_count: 1,
    }
}

/// The engine after it turned to a new segment and emptied the log.
pub open spec fn kv_rolled(s: KvView, now_ms: u64) -> KvView {
    let next = next_stamp(s.store.active, now_ms);
    KvView {
        files: begun(s.files, s.store.name, next).insert(s.wal(), Seq::empty()),
        store: StoreView { active: next, ..s.store },
        segment_count: s.segment_count.wrapping_add(1),
        ..s
    }
}

/// The engine after a record was logged, and a new segment begun where the record
/// does not fit into the old one.
pub open spec fn kv_logged(s: KvView, r: RecordView, now_ms: u64) -> KvView {
    let s1 = KvView { files: appended(s.files, s.wal(), encoded(r)), ..s };
    if must_roll(s1.files, s1.store, record_len(r)) {
        kv_rolled(s1, now_ms)
    } else {
        s1
    }
}

/// The place at which the next record is written.
pub open spec fn next_place(s: KvView, size: nat) -> IndexEntry {
    IndexEntry {
        segment_timestamp: s.store.active,
        offset: content(s.files, s.active_file()).len() as u64,
        record_size: size as u64,
    }
}

/// The engine after a write.
pub open spec fn kv_put(s: KvView, r: RecordView, now_ms: u64) -> KvView {
    let s2 = kv_logged(s, r, now_ms);
    let size = record_len(r);
    KvView {
        files: appended(s2.files, s2.active_file(), encoded(r)),
        store: counted(
            StoreView { index: s2.store.index.insert(r.key, next_place(s2, size)), ..s2.store },
        ),
        dead_bytes: if s.store.index.contains_key(r.key) {
            s.dead_bytes.wrapping_add(s.store.index[r.key].record_size)
        } else {
            s.dead_bytes
        },
        total_bytes: s.total_bytes.wrapping_add(size as u64),
        segment_count: s2.segment_count,
    }
}

/// The engine after a deletion. It is logged even where the key was not there.
pub open spec fn kv_deleted(s: KvView, key: Seq<char>) -> KvView {
    let r = tombstone_of(key);
    let s1 = KvView { files: appended(s.files, s.wal(), encoded(r)), ..s };
    if s.store.index.contains_key(key) {
        KvView {
            files: appended(s1.files, s1.active_file(), encoded(r)),
            store: counted(StoreView { index: s.store.index.remove(key), ..s.store }),
            dead_bytes: s.dead_bytes.wrapping_add(
                s.store.index[key].record_size.wrapping_add(record_len(r) as u64),
            ),
            total_bytes: s.total_bytes.wrapping_add(record_len(r) as u64),
            ..s1
        }
    } else {
        s1
    }
}

/// What a read of `key` gives: an error where the record cannot be read, nothing
/// where the key is not there or has expired.
pub open spec fn kv_get(s: KvView, key: Seq<char>, now_ms: u64) -> Result<
    Option<RecordView>,
    StoreError,
> {
    match find(s.files, s.store.name, s.store.index, key) {
        Ok(Some(r)) => if expired(r.expiry_ms, now_ms) {
            Ok(None)
        } else {
            Ok(Some(r))
        },
        Ok(None) => Ok(None),
        Err(e) => Err(e),
    }
}

/// In a sound engine a read finds what the contents say.
pub proof fn lemma_get_visible(s: KvView, key: Seq<char>, now_ms: u64)
    requires
        s.sound(),
    ensures
        match kv_get(s, key, now_ms) {
            Ok(Some(r)) => r.key == key && visible(s.contents(), key, now_ms) == Some(r.value)
                && s.contents()[key].expiry_ms == r.expiry_ms && s.contents().contains_key(key),
            Ok(None) => visible(s.contents(), key, now_ms) is None,
            Err(_) => false,
        },
{
    if s.store.index.contains_key(key) {
        assert(crate::store::entry_sound(s.files, s.store.name, key, s.store.index[key]));
    }
}

/// Whether a key is there: the index has it, and its record is not one that has expired.
/// A record that cannot be read is not known to have.
pub open spec fn kv_there(s: KvView, key: Seq<char>, now_ms: u64) -> bool {
    !(kv_get(s, key, now_ms) matches Ok(None))
}

/// Those of some keys that are there.
pub open spec fn kv_listed(s: KvView, keys: Seq<Seq<char>>, now_ms: u64) -> Seq<Seq<char>>
    decreases keys.len(),
{
    if keys.len() == 0 {
        Seq::empty()
    } else {
        let found = kv_listed(s, keys.drop_last(), now_ms);
        if kv_there(s, keys.last(), now_ms) {
            found.push(keys.last())
        } else {
            found
        }
    }
}

/// A key that the index has not is not there. Neither is one whose record has expired;
/// one whose record cannot be read is.
pub proof fn lemma_there(s: KvView, key: Seq<char>, now_ms: u64)
    ensures
        kv_there(s, key, now_ms) <==> match find(s.files, s.store.name, s.store.index, key) {
            Ok(Some(r)) => !expired(r.expiry_ms, now_ms),
            Ok(None) => false,
            Err(_) => true,
        },
        kv_there(s, key, now_ms) ==> s.store.index.contains_key(key),
{
}

/// In a sound engine the keys that a read finds are those that have not expired, in
/// their order.
proof fn lemma_listed_found(s: KvView, keys: Seq<Seq<char>>, now_ms: u64)
    requires
        s.sound(),
        strictly_sorted(keys),
    ensures
        strictly_sorted(kv_listed(s, keys, now_ms)),
        forall|k: Seq<char>| #[trigger]
            kv_listed(s, keys, now_ms).contains(k) <==> keys.contains(k) && visible(
                s.contents(),
                k,
                now_ms,
            ) is Some,
    decreases keys.len(),
{
    if keys.len() > 0 {
        let front = keys.drop_last();
        let last = keys.last();
        lemma_listed_found(s, front, now_ms);
        lemma_get_visible(s, last, now_ms);
        let before = kv_listed(s, front, now_ms);
        let found = kv_listed(s, keys, now_ms);
        assert forall|k: Seq<char>| #[trigger] found.contains(k) <==> keys.contains(k) && visible(
            s.contents(),
            k,
            now_ms,
        ) is Some by {
            if keys.contains(k) && k != last {
                let i = choose|i: int| 0 <= i < keys.len() && keys[i] == k;
                assert(front[i] == k);
            }
            if front.contains(k) {
                let i = choose|i: int| 0 <= i < front.len() && front[i] == k;
                assert(keys[i] == k);
            }
            assert(keys[keys.len() - 1] == last);
            if found.len() > before.len() {
                assert(found[found.len() - 1] == last);
                if before.contains(k) {
                    let i = choose|i: int| 0 <= i < before.len() && before[i] == k;
                    assert(found[i] == k);
                }
                if found.contains(k) && k != last {
                    let i = choose|i: int| 0 <= i < found.len() && found[i] == k;
                    assert(before[i] == k);
                }
            }
        }
        if found.len() > before.len() {
            assert forall|i: int, j: int| 0 <= i < j < found.len() implies key_lt(
                #[trigger] found[i],
                #[trigger] found[j],
            ) by {
                if j == before.len() {
                    assert(before.contains(before[i]));
                    assert(front.contains(before[i]));
                    let n = choose|n: int| 0 <= n < front.len() && front[n] == before[i];
                    assert(key_lt(keys[n], keys[keys.len() - 1]));
                } else {
                    assert(key_lt(before[i], before[j]));
                }
            }
        }
    }
}

proof fn lemma_listed(s: KvView, keys: Seq<Seq<char>>, now_ms: u64)
    requires
        s.sound(),
        crate::sorted_map::keys_of(s.store.index, keys),
    ensures
        kv_listed(s, keys, now_ms) == keys_in_order(unexpired(s.contents(), now_ms)),
{
    lemma_listed_found(s, keys, now_ms);
    let found = kv_listed(s, keys, now_ms);
    let shown = unexpired(s.contents(), now_ms);
    assert forall|k: Seq<char>| #[trigger] shown.contains_key(k) <==> found.contains(k) by {
        assert(s.store.index.contains_key(k) <==> keys.contains(k));
    }
    crate::sorted_map::lemma_keys_in_order(shown, found);
}

proof fn lemma_rolled(s: KvView, now_ms: u64)
    requires
        s.sound(),
    ensures
        kv_rolled(s, now_ms).sound(),
        kv_rolled(s, now_ms).contents() == s.contents(),
{
    let next = next_stamp(s.store.active, now_ms);
    lemma_sound_begun(s.files, s.store.name, next, s.store.index);
    lemma_sound_wal(
        begun(s.files, s.store.name, next),
        s.store.name,
        s.store.index,
        Seq::empty(),
    );
}

proof fn lemma_logged(s: KvView, r: RecordView, now_ms: u64)
    requires
        s.sound(),
        files_fit(s.files),
    ensures
        kv_logged(s, r, now_ms).sound(),
        kv_logged(s, r, now_ms).contents() == s.contents(),
        content(
            kv_logged(s, r, now_ms).files,
            kv_logged(s, r, now_ms).active_file(),
        ).len() <= u64::MAX,
{
    let s1 = KvView { files: appended(s.files, s.wal(), encoded(r)), ..s };
    lemma_sound_appended(s.files, s.wal(), encoded(r), s.store.name, s.store.index);
    lemma_rolled(s1, now_ms);
    lemma_begun(s1.files, s.store.name, next_stamp(s.store.active, now_ms));
    lemma_wal_is_no_segment(s.store.name, next_stamp(s.store.active, now_ms));
    lemma_wal_is_no_segment(s.store.name, s.store.active);
}

/// A write sets its key to its value, and nothing else.
pub proof fn lemma_put(s: KvView, r: RecordView, now_ms: u64)
    requires
        s.sound(),
        files_fit(s.files),
        within_limits(r),
        !r.tombstone,
    ensures
        kv_put(s, r, now_ms).sound(),
        kv_put(s, r, now_ms).contents() == s.contents().insert(
            r.key,
            Live { value: r.value, expiry_ms: r.expiry_ms },
        ),
{
    let s2 = kv_logged(s, r, now_ms);
    lemma_logged(s, r, now_ms);
    lemma_sound_written(
        s2.files,
        s2.store.name,
        s2.store.index,
        next_place(s2, record_len(r)),
        r,
    );
}

/// A deletion removes its key, and nothing else.
pub proof fn lemma_deleted(s: KvView, key: Seq<char>)
    requires
        s.sound(),
    ensures
        kv_deleted(s, key).sound(),
        kv_deleted(s, key).contents() == s.contents().remove(key),
{
    let r = tombstone_of(key);
    let s1 = KvView { files: appended(s.files, s.wal(), encoded(r)), ..s };
    lemma_sound_appended(s.files, s.wal(), encoded(r), s.store.name, s.store.index);
    if s.store.index.contains_key(key) {
        lemma_sound_appended(
            s1.files,
            s1.active_file(),
            encoded(r),
            s.store.name,
            s.store.index,
        );
        lemma_sound_removed(
            appended(s1.files, s1.active_file(), encoded(r)),
            s.store.name,
            s.store.index,
            key,
        );
    } else {
        assert(s.contents().remove(key) =~= s.contents());
    }
}

/// The segments of a database, the oldest first.
pub open spec fn segments(files: Files, name: Seq<char>) -> Seq<SegmentView> {
    segments_of(keys_in_order(files), name)
}

/// The engine that a compaction writes to, after it copied some keys of an index,
/// and the error that stopped it.
pub open spec fn kv_copied(t: KvView, index: IndexMap, keys: Seq<Seq<char>>, now_ms: u64) -> (
    KvView,
    Option<StoreError>,
)
    decreases keys.len(),
{
    if keys.len() == 0 {
        (t, None)
    } else {
        let (u, end) = kv_copied(t, index, keys.drop_last(), now_ms);
        let k = keys.last();
        if end is Some {
            (u, end)
        } else {
            match find(u.files, u.store.name, index, k) {
                Err(e) => (u, Some(e)),
                Ok(None) => (u, None),
                Ok(Some(r)) => if expired(r.expiry_ms, now_ms) {
                    (u, None)
                } else if byte_len(k) > MAX_KEY_SIZE || byte_len(r.value) > MAX_VALUE_SIZE {
                    (u, Some(StoreError::TooLarge))
                } else {
                    (kv_put(u, record_of(k, r.value, r.expiry_ms), now_ms), None)
                },
            }
        }
    }
}

/// The hints of the keys that stand in the segment of a timestamp.
pub open spec fn hints_for(index: IndexMap, keys: Seq<Seq<char>>, timestamp: u64) -> Seq<HintView>
    decreases keys.len(),
{
    if keys.len() == 0 {
        Seq::empty()
    } else {
        let before = hints_for(index, keys.drop_last(), timestamp);
        let k = keys.last();
        if index[k].segment_timestamp == timestamp {
            before.push(
                HintView {
                    key_size: byte_len(k) as u64,
                    offset: index[k].offset,
                    tombstone: false,
                    key: k,
                },
            )
        } else {
            before
        }
    }
}

/// The segments whose timestamp is that of none of the old ones.
pub open spec fn segments_besides(all: Seq<SegmentView>, old_segments: Seq<SegmentView>) -> Seq<
    SegmentView,
>
    decreases all.len(),
{
    if all.len() == 0 {
        Seq::empty()
    } else {
        let before = segments_besides(all.drop_last(), old_segments);
        if exists|i: int|
            0 <= i < old_segments.len() && (#[trigger] old_segments[i]).timestamp
                == all.last().timestamp {
            before
        } else {
            before.push(all.last())
        }
    }
}

/// The directory with hint files for some segments.
pub open spec fn with_hints(files: Files, index: IndexMap, segs: Seq<SegmentView>) -> Files
    decreases segs.len(),
{
    if segs.len() == 0 {
        files
    } else {
        with_hints(files, index, segs.drop_last()).insert(
            segment_hint_filename(segs.last()),
            hint_file(hints_for(index, keys_in_order(index), segs.last().timestamp)),
        )
    }
}

/// The directory without some segments and their hint files. A segment that is not
/// there stops it.
pub open spec fn without_segments(files: Files, segs: Seq<SegmentView>) -> (
    Files,
    Option<StoreError>,
)
    decreases segs.len(),
{
    if segs.len() == 0 {
        (files, None)
    } else {
        let (before, end) = without_segments(files, segs.drop_last());
        if end is Some {
            (before, end)
        } else if !before.contains_key(segment_filename(segs.last())) {
            (before, Some(StoreError::FileNotFound))
        } else {
            (
                before.remove(segment_filename(segs.last())).remove(
                    segment_hint_filename(segs.last()),
                ),
                None,
            )
        }
    }
}

/// The timestamp of the first segment that a compaction writes: one later than those of
/// all segments that there are, the oldest first.
pub open spec fn first_stamp(segs: Seq<SegmentView>, now_ms: u64) -> u64 {
    if segs.len() == 0 {
        now_ms
    } else {
        next_stamp(segs.last().timestamp, now_ms)
    }
}

/// The engine after a compaction, and the error that stopped it.
///
/// The keys that have not expired are copied to segments of their own, with hint
/// files. Then the engine turns to a segment that is still empty, empties the log,
/// and removes the old segments.
pub open spec fn kv_compacted(s: KvView, now_ms: u64) -> (KvView, Option<StoreError>) {
    let old_segments = segments(s.files, s.store.name);
    let t = kv_new(
        s.files,
        s.store.name,
        s.store.max_segment_bytes,
        s.store.fsync_strategy,
        first_stamp(old_segments, now_ms),
    );
    let (u, end) = kv_copied(t, s.store.index, keys_in_order(s.store.index), now_ms);
    if end is Some {
        (KvView { files: u.files, ..s }, end)
    } else {
        let fresh = segments_besides(segments(u.files, s.store.name), old_segments);
        let hinted = with_hints(u.files, u.store.index, fresh);
        let next = next_stamp(u.store.active, now_ms);
        let (left, end2) = without_segments(
            begun(hinted, s.store.name, next).insert(s.wal(), Seq::empty()),
            old_segments,
        );
        (
            KvView {
                files: left,
                store: StoreView {
                    index: u.store.index,
                    active: next,
                    writes_since_fsync: 0,
                    ..s.store
                },
                segment_count: 1,
                ..s
            },
            end2,
        )
    }
}

/// Whether the segments of a database are there under their usual names, each once,
/// and there are timestamps left for the segments that a compaction writes, as many as
/// there are keys and one more.
pub open spec fn kv_compactable(s: KvView, now_ms: u64) -> bool {
    let segs = segments(s.files, s.store.name);
    &&& segs.no_duplicates()
    &&& forall|i: int|
        0 <= i < segs.len() ==> s.files.contains_key(segment_filename(#[trigger] segs[i]))
    &&& segs.len() > 0 ==> segs.last().timestamp < u64::MAX
    &&& first_stamp(segs, now_ms) + keys_in_order(s.store.index).len() < u64::MAX
}

/// The contents that have been copied once some keys were gone through.
pub open spec fn copied_contents(c: Contents, keys: Seq<Seq<char>>, now_ms: u64) -> Contents {
    unexpired(c, now_ms).restrict(Set::new(|k: Seq<char>| keys.contains(k)))
}

proof fn lemma_copied_next(c: Contents, keys: Seq<Seq<char>>, i: int, now_ms: u64)
    requires
        0 <= i < keys.len(),
        c.contains_key(keys[i]),
    ensures
        expired(c[keys[i]].expiry_ms, now_ms) ==> copied_contents(c, keys.take(i + 1), now_ms)
            == copied_contents(c, keys.take(i), now_ms),
        !expired(c[keys[i]].expiry_ms, now_ms) ==> copied_contents(c, keys.take(i + 1), now_ms)
            == copied_contents(c, keys.take(i), now_ms).insert(keys[i], c[keys[i]]),
{
    let a = keys.take(i);
    let b = keys.take(i + 1);
    assert forall|k: Seq<char>| #[trigger] b.contains(k) <==> a.contains(k) || k == keys[i] by {
        if b.contains(k) {
            let j = b.index_of(k);
            if j < i {
                assert(a[j] == k);
            }
        }
        if a.contains(k) {
            assert(b[a.index_of(k)] == k);
        }
        if k == keys[i] {
            assert(b[i] == k);
        }
    }
    if expired(c[keys[i]].expiry_ms, now_ms) {
        assert(copied_contents(c, b, now_ms) =~= copied_contents(c, a, now_ms));
    } else {
        assert(copied_contents(c, b, now_ms) =~= copied_contents(c, a, now_ms).insert(
            keys[i],
            c[keys[i]],
        ));
    }
}

proof fn lemma_copied_stays(t: KvView, index: IndexMap, keys: Seq<Seq<char>>, i: int, now_ms: u64)
    requires
        0 <= i <= keys.len(),
        kv_copied(t, index, keys.take(i), now_ms).1 is Some || i == keys.len(),
    ensures
        kv_copied(t, index, keys, now_ms) == kv_copied(t, index, keys.take(i), now_ms),
    decreases keys.len() - i,
{
    if i == keys.len() {
        assert(keys.take(i) =~= keys);
    } else {
        assert(keys.take(i + 1).drop_last() =~= keys.take(i));
        lemma_copied_stays(t, index, keys, i + 1, now_ms);
    }
}

pub proof fn lemma_limits_of(files: Files, name: Seq<char>, e: IndexEntry)
    requires
        record_at(files, name, e) is Ok,
    ensures
        within_limits(record_at(files, name, e)->Ok_0),
{
    lemma_parsed_within_limits(
        files[segment_file(name, e.segment_timestamp)].skip(e.offset as int),
    );
}

/// Writing to another engine of the directory leaves the old index sound.
proof fn lemma_old_index_after_put(u: KvView, index: IndexMap, r: RecordView, now_ms: u64)
    requires
        sound(u.files, u.store.name, index),
        files_fit(u.files),
    ensures
        sound(kv_put(u, r, now_ms).files, u.store.name, index),
        contents_at(kv_put(u, r, now_ms).files, u.store.name, index) == contents_at(
            u.files,
            u.store.name,
            index,
        ),
{
    let v = KvView { store: StoreView { index, ..u.store }, ..u };
    lemma_logged(v, r, now_ms);
    let s2 = kv_logged(v, r, now_ms);
    assert(s2.files == kv_logged(u, r, now_ms).files);
    lemma_sound_appended(s2.files, s2.active_file(), encoded(r), u.store.name, index);
}

/// A hint file is no segment, so it leaves the records of the segments.
pub proof fn lemma_sound_hint(
    files: Files,
    name: Seq<char>,
    index: IndexMap,
    seg: SegmentView,
    data: Seq<u8>,
)
    requires
        sound(files, name, index),
    ensures
        sound(files.insert(segment_hint_filename(seg), data), name, index),
        contents_at(files.insert(segment_hint_filename(seg), data), name, index) == contents_at(
            files,
            name,
            index,
        ),
{
    let files2 = files.insert(segment_hint_filename(seg), data);
    assert forall|k: Seq<char>| #[trigger] index.contains_key(k) implies record_at(
        files2,
        name,
        index[k],
    ) == record_at(files, name, index[k]) by {
        lemma_filename_no_hint(
            SegmentView { name, timestamp: index[k].segment_timestamp },
            seg,
        );
    }
    assert forall|k: Seq<char>| #[trigger] index.contains_key(k) implies crate::store::entry_sound(
        files2,
        name,
        k,
        index[k],
    ) by {
        assert(crate::store::entry_sound(files, name, k, index[k]));
    }
    assert(contents_at(files2, name, index) =~= contents_at(files, name, index));
}

/// Whether changes that were added make one file durable, and empty another after that.
pub open spec fn synced_then_emptied(
    before: Seq<Change>,
    after: Seq<Change>,
    synced: Seq<char>,
    emptied: Seq<char>,
) -> bool {
    exists|i: int, j: int|
        before.len() <= i < j < after.len() && #[trigger] syncs(after[i], synced)
            && #[trigger] empties(after[j], emptied)
}

/// Beginning a segment removes no segment.
pub proof fn lemma_kept_begun(files: Files, name: Seq<char>, timestamp: u64)
    ensures
        forall|ts: u64|
            files.contains_key(#[trigger] segment_file(name, ts)) ==> begun(
                files,
                name,
                timestamp,
            ).contains_key(segment_file(name, ts)),
{
    assert forall|ts: u64| files.contains_key(#[trigger] segment_file(name, ts)) implies begun(
        files,
        name,
        timestamp,
    ).contains_key(segment_file(name, ts)) by {
        lemma_filename_no_hint(
            SegmentView { name, timestamp: ts },
            SegmentView { name, timestamp },
        );
    }
}

/// A write removes no segment.
proof fn lemma_kept_put(u: KvView, now_ms: u64)
    ensures
        forall|r: RecordView, ts: u64|
            u.files.contains_key(#[trigger] segment_file(u.store.name, ts)) ==> #[trigger] kv_put(
                u,
                r,
                now_ms,
            ).files.contains_key(segment_file(u.store.name, ts)),
{
    assert forall|r: RecordView, ts: u64|
        u.files.contains_key(#[trigger] segment_file(u.store.name, ts)) implies #[trigger] kv_put(
        u,
        r,
        now_ms,
    ).files.contains_key(segment_file(u.store.name, ts)) by {
        let s1 = KvView { files: appended(u.files, u.wal(), encoded(r)), ..u };
        lemma_kept_begun(s1.files, u.store.name, next_stamp(u.store.active, now_ms));
        assert(s1.files.contains_key(segment_file(u.store.name, ts)));
    }
}

/// Removing older segments leaves the records of an index.
pub proof fn lemma_without_segments(
    files: Files,
    name: Seq<char>,
    index: IndexMap,
    segs: Seq<SegmentView>,
    start: u64,
)
    requires
        sound(files, name, index),
        forall|k: Seq<char>| #[trigger]
            index.contains_key(k) ==> index[k].segment_timestamp >= start,
        forall|i: int| 0 <= i < segs.len() ==> (#[trigger] segs[i]).timestamp < start,
    ensures
        sound(without_segments(files, segs).0, name, index),
        contents_at(without_segments(files, segs).0, name, index) == contents_at(
            files,
            name,
            index,
        ),
    decreases segs.len(),
{
    if segs.len() > 0 {
        lemma_without_segments(files, name, index, segs.drop_last(), start);
        let (before, end) = without_segments(files, segs.drop_last());
        let after = without_segments(files, segs).0;
        let seg = segs.last();
        assert(seg.timestamp < start);
        assert forall|k: Seq<char>| #[trigger] index.contains_key(k) implies record_at(
            after,
            name,
            index[k],
        ) == record_at(before, name, index[k]) by {
            let mine = SegmentView { name, timestamp: index[k].segment_timestamp };
            lemma_filename_no_hint(mine, seg);
            if segment_filename(mine) == segment_filename(seg) {
                lemma_filename_injective(mine, seg);
            }
        }
        assert forall|k: Seq<char>| #[trigger]
            index.contains_key(k) implies crate::store::entry_sound(after, name, k, index[k]) by {
            assert(crate::store::entry_sound(before, name, k, index[k]));
        }
        assert(contents_at(after, name, index) =~= contents_at(before, name, index));
    }
}

/// Segments that are all there, each once, can all be removed.
pub proof fn lemma_segments_removable(files: Files, segs: Seq<SegmentView>, n: int)
    requires
        0 <= n <= segs.len(),
        forall|i: int|
            0 <= i < segs.len() ==> files.contains_key(segment_filename(#[trigger] segs[i])),
        segs.no_duplicates(),
    ensures
        without_segments(files, segs.take(n)).1 is None,
        forall|i: int|
            n <= i < segs.len() ==> without_segments(files, segs.take(n)).0.contains_key(
                segment_filename(#[trigger] segs[i]),
            ),
    decreases n,
{
    if n > 0 {
        lemma_segments_removable(files, segs, n - 1);
        assert(segs.take(n).drop_last() =~= segs.take(n - 1));
        let seg = segs[n - 1];
        assert forall|i: int| n <= i < segs.len() implies without_segments(
            files,
            segs.take(n),
        ).0.contains_key(segment_filename(#[trigger] segs[i])) by {
            lemma_filename_no_hint(segs[i], seg);
            if segment_filename(segs[i]) == segment_filename(seg) {
                lemma_filename_injective(segs[i], seg);
            }
        }
    }
}

pub proof fn lemma_without_stays(files: Files, segs: Seq<SegmentView>, n: int)
    requires
        0 <= n <= segs.len(),
        without_segments(files, segs.take(n)).1 is Some,
    ensures
        without_segments(files, segs) == without_segments(files, segs.take(n)),
    decreases segs.len() - n,
{
    if n == segs.len() {
        assert(segs.take(n) =~= segs);
    } else {
        assert(segs.take(n + 1).drop_last() =~= segs.take(n));
        lemma_without_stays(files, segs, n + 1);
    }
}

/// The bytes of some segments together.
pub open spec fn bytes_of(files: Files, segs: Seq<SegmentView>) -> u64
    decreases segs.len(),
{
    if segs.len() == 0 {
        0
    } else {
        bytes_of(files, segs.drop_last()).wrapping_add(
            content(files, segment_filename(segs.last())).len() as u64,
        )
    }
}

/// The engine after one logged key was brought to the segment that is written to.
pub open spec fn kv_recovered_key(s: KvView, k: Seq<char>, e: EntryView) -> KvView {
    let r = entry_record(k, e);
    KvView {
        files: appended(s.files, s.active_file(), encoded(r)),
        store: StoreView {
            index: if e.value is Some {
                s.store.index.insert(k, next_place(s, record_len(r)))
            } else {
                s.store.index.remove(k)
            },
            ..s.store
        },
        total_bytes: s.total_bytes.wrapping_add(record_len(r) as u64),
        ..s
    }
}

/// The engine after some logged keys were brought to the segment that is written
/// to.
pub open spec fn kv_recovered(
    s: KvView,
    entries: Map<Seq<char>, EntryView>,
    keys: Seq<Seq<char>>,
) -> KvView
    decreases keys.len(),
{
    if keys.len() == 0 {
        s
    } else {
        kv_recovered_key(
            kv_recovered(s, entries, keys.drop_last()),
            keys.last(),
            entries[keys.last()],
        )
    }
}

/// The engine as its segments alone give it back.
pub open spec fn kv_from_segments(
    files: Files,
    name: Seq<char>,
    index: IndexMap,
    max_segment_bytes: u64,
    fsync_strategy: FSyncStrategy,
) -> KvView {
    let segs = segments(files, name);
    KvView {
        files: touched(files, wal_filename(name)),
        store: StoreView {
            index,
            ..empty_store(name, segs.last().timestamp, max_segment_bytes, fsync_strategy)
        },
        dead_bytes: 0,
        total_bytes: bytes_of(files, segs),
        segment_count: segs.len() as usize,
    }
}

/// The engine that a directory gives back, if it holds a segment: the index of its
/// segments, then what the log adds to it. The log is emptied.
pub open spec fn kv_loaded(
    files: Files,
    name: Seq<char>,
    max_segment_bytes: u64,
    fsync_strategy: FSyncStrategy,
) -> Result<Option<KvView>, StoreError> {
    let segs = segments(files, name);
    if segs.len() == 0 {
        Ok(None)
    } else {
        match load_segments(files, segs) {
            Err(e) => Err(e),
            Ok(index) => match replayed(content(files, wal_filename(name))) {
                Err(e) => Err(e),
                Ok(m) => {
                    let s = kv_from_segments(
                        files,
                        name,
                        index,
                        max_segment_bytes,
                        fsync_strategy,
                    );
                    let t = kv_recovered(s, m.entries, keys_in_order(m.entries));
                    Ok(
                        Some(
                            KvView { files: t.files.insert(wal_filename(name), Seq::empty()), ..t },
                        ),
                    )
                },
            },
        }
    }
}

/// A hash-index engine over a directory.
pub struct KVEngine {
    dir: Directory,
    wal: Wal,
    store: SegmentStore,
    dead_bytes: u64,
    total_bytes: u64,
    segment_count: usize,
}

impl View for KVEngine {
    type V = KvView;

    closed spec fn view(&self) -> KvView {
        KvView {
            files: self.dir@,
            store: self.store@,
            dead_bytes: self.dead_bytes,
            total_bytes: self.total_bytes,
            segment_count: self.segment_count,
        }
    }
}

impl KVEngine {
    /// The files as they were when the changes were last taken.
    pub closed spec fn base(&self) -> Files {
        self.dir.base()
    }

    /// The changes that were made to the files since then.
    pub closed spec fn pending(&self) -> Seq<Change> {
        self.dir.pending()
    }

    closed spec fn inv(&self) -> bool {
        &&& self.dir.wf()
        &&& self.store.wf()
        &&& self.wal.file() == wal_filename(self.store@.name)
    }

    /// No file is larger than memory, and the files and the keys of the index can be
    /// brought into an order.
    pub proof fn lemma_files(&self)
        requires
            self.wf(),
        ensures
            files_fit(self@.files),
            orderable(self@.files),
            orderable(self@.store.index),
    {
        self.dir.lemma_sizes();
        self.dir.lemma_names();
        self.store.index.lemma_keys();
    }

    /// A new engine without keys, in the given directory.
    pub fn new(
        dir: Directory,
        db_name: &str,
        max_segment_bytes: u64,
        fsync_strategy: FSyncStrategy,
        now: Clock,
    ) -> (e: KVEngine)
        requires
            dir.wf(),
        ensures
            e.wf(),
            e.base() == dir.base(),
            e@ == kv_new(dir@, db_name@, max_segment_bytes, fsync_strategy, now.ms),
            e.healthy(),
            e.contents() == Map::<Seq<char>, Live>::empty(),
            ({
                &&& usual(dir@, db_name@)
                &&& segments(dir@, db_name@).len() == 0
                &&& content(dir@, wal_filename(db_name@)) == Seq::<u8>::empty()
            }) ==> durable(e@),
    {
        proof {
            if usual(dir@, db_name@) && segments(dir@, db_name@).len() == 0 && content(
                dir@,
                wal_filename(db_name@),
            ) == Seq::<u8>::empty() {
                lemma_durable_new(dir@, db_name@, max_segment_bytes, fsync_strategy, now.ms);
            }
        }
        let mut dir = dir;
        let store = SegmentStore::new(&mut dir, db_name, max_segment_bytes, fsync_strategy, now.ms);
        let wal = Wal::open(&mut dir, db_name);
        let e = KVEngine {
            dir,
            wal,
            store,
            dead_bytes: 0,
            total_bytes: 0,
            segment_count: 1,
        };
        assert(e.contents() =~= Map::<Seq<char>, Live>::empty());
        e
    }

    /// Reopens the engine of a directory. It takes the files over and leaves `dir`
    /// empty; where the directory holds no segment of that name, there is nothing
    /// to reopen and `dir` stays as it is.
    pub fn from_dir(
        dir: &mut Directory,
        db_name: &str,
        max_segment_bytes: u64,
        fsync_strategy: FSyncStrategy,
    ) -> (r: Result<Option<KVEngine>, StoreError>)
        requires
            old(dir).wf(),
        ensures
            final(dir).wf(),
            match r {
                Ok(Some(e)) => {
                    &&& e.wf()
                    &&& e.base() == old(dir).base()
                    &&& kv_loaded(old(dir)@, db_name@, max_segment_bytes, fsync_strategy) == Ok::<
                        Option<KvView>,
                        StoreError,
                    >(Some(e@))
                    &&& final(dir)@ == Map::<Seq<char>, Seq<u8>>::empty()
                },
                Ok(None) => {
                    &&& kv_loaded(old(dir)@, db_name@, max_segment_bytes, fsync_strategy) == Ok::<
                        Option<KvView>,
                        StoreError,
                    >(None)
                    &&& *final(dir) == *old(dir)
                },
                Err(e) => kv_loaded(old(dir)@, db_name@, max_segment_bytes, fsync_strategy)
                    == Err::<Option<KvView>, StoreError>(e),
            },
            forall|s: KvView|
                #![trigger durable(s)]
                durable(s) && s.files == old(dir)@ && s.store.name == db_name@ ==> match r {
                    Ok(Some(e)) => {
                        &&& e.healthy()
                        &&& e.contents() == s.contents()
                        &&& durable(e@)
                    },
                    _ => false,
                },
            forall|s: StoreView|
                #![trigger lasting(old(dir)@, s)]
                lasting(old(dir)@, s) && s.name == db_name@ ==> match replayed(
                    content(old(dir)@, wal_filename(db_name@)),
                ) {
                    Ok(m) => match r {
                        Ok(Some(e)) => {
                            &&& e.healthy()
                            &&& e.contents() == applied(
                                contents_at(old(dir)@, s.name, s.index),
                                m.entries,
                            )
                            &&& durable(e@)
                        },
                        _ => false,
                    },
                    Err(_) => r is Err,
                },
    {
        proof {
            assert forall|s: KvView|
                #![trigger durable(s)]
                durable(s) && s.files == dir@ && s.store.name == db_name@ implies (match kv_loaded(
                dir@,
                db_name@,
                max_segment_bytes,
                fsync_strategy,
            ) {
                Ok(Some(_)) => true,
                _ => false,
            }) by {
                lemma_reopens(s, max_segment_bytes, fsync_strategy);
            }
        }
        let mut segments = get_segments(dir, db_name);
        let ghost segs = segment_views(segments@);
        if segments.len() == 0 {
            return Ok(None);
        }
        let index = match load_index(dir, &segments) {
            Ok(index) => index,
            Err(e) => {
                return Err(e);
            },
        };
        let segment_count: usize = segments.len();
        let mut size: u64 = 0;
        assert(segs.take(0) =~= Seq::<SegmentView>::empty());
        for i in 0..segments.len()
            invariant
                dir.wf(),
                segs == segment_views(segments@),
                size == bytes_of(dir@, segs.take(i as int)),
        {
            assert(segs[i as int] == segments@[i as int]@);
            assert(segs.take(i + 1).drop_last() =~= segs.take(i as int));
            size = size.wrapping_add(dir.size(segments[i].filename().as_str()));
        }
        assert(segs.take(segments@.len() as int) =~= segs);
        let active_segment = segments.pop().unwrap();
        assert(segs.last() == active_segment@);
        proof {
            crate::segment::lemma_segments_of(keys_in_order(dir@), db_name@);
            assert(crate::kvengine::segments(dir@, db_name@).contains(segs.last()));
        }
        let wal = Wal::open(dir, db_name);
        let memtable = match wal.replay(dir) {
            Ok(m) => m,
            Err(e) => {
                return Err(e);
            },
        };
        let mut own = Directory::new();
        std::mem::swap(&mut own, dir);
        let mut engine = KVEngine {
            dir: own,
            wal,
            store: SegmentStore {
                index,
                active_segment,
                max_segment_bytes,
                writes_since_fsync: 0,
                fsync_strategy,
            },
            dead_bytes: 0,
            total_bytes: size,
            segment_count,
        };
        proof {
            let files = old(dir)@;
            let s = kv_from_segments(
                files,
                db_name@,
                engine@.store.index,
                max_segment_bytes,
                fsync_strategy,
            );
            assert(segs.last().name == db_name@);
            assert(engine@.store == s.store);
            assert(engine@.files == s.files);
            assert(engine@ == s);
            lemma_touched(files, wal_filename(db_name@));
            assert(content(engine@.files, wal_filename(db_name@)) == content(
                files,
                wal_filename(db_name@),
            ));
            lemma_replayed_limits(content(files, wal_filename(db_name@)));
        }
        engine.recover_all(&memtable);
        engine.wal.reset(&mut engine.dir);
        proof {
            engine.dir.lemma_sizes();
            assert forall|s: KvView|
                #![trigger durable(s)]
                durable(s) && s.files == old(dir)@ && s.store.name == db_name@ implies {
                &&& engine.healthy()
                &&& engine.contents() == s.contents()
                &&& durable(engine@)
            } by {
                lemma_reopened(s, engine@, max_segment_bytes, fsync_strategy);
            }
            assert forall|s: StoreView|
                #![trigger lasting(old(dir)@, s)]
                lasting(old(dir)@, s) && s.name == db_name@ implies {
                &&& engine.healthy()
                &&& engine.contents() == applied(
                    contents_at(old(dir)@, s.name, s.index),
                    (replayed(content(old(dir)@, wal_filename(db_name@)))->Ok_0).entries,
                )
                &&& durable(engine@)
            } by {
                lemma_recovers(old(dir)@, s, engine@, max_segment_bytes, fsync_strategy);
            }
        }
        Ok(Some(engine))
    }

    /// Brings all logged keys to the segment that is written to.
    fn recover_all(&mut self, memtable: &Memtable)
        requires
            old(self).wf(),
            memtable.wf(),
            entries_within_limits(memtable@.entries),
        ensures
            final(self).wf(),
            final(self).base() == old(self).base(),
            final(self)@.store.name == old(self)@.store.name,
            final(self)@ == kv_recovered(
                old(self)@,
                memtable@.entries,
                keys_in_order(memtable@.entries),
            ),
    {
        let ghost m = memtable@.entries;
        proof {
            memtable.lemma_order();
        }
        let ghost ks = keys_in_order(m);
        let entries = memtable.entries();
        let n = entries.len();
        assert(ks.take(0) =~= Seq::<Seq<char>>::empty());
        for i in 0..n
            invariant
                self.wf(),
                self.base() == old(self).base(),
                n == ks.len(),
                entries.wf(),
                entries@ == m,
                entries.keys_seq() == ks,
                entries_within_limits(m),
                self@.store.name == old(self)@.store.name,
                self@ == kv_recovered(old(self)@, m, ks.take(i as int)),
        {
            assert(ks.take(i + 1).drop_last() =~= ks.take(i as int));
            proof {
                entries.lemma_at(i as int);
            }
            self.recover(entries.key_at(i), entries.value_at(i));
        }
        assert(ks.take(ks.len() as int) =~= ks);
    }

    /// Brings a logged key to the segment that is written to.
    fn recover(&mut self, key: &String, entry: &MemtableEntry)
        requires
            old(self).wf(),
            byte_len(key@) <= MAX_KEY_SIZE,
            value_size(entry@) <= MAX_VALUE_SIZE,
        ensures
            final(self).wf(),
            final(self).base() == old(self).base(),
            final(self)@ == kv_recovered_key(old(self)@, key@, entry@),
    {
        match &entry.value {
            Some(value) => {
                let record = Record::build(key.clone(), value.clone(), false, entry.expiry_ms);
                let size = record.size_on_disk();
                let offset = self.store.append(&mut self.dir, &record);
                let _ = self.store.index.set(
                    record.key,
                    offset,
                    self.store.active_segment.timestamp,
                    size,
                );
                self.total_bytes = self.total_bytes.wrapping_add(size);
            },
            None => {
                let record = Record::build(key.clone(), String::new(), true, None);
                assert(record@.value =~= Seq::<char>::empty());
                let size = record.size_on_disk();
                let _ = self.store.append(&mut self.dir, &record);
                let _ = self.store.index.delete(key.as_str());
                self.total_bytes = self.total_bytes.wrapping_add(size);
            },
        }
    }

    /// Hands out the changes that were made to the files since they were last
    /// taken.
    pub fn take_changes(&mut self) -> (cs: Vec<Change>)
        requires
            old(self).wf(),
        ensures
            final(self).wf(),
            final(self)@ == old(self)@,
            crate::directory::changed_by(old(self).base(), cs@) == old(self)@.files,
            final(self).base() == old(self)@.files,
    {
        self.dir.take_changes()
    }

    /// The directory, without the engine.
    pub fn into_directory(self) -> (dir: Directory)
        requires
            self.wf(),
        ensures
            dir.wf(),
            dir@ == self@.files,
            dir.base() == self.base(),
    {
        self.dir
    }

    /// A write that is not refused keeps an engine durable.
    proof fn lemma_durable_write(
        &self,
        key: Seq<char>,
        value: Seq<char>,
        expiry_ms: Option<u64>,
        now: Clock,
    )
        requires
            self.wf(),
        ensures
            durable(self@) && byte_len(key) <= MAX_KEY_SIZE && byte_len(value) <= MAX_VALUE_SIZE
                ==> durable(kv_put(self@, record_of(key, value, expiry_ms), now.ms)),
    {
        let r = record_of(key, value, expiry_ms);
        if durable(self@) && within_limits(r) {
            self.lemma_files();
            lemma_durable_put(self@, r, now.ms);
        }
    }

    /// Reads the record of a key, unless it has expired.
    fn find(&self, key: &str, now: Clock) -> (r: Result<Option<Record>, StoreError>)
        requires
            self.wf(),
        ensures
            match r {
                Ok(Some(rec)) => rec.sized() && kv_get(self@, key@, now.ms) == Ok::<
                    Option<RecordView>,
                    StoreError,
                >(Some(rec@)),
                Ok(None) => kv_get(self@, key@, now.ms) == Ok::<Option<RecordView>, StoreError>(
                    None,
                ),
                Err(e) => kv_get(self@, key@, now.ms) == Err::<Option<RecordView>, StoreError>(e),
            },
    {
        match self.store.find(&self.dir, key) {
            Ok(Some(rec)) => if has_expired(rec.header.expiry_ms, now.ms) {
                Ok(None)
            } else {
                Ok(Some(rec))
            },
            Ok(None) => Ok(None),
            Err(e) => Err(e),
        }
    }

    /// Logs a write, makes room for it, and writes it.
    fn put(&mut self, key: &str, value: &str, expiry_ms: Option<u64>, now: Clock) -> (r: Result<
        (),
        StoreError,
    >)
        requires
            old(self).wf(),
        ensures
            final(self).wf(),
            final(self).base() == old(self).base(),
            match r {
                Ok(_) => {
                    &&& byte_len(key@) <= MAX_KEY_SIZE
                    &&& byte_len(value@) <= MAX_VALUE_SIZE
                    &&& final(self)@ == kv_put(
                        old(self)@,
                        record_of(key@, value@, expiry_ms),
                        now.ms,
                    )
                    &&& must_roll(
                        old(self)@.files,
                        old(self)@.store,
                        record_len(record_of(key@, value@, expiry_ms)),
                    ) ==> synced_then_emptied(
                        old(self).pending(),
                        final(self).pending(),
                        old(self)@.active_file(),
                        old(self)@.wal(),
                    )
                    &&& sync_due(old(self)@.store) <==> synced_by(
                        final(self).pending(),
                        final(self)@.active_file(),
                    )
                },
                Err(e) => {
                    &&& e == StoreError::TooLarge
                    &&& byte_len(key@) > MAX_KEY_SIZE || byte_len(value@) > MAX_VALUE_SIZE
                    &&& *final(self) == *old(self)
                },
            },
            old(self)@.sound() ==> final(self)@.sound(),
            old(self)@.sound() && r is Ok ==> final(self)@.contents() == old(
                self,
            )@.contents().insert(key@, Live { value: value@, expiry_ms }),
    {
        if len_of(key) > MAX_KEY_SIZE || len_of(value) > MAX_VALUE_SIZE {
            return Err(StoreError::TooLarge);
        }
        let ghost s = self@;
        let record = Record::build(
            String::from_str(key),
            String::from_str(value),
            false,
            expiry_ms,
        );
        let ghost r = record@;
        proof {
            self.dir.lemma_sizes();
            lemma_encoded_len(r);
            if s.sound() {
                lemma_put(s, r, now.ms);
            }
            lemma_wal_is_no_segment(s.store.name, s.store.active);
            lemma_wal_is_no_segment(s.store.name, next_stamp(s.store.active, now.ms));
        }
        let _ = self.wal.append(
            &mut self.dir,
            String::from_str(key),
            String::from_str(value),
            false,
            expiry_ms,
        );
        let size = record.size_on_disk();
        let ghost mut i: int = 0;
        let ghost mut j: int = 0;
        if self.store.is_full(&self.dir, size) {
            self.dir.sync(self.store.active_segment.filename().as_str());
            proof {
                i = self.dir.pending().len() - 1;
            }
            self.store.roll_segment(&mut self.dir, now.ms);
            self.wal.reset(&mut self.dir);
            proof {
                j = self.dir.pending().len() - 1;
            }
            self.segment_count = self.segment_count.wrapping_add(1);
        }
        let ghost rolled = self.dir.pending();
        assert(self@.files == kv_logged(s, r, now.ms).files);
        let offset = self.store.append(&mut self.dir, &record);
        if let Some(old_entry) = self.store.index.set(
            record.key,
            offset,
            self.store.active_segment.timestamp,
            size,
        ) {
            self.dead_bytes = self.dead_bytes.wrapping_add(old_entry.record_size);
        }
        self.total_bytes = self.total_bytes.wrapping_add(size);
        self.store.fsync(&mut self.dir);
        proof {
            if must_roll(s.files, s.store, record_len(r)) {
                assert(syncs(rolled[i], s.active_file()) && empties(rolled[j], s.wal()));
                assert(syncs(self.pending()[i], s.active_file()));
                assert(empties(self.pending()[j], s.wal()));
            }
        }
        Ok(())
    }

    /// Copies the keys that have not expired to a new engine in the same directory,
    /// writes hint files for its segments, and begins one that is still empty. The old
    /// segments stay.
    ///
    /// While it runs, the directory belongs to the new engine; it is handed back in
    /// any case.
    #[verifier::rlimit(50)]
    fn build_compacted(&mut self, now: Clock) -> (r: Result<(SegmentStore, Vec<Segment>), StoreError>)
        requires
            old(self).wf(),
        ensures
            final(self).wf(),
            final(self).base() == old(self).base(),
            final(self)@ == (KvView { files: final(self)@.files, ..old(self)@ }),
            ({
                let s = old(self)@;
                let t = kv_new(
                    s.files,
                    s.store.name,
                    s.store.max_segment_bytes,
                    s.store.fsync_strategy,
                    first_stamp(segments(s.files, s.store.name), now.ms),
                );
                let (u, end) = kv_copied(t, s.store.index, keys_in_order(s.store.index), now.ms);
                let segs = segments(s.files, s.store.name);
                match r {
                    Ok((store, old_segments)) => {
                        &&& end is None
                        &&& files_fit(u.files)
                        &&& store.wf()
                        &&& store@ == (StoreView {
                            active: next_stamp(u.store.active, now.ms),
                            ..u.store
                        })
                        &&& store@.name == s.store.name
                        &&& segment_views(old_segments@) == segs
                        &&& final(self)@.files == begun(
                            with_hints(
                                u.files,
                                u.store.index,
                                segments_besides(segments(u.files, s.store.name), segs),
                            ),
                            s.store.name,
                            next_stamp(u.store.active, now.ms),
                        )
                    },
                    Err(e) => end == Some(e) && final(self)@.files == u.files,
                }
            }),
            forall|ts: u64|
                old(self)@.files.contains_key(
                    #[trigger] segment_file(old(self)@.store.name, ts),
                ) ==> final(self)@.files.contains_key(segment_file(old(self)@.store.name, ts)),
            old(self)@.sound() ==> r is Ok,
            old(self)@.sound() ==> match r {
                Ok((store, _)) => {
                    &&& sound(final(self)@.files, store@.name, store@.index)
                    &&& contents_at(final(self)@.files, store@.name, store@.index) == unexpired(
                        old(self)@.contents(),
                        now.ms,
                    )
                    &&& forall|k: Seq<char>| #[trigger]
                        store@.index.contains_key(k) ==> store@.index[k].segment_timestamp
                            >= first_stamp(
                            segments(old(self)@.files, old(self)@.store.name),
                            now.ms,
                        )
                },
                Err(_) => true,
            },
    {
        let ghost s = self@;
        let ghost name = s.store.name;
        let ghost c = s.contents();
        let old_segments = get_segments(&self.dir, self.store.active_segment.segment_name.as_str());
        let n = old_segments.len();
        let start: u64 = if n == 0 {
            now.ms
        } else {
            later_stamp(old_segments[n - 1].timestamp, now.ms)
        };
        assert(n > 0 ==> segment_views(old_segments@).last() == old_segments@[n - 1]@);
        assert(start == first_stamp(segments(s.files, name), now.ms));
        let mut dir = Directory::new();
        std::mem::swap(&mut dir, &mut self.dir);
        let mut new_db = KVEngine::new(
            dir,
            self.store.active_segment.segment_name.as_str(),
            self.store.max_segment_bytes,
            self.store.fsync_strategy,
            Clock { ms: start, ns: now.ns },
        );
        let keys = self.store.index.ls_keys();
        let ghost t = new_db@;
        let ghost ks = keys_in_order(s.store.index);
        let mut failed: Option<StoreError> = None;
        let mut i: usize = 0;
        proof {
            self.store.index.lemma_keys();
            assert(ks.take(0) =~= Seq::<Seq<char>>::empty());
            assert(string_views(keys@).len() == keys@.len());
            lemma_kept_begun(s.files, name, start);
            if s.sound() {
                lemma_sound_begun(s.files, name, start, s.store.index);
                lemma_touched(begun(s.files, name, start), s.wal());
                lemma_sound_appended(
                    begun(s.files, name, start),
                    s.wal(),
                    Seq::empty(),
                    name,
                    s.store.index,
                );
                assert(new_db@.contents() =~= copied_contents(c, ks.take(0), now.ms));
            }
        }
        while i < keys.len() && failed.is_none()
            invariant
                i <= keys@.len(),
                new_db.wf(),
                self.store.wf(),
                new_db.base() == old(self).base(),
                self.store@ == s.store,
                name == s.store.name,
                new_db@.store.name == name,
                ks == string_views(keys@),
                ks == keys_in_order(s.store.index),
                crate::sorted_map::keys_of(s.store.index, ks),
                c == s.contents(),
                kv_copied(t, s.store.index, ks.take(i as int), now.ms) == (new_db@, failed),
                new_db@.store.active >= start,
                forall|ts: u64|
                    s.files.contains_key(#[trigger] segment_file(name, ts))
                        ==> new_db@.files.contains_key(segment_file(name, ts)),
                forall|k: Seq<char>| #[trigger]
                    new_db@.store.index.contains_key(k)
                        ==> new_db@.store.index[k].segment_timestamp >= start,
                s.sound() ==> {
                    &&& failed is None
                    &&& sound(new_db@.files, name, s.store.index)
                    &&& contents_at(new_db@.files, name, s.store.index) == c
                    &&& new_db@.sound()
                    &&& new_db@.contents() == copied_contents(c, ks.take(i as int), now.ms)
                },
            decreases keys@.len() - i,
        {
            let k = &keys[i];
            assert(ks[i as int] == k@);
            assert(ks.contains(k@));
            assert(ks.take(i + 1).drop_last() =~= ks.take(i as int));
            let ghost u = new_db@;
            proof {
                lemma_kept_put(u, now.ms);
                new_db.dir.lemma_sizes();
                if s.sound() {
                    lemma_copied_next(c, ks, i as int, now.ms);
                    assert(crate::store::entry_sound(u.files, name, k@, s.store.index[k@]));
                    assert(contents_at(u.files, name, s.store.index)[k@] == c[k@]);
                }
            }
            match self.store.find(&new_db.dir, k.as_str()) {
                Ok(Some(rec)) => {
                    if !has_expired(rec.header.expiry_ms, now.ms) {
                        let ghost r = record_of(k@, rec.value@, rec.header.expiry_ms);
                        proof {
                            if s.sound() {
                                lemma_limits_of(u.files, name, s.store.index[k@]);
                                lemma_old_index_after_put(u, s.store.index, r, now.ms);
                            }
                        }
                        match new_db.put(
                            k.as_str(),
                            rec.value.as_str(),
                            rec.header.expiry_ms,
                            now,
                        ) {
                            Ok(_) => {},
                            Err(e) => {
                                failed = Some(e);
                            },
                        }
                    }
                },
                Ok(None) => {},
                Err(e) => {
                    failed = Some(e);
                },
            }
            i = i + 1;
        }
        proof {
            lemma_copied_stays(t, s.store.index, ks, i as int, now.ms);
        }
        let KVEngine { dir: new_dir, store: new_store, .. } = new_db;
        let mut dir = new_dir;
        let mut store = new_store;
        let ghost u = new_db@;
        if let Some(e) = failed {
            std::mem::swap(&mut dir, &mut self.dir);
            return Err(e);
        }
        assert(ks.take(i as int) =~= ks);
        proof {
            dir.lemma_sizes();
        }
        dir.sync(store.active_segment.filename().as_str());
        let all = get_segments(&dir, self.store.active_segment.segment_name.as_str());
        let fresh = besides(&all, &old_segments);
        let ghost fresh_views = segment_views(fresh@);
        let ghost files = dir@;
        assert(fresh_views.take(0) =~= Seq::<SegmentView>::empty());
        for j in 0..fresh.len()
            invariant
                dir.wf(),
                store.wf(),
                dir.base() == old(self).base(),
                fresh_views == segment_views(fresh@),
                forall|ts: u64|
                    s.files.contains_key(#[trigger] segment_file(name, ts)) ==> dir@.contains_key(
                        segment_file(name, ts),
                    ),
                dir@ == with_hints(files, store@.index, fresh_views.take(j as int)),
                s.sound() ==> {
                    &&& sound(dir@, name, store@.index)
                    &&& contents_at(dir@, name, store@.index) == unexpired(c, now.ms)
                },
        {
            let segment = &fresh[j];
            assert(fresh_views[j as int] == segment@);
            assert(fresh_views.take(j + 1).drop_last() =~= fresh_views.take(j as int));
            let entries = hint_entries(&store.index, segment.timestamp);
            let mut bytes: Vec<u8> = Vec::new();
            Hint::write_file(&mut bytes, entries.as_slice());
            proof {
                if s.sound() {
                    lemma_sound_hint(dir@, name, store@.index, segment@, bytes@);
                }
            }
            dir.replace(segment.hint_filename().as_str(), bytes);
        }
        assert(fresh_views.take(fresh@.len() as int) =~= fresh_views);
        proof {
            let next = next_stamp(store@.active, now.ms);
            if s.sound() {
                lemma_sound_begun(dir@, name, next, store@.index);
            }
            lemma_kept_begun(dir@, name, next);
        }
        store.roll_segment(&mut dir, now.ms);
        std::mem::swap(&mut dir, &mut self.dir);
        Ok((store, old_segments))
    }

}

/// The segments whose timestamp is that of none of the old ones.
pub fn besides(all: &Vec<Segment>, old_segments: &Vec<Segment>) -> (out: Vec<Segment>)
    ensures
        segment_views(out@) == segments_besides(
            segment_views(all@),
            segment_views(old_segments@),
        ),
{
    let mut out: Vec<Segment> = Vec::new();
    let ghost av = segment_views(all@);
    let ghost ov = segment_views(old_segments@);
    assert(av.take(0) =~= Seq::<SegmentView>::empty());
    assert(segment_views(out@) =~= Seq::<SegmentView>::empty());
    for i in 0..all.len()
        invariant
            av == segment_views(all@),
            ov == segment_views(old_segments@),
            segment_views(out@) == segments_besides(av.take(i as int), ov),
    {
        assert(av[i as int] == all@[i as int]@);
        assert(av.take(i + 1).drop_last() =~= av.take(i as int));
        let mut known = false;
        for j in 0..old_segments.len()
            invariant
                i < all@.len(),
                ov == segment_views(old_segments@),
                known <==> exists|n: int|
                    0 <= n < j && (#[trigger] ov[n]).timestamp == all@[i as int].timestamp,
        {
            assert(ov[j as int] == old_segments@[j as int]@);
            if old_segments[j].timestamp == all[i].timestamp {
                known = true;
            }
        }
        if !known {
            let ghost before = segment_views(out@);
            out.push(all[i].copy());
            assert(segment_views(out@) =~= before.push(av[i as int]));
        }
    }
    assert(av.take(all@.len() as int) =~= av);
    out
}

/// The hints of the keys of an index that stand in the segment of a timestamp.
pub fn hint_entries(index: &HashIndex, timestamp: u64) -> (out: Vec<HintEntry>)
    requires
        index.wf(),
    ensures
        hint_views(out@) == hints_for(index@, keys_in_order(index@), timestamp),
{
    let keys = index.ls_keys();
    let ghost ks = keys_in_order(index@);
    let mut out: Vec<HintEntry> = Vec::new();
    proof {
        index.lemma_keys();
        assert(ks.take(0) =~= Seq::<Seq<char>>::empty());
        assert(hint_views(out@) =~= Seq::<HintView>::empty());
        assert(string_views(keys@).len() == keys@.len());
    }
    for i in 0..keys.len()
        invariant
            index.wf(),
            ks == string_views(keys@),
            crate::sorted_map::keys_of(index@, ks),
            hint_views(out@) == hints_for(index@, ks.take(i as int), timestamp),
    {
        let k = &keys[i];
        assert(ks[i as int] == k@);
        assert(ks.contains(k@));
        assert(ks.take(i + 1).drop_last() =~= ks.take(i as int));
        let ghost before = hint_views(out@);
        if let Some(entry) = index.get(k.as_str()) {
            if entry.segment_timestamp == timestamp {
                let h = HintEntry {
                    key_size: len_of(k.as_str()) as u64,
                    offset: entry.offset,
                    tombstone: false,
                    key: k.clone(),
                };
                let ghost hv = h@;
                out.push(h);
                assert(hint_views(out@) =~= before.push(hv));
            }
        }
    }
    assert(ks.take(keys@.len() as int) =~= ks);
    out
}

/// A write to the engine is refused just where its key is larger than a mebibyte or its value
/// larger than five, whatever the state of the engine and the time are; a deletion is just
/// where the key is that large. The engine can keep any other write in good order.
pub proof fn lemma_refusals(
    e: KVEngine,
    key: Seq<char>,
    value: Seq<char>,
    expiry_ms: Option<u64>,
    now: Clock,
)
    ensures
        ({
            let large_key = encode_utf8(key).len() > 1024 * 1024;
            let large = large_key || encode_utf8(value).len() > 5 * 1024 * 1024;
            &&& e.write_error(key, value, expiry_ms, now) == if large {
                Some(StoreError::TooLarge)
            } else {
                None
            }
            &&& KVEngine::refused(key, value) == e.write_error(key, value, expiry_ms, now)
            &&& e.delete_error(key, now) == if large_key {
                Some(StoreError::TooLarge)
            } else {
                None
            }
            &&& e.orderly(key, value, now)
        }),
{
}

impl StorageEngine for KVEngine {
    closed spec fn wf(&self) -> bool {
        self.inv()
    }

    open spec fn healthy(&self) -> bool {
        self@.sound()
    }

    open spec fn recoverable(&self) -> bool {
        durable(self@)
    }

    open spec fn contents(&self) -> Contents {
        self@.contents()
    }

    open spec fn read(&self, key: Seq<char>, now_ms: u64) -> Result<Option<Seq<char>>, StoreError> {
        match kv_get(self@, key, now_ms) {
            Ok(Some(r)) => Ok(Some(r.value)),
            Ok(None) => Ok(None),
            Err(e) => Err(e),
        }
    }

    open spec fn listing(&self, now_ms: u64) -> Result<Seq<Seq<char>>, StoreError> {
        Ok(kv_listed(self@, keys_in_order(self@.store.index), now_ms))
    }

    open spec fn there(&self, key: Seq<char>, now_ms: u64) -> bool {
        kv_there(self@, key, now_ms)
    }

    open spec fn wrote(
        &self,
        after: Self,
        key: Seq<char>,
        value: Seq<char>,
        expiry_ms: Option<u64>,
        now: Clock,
        end: Option<StoreError>,
    ) -> bool {
        match end {
            None => {
                &&& after@ == kv_put(self@, record_of(key, value, expiry_ms), now.ms)
                &&& after.base() == self.base()
            },
            Some(_) => after == *self,
        }
    }

    open spec fn erased(
        &self,
        after: Self,
        key: Seq<char>,
        now: Clock,
        end: Option<StoreError>,
    ) -> bool {
        match end {
            None => {
                &&& after@ == kv_deleted(self@, key)
                &&& after.base() == self.base()
            },
            Some(_) => after == *self,
        }
    }

    proof fn lemma_read(&self, key: Seq<char>, now_ms: u64) {
        lemma_get_visible(self@, key, now_ms);
        assert(self.there(key, now_ms) == kv_there(self@, key, now_ms));
        assert(self.read(key, now_ms) == Ok::<Option<Seq<char>>, StoreError>(
            visible(self.contents(), key, now_ms),
        ));
    }

    proof fn lemma_ordered(&self) {
        self.lemma_files();
        lemma_orderable_part(self@.store.index, self.contents());
    }

    proof fn lemma_listing(&self, now_ms: u64) {
        self.lemma_files();
        lemma_orderable(self@.store.index);
        lemma_listed(self@, keys_in_order(self@.store.index), now_ms);
    }

    open spec fn refused(key: Seq<char>, value: Seq<char>) -> Option<StoreError> {
        if byte_len(key) > MAX_KEY_SIZE || byte_len(value) > MAX_VALUE_SIZE {
            Some(StoreError::TooLarge)
        } else {
            None
        }
    }

    proof fn lemma_refused(
        &self,
        key: Seq<char>,
        value: Seq<char>,
        expiry_ms: Option<u64>,
        now: Clock,
    ) {
        assert(self.write_error(key, value, expiry_ms, now) == Self::refused(key, value));
    }

    open spec fn write_error(
        &self,
        key: Seq<char>,
        value: Seq<char>,
        expiry_ms: Option<u64>,
        now: Clock,
    ) -> Option<StoreError> {
        if byte_len(key) > MAX_KEY_SIZE || byte_len(value) > MAX_VALUE_SIZE {
            Some(StoreError::TooLarge)
        } else {
            None
        }
    }

    open spec fn delete_error(&self, key: Seq<char>, now: Clock) -> Option<StoreError> {
        if byte_len(key) > MAX_KEY_SIZE {
            Some(StoreError::TooLarge)
        } else {
            None
        }
    }

    open spec fn orderly(&self, key: Seq<char>, value: Seq<char>, now: Clock) -> bool {
        true
    }

    open spec fn compactable(&self, now: Clock) -> bool {
        kv_compactable(self@, now.ms)
    }

    open spec fn spec_dead_bytes(&self) -> u64 {
        self@.dead_bytes
    }

    open spec fn spec_total_bytes(&self) -> u64 {
        self@.total_bytes
    }

    open spec fn spec_segment_count(&self) -> nat {
        self@.segment_count as nat
    }

    fn get(&self, key: &str, now: Clock) -> (r: Result<Option<(String, String)>, StoreError>)
        ensures
            match r {
                Ok(Some((k, v))) => match kv_get(self@, key@, now.ms) {
                    Ok(Some(rec)) => k@ == rec.key && v@ == rec.value,
                    _ => false,
                },
                Ok(None) => kv_get(self@, key@, now.ms) == Ok::<Option<RecordView>, StoreError>(
                    None,
                ),
                Err(e) => kv_get(self@, key@, now.ms) == Err::<Option<RecordView>, StoreError>(e),
            },
    {
        proof {
            if self.healthy() {
                self.lemma_read(key@, now.ms);
                lemma_get_visible(self@, key@, now.ms);
            }
        }
        match self.find(key, now) {
            Ok(Some(rec)) => Ok(Some((rec.key, rec.value))),
            Ok(None) => Ok(None),
            Err(e) => Err(e),
        }
    }

    fn set_with_ttl(&mut self, key: &str, value: &str, expiry_ms: Option<u64>, now: Clock) -> (r:
        Result<(), StoreError>)
        ensures
            final(self).base() == old(self).base(),
            durable(old(self)@) ==> durable(final(self)@),
            match r {
                Ok(_) => {
                    &&& final(self)@ == kv_put(
                        old(self)@,
                        record_of(key@, value@, expiry_ms),
                        now.ms,
                    )
                    &&& must_roll(
                        old(self)@.files,
                        old(self)@.store,
                        record_len(record_of(key@, value@, expiry_ms)),
                    ) ==> synced_then_emptied(
                        old(self).pending(),
                        final(self).pending(),
                        old(self)@.active_file(),
                        old(self)@.wal(),
                    )
                    &&& sync_due(old(self)@.store) <==> synced_by(
                        final(self).pending(),
                        final(self)@.active_file(),
                    )
                },
                Err(_) => *final(self) == *old(self),
            },
    {
        let ghost before = *self;
        proof {
            self.lemma_durable_write(key@, value@, expiry_ms, now);
        }
        let r = self.put(key, value, expiry_ms, now);
        assert(before.write_error(key@, value@, expiry_ms, now) == error_in(r));
        assert(before.wrote(*self, key@, value@, expiry_ms, now, error_in(r)));
        r
    }

    fn set(&mut self, key: &str, value: &str, now: Clock) -> (r: Result<(), StoreError>)
        ensures
            final(self).base() == old(self).base(),
            durable(old(self)@) ==> durable(final(self)@),
            match r {
                Ok(_) => {
                    &&& final(self)@ == kv_put(old(self)@, record_of(key@, value@, None), now.ms)
                    &&& final(self)@.total_bytes == old(self)@.total_bytes.wrapping_add(
                        record_len(record_of(key@, value@, None)) as u64,
                    )
                    &&& must_roll(
                        old(self)@.files,
                        old(self)@.store,
                        record_len(record_of(key@, value@, None)),
                    ) ==> synced_then_emptied(
                        old(self).pending(),
                        final(self).pending(),
                        old(self)@.active_file(),
                        old(self)@.wal(),
                    )
                    &&& sync_due(old(self)@.store) <==> synced_by(
                        final(self).pending(),
                        final(self)@.active_file(),
                    )
                },
                Err(_) => *final(self) == *old(self),
            },
    {
        let ghost before = *self;
        proof {
            self.lemma_durable_write(key@, value@, None, now);
        }
        let r = self.put(key, value, None, now);
        assert(before.write_error(key@, value@, None, now) == error_in(r));
        assert(before.wrote(*self, key@, value@, None, now, error_in(r)));
        r
    }

    fn delete(&mut self, key: &str, now: Clock) -> (r: Result<Option<()>, StoreError>)
        ensures
            final(self).base() == old(self).base(),
            durable(old(self)@) ==> durable(final(self)@),
            match r {
                Ok(x) => {
                    &&& old(self).delete_error(key@, now) is None
                    &&& final(self)@ == kv_deleted(old(self)@, key@)
                    &&& old(self)@.store.index.contains_key(key@) ==> (sync_due(
                        old(self)@.store,
                    ) <==> synced_by(final(self).pending(), final(self)@.active_file()))
                },
                Err(e) => old(self).delete_error(key@, now) == Some(e) && *final(self) == *old(self),
            },
    {
        if len_of(key) > MAX_KEY_SIZE {
            return Err(StoreError::TooLarge);
        }
        let found = match self.find(key, now) {
            Ok(None) => None,
            _ => Some(()),
        };
        let ghost s = self@;
        let record = Record::build(String::from_str(key), String::new(), true, None);
        proof {
            assert(record@.value =~= Seq::<char>::empty());
            lemma_encoded_len(record@);
            if s.sound() {
                lemma_deleted(s, key@);
            }
            if durable(s) {
                self.lemma_files();
                lemma_durable_deleted(s, key@);
            }
        }
        let _ = self.wal.append(
            &mut self.dir,
            String::from_str(key),
            String::new(),
            true,
            None,
        );
        match self.store.index.delete(key) {
            Some(entry) => {
                let _ = self.store.append(&mut self.dir, &record);
                self.store.fsync(&mut self.dir);
                let size = record.size_on_disk();
                self.dead_bytes = self.dead_bytes.wrapping_add(
                    entry.record_size.wrapping_add(size),
                );
                self.total_bytes = self.total_bytes.wrapping_add(size);
            },
            None => {
                assert(self@.store.index =~= s.store.index);
            },
        }
        Ok(found)
    }

    fn compact(&mut self, now: Clock) -> (r: Result<(), StoreError>)
        ensures
            final(self).base() == old(self).base(),
            final(self)@ == kv_compacted(old(self)@, now.ms).0,
            kv_compacted(old(self)@, now.ms).1 == error_in(r),
            old(self).healthy() && old(self).compactable(now) && usual(
                old(self)@.files,
                old(self)@.store.name,
            ) ==> {
                &&& durable(final(self)@)
                &&& forall|y: SegmentView| #[trigger]
                    segments(final(self)@.files, final(self)@.store.name).contains(y)
                        ==> needed_only(
                        final(self)@.files,
                        final(self)@.store.name,
                        final(self)@.store.index,
                        y.timestamp,
                    )
            },
    {
        let ghost s = self@;
        let (new_store, old_segments) = match self.build_compacted(now) {
            Ok(x) => x,
            Err(e) => {
                return Err(e);
            },
        };
        let ghost index = new_store@.index;
        proof {
            self.lemma_files();
        }
        self.store.index = new_store.index;
        self.store.active_segment = new_store.active_segment;
        self.store.writes_since_fsync = 0;
        self.segment_count = 1;
        proof {
            if s.sound() {
                lemma_sound_wal(self@.files, s.store.name, index, Seq::empty());
            }
        }
        self.wal.reset(&mut self.dir);
        let ghost segs = segment_views(old_segments@);
        let ghost files = self.dir@;
        proof {
            assert(segs.take(0) =~= Seq::<SegmentView>::empty());
            if s.sound() && kv_compactable(s, now.ms) {
                crate::segment::lemma_segments_of(keys_in_order(s.files), s.store.name);
                assert forall|i: int| 0 <= i < segs.len() implies files.contains_key(
                    segment_filename(#[trigger] segs[i]),
                ) && segs[i].timestamp < first_stamp(segs, now.ms) by {
                    assert(s.files.contains_key(segment_filename(segs[i])));
                    assert(segments(s.files, s.store.name).contains(segs[i]));
                    assert(segment_filename(segs[i]) == segment_file(
                        s.store.name,
                        segs[i].timestamp,
                    ));
                    assert(segs[i].timestamp <= segs[segs.len() - 1].timestamp);
                }
                lemma_segments_removable(files, segs, segs.len() as int);
                assert(segs.take(segs.len() as int) =~= segs);
                lemma_without_segments(
                    files,
                    s.store.name,
                    index,
                    segs,
                    first_stamp(segs, now.ms),
                );
            }
        }
        for i in 0..old_segments.len()
            invariant
                self.wf(),
                self.base() == old(self).base(),
                segs == segment_views(old_segments@),
                without_segments(files, segs.take(i as int)) == (self@.files, None::<StoreError>),
                self@ == (KvView {
                    files: self@.files,
                    ..kv_compacted(s, now.ms).0
                }),
                kv_compacted(s, now.ms).0.files == without_segments(files, segs).0,
                kv_compacted(s, now.ms).1 == without_segments(files, segs).1,
                s == old(self)@,
                s.sound() && kv_compactable(s, now.ms) ==> without_segments(files, segs).1 is None,
        {
            let segment = &old_segments[i];
            assert(segs[i as int] == segment@);
            assert(segs.take(i + 1).drop_last() =~= segs.take(i as int));
            let file = segment.filename();
            if !self.dir.contains(file.as_str()) {
                proof {
                    lemma_without_stays(files, segs, i + 1);
                }
                return Err(StoreError::FileNotFound);
            }
            self.dir.remove(file.as_str());
            self.dir.remove(segment.hint_filename().as_str());
        }
        assert(segs.take(old_segments@.len() as int) =~= segs);
        proof {
            if s.sound() && kv_compactable(s, now.ms) && usual(s.files, s.store.name) {
                lemma_durable_compacted(s, now.ms);
                assert forall|y: SegmentView| #[trigger]
                    segments(self@.files, self@.store.name).contains(y) implies needed_only(
                    self@.files,
                    self@.store.name,
                    self@.store.index,
                    y.timestamp,
                ) by {
                    lemma_compacted_records(s, now.ms, y);
                }
            }
        }
        Ok(())
    }

    fn dead_bytes(&self) -> (n: u64) {
        self.dead_bytes
    }

    fn total_bytes(&self) -> (n: u64) {
        self.total_bytes
    }

    fn segment_count(&self) -> (n: usize) {
        self.segment_count
    }

    fn list_keys(&self, now: Clock) -> (r: Result<Vec<String>, StoreError>)
        ensures
            r is Ok,
    {
        let keys = self.store.index.ls_keys();
        let ghost ks = keys_in_order(self@.store.index);
        proof {
            self.store.index.lemma_keys();
            if self@.sound() {
                lemma_listed(self@, ks, now.ms);
                self.lemma_ordered();
                crate::engine::lemma_listed(self.contents(), now.ms);
            }
            assert(ks.take(0) =~= Seq::<Seq<char>>::empty());
            assert(string_views(keys@).len() == keys@.len());
        }
        let mut out: Vec<String> = Vec::new();
        assert(string_views(out@) =~= Seq::<Seq<char>>::empty());
        for i in 0..keys.len()
            invariant
                self.wf(),
                ks == string_views(keys@),
                ks == keys_in_order(self@.store.index),
                kv_listed(self@, ks.take(i as int), now.ms) == string_views(out@),
        {
            let k = &keys[i];
            assert(ks[i as int] == k@);
            assert(ks.take(i + 1).drop_last() =~= ks.take(i as int));
            let ghost before = string_views(out@);
            if self.contains(k.as_str(), now) {
                out.push(k.clone());
                assert(string_views(out@) =~= before.push(k@));
            }
        }
        assert(ks.take(keys@.len() as int) =~= ks);
        Ok(out)
    }

    fn contains(&self, key: &str, now: Clock) -> (r: bool) {
        proof {
            if self.healthy() {
                self.lemma_read(key@, now.ms);
            }
        }
        match self.find(key, now) {
            Ok(None) => false,
            _ => true,
        }
    }

    fn ttl(&mut self, key: &str, expiry_ms: Option<u64>, now: Clock) -> (r: Result<
        TtlOutcome,
        StoreError,
    >)
        ensures
            durable(old(self)@) ==> durable(final(self)@),
            match kv_get(old(self)@, key@, now.ms) {
                Err(e) => r == Err::<TtlOutcome, StoreError>(e) && *final(self) == *old(self),
                Ok(None) => {
                    &&& r == Ok::<TtlOutcome, StoreError>(TtlOutcome::NotFound)
                    &&& *final(self) == *old(self)
                },
                Ok(Some(rec)) => match r {
                    Ok(outcome) => {
                        &&& byte_len(key@) <= MAX_KEY_SIZE
                        &&& byte_len(rec.value) <= MAX_VALUE_SIZE
                        &&& outcome == if expiry_ms is Some {
                            TtlOutcome::ExpirySet
                        } else {
                            TtlOutcome::Persisted
                        }
                        &&& final(self)@ == kv_put(
                            old(self)@,
                            record_of(key@, rec.value, expiry_ms),
                            now.ms,
                        )
                    },
                    Err(e) => {
                        &&& e == StoreError::TooLarge
                        &&& byte_len(key@) > MAX_KEY_SIZE || byte_len(rec.value) > MAX_VALUE_SIZE
                        &&& *final(self) == *old(self)
                    },
                },
            },
    {
        proof {
            if self@.sound() {
                lemma_get_visible(self@, key@, now.ms);
            }
        }
        let value = match self.find(key, now) {
            Ok(Some(rec)) => rec.value,
            Ok(None) => {
                return Ok(TtlOutcome::NotFound);
            },
            Err(e) => {
                return Err(e);
            },
        };
        proof {
            self.lemma_durable_write(key@, value@, expiry_ms, now);
        }
        match self.put(key, value.as_str(), expiry_ms, now) {
            Ok(_) => if expiry_ms.is_some() {
                Ok(TtlOutcome::ExpirySet)
            } else {
                Ok(TtlOutcome::Persisted)
            },
            Err(e) => Err(e),
        }
    }
}

/// The segment file that is written to and the log go by the names of the database, and
/// are not the same.
proof fn lemma_file_names(s: KvView)
    ensures
        s.active_file() == s.store.name + "_"@ + decimal(s.store.active as nat) + ".db"@,
        s.wal() == s.store.name + ".wal"@,
        s.wal() != s.active_file(),
{
    lemma_segment_names(SegmentView { name: s.store.name, timestamp: s.store.active });
    lemma_wal_name(s.store.name);
    lemma_wal_is_no_segment(s.store.name, s.store.active);
}

/// What a write does to an engine. The record is logged and added to the segment that is
/// written to, or to a new one where the old one would grow over its limit; the log is
/// then empty. The index has the place of the record. The bytes of the record count, and
/// those of the record that it replaces are dead.
pub proof fn lemma_put_effect(s: KvView, r: RecordView, now_ms: u64)
    ensures
        ({
            let a = kv_put(s, r, now_ms);
            let size = encoded(r).len();
            let f = s.store.name + "_"@ + decimal(s.store.active as nat) + ".db"@;
            let log = s.store.name + ".wal"@;
            let rolls = content(s.files, f).len() + size > s.store.max_segment_bytes;
            let g = a.store.name + "_"@ + decimal(a.store.active as nat) + ".db"@;
            &&& !rolls ==> a.store.active == s.store.active && a.segment_count == s.segment_count
            &&& rolls ==> a.store.active >= now_ms && (s.store.active < u64::MAX
                ==> a.store.active > s.store.active) && (s.segment_count < usize::MAX
                ==> a.segment_count == s.segment_count + 1)
            &&& a.files.contains_key(log) && a.files[log] == (if rolls {
                Seq::empty()
            } else {
                content(s.files, log) + encoded(r)
            })
            &&& a.files.contains_key(g) && a.files[g] == content(s.files, g) + encoded(r)
            &&& a.store.index.contains_key(r.key)
            &&& a.store.index[r.key].segment_timestamp == a.store.active
            &&& size <= u64::MAX ==> a.store.index[r.key].record_size == size
            &&& content(s.files, g).len() <= u64::MAX ==> a.store.index[r.key].offset == content(
                s.files,
                g,
            ).len()
            &&& a.store.index.remove(r.key) == s.store.index.remove(r.key)
            &&& s.total_bytes + size <= u64::MAX ==> a.total_bytes == s.total_bytes + size
            &&& !s.store.index.contains_key(r.key) ==> a.dead_bytes == s.dead_bytes
            &&& s.store.index.contains_key(r.key) && s.dead_bytes
                + s.store.index[r.key].record_size <= u64::MAX ==> a.dead_bytes == s.dead_bytes
                + s.store.index[r.key].record_size
            &&& a.store.name == s.store.name
            &&& a.store.max_segment_bytes == s.store.max_segment_bytes
            &&& a.store.fsync_strategy == s.store.fsync_strategy
        }),
{
    let a = kv_put(s, r, now_ms);
    lemma_file_names(s);
    lemma_file_names(a);
    lemma_encoded_len(r);
    let next = next_stamp(s.store.active, now_ms);
    lemma_begun(appended(s.files, s.wal(), encoded(r)), s.store.name, next);
    lemma_wal_is_no_segment(s.store.name, next);
    assert(a.store.index.remove(r.key) =~= s.store.index.remove(r.key));
    if must_roll(appended(s.files, s.wal(), encoded(r)), s.store, record_len(r)) {
        let b = begun(appended(s.files, s.wal(), encoded(r)), s.store.name, next);
        assert(content(b, segment_file(s.store.name, next)) == content(
            appended(s.files, s.wal(), encoded(r)),
            segment_file(s.store.name, next),
        ));
    }
}

/// What a deletion does to an engine. It is logged in any case. Where the key was there,
/// the record of the deletion is added to the segment that is written to, and it and the
/// record that it deletes are dead.
pub proof fn lemma_delete_effect(s: KvView, key: Seq<char>)
    ensures
        ({
            let a = kv_deleted(s, key);
            let r = tombstone_of(key);
            let size = encoded(r).len();
            let f = s.store.name + "_"@ + decimal(s.store.active as nat) + ".db"@;
            let log = s.store.name + ".wal"@;
            &&& r.key == key && r.tombstone
            &&& a.files.contains_key(log) && a.files[log] == content(s.files, log) + encoded(r)
            &&& !a.store.index.contains_key(key)
            &&& a.store.index == s.store.index.remove(key)
            &&& a.segment_count == s.segment_count
            &&& a.store.active == s.store.active
            &&& !s.store.index.contains_key(key) ==> content(a.files, f) == content(s.files, f)
                && a.dead_bytes == s.dead_bytes && a.total_bytes == s.total_bytes
                && a.store.writes_since_fsync == s.store.writes_since_fsync
            &&& s.store.index.contains_key(key) ==> a.files.contains_key(f) && a.files[f] == content(
                s.files,
                f,
            ) + encoded(r)
            &&& s.store.index.contains_key(key) && s.total_bytes + size <= u64::MAX
                ==> a.total_bytes == s.total_bytes + size
            &&& s.store.index.contains_key(key) && s.dead_bytes + s.store.index[key].record_size
                + size <= u64::MAX ==> a.dead_bytes == s.dead_bytes
                + s.store.index[key].record_size + size
        }),
{
    lemma_file_names(s);
    lemma_encoded_len(tombstone_of(key));
    if !s.store.index.contains_key(key) {
        assert(s.store.index.remove(key) =~= s.store.index);
    }
}

/// An engine that is begun has no keys, one segment, and nothing that counts.
pub proof fn lemma_new_effect(
    files: Files,
    name: Seq<char>,
    max_segment_bytes: u64,
    fsync_strategy: FSyncStrategy,
    now_ms: u64,
)
    ensures
        ({
            let s = kv_new(files, name, max_segment_bytes, fsync_strategy, now_ms);
            let f = name + "_"@ + decimal(now_ms as nat) + ".db"@;
            let log = name + ".wal"@;
            &&& s.store.index.dom() == Set::<Seq<char>>::empty()
            &&& s.store.active == now_ms
            &&& s.store.name == name
            &&& s.store.max_segment_bytes == max_segment_bytes
            &&& s.store.fsync_strategy == fsync_strategy
            &&& s.store.writes_since_fsync == 0
            &&& s.dead_bytes == 0
            &&& s.total_bytes == 0
            &&& s.segment_count == 1
            &&& s.files.contains_key(f) && s.files[f] == content(files, f)
            &&& s.files.contains_key(log)
        }),
{
    let s = kv_new(files, name, max_segment_bytes, fsync_strategy, now_ms);
    lemma_file_names(s);
    lemma_begun(files, name, now_ms);
    assert(s.store.index.dom() =~= Set::<Seq<char>>::empty());
}

/// A compaction that is not stopped leaves one segment that counts, no writes that wait to
/// be made durable, and the byte counts as they were. One that is stopped while it copies
/// leaves the keys where they are.
pub proof fn lemma_compacted_counts(s: KvView, now_ms: u64)
    ensures
        ({
            let (a, end) = kv_compacted(s, now_ms);
            &&& a.dead_bytes == s.dead_bytes
            &&& a.total_bytes == s.total_bytes
            &&& a.store.name == s.store.name
            &&& a.store.max_segment_bytes == s.store.max_segment_bytes
            &&& a.store.fsync_strategy == s.store.fsync_strategy
            &&& end is None ==> a.segment_count == 1 && a.store.writes_since_fsync == 0
                && a.store.active >= now_ms
        }),
{
}

/// The hints of a segment are those of the keys that stand in it, each with the size of
/// the key and the offset of its record.
pub proof fn lemma_hints_for(index: IndexMap, keys: Seq<Seq<char>>, timestamp: u64)
    ensures
        ({
            let hints = hints_for(index, keys, timestamp);
            &&& forall|i: int|
                0 <= i < hints.len() ==> ({
                    let h = #[trigger] hints[i];
                    &&& keys.contains(h.key)
                    &&& index[h.key].segment_timestamp == timestamp
                    &&& h.offset == index[h.key].offset
                    &&& !h.tombstone
                    &&& encode_utf8(h.key).len() <= u64::MAX ==> h.key_size == encode_utf8(
                        h.key,
                    ).len()
                })
            &&& forall|j: int|
                0 <= j < keys.len() && index[#[trigger] keys[j]].segment_timestamp == timestamp
                    ==> exists|i: int| 0 <= i < hints.len() && (#[trigger] hints[i]).key == keys[j]
        }),
    decreases keys.len(),
{
    if keys.len() > 0 {
        let front = keys.drop_last();
        lemma_hints_for(index, front, timestamp);
        let before = hints_for(index, front, timestamp);
        let hints = hints_for(index, keys, timestamp);
        assert forall|i: int| 0 <= i < hints.len() implies ({
            let h = #[trigger] hints[i];
            &&& keys.contains(h.key)
            &&& index[h.key].segment_timestamp == timestamp
            &&& h.offset == index[h.key].offset
            &&& !h.tombstone
            &&& encode_utf8(h.key).len() <= u64::MAX ==> h.key_size == encode_utf8(h.key).len()
        }) by {
            if i < before.len() {
                assert(hints[i] == before[i]);
                let j = front.index_of(before[i].key);
                assert(keys[j] == front[j]);
            } else {
                assert(keys[keys.len() - 1] == hints[i].key);
            }
        }
        assert forall|j: int|
            0 <= j < keys.len() && index[#[trigger] keys[j]].segment_timestamp
                == timestamp implies exists|i: int|
            0 <= i < hints.len() && (#[trigger] hints[i]).key == keys[j] by {
            if j < front.len() {
                assert(front[j] == keys[j]);
                let i = choose|i: int| 0 <= i < before.len() && (#[trigger] before[i]).key == front[j];
                assert(hints[i] == before[i]);
            } else {
                assert(hints[before.len() as int].key == keys[j]);
            }
        }
    }
}

/// The segments that are left besides old ones are those of other timestamps, all of them.
pub proof fn lemma_segments_besides(
    all: Seq<SegmentView>,
    old_segments: Seq<SegmentView>,
    s: SegmentView,
)
    ensures
        segments_besides(all, old_segments).contains(s) <==> all.contains(s) && forall|i: int|
            0 <= i < old_segments.len() ==> (#[trigger] old_segments[i]).timestamp != s.timestamp,
    decreases all.len(),
{
    if all.len() > 0 {
        let front = all.drop_last();
        lemma_segments_besides(front, old_segments, s);
        let before = segments_besides(front, old_segments);
        let r = segments_besides(all, old_segments);
        assert(all[all.len() - 1] == all.last());
        if front.contains(s) {
            let i = front.index_of(s);
            assert(all[i] == s);
        }
        if all.contains(s) && s != all.last() {
            let i = all.index_of(s);
            assert(front[i] == s);
        }
        if r.len() > before.len() {
            assert(r[before.len() as int] == all.last());
            if before.contains(s) {
                let i = before.index_of(s);
                assert(r[i] == s);
            }
            if r.contains(s) && s != all.last() {
                let i = r.index_of(s);
                assert(before[i] == s);
            }
        }
    }
}

/// The bytes of segments are those of their files, added up.
pub proof fn lemma_bytes_added(files: Files, segs: Seq<SegmentView>, s: SegmentView)
    requires
        content(files, segment_filename(s)).len() <= u64::MAX,
    ensures
        bytes_of(files, Seq::empty()) == 0,
        bytes_of(files, segs.push(s)) == (bytes_of(files, segs) + content(
            files,
            s.name + "_"@ + decimal(s.timestamp as nat) + ".db"@,
        ).len()) % 0x1_0000_0000_0000_0000,
{
    lemma_segment_names(s);
    assert(segs.push(s).drop_last() =~= segs);
}

/// Bringing a logged key to the segment adds its record there, with its place in the index
/// where it has a value, and without one where it was deleted.
pub proof fn lemma_recovered_effect(s: KvView, k: Seq<char>, e: EntryView)
    ensures
        ({
            let a = kv_recovered_key(s, k, e);
            let r = entry_record(k, e);
            let f = s.store.name + "_"@ + decimal(s.store.active as nat) + ".db"@;
            &&& a.files == s.files.insert(f, content(s.files, f) + encoded(r))
            &&& a.store.index.remove(k) == s.store.index.remove(k)
            &&& a.store.index.contains_key(k) <==> e.value is Some
            &&& e.value is Some && content(s.files, f).len() <= u64::MAX ==> a.store.index[k].offset
                == content(s.files, f).len() && a.store.index[k].segment_timestamp
                == s.store.active
            &&& e.value is Some && encoded(r).len() <= u64::MAX ==> a.store.index[k].record_size
                == encoded(r).len()
            &&& s.total_bytes + encoded(r).len() <= u64::MAX ==> a.total_bytes == s.total_bytes
                + encoded(r).len()
            &&& a.dead_bytes == s.dead_bytes
            &&& a.segment_count == s.segment_count
        }),
{
    lemma_file_names(s);
    lemma_encoded_len(entry_record(k, e));
    assert(kv_recovered_key(s, k, e).store.index.remove(k) =~= s.store.index.remove(k));
}

/// What segments alone give back has as many segments as there are files of them, writes
/// to the newest, and counts their bytes and nothing as dead.
pub proof fn lemma_segments_effect(
    files: Files,
    name: Seq<char>,
    index: IndexMap,
    max_segment_bytes: u64,
    fsync_strategy: FSyncStrategy,
)
    requires
        segments(files, name).len() > 0,
    ensures
        ({
            let s = kv_from_segments(files, name, index, max_segment_bytes, fsync_strategy);
            let segs = segments(files, name);
            &&& s.store.index == index
            &&& segs.len() <= usize::MAX ==> s.segment_count == segs.len()
            &&& forall|i: int|
                0 <= i < segs.len() ==> (#[trigger] segs[i]).timestamp <= s.store.active
            &&& exists|i: int|
                0 <= i < segs.len() && (#[trigger] segs[i]).timestamp == s.store.active
            &&& s.dead_bytes == 0
            &&& s.total_bytes == bytes_of(files, segs)
            &&& s.store.writes_since_fsync == 0
            &&& s.store.name == name
            &&& s.store.max_segment_bytes == max_segment_bytes
            &&& s.store.fsync_strategy == fsync_strategy
        }),
{
    let segs = segments(files, name);
    crate::segment::lemma_segments_of(keys_in_order(files), name);
    assert(segs[segs.len() - 1] == segs.last());
}

/// A read hands on the error that kept the record of a key from being read. Where there is
/// none, it gives the record, unless its time of expiry has come.
pub proof fn lemma_get_outcome(s: KvView, key: Seq<char>, now_ms: u64)
    ensures
        match find(s.files, s.store.name, s.store.index, key) {
            Err(e) => kv_get(s, key, now_ms) == Err::<Option<RecordView>, StoreError>(e)
                && kv_there(s, key, now_ms),
            Ok(None) => kv_get(s, key, now_ms) == Ok::<Option<RecordView>, StoreError>(None)
                && !kv_there(s, key, now_ms),
            Ok(Some(r)) => {
                let gone = r.expiry_ms matches Some(t) && t <= now_ms;
                &&& gone ==> kv_get(s, key, now_ms) == Ok::<Option<RecordView>, StoreError>(None)
                &&& !gone ==> kv_get(s, key, now_ms) == Ok::<Option<RecordView>, StoreError>(
                    Some(r),
                )
                &&& kv_there(s, key, now_ms) <==> !gone
            },
        },
{
}

/// A compaction begins with a segment that is later than all that there are, while there are
/// later timestamps, and no earlier than the clock says.
pub proof fn lemma_first_stamp(segs: Seq<SegmentView>, now_ms: u64, i: int)
    requires
        0 <= i < segs.len(),
        forall|j: int, k: int|
            0 <= j <= k < segs.len() ==> (#[trigger] segs[j]).timestamp <= (
            #[trigger] segs[k]).timestamp,
        segs[segs.len() - 1].timestamp < u64::MAX,
    ensures
        first_stamp(segs, now_ms) > segs[i].timestamp,
        first_stamp(segs, now_ms) >= now_ms,
        first_stamp(Seq::empty(), now_ms) == now_ms,
        segs[segs.len() - 1].timestamp < now_ms ==> first_stamp(segs, now_ms) == now_ms,
        segs[segs.len() - 1].timestamp >= now_ms ==> first_stamp(segs, now_ms)
            == segs[segs.len() - 1].timestamp + 1,
{
    assert(segs[i].timestamp <= segs[segs.len() - 1].timestamp);
}

/// Removing segments takes their files and their hint files away, and leaves all others.
pub proof fn lemma_other_files_left(files: Files, segs: Seq<SegmentView>, f: Seq<char>)
    requires
        forall|i: int|
            0 <= i < segs.len() ==> segment_filename(#[trigger] segs[i]) != f
                && segment_hint_filename(segs[i]) != f,
    ensures
        without_segments(files, segs).0.contains_key(f) == files.contains_key(f),
        files.contains_key(f) ==> without_segments(files, segs).0[f] == files[f],
    decreases segs.len(),
{
    if segs.len() > 0 {
        let front = segs.drop_last();
        assert(forall|i: int| 0 <= i < front.len() ==> (#[trigger] front[i]) == segs[i]);
        assert(segment_filename(segs[segs.len() - 1]) != f);
        lemma_other_files_left(files, front, f);
    }
}

/// Each of some segments has a hint file then, with the hints of the keys that stand in it.
pub proof fn lemma_hint_files(files: Files, index: IndexMap, segs: Seq<SegmentView>, i: int)
    requires
        0 <= i < segs.len(),
    ensures
        ({
            let h = segs[i].name + "_"@ + decimal(segs[i].timestamp as nat) + ".hint"@;
            let after = with_hints(files, index, segs);
            after.contains_key(h) && after[h] == hint_file(
                hints_for(index, keys_in_order(index), segs[i].timestamp),
            )
        }),
    decreases segs.len(),
{
    lemma_segment_names(segs[i]);
    let front = segs.drop_last();
    if i < front.len() {
        assert(front[i] == segs[i]);
        lemma_hint_files(files, index, front, i);
        if segment_hint_filename(segs.last()) == segment_hint_filename(segs[i]) {
            lemma_hint_filename_injective(segs.last(), segs[i]);
        }
    }
}

/// The hint file of a segment stays where another segment is begun, the log changes, and
/// segments of other timestamps are removed.
pub proof fn lemma_hint_stays(
    files: Files,
    name: Seq<char>,
    next: u64,
    segs: Seq<SegmentView>,
    y: SegmentView,
)
    requires
        y.name == name,
        y.timestamp != next,
        forall|i: int|
            0 <= i < segs.len() ==> (#[trigger] segs[i]).timestamp != y.timestamp,
    ensures
        ({
            let h = segment_hint_filename(y);
            let a = without_segments(begun(files, name, next), segs).0;
            let b = without_segments(
                begun(files, name, next).insert(wal_filename(name), Seq::empty()),
                segs,
            ).0;
            files.contains_key(h) ==> a.contains_key(h) && a[h] == files[h] && b.contains_key(h)
                && b[h] == files[h]
        }),
{
    let h = segment_hint_filename(y);
    let fresh = SegmentView { name, timestamp: next };
    lemma_filename_no_hint(fresh, y);
    if segment_hint_filename(fresh) == h {
        lemma_hint_filename_injective(fresh, y);
    }
    assert(h.last() == 't');
    assert(wal_filename(name).last() == 'l');
    assert forall|i: int| 0 <= i < segs.len() implies segment_filename(#[trigger] segs[i]) != h
        && segment_hint_filename(segs[i]) != h by {
        lemma_filename_no_hint(segs[i], y);
        if segment_hint_filename(segs[i]) == h {
            lemma_hint_filename_injective(segs[i], y);
        }
    }
    let c = begun(files, name, next);
    lemma_other_files_left(c, segs, h);
    lemma_other_files_left(c.insert(wal_filename(name), Seq::empty()), segs, h);
}

/// A compaction that is not stopped leaves a hint file for each segment that it wrote to,
/// with the places of the keys that stand there.
pub proof fn lemma_compacted_hints(s: KvView, now_ms: u64, y: SegmentView)
    requires
        kv_compacted(s, now_ms).1 is None,
        ({
            let t = kv_new(
                s.files,
                s.store.name,
                s.store.max_segment_bytes,
                s.store.fsync_strategy,
                first_stamp(segments(s.files, s.store.name), now_ms),
            );
            segments(
                kv_copied(t, s.store.index, keys_in_order(s.store.index), now_ms).0.files,
                s.store.name,
            ).contains(y)
        }),
        forall|i: int|
            0 <= i < segments(s.files, s.store.name).len() ==> (#[trigger] segments(
                s.files,
                s.store.name,
            )[i]).timestamp != y.timestamp,
        y.name == s.store.name,
        y.timestamp != kv_compacted(s, now_ms).0.store.active,
    ensures
        ({
            let a = kv_compacted(s, now_ms).0;
            let h = y.name + "_"@ + decimal(y.timestamp as nat) + ".hint"@;
            a.files.contains_key(h) && a.files[h] == hint_file(
                hints_for(a.store.index, keys_in_order(a.store.index), y.timestamp),
            )
        }),
{
    let old_segments = segments(s.files, s.store.name);
    let t = kv_new(
        s.files,
        s.store.name,
        s.store.max_segment_bytes,
        s.store.fsync_strategy,
        first_stamp(old_segments, now_ms),
    );
    let u = kv_copied(t, s.store.index, keys_in_order(s.store.index), now_ms).0;
    let fresh = segments_besides(segments(u.files, s.store.name), old_segments);
    lemma_segments_besides(segments(u.files, s.store.name), old_segments, y);
    let i = fresh.index_of(y);
    lemma_segment_names(y);
    lemma_hint_files(u.files, u.store.index, fresh, i);
    lemma_hint_stays(
        with_hints(u.files, u.store.index, fresh),
        s.store.name,
        next_stamp(u.store.active, now_ms),
        old_segments,
        y,
    );
}

/// What a directory gives back: nothing where it has no segment of the database; the error
/// of a segment that cannot be loaded, or else of a log that cannot be read; and otherwise
/// an engine with an empty log, which writes to the newest segment and has as many segments
/// as the directory.
pub proof fn lemma_load_outcome(
    files: Files,
    name: Seq<char>,
    max_segment_bytes: u64,
    fsync_strategy: FSyncStrategy,
)
    ensures
        ({
            let r = kv_loaded(files, name, max_segment_bytes, fsync_strategy);
            let segs = segments(files, name);
            let log = name + ".wal"@;
            &&& (r matches Ok(None)) <==> segs.len() == 0
            &&& segs.len() > 0 && load_segments(files, segs) is Err ==> r == Err::<
                Option<KvView>,
                StoreError,
            >(load_segments(files, segs)->Err_0)
            &&& segs.len() > 0 && load_segments(files, segs) is Ok && replayed(
                content(files, log),
            ) is Err ==> r == Err::<Option<KvView>, StoreError>(
                replayed(content(files, log))->Err_0,
            )
            &&& segs.len() > 0 && load_segments(files, segs) is Ok && replayed(
                content(files, log),
            ) is Ok ==> (r matches Ok(Some(s)) && s.files.contains_key(log) && s.files[log].len()
                == 0 && s.store.active == segs[segs.len() - 1].timestamp && s.store.name == name
                && s.store.max_segment_bytes == max_segment_bytes && s.store.fsync_strategy
                == fsync_strategy && s.segment_count == segs.len() as usize && s.dead_bytes == 0)
        }),
{
    lemma_wal_name(name);
    let segs = segments(files, name);
    if segs.len() > 0 && load_segments(files, segs) is Ok && replayed(
        content(files, wal_filename(name)),
    ) is Ok {
        let s = kv_from_segments(
            files,
            name,
            load_segments(files, segs)->Ok_0,
            max_segment_bytes,
            fsync_strategy,
        );
        let m = (replayed(content(files, wal_filename(name)))->Ok_0).entries;
        lemma_recovered_rest(s, m, keys_in_order(m));
    }
}

/// Bringing logged keys to the segments leaves all but the index, the files and the bytes.
proof fn lemma_recovered_rest(
    s: KvView,
    entries: Map<Seq<char>, EntryView>,
    keys: Seq<Seq<char>>,
)
    ensures
        ({
            let t = kv_recovered(s, entries, keys);
            &&& t.store.active == s.store.active
            &&& t.store.name == s.store.name
            &&& t.store.max_segment_bytes == s.store.max_segment_bytes
            &&& t.store.fsync_strategy == s.store.fsync_strategy
            &&& t.segment_count == s.segment_count
            &&& t.dead_bytes == s.dead_bytes
        }),
    decreases keys.len(),
{
    if keys.len() > 0 {
        lemma_recovered_rest(s, entries, keys.drop_last());
    }
}

} // verus!
