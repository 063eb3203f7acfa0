//! A plain store: an index in memory, and records in append-only segments.

use vstd::prelude::*;
use vstd::string::StringExecFns;

use crate::directory::{content, files_fit, Directory, Files};
use crate::engine::{Contents, Live};
use crate::error::StoreError;
use crate::hash_index::{IndexEntry, IndexMap};
use crate::hint::{hint_file, Hint};
use crate::kvengine::{
    besides, first_stamp, hint_entries, hints_for, lemma_hint_files, lemma_hint_stays,
    lemma_kept_begun, lemma_limits_of, lemma_segments_besides, lemma_segments_removable,
    lemma_sound_hint, lemma_without_segments, lemma_without_stays, segments, segments_besides,
    with_hints, without_segments,
};
use crate::number::decimal;
use crate::record::{
    encoded, lemma_encoded_len, record_len, record_of, tombstone_of, within_limits, Record,
    RecordView, MAX_KEY_SIZE, MAX_VALUE_SIZE,
};
use crate::recovery::{
    lasting, lemma_lasting_compacted, lemma_lasting_deleted, lemma_lasting_new,
    lemma_lasting_put, lemma_lasting_reopened, usual,
};
use crate::segment::{
    get_segments, lemma_segment_names, lemma_segments_of, segment_filename, segment_views,
    SegmentView,
};
use crate::settings::FSyncStrategy;
use crate::sorted_map::{keys_in_order, keys_of, orderable};
use crate::store::{
    appended, begun, contents_at, counted, empty_store, entry_sound, find, later_stamp,
    lemma_begun, lemma_sound_appended, lemma_sound_begun, lemma_sound_removed,
    lemma_sound_written, load_index, load_segments, must_roll, next_stamp, segment_file, sound,
    sync_due, synced_by, SegmentStore, StoreView,
};
use crate::text::{byte_len, len_of, string_views};

verus! {

/// The directory and the store after a new segment was begun, where a record does not
/// fit into the old one.
pub open spec fn db_rolled(files: Files, s: StoreView, r: RecordView, now_ms: u64) -> (
    Files,
    StoreView,
) {
    if must_roll(files, s, record_len(r)) {
        let next = next_stamp(s.active, now_ms);
        (begun(files, s.name, next), StoreView { active: next, ..s })
    } else {
        (files, s)
    }
}

/// The place at which the next record is written.
pub open spec fn db_place(files: Files, s: StoreView) -> IndexEntry {
    IndexEntry {
        segment_timestamp: s.active,
        offset: content(files, segment_file(s.name, s.active)).len() as u64,
        record_size: 0,
    }
}

/// The directory and the store after a write.
pub open spec fn db_put(files: Files, s: StoreView, r: RecordView, now_ms: u64) -> (
    Files,
    StoreView,
) {
    let (f, t) = db_rolled(files, s, r, now_ms);
    (
        appended(f, segment_file(t.name, t.active), encoded(r)),
        counted(StoreView { index: t.index.insert(r.key, db_place(f, t)), ..t }),
    )
}

/// The directory and the store after a deletion. Nothing is written where the key is
/// not there.
pub open spec fn db_deleted(files: Files, s: StoreView, key: Seq<char>) -> (Files, StoreView) {
    if s.index.contains_key(key) {
        (
            appended(files, segment_file(s.name, s.active), encoded(tombstone_of(key))),
            counted(StoreView { index: s.index.remove(key), ..s }),
        )
    } else {
        (files, s)
    }
}

/// The directory and the store that a compaction writes to, after some keys of an
/// index were copied, and the error that stopped it.
pub open spec fn db_copied(
    files: Files,
    t: StoreView,
    index: IndexMap,
    keys: Seq<Seq<char>>,
    now_ms: u64,
) -> (Files, StoreView, Option<StoreError>)
    decreases keys.len(),
{
    if keys.len() == 0 {
        (files, t, None)
    } else {
        let (f, u, end) = db_copied(files, t, index, keys.drop_last(), now_ms);
        let k = keys.last();
        if end is Some {
            (f, u, end)
        } else {
            match find(f, u.name, index, k) {
                Err(e) => (f, u, Some(e)),
                Ok(None) => (f, u, None),
                Ok(Some(r)) => if byte_len(k) > MAX_KEY_SIZE || byte_len(r.value)
                    > MAX_VALUE_SIZE {
                    (f, u, Some(StoreError::TooLarge))
                } else {
                    let (g, v) = db_put(f, u, record_of(k, r.value, None), now_ms);
                    (g, v, None)
                },
            }
        }
    }
}

/// The directory after a compaction, with the store that it leaves, or the error
/// that stopped it. The keys are copied to segments of their own, with hint files. Then
/// the store turns to a segment that is still empty, and the old segments are removed.
pub open spec fn db_compacted(files: Files, s: StoreView, now_ms: u64) -> (
    Files,
    Result<StoreView, StoreError>,
) {
    let old_segments = segments(files, s.name);
    let start = first_stamp(old_segments, now_ms);
    let t = empty_store(s.name, start, s.max_segment_bytes, s.fsync_strategy);
    let (f, u, end) = db_copied(
        begun(files, s.name, start),
        t,
        s.index,
        keys_in_order(s.index),
        now_ms,
    );
    match end {
        Some(e) => (f, Err(e)),
        None => {
            let fresh = segments_besides(segments(f, s.name), old_segments);
            let next = next_stamp(u.active, now_ms);
            let (left, end2) = without_segments(
                begun(with_hints(f, u.index, fresh), s.name, next),
                old_segments,
            );
            match end2 {
                Some(e) => (left, Err(e)),
                None => (left, Ok(StoreView { active: next, ..u })),
            }
        },
    }
}

/// The contents without times of expiry.
pub open spec fn untimed(c: Contents) -> Contents {
    Map::new(
        |k: Seq<char>| c.contains_key(k),
        |k: Seq<char>| Live { value: c[k].value, expiry_ms: None },
    )
}

/// The contents that have been copied once some keys were gone through.
spec fn copied_so_far(c: Contents, keys: Seq<Seq<char>>) -> Contents {
    untimed(c).restrict(Set::new(|k: Seq<char>| keys.contains(k)))
}

/// Whether a compaction may run at that time: the segments are there under their
/// usual names, each once, and there are timestamps left for the segments that it
/// writes, as many as there are keys and one more.
pub open spec fn db_compactable(files: Files, s: StoreView, now_ms: u64) -> bool {
    let segs = segments(files, s.name);
    &&& segs.no_duplicates()
    &&& forall|i: int|
        0 <= i < segs.len() ==> files.contains_key(segment_filename(#[trigger] segs[i]))
    &&& segs.len() > 0 ==> segs.last().timestamp < u64::MAX
    &&& first_stamp(segs, now_ms) + keys_in_order(s.index).len() < u64::MAX
}

/// A write sets its key to its value, and nothing else.
pub proof fn lemma_db_put(files: Files, s: StoreView, r: RecordView, now_ms: u64)
    requires
        sound(files, s.name, s.index),
        files_fit(files),
        within_limits(r),
        !r.tombstone,
    ensures
        ({
            let (f, t) = db_put(files, s, r, now_ms);
            &&& sound(f, t.name, t.index)
            &&& contents_at(f, t.name, t.index) == contents_at(files, s.name, s.index).insert(
                r.key,
                Live { value: r.value, expiry_ms: r.expiry_ms },
            )
        }),
{
    let (f, t) = db_rolled(files, s, r, now_ms);
    let next = next_stamp(s.active, now_ms);
    lemma_sound_begun(files, s.name, next, s.index);
    lemma_begun(files, s.name, next);
    lemma_sound_written(f, t.name, t.index, db_place(f, t), r);
}

/// A deletion removes its key, and nothing else.
pub proof fn lemma_db_deleted(files: Files, s: StoreView, key: Seq<char>)
    requires
        sound(files, s.name, s.index),
    ensures
        ({
            let (f, t) = db_deleted(files, s, key);
            &&& sound(f, t.name, t.index)
            &&& contents_at(f, t.name, t.index) == contents_at(files, s.name, s.index).remove(key)
        }),
{
    if s.index.contains_key(key) {
        let g = segment_file(s.name, s.active);
        lemma_sound_appended(files, g, encoded(tombstone_of(key)), s.name, s.index);
        lemma_sound_removed(
            appended(files, g, encoded(tombstone_of(key))),
            s.name,
            s.index,
            key,
        );
    } else {
        assert(contents_at(files, s.name, s.index).remove(key) =~= contents_at(
            files,
            s.name,
            s.index,
        ));
    }
}

proof fn lemma_db_copied_stays(
    files: Files,
    t: StoreView,
    index: IndexMap,
    keys: Seq<Seq<char>>,
    i: int,
    now_ms: u64,
)
    requires
        0 <= i <= keys.len(),
        db_copied(files, t, index, keys.take(i), now_ms).2 is Some,
    ensures
        db_copied(files, t, index, keys, now_ms) == db_copied(
            files,
            t,
            index,
            keys.take(i),
            now_ms,
        ),
    decreases keys.len() - i,
{
    if i == keys.len() {
        assert(keys.take(i) =~= keys);
    } else {
        assert(keys.take(i + 1).drop_last() =~= keys.take(i));
        lemma_db_copied_stays(files, t, index, keys, i + 1, now_ms);
    }
}

proof fn lemma_copied_further(c: Contents, keys: Seq<Seq<char>>, i: int)
    requires
        0 <= i < keys.len(),
        c.contains_key(keys[i]),
    ensures
        copied_so_far(c, keys.take(i + 1)) == copied_so_far(c, keys.take(i)).insert(
            keys[i],
            Live { value: c[keys[i]].value, expiry_ms: None },
        ),
{
    let a = keys.take(i);
    let b = keys.take(i + 1);
    assert forall|k: Seq<char>| #[trigger] b.contains(k) <==> a.contains(k) || k == keys[i] by {
        if b.contains(k) {
            let j = b.index_of(k);
            if j < i {
                assert(a[j] == k);
            }
        }
        if a.contains(k) {
            assert(b[a.index_of(k)] == k);
        }
        if k == keys[i] {
            assert(b[i] == k);
        }
    }
    assert(copied_so_far(c, b) =~= copied_so_far(c, a).insert(
        keys[i],
        Live { value: c[keys[i]].value, expiry_ms: None },
    ));
}

/// Writing to another store of the directory leaves the old index sound.
proof fn lemma_old_index_kept(
    files: Files,
    u: StoreView,
    index: IndexMap,
    r: RecordView,
    now_ms: u64,
)
    requires
        sound(files, u.name, index),
    ensures
        sound(db_put(files, u, r, now_ms).0, u.name, index),
        contents_at(db_put(files, u, r, now_ms).0, u.name, index) == contents_at(
            files,
            u.name,
            index,
        ),
{
    let (f, t) = db_rolled(files, u, r, now_ms);
    lemma_sound_begun(files, u.name, next_stamp(u.active, now_ms), index);
    lemma_sound_appended(f, segment_file(t.name, t.active), encoded(r), u.name, index);
}

/// A plain store. Its files are in the directory that each operation is given.
pub struct DB {
    store: SegmentStore,
}

impl View for DB {
    type V = StoreView;

    closed spec fn view(&self) -> StoreView {
        self.store@
    }
}

impl DB {
    pub closed spec fn wf(&self) -> bool {
        self.store.wf()
    }

    /// The keys of the index can be brought into an order.
    pub proof fn lemma_index(&self)
        requires
            self.wf(),
        ensures
            orderable(self@.index),
    {
        self.store.index.lemma_keys();
    }

    /// A new store without keys, which writes to the segment of `now_ms`.
    pub fn new(
        dir: &mut Directory,
        db_name: &str,
        max_segment_bytes: u64,
        fsync_strategy: FSyncStrategy,
        now_ms: u64,
    ) -> (db: DB)
        requires
            old(dir).wf(),
        ensures
            final(dir).wf(),
            final(dir).base() == old(dir).base(),
            final(dir)@ == begun(old(dir)@, db_name@, now_ms),
            db.wf(),
            db@ == empty_store(db_name@, now_ms, max_segment_bytes, fsync_strategy),
            usual(old(dir)@, db_name@) && segments(old(dir)@, db_name@).len() == 0 ==> lasting(
                final(dir)@,
                db@,
            ),
    {
        proof {
            if usual(dir@, db_name@) && segments(dir@, db_name@).len() == 0 {
                lemma_lasting_new(dir@, db_name@, max_segment_bytes, fsync_strategy, now_ms);
            }
        }
        DB { store: SegmentStore::new(dir, db_name, max_segment_bytes, fsync_strategy, now_ms) }
    }

    /// The store whose segments are in a directory. Its index comes from hint files
    /// where they can be read, otherwise from the records. It writes to the latest
    /// segment. Nothing, where there are no segments.
    pub fn from_dir(
        dir: &Directory,
        db_name: &str,
        max_segment_bytes: u64,
        fsync_strategy: FSyncStrategy,
    ) -> (r: Result<Option<DB>, StoreError>)
        requires
            dir.wf(),
        ensures
            ({
                let segs = segments(dir@, db_name@);
                if segs.len() == 0 {
                    r is Ok && r->Ok_0 is None
                } else {
                    match r {
                        Ok(Some(db)) => {
                            &&& db.wf()
                            &&& load_segments(dir@, segs) == Ok::<IndexMap, StoreError>(db@.index)
                            &&& db@ == (StoreView {
                                index: db@.index,
                                ..empty_store(
                                    segs.last().name,
                                    segs.last().timestamp,
                                    max_segment_bytes,
                                    fsync_strategy,
                                )
                            })
                        },
                        Ok(None) => false,
                        Err(e) => load_segments(dir@, segs) == Err::<IndexMap, StoreError>(e),
                    }
                }
            }),
            forall|s: StoreView|
                #![trigger lasting(dir@, s)]
                lasting(dir@, s) && s.name == db_name@ ==> match r {
                    Ok(Some(db)) => {
                        &&& lasting(dir@, db@)
                        &&& contents_at(dir@, db@.name, db@.index) == contents_at(
                            dir@,
                            s.name,
                            s.index,
                        )
                    },
                    _ => false,
                },
    {
        let mut found = get_segments(dir, db_name);
        let n = found.len();
        assert(segment_views(found@).len() == n);
        if n == 0 {
            return Ok(None);
        }
        let index = match load_index(dir, &found) {
            Ok(i) => i,
            Err(e) => {
                return Err(e);
            },
        };
        assert(segment_views(found@)[n - 1] == found@[n - 1]@);
        let active_segment = found.remove(n - 1);
        proof {
            let t = StoreView {
                index: index@,
                ..empty_store(
                    active_segment@.name,
                    active_segment@.timestamp,
                    max_segment_bytes,
                    fsync_strategy,
                )
            };
            assert forall|s: StoreView|
                #![trigger lasting(dir@, s)]
                lasting(dir@, s) && s.name == db_name@ implies {
                &&& lasting(dir@, t)
                &&& contents_at(dir@, t.name, t.index) == contents_at(dir@, s.name, s.index)
            } by {
                lemma_lasting_reopened(dir@, s, t);
            }
        }
        Ok(
            Some(
                DB {
                    store: SegmentStore {
                        index,
                        active_segment,
                        max_segment_bytes,
                        writes_since_fsync: 0,
                        fsync_strategy,
                    },
                },
            ),
        )
    }

    /// The key and the value of the latest record of a key. Nothing, where the key is
    /// not in the index.
    pub fn get(&self, dir: &Directory, key: &str) -> (r: Result<
        Option<(String, String)>,
        StoreError,
    >)
        requires
            self.wf(),
            dir.wf(),
        ensures
            match r {
                Ok(Some((k, v))) => match find(dir@, self@.name, self@.index, key@) {
                    Ok(Some(rec)) => k@ == rec.key && v@ == rec.value,
                    _ => false,
                },
                Ok(None) => !self@.index.contains_key(key@),
                Err(e) => find(dir@, self@.name, self@.index, key@) == Err::<
                    Option<RecordView>,
                    StoreError,
                >(e),
            },
            sound(dir@, self@.name, self@.index) ==> {
                let c = contents_at(dir@, self@.name, self@.index);
                match r {
                    Ok(Some((k, v))) => c.contains_key(key@) && k@ == key@ && v@ == c[key@].value,
                    Ok(None) => !c.contains_key(key@),
                    Err(_) => false,
                }
            },
    {
        proof {
            if sound(dir@, self@.name, self@.index) && self@.index.contains_key(key@) {
                assert(entry_sound(dir@, self@.name, key@, self@.index[key@]));
            }
        }
        match self.store.find(dir, key) {
            Ok(Some(rec)) => Ok(Some((rec.key, rec.value))),
            Ok(None) => Ok(None),
            Err(e) => Err(e),
        }
    }

    /// Writes a key. Where its record does not fit into the segment, a new one is
    /// begun.
    pub fn set(&mut self, dir: &mut Directory, key: &str, value: &str, now_ms: u64) -> (r: Result<
        (),
        StoreError,
    >)
        requires
            old(self).wf(),
            old(dir).wf(),
        ensures
            final(self).wf(),
            final(dir).wf(),
            final(dir).base() == old(dir).base(),
            if byte_len(key@) > MAX_KEY_SIZE || byte_len(value@) > MAX_VALUE_SIZE {
                &&& r == Err::<(), StoreError>(StoreError::TooLarge)
                &&& *final(self) == *old(self)
                &&& *final(dir) == *old(dir)
            } else {
                &&& r == Ok::<(), StoreError>(())
                &&& (final(dir)@, final(self)@) == db_put(
                    old(dir)@,
                    old(self)@,
                    record_of(key@, value@, None),
                    now_ms,
                )
                &&& sync_due(old(self)@) <==> synced_by(
                    final(dir).pending(),
                    segment_file(final(self)@.name, final(self)@.active),
                )
            },
            r is Ok && sound(old(dir)@, old(self)@.name, old(self)@.index) ==> {
                &&& sound(final(dir)@, final(self)@.name, final(self)@.index)
                &&& contents_at(final(dir)@, final(self)@.name, final(self)@.index)
                    == contents_at(old(dir)@, old(self)@.name, old(self)@.index).insert(
                    key@,
                    Live { value: value@, expiry_ms: None },
                )
            },
            lasting(old(dir)@, old(self)@) ==> lasting(final(dir)@, final(self)@),
    {
        if len_of(key) > MAX_KEY_SIZE || len_of(value) > MAX_VALUE_SIZE {
            return Err(StoreError::TooLarge);
        }
        let record = Record::build(String::from_str(key), String::from_str(value), false, None);
        let ghost r = record_of(key@, value@, None);
        let ghost files = dir@;
        let ghost s = self@;
        proof {
            dir.lemma_sizes();
            if sound(files, s.name, s.index) {
                lemma_db_put(files, s, r, now_ms);
            }
            if lasting(files, s) {
                lemma_lasting_put(files, s, r, now_ms);
            }
            lemma_encoded_len(r);
        }
        if self.store.is_full(dir, record.size_on_disk()) {
            self.store.roll_segment(dir, now_ms);
        }
        let offset = self.store.append(dir, &record);
        let timestamp = self.store.active_segment.timestamp;
        let _ = self.store.index.set(String::from_str(key), offset, timestamp, 0);
        self.store.fsync(dir);
        Ok(())
    }

    /// Deletes a key. Says whether it was there.
    pub fn delete(&mut self, dir: &mut Directory, key: &str) -> (r: Result<Option<()>, StoreError>)
        requires
            old(self).wf(),
            old(dir).wf(),
        ensures
            final(self).wf(),
            final(dir).wf(),
            final(dir).base() == old(dir).base(),
            if byte_len(key@) > MAX_KEY_SIZE {
                &&& r == Err::<Option<()>, StoreError>(StoreError::TooLarge)
                &&& *final(self) == *old(self)
                &&& *final(dir) == *old(dir)
            } else {
                &&& r is Ok
                &&& r->Ok_0 is Some <==> old(self)@.index.contains_key(key@)
                &&& (final(dir)@, final(self)@) == db_deleted(old(dir)@, old(self)@, key@)
                &&& r->Ok_0 is Some ==> (sync_due(old(self)@) <==> synced_by(
                    final(dir).pending(),
                    segment_file(final(self)@.name, final(self)@.active),
                ))
            },
            r is Ok && sound(old(dir)@, old(self)@.name, old(self)@.index) ==> {
                &&& sound(final(dir)@, final(self)@.name, final(self)@.index)
                &&& contents_at(final(dir)@, final(self)@.name, final(self)@.index)
                    == contents_at(old(dir)@, old(self)@.name, old(self)@.index).remove(key@)
            },
            lasting(old(dir)@, old(self)@) ==> lasting(final(dir)@, final(self)@),
    {
        if len_of(key) > MAX_KEY_SIZE {
            return Err(StoreError::TooLarge);
        }
        let ghost files = dir@;
        let ghost s = self@;
        proof {
            if sound(files, s.name, s.index) {
                lemma_db_deleted(files, s, key@);
            }
            if lasting(files, s) {
                dir.lemma_sizes();
                lemma_lasting_deleted(files, s, key@);
            }
        }
        match self.store.index.delete(key) {
            Some(_) => {
                let record = Record::build(String::from_str(key), String::new(), true, None);
                let _ = self.store.append(dir, &record);
                self.store.fsync(dir);
                Ok(Some(()))
            },
            None => {
                assert(s.index.remove(key@) =~= s.index);
                Ok(None)
            },
        }
    }

    /// Copies the keys to segments of their own, writes hint files for them, turns to a
    /// segment that is still empty, and removes the old segments. Returns the store of
    /// the new segments.
    #[verifier::rlimit(50)]
    pub fn get_compacted(&self, dir: &mut Directory, now_ms: u64) -> (r: Result<DB, StoreError>)
        requires
            self.wf(),
            old(dir).wf(),
        ensures
            final(dir).wf(),
            final(dir).base() == old(dir).base(),
            ({
                let (after, end) = db_compacted(old(dir)@, self@, now_ms);
                &&& final(dir)@ == after
                &&& match r {
                    Ok(db) => db.wf() && end == Ok::<StoreView, StoreError>(db@),
                    Err(e) => end == Err::<StoreView, StoreError>(e),
                }
            }),
            sound(old(dir)@, self@.name, self@.index) && db_compactable(old(dir)@, self@, now_ms)
                ==> match r {
                Ok(db) => {
                    &&& sound(final(dir)@, db@.name, db@.index)
                    &&& contents_at(final(dir)@, db@.name, db@.index) == untimed(
                        contents_at(old(dir)@, self@.name, self@.index),
                    )
                    &&& usual(old(dir)@, self@.name) ==> lasting(final(dir)@, db@)
                },
                Err(_) => false,
            },
    {
        let ghost files = dir@;
        let ghost s = self@;
        let ghost name = s.name;
        let ghost c = contents_at(files, name, s.index);
        let ghost good = sound(files, name, s.index);
        let old_segments = get_segments(dir, self.store.active_segment.segment_name.as_str());
        let n = old_segments.len();
        let start: u64 = if n == 0 {
            now_ms
        } else {
            later_stamp(old_segments[n - 1].timestamp, now_ms)
        };
        assert(n > 0 ==> segment_views(old_segments@).last() == old_segments@[n - 1]@);
        assert(start == first_stamp(segments(files, name), now_ms));
        let mut new_db = DB::new(
            dir,
            self.store.active_segment.segment_name.as_str(),
            self.store.max_segment_bytes,
            self.store.fsync_strategy,
            start,
        );
        let ghost fresh = dir@;
        let ghost t = new_db@;
        let keys = self.store.index.ls_keys();
        let ghost ks = keys_in_order(s.index);
        proof {
            self.store.index.lemma_keys();
            assert(ks.take(0) =~= Seq::<Seq<char>>::empty());
            assert(string_views(keys@).len() == keys@.len());
            lemma_kept_begun(files, name, start);
            if good {
                lemma_sound_begun(files, name, start, s.index);
                assert(contents_at(dir@, name, t.index) =~= copied_so_far(c, ks.take(0)));
            }
        }
        for i in 0..keys.len()
            invariant
                self.wf(),
                self@ == s,
                dir.wf(),
                dir.base() == old(dir).base(),
                new_db.wf(),
                new_db@.name == name,
                new_db@.active >= start,
                ks == string_views(keys@),
                ks == keys_in_order(s.index),
                keys_of(s.index, ks),
                c == contents_at(files, name, s.index),
                db_copied(fresh, t, s.index, ks.take(i as int), now_ms) == (
                    dir@,
                    new_db@,
                    None::<StoreError>,
                ),
                forall|ts: u64|
                    files.contains_key(#[trigger] segment_file(name, ts)) ==> dir@.contains_key(
                        segment_file(name, ts),
                    ),
                forall|k: Seq<char>| #[trigger]
                    new_db@.index.contains_key(k) ==> new_db@.index[k].segment_timestamp >= start,
                good ==> {
                    &&& sound(dir@, name, s.index)
                    &&& contents_at(dir@, name, s.index) == c
                    &&& sound(dir@, name, new_db@.index)
                    &&& contents_at(dir@, name, new_db@.index) == copied_so_far(
                        c,
                        ks.take(i as int),
                    )
                },
                files == old(dir)@,
                name == s.name,
                good == sound(files, name, s.index),
                start == first_stamp(segments(files, name), now_ms),
                fresh == begun(files, name, start),
                t == empty_store(name, start, s.max_segment_bytes, s.fsync_strategy),
        {
            let k = &keys[i];
            assert(ks[i as int] == k@);
            assert(ks.contains(k@));
            assert(ks.take(i + 1).drop_last() =~= ks.take(i as int));
            let ghost before = dir@;
            let ghost u = new_db@;
            proof {
                lemma_kept_begun(before, name, next_stamp(u.active, now_ms));
                if good {
                    lemma_copied_further(c, ks, i as int);
                    assert(entry_sound(before, name, k@, s.index[k@]));
                    assert(contents_at(before, name, s.index)[k@] == c[k@]);
                    lemma_limits_of(before, name, s.index[k@]);
                }
            }
            let value = match self.get(dir, k.as_str()) {
                Ok(Some((_, v))) => v,
                Ok(None) => {
                    assert(false);
                    String::new()
                },
                Err(e) => {
                    proof {
                        lemma_db_copied_stays(fresh, t, s.index, ks, i + 1, now_ms);
                    }
                    return Err(e);
                },
            };
            proof {
                if good {
                    lemma_old_index_kept(
                        before,
                        u,
                        s.index,
                        record_of(k@, value@, None),
                        now_ms,
                    );
                }
            }
            match new_db.set(dir, k.as_str(), value.as_str(), now_ms) {
                Ok(_) => {},
                Err(e) => {
                    proof {
                        lemma_db_copied_stays(fresh, t, s.index, ks, i + 1, now_ms);
                    }
                    return Err(e);
                },
            }
        }
        assert(ks.take(keys@.len() as int) =~= ks);
        assert(good ==> contents_at(dir@, name, new_db@.index) =~= untimed(c));
        dir.sync(new_db.store.active_segment.filename().as_str());
        let ghost u = new_db@;
        let ghost copied = dir@;
        let ghost segs = segment_views(old_segments@);
        let all = get_segments(dir, self.store.active_segment.segment_name.as_str());
        let added = besides(&all, &old_segments);
        let ghost av = segment_views(added@);
        assert(av.take(0) =~= Seq::<SegmentView>::empty());
        for j in 0..added.len()
            invariant
                dir.wf(),
                dir.base() == old(dir).base(),
                new_db.wf(),
                new_db@ == u,
                av == segment_views(added@),
                dir@ == with_hints(copied, u.index, av.take(j as int)),
                forall|ts: u64|
                    files.contains_key(#[trigger] segment_file(name, ts)) ==> dir@.contains_key(
                        segment_file(name, ts),
                    ),
                good ==> {
                    &&& sound(dir@, name, u.index)
                    &&& contents_at(dir@, name, u.index) == untimed(c)
                },
        {
            let segment = &added[j];
            assert(av[j as int] == segment@);
            assert(av.take(j + 1).drop_last() =~= av.take(j as int));
            let entries = hint_entries(&new_db.store.index, segment.timestamp);
            let mut bytes: Vec<u8> = Vec::new();
            Hint::write_file(&mut bytes, entries.as_slice());
            proof {
                if good {
                    lemma_sound_hint(dir@, name, u.index, segment@, bytes@);
                }
            }
            dir.replace(segment.hint_filename().as_str(), bytes);
        }
        assert(av.take(added@.len() as int) =~= av);
        proof {
            let next = next_stamp(u.active, now_ms);
            if good {
                lemma_sound_begun(dir@, name, next, u.index);
            }
            lemma_kept_begun(dir@, name, next);
        }
        new_db.store.roll_segment(dir, now_ms);
        let ghost whole = dir@;
        proof {
            assert(segs.take(0) =~= Seq::<SegmentView>::empty());
            if good && db_compactable(files, s, now_ms) {
                lemma_segments_of(keys_in_order(files), name);
                assert forall|i: int| 0 <= i < segs.len() implies whole.contains_key(
                    segment_filename(#[trigger] segs[i]),
                ) && segs[i].timestamp < start by {
                    assert(files.contains_key(segment_filename(segs[i])));
                    assert(segments(files, name).contains(segs[i]));
                    assert(segment_filename(segs[i]) == segment_file(name, segs[i].timestamp));
                    assert(segs[i].timestamp <= segs[segs.len() - 1].timestamp);
                }
                lemma_segments_removable(whole, segs, segs.len() as int);
                assert(segs.take(segs.len() as int) =~= segs);
                lemma_without_segments(whole, name, u.index, segs, start);
            }
        }
        for i in 0..old_segments.len()
            invariant
                dir.wf(),
                dir.base() == old(dir).base(),
                segs == segment_views(old_segments@),
                without_segments(whole, segs.take(i as int)) == (dir@, None::<StoreError>),
                good && db_compactable(files, s, now_ms) ==> without_segments(whole, segs).1
                    is None,
                files == old(dir)@,
                s == self@,
                good == sound(files, s.name, s.index),
                db_compacted(files, s, now_ms).0 == without_segments(whole, segs).0,
                without_segments(whole, segs).1 matches Some(e) ==> db_compacted(
                    files,
                    s,
                    now_ms,
                ).1 == Err::<StoreView, StoreError>(e),
        {
            let segment = &old_segments[i];
            assert(segs[i as int] == segment@);
            assert(segs.take(i + 1).drop_last() =~= segs.take(i as int));
            let file = segment.filename();
            if !dir.contains(file.as_str()) {
                proof {
                    lemma_without_stays(whole, segs, i + 1);
                }
                return Err(StoreError::FileNotFound);
            }
            dir.remove(file.as_str());
            dir.remove(segment.hint_filename().as_str());
        }
        assert(segs.take(old_segments@.len() as int) =~= segs);
        proof {
            if good && db_compactable(files, s, now_ms) && usual(files, s.name) {
                lemma_lasting_compacted(files, s, now_ms);
            }
        }
        Ok(new_db)
    }
}

/// What a write does to a database. The record is added to the segment that is written to,
/// or to a new one where the old one would grow over its limit, and the index has its
/// place.
pub proof fn lemma_put_effect(files: Files, s: StoreView, r: RecordView, now_ms: u64)
    ensures
        ({
            let (after, t) = db_put(files, s, r, now_ms);
            let f = s.name + "_"@ + decimal(s.active as nat) + ".db"@;
            let g = t.name + "_"@ + decimal(t.active as nat) + ".db"@;
            let rolls = content(files, f).len() + encoded(r).len() > s.max_segment_bytes;
            &&& !rolls ==> t.active == s.active
            &&& rolls ==> t.active >= now_ms && (s.active < u64::MAX ==> t.active > s.active)
            &&& after.contains_key(g) && after[g] == content(files, g) + encoded(r)
            &&& t.index.contains_key(r.key)
            &&& t.index[r.key].segment_timestamp == t.active
            &&& content(files, g).len() <= u64::MAX ==> t.index[r.key].offset == content(
                files,
                g,
            ).len()
            &&& t.index.remove(r.key) == s.index.remove(r.key)
            &&& t.name == s.name
            &&& t.max_segment_bytes == s.max_segment_bytes
            &&& t.fsync_strategy == s.fsync_strategy
        }),
{
    let (after, t) = db_put(files, s, r, now_ms);
    lemma_segment_names(SegmentView { name: s.name, timestamp: s.active });
    lemma_segment_names(SegmentView { name: t.name, timestamp: t.active });
    lemma_encoded_len(r);
    let next = next_stamp(s.active, now_ms);
    lemma_begun(files, s.name, next);
    assert(t.index.remove(r.key) =~= s.index.remove(r.key));
    if must_roll(files, s, record_len(r)) {
        assert(content(begun(files, s.name, next), segment_file(s.name, next)) == content(
            files,
            segment_file(s.name, next),
        ));
    }
}

/// What a deletion does to a database: where the key was there, a record of the deletion
/// follows the others, and the key is gone; otherwise nothing.
pub proof fn lemma_delete_effect(files: Files, s: StoreView, key: Seq<char>)
    ensures
        ({
            let (after, t) = db_deleted(files, s, key);
            let f = s.name + "_"@ + decimal(s.active as nat) + ".db"@;
            &&& !t.index.contains_key(key)
            &&& t.index == s.index.remove(key)
            &&& t.active == s.active
            &&& !s.index.contains_key(key) ==> after == files && t.writes_since_fsync
                == s.writes_since_fsync
            &&& s.index.contains_key(key) ==> after == files.insert(
                f,
                content(files, f) + encoded(tombstone_of(key)),
            )
            &&& tombstone_of(key).key == key && tombstone_of(key).tombstone
        }),
{
    lemma_segment_names(SegmentView { name: s.name, timestamp: s.active });
    if !s.index.contains_key(key) {
        assert(s.index.remove(key) =~= s.index);
    }
}

/// A compaction that is not stopped leaves a hint file for each segment that it wrote to,
/// with the places of the keys that stand there.
pub proof fn lemma_compacted_hints(files: Files, s: StoreView, now_ms: u64, y: SegmentView)
    requires
        db_compacted(files, s, now_ms).1 is Ok,
        ({
            let start = first_stamp(segments(files, s.name), now_ms);
            let t = empty_store(s.name, start, s.max_segment_bytes, s.fsync_strategy);
            segments(
                db_copied(
                    begun(files, s.name, start),
                    t,
                    s.index,
                    keys_in_order(s.index),
                    now_ms,
                ).0,
                s.name,
            ).contains(y)
        }),
        forall|i: int|
            0 <= i < segments(files, s.name).len() ==> (#[trigger] segments(
                files,
                s.name,
            )[i]).timestamp != y.timestamp,
        y.name == s.name,
        y.timestamp != (db_compacted(files, s, now_ms).1->Ok_0).active,
    ensures
        ({
            let (left, r) = db_compacted(files, s, now_ms);
            let index = (r->Ok_0).index;
            let h = y.name + "_"@ + decimal(y.timestamp as nat) + ".hint"@;
            left.contains_key(h) && left[h] == hint_file(
                hints_for(index, keys_in_order(index), y.timestamp),
            )
        }),
{
    let old_segments = segments(files, s.name);
    let start = first_stamp(old_segments, now_ms);
    let t = empty_store(s.name, start, s.max_segment_bytes, s.fsync_strategy);
    let (f, u, _) = db_copied(
        begun(files, s.name, start),
        t,
        s.index,
        keys_in_order(s.index),
        now_ms,
    );
    let fresh = segments_besides(segments(f, s.name), old_segments);
    lemma_segments_besides(segments(f, s.name), old_segments, y);
    let i = fresh.index_of(y);
    lemma_segment_names(y);
    lemma_hint_files(f, u.index, fresh, i);
    lemma_hint_stays(
        with_hints(f, u.index, fresh),
        s.name,
        next_stamp(u.active, now_ms),
        old_segments,
        y,
    );
}

} // verus!
