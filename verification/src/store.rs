//! Segments with an index: the common part of the hash-index engines.

use vstd::prelude::*;
use vstd::string::StringExecFns;

use crate::directory::{content, goes_on, Change, Directory, Files};
use crate::engine::{Contents, Live};
use crate::error::StoreError;
use crate::hash_index::{index_records, HashIndex, IndexEntry, IndexMap};
use crate::hint::{hint_views, parse_hints, Hint, HintEntry, HintView};
use crate::number::decimal;
use crate::record::{
    encoded, lemma_parse_record_prefix, lemma_record_roundtrip, parse_record, parse_stream,
    within_limits, Record, RecordView,
};
use crate::segment::{
    lemma_filename_no_hint, lemma_segment_names, segment_filename, segment_hint_filename,
    segment_views, Segment, SegmentView,
};
use crate::settings::FSyncStrategy;

verus! {

/// An index with the segment that is written to.
pub struct StoreView {
    pub index: IndexMap,
    /// The timestamp of the segment that is written to.
    pub active: u64,
    pub name: Seq<char>,
    pub max_segment_bytes: u64,
    pub writes_since_fsync: u64,
    pub fsync_strategy: FSyncStrategy,
}

/// The name of the segment file of a timestamp.
pub open spec fn segment_file(name: Seq<char>, timestamp: u64) -> Seq<char> {
    segment_filename(SegmentView { name, timestamp })
}

/// The record that an index entry stands for.
pub open spec fn record_at(files: Files, name: Seq<char>, e: IndexEntry) -> Result<
    RecordView,
    StoreError,
> {
    let f = segment_file(name, e.segment_timestamp);
    if !files.contains_key(f) {
        Err(StoreError::FileNotFound)
    } else if e.offset > files[f].len() {
        Err(StoreError::UnexpectedEof)
    } else {
        match parse_record(files[f].skip(e.offset as int)) {
            Ok((r, _)) => Ok(r),
            Err(e) => Err(e),
        }
    }
}

/// The latest record of `key`, if it is in the index.
pub open spec fn find(files: Files, name: Seq<char>, index: IndexMap, key: Seq<char>) -> Result<
    Option<RecordView>,
    StoreError,
> {
    if index.contains_key(key) {
        match record_at(files, name, index[key]) {
            Ok(r) => Ok(Some(r)),
            Err(e) => Err(e),
        }
    } else {
        Ok(None)
    }
}

/// Whether an index entry stands for a record that sets `key`.
pub open spec fn entry_sound(files: Files, name: Seq<char>, key: Seq<char>, e: IndexEntry) -> bool {
    match record_at(files, name, e) {
        Ok(r) => r.key == key && !r.tombstone,
        Err(_) => false,
    }
}

/// Whether every entry of an index stands for a record that sets its key.
pub open spec fn sound(files: Files, name: Seq<char>, index: IndexMap) -> bool {
    forall|k: Seq<char>| #[trigger]
        index.contains_key(k) ==> entry_sound(files, name, k, index[k])
}

/// What the record of an index entry gives a key.
pub open spec fn live_at(files: Files, name: Seq<char>, e: IndexEntry) -> Live {
    let r = record_at(files, name, e)->Ok_0;
    Live { value: r.value, expiry_ms: r.expiry_ms }
}

/// What the keys of an index hold.
pub open spec fn contents_at(files: Files, name: Seq<char>, index: IndexMap) -> Contents {
    Map::new(|k: Seq<char>| index.contains_key(k), |k: Seq<char>| live_at(files, name, index[k]))
}

/// The directory after bytes were added to the end of a file.
pub open spec fn appended(files: Files, f: Seq<char>, data: Seq<u8>) -> Files {
    files.insert(f, content(files, f) + data)
}

/// Adding to a file leaves the records that were there.
pub proof fn lemma_record_at_appended(
    files: Files,
    f: Seq<char>,
    data: Seq<u8>,
    name: Seq<char>,
    e: IndexEntry,
)
    requires
        record_at(files, name, e) is Ok,
    ensures
        record_at(appended(files, f, data), name, e) == record_at(files, name, e),
{
    let g = segment_file(name, e.segment_timestamp);
    let s = files[g].skip(e.offset as int);
    if f == g {
        assert((files[g] + data).skip(e.offset as int) =~= s + data);
        lemma_parse_record_prefix(s, data);
    }
}

/// Adding to a file leaves a sound index sound, with the same contents.
pub proof fn lemma_sound_appended(
    files: Files,
    f: Seq<char>,
    data: Seq<u8>,
    name: Seq<char>,
    index: IndexMap,
)
    requires
        sound(files, name, index),
    ensures
        sound(appended(files, f, data), name, index),
        contents_at(appended(files, f, data), name, index) == contents_at(files, name, index),
{
    assert forall|k: Seq<char>| #[trigger] index.contains_key(k) implies entry_sound(
        appended(files, f, data),
        name,
        k,
        index[k],
    ) && live_at(appended(files, f, data), name, index[k]) == live_at(files, name, index[k]) by {
        assert(entry_sound(files, name, k, index[k]));
        lemma_record_at_appended(files, f, data, name, index[k]);
    }
    assert(contents_at(appended(files, f, data), name, index) =~= contents_at(files, name, index));
}

/// A record that was added to a segment is found where it was added.
pub proof fn lemma_record_written(files: Files, name: Seq<char>, e: IndexEntry, r: RecordView)
    requires
        within_limits(r),
        e.offset == content(files, segment_file(name, e.segment_timestamp)).len(),
    ensures
        record_at(
            appended(files, segment_file(name, e.segment_timestamp), encoded(r)),
            name,
            e,
        ) == Ok::<RecordView, StoreError>(r),
{
    let f = segment_file(name, e.segment_timestamp);
    let data = content(files, f) + encoded(r);
    assert(data.skip(e.offset as int) =~= encoded(r) + Seq::<u8>::empty());
    lemma_record_roundtrip(r, Seq::empty());
}

/// A sound index with the place of one more record added.
pub proof fn lemma_sound_written(
    files: Files,
    name: Seq<char>,
    index: IndexMap,
    e: IndexEntry,
    r: RecordView,
)
    requires
        sound(files, name, index),
        within_limits(r),
        !r.tombstone,
        e.offset == content(files, segment_file(name, e.segment_timestamp)).len(),
    ensures
        ({
            let files2 = appended(files, segment_file(name, e.segment_timestamp), encoded(r));
            let index2 = index.insert(r.key, e);
            &&& sound(files2, name, index2)
            &&& contents_at(files2, name, index2) == contents_at(files, name, index).insert(
                r.key,
                Live { value: r.value, expiry_ms: r.expiry_ms },
            )
        }),
{
    let f = segment_file(name, e.segment_timestamp);
    let files2 = appended(files, f, encoded(r));
    let index2 = index.insert(r.key, e);
    lemma_sound_appended(files, f, encoded(r), name, index);
    lemma_record_written(files, name, e, r);
    assert forall|k: Seq<char>| #[trigger] index2.contains_key(k) implies entry_sound(
        files2,
        name,
        k,
        index2[k],
    ) by {
        if k != r.key {
            assert(index.contains_key(k));
            assert(entry_sound(files2, name, k, index[k]));
        }
    }
    let c2 = contents_at(files2, name, index2);
    let c1 = contents_at(files, name, index);
    assert forall|k: Seq<char>| #[trigger] c2.contains_key(k) && k != r.key implies c2[k] == c1[k] by {
        assert(contents_at(files2, name, index)[k] == c1[k]);
    }
    assert(c2 =~= c1.insert(r.key, Live { value: r.value, expiry_ms: r.expiry_ms }));
}

/// A sound index without one of its keys.
pub proof fn lemma_sound_removed(files: Files, name: Seq<char>, index: IndexMap, key: Seq<char>)
    requires
        sound(files, name, index),
    ensures
        sound(files, name, index.remove(key)),
        contents_at(files, name, index.remove(key)) == contents_at(files, name, index).remove(key),
{
    assert forall|k: Seq<char>| #[trigger] index.remove(key).contains_key(k) implies entry_sound(
        files,
        name,
        k,
        index.remove(key)[k],
    ) by {
        assert(index.contains_key(k));
    }
    assert(contents_at(files, name, index.remove(key)) =~= contents_at(files, name, index).remove(
        key,
    ));
}

/// Whether the segment that is written to has no room for a record of `size` bytes.
pub open spec fn must_roll(files: Files, s: StoreView, size: nat) -> bool {
    s.max_segment_bytes < content(files, segment_file(s.name, s.active)).len() + size
}

/// Whether a write makes what was written durable.
pub open spec fn sync_due(s: StoreView) -> bool {
    match s.fsync_strategy {
        FSyncStrategy::Always => true,
        FSyncStrategy::EveryN(n) => n <= #[verifier::truncate] (s.writes_since_fsync.wrapping_add(
            1,
        ) as usize),
        FSyncStrategy::Periodic(_) => false,
        FSyncStrategy::Never => false,
    }
}

/// The count of writes after one more.
pub open spec fn counted(s: StoreView) -> StoreView {
    StoreView {
        writes_since_fsync: if sync_due(s) {
            0
        } else {
            s.writes_since_fsync.wrapping_add(1)
        },
        ..s
    }
}

/// An index with the segment that is written to.
pub struct SegmentStore {
    pub index: HashIndex,
    pub active_segment: Segment,
    pub max_segment_bytes: u64,
    pub writes_since_fsync: u64,
    pub fsync_strategy: FSyncStrategy,
}

impl View for SegmentStore {
    type V = StoreView;

    open spec fn view(&self) -> StoreView {
        StoreView {
            index: self.index@,
            active: self.active_segment.timestamp,
            name: self.active_segment.segment_name@,
            max_segment_bytes: self.max_segment_bytes,
            writes_since_fsync: self.writes_since_fsync,
            fsync_strategy: self.fsync_strategy,
        }
    }
}

/// A store with an empty index.
pub open spec fn empty_store(
    name: Seq<char>,
    active: u64,
    max_segment_bytes: u64,
    fsync_strategy: FSyncStrategy,
) -> StoreView {
    StoreView {
        index: Map::empty(),
        active,
        name,
        max_segment_bytes,
        writes_since_fsync: 0,
        fsync_strategy,
    }
}

/// The directory with a file of that name, which is empty where it is new.
pub open spec fn touched(files: Files, f: Seq<char>) -> Files {
    files.insert(f, content(files, f))
}

/// Opening a file leaves what files hold.
pub proof fn lemma_touched(files: Files, f: Seq<char>)
    ensures
        touched(files, f) == appended(files, f, Seq::<u8>::empty()),
        forall|g: Seq<char>| #[trigger] content(touched(files, f), g) == content(files, g),
{
    assert(content(files, f) + Seq::<u8>::empty() =~= content(files, f));
}

/// The timestamp of the segment that follows that of `active`: the time, or where the
/// clock has not gone on, the next timestamp that there is.
pub open spec fn next_stamp(active: u64, now_ms: u64) -> u64 {
    if now_ms > active {
        now_ms
    } else if active < u64::MAX {
        (active + 1) as u64
    } else {
        active
    }
}

/// The directory with a segment that is begun: its file is there, and no hint file that
/// was left behind under its name.
pub open spec fn begun(files: Files, name: Seq<char>, timestamp: u64) -> Files {
    touched(files, segment_file(name, timestamp)).remove(
        segment_hint_filename(SegmentView { name, timestamp }),
    )
}

/// Removing a hint file leaves the records of an index.
pub proof fn lemma_sound_unhinted(files: Files, name: Seq<char>, seg: SegmentView, index: IndexMap)
    requires
        sound(files, name, index),
    ensures
        sound(files.remove(segment_hint_filename(seg)), name, index),
        contents_at(files.remove(segment_hint_filename(seg)), name, index) == contents_at(
            files,
            name,
            index,
        ),
{
    let after = files.remove(segment_hint_filename(seg));
    assert forall|k: Seq<char>| #[trigger] index.contains_key(k) implies record_at(
        after,
        name,
        index[k],
    ) == record_at(files, name, index[k]) by {
        lemma_filename_no_hint(
            SegmentView { name, timestamp: index[k].segment_timestamp },
            seg,
        );
    }
    assert forall|k: Seq<char>| #[trigger] index.contains_key(k) implies entry_sound(
        after,
        name,
        k,
        index[k],
    ) by {
        assert(entry_sound(files, name, k, index[k]));
    }
    assert(contents_at(after, name, index) =~= contents_at(files, name, index));
}

/// Beginning a segment leaves the records of an index.
pub proof fn lemma_sound_begun(files: Files, name: Seq<char>, timestamp: u64, index: IndexMap)
    requires
        sound(files, name, index),
    ensures
        sound(begun(files, name, timestamp), name, index),
        contents_at(begun(files, name, timestamp), name, index) == contents_at(
            files,
            name,
            index,
        ),
{
    let f = segment_file(name, timestamp);
    lemma_touched(files, f);
    lemma_sound_appended(files, f, Seq::empty(), name, index);
    lemma_sound_unhinted(touched(files, f), name, SegmentView { name, timestamp }, index);
}

/// Beginning a segment leaves what segment files hold.
pub proof fn lemma_begun(files: Files, name: Seq<char>, timestamp: u64)
    ensures
        forall|ts: u64| #[trigger]
            content(begun(files, name, timestamp), segment_file(name, ts)) == content(
                files,
                segment_file(name, ts),
            ),
        begun(files, name, timestamp).contains_key(segment_file(name, timestamp)),
{
    let seg = SegmentView { name, timestamp };
    lemma_touched(files, segment_file(name, timestamp));
    assert forall|ts: u64| #[trigger]
        content(begun(files, name, timestamp), segment_file(name, ts)) == content(
            files,
            segment_file(name, ts),
        ) by {
        lemma_filename_no_hint(SegmentView { name, timestamp: ts }, seg);
    }
    lemma_filename_no_hint(seg, seg);
}

/// Computes the timestamp of the segment that follows.
pub fn later_stamp(active: u64, now_ms: u64) -> (t: u64)
    ensures
        t == next_stamp(active, now_ms),
{
    if now_ms > active {
        now_ms
    } else if active < u64::MAX {
        active + 1
    } else {
        active
    }
}

impl SegmentStore {
    pub open spec fn wf(&self) -> bool {
        self.index.wf()
    }

    /// A store without keys that writes to the segment of `timestamp`.
    pub fn new(
        dir: &mut Directory,
        db_name: &str,
        max_segment_bytes: u64,
        fsync_strategy: FSyncStrategy,
        timestamp: u64,
    ) -> (s: SegmentStore)
        requires
            old(dir).wf(),
        ensures
            final(dir).wf(),
            final(dir).base() == old(dir).base(),
            final(dir)@ == begun(old(dir)@, db_name@, timestamp),
            s.wf(),
            s@ == empty_store(db_name@, timestamp, max_segment_bytes, fsync_strategy),
    {
        let segment = Segment::new(db_name, timestamp);
        dir.touch(segment.filename().as_str());
        dir.remove(segment.hint_filename().as_str());
        SegmentStore {
            index: HashIndex::new(),
            active_segment: segment,
            max_segment_bytes,
            writes_since_fsync: 0,
            fsync_strategy,
        }
    }

    /// The latest record of `key`, if it is in the index.
    pub fn find(&self, dir: &Directory, key: &str) -> (r: Result<Option<Record>, StoreError>)
        requires
            self.wf(),
            dir.wf(),
        ensures
            match r {
                Ok(Some(rec)) => rec.sized() && find(dir@, self@.name, self@.index, key@) == Ok::<
                    Option<RecordView>,
                    StoreError,
                >(Some(rec@)),
                Ok(None) => !self@.index.contains_key(key@),
                Err(e) => find(dir@, self@.name, self@.index, key@) == Err::<
                    Option<RecordView>,
                    StoreError,
                >(e),
            },
    {
        let entry = match self.index.get(key) {
            Some(e) => e,
            None => {
                return Ok(None);
            },
        };
        let segment = Segment {
            segment_name: self.active_segment.segment_name.clone(),
            timestamp: entry.segment_timestamp,
        };
        match dir.read(segment.filename().as_str()) {
            Ok(data) => match Record::read_record_at(data.as_slice(), entry.offset) {
                Ok(rec) => Ok(Some(rec)),
                Err(e) => Err(e),
            },
            Err(e) => Err(e),
        }
    }

    /// Whether the segment that is written to has no room for `size` more bytes.
    pub fn is_full(&self, dir: &Directory, size: u64) -> (r: bool)
        requires
            dir.wf(),
        ensures
            r == must_roll(dir@, self@, size as nat),
    {
        let used = dir.size(self.active_segment.filename().as_str());
        used > self.max_segment_bytes || size > self.max_segment_bytes - used
    }

    /// Turns to a new segment, one that is later than the one that was written to.
    pub fn roll_segment(&mut self, dir: &mut Directory, now_ms: u64)
        requires
            old(dir).wf(),
            old(self).wf(),
        ensures
            final(dir).wf(),
            final(dir).base() == old(dir).base(),
            final(self).wf(),
            final(dir)@ == begun(
                old(dir)@,
                old(self)@.name,
                next_stamp(old(self)@.active, now_ms),
            ),
            final(self)@ == (StoreView {
                active: next_stamp(old(self)@.active, now_ms),
                ..old(self)@
            }),
            goes_on(old(dir).pending(), final(dir).pending()),
    {
        let timestamp = later_stamp(self.active_segment.timestamp, now_ms);
        self.active_segment = Segment {
            segment_name: self.active_segment.segment_name.clone(),
            timestamp,
        };
        dir.touch(self.active_segment.filename().as_str());
        dir.remove(self.active_segment.hint_filename().as_str());
    }

    /// Adds a record to the segment that is written to. Returns its offset.
    pub fn append(&self, dir: &mut Directory, record: &Record) -> (offset: u64)
        requires
            old(dir).wf(),
            record.sized(),
        ensures
            final(dir).wf(),
            final(dir).base() == old(dir).base(),
            offset == content(old(dir)@, segment_file(self@.name, self@.active)).len(),
            final(dir)@ == appended(
                old(dir)@,
                segment_file(self@.name, self@.active),
                encoded(record@),
            ),
            final(dir).pending().len() > 0 && final(dir).pending().last() is Append,
            goes_on(old(dir).pending(), final(dir).pending()),
    {
        let file = self.active_segment.filename();
        let offset = dir.size(file.as_str());
        dir.append(file.as_str(), record.to_be_bytes().as_slice());
        offset
    }

    /// Counts a write, and makes what was written durable where that is due.
    pub fn fsync(&mut self, dir: &mut Directory)
        requires
            old(dir).wf(),
            old(self).wf(),
        ensures
            final(dir).wf(),
            final(dir).base() == old(dir).base(),
            final(dir)@ == old(dir)@,
            final(self).wf(),
            final(self)@ == counted(old(self)@),
            sync_due(old(self)@) ==> synced_by(
                final(dir).pending(),
                segment_file(old(self)@.name, old(self)@.active),
            ),
            !sync_due(old(self)@) ==> final(dir).pending() == old(dir).pending(),
            goes_on(old(dir).pending(), final(dir).pending()),
    {
        self.writes_since_fsync = self.writes_since_fsync.wrapping_add(1);
        let due = match self.fsync_strategy {
            FSyncStrategy::Always => true,
            FSyncStrategy::Never => false,
            FSyncStrategy::EveryN(n) => n <= #[verifier::truncate] (
            self.writes_since_fsync as usize),
            FSyncStrategy::Periodic(_) => false,
        };
        if due {
            self.writes_since_fsync = 0;
            dir.sync(self.active_segment.filename().as_str());
        }
    }
}

/// Whether the last of some changes makes a file durable.
pub open spec fn synced_by(pending: Seq<Change>, f: Seq<char>) -> bool {
    pending.len() > 0 && (pending.last() matches Change::Sync { name } && name@ == f)
}

/// The index after the hints of a segment.
pub open spec fn index_hints(m: IndexMap, hints: Seq<HintView>, timestamp: u64) -> IndexMap
    decreases hints.len(),
{
    if hints.len() == 0 {
        m
    } else {
        let before = index_hints(m, hints.drop_last(), timestamp);
        let h = hints.last();
        if h.tombstone {
            before
        } else {
            before.insert(
                h.key,
                IndexEntry { segment_timestamp: timestamp, offset: h.offset, record_size: 0 },
            )
        }
    }
}

/// The hints of a segment, where its hint file is there and can be read.
pub open spec fn hints_of(files: Files, seg: SegmentView) -> Option<Seq<HintView>> {
    let h = segment_hint_filename(seg);
    if files.contains_key(h) {
        match parse_hints(files[h], 0) {
            Ok(hints) => Some(hints),
            Err(_) => None,
        }
    } else {
        None
    }
}

/// The index after one more segment: from its hints, else from its records.
pub open spec fn load_segment(files: Files, m: IndexMap, seg: SegmentView) -> Result<
    IndexMap,
    StoreError,
> {
    let f = segment_filename(seg);
    if !files.contains_key(f) {
        Err(StoreError::FileNotFound)
    } else {
        match hints_of(files, seg) {
            Some(hints) => Ok(index_hints(m, hints, seg.timestamp)),
            None => {
                let (records, end) = parse_stream(files[f], 0);
                match end {
                    Some(e) => Err(e),
                    None => Ok(index_records(m, records, seg.timestamp)),
                }
            },
        }
    }
}

/// The index of some segments, the oldest first.
pub open spec fn load_segments(files: Files, segs: Seq<SegmentView>) -> Result<IndexMap, StoreError>
    decreases segs.len(),
{
    if segs.len() == 0 {
        Ok(Map::empty())
    } else {
        match load_segments(files, segs.drop_last()) {
            Err(e) => Err(e),
            Ok(m) => load_segment(files, m, segs.last()),
        }
    }
}

proof fn lemma_load_stops(files: Files, segs: Seq<SegmentView>, n: int)
    requires
        0 <= n <= segs.len(),
        load_segments(files, segs.take(n)) is Err,
    ensures
        load_segments(files, segs) == load_segments(files, segs.take(n)),
    decreases segs.len() - n,
{
    if n == segs.len() {
        assert(segs.take(n) =~= segs);
    } else {
        assert(segs.take(n + 1).drop_last() =~= segs.take(n));
        lemma_load_stops(files, segs, n + 1);
    }
}

/// Adds the hints of a segment to an index.
fn add_hints(index: &mut HashIndex, hints: &Vec<HintEntry>, timestamp: u64)
    requires
        old(index).wf(),
    ensures
        final(index).wf(),
        final(index)@ == index_hints(old(index)@, hint_views(hints@), timestamp),
{
    let ghost hv = hint_views(hints@);
    assert(hv.take(0) =~= Seq::<HintView>::empty());
    for i in 0..hints.len()
        invariant
            index.wf(),
            hv == hint_views(hints@),
            index@ == index_hints(old(index)@, hv.take(i as int), timestamp),
    {
        let h = &hints[i];
        assert(hv[i as int] == h@);
        assert(hv.take(i + 1).drop_last() =~= hv.take(i as int));
        if !h.tombstone {
            let _ = index.set(h.key.clone(), h.offset, timestamp, 0);
        }
    }
    assert(hv.take(hints@.len() as int) =~= hv);
}

/// Builds the index of some segments, the oldest first: from hint files where they
/// can be read, otherwise by going through the records.
pub fn load_index(dir: &Directory, segments: &Vec<Segment>) -> (r: Result<HashIndex, StoreError>)
    requires
        dir.wf(),
    ensures
        match r {
            Ok(index) => index.wf() && load_segments(dir@, segment_views(segments@)) == Ok::<
                IndexMap,
                StoreError,
            >(index@),
            Err(e) => load_segments(dir@, segment_views(segments@)) == Err::<IndexMap, StoreError>(
                e,
            ),
        },
{
    let mut index = HashIndex::new();
    let ghost segs = segment_views(segments@);
    assert(segs.take(0) =~= Seq::<SegmentView>::empty());
    for i in 0..segments.len()
        invariant
            dir.wf(),
            index.wf(),
            segs == segment_views(segments@),
            load_segments(dir@, segs.take(i as int)) == Ok::<IndexMap, StoreError>(index@),
    {
        let segment = &segments[i];
        assert(segs[i as int] == segment@);
        assert(segs.take(i + 1).drop_last() =~= segs.take(i as int));
        let data = match dir.read(segment.filename().as_str()) {
            Ok(d) => d,
            Err(e) => {
                proof {
                    lemma_load_stops(dir@, segs, i + 1);
                }
                return Err(e);
            },
        };
        let hints = match dir.read(segment.hint_filename().as_str()) {
            Ok(bytes) => match Hint::read_file(bytes.as_slice()) {
                Ok(hints) => Some(hints),
                Err(_) => None,
            },
            Err(_) => None,
        };
        match hints {
            Some(hints) => {
                add_hints(&mut index, &hints, segment.timestamp);
            },
            None => match index.merge_from_file(data.as_slice(), segment.timestamp) {
                Ok(_) => {},
                Err(e) => {
                    proof {
                        lemma_load_stops(dir@, segs, i + 1);
                    }
                    return Err(e);
                },
            },
        }
    }
    assert(segs.take(segments@.len() as int) =~= segs);
    Ok(index)
}

/// A record begins a new segment exactly where it does not fit: where the bytes of the
/// segment file that is written to and its own are more than a segment may hold.
pub proof fn lemma_roll_limit(files: Files, s: StoreView, size: nat)
    ensures
        ({
            let f = s.name + "_"@ + decimal(s.active as nat) + ".db"@;
            let held: int = if files.contains_key(f) {
                files[f].len() as int
            } else {
                0
            };
            must_roll(files, s, size) <==> held + size > s.max_segment_bytes
        }),
{
    lemma_segment_names(SegmentView { name: s.name, timestamp: s.active });
}

/// The next segment is later than the one that is written to, while there are later
/// timestamps, and no earlier than the clock says. It never waits longer than it has to.
pub proof fn lemma_next_stamp(active: u64, now_ms: u64)
    ensures
        next_stamp(active, now_ms) >= now_ms,
        active < u64::MAX ==> next_stamp(active, now_ms) > active,
        active < now_ms ==> next_stamp(active, now_ms) == now_ms,
        now_ms <= active < u64::MAX ==> next_stamp(active, now_ms) == active + 1,
        active == u64::MAX ==> next_stamp(active, now_ms) == u64::MAX,
{
}

/// The store after so many writes, as far as counting goes.
pub open spec fn counted_times(s: StoreView, writes: nat) -> StoreView
    decreases writes,
{
    if writes == 0 {
        s
    } else {
        counted(counted_times(s, (writes - 1) as nat))
    }
}

/// Where every `n`th write is to be made durable, the `n`th is after the last one that
/// was, then the `2n`th, and so on, and none between them.
pub proof fn lemma_every_nth(s: StoreView, n: usize, writes: nat)
    requires
        s.fsync_strategy == FSyncStrategy::EveryN(n),
        s.writes_since_fsync == 0,
        n > 0,
    ensures
        counted_times(s, writes).writes_since_fsync == writes % (n as nat),
        counted_times(s, writes).fsync_strategy == s.fsync_strategy,
        sync_due(counted_times(s, writes)) <==> (writes + 1) % (n as nat) == 0,
    decreases writes,
{
    let d = n as int;
    if writes == 0 {
        assert(0nat % (n as nat) == 0) by (nonlinear_arith)
            requires
                n > 0,
        ;
    } else {
        lemma_every_nth(s, n, (writes - 1) as nat);
    }
    let w = writes as int;
    vstd::arithmetic::div_mod::lemma_fundamental_div_mod(w, d);
    vstd::arithmetic::div_mod::lemma_mod_bound(w, d);
    if writes > 0 {
        let p = (w - 1) as int;
        vstd::arithmetic::div_mod::lemma_fundamental_div_mod(p, d);
        vstd::arithmetic::div_mod::lemma_mod_bound(p, d);
        lemma_next_mod(p, d);
    }
    lemma_next_mod(w, d);
    let r = counted_times(s, writes).writes_since_fsync;
    assert(r < n);
    assert(r.wrapping_add(1) == r + 1);
}

/// One more than a number leaves one more, or nothing where that is the divisor.
proof fn lemma_next_mod(a: int, d: int)
    requires
        a >= 0,
        d > 0,
    ensures
        (a + 1) % d == (if a % d + 1 == d {
            0
        } else {
            a % d + 1
        }),
{
    vstd::arithmetic::div_mod::lemma_fundamental_div_mod(a, d);
    vstd::arithmetic::div_mod::lemma_mod_bound(a, d);
    let q = a / d;
    if a % d + 1 == d {
        assert(d * q + d == d * (q + 1)) by (nonlinear_arith);
        vstd::arithmetic::div_mod::lemma_fundamental_div_mod_converse(a + 1, d, q + 1, 0);
    } else {
        vstd::arithmetic::div_mod::lemma_fundamental_div_mod_converse(a + 1, d, q, a % d + 1);
    }
}

/// A store that is to be durable always makes each write so. One that never is, or whose
/// keeper sees to it from time to time, makes none so, and goes on counting.
pub proof fn lemma_other_strategies(s: StoreView)
    ensures
        s.fsync_strategy is Always ==> sync_due(s) && counted(s).writes_since_fsync == 0,
        (s.fsync_strategy is Never || s.fsync_strategy is Periodic) ==> !sync_due(s) && (
        s.writes_since_fsync < u64::MAX ==> counted(s).writes_since_fsync
            == s.writes_since_fsync + 1),
{
}

/// A key that is in no index is not found; one that is comes from the record that stands
/// where the index says, in the file of the segment that it names.
pub proof fn lemma_found_record(files: Files, name: Seq<char>, index: IndexMap, key: Seq<char>)
    ensures
        !index.contains_key(key) ==> find(files, name, index, key) == Ok::<
            Option<RecordView>,
            StoreError,
        >(None),
        index.contains_key(key) ==> ({
            let e = index[key];
            let f = name + "_"@ + decimal(e.segment_timestamp as nat) + ".db"@;
            &&& !files.contains_key(f) ==> find(files, name, index, key) == Err::<
                Option<RecordView>,
                StoreError,
            >(StoreError::FileNotFound)
            &&& files.contains_key(f) && e.offset > files[f].len() ==> find(
                files,
                name,
                index,
                key,
            ) == Err::<Option<RecordView>, StoreError>(StoreError::UnexpectedEof)
            &&& files.contains_key(f) && e.offset <= files[f].len() && parse_record(
                files[f].skip(e.offset as int),
            ) is Err ==> find(files, name, index, key) == Err::<Option<RecordView>, StoreError>(
                parse_record(files[f].skip(e.offset as int))->Err_0,
            )
            &&& files.contains_key(f) && e.offset <= files[f].len() ==> forall|
                r: RecordView,
            | #![trigger encoded(r)]
                within_limits(r) && encoded(r).is_prefix_of(files[f].skip(e.offset as int))
                    ==> find(files, name, index, key) == Ok::<Option<RecordView>, StoreError>(
                    Some(r),
                )
        }),
{
    if index.contains_key(key) {
        let e = index[key];
        let f = name + "_"@ + decimal(e.segment_timestamp as nat) + ".db"@;
        lemma_segment_names(SegmentView { name, timestamp: e.segment_timestamp });
        if files.contains_key(f) && e.offset <= files[f].len() {
            let s = files[f].skip(e.offset as int);
            assert forall|r: RecordView| #![trigger encoded(r)] within_limits(r) && encoded(
                r,
            ).is_prefix_of(s) implies find(files, name, index, key) == Ok::<
                Option<RecordView>,
                StoreError,
            >(Some(r)) by {
                let rest = s.skip(encoded(r).len() as int);
                assert(s =~= encoded(r) + rest);
                lemma_record_roundtrip(r, rest);
            }
        }
    }
}

/// The hints of a segment put each key that they name at the offset that they give, in
/// that segment, and leave all other keys. Of two hints for a key the later one counts.
pub proof fn lemma_hinted_places(m: IndexMap, hints: Seq<HintView>, timestamp: u64, key: Seq<char>)
    ensures
        (forall|i: int| 0 <= i < hints.len() ==> (#[trigger] hints[i]).key != key
            || hints[i].tombstone) ==> index_hints(m, hints, timestamp).contains_key(key)
            == m.contains_key(key) && (m.contains_key(key) ==> index_hints(
            m,
            hints,
            timestamp,
        )[key] == m[key]),
        forall|i: int|
            0 <= i < hints.len() && (#[trigger] hints[i]).key == key && !hints[i].tombstone && (
            forall|j: int|
                i < j < hints.len() ==> (#[trigger] hints[j]).key != key || hints[j].tombstone)
                ==> index_hints(m, hints, timestamp).contains_key(key) && index_hints(
                m,
                hints,
                timestamp,
            )[key] == (IndexEntry {
                segment_timestamp: timestamp,
                offset: hints[i].offset,
                record_size: 0,
            }),
    decreases hints.len(),
{
    if hints.len() > 0 {
        let front = hints.drop_last();
        lemma_hinted_places(m, front, timestamp, key);
        if forall|i: int|
            0 <= i < hints.len() ==> (#[trigger] hints[i]).key != key || hints[i].tombstone {
            assert(forall|i: int|
                0 <= i < front.len() ==> (#[trigger] front[i]) == hints[i]);
        }
        assert forall|i: int|
            0 <= i < hints.len() && (#[trigger] hints[i]).key == key && !hints[i].tombstone && (
            forall|j: int|
                i < j < hints.len() ==> (#[trigger] hints[j]).key != key
                    || hints[j].tombstone) implies index_hints(m, hints, timestamp).contains_key(
            key,
        ) && index_hints(m, hints, timestamp)[key] == (IndexEntry {
            segment_timestamp: timestamp,
            offset: hints[i].offset,
            record_size: 0,
        }) by {
            if i < front.len() {
                assert(front[i] == hints[i]);
                assert(forall|j: int|
                    i < j < front.len() ==> (#[trigger] front[j]) == hints[j]);
                assert(hints[hints.len() - 1].key != key || hints[hints.len() - 1].tombstone);
            }
        }
    }
}

/// A segment whose file is missing cannot be loaded. One whose hint file can be read is
/// loaded from that, else from its records, and then not where one of them cannot be read.
pub proof fn lemma_segment_loaded(files: Files, m: IndexMap, seg: SegmentView)
    ensures
        ({
            let f = seg.name + "_"@ + decimal(seg.timestamp as nat) + ".db"@;
            let h = seg.name + "_"@ + decimal(seg.timestamp as nat) + ".hint"@;
            let hinted = files.contains_key(h) && parse_hints(files[h], 0) is Ok;
            let (records, end) = parse_stream(files[f], 0);
            &&& !files.contains_key(f) ==> load_segment(files, m, seg) == Err::<
                IndexMap,
                StoreError,
            >(StoreError::FileNotFound)
            &&& files.contains_key(f) && hinted ==> load_segment(files, m, seg) == Ok::<
                IndexMap,
                StoreError,
            >(index_hints(m, parse_hints(files[h], 0)->Ok_0, seg.timestamp))
            &&& files.contains_key(f) && !hinted ==> load_segment(files, m, seg) == (match end {
                Some(e) => Err::<IndexMap, StoreError>(e),
                None => Ok(index_records(m, records, seg.timestamp)),
            })
        }),
{
    lemma_segment_names(seg);
}

/// Segments are loaded one after the other, the oldest first. The first that cannot be
/// stops it.
pub proof fn lemma_segments_loaded(files: Files, segs: Seq<SegmentView>, seg: SegmentView)
    ensures
        load_segments(files, Seq::empty()) == Ok::<IndexMap, StoreError>(Map::empty()),
        load_segments(files, segs.push(seg)) == (match load_segments(files, segs) {
            Err(e) => Err::<IndexMap, StoreError>(e),
            Ok(m) => load_segment(files, m, seg),
        }),
{
    assert(segs.push(seg).drop_last() =~= segs);
}

} // verus!
