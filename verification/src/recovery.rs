//! Reopening gives back what was written.
//!
//! A hash-index engine that is reopened builds its index from hint files and
//! records, and then applies the log. The laws here say when that leads back to the
//! contents that the engine had.

use vstd::prelude::*;

use crate::directory::{content, files_fit, Files};
use crate::db::{
    db_compactable, db_compacted, db_copied, db_deleted, db_place, db_put, db_rolled,
    lemma_db_deleted, lemma_db_put,
};
use crate::engine::{Contents, Live};
use crate::error::StoreError;
use crate::hash_index::{index_record, IndexEntry, IndexMap};
use crate::kvengine::{
    first_stamp, hints_for, kv_compactable, kv_compacted, kv_copied, kv_deleted, kv_loaded,
    kv_logged, kv_new, kv_put, kv_recovered, kv_rolled, lemma_deleted, lemma_kept_begun,
    lemma_put, lemma_sound_wal, lemma_wal_is_no_segment, next_place, segments, segments_besides,
    with_hints, without_segments, KvView,
};
use crate::hint::{hint_file, lemma_hint_file_roundtrip};
use crate::memtable::{entry_record, EntryView};
use crate::record::{
    encoded, lemma_parse_stream_append, parse_stream, record_len, record_of, tombstone_of,
    within_limits, RecordView, MAX_KEY_SIZE,
};
use crate::segment::{
    by_timestamp, lemma_filename_injective, lemma_filename_no_hint,
    lemma_hint_filename_injective, lemma_parse_filename, lemma_segments_no_duplicates,
    lemma_segments_of, lemma_segments_unique, parse_segment, segment_filename,
    segment_hint_filename, usual_names, SegmentView,
};
use crate::settings::FSyncStrategy;
use crate::sorted_map::{
    keys_in_order, keys_of, lemma_orderable, lemma_orderable_insert, lemma_orderable_remove,
    lemma_same_keys, orderable,
};
use crate::store::{
    appended, begun, contents_at, empty_store, entry_sound, find, hints_of, index_hints,
    lemma_begun, lemma_sound_appended, lemma_sound_removed, lemma_sound_unhinted,
    lemma_sound_written, lemma_touched, live_at, load_segments, must_roll, next_stamp,
    segment_file, sound, touched, StoreView,
};
use crate::text::byte_len;
use crate::wal::{
    entries_within_limits, lemma_replay_append, lemma_replayed_limits, lemma_replayed_orderable,
    replayed, wal_filename,
};

verus! {

/// The contents after what a log says was applied to them.
pub open spec fn applied(c: Contents, entries: Map<Seq<char>, EntryView>) -> Contents {
    Map::new(
        |k: Seq<char>|
            if entries.contains_key(k) {
                entries[k].value is Some
            } else {
                c.contains_key(k)
            },
        |k: Seq<char>|
            if entries.contains_key(k) {
                Live { value: entries[k].value->0, expiry_ms: entries[k].expiry_ms }
            } else {
                c[k]
            },
    )
}

/// Whether the files of a directory have the usual names.
pub open spec fn usual(files: Files, name: Seq<char>) -> bool {
    orderable(files) && usual_names(keys_in_order(files), name)
}

/// The segment that is written to.
pub open spec fn active_segment(s: StoreView) -> SegmentView {
    SegmentView { name: s.name, timestamp: s.active }
}

/// Whether the segments of a directory hold what a store holds.
///
/// They are there under their usual names. The one that is written to is the latest,
/// and has no hint file. What they give back is what the store holds.
pub open spec fn lasting(files: Files, s: StoreView) -> bool {
    let segs = segments(files, s.name);
    let index = load_segments(files, segs)->Ok_0;
    &&& usual(files, s.name)
    &&& sound(files, s.name, s.index)
    &&& segs.len() > 0
    &&& segs.last() == active_segment(s)
    &&& hints_of(files, active_segment(s)) is None
    &&& load_segments(files, segs) is Ok
    &&& sound(files, s.name, index)
    &&& contents_at(files, s.name, index) == contents_at(files, s.name, s.index)
}

/// Whether the files hold what the engine holds: its segments do, and what the log says
/// adds nothing to it.
pub open spec fn durable(s: KvView) -> bool {
    let wal = content(s.files, s.wal());
    &&& lasting(s.files, s.store)
    &&& parse_stream(wal, 0).1 is None
    &&& applied(s.contents(), (replayed(wal)->Ok_0).entries) == s.contents()
}

/// The segments of a directory with usual names are those whose files are there.
proof fn lemma_segments(files: Files, name: Seq<char>)
    requires
        usual(files, name),
    ensures
        by_timestamp(segments(files, name)),
        segments(files, name).no_duplicates(),
        forall|x: SegmentView| #[trigger]
            segments(files, name).contains(x) <==> x.name == name && files.contains_key(
                segment_filename(x),
            ),
{
    let names = keys_in_order(files);
    lemma_orderable(files);
    lemma_segments_of(names, name);
    assert(names.no_duplicates()) by {
        assert forall|i: int, j: int|
            0 <= i < names.len() && 0 <= j < names.len() && i != j implies names[i] != names[j] by {
            if i < j {
                crate::text::lemma_key_lt_total(names[i], names[j]);
            } else {
                crate::text::lemma_key_lt_total(names[j], names[i]);
            }
        }
    }
    lemma_segments_no_duplicates(names, name);
    assert forall|x: SegmentView| #[trigger]
        segments(files, name).contains(x) <==> x.name == name && files.contains_key(
            segment_filename(x),
        ) by {
        if segments(files, name).contains(x) {
            let i = choose|i: int|
                0 <= i < names.len() && parse_segment(#[trigger] names[i]) == Some(x);
            assert(names[i] == segment_filename(x));
            assert(names.contains(names[i]));
        }
        if x.name == name && files.contains_key(segment_filename(x)) {
            lemma_parse_filename(x);
            assert(names.contains(segment_filename(x)));
            let i = names.index_of(segment_filename(x));
            assert(parse_segment(names[i]) == Some(x));
        }
    }
}

/// Changing what files hold changes neither the names nor the segments.
proof fn lemma_same_segments(a: Files, b: Files, name: Seq<char>)
    requires
        usual(a, name),
        forall|n: Seq<char>| #[trigger] a.contains_key(n) <==> b.contains_key(n),
    ensures
        usual(b, name),
        segments(b, name) == segments(a, name),
{
    lemma_same_keys(a, b);
}

/// A new file with a usual name leaves the names usual.
proof fn lemma_usual_insert(files: Files, name: Seq<char>, f: Seq<char>, data: Seq<u8>)
    requires
        usual(files, name),
        match parse_segment(f) {
            Some(x) => x.name == name ==> f == segment_filename(x),
            None => true,
        },
    ensures
        usual(files.insert(f, data), name),
{
    let files2 = files.insert(f, data);
    lemma_orderable_insert(files, f, data);
    lemma_orderable(files);
    lemma_orderable(files2);
    let a = keys_in_order(files);
    let b = keys_in_order(files2);
    assert forall|i: int| 0 <= i < b.len() implies match parse_segment(#[trigger] b[i]) {
        Some(x) => x.name == name ==> b[i] == segment_filename(x),
        None => true,
    } by {
        assert(b.contains(b[i]));
        assert(files2.contains_key(b[i]));
        if b[i] != f {
            assert(files.contains_key(b[i]));
            assert(a.contains(b[i]));
            assert(a[a.index_of(b[i])] == b[i]);
        }
    }
}

/// The log is no segment.
proof fn lemma_wal_name(name: Seq<char>)
    ensures
        parse_segment(wal_filename(name)) is None,
{
    let f = wal_filename(name);
    assert(f.last() == 'l');
    let suffix = seq!['.', 'd', 'b'];
    if f.len() >= 3 {
        assert(f.skip(f.len() - 3).last() == 'l');
        assert(suffix.last() == 'b');
    }
}

/// The log is no hint file.
proof fn lemma_wal_no_hint(name: Seq<char>, seg: SegmentView)
    ensures
        wal_filename(name) != segment_hint_filename(seg),
{
    assert(wal_filename(name).last() == 'l');
    assert(segment_hint_filename(seg).last() == 't');
}

/// Segments whose files did not change load as before.
proof fn lemma_load_unchanged(a: Files, b: Files, segs: Seq<SegmentView>)
    requires
        forall|i: int|
            0 <= i < segs.len() ==> {
                let f = segment_filename(#[trigger] segs[i]);
                &&& a.contains_key(f) <==> b.contains_key(f)
                &&& content(a, f) == content(b, f)
                &&& hints_of(a, segs[i]) == hints_of(b, segs[i])
            },
    ensures
        load_segments(b, segs) == load_segments(a, segs),
    decreases segs.len(),
{
    if segs.len() > 0 {
        let init = segs.drop_last();
        assert forall|i: int| 0 <= i < init.len() implies {
            let f = segment_filename(#[trigger] init[i]);
            &&& a.contains_key(f) <==> b.contains_key(f)
            &&& content(a, f) == content(b, f)
            &&& hints_of(a, init[i]) == hints_of(b, init[i])
        } by {
            assert(init[i] == segs[i]);
        }
        lemma_load_unchanged(a, b, init);
        let x = segs[segs.len() - 1];
        let f = segment_filename(x);
        assert(content(a, f) == content(b, f));
    }
}

/// A record that is added to the latest segment, which has no hint file, is loaded
/// last.
proof fn lemma_load_appended(files: Files, segs: Seq<SegmentView>, r: RecordView)
    requires
        segs.len() > 0,
        segs.no_duplicates(),
        load_segments(files, segs) is Ok,
        hints_of(files, segs.last()) is None,
        within_limits(r),
    ensures
        ({
            let f = segment_filename(segs.last());
            load_segments(appended(files, f, encoded(r)), segs) == Ok::<IndexMap, StoreError>(
                index_record(
                    load_segments(files, segs)->Ok_0,
                    (content(files, f).len() as int, r),
                    segs.last().timestamp,
                ),
            )
        }),
{
    let x = segs.last();
    let f = segment_filename(x);
    let files2 = appended(files, f, encoded(r));
    let init = segs.drop_last();
    assert forall|i: int| 0 <= i < init.len() implies {
        let g = segment_filename(#[trigger] init[i]);
        &&& files.contains_key(g) <==> files2.contains_key(g)
        &&& content(files, g) == content(files2, g)
        &&& hints_of(files, init[i]) == hints_of(files2, init[i])
    } by {
        assert(init[i] == segs[i]);
        assert(segs[i] != segs[segs.len() - 1]);
        if segment_filename(init[i]) == f {
            lemma_filename_injective(init[i], x);
        }
        lemma_filename_no_hint(x, init[i]);
    }
    lemma_load_unchanged(files, files2, init);
    lemma_filename_no_hint(x, x);
    let data = files[f];
    lemma_parse_stream_append(data, 0, r);
    let recs = parse_stream(data, 0).0;
    assert(recs.push((data.len() as int, r)).drop_last() =~= recs);
}

/// A change of the log leaves what the segments give back.
proof fn lemma_load_wal(files: Files, name: Seq<char>, data: Seq<u8>)
    requires
        usual(files, name),
    ensures
        usual(files.insert(wal_filename(name), data), name),
        segments(files.insert(wal_filename(name), data), name) == segments(files, name),
        load_segments(files.insert(wal_filename(name), data), segments(files, name))
            == load_segments(files, segments(files, name)),
{
    let wal = wal_filename(name);
    let files2 = files.insert(wal, data);
    let segs = segments(files, name);
    lemma_wal_name(name);
    lemma_usual_insert(files, name, wal, data);
    lemma_segments(files, name);
    lemma_segments(files2, name);
    assert forall|x: SegmentView| #[trigger] segs.contains(x) <==> segments(files2, name).contains(
        x,
    ) by {
        if x.name == name {
            lemma_wal_is_no_segment(name, x.timestamp);
        }
    }
    lemma_segments_unique(segs, segments(files2, name), name);
    assert forall|i: int| 0 <= i < segs.len() implies {
        let f = segment_filename(#[trigger] segs[i]);
        &&& files.contains_key(f) <==> files2.contains_key(f)
        &&& content(files, f) == content(files2, f)
        &&& hints_of(files, segs[i]) == hints_of(files2, segs[i])
    } by {
        assert(segs.contains(segs[i]));
        lemma_wal_is_no_segment(name, segs[i].timestamp);
        lemma_wal_no_hint(name, segs[i]);
    }
    lemma_load_unchanged(files, files2, segs);
}

/// Applying a log that says one thing more about a key.
proof fn lemma_applied_written(
    c: Contents,
    c2: Contents,
    entries: Map<Seq<char>, EntryView>,
    k: Seq<char>,
    e: EntryView,
)
    requires
        forall|x: Seq<char>|
            x != k ==> (#[trigger] c2.contains_key(x) <==> c.contains_key(x)) && (
            c.contains_key(x) ==> c2[x] == c[x]),
    ensures
        e.value is Some ==> applied(c2, entries.insert(k, e)) == applied(c, entries).insert(
            k,
            Live { value: e.value->0, expiry_ms: e.expiry_ms },
        ),
        e.value is None ==> applied(c2, entries.insert(k, e)) == applied(c, entries).remove(k),
{
    let a = applied(c2, entries.insert(k, e));
    if e.value is Some {
        assert(a =~= applied(c, entries).insert(
            k,
            Live { value: e.value->0, expiry_ms: e.expiry_ms },
        ));
    } else {
        assert(a =~= applied(c, entries).remove(k));
    }
}

/// Nothing is applied from an empty log.
proof fn lemma_applied_nothing(c: Contents)
    ensures
        parse_stream(Seq::<u8>::empty(), 0).1 is None,
        replayed(Seq::<u8>::empty()) is Ok,
        applied(c, (replayed(Seq::<u8>::empty())->Ok_0).entries) == c,
{
    assert(parse_stream(Seq::<u8>::empty(), 0) == (
        Seq::<(int, RecordView)>::empty(),
        None::<StoreError>,
    ));
    let m = (replayed(Seq::<u8>::empty())->Ok_0).entries;
    assert(m =~= Map::<Seq<char>, EntryView>::empty());
    assert(applied(c, m) =~= c);
}

/// A change of the log leaves the segments with what the store holds.
proof fn lemma_lasting_wal(files: Files, s: StoreView, data: Seq<u8>)
    requires
        lasting(files, s),
    ensures
        lasting(files.insert(wal_filename(s.name), data), s),
        contents_at(files.insert(wal_filename(s.name), data), s.name, s.index) == contents_at(
            files,
            s.name,
            s.index,
        ),
{
    let index = load_segments(files, segments(files, s.name))->Ok_0;
    lemma_load_wal(files, s.name, data);
    lemma_sound_wal(files, s.name, index, data);
    lemma_sound_wal(files, s.name, s.index, data);
    lemma_wal_no_hint(s.name, active_segment(s));
}

/// A record that is added to the segment that is written to lasts.
proof fn lemma_lasting_written(files: Files, s: StoreView, r: RecordView, t: StoreView)
    requires
        lasting(files, s),
        content(files, segment_file(s.name, s.active)).len() <= u64::MAX,
        within_limits(r),
        t.name == s.name,
        t.active == s.active,
        ({
            let after = appended(files, segment_file(s.name, s.active), encoded(r));
            let c = contents_at(files, s.name, s.index);
            &&& sound(after, s.name, t.index)
            &&& r.tombstone ==> contents_at(after, s.name, t.index) == c.remove(r.key)
            &&& !r.tombstone ==> contents_at(after, s.name, t.index) == c.insert(
                r.key,
                Live { value: r.value, expiry_ms: r.expiry_ms },
            )
        }),
    ensures
        lasting(appended(files, segment_file(s.name, s.active), encoded(r)), t),
{
    let name = s.name;
    let f = segment_file(name, s.active);
    let after = appended(files, f, encoded(r));
    let segs = segments(files, name);
    let index = load_segments(files, segs)->Ok_0;
    lemma_segments(files, name);
    assert(segs.contains(segs[segs.len() - 1]));
    lemma_same_segments(files, after, name);
    lemma_filename_no_hint(active_segment(s), active_segment(s));
    lemma_load_appended(files, segs, r);
    let place = IndexEntry {
        segment_timestamp: s.active,
        offset: content(files, f).len() as u64,
        record_size: 0,
    };
    let index2 = load_segments(after, segs)->Ok_0;
    lemma_sound_appended(files, f, encoded(r), name, index);
    if r.tombstone {
        assert(index2 == index.remove(r.key));
        lemma_sound_removed(after, name, index, r.key);
    } else {
        assert(index2 == index.insert(r.key, place));
        lemma_sound_written(files, name, index, place, r);
    }
}

/// Fewer files have usual names too.
proof fn lemma_usual_remove(files: Files, name: Seq<char>, f: Seq<char>)
    requires
        usual(files, name),
    ensures
        usual(files.remove(f), name),
{
    let files2 = files.remove(f);
    lemma_orderable_remove(files, f);
    lemma_orderable(files);
    lemma_orderable(files2);
    let a = keys_in_order(files);
    let b = keys_in_order(files2);
    assert forall|i: int| 0 <= i < b.len() implies match parse_segment(#[trigger] b[i]) {
        Some(x) => x.name == name ==> b[i] == segment_filename(x),
        None => true,
    } by {
        assert(b.contains(b[i]));
        assert(files2.contains_key(b[i]));
        assert(files.contains_key(b[i]));
        assert(a.contains(b[i]));
        assert(a[a.index_of(b[i])] == b[i]);
    }
}

/// Removing a hint file that is not used leaves the segments with what the store holds.
proof fn lemma_lasting_unhinted(files: Files, s: StoreView, x: SegmentView)
    requires
        lasting(files, s),
        x.name == s.name,
        x.timestamp >= s.active,
    ensures
        lasting(files.remove(segment_hint_filename(x)), s),
        contents_at(files.remove(segment_hint_filename(x)), s.name, s.index) == contents_at(
            files,
            s.name,
            s.index,
        ),
{
    let name = s.name;
    let h = segment_hint_filename(x);
    let after = files.remove(h);
    let segs = segments(files, name);
    let index = load_segments(files, segs)->Ok_0;
    lemma_usual_remove(files, name, h);
    lemma_segments(files, name);
    lemma_segments(after, name);
    assert forall|y: SegmentView| #[trigger] segs.contains(y) <==> segments(after, name).contains(
        y,
    ) by {
        lemma_filename_no_hint(y, x);
    }
    lemma_segments_unique(segs, segments(after, name), name);
    assert forall|i: int| 0 <= i < segs.len() implies {
        let f = segment_filename(#[trigger] segs[i]);
        &&& files.contains_key(f) <==> after.contains_key(f)
        &&& content(files, f) == content(after, f)
        &&& hints_of(files, segs[i]) == hints_of(after, segs[i])
    } by {
        let y = segs[i];
        lemma_filename_no_hint(y, x);
        assert(y.timestamp <= segs[segs.len() - 1].timestamp);
        assert(segs.contains(y));
        if segment_hint_filename(y) == h {
            lemma_hint_filename_injective(y, x);
            assert(y == active_segment(s));
        }
    }
    lemma_load_unchanged(files, after, segs);
    lemma_sound_unhinted(files, name, x, index);
    lemma_sound_unhinted(files, name, x, s.index);
    assert(segs[segs.len() - 1] == active_segment(s));
}

/// A store that turns to a new segment, one that is no older, loses nothing.
proof fn lemma_lasting_begun(files: Files, s: StoreView, timestamp: u64)
    requires
        lasting(files, s),
        timestamp >= s.active,
    ensures
        lasting(begun(files, s.name, timestamp), StoreView { active: timestamp, ..s }),
        contents_at(begun(files, s.name, timestamp), s.name, s.index) == contents_at(
            files,
            s.name,
            s.index,
        ),
{
    let name = s.name;
    let x = SegmentView { name, timestamp };
    let h = segment_hint_filename(x);
    let f = segment_filename(x);
    let bare = files.remove(h);
    let mid = touched(bare, f);
    let segs = segments(bare, name);
    let none = Seq::<u8>::empty();
    lemma_lasting_unhinted(files, s, x);
    lemma_filename_no_hint(x, x);
    assert(begun(files, name, timestamp) =~= mid);
    let index = load_segments(bare, segs)->Ok_0;
    lemma_segments(bare, name);
    lemma_touched(bare, f);
    assert(hints_of(mid, x) is None);
    lemma_sound_appended(bare, f, none, name, index);
    lemma_sound_appended(bare, f, none, name, s.index);
    lemma_parse_filename(x);
    lemma_usual_insert(bare, name, f, content(bare, f));
    lemma_segments(mid, name);
    let segs2 = segments(mid, name);
    assert(segs.contains(segs[segs.len() - 1]));
    if timestamp == s.active {
        assert forall|y: SegmentView| #[trigger] segs.contains(y) <==> segs2.contains(y) by {}
        lemma_segments_unique(segs, segs2, name);
        assert(mid =~= bare);
    } else {
        if bare.contains_key(f) {
            assert(segs.contains(x));
            let i = segs.index_of(x);
            assert(segs[i].timestamp <= segs[segs.len() - 1].timestamp);
        }
        let both = segs.push(x);
        assert forall|i: int, j: int| 0 <= i <= j < both.len() implies (#[trigger] both[i]).timestamp
            <= (#[trigger] both[j]).timestamp by {
            if j == segs.len() && i < segs.len() {
                assert(segs[i].timestamp <= segs[segs.len() - 1].timestamp);
            }
        }
        assert(both.no_duplicates()) by {
            assert forall|i: int, j: int|
                0 <= i < both.len() && 0 <= j < both.len() && i != j implies both[i] != both[j] by {
                if i == segs.len() {
                    assert(segs.contains(segs[j]));
                }
                if j == segs.len() {
                    assert(segs.contains(segs[i]));
                }
            }
        }
        assert forall|y: SegmentView| #[trigger] both.contains(y) <==> segs2.contains(y) by {
            if both.contains(y) {
                let i = both.index_of(y);
                if i < segs.len() {
                    assert(segs.contains(segs[i]));
                }
            }
            if segs2.contains(y) {
                if y == x {
                    assert(both[segs.len() as int] == y);
                } else {
                    if segment_filename(y) == f {
                        lemma_filename_injective(y, x);
                    }
                    assert(segs.contains(y));
                    assert(both[segs.index_of(y)] == y);
                }
            }
        }
        lemma_segments_unique(both, segs2, name);
        assert(segs2.drop_last() =~= segs);
        assert forall|i: int| 0 <= i < segs.len() implies {
            let g = segment_filename(#[trigger] segs[i]);
            &&& bare.contains_key(g) <==> mid.contains_key(g)
            &&& content(bare, g) == content(mid, g)
            &&& hints_of(bare, segs[i]) == hints_of(mid, segs[i])
        } by {
            assert(segs.contains(segs[i]));
            lemma_filename_no_hint(x, segs[i]);
        }
        lemma_load_unchanged(bare, mid, segs);
        assert(mid[f] == none);
        assert(parse_stream(none, 0) == (Seq::<(int, RecordView)>::empty(), None::<StoreError>));
    }
    assert(load_segments(mid, segs2) == Ok::<IndexMap, StoreError>(index));
}

/// A durable engine stays durable when a record is logged and added to the segment
/// that is written to.
proof fn lemma_durable_written(s: KvView, r: RecordView, t: KvView)
    requires
        durable(s),
        files_fit(s.files),
        within_limits(r),
        t.store.name == s.store.name,
        t.store.active == s.store.active,
        t.files == appended(
            appended(s.files, s.wal(), encoded(r)),
            s.active_file(),
            encoded(r),
        ),
        t.sound(),
        r.tombstone ==> t.contents() == s.contents().remove(r.key) && r.value == Seq::<
            char,
        >::empty() && r.expiry_ms is None,
        !r.tombstone ==> t.contents() == s.contents().insert(
            r.key,
            Live { value: r.value, expiry_ms: r.expiry_ms },
        ),
    ensures
        durable(t),
{
    let name = s.store.name;
    let wal = content(s.files, s.wal());
    let mid = appended(s.files, s.wal(), encoded(r));
    lemma_wal_is_no_segment(name, s.store.active);
    assert(mid == s.files.insert(s.wal(), wal + encoded(r)));
    lemma_lasting_wal(s.files, s.store, wal + encoded(r));
    assert(content(mid, s.active_file()) == content(s.files, s.active_file()));
    lemma_lasting_written(mid, s.store, r, t.store);
    assert(content(t.files, t.wal()) == wal + encoded(r));
    lemma_replay_append(wal, r);
    let entries = (replayed(wal)->Ok_0).entries;
    let e = EntryView {
        value: if r.tombstone {
            None
        } else {
            Some(r.value)
        },
        expiry_ms: r.expiry_ms,
    };
    assert((replayed(wal + encoded(r))->Ok_0).entries == entries.insert(r.key, e));
    lemma_applied_written(s.contents(), t.contents(), entries, r.key, e);
}

/// A write keeps an engine durable: reopened, it gives back what it held, with what
/// was written.
pub proof fn lemma_durable_put(s: KvView, r: RecordView, now_ms: u64)
    requires
        durable(s),
        files_fit(s.files),
        within_limits(r),
        !r.tombstone,
    ensures
        durable(kv_put(s, r, now_ms)),
{
    let t = kv_put(s, r, now_ms);
    let name = s.store.name;
    let next = next_stamp(s.store.active, now_ms);
    let s1 = KvView { files: appended(s.files, s.wal(), encoded(r)), ..s };
    lemma_wal_is_no_segment(name, s.store.active);
    lemma_wal_is_no_segment(name, next);
    lemma_put(s, r, now_ms);
    assert(must_roll(s1.files, s1.store, record_len(r)) == must_roll(
        s.files,
        s.store,
        record_len(r),
    ));
    if must_roll(s.files, s.store, record_len(r)) {
        let u = kv_rolled(s, now_ms);
        lemma_lasting_begun(s.files, s.store, next);
        lemma_lasting_wal(begun(s.files, name, next), u.store, Seq::empty());
        lemma_wal_no_hint(name, active_segment(u.store));
        assert(kv_rolled(s1, now_ms).files =~= u.files);
        lemma_begun(s.files, name, next);
        assert(content(u.files, u.active_file()) == content(s.files, u.active_file()));
        lemma_lasting_written(u.files, u.store, r, t.store);
        lemma_applied_nothing(t.contents());
    } else {
        lemma_durable_written(s, r, t);
    }
}

/// A deletion keeps an engine durable.
pub proof fn lemma_durable_deleted(s: KvView, key: Seq<char>)
    requires
        durable(s),
        files_fit(s.files),
        within_limits(tombstone_of(key)),
    ensures
        durable(kv_deleted(s, key)),
{
    let r = tombstone_of(key);
    let t = kv_deleted(s, key);
    lemma_deleted(s, key);
    if s.store.index.contains_key(key) {
        lemma_durable_written(s, r, t);
    } else {
        let wal = content(s.files, s.wal());
        lemma_lasting_wal(s.files, s.store, wal + encoded(r));
        lemma_replay_append(wal, r);
        let entries = (replayed(wal)->Ok_0).entries;
        let e = EntryView { value: None, expiry_ms: None };
        assert((replayed(wal + encoded(r))->Ok_0).entries == entries.insert(key, e));
        lemma_applied_written(s.contents(), s.contents(), entries, key, e);
        assert(t.contents() =~= s.contents());
    }
}

/// A new store in a directory without segments of its name lasts.
pub proof fn lemma_lasting_new(
    files: Files,
    name: Seq<char>,
    max_segment_bytes: u64,
    fsync_strategy: FSyncStrategy,
    now_ms: u64,
)
    requires
        usual(files, name),
        segments(files, name).len() == 0,
    ensures
        lasting(
            begun(files, name, now_ms),
            empty_store(name, now_ms, max_segment_bytes, fsync_strategy),
        ),
{
    let s = empty_store(name, now_ms, max_segment_bytes, fsync_strategy);
    let x = SegmentView { name, timestamp: now_ms };
    let f = segment_filename(x);
    let h = segment_hint_filename(x);
    let bare = files.remove(h);
    let mid = touched(bare, f);
    let none = Seq::<u8>::empty();
    lemma_filename_no_hint(x, x);
    assert(begun(files, name, now_ms) =~= mid);
    lemma_segments(files, name);
    assert(!segments(files, name).contains(x));
    lemma_usual_remove(files, name, h);
    lemma_parse_filename(x);
    lemma_usual_insert(bare, name, f, content(bare, f));
    lemma_segments(mid, name);
    let segs = segments(mid, name);
    let one = seq![x];
    assert forall|y: SegmentView| #[trigger] one.contains(y) <==> segs.contains(y) by {
        if one.contains(y) {
            assert(y == x);
        }
        if segs.contains(y) {
            assert(!segments(files, name).contains(y));
            if segment_filename(y) == f {
                lemma_filename_injective(y, x);
            }
            assert(one[0] == y);
        }
    }
    lemma_segments_unique(one, segs, name);
    assert(segs.drop_last() =~= Seq::<SegmentView>::empty());
    assert(parse_stream(none, 0) == (Seq::<(int, RecordView)>::empty(), None::<StoreError>));
    let nothing = Map::<Seq<char>, IndexEntry>::empty();
    assert(load_segments(mid, segs.drop_last()) == Ok::<IndexMap, StoreError>(nothing));
    assert(hints_of(mid, x) is None);
    assert(mid[f] == none);
    assert(segs.last() == x);
    assert(load_segments(mid, segs) == Ok::<IndexMap, StoreError>(nothing));
}

/// A new engine in a directory without segments or a log of its name is durable.
pub proof fn lemma_durable_new(
    files: Files,
    name: Seq<char>,
    max_segment_bytes: u64,
    fsync_strategy: FSyncStrategy,
    now_ms: u64,
)
    requires
        usual(files, name),
        segments(files, name).len() == 0,
        content(files, wal_filename(name)) == Seq::<u8>::empty(),
    ensures
        durable(kv_new(files, name, max_segment_bytes, fsync_strategy, now_ms)),
{
    let s = kv_new(files, name, max_segment_bytes, fsync_strategy, now_ms);
    let x = SegmentView { name, timestamp: now_ms };
    lemma_lasting_new(files, name, max_segment_bytes, fsync_strategy, now_ms);
    lemma_wal_is_no_segment(name, now_ms);
    lemma_wal_no_hint(name, x);
    let mid = begun(files, name, now_ms);
    assert(content(mid, wal_filename(name)) == Seq::<u8>::empty());
    lemma_lasting_wal(mid, s.store, Seq::empty());
    lemma_applied_nothing(s.contents());
}

/// What is left of applying a log once some of its keys were brought over.
proof fn lemma_recovered(s: KvView, entries: Map<Seq<char>, EntryView>, keys: Seq<Seq<char>>)
    requires
        s.sound(),
        entries_within_limits(entries),
        forall|i: int| 0 <= i < keys.len() ==> entries.contains_key(#[trigger] keys[i]),
        content(kv_recovered(s, entries, keys).files, s.active_file()).len() <= u64::MAX,
    ensures
        kv_recovered(s, entries, keys).sound(),
        kv_recovered(s, entries, keys).store.name == s.store.name,
        kv_recovered(s, entries, keys).store.active == s.store.active,
        kv_recovered(s, entries, keys).contents() == applied(
            s.contents(),
            entries.restrict(Set::new(|k: Seq<char>| keys.contains(k))),
        ),
        lasting(s.files, s.store) ==> lasting(
            kv_recovered(s, entries, keys).files,
            kv_recovered(s, entries, keys).store,
        ),
    decreases keys.len(),
{
    let some = entries.restrict(Set::new(|k: Seq<char>| keys.contains(k)));
    lemma_recovered_name(s, entries, keys);
    if keys.len() == 0 {
        assert(applied(s.contents(), some) =~= s.contents());
    } else {
        let init = keys.drop_last();
        let k = keys.last();
        let e = entries[k];
        let t = kv_recovered(s, entries, init);
        let u = kv_recovered(s, entries, keys);
        let r = entry_record(k, e);
        lemma_recovered_name(s, entries, init);
        assert forall|i: int| 0 <= i < init.len() implies entries.contains_key(
            #[trigger] init[i],
        ) by {
            assert(init[i] == keys[i]);
        }
        assert(entries.contains_key(keys[keys.len() - 1]));
        lemma_recovered(s, entries, init);
        let fewer = entries.restrict(Set::new(|x: Seq<char>| init.contains(x)));
        assert forall|x: Seq<char>| #[trigger] keys.contains(x) <==> init.contains(x) || x == k by {
            if keys.contains(x) {
                let i = keys.index_of(x);
                if i < init.len() {
                    assert(init[i] == x);
                }
            }
            if init.contains(x) {
                assert(keys[init.index_of(x)] == x);
            }
            if x == k {
                assert(keys[keys.len() - 1] == x);
            }
        }
        assert(some =~= fewer.insert(k, e));
        if e.value is Some {
            lemma_sound_written(
                t.files,
                t.store.name,
                t.store.index,
                next_place(t, record_len(r)),
                r,
            );
        } else {
            lemma_sound_appended(
                t.files,
                t.active_file(),
                encoded(r),
                t.store.name,
                t.store.index,
            );
            lemma_sound_removed(u.files, t.store.name, t.store.index, k);
        }
        lemma_applied_written(s.contents(), s.contents(), fewer, k, e);
        if lasting(s.files, s.store) {
            lemma_lasting_written(t.files, t.store, r, u.store);
        }
    }
}

proof fn lemma_recovered_name(s: KvView, entries: Map<Seq<char>, EntryView>, keys: Seq<Seq<char>>)
    ensures
        kv_recovered(s, entries, keys).store.name == s.store.name,
        kv_recovered(s, entries, keys).store.active == s.store.active,
    decreases keys.len(),
{
    if keys.len() > 0 {
        lemma_recovered_name(s, entries, keys.drop_last());
    }
}

/// An engine whose segments last is reopened with what its log says added to what it
/// held: what was logged and did not reach a segment is there again. It is then durable.
pub proof fn lemma_recovers(
    files: Files,
    s: StoreView,
    t: KvView,
    max_segment_bytes: u64,
    fsync_strategy: FSyncStrategy,
)
    requires
        lasting(files, s),
        kv_loaded(files, s.name, max_segment_bytes, fsync_strategy) == Ok::<
            Option<KvView>,
            StoreError,
        >(Some(t)),
        files_fit(t.files),
    ensures
        t.sound(),
        t.contents() == applied(
            contents_at(files, s.name, s.index),
            (replayed(content(files, wal_filename(s.name)))->Ok_0).entries,
        ),
        durable(t),
{
    let name = s.name;
    let segs = segments(files, name);
    let index = load_segments(files, segs)->Ok_0;
    let wal = content(files, wal_filename(name));
    let m = (replayed(wal)->Ok_0).entries;
    let ks = keys_in_order(m);
    let start = crate::kvengine::kv_from_segments(
        files,
        name,
        index,
        max_segment_bytes,
        fsync_strategy,
    );
    let u = kv_recovered(start, m, ks);
    lemma_touched(files, wal_filename(name));
    lemma_sound_appended(files, wal_filename(name), Seq::empty(), name, index);
    lemma_replayed_limits(wal);
    lemma_replayed_orderable(wal);
    lemma_orderable(m);
    assert forall|i: int| 0 <= i < ks.len() implies m.contains_key(#[trigger] ks[i]) by {
        assert(ks.contains(ks[i]));
    }
    lemma_wal_is_no_segment(name, start.store.active);
    assert(content(t.files, start.active_file()) == content(u.files, start.active_file()));
    lemma_recovered(start, m, ks);
    assert(m.restrict(Set::new(|k: Seq<char>| ks.contains(k))) =~= m);
    lemma_sound_wal(u.files, name, u.store.index, Seq::empty());
    lemma_lasting_reopened(files, s, start.store);
    lemma_lasting_wal(files, start.store, wal);
    lemma_lasting_wal(u.files, u.store, Seq::empty());
    lemma_applied_nothing(t.contents());
}

/// A record of the log that was broken off is as one that was never begun: what the log
/// gives back is what it gave back before.
pub proof fn lemma_log_torn(log: Seq<u8>, r: RecordView, n: int)
    requires
        parse_stream(log, 0).1 is None,
        within_limits(r),
        0 <= n < encoded(r).len(),
    ensures
        replayed(log + encoded(r).take(n)) == replayed(log),
{
    crate::record::lemma_torn(log, r, n);
}

/// A durable engine that is reopened holds what it held, and is durable.
pub proof fn lemma_reopened(
    s: KvView,
    t: KvView,
    max_segment_bytes: u64,
    fsync_strategy: FSyncStrategy,
)
    requires
        durable(s),
        kv_loaded(s.files, s.store.name, max_segment_bytes, fsync_strategy) == Ok::<
            Option<KvView>,
            StoreError,
        >(Some(t)),
        files_fit(t.files),
    ensures
        t.sound(),
        t.contents() == s.contents(),
        durable(t),
{
    lemma_recovers(s.files, s.store, t, max_segment_bytes, fsync_strategy);
}

/// A durable engine can be reopened.
pub proof fn lemma_reopens(s: KvView, max_segment_bytes: u64, fsync_strategy: FSyncStrategy)
    requires
        durable(s),
    ensures
        match kv_loaded(s.files, s.store.name, max_segment_bytes, fsync_strategy) {
            Ok(Some(_)) => true,
            _ => false,
        },
{
}

/// Whether the files `f` come from the files `from` by a compaction that has written the
/// segments of the timestamps from `start` to `last`, where `index` says what stands in
/// them.
spec fn copying(
    from: Files,
    name: Seq<char>,
    start: u64,
    f: Files,
    last: u64,
    index: IndexMap,
) -> bool {
    &&& start <= last
    &&& orderable(f)
    &&& orderable(index)
    &&& forall|n: Seq<char>| #[trigger]
        f.contains_key(n) ==> from.contains_key(n) || n == wal_filename(name) || exists|ts: u64|
            start <= ts <= last && n == #[trigger] segment_file(name, ts)
    &&& forall|ts: u64|
        start <= ts <= last || from.contains_key(#[trigger] segment_file(name, ts))
            ==> f.contains_key(segment_file(name, ts))
    &&& forall|k: Seq<char>| #[trigger]
        index.contains_key(k) ==> start <= index[k].segment_timestamp <= last && byte_len(k)
            <= MAX_KEY_SIZE
}

/// A compaction that begins its first segment.
proof fn lemma_copying_begun(from: Files, name: Seq<char>, start: u64)
    requires
        orderable(from),
    ensures
        copying(from, name, start, begun(from, name, start), start, Map::empty()),
{
    let x = SegmentView { name, timestamp: start };
    let f = begun(from, name, start);
    let file = segment_file(name, start);
    lemma_orderable_insert(from, file, content(from, file));
    lemma_orderable_remove(touched(from, file), segment_hint_filename(x));
    assert(keys_of(Map::<Seq<char>, IndexEntry>::empty(), Seq::<Seq<char>>::empty()));
    lemma_kept_begun(from, name, start);
    lemma_begun(from, name, start);
    assert forall|n: Seq<char>| #[trigger] f.contains_key(n) implies from.contains_key(n) || n
        == wal_filename(name) || exists|ts: u64|
        start <= ts <= start && n == #[trigger] segment_file(name, ts) by {
        if n != file {
            assert(from.contains_key(n));
        }
    }
}

/// A compaction that writes one more record, to its last segment or to the next.
proof fn lemma_copying_next(
    from: Files,
    name: Seq<char>,
    start: u64,
    f: Files,
    last: u64,
    index: IndexMap,
    f2: Files,
    last2: u64,
    key: Seq<char>,
    e: IndexEntry,
)
    requires
        copying(from, name, start, f, last, index),
        last2 == last || last2 == last + 1,
        orderable(f2),
        forall|n: Seq<char>| #[trigger]
            f2.contains_key(n) ==> f.contains_key(n) || n == wal_filename(name) || n
                == segment_file(name, last2),
        forall|ts: u64|
            ts == last2 || f.contains_key(#[trigger] segment_file(name, ts)) ==> f2.contains_key(
                segment_file(name, ts),
            ),
        e.segment_timestamp == last2,
        byte_len(key) <= MAX_KEY_SIZE,
    ensures
        copying(from, name, start, f2, last2, index.insert(key, e)),
{
    lemma_orderable_insert(index, key, e);
    assert forall|n: Seq<char>| #[trigger] f2.contains_key(n) implies from.contains_key(n) || n
        == wal_filename(name) || exists|ts: u64|
        start <= ts <= last2 && n == #[trigger] segment_file(name, ts) by {
        if f.contains_key(n) {
            if !from.contains_key(n) && n != wal_filename(name) {
                let ts = choose|ts: u64|
                    start <= ts <= last && n == #[trigger] segment_file(name, ts);
                assert(start <= ts <= last2 && n == segment_file(name, ts));
            }
        } else {
            assert(n == wal_filename(name) || n == segment_file(name, last2));
        }
    }
}

/// What a compaction of the engine has written.
proof fn lemma_copied_shape(
    from: Files,
    start: u64,
    t: KvView,
    index: IndexMap,
    keys: Seq<Seq<char>>,
    now_ms: u64,
)
    requires
        copying(from, t.store.name, start, t.files, t.store.active, t.store.index),
        t.store.active == start,
        now_ms <= start,
        start + keys.len() < u64::MAX,
    ensures
        ({
            let u = kv_copied(t, index, keys, now_ms).0;
            &&& u.store.name == t.store.name
            &&& u.store.active <= start + keys.len()
            &&& copying(from, t.store.name, start, u.files, u.store.active, u.store.index)
        }),
    decreases keys.len(),
{
    if keys.len() > 0 {
        lemma_copied_shape(from, start, t, index, keys.drop_last(), now_ms);
        let (u, end) = kv_copied(t, index, keys.drop_last(), now_ms);
        let k = keys.last();
        if end is None {
            if let Ok(Some(r)) = find(u.files, u.store.name, index, k) {
                if byte_len(k) <= MAX_KEY_SIZE {
                    let r2 = record_of(k, r.value, r.expiry_ms);
                    let name = t.store.name;
                    let p = kv_put(u, r2, now_ms);
                    let s1 = KvView { files: appended(u.files, u.wal(), encoded(r2)), ..u };
                    let s2 = kv_logged(u, r2, now_ms);
                    let next = next_stamp(u.store.active, now_ms);
                    let e = next_place(s2, record_len(r2));
                    lemma_orderable_insert(
                        u.files,
                        u.wal(),
                        content(u.files, u.wal()) + encoded(r2),
                    );
                    let g = segment_file(name, next);
                    lemma_orderable_insert(s1.files, g, content(s1.files, g));
                    lemma_orderable_remove(
                        touched(s1.files, g),
                        segment_hint_filename(SegmentView { name, timestamp: next }),
                    );
                    lemma_orderable_insert(begun(s1.files, name, next), u.wal(), Seq::empty());
                    lemma_orderable_insert(
                        s2.files,
                        s2.active_file(),
                        content(s2.files, s2.active_file()) + encoded(r2),
                    );
                    lemma_kept_begun(s1.files, name, next);
                    assert(p.store.index == u.store.index.insert(k, e));
                    lemma_copying_next(
                        from,
                        name,
                        start,
                        u.files,
                        u.store.active,
                        u.store.index,
                        p.files,
                        p.store.active,
                        k,
                        e,
                    );
                }
            }
        }
    }
}

/// Which segments are left besides the old ones.
proof fn lemma_besides(all: Seq<SegmentView>, old_segments: Seq<SegmentView>)
    requires
        all.no_duplicates(),
    ensures
        segments_besides(all, old_segments).no_duplicates(),
        forall|x: SegmentView| #[trigger]
            segments_besides(all, old_segments).contains(x) <==> all.contains(x) && !exists|i: int|
                0 <= i < old_segments.len() && (#[trigger] old_segments[i]).timestamp
                    == x.timestamp,
    decreases all.len(),
{
    if all.len() > 0 {
        let init = all.drop_last();
        let y = all.last();
        assert forall|i: int, j: int| 0 <= i < init.len() && 0 <= j < init.len() && i != j implies init[i]
            != init[j] by {
            assert(all[i] != all[j]);
        }
        lemma_besides(init, old_segments);
        let before = segments_besides(init, old_segments);
        let out = segments_besides(all, old_segments);
        assert(!init.contains(y)) by {
            if init.contains(y) {
                let i = init.index_of(y);
                assert(all[i] != all[all.len() - 1]);
            }
        }
        assert(!before.contains(y));
        assert(out.no_duplicates()) by {
            assert forall|i: int, j: int|
                0 <= i < out.len() && 0 <= j < out.len() && i != j implies out[i] != out[j] by {
                if i == before.len() {
                    assert(before.contains(before[j]));
                }
                if j == before.len() {
                    assert(before.contains(before[i]));
                }
            }
        }
        assert forall|x: SegmentView| #[trigger] out.contains(x) <==> all.contains(x) && !exists|
            i: int,
        |
            0 <= i < old_segments.len() && (#[trigger] old_segments[i]).timestamp
                == x.timestamp by {
            if out.contains(x) {
                let i = out.index_of(x);
                if i < before.len() {
                    assert(before.contains(x));
                    assert(all[init.index_of(x)] == x);
                } else {
                    assert(all[all.len() - 1] == x);
                }
            }
            if all.contains(x) && x != y {
                let i = all.index_of(x);
                assert(init[i] == x);
                assert(before.contains(x) == segments_besides(init, old_segments).contains(x));
            }
            if before.contains(x) {
                assert(out[before.index_of(x)] == x);
            }
            if out.len() > before.len() {
                assert(out[before.len() as int] == y);
            }
        }
    }
}

/// Removing segments removes their files and hint files, and nothing else.
proof fn lemma_without(files: Files, segs: Seq<SegmentView>)
    requires
        without_segments(files, segs).1 is None,
        orderable(files),
    ensures
        ({
            let left = without_segments(files, segs).0;
            &&& orderable(left)
            &&& forall|n: Seq<char>| #[trigger] left.contains_key(n) ==> files.contains_key(n)
            &&& forall|i: int|
                0 <= i < segs.len() ==> !left.contains_key(segment_filename(#[trigger] segs[i]))
            &&& forall|n: Seq<char>|
                (forall|i: int|
                    0 <= i < segs.len() ==> n != segment_filename(#[trigger] segs[i]) && n
                        != segment_hint_filename(segs[i])) ==> (#[trigger] left.contains_key(n)
                    <==> files.contains_key(n)) && content(left, n) == content(files, n)
        }),
    decreases segs.len(),
{
    if segs.len() > 0 {
        let init = segs.drop_last();
        let x = segs.last();
        lemma_without(files, init);
        let before = without_segments(files, init).0;
        let left = without_segments(files, segs).0;
        lemma_orderable_remove(before, segment_filename(x));
        lemma_orderable_remove(before.remove(segment_filename(x)), segment_hint_filename(x));
        assert forall|i: int| 0 <= i < segs.len() implies !left.contains_key(
            segment_filename(#[trigger] segs[i]),
        ) by {
            if i < init.len() {
                assert(init[i] == segs[i]);
            }
        }
        assert forall|n: Seq<char>|
            (forall|i: int|
                0 <= i < segs.len() ==> n != segment_filename(#[trigger] segs[i]) && n
                    != segment_hint_filename(segs[i])) implies (#[trigger] left.contains_key(n)
            <==> files.contains_key(n)) && content(left, n) == content(files, n) by {
            assert(n != segment_filename(segs[segs.len() - 1]));
            assert forall|i: int| 0 <= i < init.len() implies n != segment_filename(
                #[trigger] init[i],
            ) && n != segment_hint_filename(init[i]) by {
                assert(init[i] == segs[i]);
            }
            assert(before.contains_key(n) <==> files.contains_key(n));
        }
    }
}

/// The index that hints of a segment give back, up to the sizes of the records.
proof fn lemma_index_hints(m: IndexMap, index: IndexMap, keys: Seq<Seq<char>>, timestamp: u64)
    requires
        forall|i: int| 0 <= i < keys.len() ==> byte_len(#[trigger] keys[i]) <= MAX_KEY_SIZE,
    ensures
        ({
            let hints = hints_for(index, keys, timestamp);
            let back = index_hints(m, hints, timestamp);
            &&& forall|i: int| 0 <= i < hints.len() ==> (#[trigger] hints[i]).sized()
            &&& forall|k: Seq<char>| #[trigger]
                back.contains_key(k) <==> m.contains_key(k) || keys.contains(k)
                    && index[k].segment_timestamp == timestamp
            &&& forall|k: Seq<char>| #[trigger]
                back.contains_key(k) ==> back[k] == if keys.contains(k)
                    && index[k].segment_timestamp == timestamp {
                    (IndexEntry { record_size: 0, ..index[k] })
                } else {
                    m[k]
                }
        }),
    decreases keys.len(),
{
    let hints = hints_for(index, keys, timestamp);
    let back = index_hints(m, hints, timestamp);
    if keys.len() > 0 {
        let init = keys.drop_last();
        let k0 = keys.last();
        assert forall|i: int| 0 <= i < init.len() implies byte_len(#[trigger] init[i])
            <= MAX_KEY_SIZE by {
            assert(init[i] == keys[i]);
        }
        lemma_index_hints(m, index, init, timestamp);
        assert(byte_len(keys[keys.len() - 1]) <= MAX_KEY_SIZE);
        let before = hints_for(index, init, timestamp);
        let fewer = index_hints(m, before, timestamp);
        if index[k0].segment_timestamp == timestamp {
            assert(hints.drop_last() =~= before);
            assert(hints.last().key == k0);
            assert(back == fewer.insert(k0, IndexEntry { record_size: 0, ..index[k0] }));
        }
        assert forall|k: Seq<char>| #[trigger] keys.contains(k) <==> init.contains(k) || k == k0 by {
            if keys.contains(k) {
                let i = keys.index_of(k);
                if i < init.len() {
                    assert(init[i] == k);
                }
            }
            if init.contains(k) {
                assert(keys[init.index_of(k)] == k);
            }
            if k == k0 {
                assert(keys[keys.len() - 1] == k);
            }
        }
    }
}

/// Segments with the hints of an index give back the keys that stand in them.
proof fn lemma_load_hinted(files: Files, index: IndexMap, segs: Seq<SegmentView>)
    requires
        orderable(index),
        forall|k: Seq<char>| #[trigger] index.contains_key(k) ==> byte_len(k) <= MAX_KEY_SIZE,
        forall|i: int|
            0 <= i < segs.len() ==> files.contains_key(segment_filename(#[trigger] segs[i]))
                && files.contains_key(segment_hint_filename(segs[i])) && content(
                files,
                segment_hint_filename(segs[i]),
            ) == hint_file(hints_for(index, keys_in_order(index), segs[i].timestamp)),
    ensures
        match load_segments(files, segs) {
            Ok(back) => forall|k: Seq<char>|
                {
                    &&& #[trigger] back.contains_key(k) <==> index.contains_key(k) && exists|i: int|
                        0 <= i < segs.len() && (#[trigger] segs[i]).timestamp
                            == index[k].segment_timestamp
                    &&& back.contains_key(k) ==> back[k] == (IndexEntry {
                        record_size: 0,
                        ..index[k]
                    })
                },
            Err(_) => false,
        },
    decreases segs.len(),
{
    if segs.len() > 0 {
        let init = segs.drop_last();
        let x = segs.last();
        let ks = keys_in_order(index);
        assert forall|i: int| 0 <= i < init.len() implies files.contains_key(
            segment_filename(#[trigger] init[i]),
        ) && files.contains_key(segment_hint_filename(init[i])) && content(
            files,
            segment_hint_filename(init[i]),
        ) == hint_file(hints_for(index, ks, init[i].timestamp)) by {
            assert(init[i] == segs[i]);
        }
        lemma_load_hinted(files, index, init);
        assert(files.contains_key(segment_filename(segs[segs.len() - 1])));
        lemma_orderable(index);
        assert forall|i: int| 0 <= i < ks.len() implies byte_len(#[trigger] ks[i])
            <= MAX_KEY_SIZE by {
            assert(ks.contains(ks[i]));
            assert(index.contains_key(ks[i]));
        }
        let m = load_segments(files, init)->Ok_0;
        let hints = hints_for(index, ks, x.timestamp);
        lemma_index_hints(m, index, ks, x.timestamp);
        lemma_hint_file_roundtrip(hints);
        assert(hints_of(files, x) == Some(hints));
        let back = index_hints(m, hints, x.timestamp);
        assert(load_segments(files, segs) == Ok::<IndexMap, StoreError>(back));
        assert forall|k: Seq<char>|
            {
                &&& #[trigger] back.contains_key(k) <==> index.contains_key(k) && exists|i: int|
                    0 <= i < segs.len() && (#[trigger] segs[i]).timestamp
                        == index[k].segment_timestamp
                &&& back.contains_key(k) ==> back[k] == (IndexEntry {
                    record_size: 0,
                    ..index[k]
                })
            } by {
            assert(index.contains_key(k) <==> ks.contains(k));
            assert(m.contains_key(k) <==> index.contains_key(k) && exists|i: int|
                0 <= i < init.len() && (#[trigger] init[i]).timestamp
                    == index[k].segment_timestamp);
            if index.contains_key(k) {
                if index[k].segment_timestamp == x.timestamp {
                    assert(segs[segs.len() - 1].timestamp == index[k].segment_timestamp);
                }
                if m.contains_key(k) {
                    let i = choose|i: int|
                        0 <= i < init.len() && (#[trigger] init[i]).timestamp
                            == index[k].segment_timestamp;
                    assert(segs[i].timestamp == index[k].segment_timestamp);
                }
                if exists|i: int|
                    0 <= i < segs.len() && (#[trigger] segs[i]).timestamp
                        == index[k].segment_timestamp {
                    let i = choose|i: int|
                        0 <= i < segs.len() && (#[trigger] segs[i]).timestamp
                            == index[k].segment_timestamp;
                    if i < init.len() {
                        assert(init[i].timestamp == index[k].segment_timestamp);
                    }
                }
            }
        }
    }
}

/// What hint files are there once those of some segments were written.
proof fn lemma_with_hints(files: Files, index: IndexMap, segs: Seq<SegmentView>)
    requires
        segs.no_duplicates(),
        orderable(files),
    ensures
        ({
            let after = with_hints(files, index, segs);
            &&& orderable(after)
            &&& forall|i: int|
                0 <= i < segs.len() ==> after.contains_key(
                    segment_hint_filename(#[trigger] segs[i]),
                ) && content(after, segment_hint_filename(segs[i])) == hint_file(
                    hints_for(index, keys_in_order(index), segs[i].timestamp),
                )
            &&& forall|n: Seq<char>| #[trigger]
                after.contains_key(n) ==> files.contains_key(n) || exists|i: int|
                    0 <= i < segs.len() && n == segment_hint_filename(#[trigger] segs[i])
            &&& forall|x: SegmentView|
                (after.contains_key(#[trigger] segment_filename(x)) <==> files.contains_key(
                    segment_filename(x),
                )) && content(after, segment_filename(x)) == content(files, segment_filename(x))
        }),
    decreases segs.len(),
{
    if segs.len() > 0 {
        let init = segs.drop_last();
        let y = segs.last();
        let h = segment_hint_filename(y);
        assert forall|i: int, j: int| 0 <= i < init.len() && 0 <= j < init.len() && i != j implies init[i]
            != init[j] by {
            assert(segs[i] != segs[j]);
        }
        lemma_with_hints(files, index, init);
        let before = with_hints(files, index, init);
        let data = hint_file(hints_for(index, keys_in_order(index), y.timestamp));
        let after = before.insert(h, data);
        lemma_orderable_insert(before, h, data);
        assert forall|i: int| 0 <= i < segs.len() implies after.contains_key(
            segment_hint_filename(#[trigger] segs[i]),
        ) && content(after, segment_hint_filename(segs[i])) == hint_file(
            hints_for(index, keys_in_order(index), segs[i].timestamp),
        ) by {
            if i < init.len() {
                assert(init[i] == segs[i]);
                assert(segs[i] != segs[segs.len() - 1]);
                if segment_hint_filename(segs[i]) == h {
                    lemma_hint_filename_injective(segs[i], y);
                }
            }
        }
        assert forall|n: Seq<char>| #[trigger] after.contains_key(n) implies files.contains_key(n)
            || exists|i: int|
            0 <= i < segs.len() && n == segment_hint_filename(#[trigger] segs[i]) by {
            if n == h {
                assert(n == segment_hint_filename(segs[segs.len() - 1]));
            } else if !files.contains_key(n) {
                assert(before.contains_key(n));
                let i = choose|i: int|
                    0 <= i < init.len() && n == segment_hint_filename(#[trigger] init[i]);
                assert(n == segment_hint_filename(segs[i]));
            }
        }
        assert forall|x: SegmentView|
            (after.contains_key(#[trigger] segment_filename(x)) <==> files.contains_key(
                segment_filename(x),
            )) && content(after, segment_filename(x)) == content(files, segment_filename(x)) by {
            lemma_filename_no_hint(x, y);
        }
    }
}

/// The segments that a compaction has added.
proof fn lemma_fresh_segments(
    from: Files,
    name: Seq<char>,
    start: u64,
    f: Files,
    last: u64,
    index: IndexMap,
)
    requires
        usual(from, name),
        copying(from, name, start, f, last, index),
        forall|i: int|
            0 <= i < segments(from, name).len() ==> (#[trigger] segments(from, name)[i]).timestamp
                < start,
    ensures
        usual(f, name),
        ({
            let fresh = segments_besides(segments(f, name), segments(from, name));
            &&& fresh.no_duplicates()
            &&& forall|y: SegmentView| #[trigger]
                fresh.contains(y) <==> y.name == name && start <= y.timestamp <= last
        }),
{
    let old_segs = segments(from, name);
    lemma_segments(from, name);
    lemma_orderable(from);
    lemma_orderable(f);
    let names = keys_in_order(f);
    let ks = keys_in_order(from);
    assert forall|i: int| 0 <= i < names.len() implies match parse_segment(#[trigger] names[i]) {
        Some(y) => y.name == name ==> names[i] == segment_filename(y),
        None => true,
    } by {
        assert(names.contains(names[i]));
        assert(f.contains_key(names[i]));
        if from.contains_key(names[i]) {
            assert(ks.contains(names[i]));
            assert(ks[ks.index_of(names[i])] == names[i]);
        } else if names[i] == wal_filename(name) {
            lemma_wal_name(name);
        } else {
            let ts = choose|ts: u64|
                start <= ts <= last && names[i] == #[trigger] segment_file(name, ts);
            lemma_parse_filename(SegmentView { name, timestamp: ts });
        }
    }
    lemma_segments(f, name);
    let all = segments(f, name);
    lemma_besides(all, old_segs);
    let fresh = segments_besides(all, old_segs);
    assert forall|y: SegmentView| #[trigger] fresh.contains(y) <==> y.name == name && start
        <= y.timestamp <= last by {
        if y.name == name && start <= y.timestamp <= last {
            assert(f.contains_key(segment_file(name, y.timestamp)));
            assert(segment_file(name, y.timestamp) == segment_filename(y));
            assert(all.contains(y));
        }
        if fresh.contains(y) {
            assert(all.contains(y));
            let n = segment_filename(y);
            assert(f.contains_key(n));
            if from.contains_key(n) {
                assert(old_segs.contains(y));
                assert(old_segs[old_segs.index_of(y)].timestamp == y.timestamp);
            } else {
                lemma_wal_is_no_segment(name, y.timestamp);
                assert(n == segment_file(name, y.timestamp));
                let ts = choose|ts: u64|
                    start <= ts <= last && n == #[trigger] segment_file(name, ts);
                lemma_filename_injective(y, SegmentView { name, timestamp: ts });
            }
        }
    }
}

/// Where a compaction has written hint files for what it copied, begun a segment that
/// is later still, and removed the old segments, what is left lasts. The log does not
/// matter.
proof fn lemma_lasting_left(
    from: Files,
    start: u64,
    f: Files,
    last: u64,
    next: u64,
    w: Files,
    left: Files,
    z: StoreView,
)
    requires
        usual(from, z.name),
        copying(from, z.name, start, f, last, z.index),
        forall|i: int|
            0 <= i < segments(from, z.name).len() ==> (#[trigger] segments(
                from,
                z.name,
            )[i]).timestamp < start,
        next > last,
        z.active == next,
        ({
            let fresh = segments_besides(segments(f, z.name), segments(from, z.name));
            let v = begun(with_hints(f, z.index, fresh), z.name, next);
            &&& orderable(w)
            &&& forall|n: Seq<char>|
                n != wal_filename(z.name) ==> (#[trigger] w.contains_key(n) <==> v.contains_key(n))
                    && content(w, n) == content(v, n)
        }),
        without_segments(w, segments(from, z.name)) == (left, None::<StoreError>),
        sound(left, z.name, z.index),
    ensures
        lasting(left, z),
        forall|y: SegmentView| #[trigger]
            segments(left, z.name).contains(y) ==> y.name == z.name && (start <= y.timestamp <= last
                && content(left, segment_filename(y)) == content(f, segment_filename(y)) || content(
                left,
                segment_filename(y),
            ) == Seq::<u8>::empty()),
{
    let name = z.name;
    let index = z.index;
    let wal = wal_filename(name);
    let old_segs = segments(from, name);
    let fresh = segments_besides(segments(f, name), old_segs);
    let hinted = with_hints(f, index, fresh);
    let x = SegmentView { name, timestamp: next };
    let v = begun(hinted, name, next);
    let none = Seq::<u8>::empty();
    lemma_segments(from, name);
    lemma_fresh_segments(from, name, start, f, last, index);
    lemma_segments(f, name);
    lemma_with_hints(f, index, fresh);
    lemma_without(w, old_segs);
    lemma_orderable(left);
    lemma_orderable(f);
    lemma_filename_no_hint(x, x);
    let names = keys_in_order(left);
    let ks = keys_in_order(f);
    assert forall|i: int| 0 <= i < names.len() implies match parse_segment(#[trigger] names[i]) {
        Some(y) => y.name == name ==> names[i] == segment_filename(y),
        None => true,
    } by {
        let n = names[i];
        assert(names.contains(n));
        assert(left.contains_key(n));
        assert(w.contains_key(n));
        if n == wal {
            lemma_wal_name(name);
        } else {
            assert(v.contains_key(n));
            if n == segment_filename(x) {
                lemma_parse_filename(x);
            } else if f.contains_key(n) {
                assert(ks.contains(n));
                assert(ks[ks.index_of(n)] == n);
            } else {
                assert(hinted.contains_key(n));
                let j = choose|j: int|
                    0 <= j < fresh.len() && n == segment_hint_filename(#[trigger] fresh[j]);
                lemma_hint_name(fresh[j]);
            }
        }
    }
    // What is left of the segments.
    lemma_segments(left, name);
    let segs = segments(left, name);
    assert forall|y: SegmentView| y.name == name && y.timestamp >= start implies {
        &&& #[trigger] left.contains_key(segment_filename(y)) <==> v.contains_key(
            segment_filename(y),
        )
        &&& content(left, segment_filename(y)) == content(v, segment_filename(y))
        &&& left.contains_key(segment_hint_filename(y)) <==> v.contains_key(
            segment_hint_filename(y),
        )
        &&& content(left, segment_hint_filename(y)) == content(v, segment_hint_filename(y))
    } by {
        let g = segment_filename(y);
        let h = segment_hint_filename(y);
        lemma_wal_is_no_segment(name, y.timestamp);
        lemma_wal_no_hint(name, y);
        assert forall|i: int| 0 <= i < old_segs.len() implies g != segment_filename(
            #[trigger] old_segs[i],
        ) && g != segment_hint_filename(old_segs[i]) && h != segment_filename(old_segs[i]) && h
            != segment_hint_filename(old_segs[i]) by {
            let o = old_segs[i];
            assert(o.timestamp < start);
            if g == segment_filename(o) {
                lemma_filename_injective(y, o);
            }
            if h == segment_hint_filename(o) {
                lemma_hint_filename_injective(y, o);
            }
            lemma_filename_no_hint(y, o);
            lemma_filename_no_hint(o, y);
        }
        assert(left.contains_key(g) <==> w.contains_key(g));
        assert(left.contains_key(h) <==> w.contains_key(h));
    }
    assert forall|y: SegmentView| #[trigger] segs.contains(y) <==> y.name == name && (start
        <= y.timestamp <= last || y.timestamp == next) by {
        let g = segment_filename(y);
        if y.name == name {
            lemma_wal_is_no_segment(name, y.timestamp);
            lemma_filename_no_hint(y, x);
            assert(g == segment_file(name, y.timestamp));
            assert(hinted.contains_key(g) <==> f.contains_key(g));
            if y.timestamp < start {
                if left.contains_key(g) {
                    assert(w.contains_key(g));
                    assert(v.contains_key(g));
                    if g == segment_filename(x) {
                        lemma_filename_injective(y, x);
                    }
                    assert(f.contains_key(g));
                    if from.contains_key(g) {
                        assert(old_segs.contains(y));
                        assert(!left.contains_key(
                            segment_filename(old_segs[old_segs.index_of(y)]),
                        ));
                    } else {
                        let ts = choose|ts: u64|
                            start <= ts <= last && g == #[trigger] segment_file(name, ts);
                        lemma_filename_injective(y, SegmentView { name, timestamp: ts });
                    }
                }
            } else {
                assert(left.contains_key(g) <==> v.contains_key(g));
                if y.timestamp == next {
                    assert(y == x);
                    assert(v.contains_key(g));
                } else {
                    if g == segment_filename(x) {
                        lemma_filename_injective(y, x);
                    }
                    assert(v.contains_key(g) <==> f.contains_key(g));
                    if y.timestamp <= last {
                        assert(f.contains_key(segment_file(name, y.timestamp)));
                    } else if f.contains_key(g) {
                        if from.contains_key(g) {
                            assert(old_segs.contains(y));
                            assert(old_segs[old_segs.index_of(y)].timestamp == y.timestamp);
                        } else {
                            let ts = choose|ts: u64|
                                start <= ts <= last && g == #[trigger] segment_file(name, ts);
                            lemma_filename_injective(y, SegmentView { name, timestamp: ts });
                        }
                    }
                }
            }
        }
    }
    assert(segs.contains(x));
    let at = segs.index_of(x);
    let top = segs[segs.len() - 1];
    assert(segs.contains(top));
    assert(segs[at].timestamp <= top.timestamp);
    assert(segs.last() == x);
    let init = segs.drop_last();
    assert forall|i: int| 0 <= i < init.len() implies {
        &&& left.contains_key(segment_filename(#[trigger] init[i]))
        &&& left.contains_key(segment_hint_filename(init[i]))
        &&& content(left, segment_hint_filename(init[i])) == hint_file(
            hints_for(index, keys_in_order(index), init[i].timestamp),
        )
    } by {
        let y = segs[i];
        assert(segs.contains(y));
        assert(segs[i] != segs[segs.len() - 1]);
        assert(fresh.contains(y));
        let j = fresh.index_of(y);
        assert(hinted.contains_key(segment_hint_filename(fresh[j])));
        lemma_filename_no_hint(x, y);
        if segment_hint_filename(y) == segment_hint_filename(x) {
            lemma_hint_filename_injective(y, x);
        }
        assert(left.contains_key(segment_filename(y)) <==> v.contains_key(segment_filename(y)));
        assert(v.contains_key(segment_hint_filename(y)));
    }
    lemma_load_hinted(left, index, init);
    assert forall|y: SegmentView| #[trigger] segs.contains(y) && y.timestamp != next implies content(
        left,
        segment_filename(y),
    ) == content(f, segment_filename(y)) by {
        assert(left.contains_key(segment_filename(y)) <==> v.contains_key(segment_filename(y)));
        if segment_filename(y) == segment_filename(x) {
            lemma_filename_injective(y, x);
        }
        lemma_filename_no_hint(y, x);
        assert(content(hinted, segment_filename(y)) == content(f, segment_filename(y)));
    }
    let back = load_segments(left, init)->Ok_0;
    // The segment that is written to is empty.
    assert(left.contains_key(segment_filename(x)) <==> v.contains_key(segment_filename(x)));
    assert(!v.contains_key(segment_hint_filename(x)));
    assert(hints_of(left, x) is None);
    if f.contains_key(segment_filename(x)) {
        assert(segment_filename(x) == segment_file(name, next));
        lemma_wal_is_no_segment(name, next);
        if from.contains_key(segment_filename(x)) {
            assert(old_segs.contains(x));
            assert(old_segs[old_segs.index_of(x)].timestamp == next);
        } else {
            let ts = choose|ts: u64|
                start <= ts <= last && segment_filename(x) == #[trigger] segment_file(name, ts);
            lemma_filename_injective(x, SegmentView { name, timestamp: ts });
        }
    }
    assert(content(hinted, segment_filename(x)) == none);
    lemma_touched(hinted, segment_filename(x));
    assert(left[segment_filename(x)] == none);
    assert(parse_stream(none, 0) == (Seq::<(int, RecordView)>::empty(), None::<StoreError>));
    assert(load_segments(left, segs) == Ok::<IndexMap, StoreError>(back));
    assert forall|k: Seq<char>| #[trigger] back.contains_key(k) <==> index.contains_key(k) by {
        if index.contains_key(k) {
            let y = SegmentView { name, timestamp: index[k].segment_timestamp };
            assert(segs.contains(y));
            let i = segs.index_of(y);
            assert(i != segs.len() - 1);
            assert(init[i].timestamp == index[k].segment_timestamp);
        }
    }
    assert forall|k: Seq<char>| #[trigger] back.contains_key(k) implies entry_sound(
        left,
        name,
        k,
        back[k],
    ) && live_at(left, name, back[k]) == live_at(left, name, index[k]) by {
        assert(entry_sound(left, name, k, index[k]));
    }
    assert(contents_at(left, name, back) =~= contents_at(left, name, index));
}

/// What a compaction that succeeds leaves of a directory whose files had the usual names.
proof fn lemma_compaction_left(s: KvView, now_ms: u64)
    requires
        usual(s.files, s.store.name),
        kv_compactable(s, now_ms),
        kv_compacted(s, now_ms).1 is None,
        kv_compacted(s, now_ms).0.sound(),
    ensures
        durable(kv_compacted(s, now_ms).0),
        ({
            let name = s.store.name;
            let old_segs = segments(s.files, name);
            let start = first_stamp(old_segs, now_ms);
            let t = kv_new(
                s.files,
                name,
                s.store.max_segment_bytes,
                s.store.fsync_strategy,
                start,
            );
            let u = kv_copied(t, s.store.index, keys_in_order(s.store.index), now_ms).0;
            let left = kv_compacted(s, now_ms).0.files;
            &&& now_ms <= start
            &&& copying(s.files, name, start, t.files, start, t.store.index)
            &&& forall|i: int| 0 <= i < old_segs.len() ==> (#[trigger] old_segs[i]).timestamp < start
            &&& forall|y: SegmentView| #[trigger]
                segments(left, name).contains(y) ==> y.name == name && (start <= y.timestamp
                    <= u.store.active && content(left, segment_filename(y)) == content(
                    u.files,
                    segment_filename(y),
                ) || content(left, segment_filename(y)) == Seq::<u8>::empty())
        }),
{
    let name = s.store.name;
    let old_segs = segments(s.files, name);
    let start = first_stamp(old_segs, now_ms);
    let t = kv_new(
        s.files,
        name,
        s.store.max_segment_bytes,
        s.store.fsync_strategy,
        start,
    );
    let u = kv_copied(t, s.store.index, keys_in_order(s.store.index), now_ms).0;
    let z = kv_compacted(s, now_ms).0;
    lemma_segments(s.files, name);
    assert forall|i: int| 0 <= i < old_segs.len() implies (#[trigger] old_segs[i]).timestamp
        < start by {
        assert(old_segs[i].timestamp <= old_segs[old_segs.len() - 1].timestamp);
    }
    lemma_copying_begun(s.files, name, start);
    let f0 = begun(s.files, name, start);
    lemma_orderable_insert(f0, s.wal(), content(f0, s.wal()));
    assert(copying(s.files, name, start, t.files, start, t.store.index));
    lemma_copied_shape(s.files, start, t, s.store.index, keys_in_order(s.store.index), now_ms);
    let fresh = segments_besides(segments(u.files, name), old_segs);
    let next = next_stamp(u.store.active, now_ms);
    let hinted = with_hints(u.files, u.store.index, fresh);
    let v = begun(hinted, name, next);
    let w = v.insert(s.wal(), Seq::empty());
    lemma_fresh_segments(s.files, name, start, u.files, u.store.active, u.store.index);
    lemma_with_hints(u.files, u.store.index, fresh);
    let g = segment_file(name, next);
    lemma_orderable_insert(hinted, g, content(hinted, g));
    lemma_orderable_remove(
        touched(hinted, g),
        segment_hint_filename(SegmentView { name, timestamp: next }),
    );
    lemma_orderable_insert(v, s.wal(), Seq::empty());
    lemma_lasting_left(
        s.files,
        start,
        u.files,
        u.store.active,
        next,
        w,
        z.files,
        z.store,
    );
    lemma_without(w, old_segs);
    assert forall|i: int| 0 <= i < old_segs.len() implies s.wal() != segment_filename(
        #[trigger] old_segs[i],
    ) && s.wal() != segment_hint_filename(old_segs[i]) by {
        assert(old_segs.contains(old_segs[i]));
        lemma_wal_is_no_segment(name, old_segs[i].timestamp);
        lemma_wal_no_hint(name, old_segs[i]);
    }
    assert(z.files.contains_key(s.wal()) <==> w.contains_key(s.wal()));
    assert(content(z.files, z.wal()) == Seq::<u8>::empty());
    lemma_applied_nothing(z.contents());
}

/// A compaction that succeeds leaves an engine durable, where its files had the
/// usual names.
pub proof fn lemma_durable_compacted(s: KvView, now_ms: u64)
    requires
        usual(s.files, s.store.name),
        kv_compactable(s, now_ms),
        kv_compacted(s, now_ms).1 is None,
        kv_compacted(s, now_ms).0.sound(),
    ensures
        durable(kv_compacted(s, now_ms).0),
{
    lemma_compaction_left(s, now_ms);
}

/// A write to a plain store lasts.
pub proof fn lemma_lasting_put(files: Files, s: StoreView, r: RecordView, now_ms: u64)
    requires
        lasting(files, s),
        files_fit(files),
        within_limits(r),
        !r.tombstone,
    ensures
        lasting(db_put(files, s, r, now_ms).0, db_put(files, s, r, now_ms).1),
{
    let next = next_stamp(s.active, now_ms);
    let t = db_put(files, s, r, now_ms).1;
    lemma_db_put(files, s, r, now_ms);
    if must_roll(files, s, record_len(r)) {
        lemma_lasting_begun(files, s, next);
        lemma_begun(files, s.name, next);
        assert(content(begun(files, s.name, next), segment_file(s.name, next)) == content(
            files,
            segment_file(s.name, next),
        ));
        lemma_lasting_written(
            begun(files, s.name, next),
            StoreView { active: next, ..s },
            r,
            t,
        );
    } else {
        lemma_lasting_written(files, s, r, t);
    }
}

/// A deletion from a plain store lasts.
pub proof fn lemma_lasting_deleted(files: Files, s: StoreView, key: Seq<char>)
    requires
        lasting(files, s),
        files_fit(files),
        within_limits(tombstone_of(key)),
    ensures
        lasting(db_deleted(files, s, key).0, db_deleted(files, s, key).1),
{
    lemma_db_deleted(files, s, key);
    if s.index.contains_key(key) {
        lemma_lasting_written(files, s, tombstone_of(key), db_deleted(files, s, key).1);
    }
}

/// What a compaction of a plain store has written.
proof fn lemma_db_copied_shape(
    from: Files,
    start: u64,
    f0: Files,
    t: StoreView,
    index: IndexMap,
    keys: Seq<Seq<char>>,
    now_ms: u64,
)
    requires
        copying(from, t.name, start, f0, t.active, t.index),
        t.active == start,
        now_ms <= start,
        start + keys.len() < u64::MAX,
    ensures
        ({
            let (f, u, _) = db_copied(f0, t, index, keys, now_ms);
            &&& u.name == t.name
            &&& u.active <= start + keys.len()
            &&& copying(from, t.name, start, f, u.active, u.index)
        }),
    decreases keys.len(),
{
    if keys.len() > 0 {
        lemma_db_copied_shape(from, start, f0, t, index, keys.drop_last(), now_ms);
        let (f, u, end) = db_copied(f0, t, index, keys.drop_last(), now_ms);
        let k = keys.last();
        if end is None {
            if let Ok(Some(r)) = find(f, u.name, index, k) {
                if byte_len(k) <= MAX_KEY_SIZE {
                    let r2 = record_of(k, r.value, None);
                    let name = t.name;
                    let (g, v) = db_put(f, u, r2, now_ms);
                    let (f1, u1) = db_rolled(f, u, r2, now_ms);
                    let next = next_stamp(u.active, now_ms);
                    let file = segment_file(name, next);
                    lemma_orderable_insert(f, file, content(f, file));
                    lemma_orderable_remove(
                        touched(f, file),
                        segment_hint_filename(SegmentView { name, timestamp: next }),
                    );
                    let last = segment_file(name, u1.active);
                    lemma_orderable_insert(f1, last, content(f1, last) + encoded(r2));
                    lemma_kept_begun(f, name, next);
                    assert(v.index == u.index.insert(k, db_place(f1, u1)));
                    lemma_copying_next(
                        from,
                        name,
                        start,
                        f,
                        u.active,
                        u.index,
                        g,
                        v.active,
                        k,
                        db_place(f1, u1),
                    );
                }
            }
        }
    }
}

/// What a compaction of a plain store leaves lasts, where its files had the usual
/// names.
pub proof fn lemma_lasting_compacted(files: Files, s: StoreView, now_ms: u64)
    requires
        usual(files, s.name),
        db_compactable(files, s, now_ms),
        match db_compacted(files, s, now_ms).1 {
            Ok(z) => sound(db_compacted(files, s, now_ms).0, z.name, z.index),
            Err(_) => false,
        },
    ensures
        lasting(db_compacted(files, s, now_ms).0, db_compacted(files, s, now_ms).1->Ok_0),
{
    let name = s.name;
    let old_segs = segments(files, name);
    let start = first_stamp(old_segs, now_ms);
    let t = empty_store(name, start, s.max_segment_bytes, s.fsync_strategy);
    let f0 = begun(files, name, start);
    let (f, u, _) = db_copied(f0, t, s.index, keys_in_order(s.index), now_ms);
    let z = db_compacted(files, s, now_ms).1->Ok_0;
    let left = db_compacted(files, s, now_ms).0;
    lemma_segments(files, name);
    assert forall|i: int| 0 <= i < old_segs.len() implies (#[trigger] old_segs[i]).timestamp
        < start by {
        assert(old_segs[i].timestamp <= old_segs[old_segs.len() - 1].timestamp);
    }
    lemma_copying_begun(files, name, start);
    lemma_db_copied_shape(files, start, f0, t, s.index, keys_in_order(s.index), now_ms);
    let fresh = segments_besides(segments(f, name), old_segs);
    let next = next_stamp(u.active, now_ms);
    let hinted = with_hints(f, u.index, fresh);
    let v = begun(hinted, name, next);
    lemma_fresh_segments(files, name, start, f, u.active, u.index);
    lemma_with_hints(f, u.index, fresh);
    let g = segment_file(name, next);
    lemma_orderable_insert(hinted, g, content(hinted, g));
    lemma_orderable_remove(
        touched(hinted, g),
        segment_hint_filename(SegmentView { name, timestamp: next }),
    );
    lemma_lasting_left(files, start, f, u.active, next, v, left, z);
}

/// What lasts is there again when a plain store is reopened, and lasts.
pub proof fn lemma_lasting_reopened(files: Files, s: StoreView, t: StoreView)
    requires
        lasting(files, s),
        t.name == s.name,
        t.active == segments(files, s.name).last().timestamp,
        load_segments(files, segments(files, s.name)) == Ok::<IndexMap, StoreError>(t.index),
    ensures
        segments(files, s.name).len() > 0,
        contents_at(files, t.name, t.index) == contents_at(files, s.name, s.index),
        lasting(files, t),
{
}

/// A store whose segments hold what it holds may be compacted while there are timestamps
/// left for what that writes.
pub proof fn lemma_lasting_compactable(files: Files, s: StoreView, now_ms: u64)
    requires
        lasting(files, s),
        first_stamp(segments(files, s.name), now_ms) + keys_in_order(s.index).len() < u64::MAX,
    ensures
        db_compactable(files, s, now_ms),
{
    let segs = segments(files, s.name);
    lemma_segments(files, s.name);
    assert forall|i: int| 0 <= i < segs.len() implies files.contains_key(
        segment_filename(#[trigger] segs[i]),
    ) by {
        assert(segs.contains(segs[i]));
    }
}

/// A durable engine may be compacted while there are timestamps left for what that writes.
pub proof fn lemma_durable_compactable(s: KvView, now_ms: u64)
    requires
        durable(s),
        first_stamp(segments(s.files, s.store.name), now_ms) + keys_in_order(s.store.index).len()
            < u64::MAX,
    ensures
        kv_compactable(s, now_ms),
{
    lemma_lasting_compactable(s.files, s.store, now_ms);
}

/// Whether every record of a segment is the one that an index has for its key, and none
/// is a deletion.
pub open spec fn needed_only(files: Files, name: Seq<char>, index: IndexMap, timestamp: u64) -> bool {
    let (records, end) = parse_stream(content(files, segment_file(name, timestamp)), 0);
    &&& end is None
    &&& forall|j: int|
        0 <= j < records.len() ==> {
            let (offset, r) = #[trigger] records[j];
            &&& !r.tombstone
            &&& index.contains_key(r.key)
            &&& index[r.key].segment_timestamp == timestamp
            &&& index[r.key].offset == offset
        }
}

/// One more record, for a key that the index did not have, is needed too.
proof fn lemma_needed_next(
    files: Files,
    name: Seq<char>,
    index: IndexMap,
    timestamp: u64,
    after: Files,
    r: RecordView,
    e: IndexEntry,
)
    requires
        needed_only(files, name, index, timestamp),
        !index.contains_key(r.key),
        !r.tombstone,
        within_limits(r),
        content(after, segment_file(name, timestamp)) == content(
            files,
            segment_file(name, timestamp),
        ) + encoded(r),
        e.segment_timestamp == timestamp,
        e.offset == content(files, segment_file(name, timestamp)).len(),
    ensures
        needed_only(after, name, index.insert(r.key, e), timestamp),
{
    let data = content(files, segment_file(name, timestamp));
    lemma_parse_stream_append(data, 0, r);
    let before = parse_stream(data, 0).0;
    let records = parse_stream(data + encoded(r), 0).0;
    assert forall|j: int| 0 <= j < records.len() implies {
        let (offset, x) = #[trigger] records[j];
        &&& !x.tombstone
        &&& index.insert(r.key, e).contains_key(x.key)
        &&& index.insert(r.key, e)[x.key].segment_timestamp == timestamp
        &&& index.insert(r.key, e)[x.key].offset == offset
    } by {
        if j < before.len() {
            assert(records[j] == before[j]);
        }
    }
}

/// What a compaction of the engine has written is needed.
proof fn lemma_copied_needed(
    from: Files,
    start: u64,
    t: KvView,
    index: IndexMap,
    keys: Seq<Seq<char>>,
    now_ms: u64,
)
    requires
        usual(from, t.store.name),
        forall|i: int|
            0 <= i < segments(from, t.store.name).len() ==> (#[trigger] segments(
                from,
                t.store.name,
            )[i]).timestamp < start,
        copying(from, t.store.name, start, t.files, t.store.active, t.store.index),
        t.store.active == start,
        t.store.index == Map::<Seq<char>, IndexEntry>::empty(),
        content(t.files, segment_file(t.store.name, start)) == Seq::<u8>::empty(),
        now_ms <= start,
        start + keys.len() < u64::MAX,
        keys.no_duplicates(),
        forall|ts: u64|
            content(
                kv_copied(t, index, keys, now_ms).0.files,
                #[trigger] segment_file(t.store.name, ts),
            ).len() <= u64::MAX,
    ensures
        ({
            let u = kv_copied(t, index, keys, now_ms).0;
            &&& forall|k: Seq<char>| #[trigger] u.store.index.contains_key(k) ==> keys.contains(k)
            &&& forall|ts: u64|
                start <= ts <= u.store.active ==> #[trigger] needed_only(
                    u.files,
                    t.store.name,
                    u.store.index,
                    ts,
                )
        }),
    decreases keys.len(),
{
    let name = t.store.name;
    if keys.len() == 0 {
        assert(parse_stream(Seq::<u8>::empty(), 0) == (
            Seq::<(int, RecordView)>::empty(),
            None::<StoreError>,
        ));
    } else {
        let init = keys.drop_last();
        let k = keys.last();
        let (u, end) = kv_copied(t, index, init, now_ms);
        let p = kv_copied(t, index, keys, now_ms).0;
        lemma_copied_shape(from, start, t, index, init, now_ms);
        assert forall|i: int, j: int|
            0 <= i < init.len() && 0 <= j < init.len() && i != j implies init[i] != init[j] by {
            assert(keys[i] != keys[j]);
        }
        assert forall|x: Seq<char>| init.contains(x) implies keys.contains(x) && x != k by {
            let i = init.index_of(x);
            assert(keys[i] == x);
            assert(keys[i] != keys[keys.len() - 1]);
        }
        assert(keys[keys.len() - 1] == k);
        let next = next_stamp(u.store.active, now_ms);
        // The next segment is a new one.
        let g = segment_file(name, next);
        if u.files.contains_key(g) {
            let x = SegmentView { name, timestamp: next };
            lemma_segments(from, name);
            lemma_wal_is_no_segment(name, next);
            if from.contains_key(g) {
                let old_segs = segments(from, name);
                assert(old_segs.contains(x));
                assert(old_segs[old_segs.index_of(x)].timestamp == next);
            } else {
                let ts = choose|ts: u64|
                    start <= ts <= u.store.active && g == #[trigger] segment_file(name, ts);
                lemma_filename_injective(x, SegmentView { name, timestamp: ts });
            }
        }
        assert(content(u.files, g) == Seq::<u8>::empty());
        if p == u {
            lemma_copied_needed(from, start, t, index, init, now_ms);
        } else {
            let r = find(u.files, u.store.name, index, k)->Ok_0->0;
            let r2 = record_of(k, r.value, r.expiry_ms);
            let s1 = KvView { files: appended(u.files, u.wal(), encoded(r2)), ..u };
            let s2 = kv_logged(u, r2, now_ms);
            let e = next_place(s2, record_len(r2));
            let last = s2.store.active;
            assert(p == kv_put(u, r2, now_ms));
            lemma_begun(s1.files, name, next);
            assert forall|ts: u64| #[trigger]
                content(s2.files, segment_file(name, ts)) == content(
                    u.files,
                    segment_file(name, ts),
                ) by {
                lemma_wal_is_no_segment(name, ts);
                assert(content(s1.files, segment_file(name, ts)) == content(
                    u.files,
                    segment_file(name, ts),
                ));
                assert(content(begun(s1.files, name, next), segment_file(name, ts)) == content(
                    s1.files,
                    segment_file(name, ts),
                ));
            }
            assert forall|ts: u64| ts != last implies #[trigger] content(
                p.files,
                segment_file(name, ts),
            ) == content(u.files, segment_file(name, ts)) by {
                let y = SegmentView { name, timestamp: ts };
                if segment_file(name, ts) == segment_file(name, last) {
                    lemma_filename_injective(y, SegmentView { name, timestamp: last });
                }
                assert(content(s2.files, segment_file(name, ts)) == content(
                    u.files,
                    segment_file(name, ts),
                ));
            }
            assert(content(s2.files, segment_file(name, last)) == content(
                u.files,
                segment_file(name, last),
            ));
            assert(content(p.files, segment_file(name, last)) == content(
                u.files,
                segment_file(name, last),
            ) + encoded(r2));
            assert forall|ts: u64| content(u.files, #[trigger] segment_file(name, ts)).len()
                <= u64::MAX by {
                assert(content(p.files, segment_file(name, ts)).len() <= u64::MAX);
            }
            lemma_copied_needed(from, start, t, index, init, now_ms);
            assert(!u.store.index.contains_key(k));
            assert(p.store.index == u.store.index.insert(k, e));
            assert(needed_only(u.files, name, u.store.index, last)) by {
                if last != u.store.active {
                    assert(parse_stream(Seq::<u8>::empty(), 0) == (
                        Seq::<(int, RecordView)>::empty(),
                        None::<StoreError>,
                    ));
                }
            }
            lemma_needed_next(u.files, name, u.store.index, last, p.files, r2, e);
            assert forall|ts: u64| start <= ts <= p.store.active implies #[trigger] needed_only(
                p.files,
                name,
                p.store.index,
                ts,
            ) by {
                if ts != last {
                    assert(needed_only(u.files, name, u.store.index, ts));
                    assert(content(p.files, segment_file(name, ts)) == content(
                        u.files,
                        segment_file(name, ts),
                    ));
                }
            }
        }
    }
}

/// After a compaction the segments hold one record for each key that is left, and no
/// deletion.
pub proof fn lemma_compacted_records(s: KvView, now_ms: u64, y: SegmentView)
    requires
        usual(s.files, s.store.name),
        s.sound(),
        kv_compactable(s, now_ms),
        orderable(s.store.index),
        kv_compacted(s, now_ms).1 is None,
        kv_compacted(s, now_ms).0.sound(),
        ({
            let t = kv_new(
                s.files,
                s.store.name,
                s.store.max_segment_bytes,
                s.store.fsync_strategy,
                first_stamp(segments(s.files, s.store.name), now_ms),
            );
            files_fit(kv_copied(t, s.store.index, keys_in_order(s.store.index), now_ms).0.files)
        }),
        segments(kv_compacted(s, now_ms).0.files, s.store.name).contains(y),
    ensures
        needed_only(
            kv_compacted(s, now_ms).0.files,
            s.store.name,
            kv_compacted(s, now_ms).0.store.index,
            y.timestamp,
        ),
{
    let name = s.store.name;
    let old_segs = segments(s.files, name);
    let start = first_stamp(old_segs, now_ms);
    let t = kv_new(
        s.files,
        name,
        s.store.max_segment_bytes,
        s.store.fsync_strategy,
        start,
    );
    let ks = keys_in_order(s.store.index);
    let u = kv_copied(t, s.store.index, ks, now_ms).0;
    let z = kv_compacted(s, now_ms).0;
    let next = next_stamp(u.store.active, now_ms);
    lemma_compaction_left(s, now_ms);
    lemma_orderable(s.store.index);
    assert(ks.no_duplicates()) by {
        assert forall|i: int, j: int| 0 <= i < ks.len() && 0 <= j < ks.len() && i != j implies ks[i]
            != ks[j] by {
            if i < j {
                crate::text::lemma_key_lt_total(ks[i], ks[j]);
            } else {
                crate::text::lemma_key_lt_total(ks[j], ks[i]);
            }
        }
    }
    let g = segment_file(name, start);
    let x = SegmentView { name, timestamp: start };
    lemma_segments(s.files, name);
    if s.files.contains_key(g) {
        assert(old_segs.contains(x));
        assert(old_segs[old_segs.index_of(x)].timestamp < start);
    }
    lemma_begun(s.files, name, start);
    lemma_wal_is_no_segment(name, start);
    assert(content(begun(s.files, name, start), g) == Seq::<u8>::empty());
    assert(content(t.files, g) == Seq::<u8>::empty());
    assert forall|ts: u64| content(u.files, #[trigger] segment_file(name, ts)).len()
        <= u64::MAX by {}
    lemma_copied_needed(s.files, start, t, s.store.index, ks, now_ms);
    if content(z.files, segment_filename(y)) == Seq::<u8>::empty() {
        assert(parse_stream(Seq::<u8>::empty(), 0) == (
            Seq::<(int, RecordView)>::empty(),
            None::<StoreError>,
        ));
    } else {
        assert(segments(z.files, name).contains(y));
        assert(start <= y.timestamp <= u.store.active);
        assert(needed_only(u.files, t.store.name, u.store.index, y.timestamp));
        assert(segment_filename(y) == segment_file(name, y.timestamp));
    }
}

/// A hint file is no segment.
proof fn lemma_hint_name(seg: SegmentView)
    ensures
        parse_segment(segment_hint_filename(seg)) is None,
{
    let f = segment_hint_filename(seg);
    assert(f.last() == 't');
    let suffix = seq!['.', 'd', 'b'];
    if f.len() >= 3 {
        assert(f.skip(f.len() - 3).last() == 't');
        assert(suffix.last() == 'b');
    }
}

} // verus!
