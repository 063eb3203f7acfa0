//! The log-structured engine: writes go to a memtable, which is written to a table
//! when it is full.

use vstd::prelude::*;
use vstd::string::StringExecFns;
use vstd::utf8::encode_utf8;

use crate::compaction::{
    in_order, layered, lemma_live_swept, lemma_merged, lemma_unused, live, merge_tables, merged,
    older, ref_views, refs_wf, registered, sweep, swept, tables_for_range, tellable,
    CompactionStrategy, Entries,
};
use crate::directory::{changed_by, content, files_fit, fills, goes_on, Change, Directory, Files};
use crate::engine::{
    clock_after, error_in, fits_in_memory, lemma_listed, lemma_ranged, lemma_unexpired_ordered,
    pair_views, unexpired, Clock, Contents, Live, RangeScan, StorageEngine, TtlOutcome,
};
use crate::error::StoreError;
use crate::lsm::{
    all_flushed, entries_between, entry_pairs, filled_by, flush_failed, flush_id, flushed,
    flushed_files, in_memory, lemma_begun, lemma_compacted, lemma_contents_orderable,
    lemma_find, lemma_flushed, lemma_flushed_order, lemma_found_limits, lemma_inverted,
    lemma_log_written, lemma_logged, lemma_memory_writable, lemma_opened, lemma_range_merged,
    lemma_range_orderable, lemma_same_tables, lemma_set_aside, lemma_stepped, lemma_stepped_key,
    log_matches, logged, lsm_contents, lsm_entries, lsm_find, lsm_get, lsm_sound, opened,
    search, set_aside, waiting, LsmView,
};
use crate::memtable::{EntryView, Memtable, MemtableEntry, MemtableView};
use crate::record::{
    record_of, tombstone_of, within_limits, RecordView, MAX_KEY_SIZE, MAX_VALUE_SIZE, TTL_LEN,
};
use crate::sorted_map::{keys_in_order, lemma_same_keys, orderable, StringMap};
use crate::leveled::Leveled;
use crate::levels::{empty_levels, placed, stacked, well_arranged};
use crate::size_tiered::{distinct_stamps, flat, newest_first, tiered, SizeTiered};
use crate::sstable::{
    found_tables, lookup, rebuilt_all, table_bytes, table_filename, written_table, SSTable,
    TableView,
};
use crate::text::{byte_len, key_le, key_lt, lemma_key_lt_total, len_of};
use crate::utils::has_expired;
use crate::wal::{replayed, wal_filename, Wal};

verus! {

/// Why the memtable that waits cannot be written to a table, if it cannot.
pub open spec fn flush_error<S: CompactionStrategy>(v: LsmView, strategy: S, now: Clock) -> Option<
    StoreError,
> {
    match v.immutable {
        None => None,
        Some(m) => if v.files.contains_key(table_filename(flush_id(v, now))) {
            Some(StoreError::FileExists)
        } else {
            strategy.add_error(
                flushed_files(v, now),
                written_table(flush_id(v, now), m.entries),
            )
        },
    }
}

/// Whether that is the strategy after the memtable that waited, if any, became a table.
pub open spec fn flush_added<S: CompactionStrategy>(
    v: LsmView,
    strategy: S,
    now: Clock,
    after: S,
) -> bool {
    match v.immutable {
        None => after == strategy,
        Some(m) => strategy.added(
            flushed_files(v, now),
            written_table(flush_id(v, now), m.entries),
            after,
        ),
    }
}

/// Why a record is refused, if it is: it fills the active memtable while the one before
/// it waits and cannot be written.
pub open spec fn log_error<S: CompactionStrategy>(
    v: LsmView,
    strategy: S,
    r: RecordView,
    now: Clock,
) -> Option<StoreError> {
    if filled_by(v, r) {
        flush_error(v, strategy, now)
    } else {
        None
    }
}

/// Whether that is the store after a record was logged, or was refused. One that fills
/// the active memtable is logged once the memtable that waits, if any, was written.
pub open spec fn log_done<S: CompactionStrategy>(
    before: LsmEngine<S>,
    after: LsmEngine<S>,
    r: RecordView,
    now: Clock,
    end: Option<StoreError>,
) -> bool {
    &&& after.base() == before.base()
    &&& match end {
        None => if filled_by(before@, r) {
            &&& flush_added(before@, before.kept_by(), now, after.kept_by())
            &&& after@ == logged(flushed(before@, after.kept_by().tables(), now), r)
        } else {
            &&& after.kept_by() == before.kept_by()
            &&& after@ == logged(before@, r)
        },
        Some(_) => {
            &&& after.kept_by() == before.kept_by()
            &&& after@ == flush_failed(before@, now)
        },
    }
}

/// Whether changes that were added write one file, and write another after that.
pub open spec fn filled_then_replaced(
    before: Seq<Change>,
    after: Seq<Change>,
    first: Seq<char>,
    first_bytes: Seq<u8>,
    second: Seq<char>,
    second_bytes: Seq<u8>,
) -> bool {
    exists|i: int, j: int|
        before.len() <= i < j < after.len() && #[trigger] fills(after[i], first, first_bytes)
            && #[trigger] fills(after[j], second, second_bytes)
}

/// A store whose tables a strategy keeps.
pub struct LsmEngine<S: CompactionStrategy> {
    dir: Directory,
    name: String,
    wal: Wal,
    active: Memtable,
    immutable: Option<Memtable>,
    mark: u64,
    max_memtable_bytes: usize,
    strategy: S,
}

/// What a memtable that may be missing holds.
pub open spec fn memtable_view(m: Option<Memtable>) -> Option<MemtableView> {
    match m {
        Some(m) => Some(m@),
        None => None,
    }
}

impl<S: CompactionStrategy> View for LsmEngine<S> {
    type V = LsmView;

    closed spec fn view(&self) -> LsmView {
        LsmView {
            files: self.dir@,
            name: self.name@,
            tables: self.strategy.tables(),
            active: self.active@,
            immutable: memtable_view(self.immutable),
            mark: self.mark as nat,
            max_memtable_bytes: self.max_memtable_bytes,
        }
    }
}

fn copy_entry(e: &MemtableEntry) -> (c: MemtableEntry)
    ensures
        c@ == e@,
{
    MemtableEntry {
        value: match &e.value {
            Some(v) => Some(v.clone()),
            None => None,
        },
        expiry_ms: e.expiry_ms,
    }
}

/// Adds entries to others that override them.
fn overlay(entries: &mut StringMap<MemtableEntry>, below: &StringMap<MemtableEntry>)
    requires
        old(entries).wf(),
        below.wf(),
    ensures
        final(entries).wf(),
        final(entries)@ == below@.union_prefer_right(old(entries)@),
{
    let ghost m = entries@;
    let ghost keys = below.keys_seq();
    let n = below.len();
    assert(keys.take(0) =~= Seq::<Seq<char>>::empty());
    for i in 0..n
        invariant
            below.wf(),
            keys == below.keys_seq(),
            n == keys.len(),
            entries.wf(),
            forall|k: Seq<char>| #[trigger]
                entries@.contains_key(k) <==> m.contains_key(k) || keys.take(i as int).contains(k),
            forall|k: Seq<char>| #[trigger]
                entries@.contains_key(k) ==> entries@[k] == if m.contains_key(k) {
                    m[k]
                } else {
                    below@[k]
                },
            forall|k: Seq<char>| #[trigger] keys.take(i as int).contains(k) ==> below@.contains_key(k),
    {
        proof {
            below.lemma_at(i as int);
            assert forall|k: Seq<char>| #[trigger] keys.take(i + 1).contains(k) <==> keys.take(
                i as int,
            ).contains(k) || k == keys[i as int] by {
                if keys.take(i + 1).contains(k) {
                    let n = keys.take(i + 1).index_of(k);
                    if n < i {
                        assert(keys.take(i as int)[n] == k);
                    }
                }
                if keys.take(i as int).contains(k) {
                    assert(keys.take(i + 1)[keys.take(i as int).index_of(k)] == k);
                }
                assert(keys.take(i + 1)[i as int] == keys[i as int]);
            }
        }
        let key = below.key_at(i);
        if !entries.contains(key.as_str()) {
            let _ = entries.insert(key.clone(), copy_entry(below.value_at(i)));
        }
    }
    proof {
        below.lemma_keys();
        assert(keys.take(keys.len() as int) =~= keys);
        assert(entries@ =~= below@.union_prefer_right(m));
    }
}

fn comes_after(a: &str, b: &str) -> (r: bool)
    ensures
        r == key_lt(b@, a@),
{
    proof {
        lemma_key_lt_total(a@, b@);
    }
    match crate::text::rank(b, a) {
        crate::text::Rank::Before => true,
        _ => false,
    }
}

/// Keeps the entries whose keys lie between two keys.
fn keep_between(entries: &mut StringMap<MemtableEntry>, start: &str, end: &str)
    requires
        old(entries).wf(),
    ensures
        final(entries).wf(),
        final(entries)@ == entries_between(old(entries)@, start@, end@),
{
    let ghost m = entries@;
    let mut i: usize = entries.len();
    while i > 0
        invariant
            m == old(entries)@,
            entries.wf(),
            i <= entries.keys_seq().len(),
            entries@.submap_of(m),
            forall|j: int|
                i <= j < entries.keys_seq().len() ==> key_le(
                    start@,
                    #[trigger] entries.keys_seq()[j],
                ) && key_le(entries.keys_seq()[j], end@),
            forall|k: Seq<char>| #[trigger]
                m.contains_key(k) && key_le(start@, k) && key_le(k, end@) ==> entries@.contains_key(
                    k,
                ),
        decreases i,
    {
        i = i - 1;
        proof {
            entries.lemma_at(i as int);
            lemma_key_lt_total(start@, entries.keys_seq()[i as int]);
            lemma_key_lt_total(end@, entries.keys_seq()[i as int]);
        }
        let key = entries.key_at(i);
        let out = comes_after(start, key.as_str()) || comes_after(key.as_str(), end);
        if out {
            let _ = entries.remove_at(i);
        }
    }
    proof {
        assert forall|k: Seq<char>| #[trigger] entries@.contains_key(k) implies key_le(start@, k)
            && key_le(k, end@) by {
            let j = entries.lemma_position(k);
            assert(entries.keys_seq()[j] == k);
        }
        assert(entries@ =~= entries_between(m, start@, end@));
    }
}

impl<S: CompactionStrategy> LsmEngine<S> {
    /// What keeps the tables.
    pub closed spec fn kept_by(&self) -> S {
        self.strategy
    }

    /// Whether the tables are whole and well arranged, and what is in memory can be
    /// written.
    pub open spec fn steady(&self) -> bool {
        &&& lsm_sound(self@)
        &&& self.kept_by().ready()
        &&& self.kept_by().arranged(self@.files)
        &&& self.kept_by().tables() == self@.tables
    }

    /// The files as they were when changes were last taken.
    pub closed spec fn base(&self) -> Files {
        self.dir.base()
    }

    /// The changes that were made since then.
    pub closed spec fn pending(&self) -> Seq<Change> {
        self.dir.pending()
    }

    closed spec fn consistent(&self) -> bool {
        &&& self.dir.wf()
        &&& self.wal.file() == wal_filename(self.name@)
        &&& self.active.wf()
        &&& (match self.immutable {
            Some(m) => m.wf(),
            None => true,
        })
        &&& self.strategy.wf()
        &&& self.immutable is None ==> self.mark == 0
        &&& self.max_memtable_bytes <= usize::MAX / 2
    }

    /// No file is larger than memory, and the files can be brought into an order.
    pub proof fn lemma_files(&self)
        requires
            self.wf(),
        ensures
            files_fit(self@.files),
            orderable(self@.files),
            self@.tables == self.kept_by().tables(),
    {
        self.dir.lemma_sizes();
        self.dir.lemma_names();
    }

    /// A store over the tables of a strategy, with nothing in memory.
    pub fn new(dir: Directory, db_name: &str, max_memtable_bytes: usize, strategy: S) -> (e: Self)
        requires
            dir.wf(),
            strategy.wf(),
            max_memtable_bytes <= usize::MAX / 2,
        ensures
            e.wf(),
            e.kept_by() == strategy,
            e.base() == dir.base(),
            e@ == (LsmView {
                files: dir@.insert(wal_filename(db_name@), content(dir@, wal_filename(db_name@))),
                name: db_name@,
                tables: strategy.tables(),
                active: MemtableView::empty(),
                immutable: None,
                mark: 0,
                max_memtable_bytes,
            }),
            ({
                &&& tellable(db_name@)
                &&& in_order(dir@, strategy.tables())
                &&& registered(dir@, db_name@, strategy.tables())
                &&& strategy.ready()
                &&& strategy.arranged(dir@)
            }) ==> e.healthy() && e.contents() == live(layered(dir@, strategy.tables())),
            content(dir@, wal_filename(db_name@)) == Seq::<u8>::empty() ==> log_matches(e@),
    {
        let mut dir = dir;
        let ghost files = dir@;
        let wal = Wal::open(&mut dir, db_name);
        let e = LsmEngine {
            dir,
            name: String::from_str(db_name),
            wal,
            active: Memtable::new(),
            immutable: None,
            mark: 0,
            max_memtable_bytes,
            strategy,
        };
        proof {
            lemma_begun(files, e@);
            if tellable(db_name@) && in_order(files, e@.tables) && registered(
                files,
                db_name@,
                e@.tables,
            ) && strategy.arranged(files) {
                lemma_same_tables(files, e@.files, db_name@, e@.tables);
                strategy.lemma_arranged(files, e@.files);
            }
        }
        e
    }

    /// A store over the tables of a strategy, with what the log gives back in
    /// memory. What a write that was broken off left at the end of the log goes.
    pub fn from_dir(dir: Directory, db_name: &str, max_memtable_bytes: usize, strategy: S) -> (r:
        Result<Self, StoreError>)
        requires
            dir.wf(),
            strategy.wf(),
            max_memtable_bytes <= usize::MAX / 2,
            content(dir@, wal_filename(db_name@)).len() <= usize::MAX / 2,
        ensures
            ({
                let log = wal_filename(db_name@);
                match r {
                    Ok(e) => {
                        &&& e.wf()
                        &&& e.kept_by() == strategy
                        &&& e.base() == dir.base()
                        &&& replayed(content(dir@, log)) is Ok
                        &&& e@ == opened(dir@, db_name@, strategy.tables(), max_memtable_bytes)
                        &&& log_matches(e@)
                        &&& ({
                            &&& tellable(db_name@)
                            &&& in_order(dir@, strategy.tables())
                            &&& registered(dir@, db_name@, strategy.tables())
                            &&& strategy.ready()
                            &&& strategy.arranged(dir@)
                        }) ==> e.healthy() && e.contents() == live(
                            layered(dir@, strategy.tables()).union_prefer_right(e@.active.entries),
                        )
                    },
                    Err(e) => replayed(content(dir@, log)) == Err::<MemtableView, StoreError>(e),
                }
            }),
    {
        let mut dir = dir;
        let ghost files = dir@;
        let wal = Wal::open(&mut dir, db_name);
        let active = match wal.replay(&dir) {
            Ok(m) => m,
            Err(e) => {
                return Err(e);
            },
        };
        wal.cut_tail(&mut dir);
        let e = LsmEngine {
            dir,
            name: String::from_str(db_name),
            wal,
            active,
            immutable: None,
            mark: 0,
            max_memtable_bytes,
            strategy,
        };
        proof {
            assert(e@.files =~= opened(files, db_name@, strategy.tables(), max_memtable_bytes).files);
            lemma_opened(files, db_name@, strategy.tables(), max_memtable_bytes);
            if tellable(db_name@) && in_order(files, e@.tables) && registered(
                files,
                db_name@,
                e@.tables,
            ) && strategy.arranged(files) {
                lemma_same_tables(files, e@.files, db_name@, e@.tables);
                strategy.lemma_arranged(files, e@.files);
            }
        }
        Ok(e)
    }

    /// Hands out the changes that were made to the files since they were last
    /// taken.
    pub fn take_changes(&mut self) -> (cs: Vec<Change>)
        requires
            old(self).wf(),
        ensures
            final(self).wf(),
            final(self)@ == old(self)@,
            final(self).kept_by() == old(self).kept_by(),
            cs@ == old(self).pending(),
            changed_by(old(self).base(), cs@) == old(self)@.files,
            final(self).base() == old(self)@.files,
            final(self).pending() == Seq::<Change>::empty(),
    {
        self.dir.take_changes()
    }

    /// The directory, without the engine.
    pub fn into_directory(self) -> (dir: Directory)
        requires
            self.wf(),
        ensures
            dir.wf(),
            dir@ == self@.files,
            dir.base() == self.base(),
    {
        self.dir
    }

    /// The timestamp of the latest table: 0, where there is none. A time after it is one at
    /// which memtables can be written.
    pub fn latest_table(&self) -> (ns: u64)
        requires
            self.wf(),
        ensures
            forall|t: TableView| #[trigger]
                self@.tables.contains(t) ==> t.id.timestamp <= ns,
            self@.tables.len() == 0 ==> ns == 0,
            self@.tables.len() > 0 ==> exists|t: TableView| #[trigger]
                self@.tables.contains(t) && t.id.timestamp == ns,
            forall|later: u64| later > ns ==> #[trigger] older(self@.tables, later),
    {
        let tables = self.strategy.iter_all();
        let ghost tv = self@.tables;
        let mut ns: u64 = 0;
        let ghost mut at: int = 0;
        for i in 0..tables.len()
            invariant
                tv == ref_views(tables@),
                refs_wf(tables@),
                forall|j: int| 0 <= j < i ==> (#[trigger] tv[j]).id.timestamp <= ns,
                i == 0 ==> ns == 0,
                i > 0 ==> 0 <= at < i && tv[at].id.timestamp == ns,
        {
            assert(tv[i as int] == tables@[i as int]@);
            let stamp = tables[i].begun();
            if i == 0 || stamp > ns {
                ns = stamp;
                proof {
                    at = i as int;
                }
            }
        }
        proof {
            assert(tv.len() == tables@.len());
            assert forall|t: TableView| #[trigger] tv.contains(t) implies t.id.timestamp <= ns by {
                assert(tv[tv.index_of(t)] == t);
            }
            if tv.len() > 0 {
                assert(tv.contains(tv[at]));
            }
        }
        ns
    }

    /// Whether a memtable waits to be written to a table.
    pub fn flush_pending(&self) -> (r: bool)
        ensures
            r == (self@.immutable is Some),
    {
        self.immutable.is_some()
    }

    /// Writes the memtable that waits, if any, to a table.
    pub fn flush_step(&mut self, now: Clock) -> (r: Result<(), StoreError>)
        requires
            old(self).wf(),
        ensures
            final(self).wf(),
            final(self).base() == old(self).base(),
            old(self).kept_by().ready() ==> final(self).kept_by().ready(),
            match r {
                Ok(_) => {
                    &&& flush_error(old(self)@, old(self).kept_by(), now) is None
                    &&& flush_added(old(self)@, old(self).kept_by(), now, final(self).kept_by())
                    &&& final(self)@ == flushed(old(self)@, final(self).kept_by().tables(), now)
                    &&& old(self)@.immutable is None ==> *final(self) == *old(self)
                    &&& old(self)@.immutable matches Some(m) ==> filled_then_replaced(
                        old(self).pending(),
                        final(self).pending(),
                        table_filename(flush_id(old(self)@, now)),
                        table_bytes(m.entries),
                        wal_filename(old(self)@.name),
                        content(final(self)@.files, wal_filename(old(self)@.name)),
                    )
                },
                Err(e) => {
                    &&& flush_error(old(self)@, old(self).kept_by(), now) == Some(e)
                    &&& final(self)@ == flush_failed(old(self)@, now)
                    &&& final(self).kept_by() == old(self).kept_by()
                },
            },
            goes_on(old(self).pending(), final(self).pending()),
            forall|t: TableView| #[trigger]
                final(self)@.tables.contains(t) ==> old(self)@.tables.contains(t)
                    || t.id.timestamp == now.ns,
            old(self).steady() && older(old(self)@.tables, now.ns) ==> {
                &&& r is Ok
                &&& final(self).steady()
                &&& old(self).recoverable() ==> final(self).recoverable()
                &&& final(self).contents() == old(self).contents()
            },
    {
        let ghost v = self@;
        let ghost s = self.strategy;
        let immutable = match &self.immutable {
            Some(m) => m,
            None => {
                return Ok(());
            },
        };
        let ghost m = immutable@.entries;
        assert(waiting(v) == m);
        let ghost good = self.steady() && older(v.tables, now.ns);
        let sst = match SSTable::from_memtable(
            &mut self.dir,
            self.name.as_str(),
            immutable,
            None,
            now.ns,
        ) {
            Ok(t) => t,
            Err(e) => {
                proof {
                    if good {
                        lemma_unused(v.files, v.name, v.tables, now.ns);
                    }
                }
                return Err(e);
            },
        };
        let ghost t = sst@;
        assert(self.dir@ == flushed_files(v, now));
        proof {
            if good {
                lemma_flushed(v, now);
                s.lemma_arranged(v.files, self.dir@);
                assert(self.dir@.contains_key(t.path));
            }
        }
        match self.strategy.add_sstable(&self.dir, sst) {
            Ok(_) => {},
            Err(e) => {
                return Err(e);
            },
        }
        self.immutable = None;
        let ghost mid = self.dir@;
        let ghost told = self.dir.pending();
        self.wal.drop_front(&mut self.dir, self.mark);
        self.mark = 0;
        proof {
            let all = self.dir.pending();
            assert(fills(all[told.len() - 1], table_filename(flush_id(v, now)), table_bytes(m)));
            assert(fills(
                all[told.len() as int],
                wal_filename(v.name),
                content(self.dir@, wal_filename(v.name)),
            ));
            if good {
                lemma_log_written(mid, v.name, content(self.dir@, wal_filename(v.name)));
                lemma_same_tables(mid, self.dir@, v.name, seq![t] + v.tables);
                self.strategy.lemma_arranged(mid, self.dir@);
            }
        }
        Ok(())
    }

    /// Logs a record and changes the active memtable. One that is full then waits
    /// to be written, after the one before it was.
    fn write(
        &mut self,
        key: &str,
        value: &str,
        tombstone: bool,
        expiry_ms: Option<u64>,
        now: Clock,
    ) -> (r: Result<(), StoreError>)
        requires
            old(self).wf(),
            fits_in_memory(key@, value@),
            tombstone ==> value@ == Seq::<char>::empty() && expiry_ms is None,
        ensures
            final(self).wf(),
            final(self).base() == old(self).base(),
            ({
                let record = RecordView { key: key@, value: value@, tombstone, expiry_ms };
                &&& log_error(old(self)@, old(self).kept_by(), record, now) == error_in(r)
                &&& log_done(*old(self), *final(self), record, now, error_in(r))
            }),
            forall|ns: u64|
                ns > now.ns && older(old(self)@.tables, now.ns) ==> #[trigger] older(
                    final(self)@.tables,
                    ns,
                ),
            old(self).healthy() && byte_len(key@) <= MAX_KEY_SIZE && byte_len(value@)
                <= MAX_VALUE_SIZE && older(old(self)@.tables, now.ns) ==> {
                &&& r is Ok
                &&& final(self).healthy()
                &&& old(self).recoverable() ==> final(self).recoverable()
                &&& final(self).contents() == if tombstone {
                    old(self).contents().remove(key@)
                } else {
                    old(self).contents().insert(key@, Live { value: value@, expiry_ms })
                }
            },
    {
        let ghost r = RecordView { key: key@, value: value@, tombstone, expiry_ms };
        let ghost good = self.healthy() && within_limits(r) && older(self@.tables, now.ns);
        let size = self.active.size_after(
            key,
            if tombstone {
                None
            } else {
                Some(value)
            },
            expiry_ms,
        );
        let full = size >= self.max_memtable_bytes;
        assert(full == filled_by(self@, r));
        if full {
            match self.flush_step(now) {
                Ok(_) => {},
                Err(e) => {
                    return Err(e);
                },
            }
        }
        let ghost v = self@;
        let _ = self.wal.append(
            &mut self.dir,
            String::from_str(key),
            String::from_str(value),
            tombstone,
            expiry_ms,
        );
        if tombstone {
            self.active.remove(String::from_str(key));
        } else {
            self.active.insert_with_expiry(String::from_str(key), String::from_str(value), expiry_ms);
        }
        if full {
            self.set_active_aside();
        }
        proof {
            assert(self@ == logged(v, r));
            if good {
                lemma_logged(v, r);
                lemma_same_tables(v.files, self@.files, v.name, v.tables);
                self.strategy.lemma_arranged(v.files, self@.files);
            }
        }
        Ok(())
    }

    /// Sets the active memtable aside to be written.
    fn set_active_aside(&mut self)
        requires
            old(self).consistent(),
            old(self)@.immutable is None,
        ensures
            final(self).wf(),
            final(self)@ == set_aside(old(self)@),
            final(self).kept_by() == old(self).kept_by(),
            final(self).base() == old(self).base(),
            final(self).pending() == old(self).pending(),
    {
        let mut full = Memtable::new();
        std::mem::swap(&mut full, &mut self.active);
        self.immutable = Some(full);
        self.mark = self.wal.size(&self.dir);
    }

    /// What the engine has for a key.
    fn find(&self, key: &str) -> (r: Result<Option<MemtableEntry>, StoreError>)
        requires
            self.wf(),
        ensures
            match r {
                Ok(Some(e)) => lsm_find(self@, key@) == Ok::<Option<EntryView>, StoreError>(
                    Some(e@),
                ),
                Ok(None) => lsm_find(self@, key@) == Ok::<Option<EntryView>, StoreError>(None),
                Err(e) => lsm_find(self@, key@) == Err::<Option<EntryView>, StoreError>(e),
            },
    {
        match self.active.timed_entry(key) {
            Some(e) => {
                return Ok(Some(copy_entry(e)));
            },
            None => {},
        }
        match &self.immutable {
            Some(m) => {
                match m.timed_entry(key) {
                    Some(e) => {
                        return Ok(Some(copy_entry(e)));
                    },
                    None => {},
                }
            },
            None => {},
        }
        let tables = self.strategy.iter_for_key(key);
        let ghost tv = ref_views(tables@);
        let ghost goal = search(self.dir@, tv, key@);
        assert(tv.skip(0) =~= tv);
        for i in 0..tables.len()
            invariant
                self.dir.wf(),
                refs_wf(tables@),
                tv == ref_views(tables@),
                goal == lsm_find(self@, key@),
                goal == search(self.dir@, tv.skip(i as int), key@),
        {
            let t = tables[i];
            assert(tables@[i as int].wf());
            assert(tv[i as int] == t@);
            assert(tv.skip(i as int)[0] == t@);
            assert(tv.skip(i as int).drop_first() =~= tv.skip(i + 1));
            match t.get_entry(&self.dir, key) {
                Ok(Some(e)) => {
                    return Ok(Some(e));
                },
                Ok(None) => {},
                Err(e) => {
                    return Err(e);
                },
            }
        }
        assert(tv.skip(tables@.len() as int) =~= Seq::<TableView>::empty());
        Ok(None)
    }

    /// The entries in memory and those of tables, which they override.
    fn gather(&self, tables: &Vec<&SSTable>) -> (r: Result<StringMap<MemtableEntry>, StoreError>)
        requires
            self.wf(),
        ensures
            match r {
                Ok(m) => m.wf() && merged(self@.files, in_memory(self@), ref_views(tables@)) == Ok::<
                    Entries,
                    StoreError,
                >(m@),
                Err(e) => merged(self@.files, in_memory(self@), ref_views(tables@)) == Err::<
                    Entries,
                    StoreError,
                >(e),
            },
    {
        let mut entries: StringMap<MemtableEntry> = StringMap::new();
        overlay(&mut entries, self.active.entries());
        assert(entries@ =~= self.active@.entries);
        match &self.immutable {
            Some(m) => {
                overlay(&mut entries, m.entries());
            },
            None => {
                assert(in_memory(self@) =~= self.active@.entries);
            },
        }
        assert(entries@ == in_memory(self@));
        match merge_tables(&mut entries, &self.dir, tables) {
            Ok(_) => Ok(entries),
            Err(e) => Err(e),
        }
    }

    /// What is gathered from tables in good order is what they hold.
    proof fn lemma_gathered(&self, now: Clock)
        requires
            self.healthy(),
        ensures
            merged(self@.files, in_memory(self@), self@.tables) == Ok::<Entries, StoreError>(
                lsm_entries(self@),
            ),
            live(swept(lsm_entries(self@), now.ms)) == unexpired(self.contents(), now.ms),
    {
        lemma_memory_writable(self@);
        lemma_merged(self@.files, in_memory(self@), self@.tables);
        lemma_live_swept(lsm_entries(self@), now.ms);
    }
}

/// Whether a compaction turned the memtable that waited into a table, which `first` keeps,
/// and the active one into another, which `mid` keeps, and the strategy then merged all
/// tables.
pub open spec fn merged_after<S: CompactionStrategy>(
    before: LsmEngine<S>,
    first: S,
    mid: S,
    after: LsmEngine<S>,
    now: Clock,
    r: Result<(), StoreError>,
) -> bool {
    let u = set_aside(flushed(before@, first.tables(), now));
    let v = all_flushed(before@, first.tables(), mid.tables(), now);
    &&& flush_error(before@, before.kept_by(), now) is None
    &&& flush_added(before@, before.kept_by(), now, first)
    &&& flush_error(u, first, clock_after(now, 1)) is None
    &&& flush_added(u, first, clock_after(now, 1), mid)
    &&& mid.all_done(
        v.files,
        before@.name,
        clock_after(now, 2),
        after.kept_by(),
        after@.files,
        r,
    )
    &&& after@ == (LsmView { files: after@.files, tables: after.kept_by().tables(), ..v })
}

/// Whether a compaction ended with the active memtable set aside, which could not be added
/// to the tables.
pub open spec fn stopped_after<S: CompactionStrategy>(
    before: LsmEngine<S>,
    first: S,
    after: LsmEngine<S>,
    now: Clock,
    e: StoreError,
) -> bool {
    let u = set_aside(flushed(before@, first.tables(), now));
    &&& flush_error(before@, before.kept_by(), now) is None
    &&& flush_added(before@, before.kept_by(), now, first)
    &&& flush_error(u, first, clock_after(now, 1)) == Some(e)
    &&& after@ == flush_failed(u, clock_after(now, 1))
    &&& after.kept_by() == first
}

/// What a compaction comes to.
pub open spec fn compaction_done<S: CompactionStrategy>(
    before: LsmEngine<S>,
    after: LsmEngine<S>,
    now: Clock,
    r: Result<(), StoreError>,
) -> bool {
    match flush_error(before@, before.kept_by(), now) {
        Some(e) => {
            &&& r == Err::<(), StoreError>(e)
            &&& after@ == flush_failed(before@, now)
            &&& after.kept_by() == before.kept_by()
        },
        None => {
            ||| exists|first: S, mid: S| #[trigger]
                merged_after(before, first, mid, after, now, r)
            ||| r matches Err(e) && exists|first: S| #[trigger]
                stopped_after(before, first, after, now, e)
        },
    }
}

/// A compaction of a size-tiered store leaves one table, and nothing in memory.
pub proof fn lemma_tiers_compacted(
    before: LsmEngine<SizeTiered>,
    after: LsmEngine<SizeTiered>,
    now: Clock,
    r: Result<(), StoreError>,
)
    requires
        compaction_done(before, after, now, r),
        r is Ok,
    ensures
        after.spec_segment_count() == 1,
        after@.active == MemtableView::empty(),
        after@.immutable is None,
{
    let (first, mid) = choose|first: SizeTiered, mid: SizeTiered| #[trigger]
        merged_after(before, first, mid, after, now, r);
    crate::size_tiered::lemma_all_one(
        mid,
        all_flushed(before@, first.tables(), mid.tables(), now).files,
        before@.name,
        clock_after(now, 2),
        after.kept_by(),
        after@.files,
        r,
    );
}

/// A size-tiered store that is opened anew over its files is in good order and holds what
/// it held.
pub proof fn lemma_tiers_recovered(e: LsmEngine<SizeTiered>)
    requires
        e.wf(),
        e.healthy(),
        e.recoverable(),
    ensures
        ({
            let found = rebuilt_all(e@.files, found_tables(keys_in_order(e@.files), e@.name));
            let tables = newest_first(flat(tiered(e@.files, found->Ok_0)));
            let v = opened(e@.files, e@.name, tables, e@.max_memtable_bytes);
            &&& found is Ok
            &&& distinct_stamps(tables)
            &&& lsm_sound(v)
            &&& log_matches(v)
            &&& lsm_contents(v) == e.contents()
        }),
{
    e.lemma_files();
    crate::reopening::lemma_tiers_reopened(e@, e.kept_by().buckets());
}

/// A leveled store that is opened anew over its files, with as many levels, is in good
/// order and holds what it held.
pub proof fn lemma_levels_recovered(
    e: LsmEngine<Leveled>,
    num_levels: usize,
    l0_threshold: usize,
    l1_max_bytes: u64,
)
    requires
        e.wf(),
        e.healthy(),
        e.recoverable(),
        e.kept_by().levels().len() == num_levels,
    ensures
        ({
            let found = rebuilt_all(e@.files, found_tables(keys_in_order(e@.files), e@.name));
            let levels = placed(
                empty_levels(num_levels, l0_threshold, l1_max_bytes),
                found->Ok_0,
            );
            let v = opened(e@.files, e@.name, stacked(levels), e@.max_memtable_bytes);
            &&& found is Ok
            &&& well_arranged(e@.files, levels)
            &&& lsm_sound(v)
            &&& log_matches(v)
            &&& lsm_contents(v) == e.contents()
        }),
{
    e.lemma_files();
    crate::reopening::lemma_levels_reopened(
        e@,
        e.kept_by().levels(),
        num_levels,
        l0_threshold,
        l1_max_bytes,
    );
}

/// A store in good order refuses no write that it can keep in good order, and it can keep
/// one whose key has at most a mebibyte and whose value has at most five, at a time after
/// that of all its tables.
pub proof fn lemma_no_refusals<S: CompactionStrategy>(
    e: LsmEngine<S>,
    key: Seq<char>,
    value: Seq<char>,
    expiry_ms: Option<u64>,
    now: Clock,
)
    ensures
        LsmEngine::<S>::refused(key, value) is None,
        e.orderly(key, value, now) <==> encode_utf8(key).len() <= 1024 * 1024 && encode_utf8(
            value,
        ).len() <= 5 * 1024 * 1024 && forall|i: int|
            0 <= i < e@.tables.len() ==> (#[trigger] e@.tables[i]).id.timestamp < now.ns,
        e.wf() && e.healthy() && e.orderly(key, value, now) ==> e.write_error(
            key,
            value,
            expiry_ms,
            now,
        ) is None,
{
    if e.wf() && e.healthy() && e.orderly(key, value, now) {
        e.lemma_refused(key, value, expiry_ms, now);
    }
    assert forall|i: int| 0 <= i < e@.tables.len() implies e@.tables.contains(
        #[trigger] e@.tables[i],
    ) by {}
    if forall|i: int| 0 <= i < e@.tables.len() ==> (#[trigger] e@.tables[i]).id.timestamp < now.ns {
        assert forall|t: TableView| #[trigger] e@.tables.contains(t) implies t.id.timestamp
            < now.ns by {
            assert(e@.tables[e@.tables.index_of(t)] == t);
        }
    }
}

impl<S: CompactionStrategy> StorageEngine for LsmEngine<S> {
    closed spec fn wf(&self) -> bool {
        self.consistent() && self.active@.size <= usize::MAX / 2
    }

    open spec fn healthy(&self) -> bool {
        self.steady()
    }

    open spec fn recoverable(&self) -> bool {
        log_matches(self@)
    }

    open spec fn contents(&self) -> Contents {
        lsm_contents(self@)
    }

    open spec fn read(&self, key: Seq<char>, now_ms: u64) -> Result<Option<Seq<char>>, StoreError> {
        lsm_get(self@, key, now_ms)
    }

    open spec fn listing(&self, now_ms: u64) -> Result<Seq<Seq<char>>, StoreError> {
        match merged(self@.files, in_memory(self@), self@.tables) {
            Ok(m) => Ok(keys_in_order(swept(m, now_ms))),
            Err(e) => Err(e),
        }
    }

    open spec fn there(&self, key: Seq<char>, now_ms: u64) -> bool {
        lsm_get(self@, key, now_ms) matches Ok(Some(_))
    }

    open spec fn wrote(
        &self,
        after: Self,
        key: Seq<char>,
        value: Seq<char>,
        expiry_ms: Option<u64>,
        now: Clock,
        end: Option<StoreError>,
    ) -> bool {
        log_done(*self, after, record_of(key, value, expiry_ms), now, end)
    }

    open spec fn erased(
        &self,
        after: Self,
        key: Seq<char>,
        now: Clock,
        end: Option<StoreError>,
    ) -> bool {
        match lsm_get(self@, key, now.ms) {
            Err(_) => after == *self,
            Ok(_) => log_done(*self, after, tombstone_of(key), now, end),
        }
    }

    proof fn lemma_read(&self, key: Seq<char>, now_ms: u64) {
        lemma_find(self@, key);
    }

    proof fn lemma_ordered(&self) {
        lemma_contents_orderable(self@);
    }

    proof fn lemma_listing(&self, now_ms: u64) {
        let now = Clock { ms: now_ms, ns: 0 };
        self.lemma_gathered(now);
        self.lemma_ordered();
        lemma_unexpired_ordered(self.contents(), now_ms);
        lemma_same_keys(
            unexpired(self.contents(), now_ms),
            swept(lsm_entries(self@), now_ms),
        );
    }

    open spec fn refused(key: Seq<char>, value: Seq<char>) -> Option<StoreError> {
        None
    }

    proof fn lemma_refused(
        &self,
        key: Seq<char>,
        value: Seq<char>,
        expiry_ms: Option<u64>,
        now: Clock,
    ) {
        let v = self@;
        if v.immutable is Some {
            let t = written_table(flush_id(v, now), waiting(v));
            lemma_unused(v.files, v.name, v.tables, now.ns);
            lemma_flushed_order(v, now);
            self.kept_by().lemma_add_error(flushed_files(v, now), t);
        }
    }

    open spec fn write_error(
        &self,
        key: Seq<char>,
        value: Seq<char>,
        expiry_ms: Option<u64>,
        now: Clock,
    ) -> Option<StoreError> {
        log_error(self@, self.kept_by(), record_of(key, value, expiry_ms), now)
    }

    open spec fn delete_error(&self, key: Seq<char>, now: Clock) -> Option<StoreError> {
        match lsm_get(self@, key, now.ms) {
            Err(e) => Some(e),
            Ok(_) => log_error(self@, self.kept_by(), tombstone_of(key), now),
        }
    }

    open spec fn orderly(&self, key: Seq<char>, value: Seq<char>, now: Clock) -> bool {
        &&& byte_len(key) <= MAX_KEY_SIZE
        &&& byte_len(value) <= MAX_VALUE_SIZE
        &&& older(self@.tables, now.ns)
    }

    open spec fn compactable(&self, now: Clock) -> bool {
        older(self@.tables, now.ns) && now.ns + 2 <= u64::MAX
    }

    open spec fn spec_dead_bytes(&self) -> u64 {
        0
    }

    open spec fn spec_total_bytes(&self) -> u64 {
        0
    }

    open spec fn spec_segment_count(&self) -> nat {
        self@.tables.len()
    }

    fn get(&self, key: &str, now: Clock) -> (r: Result<Option<(String, String)>, StoreError>)
        ensures
            r matches Ok(Some((k, _))) ==> k@ == key@,
    {
        proof {
            if self.healthy() {
                lemma_find(self@, key@);
            }
        }
        match self.find(key) {
            Ok(Some(e)) => {
                if has_expired(e.expiry_ms, now.ms) {
                    return Ok(None);
                }
                match e.value {
                    Some(v) => Ok(Some((String::from_str(key), v))),
                    None => Ok(None),
                }
            },
            Ok(None) => Ok(None),
            Err(e) => Err(e),
        }
    }

    fn set_with_ttl(&mut self, key: &str, value: &str, expiry_ms: Option<u64>, now: Clock) -> (r:
        Result<(), StoreError>) {
        self.write(key, value, false, expiry_ms, now)
    }

    fn delete(&mut self, key: &str, now: Clock) -> (r: Result<Option<()>, StoreError>) {
        let found = match self.get(key, now) {
            Ok(x) => x.is_some(),
            Err(e) => {
                return Err(e);
            },
        };
        proof {
            reveal_strlit("");
            assert(""@ =~= Seq::<char>::empty());
        }
        match self.write(key, "", true, None, now) {
            Ok(_) => if found {
                Ok(Some(()))
            } else {
                Ok(None)
            },
            Err(e) => Err(e),
        }
    }

    #[verifier::rlimit(60)]
    fn compact(&mut self, now: Clock) -> (r: Result<(), StoreError>)
        ensures
            compaction_done(*old(self), *final(self), now, r),
            final(self).base() == old(self).base(),
            old(self).healthy() && old(self).compactable(now)
                ==> content(final(self)@.files, wal_filename(final(self)@.name)) == Seq::<
                u8,
            >::empty(),
    {
        match self.flush_step(now) {
            Ok(_) => {},
            Err(e) => {
                return Err(e);
            },
        }
        let ghost first = self.strategy;
        let second = Clock { ms: now.ms, ns: now.ns.saturating_add(1) };
        let third = Clock { ms: now.ms, ns: now.ns.saturating_add(2) };
        let ghost v = self@;
        let ghost good = old(self).healthy() && old(self).compactable(now);
        self.set_active_aside();
        assert(second == clock_after(now, 1));
        assert(third == clock_after(now, 2));
        proof {
            if good {
                lemma_set_aside(v);
            }
        }
        match self.flush_step(second) {
            Ok(_) => {},
            Err(e) => {
                assert(stopped_after(*old(self), first, *self, now, e));
                return Err(e);
            },
        }
        let ghost w = self@;
        proof {
            if good {
                lemma_unused(w.files, w.name, w.tables, third.ns);
            }
        }
        let ghost mid = self.strategy;
        let r = self.strategy.compact_all(&mut self.dir, self.name.as_str(), third);
        proof {
            assert(w == all_flushed(old(self)@, first.tables(), mid.tables(), now));
            assert(merged_after(*old(self), first, mid, *self, now, r));
            if good {
                lemma_compacted(w, self@, third);
            }
        }
        r
    }

    fn dead_bytes(&self) -> (n: u64) {
        0
    }

    fn total_bytes(&self) -> (n: u64) {
        0
    }

    fn segment_count(&self) -> (n: usize) {
        self.strategy.segment_count()
    }

    fn list_keys(&self, now: Clock) -> (r: Result<Vec<String>, StoreError>)
    {
        let tables = self.strategy.iter_all();
        let mut entries = match self.gather(&tables) {
            Ok(m) => m,
            Err(e) => {
                proof {
                    if self.healthy() {
                        self.lemma_gathered(now);
                    }
                }
                return Err(e);
            },
        };
        sweep(&mut entries, now.ms);
        proof {
            entries.lemma_keys();
            if self.healthy() {
                self.lemma_gathered(now);
                assert(entries@ == swept(lsm_entries(self@), now.ms));
                lemma_same_keys(entries@, unexpired(self.contents(), now.ms));
                self.lemma_ordered();
                lemma_listed(self.contents(), now.ms);
            }
        }
        Ok(entries.keys())
    }

    fn contains(&self, key: &str, now: Clock) -> (r: bool)
    {
        proof {
            if self.healthy() {
                self.lemma_read(key@, now.ms);
            }
        }
        match self.get(key, now) {
            Ok(x) => x.is_some(),
            Err(_) => false,
        }
    }

    fn ttl(&mut self, key: &str, expiry_ms: Option<u64>, now: Clock) -> (r: Result<
        TtlOutcome,
        StoreError,
    >) {
        let value = match self.get(key, now) {
            Ok(Some((_, v))) => v,
            Ok(None) => {
                return Ok(TtlOutcome::NotFound);
            },
            Err(e) => {
                return Err(e);
            },
        };
        let key_len = len_of(key);
        let value_len = len_of(value.as_str());
        let room: usize = usize::MAX / 2 - TTL_LEN;
        proof {
            if self.healthy() {
                lemma_find(self@, key@);
                lemma_found_limits(self@, key@);
            }
        }
        if key_len > room || value_len > room - key_len {
            return Err(StoreError::TooLarge);
        }
        match self.set_with_ttl(key, value.as_str(), expiry_ms, now) {
            Ok(_) => if expiry_ms.is_some() {
                Ok(TtlOutcome::ExpirySet)
            } else {
                Ok(TtlOutcome::Persisted)
            },
            Err(e) => Err(e),
        }
    }

    fn compact_step(&mut self, now: Clock) -> (r: Result<bool, StoreError>)
        ensures
            old(self).kept_by().step_done(
                old(self)@.files,
                old(self)@.name,
                now,
                final(self).kept_by(),
                final(self)@.files,
                r,
            ),
            final(self)@ == (LsmView {
                files: final(self)@.files,
                tables: final(self).kept_by().tables(),
                ..old(self)@
            }),
            final(self).base() == old(self).base(),
            old(self).healthy() && old(self).compactable(now) ==> {
                &&& r is Ok
                &&& final(self).healthy()
                &&& old(self).recoverable() ==> final(self).recoverable()
                &&& unexpired(final(self).contents(), now.ms) == unexpired(
                    old(self).contents(),
                    now.ms,
                )
            },
    {
        let ghost v = self@;
        proof {
            if self.healthy() && self.compactable(now) {
                lemma_unused(v.files, v.name, v.tables, now.ns);
            }
        }
        let r = self.strategy.compact_if_needed(&mut self.dir, self.name.as_str(), now);
        proof {
            if old(self).healthy() && old(self).compactable(now) {
                lemma_stepped(v, self@, now);
                assert forall|k: Seq<char>| #[trigger]
                    lookup(unexpired(self.contents(), now.ms), k) == lookup(
                        unexpired(old(self).contents(), now.ms),
                        k,
                    ) by {
                    assert(lookup(
                        unexpired(live(layered(self@.files, self@.tables)), now.ms),
                        k,
                    ) == lookup(unexpired(live(layered(v.files, v.tables)), now.ms), k));
                    lemma_stepped_key(v, self@, now, k);
                }
                let x = unexpired(self.contents(), now.ms);
                let y = unexpired(old(self).contents(), now.ms);
                assert forall|k: Seq<char>| #[trigger] x.contains_key(k) == y.contains_key(k) && (
                x.contains_key(k) ==> x[k] == y[k]) by {
                    assert(lookup(x, k) == lookup(y, k));
                }
                assert(x =~= y);
            }
        }
        r
    }
}

impl<S: CompactionStrategy> RangeScan for LsmEngine<S> {
    open spec fn ranging(&self, start: Seq<char>, end: Seq<char>, now_ms: u64) -> Result<
        Seq<(Seq<char>, Seq<char>)>,
        StoreError,
    > {
        if key_lt(end, start) {
            Ok(Seq::empty())
        } else {
            match merged(
                self@.files,
                in_memory(self@),
                tables_for_range(self@.tables, start, end),
            ) {
                Ok(m) => Ok(entry_pairs(entries_between(swept(m, now_ms), start, end))),
                Err(e) => Err(e),
            }
        }
    }

    proof fn lemma_ranging(&self, start: Seq<char>, end: Seq<char>, now_ms: u64) {
        if key_lt(end, start) {
            lemma_inverted(self.contents(), start, end, now_ms);
        } else {
            lemma_range_merged(self@, start, end, now_ms);
            lemma_range_orderable(self@, start, end, now_ms);
        }
    }

    fn range(&self, start: &str, end: &str, now: Clock) -> (r: Result<
        Vec<(String, String)>,
        StoreError,
    >) {
        proof {
            if self.healthy() {
                self.lemma_ordered();
                lemma_ranged(self.contents(), start@, end@, now.ms);
            }
        }
        if comes_after(start, end) {
            let none: Vec<(String, String)> = Vec::new();
            proof {
                lemma_inverted(self.contents(), start@, end@, now.ms);
                assert(pair_views(none@) =~= Seq::<(Seq<char>, Seq<char>)>::empty());
            }
            return Ok(none);
        }
        let tables = self.strategy.iter_files_for_range(start, end);
        let mut entries = match self.gather(&tables) {
            Ok(m) => m,
            Err(e) => {
                proof {
                    if self.healthy() {
                        lemma_range_merged(self@, start@, end@, now.ms);
                    }
                }
                return Err(e);
            },
        };
        sweep(&mut entries, now.ms);
        keep_between(&mut entries, start, end);
        let mut out: Vec<(String, String)> = Vec::new();
        let ghost m = entries@;
        let ghost keys = entries.keys_seq();
        proof {
            entries.lemma_keys();
            assert(pair_views(out@) =~= Seq::<(Seq<char>, Seq<char>)>::empty());
            if self.healthy() {
                lemma_range_merged(self@, start@, end@, now.ms);
            }
        }
        let n = entries.len();
        for i in 0..n
            invariant
                n == keys.len(),
                entries.wf(),
                m == entries@,
                keys == entries.keys_seq(),
                forall|k: Seq<char>| #[trigger] m.contains_key(k) ==> m[k].value is Some,
                pair_views(out@) == keys.take(i as int).map_values(
                    |k: Seq<char>| (k, m[k].value->0),
                ),
        {
            proof {
                entries.lemma_at(i as int);
            }
            let ghost before = pair_views(out@);
            let key = entries.key_at(i);
            let entry = entries.value_at(i);
            match &entry.value {
                Some(v) => {
                    out.push((key.clone(), v.clone()));
                    assert(pair_views(out@) =~= before.push((key@, v@)));
                },
                None => {
                    assert(false);
                },
            }
            assert(pair_views(out@) =~= keys.take(i + 1).map_values(
                |k: Seq<char>| (k, m[k].value->0),
            ));
        }
        assert(keys.take(keys.len() as int) =~= keys);
        assert(pair_views(out@) =~= entry_pairs(m));
        Ok(out)
    }
}

/// A store of tables has a segment for each of its tables, and counts no bytes.
pub proof fn lemma_counts<S: CompactionStrategy>(e: LsmEngine<S>)
    ensures
        e.spec_segment_count() == e@.tables.len(),
        e.spec_dead_bytes() == 0,
        e.spec_total_bytes() == 0,
{
}

} // verus!
