//! What the log-structured engine keeps, and what its operations do to it.

use vstd::prelude::*;
use vstd::utf8::encode_utf8;

use crate::compaction::{
    all_valid, has_path, in_order, is_table_of, layered, lemma_distinct_front, lemma_key_bounds,
    lemma_layered_concat, lemma_layered_one, lemma_layered_same, lemma_merged, lemma_unused,
    live, merged, names_table, older, overlaps, registered, swept, tables_for_key,
    tables_for_range, tellable, Entries,
};
use crate::directory::{content, Files};
use crate::engine::{between, clock_after, pairs_in_order, unexpired, Clock, Contents, Live};
use crate::error::StoreError;
use crate::memtable::{EntryView, MemtableView};
use crate::number::decimal;
use crate::record::{
    encoded, parse_stream, whole_len, within_limits, RecordView, MAX_KEY_SIZE, MAX_VALUE_SIZE,
};
use crate::sorted_map::{
    keys_in_order, keys_of, lemma_keys_in_order, lemma_orderable, lemma_same_keys, orderable,
};
use crate::sstable::{
    lemma_parse_table_filename, lemma_table_lookup, lemma_table_names, lemma_written_table,
    lookup, parse_table, table_bytes, table_entries, table_filename, table_lookup, table_valid,
    writable, written_table, TableId, TableView,
};
use crate::text::{byte_len, key_le, key_lt, lemma_key_lt_total, lemma_key_lt_transitive};
use crate::utils::expired;
use crate::wal::{
    after_mark, lemma_replay_append, lemma_replayed_concat, lemma_replayed_limits,
    lemma_replayed_orderable, lemma_replayed_whole, lemma_wal_name, replay_record,
    replay_records, replayed, wal_filename,
};

verus! {

/// The state of the engine: its files, its tables, the newest first, and its
/// memtables. Where there is an immutable one, it waits to be written to a table, and the
/// bytes of the log up to the mark are what was logged for it.
pub struct LsmView {
    pub files: Files,
    pub name: Seq<char>,
    pub tables: Seq<TableView>,
    pub active: MemtableView,
    pub immutable: Option<MemtableView>,
    pub mark: nat,
    pub max_memtable_bytes: usize,
}

/// The entries that wait to be written to a table.
pub open spec fn waiting(v: LsmView) -> Entries {
    match v.immutable {
        Some(m) => m.entries,
        None => Map::empty(),
    }
}

/// The entries in memory.
pub open spec fn in_memory(v: LsmView) -> Entries {
    waiting(v).union_prefer_right(v.active.entries)
}

/// All entries: those in memory override those of the tables.
pub open spec fn lsm_entries(v: LsmView) -> Entries {
    layered(v.files, v.tables).union_prefer_right(in_memory(v))
}

/// The keys with their values and times of expiry.
pub open spec fn lsm_contents(v: LsmView) -> Contents {
    live(lsm_entries(v))
}

/// Whether the tables are whole, and are all that there are, and what is in memory
/// can be written.
pub open spec fn lsm_sound(v: LsmView) -> bool {
    &&& tellable(v.name)
    &&& in_order(v.files, v.tables)
    &&& registered(v.files, v.name, v.tables)
    &&& writable(v.active.entries)
    &&& writable(waiting(v))
    &&& orderable(v.active.entries)
    &&& orderable(waiting(v))
}

/// Whether the log gives back what is in memory: first the memtable that waits, up to the
/// mark, and then the active one.
pub open spec fn log_matches(v: LsmView) -> bool {
    let log = content(v.files, wal_filename(v.name));
    &&& v.mark <= log.len()
    &&& parse_stream(log.take(v.mark as int), 0).1 is None
    &&& parse_stream(log.skip(v.mark as int), 0).1 is None
    &&& replayed(log.take(v.mark as int)) == Ok::<MemtableView, StoreError>(
        match v.immutable {
            Some(m) => m,
            None => MemtableView::empty(),
        },
    )
    &&& replayed(log.skip(v.mark as int)) == Ok::<MemtableView, StoreError>(v.active)
}

/// A log that gives back the memtables one after the other gives back all that is in memory
/// when it is read as a whole.
pub proof fn lemma_log_replayed(v: LsmView)
    requires
        log_matches(v),
    ensures
        parse_stream(content(v.files, wal_filename(v.name)), 0).1 is None,
        replayed(content(v.files, wal_filename(v.name))) is Ok,
        (replayed(content(v.files, wal_filename(v.name)))->Ok_0).entries == in_memory(v),
{
    let log = content(v.files, wal_filename(v.name));
    let a = log.take(v.mark as int);
    let b = log.skip(v.mark as int);
    lemma_replayed_concat(a, b);
    assert(a + b =~= log);
}

/// Whether the tables are whole, what is in memory can be written, and the log gives it
/// back.
pub open spec fn lsm_healthy(v: LsmView) -> bool {
    lsm_sound(v) && log_matches(v)
}

/// The name of the table that a memtable is written to.
pub open spec fn flush_id(v: LsmView, now: Clock) -> TableId {
    TableId { name: v.name, level: None, timestamp: now.ns }
}

/// The files after the memtable that waits was written.
pub open spec fn flushed_files(v: LsmView, now: Clock) -> Files {
    match v.immutable {
        Some(m) => v.files.insert(table_filename(flush_id(v, now)), table_bytes(m.entries)),
        None => v.files,
    }
}

/// The state after the memtable that waits was written, where the tables are then
/// those given. Once it is among them, the log drops what it held for it.
pub open spec fn flushed(v: LsmView, tables: Seq<TableView>, now: Clock) -> LsmView {
    LsmView {
        files: if v.immutable is Some {
            flushed_files(v, now).insert(
                wal_filename(v.name),
                after_mark(content(flushed_files(v, now), wal_filename(v.name)), v.mark),
            )
        } else {
            v.files
        },
        tables,
        immutable: None,
        mark: 0,
        ..v
    }
}

/// The state after the memtable that waits could not be added to the tables. The file
/// was written, unless there is one of that name.
pub open spec fn flush_failed(v: LsmView, now: Clock) -> LsmView {
    LsmView {
        files: if v.files.contains_key(table_filename(flush_id(v, now))) {
            v.files
        } else {
            flushed_files(v, now)
        },
        ..v
    }
}

/// The state after the active memtable was set aside to be written.
pub open spec fn set_aside(v: LsmView) -> LsmView {
    LsmView {
        active: MemtableView::empty(),
        immutable: Some(v.active),
        mark: content(v.files, wal_filename(v.name)).len(),
        ..v
    }
}

/// The state in which all tables are merged: what was in memory has become tables,
/// first those given and then `tables`.
pub open spec fn all_flushed(
    v: LsmView,
    first: Seq<TableView>,
    tables: Seq<TableView>,
    now: Clock,
) -> LsmView {
    let u = flushed(v, first, now);
    flushed(set_aside(u), tables, clock_after(now, 1))
}

/// Whether the active memtable is full once a record was applied to it.
pub open spec fn filled_by(v: LsmView, r: RecordView) -> bool {
    replay_record(v.active, r).size >= v.max_memtable_bytes
}

/// The state after a record was logged and the active memtable changed. One that is
/// full then waits to be written. Until then the log keeps what it holds.
pub open spec fn logged(v: LsmView, r: RecordView) -> LsmView {
    let log = wal_filename(v.name);
    let active = replay_record(v.active, r);
    let files = v.files.insert(log, content(v.files, log) + encoded(r));
    let w = LsmView { files, active, ..v };
    if filled_by(v, r) {
        set_aside(w)
    } else {
        w
    }
}

/// What the tables give for a key, the first that has it.
pub open spec fn search(files: Files, tables: Seq<TableView>, key: Seq<char>) -> Result<
    Option<EntryView>,
    StoreError,
>
    decreases tables.len(),
{
    if tables.len() == 0 {
        Ok(None)
    } else {
        match table_lookup(files, tables[0], key) {
            Err(e) => Err(e),
            Ok(Some(e)) => Ok(Some(e)),
            Ok(None) => search(files, tables.drop_first(), key),
        }
    }
}

/// What the engine has for a key.
pub open spec fn lsm_find(v: LsmView, key: Seq<char>) -> Result<Option<EntryView>, StoreError> {
    if v.active.entries.contains_key(key) {
        Ok(Some(v.active.entries[key]))
    } else if waiting(v).contains_key(key) {
        Ok(Some(waiting(v)[key]))
    } else {
        search(v.files, tables_for_key(v.tables, key), key)
    }
}

/// The value that a read finds.
pub open spec fn lsm_get(v: LsmView, key: Seq<char>, now_ms: u64) -> Result<
    Option<Seq<char>>,
    StoreError,
> {
    match lsm_find(v, key) {
        Err(e) => Err(e),
        Ok(None) => Ok(None),
        Ok(Some(e)) => if expired(e.expiry_ms, now_ms) {
            Ok(None)
        } else {
            Ok(e.value)
        },
    }
}

/// The entries whose keys lie between two keys, both included.
pub open spec fn entries_between(m: Entries, start: Seq<char>, end: Seq<char>) -> Entries {
    m.restrict(Set::new(|k: Seq<char>| m.contains_key(k) && key_le(start, k) && key_le(k, end)))
}

/// The keys of entries in order, each with its value.
pub open spec fn entry_pairs(m: Entries) -> Seq<(Seq<char>, Seq<char>)> {
    keys_in_order(m).map_values(|k: Seq<char>| (k, m[k].value->0))
}

proof fn lemma_search_concat(files: Files, a: Seq<TableView>, t: TableView, key: Seq<char>)
    ensures
        search(files, a.push(t), key) == (match search(files, a, key) {
            Ok(None) => table_lookup(files, t, key),
            r => r,
        }),
    decreases a.len(),
{
    let p = a.push(t);
    if a.len() == 0 {
        assert(p.drop_first() =~= Seq::<TableView>::empty());
        assert(search(files, p.drop_first(), key) == Ok::<Option<EntryView>, StoreError>(None));
    } else {
        assert(p.drop_first() =~= a.drop_first().push(t));
        lemma_search_concat(files, a.drop_first(), t, key);
    }
}

/// The search of valid tables finds what they give together.
pub proof fn lemma_search(files: Files, tables: Seq<TableView>, key: Seq<char>)
    requires
        all_valid(files, tables),
    ensures
        search(files, tables_for_key(tables, key), key) == Ok::<Option<EntryView>, StoreError>(
            lookup(layered(files, tables), key),
        ),
    decreases tables.len(),
{
    if tables.len() > 0 {
        let init = tables.drop_last();
        let t = tables.last();
        assert forall|i: int| 0 <= i < init.len() implies table_valid(files, #[trigger] init[i]) by {
            assert(init[i] == tables[i]);
        }
        lemma_search(files, init, key);
        assert(table_valid(files, tables[tables.len() - 1]));
        lemma_table_lookup(files, t, key);
        assert(tables =~= init + seq![t]);
        lemma_layered_concat(files, init, seq![t]);
        lemma_layered_one(files, t);
        if t.index.bloom.might_contain(key) {
            lemma_search_concat(files, tables_for_key(init, key), t, key);
        }
    }
}

/// The tables of a range give its keys what all tables give them.
pub proof fn lemma_range_lookup(
    files: Files,
    tables: Seq<TableView>,
    start: Seq<char>,
    end: Seq<char>,
    k: Seq<char>,
)
    requires
        all_valid(files, tables),
        key_le(start, k),
        key_le(k, end),
    ensures
        lookup(layered(files, tables_for_range(tables, start, end)), k) == lookup(
            layered(files, tables),
            k,
        ),
        all_valid(files, tables_for_range(tables, start, end)),
    decreases tables.len(),
{
    if tables.len() > 0 {
        let init = tables.drop_last();
        let t = tables.last();
        let part = tables_for_range(init, start, end);
        assert forall|i: int| 0 <= i < init.len() implies table_valid(files, #[trigger] init[i]) by {
            assert(init[i] == tables[i]);
        }
        lemma_range_lookup(files, init, start, end, k);
        assert(table_valid(files, tables[tables.len() - 1]));
        assert(tables =~= init + seq![t]);
        lemma_layered_concat(files, init, seq![t]);
        lemma_layered_one(files, t);
        if overlaps(t, start, end) {
            assert(part.push(t) =~= part + seq![t]);
            lemma_layered_concat(files, part, seq![t]);
            assert forall|i: int| 0 <= i < part.push(t).len() implies table_valid(
                files,
                #[trigger] part.push(t)[i],
            ) by {
                if i < part.len() {
                    assert(table_valid(files, part[i]));
                }
            }
        } else if table_entries(files, t).contains_key(k) {
            lemma_key_bounds(files, t, k);
            let min = t.index.min->0;
            let max = t.index.max->0;
            lemma_key_lt_total(start, k);
            lemma_key_lt_total(k, end);
            lemma_key_lt_total(max, k);
            lemma_key_lt_total(k, min);
            if key_lt(max, start) {
                if start != k {
                    lemma_key_lt_transitive(max, start, k);
                }
                assert(key_lt(max, k));
            }
            if key_lt(end, min) {
                if end != k {
                    lemma_key_lt_transitive(k, end, min);
                }
                assert(key_lt(k, min));
            }
            assert(false);
        }
    }
}

proof fn lemma_records_orderable(records: Seq<(int, RecordView)>)
    ensures
        orderable(crate::sstable::entries_of(records)),
    decreases records.len(),
{
    if records.len() == 0 {
        assert(keys_of(Map::<Seq<char>, EntryView>::empty(), Seq::empty()));
    } else {
        let before = crate::sstable::entries_of(records.drop_last());
        let r = records.last().1;
        lemma_records_orderable(records.drop_last());
        crate::sorted_map::lemma_orderable_insert(before, r.key, crate::memtable::record_entry(r));
    }
}

proof fn lemma_layered_orderable(files: Files, tables: Seq<TableView>)
    ensures
        orderable(layered(files, tables)),
    decreases tables.len(),
{
    if tables.len() == 0 {
        assert(keys_of(Map::<Seq<char>, EntryView>::empty(), Seq::empty()));
    } else {
        lemma_layered_orderable(files, tables.drop_first());
        lemma_records_orderable(parse_stream(files[tables[0].path], 0).0);
        crate::sorted_map::lemma_orderable_union(
            layered(files, tables.drop_first()),
            crate::sstable::table_entries(files, tables[0]),
        );
    }
}

/// The keys of a store in good order can be brought into an order.
pub proof fn lemma_contents_orderable(v: LsmView)
    requires
        lsm_sound(v),
    ensures
        orderable(lsm_contents(v)),
{
    lemma_layered_orderable(v.files, v.tables);
    crate::sorted_map::lemma_orderable_union(waiting(v), v.active.entries);
    crate::sorted_map::lemma_orderable_union(layered(v.files, v.tables), in_memory(v));
    crate::sorted_map::lemma_orderable_part(lsm_entries(v), lsm_contents(v));
}

/// A read of a store in good order finds what the store holds.
pub proof fn lemma_find(v: LsmView, key: Seq<char>)
    requires
        lsm_sound(v),
    ensures
        lsm_find(v, key) == Ok::<Option<EntryView>, StoreError>(lookup(lsm_entries(v), key)),
{
    lemma_search(v.files, v.tables, key);
}

/// The name of the log is not that of a table.
pub proof fn lemma_log_apart(name: Seq<char>)
    ensures
        parse_table(wal_filename(name)) is None,
{
    let f = wal_filename(name);
    let suffix = seq!['.', 's', 's', 't'];
    assert(f[f.len() - 1] == 'l');
    if f.skip(f.len() - 4) == suffix {
        assert(f.skip(f.len() - 4)[3] == suffix[3]);
    }
}

/// Whether the files of tables are the same.
pub open spec fn same_tables(a: Files, b: Files) -> bool {
    forall|f: Seq<char>|
        parse_table(f) is Some ==> (#[trigger] b.contains_key(f) <==> a.contains_key(f)) && content(
            b,
            f,
        ) == content(a, f)
}

/// Tables stay in good order where their files are the same.
pub proof fn lemma_same_tables(a: Files, b: Files, name: Seq<char>, tables: Seq<TableView>)
    requires
        same_tables(a, b),
        in_order(a, tables),
        registered(a, name, tables),
    ensures
        in_order(b, tables),
        registered(b, name, tables),
        layered(b, tables) == layered(a, tables),
        forall|t: TableView| #[trigger]
            tables.contains(t) ==> a.contains_key(t.path) == b.contains_key(t.path) && content(
                a,
                t.path,
            ) == content(b, t.path),
{
    assert forall|t: TableView| #[trigger] tables.contains(t) implies a.contains_key(t.path)
        == b.contains_key(t.path) && content(a, t.path) == content(b, t.path) by {
        assert(parse_table(t.path) is Some);
        assert(b.contains_key(t.path) <==> a.contains_key(t.path));
    }
    assert forall|i: int| 0 <= i < tables.len() implies {
        &&& a.contains_key((#[trigger] tables[i]).path) == b.contains_key(tables[i].path)
        &&& content(a, tables[i].path) == content(b, tables[i].path)
    } by {
        assert(tables.contains(tables[i]));
    }
    lemma_layered_same(a, b, tables);
    assert forall|f: Seq<char>| #[trigger] b.contains_key(f) && names_table(
        f,
        name,
    ) implies has_path(tables, f) by {
        assert(a.contains_key(f));
    }
}

/// Writing to the log leaves the tables alone.
pub proof fn lemma_log_written(files: Files, name: Seq<char>, data: Seq<u8>)
    ensures
        same_tables(files, files.insert(wal_filename(name), data)),
{
    lemma_log_apart(name);
}

/// A table that is written in front of others keeps them in good order, and
/// overrides them.
proof fn lemma_table_added(
    files: Files,
    name: Seq<char>,
    tables: Seq<TableView>,
    m: Entries,
    ns: u64,
)
    requires
        tellable(name),
        in_order(files, tables),
        registered(files, name, tables),
        older(tables, ns),
        writable(m),
        orderable(m),
        table_bytes(m).len() <= u64::MAX,
    ensures
        ({
            let id = TableId { name, level: None, timestamp: ns };
            let t = written_table(id, m);
            let after = files.insert(table_filename(id), table_bytes(m));
            &&& !files.contains_key(table_filename(id))
            &&& table_valid(after, t)
            &&& in_order(after, tables)
            &&& in_order(after, seq![t] + tables)
            &&& registered(after, name, seq![t] + tables)
            &&& layered(after, seq![t] + tables) == layered(files, tables).union_prefer_right(m)
            &&& forall|u: TableView| #[trigger]
                tables.contains(u) ==> files.contains_key(u.path) && after.contains_key(u.path)
                    && files[u.path] == after[u.path]
        }),
{
    let id = TableId { name, level: None, timestamp: ns };
    let path = table_filename(id);
    let t = written_table(id, m);
    let after = files.insert(path, table_bytes(m));
    let all = seq![t] + tables;
    lemma_unused(files, name, tables, ns);
    assert(!files.contains_key(path));
    lemma_parse_table_filename(id);
    lemma_written_table(after, id, m);
    assert forall|u: TableView| #[trigger] tables.contains(u) implies files.contains_key(u.path)
        && after.contains_key(u.path) && files[u.path] == after[u.path] by {
        assert(table_valid(files, tables[tables.index_of(u)]));
    }
    assert forall|i: int| 0 <= i < tables.len() implies {
        &&& files.contains_key((#[trigger] tables[i]).path) == after.contains_key(tables[i].path)
        &&& content(files, tables[i].path) == content(after, tables[i].path)
    } by {
        assert(tables.contains(tables[i]));
    }
    lemma_layered_same(files, after, tables);
    lemma_distinct_front(t, tables);
    if has_path(tables, path) {
        let i = choose|i: int| 0 <= i < tables.len() && (#[trigger] tables[i]).path == path;
        assert(tables.contains(tables[i]));
    }
    assert forall|i: int| 0 <= i < all.len() implies table_valid(after, #[trigger] all[i]) by {
        if i > 0 {
            assert(all[i] == tables[i - 1]);
        }
    }
    assert forall|u: TableView| #[trigger] all.contains(u) implies parse_table(u.path) == Some(u.id)
        && u.id.name == name by {
        let i = all.index_of(u);
        if i > 0 {
            assert(tables[i - 1] == u);
            assert(tables.contains(u));
        }
    }
    assert forall|f: Seq<char>| #[trigger] after.contains_key(f) && names_table(
        f,
        name,
    ) implies has_path(all, f) by {
        if f == path {
            assert(all[0].path == f);
        } else {
            let i = choose|i: int| 0 <= i < tables.len() && (#[trigger] tables[i]).path == f;
            assert(all[i + 1].path == f);
        }
    }
    assert(all.drop_first() =~= tables);
}

/// A log without a mark is the active memtable's alone.
proof fn lemma_whole_log(data: Seq<u8>)
    ensures
        data.skip(0) == data,
        data.take(0) == Seq::<u8>::empty(),
        parse_stream(data.take(0), 0).1 is None,
        replayed(data.take(0)) == Ok::<MemtableView, StoreError>(MemtableView::empty()),
{
    assert(data.skip(0) =~= data);
    assert(data.take(0) =~= Seq::<u8>::empty());
    assert(parse_stream(data.take(0), 0) == (
        Seq::<(int, RecordView)>::empty(),
        None::<StoreError>,
    ));
}

/// The memtable that waits becomes the newest table, and nothing else changes.
#[verifier::rlimit(40)]
pub proof fn lemma_flushed(v: LsmView, now: Clock)
    requires
        lsm_sound(v),
        v.immutable is Some,
        older(v.tables, now.ns),
        table_bytes(waiting(v)).len() <= u64::MAX,
    ensures
        ({
            let t = written_table(flush_id(v, now), waiting(v));
            let w = flushed(v, seq![t] + v.tables, now);
            &&& !v.files.contains_key(table_filename(flush_id(v, now)))
            &&& in_order(w.files, v.tables)
            &&& forall|u: TableView| #[trigger]
                v.tables.contains(u) ==> v.files.contains_key(u.path) && w.files.contains_key(
                    u.path,
                ) && v.files[u.path] == w.files[u.path]
            &&& lsm_sound(w)
            &&& log_matches(v) ==> log_matches(w)
            &&& lsm_contents(w) == lsm_contents(v)
        }),
{
    let id = flush_id(v, now);
    let m = waiting(v);
    let t = written_table(id, m);
    let w = flushed(v, seq![t] + v.tables, now);
    lemma_table_added(v.files, v.name, v.tables, m, now.ns);
    lemma_log_apart(v.name);
    lemma_parse_table_filename(id);
    let mid = flushed_files(v, now);
    let both = seq![t] + v.tables;
    let log = wal_filename(v.name);
    let rest = after_mark(content(mid, log), v.mark);
    lemma_log_written(mid, v.name, rest);
    lemma_same_tables(mid, w.files, v.name, both);
    assert(content(mid, log) == content(v.files, log));
    lemma_whole_log(rest);
    assert forall|u: TableView| #[trigger] v.tables.contains(u) implies w.files.contains_key(u.path)
        && v.files[u.path] == w.files[u.path] by {
        assert(parse_table(u.path) is Some);
        assert(both[v.tables.index_of(u) + 1] == u);
        assert(both.contains(u));
    }
    assert(in_order(w.files, v.tables)) by {
        assert forall|i: int| 0 <= i < v.tables.len() implies table_valid(
            w.files,
            #[trigger] v.tables[i],
        ) by {
            assert(both[i + 1] == v.tables[i]);
        }
    }
    let none = Map::<Seq<char>, EntryView>::empty();
    assert(waiting(w) == none);
    assert(writable(none));
    assert(crate::sorted_map::keys_of(none, Seq::empty()));
    assert(lsm_sound(w));
    assert(layered(w.files, w.tables) == layered(mid, both));
    assert(lsm_entries(w) =~= lsm_entries(v));
}

/// The state of a store that is opened over some tables. The log is cut to its whole
/// records, and what they say is in memory.
pub open spec fn opened(
    files: Files,
    name: Seq<char>,
    tables: Seq<TableView>,
    max_memtable_bytes: usize,
) -> LsmView {
    let log = wal_filename(name);
    let data = content(files, log);
    LsmView {
        files: files.insert(log, data.take(whole_len(data, 0))),
        name,
        tables,
        active: replayed(data)->Ok_0,
        immutable: None,
        mark: 0,
        max_memtable_bytes,
    }
}

proof fn lemma_deleted_for_good(records: Seq<(int, RecordView)>)
    ensures
        forall|k: Seq<char>| #[trigger]
            replay_records(records).entries.contains_key(k) && replay_records(
                records,
            ).entries[k].value is None ==> replay_records(records).entries[k].expiry_ms is None,
    decreases records.len(),
{
    if records.len() > 0 {
        lemma_deleted_for_good(records.drop_last());
    }
}

/// A store that is opened over tables in good order is in good order, whatever the end of
/// its log looks like, and the log gives back what is in memory.
pub proof fn lemma_opened(
    files: Files,
    name: Seq<char>,
    tables: Seq<TableView>,
    max_memtable_bytes: usize,
)
    requires
        replayed(content(files, wal_filename(name))) is Ok,
    ensures
        ({
            let v = opened(files, name, tables, max_memtable_bytes);
            &&& log_matches(v)
            &&& same_tables(files, v.files)
            &&& tellable(name) && in_order(files, tables) && registered(files, name, tables)
                ==> lsm_sound(v) && lsm_contents(v) == live(
                layered(files, tables).union_prefer_right(v.active.entries),
            )
        }),
{
    let v = opened(files, name, tables, max_memtable_bytes);
    let log = wal_filename(name);
    let data = content(files, log);
    let whole = data.take(whole_len(data, 0));
    let m = v.active.entries;
    lemma_replayed_whole(data);
    lemma_whole_log(whole);
    lemma_log_written(files, name, whole);
    lemma_replayed_limits(data);
    lemma_replayed_orderable(data);
    lemma_deleted_for_good(parse_stream(data, 0).0);
    let none = Map::<Seq<char>, EntryView>::empty();
    assert(waiting(v) == none);
    assert(writable(none));
    assert(keys_of(none, Seq::empty()));
    assert(writable(m)) by {
        assert forall|k: Seq<char>| #[trigger] m.contains_key(k) implies within_limits(
            crate::memtable::entry_record(k, m[k]),
        ) && (m[k].value is None ==> m[k].expiry_ms is None) by {}
    }
    assert(in_memory(v) =~= m);
    if in_order(files, tables) && registered(files, name, tables) {
        lemma_same_tables(files, v.files, name, tables);
    }
}

/// A flush that was broken off after its table was written, and before the log dropped what
/// it held for it, loses nothing and brings nothing back: the store that is then opened is
/// in good order and holds what was held.
pub proof fn lemma_flush_broken_off(v: LsmView, now: Clock)
    requires
        lsm_healthy(v),
        v.immutable is Some,
        older(v.tables, now.ns),
        table_bytes(waiting(v)).len() <= u64::MAX,
    ensures
        ({
            let t = written_table(flush_id(v, now), waiting(v));
            let w = opened(
                flushed_files(v, now),
                v.name,
                seq![t] + v.tables,
                v.max_memtable_bytes,
            );
            &&& lsm_healthy(w)
            &&& lsm_contents(w) == lsm_contents(v)
        }),
{
    let id = flush_id(v, now);
    let m = waiting(v);
    let both = seq![written_table(id, m)] + v.tables;
    let files = flushed_files(v, now);
    let log = wal_filename(v.name);
    lemma_table_added(v.files, v.name, v.tables, m, now.ns);
    lemma_log_apart(v.name);
    lemma_parse_table_filename(id);
    assert(content(files, log) == content(v.files, log));
    lemma_log_replayed(v);
    lemma_opened(files, v.name, both, v.max_memtable_bytes);
    assert(layered(files, both).union_prefer_right(in_memory(v)) =~= lsm_entries(v));
}

/// A store that begins over tables in good order, with nothing in memory, holds what they
/// hold.
pub proof fn lemma_begun(files: Files, v: LsmView)
    requires
        v.files == files.insert(wal_filename(v.name), content(files, wal_filename(v.name))),
        v.active == MemtableView::empty(),
        v.immutable is None,
        v.mark == 0,
    ensures
        same_tables(files, v.files),
        tellable(v.name) && in_order(files, v.tables) && registered(files, v.name, v.tables)
            ==> lsm_sound(v) && lsm_contents(v) == live(layered(files, v.tables)),
        content(files, wal_filename(v.name)) == Seq::<u8>::empty() ==> log_matches(v),
{
    let data = content(files, wal_filename(v.name));
    lemma_log_written(files, v.name, data);
    lemma_whole_log(data);
    let none = Map::<Seq<char>, EntryView>::empty();
    assert(writable(none));
    assert(keys_of(none, Seq::empty()));
    assert(data == Seq::<u8>::empty() ==> data.skip(0) == data.take(0));
    if in_order(files, v.tables) && registered(files, v.name, v.tables) {
        lemma_same_tables(files, v.files, v.name, v.tables);
        assert(lsm_entries(v) =~= layered(files, v.tables));
    }
}

/// The table that is written leaves the others in order.
pub proof fn lemma_flushed_order(v: LsmView, now: Clock)
    requires
        lsm_sound(v),
        v.immutable is Some,
        older(v.tables, now.ns),
    ensures
        in_order(flushed_files(v, now), v.tables),
        flushed_files(v, now).contains_key(table_filename(flush_id(v, now))),
{
    lemma_unused(v.files, v.name, v.tables, now.ns);
    let f = table_filename(flush_id(v, now));
    let b = flushed_files(v, now);
    assert forall|i: int| 0 <= i < v.tables.len() implies table_valid(b, #[trigger] v.tables[i]) by {
        assert(table_valid(v.files, v.tables[i]));
        assert(v.tables[i].path != f);
    }
}

/// A record that is logged counts at once.
pub proof fn lemma_logged(v: LsmView, r: RecordView)
    requires
        lsm_sound(v),
        filled_by(v, r) ==> v.immutable is None && v.mark == 0,
        within_limits(r),
        r.tombstone ==> r.expiry_ms is None,
        r.tombstone ==> r.value == Seq::<char>::empty(),
    ensures
        lsm_sound(logged(v, r)),
        log_matches(v) ==> log_matches(logged(v, r)),
        same_tables(v.files, logged(v, r).files),
        lsm_contents(logged(v, r)) == if r.tombstone {
            lsm_contents(v).remove(r.key)
        } else {
            lsm_contents(v).insert(r.key, Live { value: r.value, expiry_ms: r.expiry_ms })
        },
{
    let w = logged(v, r);
    let log = wal_filename(v.name);
    let data = content(v.files, log);
    let files = v.files.insert(log, data + encoded(r));
    let active = replay_record(v.active, r);
    lemma_log_written(v.files, v.name, data + encoded(r));
    if log_matches(v) {
        let k = v.mark as int;
        let more = data + encoded(r);
        lemma_replay_append(data.skip(k), r);
        assert(more.take(k) =~= data.take(k));
        assert(more.skip(k) =~= data.skip(k) + encoded(r));
        if filled_by(v, r) {
            assert(more.skip(0) =~= more);
            assert(more.take(more.len() as int) =~= more);
            assert(more.skip(more.len() as int) =~= Seq::<u8>::empty());
            lemma_whole_log(more);
        }
    }
    lemma_same_tables(v.files, w.files, v.name, v.tables);
    assert(writable(active.entries)) by {
        assert forall|k: Seq<char>| #[trigger] active.entries.contains_key(k) implies within_limits(
            crate::memtable::entry_record(k, active.entries[k]),
        ) && (active.entries[k].value is None ==> active.entries[k].expiry_ms is None) by {
            if k != r.key {
                assert(v.active.entries.contains_key(k));
            }
        }
    }
    crate::sorted_map::lemma_orderable_insert(v.active.entries, r.key, active.entries[r.key]);
    assert(writable(Map::<Seq<char>, EntryView>::empty()));
    assert(crate::sorted_map::keys_of(Map::<Seq<char>, EntryView>::empty(), Seq::empty()));
    let e = active.entries[r.key];
    assert(in_memory(w) =~= in_memory(v).insert(r.key, e));
    assert(lsm_entries(w) =~= lsm_entries(v).insert(r.key, e));
    if r.tombstone {
        assert(lsm_contents(w) =~= lsm_contents(v).remove(r.key));
    } else {
        assert(lsm_contents(w) =~= lsm_contents(v).insert(
            r.key,
            Live { value: r.value, expiry_ms: r.expiry_ms },
        ));
    }
}

/// The active memtable is set aside to be written.
pub proof fn lemma_set_aside(v: LsmView)
    requires
        lsm_sound(v),
        v.immutable is None,
        v.mark == 0,
    ensures
        ({
            let w = set_aside(v);
            &&& lsm_sound(w)
            &&& log_matches(v) ==> log_matches(w)
            &&& lsm_contents(w) == lsm_contents(v)
        }),
{
    let w = set_aside(v);
    let log = content(v.files, wal_filename(v.name));
    lemma_whole_log(log);
    assert(log.take(log.len() as int) =~= log);
    assert(log.skip(log.len() as int) =~= log.take(0));
    assert(writable(Map::<Seq<char>, EntryView>::empty()));
    assert(keys_of(Map::<Seq<char>, EntryView>::empty(), Seq::empty()));
    assert(in_memory(w) =~= in_memory(v));
}

/// Whether a compaction left alone all but the tables.
pub open spec fn only_tables(v: LsmView, w: LsmView, now: Clock) -> bool {
    &&& w == (LsmView { files: w.files, tables: w.tables, ..v })
    &&& forall|f: Seq<char>|
        !has_path(v.tables, f) && !is_table_of(f, v.name, now.ns) ==> (
        #[trigger] w.files.contains_key(f) <==> v.files.contains_key(f)) && content(w.files, f)
            == content(v.files, f)
}

/// A compaction leaves the log.
proof fn lemma_log_left(v: LsmView, w: LsmView, now: Clock)
    requires
        lsm_sound(v),
        only_tables(v, w, now),
    ensures
        content(w.files, wal_filename(v.name)) == content(v.files, wal_filename(v.name)),
{
    let f = wal_filename(v.name);
    lemma_log_apart(v.name);
    if has_path(v.tables, f) {
        let i = choose|i: int| 0 <= i < v.tables.len() && (#[trigger] v.tables[i]).path == f;
        assert(v.tables.contains(v.tables[i]));
    }
    if is_table_of(f, v.name, now.ns) {
        let level = choose|level: Option<usize>|
            f == #[trigger] table_filename(TableId { name: v.name, level, timestamp: now.ns });
        lemma_parse_table_filename(TableId { name: v.name, level, timestamp: now.ns });
    }
    assert(w.files.contains_key(f) <==> v.files.contains_key(f));
}

/// The compaction of all tables, with nothing in memory, leaves what has not
/// expired.
pub proof fn lemma_compacted(v: LsmView, w: LsmView, now: Clock)
    requires
        lsm_sound(v),
        only_tables(v, w, now),
        v.immutable is None,
        v.active == MemtableView::empty(),
        in_order(w.files, w.tables),
        registered(w.files, v.name, w.tables),
        live(layered(w.files, w.tables)) == unexpired(live(layered(v.files, v.tables)), now.ms),
    ensures
        lsm_sound(w),
        log_matches(v) ==> log_matches(w),
        lsm_contents(w) == unexpired(lsm_contents(v), now.ms),
        content(w.files, wal_filename(w.name)) == content(v.files, wal_filename(v.name)),
{
    lemma_log_left(v, w, now);
    assert(lsm_entries(v) =~= layered(v.files, v.tables));
    assert(lsm_entries(w) =~= layered(w.files, w.tables));
}

/// A step of compaction keeps a store in good order.
pub proof fn lemma_stepped(v: LsmView, w: LsmView, now: Clock)
    requires
        lsm_sound(v),
        only_tables(v, w, now),
        in_order(w.files, w.tables),
        registered(w.files, v.name, w.tables),
    ensures
        lsm_sound(w),
        log_matches(v) ==> log_matches(w),
{
    lemma_log_left(v, w, now);
}

/// A key has what it had, where a step of compaction leaves what the tables give it.
pub proof fn lemma_stepped_key(v: LsmView, w: LsmView, now: Clock, k: Seq<char>)
    requires
        only_tables(v, w, now),
        lookup(unexpired(live(layered(w.files, w.tables)), now.ms), k) == lookup(
            unexpired(live(layered(v.files, v.tables)), now.ms),
            k,
        ),
    ensures
        lookup(unexpired(lsm_contents(w), now.ms), k) == lookup(
            unexpired(lsm_contents(v), now.ms),
            k,
        ),
{
    let a = layered(v.files, v.tables);
    let b = layered(w.files, w.tables);
    assert(in_memory(w) == in_memory(v));
    if in_memory(v).contains_key(k) {
        assert(lookup(lsm_entries(v), k) == lookup(lsm_entries(w), k));
    } else {
        assert(lookup(lsm_entries(v), k) == lookup(a, k));
        assert(lookup(lsm_entries(w), k) == lookup(b, k));
        assert(unexpired(live(a), now.ms).contains_key(k) <==> unexpired(
            live(b),
            now.ms,
        ).contains_key(k));
    }
}

/// What a read finds in a store in good order can be written again.
pub proof fn lemma_found_limits(v: LsmView, key: Seq<char>)
    requires
        lsm_sound(v),
        lsm_contents(v).contains_key(key),
    ensures
        byte_len(key) <= MAX_KEY_SIZE,
        byte_len(lsm_contents(v)[key].value) <= MAX_VALUE_SIZE,
{
    lemma_memory_writable(v);
    lemma_merged(v.files, in_memory(v), v.tables);
    assert(lsm_entries(v).contains_key(key));
}

pub proof fn lemma_memory_writable(v: LsmView)
    requires
        writable(v.active.entries),
        writable(waiting(v)),
    ensures
        writable(in_memory(v)),
{
    let m = in_memory(v);
    assert forall|k: Seq<char>| #[trigger] m.contains_key(k) implies within_limits(
        crate::memtable::entry_record(k, m[k]),
    ) && (m[k].value is None ==> m[k].expiry_ms is None) by {
        if v.active.entries.contains_key(k) {
        } else {
            assert(waiting(v).contains_key(k));
        }
    }
}

/// No key lies between two keys in the wrong order.
pub proof fn lemma_inverted(c: Contents, start: Seq<char>, end: Seq<char>, now_ms: u64)
    requires
        key_lt(end, start),
    ensures
        pairs_in_order(between(unexpired(c, now_ms), start, end)) == Seq::<
            (Seq<char>, Seq<char>),
        >::empty(),
{
    let b = between(unexpired(c, now_ms), start, end);
    assert forall|k: Seq<char>| !(#[trigger] b.contains_key(k)) by {
        if key_le(start, k) && key_le(k, end) {
            lemma_key_lt_total(start, end);
            lemma_key_lt_total(start, k);
            if k != end && start != k {
                lemma_key_lt_transitive(start, k, end);
            }
            assert(false);
        }
    }
    assert(keys_of(b, Seq::<Seq<char>>::empty()));
    lemma_keys_in_order(b, Seq::<Seq<char>>::empty());
    assert(pairs_in_order(b) =~= Seq::<(Seq<char>, Seq<char>)>::empty());
}

/// What a range shows can be brought into an order.
pub proof fn lemma_range_orderable(v: LsmView, start: Seq<char>, end: Seq<char>, now_ms: u64)
    requires
        lsm_sound(v),
        !key_lt(end, start),
    ensures
        orderable(
            entries_between(
                swept(
                    layered(
                        v.files,
                        tables_for_range(v.tables, start, end),
                    ).union_prefer_right(in_memory(v)),
                    now_ms,
                ),
                start,
                end,
            ),
        ),
{
    let part = tables_for_range(v.tables, start, end);
    let m = layered(v.files, part).union_prefer_right(in_memory(v));
    lemma_layered_orderable(v.files, part);
    crate::sorted_map::lemma_orderable_union(waiting(v), v.active.entries);
    crate::sorted_map::lemma_orderable_union(layered(v.files, part), in_memory(v));
    crate::sorted_map::lemma_orderable_part(m, entries_between(swept(m, now_ms), start, end));
}

/// What is gathered from the tables of a range is what the store shows there.
pub proof fn lemma_range_merged(v: LsmView, start: Seq<char>, end: Seq<char>, now_ms: u64)
    requires
        lsm_sound(v),
        !key_lt(end, start),
    ensures
        ({
            let part = tables_for_range(v.tables, start, end);
            let m = layered(v.files, part).union_prefer_right(in_memory(v));
            let shown = entries_between(swept(m, now_ms), start, end);
            &&& merged(v.files, in_memory(v), part) == Ok::<Entries, StoreError>(m)
            &&& orderable(shown) ==> entry_pairs(shown) == pairs_in_order(
                between(unexpired(lsm_contents(v), now_ms), start, end),
            )
        }),
{
    let part = tables_for_range(v.tables, start, end);
    let m = layered(v.files, part).union_prefer_right(in_memory(v));
    let shown = entries_between(swept(m, now_ms), start, end);
    let c = between(unexpired(lsm_contents(v), now_ms), start, end);
    lemma_key_lt_total(start, end);
    lemma_range_lookup(v.files, v.tables, start, end, start);
    lemma_memory_writable(v);
    lemma_merged(v.files, in_memory(v), part);
    assert forall|k: Seq<char>| key_le(start, k) && key_le(k, end) implies lookup(m, k) == #[trigger] lookup(
        lsm_entries(v),
        k,
    ) by {
        lemma_range_lookup(v.files, v.tables, start, end, k);
        let a = layered(v.files, part);
        let b = layered(v.files, v.tables);
        assert(lookup(a, k) == lookup(b, k));
        assert(a.contains_key(k) <==> b.contains_key(k));
    }
    assert forall|k: Seq<char>| #[trigger] shown.contains_key(k) <==> c.contains_key(k) by {
        if key_le(start, k) && key_le(k, end) {
            assert(lookup(m, k) == lookup(lsm_entries(v), k));
            assert(m.contains_key(k) <==> lsm_entries(v).contains_key(k));
        }
    }
    if orderable(shown) {
        lemma_same_keys(shown, c);
        lemma_orderable(shown);
        let keys = keys_in_order(shown);
        assert forall|i: int| 0 <= i < keys.len() implies shown[#[trigger] keys[i]].value->0
            == c[keys[i]].value by {
            assert(keys.contains(keys[i]));
            assert(shown.contains_key(keys[i]));
            assert(lookup(m, keys[i]) == lookup(lsm_entries(v), keys[i]));
        }
        assert(entry_pairs(shown) =~= pairs_in_order(c));
    }
}

/// A memtable is full once its keys, values and times of expiry take as many bytes as it may
/// have, the write that fills it with them.
pub proof fn lemma_filled(v: LsmView, r: RecordView)
    requires
        !v.active.entries.contains_key(r.key),
        !r.tombstone,
    ensures
        filled_by(v, r) <==> v.active.size + encode_utf8(r.key).len() + encode_utf8(r.value).len()
            + (if r.expiry_ms is Some {
            8int
        } else {
            0int
        }) >= v.max_memtable_bytes,
{
}

/// What a write does to a store: its record ends the log; the active memtable has it, or,
/// where it is full, waits with it to be written, and an empty one takes its place. The log
/// up to there is then marked as that of the one that waits.
pub proof fn lemma_logged_effect(v: LsmView, r: RecordView)
    ensures
        ({
            let w = logged(v, r);
            let log = v.name + ".wal"@;
            let active = replay_record(v.active, r);
            &&& w.files == v.files.insert(log, content(v.files, log) + encoded(r))
            &&& w.tables == v.tables
            &&& w.name == v.name
            &&& w.max_memtable_bytes == v.max_memtable_bytes
            &&& active.entries.contains_key(r.key)
            &&& active.entries[r.key].value == (if r.tombstone {
                None::<Seq<char>>
            } else {
                Some(r.value)
            })
            &&& active.size < v.max_memtable_bytes ==> w.active == active && w.immutable
                == v.immutable && w.mark == v.mark
            &&& active.size >= v.max_memtable_bytes ==> w.immutable == Some(active)
                && w.active.size == 0 && w.active.entries.dom() == Set::<Seq<char>>::empty()
                && w.mark == w.files[log].len()
        }),
{
    lemma_wal_name(v.name);
    assert(Map::<Seq<char>, EntryView>::empty().dom() =~= Set::<Seq<char>>::empty());
}

/// A memtable is written to the file `<name>_<nanoseconds>.sst`. The log then has what it
/// had from the mark on, and nothing waits.
pub proof fn lemma_flushed_effect(v: LsmView, tables: Seq<TableView>, now: Clock)
    requires
        v.mark <= content(v.files, wal_filename(v.name)).len(),
    ensures
        ({
            let w = flushed(v, tables, now);
            let f = v.name + "_"@ + decimal(now.ns as nat) + ".sst"@;
            let log = v.name + ".wal"@;
            &&& w.immutable is None
            &&& w.active == v.active
            &&& w.mark == 0
            &&& w.tables == tables
            &&& v.immutable is None ==> w.files == v.files
            &&& v.immutable matches Some(m) ==> w.files.contains_key(f) && w.files[f]
                == table_bytes(m.entries) && w.files.contains_key(log) && w.files[log] == content(
                v.files,
                log,
            ).skip(v.mark as int)
        }),
{
    lemma_wal_name(v.name);
    lemma_table_names(v.name, 0, now.ns);
    let f = table_filename(flush_id(v, now));
    reveal_strlit(".wal");
    reveal_strlit(".sst");
    assert(f.last() == 't');
    assert(wal_filename(v.name).last() == 'l');
}

/// A key is looked for in the active memtable first, then in the one that waits. One that
/// was deleted there, or that has expired, is not found, whatever the tables have.
pub proof fn lemma_memory_first(v: LsmView, key: Seq<char>, now_ms: u64)
    ensures
        v.active.entries.contains_key(key) ==> lsm_get(v, key, now_ms) == Ok::<
            Option<Seq<char>>,
            StoreError,
        >(
            match v.active.entries[key].expiry_ms {
                Some(t) => if t <= now_ms {
                    None
                } else {
                    v.active.entries[key].value
                },
                None => v.active.entries[key].value,
            },
        ),
        !v.active.entries.contains_key(key) && (v.immutable matches Some(m)
            && m.entries.contains_key(key)) ==> lsm_get(v, key, now_ms) == Ok::<
            Option<Seq<char>>,
            StoreError,
        >(
            match (v.immutable->0).entries[key].expiry_ms {
                Some(t) => if t <= now_ms {
                    None
                } else {
                    (v.immutable->0).entries[key].value
                },
                None => (v.immutable->0).entries[key].value,
            },
        ),
{
}

/// A store that is opened has the memtable that the log gives back, of which nothing waits,
/// and the limit that it was given. The log ends with its last whole record.
pub proof fn lemma_opened_effect(
    files: Files,
    name: Seq<char>,
    tables: Seq<TableView>,
    max_memtable_bytes: usize,
)
    ensures
        ({
            let v = opened(files, name, tables, max_memtable_bytes);
            let log = name + ".wal"@;
            &&& v.name == name
            &&& v.tables == tables
            &&& v.max_memtable_bytes == max_memtable_bytes
            &&& v.immutable is None
            &&& v.mark == 0
            &&& replayed(content(files, log)) matches Ok(m) ==> v.active == m
            &&& v.files == files.insert(log, v.files[log])
            &&& parse_stream(content(files, log), 0).1 is None ==> v.files[log] == content(
                files,
                log,
            )
        }),
{
    lemma_wal_name(name);
    let data = content(files, wal_filename(name));
    let v = opened(files, name, tables, max_memtable_bytes);
    assert(v.files =~= files.insert(wal_filename(name), v.files[wal_filename(name)]));
    if parse_stream(data, 0).1 is None {
        crate::record::lemma_whole_all(data);
        assert(data.take(data.len() as int) =~= data);
    }
}

/// A search through tables gives what the first one gives that has the key or cannot be
/// read. Where there is no such table, it finds nothing.
pub proof fn lemma_searched(files: Files, tables: Seq<TableView>, key: Seq<char>, i: int)
    requires
        0 <= i <= tables.len(),
        forall|j: int|
            0 <= j < i ==> table_lookup(files, #[trigger] tables[j], key) == Ok::<
                Option<EntryView>,
                StoreError,
            >(None),
    ensures
        i == tables.len() ==> search(files, tables, key) == Ok::<Option<EntryView>, StoreError>(
            None,
        ),
        i < tables.len() && !(table_lookup(files, tables[i], key) matches Ok(None)) ==> search(
            files,
            tables,
            key,
        ) == table_lookup(files, tables[i], key),
    decreases tables.len(),
{
    if i > 0 {
        let rest = tables.drop_first();
        assert forall|j: int| 0 <= j < i - 1 implies table_lookup(files, #[trigger] rest[j], key)
            == Ok::<Option<EntryView>, StoreError>(None) by {
            assert(rest[j] == tables[j + 1]);
        }
        assert(table_lookup(files, tables[0], key) == Ok::<Option<EntryView>, StoreError>(None));
        lemma_searched(files, rest, key, i - 1);
        if i < tables.len() {
            assert(rest[i - 1] == tables[i]);
        }
    }
}

/// A read of a key that is not in memory comes to what the tables for the key give: their
/// error, or the value, unless it has expired.
pub proof fn lemma_read_from_tables(v: LsmView, key: Seq<char>, now_ms: u64)
    requires
        !v.active.entries.contains_key(key),
        v.immutable matches Some(m) ==> !m.entries.contains_key(key),
    ensures
        lsm_get(v, key, now_ms) == (match search(v.files, tables_for_key(v.tables, key), key) {
            Err(e) => Err::<Option<Seq<char>>, StoreError>(e),
            Ok(None) => Ok(None),
            Ok(Some(e)) => if e.expiry_ms matches Some(t) && t <= now_ms {
                Ok(None)
            } else {
                Ok(e.value)
            },
        }),
{
}

} // verus!
