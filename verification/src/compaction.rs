//! How tables are kept, read in order, and merged.

use vstd::prelude::*;

use crate::bloom::slot;
use crate::directory::{content, Directory, Files};
use crate::engine::{unexpired, Clock, Contents, Live};
use crate::error::StoreError;
use crate::memtable::{record_entry, EntryView, MemtableEntry};
use crate::record::{lemma_parsed_within_limits, parse_stream, within_limits, RecordView};
use crate::sorted_map::{
    keys_of, lemma_orderable_insert, lemma_orderable_part, orderable, strictly_sorted,
    StringMap,
};
use crate::sstable::{
    entries_of, lemma_entries_of, lemma_parse_table_filename, lookup, parse_table, read_table,
    record_keys, record_views, split_level, table_entries, table_filename, table_valid,
    without_positions, writable, SSTable, TableId, TableView,
};
use crate::text::{key_le, key_lt, lemma_key_lt_total, lemma_key_lt_transitive};
use crate::utils::{expired, has_expired};

verus! {

/// What keys have, deletions included.
pub type Entries = Map<Seq<char>, EntryView>;

/// What tables together give their keys, where a table comes before those that it
/// overrides.
pub open spec fn layered(files: Files, tables: Seq<TableView>) -> Entries
    decreases tables.len(),
{
    if tables.len() == 0 {
        Map::empty()
    } else {
        layered(files, tables.drop_first()).union_prefer_right(table_entries(files, tables[0]))
    }
}

/// The keys that were not deleted.
pub open spec fn live(m: Entries) -> Contents {
    Map::new(
        |k: Seq<char>| m.contains_key(k) && m[k].value is Some,
        |k: Seq<char>| Live { value: m[k].value->0, expiry_ms: m[k].expiry_ms },
    )
}

/// What is left of the entries without deletions and what has expired.
pub open spec fn swept(m: Entries, now_ms: u64) -> Entries {
    m.restrict(
        Set::new(
            |k: Seq<char>|
                m.contains_key(k) && m[k].value is Some && !expired(m[k].expiry_ms, now_ms),
        ),
    )
}

/// Sweeping leaves the live keys that have not expired.
pub proof fn lemma_live_swept(m: Entries, now_ms: u64)
    ensures
        live(swept(m, now_ms)) == unexpired(live(m), now_ms),
{
    assert(live(swept(m, now_ms)) =~= unexpired(live(m), now_ms));
}

/// Whether every table is valid.
pub open spec fn all_valid(files: Files, tables: Seq<TableView>) -> bool {
    forall|i: int| 0 <= i < tables.len() ==> table_valid(files, #[trigger] tables[i])
}

/// Whether no two tables have the same file.
pub open spec fn distinct_paths(tables: Seq<TableView>) -> bool {
    forall|i: int, j: int|
        0 <= i < tables.len() && 0 <= j < tables.len() && i != j ==> (#[trigger] tables[i]).path
            != (#[trigger] tables[j]).path
}

/// Whether a file is that of one of some tables.
pub open spec fn has_path(tables: Seq<TableView>, f: Seq<char>) -> bool {
    exists|i: int| 0 <= i < tables.len() && (#[trigger] tables[i]).path == f
}

/// Whether a file is that of a table of some name and timestamp, of whatever level.
pub open spec fn is_table_of(f: Seq<char>, name: Seq<char>, timestamp: u64) -> bool {
    exists|level: Option<usize>| f == #[trigger] table_filename(TableId { name, level, timestamp })
}

/// Whether no table of that name and timestamp is there yet.
pub open spec fn unused(files: Files, name: Seq<char>, timestamp: u64) -> bool {
    forall|level: Option<usize>|
        !files.contains_key(#[trigger] table_filename(TableId { name, level, timestamp }))
}

/// Whether all tables were begun before some time.
pub open spec fn older(tables: Seq<TableView>, ns: u64) -> bool {
    forall|t: TableView| #[trigger] tables.contains(t) ==> t.id.timestamp < ns
}

/// Whether a file name is that of a table of `name`.
pub open spec fn names_table(f: Seq<char>, name: Seq<char>) -> bool {
    match parse_table(f) {
        Some(id) => id.name == name,
        None => false,
    }
}

/// Whether the tables of `name` in a directory are those that are known: each is
/// named as it was begun, and none is left out.
pub open spec fn registered(files: Files, name: Seq<char>, tables: Seq<TableView>) -> bool {
    &&& forall|t: TableView| #[trigger]
        tables.contains(t) ==> parse_table(t.path) == Some(t.id) && t.id.name == name
    &&& forall|f: Seq<char>| #[trigger]
        files.contains_key(f) && names_table(f, name) ==> has_path(tables, f)
}

/// Whether the tables of `name` can be told by their names, with or without a level.
pub open spec fn tellable(name: Seq<char>) -> bool {
    split_level(name) is None
}

/// Where all tables were begun before some time, none is there of a later one.
pub proof fn lemma_unused(files: Files, name: Seq<char>, tables: Seq<TableView>, ns: u64)
    requires
        registered(files, name, tables),
        tellable(name),
        older(tables, ns),
    ensures
        unused(files, name, ns),
{
    assert forall|level: Option<usize>|
        !files.contains_key(
            #[trigger] table_filename(TableId { name, level, timestamp: ns }),
        ) by {
        let id = TableId { name, level, timestamp: ns };
        let f = table_filename(id);
        lemma_parse_table_filename(id);
        if files.contains_key(f) {
            assert(names_table(f, name));
            let i = choose|i: int| 0 <= i < tables.len() && (#[trigger] tables[i]).path == f;
            assert(tables.contains(tables[i]));
        }
    }
}

/// A table in front of others has a file of its own.
pub proof fn lemma_distinct_front(a: TableView, t: Seq<TableView>)
    ensures
        distinct_paths(seq![a] + t) <==> distinct_paths(t) && !has_path(t, a.path),
{
    let s = seq![a] + t;
    assert forall|i: int| 0 <= i < t.len() implies #[trigger] t[i] == s[i + 1] by {}
    if distinct_paths(s) {
        assert forall|i: int, j: int| 0 <= i < t.len() && 0 <= j < t.len() && i != j implies (
        #[trigger] t[i]).path != (#[trigger] t[j]).path by {
            assert(s[i + 1].path != s[j + 1].path);
        }
        if has_path(t, a.path) {
            let i = choose|i: int| 0 <= i < t.len() && (#[trigger] t[i]).path == a.path;
            assert(s[0].path == s[i + 1].path);
        }
    }
    if distinct_paths(t) && !has_path(t, a.path) {
        assert forall|i: int, j: int| 0 <= i < s.len() && 0 <= j < s.len() && i != j implies (
        #[trigger] s[i]).path != (#[trigger] s[j]).path by {
            if i == 0 {
                assert(t[j - 1] == s[j]);
            } else if j == 0 {
                assert(t[i - 1] == s[i]);
            } else {
                assert(t[i - 1].path != t[j - 1].path);
            }
        }
    }
}

/// A table behind others has a file of its own.
pub proof fn lemma_distinct_back(t: Seq<TableView>, a: TableView)
    ensures
        distinct_paths(t.push(a)) <==> distinct_paths(t) && !has_path(t, a.path),
{
    let s = t.push(a);
    if distinct_paths(s) {
        assert forall|i: int, j: int| 0 <= i < t.len() && 0 <= j < t.len() && i != j implies (
        #[trigger] t[i]).path != (#[trigger] t[j]).path by {
            assert(s[i].path != s[j].path);
        }
        if has_path(t, a.path) {
            let i = choose|i: int| 0 <= i < t.len() && (#[trigger] t[i]).path == a.path;
            assert(s[i].path == s[t.len() as int].path);
        }
    }
    if distinct_paths(t) && !has_path(t, a.path) {
        assert forall|i: int, j: int| 0 <= i < s.len() && 0 <= j < s.len() && i != j implies (
        #[trigger] s[i]).path != (#[trigger] s[j]).path by {
            if i == t.len() {
                assert(t[j] == s[j]);
            } else if j == t.len() {
                assert(t[i] == s[i]);
            } else {
                assert(t[i].path != t[j].path);
            }
        }
    }
}

/// What tables give depends on their files alone.
pub proof fn lemma_layered_same(a: Files, b: Files, tables: Seq<TableView>)
    requires
        forall|i: int|
            0 <= i < tables.len() ==> {
                &&& a.contains_key((#[trigger] tables[i]).path) == b.contains_key(tables[i].path)
                &&& content(a, tables[i].path) == content(b, tables[i].path)
            },
        all_valid(a, tables),
    ensures
        layered(b, tables) == layered(a, tables),
        all_valid(b, tables),
    decreases tables.len(),
{
    assert forall|i: int| 0 <= i < tables.len() implies table_valid(b, #[trigger] tables[i])
        && table_entries(b, tables[i]) == table_entries(a, tables[i]) by {
        assert(table_valid(a, tables[i]));
        assert(content(a, tables[i].path) == content(b, tables[i].path));
    }
    if tables.len() > 0 {
        let rest = tables.drop_first();
        assert forall|i: int| 0 <= i < rest.len() implies {
            &&& a.contains_key((#[trigger] rest[i]).path) == b.contains_key(rest[i].path)
            &&& content(a, rest[i].path) == content(b, rest[i].path)
            &&& table_valid(a, rest[i])
        } by {
            assert(rest[i] == tables[i + 1]);
            assert(table_valid(a, tables[i + 1]));
        }
        lemma_layered_same(a, b, rest);
        assert(table_entries(b, tables[0]) == table_entries(a, tables[0]));
    }
}

/// A single table gives what it has.
pub proof fn lemma_layered_one(files: Files, t: TableView)
    ensures
        layered(files, seq![t]) == table_entries(files, t),
{
    let none = Seq::<TableView>::empty();
    assert(seq![t].drop_first() =~= none);
    assert(layered(files, none) == Map::<Seq<char>, EntryView>::empty());
    assert(layered(files, seq![t]) =~= table_entries(files, t));
}

/// Layers on top of layers.
pub proof fn lemma_layered_concat(files: Files, a: Seq<TableView>, b: Seq<TableView>)
    ensures
        layered(files, a + b) == layered(files, b).union_prefer_right(layered(files, a)),
    decreases a.len(),
{
    if a.len() == 0 {
        assert(a + b =~= b);
        assert(layered(files, b).union_prefer_right(layered(files, a)) =~= layered(files, b));
    } else {
        assert((a + b).drop_first() =~= a.drop_first() + b);
        lemma_layered_concat(files, a.drop_first(), b);
        assert(layered(files, a + b) =~= layered(files, b).union_prefer_right(layered(files, a)));
    }
}

/// A key that some tables give is a key of one of them.
pub proof fn lemma_layered_key(files: Files, tables: Seq<TableView>, k: Seq<char>)
    ensures
        layered(files, tables).contains_key(k) <==> exists|i: int|
            0 <= i < tables.len() && table_entries(files, #[trigger] tables[i]).contains_key(k),
    decreases tables.len(),
{
    if tables.len() > 0 {
        let rest = tables.drop_first();
        lemma_layered_key(files, rest, k);
        if layered(files, tables).contains_key(k) {
            if table_entries(files, tables[0]).contains_key(k) {
            } else {
                let i = choose|i: int|
                    0 <= i < rest.len() && table_entries(files, #[trigger] rest[i]).contains_key(k);
                assert(rest[i] == tables[i + 1]);
            }
        }
        if exists|i: int|
            0 <= i < tables.len() && table_entries(files, #[trigger] tables[i]).contains_key(k) {
            let i = choose|i: int|
                0 <= i < tables.len() && table_entries(files, #[trigger] tables[i]).contains_key(k);
            if i > 0 {
                assert(rest[i - 1] == tables[i]);
            }
        }
    }
}

/// The entries after some records were added that do not override those before
/// them.
pub open spec fn absorbed(m: Entries, rs: Seq<RecordView>) -> Entries
    decreases rs.len(),
{
    if rs.len() == 0 {
        m
    } else {
        let before = absorbed(m, rs.drop_last());
        let r = rs.last();
        if before.contains_key(r.key) {
            before
        } else {
            before.insert(r.key, record_entry(r))
        }
    }
}

/// Adding the records of a table adds what it gives the keys that are not there.
pub proof fn lemma_absorbed(m: Entries, records: Seq<(int, RecordView)>)
    requires
        strictly_sorted(record_keys(records)),
    ensures
        absorbed(m, without_positions(records)) == entries_of(records).union_prefer_right(m),
    decreases records.len(),
{
    let rs = without_positions(records);
    if records.len() == 0 {
        assert(entries_of(records).union_prefer_right(m) =~= m);
    } else {
        let init = records.drop_last();
        let keys = record_keys(records);
        let ik = record_keys(init);
        assert forall|i: int, j: int| 0 <= i < j < ik.len() implies key_lt(
            #[trigger] ik[i],
            #[trigger] ik[j],
        ) by {
            assert(ik[i] == keys[i]);
            assert(ik[j] == keys[j]);
        }
        lemma_absorbed(m, init);
        assert(rs.drop_last() =~= without_positions(init));
        lemma_entries_of(init);
        let k = records.last().1.key;
        assert(!entries_of(init).contains_key(k)) by {
            if ik.contains(k) {
                let i = ik.index_of(k);
                assert(keys[i] == k);
                assert(keys[keys.len() - 1] == k);
                lemma_key_lt_total(keys[i], keys[keys.len() - 1]);
            }
        }
        assert(absorbed(m, rs) =~= entries_of(records).union_prefer_right(m));
    }
}

/// Entries that come from records can be written as records.
pub proof fn lemma_absorbed_writable(m: Entries, rs: Seq<RecordView>)
    requires
        writable(m),
        forall|i: int| 0 <= i < rs.len() ==> within_limits(#[trigger] rs[i]),
    ensures
        writable(absorbed(m, rs)),
    decreases rs.len(),
{
    if rs.len() > 0 {
        let init = rs.drop_last();
        assert forall|i: int| 0 <= i < init.len() implies within_limits(#[trigger] init[i]) by {
            assert(init[i] == rs[i]);
        }
        lemma_absorbed_writable(m, init);
        assert(within_limits(rs[rs.len() - 1]));
        assert(crate::text::byte_len(Seq::<char>::empty()) == 0) by {
            lemma_empty_len();
        }
    }
}

proof fn lemma_empty_len()
    ensures
        crate::text::byte_len(Seq::<char>::empty()) == 0,
{
    reveal_with_fuel(vstd::utf8::encode_utf8, 2);
}

/// Entries to which records are added can be brought into an order.
pub proof fn lemma_absorbed_orderable(m: Entries, rs: Seq<RecordView>)
    requires
        orderable(m),
    ensures
        orderable(absorbed(m, rs)),
    decreases rs.len(),
{
    if rs.len() > 0 {
        lemma_absorbed_orderable(m, rs.drop_last());
        lemma_orderable_insert(absorbed(m, rs.drop_last()), rs.last().key, record_entry(rs.last()));
    }
}

proof fn lemma_empty_orderable()
    ensures
        orderable(Map::<Seq<char>, EntryView>::empty()),
{
    assert(keys_of(Map::<Seq<char>, EntryView>::empty(), Seq::empty()));
}

/// Entries that are merged can be brought into an order.
pub proof fn lemma_merged_orderable(files: Files, tables: Seq<TableView>)
    ensures
        match merged(files, Map::empty(), tables) {
            Ok(m) => orderable(m),
            Err(_) => true,
        },
    decreases tables.len(),
{
    if tables.len() == 0 {
        lemma_empty_orderable();
    } else {
        lemma_merged_orderable(files, tables.drop_last());
        if let Ok(before) = merged(files, Map::empty(), tables.drop_last()) {
            if let Ok(records) = read_table(files, tables.last().path) {
                lemma_absorbed_orderable(before, without_positions(records));
            }
        }
    }
}

/// Entries that are collected can be brought into an order.
pub proof fn lemma_collected_orderable(files: Files, tables: Seq<TableView>)
    ensures
        orderable(collected(files, tables).1),
    decreases tables.len(),
{
    if tables.len() == 0 {
        lemma_empty_orderable();
    } else {
        lemma_collected_orderable(files, tables.drop_last());
        let (left, m, end) = collected(files, tables.drop_last());
        if let Ok(records) = read_table(left, tables.last().path) {
            lemma_absorbed_orderable(m, without_positions(records));
        }
    }
}

/// What sweeping leaves can be brought into an order.
pub proof fn lemma_swept_orderable(m: Entries, now_ms: u64)
    requires
        orderable(m),
    ensures
        orderable(swept(m, now_ms)),
{
    lemma_orderable_part(m, swept(m, now_ms));
}

/// The keys of a valid table lie between the smallest and the largest that are kept
/// of it in memory.
pub proof fn lemma_key_bounds(files: Files, t: TableView, k: Seq<char>)
    requires
        table_valid(files, t),
        table_entries(files, t).contains_key(k),
    ensures
        t.index.min is Some,
        t.index.max is Some,
        !key_lt(k, t.index.min->0),
        !key_lt(t.index.max->0, k),
{
    let records = parse_stream(files[t.path], 0).0;
    let keys = record_keys(records);
    lemma_entries_of(records);
    let i = keys.index_of(k);
    assert(keys.contains(k));
    lemma_key_lt_total(k, keys[0]);
    lemma_key_lt_total(keys.last(), k);
    if i > 0 {
        assert(key_lt(keys[0], keys[i]));
    }
    if i < keys.len() - 1 {
        assert(key_lt(keys[i], keys[keys.len() - 1]));
    }
}

/// The records that can be read from a table are within the limits.
pub proof fn lemma_read_limits(files: Files, path: Seq<char>)
    ensures
        match read_table(files, path) {
            Ok(records) => forall|i: int|
                0 <= i < records.len() ==> within_limits(
                    #[trigger] without_positions(records)[i],
                ),
            Err(_) => true,
        },
{
    if let Ok(records) = read_table(files, path) {
        assert forall|i: int| 0 <= i < records.len() implies within_limits(
            #[trigger] without_positions(records)[i],
        ) by {
            crate::record::lemma_parse_stream_at(files[path], 0, i);
            lemma_parsed_within_limits(files[path].skip(records[i].0));
        }
    }
}

/// The entries of tables, read in their order, where the first one that has a key
/// counts; and the error that stopped the reading.
pub open spec fn merged(files: Files, m: Entries, tables: Seq<TableView>) -> Result<
    Entries,
    StoreError,
>
    decreases tables.len(),
{
    if tables.len() == 0 {
        Ok(m)
    } else {
        match merged(files, m, tables.drop_last()) {
            Err(e) => Err(e),
            Ok(before) => match read_table(files, tables.last().path) {
                Err(e) => Err(e),
                Ok(records) => Ok(absorbed(before, without_positions(records))),
            },
        }
    }
}

/// Merging valid tables in their order gives what they give together.
pub proof fn lemma_merged(files: Files, m: Entries, tables: Seq<TableView>)
    requires
        all_valid(files, tables),
        writable(m),
    ensures
        merged(files, m, tables) == Ok::<Entries, StoreError>(
            layered(files, tables).union_prefer_right(m),
        ),
        writable(layered(files, tables).union_prefer_right(m)),
    decreases tables.len(),
{
    if tables.len() == 0 {
        assert(layered(files, tables).union_prefer_right(m) =~= m);
    } else {
        let init = tables.drop_last();
        let last = tables.last();
        assert forall|i: int| 0 <= i < init.len() implies table_valid(files, #[trigger] init[i]) by {
            assert(init[i] == tables[i]);
        }
        lemma_merged(files, m, init);
        assert(table_valid(files, tables[tables.len() - 1]));
        let records = parse_stream(files[last.path], 0).0;
        let before = layered(files, init).union_prefer_right(m);
        lemma_absorbed(before, records);
        lemma_read_limits(files, last.path);
        lemma_absorbed_writable(before, without_positions(records));
        assert(tables =~= init + seq![last]);
        lemma_layered_concat(files, init, seq![last]);
        lemma_layered_one(files, last);
        assert(table_entries(files, last).union_prefer_right(before) =~= layered(
            files,
            tables,
        ).union_prefer_right(m));
    }
}

proof fn lemma_merged_stops(files: Files, m: Entries, tables: Seq<TableView>, n: int)
    requires
        0 <= n <= tables.len(),
        merged(files, m, tables.take(n)) is Err,
    ensures
        merged(files, m, tables) == merged(files, m, tables.take(n)),
    decreases tables.len() - n,
{
    if n == tables.len() {
        assert(tables.take(n) =~= tables);
    } else {
        assert(tables.take(n + 1).drop_last() =~= tables.take(n));
        lemma_merged_stops(files, m, tables, n + 1);
    }
}

/// Adds the records of tables, one after the other, to entries that override them.
pub fn merge_tables(
    entries: &mut StringMap<MemtableEntry>,
    dir: &Directory,
    tables: &Vec<&SSTable>,
) -> (r: Result<(), StoreError>)
    requires
        old(entries).wf(),
        dir.wf(),
    ensures
        final(entries).wf(),
        match r {
            Ok(_) => merged(dir@, old(entries)@, ref_views(tables@)) == Ok::<Entries, StoreError>(
                final(entries)@,
            ),
            Err(e) => merged(dir@, old(entries)@, ref_views(tables@)) == Err::<Entries, StoreError>(
                e,
            ),
        },
{
    let ghost tv = ref_views(tables@);
    assert(tv.take(0) =~= Seq::<TableView>::empty());
    for i in 0..tables.len()
        invariant
            dir.wf(),
            entries.wf(),
            tv == ref_views(tables@),
            merged(dir@, old(entries)@, tv.take(i as int)) == Ok::<Entries, StoreError>(entries@),
    {
        let t = tables[i];
        assert(tv[i as int] == t@);
        assert(tv.take(i + 1).drop_last() =~= tv.take(i as int));
        match merge_table(entries, dir, t) {
            Ok(_) => {},
            Err(e) => {
                proof {
                    lemma_merged_stops(dir@, old(entries)@, tv, i + 1);
                }
                return Err(e);
            },
        }
    }
    assert(tv.take(tables@.len() as int) =~= tv);
    Ok(())
}

/// Adds the records of a table to entries that override them.
pub fn merge_table(entries: &mut StringMap<MemtableEntry>, dir: &Directory, table: &SSTable) -> (r:
    Result<(), StoreError>)
    requires
        old(entries).wf(),
        dir.wf(),
    ensures
        final(entries).wf(),
        match r {
            Ok(_) => match read_table(dir@, table@.path) {
                Ok(records) => final(entries)@ == absorbed(
                    old(entries)@,
                    without_positions(records),
                ),
                Err(_) => false,
            },
            Err(e) => {
                &&& read_table(dir@, table@.path) == Err::<Seq<(int, RecordView)>, StoreError>(e)
                &&& final(entries)@ == old(entries)@
            },
        },
{
    let mut records = match table.read_all(dir) {
        Ok(v) => v,
        Err(e) => {
            return Err(e);
        },
    };
    let ghost rs = record_views(records@);
    let n = records.len();
    assert(rs.take(0) =~= Seq::<RecordView>::empty());
    for i in 0..n
        invariant
            entries.wf(),
            rs.len() == n,
            rs == record_views(records@),
            entries@ == absorbed(old(entries)@, rs.take(i as int)),
    {
        assert(rs.take(i + 1).drop_last() =~= rs.take(i as int));
        let record = &records[i];
        assert(rs[i as int] == record@);
        if !entries.contains(record.key.as_str()) {
            let entry = if record.header.tombstone {
                MemtableEntry { value: None, expiry_ms: None }
            } else {
                MemtableEntry {
                    value: Some(record.value.clone()),
                    expiry_ms: record.header.expiry_ms,
                }
            };
            let _ = entries.insert(record.key.clone(), entry);
        }
    }
    assert(rs.take(n as int) =~= rs);
    Ok(())
}

/// The entries of tables that are read in their order, each removed once it was
/// read; with the directory that is left, and the error that stopped it.
pub open spec fn collected(files: Files, tables: Seq<TableView>) -> (
    Files,
    Entries,
    Option<StoreError>,
)
    decreases tables.len(),
{
    if tables.len() == 0 {
        (files, Map::empty(), None)
    } else {
        let (left, m, end) = collected(files, tables.drop_last());
        if end is Some {
            (left, m, end)
        } else {
            match read_table(left, tables.last().path) {
                Err(e) => (left, m, Some(e)),
                Ok(records) => (
                    left.remove(tables.last().path),
                    absorbed(m, without_positions(records)),
                    None,
                ),
            }
        }
    }
}

/// Collecting removes files of the tables, and nothing else.
pub proof fn lemma_collected_files(files: Files, tables: Seq<TableView>)
    ensures
        ({
            let left = collected(files, tables).0;
            &&& forall|f: Seq<char>| #[trigger] left.contains_key(f) ==> files.contains_key(f)
                && left[f] == files[f]
            &&& forall|f: Seq<char>|
                !has_path(tables, f) ==> (#[trigger] left.contains_key(f) <==> files.contains_key(
                    f,
                ))
        }),
    decreases tables.len(),
{
    if tables.len() > 0 {
        let init = tables.drop_last();
        lemma_collected_files(files, init);
        let left = collected(files, tables).0;
        assert forall|f: Seq<char>| #[trigger] left.contains_key(f) implies files.contains_key(f)
            && left[f] == files[f] by {
            assert(collected(files, init).0.contains_key(f));
        }
        assert forall|f: Seq<char>| !has_path(tables, f) implies (#[trigger] left.contains_key(f)
            <==> files.contains_key(f)) by {
            assert(!has_path(init, f)) by {
                if has_path(init, f) {
                    let i = choose|i: int| 0 <= i < init.len() && (#[trigger] init[i]).path == f;
                    assert(tables[i].path == f);
                }
            }
            assert(tables[tables.len() - 1].path != f);
            assert(collected(files, init).0.contains_key(f) <==> files.contains_key(f));
        }
    }
}

/// Collecting tables in good order gives what they give together, and leaves none
/// of their files.
pub proof fn lemma_collected(files: Files, tables: Seq<TableView>)
    requires
        in_order(files, tables),
    ensures
        ({
            let (left, m, end) = collected(files, tables);
            &&& end is None
            &&& m == layered(files, tables)
            &&& writable(m)
            &&& forall|i: int|
                0 <= i < tables.len() ==> !left.contains_key((#[trigger] tables[i]).path)
        }),
    decreases tables.len(),
{
    if tables.len() > 0 {
        let init = tables.drop_last();
        let last = tables.last();
        assert forall|i: int| 0 <= i < init.len() implies table_valid(files, #[trigger] init[i]) by {
            assert(init[i] == tables[i]);
        }
        assert forall|i: int, j: int|
            0 <= i < init.len() && 0 <= j < init.len() && i != j implies (#[trigger] init[i]).path
            != (#[trigger] init[j]).path by {
            assert(init[i] == tables[i]);
            assert(init[j] == tables[j]);
        }
        lemma_collected(files, init);
        lemma_collected_files(files, init);
        let (left, m, end) = collected(files, init);
        assert(table_valid(files, tables[tables.len() - 1]));
        assert(!has_path(init, last.path)) by {
            if has_path(init, last.path) {
                let i = choose|i: int|
                    0 <= i < init.len() && (#[trigger] init[i]).path == last.path;
                assert(tables[i].path == tables[tables.len() - 1].path);
            }
        }
        assert(left.contains_key(last.path));
        let records = parse_stream(files[last.path], 0).0;
        lemma_absorbed(m, records);
        lemma_read_limits(left, last.path);
        lemma_absorbed_writable(m, without_positions(records));
        assert(tables =~= init + seq![last]);
        lemma_layered_concat(files, init, seq![last]);
        lemma_layered_one(files, last);
        assert forall|i: int| 0 <= i < tables.len() implies !collected(
            files,
            tables,
        ).0.contains_key((#[trigger] tables[i]).path) by {
            if i < init.len() {
                assert(init[i] == tables[i]);
            }
        }
    }
}

/// Collects tables in their order: reads each, then removes its file.
pub fn collect(dir: &mut Directory, tables: &Vec<&SSTable>) -> (r: Result<
    StringMap<MemtableEntry>,
    StoreError,
>)
    requires
        old(dir).wf(),
    ensures
        final(dir).wf(),
        final(dir).base() == old(dir).base(),
        ({
            let (left, m, end) = collected(old(dir)@, ref_views(tables@));
            &&& final(dir)@ == left
            &&& match r {
                Ok(entries) => end is None && entries.wf() && entries@ == m,
                Err(e) => end == Some(e),
            }
        }),
{
    let mut entries: StringMap<MemtableEntry> = StringMap::new();
    let ghost tv = ref_views(tables@);
    assert(tv.take(0) =~= Seq::<TableView>::empty());
    for i in 0..tables.len()
        invariant
            dir.wf(),
            dir.base() == old(dir).base(),
            entries.wf(),
            tv == ref_views(tables@),
            collected(old(dir)@, tv.take(i as int)) == (dir@, entries@, None::<StoreError>),
    {
        let t = tables[i];
        assert(tv[i as int] == t@);
        assert(tv.take(i + 1).drop_last() =~= tv.take(i as int));
        match merge_table(&mut entries, dir, t) {
            Ok(_) => {},
            Err(e) => {
                proof {
                    lemma_collected_stops(old(dir)@, tv, i + 1);
                }
                return Err(e);
            },
        }
        dir.remove(t.path_str());
    }
    assert(tv.take(tables@.len() as int) =~= tv);
    Ok(entries)
}

proof fn lemma_collected_stops(files: Files, tables: Seq<TableView>, n: int)
    requires
        0 <= n <= tables.len(),
        collected(files, tables.take(n)).2 is Some,
    ensures
        collected(files, tables) == collected(files, tables.take(n)),
    decreases tables.len() - n,
{
    if n == tables.len() {
        assert(tables.take(n) =~= tables);
    } else {
        assert(tables.take(n + 1).drop_last() =~= tables.take(n));
        lemma_collected_stops(files, tables, n + 1);
    }
}

/// Removes deletions and what has expired.
pub fn sweep(entries: &mut StringMap<MemtableEntry>, now_ms: u64)
    requires
        old(entries).wf(),
    ensures
        final(entries).wf(),
        final(entries)@ == swept(old(entries)@, now_ms),
{
    let ghost m = entries@;
    let mut i: usize = entries.len();
    while i > 0
        invariant
            m == old(entries)@,
            entries.wf(),
            i <= entries.keys_seq().len(),
            entries@.submap_of(m),
            forall|j: int|
                i <= j < entries.keys_seq().len() ==> (#[trigger] entries.values_seq()[j]).value
                    is Some && !expired(entries.values_seq()[j].expiry_ms, now_ms),
            forall|k: Seq<char>| #[trigger]
                m.contains_key(k) && m[k].value is Some && !expired(m[k].expiry_ms, now_ms)
                    ==> entries@.contains_key(k),
        decreases i,
    {
        i = i - 1;
        proof {
            entries.lemma_at(i as int);
        }
        let e = entries.value_at(i);
        if e.value.is_none() || has_expired(e.expiry_ms, now_ms) {
            let _ = entries.remove_at(i);
        }
    }
    proof {
        assert forall|k: Seq<char>| #[trigger] entries@.contains_key(k) implies m[k].value is Some
            && !expired(m[k].expiry_ms, now_ms) by {
            let j = entries.lemma_position(k);
            assert(entries.values_seq()[j].value is Some);
        }
        assert(entries@ =~= swept(m, now_ms));
    }
}

/// Sweeping leaves entries that can be written.
pub proof fn lemma_swept_writable(m: Entries, now_ms: u64)
    requires
        writable(m),
    ensures
        writable(swept(m, now_ms)),
{
    assert forall|k: Seq<char>| #[trigger] swept(m, now_ms).contains_key(k) implies within_limits(
        crate::memtable::entry_record(k, swept(m, now_ms)[k]),
    ) && (swept(m, now_ms)[k].value is None ==> swept(m, now_ms)[k].expiry_ms is None) by {
        assert(m.contains_key(k));
    }
}

/// The tables whose filter does not rule out a key.
pub open spec fn tables_for_key(tables: Seq<TableView>, key: Seq<char>) -> Seq<TableView>
    decreases tables.len(),
{
    if tables.len() == 0 {
        Seq::empty()
    } else {
        let before = tables_for_key(tables.drop_last(), key);
        if tables.last().index.bloom.might_contain(key) {
            before.push(tables.last())
        } else {
            before
        }
    }
}

/// Whether the keys of a table can lie between two keys, both included.
pub open spec fn overlaps(t: TableView, start: Seq<char>, end: Seq<char>) -> bool {
    match (t.index.min, t.index.max) {
        (Some(min), Some(max)) => !key_lt(max, start) && !key_lt(end, min),
        _ => false,
    }
}

/// The tables whose keys can lie between two keys.
pub open spec fn tables_for_range(
    tables: Seq<TableView>,
    start: Seq<char>,
    end: Seq<char>,
) -> Seq<TableView>
    decreases tables.len(),
{
    if tables.len() == 0 {
        Seq::empty()
    } else {
        let before = tables_for_range(tables.drop_last(), start, end);
        if overlaps(tables.last(), start, end) {
            before.push(tables.last())
        } else {
            before
        }
    }
}

/// What the tables of a vector of references are.
pub open spec fn ref_views(v: Seq<&SSTable>) -> Seq<TableView> {
    v.map_values(|t: &SSTable| t@)
}

/// Whether each of some tables is well-formed.
pub open spec fn refs_wf(v: Seq<&SSTable>) -> bool {
    forall|i: int| 0 <= i < v.len() ==> (#[trigger] v[i]).wf()
}

/// The tables of a vector whose filter does not rule out a key.
pub fn select_for_key<'a>(tables: Vec<&'a SSTable>, key: &str) -> (out: Vec<&'a SSTable>)
    requires
        refs_wf(tables@),
    ensures
        refs_wf(out@),
        ref_views(out@) == tables_for_key(ref_views(tables@), key@),
{
    let ghost tv = ref_views(tables@);
    let mut out: Vec<&'a SSTable> = Vec::new();
    assert(tv.take(0) =~= Seq::<TableView>::empty());
    assert(ref_views(out@) =~= Seq::<TableView>::empty());
    for i in 0..tables.len()
        invariant
            refs_wf(tables@),
            refs_wf(out@),
            tv == ref_views(tables@),
            ref_views(out@) == tables_for_key(tv.take(i as int), key@),
    {
        let t = tables[i];
        assert(tv[i as int] == t@);
        assert(tables@[i as int].wf());
        assert(tv.take(i + 1).drop_last() =~= tv.take(i as int));
        if t.might_contain(key) {
            let ghost before = ref_views(out@);
            out.push(t);
            assert(ref_views(out@) =~= before.push(t@));
        }
    }
    assert(tv.take(tables@.len() as int) =~= tv);
    out
}

/// Whether the keys of a table can lie between two keys, both included.
pub fn table_overlaps(t: &SSTable, start: &str, end: &str) -> (r: bool)
    ensures
        r == overlaps(t@, start@, end@),
{
    match (t.get_min(), t.get_max()) {
        (Some(min), Some(max)) => {
            proof {
                lemma_key_lt_total(max@, start@);
                lemma_key_lt_total(end@, min@);
            }
            let before = match crate::text::rank(max.as_str(), start) {
                crate::text::Rank::Before => true,
                _ => false,
            };
            let after = match crate::text::rank(end, min.as_str()) {
                crate::text::Rank::Before => true,
                _ => false,
            };
            !before && !after
        },
        _ => false,
    }
}

/// The tables of a vector whose keys can lie between two keys.
pub fn select_for_range<'a>(tables: Vec<&'a SSTable>, start: &str, end: &str) -> (out: Vec<
    &'a SSTable,
>)
    requires
        refs_wf(tables@),
    ensures
        refs_wf(out@),
        ref_views(out@) == tables_for_range(ref_views(tables@), start@, end@),
{
    let ghost tv = ref_views(tables@);
    let mut out: Vec<&'a SSTable> = Vec::new();
    assert(tv.take(0) =~= Seq::<TableView>::empty());
    assert(ref_views(out@) =~= Seq::<TableView>::empty());
    for i in 0..tables.len()
        invariant
            refs_wf(tables@),
            refs_wf(out@),
            tv == ref_views(tables@),
            ref_views(out@) == tables_for_range(tv.take(i as int), start@, end@),
    {
        let t = tables[i];
        assert(tv[i as int] == t@);
        assert(tables@[i as int].wf());
        assert(tv.take(i + 1).drop_last() =~= tv.take(i as int));
        if table_overlaps(t, start, end) {
            let ghost before = ref_views(out@);
            out.push(t);
            assert(ref_views(out@) =~= before.push(t@));
        }
    }
    assert(tv.take(tables@.len() as int) =~= tv);
    out
}

/// Whether tables are in good order: their files are whole, each has its own.
pub open spec fn in_order(files: Files, tables: Seq<TableView>) -> bool {
    all_valid(files, tables) && distinct_paths(tables)
}

/// Keeps tables, and decides which of them are merged and when.
pub trait CompactionStrategy: Sized {
    /// Whether what is held in memory is consistent in itself.
    spec fn wf(&self) -> bool;

    /// The tables, the newest first.
    spec fn tables(&self) -> Seq<TableView>;

    /// Whether a table can be added: the strategy has a place for it.
    spec fn ready(&self) -> bool;

    /// Whether the tables are arranged so that merging some of them is safe.
    spec fn arranged(&self, files: Files) -> bool;

    /// How the tables are arranged depends on their files alone.
    proof fn lemma_arranged(&self, a: Files, b: Files)
        requires
            self.arranged(a),
            all_valid(a, self.tables()),
            forall|t: TableView| #[trigger]
                self.tables().contains(t) ==> a.contains_key(t.path) == b.contains_key(t.path)
                    && content(a, t.path) == content(b, t.path),
        ensures
            self.arranged(b),
    ;

    /// Why a table is refused, if it is.
    spec fn add_error(&self, files: Files, t: TableView) -> Option<StoreError>;

    /// Whether that is the strategy after it took a table on.
    spec fn added(&self, files: Files, t: TableView, after: Self) -> bool;

    /// What a step of compaction comes to: the strategy and the files after it, and
    /// whether one ran.
    spec fn step_done(
        &self,
        files: Files,
        db_name: Seq<char>,
        now: Clock,
        after: Self,
        left: Files,
        r: Result<bool, StoreError>,
    ) -> bool;

    /// What merging all tables comes to: the strategy and the files after it.
    spec fn all_done(
        &self,
        files: Files,
        db_name: Seq<char>,
        now: Clock,
        after: Self,
        left: Files,
        r: Result<(), StoreError>,
    ) -> bool;

    /// A table whose file is there can be added where the others are in order.
    proof fn lemma_add_error(&self, files: Files, t: TableView)
        requires
            self.ready(),
            in_order(files, self.tables()),
            files.contains_key(t.path),
        ensures
            self.add_error(files, t) is None,
    ;

    /// Called after every flush of a memtable.
    fn add_sstable(&mut self, dir: &Directory, sst: SSTable) -> (r: Result<(), StoreError>)
        requires
            old(self).wf(),
            sst.wf(),
            dir.wf(),
        ensures
            final(self).wf(),
            match r {
                Ok(_) => {
                    &&& old(self).add_error(dir@, sst@) is None
                    &&& old(self).added(dir@, sst@, *final(self))
                },
                Err(e) => {
                    &&& old(self).add_error(dir@, sst@) == Some(e)
                    &&& *final(self) == *old(self)
                },
            },
            forall|t: TableView| #[trigger]
                final(self).tables().contains(t) ==> old(self).tables().contains(t) || t == sst@,
            old(self).ready() ==> final(self).ready(),
            ({
                &&& old(self).ready()
                &&& in_order(dir@, old(self).tables())
                &&& dir@.contains_key(sst@.path)
                &&& older(old(self).tables(), sst@.id.timestamp)
            }) ==> {
                &&& r is Ok
                &&& final(self).tables() == seq![sst@] + old(self).tables()
                &&& old(self).arranged(dir@) && sst@.id.level is None ==> final(self).arranged(dir@)
            },
    ;

    /// Called from time to time. Runs at most one step of compaction, and says
    /// whether one ran.
    fn compact_if_needed(&mut self, dir: &mut Directory, db_name: &str, now: Clock) -> (r: Result<
        bool,
        StoreError,
    >)
        requires
            old(self).wf(),
            old(dir).wf(),
        ensures
            final(self).wf(),
            final(dir).wf(),
            final(dir).base() == old(dir).base(),
            old(self).step_done(old(dir)@, db_name@, now, *final(self), final(dir)@, r),
            old(self).ready() ==> final(self).ready(),
            r == Ok::<bool, StoreError>(false) ==> final(self).tables() == old(self).tables()
                && final(dir)@ == old(dir)@,
            forall|f: Seq<char>|
                !has_path(old(self).tables(), f) && !is_table_of(f, db_name@, now.ns) ==> (
                #[trigger] final(dir)@.contains_key(f) <==> old(dir)@.contains_key(f)) && content(
                    final(dir)@,
                    f,
                ) == content(old(dir)@, f),
            ({
                &&& old(self).ready()
                &&& in_order(old(dir)@, old(self).tables())
                &&& old(self).arranged(old(dir)@)
                &&& unused(old(dir)@, db_name@, now.ns)
                &&& older(old(self).tables(), now.ns)
            }) ==> {
                &&& r is Ok
                &&& in_order(final(dir)@, final(self).tables())
                &&& final(self).arranged(final(dir)@)
                &&& registered(old(dir)@, db_name@, old(self).tables()) && tellable(db_name@)
                    ==> registered(final(dir)@, db_name@, final(self).tables())
                &&& forall|t: TableView| #[trigger]
                    final(self).tables().contains(t) ==> old(self).tables().contains(t)
                        || t.id.timestamp == now.ns
                &&& forall|k: Seq<char>| #[trigger]
                    lookup(
                        unexpired(live(layered(final(dir)@, final(self).tables())), now.ms),
                        k,
                    ) == lookup(
                        unexpired(live(layered(old(dir)@, old(self).tables())), now.ms),
                        k,
                    )
            },
    ;

    /// Merges all tables. The memtable has been flushed before.
    fn compact_all(&mut self, dir: &mut Directory, db_name: &str, now: Clock) -> (r: Result<
        (),
        StoreError,
    >)
        requires
            old(self).wf(),
            old(dir).wf(),
        ensures
            final(self).wf(),
            final(dir).wf(),
            final(dir).base() == old(dir).base(),
            old(self).all_done(old(dir)@, db_name@, now, *final(self), final(dir)@, r),
            old(self).ready() ==> final(self).ready(),
            forall|f: Seq<char>|
                !has_path(old(self).tables(), f) && !is_table_of(f, db_name@, now.ns) ==> (
                #[trigger] final(dir)@.contains_key(f) <==> old(dir)@.contains_key(f)) && content(
                    final(dir)@,
                    f,
                ) == content(old(dir)@, f),
            ({
                &&& old(self).ready()
                &&& in_order(old(dir)@, old(self).tables())
                &&& old(self).arranged(old(dir)@)
                &&& unused(old(dir)@, db_name@, now.ns)
                &&& older(old(self).tables(), now.ns)
            }) ==> {
                &&& r is Ok
                &&& in_order(final(dir)@, final(self).tables())
                &&& final(self).arranged(final(dir)@)
                &&& registered(old(dir)@, db_name@, old(self).tables()) && tellable(db_name@)
                    ==> registered(final(dir)@, db_name@, final(self).tables())
                &&& forall|t: TableView| #[trigger]
                    final(self).tables().contains(t) ==> old(self).tables().contains(t)
                        || t.id.timestamp == now.ns
                &&& live(layered(final(dir)@, final(self).tables())) == unexpired(
                    live(layered(old(dir)@, old(self).tables())),
                    now.ms,
                )
            },
    ;

    /// The tables that may have a key, the newest first.
    fn iter_for_key<'a>(&'a self, key: &str) -> (v: Vec<&'a SSTable>)
        requires
            self.wf(),
        ensures
            refs_wf(v@),
            ref_views(v@) == tables_for_key(self.tables(), key@),
    ;

    /// The tables that may have keys between two keys, the newest first.
    fn iter_files_for_range<'a>(&'a self, start: &str, end: &str) -> (v: Vec<&'a SSTable>)
        requires
            self.wf(),
        ensures
            refs_wf(v@),
            ref_views(v@) == tables_for_range(self.tables(), start@, end@),
    ;

    /// All tables, the newest first.
    fn iter_all<'a>(&'a self) -> (v: Vec<&'a SSTable>)
        requires
            self.wf(),
        ensures
            refs_wf(v@),
            ref_views(v@) == self.tables(),
    ;

    /// The number of tables.
    fn segment_count(&self) -> (n: usize)
        requires
            self.wf(),
        ensures
            n == self.tables().len(),
    ;
}

/// The tables in which a key is looked for are those whose filter has all of its bits, in
/// their order.
pub proof fn lemma_tables_for_key(tables: Seq<TableView>, key: Seq<char>)
    ensures
        tables_for_key(tables, key) == tables.filter(
            |t: TableView|
                forall|i: u32|
                    i < t.index.bloom.hash_count ==> t.index.bloom.bits.contains(
                        #[trigger] slot(key, i, t.index.bloom.size),
                    ),
        ),
    decreases tables.len(),
{
    reveal(Seq::filter);
    if tables.len() > 0 {
        lemma_tables_for_key(tables.drop_last(), key);
    }
}

/// Where two keys are in order, the keys of a table can lie between them exactly where some
/// key is between them and between the first and the last key of the table.
pub proof fn lemma_overlaps(
    t: TableView,
    start: Seq<char>,
    end: Seq<char>,
    min: Seq<char>,
    max: Seq<char>,
)
    requires
        t.index.min == Some(min),
        t.index.max == Some(max),
        key_le(min, max),
        key_le(start, end),
    ensures
        overlaps(t, start, end) <==> exists|k: Seq<char>| #[trigger]
            key_le(start, k) && key_le(k, end) && key_le(min, k) && key_le(k, max),
{
    lemma_key_total(max, start);
    lemma_key_total(end, min);
    lemma_key_total(start, min);
    if overlaps(t, start, end) {
        let k = if key_lt(start, min) {
            min
        } else {
            start
        };
        assert(key_le(start, k) && key_le(k, end) && key_le(min, k) && key_le(k, max));
    }
    if exists|k: Seq<char>| #[trigger]
        key_le(start, k) && key_le(k, end) && key_le(min, k) && key_le(k, max) {
        let k = choose|k: Seq<char>| #[trigger]
            key_le(start, k) && key_le(k, end) && key_le(min, k) && key_le(k, max);
        lemma_key_chain(start, k, max);
        lemma_key_chain(min, k, end);
    }
}

proof fn lemma_key_total(a: Seq<char>, b: Seq<char>)
    ensures
        key_lt(a, b) || key_le(b, a),
        !(key_lt(a, b) && key_le(b, a)),
{
    lemma_key_lt_total(a, b);
}

proof fn lemma_key_chain(a: Seq<char>, b: Seq<char>, c: Seq<char>)
    requires
        key_le(a, b),
        key_le(b, c),
    ensures
        key_le(a, c),
        !key_lt(c, a),
{
    if key_lt(a, b) && key_lt(b, c) {
        lemma_key_lt_transitive(a, b, c);
    }
    lemma_key_total(c, a);
}

/// The tables for a range are those that overlap with it, in their order; a table without
/// keys overlaps with none.
pub proof fn lemma_tables_for_range(tables: Seq<TableView>, start: Seq<char>, end: Seq<char>)
    ensures
        tables_for_range(tables, start, end) == tables.filter(
            |t: TableView| overlaps(t, start, end),
        ),
        forall|t: TableView| t.index.min is None ==> !#[trigger] overlaps(t, start, end),
    decreases tables.len(),
{
    reveal(Seq::filter);
    if tables.len() > 0 {
        lemma_tables_for_range(tables.drop_last(), start, end);
    }
}

/// A key is live where its entry has a value, and then with that value and its time of
/// expiry. Of the entries, those stay that are live and whose time, if they have one, is
/// still to come.
pub proof fn lemma_kept_keys(m: Entries, now_ms: u64, k: Seq<char>)
    ensures
        live(m).contains_key(k) <==> m.contains_key(k) && m[k].value is Some,
        live(m).contains_key(k) ==> Some(live(m)[k].value) == m[k].value && live(m)[k].expiry_ms
            == m[k].expiry_ms,
        swept(m, now_ms).contains_key(k) <==> m.contains_key(k) && m[k].value is Some && (
        m[k].expiry_ms matches Some(t) ==> t > now_ms),
        swept(m, now_ms).contains_key(k) ==> swept(m, now_ms)[k] == m[k],
{
}

/// Of the tables that have a key, the first one says what they together give it.
pub proof fn lemma_first_table(files: Files, tables: Seq<TableView>, k: Seq<char>, i: int)
    requires
        0 <= i < tables.len(),
        table_entries(files, tables[i]).contains_key(k),
        forall|j: int|
            0 <= j < i ==> !table_entries(files, #[trigger] tables[j]).contains_key(k),
    ensures
        layered(files, tables).contains_key(k),
        layered(files, tables)[k] == table_entries(files, tables[i])[k],
    decreases tables.len(),
{
    if i > 0 {
        let rest = tables.drop_first();
        assert(!table_entries(files, tables[0]).contains_key(k));
        assert forall|j: int| 0 <= j < i - 1 implies !table_entries(
            files,
            #[trigger] rest[j],
        ).contains_key(k) by {
            assert(rest[j] == tables[j + 1]);
        }
        lemma_first_table(files, rest, k, i - 1);
    }
}

/// The first table that cannot be read stops a merge with what is wrong with it.
pub proof fn lemma_merge_stopped(
    files: Files,
    m: Entries,
    tables: Seq<TableView>,
    i: int,
    e: StoreError,
)
    requires
        0 <= i < tables.len(),
        read_table(files, tables[i].path) is Err,
        (read_table(files, tables[i].path)->Err_0) == e,
        forall|j: int| 0 <= j < i ==> read_table(files, (#[trigger] tables[j]).path) is Ok,
    ensures
        merged(files, m, tables) == Err::<Entries, StoreError>(e),
    decreases tables.len(),
{
    let front = tables.drop_last();
    assert(forall|j: int| 0 <= j < front.len() ==> (#[trigger] front[j]) == tables[j]);
    if i < front.len() {
        lemma_merge_stopped(files, m, front, i, e);
    } else {
        lemma_merge_goes_on(files, m, front);
    }
}

proof fn lemma_merge_goes_on(files: Files, m: Entries, tables: Seq<TableView>)
    requires
        forall|j: int|
            0 <= j < tables.len() ==> read_table(files, (#[trigger] tables[j]).path) is Ok,
    ensures
        merged(files, m, tables) is Ok,
    decreases tables.len(),
{
    if tables.len() > 0 {
        let front = tables.drop_last();
        assert(forall|j: int| 0 <= j < front.len() ==> (#[trigger] front[j]) == tables[j]);
        assert(read_table(files, tables[tables.len() - 1].path) is Ok);
        lemma_merge_goes_on(files, m, front);
    }
}

/// Records are added to entries one by one, and none overrides what is there: of two records
/// of a key the first counts, and of a key that was there, none.
pub proof fn lemma_absorbed_key(m: Entries, rs: Seq<RecordView>, key: Seq<char>)
    ensures
        m.contains_key(key) ==> absorbed(m, rs).contains_key(key) && absorbed(m, rs)[key]
            == m[key],
        forall|i: int|
            !m.contains_key(key) && 0 <= i < rs.len() && (#[trigger] rs[i]).key == key && (forall|
                j: int,
            |
                0 <= j < i ==> (#[trigger] rs[j]).key != key) ==> absorbed(m, rs).contains_key(key)
                && absorbed(m, rs)[key].value == (if rs[i].tombstone {
                None::<Seq<char>>
            } else {
                Some(rs[i].value)
            }),
        !m.contains_key(key) && (forall|i: int| 0 <= i < rs.len() ==> (#[trigger] rs[i]).key != key)
            ==> !absorbed(m, rs).contains_key(key),
    decreases rs.len(),
{
    if rs.len() > 0 {
        let front = rs.drop_last();
        lemma_absorbed_key(m, front, key);
        assert(forall|j: int| 0 <= j < front.len() ==> (#[trigger] front[j]) == rs[j]);
        assert(rs[rs.len() - 1] == rs.last());
        assert forall|i: int|
            !m.contains_key(key) && 0 <= i < rs.len() && (#[trigger] rs[i]).key == key && (forall|
                j: int,
            |
                0 <= j < i ==> (#[trigger] rs[j]).key != key) implies absorbed(m, rs).contains_key(
            key,
        ) && absorbed(m, rs)[key].value == (if rs[i].tombstone {
            None::<Seq<char>>
        } else {
            Some(rs[i].value)
        }) by {
            if i < front.len() {
                assert(front[i] == rs[i]);
            } else {
                assert(forall|j: int| 0 <= j < front.len() ==> (#[trigger] front[j]).key != key);
            }
        }
    }
}

} // verus!
