//! What leveled compaction does to levels of tables.

use vstd::prelude::*;

use crate::compaction::{
    all_valid, collected, distinct_paths, has_path, in_order, is_table_of, layered,
    lemma_collected, lemma_collected_files, lemma_collected_orderable, lemma_distinct_back,
    lemma_key_bounds, lemma_layered_concat, lemma_layered_key, lemma_layered_one,
    lemma_layered_same, lemma_merged, lemma_merged_orderable, lemma_swept_orderable,
    lemma_swept_writable, live, merged, names_table, older, overlaps, registered, swept,
    tables_for_range, unused, Entries,
};
use crate::directory::{content, files_fit, Files};
use crate::engine::{unexpired, Clock};
use crate::error::StoreError;
use crate::memtable::EntryView;
use crate::number::decimal;
use crate::size_tiered::{sizes_of, total_of};
use crate::sstable::{
    lemma_parse_table_filename, lemma_table_names, lemma_written_table, lookup, parse_table,
    table_bytes, table_entries, table_filename, table_valid, writable, written_table, TableId,
    TableView,
};
use crate::text::{key_lt, lemma_key_lt_total, lemma_key_lt_transitive};

verus! {

/// A level, with the tables in the order in which they were added.
pub struct LevelView {
    pub tables: Seq<TableView>,
    pub level_num: usize,
    pub max_bytes: u64,
    pub l0_threshold: usize,
    pub is_terminal: bool,
}

/// A level with other tables.
pub open spec fn with_tables(l: LevelView, tables: Seq<TableView>) -> LevelView {
    LevelView { tables, ..l }
}

/// Whether the file of every table is there.
pub open spec fn present(files: Files, tables: Seq<TableView>) -> bool {
    forall|i: int| 0 <= i < tables.len() ==> files.contains_key((#[trigger] tables[i]).path)
}

/// Whether a level is full: the first one by its number of tables, the others by
/// their bytes.
pub open spec fn level_due(files: Files, l: LevelView) -> Result<bool, StoreError> {
    if l.level_num == 0 {
        Ok(l.tables.len() == l.l0_threshold)
    } else if !present(files, l.tables) {
        Err(StoreError::FileNotFound)
    } else {
        Ok(total_of(sizes_of(files, l.tables)) >= l.max_bytes)
    }
}

/// The smaller of two keys.
pub open spec fn lower(a: Option<Seq<char>>, b: Option<Seq<char>>) -> Option<Seq<char>> {
    match (a, b) {
        (Some(x), Some(y)) => if key_lt(y, x) {
            b
        } else {
            a
        },
        (None, _) => b,
        (_, None) => a,
    }
}

/// The larger of two keys.
pub open spec fn upper(a: Option<Seq<char>>, b: Option<Seq<char>>) -> Option<Seq<char>> {
    match (a, b) {
        (Some(x), Some(y)) => if key_lt(x, y) {
            b
        } else {
            a
        },
        (None, _) => b,
        (_, None) => a,
    }
}

/// The smallest key of some tables.
pub open spec fn lowest(tables: Seq<TableView>) -> Option<Seq<char>>
    decreases tables.len(),
{
    if tables.len() == 0 {
        None
    } else {
        lower(lowest(tables.drop_last()), tables.last().index.min)
    }
}

/// The largest key of some tables.
pub open spec fn highest(tables: Seq<TableView>) -> Option<Seq<char>>
    decreases tables.len(),
{
    if tables.len() == 0 {
        None
    } else {
        upper(highest(tables.drop_last()), tables.last().index.max)
    }
}

/// The smallest and the largest key of some tables, where they have any.
pub open spec fn range_of(tables: Seq<TableView>) -> Option<(Seq<char>, Seq<char>)> {
    match (lowest(tables), highest(tables)) {
        (Some(min), Some(max)) => Some((min, max)),
        _ => None,
    }
}

/// The tables without those whose keys can lie between two keys.
pub open spec fn kept(tables: Seq<TableView>, start: Seq<char>, end: Seq<char>) -> Seq<TableView>
    decreases tables.len(),
{
    if tables.len() == 0 {
        Seq::empty()
    } else {
        let before = kept(tables.drop_last(), start, end);
        if overlaps(tables.last(), start, end) {
            before
        } else {
            before.push(tables.last())
        }
    }
}

/// The names of the files of tables.
pub open spec fn paths_of(tables: Seq<TableView>) -> Seq<Seq<char>> {
    tables.map_values(|t: TableView| t.path)
}

/// A directory without some files.
pub open spec fn without_files(files: Files, names: Seq<Seq<char>>) -> Files {
    files.restrict(Set::new(|f: Seq<char>| !names.contains(f)))
}

/// What a level keeps of merged entries: the last one needs no deletions, nor what
/// has expired.
pub open spec fn kept_entries(l: LevelView, m: Entries, now: Clock) -> Entries {
    if l.is_terminal {
        swept(m, now.ms)
    } else {
        m
    }
}

/// The name of a table that is written to a level.
pub open spec fn level_id(l: LevelView, name: Seq<char>, now: Clock) -> TableId {
    TableId { name, level: Some(l.level_num), timestamp: now.ns }
}

/// The directory and two levels after the first was merged into the second, and
/// the error that kept it from it.
pub open spec fn merged_down(
    files: Files,
    source: LevelView,
    target: LevelView,
    name: Seq<char>,
    now: Clock,
) -> (Files, LevelView, LevelView, Option<StoreError>) {
    match range_of(source.tables) {
        None => (files, source, target, None),
        Some((start, end)) => {
            let overlap = tables_for_range(target.tables, start, end);
            match merged(files, Map::empty(), source.tables.reverse() + overlap) {
                Err(e) => (files, source, target, Some(e)),
                Ok(m) => {
                    let w = kept_entries(target, m, now);
                    let id = level_id(target, name, now);
                    if files.contains_key(table_filename(id)) {
                        (files, source, target, Some(StoreError::FileExists))
                    } else {
                        (
                            without_files(
                                files.insert(table_filename(id), table_bytes(w)),
                                paths_of(overlap + source.tables),
                            ),
                            with_tables(source, Seq::empty()),
                            with_tables(
                                target,
                                kept(target.tables, start, end).push(written_table(id, w)),
                            ),
                            None,
                        )
                    }
                },
            }
        },
    }
}

/// The directory and a level after its tables were merged into one, with that one;
/// or the error that stopped it.
pub open spec fn squashed(files: Files, l: LevelView, name: Seq<char>, now: Clock) -> (
    Files,
    LevelView,
    Result<Option<TableView>, StoreError>,
) {
    if l.tables.len() == 0 {
        (files, l, Ok(None))
    } else {
        let (left, m, end) = collected(files, l.tables.reverse());
        match end {
            Some(e) => (left, l, Err(e)),
            None => {
                let w = kept_entries(l, m, now);
                let id = level_id(l, name, now);
                let emptied = with_tables(l, Seq::empty());
                if left.contains_key(table_filename(id)) {
                    (left, emptied, Err(StoreError::FileExists))
                } else {
                    (
                        left.insert(table_filename(id), table_bytes(w)),
                        emptied,
                        Ok(Some(written_table(id, w))),
                    )
                }
            },
        }
    }
}

/// The directory and the levels after one of them was compacted: the last one in
/// itself, another one into the next.
pub open spec fn stepped(
    files: Files,
    levels: Seq<LevelView>,
    i: int,
    name: Seq<char>,
    now: Clock,
) -> (Files, Seq<LevelView>, Option<StoreError>) {
    if levels[i].is_terminal {
        let (after, l, r) = squashed(files, levels[i], name, now);
        match r {
            Err(e) => (after, levels.update(i, l), Some(e)),
            Ok(None) => (after, levels.update(i, l), None),
            Ok(Some(t)) => (after, levels.update(i, with_tables(l, l.tables.push(t))), None),
        }
    } else {
        let (after, source, target, end) = merged_down(
            files,
            levels[i],
            levels[i + 1],
            name,
            now,
        );
        (after, levels.update(i, source).update(i + 1, target), end)
    }
}

/// The directory and the levels after the first `n` levels were compacted, one
/// after the other. An error ends it.
pub open spec fn steps(
    files: Files,
    levels: Seq<LevelView>,
    n: nat,
    name: Seq<char>,
    now: Clock,
) -> (Files, Seq<LevelView>, Option<StoreError>)
    decreases n,
{
    if n == 0 {
        (files, levels, None)
    } else {
        let (after, ls, end) = steps(files, levels, (n - 1) as nat, name, now);
        if end is Some {
            (after, ls, end)
        } else {
            stepped(after, ls, n - 1, name, now)
        }
    }
}

/// The first level that is full, or the error that kept it from being found.
pub open spec fn due_level(files: Files, levels: Seq<LevelView>, from: int) -> Result<
    Option<int>,
    StoreError,
>
    decreases levels.len() - from,
{
    if from < 0 || from >= levels.len() {
        Ok(None)
    } else {
        match level_due(files, levels[from]) {
            Err(e) => Err(e),
            Ok(true) => Ok(Some(from)),
            Ok(false) => due_level(files, levels, from + 1),
        }
    }
}

/// The tables of levels, the newest first: a level overrides those after it, and
/// in a level the last table comes first.
pub open spec fn stacked(levels: Seq<LevelView>) -> Seq<TableView>
    decreases levels.len(),
{
    if levels.len() == 0 {
        Seq::empty()
    } else {
        stacked(levels.drop_last()) + levels.last().tables.reverse()
    }
}

/// A power of ten.
pub open spec fn ten_to(n: nat) -> nat
    decreases n,
{
    if n == 0 {
        1
    } else {
        10 * ten_to((n - 1) as nat)
    }
}

/// How many times the bytes of the second level a level may hold.
pub open spec fn level_factor(i: int) -> nat {
    if i <= 1 {
        1
    } else {
        ten_to((i - 1) as nat)
    }
}

/// Levels without tables.
pub open spec fn empty_levels(num_levels: usize, l0_threshold: usize, l1_max_bytes: u64) -> Seq<
    LevelView,
> {
    Seq::new(
        num_levels as nat,
        |i: int|
            LevelView {
                tables: Seq::empty(),
                level_num: i as usize,
                max_bytes: (l1_max_bytes * level_factor(i)) as u64,
                l0_threshold,
                is_terminal: i == num_levels - 1,
            },
    )
}

/// Whether the limits of all levels fit in their type.
pub open spec fn limits_fit(num_levels: usize, l1_max_bytes: u64) -> bool {
    forall|i: int|
        0 <= i < num_levels ==> (#[trigger] level_factor(i)) <= u64::MAX && l1_max_bytes
            * level_factor(i) <= u64::MAX
}

/// The level that a table is loaded to.
pub open spec fn home_level(t: TableView, num_levels: nat) -> int {
    let level = match t.id.level {
        Some(n) => n as int,
        None => 0,
    };
    if level < num_levels {
        level
    } else {
        num_levels - 1
    }
}

/// The levels after tables were loaded, one after the other.
pub open spec fn placed(levels: Seq<LevelView>, tables: Seq<TableView>) -> Seq<LevelView>
    decreases tables.len(),
{
    if tables.len() == 0 {
        levels
    } else {
        let before = placed(levels, tables.drop_last());
        let t = tables.last();
        let i = home_level(t, levels.len());
        before.update(i, with_tables(before[i], before[i].tables.push(t)))
    }
}

/// Whether no two tables have a key in common.
pub open spec fn disjoint(files: Files, tables: Seq<TableView>) -> bool {
    forall|a: TableView, b: TableView, k: Seq<char>|
        tables.contains(a) && tables.contains(b) && #[trigger] table_entries(files, a).contains_key(
            k,
        ) && #[trigger] table_entries(files, b).contains_key(k) ==> a == b
}

/// Whether tables come in the order in which they were begun.
pub open spec fn ascending(tables: Seq<TableView>) -> bool {
    forall|i: int, j: int|
        0 <= i < j < tables.len() ==> (#[trigger] tables[i]).id.timestamp < (
        #[trigger] tables[j]).id.timestamp
}

/// Whether tables are in the level that their names give.
pub open spec fn homed(tables: Seq<TableView>, i: int, num_levels: nat) -> bool {
    forall|t: TableView| #[trigger] tables.contains(t) ==> home_level(t, num_levels) == i
}

/// Whether levels are numbered, and the last one is known as such.
pub open spec fn numbered(levels: Seq<LevelView>) -> bool {
    forall|i: int|
        0 <= i < levels.len() ==> (#[trigger] levels[i]).level_num == i && levels[i].is_terminal
            == (i == levels.len() - 1)
}

/// Whether levels are arranged so that each may be merged into the next, and is
/// found again: in each but the first, a key is in one table at most; the first has
/// its tables in their order; and each table is where its name says.
pub open spec fn well_arranged(files: Files, levels: Seq<LevelView>) -> bool {
    &&& forall|i: int| 1 <= i < levels.len() ==> disjoint(files, (#[trigger] levels[i]).tables)
    &&& forall|i: int|
        0 <= i < levels.len() ==> homed((#[trigger] levels[i]).tables, i, levels.len())
    &&& levels.len() > 0 ==> ascending(levels[0].tables)
}

proof fn lemma_stacked_concat(a: Seq<LevelView>, b: Seq<LevelView>)
    ensures
        stacked(a + b) == stacked(a) + stacked(b),
    decreases b.len(),
{
    if b.len() == 0 {
        assert(a + b =~= a);
        assert(stacked(a) + stacked(b) =~= stacked(a));
    } else {
        assert((a + b).drop_last() =~= a + b.drop_last());
        lemma_stacked_concat(a, b.drop_last());
        assert(stacked(a + b) =~= stacked(a) + stacked(b));
    }
}

/// The tables before a level, in it, and after it.
pub proof fn lemma_stacked_at(levels: Seq<LevelView>, i: int)
    requires
        0 <= i < levels.len(),
    ensures
        stacked(levels) == stacked(levels.take(i)) + levels[i].tables.reverse() + stacked(
            levels.skip(i + 1),
        ),
{
    let one = seq![levels[i]];
    assert(levels =~= levels.take(i) + one + levels.skip(i + 1));
    lemma_stacked_concat(levels.take(i) + one, levels.skip(i + 1));
    lemma_stacked_concat(levels.take(i), one);
    assert(one.drop_last() =~= Seq::<LevelView>::empty());
    assert(stacked(Seq::<LevelView>::empty()) == Seq::<TableView>::empty());
    assert(stacked(one) =~= levels[i].tables.reverse());
}

pub proof fn lemma_reverse_contains(s: Seq<TableView>)
    ensures
        forall|t: TableView| #[trigger] s.reverse().contains(t) <==> s.contains(t),
        forall|f: Seq<char>| #[trigger] has_path(s.reverse(), f) <==> has_path(s, f),
        distinct_paths(s.reverse()) <==> distinct_paths(s),
{
    let r = s.reverse();
    let n = s.len() as int;
    assert forall|t: TableView| #[trigger] r.contains(t) <==> s.contains(t) by {
        if r.contains(t) {
            assert(s[n - 1 - r.index_of(t)] == t);
        }
        if s.contains(t) {
            assert(r[n - 1 - s.index_of(t)] == t);
        }
    }
    assert forall|f: Seq<char>| #[trigger] has_path(r, f) <==> has_path(s, f) by {
        if has_path(r, f) {
            let i = choose|i: int| 0 <= i < r.len() && (#[trigger] r[i]).path == f;
            assert(s[n - 1 - i].path == f);
        }
        if has_path(s, f) {
            let i = choose|i: int| 0 <= i < s.len() && (#[trigger] s[i]).path == f;
            assert(r[n - 1 - i].path == f);
        }
    }
    if distinct_paths(s) {
        assert forall|i: int, j: int| 0 <= i < n && 0 <= j < n && i != j implies (
        #[trigger] r[i]).path != (#[trigger] r[j]).path by {
            assert(s[n - 1 - i].path != s[n - 1 - j].path);
        }
    }
    if distinct_paths(r) {
        assert forall|i: int, j: int| 0 <= i < n && 0 <= j < n && i != j implies (
        #[trigger] s[i]).path != (#[trigger] s[j]).path by {
            assert(r[n - 1 - i] == s[i]);
            assert(r[n - 1 - j] == s[j]);
        }
    }
}

proof fn lemma_concat_contains(a: Seq<TableView>, b: Seq<TableView>)
    ensures
        forall|t: TableView| #[trigger] (a + b).contains(t) <==> a.contains(t) || b.contains(t),
        forall|f: Seq<char>| #[trigger] has_path(a + b, f) <==> has_path(a, f) || has_path(b, f),
{
    let c = a + b;
    assert forall|t: TableView| #[trigger] c.contains(t) <==> a.contains(t) || b.contains(t) by {
        if c.contains(t) {
            let i = c.index_of(t);
            if i < a.len() {
                assert(a[i] == t);
            } else {
                assert(b[i - a.len()] == t);
            }
        }
        if a.contains(t) {
            assert(c[a.index_of(t)] == t);
        }
        if b.contains(t) {
            assert(c[a.len() + b.index_of(t)] == t);
        }
    }
    assert forall|f: Seq<char>| #[trigger] has_path(c, f) <==> has_path(a, f) || has_path(b, f) by {
        if has_path(c, f) {
            let i = choose|i: int| 0 <= i < c.len() && (#[trigger] c[i]).path == f;
            if i < a.len() {
                assert(a[i].path == f);
            } else {
                assert(b[i - a.len()].path == f);
            }
        }
        if has_path(a, f) {
            let i = choose|i: int| 0 <= i < a.len() && (#[trigger] a[i]).path == f;
            assert(c[i].path == f);
        }
        if has_path(b, f) {
            let i = choose|i: int| 0 <= i < b.len() && (#[trigger] b[i]).path == f;
            assert(c[a.len() + i].path == f);
        }
    }
}

/// Whether no file is that of a table of both.
spec fn apart(a: Seq<TableView>, b: Seq<TableView>) -> bool {
    forall|f: Seq<char>| !(#[trigger] has_path(a, f) && #[trigger] has_path(b, f))
}

proof fn lemma_distinct_concat(a: Seq<TableView>, b: Seq<TableView>)
    ensures
        distinct_paths(a + b) <==> distinct_paths(a) && distinct_paths(b) && apart(a, b),
{
    let c = a + b;
    let n = a.len() as int;
    if distinct_paths(c) {
        assert forall|i: int, j: int| 0 <= i < a.len() && 0 <= j < a.len() && i != j implies (
        #[trigger] a[i]).path != (#[trigger] a[j]).path by {
            assert(c[i].path != c[j].path);
        }
        assert forall|i: int, j: int| 0 <= i < b.len() && 0 <= j < b.len() && i != j implies (
        #[trigger] b[i]).path != (#[trigger] b[j]).path by {
            assert(c[n + i].path != c[n + j].path);
        }
        assert forall|f: Seq<char>| !(#[trigger] has_path(a, f) && #[trigger] has_path(b, f)) by {
            if has_path(a, f) && has_path(b, f) {
                let i = choose|i: int| 0 <= i < a.len() && (#[trigger] a[i]).path == f;
                let j = choose|j: int| 0 <= j < b.len() && (#[trigger] b[j]).path == f;
                assert(c[i].path == c[n + j].path);
            }
        }
    }
    if distinct_paths(a) && distinct_paths(b) && apart(a, b) {
        assert forall|i: int, j: int| 0 <= i < c.len() && 0 <= j < c.len() && i != j implies (
        #[trigger] c[i]).path != (#[trigger] c[j]).path by {
            if i < n && j < n {
                assert(a[i].path != a[j].path);
            } else if i >= n && j >= n {
                assert(b[i - n].path != b[j - n].path);
            } else if i < n {
                assert(has_path(a, a[i].path));
                assert(!has_path(b, a[i].path));
                assert(c[j] == b[j - n]);
            } else {
                assert(has_path(a, a[j].path));
                assert(!has_path(b, a[j].path));
                assert(c[i] == b[i - n]);
            }
        }
    }
}

/// Whether a file is as it was.
pub open spec fn same_file(files: Files, after: Files, f: Seq<char>) -> bool {
    after.contains_key(f) == files.contains_key(f) && content(after, f) == content(files, f)
}

/// Which tables lie between two keys, and which are kept.
proof fn lemma_kept(tables: Seq<TableView>, start: Seq<char>, end: Seq<char>)
    ensures
        forall|t: TableView| #[trigger]
            kept(tables, start, end).contains(t) <==> tables.contains(t) && !overlaps(
                t,
                start,
                end,
            ),
        forall|t: TableView| #[trigger]
            tables_for_range(tables, start, end).contains(t) <==> tables.contains(t) && overlaps(
                t,
                start,
                end,
            ),
        distinct_paths(tables) ==> distinct_paths(kept(tables, start, end)),
    decreases tables.len(),
{
    if tables.len() > 0 {
        let init = tables.drop_last();
        let x = tables.last();
        lemma_kept(init, start, end);
        assert(init.push(x) =~= tables);
        lemma_push_contains(init, x);
        lemma_push_contains(kept(init, start, end), x);
        lemma_push_contains(tables_for_range(init, start, end), x);
        lemma_distinct_back(init, x);
        let k = kept(init, start, end);
        lemma_distinct_back(k, x);
        if has_path(k, x.path) {
            let i = choose|i: int| 0 <= i < k.len() && (#[trigger] k[i]).path == x.path;
            assert(k.contains(k[i]));
            assert(init.contains(k[i]));
            assert(init[init.index_of(k[i])].path == x.path);
        }
    }
}

proof fn lemma_push_contains(s: Seq<TableView>, x: TableView)
    ensures
        forall|t: TableView| #[trigger] s.push(x).contains(t) <==> s.contains(t) || t == x,
{
    let p = s.push(x);
    assert forall|t: TableView| #[trigger] p.contains(t) <==> s.contains(t) || t == x by {
        if p.contains(t) {
            let i = p.index_of(t);
            if i < s.len() {
                assert(s[i] == t);
            }
        }
        if s.contains(t) {
            assert(p[s.index_of(t)] == t);
        }
        assert(p[s.len() as int] == x);
    }
}

/// What some layers give a key, on top of others.
pub proof fn lemma_lookup_concat(files: Files, a: Seq<TableView>, b: Seq<TableView>, k: Seq<char>)
    ensures
        lookup(layered(files, a + b), k) == if layered(files, a).contains_key(k) {
            lookup(layered(files, a), k)
        } else {
            lookup(layered(files, b), k)
        },
{
    lemma_layered_concat(files, a, b);
}

/// A key that one table alone has is given by that table.
pub proof fn lemma_unique_lookup(files: Files, s: Seq<TableView>, o: TableView, k: Seq<char>)
    requires
        s.contains(o),
        table_entries(files, o).contains_key(k),
        forall|t: TableView| #[trigger] s.contains(t) && table_entries(files, t).contains_key(k)
            ==> t == o,
    ensures
        lookup(layered(files, s), k) == Some(table_entries(files, o)[k]),
    decreases s.len(),
{
    let rest = s.drop_first();
    if table_entries(files, s[0]).contains_key(k) {
        assert(s.contains(s[0]));
    } else {
        let i = s.index_of(o);
        assert(rest[i - 1] == o);
        assert forall|t: TableView| #[trigger] rest.contains(t) && table_entries(
            files,
            t,
        ).contains_key(k) implies t == o by {
            assert(s[rest.index_of(t) + 1] == t);
            assert(s.contains(t));
        }
        lemma_unique_lookup(files, rest, o, k);
    }
}

/// A key that no table has is given by none.
pub proof fn lemma_no_lookup(files: Files, s: Seq<TableView>, k: Seq<char>)
    requires
        forall|t: TableView| #[trigger] s.contains(t) ==> !table_entries(files, t).contains_key(k),
    ensures
        lookup(layered(files, s), k) is None,
{
    lemma_layered_key(files, s, k);
    if layered(files, s).contains_key(k) {
        let i = choose|i: int|
            0 <= i < s.len() && table_entries(files, #[trigger] s[i]).contains_key(k);
        assert(s.contains(s[i]));
    }
}

/// The keys of valid tables lie in their range.
proof fn lemma_range_of(files: Files, tables: Seq<TableView>, t: TableView, k: Seq<char>)
    requires
        all_valid(files, tables),
        tables.contains(t),
        table_entries(files, t).contains_key(k),
    ensures
        match range_of(tables) {
            Some((start, end)) => !key_lt(k, start) && !key_lt(end, k),
            None => false,
        },
    decreases tables.len(),
{
    let init = tables.drop_last();
    let x = tables.last();
    let i = tables.index_of(t);
    assert(table_valid(files, tables[i]));
    lemma_key_bounds(files, t, k);
    assert forall|j: int| 0 <= j < init.len() implies table_valid(files, #[trigger] init[j]) by {
        assert(init[j] == tables[j]);
    }
    if i < init.len() {
        assert(init[i] == t);
        lemma_range_of(files, init, t, k);
        let (start, end) = range_of(init)->0;
        if let Some(y) = x.index.min {
            lemma_below(k, start, y);
        }
        if let Some(y) = x.index.max {
            lemma_below(y, end, k);
        }
    } else {
        if let Some(y) = lowest(init) {
            lemma_below(k, y, x.index.min->0);
        }
        if let Some(y) = highest(init) {
            lemma_below(x.index.max->0, y, k);
        }
    }
}

/// Of three keys, two of which are compared.
proof fn lemma_below(a: Seq<char>, b: Seq<char>, c: Seq<char>)
    ensures
        !key_lt(a, b) && key_lt(c, b) ==> !key_lt(a, c),
        !key_lt(a, c) && !key_lt(c, b) ==> !key_lt(a, b),
        !key_lt(b, c) && key_lt(b, a) ==> !key_lt(a, c),
        !key_lt(a, c) && !key_lt(b, a) ==> !key_lt(b, c),
{
    lemma_key_lt_total(a, b);
    lemma_key_lt_total(b, c);
    lemma_key_lt_total(a, c);
    if key_lt(a, c) && key_lt(c, b) {
        lemma_key_lt_transitive(a, c, b);
    }
    if key_lt(b, a) && key_lt(a, c) {
        lemma_key_lt_transitive(b, a, c);
    }
    if key_lt(a, b) && key_lt(b, c) {
        lemma_key_lt_transitive(a, b, c);
    }
    if key_lt(b, c) && key_lt(c, a) {
        lemma_key_lt_transitive(b, c, a);
    }
    if key_lt(c, a) && key_lt(a, b) {
        lemma_key_lt_transitive(c, a, b);
    }
    if key_lt(c, b) && key_lt(b, a) {
        lemma_key_lt_transitive(c, b, a);
    }
}

/// Whether tables are left alone by a merge.
spec fn untouched(files: Files, after: Files, tables: Seq<TableView>) -> bool {
    forall|t: TableView| #[trigger] tables.contains(t) ==> same_file(files, after, t.path)
}

/// What a key has after a level was merged into the next.
proof fn lemma_merge_key(
    files: Files,
    after: Files,
    source: Seq<TableView>,
    target: Seq<TableView>,
    t: TableView,
    k: Seq<char>,
)
    requires
        range_of(source) is Some,
        all_valid(files, source),
        all_valid(files, target),
        disjoint(files, target),
        ({
            let (start, end) = range_of(source)->0;
            let overlap = tables_for_range(target, start, end);
            let m = layered(files, source.reverse() + overlap);
            &&& untouched(files, after, kept(target, start, end))
            &&& table_entries(after, t).contains_key(k) ==> m.contains_key(k)
        }),
    ensures
        ({
            let (start, end) = range_of(source)->0;
            let overlap = tables_for_range(target, start, end);
            let m = layered(files, source.reverse() + overlap);
            let before = lookup(layered(files, source.reverse() + target.reverse()), k);
            let now = lookup(layered(after, kept(target, start, end).push(t).reverse()), k);
            if m.contains_key(k) {
                before == Some(m[k]) && now == lookup(table_entries(after, t), k)
            } else {
                before == now
            }
        }),
{
    let (start, end) = range_of(source)->0;
    let overlap = tables_for_range(target, start, end);
    let rest = kept(target, start, end);
    let sr = source.reverse();
    let tr = target.reverse();
    let m = layered(files, sr + overlap);
    lemma_kept(target, start, end);
    lemma_reverse_contains(source);
    lemma_reverse_contains(target);
    lemma_reverse_contains(rest);
    lemma_lookup_concat(files, sr, overlap, k);
    lemma_lookup_concat(files, sr, tr, k);
    assert(rest.push(t).reverse() =~= seq![t] + rest.reverse());
    lemma_lookup_concat(after, seq![t], rest.reverse(), k);
    lemma_layered_one(after, t);
    assert forall|u: TableView| #[trigger] rest.contains(u) implies table_entries(after, u)
        == table_entries(files, u) by {
        assert(same_file(files, after, u.path));
        assert(target.contains(u));
        assert(table_valid(files, target[target.index_of(u)]));
    }
    if layered(files, sr).contains_key(k) {
        lemma_layered_key(files, sr, k);
        let i = choose|i: int|
            0 <= i < sr.len() && table_entries(files, #[trigger] sr[i]).contains_key(k);
        assert(sr.contains(sr[i]));
        lemma_range_of(files, source, sr[i], k);
        assert forall|u: TableView| #[trigger] rest.reverse().contains(u) implies !table_entries(
            after,
            u,
        ).contains_key(k) by {
            assert(rest.contains(u));
            assert(target.contains(u));
            assert(table_valid(files, target[target.index_of(u)]));
            if table_entries(files, u).contains_key(k) {
                lemma_key_bounds(files, u, k);
                lemma_below(k, start, u.index.max->0);
                lemma_below(u.index.min->0, end, k);
                lemma_key_lt_total(u.index.max->0, start);
                lemma_key_lt_total(end, u.index.min->0);
                if key_lt(u.index.max->0, start) {
                    lemma_below(k, u.index.max->0, start);
                    lemma_key_lt_total(k, start);
                    lemma_key_lt_total(u.index.max->0, k);
                    if k != u.index.max->0 {
                        lemma_key_lt_transitive(k, u.index.max->0, start);
                    }
                }
                if key_lt(end, u.index.min->0) {
                    lemma_key_lt_total(k, end);
                    lemma_key_lt_total(u.index.min->0, k);
                    if k != u.index.min->0 {
                        lemma_key_lt_transitive(end, u.index.min->0, k);
                    }
                }
                assert(overlaps(u, start, end));
            }
        }
        lemma_no_lookup(after, rest.reverse(), k);
    } else if exists|o: TableView| #[trigger]
        target.contains(o) && table_entries(files, o).contains_key(k) {
        let o = choose|o: TableView| #[trigger]
            target.contains(o) && table_entries(files, o).contains_key(k);
        assert(tr.contains(o));
        lemma_unique_lookup(files, tr, o, k);
        if overlaps(o, start, end) {
            assert(overlap.contains(o));
            lemma_unique_lookup(files, overlap, o, k);
            assert forall|u: TableView| #[trigger] rest.reverse().contains(u) implies
                !table_entries(after, u).contains_key(k) by {
                assert(rest.contains(u));
                assert(target.contains(u));
            }
            lemma_no_lookup(after, rest.reverse(), k);
        } else {
            assert(rest.contains(o));
            assert(rest.reverse().contains(o));
            assert forall|u: TableView| #[trigger] overlap.contains(u) implies !table_entries(
                files,
                u,
            ).contains_key(k) by {
                assert(target.contains(u));
            }
            lemma_no_lookup(files, overlap, k);
            assert forall|u: TableView| #[trigger]
                rest.reverse().contains(u) && table_entries(after, u).contains_key(k) implies u
                == o by {
                assert(rest.contains(u));
                assert(target.contains(u));
            }
            lemma_unique_lookup(after, rest.reverse(), o, k);
        }
    } else {
        assert forall|u: TableView| #[trigger] tr.contains(u) implies !table_entries(
            files,
            u,
        ).contains_key(k) by {
            assert(target.contains(u));
        }
        lemma_no_lookup(files, tr, k);
        assert forall|u: TableView| #[trigger] overlap.contains(u) implies !table_entries(
            files,
            u,
        ).contains_key(k) by {
            assert(target.contains(u));
        }
        lemma_no_lookup(files, overlap, k);
        assert forall|u: TableView| #[trigger] rest.reverse().contains(u) implies !table_entries(
            after,
            u,
        ).contains_key(k) by {
            assert(rest.contains(u));
            assert(target.contains(u));
        }
        lemma_no_lookup(after, rest.reverse(), k);
    }
}

/// The tables of levels, with two that follow each other singled out.
proof fn lemma_two_levels(levels: Seq<LevelView>, i: int)
    requires
        0 <= i < levels.len() - 1,
    ensures
        stacked(levels) == stacked(levels.take(i)) + (levels[i].tables.reverse() + levels[i
            + 1].tables.reverse()) + stacked(levels.skip(i + 2)),
{
    lemma_stacked_at(levels, i);
    let rest = levels.skip(i + 1);
    lemma_stacked_at(rest, 0);
    assert(rest.take(0) =~= Seq::<LevelView>::empty());
    assert(stacked(Seq::<LevelView>::empty()) == Seq::<TableView>::empty());
    assert(rest.skip(1) =~= levels.skip(i + 2));
    assert(rest[0] == levels[i + 1]);
    assert(stacked(levels) =~= stacked(levels.take(i)) + (levels[i].tables.reverse() + levels[i
        + 1].tables.reverse()) + stacked(levels.skip(i + 2)));
}

proof fn lemma_valid_concat(files: Files, a: Seq<TableView>, b: Seq<TableView>)
    ensures
        all_valid(files, a + b) <==> all_valid(files, a) && all_valid(files, b),
{
    let c = a + b;
    if all_valid(files, c) {
        assert forall|i: int| 0 <= i < a.len() implies table_valid(files, #[trigger] a[i]) by {
            assert(c[i] == a[i]);
        }
        assert forall|i: int| 0 <= i < b.len() implies table_valid(files, #[trigger] b[i]) by {
            assert(c[a.len() + i] == b[i]);
        }
    }
    if all_valid(files, a) && all_valid(files, b) {
        assert forall|i: int| 0 <= i < c.len() implies table_valid(files, #[trigger] c[i]) by {
            if i < a.len() {
                assert(c[i] == a[i]);
            } else {
                assert(c[i] == b[i - a.len()]);
            }
        }
    }
}

proof fn lemma_valid_reverse(files: Files, a: Seq<TableView>)
    ensures
        all_valid(files, a.reverse()) <==> all_valid(files, a),
{
    let r = a.reverse();
    let n = a.len() as int;
    if all_valid(files, a) {
        assert forall|i: int| 0 <= i < r.len() implies table_valid(files, #[trigger] r[i]) by {
            assert(r[i] == a[n - 1 - i]);
        }
    }
    if all_valid(files, r) {
        assert forall|i: int| 0 <= i < a.len() implies table_valid(files, #[trigger] a[i]) by {
            assert(r[n - 1 - i] == a[i]);
        }
    }
}

/// Tables in three parts are in good order where each part is, and no two parts
/// share a file.
proof fn lemma_three_parts(files: Files, a: Seq<TableView>, b: Seq<TableView>, c: Seq<TableView>)
    ensures
        in_order(files, a + b + c) <==> {
            &&& in_order(files, a)
            &&& in_order(files, b)
            &&& in_order(files, c)
            &&& apart(a, b)
            &&& apart(a, c)
            &&& apart(b, c)
        },
{
    lemma_valid_concat(files, a + b, c);
    lemma_valid_concat(files, a, b);
    lemma_distinct_concat(a + b, c);
    lemma_distinct_concat(a, b);
    lemma_concat_contains(a, b);
    if apart(a + b, c) {
        assert forall|f: Seq<char>| !(#[trigger] has_path(a, f) && #[trigger] has_path(c, f)) by {
            if has_path(a, f) {
                assert(has_path(a + b, f));
            }
        }
        assert forall|f: Seq<char>| !(#[trigger] has_path(b, f) && #[trigger] has_path(c, f)) by {
            if has_path(b, f) {
                assert(has_path(a + b, f));
            }
        }
    }
    if apart(a, c) && apart(b, c) {
        assert forall|f: Seq<char>| !(#[trigger] has_path(a + b, f) && #[trigger] has_path(c, f)) by {
            if has_path(a + b, f) {
                assert(has_path(a, f) || has_path(b, f));
            }
        }
    }
}

/// The same holds where they are in reverse.
proof fn lemma_order_reverse(files: Files, a: Seq<TableView>)
    ensures
        in_order(files, a.reverse()) <==> in_order(files, a),
{
    lemma_valid_reverse(files, a);
    lemma_reverse_contains(a);
}

proof fn lemma_path_of(s: Seq<TableView>, t: TableView)
    requires
        s.contains(t),
    ensures
        has_path(s, t.path),
{
    assert(s[s.index_of(t)].path == t.path);
}

proof fn lemma_path_holder(s: Seq<TableView>, f: Seq<char>) -> (t: TableView)
    requires
        has_path(s, f),
    ensures
        s.contains(t),
        t.path == f,
{
    let i = choose|i: int| 0 <= i < s.len() && (#[trigger] s[i]).path == f;
    s[i]
}

/// The names of the files of tables are the paths of the tables.
pub proof fn lemma_paths_of(s: Seq<TableView>)
    ensures
        forall|f: Seq<char>| #[trigger] paths_of(s).contains(f) <==> has_path(s, f),
{
    assert forall|f: Seq<char>| #[trigger] paths_of(s).contains(f) <==> has_path(s, f) by {
        if paths_of(s).contains(f) {
            let i = paths_of(s).index_of(f);
            assert(s[i].path == f);
        }
        if has_path(s, f) {
            let i = choose|i: int| 0 <= i < s.len() && (#[trigger] s[i]).path == f;
            assert(paths_of(s)[i] == f);
        }
    }
}

/// Tables whose files are left alone stay in good order.
proof fn lemma_untouched(files: Files, after: Files, s: Seq<TableView>)
    requires
        untouched(files, after, s),
        in_order(files, s),
    ensures
        in_order(after, s),
        layered(after, s) == layered(files, s),
        forall|t: TableView| #[trigger]
            s.contains(t) ==> table_entries(after, t) == table_entries(files, t),
{
    assert forall|i: int| 0 <= i < s.len() implies {
        &&& files.contains_key((#[trigger] s[i]).path) == after.contains_key(s[i].path)
        &&& content(files, s[i].path) == content(after, s[i].path)
    } by {
        assert(s.contains(s[i]));
        assert(same_file(files, after, s[i].path));
    }
    lemma_layered_same(files, after, s);
    assert forall|t: TableView| #[trigger] s.contains(t) implies table_entries(after, t)
        == table_entries(files, t) by {
        let i = s.index_of(t);
        assert(table_valid(files, s[i]));
        assert(same_file(files, after, s[i].path));
    }
}

/// What is known of a merge of one level into the next.
spec fn merging(
    files: Files,
    a: Seq<TableView>,
    source: Seq<TableView>,
    target: Seq<TableView>,
    b: Seq<TableView>,
    path: Seq<char>,
) -> bool {
    &&& in_order(files, a + (source.reverse() + target.reverse()) + b)
    &&& disjoint(files, target)
    &&& range_of(source) is Some
    &&& !files.contains_key(path)
}

/// The files of the tables that a merge does not read are left alone.
proof fn lemma_merge_untouched(
    files: Files,
    a: Seq<TableView>,
    source: Seq<TableView>,
    target: Seq<TableView>,
    b: Seq<TableView>,
    path: Seq<char>,
    data: Seq<u8>,
)
    requires
        merging(files, a, source, target, b, path),
    ensures
        ({
            let (start, end) = range_of(source)->0;
            let overlap = tables_for_range(target, start, end);
            let rest = kept(target, start, end);
            let after = without_files(files.insert(path, data), paths_of(overlap + source));
            &&& untouched(files, after, a)
            &&& untouched(files, after, rest)
            &&& untouched(files, after, b)
            &&& in_order(files, a)
            &&& in_order(files, rest)
            &&& in_order(files, b)
            &&& in_order(files, source)
            &&& in_order(files, target)
            &&& apart(a, rest)
            &&& apart(rest, b)
            &&& apart(a, b)
            &&& after.contains_key(path)
            &&& after[path] == data
            &&& !has_path(a, path)
            &&& !has_path(rest, path)
            &&& !has_path(b, path)
        }),
{
    let (start, end) = range_of(source)->0;
    let overlap = tables_for_range(target, start, end);
    let rest = kept(target, start, end);
    let names = paths_of(overlap + source);
    let after = without_files(files.insert(path, data), names);
    let sr = source.reverse();
    let tr = target.reverse();
    lemma_three_parts(files, a, sr + tr, b);
    lemma_valid_concat(files, sr, tr);
    lemma_distinct_concat(sr, tr);
    lemma_concat_contains(sr, tr);
    lemma_order_reverse(files, source);
    lemma_order_reverse(files, target);
    lemma_reverse_contains(source);
    lemma_reverse_contains(target);
    lemma_kept(target, start, end);
    lemma_paths_of(overlap + source);
    lemma_concat_contains(overlap, source);
    assert forall|i: int| 0 <= i < rest.len() implies table_valid(files, #[trigger] rest[i]) by {
        assert(rest.contains(rest[i]));
        assert(target.contains(rest[i]));
        assert(table_valid(files, target[target.index_of(rest[i])]));
    }
    assert forall|f: Seq<char>| #[trigger] has_path(rest, f) implies has_path(sr + tr, f) by {
        let t = lemma_path_holder(rest, f);
        assert(target.contains(t));
        lemma_path_of(target, t);
    }
    assert forall|f: Seq<char>| #[trigger] names.contains(f) implies has_path(sr + tr, f)
        && files.contains_key(f) by {
        let t = lemma_path_holder(overlap + source, f);
        if overlap.contains(t) {
            assert(target.contains(t));
            lemma_path_of(target, t);
            assert(table_valid(files, target[target.index_of(t)]));
        } else {
            lemma_path_of(source, t);
            assert(table_valid(files, source[source.index_of(t)]));
        }
    }
    assert(!names.contains(path));
    assert forall|t: TableView| #[trigger] a.contains(t) implies same_file(files, after, t.path) by {
        lemma_path_of(a, t);
        assert(table_valid(files, a[a.index_of(t)]));
        assert(!has_path(sr + tr, t.path));
        assert(!names.contains(t.path));
    }
    assert forall|t: TableView| #[trigger] b.contains(t) implies same_file(files, after, t.path) by {
        lemma_path_of(b, t);
        assert(table_valid(files, b[b.index_of(t)]));
        assert(!has_path(sr + tr, t.path));
        assert(!names.contains(t.path));
    }
    assert forall|t: TableView| #[trigger] rest.contains(t) implies same_file(
        files,
        after,
        t.path,
    ) by {
        assert(target.contains(t));
        lemma_path_of(target, t);
        assert(table_valid(files, target[target.index_of(t)]));
        if names.contains(t.path) {
            let u = lemma_path_holder(overlap + source, t.path);
            if overlap.contains(u) {
                assert(target.contains(u));
                let x = target.index_of(u);
                let y = target.index_of(t);
                assert(target[x].path == target[y].path);
                assert(x == y);
                assert(overlaps(u, start, end));
                assert(!overlaps(t, start, end));
            } else {
                lemma_path_of(source, u);
                assert(has_path(sr, t.path));
                assert(has_path(tr, t.path));
            }
            assert(false);
        }
    }
    assert forall|f: Seq<char>| !(#[trigger] has_path(a, f) && #[trigger] has_path(rest, f)) by {
        if has_path(rest, f) {
            assert(has_path(sr + tr, f));
        }
    }
    assert forall|f: Seq<char>| !(#[trigger] has_path(rest, f) && #[trigger] has_path(b, f)) by {
        if has_path(rest, f) {
            assert(has_path(sr + tr, f));
        }
    }
    if has_path(a, path) {
        let t = lemma_path_holder(a, path);
        assert(table_valid(files, a[a.index_of(t)]));
    }
    if has_path(rest, path) {
        let t = lemma_path_holder(rest, path);
        assert(table_valid(files, rest[rest.index_of(t)]));
    }
    if has_path(b, path) {
        let t = lemma_path_holder(b, path);
        assert(table_valid(files, b[b.index_of(t)]));
    }
}

/// A merge gives entries that can be written, and a table that holds them.
proof fn lemma_merge_entries(
    files: Files,
    after: Files,
    source: LevelView,
    target: LevelView,
    name: Seq<char>,
    now: Clock,
)
    requires
        in_order(files, source.tables),
        in_order(files, target.tables),
        range_of(source.tables) is Some,
        ({
            let (start, end) = range_of(source.tables)->0;
            let overlap = tables_for_range(target.tables, start, end);
            let m = layered(files, source.tables.reverse() + overlap);
            let w = kept_entries(target, m, now);
            let path = table_filename(level_id(target, name, now));
            &&& after.contains_key(path)
            &&& after[path] == table_bytes(w)
            &&& table_bytes(w).len() <= u64::MAX
        }),
    ensures
        ({
            let (start, end) = range_of(source.tables)->0;
            let overlap = tables_for_range(target.tables, start, end);
            let m = layered(files, source.tables.reverse() + overlap);
            let w = kept_entries(target, m, now);
            let t = written_table(level_id(target, name, now), w);
            &&& merged(files, Map::empty(), source.tables.reverse() + overlap) == Ok::<
                Entries,
                StoreError,
            >(m)
            &&& table_valid(after, t)
            &&& table_entries(after, t) == w
        }),
{
    let (start, end) = range_of(source.tables)->0;
    let overlap = tables_for_range(target.tables, start, end);
    let list = source.tables.reverse() + overlap;
    let m = layered(files, list);
    let w = kept_entries(target, m, now);
    lemma_kept(target.tables, start, end);
    lemma_merge_reads(files, source.tables, target.tables);
    lemma_merged_orderable(files, list);
    lemma_swept_writable(m, now.ms);
    lemma_swept_orderable(m, now.ms);
    lemma_written_table(after, level_id(target, name, now), w);
}

/// A merge of valid tables reads what they give together.
proof fn lemma_merge_reads(files: Files, source: Seq<TableView>, target: Seq<TableView>)
    requires
        all_valid(files, source),
        all_valid(files, target),
        range_of(source) is Some,
    ensures
        ({
            let (start, end) = range_of(source)->0;
            let list = source.reverse() + tables_for_range(target, start, end);
            &&& merged(files, Map::empty(), list) == Ok::<Entries, StoreError>(layered(files, list))
            &&& writable(layered(files, list))
        }),
{
    let (start, end) = range_of(source)->0;
    let overlap = tables_for_range(target, start, end);
    let list = source.reverse() + overlap;
    lemma_kept(target, start, end);
    lemma_valid_reverse(files, source);
    assert forall|i: int| 0 <= i < overlap.len() implies table_valid(files, #[trigger] overlap[i]) by {
        assert(overlap.contains(overlap[i]));
        assert(target.contains(overlap[i]));
        assert(table_valid(files, target[target.index_of(overlap[i])]));
    }
    lemma_valid_concat(files, source.reverse(), overlap);
    lemma_merged(files, Map::empty(), list);
    assert(layered(files, list).union_prefer_right(Map::empty()) =~= layered(files, list));
}

/// What a key has, where only what is seen at a time counts.
pub open spec fn seen(m: Entries, now_ms: u64, k: Seq<char>) -> Option<crate::engine::Live> {
    lookup(unexpired(live(m), now_ms), k)
}

/// After a merge a key has what it had.
proof fn lemma_merge_seen(
    files: Files,
    after: Files,
    a: Seq<TableView>,
    source: Seq<TableView>,
    target: Seq<TableView>,
    b: Seq<TableView>,
    t: TableView,
    swept_at: Option<u64>,
    now_ms: u64,
    k: Seq<char>,
)
    requires
        range_of(source) is Some,
        all_valid(files, source),
        all_valid(files, target),
        disjoint(files, target),
        layered(after, a) == layered(files, a),
        layered(after, b) == layered(files, b),
        ({
            let (start, end) = range_of(source)->0;
            let overlap = tables_for_range(target, start, end);
            let m = layered(files, source.reverse() + overlap);
            &&& untouched(files, after, kept(target, start, end))
            &&& match swept_at {
                Some(ms) => ms == now_ms && b.len() == 0 && table_entries(after, t) == swept(m, ms),
                None => table_entries(after, t) == m,
            }
        }),
    ensures
        ({
            let (start, end) = range_of(source)->0;
            seen(
                layered(after, a + kept(target, start, end).push(t).reverse() + b),
                now_ms,
                k,
            ) == seen(
                layered(files, a + (source.reverse() + target.reverse()) + b),
                now_ms,
                k,
            )
        }),
{
    let (start, end) = range_of(source)->0;
    let overlap = tables_for_range(target, start, end);
    let m = layered(files, source.reverse() + overlap);
    let two = source.reverse() + target.reverse();
    let one = kept(target, start, end).push(t).reverse();
    lemma_merge_key(files, after, source, target, t, k);
    lemma_lookup_concat(files, a + two, b, k);
    lemma_lookup_concat(files, a, two, k);
    lemma_lookup_concat(after, a + one, b, k);
    lemma_lookup_concat(after, a, one, k);
    let x = layered(files, a + two + b);
    let y = layered(after, a + one + b);
    if layered(files, a).contains_key(k) {
        assert(lookup(x, k) == lookup(y, k));
    } else if m.contains_key(k) {
        assert(lookup(x, k) == Some(m[k]));
        if swept_at is Some {
            if !swept(m, now_ms).contains_key(k) {
                assert(layered(after, b) == Map::<Seq<char>, EntryView>::empty());
            }
        }
    } else {
        assert(lookup(x, k) == lookup(y, k));
    }
}

/// What compacting a level promises of levels in good order.
pub open spec fn step_kept(
    files: Files,
    levels: Seq<LevelView>,
    after: Files,
    ls: Seq<LevelView>,
    now: Clock,
) -> bool {
    &&& ls.len() == levels.len()
    &&& numbered(ls)
    &&& in_order(after, stacked(ls))
    &&& well_arranged(after, ls)
    &&& forall|t: TableView| #[trigger]
        stacked(ls).contains(t) ==> stacked(levels).contains(t) || t.id.timestamp == now.ns
    &&& forall|k: Seq<char>| #[trigger]
        seen(layered(after, stacked(ls)), now.ms, k) == seen(
            layered(files, stacked(levels)),
            now.ms,
            k,
        )
}

/// Levels stay arranged where their files are left alone.
proof fn lemma_level_untouched(
    files: Files,
    after: Files,
    levels: Seq<LevelView>,
    part: Seq<TableView>,
    i: int,
)
    requires
        0 <= i < levels.len(),
        untouched(files, after, part),
        in_order(files, part),
        forall|t: TableView| #[trigger] levels[i].tables.contains(t) ==> part.contains(t),
        i >= 1 ==> disjoint(files, levels[i].tables),
    ensures
        i >= 1 ==> disjoint(after, levels[i].tables),
{
    lemma_untouched(files, after, part);
    if i >= 1 {
        let tables = levels[i].tables;
        assert forall|a: TableView, b: TableView, k: Seq<char>|
            tables.contains(a) && tables.contains(b) && #[trigger] table_entries(
                after,
                a,
            ).contains_key(k) && #[trigger] table_entries(after, b).contains_key(k) implies a
            == b by {
            assert(part.contains(a));
            assert(part.contains(b));
        }
    }
}

pub proof fn lemma_stacked_contains(levels: Seq<LevelView>, i: int)
    requires
        0 <= i < levels.len(),
    ensures
        forall|t: TableView| #[trigger]
            levels[i].tables.contains(t) ==> stacked(levels).contains(t),
{
    lemma_stacked_at(levels, i);
    lemma_concat_contains(
        stacked(levels.take(i)) + levels[i].tables.reverse(),
        stacked(levels.skip(i + 1)),
    );
    lemma_concat_contains(stacked(levels.take(i)), levels[i].tables.reverse());
    lemma_reverse_contains(levels[i].tables);
}

pub proof fn lemma_stacked_holder(levels: Seq<LevelView>, t: TableView) -> (i: int)
    requires
        stacked(levels).contains(t),
    ensures
        0 <= i < levels.len(),
        levels[i].tables.contains(t),
    decreases levels.len(),
{
    let init = levels.drop_last();
    let last = levels.last().tables;
    lemma_concat_contains(stacked(init), last.reverse());
    lemma_reverse_contains(last);
    if last.contains(t) {
        levels.len() - 1
    } else {
        lemma_stacked_holder(init, t)
    }
}

/// The table that a merge writes shares no key with those that it keeps.
proof fn lemma_merge_disjoint(
    files: Files,
    after: Files,
    source: Seq<TableView>,
    target: Seq<TableView>,
    t: TableView,
)
    requires
        range_of(source) is Some,
        all_valid(files, source),
        all_valid(files, target),
        disjoint(files, target),
        ({
            let (start, end) = range_of(source)->0;
            let overlap = tables_for_range(target, start, end);
            let m = layered(files, source.reverse() + overlap);
            &&& untouched(files, after, kept(target, start, end))
            &&& in_order(files, kept(target, start, end))
            &&& forall|k: Seq<char>| #[trigger]
                table_entries(after, t).contains_key(k) ==> m.contains_key(k)
        }),
    ensures
        disjoint(after, kept(target, (range_of(source)->0).0, (range_of(source)->0).1).push(t)),
{
    let (start, end) = range_of(source)->0;
    let overlap = tables_for_range(target, start, end);
    let rest = kept(target, start, end);
    let all = rest.push(t);
    let m = layered(files, source.reverse() + overlap);
    lemma_untouched(files, after, rest);
    lemma_push_contains(rest, t);
    lemma_kept(target, start, end);
    assert forall|a: TableView, b: TableView, k: Seq<char>|
        all.contains(a) && all.contains(b) && #[trigger] table_entries(after, a).contains_key(k)
            && #[trigger] table_entries(after, b).contains_key(k) implies a == b by {
        if rest.contains(a) && rest.contains(b) {
            assert(target.contains(a));
            assert(target.contains(b));
        } else if a != b {
            let o = if a == t {
                b
            } else {
                a
            };
            assert(rest.contains(o));
            assert(m.contains_key(k));
            lemma_kept_lacks(files, source, target, o, k);
        }
    }
}

/// A table that a merge keeps has none of the keys that it reads.
proof fn lemma_kept_lacks(
    files: Files,
    source: Seq<TableView>,
    target: Seq<TableView>,
    o: TableView,
    k: Seq<char>,
)
    requires
        range_of(source) is Some,
        all_valid(files, source),
        all_valid(files, target),
        disjoint(files, target),
        ({
            let (start, end) = range_of(source)->0;
            let overlap = tables_for_range(target, start, end);
            &&& kept(target, start, end).contains(o)
            &&& layered(files, source.reverse() + overlap).contains_key(k)
        }),
    ensures
        !table_entries(files, o).contains_key(k),
{
    let (start, end) = range_of(source)->0;
    let overlap = tables_for_range(target, start, end);
    let list = source.reverse() + overlap;
    lemma_kept(target, start, end);
    lemma_reverse_contains(source);
    lemma_concat_contains(source.reverse(), overlap);
    lemma_layered_key(files, list, k);
    let i = choose|i: int|
        0 <= i < list.len() && table_entries(files, #[trigger] list[i]).contains_key(k);
    assert(list.contains(list[i]));
    let u = list[i];
    assert(target.contains(o));
    assert(table_valid(files, target[target.index_of(o)]));
    if table_entries(files, o).contains_key(k) {
        if overlap.contains(u) {
            assert(target.contains(u));
            assert(u == o);
        } else {
            assert(source.contains(u));
            lemma_range_of(files, source, u, k);
            lemma_key_bounds(files, o, k);
            let min = o.index.min->0;
            let max = o.index.max->0;
            lemma_key_lt_total(k, start);
            lemma_key_lt_total(max, k);
            lemma_key_lt_total(k, end);
            lemma_key_lt_total(min, k);
            if key_lt(max, start) && k != max {
                lemma_key_lt_transitive(k, max, start);
            }
            if key_lt(end, min) && k != min {
                lemma_key_lt_transitive(end, min, k);
            }
            assert(overlaps(o, start, end));
        }
        assert(false);
    }
}

/// The directory after a level was merged into the next.
spec fn merge_files(
    files: Files,
    source: LevelView,
    target: LevelView,
    name: Seq<char>,
    now: Clock,
) -> Files {
    let (start, end) = range_of(source.tables)->0;
    let overlap = tables_for_range(target.tables, start, end);
    let w = kept_entries(target, layered(files, source.tables.reverse() + overlap), now);
    without_files(
        files.insert(table_filename(level_id(target, name, now)), table_bytes(w)),
        paths_of(overlap + source.tables),
    )
}

/// The table that a merge writes.
spec fn merge_table(
    files: Files,
    source: LevelView,
    target: LevelView,
    name: Seq<char>,
    now: Clock,
) -> TableView {
    let (start, end) = range_of(source.tables)->0;
    let overlap = tables_for_range(target.tables, start, end);
    let w = kept_entries(target, layered(files, source.tables.reverse() + overlap), now);
    written_table(level_id(target, name, now), w)
}

/// The levels after one was merged into the next.
spec fn merge_levels(
    files: Files,
    levels: Seq<LevelView>,
    i: int,
    name: Seq<char>,
    now: Clock,
) -> Seq<LevelView> {
    let (start, end) = range_of(levels[i].tables)->0;
    let t = merge_table(files, levels[i], levels[i + 1], name, now);
    levels.update(i, with_tables(levels[i], Seq::empty())).update(
        i + 1,
        with_tables(levels[i + 1], kept(levels[i + 1].tables, start, end).push(t)),
    )
}

/// What is known where a level is merged into the next.
spec fn mergeable(files: Files, levels: Seq<LevelView>, i: int, name: Seq<char>, now: Clock) -> bool {
    &&& 0 <= i < levels.len() - 1
    &&& numbered(levels)
    &&& in_order(files, stacked(levels))
    &&& well_arranged(files, levels)
    &&& !files.contains_key(table_filename(level_id(levels[i + 1], name, now)))
    &&& range_of(levels[i].tables) is Some
}

proof fn lemma_merge_outcome(files: Files, levels: Seq<LevelView>, i: int, name: Seq<char>, now: Clock)
    requires
        mergeable(files, levels, i, name, now),
    ensures
        stepped(files, levels, i, name, now) == (
            merge_files(files, levels[i], levels[i + 1], name, now),
            merge_levels(files, levels, i, name, now),
            None::<StoreError>,
        ),
        ({
            let after = merge_files(files, levels[i], levels[i + 1], name, now);
            let t = merge_table(files, levels[i], levels[i + 1], name, now);
            let (start, end) = range_of(levels[i].tables)->0;
            let rest = kept(levels[i + 1].tables, start, end);
            let a = stacked(levels.take(i));
            let b = stacked(levels.skip(i + 2));
            &&& untouched(files, after, a)
            &&& untouched(files, after, rest)
            &&& untouched(files, after, b)
            &&& in_order(files, a)
            &&& in_order(files, rest)
            &&& in_order(files, b)
            &&& in_order(files, levels[i].tables)
            &&& in_order(files, levels[i + 1].tables)
            &&& apart(a, rest)
            &&& apart(rest, b)
            &&& apart(a, b)
            &&& !has_path(a, t.path)
            &&& !has_path(rest, t.path)
            &&& !has_path(b, t.path)
            &&& after.contains_key(t.path)
            &&& after[t.path] == table_bytes(
                kept_entries(
                    levels[i + 1],
                    layered(
                        files,
                        levels[i].tables.reverse() + tables_for_range(
                            levels[i + 1].tables,
                            start,
                            end,
                        ),
                    ),
                    now,
                ),
            )
        }),
{
    let source = levels[i];
    let target = levels[i + 1];
    let (start, end) = range_of(source.tables)->0;
    let a = stacked(levels.take(i));
    let b = stacked(levels.skip(i + 2));
    let overlap = tables_for_range(target.tables, start, end);
    let m = layered(files, source.tables.reverse() + overlap);
    let w = kept_entries(target, m, now);
    lemma_two_levels(levels, i);
    assert(!source.is_terminal);
    assert(disjoint(files, levels[i + 1].tables));
    lemma_merge_untouched(
        files,
        a,
        source.tables,
        target.tables,
        b,
        table_filename(level_id(target, name, now)),
        table_bytes(w),
    );
    lemma_merge_reads(files, source.tables, target.tables);
}

proof fn lemma_merge_stack(files: Files, levels: Seq<LevelView>, i: int, name: Seq<char>, now: Clock)
    requires
        mergeable(files, levels, i, name, now),
    ensures
        ({
            let (start, end) = range_of(levels[i].tables)->0;
            let t = merge_table(files, levels[i], levels[i + 1], name, now);
            stacked(merge_levels(files, levels, i, name, now)) == stacked(levels.take(i)) + kept(
                levels[i + 1].tables,
                start,
                end,
            ).push(t).reverse() + stacked(levels.skip(i + 2))
        }),
{
    let ls = merge_levels(files, levels, i, name, now);
    let (start, end) = range_of(levels[i].tables)->0;
    let t = merge_table(files, levels[i], levels[i + 1], name, now);
    let one = kept(levels[i + 1].tables, start, end).push(t).reverse();
    assert(ls.take(i) =~= levels.take(i));
    assert(ls.skip(i + 2) =~= levels.skip(i + 2));
    lemma_two_levels(ls, i);
    assert(ls[i].tables.reverse() + one =~= one);
}

/// Compacting a level that is not the last one keeps levels in good order, and what
/// every key has.
pub proof fn lemma_merge_step(
    files: Files,
    levels: Seq<LevelView>,
    i: int,
    name: Seq<char>,
    now: Clock,
)
    requires
        0 <= i < levels.len() - 1,
        numbered(levels),
        in_order(files, stacked(levels)),
        well_arranged(files, levels),
        !files.contains_key(table_filename(level_id(levels[i + 1], name, now))),
        files_fit(stepped(files, levels, i, name, now).0),
    ensures
        ({
            let (after, ls, end) = stepped(files, levels, i, name, now);
            &&& end is None
            &&& step_kept(files, levels, after, ls, now)
            &&& lowest(ls[i].tables) is None
            &&& registered(files, name, stacked(levels)) ==> registered(after, name, stacked(ls))
        }),
{
    let source = levels[i];
    let target = levels[i + 1];
    if range_of(source.tables) is None {
        lemma_stacked_at(levels, i);
        lemma_three_parts(
            files,
            stacked(levels.take(i)),
            source.tables.reverse(),
            stacked(levels.skip(i + 1)),
        );
        lemma_order_reverse(files, source.tables);
        assert forall|j: int| 0 <= j < source.tables.len() implies ((
        #[trigger] source.tables[j]).index.min is Some <==> source.tables[j].index.max is Some) by {
            assert(table_valid(files, source.tables[j]));
        }
        lemma_same_ends(source.tables);
        assert(!source.is_terminal);
        assert(levels.update(i, source).update(i + 1, target) =~= levels);
    } else {
        lemma_merge_outcome(files, levels, i, name, now);
        let after = merge_files(files, source, target, name, now);
        let ls = merge_levels(files, levels, i, name, now);
        let t = merge_table(files, source, target, name, now);
        assert(after[t.path].len() <= u64::MAX);
        lemma_merge_entries(files, after, source, target, name, now);
        lemma_merge_step_order(files, levels, i, name, now);
        assert forall|k: Seq<char>| #[trigger]
            seen(layered(after, stacked(ls)), now.ms, k) == seen(
                layered(files, stacked(levels)),
                now.ms,
                k,
            ) by {
            lemma_merge_step_key(files, levels, i, name, now, k);
        }
        lemma_merge_members(files, levels, i, ls, t);
        if registered(files, name, stacked(levels)) {
            lemma_merge_registered(files, levels, i, name, now);
        }
    }
}

/// Merging a level into the next keeps what every key has. It empties the level. Of the
/// next one the tables that do not overlap it stay as they are, and one new table takes
/// the place of the others; in the last level that table holds no deletions.
pub proof fn lemma_levels_merged(
    files: Files,
    levels: Seq<LevelView>,
    i: int,
    name: Seq<char>,
    now: Clock,
)
    requires
        0 <= i < levels.len() - 1,
        numbered(levels),
        in_order(files, stacked(levels)),
        well_arranged(files, levels),
        !files.contains_key(table_filename(level_id(levels[i + 1], name, now))),
        files_fit(merged_down(files, levels[i], levels[i + 1], name, now).0),
    ensures
        ({
            let (after, s, t, end) = merged_down(files, levels[i], levels[i + 1], name, now);
            let ls = levels.update(i, s).update(i + 1, t);
            &&& end is None
            &&& forall|k: Seq<char>| #[trigger]
                seen(layered(after, stacked(ls)), now.ms, k) == seen(
                    layered(files, stacked(levels)),
                    now.ms,
                    k,
                )
            &&& range_of(levels[i].tables) matches Some((start, stop)) ==> {
                &&& s.tables.len() == 0
                &&& forall|u: TableView| #[trigger]
                    kept(levels[i + 1].tables, start, stop).contains(u) ==> (after.contains_key(
                        u.path,
                    ) <==> files.contains_key(u.path)) && content(after, u.path) == content(
                        files,
                        u.path,
                    )
                &&& exists|new: TableView|
                    {
                        &&& t.tables == #[trigger] kept(levels[i + 1].tables, start, stop).push(new)
                        &&& levels[i + 1].is_terminal ==> forall|k: Seq<char>| #[trigger]
                            table_entries(after, new).contains_key(k) ==> table_entries(
                                after,
                                new,
                            )[k].value is Some
                    }
            }
        }),
{
    assert(!levels[i].is_terminal);
    lemma_merge_step(files, levels, i, name, now);
    let (after, s, t, end) = merged_down(files, levels[i], levels[i + 1], name, now);
    if let Some((start, stop)) = range_of(levels[i].tables) {
        lemma_merge_outcome(files, levels, i, name, now);
        let new = merge_table(files, levels[i], levels[i + 1], name, now);
        let ls = merge_levels(files, levels, i, name, now);
        let rest = kept(levels[i + 1].tables, start, stop);
        assert(ls[i].tables.len() == 0);
        assert(ls[i] == s && ls[i + 1] == t);
        assert(t.tables == rest.push(new));
        assert(after[new.path].len() <= u64::MAX);
        lemma_merge_entries(files, after, levels[i], levels[i + 1], name, now);
        assert forall|u: TableView| #[trigger] rest.contains(u) implies (after.contains_key(u.path)
            <==> files.contains_key(u.path)) && content(after, u.path) == content(
            files,
            u.path,
        ) by {
            assert(rest[rest.index_of(u)] == u);
        }
    }
}

/// A merge leaves no table out, and adds none that is not there.
proof fn lemma_merge_registered(files: Files, levels: Seq<LevelView>, i: int, name: Seq<char>, now: Clock)
    requires
        mergeable(files, levels, i, name, now),
        registered(files, name, stacked(levels)),
    ensures
        registered(
            merge_files(files, levels[i], levels[i + 1], name, now),
            name,
            stacked(merge_levels(files, levels, i, name, now)),
        ),
{
    let source = levels[i];
    let target = levels[i + 1];
    let (start, end) = range_of(source.tables)->0;
    let overlap = tables_for_range(target.tables, start, end);
    let rest = kept(target.tables, start, end);
    let after = merge_files(files, source, target, name, now);
    let ls = merge_levels(files, levels, i, name, now);
    let t = merge_table(files, source, target, name, now);
    let a = stacked(levels.take(i));
    let b = stacked(levels.skip(i + 2));
    let one = rest.push(t).reverse();
    let two = source.tables.reverse() + target.tables.reverse();
    lemma_merge_stack(files, levels, i, name, now);
    lemma_two_levels(levels, i);
    lemma_merge_members(files, levels, i, ls, t);
    lemma_parse_table_filename(level_id(target, name, now));
    lemma_concat_contains(a + two, b);
    lemma_concat_contains(a, two);
    lemma_concat_contains(a + one, b);
    lemma_concat_contains(a, one);
    lemma_concat_contains(source.tables.reverse(), target.tables.reverse());
    lemma_reverse_contains(source.tables);
    lemma_reverse_contains(target.tables);
    lemma_reverse_contains(rest.push(t));
    lemma_push_contains(rest, t);
    lemma_kept(target.tables, start, end);
    lemma_concat_contains(overlap, source.tables);
    lemma_paths_of(overlap + source.tables);
    assert forall|f: Seq<char>| #[trigger] after.contains_key(f) && names_table(
        f,
        name,
    ) implies has_path(stacked(ls), f) by {
        if f == t.path {
            assert(one.contains(t));
            lemma_path_of(one, t);
            assert(has_path(a + one, f));
        } else {
            assert(files.contains_key(f));
            assert(!has_path(overlap + source.tables, f));
            assert(has_path(stacked(levels), f));
            if has_path(target.tables, f) {
                let u = lemma_path_holder(target.tables, f);
                if overlaps(u, start, end) {
                    assert(overlap.contains(u));
                    lemma_path_of(overlap, u);
                    assert(false);
                }
                assert(rest.contains(u));
                assert(one.contains(u));
                lemma_path_of(one, u);
            }
            assert(has_path(a, f) || has_path(one, f) || has_path(b, f));
            assert(has_path(a + one, f) || has_path(b, f));
        }
    }
}

proof fn lemma_merge_step_order(files: Files, levels: Seq<LevelView>, i: int, name: Seq<char>, now: Clock)
    requires
        mergeable(files, levels, i, name, now),
        files_fit(merge_files(files, levels[i], levels[i + 1], name, now)),
    ensures
        ({
            let after = merge_files(files, levels[i], levels[i + 1], name, now);
            let ls = merge_levels(files, levels, i, name, now);
            &&& numbered(ls)
            &&& in_order(after, stacked(ls))
            &&& well_arranged(after, ls)
        }),
{
    let source = levels[i];
    let target = levels[i + 1];
    let (start, end) = range_of(source.tables)->0;
    let rest = kept(target.tables, start, end);
    let overlap = tables_for_range(target.tables, start, end);
    let list = source.tables.reverse() + overlap;
    let m = layered(files, list);
    let a = stacked(levels.take(i));
    let b = stacked(levels.skip(i + 2));
    lemma_merge_outcome(files, levels, i, name, now);
    let after = merge_files(files, source, target, name, now);
    let ls = merge_levels(files, levels, i, name, now);
    let t = merge_table(files, source, target, name, now);
    assert(after[t.path].len() <= u64::MAX);
    lemma_merge_entries(files, after, source, target, name, now);
    lemma_merge_stack(files, levels, i, name, now);
    lemma_untouched(files, after, a);
    lemma_untouched(files, after, rest);
    lemma_untouched(files, after, b);
    lemma_merge_in_order(files, after, a, rest, b, t);
    assert(disjoint(files, levels[i + 1].tables));
    lemma_merge_disjoint(files, after, source.tables, target.tables, t);
    lemma_kept(target.tables, start, end);
    lemma_push_contains(rest, t);
    assert(levels[i + 1].level_num == i + 1);
    assert(homed(levels[i + 1].tables, i + 1, levels.len()));
    assert(homed(rest.push(t), i + 1, levels.len()));
    lemma_merge_arranged(files, levels, i, after, ls);
    assert forall|j: int| 0 <= j < ls.len() implies (#[trigger] ls[j]).level_num == j
        && ls[j].is_terminal == (j == ls.len() - 1) by {
        assert(levels[j].level_num == j);
    }
}

proof fn lemma_merge_step_key(
    files: Files,
    levels: Seq<LevelView>,
    i: int,
    name: Seq<char>,
    now: Clock,
    k: Seq<char>,
)
    requires
        mergeable(files, levels, i, name, now),
        files_fit(merge_files(files, levels[i], levels[i + 1], name, now)),
    ensures
        seen(
            layered(
                merge_files(files, levels[i], levels[i + 1], name, now),
                stacked(merge_levels(files, levels, i, name, now)),
            ),
            now.ms,
            k,
        ) == seen(layered(files, stacked(levels)), now.ms, k),
{
    let source = levels[i];
    let target = levels[i + 1];
    let a = stacked(levels.take(i));
    let b = stacked(levels.skip(i + 2));
    lemma_merge_outcome(files, levels, i, name, now);
    let after = merge_files(files, source, target, name, now);
    let t = merge_table(files, source, target, name, now);
    assert(after[t.path].len() <= u64::MAX);
    lemma_merge_entries(files, after, source, target, name, now);
    lemma_merge_stack(files, levels, i, name, now);
    lemma_two_levels(levels, i);
    lemma_untouched(files, after, a);
    lemma_untouched(files, after, b);
    let swept_at = if target.is_terminal {
        Some(now.ms)
    } else {
        None
    };
    if target.is_terminal {
        assert(levels[i + 1].is_terminal == (i + 1 == levels.len() - 1));
        assert(levels.skip(i + 2) =~= Seq::<LevelView>::empty());
    }
    assert(disjoint(files, levels[i + 1].tables));
    lemma_merge_seen(
        files,
        after,
        a,
        source.tables,
        target.tables,
        b,
        t,
        swept_at,
        now.ms,
        k,
    );
}

/// Tables have a smallest key where they have a largest.
proof fn lemma_same_ends(tables: Seq<TableView>)
    requires
        forall|i: int|
            0 <= i < tables.len() ==> ((#[trigger] tables[i]).index.min is Some
                <==> tables[i].index.max is Some),
    ensures
        lowest(tables) is Some <==> highest(tables) is Some,
    decreases tables.len(),
{
    if tables.len() > 0 {
        let init = tables.drop_last();
        assert forall|i: int| 0 <= i < init.len() implies ((#[trigger] init[i]).index.min is Some
            <==> init[i].index.max is Some) by {
            assert(init[i] == tables[i]);
        }
        lemma_same_ends(init);
        assert(tables[tables.len() - 1].index.min is Some <==> tables[tables.len()
            - 1].index.max is Some);
    }
}

/// Tables without a smallest key have no key.
proof fn lemma_no_keys(files: Files, tables: Seq<TableView>, t: TableView)
    requires
        all_valid(files, tables),
        lowest(tables) is None,
        tables.contains(t),
    ensures
        t.index.min is None,
        forall|k: Seq<char>| !(#[trigger] table_entries(files, t).contains_key(k)),
    decreases tables.len(),
{
    let init = tables.drop_last();
    let i = tables.index_of(t);
    assert(table_valid(files, tables[i]));
    if i < init.len() {
        assert forall|j: int| 0 <= j < init.len() implies table_valid(files, #[trigger] init[j]) by {
            assert(init[j] == tables[j]);
        }
        assert(init[i] == t);
        lemma_no_keys(files, init, t);
    } else {
        assert forall|k: Seq<char>| !(#[trigger] table_entries(files, t).contains_key(k)) by {
            if table_entries(files, t).contains_key(k) {
                lemma_key_bounds(files, t, k);
            }
        }
    }
}

proof fn lemma_merge_in_order(
    files: Files,
    after: Files,
    a: Seq<TableView>,
    rest: Seq<TableView>,
    b: Seq<TableView>,
    t: TableView,
)
    requires
        in_order(after, a),
        in_order(after, rest),
        in_order(after, b),
        table_valid(after, t),
        apart(a, rest),
        apart(rest, b),
        apart(a, b),
        !has_path(a, t.path),
        !has_path(rest, t.path),
        !has_path(b, t.path),
    ensures
        in_order(after, a + rest.push(t).reverse() + b),
{
    let p = rest.push(t);
    lemma_distinct_back(rest, t);
    assert forall|i: int| 0 <= i < p.len() implies table_valid(after, #[trigger] p[i]) by {
        if i < rest.len() {
            assert(p[i] == rest[i]);
        }
    }
    lemma_order_reverse(after, p);
    lemma_reverse_contains(p);
    assert forall|f: Seq<char>| #[trigger] has_path(p.reverse(), f) implies has_path(rest, f) || f
        == t.path by {
        assert(has_path(p, f));
        let i = choose|i: int| 0 <= i < p.len() && (#[trigger] p[i]).path == f;
        if i < rest.len() {
            assert(rest[i].path == f);
        }
    }
    assert forall|f: Seq<char>| !(#[trigger] has_path(a, f) && #[trigger] has_path(p.reverse(), f)) by {
        if has_path(p.reverse(), f) && has_path(a, f) {
            assert(has_path(rest, f) || f == t.path);
        }
    }
    assert forall|f: Seq<char>| !(#[trigger] has_path(p.reverse(), f) && #[trigger] has_path(b, f)) by {
        if has_path(p.reverse(), f) && has_path(b, f) {
            assert(has_path(rest, f) || f == t.path);
        }
    }
    lemma_three_parts(after, a, p.reverse(), b);
}

/// Levels stay arranged when one was merged into the next.
proof fn lemma_merge_arranged(
    files: Files,
    levels: Seq<LevelView>,
    i: int,
    after: Files,
    ls: Seq<LevelView>,
)
    requires
        0 <= i < levels.len() - 1,
        numbered(levels),
        well_arranged(files, levels),
        in_order(files, stacked(levels.take(i))),
        in_order(files, stacked(levels.skip(i + 2))),
        untouched(files, after, stacked(levels.take(i))),
        untouched(files, after, stacked(levels.skip(i + 2))),
        ls.len() == levels.len(),
        forall|j: int| 0 <= j < levels.len() && j != i && j != i + 1 ==> ls[j] == #[trigger] levels[j],
        ls[i].tables.len() == 0,
        disjoint(after, ls[i + 1].tables),
        homed(ls[i + 1].tables, i + 1, levels.len()),
    ensures
        well_arranged(after, ls),
{
    assert forall|j: int| 1 <= j < ls.len() implies disjoint(after, (#[trigger] ls[j]).tables) by {
        if j == i {
        } else if j == i + 1 {
        } else {
            assert(ls[j] == levels[j]);
            assert(disjoint(files, levels[j].tables));
            if j < i {
                let part = levels.take(i);
                assert(part[j] == levels[j]);
                lemma_stacked_contains(part, j);
                lemma_level_untouched(files, after, levels, stacked(part), j);
            } else {
                let part = levels.skip(i + 2);
                assert(part[j - i - 2] == levels[j]);
                lemma_stacked_contains(part, j - i - 2);
                lemma_level_untouched(files, after, levels, stacked(part), j);
            }
        }
    }
    assert forall|j: int| 0 <= j < ls.len() implies homed(
        (#[trigger] ls[j]).tables,
        j,
        ls.len(),
    ) by {
        if j != i && j != i + 1 {
            assert(ls[j] == levels[j]);
            assert(homed(levels[j].tables, j, levels.len()));
        }
    }
    if i > 0 {
        assert(ls[0] == levels[0]);
    }
}

/// The tables after a merge were there before, or are new.
proof fn lemma_merge_members(
    files: Files,
    levels: Seq<LevelView>,
    i: int,
    ls: Seq<LevelView>,
    t: TableView,
)
    requires
        0 <= i < levels.len() - 1,
        range_of(levels[i].tables) is Some,
        ls == levels.update(i, with_tables(levels[i], Seq::empty())).update(
            i + 1,
            with_tables(
                levels[i + 1],
                kept(
                    levels[i + 1].tables,
                    (range_of(levels[i].tables)->0).0,
                    (range_of(levels[i].tables)->0).1,
                ).push(t),
            ),
        ),
    ensures
        forall|u: TableView| #[trigger]
            stacked(ls).contains(u) ==> stacked(levels).contains(u) || u == t,
{
    let (start, end) = range_of(levels[i].tables)->0;
    let a = stacked(levels.take(i));
    let b = stacked(levels.skip(i + 2));
    let rest = kept(levels[i + 1].tables, start, end);
    let one = rest.push(t).reverse();
    let two = levels[i].tables.reverse() + levels[i + 1].tables.reverse();
    lemma_two_levels(levels, i);
    lemma_two_levels(ls, i);
    assert(ls.take(i) =~= levels.take(i));
    assert(ls.skip(i + 2) =~= levels.skip(i + 2));
    assert(ls[i].tables.reverse() + one =~= one);
    lemma_concat_contains(a + two, b);
    lemma_concat_contains(a, two);
    lemma_concat_contains(a + one, b);
    lemma_concat_contains(a, one);
    lemma_concat_contains(levels[i].tables.reverse(), levels[i + 1].tables.reverse());
    lemma_reverse_contains(levels[i + 1].tables);
    lemma_reverse_contains(rest.push(t));
    lemma_push_contains(rest, t);
    lemma_kept(levels[i + 1].tables, start, end);
}

/// What is known where the last level is merged into one table.
spec fn squashable(files: Files, levels: Seq<LevelView>, name: Seq<char>, now: Clock) -> bool {
    let i = levels.len() - 1;
    let path = table_filename(level_id(levels[i], name, now));
    &&& levels.len() > 0
    &&& numbered(levels)
    &&& in_order(files, stacked(levels))
    &&& well_arranged(files, levels)
    &&& files.contains_key(path) ==> has_path(levels[i].tables, path)
    &&& levels[i].tables.len() > 0
}

/// The tables of levels, with the last one singled out.
proof fn lemma_last_level(levels: Seq<LevelView>)
    requires
        levels.len() > 0,
    ensures
        stacked(levels) == stacked(levels.drop_last()) + levels.last().tables.reverse(),
        levels.take(levels.len() - 1) == levels.drop_last(),
{
    assert(levels.take(levels.len() - 1) =~= levels.drop_last());
}

proof fn lemma_squash_outcome(files: Files, levels: Seq<LevelView>, name: Seq<char>, now: Clock)
    requires
        squashable(files, levels, name, now),
        files_fit(stepped(files, levels, levels.len() - 1, name, now).0),
    ensures
        ({
            let i = levels.len() - 1;
            let a = stacked(levels.drop_last());
            let tr = levels[i].tables.reverse();
            let id = level_id(levels[i], name, now);
            let (left, m, end) = collected(files, tr);
            let w = swept(m, now.ms);
            let t = written_table(id, w);
            let after = left.insert(table_filename(id), table_bytes(w));
            let ls = levels.update(i, with_tables(levels[i], seq![t]));
            &&& stepped(files, levels, i, name, now) == (after, ls, None::<StoreError>)
            &&& stacked(ls) == a + seq![t]
            &&& untouched(files, after, a)
            &&& in_order(files, a)
            &&& in_order(files, tr)
            &&& !has_path(a, t.path)
            &&& m == layered(files, tr)
            &&& table_valid(after, t)
            &&& table_entries(after, t) == w
        }),
{
    let i = levels.len() - 1;
    let l = levels[i];
    let a = stacked(levels.drop_last());
    let tr = l.tables.reverse();
    let id = level_id(l, name, now);
    let path = table_filename(id);
    let (left, m, end) = collected(files, tr);
    let w = swept(m, now.ms);
    let t = written_table(id, w);
    let after = left.insert(path, table_bytes(w));
    let ls = levels.update(i, with_tables(l, seq![t]));
    lemma_last_level(levels);
    lemma_valid_concat(files, a, tr);
    lemma_distinct_concat(a, tr);
    lemma_reverse_contains(l.tables);
    lemma_collected(files, tr);
    lemma_collected_files(files, tr);
    lemma_collected_orderable(files, tr);
    lemma_swept_orderable(m, now.ms);
    lemma_swept_writable(m, now.ms);
    assert(l.is_terminal);
    if left.contains_key(path) {
        assert(files.contains_key(path));
        let u = lemma_path_holder(l.tables, path);
        assert(tr.contains(u));
        assert(tr[tr.index_of(u)].path == path);
        assert(false);
    }
    let emptied = with_tables(l, Seq::<TableView>::empty());
    assert(emptied.tables.push(t) =~= seq![t]);
    assert(stepped(files, levels, i, name, now).0 == after);
    assert(after.contains_key(path));
    assert(after[path].len() <= u64::MAX);
    lemma_written_table(after, id, w);
    lemma_last_level(ls);
    assert(ls.drop_last() =~= levels.drop_last());
    assert(seq![t].reverse() =~= seq![t]);
    assert(!has_path(a, path)) by {
        if has_path(a, path) {
            let u = lemma_path_holder(a, path);
            assert(table_valid(files, a[a.index_of(u)]));
            assert(has_path(tr, path));
        }
    }
    assert forall|u: TableView| #[trigger] a.contains(u) implies same_file(files, after, u.path) by {
        lemma_path_of(a, u);
        assert(!has_path(tr, u.path));
        assert(left.contains_key(u.path) <==> files.contains_key(u.path));
    }
}

/// Compacting the last level keeps levels in good order, and what every key has.
pub proof fn lemma_squash_step(files: Files, levels: Seq<LevelView>, name: Seq<char>, now: Clock)
    requires
        levels.len() > 0,
        numbered(levels),
        in_order(files, stacked(levels)),
        well_arranged(files, levels),
        ({
            let path = table_filename(level_id(levels[levels.len() - 1], name, now));
            files.contains_key(path) ==> has_path(levels[levels.len() - 1].tables, path)
        }),
        files_fit(stepped(files, levels, levels.len() - 1, name, now).0),
    ensures
        ({
            let (after, ls, end) = stepped(files, levels, levels.len() - 1, name, now);
            &&& end is None
            &&& step_kept(files, levels, after, ls, now)
            &&& ls.drop_last() == levels.drop_last()
            &&& ls.last().tables.len() <= 1
            &&& registered(files, name, stacked(levels)) ==> registered(after, name, stacked(ls))
            &&& layered(files, stacked(levels.drop_last())) == Map::<Seq<char>, EntryView>::empty()
                ==> live(layered(after, stacked(ls))) == unexpired(
                live(layered(files, stacked(levels))),
                now.ms,
            )
        }),
{
    let i = levels.len() - 1;
    let l = levels[i];
    let a = stacked(levels.drop_last());
    assert(l.is_terminal);
    if l.tables.len() == 0 {
        assert(levels.update(i, l) =~= levels);
        lemma_last_level(levels);
        assert(stacked(levels) =~= a);
        if layered(files, a) == Map::<Seq<char>, EntryView>::empty() {
            let m = layered(files, a);
            assert(live(m) =~= unexpired(live(m), now.ms));
        }
    } else {
        let tr = l.tables.reverse();
        let id = level_id(l, name, now);
        let (left, m, end) = collected(files, tr);
        let w = swept(m, now.ms);
        let t = written_table(id, w);
        let after = left.insert(table_filename(id), table_bytes(w));
        let ls = levels.update(i, with_tables(l, seq![t]));
        lemma_squash_outcome(files, levels, name, now);
        lemma_last_level(levels);
        lemma_last_level(ls);
        assert(ls.drop_last() =~= levels.drop_last());
        lemma_untouched(files, after, a);
        lemma_squash_order(files, levels, after, ls, t);
        lemma_concat_contains(a, tr);
        lemma_concat_contains(a, seq![t]);
        assert forall|u: TableView| #[trigger] stacked(ls).contains(u) implies stacked(
            levels,
        ).contains(u) || u.id.timestamp == now.ns by {
            if seq![t].contains(u) {
                assert(u == t);
            }
        }
        lemma_layered_one(after, t);
        assert forall|k: Seq<char>| #[trigger]
            seen(layered(after, stacked(ls)), now.ms, k) == seen(
                layered(files, stacked(levels)),
                now.ms,
                k,
            ) by {
            lemma_lookup_concat(files, a, tr, k);
            lemma_lookup_concat(after, a, seq![t], k);
            let x = layered(files, stacked(levels));
            let y = layered(after, stacked(ls));
            if layered(files, a).contains_key(k) {
                assert(lookup(x, k) == lookup(y, k));
            } else {
                assert(lookup(x, k) == lookup(m, k));
                assert(lookup(y, k) == lookup(w, k));
            }
        }
        if layered(files, a) == Map::<Seq<char>, EntryView>::empty() {
            lemma_layered_concat(files, a, tr);
            lemma_layered_concat(after, a, seq![t]);
            assert(m.union_prefer_right(layered(files, a)) =~= m);
            assert(w.union_prefer_right(layered(after, a)) =~= w);
            crate::compaction::lemma_live_swept(m, now.ms);
        }
        if registered(files, name, stacked(levels)) {
            lemma_squash_registered(files, levels, name, now);
        }
    }
}

/// Compacting the last level leaves no table out, and adds none that is not there.
proof fn lemma_squash_registered(
    files: Files,
    levels: Seq<LevelView>,
    name: Seq<char>,
    now: Clock,
)
    requires
        squashable(files, levels, name, now),
        registered(files, name, stacked(levels)),
        files_fit(stepped(files, levels, levels.len() - 1, name, now).0),
    ensures
        registered(
            stepped(files, levels, levels.len() - 1, name, now).0,
            name,
            stacked(stepped(files, levels, levels.len() - 1, name, now).1),
        ),
{
    let i = levels.len() - 1;
    let l = levels[i];
    let a = stacked(levels.drop_last());
    let tr = l.tables.reverse();
    let id = level_id(l, name, now);
    let (left, m, end) = collected(files, tr);
    let w = swept(m, now.ms);
    let t = written_table(id, w);
    let after = left.insert(table_filename(id), table_bytes(w));
    lemma_squash_outcome(files, levels, name, now);
    lemma_last_level(levels);
    lemma_parse_table_filename(id);
    lemma_concat_contains(a, tr);
    lemma_concat_contains(a, seq![t]);
    lemma_collected_files(files, tr);
    lemma_collected(files, tr);
    let all = a + seq![t];
    assert forall|u: TableView| #[trigger] all.contains(u) implies parse_table(u.path) == Some(u.id)
        && u.id.name == name by {
        if seq![t].contains(u) {
            assert(u == t);
        } else {
            assert(stacked(levels).contains(u));
        }
    }
    assert forall|f: Seq<char>| #[trigger] after.contains_key(f) && names_table(
        f,
        name,
    ) implies has_path(all, f) by {
        if f == t.path {
            assert(seq![t][0] == t);
            assert(has_path(seq![t], f));
        } else {
            assert(left.contains_key(f));
            assert(has_path(a + tr, f));
            if has_path(tr, f) {
                let n = choose|n: int| 0 <= n < tr.len() && (#[trigger] tr[n]).path == f;
                assert(!left.contains_key(tr[n].path));
            }
        }
    }
}

proof fn lemma_squash_order(
    files: Files,
    levels: Seq<LevelView>,
    after: Files,
    ls: Seq<LevelView>,
    t: TableView,
)
    requires
        levels.len() > 0,
        numbered(levels),
        well_arranged(files, levels),
        ls == levels.update(levels.len() - 1, with_tables(levels[levels.len() - 1], seq![t])),
        untouched(files, after, stacked(levels.drop_last())),
        in_order(files, stacked(levels.drop_last())),
        table_valid(after, t),
        t.id.level == Some(levels[levels.len() - 1].level_num),
        !has_path(stacked(levels.drop_last()), t.path),
        stacked(ls) == stacked(levels.drop_last()) + seq![t],
    ensures
        numbered(ls),
        in_order(after, stacked(ls)),
        well_arranged(after, ls),
{
    let a = stacked(levels.drop_last());
    lemma_untouched(files, after, a);
    assert(a + seq![t] =~= a.push(t));
    lemma_distinct_back(a, t);
    assert forall|j: int| 0 <= j < a.push(t).len() implies table_valid(
        after,
        #[trigger] a.push(t)[j],
    ) by {
        if j < a.len() {
            assert(table_valid(after, a[j]));
        }
    }
    assert forall|j: int| 1 <= j < ls.len() implies disjoint(after, (#[trigger] ls[j]).tables) by {
        if j == ls.len() - 1 {
            assert forall|x: TableView, y: TableView, k: Seq<char>|
                ls[j].tables.contains(x) && ls[j].tables.contains(y) && #[trigger] table_entries(
                    after,
                    x,
                ).contains_key(k) && #[trigger] table_entries(after, y).contains_key(k) implies x
                == y by {}
        } else {
            assert(ls[j] == levels[j]);
            assert(disjoint(files, levels[j].tables));
            let part = levels.drop_last();
            assert(part[j] == levels[j]);
            lemma_stacked_contains(part, j);
            lemma_level_untouched(files, after, levels, stacked(part), j);
        }
    }
    let last = levels.len() - 1;
    assert(levels[last].level_num == last);
    assert forall|j: int| 0 <= j < ls.len() implies homed(
        (#[trigger] ls[j]).tables,
        j,
        ls.len(),
    ) by {
        if j == last {
            assert forall|u: TableView| #[trigger] ls[j].tables.contains(u) implies home_level(
                u,
                ls.len(),
            ) == j by {
                assert(u == t);
            }
        } else {
            assert(ls[j] == levels[j]);
            assert(homed(levels[j].tables, j, levels.len()));
        }
    }
    if last > 0 {
        assert(ls[0] == levels[0]);
    }
    assert forall|j: int| 0 <= j < ls.len() implies (#[trigger] ls[j]).level_num == j
        && ls[j].is_terminal == (j == ls.len() - 1) by {
        assert(levels[j].level_num == j);
    }
}

/// Compacting a level changes no other files than those of the tables and those of
/// tables that it writes, whether it succeeds or not.
pub proof fn lemma_step_frame(
    files: Files,
    levels: Seq<LevelView>,
    i: int,
    name: Seq<char>,
    now: Clock,
)
    requires
        0 <= i < levels.len(),
        numbered(levels),
    ensures
        ({
            let (after, ls, end) = stepped(files, levels, i, name, now);
            &&& ls.len() == levels.len()
            &&& numbered(ls)
            &&& forall|f: Seq<char>|
                !has_path(stacked(levels), f) && !is_table_of(f, name, now.ns)
                    ==> #[trigger] same_file(files, after, f)
            &&& forall|f: Seq<char>| #[trigger]
                has_path(stacked(ls), f) ==> has_path(stacked(levels), f) || is_table_of(
                    f,
                    name,
                    now.ns,
                )
        }),
{
    let (after, ls, end) = stepped(files, levels, i, name, now);
    assert forall|j: int| 0 <= j < ls.len() implies (#[trigger] ls[j]).level_num == j
        && ls[j].is_terminal == (j == ls.len() - 1) by {
        assert(levels[j].level_num == j);
    }
    if levels[i].is_terminal {
        assert(i == levels.len() - 1);
        let l = levels[i];
        let tr = l.tables.reverse();
        lemma_last_level(levels);
        lemma_last_level(ls);
        assert(ls.drop_last() =~= levels.drop_last());
        let a = stacked(levels.drop_last());
        lemma_concat_contains(a, tr);
        lemma_concat_contains(a, ls.last().tables.reverse());
        lemma_reverse_contains(l.tables);
        lemma_reverse_contains(ls.last().tables);
        lemma_collected_files(files, tr);
        let id = level_id(l, name, now);
        assert(is_table_of(table_filename(id), name, now.ns));
        assert forall|f: Seq<char>| !has_path(stacked(levels), f) && !is_table_of(f, name, now.ns)
            implies #[trigger] same_file(files, after, f) by {
            assert(f != table_filename(id));
            assert(!has_path(tr, f));
            let left = collected(files, tr).0;
            assert(left.contains_key(f) <==> files.contains_key(f));
        }
        assert forall|f: Seq<char>| #[trigger] has_path(stacked(ls), f) implies has_path(
            stacked(levels),
            f,
        ) || is_table_of(f, name, now.ns) by {
            if has_path(ls.last().tables, f) {
                let u = lemma_path_holder(ls.last().tables, f);
                if l.tables.contains(u) {
                    lemma_path_of(l.tables, u);
                } else {
                    assert(u.path == table_filename(id));
                }
            }
        }
    } else {
        assert(levels[i].is_terminal == (i == levels.len() - 1));
        lemma_merge_frame(files, levels, i, name, now);
    }
}

proof fn lemma_merge_frame(
    files: Files,
    levels: Seq<LevelView>,
    i: int,
    name: Seq<char>,
    now: Clock,
)
    requires
        0 <= i < levels.len() - 1,
        !levels[i].is_terminal,
    ensures
        ({
            let (after, ls, end) = stepped(files, levels, i, name, now);
            &&& forall|f: Seq<char>|
                !has_path(stacked(levels), f) && !is_table_of(f, name, now.ns)
                    ==> #[trigger] same_file(files, after, f)
            &&& forall|f: Seq<char>| #[trigger]
                has_path(stacked(ls), f) ==> has_path(stacked(levels), f) || is_table_of(
                    f,
                    name,
                    now.ns,
                )
        }),
{
    let (after, ls, e) = stepped(files, levels, i, name, now);
    let source = levels[i];
    let target = levels[i + 1];
    if ls == levels {
    } else if range_of(source.tables) is None {
        assert(ls =~= levels);
    } else {
        let (start, end) = range_of(source.tables)->0;
        let overlap = tables_for_range(target.tables, start, end);
        let id = level_id(target, name, now);
        let path = table_filename(id);
        assert(is_table_of(path, name, now.ns));
        match merged(files, Map::empty(), source.tables.reverse() + overlap) {
            Err(_) => {
                assert(ls =~= levels);
            },
            Ok(m) => {
                if files.contains_key(path) {
                    assert(ls =~= levels);
                } else {
                    let t = written_table(id, kept_entries(target, m, now));
                    let two = source.tables.reverse() + target.tables.reverse();
                    let a = stacked(levels.take(i));
                    let b = stacked(levels.skip(i + 2));
                    lemma_two_levels(levels, i);
                    lemma_concat_contains(a + two, b);
                    lemma_concat_contains(a, two);
                    lemma_concat_contains(source.tables.reverse(), target.tables.reverse());
                    lemma_reverse_contains(source.tables);
                    lemma_reverse_contains(target.tables);
                    lemma_kept(target.tables, start, end);
                    lemma_paths_of(overlap + source.tables);
                    lemma_concat_contains(overlap, source.tables);
                    let names = paths_of(overlap + source.tables);
                    assert forall|f: Seq<char>| #[trigger] names.contains(f) implies has_path(
                        stacked(levels),
                        f,
                    ) by {
                        let u = lemma_path_holder(overlap + source.tables, f);
                        if overlap.contains(u) {
                            assert(target.tables.contains(u));
                            lemma_path_of(target.tables, u);
                        } else {
                            lemma_path_of(source.tables, u);
                        }
                        assert(has_path(two, f));
                        assert(has_path(a + two, f));
                    }
                    assert forall|f: Seq<char>|
                        !has_path(stacked(levels), f) && !is_table_of(f, name, now.ns) implies
                        #[trigger] same_file(files, after, f) by {
                        assert(f != path);
                        assert(!names.contains(f));
                    }
                    lemma_merge_members(files, levels, i, ls, t);
                    assert forall|f: Seq<char>| #[trigger] has_path(stacked(ls), f) implies has_path(
                        stacked(levels),
                        f,
                    ) || is_table_of(f, name, now.ns) by {
                        let u = lemma_path_holder(stacked(ls), f);
                        if stacked(levels).contains(u) {
                            lemma_path_of(stacked(levels), u);
                        }
                    }
                }
            },
        }
    }
}

/// The file of the table that a compaction writes to a level.
pub open spec fn level_file(i: int, name: Seq<char>, now: Clock) -> Seq<char> {
    table_filename(TableId { name, level: Some(i as usize), timestamp: now.ns })
}

proof fn lemma_level_files(i: int, j: int, name: Seq<char>, now: Clock)
    requires
        0 <= i <= usize::MAX,
        0 <= j <= usize::MAX,
        i != j,
    ensures
        level_file(i, name, now) != level_file(j, name, now),
{
    lemma_parse_table_filename(TableId { name, level: Some(i as usize), timestamp: now.ns });
    lemma_parse_table_filename(TableId { name, level: Some(j as usize), timestamp: now.ns });
}

/// How far the compaction of all levels has come: the first `i` levels have no key,
/// and every key has what it had. `tables` are those that were there before, and
/// `known` says whether they were all that there were.
pub open spec fn underway(
    before: Entries,
    tables: Seq<TableView>,
    known: bool,
    files: Files,
    levels: Seq<LevelView>,
    i: int,
    name: Seq<char>,
    now: Clock,
) -> bool {
    &&& numbered(levels)
    &&& in_order(files, stacked(levels))
    &&& well_arranged(files, levels)
    &&& forall|j: int| 0 <= j < i ==> lowest((#[trigger] levels[j]).tables) is None
    &&& known ==> registered(files, name, stacked(levels))
    &&& forall|t: TableView| #[trigger]
        stacked(levels).contains(t) ==> tables.contains(t) || t.id.timestamp == now.ns
    &&& forall|j: int| i < j < levels.len() ==> !files.contains_key(#[trigger] level_file(j, name, now))
    &&& files.contains_key(level_file(i, name, now)) ==> has_path(
        levels[i].tables,
        level_file(i, name, now),
    )
    &&& forall|k: Seq<char>| #[trigger]
        seen(layered(files, stacked(levels)), now.ms, k) == seen(before, now.ms, k)
}

/// One level further.
pub proof fn lemma_underway(
    before: Entries,
    tables: Seq<TableView>,
    known: bool,
    files: Files,
    levels: Seq<LevelView>,
    i: int,
    name: Seq<char>,
    now: Clock,
)
    requires
        underway(before, tables, known, files, levels, i, name, now),
        0 <= i < levels.len() - 1,
        levels.len() <= usize::MAX,
        files_fit(stepped(files, levels, i, name, now).0),
    ensures
        ({
            let (after, ls, end) = stepped(files, levels, i, name, now);
            &&& end is None
            &&& ls.len() == levels.len()
            &&& underway(before, tables, known, after, ls, i + 1, name, now)
        }),
{
    let (after, ls, end) = stepped(files, levels, i, name, now);
    let path = level_file(i + 1, name, now);
    assert(levels[i + 1].level_num == i + 1);
    assert(table_filename(level_id(levels[i + 1], name, now)) == path);
    assert(!files.contains_key(path));
    lemma_merge_step(files, levels, i, name, now);
    assert(!levels[i].is_terminal);
    assert forall|j: int| 0 <= j < i + 1 implies lowest((#[trigger] ls[j]).tables) is None by {
        if j < i {
            assert(lowest(levels[j].tables) is None);
        }
    }
    assert forall|j: int| i + 1 < j < ls.len() implies !after.contains_key(
        #[trigger] level_file(j, name, now),
    ) by {
        lemma_level_files(j, i + 1, name, now);
        assert(!files.contains_key(level_file(j, name, now)));
    }
    if after.contains_key(path) {
        let tables = ls[i + 1].tables;
        assert(tables[tables.len() - 1].path == path);
    }
}

/// No level but the last one has a key, and then the last one is compacted.
pub proof fn lemma_underway_last(
    before: Entries,
    tables: Seq<TableView>,
    known: bool,
    files: Files,
    levels: Seq<LevelView>,
    name: Seq<char>,
    now: Clock,
)
    requires
        underway(before, tables, known, files, levels, levels.len() - 1, name, now),
        levels.len() > 0,
        files_fit(stepped(files, levels, levels.len() - 1, name, now).0),
    ensures
        ({
            let (after, ls, end) = stepped(files, levels, levels.len() - 1, name, now);
            &&& end is None
            &&& numbered(ls)
            &&& all_merged(before, tables, known, after, ls, name, now)
        }),
{
    let n = levels.len() - 1;
    let (after, ls, end) = stepped(files, levels, n, name, now);
    assert(levels[n].level_num == n);
    lemma_squash_step(files, levels, name, now);
    let upper = levels.drop_last();
    let a = stacked(upper);
    lemma_last_level(levels);
    lemma_valid_concat(files, a, levels.last().tables.reverse());
    assert forall|t: TableView| #[trigger] a.contains(t) implies forall|k: Seq<char>|
        !(#[trigger] table_entries(files, t).contains_key(k)) by {
        let j = lemma_stacked_holder(upper, t);
        assert(upper[j] == levels[j]);
        assert(lowest(levels[j].tables) is None);
        let part = levels[j].tables;
        assert forall|m: int| 0 <= m < part.len() implies table_valid(files, #[trigger] part[m]) by {
            assert(part.contains(part[m]));
            lemma_stacked_contains(upper, j);
            assert(a.contains(part[m]));
            assert(table_valid(files, a[a.index_of(part[m])]));
        }
        lemma_no_keys(files, part, t);
    }
    assert(layered(files, a) =~= Map::<Seq<char>, EntryView>::empty()) by {
        assert forall|k: Seq<char>| !(#[trigger] layered(files, a).contains_key(k)) by {
            lemma_layered_key(files, a, k);
            if layered(files, a).contains_key(k) {
                let m = choose|m: int|
                    0 <= m < a.len() && table_entries(files, #[trigger] a[m]).contains_key(k);
                assert(a.contains(a[m]));
            }
        }
    }
    assert forall|j: int| 0 <= j < ls.len() - 1 implies lowest((#[trigger] ls[j]).tables) is None by {
        assert(ls.drop_last()[j] == ls[j]);
        assert(lowest(levels[j].tables) is None);
    }
    let x = unexpired(live(layered(files, stacked(levels))), now.ms);
    let y = unexpired(live(before), now.ms);
    assert forall|k: Seq<char>| #[trigger] lookup(x, k) == lookup(y, k) by {
        assert(seen(layered(files, stacked(levels)), now.ms, k) == seen(before, now.ms, k));
    }
    assert forall|k: Seq<char>| #[trigger] x.contains_key(k) <==> y.contains_key(k) by {
        assert(lookup(x, k) == lookup(y, k));
    }
    assert forall|k: Seq<char>| #[trigger] x.contains_key(k) implies x[k] == y[k] by {
        assert(lookup(x, k) == lookup(y, k));
    }
    assert(x =~= y);
}

pub proof fn lemma_stacked_empty(levels: Seq<LevelView>)
    requires
        forall|j: int| 0 <= j < levels.len() ==> (#[trigger] levels[j]).tables.len() == 0,
    ensures
        stacked(levels) == Seq::<TableView>::empty(),
    decreases levels.len(),
{
    if levels.len() > 0 {
        let init = levels.drop_last();
        assert forall|j: int| 0 <= j < init.len() implies (#[trigger] init[j]).tables.len() == 0 by {
            assert(init[j] == levels[j]);
        }
        lemma_stacked_empty(init);
        assert(levels[levels.len() - 1].tables.len() == 0);
        assert(stacked(levels) =~= Seq::<TableView>::empty());
    }
}

/// A new table in the first level comes first of all.
pub proof fn lemma_stacked_front(levels: Seq<LevelView>, t: TableView)
    requires
        levels.len() > 0,
    ensures
        stacked(levels.update(0, with_tables(levels[0], levels[0].tables.push(t)))) == seq![t]
            + stacked(levels),
{
    let ls = levels.update(0, with_tables(levels[0], levels[0].tables.push(t)));
    lemma_stacked_at(levels, 0);
    lemma_stacked_at(ls, 0);
    assert(ls.skip(1) =~= levels.skip(1));
    assert(ls.take(0) =~= Seq::<LevelView>::empty());
    assert(levels.take(0) =~= Seq::<LevelView>::empty());
    assert(stacked(Seq::<LevelView>::empty()) == Seq::<TableView>::empty());
    assert(levels[0].tables.push(t).reverse() =~= seq![t] + levels[0].tables.reverse());
    assert(stacked(ls) =~= seq![t] + stacked(levels));
}

/// What the compaction of all levels promises of levels in good order: no level but
/// the last one has a key, and the last one has a single table.
pub open spec fn all_merged(
    before: Entries,
    tables: Seq<TableView>,
    known: bool,
    files: Files,
    levels: Seq<LevelView>,
    name: Seq<char>,
    now: Clock,
) -> bool {
    &&& in_order(files, stacked(levels))
    &&& well_arranged(files, levels)
    &&& forall|i: int| 0 <= i < levels.len() - 1 ==> lowest((#[trigger] levels[i]).tables) is None
    &&& levels.len() > 0 ==> levels.last().tables.len() <= 1
    &&& known ==> registered(files, name, stacked(levels))
    &&& forall|t: TableView| #[trigger]
        stacked(levels).contains(t) ==> tables.contains(t) || t.id.timestamp == now.ns
    &&& live(layered(files, stacked(levels))) == unexpired(live(before), now.ms)
}

/// Before the first level is compacted.
pub proof fn lemma_underway_start(
    files: Files,
    levels: Seq<LevelView>,
    name: Seq<char>,
    now: Clock,
)
    requires
        numbered(levels),
        in_order(files, stacked(levels)),
        well_arranged(files, levels),
        unused(files, name, now.ns),
    ensures
        underway(
            layered(files, stacked(levels)),
            stacked(levels),
            registered(files, name, stacked(levels)),
            files,
            levels,
            0,
            name,
            now,
        ),
{
    assert forall|j: int| 0 <= j < levels.len() implies !files.contains_key(
        #[trigger] level_file(j, name, now),
    ) by {}
    assert(!files.contains_key(level_file(0, name, now)));
}

/// One level alone is compacted.
pub proof fn lemma_one_step(
    files: Files,
    levels: Seq<LevelView>,
    i: int,
    name: Seq<char>,
    now: Clock,
)
    requires
        0 <= i < levels.len(),
        numbered(levels),
        in_order(files, stacked(levels)),
        well_arranged(files, levels),
        unused(files, name, now.ns),
        files_fit(stepped(files, levels, i, name, now).0),
    ensures
        ({
            let (after, ls, end) = stepped(files, levels, i, name, now);
            &&& end is None
            &&& step_kept(files, levels, after, ls, now)
            &&& registered(files, name, stacked(levels)) ==> registered(after, name, stacked(ls))
        }),
{
    if i < levels.len() - 1 {
        assert(!files.contains_key(table_filename(level_id(levels[i + 1], name, now))));
        lemma_merge_step(files, levels, i, name, now);
    } else {
        assert(!files.contains_key(table_filename(level_id(levels[i], name, now))));
        lemma_squash_step(files, levels, name, now);
    }
}

/// The tables of levels in good order have their files.
pub proof fn lemma_level_present(files: Files, levels: Seq<LevelView>, i: int)
    requires
        0 <= i < levels.len(),
        in_order(files, stacked(levels)),
    ensures
        present(files, levels[i].tables),
{
    let tables = levels[i].tables;
    lemma_stacked_contains(levels, i);
    assert forall|j: int| 0 <= j < tables.len() implies files.contains_key(
        (#[trigger] tables[j]).path,
    ) by {
        assert(tables.contains(tables[j]));
        assert(stacked(levels).contains(tables[j]));
        let n = stacked(levels).index_of(tables[j]);
        assert(table_valid(files, stacked(levels)[n]));
    }
}

/// An error ends the compaction of all levels.
pub proof fn lemma_steps_stop(
    files: Files,
    levels: Seq<LevelView>,
    i: nat,
    n: nat,
    name: Seq<char>,
    now: Clock,
)
    requires
        i <= n,
        steps(files, levels, i, name, now).2 is Some,
    ensures
        steps(files, levels, n, name, now) == steps(files, levels, i, name, now),
    decreases n - i,
{
    if i < n {
        lemma_steps_stop(files, levels, i, (n - 1) as nat, name, now);
    }
}

/// Whether all but the files of some tables, and of tables that are written now, are
/// as they were.
pub open spec fn framed(
    files: Files,
    after: Files,
    tables: Seq<TableView>,
    name: Seq<char>,
    now: Clock,
) -> bool {
    forall|f: Seq<char>|
        !has_path(tables, f) && !is_table_of(f, name, now.ns) ==> (#[trigger] after.contains_key(f)
            <==> files.contains_key(f)) && content(after, f) == content(files, f)
}

/// Whether levels are in good order for a compaction.
pub open spec fn compactable_levels(
    files: Files,
    levels: Seq<LevelView>,
    name: Seq<char>,
    now: Clock,
) -> bool {
    &&& levels.len() > 0
    &&& in_order(files, stacked(levels))
    &&& well_arranged(files, levels)
    &&& unused(files, name, now.ns)
}

/// What holds after the first `i` levels were compacted.
pub closed spec fn progress(
    files: Files,
    levels: Seq<LevelView>,
    after: Files,
    ls: Seq<LevelView>,
    i: int,
    name: Seq<char>,
    now: Clock,
) -> bool {
    let before = layered(files, stacked(levels));
    let known = registered(files, name, stacked(levels));
    &&& 0 <= i <= levels.len() <= usize::MAX
    &&& ls.len() == levels.len()
    &&& numbered(ls)
    &&& framed(files, after, stacked(levels), name, now)
    &&& forall|f: Seq<char>| #[trigger]
        has_path(stacked(ls), f) ==> has_path(stacked(levels), f) || is_table_of(f, name, now.ns)
    &&& compactable_levels(files, levels, name, now) ==> if i < levels.len() {
        underway(before, stacked(levels), known, after, ls, i, name, now)
    } else {
        all_merged(before, stacked(levels), known, after, ls, name, now)
    }
}

pub proof fn lemma_progress_start(
    files: Files,
    levels: Seq<LevelView>,
    name: Seq<char>,
    now: Clock,
)
    requires
        numbered(levels),
        levels.len() <= usize::MAX,
    ensures
        progress(files, levels, files, levels, 0, name, now),
{
    if compactable_levels(files, levels, name, now) {
        lemma_underway_start(files, levels, name, now);
    }
}

pub proof fn lemma_progress_step(
    files: Files,
    levels: Seq<LevelView>,
    cur: Files,
    cs: Seq<LevelView>,
    i: int,
    name: Seq<char>,
    now: Clock,
)
    requires
        progress(files, levels, cur, cs, i, name, now),
        i < levels.len(),
        files_fit(stepped(cur, cs, i, name, now).0),
    ensures
        ({
            let (after, ls, end) = stepped(cur, cs, i, name, now);
            &&& framed(files, after, stacked(levels), name, now)
            &&& compactable_levels(files, levels, name, now) ==> end is None
            &&& end is None ==> progress(files, levels, after, ls, i + 1, name, now)
        }),
{
    let (after, ls, end) = stepped(cur, cs, i, name, now);
    let before = layered(files, stacked(levels));
    let known = registered(files, name, stacked(levels));
    lemma_step_frame(cur, cs, i, name, now);
    if compactable_levels(files, levels, name, now) {
        if i < levels.len() - 1 {
            lemma_underway(before, stacked(levels), known, cur, cs, i, name, now);
        } else {
            lemma_underway_last(before, stacked(levels), known, cur, cs, name, now);
        }
    }
    assert forall|f: Seq<char>|
        !has_path(stacked(levels), f) && !is_table_of(f, name, now.ns) implies (
    #[trigger] after.contains_key(f) <==> files.contains_key(f)) && content(after, f) == content(
        files,
        f,
    ) by {
        assert(!has_path(stacked(cs), f));
        assert(cur.contains_key(f) <==> files.contains_key(f));
        assert(same_file(cur, after, f));
    }
    assert forall|f: Seq<char>| #[trigger] has_path(stacked(ls), f) implies has_path(
        stacked(levels),
        f,
    ) || is_table_of(f, name, now.ns) by {
        assert(has_path(stacked(cs), f) || is_table_of(f, name, now.ns));
    }
}

pub proof fn lemma_progress_end(
    files: Files,
    levels: Seq<LevelView>,
    after: Files,
    ls: Seq<LevelView>,
    name: Seq<char>,
    now: Clock,
)
    requires
        progress(files, levels, after, ls, levels.len() as int, name, now),
    ensures
        framed(files, after, stacked(levels), name, now),
        compactable_levels(files, levels, name, now) ==> all_merged(
            layered(files, stacked(levels)),
            stacked(levels),
            registered(files, name, stacked(levels)),
            after,
            ls,
            name,
            now,
        ),
{
}

/// A new table in the first level is one table more, and keeps levels arranged.
pub proof fn lemma_stacked_added(files: Files, levels: Seq<LevelView>, t: TableView)
    requires
        levels.len() > 0,
    ensures
        ({
            let ls = levels.update(0, with_tables(levels[0], levels[0].tables.push(t)));
            &&& forall|u: TableView| #[trigger]
                stacked(ls).contains(u) ==> stacked(levels).contains(u) || u == t
            &&& well_arranged(files, levels) && older(stacked(levels), t.id.timestamp)
                && t.id.level is None ==> well_arranged(files, ls)
        }),
{
    let ls = levels.update(0, with_tables(levels[0], levels[0].tables.push(t)));
    lemma_stacked_front(levels, t);
    lemma_concat_contains(seq![t], stacked(levels));
    lemma_push_contains(levels[0].tables, t);
    assert forall|u: TableView| #[trigger] stacked(ls).contains(u) implies stacked(levels).contains(
        u,
    ) || u == t by {
        if seq![t].contains(u) {
            assert(u == t);
        }
    }
    if well_arranged(files, levels) && older(stacked(levels), t.id.timestamp) && t.id.level is None {
        assert forall|i: int| 1 <= i < ls.len() implies disjoint(files, (#[trigger] ls[i]).tables) by {
            assert(disjoint(files, levels[i].tables));
        }
        assert forall|i: int| 0 <= i < ls.len() implies homed(
            (#[trigger] ls[i]).tables,
            i,
            ls.len(),
        ) by {
            assert(homed(levels[i].tables, i, levels.len()));
        }
        let first = ls[0].tables;
        lemma_stacked_contains(levels, 0);
        assert forall|i: int, j: int| 0 <= i < j < first.len() implies (
        #[trigger] first[i]).id.timestamp < (#[trigger] first[j]).id.timestamp by {
            assert(first[i] == levels[0].tables[i]);
            if j < levels[0].tables.len() {
                assert(first[j] == levels[0].tables[j]);
            } else {
                assert(levels[0].tables.contains(first[i]));
                assert(stacked(levels).contains(first[i]));
            }
        }
    }
}

/// How levels are arranged depends on the files of their tables alone.
pub proof fn lemma_arranged_same(a: Files, b: Files, levels: Seq<LevelView>)
    requires
        well_arranged(a, levels),
        all_valid(a, stacked(levels)),
        forall|t: TableView| #[trigger]
            stacked(levels).contains(t) ==> a.contains_key(t.path) == b.contains_key(t.path)
                && content(a, t.path) == content(b, t.path),
    ensures
        well_arranged(b, levels),
{
    let all = stacked(levels);
    assert forall|t: TableView| #[trigger] all.contains(t) implies table_entries(a, t)
        == table_entries(b, t) by {
        assert(table_valid(a, all[all.index_of(t)]));
    }
    assert forall|i: int| 1 <= i < levels.len() implies disjoint(b, (#[trigger] levels[i]).tables) by {
        let tables = levels[i].tables;
        lemma_stacked_contains(levels, i);
        assert(disjoint(a, tables));
        assert forall|x: TableView, y: TableView, k: Seq<char>|
            tables.contains(x) && tables.contains(y) && #[trigger] table_entries(b, x).contains_key(
                k,
            ) && #[trigger] table_entries(b, y).contains_key(k) implies x == y by {
            assert(all.contains(x));
            assert(all.contains(y));
        }
    }
}

/// The first level is full when it has as many tables as its threshold says. Another one is
/// full when the bytes of its tables come to its limit, and cannot be told to be while a
/// file of one of them is missing.
pub proof fn lemma_full_level(files: Files, l: LevelView)
    ensures
        l.level_num == 0 ==> level_due(files, l) == Ok::<bool, StoreError>(
            l.tables.len() == l.l0_threshold,
        ),
        l.level_num != 0 && (exists|i: int|
            0 <= i < l.tables.len() && !files.contains_key((#[trigger] l.tables[i]).path))
            ==> level_due(files, l) == Err::<bool, StoreError>(StoreError::FileNotFound),
        l.level_num != 0 && (forall|i: int|
            0 <= i < l.tables.len() ==> files.contains_key((#[trigger] l.tables[i]).path))
            ==> level_due(files, l) == Ok::<bool, StoreError>(
            total_of(
                Seq::new(l.tables.len(), |i: int| content(files, l.tables[i].path).len()),
            ) >= l.max_bytes,
        ),
{
    assert(sizes_of(files, l.tables) =~= Seq::new(
        l.tables.len(),
        |i: int| content(files, l.tables[i].path).len(),
    ));
}

/// The second level may hold the bytes that are given for it, and each one after it ten
/// times what the one before it may. Levels are numbered from 0 on; the last one is known
/// as such, and none has tables.
pub proof fn lemma_level_limits(
    num_levels: usize,
    l0_threshold: usize,
    l1_max_bytes: u64,
    i: int,
)
    requires
        limits_fit(num_levels, l1_max_bytes),
        0 <= i < num_levels,
    ensures
        ({
            let levels = empty_levels(num_levels, l0_threshold, l1_max_bytes);
            &&& levels.len() == num_levels
            &&& levels[i].tables.len() == 0
            &&& levels[i].level_num == i
            &&& levels[i].l0_threshold == l0_threshold
            &&& levels[i].is_terminal <==> i + 1 == num_levels
            &&& i <= 1 ==> levels[i].max_bytes == l1_max_bytes
            &&& 2 <= i ==> levels[i].max_bytes == 10 * levels[i - 1].max_bytes
        }),
{
    assert(level_factor(i) <= u64::MAX);
    if i <= 1 {
        assert(l1_max_bytes * 1 == l1_max_bytes);
    } else {
        assert(level_factor(i - 1) <= u64::MAX);
        let below = level_factor(i - 1) as int;
        if i == 2 {
            assert(ten_to(0) == 1);
            assert(ten_to(1) == 10 * ten_to(0));
        }
        assert(level_factor(i) == 10 * below);
        assert(l1_max_bytes * (10 * below) == 10 * (l1_max_bytes * below)) by (nonlinear_arith);
    }
}

/// The smallest of two keys that may be missing is one of them, and no key among them comes
/// before it.
proof fn lemma_lower(a: Option<Seq<char>>, b: Option<Seq<char>>)
    ensures
        lower(a, b) == a || lower(a, b) == b,
        lower(a, b) is None <==> a is None && b is None,
        a matches Some(x) ==> !key_lt(x, lower(a, b)->0),
        b matches Some(y) ==> !key_lt(y, lower(a, b)->0),
        upper(a, b) == a || upper(a, b) == b,
        upper(a, b) is None <==> a is None && b is None,
        a matches Some(x) ==> !key_lt(upper(a, b)->0, x),
        b matches Some(y) ==> !key_lt(upper(a, b)->0, y),
{
    match (a, b) {
        (Some(x), Some(y)) => {
            lemma_key_lt_total(x, y);
            lemma_key_lt_total(x, x);
            lemma_key_lt_total(y, y);
        },
        (Some(x), None) => {
            lemma_key_lt_total(x, x);
        },
        (None, Some(y)) => {
            lemma_key_lt_total(y, y);
        },
        (None, None) => {},
    }
}

proof fn lemma_not_before(a: Seq<char>, b: Seq<char>, c: Seq<char>)
    requires
        !key_lt(b, a),
        !key_lt(c, b),
    ensures
        !key_lt(c, a),
{
    lemma_key_lt_total(a, b);
    lemma_key_lt_total(b, c);
    lemma_key_lt_total(a, c);
    if key_lt(a, b) && key_lt(b, c) {
        lemma_key_lt_transitive(a, b, c);
    }
}

/// The range of some tables begins with the first key of one of them and ends with the last
/// key of one of them, and no key of theirs comes before it or after it.
pub proof fn lemma_range_bounds(tables: Seq<TableView>)
    ensures
        lowest(tables) matches Some(k) ==> exists|i: int|
            0 <= i < tables.len() && (#[trigger] tables[i]).index.min == Some(k),
        highest(tables) matches Some(k) ==> exists|i: int|
            0 <= i < tables.len() && (#[trigger] tables[i]).index.max == Some(k),
        forall|i: int|
            0 <= i < tables.len() ==> ((#[trigger] tables[i]).index.min matches Some(x) ==> lowest(
                tables,
            ) is Some && !key_lt(x, lowest(tables)->0)),
        forall|i: int|
            0 <= i < tables.len() ==> ((#[trigger] tables[i]).index.max matches Some(x) ==> highest(
                tables,
            ) is Some && !key_lt(highest(tables)->0, x)),
        range_of(tables) is Some <==> lowest(tables) is Some && highest(tables) is Some,
        range_of(tables) matches Some(r) ==> lowest(tables) == Some(r.0) && highest(tables)
            == Some(r.1),
    decreases tables.len(),
{
    if tables.len() > 0 {
        let front = tables.drop_last();
        let t = tables.last();
        lemma_range_bounds(front);
        lemma_lower(lowest(front), t.index.min);
        lemma_lower(highest(front), t.index.max);
        assert(tables[tables.len() - 1] == t);
        assert(forall|i: int| 0 <= i < front.len() ==> (#[trigger] front[i]) == tables[i]);
        assert forall|i: int| 0 <= i < tables.len() implies ((
        #[trigger] tables[i]).index.min matches Some(x) ==> lowest(tables) is Some && !key_lt(
            x,
            lowest(tables)->0,
        )) by {
            if i < front.len() && tables[i].index.min is Some {
                assert(front[i] == tables[i]);
                lemma_not_before(lowest(tables)->0, lowest(front)->0, tables[i].index.min->0);
            }
        }
        assert forall|i: int| 0 <= i < tables.len() implies ((
        #[trigger] tables[i]).index.max matches Some(x) ==> highest(tables) is Some && !key_lt(
            highest(tables)->0,
            x,
        )) by {
            if i < front.len() && tables[i].index.max is Some {
                assert(front[i] == tables[i]);
                lemma_not_before(tables[i].index.max->0, highest(front)->0, highest(tables)->0);
            }
        }
        if lowest(tables) is Some && lowest(tables) != t.index.min {
            let k = lowest(tables)->0;
            let i = choose|i: int|
                0 <= i < front.len() && (#[trigger] front[i]).index.min == Some(k);
            assert(tables[i].index.min == Some(k));
        }
        if highest(tables) is Some && highest(tables) != t.index.max {
            let k = highest(tables)->0;
            let i = choose|i: int|
                0 <= i < front.len() && (#[trigger] front[i]).index.max == Some(k);
            assert(tables[i].index.max == Some(k));
        }
    }
}

/// A level keeps the tables that do not overlap with a range, in their order.
pub proof fn lemma_kept_tables(tables: Seq<TableView>, start: Seq<char>, end: Seq<char>)
    ensures
        kept(tables, start, end) == tables.filter(|t: TableView| !overlaps(t, start, end)),
    decreases tables.len(),
{
    reveal(Seq::filter);
    if tables.len() > 0 {
        lemma_kept_tables(tables.drop_last(), start, end);
    }
}

/// A table is loaded to the level that its name gives, or to the last one where there is no
/// such level; one whose name gives none, to the first.
pub proof fn lemma_home_level(t: TableView, num_levels: nat)
    requires
        num_levels > 0,
    ensures
        0 <= home_level(t, num_levels) < num_levels,
        t.id.level is None ==> home_level(t, num_levels) == 0,
        t.id.level matches Some(n) ==> home_level(t, num_levels) == (if n < num_levels {
            n as int
        } else {
            num_levels - 1
        }),
{
}

/// The last level drops deletions and what has expired; the others keep all entries.
pub proof fn lemma_level_keeps(l: LevelView, m: Entries, now: Clock, k: Seq<char>)
    ensures
        !l.is_terminal ==> kept_entries(l, m, now) == m,
        l.is_terminal ==> (kept_entries(l, m, now).contains_key(k) <==> m.contains_key(k)
            && m[k].value is Some && (m[k].expiry_ms matches Some(t) ==> t > now.ms)),
        kept_entries(l, m, now).contains_key(k) ==> kept_entries(l, m, now)[k] == m[k],
{
}

/// The table that is written to a level is named after the database, the level and the time
/// in nanoseconds.
pub proof fn lemma_level_name(l: LevelView, name: Seq<char>, now: Clock)
    ensures
        table_filename(level_id(l, name, now)) == name + "_L"@ + decimal(l.level_num as nat) + "_"@
            + decimal(now.ns as nat) + ".sst"@,
{
    lemma_table_names(name, l.level_num, now.ns);
}

/// The level that is compacted is the first that is full. An error in telling so ends the
/// search, unless an earlier level is full.
pub proof fn lemma_due_level(files: Files, levels: Seq<LevelView>, from: int)
    requires
        0 <= from <= levels.len(),
    ensures
        match due_level(files, levels, from) {
            Ok(Some(i)) => {
                &&& from <= i < levels.len()
                &&& level_due(files, levels[i]) == Ok::<bool, StoreError>(true)
                &&& forall|j: int|
                    from <= j < i ==> level_due(files, #[trigger] levels[j]) == Ok::<
                        bool,
                        StoreError,
                    >(false)
            },
            Ok(None) => forall|j: int|
                from <= j < levels.len() ==> level_due(files, #[trigger] levels[j]) == Ok::<
                    bool,
                    StoreError,
                >(false),
            Err(e) => exists|i: int|
                from <= i < levels.len() && level_due(files, #[trigger] levels[i]) == Err::<
                    bool,
                    StoreError,
                >(e) && forall|j: int|
                    from <= j < i ==> level_due(files, #[trigger] levels[j]) == Ok::<
                        bool,
                        StoreError,
                    >(false),
        },
    decreases levels.len() - from,
{
    if from < levels.len() {
        match level_due(files, levels[from]) {
            Err(e) => {
                assert(level_due(files, levels[from]) == Err::<bool, StoreError>(e));
            },
            Ok(true) => {},
            Ok(false) => {
                lemma_due_level(files, levels, from + 1);
                if due_level(files, levels, from + 1) is Err {
                    let e = due_level(files, levels, from + 1)->Err_0;
                    let i = choose|i: int|
                        from + 1 <= i < levels.len() && level_due(files, #[trigger] levels[i])
                            == Err::<bool, StoreError>(e) && forall|j: int|
                            from + 1 <= j < i ==> level_due(files, #[trigger] levels[j]) == Ok::<
                                bool,
                                StoreError,
                            >(false);
                    assert(level_due(files, levels[i]) == Err::<bool, StoreError>(e));
                }
            },
        }
    }
}

/// Tables are loaded one after the other, each to the end of its level. The others stay.
pub proof fn lemma_tables_placed(
    levels: Seq<LevelView>,
    tables: Seq<TableView>,
    t: TableView,
    j: int,
)
    requires
        levels.len() > 0,
        0 <= j < levels.len(),
    ensures
        placed(levels, Seq::empty()) == levels,
        placed(levels, tables).len() == levels.len(),
        ({
            let before = placed(levels, tables);
            let after = placed(levels, tables.push(t));
            &&& home_level(t, levels.len()) != j ==> after[j] == before[j]
            &&& home_level(t, levels.len()) == j ==> after[j].tables == before[j].tables.push(t)
            &&& after[j].level_num == before[j].level_num
            &&& after[j].max_bytes == before[j].max_bytes
            &&& after[j].is_terminal == before[j].is_terminal
        }),
    decreases tables.len(),
{
    assert(tables.push(t).drop_last() =~= tables);
    if tables.len() > 0 {
        lemma_tables_placed(levels, tables.drop_last(), tables.last(), j);
        assert(tables.drop_last().push(tables.last()) =~= tables);
    }
}

/// What merging a level into the next one comes to, where it is not stopped. The first has
/// no tables then. The second has those that do not overlap with the keys of the first, and
/// one more that is named after it and the time. The files of the tables that were merged
/// are gone, that of the new one is there, and no other file changes.
pub proof fn lemma_merge_effect(
    files: Files,
    source: LevelView,
    target: LevelView,
    name: Seq<char>,
    now: Clock,
    f: Seq<char>,
)
    requires
        merged_down(files, source, target, name, now).3 is None,
        range_of(source.tables) is Some,
    ensures
        ({
            let (after, above, below, _) = merged_down(files, source, target, name, now);
            let (start, end) = range_of(source.tables)->0;
            let fresh = name + "_L"@ + decimal(target.level_num as nat) + "_"@ + decimal(
                now.ns as nat,
            ) + ".sst"@;
            let gone = (exists|i: int|
                0 <= i < source.tables.len() && (#[trigger] source.tables[i]).path == f) || (exists|
                i: int,
            |
                0 <= i < target.tables.len() && (#[trigger] target.tables[i]).path == f && overlaps(
                    target.tables[i],
                    start,
                    end,
                ));
            &&& above.tables.len() == 0
            &&& below.tables.len() > 0
            &&& below.tables.last().path == fresh
            &&& below.tables.drop_last() == target.tables.filter(
                |t: TableView| !overlaps(t, start, end),
            )
            &&& above.level_num == source.level_num && above.max_bytes == source.max_bytes
            &&& below.level_num == target.level_num && below.max_bytes == target.max_bytes
            &&& !files.contains_key(fresh)
            &&& after.contains_key(f) <==> (files.contains_key(f) || f == fresh) && !gone
            &&& after.contains_key(f) && f != fresh ==> after[f] == files[f]
        }),
{
    let (start, end) = range_of(source.tables)->0;
    let (_, _, below, _) = merged_down(files, source, target, name, now);
    lemma_table_names(name, target.level_num, now.ns);
    lemma_kept_tables(target.tables, start, end);
    assert(below.tables.drop_last() =~= kept(target.tables, start, end));
    lemma_merged_paths(source.tables, target.tables, start, end, f);
}

proof fn lemma_merged_paths(
    source: Seq<TableView>,
    target: Seq<TableView>,
    start: Seq<char>,
    end: Seq<char>,
    f: Seq<char>,
)
    ensures
        paths_of(tables_for_range(target, start, end) + source).contains(f) <==> (exists|i: int|
            0 <= i < source.len() && (#[trigger] source[i]).path == f) || (exists|i: int|
            0 <= i < target.len() && (#[trigger] target[i]).path == f && overlaps(
                target[i],
                start,
                end,
            )),
{
    let overlap = tables_for_range(target, start, end);
    lemma_overlapping(target, start, end);
    let all = overlap + source;
    let names = paths_of(all);
    if names.contains(f) {
        let i = names.index_of(f);
        if i < overlap.len() {
            assert(overlap.contains(overlap[i]));
            let j = target.index_of(overlap[i]);
            assert(target[j].path == f);
        } else {
            assert(source[i - overlap.len()].path == f);
        }
    }
    if exists|i: int| 0 <= i < source.len() && (#[trigger] source[i]).path == f {
        let i = choose|i: int|
            0 <= i < source.len() && (#[trigger] source[i]).path == f;
        assert(all[overlap.len() + i] == source[i]);
        assert(names[overlap.len() + i] == f);
    }
    if exists|i: int|
        0 <= i < target.len() && (#[trigger] target[i]).path == f && overlaps(
            target[i],
            start,
            end,
        ) {
        let i = choose|i: int|
            0 <= i < target.len() && (#[trigger] target[i]).path == f && overlaps(
                target[i],
                start,
                end,
            );
        assert(target.contains(target[i]));
        assert(overlap.contains(target[i]));
        let j = overlap.index_of(target[i]);
        assert(all[j] == overlap[j]);
        assert(names[j] == f);
    }
}

proof fn lemma_overlapping(tables: Seq<TableView>, start: Seq<char>, end: Seq<char>)
    ensures
        forall|t: TableView| #[trigger]
            tables_for_range(tables, start, end).contains(t) <==> tables.contains(t) && overlaps(
                t,
                start,
                end,
            ),
    decreases tables.len(),
{
    if tables.len() > 0 {
        let front = tables.drop_last();
        let before = tables_for_range(front, start, end);
        let r = tables_for_range(tables, start, end);
        lemma_overlapping(front, start, end);
        assert forall|t: TableView| #[trigger] r.contains(t) <==> tables.contains(t) && overlaps(
            t,
            start,
            end,
        ) by {
            assert(tables[tables.len() - 1] == tables.last());
            if front.contains(t) {
                let i = front.index_of(t);
                assert(tables[i] == t);
            }
            if tables.contains(t) && t != tables.last() {
                let i = tables.index_of(t);
                assert(front[i] == t);
            }
            assert(before.contains(t) <==> front.contains(t) && overlaps(t, start, end));
            if r.len() > before.len() {
                assert(r[before.len() as int] == tables.last());
                if before.contains(t) {
                    let i = before.index_of(t);
                    assert(r[i] == t);
                }
                if r.contains(t) && t != tables.last() {
                    let i = r.index_of(t);
                    assert(before[i] == t);
                }
            }
        }
    }
}

/// A level without a key, or without tables, is merged into nothing: all stays as it is.
pub proof fn lemma_nothing_merged(
    files: Files,
    source: LevelView,
    target: LevelView,
    name: Seq<char>,
    now: Clock,
)
    requires
        forall|i: int|
            0 <= i < source.tables.len() ==> (#[trigger] source.tables[i]).index.min is None,
    ensures
        merged_down(files, source, target, name, now) == (
            files,
            source,
            target,
            None::<StoreError>,
        ),
{
    lemma_range_bounds(source.tables);
}

} // verus!
