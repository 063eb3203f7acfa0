//! What the log-structured engine finds again when it is opened anew.

use vstd::prelude::*;

use crate::compaction::{
    all_valid, has_path, in_order, layered, lemma_layered_same, names_table, registered,
};
use crate::directory::{content, Files};
use crate::error::StoreError;
use crate::levels::{
    ascending, disjoint, empty_levels, home_level, homed, lemma_lookup_concat, lemma_no_lookup,
    lemma_reverse_contains, lemma_stacked_contains, lemma_stacked_holder, lemma_unique_lookup,
    placed, stacked, well_arranged, LevelView,
};
use crate::lsm::{
    in_memory, lemma_log_replayed, lemma_opened, log_matches, lsm_contents, lsm_healthy,
    lsm_sound, opened, LsmView,
};
use crate::record::{encoded, within_limits, RecordView};
use crate::size_tiered::{distinct_stamps, flat, lemma_tiered, newest_first, tiered};
use crate::sorted_map::{keys_in_order, lemma_orderable, orderable, strictly_sorted};
use crate::sstable::{
    found_tables, insert_found, lookup, parse_table, rebuilt, rebuilt_all, table_entries,
    table_valid, FoundTable, TableView,
};
use crate::text::lemma_key_lt_total;
use crate::wal::wal_filename;

verus! {

/// Whether what was found comes in the order in which it was begun.
pub open spec fn found_ascending(s: Seq<FoundTable>) -> bool {
    forall|i: int, j: int|
        0 <= i < j < s.len() ==> (#[trigger] s[i]).id.timestamp <= (#[trigger] s[j]).id.timestamp
}

/// Whether nothing was found twice.
pub open spec fn found_once(s: Seq<FoundTable>) -> bool {
    forall|i: int, j: int|
        0 <= i < j < s.len() ==> (#[trigger] s[i]).path != (#[trigger] s[j]).path
}

proof fn lemma_insert_found(s: Seq<FoundTable>, x: FoundTable)
    requires
        found_ascending(s),
        found_once(s),
        forall|i: int| 0 <= i < s.len() ==> (#[trigger] s[i]).path != x.path,
    ensures
        found_ascending(insert_found(s, x)),
        found_once(insert_found(s, x)),
        forall|y: FoundTable| #[trigger]
            insert_found(s, x).contains(y) <==> s.contains(y) || y == x,
    decreases s.len(),
{
    let r = insert_found(s, x);
    if s.len() == 0 || s.last().id.timestamp <= x.id.timestamp {
        assert forall|i: int, j: int| 0 <= i < j < r.len() implies (#[trigger] r[i]).id.timestamp
            <= (#[trigger] r[j]).id.timestamp by {
            if j == s.len() {
                assert(r[i] == s[i]);
                assert(s[i].id.timestamp <= s[s.len() - 1].id.timestamp);
            }
        }
        assert forall|y: FoundTable| #[trigger] r.contains(y) <==> s.contains(y) || y == x by {
            if r.contains(y) {
                let i = r.index_of(y);
                if i < s.len() {
                    assert(s[i] == y);
                }
            }
            if s.contains(y) {
                assert(r[s.index_of(y)] == y);
            }
            assert(r[s.len() as int] == x);
        }
    } else {
        let init = s.drop_last();
        let last = s.last();
        let t = insert_found(init, x);
        assert forall|i: int, j: int| 0 <= i < j < init.len() implies (
        #[trigger] init[i]).id.timestamp <= (#[trigger] init[j]).id.timestamp && init[i].path
            != init[j].path by {
            assert(init[i] == s[i]);
            assert(init[j] == s[j]);
        }
        assert forall|i: int| 0 <= i < init.len() implies (#[trigger] init[i]).path != x.path by {
            assert(init[i] == s[i]);
        }
        lemma_insert_found(init, x);
        assert forall|y: FoundTable| #[trigger] t.contains(y) implies y.id.timestamp
            <= last.id.timestamp && y.path != last.path by {
            if init.contains(y) {
                let n = init.index_of(y);
                assert(s[n] == y);
                assert(s[s.len() - 1] == last);
            } else {
                assert(s[s.len() - 1].path != x.path);
            }
        }
        assert forall|i: int, j: int| 0 <= i < j < r.len() implies (#[trigger] r[i]).id.timestamp
            <= (#[trigger] r[j]).id.timestamp && r[i].path != r[j].path by {
            assert(r[i] == t[i]);
            if j < t.len() {
                assert(r[j] == t[j]);
            } else {
                assert(t.contains(t[i]));
            }
        }
        assert forall|y: FoundTable| #[trigger] r.contains(y) <==> s.contains(y) || y == x by {
            if r.contains(y) {
                let i = r.index_of(y);
                if i < t.len() {
                    assert(t[i] == y);
                    assert(t.contains(y));
                    if init.contains(y) {
                        assert(s[init.index_of(y)] == y);
                    }
                } else {
                    assert(s[s.len() - 1] == y);
                }
            }
            if s.contains(y) {
                let i = s.index_of(y);
                if i < init.len() {
                    assert(init[i] == y);
                    assert(t.contains(y));
                    assert(r[t.index_of(y)] == y);
                } else {
                    assert(r[t.len() as int] == y);
                }
            }
            if y == x {
                assert(t.contains(y));
                assert(r[t.index_of(y)] == y);
            }
        }
    }
}

/// The tables that are found are those that the names stand for, each once, the
/// oldest first.
pub proof fn lemma_found_tables(names: Seq<Seq<char>>, db_name: Seq<char>)
    requires
        strictly_sorted(names),
    ensures
        ({
            let found = found_tables(names, db_name);
            &&& found_ascending(found)
            &&& found_once(found)
            &&& forall|x: FoundTable| #[trigger]
                found.contains(x) <==> names.contains(x.path) && parse_table(x.path) == Some(x.id)
                    && x.id.name == db_name
        }),
    decreases names.len(),
{
    let found = found_tables(names, db_name);
    if names.len() > 0 {
        let init = names.drop_last();
        let f = names.last();
        let before = found_tables(init, db_name);
        assert forall|i: int, j: int| 0 <= i < j < init.len() implies crate::text::key_lt(
            #[trigger] init[i],
            #[trigger] init[j],
        ) by {
            assert(init[i] == names[i]);
            assert(init[j] == names[j]);
        }
        lemma_found_tables(init, db_name);
        assert forall|g: Seq<char>| #[trigger] names.contains(g) <==> init.contains(g) || g == f by {
            if names.contains(g) {
                let i = names.index_of(g);
                if i < init.len() {
                    assert(init[i] == g);
                }
            }
            if init.contains(g) {
                assert(names[init.index_of(g)] == g);
            }
            assert(names[names.len() - 1] == f);
        }
        assert(!init.contains(f)) by {
            if init.contains(f) {
                let i = init.index_of(f);
                assert(names[i] == f);
                assert(crate::text::key_lt(names[i], names[names.len() - 1]));
                lemma_key_lt_total(f, f);
            }
        }
        if names_table(f, db_name) {
            let x = FoundTable { id: parse_table(f)->0, path: f };
            assert forall|i: int| 0 <= i < before.len() implies (#[trigger] before[i]).path != x.path by {
                assert(before.contains(before[i]));
            }
            lemma_insert_found(before, x);
        }
    }
}

/// What is found of tables that are known is read as they are.
proof fn lemma_rebuilt_known(files: Files, found: Seq<FoundTable>, tables: Seq<TableView>)
    requires
        all_valid(files, tables),
        forall|i: int|
            0 <= i < found.len() ==> exists|t: TableView| #[trigger]
                tables.contains(t) && t.path == (#[trigger] found[i]).path && t.id == found[i].id,
    ensures
        rebuilt_all(files, found) is Ok,
        rebuilt_all(files, found)->Ok_0.len() == found.len(),
        forall|i: int|
            0 <= i < found.len() ==> {
                let t = #[trigger] rebuilt_all(files, found)->Ok_0[i];
                &&& tables.contains(t)
                &&& t.path == found[i].path
                &&& t.id == found[i].id
            },
    decreases found.len(),
{
    if found.len() > 0 {
        let init = found.drop_last();
        let x = found.last();
        assert forall|i: int| 0 <= i < init.len() implies exists|t: TableView| #[trigger]
            tables.contains(t) && t.path == (#[trigger] init[i]).path && t.id == init[i].id by {
            assert(init[i] == found[i]);
        }
        lemma_rebuilt_known(files, init, tables);
        assert(found[found.len() - 1] == x);
        let t = choose|t: TableView| #[trigger]
            tables.contains(t) && t.path == x.path && t.id == x.id;
        assert(table_valid(files, tables[tables.index_of(t)]));
        assert(rebuilt(files, x.id, x.path) == Ok::<TableView, StoreError>(t));
    }
}

/// The tables of a directory, read anew, are those that are known, the oldest first.
pub proof fn lemma_reread(files: Files, name: Seq<char>, tables: Seq<TableView>)
    requires
        orderable(files),
        in_order(files, tables),
        registered(files, name, tables),
    ensures
        ({
            let r = rebuilt_all(files, found_tables(keys_in_order(files), name));
            &&& r is Ok
            &&& forall|t: TableView| #[trigger] (r->Ok_0).contains(t) <==> tables.contains(t)
            &&& forall|i: int, j: int|
                0 <= i < j < (r->Ok_0).len() ==> (#[trigger] (r->Ok_0)[i]).id.timestamp <= (
                #[trigger] (r->Ok_0)[j]).id.timestamp && (r->Ok_0)[i] != (r->Ok_0)[j]
        }),
{
    let names = keys_in_order(files);
    let found = found_tables(names, name);
    lemma_orderable(files);
    lemma_found_tables(names, name);
    assert forall|i: int| 0 <= i < found.len() implies exists|t: TableView| #[trigger]
        tables.contains(t) && t.path == (#[trigger] found[i]).path && t.id == found[i].id by {
        assert(found.contains(found[i]));
        let f = found[i].path;
        assert(files.contains_key(f) && names_table(f, name));
        let n = choose|n: int| 0 <= n < tables.len() && (#[trigger] tables[n]).path == f;
        assert(tables.contains(tables[n]));
    }
    lemma_rebuilt_known(files, found, tables);
    let tv = rebuilt_all(files, found)->Ok_0;
    assert forall|t: TableView| #[trigger] tv.contains(t) <==> tables.contains(t) by {
        if tables.contains(t) {
            let n = tables.index_of(t);
            assert(table_valid(files, tables[n]));
            let x = FoundTable { id: t.id, path: t.path };
            assert(files.contains_key(t.path));
            assert(names.contains(t.path));
            assert(found.contains(x));
            let i = found.index_of(x);
            let u = tv[i];
            assert(tables.contains(u));
            assert(tables[tables.index_of(u)].path == tables[n].path);
            assert(u == t);
        }
        if tv.contains(t) {
            assert(tables.contains(tv[tv.index_of(t)]));
        }
    }
    assert forall|i: int, j: int| 0 <= i < j < tv.len() implies (#[trigger] tv[i]).id.timestamp <= (
    #[trigger] tv[j]).id.timestamp && tv[i] != tv[j] by {
        assert(found[i].id.timestamp <= found[j].id.timestamp);
        assert(found[i].path != found[j].path);
    }
}

/// Two ways to put the same tables in the order of their times are one.
proof fn lemma_ascending_unique(a: Seq<TableView>, b: Seq<TableView>)
    requires
        ascending(a),
        ascending(b),
        forall|t: TableView| #[trigger] a.contains(t) <==> b.contains(t),
    ensures
        a == b,
    decreases a.len(),
{
    if a.len() == 0 {
        if b.len() > 0 {
            assert(b.contains(b[0]));
            assert(a.contains(b[0]));
        }
        assert(a =~= b);
    } else {
        assert(a.contains(a.last()));
        assert(b.contains(a.last()));
        let n = b.index_of(a.last());
        assert(b.contains(b.last()));
        assert(a.contains(b.last()));
        let m = a.index_of(b.last());
        if n < b.len() - 1 {
            assert(b[n].id.timestamp < b[b.len() - 1].id.timestamp);
            if m < a.len() - 1 {
                assert(a[m].id.timestamp < a[a.len() - 1].id.timestamp);
            }
            assert(false);
        }
        let x = a.drop_last();
        let y = b.drop_last();
        assert forall|i: int, j: int| 0 <= i < j < x.len() implies (#[trigger] x[i]).id.timestamp < (
        #[trigger] x[j]).id.timestamp by {
            assert(a[i].id.timestamp < a[j].id.timestamp);
        }
        assert forall|i: int, j: int| 0 <= i < j < y.len() implies (#[trigger] y[i]).id.timestamp < (
        #[trigger] y[j]).id.timestamp by {
            assert(b[i].id.timestamp < b[j].id.timestamp);
        }
        assert forall|t: TableView| #[trigger] x.contains(t) <==> y.contains(t) by {
            if x.contains(t) {
                let i = x.index_of(t);
                assert(a[i] == t);
                assert(a[i].id.timestamp < a[a.len() - 1].id.timestamp);
                assert(a.contains(t));
                assert(b.contains(t));
                let j = b.index_of(t);
                assert(y[j] == t);
            }
            if y.contains(t) {
                let i = y.index_of(t);
                assert(b[i] == t);
                assert(b[i].id.timestamp < b[b.len() - 1].id.timestamp);
                assert(b.contains(t));
                assert(a.contains(t));
                let j = a.index_of(t);
                assert(x[j] == t);
            }
        }
        lemma_ascending_unique(x, y);
        assert(a =~= x.push(a.last()));
        assert(b =~= y.push(b.last()));
    }
}

/// The tables of a size-tiered store that is opened anew are those that it had, in
/// the same order.
pub proof fn lemma_tiers_reloaded(files: Files, name: Seq<char>, buckets: Seq<Seq<TableView>>)
    requires
        orderable(files),
        in_order(files, newest_first(flat(buckets))),
        registered(files, name, newest_first(flat(buckets))),
        distinct_stamps(newest_first(flat(buckets))),
    ensures
        ({
            let r = rebuilt_all(files, found_tables(keys_in_order(files), name));
            &&& r is Ok
            &&& newest_first(flat(tiered(files, r->Ok_0))) == newest_first(flat(buckets))
        }),
{
    let tables = newest_first(flat(buckets));
    let tv = rebuilt_all(files, found_tables(keys_in_order(files), name))->Ok_0;
    lemma_reread(files, name, tables);
    assert forall|i: int, j: int| 0 <= i < j < tv.len() implies (#[trigger] tv[i]).id.timestamp < (
    #[trigger] tv[j]).id.timestamp by {
        assert(tv.contains(tv[i]));
        assert(tv.contains(tv[j]));
        assert(tables.contains(tv[i]));
        assert(tables.contains(tv[j]));
        let p = tables.index_of(tv[i]);
        let q = tables.index_of(tv[j]);
        assert(tables[p].id.timestamp != tables[q].id.timestamp);
    }
    lemma_tiered(files, tv);
    crate::size_tiered::lemma_descending_stamps(flat(buckets));
    let back = tables.reverse();
    lemma_reverse_contains(tables);
    assert forall|i: int, j: int| 0 <= i < j < back.len() implies (#[trigger] back[i]).id.timestamp
        < (#[trigger] back[j]).id.timestamp by {
        let n = tables.len() - 1;
        assert(tables[n - j].id.timestamp > tables[n - i].id.timestamp);
    }
    lemma_ascending_unique(tv, back);
    assert(back.reverse() =~= tables);
}

/// Whether two sequences have the same tables.
spec fn same_members(a: Seq<TableView>, b: Seq<TableView>) -> bool {
    forall|t: TableView| #[trigger] a.contains(t) <==> b.contains(t)
}

/// Where the tables of one level stand once they were loaded.
proof fn lemma_placed(levels: Seq<LevelView>, tables: Seq<TableView>, i: int)
    requires
        0 <= i < levels.len(),
        forall|j: int| 0 <= j < levels.len() ==> (#[trigger] levels[j]).tables.len() == 0,
    ensures
        placed(levels, tables).len() == levels.len(),
        ({
            let got = placed(levels, tables)[i].tables;
            &&& forall|t: TableView| #[trigger]
                got.contains(t) <==> tables.contains(t) && home_level(t, levels.len()) == i
            &&& (forall|p: int, q: int|
                0 <= p < q < tables.len() ==> (#[trigger] tables[p]).id.timestamp <= (
                #[trigger] tables[q]).id.timestamp) ==> forall|p: int, q: int|
                0 <= p < q < got.len() ==> (#[trigger] got[p]).id.timestamp <= (
                #[trigger] got[q]).id.timestamp
            &&& (forall|p: int, q: int|
                0 <= p < q < tables.len() ==> (#[trigger] tables[p]) != (#[trigger] tables[q]))
                ==> forall|p: int, q: int|
                0 <= p < q < got.len() ==> (#[trigger] got[p]) != (#[trigger] got[q])
        }),
    decreases tables.len(),
{
    if tables.len() == 0 {
        assert(levels[i].tables.len() == 0);
    } else {
        let init = tables.drop_last();
        let x = tables.last();
        let before = placed(levels, init);
        let got = placed(levels, tables)[i].tables;
        let old_got = before[i].tables;
        lemma_placed(levels, init, i);
        lemma_placed(levels, init, home_level(x, levels.len()));
        assert forall|t: TableView| #[trigger] tables.contains(t) <==> init.contains(t) || t == x by {
            if tables.contains(t) {
                let n = tables.index_of(t);
                if n < init.len() {
                    assert(init[n] == t);
                }
            }
            if init.contains(t) {
                assert(tables[init.index_of(t)] == t);
            }
            assert(tables[tables.len() - 1] == x);
        }
        assert forall|p: int| 0 <= p < init.len() implies #[trigger] init[p] == tables[p] by {}
        if home_level(x, levels.len()) == i {
            assert(got == old_got.push(x));
            assert forall|t: TableView| #[trigger] got.contains(t) <==> old_got.contains(t) || t
                == x by {
                if got.contains(t) {
                    let n = got.index_of(t);
                    if n < old_got.len() {
                        assert(old_got[n] == t);
                    }
                }
                if old_got.contains(t) {
                    assert(got[old_got.index_of(t)] == t);
                }
                assert(got[old_got.len() as int] == x);
            }
            if forall|p: int, q: int|
                0 <= p < q < tables.len() ==> (#[trigger] tables[p]).id.timestamp <= (
                #[trigger] tables[q]).id.timestamp {
                assert forall|p: int, q: int| 0 <= p < q < init.len() implies (
                #[trigger] init[p]).id.timestamp <= (#[trigger] init[q]).id.timestamp by {
                    assert(tables[p].id.timestamp <= tables[q].id.timestamp);
                }
                assert forall|p: int, q: int| 0 <= p < q < got.len() implies (
                #[trigger] got[p]).id.timestamp <= (#[trigger] got[q]).id.timestamp by {
                    assert(got[p] == old_got[p]);
                    if q < old_got.len() {
                        assert(got[q] == old_got[q]);
                    } else {
                        assert(old_got.contains(old_got[p]));
                        assert(init.contains(old_got[p]));
                        let n = init.index_of(old_got[p]);
                        assert(tables[n].id.timestamp <= tables[tables.len() - 1].id.timestamp);
                    }
                }
            }
            if forall|p: int, q: int|
                0 <= p < q < tables.len() ==> (#[trigger] tables[p]) != (#[trigger] tables[q]) {
                assert forall|p: int, q: int| 0 <= p < q < init.len() implies (#[trigger] init[p])
                    != (#[trigger] init[q]) by {
                    assert(tables[p] != tables[q]);
                }
                assert forall|p: int, q: int| 0 <= p < q < got.len() implies (#[trigger] got[p])
                    != (#[trigger] got[q]) by {
                    assert(got[p] == old_got[p]);
                    if q < old_got.len() {
                        assert(got[q] == old_got[q]);
                    } else {
                        assert(old_got.contains(old_got[p]));
                        assert(init.contains(old_got[p]));
                        let n = init.index_of(old_got[p]);
                        assert(tables[n] != tables[tables.len() - 1]);
                    }
                }
            }
        } else {
            assert(got == old_got);
            if forall|p: int, q: int|
                0 <= p < q < tables.len() ==> (#[trigger] tables[p]).id.timestamp <= (
                #[trigger] tables[q]).id.timestamp {
                assert forall|p: int, q: int| 0 <= p < q < init.len() implies (
                #[trigger] init[p]).id.timestamp <= (#[trigger] init[q]).id.timestamp by {
                    assert(tables[p].id.timestamp <= tables[q].id.timestamp);
                }
            }
            if forall|p: int, q: int|
                0 <= p < q < tables.len() ==> (#[trigger] tables[p]) != (#[trigger] tables[q]) {
                assert forall|p: int, q: int| 0 <= p < q < init.len() implies (#[trigger] init[p])
                    != (#[trigger] init[q]) by {
                    assert(tables[p] != tables[q]);
                }
            }
        }
    }
}

/// Levels that give a key the same, one by one, give it the same together.
proof fn lemma_stacked_lookup(files: Files, a: Seq<LevelView>, b: Seq<LevelView>, k: Seq<char>)
    requires
        a.len() == b.len(),
        forall|i: int|
            0 <= i < a.len() ==> lookup(
                layered(files, (#[trigger] a[i]).tables.reverse()),
                k,
            ) == lookup(layered(files, b[i].tables.reverse()), k),
    ensures
        lookup(layered(files, stacked(a)), k) == lookup(layered(files, stacked(b)), k),
    decreases a.len(),
{
    if a.len() > 0 {
        let x = a.drop_last();
        let y = b.drop_last();
        let p = a.last().tables.reverse();
        let q = b.last().tables.reverse();
        assert forall|i: int| 0 <= i < x.len() implies lookup(
            layered(files, (#[trigger] x[i]).tables.reverse()),
            k,
        ) == lookup(layered(files, y[i].tables.reverse()), k) by {
            assert(x[i] == a[i]);
        }
        lemma_stacked_lookup(files, x, y, k);
        assert(lookup(layered(files, a[a.len() - 1].tables.reverse()), k) == lookup(
            layered(files, b[a.len() - 1].tables.reverse()),
            k,
        ));
        lemma_lookup_concat(files, stacked(x), p, k);
        lemma_lookup_concat(files, stacked(y), q, k);
        assert(layered(files, stacked(x)).contains_key(k) <==> layered(
            files,
            stacked(y),
        ).contains_key(k));
    }
}

/// Whether no table stands twice.
spec fn each_once(tables: Seq<TableView>) -> bool {
    forall|i: int, j: int|
        0 <= i < j < tables.len() ==> (#[trigger] tables[i]) != (#[trigger] tables[j])
}

/// Levels whose tables are where their names say, each once, hold no table twice.
proof fn lemma_stacked_once(levels: Seq<LevelView>, num_levels: nat)
    requires
        forall|i: int|
            0 <= i < levels.len() ==> each_once((#[trigger] levels[i]).tables) && homed(
                levels[i].tables,
                i,
                num_levels,
            ),
    ensures
        each_once(stacked(levels)),
    decreases levels.len(),
{
    if levels.len() > 0 {
        let n = levels.len() - 1;
        let init = levels.drop_last();
        let a = stacked(init);
        let last = levels[n].tables;
        let b = last.reverse();
        assert forall|i: int| 0 <= i < init.len() implies each_once((#[trigger] init[i]).tables)
            && homed(init[i].tables, i, num_levels) by {
            assert(init[i] == levels[i]);
        }
        lemma_stacked_once(init, num_levels);
        let all = stacked(levels);
        assert(all == a + b);
        assert(each_once(last));
        assert forall|i: int, j: int| 0 <= i < j < all.len() implies (#[trigger] all[i]) != (
        #[trigger] all[j]) by {
            if j < a.len() {
                assert(a[i] != a[j]);
            } else if i >= a.len() {
                let p = last.len() - 1 - (j - a.len());
                let q = last.len() - 1 - (i - a.len());
                assert(last[p] != last[q]);
            } else {
                assert(a.contains(a[i]));
                let h = lemma_stacked_holder(init, a[i]);
                assert(homed(init[h].tables, h, num_levels));
                let t = last[last.len() - 1 - (j - a.len())];
                assert(last.contains(t));
                assert(homed(levels[n].tables, n, num_levels));
            }
        }
    }
}

/// The tables of a store stay in good order in whatever order they stand.
proof fn lemma_same_order(files: Files, name: Seq<char>, a: Seq<TableView>, b: Seq<TableView>)
    requires
        in_order(files, a),
        registered(files, name, a),
        each_once(b),
        same_members(b, a),
    ensures
        in_order(files, b),
        registered(files, name, b),
{
    assert forall|i: int| 0 <= i < b.len() implies table_valid(files, #[trigger] b[i]) by {
        assert(b.contains(b[i]));
        assert(table_valid(files, a[a.index_of(b[i])]));
    }
    assert forall|i: int, j: int| 0 <= i < b.len() && 0 <= j < b.len() && i != j implies (
    #[trigger] b[i]).path != (#[trigger] b[j]).path by {
        assert(b.contains(b[i]));
        assert(b.contains(b[j]));
        assert(b[i] != b[j]);
        assert(a[a.index_of(b[i])].path != a[a.index_of(b[j])].path);
    }
    assert forall|f: Seq<char>| #[trigger] files.contains_key(f) && names_table(
        f,
        name,
    ) implies has_path(b, f) by {
        assert(has_path(a, f));
        let i = choose|i: int| 0 <= i < a.len() && (#[trigger] a[i]).path == f;
        assert(a.contains(a[i]));
        assert(b.contains(a[i]));
        let j = b.index_of(a[i]);
        assert(b[j].path == f);
    }
}

/// The levels of a store that is opened anew are in good order, and arranged as they were.
proof fn lemma_levels_placed(
    files: Files,
    name: Seq<char>,
    levels: Seq<LevelView>,
    fresh: Seq<LevelView>,
    tv: Seq<TableView>,
)
    requires
        levels.len() == fresh.len(),
        levels.len() > 0,
        forall|j: int| 0 <= j < fresh.len() ==> (#[trigger] fresh[j]).tables.len() == 0,
        in_order(files, stacked(levels)),
        registered(files, name, stacked(levels)),
        well_arranged(files, levels),
        forall|t: TableView| #[trigger] tv.contains(t) <==> stacked(levels).contains(t),
        forall|i: int, j: int|
            0 <= i < j < tv.len() ==> (#[trigger] tv[i]).id.timestamp <= (
            #[trigger] tv[j]).id.timestamp && tv[i] != tv[j],
    ensures
        ({
            let got = placed(fresh, tv);
            &&& got.len() == levels.len()
            &&& well_arranged(files, got)
            &&& in_order(files, stacked(got))
            &&& registered(files, name, stacked(got))
            &&& forall|t: TableView| #[trigger]
                stacked(got).contains(t) <==> stacked(levels).contains(t)
            &&& forall|i: int|
                0 <= i < got.len() ==> same_members((#[trigger] got[i]).tables, levels[i].tables)
        }),
{
    let got = placed(fresh, tv);
    let n = levels.len();
    let old_all = stacked(levels);
    let all = stacked(got);
    lemma_placed(fresh, tv, 0);
    assert forall|i: int| 0 <= i < n implies same_members(
        (#[trigger] got[i]).tables,
        levels[i].tables,
    ) && each_once(got[i].tables) && homed(got[i].tables, i, n) by {
        lemma_placed(fresh, tv, i);
        lemma_stacked_contains(levels, i);
        assert(homed(levels[i].tables, i, n));
        assert forall|t: TableView| #[trigger] got[i].tables.contains(t) <==> levels[i].tables.contains(
            t,
        ) by {
            if got[i].tables.contains(t) {
                assert(old_all.contains(t));
                let j = lemma_stacked_holder(levels, t);
                assert(homed(levels[j].tables, j, n));
            }
        }
    }
    assert forall|i: int| 1 <= i < n implies disjoint(files, (#[trigger] got[i]).tables) by {
        assert(disjoint(files, levels[i].tables));
        assert(same_members(got[i].tables, levels[i].tables));
    }
    let p = got[0].tables;
    let q = levels[0].tables;
    assert(same_members(p, q));
    assert(ascending(p)) by {
        lemma_placed(fresh, tv, 0);
        assert forall|a: int, b: int| 0 <= a < b < p.len() implies (#[trigger] p[a]).id.timestamp < (
        #[trigger] p[b]).id.timestamp by {
            assert(p.contains(p[a]));
            assert(p.contains(p[b]));
            let c = q.index_of(p[a]);
            let d = q.index_of(p[b]);
            assert(q[c] == p[a]);
            assert(q[d] == p[b]);
            assert(p[a].id.timestamp <= p[b].id.timestamp);
            assert(p[a] != p[b]);
            if d < c {
                assert(q[d].id.timestamp < q[c].id.timestamp);
            } else {
                assert(c < d);
                assert(q[c].id.timestamp < q[d].id.timestamp);
            }
        }
    }
    assert forall|t: TableView| #[trigger] all.contains(t) <==> old_all.contains(t) by {
        if all.contains(t) {
            let i = lemma_stacked_holder(got, t);
            lemma_stacked_contains(levels, i);
            assert(same_members(got[i].tables, levels[i].tables));
            assert(levels[i].tables.contains(t));
        }
        if old_all.contains(t) {
            let i = lemma_stacked_holder(levels, t);
            lemma_stacked_contains(got, i);
            assert(same_members(got[i].tables, levels[i].tables));
            assert(got[i].tables.contains(t));
        }
    }
    assert forall|i: int| 0 <= i < got.len() implies each_once((#[trigger] got[i]).tables) && homed(
        got[i].tables,
        i,
        n,
    ) by {
        assert(same_members(got[i].tables, levels[i].tables));
    }
    lemma_stacked_once(got, n);
    lemma_same_order(files, name, old_all, all);
}

/// The levels of a store that is opened anew give every key what it had, and are in good
/// order.
pub proof fn lemma_levels_reloaded(
    files: Files,
    name: Seq<char>,
    levels: Seq<LevelView>,
    num_levels: usize,
    l0_threshold: usize,
    l1_max_bytes: u64,
)
    requires
        orderable(files),
        levels.len() == num_levels,
        num_levels > 0,
        in_order(files, stacked(levels)),
        registered(files, name, stacked(levels)),
        well_arranged(files, levels),
    ensures
        ({
            let r = rebuilt_all(files, found_tables(keys_in_order(files), name));
            let fresh = empty_levels(num_levels, l0_threshold, l1_max_bytes);
            let got = placed(fresh, r->Ok_0);
            &&& r is Ok
            &&& well_arranged(files, got)
            &&& in_order(files, stacked(got))
            &&& registered(files, name, stacked(got))
            &&& layered(files, stacked(got)) == layered(files, stacked(levels))
        }),
{
    let tv = rebuilt_all(files, found_tables(keys_in_order(files), name))->Ok_0;
    let fresh = empty_levels(num_levels, l0_threshold, l1_max_bytes);
    let got = placed(fresh, tv);
    let n = levels.len();
    lemma_reread(files, name, stacked(levels));
    lemma_levels_placed(files, name, levels, fresh, tv);
    let x = layered(files, stacked(got));
    let y = layered(files, stacked(levels));
    assert forall|k: Seq<char>| #[trigger] lookup(x, k) == lookup(y, k) by {
        assert forall|i: int| 0 <= i < n implies lookup(
            layered(files, (#[trigger] got[i]).tables.reverse()),
            k,
        ) == lookup(layered(files, levels[i].tables.reverse()), k) by {
            let p = got[i].tables;
            let q = levels[i].tables;
            assert(same_members(p, q));
            lemma_reverse_contains(p);
            lemma_reverse_contains(q);
            if i == 0 {
                lemma_ascending_unique(p, q);
            } else {
                assert(disjoint(files, levels[i].tables));
                if exists|o: TableView| #[trigger]
                    q.contains(o) && table_entries(files, o).contains_key(k) {
                    let o = choose|o: TableView| #[trigger]
                        q.contains(o) && table_entries(files, o).contains_key(k);
                    assert(q.reverse().contains(o));
                    assert(p.contains(o));
                    assert(p.reverse().contains(o));
                    assert forall|t: TableView| #[trigger]
                        p.reverse().contains(t) && table_entries(files, t).contains_key(k) implies t
                        == o by {
                        assert(p.contains(t));
                        assert(q.contains(t));
                    }
                    lemma_unique_lookup(files, q.reverse(), o, k);
                    lemma_unique_lookup(files, p.reverse(), o, k);
                } else {
                    assert forall|t: TableView| #[trigger] q.reverse().contains(t) implies
                        !table_entries(files, t).contains_key(k) by {
                        assert(q.contains(t));
                    }
                    assert forall|t: TableView| #[trigger] p.reverse().contains(t) implies
                        !table_entries(files, t).contains_key(k) by {
                        assert(p.contains(t));
                        assert(q.contains(t));
                    }
                    lemma_no_lookup(files, q.reverse(), k);
                    lemma_no_lookup(files, p.reverse(), k);
                }
            }
        }
        lemma_stacked_lookup(files, got, levels, k);
    }
    assert forall|k: Seq<char>| #[trigger] x.contains_key(k) <==> y.contains_key(k) by {
        assert(lookup(x, k) == lookup(y, k));
    }
    assert forall|k: Seq<char>| #[trigger] x.contains_key(k) implies x[k] == y[k] by {
        assert(lookup(x, k) == lookup(y, k));
    }
    assert(x =~= y);
}

/// The state of a store that is opened anew over some tables.
pub open spec fn reopened(v: LsmView, tables: Seq<TableView>) -> LsmView {
    opened(v.files, v.name, tables, v.max_memtable_bytes)
}

/// A store in good order holds, when it is opened anew, what it held.
pub proof fn lemma_reopened(v: LsmView, tables: Seq<TableView>)
    requires
        lsm_healthy(v),
        all_valid(v.files, tables),
        forall|t: TableView| #[trigger] tables.contains(t) ==> parse_table(t.path) is Some,
        layered(v.files, tables) == layered(v.files, v.tables),
    ensures
        lsm_contents(reopened(v, tables)) == lsm_contents(v),
        log_matches(reopened(v, tables)),
        in_order(v.files, tables) && registered(v.files, v.name, tables) ==> lsm_sound(
            reopened(v, tables),
        ),
{
    let w = reopened(v, tables);
    lemma_log_replayed(v);
    lemma_opened(v.files, v.name, tables, v.max_memtable_bytes);
    let log = wal_filename(v.name);
    crate::lsm::lemma_log_apart(v.name);
    assert forall|i: int| 0 <= i < tables.len() implies {
        &&& v.files.contains_key((#[trigger] tables[i]).path) == w.files.contains_key(
            tables[i].path,
        )
        &&& content(v.files, tables[i].path) == content(w.files, tables[i].path)
    } by {
        assert(tables.contains(tables[i]));
        assert(tables[i].path != log);
    }
    lemma_layered_same(v.files, w.files, tables);
    assert(in_memory(w) =~= in_memory(v));
}

/// A write that was broken off in the log leaves no trace once the store is opened anew:
/// the store is the one that is opened over the log without it.
pub proof fn lemma_torn_reopened(v: LsmView, tables: Seq<TableView>, r: RecordView, n: int)
    requires
        log_matches(v),
        within_limits(r),
        0 <= n < encoded(r).len(),
    ensures
        ({
            let log = wal_filename(v.name);
            let torn = v.files.insert(log, content(v.files, log) + encoded(r).take(n));
            opened(torn, v.name, tables, v.max_memtable_bytes) == reopened(v, tables)
        }),
{
    let log = wal_filename(v.name);
    let data = content(v.files, log);
    let torn = v.files.insert(log, data + encoded(r).take(n));
    lemma_log_replayed(v);
    crate::record::lemma_torn(data, r, n);
    crate::record::lemma_whole_all(data);
    assert((data + encoded(r).take(n)).take(data.len() as int) =~= data);
    assert(data.take(data.len() as int) =~= data);
    assert(opened(torn, v.name, tables, v.max_memtable_bytes).files =~= reopened(
        v,
        tables,
    ).files);
}

/// A size-tiered store holds, when it is opened anew, what it held.
pub proof fn lemma_tiers_reopened(v: LsmView, buckets: Seq<Seq<TableView>>)
    requires
        orderable(v.files),
        lsm_healthy(v),
        v.tables == newest_first(flat(buckets)),
        distinct_stamps(v.tables),
    ensures
        ({
            let r = rebuilt_all(v.files, found_tables(keys_in_order(v.files), v.name));
            let tables = newest_first(flat(tiered(v.files, r->Ok_0)));
            &&& r is Ok
            &&& tables == v.tables
            &&& lsm_healthy(reopened(v, tables))
            &&& lsm_contents(reopened(v, tables)) == lsm_contents(v)
        }),
{
    lemma_tiers_reloaded(v.files, v.name, buckets);
    lemma_reopened(v, v.tables);
}

/// A leveled store holds, when it is opened anew, what it held.
pub proof fn lemma_levels_reopened(
    v: LsmView,
    levels: Seq<LevelView>,
    num_levels: usize,
    l0_threshold: usize,
    l1_max_bytes: u64,
)
    requires
        orderable(v.files),
        lsm_healthy(v),
        v.tables == stacked(levels),
        levels.len() == num_levels,
        num_levels > 0,
        well_arranged(v.files, levels),
    ensures
        ({
            let r = rebuilt_all(v.files, found_tables(keys_in_order(v.files), v.name));
            let fresh = empty_levels(num_levels, l0_threshold, l1_max_bytes);
            let got = placed(fresh, r->Ok_0);
            &&& r is Ok
            &&& well_arranged(v.files, got)
            &&& lsm_healthy(reopened(v, stacked(got)))
            &&& lsm_contents(reopened(v, stacked(got))) == lsm_contents(v)
        }),
{
    let tv = rebuilt_all(v.files, found_tables(keys_in_order(v.files), v.name))->Ok_0;
    let fresh = empty_levels(num_levels, l0_threshold, l1_max_bytes);
    let got = placed(fresh, tv);
    lemma_levels_reloaded(v.files, v.name, levels, num_levels, l0_threshold, l1_max_bytes);
    lemma_reopened(v, stacked(got));
}

} // verus!
