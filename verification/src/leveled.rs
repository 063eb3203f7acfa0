//! Leveled compaction: new tables come to the first level; a level that is full is
//! merged into the next one.

use vstd::prelude::*;

use crate::compaction::{
    collect, has_path, in_order, is_table_of, layered, live, merge_tables, ref_views, refs_wf,
    select_for_key, select_for_range, sweep, table_overlaps, tables_for_range, unused,
    CompactionStrategy,
};
use crate::directory::{content, Directory, Files};
use crate::engine::{unexpired, Clock};
use crate::error::StoreError;
use crate::levels::{
    compactable_levels, due_level, empty_levels, highest, home_level, kept, lemma_arranged_same,
    lemma_level_present, lemma_one_step, lemma_progress_end, lemma_progress_start,
    lemma_progress_step, lemma_stacked_added, lemma_stacked_empty, lemma_stacked_front,
    lemma_step_frame, lemma_steps_stop, level_due, level_factor, limits_fit, lowest,
    merged_down, numbered, paths_of, placed, present, progress, range_of, same_file, seen,
    squashed, stacked, stepped, steps, ten_to, well_arranged, with_tables, without_files,
    LevelView,
};
use crate::memtable::MemtableEntry;
use crate::size_tiered::{sizes_of, total_of};
use crate::sorted_map::{keys_in_order, StringMap};
use crate::sstable::{
    found_tables, get_sstables, lemma_rebuilt_present, lookup, rebuilt_all, table_views,
    tables_wf, SSTable, TableView,
};
use crate::text::{key_lt, lemma_key_lt_total, string_views};

verus! {

/// A level of tables.
pub struct Level {
    sstables: Vec<SSTable>,
    level_num: usize,
    max_bytes: u64,
    l0_threshold: usize,
    is_terminal: bool,
}

impl View for Level {
    type V = LevelView;

    closed spec fn view(&self) -> LevelView {
        LevelView {
            tables: table_views(self.sstables@),
            level_num: self.level_num,
            max_bytes: self.max_bytes,
            l0_threshold: self.l0_threshold,
            is_terminal: self.is_terminal,
        }
    }
}

/// What a pair of strings that may be missing says.
pub open spec fn pair_view(p: Option<(String, String)>) -> Option<(Seq<char>, Seq<char>)> {
    match p {
        Some((a, b)) => Some((a@, b@)),
        None => None,
    }
}

fn is_before(a: &str, b: &str) -> (r: bool)
    ensures
        r == key_lt(a@, b@),
{
    proof {
        lemma_key_lt_total(a@, b@);
    }
    match crate::text::rank(a, b) {
        crate::text::Rank::Before => true,
        _ => false,
    }
}

/// Adds the names of the files of tables.
pub fn push_paths(paths: &mut Vec<String>, tables: &Vec<&SSTable>)
    ensures
        string_views(final(paths)@) == string_views(old(paths)@) + paths_of(ref_views(tables@)),
{
    let ghost before = string_views(paths@);
    let ghost ps = paths_of(ref_views(tables@));
    assert(before + ps.take(0) =~= before);
    for i in 0..tables.len()
        invariant
            ps == paths_of(ref_views(tables@)),
            string_views(paths@) == before + ps.take(i as int),
    {
        let ghost now = string_views(paths@);
        let path = String::from_str(tables[i].path_str());
        assert(ps[i as int] == path@);
        paths.push(path);
        assert(string_views(paths@) =~= now.push(path@));
        assert(now.push(path@) =~= before + ps.take(i + 1));
    }
    assert(ps.take(tables@.len() as int) =~= ps);
}

/// Removes files.
pub fn remove_files(dir: &mut Directory, paths: &Vec<String>)
    requires
        old(dir).wf(),
    ensures
        final(dir).wf(),
        final(dir).base() == old(dir).base(),
        final(dir)@ == without_files(old(dir)@, string_views(paths@)),
{
    let ghost ps = string_views(paths@);
    assert(without_files(dir@, ps.take(0)) =~= dir@);
    for i in 0..paths.len()
        invariant
            dir.wf(),
            dir.base() == old(dir).base(),
            ps == string_views(paths@),
            dir@ == without_files(old(dir)@, ps.take(i as int)),
    {
        assert(ps[i as int] == paths@[i as int]@);
        dir.remove(paths[i].as_str());
        proof {
            let p = ps[i as int];
            assert forall|f: Seq<char>| #[trigger] ps.take(i + 1).contains(f) <==> ps.take(
                i as int,
            ).contains(f) || f == p by {
                if ps.take(i + 1).contains(f) {
                    let n = ps.take(i + 1).index_of(f);
                    if n < i {
                        assert(ps.take(i as int)[n] == f);
                    }
                }
                if ps.take(i as int).contains(f) {
                    assert(ps.take(i + 1)[ps.take(i as int).index_of(f)] == f);
                }
                assert(ps.take(i + 1)[i as int] == p);
            }
            assert(dir@ =~= without_files(old(dir)@, ps.take(i + 1)));
        }
    }
    assert(ps.take(paths@.len() as int) =~= ps);
}

impl Level {
    pub closed spec fn wf(&self) -> bool {
        tables_wf(self.sstables@)
    }

    /// Adds a table.
    pub fn append(&mut self, sst: SSTable)
        requires
            old(self).wf(),
            sst.wf(),
        ensures
            final(self).wf(),
            final(self)@ == with_tables(old(self)@, old(self)@.tables.push(sst@)),
    {
        let ghost before = table_views(self.sstables@);
        let ghost t = sst@;
        self.sstables.push(sst);
        assert(table_views(self.sstables@) =~= before.push(t));
    }

    /// The bytes of all tables; the largest number there is, where they are more.
    fn total_bytes(&self, dir: &Directory) -> (r: Result<u64, StoreError>)
        requires
            dir.wf(),
        ensures
            match r {
                Ok(n) => {
                    let total = total_of(sizes_of(dir@, self@.tables));
                    &&& present(dir@, self@.tables)
                    &&& n == (if total <= u64::MAX {
                        total
                    } else {
                        u64::MAX as nat
                    })
                },
                Err(e) => e == StoreError::FileNotFound && !present(dir@, self@.tables),
            },
    {
        let ghost sizes = sizes_of(dir@, self@.tables);
        let mut total: u64 = 0;
        assert(sizes.take(0) =~= Seq::<nat>::empty());
        for i in 0..self.sstables.len()
            invariant
                dir.wf(),
                self@.tables == table_views(self.sstables@),
                sizes == sizes_of(dir@, self@.tables),
                total == (if total_of(sizes.take(i as int)) <= u64::MAX {
                    total_of(sizes.take(i as int))
                } else {
                    u64::MAX as nat
                }),
                forall|j: int|
                    0 <= j < i ==> dir@.contains_key((#[trigger] self@.tables[j]).path),
        {
            let t = &self.sstables[i];
            assert(self@.tables[i as int] == t@);
            assert(sizes[i as int] == content(dir@, t@.path).len());
            assert(sizes.take(i + 1).drop_last() =~= sizes.take(i as int));
            let size = match t.size_on_disk(dir) {
                Ok(n) => n,
                Err(e) => {
                    return Err(e);
                },
            };
            total = total.saturating_add(size);
        }
        assert(sizes.take(self.sstables@.len() as int) =~= sizes);
        Ok(total)
    }

    /// Whether the level is full.
    fn needs_compaction(&self, dir: &Directory) -> (r: Result<bool, StoreError>)
        requires
            dir.wf(),
        ensures
            r == level_due(dir@, self@),
    {
        if self.level_num == 0 {
            assert(self@.tables.len() == self.sstables@.len());
            return Ok(self.sstables.len() == self.l0_threshold);
        }
        match self.total_bytes(dir) {
            Ok(n) => Ok(n >= self.max_bytes),
            Err(e) => Err(e),
        }
    }

    /// The tables in the order in which they were added.
    fn refs<'a>(&'a self) -> (out: Vec<&'a SSTable>)
        requires
            self.wf(),
        ensures
            refs_wf(out@),
            ref_views(out@) == self@.tables,
    {
        let mut out: Vec<&'a SSTable> = Vec::new();
        let ghost tv = self@.tables;
        assert(ref_views(out@) =~= tv.take(0));
        for i in 0..self.sstables.len()
            invariant
                self.wf(),
                refs_wf(out@),
                tv == table_views(self.sstables@),
                ref_views(out@) == tv.take(i as int),
        {
            let ghost before = ref_views(out@);
            let t = &self.sstables[i];
            assert(self.sstables@[i as int].wf());
            assert(tv[i as int] == t@);
            out.push(t);
            assert(ref_views(out@) =~= before.push(t@));
            assert(before.push(t@) =~= tv.take(i + 1));
        }
        assert(tv.take(self.sstables@.len() as int) =~= tv);
        out
    }

    /// The tables whose keys can lie between two keys.
    fn overlapping_files<'a>(&'a self, min_key: &str, max_key: &str) -> (out: Vec<&'a SSTable>)
        requires
            self.wf(),
        ensures
            refs_wf(out@),
            ref_views(out@) == tables_for_range(self@.tables, min_key@, max_key@),
    {
        select_for_range(self.refs(), min_key, max_key)
    }

    /// The smallest and the largest key, where there is any.
    pub fn key_range(&self) -> (r: Option<(String, String)>)
        ensures
            pair_view(r) == range_of(self@.tables),
    {
        let ghost tv = self@.tables;
        let mut min: Option<&String> = None;
        let mut max: Option<&String> = None;
        assert(tv.take(0) =~= Seq::<TableView>::empty());
        for i in 0..self.sstables.len()
            invariant
                tv == table_views(self.sstables@),
                lowest(tv.take(i as int)) == (match min {
                    Some(s) => Some(s@),
                    None => None,
                }),
                highest(tv.take(i as int)) == (match max {
                    Some(s) => Some(s@),
                    None => None,
                }),
        {
            let t = &self.sstables[i];
            assert(tv[i as int] == t@);
            assert(tv.take(i + 1).drop_last() =~= tv.take(i as int));
            match (min, t.get_min()) {
                (Some(x), Some(y)) => {
                    if is_before(y.as_str(), x.as_str()) {
                        min = Some(y);
                    }
                },
                (None, Some(y)) => {
                    min = Some(y);
                },
                _ => {},
            }
            match (max, t.get_max()) {
                (Some(x), Some(y)) => {
                    if is_before(x.as_str(), y.as_str()) {
                        max = Some(y);
                    }
                },
                (None, Some(y)) => {
                    max = Some(y);
                },
                _ => {},
            }
        }
        assert(tv.take(self.sstables@.len() as int) =~= tv);
        match (min, max) {
            (Some(a), Some(b)) => Some((a.clone(), b.clone())),
            _ => None,
        }
    }

    /// The tables, the last one first.
    pub fn iter<'a>(&'a self) -> (out: Vec<&'a SSTable>)
        requires
            self.wf(),
        ensures
            refs_wf(out@),
            ref_views(out@) == self@.tables.reverse(),
    {
        let mut out: Vec<&'a SSTable> = Vec::new();
        let ghost tv = self@.tables;
        let n = self.sstables.len();
        assert(tv.skip(n as int).reverse() =~= Seq::<TableView>::empty());
        assert(ref_views(out@) =~= Seq::<TableView>::empty());
        let mut i: usize = n;
        while i > 0
            invariant
                self.wf(),
                i <= n,
                n == self.sstables@.len(),
                refs_wf(out@),
                tv == table_views(self.sstables@),
                ref_views(out@) == tv.skip(i as int).reverse(),
            decreases i,
        {
            i = i - 1;
            let ghost before = ref_views(out@);
            let t = &self.sstables[i];
            assert(self.sstables@[i as int].wf());
            assert(tv[i as int] == t@);
            out.push(t);
            assert(ref_views(out@) =~= before.push(t@));
            assert(before.push(t@) =~= tv.skip(i as int).reverse());
        }
        assert(tv.skip(0) =~= tv);
        out
    }

    /// Keeps the tables whose keys do not lie between two keys.
    fn retain(&mut self, start: &str, end: &str)
        requires
            old(self).wf(),
        ensures
            final(self).wf(),
            final(self)@ == with_tables(old(self)@, kept(old(self)@.tables, start@, end@)),
    {
        let ghost tv = self@.tables;
        let n = self.sstables.len();
        let mut out: Vec<SSTable> = Vec::new();
        assert(tv.take(0) =~= Seq::<TableView>::empty());
        assert(table_views(out@) =~= Seq::<TableView>::empty());
        for i in 0..n
            invariant
                tables_wf(self.sstables@),
                tables_wf(out@),
                tv.len() == n,
                self.sstables@.len() == n - i,
                self.level_num == old(self).level_num,
                self.max_bytes == old(self).max_bytes,
                self.l0_threshold == old(self).l0_threshold,
                self.is_terminal == old(self).is_terminal,
                forall|j: int| 0 <= j < n - i ==> (#[trigger] self.sstables@[j])@ == tv[i + j],
                table_views(out@) == kept(tv.take(i as int), start@, end@),
        {
            let ghost before = self.sstables@;
            let t = self.sstables.remove(0);
            assert(before[0]@ == tv[i + 0]);
            assert(tv.take(i + 1).drop_last() =~= tv.take(i as int));
            if !table_overlaps(&t, start, end) {
                let ghost views = table_views(out@);
                let ghost tt = t@;
                out.push(t);
                assert(table_views(out@) =~= views.push(tt));
            }
            assert forall|j: int| 0 <= j < n - i - 1 implies (#[trigger] self.sstables@[j])@
                == tv[i + 1 + j] by {
                assert(self.sstables@[j] == before[j + 1]);
                assert(before[j + 1]@ == tv[i + (j + 1)]);
            }
        }
        assert(tv.take(n as int) =~= tv);
        self.sstables = out;
    }

    /// Takes the tables out and merges them into one, which it returns.
    pub fn squash(&mut self, dir: &mut Directory, db_name: &str, now: Clock) -> (r: Result<
        Option<SSTable>,
        StoreError,
    >)
        requires
            old(self).wf(),
            old(dir).wf(),
        ensures
            final(self).wf(),
            final(dir).wf(),
            final(dir).base() == old(dir).base(),
            ({
                let (after, l, t) = squashed(old(dir)@, old(self)@, db_name@, now);
                &&& final(dir)@ == after
                &&& final(self)@ == l
                &&& match r {
                    Ok(Some(sst)) => {
                        &&& sst.wf()
                        &&& t == Ok::<Option<TableView>, StoreError>(Some(sst@))
                    },
                    Ok(None) => t == Ok::<Option<TableView>, StoreError>(None),
                    Err(e) => t == Err::<Option<TableView>, StoreError>(e),
                }
            }),
    {
        if self.sstables.is_empty() {
            assert(self@.tables.len() == 0);
            return Ok(None);
        }
        assert(self@.tables.len() == self.sstables@.len());
        let mut entries = {
            let tables = self.iter();
            match collect(dir, &tables) {
                Ok(m) => m,
                Err(e) => {
                    return Err(e);
                },
            }
        };
        self.sstables = Vec::new();
        assert(table_views(self.sstables@) =~= Seq::<TableView>::empty());
        if self.is_terminal {
            sweep(&mut entries, now.ms);
        }
        proof {
            entries.lemma_keys();
        }
        match SSTable::from_entries(dir, db_name, &entries, Some(self.level_num), now.ns) {
            Ok(sst) => Ok(Some(sst)),
            Err(e) => Err(e),
        }
    }
}

/// What the levels of a vector are.
pub open spec fn level_views(v: Seq<Level>) -> Seq<LevelView> {
    v.map_values(|l: Level| l@)
}

/// Merges a level into another one, which it comes before.
fn merge_into(
    source: &mut Level,
    target: &mut Level,
    dir: &mut Directory,
    db_name: &str,
    now: Clock,
) -> (r: Result<(), StoreError>)
    requires
        old(source).wf(),
        old(target).wf(),
        old(dir).wf(),
    ensures
        final(source).wf(),
        final(target).wf(),
        final(dir).wf(),
        final(dir).base() == old(dir).base(),
        (final(dir)@, final(source)@, final(target)@, failure(r)) == merged_down(
            old(dir)@,
            old(source)@,
            old(target)@,
            db_name@,
            now,
        ),
{
    let (start, end) = match source.key_range() {
        Some((a, b)) => (a, b),
        None => {
            return Ok(());
        },
    };
    let mut paths: Vec<String> = Vec::new();
    let mut entries: StringMap<MemtableEntry> = StringMap::new();
    let ghost overlap_views = tables_for_range(target@.tables, start@, end@);
    let ghost list = source@.tables.reverse() + overlap_views;
    {
        let overlap = target.overlapping_files(start.as_str(), end.as_str());
        let mut tables = source.iter();
        let ghost front = source@.tables.reverse();
        assert(front + overlap_views.take(0) =~= front);
        for i in 0..overlap.len()
            invariant
                ref_views(overlap@) == overlap_views,
                ref_views(tables@) == front + overlap_views.take(i as int),
        {
            let ghost before = ref_views(tables@);
            let t = overlap[i];
            assert(overlap_views[i as int] == t@);
            tables.push(t);
            assert(ref_views(tables@) =~= before.push(t@));
            assert(before.push(t@) =~= front + overlap_views.take(i + 1));
        }
        assert(overlap_views.take(overlap@.len() as int) =~= overlap_views);
        assert(ref_views(tables@) == list);
        match merge_tables(&mut entries, dir, &tables) {
            Ok(_) => {},
            Err(e) => {
                return Err(e);
            },
        }
        push_paths(&mut paths, &overlap);
        let all = source.refs();
        push_paths(&mut paths, &all);
    }
    assert(string_views(paths@) =~= paths_of(overlap_views + source@.tables));
    if target.is_terminal {
        sweep(&mut entries, now.ms);
    }
    let sst = match SSTable::from_entries(dir, db_name, &entries, Some(target.level_num), now.ns) {
        Ok(t) => t,
        Err(e) => {
            return Err(e);
        },
    };
    target.retain(start.as_str(), end.as_str());
    target.append(sst);
    remove_files(dir, &paths);
    source.sstables = Vec::new();
    assert(table_views(source.sstables@) =~= Seq::<TableView>::empty());
    Ok(())
}

/// The error of a result.
pub open spec fn failure<T>(r: Result<T, StoreError>) -> Option<StoreError> {
    match r {
        Ok(_) => None,
        Err(e) => Some(e),
    }
}

/// Tables in levels.
pub struct Leveled {
    levels: Vec<Level>,
}

impl Leveled {
    /// The levels, with their tables.
    pub closed spec fn levels(&self) -> Seq<LevelView> {
        level_views(self.levels@)
    }

    closed spec fn inv(&self) -> bool {
        &&& forall|i: int| 0 <= i < self.levels@.len() ==> (#[trigger] self.levels@[i]).wf()
        &&& numbered(self.levels())
    }

    /// Levels without tables. The second one may hold `l1_max_bytes`, and each after
    /// it ten times as much as the one before.
    pub fn new(num_levels: usize, l0_threshold: usize, l1_max_bytes: u64) -> (s: Self)
        requires
            limits_fit(num_levels, l1_max_bytes),
        ensures
            s.wf(),
            s.levels() == empty_levels(num_levels, l0_threshold, l1_max_bytes),
            s.tables() == Seq::<TableView>::empty(),
            num_levels > 0 ==> s.ready(),
    {
        let mut levels: Vec<Level> = Vec::new();
        let ghost all = empty_levels(num_levels, l0_threshold, l1_max_bytes);
        let mut factor: u64 = 1;
        for i in 0..num_levels
            invariant
                limits_fit(num_levels, l1_max_bytes),
                all == empty_levels(num_levels, l0_threshold, l1_max_bytes),
                i < num_levels ==> factor == level_factor(i as int),
                levels@.len() == i,
                forall|j: int| 0 <= j < i ==> (#[trigger] levels@[j]).wf() && levels@[j]@ == all[j],
        {
            assert(level_factor(i as int) <= u64::MAX && l1_max_bytes * level_factor(i as int)
                <= u64::MAX);
            let level = Level {
                sstables: Vec::new(),
                level_num: i,
                max_bytes: l1_max_bytes * factor,
                l0_threshold,
                is_terminal: i == num_levels - 1,
            };
            assert(level@.tables =~= Seq::<TableView>::empty());
            levels.push(level);
            if i > 0 && i < num_levels - 1 {
                assert(level_factor(i + 1) <= u64::MAX);
                assert(ten_to(i as nat) == 10 * ten_to((i - 1) as nat));
                assert(ten_to(0) == 1);
                factor = factor * 10;
            }
        }
        let s = Leveled { levels };
        assert(s.levels() =~= all);
        proof {
            assert forall|j: int| 0 <= j < all.len() implies (#[trigger] all[j]).tables.len()
                == 0 by {}
            lemma_stacked_empty(all);
        }
        s
    }

    /// The tables of `db_name` in a directory, the oldest first, each put in the level
    /// that its name gives: without a level in the first one, with one that is not
    /// there in the last.
    pub fn load_from_dir(
        dir: &Directory,
        db_name: &str,
        num_levels: usize,
        l0_threshold: usize,
        l1_max_bytes: u64,
    ) -> (r: Result<Self, StoreError>)
        requires
            dir.wf(),
            limits_fit(num_levels, l1_max_bytes),
            num_levels > 0 || found_tables(keys_in_order(dir@), db_name@).len() == 0,
        ensures
            ({
                let found = rebuilt_all(dir@, found_tables(keys_in_order(dir@), db_name@));
                match r {
                    Ok(s) => {
                        &&& s.wf()
                        &&& num_levels > 0 ==> s.ready()
                        &&& found is Ok
                        &&& s.levels() == placed(
                            empty_levels(num_levels, l0_threshold, l1_max_bytes),
                            found->Ok_0,
                        )
                    },
                    Err(e) => found == Err::<Seq<TableView>, StoreError>(e),
                }
            }),
    {
        let mut tables = match get_sstables(dir, db_name) {
            Ok(v) => v,
            Err(e) => {
                return Err(e);
            },
        };
        let ghost tv = table_views(tables@);
        let mut s = Leveled::new(num_levels, l0_threshold, l1_max_bytes);
        let ghost start = s.levels();
        let n = tables.len();
        assert(tv.take(0) =~= Seq::<TableView>::empty());
        proof {
            lemma_rebuilt_present(dir@, found_tables(keys_in_order(dir@), db_name@));
        }
        for i in 0..n
            invariant
                s.wf(),
                s.levels().len() == num_levels,
                start.len() == num_levels,
                n > 0 ==> num_levels > 0,
                tables_wf(tables@),
                tv.len() == n,
                tables@.len() == n - i,
                forall|j: int| 0 <= j < n - i ==> (#[trigger] tables@[j])@ == tv[i + j],
                s.levels() == placed(start, tv.take(i as int)),
        {
            let ghost before = tables@;
            assert(s.levels().len() == s.levels@.len());
            let table = tables.remove(0);
            assert(before[0]@ == tv[i + 0]);
            assert(tv.take(i + 1).drop_last() =~= tv.take(i as int));
            let wanted: usize = match table.get_level() {
                Some(l) => l,
                None => 0,
            };
            let home: usize = if wanted < num_levels {
                wanted
            } else {
                num_levels - 1
            };
            assert(home == home_level(table@, start.len()));
            s.put(home, table);
            assert forall|j: int| 0 <= j < n - i - 1 implies (#[trigger] tables@[j])@ == tv[i + 1
                + j] by {
                assert(tables@[j] == before[j + 1]);
                assert(before[j + 1]@ == tv[i + (j + 1)]);
            }
        }
        assert(tv.take(n as int) =~= tv);
        Ok(s)
    }

    /// Adds a table to a level.
    fn put(&mut self, i: usize, table: SSTable)
        requires
            old(self).wf(),
            i < old(self).levels@.len(),
            table.wf(),
        ensures
            final(self).wf(),
            final(self).levels() == old(self).levels().update(
                i as int,
                with_tables(
                    old(self).levels()[i as int],
                    old(self).levels()[i as int].tables.push(table@),
                ),
            ),
    {
        let ghost before = self.levels@;
        let ghost ls = self.levels();
        let ghost t = table@;
        let mut level = self.levels.remove(i);
        assert(before[i as int].wf());
        assert(ls[i as int] == before[i as int]@);
        level.append(table);
        self.put_back(i, level, Ghost(before));
        assert(self.levels() =~= ls.update(
            i as int,
            with_tables(ls[i as int], ls[i as int].tables.push(t)),
        ));
    }

    /// Puts a level back to where it was taken from.
    fn put_back(&mut self, i: usize, level: Level, Ghost(before): Ghost<Seq<Level>>)
        requires
            i < before.len(),
            old(self).levels@ == before.remove(i as int),
            forall|j: int| 0 <= j < before.len() ==> (#[trigger] before[j]).wf(),
            numbered(level_views(before)),
            level.wf(),
            level@ == with_tables(before[i as int]@, level@.tables),
        ensures
            final(self).levels@ == before.update(i as int, level),
            final(self).inv(),
            final(self).levels() == level_views(before).update(i as int, level@),
    {
        self.levels.insert(i, level);
        assert(self.levels@ =~= before.update(i as int, level));
        assert(self.levels() =~= level_views(before).update(i as int, level@));
        assert forall|j: int| 0 <= j < self.levels@.len() implies (#[trigger] self.levels@[j]).wf() by {
            if j != i {
                assert(before[j].wf());
            }
        }
        assert forall|j: int| 0 <= j < self.levels().len() implies (
        #[trigger] self.levels()[j]).level_num == j && self.levels()[j].is_terminal == (j
            == self.levels().len() - 1) by {
            assert(level_views(before)[j].level_num == j);
        }
    }

    /// Merges a level into one that comes after it.
    pub fn compact_levels(
        &mut self,
        level_ids: (usize, usize),
        dir: &mut Directory,
        db_name: &str,
        now: Clock,
    ) -> (r: Result<(), StoreError>)
        requires
            old(self).wf(),
            old(dir).wf(),
        ensures
            final(self).wf(),
            final(dir).wf(),
            final(dir).base() == old(dir).base(),
            ({
                let (source, target) = level_ids;
                let n = old(self).levels().len();
                if source >= n || target >= n {
                    &&& r == Err::<(), StoreError>(
                        StoreError::LevelOutOfBounds {
                            source,
                            target,
                            max: if n == 0 {
                                0
                            } else {
                                (n - 1) as usize
                            },
                        },
                    )
                    &&& *final(self) == *old(self)
                    &&& *final(dir) == *old(dir)
                } else if source >= target {
                    &&& r == Err::<(), StoreError>(StoreError::LevelOrder { source, target })
                    &&& *final(self) == *old(self)
                    &&& *final(dir) == *old(dir)
                } else {
                    let (after, s, t, end) = merged_down(
                        old(dir)@,
                        old(self).levels()[source as int],
                        old(self).levels()[target as int],
                        db_name@,
                        now,
                    );
                    &&& final(dir)@ == after
                    &&& final(self).levels() == old(self).levels().update(source as int, s).update(
                        target as int,
                        t,
                    )
                    &&& failure(r) == end
                }
            }),
    {
        let (source_id, target_id) = level_ids;
        assert(self.levels().len() == self.levels@.len());
        if source_id >= self.levels.len() || target_id >= self.levels.len() {
            return Err(
                StoreError::LevelOutOfBounds {
                    source: source_id,
                    target: target_id,
                    max: self.levels.len().saturating_sub(1),
                },
            );
        }
        if source_id >= target_id {
            return Err(StoreError::LevelOrder { source: source_id, target: target_id });
        }
        let ghost before = self.levels@;
        let ghost ls = self.levels();
        let mut target = self.levels.remove(target_id);
        let ghost middle = self.levels@;
        let mut source = self.levels.remove(source_id);
        assert(before[source_id as int].wf());
        assert(before[target_id as int].wf());
        assert(ls[source_id as int] == before[source_id as int]@);
        assert(ls[target_id as int] == before[target_id as int]@);
        let r = merge_into(&mut source, &mut target, dir, db_name, now);
        self.levels.insert(source_id, source);
        let ghost half = before.update(source_id as int, source);
        assert(self.levels@ =~= half.remove(target_id as int));
        assert(level_views(half) =~= ls.update(source_id as int, source@));
        assert forall|j: int| 0 <= j < half.len() implies (#[trigger] half[j]).wf() by {
            if j != source_id {
                assert(before[j].wf());
            }
        }
        assert forall|j: int| 0 <= j < level_views(half).len() implies (
        #[trigger] level_views(half)[j]).level_num == j && level_views(half)[j].is_terminal == (j
            == level_views(half).len() - 1) by {
            assert(ls[j].level_num == j);
        }
        self.put_back(target_id, target, Ghost(half));
        r
    }

    /// Compacts a level: the last one in itself, another one into the next.
    fn step(&mut self, i: usize, dir: &mut Directory, db_name: &str, now: Clock) -> (r: Result<
        (),
        StoreError,
    >)
        requires
            old(self).wf(),
            old(dir).wf(),
            i < old(self).levels().len(),
        ensures
            final(self).wf(),
            final(dir).wf(),
            final(dir).base() == old(dir).base(),
            (final(dir)@, final(self).levels(), failure(r)) == stepped(
                old(dir)@,
                old(self).levels(),
                i as int,
                db_name@,
                now,
            ),
            final(self).levels().len() == old(self).levels().len(),
    {
        let ghost before = self.levels@;
        let ghost ls = self.levels();
        assert(ls[i as int] == before[i as int]@);
        assert(ls[i as int].is_terminal == (i == ls.len() - 1));
        if self.levels[i].is_terminal {
            self.squash_level(i, dir, db_name, now)
        } else {
            let n = self.levels.len();
            assert(i + 1 < n);
            self.compact_levels((i, i + 1), dir, db_name, now)
        }
    }

    /// Merges the tables of a level into one.
    fn squash_level(
        &mut self,
        i: usize,
        dir: &mut Directory,
        db_name: &str,
        now: Clock,
    ) -> (r: Result<(), StoreError>)
        requires
            old(self).wf(),
            old(dir).wf(),
            i < old(self).levels().len(),
        ensures
            final(self).wf(),
            final(dir).wf(),
            final(dir).base() == old(dir).base(),
            ({
                let (after, l, t) = squashed(
                    old(dir)@,
                    old(self).levels()[i as int],
                    db_name@,
                    now,
                );
                &&& final(dir)@ == after
                &&& match t {
                    Err(e) => {
                        &&& r == Err::<(), StoreError>(e)
                        &&& final(self).levels() == old(self).levels().update(i as int, l)
                    },
                    Ok(None) => {
                        &&& r == Ok::<(), StoreError>(())
                        &&& final(self).levels() == old(self).levels().update(i as int, l)
                    },
                    Ok(Some(t)) => {
                        &&& r == Ok::<(), StoreError>(())
                        &&& final(self).levels() == old(self).levels().update(
                            i as int,
                            with_tables(l, l.tables.push(t)),
                        )
                    },
                }
            }),
    {
        let ghost before = self.levels@;
        let ghost ls = self.levels();
        assert(ls[i as int] == before[i as int]@);
        let mut level = self.levels.remove(i);
        assert(before[i as int].wf());
        match level.squash(dir, db_name, now) {
            Err(e) => {
                self.put_back(i, level, Ghost(before));
                Err(e)
            },
            Ok(None) => {
                self.put_back(i, level, Ghost(before));
                Ok(())
            },
            Ok(Some(sst)) => {
                level.append(sst);
                self.put_back(i, level, Ghost(before));
                Ok(())
            },
        }
    }
}

impl CompactionStrategy for Leveled {
    closed spec fn wf(&self) -> bool {
        self.inv()
    }

    open spec fn tables(&self) -> Seq<TableView> {
        stacked(self.levels())
    }

    open spec fn ready(&self) -> bool {
        self.levels().len() > 0
    }

    open spec fn arranged(&self, files: Files) -> bool {
        well_arranged(files, self.levels())
    }

    proof fn lemma_arranged(&self, a: Files, b: Files) {
        lemma_arranged_same(a, b, self.levels());
    }

    open spec fn add_error(&self, files: Files, t: TableView) -> Option<StoreError> {
        if self.levels().len() == 0 {
            Some(StoreError::NoLevels)
        } else {
            None
        }
    }

    open spec fn added(&self, files: Files, t: TableView, after: Self) -> bool {
        after.levels() == self.levels().update(
            0,
            with_tables(self.levels()[0], self.levels()[0].tables.push(t)),
        )
    }

    proof fn lemma_add_error(&self, files: Files, t: TableView) {
    }

    open spec fn step_done(
        &self,
        files: Files,
        db_name: Seq<char>,
        now: Clock,
        after: Self,
        left: Files,
        r: Result<bool, StoreError>,
    ) -> bool {
        match due_level(files, self.levels(), 0) {
            Err(e) => {
                &&& r == Err::<bool, StoreError>(e)
                &&& after.levels() == self.levels()
                &&& left == files
            },
            Ok(None) => {
                &&& r == Ok::<bool, StoreError>(false)
                &&& after.levels() == self.levels()
                &&& left == files
            },
            Ok(Some(i)) => {
                let (rest, ls, end) = stepped(files, self.levels(), i, db_name, now);
                &&& left == rest
                &&& after.levels() == ls
                &&& match r {
                    Ok(ran) => ran && end is None,
                    Err(e) => end == Some(e),
                }
            },
        }
    }

    open spec fn all_done(
        &self,
        files: Files,
        db_name: Seq<char>,
        now: Clock,
        after: Self,
        left: Files,
        r: Result<(), StoreError>,
    ) -> bool {
        (left, after.levels(), failure(r)) == steps(
            files,
            self.levels(),
            self.levels().len(),
            db_name,
            now,
        )
    }

    fn add_sstable(&mut self, dir: &Directory, sst: SSTable) -> (r: Result<(), StoreError>)
        ensures
            if old(self).levels().len() == 0 {
                &&& r == Err::<(), StoreError>(StoreError::NoLevels)
                &&& *final(self) == *old(self)
            } else {
                r is Ok
            },
    {
        assert(self.levels().len() == self.levels@.len());
        if self.levels.len() == 0 {
            return Err(StoreError::NoLevels);
        }
        let ghost ls = self.levels();
        let ghost t = sst@;
        self.put(0, sst);
        proof {
            lemma_stacked_front(ls, t);
            lemma_stacked_added(dir@, ls, t);
        }
        Ok(())
    }

    fn compact_if_needed(&mut self, dir: &mut Directory, db_name: &str, now: Clock) -> (r: Result<
        bool,
        StoreError,
    >)
    {
        let ghost ls = self.levels();
        let ghost files = dir@;
        assert(ls.len() == self.levels@.len());
        let mut i: usize = 0;
        while i < self.levels.len()
            invariant_except_break
                i <= self.levels@.len(),
                due_level(files, ls, 0) == due_level(files, ls, i as int),
            invariant
                dir.wf(),
                self.wf(),
                *self == *old(self),
                *dir == *old(dir),
                files == dir@,
                ls == level_views(self.levels@),
            ensures
                i < self.levels@.len() ==> due_level(files, ls, 0) == Ok::<
                    Option<int>,
                    StoreError,
                >(Some(i as int)),
                i >= self.levels@.len() ==> due_level(files, ls, 0) == Ok::<
                    Option<int>,
                    StoreError,
                >(None),
            decreases self.levels@.len() - i,
        {
            assert(ls[i as int] == self.levels@[i as int]@);
            match self.levels[i].needs_compaction(dir) {
                Err(e) => {
                    proof {
                        if in_order(files, stacked(ls)) {
                            lemma_level_present(files, ls, i as int);
                        }
                    }
                    return Err(e);
                },
                Ok(true) => {
                    break;
                },
                Ok(false) => {},
            }
            i = i + 1;
        }
        if i >= self.levels.len() {
            return Ok(false);
        }
        proof {
            lemma_step_frame(files, ls, i as int, db_name@, now);
        }
        let r = self.step(i, dir, db_name, now);
        proof {
            dir.lemma_sizes();
            let good = in_order(files, stacked(ls)) && well_arranged(files, ls) && unused(
                files,
                db_name@,
                now.ns,
            );
            if good {
                lemma_one_step(files, ls, i as int, db_name@, now);
            }
            assert forall|f: Seq<char>|
                !has_path(stacked(ls), f) && !is_table_of(f, db_name@, now.ns) implies (
            #[trigger] dir@.contains_key(f) <==> files.contains_key(f)) && content(dir@, f)
                == content(files, f) by {
                assert(same_file(files, dir@, f));
            }
            assert forall|k: Seq<char>| good implies #[trigger] lookup(
                unexpired(live(layered(dir@, stacked(self.levels()))), now.ms),
                k,
            ) == lookup(unexpired(live(layered(files, stacked(ls))), now.ms), k) by {
                assert(seen(layered(dir@, stacked(self.levels())), now.ms, k) == seen(
                    layered(files, stacked(ls)),
                    now.ms,
                    k,
                ));
            }
        }
        match r {
            Ok(_) => Ok(true),
            Err(e) => Err(e),
        }
    }

    fn compact_all(&mut self, dir: &mut Directory, db_name: &str, now: Clock) -> (r: Result<
        (),
        StoreError,
    >)
        ensures
            compactable_levels(old(dir)@, old(self).levels(), db_name@, now) ==> {
                &&& final(self).levels().len() == old(self).levels().len()
                &&& forall|i: int|
                    0 <= i < final(self).levels().len() - 1 ==> lowest(
                        (#[trigger] final(self).levels()[i]).tables,
                    ) is None
                &&& final(self).levels().last().tables.len() <= 1
            },
    {
        let ghost ls = self.levels();
        let ghost files = dir@;
        let n = self.levels.len();
        assert(ls.len() == n);
        proof {
            lemma_progress_start(files, ls, db_name@, now);
        }
        for i in 0..n
            invariant
                dir.wf(),
                self.wf(),
                dir.base() == old(dir).base(),
                n == ls.len(),
                files == old(dir)@,
                ls == old(self).levels(),
                self.levels().len() == n,
                steps(files, ls, i as nat, db_name@, now) == (
                    dir@,
                    self.levels(),
                    None::<StoreError>,
                ),
                progress(files, ls, dir@, self.levels(), i as int, db_name@, now),
        {
            let ghost cur = self.levels();
            let ghost cur_files = dir@;
            let r = self.step(i, dir, db_name, now);
            proof {
                dir.lemma_sizes();
                lemma_progress_step(files, ls, cur_files, cur, i as int, db_name@, now);
            }
            match r {
                Ok(_) => {},
                Err(e) => {
                    proof {
                        lemma_steps_stop(files, ls, (i + 1) as nat, n as nat, db_name@, now);
                    }
                    return Err(e);
                },
            }
        }
        proof {
            lemma_progress_end(files, ls, dir@, self.levels(), db_name@, now);
        }
        Ok(())
    }

    fn iter_for_key<'a>(&'a self, key: &str) -> (v: Vec<&'a SSTable>) {
        select_for_key(self.iter_all(), key)
    }

    fn iter_files_for_range<'a>(&'a self, start: &str, end: &str) -> (v: Vec<&'a SSTable>) {
        select_for_range(self.iter_all(), start, end)
    }

    fn iter_all<'a>(&'a self) -> (v: Vec<&'a SSTable>) {
        let ghost ls = self.levels();
        let mut out: Vec<&'a SSTable> = Vec::new();
        assert(ref_views(out@) =~= Seq::<TableView>::empty());
        assert(ls.take(0) =~= Seq::<LevelView>::empty());
        for i in 0..self.levels.len()
            invariant
                self.wf(),
                ls == level_views(self.levels@),
                refs_wf(out@),
                ref_views(out@) == stacked(ls.take(i as int)),
        {
            assert(ls[i as int] == self.levels@[i as int]@);
            assert(self.levels@[i as int].wf());
            assert(ls.take(i + 1).drop_last() =~= ls.take(i as int));
            let part = self.levels[i].iter();
            let ghost pv = ref_views(part@);
            let ghost front = ref_views(out@);
            assert(front + pv.take(0) =~= front);
            for j in 0..part.len()
                invariant
                    refs_wf(out@),
                    refs_wf(part@),
                    pv == ref_views(part@),
                    ref_views(out@) == front + pv.take(j as int),
            {
                let ghost b = ref_views(out@);
                let t = part[j];
                assert(part@[j as int].wf());
                assert(pv[j as int] == t@);
                out.push(t);
                assert(ref_views(out@) =~= b.push(t@));
                assert(b.push(t@) =~= front + pv.take(j + 1));
            }
            assert(pv.take(part@.len() as int) =~= pv);
        }
        assert(ls.take(self.levels@.len() as int) =~= ls);
        out
    }

    fn segment_count(&self) -> (n: usize) {
        let all = self.iter_all();
        assert(ref_views(all@).len() == all@.len());
        all.len()
    }
}

} // verus!
