//! Size-tiered compaction: tables of about the same size are merged.

use vstd::prelude::*;

use crate::compaction::{
    collect, collected, distinct_paths, has_path, in_order, is_table_of, layered,
    lemma_collected, lemma_collected_files, lemma_distinct_back, lemma_distinct_front,
    lemma_layered_one, lemma_layered_same, lemma_live_swept, lemma_merged, lemma_swept_writable,
    live, merge_tables, merged, names_table, older, ref_views, refs_wf, registered,
    select_for_key, select_for_range, sweep, swept, tellable, unused, CompactionStrategy,
    Entries,
};
use crate::directory::{content, Directory, Files};
use crate::engine::{unexpired, Clock};
use crate::error::StoreError;
use crate::leveled::{push_paths, remove_files};
use crate::levels::{lemma_paths_of, paths_of, without_files};
use crate::memtable::{entry_record, EntryView, MemtableEntry};
use crate::record::within_limits;
use crate::sstable::{
    found_tables, get_sstables, lemma_parse_table_filename, lemma_rebuilt_present,
    lemma_written_table, lookup, parse_table, rebuilt_all, table_bytes, table_entries,
    table_filename, table_valid, table_views, tables_wf, writable, written_table, SSTable,
    TableId, TableView,
};
use crate::sorted_map::{keys_in_order, orderable, StringMap};
use crate::text::string_views;
use crate::utils::{expired, has_expired};

verus! {

/// The tables with `x` put in before the first one that is not newer.
pub open spec fn insert_newest(s: Seq<TableView>, x: TableView) -> Seq<TableView>
    decreases s.len(),
{
    if s.len() == 0 || s[0].id.timestamp <= x.id.timestamp {
        seq![x] + s
    } else {
        seq![s[0]] + insert_newest(s.drop_first(), x)
    }
}

/// The tables, the newest first; of those with the same timestamp, the one that
/// comes last.
pub open spec fn newest_first(s: Seq<TableView>) -> Seq<TableView>
    decreases s.len(),
{
    if s.len() == 0 {
        s
    } else {
        insert_newest(newest_first(s.drop_last()), s.last())
    }
}

/// The tables of all buckets, one bucket after the other.
pub open spec fn flat(buckets: Seq<Seq<TableView>>) -> Seq<TableView>
    decreases buckets.len(),
{
    if buckets.len() == 0 {
        Seq::empty()
    } else {
        flat(buckets.drop_last()) + buckets.last()
    }
}

proof fn lemma_insert_newest(s: Seq<TableView>, x: TableView)
    ensures
        insert_newest(s, x).len() == s.len() + 1,
        forall|y: TableView| #[trigger] insert_newest(s, x).contains(y) <==> s.contains(y) || y == x,
    decreases s.len(),
{
    let r = insert_newest(s, x);
    if s.len() == 0 || s[0].id.timestamp <= x.id.timestamp {
        assert forall|y: TableView| #[trigger] r.contains(y) <==> s.contains(y) || y == x by {
            if r.contains(y) {
                let i = r.index_of(y);
                if i > 0 {
                    assert(s[i - 1] == y);
                }
            }
            if s.contains(y) {
                assert(r[s.index_of(y) + 1] == y);
            }
            if y == x {
                assert(r[0] == y);
            }
        }
    } else {
        let rest = s.drop_first();
        let t = insert_newest(rest, x);
        lemma_insert_newest(rest, x);
        assert forall|y: TableView| #[trigger] r.contains(y) <==> s.contains(y) || y == x by {
            if r.contains(y) {
                let i = r.index_of(y);
                if i > 0 {
                    assert(t[i - 1] == y);
                    assert(t.contains(y));
                    if rest.contains(y) {
                        assert(s[rest.index_of(y) + 1] == y);
                    }
                } else {
                    assert(s[0] == y);
                }
            }
            if s.contains(y) {
                let i = s.index_of(y);
                if i > 0 {
                    assert(rest[i - 1] == y);
                    assert(t.contains(y));
                    assert(r[t.index_of(y) + 1] == y);
                } else {
                    assert(r[0] == y);
                }
            }
            if y == x {
                assert(t.contains(y));
                assert(r[t.index_of(y) + 1] == y);
            }
        }
    }
}

/// Putting tables in order leaves which they are.
pub proof fn lemma_newest_first(s: Seq<TableView>)
    ensures
        newest_first(s).len() == s.len(),
        forall|y: TableView| #[trigger] newest_first(s).contains(y) <==> s.contains(y),
    decreases s.len(),
{
    if s.len() > 0 {
        let init = s.drop_last();
        lemma_newest_first(init);
        lemma_insert_newest(newest_first(init), s.last());
        assert forall|y: TableView| #[trigger] newest_first(s).contains(y) <==> s.contains(y) by {
            if s.contains(y) {
                let i = s.index_of(y);
                if i < init.len() {
                    assert(init[i] == y);
                    assert(init.contains(y));
                    assert(newest_first(init).contains(y));
                }
            }
            if init.contains(y) {
                assert(s[init.index_of(y)] == y);
            }
            if newest_first(init).contains(y) {
                assert(init.contains(y));
            }
            if y == s.last() {
                assert(s[s.len() - 1] == y);
            }
        }
    }
}

/// A table that is newer than all others comes first, wherever it was added.
proof fn lemma_newest_added(a: Seq<TableView>, x: TableView, b: Seq<TableView>)
    requires
        forall|i: int| 0 <= i < a.len() ==> (#[trigger] a[i]).id.timestamp < x.id.timestamp,
        forall|i: int| 0 <= i < b.len() ==> (#[trigger] b[i]).id.timestamp < x.id.timestamp,
    ensures
        newest_first(a + seq![x] + b) == seq![x] + newest_first(a + b),
    decreases b.len(),
{
    if b.len() == 0 {
        assert(a + seq![x] + b =~= a.push(x));
        assert(a.push(x).drop_last() =~= a);
        assert(a + b =~= a);
        lemma_newest_first(a);
        let n = newest_first(a);
        if n.len() > 0 {
            assert(n.contains(n[0]));
            assert(a.contains(n[0]));
            assert(a[a.index_of(n[0])] == n[0]);
        }
    } else {
        let y = b.last();
        let c = b.drop_last();
        assert((a + seq![x] + b).drop_last() =~= a + seq![x] + c);
        assert((a + b).drop_last() =~= a + c);
        assert forall|i: int| 0 <= i < c.len() implies (#[trigger] c[i]).id.timestamp
            < x.id.timestamp by {
            assert(c[i] == b[i]);
        }
        lemma_newest_added(a, x, c);
        let n = newest_first(a + c);
        assert(b[b.len() - 1].id.timestamp < x.id.timestamp);
        assert((seq![x] + n).drop_first() =~= n);
        assert((seq![x] + n)[0] == x);
        assert(insert_newest(seq![x] + n, y) == seq![x] + insert_newest(n, y));
    }
}

/// The bytes of some tables together.
pub open spec fn total_of(sizes: Seq<nat>) -> nat
    decreases sizes.len(),
{
    if sizes.len() == 0 {
        0
    } else {
        total_of(sizes.drop_last()) + sizes.last()
    }
}

/// Whether a table of `size` bytes belongs to tables of these sizes: it has at
/// least half and at most one and a half times their average.
pub open spec fn fits_tier(sizes: Seq<nat>, size: nat) -> bool {
    let product = size * sizes.len();
    sizes.len() > 0 && size > 0 && total_of(sizes) <= 2 * product && 2 * product <= 3 * total_of(
        sizes,
    )
}

/// How far the average of some sizes is from `size`, times their number.
pub open spec fn tier_distance(sizes: Seq<nat>, size: nat) -> nat {
    let product = size * sizes.len();
    if total_of(sizes) >= product {
        (total_of(sizes) - product) as nat
    } else {
        (product - total_of(sizes)) as nat
    }
}

/// Whether the average of the first sizes is closer to `size` than that of the
/// second.
pub open spec fn closer_tier(a: Seq<nat>, b: Seq<nat>, size: nat) -> bool {
    tier_distance(a, size) * b.len() < tier_distance(b, size) * a.len()
}

/// The bucket that a table of `size` bytes belongs to: the one whose average size
/// is the closest, of those that it belongs to at all.
pub open spec fn tier_of(buckets: Seq<Seq<nat>>, size: nat) -> Option<int>
    decreases buckets.len(),
{
    if buckets.len() == 0 {
        None
    } else {
        let best = tier_of(buckets.drop_last(), size);
        let i = buckets.len() - 1;
        if fits_tier(buckets[i], size) && (match best {
            Some(j) => closer_tier(buckets[i], buckets[j], size),
            None => true,
        }) {
            Some(i)
        } else {
            best
        }
    }
}

proof fn lemma_tier_bound(buckets: Seq<Seq<nat>>, size: nat)
    ensures
        match tier_of(buckets, size) {
            Some(i) => 0 <= i < buckets.len() && fits_tier(buckets[i], size),
            None => true,
        },
    decreases buckets.len(),
{
    if buckets.len() > 0 {
        lemma_tier_bound(buckets.drop_last(), size);
    }
}

/// The sizes of tables.
pub open spec fn sizes_of(files: Files, tables: Seq<TableView>) -> Seq<nat> {
    tables.map_values(|t: TableView| content(files, t.path).len())
}

/// The sizes of the tables of buckets.
pub open spec fn bucket_sizes(files: Files, buckets: Seq<Seq<TableView>>) -> Seq<Seq<nat>> {
    buckets.map_values(|b: Seq<TableView>| sizes_of(files, b))
}

/// The buckets after a table was added to one of them, or to a new one.
pub open spec fn with_table(
    buckets: Seq<Seq<TableView>>,
    tier: Option<int>,
    t: TableView,
) -> Seq<Seq<TableView>> {
    match tier {
        Some(i) => buckets.update(i, buckets[i].push(t)),
        None => buckets.push(seq![t]),
    }
}

/// Whether the file of every table of the buckets is there.
pub open spec fn all_present(files: Files, buckets: Seq<Seq<TableView>>) -> bool {
    forall|i: int, j: int|
        0 <= i < buckets.len() && 0 <= j < buckets[i].len() ==> files.contains_key(
            (#[trigger] buckets[i][j]).path,
        )
}

/// The buckets after tables were added one by one.
pub open spec fn tiered(files: Files, tables: Seq<TableView>) -> Seq<Seq<TableView>>
    decreases tables.len(),
{
    if tables.len() == 0 {
        Seq::empty()
    } else {
        let before = tiered(files, tables.drop_last());
        let size = content(files, tables.last().path).len();
        with_table(before, tier_of(bucket_sizes(files, before), size), tables.last())
    }
}

/// The first bucket that has as many tables as a threshold asks for.
pub open spec fn due_bucket(buckets: Seq<Seq<TableView>>, min: usize, max: usize, from: int) -> Option<
    int,
>
    decreases buckets.len() - from,
{
    if from < 0 || from >= buckets.len() {
        None
    } else if buckets[from].len() < min && buckets[from].len() < max {
        due_bucket(buckets, min, max, from + 1)
    } else {
        Some(from)
    }
}

/// What the tables of nested vectors are.
pub open spec fn nested_views(v: Seq<Vec<SSTable>>) -> Seq<Seq<TableView>> {
    v.map_values(|b: Vec<SSTable>| table_views(b@))
}

/// Tables in buckets of about the same size.
pub struct SizeTiered {
    sstables: Vec<Vec<SSTable>>,
    min_threshold: usize,
    max_threshold: usize,
}

/// Whether `a / b` is less than `c / d`.
fn fraction_lt(a: u128, b: u128, c: u128, d: u128) -> (r: bool)
    requires
        0 < b <= u64::MAX,
        0 < d <= u64::MAX,
    ensures
        r == (a * d < c * b),
{
    let q1: u128 = a / b;
    let r1: u128 = a % b;
    let q2: u128 = c / d;
    let r2: u128 = c % d;
    proof {
        let (a, b, c, d) = (a as int, b as int, c as int, d as int);
        let (q1, r1, q2, r2) = (q1 as int, r1 as int, q2 as int, r2 as int);
        vstd::arithmetic::div_mod::lemma_fundamental_div_mod(a, b);
        vstd::arithmetic::div_mod::lemma_fundamental_div_mod(c, d);
        assert(a * d - c * b == (q1 - q2) * (b * d) + (r1 * d - r2 * b)) by (nonlinear_arith)
            requires
                a == b * q1 + r1,
                c == d * q2 + r2,
        ;
        assert(0 <= r1 * d < b * d) by (nonlinear_arith)
            requires
                0 <= r1 < b,
                0 < d,
        ;
        assert(0 <= r2 * b < b * d) by (nonlinear_arith)
            requires
                0 <= r2 < d,
                0 < b,
        ;
        if q1 < q2 {
            assert((q1 - q2) * (b * d) <= -(b * d)) by (nonlinear_arith)
                requires
                    q1 - q2 <= -1,
                    0 < b * d,
            ;
        } else if q1 > q2 {
            assert((q1 - q2) * (b * d) >= b * d) by (nonlinear_arith)
                requires
                    q1 - q2 >= 1,
                    0 < b * d,
            ;
        } else {
            assert((q1 - q2) * (b * d) == 0) by (nonlinear_arith)
                requires
                    q1 == q2,
            ;
        }
        assert(r1 * d <= u64::MAX * u64::MAX) by (nonlinear_arith)
            requires
                0 <= r1 <= u64::MAX,
                0 <= d <= u64::MAX,
        ;
        assert(r2 * b <= u64::MAX * u64::MAX) by (nonlinear_arith)
            requires
                0 <= r2 <= u64::MAX,
                0 <= b <= u64::MAX,
        ;
    }
    if q1 < q2 {
        true
    } else if q1 > q2 {
        false
    } else {
        r1 * d < r2 * b
    }
}

impl SizeTiered {
    /// The tables of each bucket, in the order in which they were added.
    pub closed spec fn buckets(&self) -> Seq<Seq<TableView>> {
        nested_views(self.sstables@)
    }

    /// The number of tables that a bucket is merged at.
    pub closed spec fn thresholds(&self) -> (usize, usize) {
        (self.min_threshold, self.max_threshold)
    }

    closed spec fn inv(&self) -> bool {
        forall|i: int| 0 <= i < self.sstables@.len() ==> tables_wf((#[trigger] self.sstables@[i])@)
    }

    /// No buckets yet.
    pub fn new(min_threshold: usize, max_threshold: usize) -> (s: Self)
        ensures
            s.wf(),
            s.tables() == Seq::<TableView>::empty(),
            s.buckets() == Seq::<Seq<TableView>>::empty(),
            s.thresholds() == (min_threshold, max_threshold),
    {
        let s = SizeTiered { sstables: Vec::new(), min_threshold, max_threshold };
        assert(s.buckets() =~= Seq::<Seq<TableView>>::empty());
        assert(flat(s.buckets()) =~= Seq::<TableView>::empty());
        s
    }

    /// The tables of `db_name` in a directory, added one by one, the oldest first.
    pub fn load_from_dir(
        dir: &Directory,
        db_name: &str,
        min_threshold: usize,
        max_threshold: usize,
    ) -> (r: Result<Self, StoreError>)
        requires
            dir.wf(),
        ensures
            ({
                let found = rebuilt_all(dir@, found_tables(keys_in_order(dir@), db_name@));
                match r {
                    Ok(s) => {
                        &&& s.wf()
                        &&& s.thresholds() == (min_threshold, max_threshold)
                        &&& found is Ok
                        &&& s.buckets() == tiered(dir@, found->Ok_0)
                    },
                    Err(e) => found == Err::<Seq<TableView>, StoreError>(e),
                }
            }),
    {
        let mut tables = match get_sstables(dir, db_name) {
            Ok(v) => v,
            Err(e) => {
                return Err(e);
            },
        };
        let ghost tv = table_views(tables@);
        let mut s = SizeTiered::new(min_threshold, max_threshold);
        let n = tables.len();
        assert(tv.take(0) =~= Seq::<TableView>::empty());
        proof {
            lemma_rebuilt_present(dir@, found_tables(keys_in_order(dir@), db_name@));
        }
        for i in 0..n
            invariant
                dir.wf(),
                s.wf(),
                s.thresholds() == (min_threshold, max_threshold),
                tables_wf(tables@),
                tv.len() == n,
                tables@.len() == n - i,
                forall|j: int| 0 <= j < n - i ==> (#[trigger] tables@[j])@ == tv[i + j],
                forall|j: int| 0 <= j < n ==> dir@.contains_key((#[trigger] tv[j]).path),
                s.buckets() == tiered(dir@, tv.take(i as int)),
                all_present(dir@, s.buckets()),
        {
            let ghost before = tables@;
            let ghost bs = s.buckets();
            let table = tables.remove(0);
            assert(before[0]@ == tv[i + 0]);
            assert(dir@.contains_key(tv[i as int].path));
            assert(tv.take(i + 1).drop_last() =~= tv.take(i as int));
            let ghost t = table@;
            let r = s.add_sstable(dir, table);
            assert(r is Ok);
            proof {
                let size = content(dir@, t.path).len();
                lemma_tier_bound(bucket_sizes(dir@, bs), size);
                lemma_present_with(dir@, bs, tier_of(bucket_sizes(dir@, bs), size), t);
            }
            assert forall|j: int| 0 <= j < n - i - 1 implies (#[trigger] tables@[j])@ == tv[i + 1
                + j] by {
                assert(tables@[j] == before[j + 1]);
                assert(before[j + 1]@ == tv[i + (j + 1)]);
            }
        }
        assert(tv.take(n as int) =~= tv);
        Ok(s)
    }

    fn bucket_total(dir: &Directory, bucket: &Vec<SSTable>) -> (r: Result<u128, StoreError>)
        requires
            dir.wf(),
        ensures
            match r {
                Ok(n) => {
                    &&& n == total_of(sizes_of(dir@, table_views(bucket@)))
                    &&& n <= bucket@.len() * u64::MAX
                    &&& forall|i: int|
                        0 <= i < bucket@.len() ==> dir@.contains_key((#[trigger] bucket@[i])@.path)
                },
                Err(e) => {
                    &&& e == StoreError::FileNotFound
                    &&& exists|i: int|
                        0 <= i < bucket@.len() && !dir@.contains_key((#[trigger] bucket@[i])@.path)
                },
            },
    {
        let mut total: u128 = 0;
        let ghost sizes = sizes_of(dir@, table_views(bucket@));
        assert(sizes.take(0) =~= Seq::<nat>::empty());
        for j in 0..bucket.len()
            invariant
                dir.wf(),
                sizes == sizes_of(dir@, table_views(bucket@)),
                total == total_of(sizes.take(j as int)),
                total <= j * u64::MAX,
                forall|i: int| 0 <= i < j ==> dir@.contains_key((#[trigger] bucket@[i])@.path),
        {
            let t = &bucket[j];
            assert(sizes[j as int] == content(dir@, t@.path).len());
            assert(sizes.take(j + 1).drop_last() =~= sizes.take(j as int));
            let size = match t.size_on_disk(dir) {
                Ok(n) => n,
                Err(e) => {
                    assert(!dir@.contains_key(bucket@[j as int]@.path));
                    return Err(e);
                },
            };
            assert(j * u64::MAX + u64::MAX == (j + 1) * u64::MAX) by (nonlinear_arith);
            assert((j + 1) * u64::MAX <= u64::MAX * u64::MAX) by (nonlinear_arith)
                requires
                    j + 1 <= u64::MAX,
            ;
            total = total + size as u128;
        }
        assert(sizes.take(bucket@.len() as int) =~= sizes);
        Ok(total)
    }

    /// The bucket that a table of `size` bytes belongs to.
    fn choose_tier(&self, dir: &Directory, size: u64) -> (r: Result<Option<usize>, StoreError>)
        requires
            dir.wf(),
        ensures
            match r {
                Ok(tier) => {
                    &&& all_present(dir@, self.buckets())
                    &&& match tier_of(bucket_sizes(dir@, self.buckets()), size as nat) {
                        Some(i) => 0 <= i < self.buckets().len() && (match tier {
                            Some(j) => j == i,
                            None => false,
                        }),
                        None => tier is None,
                    }
                },
                Err(e) => e == StoreError::FileNotFound && !all_present(dir@, self.buckets()),
            },
    {
        let ghost all = bucket_sizes(dir@, self.buckets());
        let ghost bs = self.buckets();
        let mut best: Option<usize> = None;
        let mut best_distance: u128 = 0;
        let mut best_len: u128 = 1;
        assert(all.take(0) =~= Seq::<Seq<nat>>::empty());
        for i in 0..self.sstables.len()
            invariant
                dir.wf(),
                bs == nested_views(self.sstables@),
                bs == self.buckets(),
                all == bucket_sizes(dir@, bs),
                0 < best_len <= u64::MAX,
                match tier_of(all.take(i as int), size as nat) {
                    Some(j) => {
                        &&& 0 <= j < i
                        &&& best == Some(j as usize)
                        &&& best_len == all[j].len()
                        &&& best_distance == tier_distance(all[j], size as nat)
                    },
                    None => best is None,
                },
                forall|a: int, b: int|
                    0 <= a < i && 0 <= b < bs[a].len() ==> dir@.contains_key(
                        (#[trigger] bs[a][b]).path,
                    ),
        {
            let bucket = &self.sstables[i];
            assert(bs[i as int] == table_views(bucket@));
            assert(all[i as int] == sizes_of(dir@, bs[i as int]));
            assert(all[i as int].len() == bucket@.len());
            let total = match Self::bucket_total(dir, bucket) {
                Ok(n) => n,
                Err(e) => {
                    proof {
                        let b = choose|b: int|
                            0 <= b < bucket@.len() && !dir@.contains_key(
                                (#[trigger] bucket@[b])@.path,
                            );
                        assert(bs[i as int][b] == bucket@[b]@);
                    }
                    return Err(e);
                },
            };
            assert forall|a: int, b: int|
                0 <= a < i + 1 && 0 <= b < bs[a].len() implies dir@.contains_key(
                (#[trigger] bs[a][b]).path,
            ) by {
                if a == i {
                    assert(bs[a][b] == bucket@[b]@);
                }
            }
            proof {
                assert(all.take(i + 1).drop_last() =~= all.take(i as int));
                assert(all.take(i + 1)[i as int] == all[i as int]);
                lemma_tier_bound(all.take(i as int), size as nat);
            }
            let len: u128 = bucket.len() as u128;
            let wide: u128 = size as u128;
            assert(wide * len <= u64::MAX * u64::MAX) by (nonlinear_arith)
                requires
                    wide <= u64::MAX,
                    len <= u64::MAX,
            ;
            let product: u128 = wide * len;
            let distance: u128 = if total >= product {
                total - product
            } else {
                product - total
            };
            let fits = if len == 0 || size == 0 {
                false
            } else if total >= product {
                total - product <= product
            } else {
                distance <= total && distance <= total - distance
            };
            assert(fits == fits_tier(all[i as int], size as nat));
            assert(distance == tier_distance(all[i as int], size as nat));
            if fits {
                let closer = match best {
                    Some(_) => fraction_lt(distance, len, best_distance, best_len),
                    None => true,
                };
                if closer {
                    best = Some(i);
                    best_distance = distance;
                    best_len = len;
                }
            }
        }
        assert(all.take(self.sstables@.len() as int) =~= all);
        Ok(best)
    }
}

/// Buckets one after the other.
proof fn lemma_flat_concat(a: Seq<Seq<TableView>>, b: Seq<Seq<TableView>>)
    ensures
        flat(a + b) == flat(a) + flat(b),
    decreases b.len(),
{
    if b.len() == 0 {
        assert(a + b =~= a);
        assert(flat(a) + flat(b) =~= flat(a));
    } else {
        assert((a + b).drop_last() =~= a + b.drop_last());
        lemma_flat_concat(a, b.drop_last());
        assert(flat(a + b) =~= flat(a) + flat(b));
    }
}

proof fn lemma_flat_one(b: Seq<TableView>)
    ensures
        flat(seq![b]) == b,
{
    assert(seq![b].drop_last() =~= Seq::<Seq<TableView>>::empty());
    assert(flat(Seq::<Seq<TableView>>::empty()) == Seq::<TableView>::empty());
    assert(flat(seq![b]) =~= b);
}

/// The tables before a bucket, in it, and after it.
proof fn lemma_flat_at(buckets: Seq<Seq<TableView>>, i: int)
    requires
        0 <= i < buckets.len(),
    ensures
        flat(buckets) == flat(buckets.take(i)) + buckets[i] + flat(buckets.skip(i + 1)),
{
    assert(buckets =~= buckets.take(i) + seq![buckets[i]] + buckets.skip(i + 1));
    lemma_flat_concat(buckets.take(i) + seq![buckets[i]], buckets.skip(i + 1));
    lemma_flat_concat(buckets.take(i), seq![buckets[i]]);
    lemma_flat_one(buckets[i]);
}

/// The tables of the buckets after one was added, with where it stands.
proof fn lemma_flat_with(buckets: Seq<Seq<TableView>>, tier: Option<int>, t: TableView) -> (r: (
    Seq<TableView>,
    Seq<TableView>,
))
    requires
        match tier {
            Some(i) => 0 <= i < buckets.len(),
            None => true,
        },
    ensures
        flat(buckets) == r.0 + r.1,
        flat(with_table(buckets, tier, t)) == r.0 + seq![t] + r.1,
{
    match tier {
        Some(i) => {
            let after = with_table(buckets, tier, t);
            lemma_flat_at(buckets, i);
            lemma_flat_at(after, i);
            assert(after.take(i) =~= buckets.take(i));
            assert(after.skip(i + 1) =~= buckets.skip(i + 1));
            let a = flat(buckets.take(i)) + buckets[i];
            let b = flat(buckets.skip(i + 1));
            assert(flat(after) =~= a + seq![t] + b);
            (a, b)
        },
        None => {
            lemma_flat_concat(buckets, seq![seq![t]]);
            lemma_flat_one(seq![t]);
            assert(buckets.push(seq![t]) =~= buckets + seq![seq![t]]);
            let b = Seq::<TableView>::empty();
            assert(flat(buckets) =~= flat(buckets) + b);
            assert(flat(buckets) + seq![t] + b =~= flat(buckets) + seq![t]);
            (flat(buckets), b)
        },
    }
}

/// Tables that were added one by one, the oldest first, are there, the newest first.
pub proof fn lemma_tiered(files: Files, tables: Seq<TableView>)
    requires
        forall|i: int, j: int|
            0 <= i < j < tables.len() ==> (#[trigger] tables[i]).id.timestamp < (
            #[trigger] tables[j]).id.timestamp,
    ensures
        newest_first(flat(tiered(files, tables))) == tables.reverse(),
    decreases tables.len(),
{
    if tables.len() == 0 {
        assert(tables.reverse() =~= Seq::<TableView>::empty());
    } else {
        let init = tables.drop_last();
        let x = tables.last();
        assert forall|i: int, j: int| 0 <= i < j < init.len() implies (
        #[trigger] init[i]).id.timestamp < (#[trigger] init[j]).id.timestamp by {
            assert(init[i] == tables[i]);
            assert(init[j] == tables[j]);
        }
        lemma_tiered(files, init);
        let before = tiered(files, init);
        let size = content(files, x.path).len();
        let sizes = bucket_sizes(files, before);
        lemma_tier_bound(sizes, size);
        let (a, b) = lemma_flat_with(before, tier_of(sizes, size), x);
        let all = flat(before);
        lemma_newest_first(all);
        assert forall|i: int| 0 <= i < all.len() implies (#[trigger] all[i]).id.timestamp
            < x.id.timestamp by {
            assert(all.contains(all[i]));
            assert(newest_first(all).contains(all[i]));
            let n = init.reverse().index_of(all[i]);
            assert(init.reverse()[n] == init[init.len() - 1 - n]);
            assert(tables[init.len() - 1 - n].id.timestamp < tables[tables.len() - 1].id.timestamp);
        }
        assert forall|i: int| 0 <= i < a.len() implies (#[trigger] a[i]).id.timestamp
            < x.id.timestamp by {
            assert(all[i] == a[i]);
        }
        assert forall|i: int| 0 <= i < b.len() implies (#[trigger] b[i]).id.timestamp
            < x.id.timestamp by {
            assert(all[a.len() + i] == b[i]);
        }
        lemma_newest_added(a, x, b);
        assert(seq![x] + init.reverse() =~= tables.reverse());
    }
}

proof fn lemma_present_with(
    files: Files,
    buckets: Seq<Seq<TableView>>,
    tier: Option<int>,
    t: TableView,
)
    requires
        all_present(files, buckets),
        files.contains_key(t.path),
        match tier {
            Some(i) => 0 <= i < buckets.len(),
            None => true,
        },
    ensures
        all_present(files, with_table(buckets, tier, t)),
{
    let w = with_table(buckets, tier, t);
    assert forall|i: int, j: int| 0 <= i < w.len() && 0 <= j < w[i].len() implies files.contains_key(
        (#[trigger] w[i][j]).path,
    ) by {
        if i < buckets.len() && j < buckets[i].len() {
            assert(w[i][j] == buckets[i][j]);
        }
    }
}

/// A table of a bucket is one of all tables.
proof fn lemma_flat_contains(buckets: Seq<Seq<TableView>>, i: int, j: int)
    requires
        0 <= i < buckets.len(),
        0 <= j < buckets[i].len(),
    ensures
        flat(buckets).contains(buckets[i][j]),
{
    lemma_flat_at(buckets, i);
    let before = flat(buckets.take(i));
    assert(flat(buckets)[before.len() + j] == buckets[i][j]);
}

/// The position, among all tables, of a table of another bucket than `i`, which is
/// before or after those of `i`.
proof fn lemma_flat_place(buckets: Seq<Seq<TableView>>, x: int, y: int, i: int) -> (n: int)
    requires
        0 <= x < buckets.len(),
        0 <= i < buckets.len(),
        x != i,
        0 <= y < buckets[x].len(),
    ensures
        0 <= n < flat(buckets).len(),
        flat(buckets)[n] == buckets[x][y],
        n < flat(buckets.take(i)).len() || n >= flat(buckets.take(i)).len() + buckets[i].len(),
{
    lemma_flat_at(buckets, i);
    let start = flat(buckets.take(i)).len() as int;
    if x < i {
        let part = buckets.take(i);
        lemma_flat_at(part, x);
        assert(part[x] == buckets[x]);
        let n = flat(part.take(x)).len() + y;
        assert(flat(part)[n] == buckets[x][y]);
        n as int
    } else {
        let part = buckets.skip(i + 1);
        lemma_flat_at(part, x - i - 1);
        assert(part[x - i - 1] == buckets[x]);
        let n = flat(part.take(x - i - 1)).len() + y;
        assert(flat(part)[n] == buckets[x][y]);
        start + buckets[i].len() + n
    }
}

fn insert_ref<'a>(out: &mut Vec<&'a SSTable>, t: &'a SSTable)
    requires
        refs_wf(old(out)@),
        t.wf(),
    ensures
        refs_wf(final(out)@),
        ref_views(final(out)@) == insert_newest(ref_views(old(out)@), t@),
{
    let ghost views = ref_views(out@);
    let mut i: usize = 0;
    assert(views.skip(0) =~= views);
    assert(views.take(0) + insert_newest(views.skip(0), t@) =~= insert_newest(views, t@));
    while i < out.len() && out[i].begun() > t.begun()
        invariant
            i <= out@.len(),
            views == ref_views(out@),
            insert_newest(views, t@) == views.take(i as int) + insert_newest(
                views.skip(i as int),
                t@,
            ),
        decreases out@.len() - i,
    {
        assert(views[i as int] == out@[i as int]@);
        assert(views.skip(i as int)[0] == views[i as int]);
        assert(views.skip(i as int).drop_first() =~= views.skip(i + 1));
        assert(views.take(i as int) + (seq![views[i as int]] + insert_newest(
            views.skip(i + 1),
            t@,
        )) =~= views.take(i + 1) + insert_newest(views.skip(i + 1), t@));
        i = i + 1;
    }
    proof {
        if i < out@.len() {
            assert(views[i as int] == out@[i as int]@);
            assert(views.skip(i as int)[0] == views[i as int]);
        }
    }
    out.insert(i, t);
    assert(ref_views(out@) =~= views.insert(i as int, t@));
    assert(views.insert(i as int, t@) =~= views.take(i as int) + (seq![t@] + views.skip(
        i as int,
    )));
}

/// The tables of a bucket, the newest first.
fn sorted_refs<'a>(bucket: &'a Vec<SSTable>, before: Vec<&'a SSTable>, Ghost(done): Ghost<
    Seq<TableView>,
>) -> (out: Vec<&'a SSTable>)
    requires
        tables_wf(bucket@),
        refs_wf(before@),
        ref_views(before@) == newest_first(done),
    ensures
        refs_wf(out@),
        ref_views(out@) == newest_first(done + table_views(bucket@)),
{
    let mut out = before;
    let ghost tv = table_views(bucket@);
    assert(done + tv.take(0) =~= done);
    for j in 0..bucket.len()
        invariant
            tables_wf(bucket@),
            tv == table_views(bucket@),
            refs_wf(out@),
            ref_views(out@) == newest_first(done + tv.take(j as int)),
    {
        assert(tv[j as int] == bucket@[j as int]@);
        assert((done + tv.take(j + 1)).drop_last() =~= done + tv.take(j as int));
        insert_ref(&mut out, &bucket[j]);
    }
    assert(tv.take(bucket@.len() as int) =~= tv);
    out
}

/// A single table that was just written is all that there is.
proof fn lemma_single(files: Files, id: TableId, m: Entries)
    requires
        orderable(m),
        crate::sstable::writable(m),
        table_bytes(m).len() <= usize::MAX,
        files.contains_key(table_filename(id)),
        files[table_filename(id)] == table_bytes(m),
    ensures
        in_order(files, seq![written_table(id, m)]),
        layered(files, seq![written_table(id, m)]) == m,
{
    lemma_written_table(files, id, m);
    lemma_layered_one(files, written_table(id, m));
}

/// Whether no two tables were begun at the same time.
pub open spec fn distinct_stamps(tables: Seq<TableView>) -> bool {
    forall|i: int, j: int|
        0 <= i < tables.len() && 0 <= j < tables.len() && i != j ==> (
        #[trigger] tables[i]).id.timestamp != (#[trigger] tables[j]).id.timestamp
}

spec fn has_stamp(tables: Seq<TableView>, n: u64) -> bool {
    exists|i: int| 0 <= i < tables.len() && (#[trigger] tables[i]).id.timestamp == n
}

proof fn lemma_stamps_at(a: Seq<TableView>, x: TableView, b: Seq<TableView>)
    ensures
        distinct_stamps(a + seq![x] + b) <==> distinct_stamps(a + b) && !has_stamp(
            a + b,
            x.id.timestamp,
        ),
{
    let s = a + seq![x] + b;
    let r = a + b;
    let n = a.len() as int;
    assert forall|i: int| 0 <= i < r.len() implies #[trigger] r[i] == s[if i < n {
        i
    } else {
        i + 1
    }] by {}
    if distinct_stamps(s) {
        assert forall|i: int, j: int| 0 <= i < r.len() && 0 <= j < r.len() && i != j implies (
        #[trigger] r[i]).id.timestamp != (#[trigger] r[j]).id.timestamp by {
            let p = if i < n {
                i
            } else {
                i + 1
            };
            let q = if j < n {
                j
            } else {
                j + 1
            };
            assert(s[p].id.timestamp != s[q].id.timestamp);
        }
        if has_stamp(r, x.id.timestamp) {
            let i = choose|i: int|
                0 <= i < r.len() && (#[trigger] r[i]).id.timestamp == x.id.timestamp;
            let p = if i < n {
                i
            } else {
                i + 1
            };
            assert(s[p].id.timestamp == s[n].id.timestamp);
        }
    }
    if distinct_stamps(r) && !has_stamp(r, x.id.timestamp) {
        assert forall|i: int, j: int| 0 <= i < s.len() && 0 <= j < s.len() && i != j implies (
        #[trigger] s[i]).id.timestamp != (#[trigger] s[j]).id.timestamp by {
            let p = if i < n {
                i
            } else {
                i - 1
            };
            let q = if j < n {
                j
            } else {
                j - 1
            };
            if i == n {
                assert(r[q] == s[j]);
            } else if j == n {
                assert(r[p] == s[i]);
            } else {
                assert(r[p] == s[i]);
                assert(r[q] == s[j]);
            }
        }
    }
}

/// Where a table is put in.
proof fn lemma_insert_place(s: Seq<TableView>, x: TableView) -> (n: int)
    ensures
        0 <= n <= s.len(),
        insert_newest(s, x) == s.take(n) + seq![x] + s.skip(n),
    decreases s.len(),
{
    if s.len() == 0 || s[0].id.timestamp <= x.id.timestamp {
        assert(insert_newest(s, x) =~= s.take(0) + seq![x] + s.skip(0));
        0
    } else {
        let n = lemma_insert_place(s.drop_first(), x);
        assert(seq![s[0]] + (s.drop_first().take(n) + seq![x] + s.drop_first().skip(n)) =~= s.take(
            n + 1,
        ) + seq![x] + s.skip(n + 1));
        n + 1
    }
}

/// Putting tables in order leaves whether they were begun at different times.
pub proof fn lemma_newest_stamps(s: Seq<TableView>)
    ensures
        distinct_stamps(newest_first(s)) <==> distinct_stamps(s),
    decreases s.len(),
{
    if s.len() > 0 {
        let init = s.drop_last();
        let x = s.last();
        let m = newest_first(init);
        lemma_newest_stamps(init);
        let n = lemma_insert_place(m, x);
        lemma_stamps_at(m.take(n), x, m.skip(n));
        assert(m.take(n) + m.skip(n) =~= m);
        let none = Seq::<TableView>::empty();
        lemma_stamps_at(init, x, none);
        assert(init + seq![x] + none =~= s);
        assert(init + none =~= init);
        lemma_newest_first(init);
        lemma_same_stamps(m, init, x.id.timestamp);
    }
}

/// Tables that were begun at different times come in the order of their times.
pub proof fn lemma_descending_stamps(s: Seq<TableView>)
    requires
        distinct_stamps(newest_first(s)),
    ensures
        forall|i: int, j: int|
            0 <= i < j < newest_first(s).len() ==> (#[trigger] newest_first(s)[i]).id.timestamp > (
            #[trigger] newest_first(s)[j]).id.timestamp,
{
    lemma_newest_descending(s);
}

proof fn lemma_same_stamps(a: Seq<TableView>, b: Seq<TableView>, n: u64)
    requires
        forall|y: TableView| #[trigger] a.contains(y) <==> b.contains(y),
    ensures
        has_stamp(a, n) <==> has_stamp(b, n),
{
    if has_stamp(a, n) {
        let i = choose|i: int| 0 <= i < a.len() && (#[trigger] a[i]).id.timestamp == n;
        assert(a.contains(a[i]));
        assert(b.contains(a[i]));
        assert(b[b.index_of(a[i])].id.timestamp == n);
    }
    if has_stamp(b, n) {
        let i = choose|i: int| 0 <= i < b.len() && (#[trigger] b[i]).id.timestamp == n;
        assert(b.contains(b[i]));
        assert(a.contains(b[i]));
        assert(a[a.index_of(b[i])].id.timestamp == n);
    }
}

/// Merging a bucket leaves the other tables at their times.
proof fn lemma_merged_stamps(buckets: Seq<Seq<TableView>>, i: int, t: TableView)
    requires
        0 <= i < buckets.len(),
        distinct_stamps(newest_first(flat(buckets))),
        older(newest_first(flat(buckets)), t.id.timestamp),
    ensures
        distinct_stamps(newest_first(flat(buckets.update(i, seq![t])))),
{
    let nbs = buckets.update(i, seq![t]);
    let all = flat(buckets);
    let a = flat(buckets.take(i));
    let c = flat(buckets.skip(i + 1));
    let bl = buckets[i].len() as int;
    lemma_newest_stamps(all);
    lemma_newest_stamps(flat(nbs));
    lemma_newest_first(all);
    lemma_flat_at(buckets, i);
    lemma_flat_at(nbs, i);
    assert(nbs.take(i) =~= buckets.take(i));
    assert(nbs.skip(i + 1) =~= buckets.skip(i + 1));
    lemma_stamps_at(a, t, c);
    let r = a + c;
    assert forall|x: int| 0 <= x < r.len() implies #[trigger] r[x] == all[if x < a.len() {
        x
    } else {
        x + bl
    }] by {}
    assert forall|x: int, y: int| 0 <= x < r.len() && 0 <= y < r.len() && x != y implies (
    #[trigger] r[x]).id.timestamp != (#[trigger] r[y]).id.timestamp by {
        let p = if x < a.len() {
            x
        } else {
            x + bl
        };
        let q = if y < a.len() {
            y
        } else {
            y + bl
        };
        assert(all[p].id.timestamp != all[q].id.timestamp);
    }
    if has_stamp(r, t.id.timestamp) {
        let x = choose|x: int| 0 <= x < r.len() && (#[trigger] r[x]).id.timestamp == t.id.timestamp;
        let p = if x < a.len() {
            x
        } else {
            x + bl
        };
        assert(all.contains(all[p]));
        assert(newest_first(all).contains(all[p]));
    }
}

/// Merging a bucket leaves no table out, and adds none that is not there.
proof fn lemma_merged_registered(
    files: Files,
    buckets: Seq<Seq<TableView>>,
    i: int,
    after: Files,
    t: TableView,
    name: Seq<char>,
)
    requires
        0 <= i < buckets.len(),
        registered(files, name, newest_first(flat(buckets))),
        parse_table(t.path) == Some(t.id),
        t.id.name == name,
        forall|f: Seq<char>| #[trigger]
            after.contains_key(f) ==> f == t.path || (files.contains_key(f) && !has_path(
                newest_first(buckets[i]),
                f,
            )),
    ensures
        registered(after, name, newest_first(flat(buckets.update(i, seq![t])))),
{
    let nbs = buckets.update(i, seq![t]);
    let all = newest_first(flat(buckets));
    let tables = newest_first(flat(nbs));
    lemma_newest_first(flat(buckets));
    lemma_newest_first(flat(nbs));
    lemma_newest_first(buckets[i]);
    assert forall|u: TableView| #[trigger] tables.contains(u) implies parse_table(u.path) == Some(
        u.id,
    ) && u.id.name == name by {
        assert(flat(nbs).contains(u));
        let (x, y) = lemma_flat_index(nbs, flat(nbs).index_of(u));
        if x != i {
            assert(buckets[x][y] == u);
            lemma_flat_contains(buckets, x, y);
            assert(all.contains(u));
        }
    }
    assert forall|f: Seq<char>| #[trigger] after.contains_key(f) && names_table(
        f,
        name,
    ) implies has_path(tables, f) by {
        if f == t.path {
            assert(nbs[i][0] == t);
            lemma_flat_contains(nbs, i, 0);
            assert(tables.contains(t));
            assert(tables[tables.index_of(t)].path == f);
        } else {
            assert(has_path(all, f));
            let n = choose|n: int| 0 <= n < all.len() && (#[trigger] all[n]).path == f;
            assert(all.contains(all[n]));
            assert(flat(buckets).contains(all[n]));
            let (x, y) = lemma_flat_index(buckets, flat(buckets).index_of(all[n]));
            if x == i {
                assert(buckets[i].contains(all[n]));
                let b = newest_first(buckets[i]);
                assert(b.contains(all[n]));
                assert(b[b.index_of(all[n])].path == f);
            } else {
                assert(nbs[x][y] == all[n]);
                lemma_flat_contains(nbs, x, y);
                assert(tables.contains(all[n]));
                assert(tables[tables.index_of(all[n])].path == f);
            }
        }
    }
}

/// The tables outside of one bucket, the newest first.
pub open spec fn others(buckets: Seq<Seq<TableView>>, bucket: int) -> Seq<TableView> {
    newest_first(flat(buckets.take(bucket)) + flat(buckets.skip(bucket + 1)))
}

/// What is left of the keys that the tables of a bucket have, where `all` says what all
/// tables give: a deletion, or what has expired, is needed only while a table outside of
/// the bucket has the key too.
pub open spec fn still_needed(all: Entries, m: Entries, outside: Entries, now_ms: u64) -> Entries {
    all.restrict(
        Set::new(
            |k: Seq<char>|
                all.contains_key(k) && m.contains_key(k) && (outside.contains_key(k) || (
                all[k].value is Some && !expired(all[k].expiry_ms, now_ms))),
        ),
    )
}

/// The entries that a bucket is merged into, or the error that kept a table from being
/// read.
pub open spec fn tier_merged(
    files: Files,
    buckets: Seq<Seq<TableView>>,
    bucket: int,
    now_ms: u64,
) -> Result<Entries, StoreError> {
    match merged(files, Map::empty(), newest_first(flat(buckets))) {
        Err(e) => Err(e),
        Ok(all) => match merged(files, Map::empty(), newest_first(buckets[bucket])) {
            Err(e) => Err(e),
            Ok(m) => match merged(files, Map::empty(), others(buckets, bucket)) {
                Err(e) => Err(e),
                Ok(outside) => Ok(still_needed(all, m, outside, now_ms)),
            },
        },
    }
}

/// Whether no table comes before a newer one.
spec fn descending(s: Seq<TableView>) -> bool {
    forall|i: int, j: int|
        0 <= i < j < s.len() ==> (#[trigger] s[i]).id.timestamp >= (#[trigger] s[j]).id.timestamp
}

proof fn lemma_insert_descending(s: Seq<TableView>, x: TableView)
    requires
        descending(s),
    ensures
        descending(insert_newest(s, x)),
    decreases s.len(),
{
    let r = insert_newest(s, x);
    if s.len() == 0 || s[0].id.timestamp <= x.id.timestamp {
        assert forall|i: int, j: int| 0 <= i < j < r.len() implies (#[trigger] r[i]).id.timestamp
            >= (#[trigger] r[j]).id.timestamp by {
            assert(r[j] == s[j - 1]);
            assert(s[0].id.timestamp >= s[j - 1].id.timestamp || j == 1);
            if i > 0 {
                assert(r[i] == s[i - 1]);
            }
        }
    } else {
        let rest = s.drop_first();
        let t = insert_newest(rest, x);
        assert forall|i: int, j: int| 0 <= i < j < rest.len() implies (
        #[trigger] rest[i]).id.timestamp >= (#[trigger] rest[j]).id.timestamp by {
            assert(rest[i] == s[i + 1]);
            assert(rest[j] == s[j + 1]);
        }
        lemma_insert_descending(rest, x);
        lemma_insert_newest(rest, x);
        assert forall|i: int, j: int| 0 <= i < j < r.len() implies (#[trigger] r[i]).id.timestamp
            >= (#[trigger] r[j]).id.timestamp by {
            assert(r[j] == t[j - 1]);
            if i == 0 {
                assert(t.contains(t[j - 1]));
                if rest.contains(t[j - 1]) {
                    let n = rest.index_of(t[j - 1]);
                    assert(rest[n] == s[n + 1]);
                }
            } else {
                assert(r[i] == t[i - 1]);
            }
        }
    }
}

proof fn lemma_newest_descending(s: Seq<TableView>)
    ensures
        descending(newest_first(s)),
    decreases s.len(),
{
    if s.len() > 0 {
        lemma_newest_descending(s.drop_last());
        lemma_insert_descending(newest_first(s.drop_last()), s.last());
    }
}

/// The tables that have a key.
spec fn holding(files: Files, s: Seq<TableView>, k: Seq<char>) -> Seq<TableView>
    decreases s.len(),
{
    if s.len() == 0 {
        s
    } else if table_entries(files, s[0]).contains_key(k) {
        seq![s[0]] + holding(files, s.drop_first(), k)
    } else {
        holding(files, s.drop_first(), k)
    }
}

proof fn lemma_holding_concat(files: Files, a: Seq<TableView>, b: Seq<TableView>, k: Seq<char>)
    ensures
        holding(files, a + b, k) == holding(files, a, k) + holding(files, b, k),
    decreases a.len(),
{
    if a.len() == 0 {
        assert(a + b =~= b);
        assert(holding(files, a, k) + holding(files, b, k) =~= holding(files, b, k));
    } else {
        assert((a + b).drop_first() =~= a.drop_first() + b);
        lemma_holding_concat(files, a.drop_first(), b, k);
        assert(holding(files, a + b, k) =~= holding(files, a, k) + holding(files, b, k));
    }
}

proof fn lemma_holding_none(files: Files, s: Seq<TableView>, k: Seq<char>)
    requires
        forall|i: int| 0 <= i < s.len() ==> !table_entries(files, #[trigger] s[i]).contains_key(k),
    ensures
        holding(files, s, k) == Seq::<TableView>::empty(),
    decreases s.len(),
{
    if s.len() > 0 {
        let rest = s.drop_first();
        assert forall|i: int| 0 <= i < rest.len() implies !table_entries(
            files,
            #[trigger] rest[i],
        ).contains_key(k) by {
            assert(rest[i] == s[i + 1]);
        }
        lemma_holding_none(files, rest, k);
        assert(!table_entries(files, s[0]).contains_key(k));
    }
}

proof fn lemma_holding_in(files: Files, s: Seq<TableView>, k: Seq<char>)
    ensures
        forall|t: TableView| #[trigger] holding(files, s, k).contains(t) ==> s.contains(t),
    decreases s.len(),
{
    if s.len() > 0 {
        let rest = s.drop_first();
        lemma_holding_in(files, rest, k);
        let h = holding(files, rest, k);
        assert forall|t: TableView| #[trigger] holding(files, s, k).contains(t) implies s.contains(
            t,
        ) by {
            let n = holding(files, s, k).index_of(t);
            if t == s[0] {
            } else {
                if table_entries(files, s[0]).contains_key(k) {
                    assert(h[n - 1] == t);
                }
                assert(h.contains(t));
                assert(rest.contains(t));
                assert(s[rest.index_of(t) + 1] == t);
            }
        }
    }
}

/// Only the tables that have a key decide what it has.
proof fn lemma_holding_layered(files: Files, s: Seq<TableView>, k: Seq<char>)
    ensures
        lookup(layered(files, holding(files, s, k)), k) == lookup(layered(files, s), k),
    decreases s.len(),
{
    if s.len() > 0 {
        lemma_holding_layered(files, s.drop_first(), k);
        if table_entries(files, s[0]).contains_key(k) {
            let h = holding(files, s, k);
            assert(h[0] == s[0]);
        }
    }
}

proof fn lemma_holding_insert(files: Files, s: Seq<TableView>, x: TableView, k: Seq<char>)
    requires
        descending(s),
    ensures
        holding(files, insert_newest(s, x), k) == if table_entries(files, x).contains_key(k) {
            insert_newest(holding(files, s, k), x)
        } else {
            holding(files, s, k)
        },
    decreases s.len(),
{
    let r = insert_newest(s, x);
    let h = holding(files, s, k);
    if s.len() == 0 || s[0].id.timestamp <= x.id.timestamp {
        assert(r[0] == x);
        assert(r.drop_first() =~= s);
        if table_entries(files, x).contains_key(k) && h.len() > 0 {
            lemma_holding_in(files, s, k);
            assert(h.contains(h[0]));
            assert(s.contains(h[0]));
            let n = s.index_of(h[0]);
            assert(s[0].id.timestamp >= s[n].id.timestamp);
            assert(h[0].id.timestamp <= x.id.timestamp);
        }
    } else {
        let rest = s.drop_first();
        assert forall|i: int, j: int| 0 <= i < j < rest.len() implies (
        #[trigger] rest[i]).id.timestamp >= (#[trigger] rest[j]).id.timestamp by {
            assert(rest[i] == s[i + 1]);
            assert(rest[j] == s[j + 1]);
        }
        lemma_holding_insert(files, rest, x, k);
        assert(r[0] == s[0]);
        assert(r.drop_first() =~= insert_newest(rest, x));
        if table_entries(files, s[0]).contains_key(k) {
            assert(h[0] == s[0]);
            assert(h.drop_first() =~= holding(files, rest, k));
        }
    }
}

proof fn lemma_holding_newest(files: Files, s: Seq<TableView>, k: Seq<char>)
    ensures
        holding(files, newest_first(s), k) == newest_first(holding(files, s, k)),
    decreases s.len(),
{
    if s.len() > 0 {
        let init = s.drop_last();
        let x = s.last();
        lemma_holding_newest(files, init, k);
        lemma_newest_descending(init);
        lemma_holding_insert(files, newest_first(init), x, k);
        assert(s =~= init + seq![x]);
        lemma_holding_concat(files, init, seq![x], k);
        let none = Seq::<TableView>::empty();
        assert(seq![x].drop_first() =~= none);
        assert(holding(files, none, k) == none);
        if table_entries(files, x).contains_key(k) {
            assert(seq![x] + none =~= seq![x]);
            assert((holding(files, init, k) + seq![x]).drop_last() =~= holding(files, init, k));
        } else {
            assert(holding(files, init, k) + none =~= holding(files, init, k));
        }
    }
}

proof fn lemma_holding_has(files: Files, s: Seq<TableView>, k: Seq<char>)
    ensures
        forall|t: TableView| #[trigger]
            holding(files, s, k).contains(t) ==> table_entries(files, t).contains_key(k),
    decreases s.len(),
{
    if s.len() > 0 {
        let rest = holding(files, s.drop_first(), k);
        lemma_holding_has(files, s.drop_first(), k);
        let h = holding(files, s, k);
        assert forall|t: TableView| #[trigger] h.contains(t) implies table_entries(
            files,
            t,
        ).contains_key(k) by {
            let i = h.index_of(t);
            if h.len() > rest.len() {
                if i > 0 {
                    assert(rest[i - 1] == t);
                    assert(rest.contains(t));
                }
            } else {
                assert(rest.contains(t));
            }
        }
    }
}

/// A key that no table of a bucket has is given by the other tables.
proof fn lemma_outside(files: Files, buckets: Seq<Seq<TableView>>, i: int, k: Seq<char>)
    requires
        0 <= i < buckets.len(),
        !layered(files, newest_first(buckets[i])).contains_key(k),
    ensures
        lookup(layered(files, newest_first(flat(buckets))), k) == lookup(
            layered(files, others(buckets, i)),
            k,
        ),
{
    let a = flat(buckets.take(i));
    let b = buckets[i];
    let c = flat(buckets.skip(i + 1));
    lemma_flat_at(buckets, i);
    lemma_holding_layered(files, newest_first(b), k);
    lemma_holding_newest(files, b, k);
    let h = holding(files, b, k);
    if h.len() > 0 {
        lemma_holding_has(files, b, k);
        lemma_newest_first(h);
        let n = newest_first(h);
        assert(n.contains(n[0]));
        assert(h.contains(n[0]));
        assert(table_entries(files, n[0]).contains_key(k));
        assert(layered(files, n).contains_key(k));
    }
    assert(h =~= Seq::<TableView>::empty());
    lemma_holding_concat(files, a + b, c, k);
    lemma_holding_concat(files, a, b, k);
    lemma_holding_concat(files, a, c, k);
    assert(holding(files, flat(buckets), k) =~= holding(files, a + c, k));
    lemma_holding_newest(files, flat(buckets), k);
    lemma_holding_newest(files, a + c, k);
    lemma_holding_layered(files, newest_first(flat(buckets)), k);
    lemma_holding_layered(files, others(buckets, i), k);
}

/// Where a table of all buckets stands.
proof fn lemma_flat_index(buckets: Seq<Seq<TableView>>, n: int) -> (r: (int, int))
    requires
        0 <= n < flat(buckets).len(),
    ensures
        0 <= r.0 < buckets.len(),
        0 <= r.1 < buckets[r.0].len(),
        buckets[r.0][r.1] == flat(buckets)[n],
    decreases buckets.len(),
{
    let before = flat(buckets.drop_last());
    if n < before.len() {
        let (p, q) = lemma_flat_index(buckets.drop_last(), n);
        (p, q)
    } else {
        (buckets.len() - 1, n - before.len())
    }
}

proof fn lemma_insert_distinct(s: Seq<TableView>, x: TableView)
    ensures
        distinct_paths(insert_newest(s, x)) <==> distinct_paths(s) && !has_path(s, x.path),
    decreases s.len(),
{
    if s.len() == 0 || s[0].id.timestamp <= x.id.timestamp {
        lemma_distinct_front(x, s);
    } else {
        let rest = s.drop_first();
        let t = insert_newest(rest, x);
        lemma_insert_distinct(rest, x);
        lemma_distinct_front(s[0], t);
        lemma_distinct_front(s[0], rest);
        assert(seq![s[0]] + rest =~= s);
        lemma_insert_newest(rest, x);
        lemma_has_path_push(rest, x);
        assert forall|y: TableView| #[trigger] t.contains(y) implies rest.push(x).contains(y) by {}
        assert forall|y: TableView| #[trigger] rest.push(x).contains(y) implies t.contains(y) by {}
        lemma_same_paths(t, rest.push(x));
        lemma_has_path_front(s[0], rest);
    }
}

proof fn lemma_has_path_push(s: Seq<TableView>, x: TableView)
    ensures
        forall|f: Seq<char>| #[trigger] has_path(s.push(x), f) <==> has_path(s, f) || x.path == f,
        forall|y: TableView| #[trigger] s.push(x).contains(y) <==> s.contains(y) || y == x,
{
    let p = s.push(x);
    assert forall|f: Seq<char>| #[trigger] has_path(p, f) <==> has_path(s, f) || x.path == f by {
        if has_path(p, f) {
            let i = choose|i: int| 0 <= i < p.len() && (#[trigger] p[i]).path == f;
            if i < s.len() {
                assert(s[i].path == f);
            }
        }
        if has_path(s, f) {
            let i = choose|i: int| 0 <= i < s.len() && (#[trigger] s[i]).path == f;
            assert(p[i].path == f);
        }
        assert(p[s.len() as int] == x);
    }
    assert forall|y: TableView| #[trigger] p.contains(y) <==> s.contains(y) || y == x by {
        if p.contains(y) {
            let i = p.index_of(y);
            if i < s.len() {
                assert(s[i] == y);
            }
        }
        if s.contains(y) {
            assert(p[s.index_of(y)] == y);
        }
        assert(p[s.len() as int] == x);
    }
}

proof fn lemma_has_path_front(a: TableView, s: Seq<TableView>)
    ensures
        forall|f: Seq<char>| #[trigger]
            has_path(seq![a] + s, f) <==> has_path(s, f) || a.path == f,
{
    let p = seq![a] + s;
    assert forall|f: Seq<char>| #[trigger] has_path(p, f) <==> has_path(s, f) || a.path == f by {
        if has_path(p, f) {
            let i = choose|i: int| 0 <= i < p.len() && (#[trigger] p[i]).path == f;
            if i > 0 {
                assert(s[i - 1].path == f);
            }
        }
        if has_path(s, f) {
            let i = choose|i: int| 0 <= i < s.len() && (#[trigger] s[i]).path == f;
            assert(p[i + 1].path == f);
        }
        assert(p[0] == a);
    }
}

/// The same tables have the same files.
proof fn lemma_same_paths(a: Seq<TableView>, b: Seq<TableView>)
    requires
        forall|y: TableView| #[trigger] a.contains(y) ==> b.contains(y),
        forall|y: TableView| #[trigger] b.contains(y) ==> a.contains(y),
    ensures
        forall|f: Seq<char>| #[trigger] has_path(a, f) <==> has_path(b, f),
{
    assert forall|f: Seq<char>| #[trigger] has_path(a, f) <==> has_path(b, f) by {
        if has_path(a, f) {
            let i = choose|i: int| 0 <= i < a.len() && (#[trigger] a[i]).path == f;
            assert(a.contains(a[i]));
            assert(b[b.index_of(a[i])].path == f);
        }
        if has_path(b, f) {
            let i = choose|i: int| 0 <= i < b.len() && (#[trigger] b[i]).path == f;
            assert(b.contains(b[i]));
            assert(a[a.index_of(b[i])].path == f);
        }
    }
}

/// Putting tables in order leaves whether their files differ.
proof fn lemma_newest_distinct(s: Seq<TableView>)
    ensures
        distinct_paths(newest_first(s)) <==> distinct_paths(s),
    decreases s.len(),
{
    if s.len() > 0 {
        let init = s.drop_last();
        lemma_newest_distinct(init);
        lemma_insert_distinct(newest_first(init), s.last());
        lemma_distinct_back(init, s.last());
        assert(init.push(s.last()) =~= s);
        lemma_newest_first(init);
        lemma_same_paths(newest_first(init), init);
    }
}

/// The tables of a bucket are in good order where all tables are.
proof fn lemma_bucket_in_order(files: Files, buckets: Seq<Seq<TableView>>, i: int)
    requires
        0 <= i < buckets.len(),
        in_order(files, newest_first(flat(buckets))),
    ensures
        in_order(files, newest_first(buckets[i])),
{
    let all = flat(buckets);
    let b = buckets[i];
    lemma_newest_distinct(all);
    lemma_newest_distinct(b);
    lemma_newest_first(all);
    lemma_newest_first(b);
    lemma_flat_at(buckets, i);
    let start = flat(buckets.take(i)).len() as int;
    assert forall|p: int, q: int| 0 <= p < b.len() && 0 <= q < b.len() && p != q implies (
    #[trigger] b[p]).path != (#[trigger] b[q]).path by {
        assert(all[start + p] == b[p]);
        assert(all[start + q] == b[q]);
    }
    let nb = newest_first(b);
    assert forall|p: int| 0 <= p < nb.len() implies table_valid(files, #[trigger] nb[p]) by {
        assert(nb.contains(nb[p]));
        assert(b.contains(nb[p]));
        let q = b.index_of(nb[p]);
        assert(all[start + q] == nb[p]);
        assert(all.contains(nb[p]));
        assert(newest_first(all).contains(nb[p]));
        let n = newest_first(all).index_of(nb[p]);
        assert(table_valid(files, newest_first(all)[n]));
    }
}

/// The tables beside those of a bucket, once the bucket was merged into one table.
spec fn beside(files: Files, buckets: Seq<Seq<TableView>>, i: int, after: Files) -> bool {
    forall|x: int, y: int|
        0 <= x < buckets.len() && x != i && 0 <= y < buckets[x].len() ==> {
            let t = #[trigger] buckets[x][y];
            &&& table_valid(files, t)
            &&& after.contains_key(t.path)
            &&& after[t.path] == files[t.path]
            &&& newest_first(flat(buckets)).contains(t)
        }
}

proof fn lemma_beside(files: Files, buckets: Seq<Seq<TableView>>, i: int, path: Seq<char>, data: Seq<u8>)
    requires
        0 <= i < buckets.len(),
        in_order(files, newest_first(flat(buckets))),
        !files.contains_key(path),
    ensures
        beside(
            files,
            buckets,
            i,
            without_files(files.insert(path, data), paths_of(newest_first(buckets[i]))),
        ),
{
    let b = newest_first(buckets[i]);
    let all = flat(buckets);
    let after = without_files(files.insert(path, data), paths_of(b));
    let start = flat(buckets.take(i)).len() as int;
    lemma_paths_of(b);
    lemma_newest_first(all);
    lemma_newest_first(buckets[i]);
    lemma_newest_distinct(all);
    lemma_flat_at(buckets, i);
    assert forall|x: int, y: int|
        0 <= x < buckets.len() && x != i && 0 <= y < buckets[x].len() implies {
        let t = #[trigger] buckets[x][y];
        &&& table_valid(files, t)
        &&& after.contains_key(t.path)
        &&& after[t.path] == files[t.path]
        &&& newest_first(all).contains(t)
    } by {
        let t = buckets[x][y];
        let n = lemma_flat_place(buckets, x, y, i);
        assert(all.contains(t));
        assert(newest_first(all).contains(t));
        let q = newest_first(all).index_of(t);
        assert(table_valid(files, newest_first(all)[q]));
        if has_path(b, t.path) {
            let j = choose|j: int| 0 <= j < b.len() && (#[trigger] b[j]).path == t.path;
            assert(b.contains(b[j]));
            assert(buckets[i].contains(b[j]));
            let r = buckets[i].index_of(b[j]);
            assert(all[start + r] == b[j]);
            assert(all[start + r].path != all[n].path);
        }
        assert(!paths_of(b).contains(t.path));
    }
}

/// Where a table of all buckets stands that is not of bucket `i`.
proof fn lemma_flat_other(buckets: Seq<Seq<TableView>>, i: int, n: int) -> (r: (int, int))
    requires
        0 <= i < buckets.len(),
        0 <= n < flat(buckets).len(),
        n < flat(buckets.take(i)).len() || n >= flat(buckets.take(i)).len() + buckets[i].len(),
    ensures
        0 <= r.0 < buckets.len(),
        r.0 != i,
        0 <= r.1 < buckets[r.0].len(),
        buckets[r.0][r.1] == flat(buckets)[n],
{
    lemma_flat_at(buckets, i);
    let start = flat(buckets.take(i)).len() as int;
    if n < start {
        lemma_flat_index(buckets.take(i), n)
    } else {
        let (x, y) = lemma_flat_index(buckets.skip(i + 1), n - start - buckets[i].len());
        (x + i + 1, y)
    }
}

proof fn lemma_merged_in_order(
    files: Files,
    buckets: Seq<Seq<TableView>>,
    i: int,
    after: Files,
    t: TableView,
)
    requires
        0 <= i < buckets.len(),
        in_order(files, newest_first(flat(buckets))),
        beside(files, buckets, i, after),
        table_valid(after, t),
        !files.contains_key(t.path),
    ensures
        in_order(after, newest_first(flat(buckets.update(i, seq![t])))),
        forall|u: TableView| #[trigger]
            newest_first(flat(buckets.update(i, seq![t]))).contains(u) ==> newest_first(
                flat(buckets),
            ).contains(u) || u == t,
{
    let nbs = buckets.update(i, seq![t]);
    let all = flat(buckets);
    let fl = flat(nbs);
    let tables = newest_first(fl);
    let a = flat(buckets.take(i));
    let bl = buckets[i].len() as int;
    lemma_newest_first(all);
    lemma_newest_first(fl);
    lemma_newest_distinct(all);
    lemma_newest_distinct(fl);
    lemma_flat_at(buckets, i);
    lemma_flat_at(nbs, i);
    assert(nbs.take(i) =~= buckets.take(i));
    assert(nbs.skip(i + 1) =~= buckets.skip(i + 1));
    assert(fl[a.len() as int] == t);
    assert forall|n: int| 0 <= n < fl.len() && n != a.len() implies {
        &&& newest_first(all).contains(#[trigger] fl[n])
        &&& table_valid(after, fl[n])
        &&& fl[n].path != t.path
    } by {
        let (x, y) = lemma_flat_other(nbs, i, n);
        assert(buckets[x][y] == fl[n]);
    }
    assert forall|x: int, y: int| 0 <= x < fl.len() && 0 <= y < fl.len() && x != y implies (
    #[trigger] fl[x]).path != (#[trigger] fl[y]).path by {
        if x != a.len() && y != a.len() {
            let p = if x < a.len() {
                x
            } else {
                x - 1 + bl
            };
            let q = if y < a.len() {
                y
            } else {
                y - 1 + bl
            };
            assert(all[p] == fl[x]);
            assert(all[q] == fl[y]);
        }
    }
    assert forall|n: int| 0 <= n < tables.len() implies table_valid(after, #[trigger] tables[n]) by {
        assert(tables.contains(tables[n]));
        assert(fl.contains(tables[n]));
        let p = fl.index_of(tables[n]);
        assert(fl[p] == tables[n]);
    }
    assert forall|u: TableView| #[trigger] tables.contains(u) implies newest_first(all).contains(u)
        || u == t by {
        assert(fl.contains(u));
        let p = fl.index_of(u);
        assert(fl[p] == u);
    }
}

/// The tables outside of a bucket are among all tables.
proof fn lemma_others(buckets: Seq<Seq<TableView>>, i: int)
    requires
        0 <= i < buckets.len(),
    ensures
        forall|t: TableView| #[trigger]
            others(buckets, i).contains(t) ==> newest_first(flat(buckets)).contains(t) && exists|
                x: int,
                y: int,
            |
                0 <= x < buckets.len() && x != i && 0 <= y < buckets[x].len()
                    && #[trigger] buckets[x][y] == t,
{
    let a = flat(buckets.take(i));
    let b = buckets[i];
    let c = flat(buckets.skip(i + 1));
    let all = flat(buckets);
    lemma_flat_at(buckets, i);
    lemma_newest_first(a + c);
    lemma_newest_first(all);
    assert forall|t: TableView| #[trigger] others(buckets, i).contains(t) implies newest_first(
        all,
    ).contains(t) && exists|x: int, y: int|
        0 <= x < buckets.len() && x != i && 0 <= y < buckets[x].len() && #[trigger] buckets[x][y]
            == t by {
        assert((a + c).contains(t));
        let p = (a + c).index_of(t);
        let n = if p < a.len() {
            p
        } else {
            p + b.len()
        };
        assert(all[n] == t);
        assert(all.contains(t));
        let (x, y) = lemma_flat_other(buckets, i, n);
        assert(buckets[x][y] == t);
    }
}

/// Tables in good order can be read, and say what the bucket is merged into.
proof fn lemma_tier_readable(files: Files, buckets: Seq<Seq<TableView>>, i: int, now_ms: u64)
    requires
        0 <= i < buckets.len(),
        in_order(files, newest_first(flat(buckets))),
    ensures
        tier_merged(files, buckets, i, now_ms) == Ok::<Entries, StoreError>(
            still_needed(
                layered(files, newest_first(flat(buckets))),
                layered(files, newest_first(buckets[i])),
                layered(files, others(buckets, i)),
                now_ms,
            ),
        ),
        writable(tier_merged(files, buckets, i, now_ms)->Ok_0),
{
    let all = newest_first(flat(buckets));
    let none = Map::<Seq<char>, EntryView>::empty();
    lemma_bucket_in_order(files, buckets, i);
    lemma_others(buckets, i);
    let os = others(buckets, i);
    assert forall|n: int| 0 <= n < os.len() implies table_valid(files, #[trigger] os[n]) by {
        assert(os.contains(os[n]));
        assert(table_valid(files, all[all.index_of(os[n])]));
    }
    lemma_merged(files, none, all);
    lemma_merged(files, none, newest_first(buckets[i]));
    lemma_merged(files, none, os);
    assert(layered(files, all).union_prefer_right(none) =~= layered(files, all));
    assert(layered(files, newest_first(buckets[i])).union_prefer_right(none) =~= layered(
        files,
        newest_first(buckets[i]),
    ));
    assert(layered(files, os).union_prefer_right(none) =~= layered(files, os));
    let w = tier_merged(files, buckets, i, now_ms)->Ok_0;
    assert forall|k: Seq<char>| #[trigger] w.contains_key(k) implies within_limits(
        entry_record(k, w[k]),
    ) && (w[k].value is None ==> w[k].expiry_ms is None) by {
        assert(layered(files, all).contains_key(k));
    }
}

/// Merging a bucket into one table, which is newer than all, keeps the tables in good
/// order, and keeps what every key has, apart from deletions and what has expired.
pub proof fn lemma_bucket_merged(
    files: Files,
    buckets: Seq<Seq<TableView>>,
    i: int,
    id: TableId,
    now_ms: u64,
)
    requires
        0 <= i < buckets.len(),
        in_order(files, newest_first(flat(buckets))),
        older(newest_first(flat(buckets)), id.timestamp),
        !files.contains_key(table_filename(id)),
        ({
            let w = tier_merged(files, buckets, i, now_ms)->Ok_0;
            orderable(w) && table_bytes(w).len() <= u64::MAX
        }),
    ensures
        ({
            let w = tier_merged(files, buckets, i, now_ms)->Ok_0;
            let t = written_table(id, w);
            let after = without_files(
                files.insert(table_filename(id), table_bytes(w)),
                paths_of(newest_first(buckets[i])),
            );
            let tables = newest_first(flat(buckets.update(i, seq![t])));
            &&& in_order(after, tables)
            &&& forall|u: TableView| #[trigger]
                tables.contains(u) ==> newest_first(flat(buckets)).contains(u) || u == t
            &&& forall|k: Seq<char>| #[trigger]
                lookup(unexpired(live(layered(after, tables)), now_ms), k) == lookup(
                    unexpired(live(layered(files, newest_first(flat(buckets)))), now_ms),
                    k,
                )
        }),
{
    let b = newest_first(buckets[i]);
    let all = newest_first(flat(buckets));
    let os = others(buckets, i);
    let w = tier_merged(files, buckets, i, now_ms)->Ok_0;
    let t = written_table(id, w);
    let path = table_filename(id);
    let after = without_files(files.insert(path, table_bytes(w)), paths_of(b));
    let nbs = buckets.update(i, seq![t]);
    let tables = newest_first(flat(nbs));
    lemma_tier_readable(files, buckets, i, now_ms);
    lemma_bucket_in_order(files, buckets, i);
    lemma_paths_of(b);
    if has_path(b, path) {
        let j = choose|j: int| 0 <= j < b.len() && (#[trigger] b[j]).path == path;
        assert(table_valid(files, b[j]));
    }
    lemma_written_table(after, id, w);
    lemma_beside(files, buckets, i, path, table_bytes(w));
    lemma_merged_in_order(files, buckets, i, after, t);
    // The new table comes first.
    let a = flat(buckets.take(i));
    let c = flat(buckets.skip(i + 1));
    lemma_flat_at(buckets, i);
    lemma_flat_at(nbs, i);
    assert(nbs.take(i) =~= buckets.take(i));
    assert(nbs.skip(i + 1) =~= buckets.skip(i + 1));
    lemma_newest_first(flat(buckets));
    assert forall|n: int| 0 <= n < a.len() implies (#[trigger] a[n]).id.timestamp
        < t.id.timestamp by {
        assert(flat(buckets)[n] == a[n]);
        assert(flat(buckets).contains(a[n]));
        assert(all.contains(a[n]));
        assert(all[all.index_of(a[n])] == a[n]);
    }
    assert forall|n: int| 0 <= n < c.len() implies (#[trigger] c[n]).id.timestamp
        < t.id.timestamp by {
        assert(flat(buckets)[a.len() + buckets[i].len() + n] == c[n]);
        assert(flat(buckets).contains(c[n]));
        assert(all.contains(c[n]));
        assert(all[all.index_of(c[n])] == c[n]);
    }
    lemma_newest_added(a, t, c);
    assert(tables == seq![t] + os);
    assert(tables.drop_first() =~= os);
    lemma_others(buckets, i);
    assert forall|n: int| 0 <= n < os.len() implies {
        &&& files.contains_key((#[trigger] os[n]).path) == after.contains_key(os[n].path)
        &&& content(files, os[n].path) == content(after, os[n].path)
    } by {
        assert(os.contains(os[n]));
        let (x, y) = choose|x: int, y: int|
            0 <= x < buckets.len() && x != i && 0 <= y < buckets[x].len()
                && #[trigger] buckets[x][y] == os[n];
        assert(table_valid(files, buckets[x][y]));
    }
    lemma_layered_same(files, after, os);
    assert forall|k: Seq<char>| #[trigger]
        lookup(unexpired(live(layered(after, tables)), now_ms), k) == lookup(
            unexpired(live(layered(files, all)), now_ms),
            k,
        ) by {
        let x = layered(after, tables);
        let y = layered(files, all);
        let o = layered(files, os);
        assert(lookup(x, k) == if w.contains_key(k) {
            Some(w[k])
        } else {
            lookup(o, k)
        });
        if !layered(files, b).contains_key(k) {
            lemma_outside(files, buckets, i, k);
        }
        assert(x.contains_key(k) <==> lookup(x, k) is Some);
        assert(y.contains_key(k) <==> lookup(y, k) is Some);
        assert(o.contains_key(k) <==> lookup(o, k) is Some);
        if layered(files, b).contains_key(k) && !w.contains_key(k) && !y.contains_key(k) {
            lemma_bucket_key(files, buckets, i, k);
        }
    }
}

/// A key that a bucket has is among those of all tables.
proof fn lemma_bucket_key(files: Files, buckets: Seq<Seq<TableView>>, i: int, k: Seq<char>)
    requires
        0 <= i < buckets.len(),
        layered(files, newest_first(buckets[i])).contains_key(k),
    ensures
        layered(files, newest_first(flat(buckets))).contains_key(k),
{
    let a = flat(buckets.take(i));
    let b = buckets[i];
    let c = flat(buckets.skip(i + 1));
    lemma_flat_at(buckets, i);
    lemma_holding_layered(files, newest_first(b), k);
    lemma_holding_newest(files, b, k);
    let h = holding(files, b, k);
    if h.len() == 0 {
        assert(newest_first(h) == Seq::<TableView>::empty());
        assert(!layered(files, newest_first(h)).contains_key(k));
    }
    lemma_holding_concat(files, a + b, c, k);
    lemma_holding_concat(files, a, b, k);
    let g = holding(files, flat(buckets), k);
    assert(g == holding(files, a, k) + h + holding(files, c, k));
    lemma_holding_has(files, flat(buckets), k);
    lemma_holding_newest(files, flat(buckets), k);
    lemma_holding_layered(files, newest_first(flat(buckets)), k);
    lemma_newest_first(g);
    let n = newest_first(g);
    assert(n.contains(n[0]));
    assert(g.contains(n[0]));
    assert(table_entries(files, n[0]).contains_key(k));
    assert(layered(files, n).contains_key(k));
}

/// Removes what a bucket need not be merged into.
fn keep_needed(
    entries: &mut StringMap<MemtableEntry>,
    m: &StringMap<MemtableEntry>,
    outside: &StringMap<MemtableEntry>,
    now_ms: u64,
)
    requires
        old(entries).wf(),
        m.wf(),
        outside.wf(),
    ensures
        final(entries).wf(),
        final(entries)@ == still_needed(old(entries)@, m@, outside@, now_ms),
{
    let ghost all = entries@;
    let ghost w = still_needed(all, m@, outside@, now_ms);
    let mut i: usize = entries.len();
    while i > 0
        invariant
            all == old(entries)@,
            w == still_needed(all, m@, outside@, now_ms),
            entries.wf(),
            m.wf(),
            outside.wf(),
            i <= entries.keys_seq().len(),
            entries@.submap_of(all),
            forall|j: int|
                i <= j < entries.keys_seq().len() ==> w.contains_key(
                    #[trigger] entries.keys_seq()[j],
                ),
            forall|k: Seq<char>| #[trigger] w.contains_key(k) ==> entries@.contains_key(k),
            forall|k: Seq<char>| #[trigger]
                entries@.contains_key(k) ==> all.contains_key(k) && entries@[k] == all[k],
        decreases i,
    {
        i = i - 1;
        proof {
            entries.lemma_at(i as int);
        }
        let ghost k = entries.keys_seq()[i as int];
        let key = entries.key_at(i);
        let e = entries.value_at(i);
        let alive = e.value.is_some() && !has_expired(e.expiry_ms, now_ms);
        let needed = m.contains(key.as_str()) && (outside.contains(key.as_str()) || alive);
        proof {
            assert(entries@.contains_key(k));
            assert(e@ == all[k]);
            lemma_needed_keys(all, m@, outside@, now_ms, k);
        }
        assert(needed == w.contains_key(k));
        if !needed {
            let _ = entries.remove_at(i);
        }
    }
    proof {
        assert forall|k: Seq<char>| #[trigger] entries@.contains_key(k) implies w.contains_key(k) by {
            let j = entries.lemma_position(k);
            assert(w.contains_key(entries.keys_seq()[j]));
        }
        assert(entries@ =~= w);
    }
}

/// Merging all tables leaves one.
pub proof fn lemma_all_one(
    before: SizeTiered,
    files: Files,
    db_name: Seq<char>,
    now: Clock,
    after: SizeTiered,
    left: Files,
    r: Result<(), StoreError>,
)
    requires
        before.all_done(files, db_name, now, after, left, r),
        r is Ok,
    ensures
        after.tables().len() == 1,
{
    let one = after.buckets()[0];
    assert(after.buckets() =~= seq![one]);
    lemma_flat_one(one);
    lemma_newest_first(one);
}

impl SizeTiered {
    /// The tables outside of a bucket, the newest first.
    fn iter_others<'a>(&'a self, bucket: usize) -> (out: Vec<&'a SSTable>)
        requires
            self.wf(),
            bucket < self.buckets().len(),
        ensures
            refs_wf(out@),
            ref_views(out@) == others(self.buckets(), bucket as int),
    {
        let ghost bs = self.buckets();
        let ghost a = bs.take(bucket as int);
        let ghost c = bs.skip(bucket + 1);
        let mut out: Vec<&'a SSTable> = Vec::new();
        assert(ref_views(out@) =~= Seq::<TableView>::empty());
        assert(a.take(0) =~= Seq::<Seq<TableView>>::empty());
        for i in 0..bucket
            invariant
                self.wf(),
                bs == nested_views(self.sstables@),
                bucket < bs.len(),
                a == bs.take(bucket as int),
                refs_wf(out@),
                ref_views(out@) == newest_first(flat(a.take(i as int))),
        {
            assert(bs[i as int] == table_views(self.sstables@[i as int]@));
            assert(tables_wf(self.sstables@[i as int]@));
            assert(a.take(i + 1).drop_last() =~= a.take(i as int));
            out = sorted_refs(&self.sstables[i], out, Ghost(flat(a.take(i as int))));
        }
        assert(a.take(bucket as int) =~= a);
        assert(c.take(0) =~= Seq::<Seq<TableView>>::empty());
        assert(flat(a) + flat(c.take(0)) =~= flat(a));
        let n = self.sstables.len();
        for i in bucket + 1..n
            invariant
                self.wf(),
                n == self.sstables@.len(),
                bs == nested_views(self.sstables@),
                bucket < bs.len(),
                c == bs.skip(bucket + 1),
                refs_wf(out@),
                ref_views(out@) == newest_first(flat(a) + flat(c.take(i - bucket - 1))),
        {
            assert(bs[i as int] == table_views(self.sstables@[i as int]@));
            assert(tables_wf(self.sstables@[i as int]@));
            let ghost p = i - bucket - 1;
            assert(c[p] == bs[i as int]);
            assert(c.take(p + 1).drop_last() =~= c.take(p));
            assert(flat(a) + flat(c.take(p)) + bs[i as int] =~= flat(a) + flat(c.take(p + 1)));
            out = sorted_refs(&self.sstables[i], out, Ghost(flat(a) + flat(c.take(p))));
        }
        assert(c.take(c.len() as int) =~= c);
        out
    }
}

impl CompactionStrategy for SizeTiered {
    closed spec fn wf(&self) -> bool {
        self.inv()
    }

    open spec fn tables(&self) -> Seq<TableView> {
        newest_first(flat(self.buckets()))
    }

    open spec fn ready(&self) -> bool {
        true
    }

    open spec fn arranged(&self, files: Files) -> bool {
        distinct_stamps(self.tables())
    }

    proof fn lemma_arranged(&self, a: Files, b: Files) {
    }

    open spec fn add_error(&self, files: Files, t: TableView) -> Option<StoreError> {
        if files.contains_key(t.path) && all_present(files, self.buckets()) {
            None
        } else {
            Some(StoreError::FileNotFound)
        }
    }

    open spec fn added(&self, files: Files, t: TableView, after: Self) -> bool {
        &&& after.thresholds() == self.thresholds()
        &&& after.buckets() == with_table(
            self.buckets(),
            tier_of(bucket_sizes(files, self.buckets()), content(files, t.path).len()),
            t,
        )
    }

    proof fn lemma_add_error(&self, files: Files, t: TableView) {
        let bs = self.buckets();
        lemma_newest_first(flat(bs));
        assert forall|i: int, j: int|
            0 <= i < bs.len() && 0 <= j < bs[i].len() implies files.contains_key(
            (#[trigger] bs[i][j]).path,
        ) by {
            lemma_flat_contains(bs, i, j);
            assert(self.tables().contains(bs[i][j]));
            let n = self.tables().index_of(bs[i][j]);
            assert(crate::sstable::table_valid(files, self.tables()[n]));
        }
    }

    open spec fn step_done(
        &self,
        files: Files,
        db_name: Seq<char>,
        now: Clock,
        after: Self,
        left: Files,
        r: Result<bool, StoreError>,
    ) -> bool {
        &&& after.thresholds() == self.thresholds()
        &&& match due_bucket(self.buckets(), self.thresholds().0, self.thresholds().1, 0) {
            None => {
                &&& r == Ok::<bool, StoreError>(false)
                &&& after.buckets() == self.buckets()
                &&& left == files
            },
            Some(i) => {
                let id = TableId { name: db_name, level: None, timestamp: now.ns };
                let w = tier_merged(files, self.buckets(), i, now.ms);
                match r {
                    Ok(ran) => {
                        &&& ran
                        &&& w is Ok
                        &&& !files.contains_key(table_filename(id))
                        &&& left == without_files(
                            files.insert(table_filename(id), table_bytes(w->Ok_0)),
                            paths_of(newest_first(self.buckets()[i])),
                        )
                        &&& after.buckets() == self.buckets().update(
                            i,
                            seq![written_table(id, w->Ok_0)],
                        )
                    },
                    Err(e) => {
                        &&& left == files
                        &&& after.buckets() == self.buckets()
                        &&& match w {
                            Err(x) => e == x,
                            Ok(_) => files.contains_key(table_filename(id)) && e
                                == StoreError::FileExists,
                        }
                    },
                }
            },
        }
    }

    open spec fn all_done(
        &self,
        files: Files,
        db_name: Seq<char>,
        now: Clock,
        after: Self,
        left: Files,
        r: Result<(), StoreError>,
    ) -> bool {
        let (rest, m, end) = collected(files, self.tables());
        let id = TableId { name: db_name, level: None, timestamp: now.ns };
        &&& after.thresholds() == self.thresholds()
        &&& match r {
            Ok(_) => {
                &&& end is None
                &&& !rest.contains_key(table_filename(id))
                &&& left == rest.insert(table_filename(id), table_bytes(swept(m, now.ms)))
                &&& after.buckets() == seq![seq![written_table(id, swept(m, now.ms))]]
            },
            Err(e) => {
                &&& left == rest
                &&& after.buckets() == self.buckets()
                &&& if end is Some {
                    end == Some(e)
                } else {
                    rest.contains_key(table_filename(id)) && e == StoreError::FileExists
                }
            },
        }
    }

    fn add_sstable(&mut self, dir: &Directory, sst: SSTable) -> (r: Result<(), StoreError>)
        ensures
            match r {
                Ok(_) => {
                    &&& dir@.contains_key(sst@.path)
                    &&& all_present(dir@, old(self).buckets())
                },
                Err(e) => {
                    &&& e == StoreError::FileNotFound
                    &&& !dir@.contains_key(sst@.path) || !all_present(dir@, old(self).buckets())
                    &&& *final(self) == *old(self)
                },
            },
    {
        let ghost bs = self.buckets();
        proof {
            if in_order(dir@, self.tables()) {
                lemma_newest_first(flat(bs));
                if dir@.contains_key(sst@.path) {
                    self.lemma_add_error(dir@, sst@);
                }
            }
        }
        let size = match sst.size_on_disk(dir) {
            Ok(n) => n,
            Err(e) => {
                return Err(e);
            },
        };
        let tier = match self.choose_tier(dir, size) {
            Ok(t) => t,
            Err(e) => {
                return Err(e);
            },
        };
        let ghost t = sst@;
        let ghost chosen = tier_of(bucket_sizes(dir@, bs), content(dir@, t.path).len());
        match tier {
            Some(i) => {
                let ghost before = self.sstables@;
                assert(bs[i as int] == table_views(before[i as int]@));
                let mut bucket = self.sstables.remove(i);
                let ghost bv = bucket@;
                bucket.push(sst);
                assert(table_views(bucket@) =~= table_views(bv).push(t));
                let ghost pushed = bucket@;
                self.sstables.insert(i, bucket);
                assert(self.sstables@[i as int]@ == pushed);
                assert forall|j: int| 0 <= j < self.sstables@.len() && j != i implies
                    #[trigger] self.sstables@[j] == before[j] by {}
                assert(chosen == Some(i as int));
                assert forall|j: int| 0 <= j < self.sstables@.len() implies
                    #[trigger] self.buckets()[j] == with_table(bs, chosen, t)[j] by {
                    if j != i {
                        assert(self.sstables@[j] == before[j]);
                        assert(bs[j] == table_views(before[j]@));
                    }
                }
                assert(self.buckets() =~= with_table(bs, chosen, t));
                assert forall|j: int| 0 <= j < self.sstables@.len() implies tables_wf(
                    (#[trigger] self.sstables@[j])@,
                ) by {
                    if j != i {
                        assert(tables_wf(before[j]@));
                    } else {
                        assert(tables_wf(before[i as int]@));
                    }
                }
            },
            None => {
                let mut bucket: Vec<SSTable> = Vec::new();
                bucket.push(sst);
                assert(table_views(bucket@) =~= seq![t]);
                let ghost before = self.sstables@;
                self.sstables.push(bucket);
                assert(self.buckets() =~= with_table(bs, chosen, t));
                assert forall|j: int| 0 <= j < self.sstables@.len() implies tables_wf(
                    (#[trigger] self.sstables@[j])@,
                ) by {
                    if j < before.len() {
                        assert(tables_wf(before[j]@));
                    }
                }
            },
        }
        proof {
            let (a, b) = lemma_flat_with(bs, chosen, t);
            let olds = newest_first(flat(bs));
            lemma_newest_first(flat(bs));
            lemma_newest_first(flat(self.buckets()));
            assert forall|u: TableView| #[trigger] self.tables().contains(u) implies olds.contains(
                u,
            ) || u == t by {
                let all = a + seq![t] + b;
                assert(all.contains(u));
                let n = all.index_of(u);
                if n < a.len() {
                    assert(flat(bs)[n] == u);
                    assert(flat(bs).contains(u));
                } else if n > a.len() {
                    assert(flat(bs)[n - 1] == u);
                    assert(flat(bs).contains(u));
                }
            }
            if older(olds, t.id.timestamp) {
                assert forall|i: int| 0 <= i < flat(bs).len() implies (
                #[trigger] flat(bs)[i]).id.timestamp < t.id.timestamp by {
                    assert(flat(bs).contains(flat(bs)[i]));
                    assert(olds.contains(flat(bs)[i]));
                    assert(olds[olds.index_of(flat(bs)[i])] == flat(bs)[i]);
                }
                assert forall|i: int| 0 <= i < a.len() implies (#[trigger] a[i]).id.timestamp
                    < t.id.timestamp by {
                    assert(flat(bs)[i] == a[i]);
                }
                assert forall|i: int| 0 <= i < b.len() implies (#[trigger] b[i]).id.timestamp
                    < t.id.timestamp by {
                    assert(flat(bs)[a.len() + i] == b[i]);
                }
                lemma_newest_added(a, t, b);
                let none = Seq::<TableView>::empty();
                lemma_stamps_at(none, t, olds);
                assert(none + seq![t] + olds =~= seq![t] + olds);
                assert(none + olds =~= olds);
                if has_stamp(olds, t.id.timestamp) {
                    let n = choose|n: int|
                        0 <= n < olds.len() && (#[trigger] olds[n]).id.timestamp == t.id.timestamp;
                    assert(olds.contains(olds[n]));
                }
            }
        }
        Ok(())
    }

    fn compact_if_needed(&mut self, dir: &mut Directory, db_name: &str, now: Clock) -> (r: Result<
        bool,
        StoreError,
    >)
    {
        let ghost bs = self.buckets();
        let mut i: usize = 0;
        while i < self.sstables.len() && self.sstables[i].len() < self.min_threshold
            && self.sstables[i].len() < self.max_threshold
            invariant
                i <= self.sstables@.len(),
                *self == *old(self),
                self.wf(),
                bs == nested_views(self.sstables@),
                due_bucket(bs, self.min_threshold, self.max_threshold, 0) == due_bucket(
                    bs,
                    self.min_threshold,
                    self.max_threshold,
                    i as int,
                ),
            decreases self.sstables@.len() - i,
        {
            assert(bs[i as int] == table_views(self.sstables@[i as int]@));
            i = i + 1;
        }
        if i >= self.sstables.len() {
            return Ok(false);
        }
        assert(bs[i as int] == table_views(self.sstables@[i as int]@));
        assert(due_bucket(bs, self.min_threshold, self.max_threshold, 0) == Some(i as int));
        let ghost files = dir@;
        let ghost id = TableId { name: db_name@, level: None, timestamp: now.ns };
        let ghost b = newest_first(bs[i as int]);
        let ghost good = in_order(files, self.tables()) && unused(files, db_name@, now.ns)
            && older(self.tables(), now.ns);
        let none: Vec<&SSTable> = Vec::new();
        assert(ref_views(none@) =~= Seq::<TableView>::empty());
        assert(tables_wf(self.sstables@[i as int]@));
        let refs = sorted_refs(&self.sstables[i], none, Ghost(Seq::<TableView>::empty()));
        assert(Seq::<TableView>::empty() + bs[i as int] =~= bs[i as int]);
        let all_refs = self.iter_all();
        let other_refs = self.iter_others(i);
        proof {
            lemma_paths_of(b);
            if good {
                lemma_tier_readable(files, bs, i as int, now.ms);
                assert(!files.contains_key(table_filename(id)));
            }
            assert forall|f: Seq<char>| !has_path(self.tables(), f) implies !has_path(b, f) by {
                if has_path(b, f) {
                    let j = choose|j: int| 0 <= j < b.len() && (#[trigger] b[j]).path == f;
                    lemma_newest_first(bs[i as int]);
                    lemma_newest_first(flat(bs));
                    assert(b.contains(b[j]));
                    assert(bs[i as int].contains(b[j]));
                    lemma_flat_contains(bs, i as int, bs[i as int].index_of(b[j]));
                    assert(self.tables().contains(b[j]));
                    assert(self.tables()[self.tables().index_of(b[j])].path == f);
                }
            }
        }
        let mut entries: StringMap<MemtableEntry> = StringMap::new();
        match merge_tables(&mut entries, dir, &all_refs) {
            Ok(_) => {},
            Err(e) => {
                return Err(e);
            },
        }
        let mut within: StringMap<MemtableEntry> = StringMap::new();
        match merge_tables(&mut within, dir, &refs) {
            Ok(_) => {},
            Err(e) => {
                return Err(e);
            },
        }
        let mut outside: StringMap<MemtableEntry> = StringMap::new();
        match merge_tables(&mut outside, dir, &other_refs) {
            Ok(_) => {},
            Err(e) => {
                return Err(e);
            },
        }
        keep_needed(&mut entries, &within, &outside, now.ms);
        proof {
            entries.lemma_keys();
        }
        let mut paths: Vec<String> = Vec::new();
        push_paths(&mut paths, &refs);
        assert(string_views(paths@) =~= paths_of(b));
        let sst = match SSTable::from_entries(dir, db_name, &entries, None, now.ns) {
            Ok(t) => t,
            Err(e) => {
                return Err(e);
            },
        };
        remove_files(dir, &paths);
        let ghost t = sst@;
        let mut bucket: Vec<SSTable> = Vec::new();
        bucket.push(sst);
        assert(table_views(bucket@) =~= seq![t]);
        let ghost one = bucket@;
        let ghost before = self.sstables@;
        let _ = self.sstables.remove(i);
        self.sstables.insert(i, bucket);
        assert(self.sstables@[i as int]@ == one);
        assert forall|j: int| 0 <= j < self.sstables@.len() && j != i implies
            #[trigger] self.sstables@[j] == before[j] by {}
        assert(self.buckets() =~= bs.update(i as int, seq![t]));
        assert forall|j: int| 0 <= j < self.sstables@.len() implies tables_wf(
            (#[trigger] self.sstables@[j])@,
        ) by {
            if j != i {
                assert(tables_wf(before[j]@));
            }
        }
        proof {
            if good {
                assert(crate::sorted_map::keys_of(entries@, entries.keys_seq()));
                lemma_bucket_merged(files, bs, i as int, id, now.ms);
                if distinct_stamps(newest_first(flat(bs))) {
                    lemma_merged_stamps(bs, i as int, t);
                }
                if registered(files, db_name@, newest_first(flat(bs))) && tellable(db_name@) {
                    lemma_parse_table_filename(id);
                    lemma_merged_registered(files, bs, i as int, dir@, t, db_name@);
                }
            }
            assert forall|f: Seq<char>|
                !has_path(newest_first(flat(bs)), f) && !is_table_of(f, db_name@, now.ns) implies (
            #[trigger] dir@.contains_key(f) <==> files.contains_key(f)) && content(dir@, f)
                == content(files, f) by {
                assert(f != table_filename(id));
                assert(!paths_of(b).contains(f));
            }
        }
        Ok(true)
    }

    fn compact_all(&mut self, dir: &mut Directory, db_name: &str, now: Clock) -> (r: Result<
        (),
        StoreError,
    >)
        ensures
            r is Ok ==> final(self).tables().len() == 1,
    {
        let ghost olds = self.tables();
        let ghost files = dir@;
        let ghost id = TableId { name: db_name@, level: None, timestamp: now.ns };
        let ghost good = in_order(files, olds) && unused(files, db_name@, now.ns);
        let refs = self.iter_all();
        let mut entries = match collect(dir, &refs) {
            Ok(m) => m,
            Err(e) => {
                proof {
                    lemma_collected_files(files, olds);
                    if good {
                        lemma_collected(files, olds);
                    }
                }
                return Err(e);
            },
        };
        let ghost m = entries@;
        proof {
            lemma_collected_files(files, olds);
            if good {
                lemma_collected(files, olds);
                lemma_swept_writable(m, now.ms);
                lemma_live_swept(m, now.ms);
                assert(!files.contains_key(table_filename(id)));
            }
        }
        sweep(&mut entries, now.ms);
        proof {
            entries.lemma_keys();
        }
        let sst = match SSTable::from_entries(dir, db_name, &entries, None, now.ns) {
            Ok(t) => t,
            Err(e) => {
                return Err(e);
            },
        };
        let ghost t = sst@;
        let mut bucket: Vec<SSTable> = Vec::new();
        bucket.push(sst);
        assert(table_views(bucket@) =~= seq![t]);
        let mut buckets: Vec<Vec<SSTable>> = Vec::new();
        buckets.push(bucket);
        self.sstables = buckets;
        assert(self.buckets() =~= seq![seq![t]]);
        proof {
            lemma_flat_one(seq![t]);
            let one = seq![t];
            assert(one.drop_last() =~= Seq::<TableView>::empty());
            assert(newest_first(Seq::<TableView>::empty()) == Seq::<TableView>::empty());
            assert(newest_first(one) =~= one);
            if good {
                assert(crate::sorted_map::keys_of(entries@, entries.keys_seq()));
                lemma_single(dir@, id, swept(m, now.ms));
                if registered(files, db_name@, olds) && tellable(db_name@) {
                    lemma_parse_table_filename(id);
                    assert(seq![t].contains(t));
                    assert forall|f: Seq<char>| #[trigger] dir@.contains_key(f) && names_table(
                        f,
                        db_name@,
                    ) implies has_path(one, f) by {
                        assert(one[0] == t);
                        if f != t.path {
                            assert(files.contains_key(f));
                            let n = choose|n: int|
                                0 <= n < olds.len() && (#[trigger] olds[n]).path == f;
                            assert(!collected(files, olds).0.contains_key(olds[n].path));
                        }
                    }
                }
            }
            assert forall|f: Seq<char>|
                !has_path(olds, f) && !is_table_of(f, db_name@, now.ns) implies (
            #[trigger] dir@.contains_key(f) <==> files.contains_key(f)) && content(dir@, f)
                == content(files, f) by {
                assert(f != table_filename(id));
                let left = collected(files, olds).0;
                assert(left.contains_key(f) <==> files.contains_key(f));
            }
        }
        Ok(())
    }

    fn iter_for_key<'a>(&'a self, key: &str) -> (v: Vec<&'a SSTable>) {
        select_for_key(self.iter_all(), key)
    }

    fn iter_files_for_range<'a>(&'a self, start: &str, end: &str) -> (v: Vec<&'a SSTable>) {
        select_for_range(self.iter_all(), start, end)
    }

    fn iter_all<'a>(&'a self) -> (v: Vec<&'a SSTable>) {
        let ghost bs = self.buckets();
        let mut out: Vec<&'a SSTable> = Vec::new();
        assert(ref_views(out@) =~= Seq::<TableView>::empty());
        assert(bs.take(0) =~= Seq::<Seq<TableView>>::empty());
        for i in 0..self.sstables.len()
            invariant
                self.wf(),
                bs == nested_views(self.sstables@),
                refs_wf(out@),
                ref_views(out@) == newest_first(flat(bs.take(i as int))),
        {
            assert(bs[i as int] == table_views(self.sstables@[i as int]@));
            assert(tables_wf(self.sstables@[i as int]@));
            assert(bs.take(i + 1).drop_last() =~= bs.take(i as int));
            out = sorted_refs(&self.sstables[i], out, Ghost(flat(bs.take(i as int))));
        }
        assert(bs.take(self.sstables@.len() as int) =~= bs);
        out
    }

    fn segment_count(&self) -> (n: usize) {
        let all = self.iter_all();
        assert(ref_views(all@).len() == all@.len());
        all.len()
    }
}

/// Tables are put in order with the newest first, none lost and none added. Of two with the
/// same timestamp the one that came later is first.
pub proof fn lemma_newest_order(s: Seq<TableView>, x: TableView)
    ensures
        forall|i: int, j: int|
            0 <= i < j < newest_first(s).len() ==> (#[trigger] newest_first(s)[i]).id.timestamp >= (
            #[trigger] newest_first(s)[j]).id.timestamp,
        newest_first(s).len() == s.len(),
        forall|y: TableView| #[trigger] newest_first(s).contains(y) <==> s.contains(y),
        (forall|i: int| 0 <= i < s.len() ==> (#[trigger] s[i]).id.timestamp <= x.id.timestamp)
            ==> newest_first(s.push(x))[0] == x,
{
    lemma_newest_descending(s);
    lemma_newest_first(s);
    assert(s.push(x).drop_last() =~= s);
    if forall|i: int| 0 <= i < s.len() ==> (#[trigger] s[i]).id.timestamp <= x.id.timestamp {
        let m = newest_first(s);
        if m.len() > 0 {
            assert(m.contains(m[0]));
            let i = s.index_of(m[0]);
            assert(s[i].id.timestamp <= x.id.timestamp);
        }
    }
}

/// Sizes are added up one by one.
pub proof fn lemma_total_added(sizes: Seq<nat>, n: nat)
    ensures
        total_of(Seq::empty()) == 0,
        total_of(sizes.push(n)) == total_of(sizes) + n,
{
    assert(sizes.push(n).drop_last() =~= sizes);
}

/// A table belongs to tables of about its size: a table of `size` bytes to `count` tables
/// of `average` bytes where it has half of that at least, and one and a half times that at
/// most. An empty table belongs to none, and none to a bucket without tables.
pub proof fn lemma_tier_limits(sizes: Seq<nat>, average: nat, size: nat)
    requires
        total_of(sizes) == average * sizes.len(),
    ensures
        fits_tier(sizes, size) <==> sizes.len() > 0 && size > 0 && average <= 2 * size && 2 * size
            <= 3 * average,
{
    let n = sizes.len() as int;
    let a = average as int;
    let z = size as int;
    if n > 0 {
        assert(a * n <= 2 * (z * n) <==> a <= 2 * z) by (nonlinear_arith)
            requires
                n > 0,
        ;
        assert(2 * (z * n) <= 3 * (a * n) <==> 2 * z <= 3 * a) by (nonlinear_arith)
            requires
                n > 0,
        ;
    }
}

proof fn lemma_closer_chain(dn: int, ln: int, db: int, lb: int, dj: int, lj: int)
    requires
        dn * lb < db * ln,
        db * lj <= dj * lb,
        ln > 0,
        lb > 0,
        lj > 0,
    ensures
        dn * lj < dj * ln,
{
    assert(dn * lj < dj * ln) by (nonlinear_arith)
        requires
            dn * lb < db * ln,
            db * lj <= dj * lb,
            ln > 0,
            lb > 0,
            lj > 0,
    {
        assert((dn * lb) * lj < (db * ln) * lj);
        assert((db * lj) * ln <= (dj * lb) * ln);
        assert((dn * lb) * lj == lb * (dn * lj));
        assert((db * ln) * lj == (db * lj) * ln);
        assert((dj * lb) * ln == lb * (dj * ln));
        assert(lb * (dn * lj) < lb * (dj * ln));
    }
}

/// A table comes to the bucket whose average size is the closest to its own, of those that
/// it belongs to; of two that are as close, to the first. It comes to none exactly where it
/// belongs to none.
pub proof fn lemma_closest_tier(buckets: Seq<Seq<nat>>, size: nat)
    ensures
        match tier_of(buckets, size) {
            Some(i) => {
                &&& 0 <= i < buckets.len()
                &&& fits_tier(buckets[i], size)
                &&& forall|j: int|
                    0 <= j < buckets.len() && fits_tier(#[trigger] buckets[j], size)
                        ==> tier_distance(buckets[i], size) * buckets[j].len() <= tier_distance(
                        buckets[j],
                        size,
                    ) * buckets[i].len()
                &&& forall|j: int|
                    0 <= j < i && fits_tier(#[trigger] buckets[j], size) ==> tier_distance(
                        buckets[i],
                        size,
                    ) * buckets[j].len() < tier_distance(buckets[j], size) * buckets[i].len()
            },
            None => forall|j: int|
                0 <= j < buckets.len() ==> !fits_tier(#[trigger] buckets[j], size),
        },
        forall|sizes: Seq<nat>|
            #![trigger tier_distance(sizes, size)]
            tier_distance(sizes, size) == (if total_of(sizes) >= size * sizes.len() {
                total_of(sizes) - size * sizes.len()
            } else {
                size * sizes.len() - total_of(sizes)
            }),
    decreases buckets.len(),
{
    if buckets.len() > 0 {
        let front = buckets.drop_last();
        lemma_closest_tier(front, size);
        let n = buckets.len() - 1;
        let best = tier_of(front, size);
        assert(forall|j: int| 0 <= j < front.len() ==> (#[trigger] front[j]) == buckets[j]);
        match tier_of(buckets, size) {
            Some(i) => {
                if i == n {
                    if best is Some {
                        let b = best->0;
                        assert(front[b] == buckets[b]);
                        assert(closer_tier(buckets[n], buckets[b], size));
                        assert forall|j: int|
                            0 <= j < n && fits_tier(#[trigger] buckets[j], size) implies
                            tier_distance(buckets[n], size) * buckets[j].len() < tier_distance(
                            buckets[j],
                            size,
                        ) * buckets[n].len() by {
                            assert(front[j] == buckets[j]);
                            lemma_closer_chain(
                                tier_distance(buckets[n], size) as int,
                                buckets[n].len() as int,
                                tier_distance(buckets[b], size) as int,
                                buckets[b].len() as int,
                                tier_distance(buckets[j], size) as int,
                                buckets[j].len() as int,
                            );
                        }
                    } else {
                        assert forall|j: int| 0 <= j < n implies !fits_tier(
                            #[trigger] buckets[j],
                            size,
                        ) by {
                            assert(front[j] == buckets[j]);
                        }
                    }
                } else {
                    assert(best == Some(i));
                    assert(front[i] == buckets[i]);
                    assert forall|j: int|
                        0 <= j < buckets.len() && fits_tier(#[trigger] buckets[j], size) implies
                        tier_distance(buckets[i], size) * buckets[j].len() <= tier_distance(
                        buckets[j],
                        size,
                    ) * buckets[i].len() by {
                        if j < n {
                            assert(front[j] == buckets[j]);
                        }
                    }
                    assert forall|j: int|
                        0 <= j < i && fits_tier(#[trigger] buckets[j], size) implies tier_distance(
                        buckets[i],
                        size,
                    ) * buckets[j].len() < tier_distance(buckets[j], size) * buckets[i].len() by {
                        assert(front[j] == buckets[j]);
                    }
                }
            },
            None => {
                assert forall|j: int| 0 <= j < buckets.len() implies !fits_tier(
                    #[trigger] buckets[j],
                    size,
                ) by {
                    if j < n {
                        assert(front[j] == buckets[j]);
                    }
                }
            },
        }
    }
}

/// The bucket that is merged is the first that has as many tables as one of the thresholds
/// asks for. Where no bucket has, none is merged.
pub proof fn lemma_due_bucket(buckets: Seq<Seq<TableView>>, min: usize, max: usize, from: int)
    requires
        0 <= from <= buckets.len(),
    ensures
        match due_bucket(buckets, min, max, from) {
            Some(i) => {
                &&& from <= i < buckets.len()
                &&& buckets[i].len() >= min || buckets[i].len() >= max
                &&& forall|j: int|
                    from <= j < i ==> (#[trigger] buckets[j]).len() < min && buckets[j].len() < max
            },
            None => forall|j: int|
                from <= j < buckets.len() ==> (#[trigger] buckets[j]).len() < min
                    && buckets[j].len() < max,
        },
    decreases buckets.len() - from,
{
    if from < buckets.len() && buckets[from].len() < min && buckets[from].len() < max {
        lemma_due_bucket(buckets, min, max, from + 1);
    }
}

/// Of the keys of a merged bucket those stay that a table outside of it has too, and those
/// that have a value whose time of expiry, if there is one, is still to come. They keep
/// what all tables together give them.
pub proof fn lemma_needed_keys(
    all: Entries,
    m: Entries,
    outside: Entries,
    now_ms: u64,
    k: Seq<char>,
)
    ensures
        still_needed(all, m, outside, now_ms).contains_key(k) <==> all.contains_key(k)
            && m.contains_key(k) && (outside.contains_key(k) || (all[k].value is Some && (
        all[k].expiry_ms matches Some(t) ==> t > now_ms))),
        still_needed(all, m, outside, now_ms).contains_key(k) ==> still_needed(
            all,
            m,
            outside,
            now_ms,
        )[k] == all[k],
{
}

/// A table is added at the end of its bucket, and the other buckets stay; one without a
/// bucket gets a new one after the others, for itself.
pub proof fn lemma_table_added(
    buckets: Seq<Seq<TableView>>,
    tier: Option<int>,
    t: TableView,
    j: int,
)
    requires
        tier matches Some(i) ==> 0 <= i < buckets.len(),
    ensures
        ({
            let after = with_table(buckets, tier, t);
            &&& 0 <= j < buckets.len() && tier != Some(j) ==> after[j] == buckets[j]
            &&& tier matches Some(i) ==> after.len() == buckets.len() && after[i].len()
                == buckets[i].len() + 1 && after[i].last() == t && after[i].drop_last()
                == buckets[i]
            &&& tier is None ==> after.len() == buckets.len() + 1 && after.last().len() == 1
                && after.last()[0] == t
        }),
{
    if let Some(i) = tier {
        assert(buckets[i].push(t).drop_last() =~= buckets[i]);
    }
}

/// Tables are put into buckets one after the other, each by the bytes of its file and those
/// of the tables that are there already.
pub proof fn lemma_tiers_filled(files: Files, tables: Seq<TableView>, t: TableView)
    ensures
        tiered(files, Seq::empty()) == Seq::<Seq<TableView>>::empty(),
        tiered(files, tables.push(t)) == with_table(
            tiered(files, tables),
            tier_of(
                tiered(files, tables).map_values(
                    |b: Seq<TableView>| b.map_values(|x: TableView| content(files, x.path).len()),
                ),
                content(files, t.path).len(),
            ),
            t,
        ),
{
    assert(tables.push(t).drop_last() =~= tables);
    let b = tiered(files, tables);
    assert(bucket_sizes(files, b) =~= b.map_values(
        |b: Seq<TableView>| b.map_values(|x: TableView| content(files, x.path).len()),
    ));
}

} // verus!
