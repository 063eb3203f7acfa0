//! Sorted tables: files of records in the order of their keys.
//!
//! A table is named `<name>_<timestamp>.sst`, or `<name>_L<level>_<timestamp>.sst`
//! where it belongs to a level.

use vstd::prelude::*;
use vstd::string::{StrSliceExecFns, StringExecFns};

use crate::bloom::{lemma_insert_all_shape, lemma_no_false_negatives, BloomFilter, BloomView};
use crate::bytes::push_all;
use crate::directory::{fills, Directory, Files};
use crate::error::{ErrorKind, StoreError};
use crate::memtable::{entry_record, record_entry, EntryView, Memtable, MemtableEntry};
use crate::number::{
    decimal, decimal_string, is_digit, lemma_parse_decimal, parse_number, parse_u64,
    parse_usize,
};
use crate::record::{
    encoded, lemma_encoded_len, lemma_parse_record_len, lemma_parse_stream_append, parse_record,
    parse_stream, within_limits, Record, RecordView,
};
use crate::sorted_map::{keys_in_order, strictly_sorted, StringMap};
use crate::text::{
    chars_of, key_lt, lemma_key_lt_total, lemma_split_at_last, lemma_split_parts,
    lemma_stripped, rank, rsplit_once, same, split_at_last, string_views, strip_suffix,
    without_suffix, Rank,
};

verus! {

pub const SPARSE_INDEX_INTERVAL: usize = 64;

pub const BLOOM_BITS_PER_KEY: usize = 10;

pub const BLOOM_HASH_COUNT: u32 = 7;

/// What names a table.
pub struct TableId {
    pub name: Seq<char>,
    pub level: Option<usize>,
    pub timestamp: u64,
}

/// The name of a table's file.
pub open spec fn table_filename(id: TableId) -> Seq<char> {
    let prefix = match id.level {
        Some(n) => id.name + seq!['_', 'L'] + decimal(n as nat),
        None => id.name,
    };
    prefix + seq!['_'] + decimal(id.timestamp as nat) + seq!['.', 's', 's', 't']
}

/// The level that a name ends with, and the name before it.
pub open spec fn split_level(name: Seq<char>) -> Option<(Seq<char>, usize)> {
    match split_at_last(name, '_') {
        Some((before, tag)) => if tag.len() > 0 && tag[0] == 'L' {
            match parse_number(tag.skip(1), usize::MAX as nat) {
                Some(n) => Some((before, n as usize)),
                None => None,
            }
        } else {
            None
        },
        None => None,
    }
}

/// The table that a file name stands for.
pub open spec fn parse_table(filename: Seq<char>) -> Option<TableId> {
    match without_suffix(filename, seq!['.', 's', 's', 't']) {
        None => None,
        Some(stem) => match split_at_last(stem, '_') {
            None => None,
            Some((rest, ts)) => match parse_number(ts, u64::MAX as nat) {
                None => None,
                Some(n) => match split_level(rest) {
                    Some((name, level)) => Some(
                        TableId { name, level: Some(level), timestamp: n as u64 },
                    ),
                    None => Some(TableId { name: rest, level: None, timestamp: n as u64 }),
                },
            },
        },
    }
}

proof fn lemma_digits_no_underscore(n: nat)
    ensures
        forall|i: int| 0 <= i < decimal(n).len() ==> #[trigger] decimal(n)[i] != '_',
{
    lemma_parse_decimal(n, n);
    assert forall|i: int| 0 <= i < decimal(n).len() implies #[trigger] decimal(n)[i] != '_' by {
        assert(is_digit(decimal(n)[i]));
    }
}

/// A table comes back from the name of its file, unless it has no level and its
/// name ends like one that has.
pub proof fn lemma_parse_table_filename(id: TableId)
    requires
        id.level is None ==> split_level(id.name) is None,
    ensures
        parse_table(table_filename(id)) == Some(id),
{
    let ts = decimal(id.timestamp as nat);
    let prefix = match id.level {
        Some(n) => id.name + seq!['_', 'L'] + decimal(n as nat),
        None => id.name,
    };
    let suffix = seq!['.', 's', 's', 't'];
    let full = table_filename(id);
    let stem = prefix + seq!['_'] + ts;
    assert(full.skip(full.len() - 4) =~= suffix);
    assert(full.take(full.len() - 4) =~= stem);
    lemma_parse_decimal(id.timestamp as nat, u64::MAX as nat);
    lemma_digits_no_underscore(id.timestamp as nat);
    lemma_split_at_last(prefix, ts, '_');
    match id.level {
        Some(n) => {
            let tag = seq!['L'] + decimal(n as nat);
            lemma_digits_no_underscore(n as nat);
            assert(prefix =~= id.name + seq!['_'] + tag);
            lemma_split_at_last(id.name, tag, '_');
            assert(tag.skip(1) =~= decimal(n as nat));
            lemma_parse_decimal(n as nat, usize::MAX as nat);
        },
        None => {},
    }
}

/// Where records stand: their keys with their offsets.
pub type Places = Seq<(Seq<char>, u64)>;

/// What is kept in memory of a table: some of the places, a filter over the keys,
/// and the first and the last key.
pub struct TableIndex {
    pub sparse: Places,
    pub bloom: BloomView,
    pub min: Option<Seq<char>>,
    pub max: Option<Seq<char>>,
}

/// Every so many places, one.
pub open spec fn sparse_of(places: Places) -> Places {
    Seq::new(
        ((places.len() + SPARSE_INDEX_INTERVAL - 1) / SPARSE_INDEX_INTERVAL as int) as nat,
        |j: int| places[j * SPARSE_INDEX_INTERVAL],
    )
}

/// The size of a filter for so many keys, in bytes.
pub open spec fn bloom_size(n: nat) -> nat {
    let bytes = (n * BLOOM_BITS_PER_KEY + 7) / 8;
    if bytes == 0 {
        1
    } else {
        bytes as nat
    }
}

/// The keys of some places.
pub open spec fn place_keys(places: Places) -> Seq<Seq<char>> {
    places.map_values(|p: (Seq<char>, u64)| p.0)
}

/// What is kept in memory of a table with records at these places.
pub open spec fn index_of(places: Places) -> TableIndex {
    TableIndex {
        sparse: sparse_of(places),
        bloom: BloomView::empty(bloom_size(places.len()), BLOOM_HASH_COUNT).insert_all(
            place_keys(places),
        ),
        min: if places.len() > 0 {
            Some(places[0].0)
        } else {
            None
        },
        max: if places.len() > 0 {
            Some(places.last().0)
        } else {
            None
        },
    }
}

/// The places of records that were read.
pub open spec fn places_of(records: Seq<(int, RecordView)>) -> Places {
    records.map_values(|t: (int, RecordView)| (t.1.key, t.0 as u64))
}

/// The records of some keys of a map, in the order of the keys.
pub open spec fn entry_records(
    m: Map<Seq<char>, EntryView>,
    keys: Seq<Seq<char>>,
) -> Seq<RecordView> {
    keys.map_values(|k: Seq<char>| entry_record(k, m[k]))
}

/// The bytes of records, one after the other.
pub open spec fn stream_bytes(rs: Seq<RecordView>) -> Seq<u8>
    decreases rs.len(),
{
    if rs.len() == 0 {
        Seq::empty()
    } else {
        stream_bytes(rs.drop_last()) + encoded(rs.last())
    }
}

/// The records with the positions at which they stand, one after the other.
pub open spec fn stream_records(rs: Seq<RecordView>) -> Seq<(int, RecordView)> {
    Seq::new(rs.len(), |i: int| (stream_bytes(rs.take(i)).len() as int, rs[i]))
}

/// Records that were written one after the other are read back.
pub proof fn lemma_stream_roundtrip(rs: Seq<RecordView>)
    requires
        forall|i: int| 0 <= i < rs.len() ==> within_limits(#[trigger] rs[i]),
    ensures
        parse_stream(stream_bytes(rs), 0) == (stream_records(rs), None::<StoreError>),
    decreases rs.len(),
{
    if rs.len() == 0 {
        assert(stream_records(rs) =~= Seq::<(int, RecordView)>::empty());
    } else {
        let init = rs.drop_last();
        assert forall|i: int| 0 <= i < init.len() implies within_limits(#[trigger] init[i]) by {
            assert(init[i] == rs[i]);
        }
        lemma_stream_roundtrip(init);
        assert(within_limits(rs[rs.len() - 1]));
        lemma_parse_stream_append(stream_bytes(init), 0, rs.last());
        assert forall|i: int| 0 <= i < init.len() implies #[trigger] stream_records(rs)[i]
            == stream_records(init)[i] by {
            assert(rs.take(i) =~= init.take(i));
        }
        assert(rs.take(rs.len() - 1) =~= init);
        assert(stream_records(rs) =~= stream_records(init).push(
            (stream_bytes(init).len() as int, rs.last()),
        ));
    }
}

/// A table, with what is kept of it in memory.
pub struct SSTable {
    /// The name of the table's file.
    pub path: String,
    /// When the table was begun: a table with a later timestamp is newer.
    pub timestamp: u64,
    pub level: Option<usize>,
    name: String,
    sparse_index: Vec<(String, u64)>,
    bloom: BloomFilter,
    min_key: Option<String>,
    max_key: Option<String>,
}

/// A table, with what is kept of it in memory.
pub struct TableView {
    pub id: TableId,
    pub path: Seq<char>,
    pub index: TableIndex,
}

/// What the places of a vector say.
pub open spec fn place_views(v: Seq<(String, u64)>) -> Places {
    v.map_values(|p: (String, u64)| (p.0@, p.1))
}

/// What a string that may be missing says.
pub open spec fn option_view(s: Option<String>) -> Option<Seq<char>> {
    match s {
        Some(s) => Some(s@),
        None => None,
    }
}

impl View for SSTable {
    type V = TableView;

    closed spec fn view(&self) -> TableView {
        TableView {
            id: TableId { name: self.name@, level: self.level, timestamp: self.timestamp },
            path: self.path@,
            index: TableIndex {
                sparse: place_views(self.sparse_index@),
                bloom: self.bloom@,
                min: option_view(self.min_key),
                max: option_view(self.max_key),
            },
        }
    }
}

/// What the records of a table, in their order, give its keys.
pub open spec fn entries_of(records: Seq<(int, RecordView)>) -> Map<Seq<char>, EntryView>
    decreases records.len(),
{
    if records.len() == 0 {
        Map::empty()
    } else {
        entries_of(records.drop_last()).insert(records.last().1.key, record_entry(records.last().1))
    }
}

/// The keys of records that were read.
pub open spec fn record_keys(records: Seq<(int, RecordView)>) -> Seq<Seq<char>> {
    records.map_values(|t: (int, RecordView)| t.1.key)
}

/// What going through records in search of a key finds. It ends at the key, or at
/// one that comes after it, or where the records end.
pub open spec fn scan(
    records: Seq<(int, RecordView)>,
    end: Option<StoreError>,
    key: Seq<char>,
) -> Result<Option<EntryView>, StoreError>
    decreases records.len(),
{
    if records.len() == 0 {
        match end {
            None => Ok(None),
            Some(StoreError::UnexpectedEof) => Ok(None),
            Some(e) => Err(e),
        }
    } else if records[0].1.key == key {
        Ok(Some(record_entry(records[0].1)))
    } else if key_lt(key, records[0].1.key) {
        Ok(None)
    } else {
        scan(records.drop_first(), end, key)
    }
}

/// How many places at the start have keys that do not come after `key`.
pub open spec fn places_up_to(sparse: Places, key: Seq<char>) -> nat
    decreases sparse.len(),
{
    if sparse.len() == 0 || key_lt(key, sparse[0].0) {
        0
    } else {
        1 + places_up_to(sparse.drop_first(), key)
    }
}

/// The offset at which the search for a key begins.
pub open spec fn search_offset(sparse: Places, key: Seq<char>) -> u64 {
    let n = places_up_to(sparse, key) as int;
    if n > 0 {
        sparse[n - 1].1
    } else {
        0
    }
}

/// What a table gives for a key.
pub open spec fn table_lookup(files: Files, t: TableView, key: Seq<char>) -> Result<
    Option<EntryView>,
    StoreError,
> {
    if !t.index.bloom.might_contain(key) {
        Ok(None)
    } else if !files.contains_key(t.path) {
        Err(StoreError::FileNotFound)
    } else {
        let (records, end) = parse_stream(
            files[t.path],
            search_offset(t.index.sparse, key) as int,
        );
        scan(records, end, key)
    }
}

/// The records of a table's file. A torn record at the end is left out.
pub open spec fn read_table(files: Files, path: Seq<char>) -> Result<
    Seq<(int, RecordView)>,
    StoreError,
> {
    if !files.contains_key(path) {
        Err(StoreError::FileNotFound)
    } else {
        let (records, end) = parse_stream(files[path], 0);
        match end {
            None => Ok(records),
            Some(StoreError::UnexpectedEof) => Ok(records),
            Some(e) => Err(e),
        }
    }
}

/// Whether a table's file is there and whole, in order, and as the index in memory
/// says.
pub open spec fn table_valid(files: Files, t: TableView) -> bool {
    let records = parse_stream(files[t.path], 0).0;
    &&& files.contains_key(t.path)
    &&& files[t.path].len() <= u64::MAX
    &&& parse_stream(files[t.path], 0).1 is None
    &&& strictly_sorted(record_keys(records))
    &&& t.index == index_of(places_of(records))
}

/// What a table gives its keys.
pub open spec fn table_entries(files: Files, t: TableView) -> Map<Seq<char>, EntryView> {
    entries_of(parse_stream(files[t.path], 0).0)
}

/// What a map holds for a key.
pub open spec fn lookup<T>(m: Map<Seq<char>, T>, key: Seq<char>) -> Option<T> {
    if m.contains_key(key) {
        Some(m[key])
    } else {
        None
    }
}

/// Reading from the position of a record gives that record and those after it.
proof fn lemma_stream_from(data: Seq<u8>, pos: int, i: int)
    requires
        0 <= pos <= data.len(),
        0 <= i < parse_stream(data, pos).0.len(),
    ensures
        parse_stream(data, parse_stream(data, pos).0[i].0) == (
            parse_stream(data, pos).0.skip(i),
            parse_stream(data, pos).1,
        ),
    decreases i,
{
    let (all, end) = parse_stream(data, pos);
    lemma_parse_record_len(data.skip(pos));
    if i == 0 {
        assert(all.skip(0) =~= all);
    } else {
        let (r, n) = parse_record(data.skip(pos))->Ok_0;
        lemma_stream_from(data, pos + n, i - 1);
        assert(all.skip(i) =~= parse_stream(data, pos + n).0.skip(i - 1));
    }
}

/// The entries of records in order are those of the records, each once.
pub proof fn lemma_entries_of(records: Seq<(int, RecordView)>)
    requires
        strictly_sorted(record_keys(records)),
    ensures
        forall|k: Seq<char>| #[trigger]
            entries_of(records).contains_key(k) <==> record_keys(records).contains(k),
        forall|i: int|
            0 <= i < records.len() ==> entries_of(records).contains_key(
                (#[trigger] records[i]).1.key,
            ) && entries_of(records)[records[i].1.key] == record_entry(records[i].1),
    decreases records.len(),
{
    let keys = record_keys(records);
    if records.len() > 0 {
        let init = records.drop_last();
        let ik = record_keys(init);
        assert(ik =~= keys.drop_last());
        assert forall|i: int, j: int| 0 <= i < j < ik.len() implies key_lt(
            #[trigger] ik[i],
            #[trigger] ik[j],
        ) by {
            assert(key_lt(keys[i], keys[j]));
        }
        lemma_entries_of(init);
        let last = records.last().1.key;
        assert forall|k: Seq<char>| #[trigger]
            entries_of(records).contains_key(k) <==> keys.contains(k) by {
            if entries_of(init).contains_key(k) {
                assert(keys[ik.index_of(k)] == k);
            }
            if k == last {
                assert(keys[keys.len() - 1] == k);
            }
            if keys.contains(k) {
                let i = keys.index_of(k);
                if i < ik.len() {
                    assert(ik[i] == k);
                    assert(ik.contains(k));
                }
            }
        }
        assert forall|i: int| 0 <= i < records.len() implies entries_of(records).contains_key(
            (#[trigger] records[i]).1.key,
        ) && entries_of(records)[records[i].1.key] == record_entry(records[i].1) by {
            assert(keys[i] == records[i].1.key);
            if i < init.len() {
                assert(init[i] == records[i]);
                assert(keys[keys.len() - 1] == last);
                lemma_key_lt_total(keys[i], last);
            }
        }
    }
}

/// Going through records in order finds the key if it is there.
proof fn lemma_scan(records: Seq<(int, RecordView)>, key: Seq<char>)
    requires
        strictly_sorted(record_keys(records)),
    ensures
        scan(records, None, key) == Ok::<Option<EntryView>, StoreError>(
            lookup(entries_of(records), key),
        ),
    decreases records.len(),
{
    let keys = record_keys(records);
    lemma_entries_of(records);
    if records.len() > 0 {
        assert(keys[0] == records[0].1.key);
        let rest = records.drop_first();
        let rk = record_keys(rest);
        assert forall|i: int, j: int| 0 <= i < j < rk.len() implies key_lt(
            #[trigger] rk[i],
            #[trigger] rk[j],
        ) by {
            assert(rk[i] == keys[i + 1]);
            assert(rk[j] == keys[j + 1]);
        }
        lemma_scan(rest, key);
        lemma_entries_of(rest);
        lemma_key_lt_total(key, keys[0]);
        if records[0].1.key == key {
        } else if key_lt(key, keys[0]) {
            if keys.contains(key) {
                let i = keys.index_of(key);
                assert(key_lt(keys[0], keys[i]));
                lemma_key_lt_total(key, keys[0]);
            }
        } else {
            assert(keys.contains(key) <==> rk.contains(key)) by {
                if keys.contains(key) {
                    assert(rk[keys.index_of(key) - 1] == key);
                }
                if rk.contains(key) {
                    assert(keys[rk.index_of(key) + 1] == key);
                }
            }
            if rk.contains(key) {
                let i = rk.index_of(key);
                assert(rest[i].1.key == key);
                assert(records[i + 1] == rest[i]);
            }
        }
    }
}

proof fn lemma_places_up_to(sparse: Places, key: Seq<char>)
    ensures
        places_up_to(sparse, key) <= sparse.len(),
        forall|i: int|
            0 <= i < places_up_to(sparse, key) ==> !key_lt(key, (#[trigger] sparse[i]).0),
        places_up_to(sparse, key) < sparse.len() ==> key_lt(
            key,
            sparse[places_up_to(sparse, key) as int].0,
        ),
    decreases sparse.len(),
{
    if sparse.len() > 0 && !key_lt(key, sparse[0].0) {
        let rest = sparse.drop_first();
        lemma_places_up_to(rest, key);
        assert forall|i: int| 0 <= i < places_up_to(sparse, key) implies !key_lt(
            key,
            (#[trigger] sparse[i]).0,
        ) by {
            if i > 0 {
                assert(sparse[i] == rest[i - 1]);
            }
        }
    }
}

/// A valid table gives for a key what its records say.
pub proof fn lemma_table_lookup(files: Files, t: TableView, key: Seq<char>)
    requires
        table_valid(files, t),
    ensures
        table_lookup(files, t, key) == Ok::<Option<EntryView>, StoreError>(
            lookup(table_entries(files, t), key),
        ),
{
    let data = files[t.path];
    let (records, end) = parse_stream(data, 0);
    let keys = record_keys(records);
    let places = places_of(records);
    let sparse = t.index.sparse;
    lemma_entries_of(records);
    assert(place_keys(places) =~= keys);
    if !t.index.bloom.might_contain(key) {
        if keys.contains(key) {
            lemma_no_false_negatives(
                BloomView::empty(bloom_size(places.len()), BLOOM_HASH_COUNT),
                keys,
                keys.index_of(key),
            );
        }
    } else {
        lemma_places_up_to(sparse, key);
        let n = places_up_to(sparse, key) as int;
        if n == 0 {
            lemma_scan(records, key);
        } else {
            let m = (n - 1) * SPARSE_INDEX_INTERVAL;
            assert(0 <= m < records.len()) by (nonlinear_arith)
                requires
                    m == (n - 1) * 64,
                    1 <= n <= (records.len() + 63) / 64,
            ;
            assert(sparse[n - 1] == places[m]);
            assert(places[m] == (records[m].1.key, records[m].0 as u64));
            crate::record::lemma_parse_stream_at(data, 0, m);
            lemma_stream_from(data, 0, m);
            let tail = records.skip(m);
            let tk = record_keys(tail);
            assert forall|i: int, j: int| 0 <= i < j < tk.len() implies key_lt(
                #[trigger] tk[i],
                #[trigger] tk[j],
            ) by {
                assert(tk[i] == keys[i + m]);
                assert(tk[j] == keys[j + m]);
            }
            lemma_scan(tail, key);
            lemma_entries_of(tail);
            assert(!key_lt(key, sparse[n - 1].0));
            assert(keys.contains(key) <==> tk.contains(key)) by {
                if keys.contains(key) {
                    let i = keys.index_of(key);
                    if i < m {
                        assert(key_lt(keys[i], keys[m]));
                    } else {
                        assert(tk[i - m] == key);
                    }
                }
                if tk.contains(key) {
                    assert(keys[tk.index_of(key) + m] == key);
                }
            }
            if tk.contains(key) {
                let i = tk.index_of(key);
                assert(tail[i].1.key == key);
                assert(records[i + m] == tail[i]);
            }
        }
    }
}

/// Goes through the records of a table's file, one by one.
pub struct SSTableIter<'a> {
    data: &'a [u8],
    pos: usize,
}

impl<'a> SSTableIter<'a> {
    /// The bytes that were not read yet.
    pub closed spec fn rest(&self) -> Seq<u8> {
        self.data@.skip(self.pos as int)
    }

    pub closed spec fn wf(&self) -> bool {
        self.pos <= self.data@.len()
    }

    /// The next record. A torn one ends the walk; any other error is handed out.
    pub fn next(&mut self) -> (r: Option<Result<Record, StoreError>>)
        requires
            old(self).wf(),
        ensures
            final(self).wf(),
            match r {
                Some(Ok(rec)) => rec.sized() && match parse_record(old(self).rest()) {
                    Ok((v, n)) => v == rec@ && n <= old(self).rest().len() && final(self).rest()
                        == old(self).rest().skip(n as int),
                    Err(_) => false,
                },
                Some(Err(e)) => e != StoreError::UnexpectedEof && parse_record(old(self).rest())
                    == Err::<(RecordView, nat), StoreError>(e) && final(self).rest() == old(
                    self).rest(),
                None => parse_record(old(self).rest()) == Err::<(RecordView, nat), StoreError>(
                    StoreError::UnexpectedEof,
                ) && final(self).rest() == old(self).rest(),
            },
    {
        match Record::read_next(self.data, self.pos) {
            Ok((rec, next)) => {
                assert(self.data@.skip(self.pos as int).skip(next - self.pos) =~= self.data@.skip(
                    next as int,
                ));
                self.pos = next;
                Some(Ok(rec))
            },
            Err(e) => {
                if e.kind() == ErrorKind::UnexpectedEof {
                    proof {
                        lemma_eof_kind(e);
                    }
                    None
                } else {
                    Some(Err(e))
                }
            },
        }
    }
}

proof fn lemma_eof_kind(e: StoreError)
    requires
        e.spec_kind() == ErrorKind::UnexpectedEof,
    ensures
        e == StoreError::UnexpectedEof,
{
}

/// What the records of a vector say.
pub open spec fn record_views(v: Seq<Record>) -> Seq<RecordView> {
    v.map_values(|r: Record| r@)
}

/// The records without their positions.
pub open spec fn without_positions(records: Seq<(int, RecordView)>) -> Seq<RecordView> {
    records.map_values(|t: (int, RecordView)| t.1)
}

fn build_index(places: &Vec<(String, u64)>) -> (r: (
    Vec<(String, u64)>,
    BloomFilter,
    Option<String>,
    Option<String>,
))
    requires
        places@.len() * 21 <= usize::MAX,
    ensures
        (TableIndex {
            sparse: place_views(r.0@),
            bloom: r.1@,
            min: option_view(r.2),
            max: option_view(r.3),
        }) == index_of(place_views(places@)),
        r.1@.usable(),
{
    let n = places.len();
    let ghost pv = place_views(places@);
    let bytes: usize = (n * BLOOM_BITS_PER_KEY + 7) / 8;
    let size: usize = if bytes == 0 {
        1
    } else {
        bytes
    };
    let mut bloom = BloomFilter::new(size, BLOOM_HASH_COUNT);
    let ghost keys = place_keys(pv);
    let ghost empty = bloom@;
    let mut sparse: Vec<(String, u64)> = Vec::new();
    assert(keys.take(0) =~= Seq::<Seq<char>>::empty());
    for i in 0..n
        invariant
            n == places@.len(),
            pv == place_views(places@),
            keys == place_keys(pv),
            keys.len() == n,
            empty == BloomView::empty(bloom_size(n as nat), BLOOM_HASH_COUNT),
            empty.usable(),
            bloom@ == empty.insert_all(keys.take(i as int)),
            sparse@.len() == (i + 63) / 64,
            forall|j: int|
                0 <= j < sparse@.len() ==> place_views(sparse@)[j] == #[trigger] pv[j * 64],
    {
        let p = &places[i];
        assert(pv[i as int] == (p.0@, p.1));
        assert(keys[i as int] == p.0@);
        proof {
            crate::bloom::lemma_insert_all_shape(empty, keys.take(i as int));
        }
        if i % SPARSE_INDEX_INTERVAL == 0 {
            let ghost before = sparse@;
            let ghost m = sparse@.len();
            sparse.push((p.0.clone(), p.1));
            assert(m * 64 == i);
            assert forall|j: int| 0 <= j < sparse@.len() implies place_views(sparse@)[j]
                == #[trigger] pv[j * 64] by {
                if j < m {
                    assert(place_views(before)[j] == pv[j * 64]);
                }
            }
        }
        bloom.insert(p.0.as_str());
        assert(keys.take(i + 1).drop_last() =~= keys.take(i as int));
    }
    proof {
        assert(keys.take(n as int) =~= keys);
        crate::bloom::lemma_insert_all_shape(empty, keys);
        assert forall|j: int| 0 <= j < sparse@.len() implies place_views(sparse@)[j] == sparse_of(
            pv,
        )[j] by {
            assert(place_views(sparse@)[j] == pv[j * 64]);
        }
        assert(place_views(sparse@) =~= sparse_of(pv));
    }
    let min = if n > 0 {
        assert(pv[0] == (places@[0].0@, places@[0].1));
        Some(places[0].0.clone())
    } else {
        None
    };
    let max = if n > 0 {
        assert(pv[n - 1] == (places@[n - 1].0@, places@[n - 1].1));
        Some(places[n - 1].0.clone())
    } else {
        None
    };
    (sparse, bloom, min, max)
}

/// A table as its file gives it back.
pub open spec fn rebuilt(files: Files, id: TableId, path: Seq<char>) -> Result<
    TableView,
    StoreError,
> {
    match read_table(files, path) {
        Ok(records) => Ok(TableView { id, path, index: index_of(places_of(records)) }),
        Err(e) => Err(e),
    }
}

/// The table of a map that is written to a file.
pub open spec fn written_table(id: TableId, m: Map<Seq<char>, EntryView>) -> TableView {
    TableView {
        id,
        path: table_filename(id),
        index: index_of(places_of(stream_records(entry_records(m, keys_in_order(m))))),
    }
}

/// The bytes of the table of a map.
pub open spec fn table_bytes(m: Map<Seq<char>, EntryView>) -> Seq<u8> {
    stream_bytes(entry_records(m, keys_in_order(m)))
}

proof fn lemma_stream_len(rs: Seq<RecordView>)
    ensures
        stream_bytes(rs).len() >= 21 * rs.len(),
    decreases rs.len(),
{
    if rs.len() > 0 {
        lemma_stream_len(rs.drop_last());
        lemma_encoded_len(rs.last());
    }
}

/// The records that a map is written as.
proof fn lemma_entry_records(
    m: Map<Seq<char>, EntryView>,
    keys: Seq<Seq<char>>,
    i: int,
)
    requires
        0 <= i < keys.len(),
    ensures
        entry_records(m, keys.take(i + 1)).drop_last() == entry_records(m, keys.take(i)),
        entry_records(m, keys.take(i + 1)).last() == entry_record(keys[i], m[keys[i]]),
{
    assert(entry_records(m, keys.take(i + 1)).drop_last() =~= entry_records(m, keys.take(i)));
}

/// Whether a map can be written as a table and read back.
pub open spec fn writable(m: Map<Seq<char>, EntryView>) -> bool {
    forall|k: Seq<char>| #[trigger]
        m.contains_key(k) ==> within_limits(entry_record(k, m[k])) && (m[k].value is None
            ==> m[k].expiry_ms is None)
}

/// A map that was written as a table is what the table gives its keys.
pub proof fn lemma_written_table(
    files: Files,
    id: TableId,
    m: Map<Seq<char>, EntryView>,
)
    requires
        crate::sorted_map::orderable(m),
        writable(m),
        table_bytes(m).len() <= u64::MAX,
        files.contains_key(table_filename(id)),
        files[table_filename(id)] == table_bytes(m),
    ensures
        table_valid(files, written_table(id, m)),
        table_entries(files, written_table(id, m)) == m,
{
    let keys = keys_in_order(m);
    let rs = entry_records(m, keys);
    crate::sorted_map::lemma_orderable(m);
    assert forall|i: int| 0 <= i < rs.len() implies within_limits(#[trigger] rs[i]) by {
        assert(keys.contains(keys[i]));
        assert(m.contains_key(keys[i]));
    }
    lemma_stream_roundtrip(rs);
    let records = stream_records(rs);
    assert(record_keys(records) =~= keys);
    lemma_entries_of(records);
    assert forall|k: Seq<char>| #[trigger] m.contains_key(k) implies entries_of(records)[k] == m[k] by {
        assert(keys.contains(k));
        let i = keys.index_of(k);
        assert(records[i].1 == entry_record(k, m[k]));
        assert(records[i].1.key == k);
    }
    assert(entries_of(records) =~= m);
}

impl SSTable {
    pub closed spec fn wf(&self) -> bool {
        self.bloom@.usable()
    }

    fn file_name(name: &str, level: Option<usize>, timestamp: u64) -> (s: String)
        ensures
            s@ == table_filename(TableId { name: name@, level, timestamp }),
    {
        proof {
            reveal_strlit("_L");
            reveal_strlit("_");
            reveal_strlit(".sst");
        }
        let prefix = match level {
            Some(n) => String::from_str(name).concat("_L").concat(
                decimal_string(n as u64).as_str(),
            ),
            None => String::from_str(name),
        };
        let s = prefix.concat("_").concat(decimal_string(timestamp).as_str()).concat(".sst");
        assert(s@ =~= table_filename(TableId { name: name@, level, timestamp }));
        s
    }

    /// Writes a memtable to a new table. Its entries come in the order of their
    /// keys. A file of that name must not be there yet.
    pub fn from_memtable(
        dir: &mut Directory,
        name: &str,
        memtable: &Memtable,
        level: Option<usize>,
        timestamp: u64,
    ) -> (r: Result<SSTable, StoreError>)
        requires
            old(dir).wf(),
            memtable.wf(),
        ensures
            final(dir).wf(),
            final(dir).base() == old(dir).base(),
            ({
                let id = TableId { name: name@, level, timestamp };
                match r {
                    Ok(t) => {
                        &&& t.wf()
                        &&& !old(dir)@.contains_key(table_filename(id))
                        &&& t@ == written_table(id, memtable@.entries)
                        &&& table_bytes(memtable@.entries).len() <= usize::MAX
                        &&& final(dir)@ == old(dir)@.insert(
                            table_filename(id),
                            table_bytes(memtable@.entries),
                        )
                        &&& final(dir).pending() == old(dir).pending().push(
                            final(dir).pending().last(),
                        )
                        &&& fills(
                            final(dir).pending().last(),
                            table_filename(id),
                            table_bytes(memtable@.entries),
                        )
                    },
                    Err(e) => {
                        &&& old(dir)@.contains_key(table_filename(id))
                        &&& e == StoreError::FileExists
                        &&& *final(dir) == *old(dir)
                    },
                }
            }),
    {
        SSTable::from_entries(dir, name, memtable.entries(), level, timestamp)
    }

    /// Writes the entries of a map to a new table, in the order of their keys.
    pub fn from_entries(
        dir: &mut Directory,
        name: &str,
        entries: &StringMap<MemtableEntry>,
        level: Option<usize>,
        timestamp: u64,
    ) -> (r: Result<SSTable, StoreError>)
        requires
            old(dir).wf(),
            entries.wf(),
        ensures
            final(dir).wf(),
            final(dir).base() == old(dir).base(),
            ({
                let id = TableId { name: name@, level, timestamp };
                match r {
                    Ok(t) => {
                        &&& t.wf()
                        &&& !old(dir)@.contains_key(table_filename(id))
                        &&& t@ == written_table(id, entries@)
                        &&& table_bytes(entries@).len() <= usize::MAX
                        &&& final(dir)@ == old(dir)@.insert(
                            table_filename(id),
                            table_bytes(entries@),
                        )
                        &&& final(dir).pending() == old(dir).pending().push(
                            final(dir).pending().last(),
                        )
                        &&& fills(
                            final(dir).pending().last(),
                            table_filename(id),
                            table_bytes(entries@),
                        )
                    },
                    Err(e) => {
                        &&& old(dir)@.contains_key(table_filename(id))
                        &&& e == StoreError::FileExists
                        &&& *final(dir) == *old(dir)
                    },
                }
            }),
    {
        let path = SSTable::file_name(name, level, timestamp);
        if dir.contains(path.as_str()) {
            return Err(StoreError::FileExists);
        }
        let ghost m = entries@;
        let ghost keys = keys_in_order(m);
        let ghost rs = entry_records(m, keys);
        proof {
            entries.lemma_keys();
            assert(keys.take(0) =~= Seq::<Seq<char>>::empty());
            assert(entry_records(m, keys.take(0)) =~= Seq::<RecordView>::empty());
        }
        let mut data: Vec<u8> = Vec::new();
        let mut places: Vec<(String, u64)> = Vec::new();
        let n = entries.len();
        for i in 0..n
            invariant
                entries.wf(),
                entries@ == m,
                entries.keys_seq() == keys,
                n == keys.len(),
                rs == entry_records(m, keys),
                data@ == stream_bytes(entry_records(m, keys.take(i as int))),
                places@.len() == i,
                forall|j: int|
                    0 <= j < i ==> place_views(places@)[j] == (
                        (#[trigger] keys[j]),
                        stream_bytes(rs.take(j)).len() as u64,
                    ),
        {
            let key = entries.key_at(i);
            let entry = entries.value_at(i);
            proof {
                entries.lemma_at(i as int);
                lemma_entry_records(m, keys, i as int);
                assert(entry_records(m, keys.take(i as int)) =~= rs.take(i as int));
            }
            let record = match &entry.value {
                Some(v) => Record::build(key.clone(), v.clone(), false, entry.expiry_ms),
                None => Record::build(key.clone(), String::new(), true, None),
            };
            assert(record@.value =~= entry_record(key@, entry@).value);
            assert(record@ == entry_record(key@, entry@));
            let ghost before = places@;
            places.push((key.clone(), data.len() as u64));
            assert forall|j: int| 0 <= j < i + 1 implies place_views(places@)[j] == (
                (#[trigger] keys[j]),
                stream_bytes(rs.take(j)).len() as u64,
            ) by {
                if j < i {
                    assert(place_views(before)[j] == (
                        keys[j],
                        stream_bytes(rs.take(j)).len() as u64,
                    ));
                }
            }
            push_all(&mut data, record.to_be_bytes().as_slice());
        }
        proof {
            assert(keys.take(n as int) =~= keys);
            lemma_stream_len(rs);
            assert(data@.len() == data.len());
            assert(place_views(places@) =~= places_of(stream_records(rs))) by {
                assert forall|j: int| 0 <= j < n implies place_views(places@)[j] == places_of(
                    stream_records(rs),
                )[j] by {
                    assert(place_views(places@)[j] == (
                        keys[j],
                        stream_bytes(rs.take(j)).len() as u64,
                    ));
                }
            }
        }
        let (sparse_index, bloom, min_key, max_key) = build_index(&places);
        dir.replace(path.as_str(), data);
        Ok(
            SSTable {
                path,
                timestamp,
                level,
                name: String::from_str(name),
                sparse_index,
                bloom,
                min_key,
                max_key,
            },
        )
    }

    /// The value of a key in this table: nothing where the table does not have the
    /// key, and nothing in place of a value where the key was deleted.
    pub fn get(&self, dir: &Directory, key: &str) -> (r: Result<Option<Option<String>>, StoreError>)
        requires
            self.wf(),
            dir.wf(),
        ensures
            match r {
                Ok(Some(v)) => match table_lookup(dir@, self@, key@) {
                    Ok(Some(e)) => option_view(v) == e.value,
                    _ => false,
                },
                Ok(None) => table_lookup(dir@, self@, key@) == Ok::<Option<EntryView>, StoreError>(
                    None,
                ),
                Err(e) => table_lookup(dir@, self@, key@) == Err::<Option<EntryView>, StoreError>(
                    e,
                ),
            },
    {
        match self.get_entry(dir, key) {
            Ok(Some(e)) => Ok(Some(e.value)),
            Ok(None) => Ok(None),
            Err(e) => Err(e),
        }
    }

    /// The entry of a key in this table.
    ///
    /// The filter rules out most keys that are not there. For the others the search
    /// begins at the nearest place before them that is kept in memory.
    pub fn get_entry(&self, dir: &Directory, key: &str) -> (r: Result<
        Option<MemtableEntry>,
        StoreError,
    >)
        requires
            self.wf(),
            dir.wf(),
        ensures
            match r {
                Ok(Some(e)) => table_lookup(dir@, self@, key@) == Ok::<
                    Option<EntryView>,
                    StoreError,
                >(Some(e@)),
                Ok(None) => table_lookup(dir@, self@, key@) == Ok::<Option<EntryView>, StoreError>(
                    None,
                ),
                Err(e) => table_lookup(dir@, self@, key@) == Err::<Option<EntryView>, StoreError>(
                    e,
                ),
            },
    {
        if !self.bloom.might_contain(key) {
            return Ok(None);
        }
        let offset = self.get_offset(key);
        let data = match dir.read(self.path.as_str()) {
            Ok(d) => d.as_slice(),
            Err(e) => {
                return Err(e);
            },
        };
        if offset > data.len() as u64 {
            return Ok(None);
        }
        let mut pos: usize = offset as usize;
        let ghost goal = table_lookup(dir@, self@, key@);
        while pos < data.len()
            invariant
                pos <= data@.len(),
                goal == scan(
                    parse_stream(data@, pos as int).0,
                    parse_stream(data@, pos as int).1,
                    key@,
                ),
                goal == table_lookup(dir@, self@, key@),
            decreases data@.len() - pos,
        {
            let (record, next) = match Record::read_next(data, pos) {
                Ok(x) => x,
                Err(e) => {
                    if e.kind() == ErrorKind::UnexpectedEof {
                        proof {
                            lemma_eof_kind(e);
                        }
                        return Ok(None);
                    }
                    return Err(e);
                },
            };
            proof {
                lemma_parse_record_len(data@.skip(pos as int));
                let all = parse_stream(data@, pos as int).0;
                let rest = parse_stream(data@, next as int).0;
                assert(all == seq![(pos as int, record@)] + rest);
                assert(all.drop_first() =~= rest);
                lemma_key_lt_total(record@.key, key@);
            }
            match rank(record.key.as_str(), key) {
                Rank::After => {
                    return Ok(None);
                },
                Rank::Same => {
                    if record.header.tombstone {
                        return Ok(Some(MemtableEntry { value: None, expiry_ms: None }));
                    }
                    return Ok(
                        Some(
                            MemtableEntry {
                                value: Some(record.value),
                                expiry_ms: record.header.expiry_ms,
                            },
                        ),
                    );
                },
                Rank::Before => {},
            }
            pos = next;
        }
        Ok(None)
    }

    /// The offset at which the search for a key begins.
    fn get_offset(&self, key: &str) -> (offset: u64)
        ensures
            offset == search_offset(self@.index.sparse, key@),
    {
        let ghost sparse = self@.index.sparse;
        let mut i: usize = 0;
        assert(sparse.skip(0) =~= sparse);
        while i < self.sparse_index.len()
            invariant
                i <= self.sparse_index@.len(),
                sparse == place_views(self.sparse_index@),
                sparse == self@.index.sparse,
                places_up_to(sparse, key@) == i + places_up_to(sparse.skip(i as int), key@),
            decreases self.sparse_index@.len() - i,
        {
            let p = &self.sparse_index[i];
            assert(sparse[i as int] == (p.0@, p.1));
            assert(sparse.skip(i as int)[0] == sparse[i as int]);
            assert(sparse.skip(i as int).drop_first() =~= sparse.skip(i + 1));
            proof {
                lemma_key_lt_total(p.0@, key@);
            }
            match rank(p.0.as_str(), key) {
                Rank::After => {
                    assert(places_up_to(sparse, key@) == i);
                    if i > 0 {
                        assert(sparse[i - 1] == (
                            self.sparse_index@[i - 1].0@,
                            self.sparse_index@[i - 1].1,
                        ));
                        return self.sparse_index[i - 1].1;
                    }
                    return 0;
                },
                _ => {},
            }
            i = i + 1;
        }
        assert(sparse.skip(i as int) =~= Seq::<(Seq<char>, u64)>::empty());
        if i > 0 {
            assert(sparse[i - 1] == (self.sparse_index@[i - 1].0@, self.sparse_index@[i - 1].1));
            self.sparse_index[i - 1].1
        } else {
            0
        }
    }

    /// The name of the table's file.
    pub fn path_str(&self) -> (s: &str)
        ensures
            s@ == self@.path,
    {
        self.path.as_str()
    }

    /// Whether the table may have the key.
    pub fn might_contain(&self, key: &str) -> (r: bool)
        requires
            self.wf(),
        ensures
            r == self@.index.bloom.might_contain(key@),
    {
        self.bloom.might_contain(key)
    }

    /// The first key.
    pub fn get_min(&self) -> (r: Option<&String>)
        ensures
            match r {
                Some(k) => self@.index.min == Some(k@),
                None => self@.index.min is None,
            },
    {
        match &self.min_key {
            Some(k) => Some(k),
            None => None,
        }
    }

    /// The last key.
    pub fn get_max(&self) -> (r: Option<&String>)
        ensures
            match r {
                Some(k) => self@.index.max == Some(k@),
                None => self@.index.max is None,
            },
    {
        match &self.max_key {
            Some(k) => Some(k),
            None => None,
        }
    }

    /// When the table was begun.
    pub fn begun(&self) -> (n: u64)
        ensures
            n == self@.id.timestamp,
    {
        self.timestamp
    }

    /// The level that the table's name gives.
    pub fn get_level(&self) -> (n: Option<usize>)
        ensures
            n == self@.id.level,
    {
        self.level
    }

    /// The number of bytes of the table's file.
    pub fn size_on_disk(&self, dir: &Directory) -> (r: Result<u64, StoreError>)
        requires
            dir.wf(),
        ensures
            match r {
                Ok(n) => dir@.contains_key(self@.path) && n == dir@[self@.path].len(),
                Err(e) => !dir@.contains_key(self@.path) && e == StoreError::FileNotFound,
            },
    {
        match dir.read(self.path.as_str()) {
            Ok(data) => Ok(data.len() as u64),
            Err(e) => Err(e),
        }
    }

    /// Walks the records of the table.
    pub fn iter<'a>(&self, dir: &'a Directory) -> (r: Result<SSTableIter<'a>, StoreError>)
        requires
            dir.wf(),
        ensures
            match r {
                Ok(it) => it.wf() && dir@.contains_key(self@.path) && it.rest() == dir@[self@.path],
                Err(e) => !dir@.contains_key(self@.path) && e == StoreError::FileNotFound,
            },
    {
        match dir.read(self.path.as_str()) {
            Ok(data) => {
                assert(data@.skip(0) =~= data@);
                Ok(SSTableIter { data: data.as_slice(), pos: 0 })
            },
            Err(e) => Err(e),
        }
    }

    /// All records of the table.
    pub fn read_all(&self, dir: &Directory) -> (r: Result<Vec<Record>, StoreError>)
        requires
            dir.wf(),
        ensures
            match r {
                Ok(v) => match read_table(dir@, self@.path) {
                    Ok(records) => record_views(v@) == without_positions(records),
                    Err(_) => false,
                },
                Err(e) => read_table(dir@, self@.path) == Err::<
                    Seq<(int, RecordView)>,
                    StoreError,
                >(e),
            },
    {
        let mut it = match self.iter(dir) {
            Ok(it) => it,
            Err(e) => {
                return Err(e);
            },
        };
        let mut out: Vec<Record> = Vec::new();
        let ghost data = dir@[self@.path];
        let ghost mut pos: int = 0;
        let ghost all = parse_stream(data, 0);
        proof {
            assert(data.skip(0) =~= data);
            assert(record_views(out@) + without_positions(all.0) =~= without_positions(all.0));
        }
        loop
            invariant
                it.wf(),
                0 <= pos <= data.len(),
                it.rest() == data.skip(pos),
                all == parse_stream(data, 0),
                data == dir@[self@.path],
                dir@.contains_key(self@.path),
                record_views(out@) + without_positions(parse_stream(data, pos).0)
                    == without_positions(all.0),
                all.1 == parse_stream(data, pos).1,
            decreases data.len() - pos,
        {
            let ghost (left, end) = parse_stream(data, pos);
            proof {
                lemma_parse_record_len(data.skip(pos));
                if pos == data.len() {
                    reveal(parse_record);
                }
            }
            match it.next() {
                Some(Ok(rec)) => {
                    let ghost before = record_views(out@);
                    let ghost v = rec@;
                    out.push(rec);
                    proof {
                        let (r, n) = parse_record(data.skip(pos))->Ok_0;
                        let rest = parse_stream(data, pos + n).0;
                        assert(left == seq![(pos, r)] + rest);
                        assert(record_views(out@) =~= before.push(v));
                        assert(without_positions(left) =~= seq![v] + without_positions(rest));
                        assert(before + (seq![v] + without_positions(rest)) =~= before.push(v)
                            + without_positions(rest));
                        assert(data.skip(pos).skip(n as int) =~= data.skip(pos + n));
                        pos = pos + n;
                    }
                },
                Some(Err(e)) => {
                    return Err(e);
                },
                None => {
                    proof {
                        assert(without_positions(left) =~= Seq::<RecordView>::empty());
                        assert(record_views(out@) + Seq::<RecordView>::empty() =~= record_views(
                            out@,
                        ));
                    }
                    return Ok(out);
                },
            }
        }
    }

    /// The table that a file name stands for, with nothing known of its records.
    pub fn parse(filename: &str) -> (r: Option<Self>)
        ensures
            match r {
                Some(t) => {
                    &&& t.wf()
                    &&& parse_table(filename@) == Some(t@.id)
                    &&& t@.path == Seq::<char>::empty()
                },
                None => parse_table(filename@) is None,
            },
    {
        proof {
            reveal_strlit(".sst");
            assert(".sst"@ =~= seq!['.', 's', 's', 't']);
        }
        let stem = match strip_suffix(filename, ".sst") {
            Some(s) => s,
            None => {
                return None;
            },
        };
        let (rest, ts) = match rsplit_once(stem, '_') {
            Some(x) => x,
            None => {
                return None;
            },
        };
        let timestamp = match parse_u64(ts) {
            Some(n) => n,
            None => {
                return None;
            },
        };
        let (name, level) = SSTable::split_level(rest);
        let path = String::new();
        assert(path@ =~= Seq::<char>::empty());
        Some(
            SSTable {
                path,
                timestamp,
                level,
                name,
                sparse_index: Vec::new(),
                bloom: BloomFilter::new(1, BLOOM_HASH_COUNT),
                min_key: None,
                max_key: None,
            },
        )
    }

    fn split_level(rest: &str) -> (r: (String, Option<usize>))
        ensures
            match split_level(rest@) {
                Some((name, level)) => r.0@ == name && r.1 == Some(level),
                None => r.0@ == rest@ && r.1 is None,
            },
    {
        if let Some((before, tag)) = rsplit_once(rest, '_') {
            let cs = chars_of(tag);
            if cs.len() > 0 && cs[0] == 'L' {
                let digits = tag.substring_char(1, cs.len());
                assert(digits@ =~= tag@.skip(1));
                if let Some(n) = parse_usize(digits) {
                    return (String::from_str(before), Some(n));
                }
            }
        }
        (String::from_str(rest), None)
    }

    /// Goes through the table's file and builds anew what is kept in memory.
    pub fn rebuild_index(&mut self, dir: &Directory) -> (r: Result<(), StoreError>)
        requires
            old(self).wf(),
            dir.wf(),
        ensures
            final(self).wf(),
            match r {
                Ok(_) => rebuilt(dir@, old(self)@.id, old(self)@.path) == Ok::<
                    TableView,
                    StoreError,
                >(final(self)@),
                Err(e) => {
                    &&& rebuilt(dir@, old(self)@.id, old(self)@.path) == Err::<
                        TableView,
                        StoreError,
                    >(e)
                    &&& final(self)@ == old(self)@
                },
            },
    {
        let data = match dir.read(self.path.as_str()) {
            Ok(d) => d.as_slice(),
            Err(e) => {
                return Err(e);
            },
        };
        let mut places: Vec<(String, u64)> = Vec::new();
        let mut pos: usize = 0;
        let ghost all = parse_stream(data@, 0);
        assert(place_views(places@) + places_of(all.0) =~= places_of(all.0));
        while pos < data.len()
            invariant
                pos <= data@.len(),
                places@.len() * 21 <= pos,
                all == parse_stream(data@, 0),
                data@ == dir@[self@.path],
                dir@.contains_key(self@.path),
                *self == *old(self),
                self.wf(),
                place_views(places@) + places_of(parse_stream(data@, pos as int).0) == places_of(
                    all.0,
                ),
                all.1 == parse_stream(data@, pos as int).1,
            decreases data@.len() - pos,
        {
            let ghost left = parse_stream(data@, pos as int).0;
            let (record, next) = match Record::read_next(data, pos) {
                Ok(x) => x,
                Err(e) => {
                    if e.kind() == ErrorKind::UnexpectedEof {
                        proof {
                            lemma_eof_kind(e);
                            assert(places_of(left) =~= Seq::<(Seq<char>, u64)>::empty());
                            assert(place_views(places@) + Seq::<(Seq<char>, u64)>::empty()
                                =~= place_views(places@));
                        }
                        self.set_index(&places);
                        return Ok(());
                    }
                    return Err(e);
                },
            };
            let ghost before = place_views(places@);
            let ghost p = (record@.key, pos as u64);
            places.push((record.key, pos as u64));
            proof {
                lemma_parse_record_len(data@.skip(pos as int));
                let rest = parse_stream(data@, next as int).0;
                assert(left == seq![(pos as int, record@)] + rest);
                assert(place_views(places@) =~= before.push(p));
                assert(places_of(left) =~= seq![p] + places_of(rest));
                assert(before + (seq![p] + places_of(rest)) =~= before.push(p) + places_of(rest));
            }
            pos = next;
        }
        assert(places_of(parse_stream(data@, pos as int).0) =~= Seq::<(Seq<char>, u64)>::empty());
        assert(place_views(places@) + Seq::<(Seq<char>, u64)>::empty() =~= place_views(places@));
        self.set_index(&places);
        Ok(())
    }

    fn set_index(&mut self, places: &Vec<(String, u64)>)
        requires
            places@.len() * 21 <= usize::MAX,
        ensures
            final(self).wf(),
            final(self)@ == (TableView { index: index_of(place_views(places@)), ..old(self)@ }),
    {
        let (sparse_index, bloom, min_key, max_key) = build_index(places);
        self.sparse_index = sparse_index;
        self.bloom = bloom;
        self.min_key = min_key;
        self.max_key = max_key;
    }
}

/// A table that was found, with the name of its file.
pub struct FoundTable {
    pub id: TableId,
    pub path: Seq<char>,
}

/// `s` with `x` put in after the last one whose timestamp is not larger.
pub open spec fn insert_found(s: Seq<FoundTable>, x: FoundTable) -> Seq<FoundTable>
    decreases s.len(),
{
    if s.len() == 0 || s.last().id.timestamp <= x.id.timestamp {
        s.push(x)
    } else {
        insert_found(s.drop_last(), x).push(s.last())
    }
}

/// The tables of `db_name` among files with these names, the oldest first.
pub open spec fn found_tables(names: Seq<Seq<char>>, db_name: Seq<char>) -> Seq<FoundTable>
    decreases names.len(),
{
    if names.len() == 0 {
        Seq::empty()
    } else {
        let before = found_tables(names.drop_last(), db_name);
        match parse_table(names.last()) {
            Some(id) => if id.name == db_name {
                insert_found(before, FoundTable { id, path: names.last() })
            } else {
                before
            },
            None => before,
        }
    }
}

/// Tables as their files give them back. The first that cannot be read stops it.
pub open spec fn rebuilt_all(files: Files, found: Seq<FoundTable>) -> Result<
    Seq<TableView>,
    StoreError,
>
    decreases found.len(),
{
    if found.len() == 0 {
        Ok(Seq::empty())
    } else {
        match rebuilt_all(files, found.drop_last()) {
            Err(e) => Err(e),
            Ok(before) => match rebuilt(files, found.last().id, found.last().path) {
                Err(e) => Err(e),
                Ok(t) => Ok(before.push(t)),
            },
        }
    }
}

proof fn lemma_rebuilt_stops(files: Files, found: Seq<FoundTable>, n: int)
    requires
        0 <= n <= found.len(),
        rebuilt_all(files, found.take(n)) is Err,
    ensures
        rebuilt_all(files, found) == rebuilt_all(files, found.take(n)),
    decreases found.len() - n,
{
    if n == found.len() {
        assert(found.take(n) =~= found);
    } else {
        assert(found.take(n + 1).drop_last() =~= found.take(n));
        lemma_rebuilt_stops(files, found, n + 1);
    }
}

/// The tables that could be read have their files.
pub proof fn lemma_rebuilt_present(files: Files, found: Seq<FoundTable>)
    ensures
        match rebuilt_all(files, found) {
            Ok(tables) => tables.len() == found.len() && forall|i: int|
                0 <= i < tables.len() ==> files.contains_key((#[trigger] tables[i]).path)
                    && tables[i].path == found[i].path && tables[i].id == found[i].id,
            Err(_) => true,
        },
    decreases found.len(),
{
    if found.len() > 0 {
        lemma_rebuilt_present(files, found.drop_last());
    }
}

/// What the tables of a vector are.
pub open spec fn table_views(v: Seq<SSTable>) -> Seq<TableView> {
    v.map_values(|t: SSTable| t@)
}

/// What names the tables of a vector.
pub open spec fn found_views(v: Seq<SSTable>) -> Seq<FoundTable> {
    v.map_values(|t: SSTable| FoundTable { id: t@.id, path: t@.path })
}

/// Whether each of some tables is well-formed.
pub open spec fn tables_wf(v: Seq<SSTable>) -> bool {
    forall|i: int| 0 <= i < v.len() ==> (#[trigger] v[i]).wf()
}

fn insert_by_timestamp(tables: &mut Vec<SSTable>, x: SSTable)
    requires
        tables_wf(old(tables)@),
        x.wf(),
    ensures
        tables_wf(final(tables)@),
        found_views(final(tables)@) == insert_found(
            found_views(old(tables)@),
            FoundTable { id: x@.id, path: x@.path },
        ),
{
    let mut i: usize = tables.len();
    let ghost views = found_views(tables@);
    let ghost y = FoundTable { id: x@.id, path: x@.path };
    assert(views.take(i as int) =~= views);
    assert(insert_found(views, y) + views.skip(i as int) =~= insert_found(views, y));
    while i > 0 && tables[i - 1].timestamp > x.timestamp
        invariant
            i <= tables@.len(),
            views == found_views(tables@),
            y == (FoundTable { id: x@.id, path: x@.path }),
            insert_found(views, y) == insert_found(views.take(i as int), y) + views.skip(i as int),
        decreases i,
    {
        assert(views[i - 1].id == tables@[i - 1]@.id);
        assert(views.take(i as int).last() == views[i - 1]);
        assert(views.take(i as int).drop_last() =~= views.take(i - 1));
        assert(insert_found(views.take(i - 1), y).push(views[i - 1]) + views.skip(i as int)
            =~= insert_found(views.take(i - 1), y) + views.skip(i - 1));
        i = i - 1;
    }
    proof {
        if i > 0 {
            assert(views[i - 1].id == tables@[i - 1]@.id);
            assert(views.take(i as int).last() == views[i - 1]);
        }
    }
    tables.insert(i, x);
    assert(found_views(tables@) =~= views.insert(i as int, y));
    assert(views.insert(i as int, y) =~= views.take(i as int).push(y) + views.skip(i as int));
}

/// The tables of `db_name` in a directory, the oldest first, with what is kept of
/// them in memory.
pub fn get_sstables(dir: &Directory, db_name: &str) -> (r: Result<Vec<SSTable>, StoreError>)
    requires
        dir.wf(),
    ensures
        match r {
            Ok(v) => tables_wf(v@) && rebuilt_all(
                dir@,
                found_tables(keys_in_order(dir@), db_name@),
            ) == Ok::<Seq<TableView>, StoreError>(table_views(v@)),
            Err(e) => rebuilt_all(dir@, found_tables(keys_in_order(dir@), db_name@)) == Err::<
                Seq<TableView>,
                StoreError,
            >(e),
        },
{
    let names = dir.list();
    let ghost ns = keys_in_order(dir@);
    let mut tables: Vec<SSTable> = Vec::new();
    proof {
        dir.lemma_names();
        assert(found_views(tables@) =~= Seq::<FoundTable>::empty());
        assert(ns.take(0) =~= Seq::<Seq<char>>::empty());
        assert(string_views(names@).len() == names@.len());
    }
    for i in 0..names.len()
        invariant
            ns == string_views(names@),
            tables_wf(tables@),
            found_views(tables@) == found_tables(ns.take(i as int), db_name@),
    {
        assert(ns[i as int] == names@[i as int]@);
        assert(ns.take(i + 1).drop_last() =~= ns.take(i as int));
        if let Some(table) = SSTable::parse(names[i].as_str()) {
            if same(table.name.as_str(), db_name) {
                let mut table = table;
                table.path = names[i].clone();
                insert_by_timestamp(&mut tables, table);
            }
        }
    }
    assert(ns.take(names@.len() as int) =~= ns);
    let ghost found = found_views(tables@);
    let n = tables.len();
    let mut out: Vec<SSTable> = Vec::new();
    assert(found.take(0) =~= Seq::<FoundTable>::empty());
    assert(table_views(out@) =~= Seq::<TableView>::empty());
    for i in 0..n
        invariant
            dir.wf(),
            tables_wf(tables@),
            tables_wf(out@),
            found == found_tables(keys_in_order(dir@), db_name@),
            found.len() == n,
            tables@.len() == n - i,
            forall|j: int|
                0 <= j < n - i ==> found[i + j] == (FoundTable {
                    id: (#[trigger] tables@[j])@.id,
                    path: tables@[j]@.path,
                }),
            rebuilt_all(dir@, found.take(i as int)) == Ok::<Seq<TableView>, StoreError>(
                table_views(out@),
            ),
    {
        let ghost before = tables@;
        let mut table = tables.remove(0);
        assert(before[0]@ == table@);
        assert(found[i + 0] == (FoundTable { id: before[0]@.id, path: before[0]@.path }));
        assert(found.take(i + 1).drop_last() =~= found.take(i as int));
        match table.rebuild_index(dir) {
            Ok(_) => {},
            Err(e) => {
                proof {
                    lemma_rebuilt_stops(dir@, found, i + 1);
                }
                return Err(e);
            },
        }
        let ghost tv = table_views(out@);
        let ghost t = table@;
        out.push(table);
        assert(table_views(out@) =~= tv.push(t));
        assert forall|j: int| 0 <= j < n - i - 1 implies found[i + 1 + j] == (FoundTable {
            id: (#[trigger] tables@[j])@.id,
            path: tables@[j]@.path,
        }) by {
            assert(tables@[j] == before[j + 1]);
            assert(found[i + (j + 1)] == (FoundTable {
                id: before[j + 1]@.id,
                path: before[j + 1]@.path,
            }));
        }
    }
    assert(found.take(n as int) =~= found);
    Ok(out)
}

/// The file of a table is named `<name>_<timestamp>.sst`, and that of a table of a level
/// `<name>_L<level>_<timestamp>.sst`.
pub proof fn lemma_table_names(name: Seq<char>, level: usize, timestamp: u64)
    ensures
        table_filename(TableId { name, level: None, timestamp }) == name + "_"@ + decimal(
            timestamp as nat,
        ) + ".sst"@,
        table_filename(TableId { name, level: Some(level), timestamp }) == name + "_L"@ + decimal(
            level as nat,
        ) + "_"@ + decimal(timestamp as nat) + ".sst"@,
{
    reveal_strlit("_");
    reveal_strlit("_L");
    reveal_strlit(".sst");
    assert("_"@ =~= seq!['_']);
    assert("_L"@ =~= seq!['_', 'L']);
    assert(".sst"@ =~= seq!['.', 's', 's', 't']);
}

/// Of the places of a table, those at 0, 64, 128 and so on are kept in memory, and no
/// others.
pub proof fn lemma_sparse_places(places: Places)
    ensures
        forall|i: int|
            0 <= i < places.len() && i % 64 == 0 ==> 0 <= i / 64 < sparse_of(places).len()
                && sparse_of(places)[i / 64] == #[trigger] places[i],
        sparse_of(places).len() * 64 < places.len() + 64,
        forall|j: int|
            0 <= j < sparse_of(places).len() ==> 64 * j < places.len() && (
            #[trigger] sparse_of(places)[j]) == places[64 * j],
{
    assert forall|i: int| 0 <= i < places.len() && i % 64 == 0 implies 0 <= i / 64 < sparse_of(
        places,
    ).len() && sparse_of(places)[i / 64] == #[trigger] places[i] by {
        assert((i / 64) * 64 == i);
    }
}

/// A filter has ten bits for each key, in whole bytes and no more of them than that takes,
/// but one byte at least. What is kept of a table besides is its first and its last key.
pub proof fn lemma_table_index(places: Places)
    ensures
        8 * bloom_size(places.len()) >= 10 * places.len(),
        bloom_size(places.len()) >= 1,
        places.len() > 0 ==> 8 * bloom_size(places.len()) < 10 * places.len() + 8,
        places.len() == 0 ==> bloom_size(places.len()) == 1,
        index_of(places).bloom.size == bloom_size(places.len()),
        index_of(places).bloom.hash_count == 7,
        places.len() > 0 ==> index_of(places).min == Some(places[0].0) && index_of(places).max
            == Some(places[places.len() - 1].0),
        places.len() == 0 ==> index_of(places).min is None && index_of(places).max is None,
{
    let empty = BloomView::empty(bloom_size(places.len()), BLOOM_HASH_COUNT);
    lemma_insert_all_shape(empty, place_keys(places));
}

/// A table whose last record was broken off still has the records before it.
pub proof fn lemma_torn_table(
    files: Files,
    path: Seq<char>,
    whole: Seq<u8>,
    r: RecordView,
    n: int,
)
    requires
        files.contains_key(path),
        files[path] == whole + encoded(r).take(n),
        parse_stream(whole, 0).1 is None,
        within_limits(r),
        0 <= n < encoded(r).len(),
    ensures
        read_table(files, path) == Ok::<Seq<(int, RecordView)>, StoreError>(
            parse_stream(whole, 0).0,
        ),
{
    crate::record::lemma_torn(whole, r, n);
}

/// A table whose file is missing cannot be read.
pub proof fn lemma_missing_table(files: Files, t: TableView, key: Seq<char>)
    requires
        !files.contains_key(t.path),
    ensures
        read_table(files, t.path) == Err::<Seq<(int, RecordView)>, StoreError>(
            StoreError::FileNotFound,
        ),
        rebuilt(files, t.id, t.path) == Err::<TableView, StoreError>(StoreError::FileNotFound),
        t.index.bloom.might_contain(key) ==> table_lookup(files, t, key) == Err::<
            Option<EntryView>,
            StoreError,
        >(StoreError::FileNotFound),
{
}

/// A file name that stands for a table is a part that names it, an underscore, the timestamp
/// as a number, and `.sst`. Where the first part ends with an underscore, a capital L and a
/// number, that is the level, and the name is what comes before it.
pub proof fn lemma_parsed_table(f: Seq<char>, id: TableId)
    requires
        parse_table(f) == Some(id),
    ensures
        exists|rest: Seq<char>, ts: Seq<char>|
            {
                &&& f == #[trigger] (rest.push('_') + ts) + ".sst"@
                &&& !ts.contains('_')
                &&& parse_number(ts, u64::MAX as nat) == Some(id.timestamp as nat)
                &&& split_level(rest) == (match id.level {
                    Some(n) => Some((id.name, n)),
                    None => None,
                })
                &&& id.level is None ==> rest == id.name
                &&& id.level is Some ==> exists|tag: Seq<char>|
                    {
                        &&& rest == #[trigger] (id.name + "_L"@) + tag
                        &&& !tag.contains('_')
                        &&& parse_number(tag, usize::MAX as nat) == Some(id.level->0 as nat)
                    }
            },
{
    reveal_strlit(".sst");
    reveal_strlit("_L");
    let end = seq!['.', 's', 's', 't'];
    assert(".sst"@ =~= end);
    lemma_stripped(f, end);
    let stem = without_suffix(f, end)->0;
    lemma_split_parts(stem, '_');
    let (rest, ts) = split_at_last(stem, '_')->0;
    lemma_split_parts(rest, '_');
    assert(f == (rest.push('_') + ts) + ".sst"@);
    if id.level is Some {
        let (before, tail) = split_at_last(rest, '_')->0;
        let tag = tail.skip(1);
        assert(rest =~= (id.name + "_L"@) + tag);
        assert(!tag.contains('_')) by {
            if tag.contains('_') {
                let i = tag.index_of('_');
                assert(tail[i + 1] == '_');
            }
        }
    }
}

/// A table that ends with something that is no record cannot be read, unless that was only
/// broken off.
pub proof fn lemma_damaged_table(
    files: Files,
    path: Seq<char>,
    whole: Seq<u8>,
    b: Seq<u8>,
    e: StoreError,
)
    requires
        files.contains_key(path),
        files[path] == whole + b,
        parse_stream(whole, 0).1 is None,
        b.len() > 0,
        parse_record(b) == Err::<(RecordView, nat), StoreError>(e),
    ensures
        read_table(files, path) == (if e == StoreError::UnexpectedEof {
            Ok::<Seq<(int, RecordView)>, StoreError>(parse_stream(whole, 0).0)
        } else {
            Err(e)
        }),
{
    crate::record::lemma_damaged(whole, b, e);
}

/// Going through records in search of a key finds the first record of the key, where those
/// before it come before the key. It ends at a record that comes after the key. Where all
/// come before it, what ended the records decides: an error is handed on, unless the last
/// record was only broken off.
pub proof fn lemma_scanned(
    records: Seq<(int, RecordView)>,
    end: Option<StoreError>,
    key: Seq<char>,
    i: int,
)
    requires
        0 <= i <= records.len(),
        forall|j: int| 0 <= j < i ==> key_lt((#[trigger] records[j]).1.key, key),
    ensures
        i < records.len() && records[i].1.key == key ==> (scan(records, end, key) matches Ok(Some(e))
            && e.value == (if records[i].1.tombstone {
            None::<Seq<char>>
        } else {
            Some(records[i].1.value)
        }) && e.expiry_ms == (if records[i].1.tombstone {
            None::<u64>
        } else {
            records[i].1.expiry_ms
        })),
        i < records.len() && key_lt(key, records[i].1.key) ==> scan(records, end, key) == Ok::<
            Option<EntryView>,
            StoreError,
        >(None),
        i == records.len() ==> scan(records, end, key) == (match end {
            None => Ok::<Option<EntryView>, StoreError>(None),
            Some(StoreError::UnexpectedEof) => Ok(None),
            Some(e) => Err(e),
        }),
    decreases records.len(),
{
    if i > 0 {
        let rest = records.drop_first();
        lemma_key_lt_total(records[0].1.key, key);
        assert forall|j: int| 0 <= j < i - 1 implies key_lt((#[trigger] rest[j]).1.key, key) by {
            assert(rest[j] == records[j + 1]);
        }
        lemma_scanned(rest, end, key, i - 1);
        if i < records.len() {
            assert(rest[i - 1] == records[i]);
        }
    } else if records.len() > 0 {
        lemma_key_lt_total(records[0].1.key, key);
    }
}

} // verus!
