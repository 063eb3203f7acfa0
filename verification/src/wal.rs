//! The write-ahead log: `<name>.wal`.

use vstd::prelude::*;
use vstd::string::StringExecFns;

use crate::bytes::copy_range;
use crate::directory::{content, empties, fills, goes_on, Directory};
use crate::error::{ErrorKind, StoreError};
use crate::memtable::{value_size, EntryView, Memtable, MemtableView};
use crate::record::{
    encoded, lemma_damaged, lemma_parse_record_len, lemma_parse_stream_concat,
    lemma_parsed_within_limits, lemma_whole, parse_record, parse_stream, shifted, whole_len,
    within_limits, Record, RecordView, MAX_KEY_SIZE, MAX_VALUE_SIZE,
};
use crate::sorted_map::{keys_of, lemma_orderable_insert, orderable};
use crate::text::byte_len;

verus! {

/// The name of the log of a database.
pub open spec fn wal_filename(name: Seq<char>) -> Seq<char> {
    name + seq!['.', 'w', 'a', 'l']
}

/// The table after one more record of the log.
pub open spec fn replay_record(m: MemtableView, r: RecordView) -> MemtableView {
    if r.tombstone {
        m.remove(r.key)
    } else {
        m.insert(r.key, r.value, r.expiry_ms)
    }
}

/// The table after the records of the log, in their order.
pub open spec fn replay_records(records: Seq<(int, RecordView)>) -> MemtableView
    decreases records.len(),
{
    if records.len() == 0 {
        MemtableView::empty()
    } else {
        replay_record(replay_records(records.drop_last()), records.last().1)
    }
}

/// What a log gives back. A torn or corrupt tail ends it; an oversized record is an
/// error.
pub open spec fn replayed(data: Seq<u8>) -> Result<MemtableView, StoreError> {
    let (records, end) = parse_stream(data, 0);
    match end {
        Some(StoreError::TooLarge) => Err(StoreError::TooLarge),
        _ => Ok(replay_records(records)),
    }
}

/// A record that is appended to an intact log is replayed last.
pub proof fn lemma_replay_append(data: Seq<u8>, r: RecordView)
    requires
        parse_stream(data, 0).1 is None,
        within_limits(r),
    ensures
        parse_stream(data + encoded(r), 0).1 is None,
        replayed(data + encoded(r)) == Ok::<MemtableView, StoreError>(
            replay_record(replayed(data)->Ok_0, r),
        ),
{
    crate::record::lemma_parse_stream_append(data, 0, r);
    let records = parse_stream(data, 0).0;
    assert(records.push((data.len() as int, r)).drop_last() =~= records);
}

proof fn lemma_replay_records_concat(
    xs: Seq<(int, RecordView)>,
    ys: Seq<(int, RecordView)>,
    by: int,
)
    ensures
        replay_records(xs + shifted(ys, by)).entries == replay_records(
            xs,
        ).entries.union_prefer_right(replay_records(ys).entries),
    decreases ys.len(),
{
    let all = xs + shifted(ys, by);
    if ys.len() == 0 {
        assert(all =~= xs);
        assert(replay_records(xs).entries.union_prefer_right(replay_records(ys).entries)
            =~= replay_records(xs).entries);
    } else {
        lemma_replay_records_concat(xs, ys.drop_last(), by);
        assert(all.drop_last() =~= xs + shifted(ys.drop_last(), by));
        assert(all.last().1 == ys.last().1);
        assert(replay_records(all).entries =~= replay_records(xs).entries.union_prefer_right(
            replay_records(ys).entries,
        ));
    }
}

/// A log that follows another gives back its own entries before those of the other.
pub proof fn lemma_replayed_concat(a: Seq<u8>, b: Seq<u8>)
    requires
        parse_stream(a, 0).1 is None,
        parse_stream(b, 0).1 is None,
    ensures
        parse_stream(a + b, 0).1 is None,
        replayed(a) is Ok,
        replayed(b) is Ok,
        replayed(a + b) is Ok,
        (replayed(a + b)->Ok_0).entries == (replayed(a)->Ok_0).entries.union_prefer_right(
            (replayed(b)->Ok_0).entries,
        ),
{
    lemma_parse_stream_concat(a, b, 0);
    lemma_replay_records_concat(parse_stream(a, 0).0, parse_stream(b, 0).0, a.len() as int);
}

/// A log that is cut to its whole records gives back what it gave back before.
pub proof fn lemma_replayed_whole(data: Seq<u8>)
    requires
        replayed(data) is Ok,
    ensures
        parse_stream(data.take(whole_len(data, 0)), 0).1 is None,
        replayed(data.take(whole_len(data, 0))) == replayed(data),
{
    lemma_whole(data, 0);
}

/// The bytes of a log after the first `mark` of them.
pub open spec fn after_mark(data: Seq<u8>, mark: nat) -> Seq<u8> {
    if mark <= data.len() {
        data.skip(mark as int)
    } else {
        Seq::empty()
    }
}

/// Whether the keys and values of a table can be written as records.
pub open spec fn entries_within_limits(entries: Map<Seq<char>, EntryView>) -> bool {
    forall|k: Seq<char>| #[trigger]
        entries.contains_key(k) ==> byte_len(k) <= MAX_KEY_SIZE && value_size(entries[k])
            <= MAX_VALUE_SIZE
}

proof fn lemma_replay_records_limits(records: Seq<(int, RecordView)>)
    requires
        forall|i: int| 0 <= i < records.len() ==> within_limits((#[trigger] records[i]).1),
    ensures
        entries_within_limits(replay_records(records).entries),
    decreases records.len(),
{
    if records.len() > 0 {
        let init = records.drop_last();
        assert forall|i: int| 0 <= i < init.len() implies within_limits(
            (#[trigger] init[i]).1,
        ) by {
            assert(within_limits(records[i].1));
        }
        lemma_replay_records_limits(init);
        assert(within_limits(records[records.len() - 1].1));
    }
}

proof fn lemma_replay_records_orderable(records: Seq<(int, RecordView)>)
    ensures
        orderable(replay_records(records).entries),
    decreases records.len(),
{
    if records.len() == 0 {
        assert(keys_of(Map::<Seq<char>, EntryView>::empty(), Seq::<Seq<char>>::empty()));
    } else {
        let before = replay_records(records.drop_last());
        let r = records.last().1;
        lemma_replay_records_orderable(records.drop_last());
        lemma_orderable_insert(before.entries, r.key, replay_record(before, r).entries[r.key]);
    }
}

/// The keys that a log gives back can be brought into an order.
pub proof fn lemma_replayed_orderable(data: Seq<u8>)
    ensures
        match replayed(data) {
            Ok(m) => orderable(m.entries),
            Err(_) => true,
        },
{
    lemma_replay_records_orderable(parse_stream(data, 0).0);
}

/// What a log gives back can be written as records.
pub proof fn lemma_replayed_limits(data: Seq<u8>)
    ensures
        match replayed(data) {
            Ok(m) => entries_within_limits(m.entries),
            Err(_) => true,
        },
{
    let records = parse_stream(data, 0).0;
    assert forall|i: int| 0 <= i < records.len() implies within_limits((#[trigger] records[i]).1) by {
        crate::record::lemma_parse_stream_at(data, 0, i);
        lemma_parsed_within_limits(data.skip(records[i].0));
    }
    lemma_replay_records_limits(records);
}

proof fn lemma_reading_errors(s: Seq<u8>, e: StoreError)
    requires
        parse_record(s) == Err::<(RecordView, nat), StoreError>(e),
    ensures
        e == StoreError::UnexpectedEof || e == StoreError::TooLarge || e == StoreError::CrcMismatch
            || e == StoreError::InvalidUtf8,
{
    reveal(parse_record);
}

/// The log of a database.
pub struct Wal {
    name: String,
}

impl Wal {
    /// The name of the log's file.
    pub closed spec fn file(&self) -> Seq<char> {
        self.name@
    }

    /// Opens the log of `name`, which is created where it is missing.
    pub fn open(dir: &mut Directory, name: &str) -> (w: Wal)
        requires
            old(dir).wf(),
        ensures
            final(dir).wf(),
            w.file() == wal_filename(name@),
            final(dir)@ == old(dir)@.insert(w.file(), content(old(dir)@, w.file())),
            final(dir).base() == old(dir).base(),
    {
        proof {
            reveal_strlit(".wal");
        }
        let file_name = String::from_str(name).concat(".wal");
        assert(file_name@ =~= wal_filename(name@));
        dir.touch(file_name.as_str());
        Wal { name: file_name }
    }

    /// The number of bytes of the log.
    pub fn size(&self, dir: &Directory) -> (n: u64)
        requires
            dir.wf(),
        ensures
            n == content(dir@, self.file()).len(),
    {
        dir.size(self.name.as_str())
    }

    /// Appends a record. Returns the offset at which it starts.
    pub fn append(
        &self,
        dir: &mut Directory,
        key: String,
        value: String,
        tombstone: bool,
        expiry_ms: Option<u64>,
    ) -> (offset: u64)
        requires
            old(dir).wf(),
        ensures
            final(dir).wf(),
            offset == content(old(dir)@, self.file()).len(),
            final(dir)@ == old(dir)@.insert(
                self.file(),
                content(old(dir)@, self.file()) + encoded(
                    RecordView { key: key@, value: value@, tombstone, expiry_ms },
                ),
            ),
            final(dir).base() == old(dir).base(),
            goes_on(old(dir).pending(), final(dir).pending()),
    {
        let record = Record::build(key, value, tombstone, expiry_ms);
        let offset = dir.size(self.name.as_str());
        dir.append(self.name.as_str(), record.to_be_bytes().as_slice());
        offset
    }

    /// Applies the records of the log, in their order, to an empty table.
    pub fn replay(&self, dir: &Directory) -> (r: Result<Memtable, StoreError>)
        requires
            dir.wf(),
        ensures
            match r {
                Ok(m) => m.wf() && m@.size <= content(dir@, self.file()).len() && replayed(
                    content(dir@, self.file()),
                ) == Ok::<MemtableView, StoreError>(m@),
                Err(e) => replayed(content(dir@, self.file())) == Err::<MemtableView, StoreError>(
                    e,
                ),
            },
    {
        match dir.read(self.name.as_str()) {
            Ok(data) => Wal::replay_bytes(data.as_slice()),
            Err(_) => {
                let ghost none = Seq::<u8>::empty();
                assert(parse_stream(none, 0) == (
                    Seq::<(int, RecordView)>::empty(),
                    None::<StoreError>,
                ));
                Ok(Memtable::new())
            },
        }
    }

    /// Applies the records that `data` holds, in their order, to an empty table.
    pub fn replay_bytes(data: &[u8]) -> (r: Result<Memtable, StoreError>)
        ensures
            match r {
                Ok(m) => m.wf() && m@.size <= data@.len() && replayed(data@) == Ok::<
                    MemtableView,
                    StoreError,
                >(m@),
                Err(e) => replayed(data@) == Err::<MemtableView, StoreError>(e),
            },
    {
        let mut memtable = Memtable::new();
        let mut pos: usize = 0;
        let ghost mut done = Seq::<(int, RecordView)>::empty();
        assert(done + parse_stream(data@, 0).0 =~= parse_stream(data@, 0).0);
        while pos < data.len()
            invariant
                memtable.wf(),
                pos <= data@.len(),
                memtable@.size <= pos,
                parse_stream(data@, 0).0 == done + parse_stream(data@, pos as int).0,
                parse_stream(data@, 0).1 == parse_stream(data@, pos as int).1,
                memtable@ == replay_records(done),
            decreases data@.len() - pos,
        {
            let (record, next) = match Record::read_next(data, pos) {
                Ok(x) => x,
                Err(e) => {
                    proof {
                        assert(done + Seq::<(int, RecordView)>::empty() =~= done);
                        lemma_reading_errors(data@.skip(pos as int), e);
                    }
                    if e.kind() == ErrorKind::UnexpectedEof || e.kind() == ErrorKind::InvalidData {
                        return Ok(memtable);
                    }
                    return Err(e);
                },
            };
            let ghost at = (pos as int, record@);
            let ghost rest = parse_stream(data@, next as int).0;
            proof {
                lemma_parse_record_len(data@.skip(pos as int));
                lemma_parsed_within_limits(data@.skip(pos as int));
                memtable.lemma_order();
                assert(done + (seq![at] + rest) =~= done.push(at) + rest);
                assert(done.push(at).drop_last() =~= done);
                done = done.push(at);
            }
            if record.header.is_tombstone() {
                memtable.remove(record.key);
            } else {
                memtable.insert_with_expiry(record.key, record.value, record.header.expiry_ms);
            }
            pos = next;
        }
        assert(done + Seq::<(int, RecordView)>::empty() =~= done);
        Ok(memtable)
    }

    /// Cuts the log to its whole records: what a write that was broken off left behind
    /// goes.
    pub fn cut_tail(&self, dir: &mut Directory)
        requires
            old(dir).wf(),
        ensures
            final(dir).wf(),
            final(dir)@ == old(dir)@.insert(
                self.file(),
                content(old(dir)@, self.file()).take(
                    whole_len(content(old(dir)@, self.file()), 0),
                ),
            ),
            final(dir).base() == old(dir).base(),
            goes_on(old(dir).pending(), final(dir).pending()),
    {
        let ghost all = content(dir@, self.file());
        let whole = match dir.read(self.name.as_str()) {
            Ok(data) => {
                let mut pos: usize = 0;
                let mut more: bool = true;
                while more && pos < data.len()
                    invariant
                        data@ == all,
                        pos <= data@.len(),
                        whole_len(all, 0) == whole_len(all, pos as int),
                        !more ==> whole_len(all, 0) == pos,
                    decreases
                        data@.len() - pos + if more {
                            1int
                        } else {
                            0int
                        },
                {
                    match Record::read_next(data.as_slice(), pos) {
                        Ok((_, next)) => {
                            pos = next;
                        },
                        Err(_) => {
                            more = false;
                        },
                    }
                }
                if pos == data.len() {
                    assert(all.take(pos as int) =~= all);
                    assert(dir@ =~= dir@.insert(self.file(), all));
                    return;
                }
                copy_range(data.as_slice(), 0, pos)
            },
            Err(_) => Vec::new(),
        };
        assert(whole@ =~= all.take(whole_len(all, 0)));
        dir.replace(self.name.as_str(), whole);
    }

    /// Drops the first bytes of the log.
    pub fn drop_front(&self, dir: &mut Directory, mark: u64)
        requires
            old(dir).wf(),
        ensures
            final(dir).wf(),
            final(dir)@ == old(dir)@.insert(
                self.file(),
                after_mark(content(old(dir)@, self.file()), mark as nat),
            ),
            final(dir).base() == old(dir).base(),
            final(dir).pending() == old(dir).pending().push(final(dir).pending().last()),
            fills(
                final(dir).pending().last(),
                self.file(),
                after_mark(content(old(dir)@, self.file()), mark as nat),
            ),
    {
        let rest = match dir.read(self.name.as_str()) {
            Ok(data) => if mark <= data.len() as u64 {
                copy_range(data.as_slice(), mark as usize, data.len())
            } else {
                Vec::new()
            },
            Err(_) => Vec::new(),
        };
        assert(rest@ =~= after_mark(content(dir@, self.file()), mark as nat));
        dir.replace(self.name.as_str(), rest);
    }

    /// Empties the log.
    pub fn reset(&self, dir: &mut Directory)
        requires
            old(dir).wf(),
        ensures
            final(dir).wf(),
            final(dir)@ == old(dir)@.insert(self.file(), Seq::<u8>::empty()),
            final(dir).base() == old(dir).base(),
            goes_on(old(dir).pending(), final(dir).pending()),
            final(dir).pending().len() > old(dir).pending().len() && empties(
                final(dir).pending().last(),
                self.file(),
            ),
    {
        dir.replace(self.name.as_str(), Vec::new());
    }

    /// Removes the log.
    pub fn delete_file(self, dir: &mut Directory)
        requires
            old(dir).wf(),
        ensures
            final(dir).wf(),
            final(dir)@ == old(dir)@.remove(self.file()),
            final(dir).base() == old(dir).base(),
    {
        dir.remove(self.name.as_str());
    }
}

/// The log of a database is the file `<name>.wal`.
pub proof fn lemma_wal_name(name: Seq<char>)
    ensures
        wal_filename(name) == name + ".wal"@,
{
    reveal_strlit(".wal");
    assert(".wal"@ =~= seq!['.', 'w', 'a', 'l']);
}

/// What a table holds for a key after the records of a log: what the last record of the
/// key says, where there is one, and otherwise nothing.
pub proof fn lemma_last_record(records: Seq<(int, RecordView)>, key: Seq<char>)
    ensures
        (forall|i: int| 0 <= i < records.len() ==> (#[trigger] records[i]).1.key != key)
            ==> !replay_records(records).entries.contains_key(key),
        forall|i: int|
            0 <= i < records.len() && (#[trigger] records[i]).1.key == key && (forall|j: int|
                i < j < records.len() ==> (#[trigger] records[j]).1.key != key) ==> ({
                let m = replay_records(records).entries;
                &&& m.contains_key(key)
                &&& m[key].value == (if records[i].1.tombstone {
                    None::<Seq<char>>
                } else {
                    Some(records[i].1.value)
                })
                &&& m[key].expiry_ms == (if records[i].1.tombstone {
                    None::<u64>
                } else {
                    records[i].1.expiry_ms
                })
            }),
    decreases records.len(),
{
    if records.len() > 0 {
        let front = records.drop_last();
        lemma_last_record(front, key);
        assert(forall|i: int| 0 <= i < front.len() ==> (#[trigger] front[i]) == records[i]);
        if forall|i: int| 0 <= i < records.len() ==> (#[trigger] records[i]).1.key != key {
            assert(records[records.len() - 1].1.key != key);
        }
        assert forall|i: int|
            0 <= i < records.len() && (#[trigger] records[i]).1.key == key && (forall|j: int|
                i < j < records.len() ==> (#[trigger] records[j]).1.key != key) implies ({
            let m = replay_records(records).entries;
            &&& m.contains_key(key)
            &&& m[key].value == (if records[i].1.tombstone {
                None::<Seq<char>>
            } else {
                Some(records[i].1.value)
            })
            &&& m[key].expiry_ms == (if records[i].1.tombstone {
                None::<u64>
            } else {
                records[i].1.expiry_ms
            })
        }) by {
            if i < front.len() {
                assert(front[i] == records[i]);
                assert(records[records.len() - 1].1.key != key);
            }
        }
    }
}

/// A log that ends with something that is no record gives back what stands before it. Only
/// where that announces a key or a value that is too large, it gives back nothing.
pub proof fn lemma_damaged_log(log: Seq<u8>, b: Seq<u8>, e: StoreError)
    requires
        parse_stream(log, 0).1 is None,
        b.len() > 0,
        parse_record(b) == Err::<(RecordView, nat), StoreError>(e),
    ensures
        e != StoreError::TooLarge ==> replayed(log + b) == replayed(log) && replayed(log) is Ok,
        e == StoreError::TooLarge ==> replayed(log + b) == Err::<MemtableView, StoreError>(
            StoreError::TooLarge,
        ),
{
    lemma_damaged(log, b, e);
}

} // verus!
