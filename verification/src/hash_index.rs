//! The index of the hash-index engine: where the latest record of each key stands.

use vstd::prelude::*;

use crate::error::StoreError;
use crate::record::{lemma_parse_record_len, parse_stream, Record, RecordView};
use crate::sorted_map::{keys_in_order, keys_of, StringMap};
use crate::text::string_views;

verus! {

/// In-memory index mapping keys to the places of their records.
pub struct HashIndex {
    entries: StringMap<IndexEntry>,
}

/// The place of a record.
#[derive(Clone, Copy, PartialEq, Eq, Structural, Debug)]
pub struct IndexEntry {
    pub segment_timestamp: u64,
    pub offset: u64,
    /// The size of the record, or 0 where it was not noted.
    pub record_size: u64,
}

impl View for IndexEntry {
    type V = IndexEntry;

    open spec fn view(&self) -> IndexEntry {
        *self
    }
}

/// What an index holds.
pub type IndexMap = Map<Seq<char>, IndexEntry>;

/// The index after one more record of a segment.
pub open spec fn index_record(m: IndexMap, at: (int, RecordView), timestamp: u64) -> IndexMap {
    if at.1.tombstone {
        m.remove(at.1.key)
    } else {
        m.insert(
            at.1.key,
            IndexEntry { segment_timestamp: timestamp, offset: at.0 as u64, record_size: 0 },
        )
    }
}

/// The index after the records of a segment, in their order.
pub open spec fn index_records(
    m: IndexMap,
    records: Seq<(int, RecordView)>,
    timestamp: u64,
) -> IndexMap
    decreases records.len(),
{
    if records.len() == 0 {
        m
    } else {
        index_record(index_records(m, records.drop_last(), timestamp), records.last(), timestamp)
    }
}

impl View for HashIndex {
    type V = IndexMap;

    closed spec fn view(&self) -> IndexMap {
        self.entries@
    }
}

impl HashIndex {
    /// The keys, in order.
    pub closed spec fn keys_seq(&self) -> Seq<Seq<char>> {
        self.entries.keys_seq()
    }

    pub closed spec fn wf(&self) -> bool {
        self.entries.wf()
    }

    /// The keys are those of the index, in ascending order, each once.
    pub proof fn lemma_keys(&self)
        requires
            self.wf(),
        ensures
            keys_of(self@, self.keys_seq()),
            keys_in_order(self@) == self.keys_seq(),
    {
        self.entries.lemma_keys();
    }

    /// An empty index.
    pub fn new() -> (r: HashIndex)
        ensures
            r.wf(),
            r@ == Map::<Seq<char>, IndexEntry>::empty(),
    {
        HashIndex { entries: StringMap::new() }
    }

    /// The place of the record of `key`.
    pub fn get(&self, key: &str) -> (r: Option<&IndexEntry>)
        requires
            self.wf(),
        ensures
            match r {
                Some(e) => self@.contains_key(key@) && *e == self@[key@],
                None => !self@.contains_key(key@),
            },
    {
        self.entries.get(key)
    }

    /// Whether `key` is in the index.
    pub fn contains(&self, key: &str) -> (r: bool)
        requires
            self.wf(),
        ensures
            r == self@.contains_key(key@),
    {
        self.entries.contains(key)
    }

    /// Notes the place of the record of `key`, and hands back the one noted before.
    pub fn set(
        &mut self,
        key: String,
        file_location: u64,
        segment_timestamp: u64,
        record_size: u64,
    ) -> (r: Option<IndexEntry>)
        requires
            old(self).wf(),
        ensures
            final(self).wf(),
            final(self)@ == old(self)@.insert(
                key@,
                IndexEntry { segment_timestamp, offset: file_location, record_size },
            ),
            match r {
                Some(e) => old(self)@.contains_key(key@) && e == old(self)@[key@],
                None => !old(self)@.contains_key(key@),
            },
    {
        self.entries.insert(
            key,
            IndexEntry { segment_timestamp, offset: file_location, record_size },
        )
    }

    /// The keys of the index.
    pub fn ls_keys(&self) -> (out: Vec<String>)
        requires
            self.wf(),
        ensures
            string_views(out@) == keys_in_order(self@),
    {
        proof {
            self.lemma_keys();
        }
        self.entries.keys()
    }

    /// Removes `key` from the index, and hands back the place that was noted.
    pub fn delete(&mut self, key: &str) -> (r: Option<IndexEntry>)
        requires
            old(self).wf(),
        ensures
            final(self).wf(),
            final(self)@ == old(self)@.remove(key@),
            match r {
                Some(e) => old(self)@.contains_key(key@) && e == old(self)@[key@],
                None => !old(self)@.contains_key(key@),
            },
    {
        self.entries.remove(key)
    }

    /// The index of a single segment. Deleted keys are not in it, and of several
    /// records of a key the last one counts.
    pub fn from_file(data: &[u8], segment_timestamp: u64) -> (r: Result<HashIndex, StoreError>)
        ensures
            match r {
                Ok(index) => {
                    &&& index.wf()
                    &&& parse_stream(data@, 0).1 is None
                    &&& index@ == index_records(
                        Map::empty(),
                        parse_stream(data@, 0).0,
                        segment_timestamp,
                    )
                },
                Err(e) => parse_stream(data@, 0).1 == Some(e),
            },
    {
        let mut index = HashIndex::new();
        match index.merge_from_file(data, segment_timestamp) {
            Ok(_) => Ok(index),
            Err(e) => Err(e),
        }
    }

    /// Adds the records of a segment, in their order. On an error the records
    /// before it have been added.
    pub fn merge_from_file(&mut self, data: &[u8], segment_timestamp: u64) -> (r: Result<
        (),
        StoreError,
    >)
        requires
            old(self).wf(),
        ensures
            final(self).wf(),
            final(self)@ == index_records(
                old(self)@,
                parse_stream(data@, 0).0,
                segment_timestamp,
            ),
            match r {
                Ok(_) => parse_stream(data@, 0).1 is None,
                Err(e) => parse_stream(data@, 0).1 == Some(e),
            },
    {
        let mut pos: usize = 0;
        let ghost mut done = Seq::<(int, RecordView)>::empty();
        assert(done + parse_stream(data@, 0).0 =~= parse_stream(data@, 0).0);
        while pos < data.len()
            invariant
                self.wf(),
                pos <= data@.len(),
                parse_stream(data@, 0).0 == done + parse_stream(data@, pos as int).0,
                parse_stream(data@, 0).1 == parse_stream(data@, pos as int).1,
                self@ == index_records(old(self)@, done, segment_timestamp),
            decreases data@.len() - pos,
        {
            let (record, next) = match Record::read_next(data, pos) {
                Ok(x) => x,
                Err(e) => {
                    assert(done + Seq::<(int, RecordView)>::empty() =~= done);
                    return Err(e);
                },
            };
            let ghost at = (pos as int, record@);
            let ghost rest = parse_stream(data@, next as int).0;
            proof {
                lemma_parse_record_len(data@.skip(pos as int));
                assert(done + (seq![at] + rest) =~= done.push(at) + rest);
                assert(done.push(at).drop_last() =~= done);
                done = done.push(at);
            }
            if record.header.tombstone {
                let _ = self.entries.remove(record.key.as_str());
            } else {
                let _ = self.entries.insert(
                    record.key,
                    IndexEntry { segment_timestamp, offset: pos as u64, record_size: 0 },
                );
            }
            pos = next;
        }
        assert(done + Seq::<(int, RecordView)>::empty() =~= done);
        Ok(())
    }
}

/// The place of a key after the records of a segment: that of its last record, where that
/// one sets it; none where that one deletes it; and where the segment has no record of the
/// key, the place that it had before.
pub proof fn lemma_last_place(
    m: IndexMap,
    records: Seq<(int, RecordView)>,
    timestamp: u64,
    key: Seq<char>,
)
    ensures
        (forall|i: int| 0 <= i < records.len() ==> (#[trigger] records[i]).1.key != key)
            ==> index_records(m, records, timestamp).contains_key(key) == m.contains_key(key) && (
        m.contains_key(key) ==> index_records(m, records, timestamp)[key] == m[key]),
        forall|i: int|
            0 <= i < records.len() && (#[trigger] records[i]).1.key == key && (forall|j: int|
                i < j < records.len() ==> (#[trigger] records[j]).1.key != key) ==> (
            index_records(m, records, timestamp).contains_key(key) <==> !records[i].1.tombstone)
                && (!records[i].1.tombstone ==> index_records(m, records, timestamp)[key] == (
            IndexEntry {
                segment_timestamp: timestamp,
                offset: records[i].0 as u64,
                record_size: 0,
            })),
    decreases records.len(),
{
    if records.len() > 0 {
        let front = records.drop_last();
        lemma_last_place(m, front, timestamp, key);
        assert(forall|i: int| 0 <= i < front.len() ==> (#[trigger] front[i]) == records[i]);
        if forall|i: int| 0 <= i < records.len() ==> (#[trigger] records[i]).1.key != key {
            assert(records[records.len() - 1].1.key != key);
        }
        assert forall|i: int|
            0 <= i < records.len() && (#[trigger] records[i]).1.key == key && (forall|j: int|
                i < j < records.len() ==> (#[trigger] records[j]).1.key != key) implies (
        index_records(m, records, timestamp).contains_key(key) <==> !records[i].1.tombstone) && (
        !records[i].1.tombstone ==> index_records(m, records, timestamp)[key] == (IndexEntry {
            segment_timestamp: timestamp,
            offset: records[i].0 as u64,
            record_size: 0,
        })) by {
            if i < front.len() {
                assert(front[i] == records[i]);
                assert(records[records.len() - 1].1.key != key);
            }
        }
    }
}

} // verus!
