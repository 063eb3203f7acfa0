use rustikv::directory::{Change, Directory};
use rustikv::engine::{Clock, RangeScan, StorageEngine};
use rustikv::error::StoreError;
use rustikv::lsmengine::LsmEngine;
use rustikv::size_tiered::SizeTiered;
use std::cell::{Cell, RefCell};
use std::collections::BTreeMap;
use std::rc::Rc;

/// A disk with the files of a database, and a clock.
struct Disk {
    files: RefCell<BTreeMap<String, Vec<u8>>>,
    ms: Cell<u64>,
}

type Path = Rc<Disk>;

const START_MS: u64 = 1_700_000_000_000;

fn temp_dir(_suffix: &str) -> Path {
    Rc::new(Disk {
        files: RefCell::new(BTreeMap::new()),
        ms: Cell::new(START_MS),
    })
}

impl Disk {
    fn now(&self) -> Clock {
        let ms = self.ms.get() + 1;
        self.ms.set(ms);
        Clock {
            ms,
            ns: ms * 1_000_000,
        }
    }

    fn directory(&self) -> Directory {
        let mut dir = Directory::new();
        for (name, data) in self.files.borrow().iter() {
            dir.load(name.clone(), data.clone());
        }
        dir
    }

    fn apply(&self, changes: Vec<Change>) {
        let mut files = self.files.borrow_mut();
        for change in changes {
            match change {
                Change::Append { name, data } => files.entry(name).or_default().extend(data),
                Change::Replace { name, data } => {
                    files.insert(name, data);
                }
                Change::Remove { name } => {
                    files.remove(&name);
                }
                Change::Sync { .. } => {}
            }
        }
    }

    fn names_with(&self, suffix: &str) -> Vec<String> {
        self.files
            .borrow()
            .keys()
            .filter(|name| name.ends_with(suffix))
            .cloned()
            .collect()
    }
}

/// An engine whose changes go to its disk after each call. What is to be flushed is
/// flushed at once.
struct Lsm {
    inner: RefCell<LsmEngine<SizeTiered>>,
    disk: Path,
}

impl Lsm {
    fn over(path: &Path, mut engine: LsmEngine<SizeTiered>) -> Lsm {
        path.apply(engine.take_changes());
        Lsm {
            inner: RefCell::new(engine),
            disk: Rc::clone(path),
        }
    }

    fn store(&self) {
        let mut engine = self.inner.borrow_mut();
        if engine.flush_pending() {
            engine.flush_step(self.disk.now()).unwrap();
        }
        self.disk.apply(engine.take_changes());
    }

    fn set(&self, key: &str, value: &str) -> Result<(), StoreError> {
        let r = self.inner.borrow_mut().set(key, value, self.disk.now());
        self.store();
        r
    }

    fn get(&self, key: &str) -> Result<Option<(String, String)>, StoreError> {
        self.inner.borrow().get(key, self.disk.now())
    }

    fn delete(&self, key: &str) -> Result<Option<()>, StoreError> {
        let r = self.inner.borrow_mut().delete(key, self.disk.now());
        self.store();
        r
    }

    fn compact(&self) -> Result<(), StoreError> {
        let r = self.inner.borrow_mut().compact(self.disk.now());
        self.store();
        r
    }

    fn list_keys(&self) -> Result<Vec<String>, StoreError> {
        self.inner.borrow().list_keys(self.disk.now())
    }

    fn contains(&self, key: &str) -> bool {
        self.inner.borrow().contains(key, self.disk.now())
    }

    fn range(&self, start: &str, end: &str) -> Result<Vec<(String, String)>, StoreError> {
        self.inner.borrow().range(start, end, self.disk.now())
    }
}

fn new_engine(dir: &Path, db_name: &str, max_memtable_bytes: usize) -> Result<Lsm, StoreError> {
    let strategy = SizeTiered::new(4, 32); // min_threshold=4, max_threshold=32
    let engine = LsmEngine::new(dir.directory(), db_name, max_memtable_bytes, strategy);
    Ok(Lsm::over(dir, engine))
}

fn engine_from_dir(
    dir: &Path,
    db_name: &str,
    max_memtable_bytes: usize,
) -> Result<Lsm, StoreError> {
    let files = dir.directory();
    let strategy = SizeTiered::load_from_dir(&files, db_name, 4, 32)?;
    let engine = LsmEngine::from_dir(files, db_name, max_memtable_bytes, strategy)?;
    Ok(Lsm::over(dir, engine))
}

const BIG_MEMTABLE: usize = 1_048_576; // 1 MB: nothing is flushed on its own

#[test]
fn lsmengine_set_and_get() {
    let dir = temp_dir("set_get");
    let engine = new_engine(&dir, "test", BIG_MEMTABLE).unwrap();
    engine.set("hello", "world").unwrap();
    let result = engine.get("hello").unwrap();
    assert_eq!(result, Some(("hello".to_string(), "world".to_string())));
}

#[test]
fn lsmengine_get_missing_key() {
    let dir = temp_dir("missing");
    let engine = new_engine(&dir, "test", BIG_MEMTABLE).unwrap();
    assert_eq!(engine.get("nope").unwrap(), None);
}

#[test]
fn lsmengine_set_overwrite() {
    let dir = temp_dir("overwrite");
    let engine = new_engine(&dir, "test", BIG_MEMTABLE).unwrap();
    engine.set("k", "old").unwrap();
    engine.set("k", "new").unwrap();
    let (_, v) = engine.get("k").unwrap().unwrap();
    assert_eq!(v, "new");
}

#[test]
fn lsmengine_delete_removes_key() {
    let dir = temp_dir("delete");
    let engine = new_engine(&dir, "test", BIG_MEMTABLE).unwrap();
    engine.set("k", "v").unwrap();
    engine.delete("k").unwrap();
    assert_eq!(engine.get("k").unwrap(), None);
}

#[test]
fn lsmengine_delete_nonexistent_key() {
    let dir = temp_dir("delete_missing");
    let engine = new_engine(&dir, "test", BIG_MEMTABLE).unwrap();
    let result = engine.delete("nope").unwrap();
    assert_eq!(result, None);
}

#[test]
fn lsmengine_memtable_flushes_to_sstable() {
    let dir = temp_dir("flush");
    // Tiny threshold so a single write triggers a flush
    {
        let engine = new_engine(&dir, "test", 1).unwrap();
        engine.set("k1", "v1").unwrap();
    } // drop joins the background flush

    let engine = engine_from_dir(&dir, "test", BIG_MEMTABLE).unwrap();

    // After flush, data is readable from SSTable
    let (_, v) = engine.get("k1").unwrap().unwrap();
    assert_eq!(v, "v1");

    // .sst file should exist on disk
    let sst_files = dir.names_with(".sst");
    assert!(!sst_files.is_empty(), "expected at least one .sst file");
}

#[test]
fn lsmengine_reads_span_memtable_and_segments() {
    let dir = temp_dir("span");
    let engine = new_engine(&dir, "test", 1).unwrap();
    // This will flush to segment
    engine.set("k1", "v1").unwrap();

    // Larger threshold so next write stays in memtable
    // We can't change threshold, but k2 will also flush and k3 stays if we make threshold bigger
    // Instead: write multiple keys, they all flush, then write one more with room
    engine.set("k2", "v2").unwrap();

    // Both should be readable regardless of where they live
    let (_, v1) = engine.get("k1").unwrap().unwrap();
    let (_, v2) = engine.get("k2").unwrap().unwrap();
    assert_eq!(v1, "v1");
    assert_eq!(v2, "v2");
}

#[test]
fn lsmengine_delete_shadows_flushed_value() {
    let dir = temp_dir("shadow");
    let engine = new_engine(&dir, "test", 1).unwrap();
    // Flush k1 to a segment
    engine.set("k1", "v1").unwrap();
    // Delete in memtable should shadow the segment value
    engine.delete("k1").unwrap();
    assert_eq!(engine.get("k1").unwrap(), None);
}

#[test]
fn lsmengine_compact_preserves_values() {
    let dir = temp_dir("compact_preserve");
    let engine = new_engine(&dir, "test", 1).unwrap();
    engine.set("k1", "v1").unwrap();
    engine.set("k2", "v2").unwrap();

    engine.compact().unwrap();

    let (_, v1) = engine.get("k1").unwrap().unwrap();
    let (_, v2) = engine.get("k2").unwrap().unwrap();
    assert_eq!(v1, "v1");
    assert_eq!(v2, "v2");
}

#[test]
fn lsmengine_compact_keeps_latest_value() {
    let dir = temp_dir("compact_latest");
    let engine = new_engine(&dir, "test", 1).unwrap();
    engine.set("k", "old").unwrap();
    engine.set("k", "new").unwrap();

    engine.compact().unwrap();

    let (_, v) = engine.get("k").unwrap().unwrap();
    assert_eq!(v, "new");
}

#[test]
fn lsmengine_compact_drops_deleted_keys() {
    let dir = temp_dir("compact_delete");
    let engine = new_engine(&dir, "test", 1).unwrap();
    engine.set("k1", "v1").unwrap();
    engine.delete("k1").unwrap();

    engine.compact().unwrap();

    assert_eq!(engine.get("k1").unwrap(), None);
}

#[test]
fn lsmengine_compact_is_idempotent() {
    let dir = temp_dir("compact_idempotent");
    let engine = new_engine(&dir, "test", 1).unwrap();
    engine.set("k1", "v1").unwrap();
    engine.set("k2", "v2").unwrap();

    engine.compact().unwrap();
    engine.compact().unwrap();

    let (_, v1) = engine.get("k1").unwrap().unwrap();
    let (_, v2) = engine.get("k2").unwrap().unwrap();
    assert_eq!(v1, "v1");
    assert_eq!(v2, "v2");
}

#[test]
fn lsmengine_from_dir_reloads_segments() {
    let dir = temp_dir("from_dir");
    {
        let engine = new_engine(&dir, "test", 1).unwrap();
        engine.set("k1", "v1").unwrap();
        engine.set("k2", "v2").unwrap();
    }

    let engine = engine_from_dir(&dir, "test", BIG_MEMTABLE).unwrap();
    let (_, v1) = engine.get("k1").unwrap().unwrap();
    let (_, v2) = engine.get("k2").unwrap().unwrap();
    assert_eq!(v1, "v1");
    assert_eq!(v2, "v2");
}

#[test]
fn compact_reduces_segment_count() {
    let dir = temp_dir("compact_reduce");
    let engine = new_engine(&dir, "test", 1).unwrap();
    engine.set("k1", "v1").unwrap();
    engine.set("k2", "v2").unwrap();
    engine.set("k3", "v3").unwrap();

    // Multiple .sst files should exist before compaction
    let sst_before = dir.names_with(".sst");
    assert!(sst_before.len() > 1);

    engine.compact().unwrap();

    // After compaction, should be exactly 1 .sst file
    let sst_after = dir.names_with(".sst");
    assert_eq!(sst_after.len(), 1);
}

#[test]
fn lsmengine_wal_recovers_unflushed_writes() {
    // Writes that never trigger a flush live only in the WAL.
    // Dropping the engine simulates a crash; from_dir must replay the WAL.
    let dir = temp_dir("wal_recover");
    {
        let engine = new_engine(&dir, "test", BIG_MEMTABLE).unwrap();
        engine.set("k1", "v1").unwrap();
        engine.set("k2", "v2").unwrap();
        engine.set("k3", "v3").unwrap();
        // drop without flush
    }

    let engine = engine_from_dir(&dir, "test", BIG_MEMTABLE).unwrap();
    assert_eq!(
        engine.get("k1").unwrap(),
        Some(("k1".to_string(), "v1".to_string()))
    );
    assert_eq!(
        engine.get("k2").unwrap(),
        Some(("k2".to_string(), "v2".to_string()))
    );
    assert_eq!(
        engine.get("k3").unwrap(),
        Some(("k3".to_string(), "v3".to_string()))
    );
}

#[test]
fn lsmengine_wal_recovers_unflushed_delete() {
    // A delete that has not been flushed must be replayed as a tombstone,
    // shadowing the earlier value that was already flushed to an SSTable.
    let dir = temp_dir("wal_delete");
    {
        let engine = new_engine(&dir, "test", 1).unwrap(); // threshold=1 flushes immediately
        engine.set("k1", "v1").unwrap(); // flushed to SSTable
    }
    {
        let engine = engine_from_dir(&dir, "test", BIG_MEMTABLE).unwrap();
        engine.delete("k1").unwrap(); // tombstone in WAL only, not flushed
        // drop without flush
    }

    let engine = engine_from_dir(&dir, "test", BIG_MEMTABLE).unwrap();
    assert_eq!(engine.get("k1").unwrap(), None);
}

#[test]
fn wal_corrupt_tail_does_not_panic() {
    // A crash mid-write leaves a torn record at the tail of the WAL.
    // from_dir must stop replay at the corrupt record and recover earlier entries.
    let dir = temp_dir("wal_corrupt");
    {
        let engine = new_engine(&dir, "test", BIG_MEMTABLE).unwrap();
        engine.set("k1", "v1").unwrap();
        engine.set("k2", "v2").unwrap();
    }

    // Truncate the last 5 bytes of the WAL to simulate a torn write
    {
        let mut files = dir.files.borrow_mut();
        let wal = files.get_mut("test.wal").unwrap();
        let truncated_len = wal.len().saturating_sub(5);
        wal.truncate(truncated_len);
    }

    // Must not panic; k1 may or may not be recovered depending on where truncation fell,
    // but from_dir must succeed
    let engine = engine_from_dir(&dir, "test", BIG_MEMTABLE).unwrap();
    // k1 was written first — its record is intact and must be readable
    assert_eq!(
        engine.get("k1").unwrap(),
        Some(("k1".to_string(), "v1".to_string()))
    );
}

#[test]
fn wal_is_absent_after_flush() {
    // Once the memtable is flushed to an SSTable, the WAL is no longer needed.
    // It must be deleted so that the next startup doesn't replay stale entries.
    let dir = temp_dir("wal_absent");
    let engine = new_engine(&dir, "test", 1).unwrap(); // threshold=1, every write flushes
    engine.set("k1", "v1").unwrap();

    assert_eq!(
        dir.files.borrow()["test.wal"].len(),
        0,
        "WAL should be empty after flush"
    );
}

#[test]
fn lsmengine_exists_returns_true_after_set() {
    let dir = temp_dir("exists_true");
    let engine = new_engine(&dir, "test", BIG_MEMTABLE).unwrap();
    engine.set("k", "v").unwrap();
    assert!(engine.contains("k"));
}

#[test]
fn lsmengine_exists_returns_false_for_missing_key() {
    let dir = temp_dir("exists_missing");
    let engine = new_engine(&dir, "test", BIG_MEMTABLE).unwrap();
    assert!(!engine.contains("nope"));
}

#[test]
fn lsmengine_exists_returns_false_after_delete() {
    let dir = temp_dir("exists_delete");
    let engine = new_engine(&dir, "test", BIG_MEMTABLE).unwrap();
    engine.set("k", "v").unwrap();
    engine.delete("k").unwrap();
    assert!(!engine.contains("k"));
}

#[test]
fn lsmengine_exists_returns_true_for_flushed_key() {
    // Key is flushed to an SSTable; exists must still find it via SSTable lookup
    // (and the bloom filter must not produce a false negative).
    let dir = temp_dir("exists_flushed");
    let engine = new_engine(&dir, "test", 1).unwrap(); // threshold=1, every write flushes
    engine.set("k", "v").unwrap();
    assert!(engine.contains("k"));
}

#[test]
fn exists_returns_false_for_tombstoned_flushed_key() {
    // Key written and flushed, then deleted (tombstone in memtable). exists must return false.
    let dir = temp_dir("exists_tombstone");
    let engine = new_engine(&dir, "test", 1).unwrap(); // threshold=1, flushes on set
    engine.set("k", "v").unwrap();
    engine.delete("k").unwrap();
    assert!(!engine.contains("k"));
}

#[test]
fn lsmengine_list_keys_returns_all_live_keys() {
    let dir = temp_dir("list_keys");
    let engine = new_engine(&dir, "test", BIG_MEMTABLE).unwrap();
    engine.set("a", "1").unwrap();
    engine.set("b", "2").unwrap();
    engine.set("c", "3").unwrap();

    let mut keys = engine.list_keys().unwrap();
    keys.sort();
    assert_eq!(keys, vec!["a", "b", "c"]);
}

#[test]
fn lsmengine_list_keys_excludes_deleted_keys() {
    let dir = temp_dir("list_keys_delete");
    let engine = new_engine(&dir, "test", BIG_MEMTABLE).unwrap();
    engine.set("a", "1").unwrap();
    engine.set("b", "2").unwrap();
    engine.set("c", "3").unwrap();
    engine.delete("b").unwrap();

    let mut keys = engine.list_keys().unwrap();
    keys.sort();
    assert_eq!(keys, vec!["a", "c"]);
}

#[test]
fn lsmengine_list_keys_spans_memtable_and_segments() {
    let dir = temp_dir("list_keys_segments");
    // Threshold of 1 byte so every write flushes to SSTable
    let engine = new_engine(&dir, "test", 1).unwrap();
    engine.set("x", "1").unwrap();
    engine.set("y", "2").unwrap();
    drop(engine);
    // Reload from disk and write one more key — it stays in the memtable
    let engine = engine_from_dir(&dir, "test", BIG_MEMTABLE).unwrap();
    engine.set("z", "3").unwrap();

    let mut keys = engine.list_keys().unwrap();
    keys.sort();
    assert_eq!(keys, vec!["x", "y", "z"]);
}

#[test]
fn list_keys_tombstone_in_memtable_hides_flushed_key() {
    let dir = temp_dir("list_keys_tombstone");
    // Flush "a" to SSTable, then delete it via memtable tombstone
    let engine = new_engine(&dir, "test", 1).unwrap();
    engine.set("a", "1").unwrap();
    let engine = new_engine(&dir, "test", BIG_MEMTABLE).unwrap();
    engine.delete("a").unwrap();

    assert_eq!(engine.list_keys().unwrap(), Vec::<String>::new());
}

#[test]
fn lsmengine_range_basic_memtable() {
    let dir = temp_dir("range_basic");
    let engine = new_engine(&dir, "test", BIG_MEMTABLE).unwrap();
    engine.set("a", "1").unwrap();
    engine.set("b", "2").unwrap();
    engine.set("c", "3").unwrap();
    engine.set("d", "4").unwrap();

    let results = engine.range("b", "c").unwrap();
    assert_eq!(
        results,
        vec![
            ("b".to_string(), "2".to_string()),
            ("c".to_string(), "3".to_string())
        ]
    );
}

#[test]
fn range_inclusive_bounds() {
    let dir = temp_dir("range_inclusive");
    let engine = new_engine(&dir, "test", BIG_MEMTABLE).unwrap();
    engine.set("a", "1").unwrap();
    engine.set("z", "26").unwrap();

    // Both endpoints must be included
    let results = engine.range("a", "z").unwrap();
    assert_eq!(
        results,
        vec![
            ("a".to_string(), "1".to_string()),
            ("z".to_string(), "26".to_string())
        ]
    );
}

#[test]
fn range_empty_when_no_keys_in_range() {
    let dir = temp_dir("range_empty");
    let engine = new_engine(&dir, "test", BIG_MEMTABLE).unwrap();
    engine.set("a", "1").unwrap();
    engine.set("z", "26").unwrap();

    let results = engine.range("m", "p").unwrap();
    assert!(results.is_empty());
}

#[test]
fn range_returns_sorted_order() {
    let dir = temp_dir("range_sorted");
    let engine = new_engine(&dir, "test", BIG_MEMTABLE).unwrap();
    // Insert in reverse order
    engine.set("c", "3").unwrap();
    engine.set("a", "1").unwrap();
    engine.set("b", "2").unwrap();

    let results = engine.range("a", "c").unwrap();
    let keys: Vec<&str> = results.iter().map(|(k, _)| k.as_str()).collect();
    assert_eq!(keys, vec!["a", "b", "c"]);
}

#[test]
fn lsmengine_range_tombstone_suppression() {
    let dir = temp_dir("range_tombstone");
    let engine = new_engine(&dir, "test", BIG_MEMTABLE).unwrap();
    engine.set("a", "1").unwrap();
    engine.set("b", "2").unwrap();
    engine.set("c", "3").unwrap();
    engine.delete("b").unwrap();

    let results = engine.range("a", "c").unwrap();
    assert_eq!(
        results,
        vec![
            ("a".to_string(), "1".to_string()),
            ("c".to_string(), "3".to_string())
        ]
    );
}

#[test]
fn lsmengine_range_spans_memtable_and_segment() {
    let dir = temp_dir("range_span");
    // threshold=1 flushes every write to SSTable
    let engine = new_engine(&dir, "test", 1).unwrap();
    engine.set("a", "1").unwrap(); // flushed to segment
    engine.set("c", "3").unwrap(); // flushed to segment
    drop(engine);

    // Reload with big threshold so new writes stay in memtable
    let engine = engine_from_dir(&dir, "test", BIG_MEMTABLE).unwrap();
    engine.set("b", "2").unwrap(); // stays in memtable

    let results = engine.range("a", "c").unwrap();
    assert_eq!(
        results,
        vec![
            ("a".to_string(), "1".to_string()),
            ("b".to_string(), "2".to_string()),
            ("c".to_string(), "3".to_string()),
        ]
    );
}

#[test]
fn range_memtable_wins_over_segment() {
    // Key written and flushed, then overwritten in memtable — range must return the newer value.
    let dir = temp_dir("range_memtable_wins");
    let engine = new_engine(&dir, "test", 1).unwrap();
    engine.set("a", "old").unwrap(); // flushed to segment

    let engine = engine_from_dir(&dir, "test", BIG_MEMTABLE).unwrap();
    engine.set("a", "new").unwrap(); // in memtable

    let results = engine.range("a", "a").unwrap();
    assert_eq!(results, vec![("a".to_string(), "new".to_string())]);
}

#[test]
fn range_tombstone_in_memtable_hides_flushed_key() {
    let dir = temp_dir("range_tombstone_flushed");
    let engine = new_engine(&dir, "test", 1).unwrap();
    engine.set("a", "1").unwrap(); // flushed to segment
    engine.set("b", "2").unwrap(); // flushed to segment
    drop(engine);

    let engine = engine_from_dir(&dir, "test", BIG_MEMTABLE).unwrap();
    engine.delete("a").unwrap(); // tombstone in memtable

    let results = engine.range("a", "b").unwrap();
    assert_eq!(results, vec![("b".to_string(), "2".to_string())]);
}

#[test]
fn range_inverted_bounds_returns_empty() {
    // start > end is a malformed request — should return empty, not panic
    let dir = temp_dir("range_inverted");
    let engine = new_engine(&dir, "test", BIG_MEMTABLE).unwrap();
    engine.set("a", "1").unwrap();
    engine.set("b", "2").unwrap();

    let results = engine.range("z", "a").unwrap();
    assert!(results.is_empty());
}

#[test]
fn range_single_key() {
    // start == end should return exactly that key if it exists
    let dir = temp_dir("range_single");
    let engine = new_engine(&dir, "test", BIG_MEMTABLE).unwrap();
    engine.set("a", "1").unwrap();
    engine.set("b", "2").unwrap();
    engine.set("c", "3").unwrap();

    let results = engine.range("b", "b").unwrap();
    assert_eq!(results, vec![("b".to_string(), "2".to_string())]);
}

#[test]
fn lsmengine_range_after_compaction() {
    // Compaction rewrites segments — range must still return correct results afterwards
    let dir = temp_dir("range_compact");
    let engine = new_engine(&dir, "test", 1).unwrap();
    engine.set("a", "1").unwrap();
    engine.set("b", "2").unwrap();
    engine.set("c", "3").unwrap();
    engine.set("d", "4").unwrap();

    engine.compact().unwrap();

    let results = engine.range("b", "c").unwrap();
    assert_eq!(
        results,
        vec![
            ("b".to_string(), "2".to_string()),
            ("c".to_string(), "3".to_string())
        ]
    );
}
