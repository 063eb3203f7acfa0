use rustikv::directory::{Change, Directory};
use rustikv::engine::{Clock, RangeScan, StorageEngine};
use rustikv::error::StoreError;
use rustikv::leveled::Leveled;
use rustikv::lsmengine::LsmEngine;
use rustikv::sstable::SSTable;
use std::cell::{Cell, RefCell};
use std::collections::BTreeMap;
use std::rc::Rc;

/// A disk with the files of a database, and a clock.
struct Disk {
    files: RefCell<BTreeMap<String, Vec<u8>>>,
    ms: Cell<u64>,
}

type Path = Rc<Disk>;

const START_MS: u64 = 1_700_000_000_000;

fn temp_dir(_suffix: &str) -> Path {
    Rc::new(Disk {
        files: RefCell::new(BTreeMap::new()),
        ms: Cell::new(START_MS),
    })
}

impl Disk {
    fn now(&self) -> Clock {
        let ms = self.ms.get() + 1;
        self.ms.set(ms);
        Clock {
            ms,
            ns: ms * 1_000_000,
        }
    }

    fn directory(&self) -> Directory {
        let mut dir = Directory::new();
        for (name, data) in self.files.borrow().iter() {
            dir.load(name.clone(), data.clone());
        }
        dir
    }

    fn apply(&self, changes: Vec<Change>) {
        let mut files = self.files.borrow_mut();
        for change in changes {
            match change {
                Change::Append { name, data } => files.entry(name).or_default().extend(data),
                Change::Replace { name, data } => {
                    files.insert(name, data);
                }
                Change::Remove { name } => {
                    files.remove(&name);
                }
                Change::Sync { .. } => {}
            }
        }
    }

    fn names_with(&self, suffix: &str) -> Vec<String> {
        self.files
            .borrow()
            .keys()
            .filter(|name| name.ends_with(suffix))
            .cloned()
            .collect()
    }
}

/// An engine whose changes go to its disk after each call. What is to be flushed is
/// flushed at once.
struct Lsm {
    inner: RefCell<LsmEngine<Leveled>>,
    disk: Path,
}

impl Lsm {
    fn over(path: &Path, mut engine: LsmEngine<Leveled>) -> Lsm {
        path.apply(engine.take_changes());
        Lsm {
            inner: RefCell::new(engine),
            disk: Rc::clone(path),
        }
    }

    fn store(&self) {
        let mut engine = self.inner.borrow_mut();
        if engine.flush_pending() {
            engine.flush_step(self.disk.now()).unwrap();
        }
        self.disk.apply(engine.take_changes());
    }

    fn set(&self, key: &str, value: &str) -> Result<(), StoreError> {
        let r = self.inner.borrow_mut().set(key, value, self.disk.now());
        self.store();
        r
    }

    fn get(&self, key: &str) -> Result<Option<(String, String)>, StoreError> {
        self.inner.borrow().get(key, self.disk.now())
    }

    fn delete(&self, key: &str) -> Result<Option<()>, StoreError> {
        let r = self.inner.borrow_mut().delete(key, self.disk.now());
        self.store();
        r
    }

    fn compact(&self) -> Result<(), StoreError> {
        let r = self.inner.borrow_mut().compact(self.disk.now());
        self.store();
        r
    }

    fn list_keys(&self) -> Result<Vec<String>, StoreError> {
        self.inner.borrow().list_keys(self.disk.now())
    }

    fn contains(&self, key: &str) -> bool {
        self.inner.borrow().contains(key, self.disk.now())
    }

    fn range(&self, start: &str, end: &str) -> Result<Vec<(String, String)>, StoreError> {
        self.inner.borrow().range(start, end, self.disk.now())
    }

    fn segment_count(&self) -> usize {
        self.inner.borrow().segment_count()
    }
}

// 4 levels, L0 threshold = 4 files, L1 max = 10MB
fn new_engine(dir: &Path, db_name: &str, max_memtable_bytes: usize) -> Result<Lsm, StoreError> {
    let strategy = Leveled::new(4, 4, 10 * 1024 * 1024);
    let engine = LsmEngine::new(dir.directory(), db_name, max_memtable_bytes, strategy);
    Ok(Lsm::over(dir, engine))
}

fn engine_from_dir(
    dir: &Path,
    db_name: &str,
    max_memtable_bytes: usize,
) -> Result<Lsm, StoreError> {
    let files = dir.directory();
    let strategy = Leveled::load_from_dir(&files, db_name, 4, 4, 10 * 1024 * 1024)?;
    let engine = LsmEngine::from_dir(files, db_name, max_memtable_bytes, strategy)?;
    Ok(Lsm::over(dir, engine))
}

const BIG_MEMTABLE: usize = 1_048_576; // 1 MB: nothing is flushed on its own

#[test]
fn parse_leveled_filename() {
    let sst = SSTable::parse("mydb_L2_1234567890.sst");
    assert!(sst.is_some());
    let sst = sst.unwrap();
    assert_eq!(sst.get_level(), Some(2));
    assert_eq!(sst.begun(), 1234567890);
}

#[test]
fn parse_non_leveled_filename() {
    let sst = SSTable::parse("mydb_1234567890.sst");
    assert!(sst.is_some());
    let sst = sst.unwrap();
    assert_eq!(sst.get_level(), None);
    assert_eq!(sst.begun(), 1234567890);
}

#[test]
fn parse_level_0_filename() {
    let sst = SSTable::parse("mydb_L0_9999.sst");
    assert!(sst.is_some());
    let sst = sst.unwrap();
    assert_eq!(sst.get_level(), Some(0));
}

#[test]
fn leveled_set_and_get() {
    let dir = temp_dir("set_get");
    let engine = new_engine(&dir, "test", BIG_MEMTABLE).unwrap();
    engine.set("hello", "world").unwrap();
    let result = engine.get("hello").unwrap();
    assert_eq!(result, Some(("hello".to_string(), "world".to_string())));
}

#[test]
fn leveled_get_missing_key() {
    let dir = temp_dir("missing");
    let engine = new_engine(&dir, "test", BIG_MEMTABLE).unwrap();
    assert_eq!(engine.get("nope").unwrap(), None);
}

#[test]
fn leveled_set_overwrite() {
    let dir = temp_dir("overwrite");
    let engine = new_engine(&dir, "test", BIG_MEMTABLE).unwrap();
    engine.set("k", "old").unwrap();
    engine.set("k", "new").unwrap();
    let (_, v) = engine.get("k").unwrap().unwrap();
    assert_eq!(v, "new");
}

#[test]
fn leveled_delete_removes_key() {
    let dir = temp_dir("delete");
    let engine = new_engine(&dir, "test", BIG_MEMTABLE).unwrap();
    engine.set("k", "v").unwrap();
    engine.delete("k").unwrap();
    assert_eq!(engine.get("k").unwrap(), None);
}

#[test]
fn leveled_delete_nonexistent_key() {
    let dir = temp_dir("delete_missing");
    let engine = new_engine(&dir, "test", BIG_MEMTABLE).unwrap();
    let result = engine.delete("nope").unwrap();
    assert_eq!(result, None);
}

#[test]
fn leveled_memtable_flushes_to_sstable() {
    let dir = temp_dir("flush");
    {
        let engine = new_engine(&dir, "test", 1).unwrap();
        engine.set("k1", "v1").unwrap();
    } // drop joins the background flush

    let engine = engine_from_dir(&dir, "test", BIG_MEMTABLE).unwrap();

    let (_, v) = engine.get("k1").unwrap().unwrap();
    assert_eq!(v, "v1");

    let sst_files = dir.names_with(".sst");
    assert!(!sst_files.is_empty(), "expected at least one .sst file");
}

#[test]
fn leveled_reads_span_memtable_and_segments() {
    let dir = temp_dir("span");
    let engine = new_engine(&dir, "test", 1).unwrap();
    engine.set("k1", "v1").unwrap();
    engine.set("k2", "v2").unwrap();

    let (_, v1) = engine.get("k1").unwrap().unwrap();
    let (_, v2) = engine.get("k2").unwrap().unwrap();
    assert_eq!(v1, "v1");
    assert_eq!(v2, "v2");
}

#[test]
fn leveled_delete_shadows_flushed_value() {
    let dir = temp_dir("shadow");
    let engine = new_engine(&dir, "test", 1).unwrap();
    engine.set("k1", "v1").unwrap();
    engine.delete("k1").unwrap();
    assert_eq!(engine.get("k1").unwrap(), None);
}

#[test]
fn leveled_compact_preserves_values() {
    let dir = temp_dir("compact_preserve");
    let engine = new_engine(&dir, "test", 1).unwrap();
    engine.set("k1", "v1").unwrap();
    engine.set("k2", "v2").unwrap();

    engine.compact().unwrap();

    let (_, v1) = engine.get("k1").unwrap().unwrap();
    let (_, v2) = engine.get("k2").unwrap().unwrap();
    assert_eq!(v1, "v1");
    assert_eq!(v2, "v2");
}

#[test]
fn leveled_compact_keeps_latest_value() {
    let dir = temp_dir("compact_latest");
    let engine = new_engine(&dir, "test", 1).unwrap();
    engine.set("k", "old").unwrap();
    engine.set("k", "new").unwrap();

    engine.compact().unwrap();

    let (_, v) = engine.get("k").unwrap().unwrap();
    assert_eq!(v, "new");
}

#[test]
fn leveled_compact_drops_deleted_keys() {
    let dir = temp_dir("compact_delete");
    let engine = new_engine(&dir, "test", 1).unwrap();
    engine.set("k1", "v1").unwrap();
    engine.delete("k1").unwrap();

    engine.compact().unwrap();

    assert_eq!(engine.get("k1").unwrap(), None);
}

#[test]
fn leveled_compact_is_idempotent() {
    let dir = temp_dir("compact_idempotent");
    let engine = new_engine(&dir, "test", 1).unwrap();
    engine.set("k1", "v1").unwrap();
    engine.set("k2", "v2").unwrap();

    engine.compact().unwrap();
    engine.compact().unwrap();

    let (_, v1) = engine.get("k1").unwrap().unwrap();
    let (_, v2) = engine.get("k2").unwrap().unwrap();
    assert_eq!(v1, "v1");
    assert_eq!(v2, "v2");
}

#[test]
fn leveled_from_dir_reloads_segments() {
    let dir = temp_dir("from_dir");
    {
        let engine = new_engine(&dir, "test", 1).unwrap();
        engine.set("k1", "v1").unwrap();
        engine.set("k2", "v2").unwrap();
    }

    let engine = engine_from_dir(&dir, "test", BIG_MEMTABLE).unwrap();
    let (_, v1) = engine.get("k1").unwrap().unwrap();
    let (_, v2) = engine.get("k2").unwrap().unwrap();
    assert_eq!(v1, "v1");
    assert_eq!(v2, "v2");
}

#[test]
fn from_dir_preserves_level_in_filename() {
    let dir = temp_dir("level_filename");
    {
        let engine = new_engine(&dir, "test", 1).unwrap();
        engine.set("k1", "v1").unwrap();
        engine.set("k2", "v2").unwrap();
        engine.set("k3", "v3").unwrap();
        engine.set("k4", "v4").unwrap();
        // With threshold=1, each write flushes to L0.
        // After compaction, files should have level info in filename.
        engine.compact().unwrap();
    }

    let sst_files = dir.names_with(".sst");

    // After compact_all, files should have _L in the name
    assert!(
        sst_files.iter().any(|f| f.contains("_L")),
        "expected leveled filenames after compaction, got: {:?}",
        sst_files
    );
}

#[test]
fn from_dir_reloads_after_compaction() {
    let dir = temp_dir("reload_compact");
    {
        let engine = new_engine(&dir, "test", 1).unwrap();
        for i in 0..10 {
            engine
                .set(&format!("key{:03}", i), &format!("val{}", i))
                .unwrap();
        }
        engine.compact().unwrap();
    }

    // Reload and verify all data
    let engine = engine_from_dir(&dir, "test", BIG_MEMTABLE).unwrap();
    for i in 0..10 {
        let (_, v) = engine
            .get(&format!("key{:03}", i))
            .unwrap()
            .unwrap_or_else(|| panic!("key{:03} not found after reload", i));
        assert_eq!(v, format!("val{}", i));
    }
}

#[test]
fn leveled_exists_returns_true_after_set() {
    let dir = temp_dir("exists_true");
    let engine = new_engine(&dir, "test", BIG_MEMTABLE).unwrap();
    engine.set("k", "v").unwrap();
    assert!(engine.contains("k"));
}

#[test]
fn leveled_exists_returns_false_for_missing_key() {
    let dir = temp_dir("exists_missing");
    let engine = new_engine(&dir, "test", BIG_MEMTABLE).unwrap();
    assert!(!engine.contains("nope"));
}

#[test]
fn leveled_exists_returns_false_after_delete() {
    let dir = temp_dir("exists_delete");
    let engine = new_engine(&dir, "test", BIG_MEMTABLE).unwrap();
    engine.set("k", "v").unwrap();
    engine.delete("k").unwrap();
    assert!(!engine.contains("k"));
}

#[test]
fn leveled_exists_returns_true_for_flushed_key() {
    let dir = temp_dir("exists_flushed");
    let engine = new_engine(&dir, "test", 1).unwrap();
    engine.set("k", "v").unwrap();
    assert!(engine.contains("k"));
}

#[test]
fn leveled_list_keys_returns_all_live_keys() {
    let dir = temp_dir("list_keys");
    let engine = new_engine(&dir, "test", BIG_MEMTABLE).unwrap();
    engine.set("a", "1").unwrap();
    engine.set("b", "2").unwrap();
    engine.set("c", "3").unwrap();

    let mut keys = engine.list_keys().unwrap();
    keys.sort();
    assert_eq!(keys, vec!["a", "b", "c"]);
}

#[test]
fn leveled_list_keys_excludes_deleted_keys() {
    let dir = temp_dir("list_keys_delete");
    let engine = new_engine(&dir, "test", BIG_MEMTABLE).unwrap();
    engine.set("a", "1").unwrap();
    engine.set("b", "2").unwrap();
    engine.set("c", "3").unwrap();
    engine.delete("b").unwrap();

    let mut keys = engine.list_keys().unwrap();
    keys.sort();
    assert_eq!(keys, vec!["a", "c"]);
}

#[test]
fn leveled_list_keys_spans_memtable_and_segments() {
    let dir = temp_dir("list_keys_segments");
    let engine = new_engine(&dir, "test", 1).unwrap();
    engine.set("x", "1").unwrap();
    engine.set("y", "2").unwrap();
    drop(engine);
    let engine = engine_from_dir(&dir, "test", BIG_MEMTABLE).unwrap();
    engine.set("z", "3").unwrap();

    let mut keys = engine.list_keys().unwrap();
    keys.sort();
    assert_eq!(keys, vec!["x", "y", "z"]);
}

#[test]
fn leveled_range_basic_memtable() {
    let dir = temp_dir("range_basic");
    let engine = new_engine(&dir, "test", BIG_MEMTABLE).unwrap();
    engine.set("a", "1").unwrap();
    engine.set("b", "2").unwrap();
    engine.set("c", "3").unwrap();
    engine.set("d", "4").unwrap();

    let results = engine.range("b", "c").unwrap();
    assert_eq!(
        results,
        vec![
            ("b".to_string(), "2".to_string()),
            ("c".to_string(), "3".to_string())
        ]
    );
}

#[test]
fn leveled_range_spans_memtable_and_segment() {
    let dir = temp_dir("range_span");
    let engine = new_engine(&dir, "test", 1).unwrap();
    engine.set("a", "1").unwrap();
    engine.set("c", "3").unwrap();
    drop(engine);

    let engine = engine_from_dir(&dir, "test", BIG_MEMTABLE).unwrap();
    engine.set("b", "2").unwrap();

    let results = engine.range("a", "c").unwrap();
    assert_eq!(
        results,
        vec![
            ("a".to_string(), "1".to_string()),
            ("b".to_string(), "2".to_string()),
            ("c".to_string(), "3".to_string()),
        ]
    );
}

#[test]
fn leveled_range_after_compaction() {
    let dir = temp_dir("range_compact");
    let engine = new_engine(&dir, "test", 1).unwrap();
    engine.set("a", "1").unwrap();
    engine.set("b", "2").unwrap();
    engine.set("c", "3").unwrap();
    engine.set("d", "4").unwrap();

    engine.compact().unwrap();

    let results = engine.range("b", "c").unwrap();
    assert_eq!(
        results,
        vec![
            ("b".to_string(), "2".to_string()),
            ("c".to_string(), "3".to_string())
        ]
    );
}

#[test]
fn leveled_range_tombstone_suppression() {
    let dir = temp_dir("range_tombstone");
    let engine = new_engine(&dir, "test", BIG_MEMTABLE).unwrap();
    engine.set("a", "1").unwrap();
    engine.set("b", "2").unwrap();
    engine.set("c", "3").unwrap();
    engine.delete("b").unwrap();

    let results = engine.range("a", "c").unwrap();
    assert_eq!(
        results,
        vec![
            ("a".to_string(), "1".to_string()),
            ("c".to_string(), "3".to_string())
        ]
    );
}

#[test]
fn leveled_wal_recovers_unflushed_writes() {
    let dir = temp_dir("wal_recover");
    {
        let engine = new_engine(&dir, "test", BIG_MEMTABLE).unwrap();
        engine.set("k1", "v1").unwrap();
        engine.set("k2", "v2").unwrap();
    }

    let engine = engine_from_dir(&dir, "test", BIG_MEMTABLE).unwrap();
    assert_eq!(
        engine.get("k1").unwrap(),
        Some(("k1".to_string(), "v1".to_string()))
    );
    assert_eq!(
        engine.get("k2").unwrap(),
        Some(("k2".to_string(), "v2".to_string()))
    );
}

#[test]
fn leveled_wal_recovers_unflushed_delete() {
    let dir = temp_dir("wal_delete");
    {
        let engine = new_engine(&dir, "test", 1).unwrap();
        engine.set("k1", "v1").unwrap();
    }
    {
        let engine = engine_from_dir(&dir, "test", BIG_MEMTABLE).unwrap();
        engine.delete("k1").unwrap();
    }

    let engine = engine_from_dir(&dir, "test", BIG_MEMTABLE).unwrap();
    assert_eq!(engine.get("k1").unwrap(), None);
}

#[test]
fn compact_many_keys_preserves_all() {
    let dir = temp_dir("compact_many");
    let engine = new_engine(&dir, "test", 1).unwrap();
    for i in 0..50 {
        engine
            .set(&format!("key{:03}", i), &format!("val{}", i))
            .unwrap();
    }

    engine.compact().unwrap();

    for i in 0..50 {
        let (_, v) = engine
            .get(&format!("key{:03}", i))
            .unwrap()
            .unwrap_or_else(|| panic!("key{:03} missing after compaction", i));
        assert_eq!(v, format!("val{}", i));
    }
}

#[test]
fn compact_overwrites_keep_latest() {
    let dir = temp_dir("compact_overwrite");
    let engine = new_engine(&dir, "test", 1).unwrap();
    for round in 0..3 {
        for i in 0..10 {
            engine
                .set(&format!("key{:03}", i), &format!("val_r{}_{}", round, i))
                .unwrap();
        }
    }

    engine.compact().unwrap();

    for i in 0..10 {
        let (_, v) = engine
            .get(&format!("key{:03}", i))
            .unwrap()
            .unwrap_or_else(|| panic!("key{:03} missing", i));
        assert_eq!(v, format!("val_r2_{}", i));
    }
}

#[test]
fn segment_count_after_compact() {
    let dir = temp_dir("seg_count");
    let engine = new_engine(&dir, "test", 1).unwrap();
    engine.set("a", "1").unwrap();
    engine.set("b", "2").unwrap();
    engine.set("c", "3").unwrap();
    drop(engine);

    let engine = engine_from_dir(&dir, "test", 1).unwrap();
    assert!(engine.segment_count() >= 3);

    engine.compact().unwrap();

    // After compact_all, all data cascades to the terminal level as one file
    assert!(
        engine.segment_count() <= 2,
        "expected fewer segments after compaction, got {}",
        engine.segment_count()
    );
}
