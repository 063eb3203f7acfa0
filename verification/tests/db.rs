use rustikv::directory::{Change, Directory};
use rustikv::engine::{Clock, StorageEngine};
use rustikv::error::StoreError;
use rustikv::kvengine::KVEngine;
use rustikv::settings::FSyncStrategy;
use std::cell::{Cell, RefCell};
use std::collections::BTreeMap;
use std::rc::Rc;

const DEFAULT_MAX_SEGMENT_BYTES: u64 = 1_048_576 * 50;

/// A disk with the files of a database, and a clock.
struct Disk {
    files: RefCell<BTreeMap<String, Vec<u8>>>,
    ms: Cell<u64>,
}

type Path = Rc<Disk>;

const START_MS: u64 = 1_700_000_000_000;

fn temp_db_path(_suffix: &str) -> Path {
    Rc::new(Disk {
        files: RefCell::new(BTreeMap::new()),
        ms: Cell::new(START_MS),
    })
}

impl Disk {
    fn now(&self) -> Clock {
        let ms = self.ms.get() + 1;
        self.ms.set(ms);
        Clock {
            ms,
            ns: ms * 1_000_000,
        }
    }

    fn directory(&self) -> Directory {
        let mut dir = Directory::new();
        for (name, data) in self.files.borrow().iter() {
            dir.load(name.clone(), data.clone());
        }
        dir
    }

    fn apply(&self, changes: Vec<Change>) {
        let mut files = self.files.borrow_mut();
        for change in changes {
            match change {
                Change::Append { name, data } => files.entry(name).or_default().extend(data),
                Change::Replace { name, data } => {
                    files.insert(name, data);
                }
                Change::Remove { name } => {
                    files.remove(&name);
                }
                Change::Sync { .. } => {}
            }
        }
    }
}

/// An engine whose changes go to its disk after each call.
struct Kv {
    inner: RefCell<KVEngine>,
    disk: Path,
}

impl Kv {
    fn new(
        path: &Path,
        name: &str,
        max_segment_bytes: u64,
        strategy: FSyncStrategy,
    ) -> Result<Kv, StoreError> {
        let engine = KVEngine::new(path.directory(), name, max_segment_bytes, strategy, path.now());
        Ok(Kv::over(path, engine))
    }

    fn from_dir(
        path: &Path,
        name: &str,
        max_segment_bytes: u64,
        strategy: FSyncStrategy,
    ) -> Result<Option<Kv>, StoreError> {
        let mut dir = path.directory();
        Ok(KVEngine::from_dir(&mut dir, name, max_segment_bytes, strategy)?
            .map(|engine| Kv::over(path, engine)))
    }

    fn over(path: &Path, mut engine: KVEngine) -> Kv {
        path.apply(engine.take_changes());
        Kv {
            inner: RefCell::new(engine),
            disk: Rc::clone(path),
        }
    }

    fn store(&self) {
        let changes = self.inner.borrow_mut().take_changes();
        self.disk.apply(changes);
    }

    fn set(&self, key: &str, value: &str) -> Result<(), StoreError> {
        let r = self.inner.borrow_mut().set(key, value, self.disk.now());
        self.store();
        r
    }

    fn get(&self, key: &str) -> Result<Option<(String, String)>, StoreError> {
        self.inner.borrow().get(key, self.disk.now())
    }

    fn delete(&self, key: &str) -> Result<Option<()>, StoreError> {
        let r = self.inner.borrow_mut().delete(key, self.disk.now());
        self.store();
        r
    }

    fn compact(&self) -> Result<(), StoreError> {
        let r = self.inner.borrow_mut().compact(self.disk.now());
        self.store();
        r
    }

    fn list_keys(&self) -> Result<Vec<String>, StoreError> {
        self.inner.borrow().list_keys(self.disk.now())
    }

    fn contains(&self, key: &str) -> bool {
        self.inner.borrow().contains(key, self.disk.now())
    }
}

#[test]
fn db_set_and_get() {
    let db = Kv::new(
        &temp_db_path("set_get"),
        "test",
        DEFAULT_MAX_SEGMENT_BYTES,
        FSyncStrategy::Always,
    )
    .unwrap();
    db.set("hello", "world").unwrap();
    let (_, value) = db.get("hello").unwrap().unwrap();
    assert_eq!(value, "world");
}

#[test]
fn db_get_missing_key() {
    let db = Kv::new(
        &temp_db_path("missing"),
        "test",
        DEFAULT_MAX_SEGMENT_BYTES,
        FSyncStrategy::Always,
    )
    .unwrap();
    assert_eq!(db.get("nope").unwrap(), None);
}

#[test]
fn db_set_overwrite() {
    let db = Kv::new(
        &temp_db_path("overwrite"),
        "test",
        DEFAULT_MAX_SEGMENT_BYTES,
        FSyncStrategy::Always,
    )
    .unwrap();
    db.set("k", "old").unwrap();
    db.set("k", "new").unwrap();
    let (_, value) = db.get("k").unwrap().unwrap();
    assert_eq!(value, "new");
}

#[test]
fn db_compact_preserves_values() {
    let db = Kv::new(
        &temp_db_path("preserve"),
        "test",
        DEFAULT_MAX_SEGMENT_BYTES,
        FSyncStrategy::Always,
    )
    .unwrap();
    db.set("k1", "v1").unwrap();
    db.set("k2", "v2").unwrap();

    db.compact().unwrap();

    let (_, v1) = db.get("k1").unwrap().unwrap();
    let (_, v2) = db.get("k2").unwrap().unwrap();
    assert_eq!(v1, "v1");
    assert_eq!(v2, "v2");
}

#[test]
fn db_compact_keeps_latest_value() {
    let db = Kv::new(
        &temp_db_path("latest"),
        "test",
        DEFAULT_MAX_SEGMENT_BYTES,
        FSyncStrategy::Always,
    )
    .unwrap();
    db.set("k1", "v1").unwrap();
    db.set("k1", "v2").unwrap();

    db.compact().unwrap();

    let (_, value) = db.get("k1").unwrap().unwrap();
    assert_eq!(value, "v2");
}

#[test]
fn db_compact_drops_deleted_keys() {
    let db = Kv::new(
        &temp_db_path("deleted"),
        "test",
        DEFAULT_MAX_SEGMENT_BYTES,
        FSyncStrategy::Always,
    )
    .unwrap();
    db.set("k1", "v1").unwrap();
    db.delete("k1").unwrap();

    db.compact().unwrap();

    assert_eq!(db.get("k1").unwrap(), None);
}

#[test]
fn db_compact_is_idempotent() {
    let db = Kv::new(
        &temp_db_path("idempotent"),
        "test",
        DEFAULT_MAX_SEGMENT_BYTES,
        FSyncStrategy::Always,
    )
    .unwrap();
    db.set("k1", "v1").unwrap();
    db.set("k2", "v2").unwrap();

    db.compact().unwrap();
    db.compact().unwrap();

    let (_, v1) = db.get("k1").unwrap().unwrap();
    let (_, v2) = db.get("k2").unwrap().unwrap();
    assert_eq!(v1, "v1");
    assert_eq!(v2, "v2");
}

#[test]
fn segment_rolls_when_full() {
    // Use a tiny limit so that a second write triggers a new segment
    let path = temp_db_path("roll");
    let db = Kv::new(&path, "test", 50, FSyncStrategy::Always).unwrap();
    db.set("k1", "value_one").unwrap();
    db.set("k2", "value_two").unwrap();

    // Both keys should be readable even though they're in different segments
    let (_, v1) = db.get("k1").unwrap().unwrap();
    let (_, v2) = db.get("k2").unwrap().unwrap();
    assert_eq!(v1, "value_one");
    assert_eq!(v2, "value_two");
}

#[test]
fn from_dir_loads_all_segments() {
    let path = temp_db_path("from_dir_multi");
    {
        let db = Kv::new(&path, "test", 50, FSyncStrategy::Always).unwrap();
        db.set("k1", "value_one").unwrap();
        db.set("k2", "value_two").unwrap();
    }

    // Reopen from disk — should rebuild index across all segments
    let db = Kv::from_dir(&path, "test", 50, FSyncStrategy::Always)
        .unwrap()
        .unwrap();
    let (_, v1) = db.get("k1").unwrap().unwrap();
    let (_, v2) = db.get("k2").unwrap().unwrap();
    assert_eq!(v1, "value_one");
    assert_eq!(v2, "value_two");
}

#[test]
fn compact_merges_segments() {
    let path = temp_db_path("compact_merge");
    let db = Kv::new(&path, "test", 50, FSyncStrategy::Always).unwrap();
    db.set("k1", "value_one").unwrap();
    db.set("k2", "value_two").unwrap();
    db.set("k1", "updated").unwrap();

    db.compact().unwrap();
    let (_, v1) = db.get("k1").unwrap().unwrap();
    let (_, v2) = db.get("k2").unwrap().unwrap();
    assert_eq!(v1, "updated");
    assert_eq!(v2, "value_two");
}

#[test]
fn sync_never_writes_are_readable() {
    let db = Kv::new(
        &temp_db_path("sync_never"),
        "test",
        DEFAULT_MAX_SEGMENT_BYTES,
        FSyncStrategy::Never,
    )
    .unwrap();
    db.set("k1", "v1").unwrap();
    db.set("k2", "v2").unwrap();
    let (_, v1) = db.get("k1").unwrap().unwrap();
    let (_, v2) = db.get("k2").unwrap().unwrap();
    assert_eq!(v1, "v1");
    assert_eq!(v2, "v2");
}

#[test]
fn sync_every_n_writes_are_readable() {
    let db = Kv::new(
        &temp_db_path("sync_every_n"),
        "test",
        DEFAULT_MAX_SEGMENT_BYTES,
        FSyncStrategy::EveryN(3),
    )
    .unwrap();
    for i in 0..10 {
        db.set(&format!("k{i}"), &format!("v{i}")).unwrap();
    }
    for i in 0..10 {
        let (_, val) = db.get(&format!("k{i}")).unwrap().unwrap();
        assert_eq!(val, format!("v{i}"));
    }
}

#[test]
fn sync_never_delete_works() {
    let db = Kv::new(
        &temp_db_path("sync_never_del"),
        "test",
        DEFAULT_MAX_SEGMENT_BYTES,
        FSyncStrategy::Never,
    )
    .unwrap();
    db.set("k1", "v1").unwrap();
    db.delete("k1").unwrap();
    assert_eq!(db.get("k1").unwrap(), None);
}

#[test]
fn sync_every_n_compaction_preserves_data() {
    let path = temp_db_path("sync_every_n_compact");
    let db = Kv::new(&path, "test", 50, FSyncStrategy::EveryN(2)).unwrap();
    db.set("k1", "value_one").unwrap();
    db.set("k2", "value_two").unwrap();
    db.set("k1", "updated").unwrap();

    db.compact().unwrap();
    let (_, v1) = db.get("k1").unwrap().unwrap();
    let (_, v2) = db.get("k2").unwrap().unwrap();
    assert_eq!(v1, "updated");
    assert_eq!(v2, "value_two");
}

#[test]
fn db_list_keys_returns_all_live_keys() {
    let db = Kv::new(
        &temp_db_path("list_keys"),
        "test",
        DEFAULT_MAX_SEGMENT_BYTES,
        FSyncStrategy::Never,
    )
    .unwrap();
    db.set("a", "1").unwrap();
    db.set("b", "2").unwrap();
    db.set("c", "3").unwrap();

    let mut keys = db.list_keys().unwrap();
    keys.sort();
    assert_eq!(keys, vec!["a", "b", "c"]);
}

#[test]
fn db_list_keys_excludes_deleted_keys() {
    let db = Kv::new(
        &temp_db_path("list_keys_delete"),
        "test",
        DEFAULT_MAX_SEGMENT_BYTES,
        FSyncStrategy::Never,
    )
    .unwrap();
    db.set("a", "1").unwrap();
    db.set("b", "2").unwrap();
    db.set("c", "3").unwrap();
    db.delete("b").unwrap();

    let mut keys = db.list_keys().unwrap();
    keys.sort();
    assert_eq!(keys, vec!["a", "c"]);
}

#[test]
fn list_keys_deduplicates_overwritten_keys() {
    let db = Kv::new(
        &temp_db_path("list_keys_overwrite"),
        "test",
        DEFAULT_MAX_SEGMENT_BYTES,
        FSyncStrategy::Never,
    )
    .unwrap();
    db.set("k", "old").unwrap();
    db.set("k", "new").unwrap();

    let keys = db.list_keys().unwrap();
    assert_eq!(keys, vec!["k"]);
}

#[test]
fn list_keys_empty_db() {
    let db = Kv::new(
        &temp_db_path("list_keys_empty"),
        "test",
        DEFAULT_MAX_SEGMENT_BYTES,
        FSyncStrategy::Never,
    )
    .unwrap();
    assert_eq!(db.list_keys().unwrap(), Vec::<String>::new());
}

#[test]
fn db_exists_returns_true_after_set() {
    let db = Kv::new(
        &temp_db_path("exists_true"),
        "test",
        DEFAULT_MAX_SEGMENT_BYTES,
        FSyncStrategy::Never,
    )
    .unwrap();
    db.set("k", "v").unwrap();
    assert!(db.contains("k"));
}

#[test]
fn db_exists_returns_false_for_missing_key() {
    let db = Kv::new(
        &temp_db_path("exists_missing"),
        "test",
        DEFAULT_MAX_SEGMENT_BYTES,
        FSyncStrategy::Never,
    )
    .unwrap();
    assert!(!db.contains("nope"));
}

#[test]
fn db_exists_returns_false_after_delete() {
    let db = Kv::new(
        &temp_db_path("exists_delete"),
        "test",
        DEFAULT_MAX_SEGMENT_BYTES,
        FSyncStrategy::Never,
    )
    .unwrap();
    db.set("k", "v").unwrap();
    db.delete("k").unwrap();
    assert!(!db.contains("k"));
}
