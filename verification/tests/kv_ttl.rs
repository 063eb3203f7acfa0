use rustikv::directory::{Change, Directory};
use rustikv::engine::{Clock, StorageEngine, TtlOutcome};
use rustikv::error::StoreError;
use rustikv::kvengine::KVEngine;
use rustikv::settings::FSyncStrategy;
use std::cell::{Cell, RefCell};
use std::collections::BTreeMap;
use std::rc::Rc;

/// A disk with the files of a database, and a clock.
struct Disk {
    files: RefCell<BTreeMap<String, Vec<u8>>>,
    ms: Cell<u64>,
}

type Path = Rc<Disk>;

const START_MS: u64 = 1_700_000_000_000;

fn temp_dir(_suffix: &str) -> Path {
    Rc::new(Disk {
        files: RefCell::new(BTreeMap::new()),
        ms: Cell::new(START_MS),
    })
}

impl Disk {
    fn now(&self) -> Clock {
        let ms = self.ms.get() + 1;
        self.ms.set(ms);
        Clock {
            ms,
            ns: ms * 1_000_000,
        }
    }

    fn directory(&self) -> Directory {
        let mut dir = Directory::new();
        for (name, data) in self.files.borrow().iter() {
            dir.load(name.clone(), data.clone());
        }
        dir
    }

    fn apply(&self, changes: Vec<Change>) {
        let mut files = self.files.borrow_mut();
        for change in changes {
            match change {
                Change::Append { name, data } => files.entry(name).or_default().extend(data),
                Change::Replace { name, data } => {
                    files.insert(name, data);
                }
                Change::Remove { name } => {
                    files.remove(&name);
                }
                Change::Sync { .. } => {}
            }
        }
    }
}

/// An engine whose changes go to its disk after each call.
struct Kv {
    inner: RefCell<KVEngine>,
    disk: Path,
}

impl Kv {
    fn new(
        path: &Path,
        name: &str,
        max_segment_bytes: u64,
        strategy: FSyncStrategy,
    ) -> Result<Kv, StoreError> {
        let engine = KVEngine::new(path.directory(), name, max_segment_bytes, strategy, path.now());
        Ok(Kv::over(path, engine))
    }

    fn over(path: &Path, mut engine: KVEngine) -> Kv {
        path.apply(engine.take_changes());
        Kv {
            inner: RefCell::new(engine),
            disk: Rc::clone(path),
        }
    }

    fn store(&self) {
        let changes = self.inner.borrow_mut().take_changes();
        self.disk.apply(changes);
    }

    fn set(&self, key: &str, value: &str) -> Result<(), StoreError> {
        let r = self.inner.borrow_mut().set(key, value, self.disk.now());
        self.store();
        r
    }

    fn set_with_ttl(
        &self,
        key: &str,
        value: &str,
        expiry_ms: Option<u64>,
    ) -> Result<(), StoreError> {
        let now = self.disk.now();
        let r = self.inner.borrow_mut().set_with_ttl(key, value, expiry_ms, now);
        self.store();
        r
    }

    fn get(&self, key: &str) -> Result<Option<(String, String)>, StoreError> {
        self.inner.borrow().get(key, self.disk.now())
    }

    fn ttl(&self, key: &str, expiry_ms: Option<u64>) -> Result<TtlOutcome, StoreError> {
        let r = self.inner.borrow_mut().ttl(key, expiry_ms, self.disk.now());
        self.store();
        r
    }

    fn compact(&self) -> Result<(), StoreError> {
        let r = self.inner.borrow_mut().compact(self.disk.now());
        self.store();
        r
    }
}

fn now_ms() -> u64 {
    START_MS
}

fn make_engine(suffix: &str) -> Kv {
    let dir = temp_dir(suffix);
    Kv::new(&dir, "seg", 1024 * 1024, FSyncStrategy::Never).unwrap()
}

#[test]
fn kv_ttl_set_with_future_ttl_value_is_readable() {
    let engine = make_engine("future_ttl_read");
    let expiry_ms = now_ms() + 60_000; // 60 seconds from now
    engine.set_with_ttl("k", "v", Some(expiry_ms)).unwrap();
    let (_, val) = engine.get("k").unwrap().unwrap();
    assert_eq!(val, "v");
}

#[test]
fn kv_ttl_set_with_no_ttl_value_is_readable() {
    let engine = make_engine("no_ttl_read");
    engine.set_with_ttl("k", "v", None).unwrap();
    let (_, val) = engine.get("k").unwrap().unwrap();
    assert_eq!(val, "v");
}

// Expired records are not found on read.
#[test]
fn expired_key_invisible_in_kv_engine() {
    let engine = make_engine("expired_invisible");
    let past_ms = now_ms() - 1; // already expired
    engine.set_with_ttl("k", "v", Some(past_ms)).unwrap();
    assert!(engine.get("k").unwrap().is_none());
}

#[test]
fn kv_ttl_ttl_on_existing_key_returns_set() {
    let engine = make_engine("ttl_set");
    engine.set("k", "v").unwrap();
    let expiry_ms = now_ms() + 30_000;
    let outcome = engine.ttl("k", Some(expiry_ms)).unwrap();
    assert!(matches!(outcome, TtlOutcome::ExpirySet));
}

#[test]
fn kv_ttl_ttl_on_missing_key_returns_not_found() {
    let engine = make_engine("ttl_not_found");
    let expiry_ms = now_ms() + 30_000;
    let outcome = engine.ttl("no_such_key", Some(expiry_ms)).unwrap();
    assert!(matches!(outcome, TtlOutcome::NotFound));
}

#[test]
fn ttl_persist_on_existing_key_returns_persisted() {
    let engine = make_engine("ttl_persist");
    engine.set("k", "v").unwrap();
    // Passing None means "strip the expiry" (PERSIST semantics).
    let outcome = engine.ttl("k", None).unwrap();
    assert!(matches!(outcome, TtlOutcome::Persisted));
}

// KVEngine compaction drops expired records.
#[test]
fn compact_drops_expired_record_in_kv_engine() {
    let dir = temp_dir("compact_expired");
    let engine = Kv::new(&dir, "seg", 50, FSyncStrategy::Never).unwrap();
    let past_ms = now_ms() - 1;
    engine.set_with_ttl("k", "v", Some(past_ms)).unwrap();
    engine.compact().unwrap();
    assert!(engine.get("k").unwrap().is_none());
}

#[test]
fn compact_preserves_live_ttl_key() {
    let dir = temp_dir("compact_live_ttl");
    let engine = Kv::new(&dir, "seg", 50, FSyncStrategy::Never).unwrap();
    let future_ms = now_ms() + 60_000;
    engine.set_with_ttl("k", "v", Some(future_ms)).unwrap();
    engine.compact().unwrap();
    let (_, val) = engine.get("k").unwrap().unwrap();
    assert_eq!(val, "v");
}
