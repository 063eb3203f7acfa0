use rustikv::directory::{Change, Directory};
use rustikv::engine::{Clock, StorageEngine, TtlOutcome};
use rustikv::error::StoreError;
use rustikv::lsmengine::LsmEngine;
use rustikv::size_tiered::SizeTiered;
use std::cell::{Cell, RefCell};
use std::collections::BTreeMap;
use std::rc::Rc;

/// A disk with the files of a database, and a clock.
struct Disk {
    files: RefCell<BTreeMap<String, Vec<u8>>>,
    ms: Cell<u64>,
}

type Path = Rc<Disk>;

const START_MS: u64 = 1_700_000_000_000;

fn temp_dir(_suffix: &str) -> Path {
    Rc::new(Disk {
        files: RefCell::new(BTreeMap::new()),
        ms: Cell::new(START_MS),
    })
}

impl Disk {
    fn now(&self) -> Clock {
        let ms = self.ms.get() + 1;
        self.ms.set(ms);
        Clock {
            ms,
            ns: ms * 1_000_000,
        }
    }

    fn directory(&self) -> Directory {
        let mut dir = Directory::new();
        for (name, data) in self.files.borrow().iter() {
            dir.load(name.clone(), data.clone());
        }
        dir
    }

    fn apply(&self, changes: Vec<Change>) {
        let mut files = self.files.borrow_mut();
        for change in changes {
            match change {
                Change::Append { name, data } => files.entry(name).or_default().extend(data),
                Change::Replace { name, data } => {
                    files.insert(name, data);
                }
                Change::Remove { name } => {
                    files.remove(&name);
                }
                Change::Sync { .. } => {}
            }
        }
    }
}

/// An engine whose changes go to its disk after each call. What is to be flushed is
/// flushed at once.
struct Lsm {
    inner: RefCell<LsmEngine<SizeTiered>>,
    disk: Path,
}

impl Lsm {
    fn over(path: &Path, mut engine: LsmEngine<SizeTiered>) -> Lsm {
        path.apply(engine.take_changes());
        Lsm {
            inner: RefCell::new(engine),
            disk: Rc::clone(path),
        }
    }

    fn store(&self) {
        let mut engine = self.inner.borrow_mut();
        if engine.flush_pending() {
            engine.flush_step(self.disk.now()).unwrap();
        }
        self.disk.apply(engine.take_changes());
    }

    fn set(&self, key: &str, value: &str) -> Result<(), StoreError> {
        let r = self.inner.borrow_mut().set(key, value, self.disk.now());
        self.store();
        r
    }

    fn set_with_ttl(
        &self,
        key: &str,
        value: &str,
        expiry_ms: Option<u64>,
    ) -> Result<(), StoreError> {
        let now = self.disk.now();
        let r = self.inner.borrow_mut().set_with_ttl(key, value, expiry_ms, now);
        self.store();
        r
    }

    fn get(&self, key: &str) -> Result<Option<(String, String)>, StoreError> {
        self.inner.borrow().get(key, self.disk.now())
    }

    fn compact(&self) -> Result<(), StoreError> {
        let r = self.inner.borrow_mut().compact(self.disk.now());
        self.store();
        r
    }

    fn ttl(&self, key: &str, expiry_ms: Option<u64>) -> Result<TtlOutcome, StoreError> {
        let r = self.inner.borrow_mut().ttl(key, expiry_ms, self.disk.now());
        self.store();
        r
    }
}

fn now_ms() -> u64 {
    START_MS
}

fn engine_in(dir: &Path, max_memtable_bytes: usize) -> Lsm {
    let strategy = SizeTiered::new(4, 32);
    let engine = LsmEngine::new(dir.directory(), "seg", max_memtable_bytes, strategy);
    Lsm::over(dir, engine)
}

fn make_engine(suffix: &str) -> Lsm {
    engine_in(&temp_dir(suffix), 1_048_576)
}

#[test]
fn lsm_ttl_set_with_future_ttl_value_is_readable() {
    let engine = make_engine("future_ttl_read");
    let expiry_ms = now_ms() + 60_000;
    engine.set_with_ttl("k", "v", Some(expiry_ms)).unwrap();
    let (_, val) = engine.get("k").unwrap().unwrap();
    assert_eq!(val, "v");
}

#[test]
fn lsm_ttl_set_with_no_ttl_value_is_readable() {
    let engine = make_engine("no_ttl_read");
    engine.set_with_ttl("k", "v", None).unwrap();
    let (_, val) = engine.get("k").unwrap().unwrap();
    assert_eq!(val, "v");
}

#[test]
fn expired_key_is_invisible() {
    let engine = make_engine("expired_invisible");
    let past_ms = now_ms() - 1;
    engine.set_with_ttl("k", "v", Some(past_ms)).unwrap();
    assert_eq!(engine.get("k").unwrap(), None);
}

#[test]
fn non_expired_and_expired_keys_coexist() {
    let engine = make_engine("mixed_ttl");
    let past_ms = now_ms() - 1;
    let future_ms = now_ms() + 60_000;
    engine
        .set_with_ttl("expired", "gone", Some(past_ms))
        .unwrap();
    engine
        .set_with_ttl("live", "here", Some(future_ms))
        .unwrap();
    engine.set("permanent", "stays").unwrap();

    assert_eq!(engine.get("expired").unwrap(), None);
    let (_, v) = engine.get("live").unwrap().unwrap();
    assert_eq!(v, "here");
    let (_, v) = engine.get("permanent").unwrap().unwrap();
    assert_eq!(v, "stays");
}

#[test]
fn lsm_ttl_ttl_on_existing_key_returns_set() {
    let engine = make_engine("ttl_set");
    engine.set("k", "v").unwrap();
    let expiry_ms = now_ms() + 30_000;
    let outcome = engine.ttl("k", Some(expiry_ms)).unwrap();
    assert!(matches!(outcome, TtlOutcome::ExpirySet));
    // Key is still readable with future expiry.
    assert!(engine.get("k").unwrap().is_some());
}

#[test]
fn ttl_sets_expiry_key_becomes_invisible_after_past_ms() {
    let engine = make_engine("ttl_expires");
    engine.set("k", "v").unwrap();
    // Apply a past expiry — key should now be invisible.
    let past_ms = now_ms() - 1;
    engine.ttl("k", Some(past_ms)).unwrap();
    assert_eq!(engine.get("k").unwrap(), None);
}

#[test]
fn lsm_ttl_ttl_on_missing_key_returns_not_found() {
    let engine = make_engine("ttl_not_found");
    let expiry_ms = now_ms() + 30_000;
    let outcome = engine.ttl("no_such_key", Some(expiry_ms)).unwrap();
    assert!(matches!(outcome, TtlOutcome::NotFound));
}

#[test]
fn ttl_persist_makes_expiring_key_permanent() {
    let engine = make_engine("ttl_persist");
    let future_ms = now_ms() + 100; // short but still future
    engine.set_with_ttl("k", "v", Some(future_ms)).unwrap();
    // Persist: strip the expiry.
    let outcome = engine.ttl("k", None).unwrap();
    assert!(matches!(outcome, TtlOutcome::Persisted));
    // Even though the original TTL is very short, the key should now be
    // permanent (no expiry).
    let (_, val) = engine.get("k").unwrap().unwrap();
    assert_eq!(val, "v");
}

#[test]
fn compact_drops_expired_records() {
    let dir = temp_dir("compact_expired");
    // Tiny memtable so a flush happens before compaction.
    let engine = engine_in(&dir, 1);
    let past_ms = now_ms() - 1;
    engine
        .set_with_ttl("expired", "gone", Some(past_ms))
        .unwrap();
    engine.set("live", "here").unwrap();
    engine.compact().unwrap();
    assert_eq!(engine.get("expired").unwrap(), None);
    let (_, v) = engine.get("live").unwrap().unwrap();
    assert_eq!(v, "here");
}

#[test]
fn compact_retains_non_expired_ttl_key() {
    let dir = temp_dir("compact_live_ttl");
    let engine = engine_in(&dir, 1);
    let future_ms = now_ms() + 60_000;
    engine.set_with_ttl("k", "v", Some(future_ms)).unwrap();
    engine.compact().unwrap();
    let (_, val) = engine.get("k").unwrap().unwrap();
    assert_eq!(val, "v");
}

#[test]
fn compact_preserves_permanent_keys() {
    let dir = temp_dir("compact_perm");
    let engine = engine_in(&dir, 1);
    engine.set("k1", "v1").unwrap();
    engine.set("k2", "v2").unwrap();
    engine.compact().unwrap();
    let (_, v1) = engine.get("k1").unwrap().unwrap();
    let (_, v2) = engine.get("k2").unwrap().unwrap();
    assert_eq!(v1, "v1");
    assert_eq!(v2, "v2");
}
