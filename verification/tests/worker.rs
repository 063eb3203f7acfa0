use rustikv::directory::{Change, Directory};
use rustikv::engine::{Clock, StorageEngine};
use rustikv::error::StoreError;
use rustikv::kvengine::KVEngine;
use rustikv::settings::{FSyncStrategy, Period};
use std::cell::{Cell, RefCell};
use std::collections::BTreeMap;
use std::rc::Rc;

/// A disk with the files of a database, and a clock.
struct Disk {
    files: RefCell<BTreeMap<String, Vec<u8>>>,
    ms: Cell<u64>,
}

type Path = Rc<Disk>;

const START_MS: u64 = 1_700_000_000_000;

fn temp_db_path(_suffix: &str) -> Path {
    Rc::new(Disk {
        files: RefCell::new(BTreeMap::new()),
        ms: Cell::new(START_MS),
    })
}

impl Disk {
    fn now(&self) -> Clock {
        let ms = self.ms.get() + 1;
        self.ms.set(ms);
        Clock {
            ms,
            ns: ms * 1_000_000,
        }
    }

    fn directory(&self) -> Directory {
        let mut dir = Directory::new();
        for (name, data) in self.files.borrow().iter() {
            dir.load(name.clone(), data.clone());
        }
        dir
    }

    fn apply(&self, changes: Vec<Change>) {
        let mut files = self.files.borrow_mut();
        for change in changes {
            match change {
                Change::Append { name, data } => files.entry(name).or_default().extend(data),
                Change::Replace { name, data } => {
                    files.insert(name, data);
                }
                Change::Remove { name } => {
                    files.remove(&name);
                }
                Change::Sync { .. } => {}
            }
        }
    }
}

/// An engine whose changes go to its disk after each call.
struct Kv {
    inner: RefCell<KVEngine>,
    disk: Path,
}

impl Kv {
    fn new(
        path: &Path,
        name: &str,
        max_segment_bytes: u64,
        strategy: FSyncStrategy,
    ) -> Result<Kv, StoreError> {
        let engine = KVEngine::new(path.directory(), name, max_segment_bytes, strategy, path.now());
        Ok(Kv::over(path, engine))
    }

    fn over(path: &Path, mut engine: KVEngine) -> Kv {
        path.apply(engine.take_changes());
        Kv {
            inner: RefCell::new(engine),
            disk: Rc::clone(path),
        }
    }

    fn store(&self) {
        let changes = self.inner.borrow_mut().take_changes();
        self.disk.apply(changes);
    }

    fn set(&self, key: &str, value: &str) -> Result<(), StoreError> {
        let r = self.inner.borrow_mut().set(key, value, self.disk.now());
        self.store();
        r
    }

    fn get(&self, key: &str) -> Result<Option<(String, String)>, StoreError> {
        self.inner.borrow().get(key, self.disk.now())
    }
}

#[test]
fn periodic_fsync_db_writes_are_readable() {
    let path = temp_db_path("periodic_rw");

    let db = Kv::new(
        &path,
        "test",
        1_048_576,
        FSyncStrategy::Periodic(Period { secs: 0, millis: 100 }),
    )
    .unwrap();

    db.set("hello", "world").unwrap();
    let result = db.get("hello").unwrap();
    assert_eq!(result, Some(("hello".to_string(), "world".to_string())));
}

#[test]
fn periodic_fsync_survives_segment_roll() {
    let path = temp_db_path("periodic_roll");

    // Tiny segment size to force a roll
    let db = Kv::new(
        &path,
        "test",
        50,
        FSyncStrategy::Periodic(Period { secs: 0, millis: 100 }),
    )
    .unwrap();

    db.set("key1", "value1").unwrap();
    db.set("key2", "value2").unwrap(); // should trigger segment roll

    assert_eq!(
        db.get("key1").unwrap(),
        Some(("key1".to_string(), "value1".to_string()))
    );
    assert_eq!(
        db.get("key2").unwrap(),
        Some(("key2".to_string(), "value2".to_string()))
    );
}
