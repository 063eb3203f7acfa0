use rustikv::directory::{Change, Directory};
use rustikv::engine::{Clock, StorageEngine, TtlOutcome};
use rustikv::error::StoreError;
use rustikv::lsmengine::LsmEngine;
use rustikv::size_tiered::SizeTiered;
use std::cell::{Cell, RefCell};
use std::collections::BTreeMap;
use std::rc::Rc;

/// A disk with the files of a database, and a clock.
struct Disk {
    files: RefCell<BTreeMap<String, Vec<u8>>>,
    ms: Cell<u64>,
}

type Path = Rc<Disk>;

const START_MS: u64 = 1_700_000_000_000;

fn temp_dir(_suffix: &str) -> Path {
    Rc::new(Disk {
        files: RefCell::new(BTreeMap::new()),
        ms: Cell::new(START_MS),
    })
}

impl Disk {
    fn now(&self) -> Clock {
        let ms = self.ms.get() + 1;
        self.ms.set(ms);
        Clock {
            ms,
            ns: ms * 1_000_000,
        }
    }

    fn directory(&self) -> Directory {
        let mut dir = Directory::new();
        for (name, data) in self.files.borrow().iter() {
            dir.load(name.clone(), data.clone());
        }
        dir
    }

    fn apply(&self, changes: Vec<Change>) {
        let mut files = self.files.borrow_mut();
        for change in changes {
            match change {
                Change::Append { name, data } => files.entry(name).or_default().extend(data),
                Change::Replace { name, data } => {
                    files.insert(name, data);
                }
                Change::Remove { name } => {
                    files.remove(&name);
                }
                Change::Sync { .. } => {}
            }
        }
    }
}

/// An engine whose changes go to its disk after each call. What is to be flushed is
/// flushed at once.
struct Lsm {
    inner: RefCell<LsmEngine<SizeTiered>>,
    disk: Path,
}

impl Lsm {
    fn over(path: &Path, mut engine: LsmEngine<SizeTiered>) -> Lsm {
        path.apply(engine.take_changes());
        Lsm {
            inner: RefCell::new(engine),
            disk: Rc::clone(path),
        }
    }

    fn store(&self) {
        let mut engine = self.inner.borrow_mut();
        if engine.flush_pending() {
            engine.flush_step(self.disk.now()).unwrap();
        }
        self.disk.apply(engine.take_changes());
    }

    fn set(&self, key: &str, value: &str) -> Result<(), StoreError> {
        let r = self.inner.borrow_mut().set(key, value, self.disk.now());
        self.store();
        r
    }

    fn ttl(&self, key: &str, expiry_ms: Option<u64>) -> Result<TtlOutcome, StoreError> {
        let r = self.inner.borrow_mut().ttl(key, expiry_ms, self.disk.now());
        self.store();
        r
    }
}

fn now_ms() -> u64 {
    START_MS
}

fn engine_in(dir: &Path, max_memtable_bytes: usize) -> Lsm {
    let strategy = SizeTiered::new(4, 32);
    let engine = LsmEngine::new(dir.directory(), "seg", max_memtable_bytes, strategy);
    Lsm::over(dir, engine)
}

fn make_engine(suffix: &str) -> Lsm {
    engine_in(&temp_dir(suffix), 1_048_576)
}

#[test]
fn ttl_outcomes() {
    let engine = make_engine("ttl_outcomes");
    assert!(matches!(
        engine.ttl("missing", Some(now_ms() + 10_000)).unwrap(),
        TtlOutcome::NotFound
    ));
    engine.set("k", "v").unwrap();
    assert!(matches!(
        engine.ttl("k", Some(now_ms() + 10_000)).unwrap(),
        TtlOutcome::ExpirySet
    ));
    assert!(matches!(
        engine.ttl("k", None).unwrap(),
        TtlOutcome::Persisted
    ));
}
