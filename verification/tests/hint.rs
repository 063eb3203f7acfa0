use rustikv::db::DB;
use rustikv::directory::Directory;
use rustikv::error::StoreError;
use rustikv::hint::{Hint, HintEntry};
use rustikv::settings::FSyncStrategy;
use std::cell::{Cell, RefCell};
use std::rc::Rc;

const DEFAULT_MAX_SEGMENT_BYTES: u64 = 1_048_576 * 50;

/// A directory and a clock.
struct Disk {
    dir: RefCell<Directory>,
    ms: Cell<u64>,
}

type Path = Rc<Disk>;

fn temp_db_path(_suffix: &str) -> Path {
    Rc::new(Disk {
        dir: RefCell::new(Directory::new()),
        ms: Cell::new(1_700_000_000_000),
    })
}

impl Disk {
    fn now_ms(&self) -> u64 {
        self.ms.set(self.ms.get() + 1);
        self.ms.get()
    }

    fn names_with(&self, suffix: &str) -> Vec<String> {
        self.dir
            .borrow()
            .list()
            .into_iter()
            .filter(|name| name.ends_with(suffix))
            .collect()
    }
}

/// A store with the directory that it is in.
struct Db {
    inner: RefCell<DB>,
    disk: Path,
}

impl Db {
    fn new(path: &Path, name: &str, max_segment_bytes: u64, strategy: FSyncStrategy) -> Db {
        let now = path.now_ms();
        let inner = DB::new(
            &mut path.dir.borrow_mut(),
            name,
            max_segment_bytes,
            strategy,
            now,
        );
        Db {
            inner: RefCell::new(inner),
            disk: Rc::clone(path),
        }
    }

    fn from_dir(
        path: &Path,
        name: &str,
        max_segment_bytes: u64,
        strategy: FSyncStrategy,
    ) -> Result<Option<Db>, StoreError> {
        let found = DB::from_dir(&path.dir.borrow(), name, max_segment_bytes, strategy)?;
        Ok(found.map(|inner| Db {
            inner: RefCell::new(inner),
            disk: Rc::clone(path),
        }))
    }

    fn set(&self, key: &str, value: &str) -> Result<(), StoreError> {
        let now = self.disk.now_ms();
        self.inner
            .borrow_mut()
            .set(&mut self.disk.dir.borrow_mut(), key, value, now)
    }

    fn get(&self, key: &str) -> Result<Option<(String, String)>, StoreError> {
        self.inner.borrow().get(&self.disk.dir.borrow(), key)
    }

    fn get_compacted(&self) -> Result<Db, StoreError> {
        let now = self.disk.now_ms();
        let inner = self
            .inner
            .borrow()
            .get_compacted(&mut self.disk.dir.borrow_mut(), now)?;
        Ok(Db {
            inner: RefCell::new(inner),
            disk: Rc::clone(&self.disk),
        })
    }
}

#[test]
fn hint_entry_round_trip() {
    let entries = vec![
        HintEntry {
            key_size: 5,
            offset: 0,
            tombstone: false,
            key: "hello".to_string(),
        },
        HintEntry {
            key_size: 5,
            offset: 42,
            tombstone: false,
            key: "world".to_string(),
        },
        HintEntry {
            key_size: 7,
            offset: 0,
            tombstone: true,
            key: "deleted".to_string(),
        },
    ];

    let mut file: Vec<u8> = Vec::new();

    Hint::write_file(&mut file, &entries);
    let read_back = Hint::read_file(&file).unwrap();

    assert_eq!(read_back.len(), 3);
    for (expected, actual) in entries.iter().zip(read_back.iter()) {
        assert_eq!(expected.key, actual.key);
        assert_eq!(expected.offset, actual.offset);
        assert_eq!(expected.tombstone, actual.tombstone);
        assert_eq!(expected.key_size, actual.key_size);
    }
}

#[test]
fn hint_read_empty_file() {
    let mut file: Vec<u8> = Vec::new();

    Hint::write_file(&mut file, &[]);
    let entries = Hint::read_file(&file).unwrap();
    assert!(entries.is_empty());
}

#[test]
fn compaction_produces_hint_files() {
    let path = temp_db_path("produces_hint");
    let db = Db::new(
        &path,
        "test",
        DEFAULT_MAX_SEGMENT_BYTES,
        FSyncStrategy::Always,
    );
    db.set("k1", "v1").unwrap();
    db.set("k2", "v2").unwrap();

    // Before compaction — no hint files (active segment never gets one)
    assert!(path.names_with(".hint").is_empty());

    let _compacted = db.get_compacted().unwrap();

    // After compaction — at least one .hint file should exist
    let hints = path.names_with(".hint");
    assert!(!hints.is_empty(), "compaction should produce a .hint file");
}

#[test]
fn from_dir_loads_via_hint_files() {
    let path = temp_db_path("load_hint");
    {
        let db = Db::new(
            &path,
            "test",
            DEFAULT_MAX_SEGMENT_BYTES,
            FSyncStrategy::Always,
        );
        db.set("k1", "v1").unwrap();
        db.set("k2", "v2").unwrap();
        db.set("k1", "updated").unwrap();
        let _compacted = db.get_compacted().unwrap();
    }

    // Hint files exist from compaction
    assert!(!path.names_with(".hint").is_empty());

    // Reopen — should load index from hint files
    let db = Db::from_dir(
        &path,
        "test",
        DEFAULT_MAX_SEGMENT_BYTES,
        FSyncStrategy::Always,
    )
    .unwrap()
    .unwrap();
    let (_, v1) = db.get("k1").unwrap().unwrap();
    let (_, v2) = db.get("k2").unwrap().unwrap();
    assert_eq!(v1, "updated");
    assert_eq!(v2, "v2");
}

#[test]
fn from_dir_falls_back_without_hint_files() {
    let path = temp_db_path("no_hint");
    {
        let db = Db::new(
            &path,
            "test",
            DEFAULT_MAX_SEGMENT_BYTES,
            FSyncStrategy::Always,
        );
        db.set("k1", "v1").unwrap();
        db.set("k2", "v2").unwrap();
        let _compacted = db.get_compacted().unwrap();
    }

    // Delete all hint files to force fallback to full scan
    for hint in path.names_with(".hint") {
        path.dir.borrow_mut().remove(&hint);
    }
    assert!(path.names_with(".hint").is_empty());

    // Should still load correctly via full record scan
    let db = Db::from_dir(
        &path,
        "test",
        DEFAULT_MAX_SEGMENT_BYTES,
        FSyncStrategy::Always,
    )
    .unwrap()
    .unwrap();
    let (_, v1) = db.get("k1").unwrap().unwrap();
    let (_, v2) = db.get("k2").unwrap().unwrap();
    assert_eq!(v1, "v1");
    assert_eq!(v2, "v2");
}

#[test]
fn compaction_cleans_up_old_hint_files() {
    let path = temp_db_path("cleanup_hint");
    let db = Db::new(
        &path,
        "test",
        DEFAULT_MAX_SEGMENT_BYTES,
        FSyncStrategy::Always,
    );
    db.set("k1", "v1").unwrap();

    // First compaction — produces hint file(s)
    let compacted = db.get_compacted().unwrap();
    let hints_after_first = path.names_with(".hint");
    assert!(!hints_after_first.is_empty());

    // Add more data, compact again
    compacted.set("k2", "v2").unwrap();
    let compacted2 = compacted.get_compacted().unwrap();

    // The old hint files should be gone, replaced by new one(s)
    let hints_after_second = path.names_with(".hint");
    for old_hint in &hints_after_first {
        assert!(
            !hints_after_second.contains(old_hint),
            "old hint file {old_hint} should have been removed"
        );
    }

    // Data is still intact
    let (_, v1) = compacted2.get("k1").unwrap().unwrap();
    let (_, v2) = compacted2.get("k2").unwrap().unwrap();
    assert_eq!(v1, "v1");
    assert_eq!(v2, "v2");
}

#[test]
fn hint_files_with_multi_segment_compaction() {
    // Use tiny segment limit to force multiple segments, then compact
    let path = temp_db_path("multi_seg_hint");
    let db = Db::new(&path, "test", 50, FSyncStrategy::Always);
    db.set("k1", "value_one").unwrap();
    db.set("k2", "value_two").unwrap();
    db.set("k3", "value_three").unwrap();

    let _compacted = db.get_compacted().unwrap();

    // Hint files should exist
    assert!(!path.names_with(".hint").is_empty());

    // Reopen from disk — loads via hints
    let db2 = Db::from_dir(&path, "test", 50, FSyncStrategy::Always)
        .unwrap()
        .unwrap();
    let (_, v1) = db2.get("k1").unwrap().unwrap();
    let (_, v2) = db2.get("k2").unwrap().unwrap();
    let (_, v3) = db2.get("k3").unwrap().unwrap();
    assert_eq!(v1, "value_one");
    assert_eq!(v2, "value_two");
    assert_eq!(v3, "value_three");
}
