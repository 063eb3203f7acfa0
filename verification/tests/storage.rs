use rustikv::bffp::{decode_input_frame, decode_response_frame, OpCode, ResponseStatus};
use rustikv::block::{BlockHeader, BlockReader, BlockWriter};
use rustikv::directory::{Change, Directory};
use rustikv::engine::{Clock, StorageEngine};
use rustikv::error::{ErrorKind, StoreError};
use rustikv::hash_index::HashIndex;
use rustikv::kvengine::KVEngine;
use rustikv::leveled::Leveled;
use rustikv::lsmengine::LsmEngine;
use rustikv::lz77::Lz77;
use rustikv::memtable::Memtable;
use rustikv::record::{Record, RecordHeader};
use rustikv::segment::{get_last_segment, get_segments, Segment};
use rustikv::settings::FSyncStrategy;
use rustikv::size_tiered::SizeTiered;
use rustikv::sstable::{get_sstables, SSTable};
use rustikv::utils::is_expired;
use rustikv::wal::Wal;

fn record(key: &str, value: &str, expiry_ms: Option<u64>) -> Record {
    Record {
        header: RecordHeader {
            crc32: 0,
            key_size: key.len() as u64,
            value_size: value.len() as u64,
            tombstone: false,
            expiry_ms,
        },
        key: key.to_string(),
        value: value.to_string(),
    }
}

fn at(n: u64) -> Clock {
    Clock {
        ms: 1_000_000 + n,
        ns: 1_000_000_000 + 1000 * n,
    }
}

fn now_until(ms: u64) -> Clock {
    Clock { ms, ns: ms * 1000 }
}

#[test]
fn a_record_with_an_expiry_reads_back() {
    let mut file = vec![1, 2, 3];
    let r = record("clé", "wert", Some(77));
    let offset = r.append(&mut file);
    assert_eq!(offset, 3);
    assert_eq!(file.len() as u64, 3 + r.size_on_disk());
    let back = Record::read_record_at(&file, 3).unwrap();
    assert_eq!(back.key, "clé");
    assert_eq!(back.value, "wert");
    assert_eq!(back.header.expiry_ms, Some(77));
    assert!(!back.header.tombstone);
}

#[test]
fn any_single_wrong_byte_is_detected() {
    let mut file = Vec::new();
    record("key", "value", None).append(&mut file);
    for i in 0..file.len() {
        let mut torn = file.clone();
        torn[i] ^= 0x40;
        assert!(Record::read_next(&torn, 0).is_err(), "byte {i}");
    }
}

#[test]
fn a_record_too_large_is_refused() {
    let mut file = Vec::new();
    record("key", "value", None).append(&mut file);
    file[4] = 0xFF;
    assert_eq!(
        Record::read_next(&file, 0).unwrap_err().kind(),
        ErrorKind::InvalidInput
    );
}

#[test]
fn a_record_that_ends_too_soon() {
    let mut file = Vec::new();
    record("key", "value", None).append(&mut file);
    file.pop();
    assert!(matches!(
        Record::read_next(&file, 0),
        Err(StoreError::UnexpectedEof)
    ));
    assert!(matches!(
        Record::read_next(&[], 0),
        Err(StoreError::UnexpectedEof)
    ));
}

#[test]
fn a_time_expires_when_it_is_reached() {
    assert!(!is_expired(10, 9));
    assert!(is_expired(10, 10));
    assert!(is_expired(10, 11));
}

#[test]
fn blocks_hold_their_records() {
    for compress in [false, true] {
        let mut writer = BlockWriter::new(64, compress);
        let mut blocks = Vec::new();
        let mut plain = Vec::new();
        for i in 0..20 {
            let r = record(&format!("key{i}"), &"v".repeat(40), None);
            r.append(&mut plain);
            if let Some(block) = writer.add_record(&r).unwrap() {
                blocks.push(block);
            }
        }
        if let Some(block) = writer.flush().unwrap() {
            blocks.push(block);
        }
        assert!(blocks.len() > 1);
        let mut content = Vec::new();
        for block in &blocks {
            let mut head = [0u8; 9];
            head.copy_from_slice(&block[..9]);
            let header = BlockHeader::from_bytes(&head);
            assert_eq!(header.to_bytes(), head);
            content.extend(BlockReader::read_block(block, 9, &header).unwrap());
        }
        assert_eq!(content, plain);
    }
}

#[test]
fn an_unknown_compression_is_refused() {
    let header = BlockHeader::from_bytes(&[0, 0, 0, 1, 0, 0, 0, 1, 7]);
    match BlockReader::read_block(&[0], 0, &header) {
        Err(e) => {
            assert_eq!(e, StoreError::InvalidCompressionFlag(7));
            assert_eq!(e.kind(), ErrorKind::InvalidData);
        }
        Ok(_) => panic!("a block was read"),
    }
}

#[test]
fn bytes_that_are_no_compression_are_told() {
    assert!(Lz77::try_decode(&[0xFF, 0xFF, 0xFF, 0xFF]).is_none());
    let text = b"abcabcabcabcabcabcabcabc".to_vec();
    assert_eq!(Lz77::try_decode(&Lz77::encode(&text)), Some(text));
}

#[test]
fn segments_are_named_and_found() {
    let s = Segment::new("my_db", 1234);
    assert_eq!(s.filename(), "my_db_1234.db");
    assert_eq!(s.hint_filename(), "my_db_1234.hint");
    let back = Segment::parse("my_db_1234.db").unwrap();
    assert_eq!(back.filename(), s.filename());
    assert!(Segment::parse("my_db_1234.hint").is_none());
    assert!(Segment::parse("my_db.db").is_none());

    let mut dir = Directory::new();
    for name in ["a_30.db", "a_4.db", "b_50.db", "a_30.hint", "a_x.db"] {
        dir.load(name.to_string(), Vec::new());
    }
    let names: Vec<String> = get_segments(&dir, "a")
        .iter()
        .map(|s| s.filename())
        .collect();
    assert_eq!(names, vec!["a_4.db", "a_30.db"]);
    assert_eq!(get_last_segment(&dir, "a").unwrap().filename(), "a_30.db");
    assert!(get_last_segment(&dir, "c").is_none());
}

#[test]
fn an_index_follows_a_file() {
    let mut file = Vec::new();
    record("a", "1", None).append(&mut file);
    let second = record("b", "2", None).append(&mut file);
    let third = record("a", "3", None).append(&mut file);
    let mut index = HashIndex::from_file(&file, 9).unwrap();
    assert_eq!(index.ls_keys(), vec!["a", "b"]);
    assert_eq!(index.get("a").unwrap().offset, third);
    assert_eq!(index.get("b").unwrap().offset, second);
    assert_eq!(index.get("b").unwrap().segment_timestamp, 9);
    assert!(index.delete("a").is_some());
    assert!(!index.contains("a"));
}

#[test]
fn a_log_is_replayed_in_order() {
    let mut dir = Directory::new();
    let wal = Wal::open(&mut dir, "db");
    wal.append(&mut dir, "a".to_string(), "1".to_string(), false, None);
    wal.append(&mut dir, "b".to_string(), "2".to_string(), false, Some(5));
    wal.append(&mut dir, "a".to_string(), String::new(), true, None);
    let memtable = wal.replay(&dir).unwrap();
    assert_eq!(memtable.entry("a"), Some(&None));
    assert_eq!(memtable.entry("b"), Some(&Some("2".to_string())));
    assert_eq!(memtable.timed_entry("b").unwrap().expiry_ms, Some(5));
    wal.reset(&mut dir);
    assert_eq!(dir.size("db.wal"), 0);
    wal.delete_file(&mut dir);
    assert!(!dir.contains("db.wal"));
}

#[test]
fn a_table_gives_back_its_memtable() {
    let mut dir = Directory::new();
    let mut memtable = Memtable::new();
    for i in 0..300 {
        memtable.insert(format!("key{i:03}"), format!("value{i}"));
    }
    memtable.remove("key007".to_string());
    let table = SSTable::from_memtable(&mut dir, "db", &memtable, Some(2), 17).unwrap();
    assert_eq!(table.path_str(), "db_L2_17.sst");
    assert_eq!(
        table.get(&dir, "key123").unwrap(),
        Some(Some("value123".to_string()))
    );
    assert_eq!(table.get(&dir, "key007").unwrap(), Some(None));
    assert_eq!(table.get(&dir, "key300").unwrap(), None);
    assert_eq!(table.get_min().unwrap(), "key000");
    assert_eq!(table.get_max().unwrap(), "key299");
    assert_eq!(table.read_all(&dir).unwrap().len(), 300);
    assert!(matches!(
        SSTable::from_memtable(&mut dir, "db", &memtable, Some(2), 17),
        Err(StoreError::FileExists)
    ));

    let found = get_sstables(&dir, "db").unwrap();
    assert_eq!(found.len(), 1);
    assert_eq!(
        found[0].get(&dir, "key200").unwrap(),
        Some(Some("value200".to_string()))
    );
}

#[test]
fn a_table_without_its_file_is_not_found() {
    let dir = Directory::new();
    let table = SSTable::parse("db_17.sst").unwrap();
    let e = table.size_on_disk(&dir).unwrap_err();
    assert_eq!(e, StoreError::FileNotFound);
    assert_eq!(e.kind(), ErrorKind::NotFound);
}

#[test]
fn changes_are_handed_out_once() {
    let mut dir = Directory::new();
    dir.append("f", &[1, 2]);
    dir.append("f", &[3]);
    dir.replace("g", vec![9]);
    dir.sync("f");
    dir.remove("g");
    let changes = dir.take_changes();
    assert_eq!(changes.len(), 5);
    assert!(matches!(&changes[1], Change::Append { name, data } if name == "f" && data == &[3]));
    assert!(matches!(&changes[2], Change::Replace { name, .. } if name == "g"));
    assert!(matches!(&changes[3], Change::Sync { name } if name == "f"));
    assert!(matches!(&changes[4], Change::Remove { name } if name == "g"));
    assert!(dir.take_changes().is_empty());
    assert_eq!(dir.read("f").unwrap(), &vec![1, 2, 3]);
    assert_eq!(dir.read("g"), Err(StoreError::FileNotFound));
}

#[test]
fn fsync_is_asked_for_as_often_as_set() {
    let counts = |strategy: FSyncStrategy| {
        let mut kv = KVEngine::new(Directory::new(), "s", 1 << 20, strategy, at(0));
        kv.take_changes();
        let mut syncs = Vec::new();
        for i in 0..6 {
            kv.set(&format!("k{i}"), "v", at(i + 1)).unwrap();
            let changes = kv.take_changes();
            syncs.push(
                changes
                    .iter()
                    .filter(|c| matches!(c, Change::Sync { name } if name.ends_with(".db")))
                    .count(),
            );
        }
        syncs
    };
    assert_eq!(counts(FSyncStrategy::Always), vec![1, 1, 1, 1, 1, 1]);
    assert_eq!(counts(FSyncStrategy::Never), vec![0, 0, 0, 0, 0, 0]);
    assert_eq!(counts(FSyncStrategy::EveryN(3)), vec![0, 0, 1, 0, 0, 1]);
}

#[test]
fn a_kv_store_opened_anew_holds_what_it_held() {
    let mut kv = KVEngine::new(Directory::new(), "s", 120, FSyncStrategy::Never, at(0));
    for i in 0..10 {
        kv.set(&format!("k{i}"), &format!("v{i}"), at(i + 1)).unwrap();
    }
    kv.delete("k3", at(20)).unwrap();
    kv.set_with_ttl("k4", "short", Some(2_000_000), at(21))
        .unwrap();
    assert!(kv.segment_count() > 1);
    let mut dir = kv.into_directory();
    let again = KVEngine::from_dir(&mut dir, "s", 120, FSyncStrategy::Never)
        .unwrap()
        .unwrap();
    for i in 0..10u64 {
        let found = again.get(&format!("k{i}"), at(30)).unwrap().map(|p| p.1);
        let expected = match i {
            3 => None,
            4 => Some("short".to_string()),
            _ => Some(format!("v{i}")),
        };
        assert_eq!(found, expected);
    }
    assert_eq!(again.get("k4", now_until(2_000_000)).unwrap(), None);
    let mut empty = Directory::new();
    assert!(
        KVEngine::from_dir(&mut empty, "s", 120, FSyncStrategy::Never)
            .unwrap()
            .is_none()
    );
}

#[test]
fn dead_bytes_are_counted() {
    let mut kv = KVEngine::new(Directory::new(), "s", 1 << 20, FSyncStrategy::Never, at(0));
    kv.set("k", "old", at(1)).unwrap();
    let one = kv.total_bytes();
    assert_eq!(kv.dead_bytes(), 0);
    kv.set("k", "new", at(2)).unwrap();
    assert_eq!(kv.dead_bytes(), one);
    assert_eq!(kv.total_bytes(), 2 * one);
    kv.compact(at(3)).unwrap();
    assert_eq!(kv.segment_count(), 1);
}

#[test]
fn a_key_too_large_is_refused_by_the_kv_engine() {
    let mut kv = KVEngine::new(Directory::new(), "s", 1 << 20, FSyncStrategy::Never, at(0));
    let key = "k".repeat(1_048_577);
    assert_eq!(kv.set(&key, "v", at(1)), Err(StoreError::TooLarge));
    assert_eq!(kv.delete(&key, at(2)), Err(StoreError::TooLarge));
    assert_eq!(StoreError::TooLarge.kind(), ErrorKind::InvalidInput);
    assert!(kv.list_keys(at(3)).unwrap().is_empty());
}

#[test]
fn deleted_keys_stay_deleted_through_levels() {
    let mut lsm = LsmEngine::new(Directory::new(), "db", 1, Leveled::new(3, 2, 100));
    let mut t = 0;
    let mut tick = || {
        t += 1;
        at(t)
    };
    for round in 0..4 {
        for i in 0..8 {
            lsm.set(&format!("k{i}"), &format!("v{round}"), tick())
                .unwrap();
            lsm.flush_step(tick()).unwrap();
            while lsm.compact_step(tick()).unwrap() {}
        }
        lsm.delete(&format!("k{round}"), tick()).unwrap();
        lsm.flush_step(tick()).unwrap();
        while lsm.compact_step(tick()).unwrap() {}
        assert_eq!(lsm.get(&format!("k{round}"), tick()).unwrap(), None);
    }
    assert_eq!(lsm.get("k3", tick()).unwrap(), None);
    for i in [0, 1, 2, 4, 5, 6, 7] {
        let (_, v) = lsm.get(&format!("k{i}"), tick()).unwrap().unwrap();
        assert_eq!(v, "v3");
    }
    lsm.compact(tick()).unwrap();
    assert_eq!(lsm.get("k3", tick()).unwrap(), None);
    assert!(lsm.segment_count() <= 2);
}

#[test]
fn tiers_are_merged_once_they_are_full() {
    let mut lsm = LsmEngine::new(Directory::new(), "db", 1, SizeTiered::new(4, 32));
    for i in 0..4u64 {
        lsm.set(&format!("k{i}"), "v", at(10 * i + 1)).unwrap();
        lsm.flush_step(at(10 * i + 2)).unwrap();
        assert_eq!(lsm.segment_count(), i as usize + 1);
    }
    assert!(lsm.compact_step(at(50)).unwrap());
    assert_eq!(lsm.segment_count(), 1);
    assert!(!lsm.compact_step(at(51)).unwrap());
    assert_eq!(lsm.list_keys(at(52)).unwrap().len(), 4);
}

#[test]
fn levels_are_checked() {
    let mut dir = Directory::new();
    let mut levels = Leveled::new(2, 4, 1000);
    assert_eq!(
        levels.compact_levels((0, 5), &mut dir, "db", at(1)),
        Err(StoreError::LevelOutOfBounds { source: 0, target: 5, max: 1 })
    );
    assert_eq!(
        levels.compact_levels((1, 0), &mut dir, "db", at(1)),
        Err(StoreError::LevelOrder { source: 1, target: 0 })
    );
    let mut lsm = LsmEngine::new(Directory::new(), "db", 1, Leveled::new(0, 4, 1000));
    lsm.set("k", "v", at(2)).unwrap();
    assert_eq!(lsm.flush_step(at(3)), Err(StoreError::NoLevels));
}

#[test]
fn codes_and_statuses() {
    assert!(matches!(OpCode::try_from(12), Ok(OpCode::Ttl)));
    assert!(matches!(
        OpCode::try_from(0),
        Err(StoreError::UnknownOpCode(0))
    ));
    assert!(matches!(
        ResponseStatus::try_from(9),
        Err(StoreError::UnknownStatus(9))
    ));
    assert!(decode_input_frame(&[0, 0, 0, 1]).is_err());
    assert!(matches!(
        decode_response_frame(&[0, 0, 0, 1, 9]),
        Err(StoreError::UnknownStatus(9))
    ));
}
