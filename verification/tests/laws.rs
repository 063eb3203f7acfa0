use rustikv::bffp::{
    decode_response_frame, encode_command, Command, DecodedResponse, ResponseStatus,
};
use rustikv::cli::{parse_command, ParseResult};
use rustikv::db::DB;
use rustikv::directory::{Change, Directory};
use rustikv::engine::{Clock, StorageEngine};
use rustikv::error::StoreError;
use rustikv::kvengine::KVEngine;
use rustikv::leveled::Leveled;
use rustikv::lsmengine::LsmEngine;
use rustikv::memtable::Memtable;
use rustikv::record::{Record, MAX_KEY_SIZE};
use rustikv::server::{dispatch, handle_request, is_write};
use rustikv::settings::FSyncStrategy;
use rustikv::size_tiered::SizeTiered;
use rustikv::stats::Stats;

fn at(n: u64) -> Clock {
    Clock {
        ms: 1_000_000 + n,
        ns: 1_000_000_000 + 1000 * n,
    }
}

fn reopen(kv: KVEngine, max: u64) -> KVEngine {
    let mut dir = kv.into_directory();
    KVEngine::from_dir(&mut dir, "s", max, FSyncStrategy::Never)
        .unwrap()
        .unwrap()
}

fn value_of<E: StorageEngine>(store: &E, key: &str, now: Clock) -> Option<String> {
    store.get(key, now).unwrap().map(|p| p.1)
}

fn segment_sizes(dir: &Directory) -> Vec<u64> {
    dir.list()
        .iter()
        .filter(|n| n.ends_with(".db"))
        .map(|n| dir.size(n))
        .collect()
}

#[test]
fn a_changed_flag_of_a_deletion_is_detected() {
    let mut file = Vec::new();
    Record::build("key".to_string(), String::new(), true, None).append(&mut file);
    let (read, _) = Record::read_next(&file, 0).unwrap();
    let stored = u32::from_be_bytes([file[0], file[1], file[2], file[3]]);
    assert_eq!(read.header.crc32, stored);
    assert!(read.header.tombstone);
    assert_eq!(file[20], 1);
    for flag in [4u8, 5, 128, 255] {
        file[20] = flag;
        assert_eq!(
            Record::read_next(&file, 0).unwrap_err(),
            StoreError::CrcMismatch
        );
    }
}

#[test]
fn a_write_after_a_compaction_survives_a_roll_and_a_restart() {
    let mut kv = KVEngine::new(Directory::new(), "s", 60, FSyncStrategy::Never, at(0));
    kv.compact(at(1)).unwrap();
    kv.set("k", "v", at(2)).unwrap();
    kv.set("other", &"x".repeat(40), at(3)).unwrap();
    let mut again = reopen(kv, 60);
    assert_eq!(value_of(&again, "k", at(4)), Some("v".to_string()));
    assert_eq!(value_of(&again, "other", at(4)), Some("x".repeat(40)));
    again.delete("k", at(5)).unwrap();
    again.compact(at(6)).unwrap();
    again.set("late", "1", at(7)).unwrap();
    let again = reopen(again, 60);
    assert_eq!(value_of(&again, "k", at(8)), None);
    assert_eq!(value_of(&again, "late", at(8)), Some("1".to_string()));
}

#[test]
fn a_clock_that_stands_still_loses_nothing() {
    let mut kv = KVEngine::new(Directory::new(), "s", 60, FSyncStrategy::Never, at(0));
    for i in 0..8 {
        kv.set(&format!("k{i}"), "some value", at(0)).unwrap();
    }
    kv.compact(at(0)).unwrap();
    kv.compact(at(0)).unwrap();
    for i in 0..8 {
        let key = format!("k{i}");
        assert_eq!(value_of(&kv, &key, at(0)), Some("some value".to_string()));
    }
    let again = reopen(kv, 60);
    assert_eq!(again.list_keys(at(0)).unwrap().len(), 8);
}

#[test]
fn a_compaction_keeps_to_the_size_of_segments() {
    let mut kv = KVEngine::new(Directory::new(), "s", 100, FSyncStrategy::Never, at(0));
    for i in 0..10 {
        kv.set(&format!("k{i}"), "twenty bytes of text", at(i + 1))
            .unwrap();
    }
    kv.compact(at(20)).unwrap();
    let dir = kv.into_directory();
    let sizes = segment_sizes(&dir);
    assert!(sizes.len() > 2);
    assert!(sizes.iter().all(|n| *n <= 100));
}

#[test]
fn a_stray_hint_file_does_not_hide_what_is_written() {
    let mut kv = KVEngine::new(Directory::new(), "s", 1000, FSyncStrategy::Never, at(0));
    kv.set("k", "v", at(1)).unwrap();
    kv.compact(at(2)).unwrap();
    let dir = kv.into_directory();
    let hint = dir
        .list()
        .into_iter()
        .find(|n| n.ends_with(".hint"))
        .unwrap();
    let data = dir.read(&hint).unwrap().clone();
    let mut fresh = Directory::new();
    fresh.load(hint.clone(), data);
    let mut db = KVEngine::new(fresh, "s", 1000, FSyncStrategy::Never, at(2));
    db.set("other", "w", at(3)).unwrap();
    let again = reopen(db, 1000);
    assert_eq!(again.list_keys(at(4)).unwrap(), vec!["other".to_string()]);
}

#[test]
fn a_plain_store_opened_anew_holds_what_was_written_after_a_compaction() {
    let mut dir = Directory::new();
    let mut db = DB::new(&mut dir, "s", 60, FSyncStrategy::Never, 10);
    db.set(&mut dir, "a", "1", 10).unwrap();
    db.set(&mut dir, "b", "2", 10).unwrap();
    db.delete(&mut dir, "a").unwrap();
    let mut db = db.get_compacted(&mut dir, 10).unwrap();
    db.set(&mut dir, "c", "3", 10).unwrap();
    db.set(&mut dir, "b", "22", 11).unwrap();
    let again = DB::from_dir(&dir, "s", 60, FSyncStrategy::Never)
        .unwrap()
        .unwrap();
    let read = |key: &str| again.get(&dir, key).unwrap().map(|p| p.1);
    assert_eq!(read("a"), None);
    assert_eq!(read("b"), Some("22".to_string()));
    assert_eq!(read("c"), Some("3".to_string()));
}

#[test]
fn a_plain_store_syncs_as_it_is_told() {
    let mut dir = Directory::new();
    let mut db = DB::new(&mut dir, "s", 1000, FSyncStrategy::EveryN(2), 1);
    let mut syncs = Vec::new();
    for i in 0..4u64 {
        if i == 3 {
            db.delete(&mut dir, "k0").unwrap();
        } else {
            db.set(&mut dir, &format!("k{i}"), "v", 2 + i).unwrap();
        }
        let synced = matches!(dir.take_changes().last(), Some(Change::Sync { .. }));
        syncs.push(synced);
    }
    assert_eq!(syncs, vec![false, true, false, true]);
}

#[test]
fn the_old_segment_is_synced_before_the_log_is_emptied() {
    let mut kv = KVEngine::new(Directory::new(), "s", 60, FSyncStrategy::Never, at(0));
    kv.set("k", "some value of a length", at(1)).unwrap();
    kv.take_changes();
    kv.set("l", "some value of a length", at(2)).unwrap();
    let changes = kv.take_changes();
    let synced = changes
        .iter()
        .position(|c| matches!(c, Change::Sync { .. }))
        .unwrap();
    let emptied = changes
        .iter()
        .position(|c| matches!(c, Change::Replace { name, .. } if name == "s.wal"))
        .unwrap();
    assert!(synced < emptied);
}

#[test]
fn what_has_expired_is_neither_listed_nor_there_to_delete() {
    let mut kv = KVEngine::new(Directory::new(), "s", 1000, FSyncStrategy::Never, at(0));
    kv.set("kept", "1", at(1)).unwrap();
    kv.set_with_ttl("gone", "2", Some(at(5).ms), at(2)).unwrap();
    assert_eq!(kv.list_keys(at(3)).unwrap(), vec!["gone", "kept"]);
    assert!(kv.contains("gone", at(3)));
    assert_eq!(kv.list_keys(at(9)).unwrap(), vec!["kept"]);
    assert!(!kv.contains("gone", at(9)));
    assert_eq!(kv.delete("gone", at(9)).unwrap(), None);
    assert_eq!(kv.delete("kept", at(9)).unwrap(), Some(()));
}

#[test]
fn a_set_that_is_refused_changes_nothing() {
    let mut kv = KVEngine::new(Directory::new(), "s", 1000, FSyncStrategy::Never, at(0));
    kv.set("k", "v", at(1)).unwrap();
    let before = kv.total_bytes();
    let long = "x".repeat(MAX_KEY_SIZE + 1);
    kv.take_changes();
    assert_eq!(kv.set(&long, "v", at(2)), Err(StoreError::TooLarge));
    assert!(kv.take_changes().is_empty());
    assert_eq!(kv.total_bytes(), before);
    kv.set("key", "value", at(3)).unwrap();
    assert_eq!(kv.total_bytes(), before + 21 + 8);
}

fn send(engine: &mut KVEngine, command: Command, now: Clock) -> DecodedResponse {
    let frame = encode_command(command);
    let reply = handle_request(&frame, engine, &mut Stats::new(), now);
    decode_response_frame(&reply.frame).unwrap()
}

#[test]
fn several_keys_are_written_up_to_the_first_that_is_refused() {
    let mut kv = KVEngine::new(Directory::new(), "s", 1000, FSyncStrategy::Never, at(0));
    let long = "x".repeat(MAX_KEY_SIZE + 1);
    let items = vec![
        ("a".to_string(), "1".to_string(), None),
        (long, "2".to_string(), None),
        ("c".to_string(), "3".to_string(), None),
    ];
    let reply = dispatch(Command::Mset(items), &mut kv, &mut Stats::new(), at(1));
    let resp = decode_response_frame(&reply.frame).unwrap();
    assert!(matches!(resp.status, ResponseStatus::Error));
    assert_eq!(resp.payload, vec![StoreError::TooLarge.message()]);
    assert_eq!(value_of(&kv, "a", at(2)), Some("1".to_string()));
    assert_eq!(value_of(&kv, "c", at(2)), None);
    assert_eq!(kv.mset(Vec::new(), at(3)), Ok(()));
}

#[test]
fn a_store_with_a_wrong_byte_is_not_opened() {
    let mut kv = KVEngine::new(Directory::new(), "s", 1000, FSyncStrategy::Never, at(0));
    kv.set("k", "value", at(1)).unwrap();
    let dir = kv.into_directory();
    let mut torn = Directory::new();
    for name in dir.list() {
        let mut data = dir.read(&name).unwrap().clone();
        if name.ends_with(".hint") || name.ends_with(".wal") {
            continue;
        }
        if let Some(last) = data.last_mut() {
            *last ^= 1;
        }
        torn.load(name, data);
    }
    let opened = KVEngine::from_dir(&mut torn, "s", 1000, FSyncStrategy::Never);
    assert!(matches!(opened, Err(StoreError::CrcMismatch)));
}

#[test]
fn a_read_that_fails_is_answered_with_the_reason() {
    let mut kv = KVEngine::new(Directory::new(), "s", 1000, FSyncStrategy::Never, at(0));
    kv.set("k", "value", at(1)).unwrap();
    kv.compact(at(2)).unwrap();
    let dir = kv.into_directory();
    let mut torn = Directory::new();
    for name in dir.list() {
        let mut data = dir.read(&name).unwrap().clone();
        if name.ends_with(".db") {
            if let Some(last) = data.last_mut() {
                *last ^= 1;
            }
        }
        torn.load(name, data);
    }
    let mut kv = KVEngine::from_dir(&mut torn, "s", 1000, FSyncStrategy::Never)
        .unwrap()
        .unwrap();
    let key = || "k".to_string();
    for command in [
        Command::Read(key()),
        Command::Mget(vec![key()]),
        Command::Ttl(key(), 5),
    ] {
        let resp = send(&mut kv, command, at(3));
        assert!(matches!(resp.status, ResponseStatus::Error));
        assert_eq!(resp.payload, vec!["CRC mismatch"]);
    }
    let resp = send(&mut kv, Command::Exists(key()), at(3));
    assert!(matches!(resp.status, ResponseStatus::Okay));
    let resp = send(&mut kv, Command::List, at(3));
    assert!(matches!(resp.status, ResponseStatus::Okay));
    assert_eq!(resp.payload, vec!["k"]);
    let resp = send(&mut kv, Command::Delete(key()), at(4));
    assert!(matches!(resp.status, ResponseStatus::Okay));
    let resp = send(&mut kv, Command::Delete(key()), at(5));
    assert!(matches!(resp.status, ResponseStatus::NotFound));
}

#[test]
fn several_keys_are_written_over_one_that_cannot_be_read() {
    let mut kv = KVEngine::new(Directory::new(), "s", 1000, FSyncStrategy::Never, at(0));
    kv.set("k", "value", at(1)).unwrap();
    kv.compact(at(2)).unwrap();
    let dir = kv.into_directory();
    let mut torn = Directory::new();
    for name in dir.list() {
        let mut data = dir.read(&name).unwrap().clone();
        if name.ends_with(".db") {
            if let Some(last) = data.last_mut() {
                *last ^= 1;
            }
        }
        torn.load(name, data);
    }
    let mut kv = KVEngine::from_dir(&mut torn, "s", 1000, FSyncStrategy::Never)
        .unwrap()
        .unwrap();
    assert_eq!(kv.get("k", at(3)).unwrap_err(), StoreError::CrcMismatch);
    let items = vec![
        ("k".to_string(), "new".to_string(), None),
        ("l".to_string(), "more".to_string(), None),
    ];
    let resp = send(&mut kv, Command::Mset(items), at(4));
    assert!(matches!(resp.status, ResponseStatus::Okay));
    assert_eq!(value_of(&kv, "k", at(5)), Some("new".to_string()));
    assert_eq!(value_of(&kv, "l", at(5)), Some("more".to_string()));
    let items = vec![
        ("m".to_string(), "1".to_string(), None),
        ("x".repeat(MAX_KEY_SIZE + 1), "2".to_string(), None),
        ("n".to_string(), "3".to_string(), None),
    ];
    assert_eq!(kv.mset(items, at(6)).unwrap_err(), StoreError::TooLarge);
    assert_eq!(value_of(&kv, "m", at(7)), Some("1".to_string()));
    assert_eq!(value_of(&kv, "n", at(7)), None);
}

#[test]
fn what_was_logged_is_there_again_and_what_was_broken_off_is_not() {
    let mut kv = KVEngine::new(Directory::new(), "s", 1000, FSyncStrategy::Never, at(0));
    kv.set("k", "v", at(1)).unwrap();
    let mut dir = kv.into_directory();
    let mut log = Vec::new();
    Record::build("late".to_string(), "1".to_string(), false, None).append(&mut log);
    let whole = log.len();
    Record::build("torn".to_string(), "2".to_string(), false, None).append(&mut log);
    for end in whole..log.len() {
        let mut found = Directory::new();
        for name in dir.list() {
            found.load(name.clone(), dir.read(&name).unwrap().clone());
        }
        found.append("s.wal", &log[..end]);
        let kv = KVEngine::from_dir(&mut found, "s", 1000, FSyncStrategy::Never)
            .unwrap()
            .unwrap();
        assert_eq!(
            kv.list_keys(at(2)).unwrap(),
            vec!["k".to_string(), "late".to_string()]
        );
        assert_eq!(value_of(&kv, "late", at(2)), Some("1".to_string()));
    }
    dir.append("s.wal", &log);
    let kv = KVEngine::from_dir(&mut dir, "s", 1000, FSyncStrategy::Never)
        .unwrap()
        .unwrap();
    assert_eq!(value_of(&kv, "torn", at(2)), Some("2".to_string()));
}

fn reopen_lsm(dir: Directory, max: usize) -> LsmEngine<SizeTiered> {
    let strategy = SizeTiered::load_from_dir(&dir, "db", 4, 32).unwrap();
    LsmEngine::from_dir(dir, "db", max, strategy).unwrap()
}

#[test]
fn a_torn_log_is_cut_to_its_whole_records() {
    let mut lsm = LsmEngine::new(Directory::new(), "db", 1000, SizeTiered::new(4, 32));
    lsm.set("a", "1", at(1)).unwrap();
    lsm.set("b", "2", at(2)).unwrap();
    let log = lsm.into_directory().read("db.wal").unwrap().clone();
    let one = log.len() / 2;
    for end in one..log.len() {
        let mut dir = Directory::new();
        dir.load("db.wal".to_string(), log[..end].to_vec());
        let mut lsm = reopen_lsm(dir, 1000);
        assert_eq!(lsm.list_keys(at(3)).unwrap(), vec!["a"]);
        lsm.set("c", "3", at(4)).unwrap();
        assert_eq!(lsm.list_keys(at(5)).unwrap(), vec!["a", "c"]);
        let dir = lsm.into_directory();
        assert_eq!(dir.size("db.wal"), 2 * one as u64);
        let lsm = reopen_lsm(dir, 1000);
        assert_eq!(lsm.list_keys(at(6)).unwrap(), vec!["a", "c"]);
        assert_eq!(value_of(&lsm, "c", at(6)), Some("3".to_string()));
    }
}

#[test]
fn a_write_is_taken_while_a_memtable_cannot_be_flushed() {
    let mut lsm = LsmEngine::new(Directory::new(), "db", 10, Leveled::new(0, 4, 1000));
    lsm.set("a", "0123456789", at(1)).unwrap();
    assert!(lsm.flush_pending());
    assert_eq!(lsm.flush_step(at(2)).unwrap_err(), StoreError::NoLevels);
    assert!(lsm.flush_pending());
    lsm.set("b", "1", at(3)).unwrap();
    assert!(lsm.delete("a", at(4)).unwrap().is_some());
    assert_eq!(value_of(&lsm, "a", at(5)), None);
    assert_eq!(value_of(&lsm, "b", at(5)), Some("1".to_string()));
    assert_eq!(
        lsm.set("c", "0123456789", at(6)).unwrap_err(),
        StoreError::NoLevels
    );
    assert_eq!(value_of(&lsm, "c", at(7)), None);
    assert_eq!(value_of(&lsm, "b", at(7)), Some("1".to_string()));
    assert_eq!(lsm.compact(at(8)).unwrap_err(), StoreError::NoLevels);
    assert_eq!(value_of(&lsm, "b", at(9)), Some("1".to_string()));
}

#[test]
fn a_compaction_that_cannot_add_the_active_memtable_keeps_it() {
    let mut lsm = LsmEngine::new(Directory::new(), "db", 1000, Leveled::new(0, 4, 1000));
    lsm.set("a", "1", at(1)).unwrap();
    assert_eq!(lsm.compact(at(2)).unwrap_err(), StoreError::NoLevels);
    assert!(lsm.flush_pending());
    assert_eq!(value_of(&lsm, "a", at(3)), Some("1".to_string()));
    assert_eq!(lsm.compact(at(4)).unwrap_err(), StoreError::NoLevels);
    let dir = lsm.into_directory();
    assert!(dir.size("db.wal") > 0);
}

#[test]
fn the_log_holds_both_memtables_until_the_first_is_flushed() {
    let mut lsm = LsmEngine::new(Directory::new(), "db", 10, SizeTiered::new(4, 32));
    lsm.set("k", "0123456789", at(1)).unwrap();
    lsm.set("l", "old", at(2)).unwrap();
    lsm.set("l", "new", at(3)).unwrap();
    assert!(lsm.flush_pending());
    let dir = lsm.into_directory();
    let again = reopen_lsm(dir, 1000);
    assert_eq!(
        value_of(&again, "k", at(4)),
        Some("0123456789".to_string())
    );
    assert_eq!(value_of(&again, "l", at(4)), Some("new".to_string()));
    let mut lsm = LsmEngine::new(Directory::new(), "db", 10, SizeTiered::new(4, 32));
    lsm.set("k", "0123456789", at(1)).unwrap();
    lsm.set("l", "new", at(2)).unwrap();
    lsm.flush_step(at(3)).unwrap();
    assert!(!lsm.flush_pending());
    let dir = lsm.into_directory();
    let mut rest = Vec::new();
    Record::build("l".to_string(), "new".to_string(), false, None).append(&mut rest);
    assert_eq!(dir.read("db.wal").unwrap(), &rest);
    let again = reopen_lsm(dir, 1000);
    assert_eq!(again.segment_count(), 1);
    assert_eq!(
        value_of(&again, "k", at(4)),
        Some("0123456789".to_string())
    );
    assert_eq!(value_of(&again, "l", at(4)), Some("new".to_string()));
}

#[test]
fn a_table_is_written_before_the_log_drops_what_it_holds() {
    let mut lsm = LsmEngine::new(Directory::new(), "db", 1, SizeTiered::new(4, 32));
    lsm.set("k", "v", at(1)).unwrap();
    lsm.take_changes();
    lsm.flush_step(at(2)).unwrap();
    let names: Vec<String> = lsm
        .take_changes()
        .into_iter()
        .map(|c| match c {
            Change::Replace { name, .. } => name,
            other => panic!("{other:?}"),
        })
        .collect();
    assert_eq!(names.len(), 2);
    assert!(names[0].ends_with(".sst"));
    assert_eq!(names[1], "db.wal");
}

#[test]
fn a_flush_that_is_broken_off_loses_nothing() {
    let mut lsm = LsmEngine::new(Directory::new(), "db", 10, SizeTiered::new(4, 32));
    lsm.set("k", "0123456789", at(1)).unwrap();
    lsm.set("l", "1", at(2)).unwrap();
    lsm.delete("k", at(3)).unwrap();
    let before = lsm.take_changes();
    lsm.flush_step(at(4)).unwrap();
    let mut dir = Directory::new();
    for change in before
        .into_iter()
        .chain(lsm.take_changes().into_iter().take(1))
    {
        match change {
            Change::Append { name, data } => dir.append(&name, &data),
            Change::Replace { name, data } => dir.replace(&name, data),
            other => panic!("{other:?}"),
        }
    }
    let again = reopen_lsm(dir, 1000);
    assert_eq!(again.segment_count(), 1);
    assert_eq!(again.list_keys(at(5)).unwrap(), vec!["l"]);
    assert_eq!(value_of(&again, "k", at(5)), None);
    assert_eq!(value_of(&again, "l", at(5)), Some("1".to_string()));
}

#[test]
fn the_latest_table_is_known() {
    let mut lsm = LsmEngine::new(Directory::new(), "db", 1, SizeTiered::new(4, 32));
    assert_eq!(lsm.latest_table(), 0);
    lsm.set("k", "v", at(1)).unwrap();
    lsm.flush_step(at(2)).unwrap();
    lsm.set("l", "w", at(3)).unwrap();
    lsm.flush_step(at(4)).unwrap();
    assert_eq!(lsm.latest_table(), at(4).ns);
    let again = reopen_lsm(lsm.into_directory(), 1);
    assert_eq!(again.latest_table(), at(4).ns);
}

#[test]
fn merging_a_tier_keeps_the_newest_value() {
    let mut lsm = LsmEngine::new(Directory::new(), "db", 1, SizeTiered::new(2, 32));
    let new = "n".repeat(2000);
    for (i, (k, v)) in [("k", "old"), ("a", "one"), ("k", new.as_str())]
        .into_iter()
        .enumerate()
    {
        lsm.set(k, v, at(10 * i as u64 + 1)).unwrap();
        lsm.flush_step(at(10 * i as u64 + 2)).unwrap();
    }
    assert_eq!(lsm.segment_count(), 3);
    assert!(lsm.compact_step(at(50)).unwrap());
    assert_eq!(lsm.segment_count(), 2);
    assert_eq!(value_of(&lsm, "k", at(51)), Some(new));
    assert_eq!(value_of(&lsm, "a", at(51)), Some("one".to_string()));
}

#[test]
fn merging_a_tier_keeps_a_deletion_that_is_needed() {
    let mut lsm = LsmEngine::new(Directory::new(), "db", 1, SizeTiered::new(2, 32));
    lsm.set("k", &"o".repeat(2000), at(1)).unwrap();
    lsm.flush_step(at(2)).unwrap();
    lsm.delete("k", at(11)).unwrap();
    lsm.flush_step(at(12)).unwrap();
    lsm.set("a", "", at(21)).unwrap();
    lsm.flush_step(at(22)).unwrap();
    assert_eq!(lsm.segment_count(), 3);
    assert!(lsm.compact_step(at(50)).unwrap());
    assert_eq!(lsm.segment_count(), 2);
    assert_eq!(value_of(&lsm, "k", at(51)), None);
    assert_eq!(lsm.list_keys(at(51)).unwrap(), vec!["a"]);
}

#[test]
fn the_log_is_kept_until_the_memtable_is_flushed() {
    let mut lsm = LsmEngine::new(Directory::new(), "db", 1, SizeTiered::new(4, 32));
    lsm.set("k", "v", at(1)).unwrap();
    assert!(lsm.flush_pending());
    let dir = lsm.into_directory();
    assert!(dir.size("db.wal") > 0);
    let strategy = SizeTiered::load_from_dir(&dir, "db", 4, 32).unwrap();
    let mut lsm = LsmEngine::from_dir(dir, "db", 1, strategy).unwrap();
    assert_eq!(value_of(&lsm, "k", at(2)), Some("v".to_string()));
    lsm.set("l", "w", at(3)).unwrap();
    lsm.flush_step(at(4)).unwrap();
    let dir = lsm.into_directory();
    assert_eq!(dir.size("db.wal"), 0);
    let strategy = SizeTiered::load_from_dir(&dir, "db", 4, 32).unwrap();
    let lsm = LsmEngine::from_dir(dir, "db", 1, strategy).unwrap();
    assert_eq!(value_of(&lsm, "k", at(5)), Some("v".to_string()));
    assert_eq!(value_of(&lsm, "l", at(5)), Some("w".to_string()));
}

#[test]
fn a_compaction_of_tiers_leaves_one_table_and_an_empty_log() {
    let mut lsm = LsmEngine::new(Directory::new(), "db", 20, SizeTiered::new(4, 32));
    for i in 0..7u64 {
        lsm.set(&format!("k{i}"), "value", at(10 * i + 1)).unwrap();
    }
    lsm.compact(at(100)).unwrap();
    assert_eq!(lsm.segment_count(), 1);
    lsm.compact(at(110)).unwrap();
    assert_eq!(lsm.list_keys(at(120)).unwrap().len(), 7);
    assert_eq!(lsm.into_directory().size("db.wal"), 0);
}

#[test]
fn the_size_of_a_memtable_is_that_of_its_entries() {
    let mut m = Memtable::new();
    m.insert("ab".to_string(), "cde".to_string());
    m.insert_with_expiry("x".to_string(), "yy".to_string(), Some(9));
    assert_eq!(m.size_bytes(), 5 + 3 + 8);
    m.insert("x".to_string(), "z".to_string());
    assert_eq!(m.size_bytes(), 5 + 2);
    m.remove("ab".to_string());
    assert_eq!(m.size_bytes(), 2 + 2);
}

#[test]
fn the_errors_of_levels_say_which() {
    assert_eq!(
        StoreError::LevelOutOfBounds {
            source: 0,
            target: 5,
            max: 1
        }
        .message(),
        "level index out of bounds: source=0, target=5, max=1"
    );
    assert_eq!(
        StoreError::LevelOrder {
            source: 1,
            target: 0
        }
        .message(),
        "source level (1) must be less than target level (0)"
    );
}

#[test]
fn only_a_write_of_one_key_counts_as_waiting() {
    let write = Command::Write("k".to_string(), "v".to_string(), None);
    assert!(is_write(&encode_command(write)));
    assert!(!is_write(&encode_command(Command::Delete("k".to_string()))));
    assert!(!is_write(&encode_command(Command::Mset(vec![(
        "k".to_string(),
        "v".to_string(),
        None
    )]))));
    assert!(!is_write(&[]));
}

#[test]
fn words_may_be_parted_by_any_white_space() {
    let read = |line: &str| match parse_command(line) {
        ParseResult::Cmd(Command::Read(k)) => Some(k),
        _ => None,
    };
    for space in [' ', '\t', '\u{85}', '\u{a0}', '\u{1680}', '\u{2003}', '\u{3000}'] {
        let line = format!("read{space}key");
        assert_eq!(read(&line), Some("key".to_string()));
    }
    assert_eq!(read("read\u{200b}key"), None);
}
