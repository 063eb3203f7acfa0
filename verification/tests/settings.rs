use rustikv::settings::{Arguments, EngineType, FSyncStrategy, Note, Period, Settings};

fn args(words: &[&str]) -> Vec<String> {
    words.iter().map(|w| w.to_string()).collect()
}

fn read(words: &[&str]) -> Arguments {
    Settings::get_from_args(&args(words)).expect("help was shown")
}

fn settings(words: &[&str]) -> Settings {
    match read(words).settings {
        Ok(s) => s,
        Err(e) => panic!("{e}"),
    }
}

#[test]
fn defaults() {
    let s = settings(&["rustikv", "/tmp/mydb"]);
    assert_eq!(s.db_file_path, "/tmp/mydb");
    assert_eq!(s.tcp_addr, "0.0.0.0:6666");
    assert_eq!(s.db_name, "segment");
    assert_eq!(s.max_segment_bytes, 52_428_800);
    assert_eq!(s.sync_strategy, FSyncStrategy::Always);
    assert_eq!(s.engine, EngineType::KV);
    assert_eq!(s.compaction_ratio, "0.0");
    assert_eq!(s.compaction_max_segment, 0);
}

#[test]
fn every_setting_can_be_given_in_both_forms() {
    let short = settings(&[
        "rustikv", "/d", "-t", "127.0.0.1:7777", "-n", "mydata", "-msb", "100", "-fsync",
        "every:5", "-e", "lsm", "-cr", "0.5", "-cms", "7",
    ]);
    let long = settings(&[
        "rustikv",
        "/d",
        "--tcp",
        "127.0.0.1:7777",
        "--name",
        "mydata",
        "--max-segments-bytes",
        "100",
        "--fsync-interval",
        "every:5",
        "--engine",
        "lsm",
        "--compaction-ratio",
        "0.5",
        "--compaction-max-segments",
        "7",
    ]);
    for s in [short, long] {
        assert_eq!(s.tcp_addr, "127.0.0.1:7777");
        assert_eq!(s.db_name, "mydata");
        assert_eq!(s.max_segment_bytes, 100);
        assert_eq!(s.sync_strategy, FSyncStrategy::EveryN(5));
        assert_eq!(s.engine, EngineType::Lsm);
        assert_eq!(s.compaction_ratio, "0.5");
        assert_eq!(s.compaction_max_segment, 7);
    }
}

#[test]
fn help_is_shown_without_a_path_or_where_asked_for() {
    assert!(Settings::get_from_args(&args(&["rustikv"])).is_none());
    assert!(Settings::get_from_args(&args(&["rustikv", "/d", "-n", "--help"])).is_none());
    assert!(Settings::get_from_args(&args(&["rustikv", "-h"])).is_none());
}

#[test]
fn a_setting_without_a_value_is_passed_over() {
    let a = read(&["rustikv", "/d", "-n"]);
    assert!(a.notes.is_empty());
    assert!(matches!(a.settings, Ok(s) if s.db_name == "segment"));
}

#[test]
fn notes_are_in_order() {
    let a = read(&["rustikv", "/d", "what", "-t", "x", "-cr", "y", "-t", "z", "more"]);
    assert_eq!(a.notes.len(), 5);
    assert!(matches!(&a.notes[0], Note::Unknown(w) if w == "what"));
    assert!(matches!(&a.notes[1], Note::Address(w) if w == "x"));
    assert!(matches!(&a.notes[2], Note::Ratio(w) if w == "y"));
    assert!(matches!(&a.notes[3], Note::Address(w) if w == "z"));
    assert!(matches!(&a.notes[4], Note::Unknown(w) if w == "more"));
    assert!(matches!(a.settings, Ok(s) if s.tcp_addr == "z"));
}

#[test]
fn the_first_wrong_value_ends_the_reading() {
    let a = read(&["rustikv", "/d", "odd", "-msb", "ten", "-e", "none", "late"]);
    assert_eq!(a.notes.len(), 1);
    assert!(matches!(a.settings, Err(e) if e == "Invalid max segments bytes provided"));
    let a = read(&["rustikv", "/d", "-cms", "-1"]);
    assert!(matches!(a.settings, Err(e) if e == "Invalid compaction max segments provided"));
    let a = read(&["rustikv", "/d", "-e", "none"]);
    assert!(matches!(a.settings, Err(e) if e == "Unsupported engine provided: none"));
}

#[test]
fn fsync_policies() {
    assert_eq!(Settings::parse_fsync("always"), Ok(FSyncStrategy::Always));
    assert_eq!(Settings::parse_fsync("never"), Ok(FSyncStrategy::Never));
    assert_eq!(
        Settings::parse_fsync("every:12"),
        Ok(FSyncStrategy::EveryN(12))
    );
    assert_eq!(
        Settings::parse_fsync("every:3s"),
        Ok(FSyncStrategy::Periodic(Period { secs: 3, millis: 0 }))
    );
    assert_eq!(
        Settings::parse_fsync("sometimes"),
        Err("unknown fsync policy: sometimes".to_string())
    );
    assert_eq!(
        Settings::parse_fsync("every:"),
        Err("invalid fsync interval: ".to_string())
    );
    assert_eq!(
        Settings::parse_fsync("every:xs"),
        Err("invalid fsync interval: xs".to_string())
    );
    assert_eq!(
        Settings::parse_fsync("every:0"),
        Err("fsync interval must be > 0".to_string())
    );
    assert_eq!(
        Settings::parse_fsync("every:0s"),
        Err("fsync interval must be > 0".to_string())
    );
}

#[test]
fn engines_by_name() {
    assert_eq!(Settings::parse_engine("kv"), Ok(EngineType::KV));
    assert_eq!(Settings::parse_engine("lsm"), Ok(EngineType::Lsm));
    assert!(Settings::parse_engine("KV").is_err());
}
