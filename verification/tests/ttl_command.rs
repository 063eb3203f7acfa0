use rustikv::bffp::{decode_response_frame, Command, ResponseStatus};
use rustikv::directory::Directory;
use rustikv::engine::{Clock, StorageEngine};
use rustikv::kvengine::KVEngine;
use rustikv::lsmengine::LsmEngine;
use rustikv::server::dispatch;
use rustikv::settings::FSyncStrategy;
use rustikv::size_tiered::SizeTiered;
use rustikv::stats::Stats;

const START_MS: u64 = 1_700_000_000_000;

fn now_ms() -> u64 {
    START_MS
}

/// An engine with a clock.
struct Served<E: StorageEngine> {
    inner: E,
    ms: u64,
}

impl<E: StorageEngine> Served<E> {
    fn new(inner: E) -> Served<E> {
        Served {
            inner,
            ms: START_MS,
        }
    }

    fn now(&mut self) -> Clock {
        self.ms += 1;
        Clock {
            ms: self.ms,
            ns: self.ms * 1_000_000,
        }
    }
}

fn kv_engine(_suffix: &str) -> Served<KVEngine> {
    let now = Clock {
        ms: START_MS,
        ns: START_MS * 1_000_000,
    };
    Served::new(KVEngine::new(
        Directory::new(),
        "seg",
        1024 * 1024,
        FSyncStrategy::Never,
        now,
    ))
}

fn lsm_engine(_suffix: &str) -> Served<LsmEngine<SizeTiered>> {
    Served::new(LsmEngine::new(
        Directory::new(),
        "seg",
        1_048_576,
        SizeTiered::new(4, 32),
    ))
}

fn stats() -> Stats {
    Stats::new()
}

fn send<E: StorageEngine>(command: Command, engine: &mut Served<E>, stats: &mut Stats) -> Vec<u8> {
    let now = engine.now();
    dispatch(command, &mut engine.inner, stats, now).frame
}

#[test]
fn ttl_command_on_existing_key_returns_ok_kv() {
    let mut engine = kv_engine("ttl_ok_kv");
    let mut stats = stats();
    send(
        Command::Write("k".to_string(), "v".to_string(), None),
        &mut engine,
        &mut stats,
    );
    let resp = send(
        Command::Ttl("k".to_string(), 30),
        &mut engine,
        &mut stats,
    );
    let decoded = decode_response_frame(&resp).unwrap();
    assert!(matches!(decoded.status, ResponseStatus::Okay));
}

#[test]
fn ttl_command_on_missing_key_returns_not_found_kv() {
    let mut engine = kv_engine("ttl_nf_kv");
    let mut stats = stats();
    let resp = send(
        Command::Ttl("no_such_key".to_string(), 30),
        &mut engine,
        &mut stats,
    );
    let decoded = decode_response_frame(&resp).unwrap();
    assert!(matches!(decoded.status, ResponseStatus::NotFound));
}

#[test]
fn ttl_persist_seconds_zero_returns_ok_kv() {
    let mut engine = kv_engine("ttl_persist_kv");
    let mut stats = stats();
    send(
        Command::Write("k".to_string(), "v".to_string(), None),
        &mut engine,
        &mut stats,
    );
    // seconds == 0 → PERSIST (strip expiry)
    let resp = send(
        Command::Ttl("k".to_string(), 0),
        &mut engine,
        &mut stats,
    );
    let decoded = decode_response_frame(&resp).unwrap();
    assert!(matches!(decoded.status, ResponseStatus::Okay));
    // Key is still readable after PERSIST.
    let read_resp = send(
        Command::Read("k".to_string()),
        &mut engine,
        &mut stats,
    );
    let read_decoded = decode_response_frame(&read_resp).unwrap();
    assert!(matches!(read_decoded.status, ResponseStatus::Okay));
}

#[test]
fn ttl_command_on_existing_key_returns_ok_lsm() {
    let mut engine = lsm_engine("ttl_ok_lsm");
    let mut stats = stats();
    send(
        Command::Write("k".to_string(), "v".to_string(), None),
        &mut engine,
        &mut stats,
    );
    let resp = send(
        Command::Ttl("k".to_string(), 30),
        &mut engine,
        &mut stats,
    );
    let decoded = decode_response_frame(&resp).unwrap();
    assert!(matches!(decoded.status, ResponseStatus::Okay));
    // Key is still readable — TTL is 30 seconds in the future.
    let read_resp = send(
        Command::Read("k".to_string()),
        &mut engine,
        &mut stats,
    );
    let read_decoded = decode_response_frame(&read_resp).unwrap();
    assert!(matches!(read_decoded.status, ResponseStatus::Okay));
}

#[test]
fn ttl_command_on_missing_key_returns_not_found_lsm() {
    let mut engine = lsm_engine("ttl_nf_lsm");
    let mut stats = stats();
    let resp = send(
        Command::Ttl("no_such_key".to_string(), 30),
        &mut engine,
        &mut stats,
    );
    let decoded = decode_response_frame(&resp).unwrap();
    assert!(matches!(decoded.status, ResponseStatus::NotFound));
}

#[test]
fn ttl_persist_seconds_zero_makes_key_permanent_lsm() {
    let mut engine = lsm_engine("ttl_persist_lsm");
    let mut stats = stats();
    // Write with a 1-second TTL (still alive), then PERSIST.
    send(
        Command::Write("k".to_string(), "v".to_string(), Some(1)),
        &mut engine,
        &mut stats,
    );
    let resp = send(
        Command::Ttl("k".to_string(), 0),
        &mut engine,
        &mut stats,
    );
    let decoded = decode_response_frame(&resp).unwrap();
    assert!(matches!(decoded.status, ResponseStatus::Okay));
    // Key must still be visible after PERSIST.
    let read_resp = send(
        Command::Read("k".to_string()),
        &mut engine,
        &mut stats,
    );
    let read_decoded = decode_response_frame(&read_resp).unwrap();
    assert!(matches!(read_decoded.status, ResponseStatus::Okay));
    assert_eq!(read_decoded.payload, vec!["v".to_string()]);
}

#[test]
fn write_with_future_ttl_is_readable_lsm() {
    let mut engine = lsm_engine("write_ttl_read_lsm");
    let mut stats = stats();
    // seconds=60 → expiry_ms = now_ms + 60_000; should be readable immediately.
    let resp = send(
        Command::Write("k".to_string(), "v".to_string(), Some(60)),
        &mut engine,
        &mut stats,
    );
    let decoded = decode_response_frame(&resp).unwrap();
    assert!(matches!(decoded.status, ResponseStatus::Okay));

    let read_resp = send(
        Command::Read("k".to_string()),
        &mut engine,
        &mut stats,
    );
    let read_decoded = decode_response_frame(&read_resp).unwrap();
    assert!(matches!(read_decoded.status, ResponseStatus::Okay));
    assert_eq!(read_decoded.payload, vec!["v".to_string()]);
}

// Test that an already-expired key written via engine directly is invisible
// on READ through dispatch.
#[test]
fn read_expired_key_returns_not_found_lsm() {
    let mut engine = lsm_engine("read_expired_lsm");
    let past_ms = now_ms() - 1;
    let now = engine.now();
    engine
        .inner
        .set_with_ttl("k", "v", Some(past_ms), now)
        .unwrap();
    let mut stats = stats();

    let resp = send(
        Command::Read("k".to_string()),
        &mut engine,
        &mut stats,
    );
    let decoded = decode_response_frame(&resp).unwrap();
    assert!(matches!(decoded.status, ResponseStatus::NotFound));
}

#[test]
fn mset_with_per_entry_ttl_readable_while_live() {
    let mut engine = lsm_engine("mset_ttl_lsm");
    let mut stats = stats();
    let resp = send(
        Command::Mset(vec![
            ("k1".to_string(), "v1".to_string(), Some(60)),
            ("k2".to_string(), "v2".to_string(), None),
        ]),
        &mut engine,
        &mut stats,
    );
    let decoded = decode_response_frame(&resp).unwrap();
    assert!(matches!(decoded.status, ResponseStatus::Okay));

    let r1 = decode_response_frame(&send(
        Command::Read("k1".to_string()),
        &mut engine,
        &mut stats,
    ))
    .unwrap();
    assert!(matches!(r1.status, ResponseStatus::Okay));
    assert_eq!(r1.payload, vec!["v1"]);

    let r2 = decode_response_frame(&send(
        Command::Read("k2".to_string()),
        &mut engine,
        &mut stats,
    ))
    .unwrap();
    assert!(matches!(r2.status, ResponseStatus::Okay));
    assert_eq!(r2.payload, vec!["v2"]);
}
