use rustikv::bffp::{
    decode_response_frame, encode_command, encode_frame, Command, DecodedResponse, ResponseStatus,
};
use rustikv::directory::Directory;
use rustikv::engine::{Clock, StorageEngine};
use rustikv::kvengine::KVEngine;
use rustikv::lsmengine::LsmEngine;
use rustikv::server::{
    begin_compaction, dispatch_ranged, end_compaction, frame_length, handle_request,
    handle_request_ranged, note_blocked, too_many_segments, CompactionCfg, FollowUp,
    MAX_REQUEST_BYTES,
};
use rustikv::settings::FSyncStrategy;
use rustikv::size_tiered::SizeTiered;
use rustikv::stats::Stats;
use std::collections::HashMap;

/// A server without a network. A compaction that was asked for runs when it is told to.
struct Server {
    engine: KVEngine,
    stats: Stats,
    ms: u64,
}

impl Server {
    fn start() -> Server {
        let ms = 1_700_000_000_000;
        Server {
            engine: KVEngine::new(
                Directory::new(),
                "segment",
                52_428_800,
                FSyncStrategy::Always,
                Clock {
                    ms,
                    ns: ms * 1_000_000,
                },
            ),
            stats: Stats::new(),
            ms,
        }
    }

    fn now(&mut self) -> Clock {
        self.ms += 1;
        Clock {
            ms: self.ms,
            ns: self.ms * 1_000_000,
        }
    }

    fn send_frame(&mut self, frame: &[u8]) -> Vec<u8> {
        let now = self.now();
        if let Err(reply) = frame_length(frame) {
            return reply.frame;
        }
        handle_request(frame, &mut self.engine, &mut self.stats, now).frame
    }

    fn send(&mut self, command: Command) -> DecodedResponse {
        let frame = encode_command(command);
        decode_response_frame(&self.send_frame(&frame)).expect("decode failed")
    }

    fn finish_compaction(&mut self) {
        let now = self.now();
        self.engine.compact(now).unwrap();
        end_compaction(&mut self.stats, now.ms);
    }

    fn write_key(&mut self, key: &str, value: &str) {
        let resp = self.send(Command::Write(key.to_string(), value.to_string(), None));
        assert!(matches!(resp.status, ResponseStatus::Okay));
    }

    /// Sends a command as a client would write it, and gives back the first line of the
    /// answer.
    fn send_command(&mut self, command: &str) -> String {
        let mut parts = command.splitn(3, ' ');
        let parsed = match parts.next().unwrap() {
            "READ" => Command::Read(parts.next().unwrap().to_string()),
            "WRITE" => {
                let key = parts.next().unwrap().to_string();
                Command::Write(key, parts.next().unwrap().to_string(), None)
            }
            "DELETE" => Command::Delete(parts.next().unwrap().to_string()),
            "COMPACT" => Command::Compact,
            "STATS" => Command::Stats,
            cmd => panic!("unknown command: {}", cmd),
        };
        let resp = self.send(parsed);
        match resp.status {
            ResponseStatus::Okay => resp
                .payload
                .into_iter()
                .next()
                .unwrap_or_else(|| "OK".to_string()),
            ResponseStatus::NotFound => "Not found".to_string(),
            ResponseStatus::Noop => "NOOP".to_string(),
            ResponseStatus::Error => resp.payload.into_iter().next().unwrap_or_default(),
        }
    }

    fn stats_map(&mut self) -> HashMap<String, String> {
        self.send_command("STATS")
            .lines()
            .filter_map(|line| line.split_once('='))
            .map(|(k, v)| (k.trim().to_string(), v.trim().to_string()))
            .collect()
    }
}

fn stat_u64(stats: &HashMap<String, String>, key: &str) -> u64 {
    stats
        .get(key)
        .expect("missing stats key")
        .parse::<u64>()
        .expect("invalid stats value")
}

#[test]
fn mget_returns_values_for_all_found_keys() {
    let mut server = Server::start();

    server.write_key("k1", "v1");
    server.write_key("k2", "v2");
    server.write_key("k3", "v3");

    let resp = server.send(Command::Mget(vec![
        "k1".to_string(),
        "k2".to_string(),
        "k3".to_string(),
    ]));

    assert!(matches!(resp.status, ResponseStatus::Okay));
    assert_eq!(resp.payload, vec!["k1", "v1", "k2", "v2", "k3", "v3"]);
}

#[test]
fn mget_returns_null_sentinel_for_missing_keys() {
    let mut server = Server::start();

    server.write_key("k1", "v1");

    let resp = server.send(Command::Mget(vec!["k1".to_string(), "k2".to_string()]));

    assert!(matches!(resp.status, ResponseStatus::Okay));
    assert_eq!(resp.payload, vec!["k1", "v1", "k2", "\0"]);
}

#[test]
fn mset_writes_multiple_keys_readable_individually() {
    let mut server = Server::start();

    let resp = server.send(Command::Mset(vec![
        ("k1".to_string(), "v1".to_string(), None),
        ("k2".to_string(), "v2".to_string(), None),
        ("k3".to_string(), "v3".to_string(), None),
    ]));
    assert!(matches!(resp.status, ResponseStatus::Okay));

    for (key, expected) in [("k1", "v1"), ("k2", "v2"), ("k3", "v3")] {
        let resp = server.send(Command::Read(key.to_string()));
        assert!(matches!(resp.status, ResponseStatus::Okay));
        assert_eq!(resp.payload, vec![expected]);
    }
}

#[test]
fn mset_overwrites_existing_keys() {
    let mut server = Server::start();

    server.write_key("k1", "old");

    let resp = server.send(Command::Mset(vec![(
        "k1".to_string(),
        "new".to_string(),
        None,
    )]));
    assert!(matches!(resp.status, ResponseStatus::Okay));

    let resp = server.send(Command::Read("k1".to_string()));
    assert!(matches!(resp.status, ResponseStatus::Okay));
    assert_eq!(resp.payload, vec!["new"]);
}

fn build_ping_frame() -> Vec<u8> {
    // op code 8 = Ping, no key/value payload
    let op: u8 = 8;
    let payload_len: u32 = 1; // just the op byte
    let mut frame = payload_len.to_be_bytes().to_vec();
    frame.push(op);
    frame
}

#[test]
fn ping_returns_pong() {
    let mut server = Server::start();

    let response_bytes = server.send_frame(&build_ping_frame());
    let response = decode_response_frame(&response_bytes).expect("decode failed");

    assert!(matches!(response.status, ResponseStatus::Okay));
    assert_eq!(response.payload, vec!["PONG"]);
}

#[test]
fn compact_command_over_tcp() {
    let mut server = Server::start();

    assert_eq!(server.send_command("COMPACT"), "OK");
    server.finish_compaction();
    assert_eq!(server.send_command("WRITE k1 v1"), "OK");
    assert_eq!(server.send_command("COMPACT"), "OK");
    server.finish_compaction();
    assert_eq!(server.send_command("READ k1"), "v1");
}

#[test]
fn write_preserves_multiple_spaces_in_value() {
    let mut server = Server::start();

    assert_eq!(server.send_command("WRITE key hello  world"), "OK");
    assert_eq!(server.send_command("READ key"), "hello  world");
}

#[test]
fn write_preserves_leading_and_trailing_spaces_in_value() {
    let mut server = Server::start();

    assert_eq!(server.send_command("WRITE key  leading"), "OK");
    assert_eq!(server.send_command("READ key"), " leading");
}

#[test]
fn write_preserves_tab_in_value() {
    let mut server = Server::start();

    assert_eq!(server.send_command("WRITE key hello\tworld"), "OK");
    assert_eq!(server.send_command("READ key"), "hello\tworld");
}

#[test]
fn stats_show_write_blocked_during_compaction() {
    let mut server = Server::start();

    for i in 0..200 {
        let key = format!("k{}", i);
        let value = "x".repeat(10240);
        assert_eq!(
            server.send_command(&format!("WRITE {} {}", key, value)),
            "OK"
        );
    }

    assert_eq!(server.send_command("COMPACT"), "OK");
    assert_eq!(server.stats_map()["compacting"], "true");

    assert_eq!(server.send_command("WRITE late v"), "OK");
    server.finish_compaction();
    assert_eq!(server.stats_map()["compacting"], "false");

    let stats = server.stats_map();
    assert!(stat_u64(&stats, "write_blocked_attempts") >= 1);
    assert!(stat_u64(&stats, "compaction_count") >= 1);
}

#[test]
fn stats_counters_increment() {
    let mut server = Server::start();

    assert_eq!(server.send_command("WRITE k1 v1"), "OK");
    assert_eq!(server.send_command("READ k1"), "v1");
    assert_eq!(server.send_command("DELETE k1"), "OK");

    let stats = server.stats_map();
    assert!(stat_u64(&stats, "writes") >= 1);
    assert!(stat_u64(&stats, "reads") >= 1);
    assert!(stat_u64(&stats, "deletes") >= 1);
}

#[test]
fn a_second_compaction_is_no_operation() {
    let mut server = Server::start();
    assert_eq!(server.send_command("COMPACT"), "OK");
    assert_eq!(server.send_command("COMPACT"), "NOOP");
    server.finish_compaction();
    assert_eq!(server.send_command("COMPACT"), "OK");
    assert_eq!(server.stats.compaction_count, 1);
}

#[test]
fn deleting_what_is_not_there_is_not_found() {
    let mut server = Server::start();
    assert_eq!(server.send_command("DELETE k"), "Not found");
    assert_eq!(server.send_command("READ k"), "Not found");
    assert_eq!(server.stats.deletes, 0);
    assert_eq!(server.stats.reads, 1);
}

#[test]
fn list_and_exists_are_answered() {
    let mut server = Server::start();
    server.write_key("b", "2");
    server.write_key("a", "1");
    let resp = server.send(Command::List);
    assert_eq!(resp.payload, vec!["a", "b"]);
    assert!(matches!(
        server.send(Command::Exists("a".to_string())).status,
        ResponseStatus::Okay
    ));
    assert!(matches!(
        server.send(Command::Exists("c".to_string())).status,
        ResponseStatus::NotFound
    ));
}

#[test]
fn an_unknown_op_code_is_an_error() {
    let mut server = Server::start();
    let frame = server.send_frame(&[0, 0, 0, 1, 99]);
    let resp = decode_response_frame(&frame).unwrap();
    assert!(matches!(resp.status, ResponseStatus::Error));
    assert_eq!(resp.payload, vec!["Invalid op code: 99"]);
}

#[test]
fn a_value_too_large_is_refused() {
    let mut server = Server::start();
    let value = "v".repeat(5_242_881);
    let resp = server.send(Command::Write("k".to_string(), value, None));
    assert!(matches!(resp.status, ResponseStatus::Error));
    assert_eq!(
        resp.payload,
        vec!["key or value exceeds maximum allowed size"]
    );
    assert_eq!(server.stats.writes, 0);
}

#[test]
fn a_frame_that_ends_too_soon_is_an_error() {
    let mut server = Server::start();
    let frame = server.send_frame(&[0, 0, 0, 3, 1, 0, 5]);
    let resp = decode_response_frame(&frame).unwrap();
    assert!(matches!(resp.status, ResponseStatus::Error));
    assert_eq!(resp.payload, vec!["failed to fill whole buffer"]);
}

#[test]
fn a_key_that_is_no_text_is_an_error() {
    let mut server = Server::start();
    let frame = server.send_frame(&[0, 0, 0, 4, 1, 0, 1, 0xFF]);
    let resp = decode_response_frame(&frame).unwrap();
    assert!(matches!(resp.status, ResponseStatus::Error));
    assert_eq!(resp.payload, vec!["invalid utf-8 sequence"]);
}

#[test]
fn a_length_is_read_and_bounded() {
    assert!(matches!(frame_length(&[0, 0, 1, 2]), Ok(258)));
    let most = MAX_REQUEST_BYTES as u32;
    assert!(matches!(frame_length(&most.to_be_bytes()), Ok(n) if n == MAX_REQUEST_BYTES));
    match frame_length(&(most + 1).to_be_bytes()) {
        Err(reply) => assert_eq!(
            reply.frame,
            encode_frame(
                ResponseStatus::Error,
                &[format!("Frame too large: {} bytes", most + 1)]
            )
        ),
        Ok(_) => panic!("a frame too large was taken"),
    }
    match frame_length(&[0, 0]) {
        Err(reply) => assert_eq!(
            reply.frame,
            encode_frame(
                ResponseStatus::Error,
                &["Received empty request.".to_string()]
            )
        ),
        Ok(_) => panic!("a length was read out of two bytes"),
    }
}

#[test]
fn ranges_are_answered_where_keys_are_in_order() {
    let mut engine = LsmEngine::new(Directory::new(), "seg", 1_048_576, SizeTiered::new(4, 32));
    let mut stats = Stats::new();
    for (i, (k, v)) in [("a", "1"), ("c", "3"), ("b", "2"), ("d", "4")]
        .into_iter()
        .enumerate()
    {
        let now = Clock {
            ms: 10 + i as u64,
            ns: 10 + i as u64,
        };
        let command = Command::Write(k.to_string(), v.to_string(), None);
        let reply = dispatch_ranged(command, &mut engine, &mut stats, now);
        assert_eq!(reply.follow_up, FollowUp::CheckCompaction);
    }
    let now = Clock { ms: 20, ns: 20 };
    let frame = encode_command(Command::Range("b".to_string(), "c".to_string()));
    let reply = handle_request_ranged(&frame, &mut engine, &mut stats, now);
    let resp = decode_response_frame(&reply.frame).unwrap();
    assert!(matches!(resp.status, ResponseStatus::Okay));
    assert_eq!(resp.payload, vec!["b", "2", "c", "3"]);
    assert_eq!(reply.follow_up, FollowUp::Nothing);
}

#[test]
fn ranges_are_refused_where_keys_are_in_no_order() {
    let mut server = Server::start();
    let resp = server.send(Command::Range("a".to_string(), "b".to_string()));
    assert!(matches!(resp.status, ResponseStatus::Error));
}

#[test]
fn compactions_are_noted() {
    let mut stats = Stats::new();
    assert!(begin_compaction(&mut stats, 5));
    assert!(stats.compacting);
    assert_eq!(stats.last_compact_start_ms, 5);
    assert!(!begin_compaction(&mut stats, 6));
    assert_eq!(stats.last_compact_start_ms, 5);
    note_blocked(&mut stats, 7);
    note_blocked(&mut stats, 8);
    end_compaction(&mut stats, 9);
    assert_eq!(
        stats.snapshot(),
        "compacting=false\ncompaction_count=1\nlast_compact_start_ms=5\nlast_compact_end_ms=9\n\
         write_blocked_attempts=0\nwrite_blocked_total_ms=15\nreads=0\nwrites=0\ndeletes=0\n\
         active_connections=0"
    );
}

#[test]
fn segments_are_counted_against_their_limit() {
    let cfg = CompactionCfg { max_segment: 3 };
    assert!(!too_many_segments(3, cfg));
    assert!(too_many_segments(4, cfg));
    assert!(!too_many_segments(4, CompactionCfg { max_segment: 0 }));
}

#[test]
fn an_expired_key_is_gone_and_seconds_are_counted() {
    let mut server = Server::start();
    let resp = server.send(Command::Write("k".to_string(), "v".to_string(), Some(1)));
    assert!(matches!(resp.status, ResponseStatus::Okay));
    server.ms += 998;
    assert_eq!(server.send_command("READ k"), "v");
    assert_eq!(server.send_command("READ k"), "Not found");
}

#[test]
fn of_several_items_with_one_key_the_last_counts() {
    let mut server = Server::start();
    server.write_key("other", "kept");
    let item = |k: &str, v: &str| (k.to_string(), v.to_string(), None);
    server.send(Command::Mset(vec![
        item("k", "1"),
        item("j", "2"),
        item("k", "3"),
    ]));
    assert_eq!(server.send_command("READ k"), "3");
    assert_eq!(server.send_command("READ j"), "2");
    assert_eq!(server.send_command("READ other"), "kept");
}

#[test]
fn zero_seconds_keep_a_key_for_ever() {
    let mut server = Server::start();
    server.send(Command::Write("k".to_string(), "v".to_string(), Some(1)));
    let resp = server.send(Command::Ttl("k".to_string(), 0));
    assert!(matches!(resp.status, ResponseStatus::Okay));
    server.ms += 1_000_000;
    assert_eq!(server.send_command("READ k"), "v");
    let resp = server.send(Command::Ttl("k".to_string(), 2));
    assert!(matches!(resp.status, ResponseStatus::Okay));
    server.ms += 1_998;
    assert_eq!(server.send_command("READ k"), "v");
    assert_eq!(server.send_command("READ k"), "Not found");
}

#[test]
fn a_deletion_touches_one_key() {
    let mut server = Server::start();
    server.write_key("a", "1");
    server.write_key("b", "2");
    assert_eq!(server.send_command("DELETE a"), "OK");
    assert_eq!(server.send_command("READ a"), "Not found");
    assert_eq!(server.send_command("READ b"), "2");
}

#[test]
fn a_refused_write_changes_nothing() {
    let mut server = Server::start();
    server.write_key("k", "kept");
    let resp = server.send(Command::Write(
        "k".to_string(),
        "v".repeat(5_242_881),
        None,
    ));
    assert!(matches!(resp.status, ResponseStatus::Error));
    assert_eq!(server.send_command("READ k"), "kept");
}
