use rustikv::bffp::Command;
use rustikv::cli::{command_of, parse_command, ParseResult};

fn invalid(line: &str) -> String {
    match parse_command(line) {
        ParseResult::InvalidInput(message) => message,
        other => panic!("{other:?} for {line}"),
    }
}

#[test]
fn an_empty_line_says_nothing() {
    assert_eq!(invalid(""), "");
    assert_eq!(invalid(" \t  "), "");
}

#[test]
fn a_write_joins_its_words_by_a_space() {
    match parse_command("write  key hello \t world") {
        ParseResult::Cmd(Command::Write(k, v, None)) => {
            assert_eq!(k, "key");
            assert_eq!(v, "hello world");
        }
        other => panic!("{other:?}"),
    }
}

#[test]
fn white_space_beyond_ascii_parts_words() {
    match parse_command("\u{3000}READ\u{a0}key\u{2003}") {
        ParseResult::Cmd(Command::Read(k)) => assert_eq!(k, "key"),
        other => panic!("{other:?}"),
    }
}

#[test]
fn commands_may_be_in_small_letters() {
    assert!(matches!(
        parse_command("stats"),
        ParseResult::Cmd(Command::Stats)
    ));
    assert!(matches!(
        parse_command("LiSt"),
        ParseResult::Cmd(Command::List)
    ));
    assert!(matches!(
        parse_command("compact now"),
        ParseResult::Cmd(Command::Compact)
    ));
    assert!(matches!(
        parse_command("ping"),
        ParseResult::Cmd(Command::Ping)
    ));
    assert!(matches!(parse_command("quit"), ParseResult::Quit));
}

#[test]
fn keys_are_taken_as_they_are() {
    assert!(matches!(
        parse_command("delete K"),
        ParseResult::Cmd(Command::Delete(k)) if k == "K"
    ));
    assert!(matches!(
        parse_command("EXISTS k"),
        ParseResult::Cmd(Command::Exists(k)) if k == "k"
    ));
    assert!(matches!(
        parse_command("RANGE a b"),
        ParseResult::Cmd(Command::Range(a, b)) if a == "a" && b == "b"
    ));
}

#[test]
fn several_keys_and_items() {
    match parse_command("mget a b c") {
        ParseResult::Cmd(Command::Mget(keys)) => assert_eq!(keys, vec!["a", "b", "c"]),
        other => panic!("{other:?}"),
    }
    // The last word has no value and is passed over.
    match parse_command("mset a 1 b 2 c") {
        ParseResult::Cmd(Command::Mset(items)) => assert_eq!(
            items,
            vec![
                ("a".to_string(), "1".to_string(), None),
                ("b".to_string(), "2".to_string(), None),
            ]
        ),
        other => panic!("{other:?}"),
    }
}

#[test]
fn wrong_numbers_of_words_are_told() {
    assert_eq!(invalid("write k"), "Usage: WRITE <key> <value>");
    assert_eq!(invalid("read"), "Usage: READ <key>");
    assert_eq!(invalid("read a b"), "Usage: READ <key>");
    assert_eq!(invalid("delete"), "Usage: DELETE <key>");
    assert_eq!(invalid("exists a b"), "Usage: EXISTS <key>");
    assert_eq!(invalid("mget"), "Usage: MGET <key1> <key2> <keyn>");
    assert_eq!(
        invalid("mset a"),
        "Usage: MSET <key1> <value1> <keyn> <valuen>"
    );
    assert_eq!(invalid("range a"), "Usage: RANGE <start> <end>");
}

#[test]
fn an_unknown_command_is_told_in_capitals() {
    assert_eq!(invalid("frobnicate x"), "Unknown command: FROBNICATE");
    assert_eq!(invalid("stra\u{df}e"), "Unknown command: STRASSE");
}

#[test]
fn the_words_decide_once_the_command_is_known() {
    let words = vec!["whatever".to_string(), "k".to_string()];
    assert!(matches!(
        command_of("READ", &words),
        ParseResult::Cmd(Command::Read(k)) if k == "k"
    ));
    assert!(matches!(
        command_of("read", &words),
        ParseResult::InvalidInput(m) if m == "Unknown command: read"
    ));
}
