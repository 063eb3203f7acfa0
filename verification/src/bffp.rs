//! The wire protocol: binary frames with a length prefix.
//!
//! A request is a 4-byte big-endian length, an op code, and fields that depend on
//! the op code. A response is a 4-byte length, a status byte, and strings, each
//! with a 4-byte length.

use vstd::prelude::*;
use vstd::utf8::{decode_utf8, encode_utf8, valid_utf8};

use crate::bytes::{
    be_u16, be_u32, copy_range, from_be_u16, from_be_u32, lemma_be_u16_roundtrip,
    lemma_be_u16_value, lemma_be_u32_roundtrip, lemma_be_u32_value, push_all, push_u16,
    push_u32, read_u16, read_u32,
};
use crate::error::StoreError;
use crate::text::{
    byte_len, lemma_utf8_bytes_roundtrip, lemma_utf8_roundtrip, string_from_utf8, string_views,
};

verus! {

pub const FRAME_LEN_SIZE: usize = 4;

pub const OP_CODE_SIZE: usize = 1;

pub const KEY_LEN_SIZE: usize = 2;

pub const VALUE_LEN_SIZE: usize = 4;

pub const PAYLOAD_LEN_SIZE: usize = 4;

pub const FLAG_HAS_TTL: u8 = 1;

/// A request.
#[derive(Debug)]
pub enum Command {
    /// A request with an unknown op code. It is decoded, never encoded.
    Invalid(u8),
    Read(String),
    /// A key, a value, and the seconds after which they expire.
    Write(String, String, Option<u32>),
    Delete(String),
    Compact,
    Stats,
    List,
    Exists(String),
    Ping,
    Mget(Vec<String>),
    Mset(Vec<(String, String, Option<u32>)>),
    /// The first and the last key of a range.
    Range(String, String),
    /// A key and the seconds after which it expires; 0 for never.
    Ttl(String, u32),
}

/// A key and a value to be written, with the seconds after which they expire.
pub type ItemView = (Seq<char>, Seq<char>, Option<u32>);

/// What a request says.
pub enum CommandView {
    Invalid(u8),
    Read(Seq<char>),
    Write(Seq<char>, Seq<char>, Option<u32>),
    Delete(Seq<char>),
    Compact,
    Stats,
    List,
    Exists(Seq<char>),
    Ping,
    Mget(Seq<Seq<char>>),
    Mset(Seq<ItemView>),
    Range(Seq<char>, Seq<char>),
    Ttl(Seq<char>, u32),
}

/// What the items of a sequence say.
pub open spec fn item_views(v: Seq<(String, String, Option<u32>)>) -> Seq<ItemView> {
    v.map_values(|t: (String, String, Option<u32>)| (t.0@, t.1@, t.2))
}

impl View for Command {
    type V = CommandView;

    open spec fn view(&self) -> CommandView {
        match *self {
            Command::Invalid(n) => CommandView::Invalid(n),
            Command::Read(k) => CommandView::Read(k@),
            Command::Write(k, v, t) => CommandView::Write(k@, v@, t),
            Command::Delete(k) => CommandView::Delete(k@),
            Command::Compact => CommandView::Compact,
            Command::Stats => CommandView::Stats,
            Command::List => CommandView::List,
            Command::Exists(k) => CommandView::Exists(k@),
            Command::Ping => CommandView::Ping,
            Command::Mget(ks) => CommandView::Mget(string_views(ks@)),
            Command::Mset(items) => CommandView::Mset(item_views(items@)),
            Command::Range(a, b) => CommandView::Range(a@, b@),
            Command::Ttl(k, n) => CommandView::Ttl(k@, n),
        }
    }
}

/// The kinds of requests.
#[derive(Clone, Copy, PartialEq, Eq, Structural, Debug)]
pub enum OpCode {
    Read,
    Write,
    Delete,
    Compact,
    Stats,
    List,
    Exists,
    Ping,
    Mget,
    Mset,
    Range,
    Ttl,
}

impl OpCode {
    /// The byte of an op code.
    pub open spec fn spec_code(self) -> u8 {
        match self {
            OpCode::Read => 1,
            OpCode::Write => 2,
            OpCode::Delete => 3,
            OpCode::Compact => 4,
            OpCode::Stats => 5,
            OpCode::List => 6,
            OpCode::Exists => 7,
            OpCode::Ping => 8,
            OpCode::Mget => 9,
            OpCode::Mset => 10,
            OpCode::Range => 11,
            OpCode::Ttl => 12,
        }
    }

    /// The byte of this op code.
    pub fn code(self) -> (b: u8)
        ensures
            b == self.spec_code(),
    {
        match self {
            OpCode::Read => 1,
            OpCode::Write => 2,
            OpCode::Delete => 3,
            OpCode::Compact => 4,
            OpCode::Stats => 5,
            OpCode::List => 6,
            OpCode::Exists => 7,
            OpCode::Ping => 8,
            OpCode::Mget => 9,
            OpCode::Mset => 10,
            OpCode::Range => 11,
            OpCode::Ttl => 12,
        }
    }

    /// The op code of a byte.
    pub fn try_from(value: u8) -> (r: Result<OpCode, StoreError>)
        ensures
            match r {
                Ok(op) => op.spec_code() == value,
                Err(e) => (value == 0 || value > 12) && e == StoreError::UnknownOpCode(value),
            },
    {
        match value {
            1 => Ok(OpCode::Read),
            2 => Ok(OpCode::Write),
            3 => Ok(OpCode::Delete),
            4 => Ok(OpCode::Compact),
            5 => Ok(OpCode::Stats),
            6 => Ok(OpCode::List),
            7 => Ok(OpCode::Exists),
            8 => Ok(OpCode::Ping),
            9 => Ok(OpCode::Mget),
            10 => Ok(OpCode::Mset),
            11 => Ok(OpCode::Range),
            12 => Ok(OpCode::Ttl),
            n => Err(StoreError::UnknownOpCode(n)),
        }
    }
}

/// How a request went.
#[derive(Clone, Copy, PartialEq, Eq, Structural, Debug)]
pub enum ResponseStatus {
    Okay,
    NotFound,
    Error,
    Noop,
}

impl ResponseStatus {
    /// The byte of a status.
    pub open spec fn spec_code(self) -> u8 {
        match self {
            ResponseStatus::Okay => 0,
            ResponseStatus::NotFound => 1,
            ResponseStatus::Error => 2,
            ResponseStatus::Noop => 3,
        }
    }

    /// The byte of this status.
    pub fn code(self) -> (b: u8)
        ensures
            b == self.spec_code(),
    {
        match self {
            ResponseStatus::Okay => 0,
            ResponseStatus::NotFound => 1,
            ResponseStatus::Error => 2,
            ResponseStatus::Noop => 3,
        }
    }

    /// The status of a byte.
    pub fn try_from(value: u8) -> (r: Result<ResponseStatus, StoreError>)
        ensures
            match r {
                Ok(s) => s.spec_code() == value,
                Err(e) => value > 3 && e == StoreError::UnknownStatus(value),
            },
    {
        match value {
            0 => Ok(ResponseStatus::Okay),
            1 => Ok(ResponseStatus::NotFound),
            2 => Ok(ResponseStatus::Error),
            3 => Ok(ResponseStatus::Noop),
            n => Err(StoreError::UnknownStatus(n)),
        }
    }
}

/// A response, taken apart.
#[derive(Debug)]
pub struct DecodedResponse {
    pub payload: Vec<String>,
    pub status: ResponseStatus,
}

/// A key with its length.
#[verifier::opaque]
pub open spec fn key_field(k: Seq<char>) -> Seq<u8> {
    be_u16(#[verifier::truncate] (byte_len(k) as u16)) + encode_utf8(k)
}

/// A value with its length.
pub open spec fn value_field(v: Seq<char>) -> Seq<u8> {
    be_u32(#[verifier::truncate] (byte_len(v) as u32)) + encode_utf8(v)
}

/// A key and a value to be written: flags, key, value, and the seconds where the
/// flags say so.
#[verifier::opaque]
pub open spec fn item_field(t: ItemView) -> Seq<u8> {
    match t.2 {
        Some(secs) => seq![FLAG_HAS_TTL] + key_field(t.0) + value_field(t.1) + be_u32(secs),
        None => seq![0u8] + key_field(t.0) + value_field(t.1),
    }
}

/// Keys, one after the other.
pub open spec fn key_fields(ks: Seq<Seq<char>>) -> Seq<u8>
    decreases ks.len(),
{
    if ks.len() == 0 {
        Seq::empty()
    } else {
        key_field(ks[0]) + key_fields(ks.drop_first())
    }
}

/// Items, one after the other.
pub open spec fn item_fields(ts: Seq<ItemView>) -> Seq<u8>
    decreases ts.len(),
{
    if ts.len() == 0 {
        Seq::empty()
    } else {
        item_field(ts[0]) + item_fields(ts.drop_first())
    }
}

/// What follows the op code of a request.
pub open spec fn command_fields(c: CommandView) -> Seq<u8> {
    match c {
        CommandView::Read(k) => key_field(k),
        CommandView::Write(k, v, t) => item_field((k, v, t)),
        CommandView::Delete(k) => key_field(k),
        CommandView::Exists(k) => key_field(k),
        CommandView::Mget(ks) => be_u16(#[verifier::truncate] (ks.len() as u16)) + key_fields(ks),
        CommandView::Mset(ts) => be_u16(#[verifier::truncate] (ts.len() as u16)) + item_fields(ts),
        CommandView::Range(a, b) => key_field(a) + key_field(b),
        CommandView::Ttl(k, n) => key_field(k) + be_u32(n),
        _ => Seq::empty(),
    }
}

/// The op code of a request.
pub open spec fn command_code(c: CommandView) -> u8 {
    match c {
        CommandView::Invalid(n) => n,
        CommandView::Read(_) => 1,
        CommandView::Write(_, _, _) => 2,
        CommandView::Delete(_) => 3,
        CommandView::Compact => 4,
        CommandView::Stats => 5,
        CommandView::List => 6,
        CommandView::Exists(_) => 7,
        CommandView::Ping => 8,
        CommandView::Mget(_) => 9,
        CommandView::Mset(_) => 10,
        CommandView::Range(_, _) => 11,
        CommandView::Ttl(_, _) => 12,
    }
}

/// A frame around a payload.
pub open spec fn framed(payload: Seq<u8>) -> Seq<u8> {
    be_u32(#[verifier::truncate] (payload.len() as u32)) + payload
}

/// The frame of a request.
pub open spec fn command_frame(c: CommandView) -> Seq<u8> {
    framed(seq![command_code(c)] + command_fields(c))
}

/// The string of `n` bytes at the start of `s`.
pub open spec fn take_string(s: Seq<u8>, n: int) -> Result<Seq<char>, StoreError> {
    if s.len() < n {
        Err(StoreError::UnexpectedEof)
    } else if !valid_utf8(s.take(n)) {
        Err(StoreError::InvalidUtf8)
    } else {
        Ok(decode_utf8(s.take(n)))
    }
}

/// The key at the start of `s`, and how many bytes it takes with its length.
#[verifier::opaque]
pub open spec fn take_key(s: Seq<u8>) -> Result<(Seq<char>, int), StoreError> {
    if s.len() < KEY_LEN_SIZE {
        Err(StoreError::UnexpectedEof)
    } else {
        let n = from_be_u16(s.subrange(0, 2)) as int;
        match take_string(s.skip(2), n) {
            Ok(k) => Ok((k, 2 + n)),
            Err(e) => Err(e),
        }
    }
}

/// The value at the start of `s`, and how many bytes it takes with its length.
pub open spec fn take_value(s: Seq<u8>) -> Result<(Seq<char>, int), StoreError> {
    if s.len() < VALUE_LEN_SIZE {
        Err(StoreError::UnexpectedEof)
    } else {
        let n = from_be_u32(s.subrange(0, 4)) as int;
        match take_string(s.skip(4), n) {
            Ok(v) => Ok((v, 4 + n)),
            Err(e) => Err(e),
        }
    }
}

/// The item at the start of `s`, and how many bytes it takes. Only the lowest flag
/// counts.
#[verifier::opaque]
pub open spec fn take_item(s: Seq<u8>) -> Result<(ItemView, int), StoreError> {
    if s.len() < 1 {
        Err(StoreError::UnexpectedEof)
    } else {
        match take_key(s.skip(1)) {
            Err(e) => Err(e),
            Ok((k, a)) => match take_value(s.skip(1 + a)) {
                Err(e) => Err(e),
                Ok((v, b)) => {
                    let p = 1 + a + b;
                    if s[0] & FLAG_HAS_TTL == 0 {
                        Ok(((k, v, None), p))
                    } else if s.len() < p + 4 {
                        Err(StoreError::UnexpectedEof)
                    } else {
                        Ok(((k, v, Some(from_be_u32(s.subrange(p, p + 4)))), p + 4))
                    }
                },
            },
        }
    }
}

/// The `n` keys at the start of `s`.
pub open spec fn take_keys(s: Seq<u8>, n: nat) -> Result<Seq<Seq<char>>, StoreError>
    decreases n,
{
    if n == 0 {
        Ok(Seq::empty())
    } else {
        match take_key(s) {
            Err(e) => Err(e),
            Ok((k, a)) => match take_keys(s.skip(a), (n - 1) as nat) {
                Err(e) => Err(e),
                Ok(rest) => Ok(seq![k] + rest),
            },
        }
    }
}

/// The `n` items at the start of `s`.
pub open spec fn take_items(s: Seq<u8>, n: nat) -> Result<Seq<ItemView>, StoreError>
    decreases n,
{
    if n == 0 {
        Ok(Seq::empty())
    } else {
        match take_item(s) {
            Err(e) => Err(e),
            Ok((t, a)) => match take_items(s.skip(a), (n - 1) as nat) {
                Err(e) => Err(e),
                Ok(rest) => Ok(seq![t] + rest),
            },
        }
    }
}

/// The request that follows an op code.
pub open spec fn parse_fields(op: u8, s: Seq<u8>) -> Result<CommandView, StoreError> {
    if op == 1 || op == 3 || op == 7 {
        match take_key(s) {
            Err(e) => Err(e),
            Ok((k, _)) => Ok(
                if op == 1 {
                    CommandView::Read(k)
                } else if op == 3 {
                    CommandView::Delete(k)
                } else {
                    CommandView::Exists(k)
                },
            ),
        }
    } else if op == 2 {
        match take_item(s) {
            Err(e) => Err(e),
            Ok((t, _)) => Ok(CommandView::Write(t.0, t.1, t.2)),
        }
    } else if op == 4 {
        Ok(CommandView::Compact)
    } else if op == 5 {
        Ok(CommandView::Stats)
    } else if op == 6 {
        Ok(CommandView::List)
    } else if op == 8 {
        Ok(CommandView::Ping)
    } else if op == 9 || op == 10 {
        if s.len() < 2 {
            Err(StoreError::UnexpectedEof)
        } else {
            let n = from_be_u16(s.subrange(0, 2)) as nat;
            if op == 9 {
                match take_keys(s.skip(2), n) {
                    Err(e) => Err(e),
                    Ok(ks) => Ok(CommandView::Mget(ks)),
                }
            } else {
                match take_items(s.skip(2), n) {
                    Err(e) => Err(e),
                    Ok(ts) => Ok(CommandView::Mset(ts)),
                }
            }
        }
    } else if op == 11 {
        match take_key(s) {
            Err(e) => Err(e),
            Ok((a, n)) => match take_key(s.skip(n)) {
                Err(e) => Err(e),
                Ok((b, _)) => Ok(CommandView::Range(a, b)),
            },
        }
    } else if op == 12 {
        match take_key(s) {
            Err(e) => Err(e),
            Ok((k, n)) => if s.len() < n + 4 {
                Err(StoreError::UnexpectedEof)
            } else {
                Ok(CommandView::Ttl(k, from_be_u32(s.subrange(n, n + 4))))
            },
        }
    } else {
        Ok(CommandView::Invalid(op))
    }
}

/// The request that a frame holds.
pub open spec fn parse_command_frame(buffer: Seq<u8>) -> Result<CommandView, StoreError> {
    if buffer.len() < FRAME_LEN_SIZE + OP_CODE_SIZE {
        Err(StoreError::UnexpectedEof)
    } else {
        parse_fields(buffer[4], buffer.skip(5))
    }
}

/// Whether the lengths of an item fit into their fields.
pub open spec fn item_fits(t: ItemView) -> bool {
    byte_len(t.0) <= u16::MAX && byte_len(t.1) <= u32::MAX
}

/// Whether a request can be sent: every length fits into its field.
pub open spec fn command_fits(c: CommandView) -> bool {
    match c {
        CommandView::Invalid(_) => false,
        CommandView::Read(k) => byte_len(k) <= u16::MAX,
        CommandView::Write(k, v, t) => item_fits((k, v, t)),
        CommandView::Delete(k) => byte_len(k) <= u16::MAX,
        CommandView::Exists(k) => byte_len(k) <= u16::MAX,
        CommandView::Mget(ks) => ks.len() <= u16::MAX && forall|i: int|
            0 <= i < ks.len() ==> byte_len(#[trigger] ks[i]) <= u16::MAX,
        CommandView::Mset(ts) => ts.len() <= u16::MAX && forall|i: int|
            0 <= i < ts.len() ==> item_fits(#[trigger] ts[i]),
        CommandView::Range(a, b) => byte_len(a) <= u16::MAX && byte_len(b) <= u16::MAX,
        CommandView::Ttl(k, _) => byte_len(k) <= u16::MAX,
        _ => true,
    }
}

proof fn lemma_take_key(k: Seq<char>, tail: Seq<u8>)
    requires
        byte_len(k) <= u16::MAX,
    ensures
        take_key(key_field(k) + tail) == Ok::<(Seq<char>, int), StoreError>(
            (k, 2 + byte_len(k) as int),
        ),
        key_field(k).len() == 2 + byte_len(k),
{
    reveal(key_field);
    reveal(take_key);
    let s = key_field(k) + tail;
    lemma_be_u16_roundtrip(byte_len(k) as u16);
    lemma_utf8_roundtrip(k);
    assert(s.subrange(0, 2) =~= be_u16(byte_len(k) as u16));
    assert(s.skip(2).take(byte_len(k) as int) =~= encode_utf8(k));
}

proof fn lemma_take_value(v: Seq<char>, tail: Seq<u8>)
    requires
        byte_len(v) <= u32::MAX,
    ensures
        take_value(value_field(v) + tail) == Ok::<(Seq<char>, int), StoreError>(
            (v, 4 + byte_len(v) as int),
        ),
        value_field(v).len() == 4 + byte_len(v),
{
    let s = value_field(v) + tail;
    lemma_be_u32_roundtrip(byte_len(v) as u32);
    lemma_utf8_roundtrip(v);
    assert(s.subrange(0, 4) =~= be_u32(byte_len(v) as u32));
    assert(s.skip(4).take(byte_len(v) as int) =~= encode_utf8(v));
}

proof fn lemma_take_item(t: ItemView, tail: Seq<u8>)
    requires
        item_fits(t),
    ensures
        take_item(item_field(t) + tail) == Ok::<(ItemView, int), StoreError>(
            (t, item_field(t).len() as int),
        ),
{
    reveal(item_field);
    reveal(take_item);
    let s = item_field(t) + tail;
    let (k, v, ttl) = t;
    let rest = match ttl {
        Some(secs) => be_u32(secs) + tail,
        None => tail,
    };
    assert(s.skip(1) =~= key_field(k) + (value_field(v) + rest));
    lemma_take_key(k, value_field(v) + rest);
    let a = 2 + byte_len(k) as int;
    assert(s.skip(1 + a) =~= value_field(v) + rest);
    lemma_take_value(v, rest);
    let p = 1 + a + 4 + byte_len(v) as int;
    lemma_low_flag(0);
    lemma_low_flag(1);
    match ttl {
        Some(secs) => {
            lemma_be_u32_roundtrip(secs);
            assert(s.subrange(p, p + 4) =~= be_u32(secs));
        },
        None => {},
    }
}

proof fn lemma_take_keys(ks: Seq<Seq<char>>, tail: Seq<u8>)
    requires
        forall|i: int| 0 <= i < ks.len() ==> byte_len(#[trigger] ks[i]) <= u16::MAX,
    ensures
        take_keys(key_fields(ks) + tail, ks.len()) == Ok::<Seq<Seq<char>>, StoreError>(ks),
    decreases ks.len(),
{
    if ks.len() == 0 {
        assert(ks =~= Seq::<Seq<char>>::empty());
    } else {
        let rest = key_fields(ks.drop_first()) + tail;
        assert(key_fields(ks) + tail =~= key_field(ks[0]) + rest);
        lemma_take_key(ks[0], rest);
        assert((key_field(ks[0]) + rest).skip(key_field(ks[0]).len() as int) =~= rest);
        lemma_take_keys(ks.drop_first(), tail);
        assert(ks =~= seq![ks[0]] + ks.drop_first());
    }
}

proof fn lemma_take_items(ts: Seq<ItemView>, tail: Seq<u8>)
    requires
        forall|i: int| 0 <= i < ts.len() ==> item_fits(#[trigger] ts[i]),
    ensures
        take_items(item_fields(ts) + tail, ts.len()) == Ok::<Seq<ItemView>, StoreError>(ts),
    decreases ts.len(),
{
    if ts.len() == 0 {
        assert(ts =~= Seq::<ItemView>::empty());
    } else {
        let rest = item_fields(ts.drop_first()) + tail;
        assert(item_fields(ts) + tail =~= item_field(ts[0]) + rest);
        lemma_take_item(ts[0], rest);
        assert((item_field(ts[0]) + rest).skip(item_field(ts[0]).len() as int) =~= rest);
        lemma_take_items(ts.drop_first(), tail);
        assert(ts =~= seq![ts[0]] + ts.drop_first());
    }
}

/// Every request that can be sent is decoded as it was encoded.
pub proof fn lemma_command_roundtrip(c: CommandView)
    requires
        command_fits(c),
    ensures
        parse_command_frame(command_frame(c)) == Ok::<CommandView, StoreError>(c),
{
    let frame = command_frame(c);
    let s = command_fields(c);
    let none = Seq::<u8>::empty();
    assert(frame.skip(5) =~= s);
    assert(frame[4] == command_code(c));
    match c {
        CommandView::Read(k) | CommandView::Delete(k) | CommandView::Exists(k) => {
            lemma_take_key(k, none);
            assert(key_field(k) + none =~= s);
        },
        CommandView::Write(k, v, t) => {
            lemma_take_item((k, v, t), none);
            assert(item_field((k, v, t)) + none =~= s);
        },
        CommandView::Mget(ks) => {
            lemma_be_u16_roundtrip(ks.len() as u16);
            assert(s.subrange(0, 2) =~= be_u16(ks.len() as u16));
            assert(s.skip(2) =~= key_fields(ks) + none);
            lemma_take_keys(ks, none);
        },
        CommandView::Mset(ts) => {
            lemma_be_u16_roundtrip(ts.len() as u16);
            assert(s.subrange(0, 2) =~= be_u16(ts.len() as u16));
            assert(s.skip(2) =~= item_fields(ts) + none);
            lemma_take_items(ts, none);
        },
        CommandView::Range(a, b) => {
            lemma_take_key(a, key_field(b));
            lemma_take_key(b, none);
            assert(s.skip(2 + byte_len(a) as int) =~= key_field(b) + none);
        },
        CommandView::Ttl(k, n) => {
            lemma_take_key(k, be_u32(n));
            lemma_be_u32_roundtrip(n);
            let p = 2 + byte_len(k) as int;
            assert(s.subrange(p, p + 4) =~= be_u32(n));
        },
        _ => {},
    }
}

/// The bytes of a key in a request: its length in two bytes, and the key.
pub proof fn lemma_key_bytes(k: Seq<char>)
    requires
        encode_utf8(k).len() <= u16::MAX,
    ensures
        key_field(k) == be_u16(encode_utf8(k).len() as u16) + encode_utf8(k),
{
    reveal(key_field);
}

/// The bytes of an item in a request: a 1 where seconds follow and else a 0, the key after
/// its length in two bytes, the value after its length in four, and the seconds in four.
pub proof fn lemma_item_bytes(k: Seq<char>, v: Seq<char>, ttl: Option<u32>)
    requires
        encode_utf8(k).len() <= u16::MAX,
        encode_utf8(v).len() <= u32::MAX,
    ensures
        item_field((k, v, ttl)) == seq![
            if ttl is Some {
                1u8
            } else {
                0u8
            },
        ] + be_u16(encode_utf8(k).len() as u16) + encode_utf8(k) + be_u32(
            encode_utf8(v).len() as u32,
        ) + encode_utf8(v) + (match ttl {
            Some(seconds) => be_u32(seconds),
            None => Seq::empty(),
        }),
{
    reveal(key_field);
    reveal(item_field);
    assert(item_field((k, v, ttl)) =~= seq![
        if ttl is Some {
            1u8
        } else {
            0u8
        },
    ] + be_u16(encode_utf8(k).len() as u16) + encode_utf8(k) + be_u32(encode_utf8(v).len() as u32)
        + encode_utf8(v) + (match ttl {
        Some(seconds) => be_u32(seconds),
        None => Seq::empty(),
    }));
}

/// Keys stand one after the other, and so do items.
pub proof fn lemma_lists_of_fields(
    ks: Seq<Seq<char>>,
    k: Seq<char>,
    ts: Seq<ItemView>,
    t: ItemView,
)
    ensures
        key_fields(Seq::empty()) == Seq::<u8>::empty(),
        key_fields(seq![k] + ks) == key_field(k) + key_fields(ks),
        item_fields(Seq::empty()) == Seq::<u8>::empty(),
        item_fields(seq![t] + ts) == item_field(t) + item_fields(ts),
{
    assert((seq![k] + ks).drop_first() =~= ks);
    assert((seq![t] + ts).drop_first() =~= ts);
}

/// The bytes of a request: the length of what follows in four bytes, the op code of the
/// request in one, and its fields. Reading a key has the op code 1, writing one 2, deleting
/// one 3; a compaction has 4, the counters 5, the list of keys 6, asking whether a key is
/// there 7, a ping 8, reading several keys 9, writing several 10, a range 11, and changing a
/// time of expiry 12.
pub proof fn lemma_request_bytes(c: CommandView)
    requires
        command_fits(c),
        command_fields(c).len() < u32::MAX,
    ensures
        ({
            let (op, fields) = match c {
                CommandView::Read(k) => (1u8, key_field(k)),
                CommandView::Write(k, v, ttl) => (2u8, item_field((k, v, ttl))),
                CommandView::Delete(k) => (3u8, key_field(k)),
                CommandView::Compact => (4u8, Seq::empty()),
                CommandView::Stats => (5u8, Seq::empty()),
                CommandView::List => (6u8, Seq::empty()),
                CommandView::Exists(k) => (7u8, key_field(k)),
                CommandView::Ping => (8u8, Seq::empty()),
                CommandView::Mget(ks) => (9u8, be_u16(ks.len() as u16) + key_fields(ks)),
                CommandView::Mset(ts) => (10u8, be_u16(ts.len() as u16) + item_fields(ts)),
                CommandView::Range(a, b) => (11u8, key_field(a) + key_field(b)),
                CommandView::Ttl(k, seconds) => (12u8, key_field(k) + be_u32(seconds)),
                CommandView::Invalid(n) => (n, Seq::empty()),
            };
            command_frame(c) == be_u32((1 + fields.len()) as u32) + seq![op] + fields
        }),
{
    assert(command_frame(c) =~= be_u32((1 + command_fields(c).len()) as u32) + seq![
        command_code(c),
    ] + command_fields(c));
}

/// A request can be sent where its keys have at most 65535 bytes and its values at most
/// 4294967295, and there are at most 65535 of them.
pub proof fn lemma_requests_that_fit(
    k: Seq<char>,
    v: Seq<char>,
    ttl: Option<u32>,
    ks: Seq<Seq<char>>,
    ts: Seq<ItemView>,
    n: u32,
)
    ensures
        ({
            let small = encode_utf8(k).len() <= 65_535;
            &&& command_fits(CommandView::Read(k)) <==> small
            &&& command_fits(CommandView::Delete(k)) <==> small
            &&& command_fits(CommandView::Exists(k)) <==> small
            &&& command_fits(CommandView::Ttl(k, n)) <==> small
            &&& command_fits(CommandView::Write(k, v, ttl)) <==> small && encode_utf8(v).len()
                <= 4_294_967_295
            &&& command_fits(CommandView::Range(k, v)) <==> small && encode_utf8(v).len() <= 65_535
            &&& command_fits(CommandView::Mget(ks)) <==> ks.len() <= 65_535 && forall|i: int|
                0 <= i < ks.len() ==> encode_utf8(#[trigger] ks[i]).len() <= 65_535
            &&& command_fits(CommandView::Mset(ts)) <==> ts.len() <= 65_535 && forall|i: int|
                0 <= i < ts.len() ==> encode_utf8((#[trigger] ts[i]).0).len() <= 65_535
                    && encode_utf8(ts[i].1).len() <= 4_294_967_295
            &&& command_fits(CommandView::Compact) && command_fits(CommandView::Stats)
            &&& command_fits(CommandView::List) && command_fits(CommandView::Ping)
        }),
{
    assert forall|i: int| 0 <= i < ts.len() implies item_fits(#[trigger] ts[i]) == (encode_utf8(
        ts[i].0,
    ).len() <= 65_535 && encode_utf8(ts[i].1).len() <= 4_294_967_295) by {}
    if command_fits(CommandView::Mget(ks)) {
        assert forall|i: int| 0 <= i < ks.len() implies encode_utf8(#[trigger] ks[i]).len()
            <= 65_535 by {
            assert(byte_len(ks[i]) <= u16::MAX);
        }
    }
}

/// A frame that is too short for an op code holds no request. One with an op code that is
/// none of the known ones holds that code. One with the op code of a key, and less than the
/// key that it announces, is refused.
pub proof fn lemma_request_refused(buffer: Seq<u8>)
    ensures
        buffer.len() < 5 ==> parse_command_frame(buffer) == Err::<CommandView, StoreError>(
            StoreError::UnexpectedEof,
        ),
        buffer.len() >= 5 && (buffer[4] == 0 || buffer[4] > 12) ==> parse_command_frame(buffer)
            == Ok::<CommandView, StoreError>(CommandView::Invalid(buffer[4])),
        buffer.len() >= 5 && (buffer[4] == 1 || buffer[4] == 3 || buffer[4] == 7) && (buffer.len()
            < 7 || buffer.len() < 7 + from_be_u16(buffer.subrange(5, 7)))
            ==> parse_command_frame(buffer) == Err::<CommandView, StoreError>(
            StoreError::UnexpectedEof,
        ),
{
    reveal(take_key);
    if buffer.len() >= 7 {
        assert(buffer.skip(5).subrange(0, 2) =~= buffer.subrange(5, 7));
    }
}

/// Whether none of the strings of a request takes more than `n` bytes, key and value
/// of an item together.
pub open spec fn within(c: CommandView, n: nat) -> bool {
    match c {
        CommandView::Read(k) | CommandView::Delete(k) | CommandView::Exists(k) => byte_len(k) <= n,
        CommandView::Ttl(k, _) => byte_len(k) <= n,
        CommandView::Write(k, v, _) => byte_len(k) + byte_len(v) <= n,
        CommandView::Range(a, b) => byte_len(a) + byte_len(b) <= n,
        CommandView::Mget(ks) => forall|i: int|
            0 <= i < ks.len() ==> byte_len(#[trigger] ks[i]) <= n,
        CommandView::Mset(ts) => forall|i: int|
            0 <= i < ts.len() ==> byte_len((#[trigger] ts[i]).0) + byte_len(ts[i].1) <= n,
        _ => true,
    }
}

proof fn lemma_string_within(s: Seq<u8>, n: int)
    requires
        n >= 0,
    ensures
        take_string(s, n) matches Ok(t) ==> byte_len(t) == n && n <= s.len(),
{
    if s.len() >= n && valid_utf8(s.take(n)) {
        lemma_utf8_bytes_roundtrip(s.take(n));
    }
}

proof fn lemma_key_within(s: Seq<u8>)
    ensures
        take_key(s) matches Ok((k, a)) ==> a == 2 + byte_len(k) && a <= s.len(),
{
    reveal(take_key);
    if s.len() >= KEY_LEN_SIZE {
        lemma_string_within(s.skip(2), from_be_u16(s.subrange(0, 2)) as int);
    }
}

proof fn lemma_item_within(s: Seq<u8>)
    ensures
        take_item(s) matches Ok((t, a)) ==> byte_len(t.0) + byte_len(t.1) <= a && a <= s.len(),
{
    reveal(take_item);
    if s.len() >= 1 {
        lemma_key_within(s.skip(1));
        if let Ok((k, a)) = take_key(s.skip(1)) {
            let rest = s.skip(1 + a);
            if rest.len() >= VALUE_LEN_SIZE {
                lemma_string_within(rest.skip(4), from_be_u32(rest.subrange(0, 4)) as int);
            }
        }
    }
}

proof fn lemma_keys_within(s: Seq<u8>, n: nat)
    ensures
        take_keys(s, n) matches Ok(ks) ==> forall|i: int|
            0 <= i < ks.len() ==> byte_len(#[trigger] ks[i]) <= s.len(),
    decreases n,
{
    if n > 0 {
        lemma_key_within(s);
        if let Ok((k, a)) = take_key(s) {
            lemma_keys_within(s.skip(a), (n - 1) as nat);
        }
    }
}

proof fn lemma_items_within(s: Seq<u8>, n: nat)
    ensures
        take_items(s, n) matches Ok(ts) ==> forall|i: int|
            0 <= i < ts.len() ==> byte_len((#[trigger] ts[i]).0) + byte_len(ts[i].1) <= s.len(),
    decreases n,
{
    if n > 0 {
        lemma_item_within(s);
        if let Ok((t, a)) = take_item(s) {
            lemma_items_within(s.skip(a), (n - 1) as nat);
        }
    }
}

/// What is read out of a frame is no larger than the frame.
pub proof fn lemma_parsed_within(buffer: Seq<u8>)
    ensures
        parse_command_frame(buffer) matches Ok(c) ==> within(c, buffer.len()),
{
    if buffer.len() >= FRAME_LEN_SIZE + OP_CODE_SIZE {
        let s = buffer.skip(5);
        lemma_key_within(s);
        lemma_item_within(s);
        if let Ok((_, n)) = take_key(s) {
            lemma_key_within(s.skip(n));
        }
        if s.len() >= 2 {
            let n = from_be_u16(s.subrange(0, 2)) as nat;
            lemma_keys_within(s.skip(2), n);
            lemma_items_within(s.skip(2), n);
        }
    }
}

/// The strings of a response, one after the other.
pub open spec fn value_fields(vs: Seq<Seq<char>>) -> Seq<u8>
    decreases vs.len(),
{
    if vs.len() == 0 {
        Seq::empty()
    } else {
        value_field(vs[0]) + value_fields(vs.drop_first())
    }
}

/// The frame of a response.
pub open spec fn response_frame(status: ResponseStatus, payload: Seq<Seq<char>>) -> Seq<u8> {
    framed(seq![status.spec_code()] + value_fields(payload))
}

/// The strings from `pos` up to the end that the frame gives.
pub open spec fn take_values(buffer: Seq<u8>, pos: int, end: int) -> Result<
    Seq<Seq<char>>,
    StoreError,
>
    decreases
        (if pos < end {
            end - pos
        } else {
            0
        }),
{
    if pos >= end {
        Ok(Seq::empty())
    } else {
        match take_value(buffer.skip(pos)) {
            Err(e) => Err(e),
            Ok((v, n)) => if n > 0 {
                match take_values(buffer, pos + n, end) {
                    Err(e) => Err(e),
                    Ok(rest) => Ok(seq![v] + rest),
                }
            } else {
                Ok(Seq::empty())
            },
        }
    }
}

/// The status and the strings that a response frame holds.
pub open spec fn parse_response_frame(buffer: Seq<u8>) -> Result<
    (u8, Seq<Seq<char>>),
    StoreError,
> {
    if buffer.len() < FRAME_LEN_SIZE + OP_CODE_SIZE {
        Err(StoreError::UnexpectedEof)
    } else {
        let end = from_be_u32(buffer.subrange(0, 4)) as int + 4;
        match take_values(buffer, 5, end) {
            Err(e) => Err(e),
            Ok(vs) => if buffer[4] > 3 {
                Err(StoreError::UnknownStatus(buffer[4]))
            } else {
                Ok((buffer[4], vs))
            },
        }
    }
}

/// The bytes of a response: the length of what follows in four bytes, a status, and the
/// strings, each after its length in four bytes. The status is 0 where all went well, 1 where
/// something was not found, 2 for an error and 3 where there was nothing to do.
pub proof fn lemma_response_bytes(
    status: ResponseStatus,
    rows: Seq<Seq<char>>,
    row: Seq<char>,
)
    requires
        value_fields(rows).len() < u32::MAX,
        encode_utf8(row).len() <= u32::MAX,
    ensures
        response_frame(status, rows) == be_u32((1 + value_fields(rows).len()) as u32) + seq![
            match status {
                ResponseStatus::Okay => 0u8,
                ResponseStatus::NotFound => 1u8,
                ResponseStatus::Error => 2u8,
                ResponseStatus::Noop => 3u8,
            },
        ] + value_fields(rows),
        value_fields(Seq::empty()) == Seq::<u8>::empty(),
        value_fields(seq![row] + rows) == be_u32(encode_utf8(row).len() as u32) + encode_utf8(row)
            + value_fields(rows),
{
    assert((seq![row] + rows).drop_first() =~= rows);
    assert(response_frame(status, rows) =~= be_u32((1 + value_fields(rows).len()) as u32) + seq![
        status.spec_code(),
    ] + value_fields(rows));
}

/// A response is refused where it is too short for a status, or where it has one that is
/// unknown.
pub proof fn lemma_response_refused(buffer: Seq<u8>)
    ensures
        buffer.len() < 5 ==> parse_response_frame(buffer) == Err::<
            (u8, Seq<Seq<char>>),
            StoreError,
        >(StoreError::UnexpectedEof),
        buffer.len() >= 5 && buffer[4] > 3 ==> parse_response_frame(buffer) is Err,
        parse_response_frame(buffer) matches Ok((status, _)) ==> status == buffer[4],
{
}

/// The op codes and the states of an answer.
pub proof fn lemma_codes(op: OpCode, status: ResponseStatus)
    ensures
        op.spec_code() == match op {
            OpCode::Read => 1u8,
            OpCode::Write => 2,
            OpCode::Delete => 3,
            OpCode::Compact => 4,
            OpCode::Stats => 5,
            OpCode::List => 6,
            OpCode::Exists => 7,
            OpCode::Ping => 8,
            OpCode::Mget => 9,
            OpCode::Mset => 10,
            OpCode::Range => 11,
            OpCode::Ttl => 12,
        },
        status.spec_code() == match status {
            ResponseStatus::Okay => 0u8,
            ResponseStatus::NotFound => 1,
            ResponseStatus::Error => 2,
            ResponseStatus::Noop => 3,
        },
{
}

proof fn lemma_take_values(buffer: Seq<u8>, pos: int, vs: Seq<Seq<char>>)
    requires
        0 <= pos <= buffer.len(),
        buffer.skip(pos) == value_fields(vs),
        forall|i: int| 0 <= i < vs.len() ==> byte_len(#[trigger] vs[i]) <= u32::MAX,
    ensures
        take_values(buffer, pos, buffer.len() as int) == Ok::<Seq<Seq<char>>, StoreError>(vs),
    decreases vs.len(),
{
    if vs.len() == 0 {
        assert(buffer.skip(pos).len() == 0);
        assert(vs =~= Seq::<Seq<char>>::empty());
    } else {
        let rest = value_fields(vs.drop_first());
        lemma_take_value(vs[0], rest);
        let n = 4 + byte_len(vs[0]) as int;
        assert(buffer.skip(pos).len() == n + rest.len());
        assert(buffer.skip(pos + n) =~= buffer.skip(pos).skip(n));
        assert((value_field(vs[0]) + rest).skip(n) =~= rest);
        lemma_take_values(buffer, pos + n, vs.drop_first());
        assert(vs =~= seq![vs[0]] + vs.drop_first());
    }
}

/// A response is decoded as it was encoded, where its length fits into a frame.
pub proof fn lemma_response_roundtrip(status: ResponseStatus, payload: Seq<Seq<char>>)
    requires
        1 + value_fields(payload).len() <= u32::MAX,
        forall|i: int| 0 <= i < payload.len() ==> byte_len(#[trigger] payload[i]) <= u32::MAX,
    ensures
        parse_response_frame(response_frame(status, payload)) == Ok::<
            (u8, Seq<Seq<char>>),
            StoreError,
        >((status.spec_code(), payload)),
{
    let frame = response_frame(status, payload);
    let n = (1 + value_fields(payload).len()) as u32;
    lemma_be_u32_roundtrip(n);
    assert(frame.subrange(0, 4) =~= be_u32(n));
    assert(frame.skip(5) =~= value_fields(payload));
    lemma_take_values(frame, 5, payload);
}

fn read_string(data: &[u8], pos: usize, len: usize) -> (r: Result<String, StoreError>)
    requires
        pos <= data@.len(),
    ensures
        match r {
            Ok(s) => take_string(data@.skip(pos as int), len as int) == Ok::<
                Seq<char>,
                StoreError,
            >(s@) && pos + len <= data@.len(),
            Err(e) => take_string(data@.skip(pos as int), len as int) == Err::<
                Seq<char>,
                StoreError,
            >(e),
        },
{
    if data.len() - pos < len {
        return Err(StoreError::UnexpectedEof);
    }
    let buf = copy_range(data, pos, pos + len);
    assert(buf@ =~= data@.skip(pos as int).take(len as int));
    match string_from_utf8(buf) {
        Some(s) => Ok(s),
        None => Err(StoreError::InvalidUtf8),
    }
}

fn read_key(data: &[u8], pos: usize) -> (r: Result<(String, usize), StoreError>)
    requires
        pos <= data@.len(),
    ensures
        match r {
            Ok((k, next)) => pos < next <= data@.len() && take_key(data@.skip(pos as int)) == Ok::<
                (Seq<char>, int),
                StoreError,
            >((k@, next - pos)),
            Err(e) => take_key(data@.skip(pos as int)) == Err::<(Seq<char>, int), StoreError>(e),
        },
{
    reveal(take_key);
    let ghost s = data@.skip(pos as int);
    if data.len() - pos < KEY_LEN_SIZE {
        return Err(StoreError::UnexpectedEof);
    }
    assert(s.subrange(0, 2) =~= data@.subrange(pos as int, pos + 2));
    assert(s.skip(2) =~= data@.skip(pos + 2));
    let n = read_u16(data, pos) as usize;
    match read_string(data, pos + KEY_LEN_SIZE, n) {
        Ok(k) => Ok((k, pos + KEY_LEN_SIZE + n)),
        Err(e) => Err(e),
    }
}

fn read_value(data: &[u8], pos: usize) -> (r: Result<(String, usize), StoreError>)
    requires
        pos <= data@.len(),
    ensures
        match r {
            Ok((v, next)) => pos < next <= data@.len() && take_value(data@.skip(pos as int))
                == Ok::<(Seq<char>, int), StoreError>((v@, next - pos)),
            Err(e) => take_value(data@.skip(pos as int)) == Err::<(Seq<char>, int), StoreError>(e),
        },
{
    let ghost s = data@.skip(pos as int);
    if data.len() - pos < VALUE_LEN_SIZE {
        return Err(StoreError::UnexpectedEof);
    }
    assert(s.subrange(0, 4) =~= data@.subrange(pos as int, pos + 4));
    assert(s.skip(4) =~= data@.skip(pos + 4));
    let n = read_u32(data, pos) as usize;
    match read_string(data, pos + VALUE_LEN_SIZE, n) {
        Ok(v) => Ok((v, pos + VALUE_LEN_SIZE + n)),
        Err(e) => Err(e),
    }
}

fn read_item(data: &[u8], pos: usize) -> (r: Result<
    ((String, String, Option<u32>), usize),
    StoreError,
>)
    requires
        pos <= data@.len(),
    ensures
        match r {
            Ok((t, next)) => pos < next <= data@.len() && take_item(data@.skip(pos as int)) == Ok::<
                (ItemView, int),
                StoreError,
            >(((t.0@, t.1@, t.2), next - pos)),
            Err(e) => take_item(data@.skip(pos as int)) == Err::<(ItemView, int), StoreError>(e),
        },
{
    reveal(take_item);
    let ghost s = data@.skip(pos as int);
    if data.len() - pos < 1 {
        return Err(StoreError::UnexpectedEof);
    }
    let flags: u8 = data[pos];
    assert(s[0] == flags);
    assert(s.skip(1) =~= data@.skip(pos + 1));
    let (k, p) = match read_key(data, pos + 1) {
        Ok(x) => x,
        Err(e) => {
            return Err(e);
        },
    };
    assert(s.skip(p - pos) =~= data@.skip(p as int));
    let (v, q) = match read_value(data, p) {
        Ok(x) => x,
        Err(e) => {
            return Err(e);
        },
    };
    if flags & FLAG_HAS_TTL == 0 {
        return Ok(((k, v, None), q));
    }
    if data.len() - q < 4 {
        return Err(StoreError::UnexpectedEof);
    }
    assert(s.subrange(q - pos, q - pos + 4) =~= data@.subrange(q as int, q + 4));
    let secs = read_u32(data, q);
    Ok(((k, v, Some(secs)), q + 4))
}

fn read_keys(data: &[u8], start: usize, n: usize) -> (r: Result<Vec<String>, StoreError>)
    requires
        start <= data@.len(),
    ensures
        match r {
            Ok(ks) => take_keys(data@.skip(start as int), n as nat) == Ok::<
                Seq<Seq<char>>,
                StoreError,
            >(string_views(ks@)),
            Err(e) => take_keys(data@.skip(start as int), n as nat) == Err::<
                Seq<Seq<char>>,
                StoreError,
            >(e),
        },
{
    let mut ks: Vec<String> = Vec::new();
    let mut pos: usize = start;
    let ghost whole = take_keys(data@.skip(start as int), n as nat);
    proof {
        if let Ok(all) = whole {
            assert(string_views(ks@) + all =~= all);
        }
    }
    for i in 0..n
        invariant
            pos <= data@.len(),
            whole == take_keys(data@.skip(start as int), n as nat),
            match take_keys(data@.skip(pos as int), (n - i) as nat) {
                Ok(rest) => whole == Ok::<Seq<Seq<char>>, StoreError>(string_views(ks@) + rest),
                Err(e) => whole == Err::<Seq<Seq<char>>, StoreError>(e),
            },
    {
        let (k, next) = match read_key(data, pos) {
            Ok(x) => x,
            Err(e) => {
                return Err(e);
            },
        };
        assert(data@.skip(pos as int).skip(next - pos) =~= data@.skip(next as int));
        let ghost before = string_views(ks@);
        let ghost kv = k@;
        ks.push(k);
        assert(string_views(ks@) =~= before.push(kv));
        proof {
            if let Ok(rest) = take_keys(data@.skip(next as int), (n - i - 1) as nat) {
                assert(before + (seq![kv] + rest) =~= before.push(kv) + rest);
            }
        }
        pos = next;
    }
    assert(string_views(ks@) + Seq::<Seq<char>>::empty() =~= string_views(ks@));
    Ok(ks)
}

fn read_items(data: &[u8], start: usize, n: usize) -> (r: Result<
    Vec<(String, String, Option<u32>)>,
    StoreError,
>)
    requires
        start <= data@.len(),
    ensures
        match r {
            Ok(ts) => take_items(data@.skip(start as int), n as nat) == Ok::<
                Seq<ItemView>,
                StoreError,
            >(item_views(ts@)),
            Err(e) => take_items(data@.skip(start as int), n as nat) == Err::<
                Seq<ItemView>,
                StoreError,
            >(e),
        },
{
    let mut ts: Vec<(String, String, Option<u32>)> = Vec::new();
    let mut pos: usize = start;
    let ghost whole = take_items(data@.skip(start as int), n as nat);
    proof {
        if let Ok(all) = whole {
            assert(item_views(ts@) + all =~= all);
        }
    }
    for i in 0..n
        invariant
            pos <= data@.len(),
            whole == take_items(data@.skip(start as int), n as nat),
            match take_items(data@.skip(pos as int), (n - i) as nat) {
                Ok(rest) => whole == Ok::<Seq<ItemView>, StoreError>(item_views(ts@) + rest),
                Err(e) => whole == Err::<Seq<ItemView>, StoreError>(e),
            },
    {
        let (t, next) = match read_item(data, pos) {
            Ok(x) => x,
            Err(e) => {
                return Err(e);
            },
        };
        assert(data@.skip(pos as int).skip(next - pos) =~= data@.skip(next as int));
        let ghost before = item_views(ts@);
        let ghost tv = (t.0@, t.1@, t.2);
        ts.push(t);
        assert(item_views(ts@) =~= before.push(tv));
        proof {
            if let Ok(rest) = take_items(data@.skip(next as int), (n - i - 1) as nat) {
                assert(before + (seq![tv] + rest) =~= before.push(tv) + rest);
            }
        }
        pos = next;
    }
    assert(item_views(ts@) + Seq::<ItemView>::empty() =~= item_views(ts@));
    Ok(ts)
}

/// Decodes the frame of a request. An unknown op code gives an invalid command,
/// which is no error.
pub fn decode_input_frame(buffer: &[u8]) -> (r: Result<Command, StoreError>)
    ensures
        match r {
            Ok(c) => parse_command_frame(buffer@) == Ok::<CommandView, StoreError>(c@),
            Err(e) => parse_command_frame(buffer@) == Err::<CommandView, StoreError>(e),
        },
{
    if buffer.len() < FRAME_LEN_SIZE + OP_CODE_SIZE {
        return Err(StoreError::UnexpectedEof);
    }
    let code: u8 = buffer[4];
    let ghost s = buffer@.skip(5);
    let op = match OpCode::try_from(code) {
        Ok(op) => op,
        Err(_) => {
            return Ok(Command::Invalid(code));
        },
    };
    match op {
        OpCode::Read => match read_key(buffer, 5) {
            Ok((k, _)) => Ok(Command::Read(k)),
            Err(e) => Err(e),
        },
        OpCode::Write => match read_item(buffer, 5) {
            Ok((t, _)) => Ok(Command::Write(t.0, t.1, t.2)),
            Err(e) => Err(e),
        },
        OpCode::Delete => match read_key(buffer, 5) {
            Ok((k, _)) => Ok(Command::Delete(k)),
            Err(e) => Err(e),
        },
        OpCode::Compact => Ok(Command::Compact),
        OpCode::Stats => Ok(Command::Stats),
        OpCode::List => Ok(Command::List),
        OpCode::Exists => match read_key(buffer, 5) {
            Ok((k, _)) => Ok(Command::Exists(k)),
            Err(e) => Err(e),
        },
        OpCode::Ping => Ok(Command::Ping),
        OpCode::Mget => {
            if buffer.len() < 7 {
                return Err(StoreError::UnexpectedEof);
            }
            assert(s.subrange(0, 2) =~= buffer@.subrange(5, 7));
            assert(s.skip(2) =~= buffer@.skip(7));
            match read_keys(buffer, 7, read_u16(buffer, 5) as usize) {
                Ok(ks) => Ok(Command::Mget(ks)),
                Err(e) => Err(e),
            }
        },
        OpCode::Mset => {
            if buffer.len() < 7 {
                return Err(StoreError::UnexpectedEof);
            }
            assert(s.subrange(0, 2) =~= buffer@.subrange(5, 7));
            assert(s.skip(2) =~= buffer@.skip(7));
            match read_items(buffer, 7, read_u16(buffer, 5) as usize) {
                Ok(ts) => Ok(Command::Mset(ts)),
                Err(e) => Err(e),
            }
        },
        OpCode::Range => {
            let (a, p) = match read_key(buffer, 5) {
                Ok(x) => x,
                Err(e) => {
                    return Err(e);
                },
            };
            assert(s.skip(p - 5) =~= buffer@.skip(p as int));
            match read_key(buffer, p) {
                Ok((b, _)) => Ok(Command::Range(a, b)),
                Err(e) => Err(e),
            }
        },
        OpCode::Ttl => {
            let (k, p) = match read_key(buffer, 5) {
                Ok(x) => x,
                Err(e) => {
                    return Err(e);
                },
            };
            if buffer.len() - p < 4 {
                return Err(StoreError::UnexpectedEof);
            }
            assert(s.subrange(p - 5, p - 5 + 4) =~= buffer@.subrange(p as int, p + 4));
            Ok(Command::Ttl(k, read_u32(buffer, p)))
        },
    }
}

/// Decodes the frame of a response.
pub fn decode_response_frame(buffer: &[u8]) -> (r: Result<DecodedResponse, StoreError>)
    ensures
        match r {
            Ok(d) => parse_response_frame(buffer@) == Ok::<(u8, Seq<Seq<char>>), StoreError>(
                (d.status.spec_code(), string_views(d.payload@)),
            ),
            Err(e) => parse_response_frame(buffer@) == Err::<(u8, Seq<Seq<char>>), StoreError>(e),
        },
{
    if buffer.len() < FRAME_LEN_SIZE + OP_CODE_SIZE {
        return Err(StoreError::UnexpectedEof);
    }
    let total_len = read_u32(buffer, 0);
    let end: u64 = total_len as u64 + FRAME_LEN_SIZE as u64;
    let mut payload: Vec<String> = Vec::new();
    let mut pos: usize = 5;
    let ghost whole = take_values(buffer@, 5, end as int);
    proof {
        if let Ok(all) = whole {
            assert(string_views(payload@) + all =~= all);
        }
    }
    while (pos as u64) < end
        invariant
            5 <= pos <= buffer@.len(),
            end == from_be_u32(buffer@.subrange(0, 4)) as int + 4,
            whole == take_values(buffer@, 5, end as int),
            match take_values(buffer@, pos as int, end as int) {
                Ok(rest) => whole == Ok::<Seq<Seq<char>>, StoreError>(
                    string_views(payload@) + rest,
                ),
                Err(e) => whole == Err::<Seq<Seq<char>>, StoreError>(e),
            },
        decreases buffer@.len() - pos,
    {
        let (v, next) = match read_value(buffer, pos) {
            Ok(x) => x,
            Err(e) => {
                return Err(e);
            },
        };
        let ghost before = string_views(payload@);
        let ghost vv = v@;
        payload.push(v);
        assert(string_views(payload@) =~= before.push(vv));
        proof {
            if let Ok(rest) = take_values(buffer@, next as int, end as int) {
                assert(before + (seq![vv] + rest) =~= before.push(vv) + rest);
            }
        }
        pos = next;
    }
    assert(string_views(payload@) + Seq::<Seq<char>>::empty() =~= string_views(payload@));
    match ResponseStatus::try_from(buffer[4]) {
        Ok(status) => Ok(DecodedResponse { payload, status }),
        Err(e) => Err(e),
    }
}

fn push_key(out: &mut Vec<u8>, k: &str)
    ensures
        final(out)@ == old(out)@ + key_field(k@),
{
    reveal(key_field);
    let bytes = k.as_bytes();
    push_u16(out, #[verifier::truncate] (bytes.len() as u16));
    push_all(out, bytes);
    assert(out@ =~= old(out)@ + key_field(k@));
}

fn push_value(out: &mut Vec<u8>, v: &str)
    ensures
        final(out)@ == old(out)@ + value_field(v@),
{
    let bytes = v.as_bytes();
    push_u32(out, #[verifier::truncate] (bytes.len() as u32));
    push_all(out, bytes);
    assert(out@ =~= old(out)@ + value_field(v@));
}

fn push_item(out: &mut Vec<u8>, k: &str, v: &str, ttl: Option<u32>)
    ensures
        final(out)@ == old(out)@ + item_field((k@, v@, ttl)),
{
    reveal(item_field);
    match ttl {
        Some(secs) => {
            out.push(FLAG_HAS_TTL);
            push_key(out, k);
            push_value(out, v);
            push_u32(out, secs);
        },
        None => {
            out.push(0);
            push_key(out, k);
            push_value(out, v);
        },
    }
    assert(out@ =~= old(out)@ + item_field((k@, v@, ttl)));
}

fn frame(payload: Vec<u8>) -> (out: Vec<u8>)
    ensures
        out@ == framed(payload@),
{
    let mut out: Vec<u8> = Vec::new();
    push_u32(&mut out, #[verifier::truncate] (payload.len() as u32));
    push_all(&mut out, payload.as_slice());
    assert(out@ =~= framed(payload@));
    out
}

/// Encodes a response.
pub fn encode_frame(status: ResponseStatus, responses: &[String]) -> (out: Vec<u8>)
    ensures
        out@ == response_frame(status, string_views(responses@)),
{
    let mut payload: Vec<u8> = Vec::new();
    payload.push(status.code());
    let ghost vs = string_views(responses@);
    let ghost head = seq![status.spec_code()];
    assert(vs.skip(0) =~= vs);
    assert(payload@ =~= head);
    for i in 0..responses.len()
        invariant
            vs == string_views(responses@),
            payload@ + value_fields(vs.skip(i as int)) == head + value_fields(vs),
    {
        let ghost before = payload@;
        assert(vs.skip(i as int)[0] == responses@[i as int]@);
        assert(vs.skip(i as int).drop_first() =~= vs.skip(i + 1));
        push_value(&mut payload, responses[i].as_str());
        assert(payload@ + value_fields(vs.skip(i + 1)) =~= before + value_fields(
            vs.skip(i as int),
        ));
    }
    assert(vs.skip(responses@.len() as int) =~= Seq::<Seq<char>>::empty());
    assert(payload@ =~= payload@ + value_fields(vs.skip(responses@.len() as int)));
    frame(payload)
}

/// Encodes a request.
pub fn encode_command(command: Command) -> (out: Vec<u8>)
    requires
        !(command is Invalid),
    ensures
        out@ == command_frame(command@),
{
    let mut payload: Vec<u8> = Vec::new();
    let ghost c = command@;
    match command {
        Command::Read(key) => {
            payload.push(OpCode::Read.code());
            push_key(&mut payload, key.as_str());
        },
        Command::Write(key, value, ttl) => {
            payload.push(OpCode::Write.code());
            push_item(&mut payload, key.as_str(), value.as_str(), ttl);
        },
        Command::Delete(key) => {
            payload.push(OpCode::Delete.code());
            push_key(&mut payload, key.as_str());
        },
        Command::Compact => {
            payload.push(OpCode::Compact.code());
        },
        Command::Stats => {
            payload.push(OpCode::Stats.code());
        },
        Command::List => {
            payload.push(OpCode::List.code());
        },
        Command::Exists(key) => {
            payload.push(OpCode::Exists.code());
            push_key(&mut payload, key.as_str());
        },
        Command::Ping => {
            payload.push(OpCode::Ping.code());
        },
        Command::Mget(keys) => {
            payload.push(OpCode::Mget.code());
            push_u16(&mut payload, #[verifier::truncate] (keys.len() as u16));
            let ghost ks = string_views(keys@);
            let ghost head = payload@;
            assert(ks.skip(0) =~= ks);
            for i in 0..keys.len()
                invariant
                    ks == string_views(keys@),
                    payload@ + key_fields(ks.skip(i as int)) == head + key_fields(ks),
            {
                let ghost before = payload@;
                assert(ks.skip(i as int)[0] == keys@[i as int]@);
                assert(ks.skip(i as int).drop_first() =~= ks.skip(i + 1));
                push_key(&mut payload, keys[i].as_str());
                assert(payload@ + key_fields(ks.skip(i + 1)) =~= before + key_fields(
                    ks.skip(i as int),
                ));
            }
            assert(ks.skip(keys@.len() as int) =~= Seq::<Seq<char>>::empty());
            assert(payload@ =~= payload@ + key_fields(ks.skip(keys@.len() as int)));
        },
        Command::Mset(items) => {
            payload.push(OpCode::Mset.code());
            push_u16(&mut payload, #[verifier::truncate] (items.len() as u16));
            let ghost ts = item_views(items@);
            let ghost head = payload@;
            assert(ts.skip(0) =~= ts);
            for i in 0..items.len()
                invariant
                    ts == item_views(items@),
                    payload@ + item_fields(ts.skip(i as int)) == head + item_fields(ts),
            {
                let ghost before = payload@;
                let t = &items[i];
                assert(ts.skip(i as int)[0] == (t.0@, t.1@, t.2));
                assert(ts.skip(i as int).drop_first() =~= ts.skip(i + 1));
                push_item(&mut payload, t.0.as_str(), t.1.as_str(), t.2);
                assert(payload@ + item_fields(ts.skip(i + 1)) =~= before + item_fields(
                    ts.skip(i as int),
                ));
            }
            assert(ts.skip(items@.len() as int) =~= Seq::<ItemView>::empty());
            assert(payload@ =~= payload@ + item_fields(ts.skip(items@.len() as int)));
        },
        Command::Range(start, end) => {
            payload.push(OpCode::Range.code());
            push_key(&mut payload, start.as_str());
            push_key(&mut payload, end.as_str());
        },
        Command::Ttl(key, secs) => {
            payload.push(OpCode::Ttl.code());
            push_key(&mut payload, key.as_str());
            push_u32(&mut payload, secs);
        },
        Command::Invalid(_) => {},
    }
    assert(payload@ =~= seq![command_code(c)] + command_fields(c));
    frame(payload)
}

/// The lowest flag of a byte is set where the byte is odd.
proof fn lemma_low_flag(b: u8)
    ensures
        b & 1 == 0 <==> b % 2 == 0,
{
    assert(b & 1 == 0 <==> b % 2 == 0) by (bit_vector);
}

/// A key is read from its length in two bytes and as many bytes after them as that says,
/// which have to be UTF-8.
pub proof fn lemma_key_read(s: Seq<u8>)
    requires
        s.len() >= 2,
    ensures
        ({
            let end = 2 + s[0] * 0x100 + s[1];
            match take_key(s) {
                Ok((k, n)) => n == end && end <= s.len() && encode_utf8(k) == s.subrange(2, end),
                Err(StoreError::UnexpectedEof) => s.len() < end,
                Err(e) => e == StoreError::InvalidUtf8 && end <= s.len() && !valid_utf8(
                    s.subrange(2, end),
                ),
            }
        }),
{
    reveal(take_key);
    lemma_be_u16_value(s.subrange(0, 2), 0);
    let n = from_be_u16(s.subrange(0, 2)) as int;
    if 2 + n <= s.len() {
        assert(s.skip(2).take(n) =~= s.subrange(2, 2 + n));
        if valid_utf8(s.subrange(2, 2 + n)) {
            lemma_utf8_bytes_roundtrip(s.subrange(2, 2 + n));
        }
    }
}

/// A value is read from its length in four bytes and as many bytes after them as that says,
/// which have to be UTF-8.
pub proof fn lemma_value_read(s: Seq<u8>)
    requires
        s.len() >= 4,
    ensures
        ({
            let end = 4 + s[0] * 0x100_0000 + s[1] * 0x1_0000 + s[2] * 0x100 + s[3];
            match take_value(s) {
                Ok((v, n)) => n == end && end <= s.len() && encode_utf8(v) == s.subrange(4, end),
                Err(StoreError::UnexpectedEof) => s.len() < end,
                Err(e) => e == StoreError::InvalidUtf8 && end <= s.len() && !valid_utf8(
                    s.subrange(4, end),
                ),
            }
        }),
{
    lemma_be_u32_value(s.subrange(0, 4), 0);
    let n = from_be_u32(s.subrange(0, 4)) as int;
    if 4 + n <= s.len() {
        assert(s.skip(4).take(n) =~= s.subrange(4, 4 + n));
        if valid_utf8(s.subrange(4, 4 + n)) {
            lemma_utf8_bytes_roundtrip(s.subrange(4, 4 + n));
        }
    }
}

/// An item is read from a byte of flags, a key and a value. Where the byte is odd, the
/// seconds that the item is to live follow in four bytes; the other flags do not count.
pub proof fn lemma_item_read(s: Seq<u8>, k: Seq<char>, v: Seq<char>, a: int, b: int)
    requires
        s.len() >= 1,
        take_key(s.skip(1)) == Ok::<(Seq<char>, int), StoreError>((k, a)),
        take_value(s.skip(1 + a)) == Ok::<(Seq<char>, int), StoreError>((v, b)),
    ensures
        ({
            let p = 1 + a + b;
            &&& s[0] % 2 == 0 ==> take_item(s) == Ok::<(ItemView, int), StoreError>(
                ((k, v, None), p),
            )
            &&& s[0] % 2 == 1 && s.len() < p + 4 ==> take_item(s) == Err::<
                (ItemView, int),
                StoreError,
            >(StoreError::UnexpectedEof)
            &&& s[0] % 2 == 1 && s.len() >= p + 4 ==> take_item(s) == Ok::<
                (ItemView, int),
                StoreError,
            >(((k, v, Some(from_be_u32(s.subrange(p, p + 4)))), p + 4))
        }),
{
    reveal(take_item);
    lemma_low_flag(s[0]);
}

/// What is read of a frame is told by its op code alone: a key for 1, 3 and 7, an item for
/// 2, two keys for 11, a key and seconds for 12, and for 9 and 10 as many keys or items as
/// two bytes say. The others take nothing. Bytes after what is read do not matter.
pub proof fn lemma_frame_read(buffer: Seq<u8>)
    requires
        buffer.len() >= 5,
    ensures
        ({
            let s = buffer.skip(5);
            let c = parse_command_frame(buffer);
            &&& buffer[4] == 1 && take_key(s) is Ok ==> c == Ok::<CommandView, StoreError>(
                CommandView::Read((take_key(s)->Ok_0).0),
            )
            &&& buffer[4] == 2 && take_item(s) is Ok ==> c == Ok::<CommandView, StoreError>(
                CommandView::Write(
                    ((take_item(s)->Ok_0).0).0,
                    ((take_item(s)->Ok_0).0).1,
                    ((take_item(s)->Ok_0).0).2,
                ),
            )
            &&& buffer[4] == 3 && take_key(s) is Ok ==> c == Ok::<CommandView, StoreError>(
                CommandView::Delete((take_key(s)->Ok_0).0),
            )
            &&& buffer[4] == 4 ==> c == Ok::<CommandView, StoreError>(CommandView::Compact)
            &&& buffer[4] == 5 ==> c == Ok::<CommandView, StoreError>(CommandView::Stats)
            &&& buffer[4] == 6 ==> c == Ok::<CommandView, StoreError>(CommandView::List)
            &&& buffer[4] == 7 && take_key(s) is Ok ==> c == Ok::<CommandView, StoreError>(
                CommandView::Exists((take_key(s)->Ok_0).0),
            )
            &&& buffer[4] == 8 ==> c == Ok::<CommandView, StoreError>(CommandView::Ping)
            &&& (buffer[4] == 9 || buffer[4] == 10) && s.len() < 2 ==> c == Err::<
                CommandView,
                StoreError,
            >(StoreError::UnexpectedEof)
            &&& buffer[4] == 9 && s.len() >= 2 ==> c == (match take_keys(
                s.skip(2),
                (s[0] * 0x100 + s[1]) as nat,
            ) {
                Ok(ks) => Ok::<CommandView, StoreError>(CommandView::Mget(ks)),
                Err(e) => Err(e),
            })
            &&& buffer[4] == 10 && s.len() >= 2 ==> c == (match take_items(
                s.skip(2),
                (s[0] * 0x100 + s[1]) as nat,
            ) {
                Ok(ts) => Ok::<CommandView, StoreError>(CommandView::Mset(ts)),
                Err(e) => Err(e),
            })
        }),
{
    let s = buffer.skip(5);
    lemma_be_u16_value(s.subrange(0, 2), 0);
}

} // verus!
