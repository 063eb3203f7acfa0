//! How a server is set up.

use vstd::prelude::*;
use vstd::string::StringExecFns;

use crate::number::{decimal, is_digit, lemma_parse_decimal, parse_number, parse_u64, parse_usize};
use crate::text::{same, string_views, strip_prefix, strip_suffix, without_prefix, without_suffix};

verus! {

/// A span of time.
#[derive(Clone, Copy, PartialEq, Eq, Structural, Debug)]
pub struct Period {
    pub secs: u64,
    pub millis: u32,
}

/// When written data is made durable.
#[derive(Clone, Copy, PartialEq, Eq, Structural, Debug)]
pub enum FSyncStrategy {
    Always,
    EveryN(usize),
    Periodic(Period),
    Never,
}

/// The storage engines.
#[derive(Clone, Copy, PartialEq, Eq, Structural, Debug)]
pub enum EngineType {
    KV,
    Lsm,
}

/// How a server is set up. The ratio of dead bytes that starts a compaction is kept
/// as it was written.
pub struct Settings {
    pub db_file_path: String,
    pub tcp_addr: String,
    pub db_name: String,
    pub max_segment_bytes: u64,
    pub sync_strategy: FSyncStrategy,
    pub engine: EngineType,
    pub compaction_ratio: String,
    pub compaction_max_segment: usize,
}

/// What settings say.
pub struct SettingsView {
    pub db_file_path: Seq<char>,
    pub tcp_addr: Seq<char>,
    pub db_name: Seq<char>,
    pub max_segment_bytes: u64,
    pub sync_strategy: FSyncStrategy,
    pub engine: EngineType,
    pub compaction_ratio: Seq<char>,
    pub compaction_max_segment: usize,
}

impl View for Settings {
    type V = SettingsView;

    open spec fn view(&self) -> SettingsView {
        SettingsView {
            db_file_path: self.db_file_path@,
            tcp_addr: self.tcp_addr@,
            db_name: self.db_name@,
            max_segment_bytes: self.max_segment_bytes,
            sync_strategy: self.sync_strategy,
            engine: self.engine,
            compaction_ratio: self.compaction_ratio@,
            compaction_max_segment: self.compaction_max_segment,
        }
    }
}

/// Something that came up while arguments were read, and that is left to the reader:
/// an argument that is unknown, or the text of an address or a ratio.
pub enum Note {
    Unknown(String),
    Address(String),
    Ratio(String),
}

/// What a note says.
pub enum NoteView {
    Unknown(Seq<char>),
    Address(Seq<char>),
    Ratio(Seq<char>),
}

impl View for Note {
    type V = NoteView;

    open spec fn view(&self) -> NoteView {
        match *self {
            Note::Unknown(s) => NoteView::Unknown(s@),
            Note::Address(s) => NoteView::Address(s@),
            Note::Ratio(s) => NoteView::Ratio(s@),
        }
    }
}

/// What the notes of a sequence say.
pub open spec fn note_views(v: Seq<Note>) -> Seq<NoteView> {
    v.map_values(|n: Note| n@)
}

/// What arguments came to: what came up on the way, in order, and then the settings
/// or why there are none.
pub struct Arguments {
    pub notes: Vec<Note>,
    pub settings: Result<Settings, String>,
}

/// The settings where nothing else is said.
pub open spec fn default_settings(path: Seq<char>) -> SettingsView {
    SettingsView {
        db_file_path: path,
        tcp_addr: "0.0.0.0:6666"@,
        db_name: "segment"@,
        max_segment_bytes: 52428800,
        sync_strategy: FSyncStrategy::Always,
        engine: EngineType::KV,
        compaction_ratio: "0.0"@,
        compaction_max_segment: 0,
    }
}

/// The strategy that a text names, or why it names none.
pub open spec fn fsync_for(s: Seq<char>) -> Result<FSyncStrategy, Seq<char>> {
    if s == "always"@ {
        Ok(FSyncStrategy::Always)
    } else if s == "never"@ {
        Ok(FSyncStrategy::Never)
    } else {
        match without_prefix(s, "every:"@) {
            None => Err("unknown fsync policy: "@ + s),
            Some(val) => match without_suffix(val, "s"@) {
                Some(secs) => match parse_number(secs, u64::MAX as nat) {
                    None => Err("invalid fsync interval: "@ + val),
                    Some(n) => if n == 0 {
                        Err("fsync interval must be > 0"@)
                    } else {
                        Ok(FSyncStrategy::Periodic(Period { secs: n as u64, millis: 0 }))
                    },
                },
                None => match parse_number(val, usize::MAX as nat) {
                    None => Err("invalid fsync interval: "@ + val),
                    Some(n) => if n == 0 {
                        Err("fsync interval must be > 0"@)
                    } else {
                        Ok(FSyncStrategy::EveryN(n as usize))
                    },
                },
            },
        }
    }
}

/// The engine that a text names, or why it names none.
pub open spec fn engine_for(s: Seq<char>) -> Result<EngineType, Seq<char>> {
    if s == "kv"@ {
        Ok(EngineType::KV)
    } else if s == "lsm"@ {
        Ok(EngineType::Lsm)
    } else {
        Err("Unsupported engine provided: "@ + s)
    }
}

/// The settings that can be given.
#[derive(Clone, Copy, PartialEq, Eq, Structural, Debug)]
pub enum Flag {
    Tcp,
    Name,
    MaxSegmentBytes,
    FSync,
    Engine,
    CompactionRatio,
    CompactionMaxSegments,
}

/// The setting that an argument announces.
pub open spec fn flag_for(arg: Seq<char>) -> Option<Flag> {
    if arg == "-t"@ || arg == "--tcp"@ {
        Some(Flag::Tcp)
    } else if arg == "-n"@ || arg == "--name"@ {
        Some(Flag::Name)
    } else if arg == "-msb"@ || arg == "--max-segments-bytes"@ {
        Some(Flag::MaxSegmentBytes)
    } else if arg == "-fsync"@ || arg == "--fsync-interval"@ {
        Some(Flag::FSync)
    } else if arg == "-e"@ || arg == "--engine"@ {
        Some(Flag::Engine)
    } else if arg == "-cr"@ || arg == "--compaction-ratio"@ {
        Some(Flag::CompactionRatio)
    } else if arg == "-cms"@ || arg == "--compaction-max-segments"@ {
        Some(Flag::CompactionMaxSegments)
    } else {
        None
    }
}

/// The settings once one was given, or why it cannot be.
pub open spec fn given(s: SettingsView, flag: Flag, value: Seq<char>) -> Result<
    SettingsView,
    Seq<char>,
> {
    match flag {
        Flag::Tcp => Ok(SettingsView { tcp_addr: value, ..s }),
        Flag::Name => Ok(SettingsView { db_name: value, ..s }),
        Flag::MaxSegmentBytes => match parse_number(value, u64::MAX as nat) {
            Some(n) => Ok(SettingsView { max_segment_bytes: n as u64, ..s }),
            None => Err("Invalid max segments bytes provided"@),
        },
        Flag::FSync => match fsync_for(value) {
            Ok(sync_strategy) => Ok(SettingsView { sync_strategy, ..s }),
            Err(e) => Err(e),
        },
        Flag::Engine => match engine_for(value) {
            Ok(engine) => Ok(SettingsView { engine, ..s }),
            Err(e) => Err(e),
        },
        Flag::CompactionRatio => Ok(SettingsView { compaction_ratio: value, ..s }),
        Flag::CompactionMaxSegments => match parse_number(value, usize::MAX as nat) {
            Some(n) => Ok(SettingsView { compaction_max_segment: n as usize, ..s }),
            None => Err("Invalid compaction max segments provided"@),
        },
    }
}

/// The note that a setting leaves.
pub open spec fn noted(notes: Seq<NoteView>, flag: Flag, value: Seq<char>) -> Seq<NoteView> {
    match flag {
        Flag::Tcp => notes.push(NoteView::Address(value)),
        Flag::CompactionRatio => notes.push(NoteView::Ratio(value)),
        _ => notes,
    }
}

/// What the arguments from `i` on come to. One that announces a setting takes the
/// next one with it; without a next one it is passed over.
pub open spec fn read_from(
    args: Seq<Seq<char>>,
    i: int,
    notes: Seq<NoteView>,
    s: SettingsView,
) -> (Seq<NoteView>, Result<SettingsView, Seq<char>>)
    decreases args.len() - i,
{
    if i < 0 || i >= args.len() {
        (notes, Ok(s))
    } else {
        match flag_for(args[i]) {
            None => read_from(args, i + 1, notes.push(NoteView::Unknown(args[i])), s),
            Some(flag) => if i + 1 >= args.len() {
                (notes, Ok(s))
            } else {
                match given(s, flag, args[i + 1]) {
                    Ok(t) => read_from(args, i + 2, noted(notes, flag, args[i + 1]), t),
                    Err(e) => (noted(notes, flag, args[i + 1]), Err(e)),
                }
            },
        }
    }
}

/// Whether help is all that was asked for.
pub open spec fn asks_for_help(args: Seq<Seq<char>>) -> bool {
    args.len() < 2 || exists|i: int|
        0 <= i < args.len() && (#[trigger] args[i] == "-h"@ || args[i] == "--help"@)
}

/// The names of the settings, a short one and a long one for each.
pub proof fn lemma_flags(arg: Seq<char>)
    ensures
        flag_for(arg) == Some(Flag::Tcp) <==> arg == "-t"@ || arg == "--tcp"@,
        flag_for(arg) == Some(Flag::Name) <==> arg == "-n"@ || arg == "--name"@,
        flag_for(arg) == Some(Flag::MaxSegmentBytes) <==> arg == "-msb"@
            || arg == "--max-segments-bytes"@,
        flag_for(arg) == Some(Flag::FSync) <==> arg == "-fsync"@ || arg == "--fsync-interval"@,
        flag_for(arg) == Some(Flag::Engine) <==> arg == "-e"@ || arg == "--engine"@,
        flag_for(arg) == Some(Flag::CompactionRatio) <==> arg == "-cr"@
            || arg == "--compaction-ratio"@,
        flag_for(arg) == Some(Flag::CompactionMaxSegments) <==> arg == "-cms"@
            || arg == "--compaction-max-segments"@,
        flag_for(arg) is None <==> arg != "-t"@ && arg != "--tcp"@ && arg != "-n"@
            && arg != "--name"@ && arg != "-msb"@ && arg != "--max-segments-bytes"@
            && arg != "-fsync"@ && arg != "--fsync-interval"@ && arg != "-e"@
            && arg != "--engine"@ && arg != "-cr"@ && arg != "--compaction-ratio"@
            && arg != "-cms"@ && arg != "--compaction-max-segments"@,
{
    reveal_strlit("-t");
    reveal_strlit("--tcp");
    reveal_strlit("-n");
    reveal_strlit("--name");
    reveal_strlit("-msb");
    reveal_strlit("--max-segments-bytes");
    reveal_strlit("-fsync");
    reveal_strlit("--fsync-interval");
    reveal_strlit("-e");
    reveal_strlit("--engine");
    reveal_strlit("-cr");
    reveal_strlit("--compaction-ratio");
    reveal_strlit("-cms");
    reveal_strlit("--compaction-max-segments");
    assert("-t"@.len() == 2 && "--tcp"@.len() == 5 && "-n"@.len() == 2 && "--name"@.len() == 6
        && "-msb"@.len() == 4 && "--max-segments-bytes"@.len() == 20 && "-fsync"@.len() == 6
        && "--fsync-interval"@.len() == 16 && "-e"@.len() == 2 && "--engine"@.len() == 8
        && "-cr"@.len() == 3 && "--compaction-ratio"@.len() == 18 && "-cms"@.len() == 4
        && "--compaction-max-segments"@.len() == 25);
    assert("-t"@[1] == 't' && "--tcp"@[1] == '-' && "--tcp"@[2] == 't' && "--tcp"@[3] == 'c'
        && "--tcp"@[4] == 'p' && "-n"@[1] == 'n' && "--name"@[1] == '-' && "--name"@[2] == 'n'
        && "--name"@[3] == 'a' && "--name"@[4] == 'm' && "-msb"@[1] == 'm' && "-msb"@[2] == 's'
        && "-msb"@[3] == 'b' && "--max-segments-bytes"@[1] == '-'
        && "--max-segments-bytes"@[2] == 'm' && "--max-segments-bytes"@[3] == 'a'
        && "--max-segments-bytes"@[4] == 'x' && "--max-segments-bytes"@[13] == 's'
        && "-fsync"@[1] == 'f' && "-fsync"@[2] == 's' && "-fsync"@[3] == 'y'
        && "-fsync"@[4] == 'n' && "--fsync-interval"@[1] == '-' && "--fsync-interval"@[2] == 'f'
        && "--fsync-interval"@[3] == 's' && "--fsync-interval"@[4] == 'y'
        && "--fsync-interval"@[13] == 'v' && "-e"@[1] == 'e' && "--engine"@[1] == '-'
        && "--engine"@[2] == 'e' && "--engine"@[3] == 'n' && "--engine"@[4] == 'g'
        && "-cr"@[1] == 'c' && "-cr"@[2] == 'r' && "--compaction-ratio"@[1] == '-'
        && "--compaction-ratio"@[2] == 'c' && "--compaction-ratio"@[3] == 'o'
        && "--compaction-ratio"@[4] == 'm' && "--compaction-ratio"@[13] == 'r'
        && "-cms"@[1] == 'c' && "-cms"@[2] == 'm' && "-cms"@[3] == 's'
        && "--compaction-max-segments"@[1] == '-' && "--compaction-max-segments"@[2] == 'c'
        && "--compaction-max-segments"@[3] == 'o' && "--compaction-max-segments"@[4] == 'm'
        && "--compaction-max-segments"@[13] == 'm');
}

/// The ways to say when data is made durable: always, never, after every so many writes, or
/// every so many seconds. Neither number may be 0.
pub proof fn lemma_fsync_texts(n: nat)
    ensures
        fsync_for("always"@) == Ok::<FSyncStrategy, Seq<char>>(FSyncStrategy::Always),
        fsync_for("never"@) == Ok::<FSyncStrategy, Seq<char>>(FSyncStrategy::Never),
        0 < n <= usize::MAX ==> fsync_for("every:"@ + decimal(n)) == Ok::<
            FSyncStrategy,
            Seq<char>,
        >(FSyncStrategy::EveryN(n as usize)),
        0 < n <= u64::MAX ==> fsync_for("every:"@ + decimal(n) + "s"@) == Ok::<
            FSyncStrategy,
            Seq<char>,
        >(FSyncStrategy::Periodic(Period { secs: n as u64, millis: 0 })),
        n == 0 ==> fsync_for("every:"@ + decimal(n)) is Err && fsync_for(
            "every:"@ + decimal(n) + "s"@,
        ) is Err,
{
    reveal_strlit("always");
    reveal_strlit("never");
    reveal_strlit("every:");
    reveal_strlit("s");
    let d = decimal(n);
    let a = "every:"@ + d;
    let b = a + "s"@;
    lemma_parse_decimal(n, n);
    if n <= usize::MAX {
        lemma_parse_decimal(n, usize::MAX as nat);
    }
    if n <= u64::MAX {
        lemma_parse_decimal(n, u64::MAX as nat);
    }
    assert("always"@[0] == 'a' && "never"@[0] == 'n' && "every:"@[0] == 'e');
    assert("always"@ != "never"@);
    assert(a[0] == 'e' && b[0] == 'e');
    assert(a.take(6) =~= "every:"@ && a.skip(6) =~= d);
    assert(b.take(6) =~= "every:"@ && b.skip(6) =~= d + "s"@);
    assert(is_digit(d[d.len() - 1]));
    assert(d.skip(d.len() - 1)[0] == d[d.len() - 1]);
    assert("s"@[0] == 's');
    assert((d + "s"@).skip(d.len() as int) =~= "s"@ && (d + "s"@).take(d.len() as int) =~= d);
}

/// A text that is neither of the two words, and does not begin as an interval does, names no
/// way to make data durable; one that names an interval has a number that is not 0.
pub proof fn lemma_fsync_refused(s: Seq<char>)
    ensures
        s != "always"@ && s != "never"@ && !(s.len() >= 6 && s.take(6) == "every:"@) ==> fsync_for(
            s,
        ) == Err::<FSyncStrategy, Seq<char>>("unknown fsync policy: "@ + s),
        fsync_for(s) matches Ok(FSyncStrategy::Always) ==> s == "always"@,
        fsync_for(s) matches Ok(FSyncStrategy::Never) ==> s == "never"@,
        fsync_for(s) matches Ok(FSyncStrategy::EveryN(n)) ==> n > 0 && s.take(6) == "every:"@,
        fsync_for(s) matches Ok(FSyncStrategy::Periodic(p)) ==> p.secs > 0 && p.millis == 0
            && s.take(6) == "every:"@ && s.last() == 's',
{
    reveal_strlit("every:");
    reveal_strlit("s");
    if s.len() >= 6 && s.take(6) == "every:"@ {
        let val = s.skip(6);
        if val.len() >= 1 && val.skip(val.len() - 1) == "s"@ {
            assert(val.skip(val.len() - 1)[0] == "s"@[0]);
            assert(s.last() == val.last());
        }
    }
}

/// The two engines, and that no other name is one.
pub proof fn lemma_engine_texts(s: Seq<char>)
    ensures
        engine_for("kv"@) == Ok::<EngineType, Seq<char>>(EngineType::KV),
        engine_for("lsm"@) == Ok::<EngineType, Seq<char>>(EngineType::Lsm),
        s != "kv"@ && s != "lsm"@ ==> engine_for(s) == Err::<EngineType, Seq<char>>(
            "Unsupported engine provided: "@ + s,
        ),
{
    reveal_strlit("kv");
    reveal_strlit("lsm");
    assert("kv"@.len() != "lsm"@.len());
}

/// What the settings are where only the path of the database was given.
pub proof fn lemma_defaults(path: Seq<char>)
    ensures
        ({
            let s = default_settings(path);
            &&& s.db_file_path == path
            &&& s.tcp_addr == "0.0.0.0:6666"@
            &&& s.db_name == "segment"@
            &&& s.max_segment_bytes == 50 * 1024 * 1024
            &&& s.sync_strategy == FSyncStrategy::Always
            &&& s.engine == EngineType::KV
            &&& s.compaction_ratio == "0.0"@
            &&& s.compaction_max_segment == 0
        }),
{
}

/// Each setting changes one thing and leaves the others: the address, the name, the largest
/// size of a segment, when data is made durable, the engine, the ratio, or the number of
/// segments. A number that cannot be read is refused.
pub proof fn lemma_given(s: SettingsView, flag: Flag, value: Seq<char>)
    ensures
        match given(s, flag, value) {
            Ok(t) => {
                &&& t.db_file_path == s.db_file_path
                &&& t.tcp_addr == if flag == Flag::Tcp {
                    value
                } else {
                    s.tcp_addr
                }
                &&& t.db_name == if flag == Flag::Name {
                    value
                } else {
                    s.db_name
                }
                &&& t.compaction_ratio == if flag == Flag::CompactionRatio {
                    value
                } else {
                    s.compaction_ratio
                }
                &&& flag != Flag::MaxSegmentBytes ==> t.max_segment_bytes == s.max_segment_bytes
                &&& flag != Flag::FSync ==> t.sync_strategy == s.sync_strategy
                &&& flag != Flag::Engine ==> t.engine == s.engine
                &&& flag != Flag::CompactionMaxSegments ==> t.compaction_max_segment
                    == s.compaction_max_segment
                &&& flag == Flag::MaxSegmentBytes ==> parse_number(value, u64::MAX as nat) == Some(
                    t.max_segment_bytes as nat,
                )
                &&& flag == Flag::CompactionMaxSegments ==> parse_number(
                    value,
                    usize::MAX as nat,
                ) == Some(t.compaction_max_segment as nat)
                &&& flag == Flag::FSync ==> fsync_for(value) == Ok::<FSyncStrategy, Seq<char>>(
                    t.sync_strategy,
                )
                &&& flag == Flag::Engine ==> engine_for(value) == Ok::<EngineType, Seq<char>>(
                    t.engine,
                )
            },
            Err(e) => {
                ||| flag == Flag::MaxSegmentBytes && parse_number(value, u64::MAX as nat) is None
                    && e == "Invalid max segments bytes provided"@
                ||| flag == Flag::CompactionMaxSegments && parse_number(
                    value,
                    usize::MAX as nat,
                ) is None && e == "Invalid compaction max segments provided"@
                ||| flag == Flag::FSync && fsync_for(value) == Err::<FSyncStrategy, Seq<char>>(e)
                ||| flag == Flag::Engine && engine_for(value) == Err::<EngineType, Seq<char>>(e)
            },
        },
{
}

/// What one argument and the rest come to. An argument that names no setting is noted and
/// passed over. One that names a setting takes the argument after it, and the rest is read
/// with that setting; the first that cannot be given ends it. At the end of the arguments,
/// or where a setting has no value, what was given so far stands.
pub proof fn lemma_arguments(
    args: Seq<Seq<char>>,
    i: int,
    notes: Seq<NoteView>,
    s: SettingsView,
)
    requires
        0 <= i <= args.len(),
    ensures
        i == args.len() ==> read_from(args, i, notes, s) == (
            notes,
            Ok::<SettingsView, Seq<char>>(s),
        ),
        i < args.len() && flag_for(args[i]) is None ==> read_from(args, i, notes, s) == read_from(
            args,
            i + 1,
            notes.push(NoteView::Unknown(args[i])),
            s,
        ),
        i + 1 == args.len() && flag_for(args[i]) is Some ==> read_from(args, i, notes, s).1 == Ok::<
            SettingsView,
            Seq<char>,
        >(s),
        i + 1 < args.len() && flag_for(args[i]) is Some ==> match given(
            s,
            flag_for(args[i])->0,
            args[i + 1],
        ) {
            Err(e) => read_from(args, i, notes, s).1 == Err::<SettingsView, Seq<char>>(e),
            Ok(t) => read_from(args, i, notes, s) == read_from(
                args,
                i + 2,
                match flag_for(args[i])->0 {
                    Flag::Tcp => notes.push(NoteView::Address(args[i + 1])),
                    Flag::CompactionRatio => notes.push(NoteView::Ratio(args[i + 1])),
                    _ => notes,
                },
                t,
            ),
        },
{
}

fn flag_of(arg: &str) -> (r: Option<Flag>)
    ensures
        r == flag_for(arg@),
{
    if same(arg, "-t") || same(arg, "--tcp") {
        Some(Flag::Tcp)
    } else if same(arg, "-n") || same(arg, "--name") {
        Some(Flag::Name)
    } else if same(arg, "-msb") || same(arg, "--max-segments-bytes") {
        Some(Flag::MaxSegmentBytes)
    } else if same(arg, "-fsync") || same(arg, "--fsync-interval") {
        Some(Flag::FSync)
    } else if same(arg, "-e") || same(arg, "--engine") {
        Some(Flag::Engine)
    } else if same(arg, "-cr") || same(arg, "--compaction-ratio") {
        Some(Flag::CompactionRatio)
    } else if same(arg, "-cms") || same(arg, "--compaction-max-segments") {
        Some(Flag::CompactionMaxSegments)
    } else {
        None
    }
}

fn help_wanted(args: &Vec<String>) -> (r: bool)
    ensures
        r == asks_for_help(string_views(args@)),
{
    if args.len() < 2 {
        return true;
    }
    for i in 0..args.len()
        invariant
            args@.len() >= 2,
            forall|j: int|
                0 <= j < i ==> #[trigger] string_views(args@)[j] != "-h"@ && string_views(args@)[j]
                    != "--help"@,
    {
        if same(args[i].as_str(), "-h") || same(args[i].as_str(), "--help") {
            assert(string_views(args@)[i as int] == args@[i as int]@);
            return true;
        }
    }
    false
}

impl Settings {
    /// Reads the arguments of a program, its name among them. There is nothing to
    /// be set up where only help was asked for.
    pub fn get_from_args(args: &Vec<String>) -> (r: Option<Arguments>)
        ensures
            r is None <==> args@.len() < 2 || exists|i: int|
                0 <= i < args@.len() && ((#[trigger] args@[i])@ == "-h"@ || args@[i]@ == "--help"@),
            match r {
                None => asks_for_help(string_views(args@)),
                Some(a) => {
                    let (notes, settings) = read_from(
                        string_views(args@),
                        2,
                        Seq::empty(),
                        default_settings(args@[1]@),
                    );
                    &&& !asks_for_help(string_views(args@))
                    &&& note_views(a.notes@) == notes
                    &&& match a.settings {
                        Ok(s) => settings == Ok::<SettingsView, Seq<char>>(s@),
                        Err(e) => settings == Err::<SettingsView, Seq<char>>(e@),
                    }
                },
            },
    {
        let ghost av = string_views(args@);
        proof {
            assert forall|i: int| 0 <= i < args@.len() implies av[i] == (#[trigger] args@[i])@ by {}
            if asks_for_help(av) && av.len() >= 2 {
                let i = choose|i: int|
                    0 <= i < av.len() && (#[trigger] av[i] == "-h"@ || av[i] == "--help"@);
                assert(av[i] == args@[i]@);
            }
        }
        if help_wanted(args) {
            return None;
        }
        let mut settings = Settings {
            db_file_path: args[1].clone(),
            tcp_addr: String::from_str("0.0.0.0:6666"),
            db_name: String::from_str("segment"),
            max_segment_bytes: 52428800,
            sync_strategy: FSyncStrategy::Always,
            engine: EngineType::KV,
            compaction_ratio: String::from_str("0.0"),
            compaction_max_segment: 0,
        };
        let mut notes: Vec<Note> = Vec::new();
        let ghost whole = read_from(av, 2, Seq::empty(), default_settings(args@[1]@));
        assert(note_views(notes@) =~= Seq::empty());
        let mut i: usize = 2;
        while i < args.len()
            invariant_except_break
                av == string_views(args@),
                !asks_for_help(av),
                whole == read_from(av, 2, Seq::empty(), default_settings(args@[1]@)),
                2 <= i <= args@.len(),
                whole == read_from(av, i as int, note_views(notes@), settings@),
            ensures
                whole == read_from(av, 2, Seq::empty(), default_settings(args@[1]@)),
                whole == (note_views(notes@), Ok::<SettingsView, Seq<char>>(settings@)),
            decreases args@.len() - i,
        {
            assert(av[i as int] == args@[i as int]@);
            let ghost before = note_views(notes@);
            match flag_of(args[i].as_str()) {
                None => {
                    notes.push(Note::Unknown(args[i].clone()));
                    assert(note_views(notes@) =~= before.push(NoteView::Unknown(av[i as int])));
                    i = i + 1;
                },
                Some(flag) => {
                    if i + 1 >= args.len() {
                        break;
                    }
                    assert(av[i + 1] == args@[i + 1]@);
                    let value = args[i + 1].clone();
                    match flag {
                        Flag::Tcp => {
                            notes.push(Note::Address(value.clone()));
                        },
                        Flag::CompactionRatio => {
                            notes.push(Note::Ratio(value.clone()));
                        },
                        _ => {},
                    }
                    assert(note_views(notes@) =~= noted(before, flag, value@));
                    if let Err(e) = settings.give(flag, value) {
                        assert forall|j: int| 0 <= j < args@.len() implies (
                        #[trigger] args@[j])@ != "-h"@ && args@[j]@ != "--help"@ by {
                            assert(av[j] == args@[j]@);
                        }
                        return Some(Arguments { notes, settings: Err(e) });
                    }
                    i = i + 2;
                },
            }
        }
        Some(Arguments { notes, settings: Ok(settings) })
    }

    fn give(&mut self, flag: Flag, value: String) -> (r: Result<(), String>)
        ensures
            match r {
                Ok(_) => given(old(self)@, flag, value@) == Ok::<SettingsView, Seq<char>>(
                    final(self)@,
                ),
                Err(e) => given(old(self)@, flag, value@) == Err::<SettingsView, Seq<char>>(e@),
            },
    {
        match flag {
            Flag::Tcp => {
                self.tcp_addr = value;
            },
            Flag::Name => {
                self.db_name = value;
            },
            Flag::MaxSegmentBytes => match parse_u64(value.as_str()) {
                Some(n) => {
                    self.max_segment_bytes = n;
                },
                None => {
                    return Err(String::from_str("Invalid max segments bytes provided"));
                },
            },
            Flag::FSync => match Settings::parse_fsync(value.as_str()) {
                Ok(strategy) => {
                    self.sync_strategy = strategy;
                },
                Err(e) => {
                    return Err(e);
                },
            },
            Flag::Engine => match Settings::parse_engine(value.as_str()) {
                Ok(engine) => {
                    self.engine = engine;
                },
                Err(e) => {
                    return Err(e);
                },
            },
            Flag::CompactionRatio => {
                self.compaction_ratio = value;
            },
            Flag::CompactionMaxSegments => match parse_usize(value.as_str()) {
                Some(n) => {
                    self.compaction_max_segment = n;
                },
                None => {
                    return Err(String::from_str("Invalid compaction max segments provided"));
                },
            },
        }
        Ok(())
    }

    /// The strategy that a text names.
    pub fn parse_fsync(s: &str) -> (r: Result<FSyncStrategy, String>)
        ensures
            match r {
                Ok(f) => fsync_for(s@) == Ok::<FSyncStrategy, Seq<char>>(f),
                Err(e) => fsync_for(s@) == Err::<FSyncStrategy, Seq<char>>(e@),
            },
    {
        if same(s, "always") {
            return Ok(FSyncStrategy::Always);
        }
        if same(s, "never") {
            return Ok(FSyncStrategy::Never);
        }
        let val = match strip_prefix(s, "every:") {
            Some(val) => val,
            None => {
                return Err(String::from_str("unknown fsync policy: ").concat(s));
            },
        };
        match strip_suffix(val, "s") {
            Some(secs) => match parse_u64(secs) {
                None => Err(String::from_str("invalid fsync interval: ").concat(val)),
                Some(n) => if n == 0 {
                    Err(String::from_str("fsync interval must be > 0"))
                } else {
                    Ok(FSyncStrategy::Periodic(Period { secs: n, millis: 0 }))
                },
            },
            None => match parse_usize(val) {
                None => Err(String::from_str("invalid fsync interval: ").concat(val)),
                Some(n) => if n == 0 {
                    Err(String::from_str("fsync interval must be > 0"))
                } else {
                    Ok(FSyncStrategy::EveryN(n))
                },
            },
        }
    }

    /// The engine that a text names.
    pub fn parse_engine(s: &str) -> (r: Result<EngineType, String>)
        ensures
            match r {
                Ok(t) => engine_for(s@) == Ok::<EngineType, Seq<char>>(t),
                Err(e) => engine_for(s@) == Err::<EngineType, Seq<char>>(e@),
            },
    {
        if same(s, "kv") {
            Ok(EngineType::KV)
        } else if same(s, "lsm") {
            Ok(EngineType::Lsm)
        } else {
            Err(String::from_str("Unsupported engine provided: ").concat(s))
        }
    }
}

/// An interval of 0 is refused, and one that is no number, or too large a one, is too. The
/// text of the second names it.
pub proof fn lemma_intervals(val: Seq<char>)
    ensures
        val.len() == 0 || val.last() != 's' ==> ({
            let s = "every:"@ + val;
            &&& parse_number(val, usize::MAX as nat) is None ==> fsync_for(s) == Err::<
                FSyncStrategy,
                Seq<char>,
            >("invalid fsync interval: "@ + val)
            &&& parse_number(val, usize::MAX as nat) == Some(0nat) ==> fsync_for(s) == Err::<
                FSyncStrategy,
                Seq<char>,
            >("fsync interval must be > 0"@)
            &&& parse_number(val, usize::MAX as nat) matches Some(n) ==> n > 0 ==> fsync_for(s)
                == Ok::<FSyncStrategy, Seq<char>>(FSyncStrategy::EveryN(n as usize))
        }),
        val.len() > 0 && val.last() == 's' ==> ({
            let s = "every:"@ + val;
            let secs = val.drop_last();
            &&& parse_number(secs, u64::MAX as nat) is None ==> fsync_for(s) == Err::<
                FSyncStrategy,
                Seq<char>,
            >("invalid fsync interval: "@ + val)
            &&& parse_number(secs, u64::MAX as nat) == Some(0nat) ==> fsync_for(s) == Err::<
                FSyncStrategy,
                Seq<char>,
            >("fsync interval must be > 0"@)
            &&& parse_number(secs, u64::MAX as nat) matches Some(n) ==> n > 0 ==> fsync_for(s)
                == Ok::<FSyncStrategy, Seq<char>>(
                FSyncStrategy::Periodic(Period { secs: n as u64, millis: 0 }),
            )
        }),
{
    reveal_strlit("always");
    reveal_strlit("never");
    reveal_strlit("every:");
    reveal_strlit("s");
    let s = "every:"@ + val;
    assert(s[0] == 'e' && "always"@[0] == 'a' && "never"@[0] == 'n');
    assert(s.take(6) =~= "every:"@);
    assert(s.skip(6) =~= val);
    assert("s"@[0] == 's');
    if val.len() > 0 {
        let end = val.skip(val.len() - 1);
        assert(end[0] == val.last());
        if val.last() == 's' {
            assert(end =~= "s"@);
            assert(val.take(val.len() - 1) =~= val.drop_last());
        }
    }
}

} // verus!
