//! The commands that a user types.

use vstd::prelude::*;
use vstd::string::StringExecFns;

use crate::bffp::{item_views, Command, CommandView, ItemView};
use crate::text::{chars_of, same, string_views};

verus! {

/// What a line comes to.
#[derive(Debug)]
pub enum ParseResult {
    Cmd(Command),
    Quit,
    /// What to tell the user. Nothing for an empty line.
    InvalidInput(String),
}

/// What a result says.
pub enum ParseView {
    Cmd(CommandView),
    Quit,
    InvalidInput(Seq<char>),
}

impl View for ParseResult {
    type V = ParseView;

    open spec fn view(&self) -> ParseView {
        match *self {
            ParseResult::Cmd(c) => ParseView::Cmd(c@),
            ParseResult::Quit => ParseView::Quit,
            ParseResult::InvalidInput(s) => ParseView::InvalidInput(s@),
        }
    }
}

/// Whether a character is white space: whether it has Unicode's property White_Space.
pub open spec fn white(c: char) -> bool {
    let n = c as u32;
    ||| 0x9 <= n <= 0xd
    ||| n == 0x20
    ||| n == 0x85
    ||| n == 0xa0
    ||| n == 0x1680
    ||| 0x2000 <= n <= 0x200a
    ||| n == 0x2028
    ||| n == 0x2029
    ||| n == 0x202f
    ||| n == 0x205f
    ||| n == 0x3000
}

/// [`char::is_whitespace`]. It says whether a character has the property White_Space. That
/// is taken from its documentation and not proved.
#[verifier::external_body]
fn is_white(c: char) -> (r: bool)
    ensures
        r == white(c),
{
    c.is_whitespace()
}

/// `s` in capital letters: what [`str::to_uppercase`] gives.
pub uninterp spec fn capitals(s: Seq<char>) -> Seq<char>;

/// A character of ASCII as a capital letter, where it is a small one.
pub open spec fn ascii_capital(c: char) -> char {
    if 'a' <= c <= 'z' {
        ((c as u32) - 32) as char
    } else {
        c
    }
}

/// [`str::to_uppercase`]. What it gives depends on the string alone, and of a string of
/// ASCII it changes the small letters to capital ones. That is taken from its documentation
/// and not proved.
#[verifier::external_body]
fn to_capitals(s: &str) -> (r: String)
    ensures
        r@ == capitals(s@),
        (forall|i: int| 0 <= i < s@.len() ==> (#[trigger] s@[i]) < '\u{80}') ==> r@
            == s@.map_values(|c: char| ascii_capital(c)),
{
    s.to_uppercase()
}

/// The words of `s` that white space ends, and the characters that follow the last
/// white space.
pub open spec fn split_words(s: Seq<char>) -> (Seq<Seq<char>>, Seq<char>)
    decreases s.len(),
{
    if s.len() == 0 {
        (Seq::empty(), Seq::empty())
    } else {
        let (done, word) = split_words(s.drop_last());
        if !white(s.last()) {
            (done, word.push(s.last()))
        } else if word.len() > 0 {
            (done.push(word), Seq::empty())
        } else {
            (done, word)
        }
    }
}

/// The words of `s`: the longest parts of it that hold no white space.
pub open spec fn words_in(s: Seq<char>) -> Seq<Seq<char>> {
    let (done, word) = split_words(s);
    if word.len() > 0 {
        done.push(word)
    } else {
        done
    }
}

/// Words with a space between each two.
pub open spec fn spaced(words: Seq<Seq<char>>) -> Seq<char>
    decreases words.len(),
{
    if words.len() == 0 {
        Seq::empty()
    } else if words.len() == 1 {
        words[0]
    } else {
        spaced(words.drop_last()) + " "@ + words.last()
    }
}

/// Whether `w` can stand as a word.
pub open spec fn is_word(w: Seq<char>) -> bool {
    w.len() > 0 && forall|i: int| 0 <= i < w.len() ==> !white(#[trigger] w[i])
}

/// A key and a value out of every two words after the first. One that is left over
/// is passed over.
pub open spec fn items_in(words: Seq<Seq<char>>) -> Seq<ItemView> {
    Seq::new(
        ((words.len() - 1) / 2) as nat,
        |i: int| (words[2 * i + 1], words[2 * i + 2], None::<u32>),
    )
}

/// What the words of a line come to, where `op` is the first of them in capital
/// letters.
pub open spec fn command_for(op: Seq<char>, words: Seq<Seq<char>>) -> ParseView {
    if op == "WRITE"@ {
        if words.len() > 2 {
            ParseView::Cmd(CommandView::Write(words[1], spaced(words.skip(2)), None))
        } else {
            ParseView::InvalidInput("Usage: WRITE <key> <value>"@)
        }
    } else if op == "READ"@ {
        if words.len() == 2 {
            ParseView::Cmd(CommandView::Read(words[1]))
        } else {
            ParseView::InvalidInput("Usage: READ <key>"@)
        }
    } else if op == "DELETE"@ {
        if words.len() == 2 {
            ParseView::Cmd(CommandView::Delete(words[1]))
        } else {
            ParseView::InvalidInput("Usage: DELETE <key>"@)
        }
    } else if op == "EXISTS"@ {
        if words.len() == 2 {
            ParseView::Cmd(CommandView::Exists(words[1]))
        } else {
            ParseView::InvalidInput("Usage: EXISTS <key>"@)
        }
    } else if op == "COMPACT"@ {
        ParseView::Cmd(CommandView::Compact)
    } else if op == "STATS"@ {
        ParseView::Cmd(CommandView::Stats)
    } else if op == "LIST"@ {
        ParseView::Cmd(CommandView::List)
    } else if op == "PING"@ {
        ParseView::Cmd(CommandView::Ping)
    } else if op == "QUIT"@ {
        ParseView::Quit
    } else if op == "MGET"@ {
        if words.len() < 2 {
            ParseView::InvalidInput("Usage: MGET <key1> <key2> <keyn>"@)
        } else {
            ParseView::Cmd(CommandView::Mget(words.skip(1)))
        }
    } else if op == "MSET"@ {
        if words.len() < 3 {
            ParseView::InvalidInput("Usage: MSET <key1> <value1> <keyn> <valuen>"@)
        } else {
            ParseView::Cmd(CommandView::Mset(items_in(words)))
        }
    } else if op == "RANGE"@ {
        if words.len() == 3 {
            ParseView::Cmd(CommandView::Range(words[1], words[2]))
        } else {
            ParseView::InvalidInput("Usage: RANGE <start> <end>"@)
        }
    } else {
        ParseView::InvalidInput("Unknown command: "@ + op)
    }
}

/// What a line comes to.
pub open spec fn parsed(line: Seq<char>) -> ParseView {
    let words = words_in(line);
    if words.len() == 0 {
        ParseView::InvalidInput(Seq::empty())
    } else {
        command_for(capitals(words[0]), words)
    }
}

proof fn lemma_split_word(s: Seq<char>, w: Seq<char>)
    requires
        forall|i: int| 0 <= i < w.len() ==> !white(#[trigger] w[i]),
    ensures
        split_words(s + w) == (split_words(s).0, split_words(s).1 + w),
    decreases w.len(),
{
    if w.len() == 0 {
        assert(s + w =~= s);
        assert(split_words(s).1 + w =~= split_words(s).1);
    } else {
        let v = w.drop_last();
        assert forall|i: int| 0 <= i < v.len() implies !white(#[trigger] v[i]) by {
            assert(v[i] == w[i]);
        }
        lemma_split_word(s, v);
        assert((s + w).drop_last() =~= s + v);
        assert((s + w).last() == w[w.len() - 1]);
        assert((split_words(s).1 + v).push(w.last()) =~= split_words(s).1 + w);
    }
}

/// Words with a space between each two are the words of the line that they make.
pub proof fn lemma_words_spaced(words: Seq<Seq<char>>)
    ensures
        (forall|i: int| 0 <= i < words.len() ==> is_word(#[trigger] words[i])) ==> words_in(
            spaced(words),
        ) == words,
{
    if (forall|i: int| 0 <= i < words.len() ==> is_word(#[trigger] words[i])) {
        lemma_split_spaced(words);
        if words.len() > 0 {
            assert(is_word(words[words.len() - 1]));
            assert(words.drop_last().push(words.last()) =~= words);
        }
    }
}

proof fn lemma_split_spaced(words: Seq<Seq<char>>)
    requires
        white(' '),
        forall|i: int| 0 <= i < words.len() ==> is_word(#[trigger] words[i]),
    ensures
        split_words(spaced(words)) == if words.len() == 0 {
            (Seq::<Seq<char>>::empty(), Seq::<char>::empty())
        } else {
            (words.drop_last(), words.last())
        },
    decreases words.len(),
{
    if words.len() == 1 {
        assert(is_word(words[0]));
        lemma_split_word(Seq::empty(), words[0]);
        assert(Seq::<char>::empty() + words[0] =~= words[0]);
        assert(words.drop_last() =~= Seq::<Seq<char>>::empty());
    } else if words.len() > 1 {
        let front = words.drop_last();
        assert forall|i: int| 0 <= i < front.len() implies is_word(#[trigger] front[i]) by {
            assert(front[i] == words[i]);
        }
        lemma_split_spaced(front);
        assert(is_word(words[words.len() - 1]));
        assert(is_word(words[words.len() - 2]));
        reveal_strlit(" ");
        let s = spaced(front) + " "@;
        assert(s.last() == ' ');
        assert(s.drop_last() =~= spaced(front));
        assert(front.drop_last().push(front.last()) =~= front);
        assert(split_words(s) == (front, Seq::<char>::empty()));
        lemma_split_word(s, words.last());
        assert(Seq::<char>::empty() + words.last() =~= words.last());
    }
}

/// What lies between the words of a line does not matter, and neither does what stands
/// before the first and after the last: the words of two lines that white space parts are
/// those of the first and then those of the second. A line without white space is one word.
pub proof fn lemma_words(a: Seq<char>, c: char, b: Seq<char>)
    requires
        white(c),
    ensures
        words_in(a + seq![c] + b) == words_in(a) + words_in(b),
        words_in(Seq::empty()) == Seq::<Seq<char>>::empty(),
        (forall|i: int| 0 <= i < a.len() ==> !white(#[trigger] a[i])) && a.len() > 0 ==> words_in(a)
            == seq![a],
{
    let s = a + seq![c];
    assert(s.drop_last() =~= a);
    assert(split_words(s).1.len() == 0 && split_words(s).0 == words_in(a));
    lemma_split_after(s, b);
    assert(words_in(a + seq![c] + b) =~= words_in(a) + words_in(b));
    if (forall|i: int| 0 <= i < a.len() ==> !white(#[trigger] a[i])) && a.len() > 0 {
        lemma_split_word(Seq::empty(), a);
        assert(Seq::<char>::empty() + a =~= a);
        assert(Seq::<Seq<char>>::empty().push(a) =~= seq![a]);
    }
}

proof fn lemma_split_after(s: Seq<char>, b: Seq<char>)
    requires
        split_words(s).1.len() == 0,
    ensures
        split_words(s + b).0 == split_words(s).0 + split_words(b).0,
        split_words(s + b).1 == split_words(b).1,
    decreases b.len(),
{
    if b.len() == 0 {
        assert(s + b =~= s);
        assert(split_words(s).0 + split_words(b).0 =~= split_words(s).0);
        assert(split_words(s).1 =~= Seq::<char>::empty());
    } else {
        lemma_split_after(s, b.drop_last());
        assert((s + b).drop_last() =~= s + b.drop_last());
        assert((s + b).last() == b.last());
        let (done, word) = split_words(b.drop_last());
        assert((split_words(s).0 + done).push(word) =~= split_words(s).0 + done.push(word));
    }
}

/// The space, the tab and the ends of lines are white space; no other character that can be
/// seen on a keyboard of ASCII is.
pub proof fn lemma_white(c: char)
    requires
        c < '\u{80}',
    ensures
        white(c) <==> c == ' ' || c == '\t' || c == '\n' || c == '\r' || c == '\u{b}' || c
            == '\u{c}',
{
}

/// Words that are joined have one space between each two, and nothing else is added.
pub proof fn lemma_spaced(ws: Seq<Seq<char>>, w: Seq<char>)
    ensures
        spaced(seq![w]) == w,
        ws.len() > 0 ==> spaced(ws.push(w)) == spaced(ws) + seq![' '] + w,
{
    reveal_strlit(" ");
    if ws.len() > 0 {
        assert(ws.push(w).drop_last() =~= ws);
        assert(" "@ =~= seq![' ']);
    }
}

/// What a user types to write a key: its name and then the value, which may have any number
/// of words. It comes to a request to write the key with those words, one space between
/// each two.
pub proof fn lemma_write_line(key: Seq<char>, ws: Seq<Seq<char>>)
    requires
        is_word(key),
        ws.len() > 0,
        forall|i: int| 0 <= i < ws.len() ==> is_word(#[trigger] ws[i]),
    ensures
        words_in(spaced(seq!["WRITE"@, key] + ws)) == seq!["WRITE"@, key] + ws,
        command_for("WRITE"@, seq!["WRITE"@, key] + ws) == ParseView::Cmd(
            CommandView::Write(key, spaced(ws), None),
        ),
{
    reveal_strlit("WRITE");
    assert(is_word("WRITE"@));
    let words = seq!["WRITE"@, key] + ws;
    assert forall|i: int| 0 <= i < words.len() implies is_word(#[trigger] words[i]) by {
        if i >= 2 {
            assert(words[i] == ws[i - 2]);
        }
    }
    lemma_words_spaced(words);
    assert(words.skip(2) =~= ws);
}

/// What each command takes. A name that is followed by as many words as the command wants
/// comes to its request, made of those words in their order; one that is followed by fewer
/// or more comes to no request.
pub proof fn lemma_command_words(op: Seq<char>, words: Seq<Seq<char>>)
    requires
        words.len() > 0,
    ensures
        op == "READ"@ ==> command_for(op, words) == if words.len() == 2 {
            ParseView::Cmd(CommandView::Read(words[1]))
        } else {
            ParseView::InvalidInput("Usage: READ <key>"@)
        },
        op == "DELETE"@ ==> command_for(op, words) == if words.len() == 2 {
            ParseView::Cmd(CommandView::Delete(words[1]))
        } else {
            ParseView::InvalidInput("Usage: DELETE <key>"@)
        },
        op == "EXISTS"@ ==> command_for(op, words) == if words.len() == 2 {
            ParseView::Cmd(CommandView::Exists(words[1]))
        } else {
            ParseView::InvalidInput("Usage: EXISTS <key>"@)
        },
        op == "RANGE"@ ==> command_for(op, words) == if words.len() == 3 {
            ParseView::Cmd(CommandView::Range(words[1], words[2]))
        } else {
            ParseView::InvalidInput("Usage: RANGE <start> <end>"@)
        },
        op == "WRITE"@ && words.len() < 3 ==> command_for(op, words) == ParseView::InvalidInput(
            "Usage: WRITE <key> <value>"@,
        ),
        op == "WRITE"@ && words.len() >= 3 ==> (command_for(op, words) matches ParseView::Cmd(
            CommandView::Write(k, v, ttl),
        ) && k == words[1] && ttl is None && v == spaced(words.skip(2))),
        op == "MGET"@ && words.len() < 2 ==> command_for(op, words) == ParseView::InvalidInput(
            "Usage: MGET <key1> <key2> <keyn>"@,
        ),
        op == "MGET"@ && words.len() >= 2 ==> (command_for(op, words) matches ParseView::Cmd(
            CommandView::Mget(ks),
        ) && ks.len() == words.len() - 1 && forall|i: int|
            0 <= i < ks.len() ==> #[trigger] ks[i] == words[i + 1]),
        op == "MSET"@ && words.len() < 3 ==> command_for(op, words) == ParseView::InvalidInput(
            "Usage: MSET <key1> <value1> <keyn> <valuen>"@,
        ),
        op == "MSET"@ && words.len() >= 3 ==> (command_for(op, words) matches ParseView::Cmd(
            CommandView::Mset(ts),
        ) && 2 * ts.len() <= words.len() - 1 <= 2 * ts.len() + 1 && forall|i: int|
            0 <= i < ts.len() ==> (#[trigger] ts[i]).0 == words[2 * i + 1] && ts[i].1 == words[2 * i
                + 2] && ts[i].2 is None),
        op == "COMPACT"@ ==> command_for(op, words) == ParseView::Cmd(CommandView::Compact),
        op == "STATS"@ ==> command_for(op, words) == ParseView::Cmd(CommandView::Stats),
        op == "LIST"@ ==> command_for(op, words) == ParseView::Cmd(CommandView::List),
        op == "PING"@ ==> command_for(op, words) == ParseView::Cmd(CommandView::Ping),
        op == "QUIT"@ ==> command_for(op, words) == ParseView::Quit,
        op != "READ"@ && op != "DELETE"@ && op != "EXISTS"@ && op != "RANGE"@ && op != "WRITE"@ && op
            != "MGET"@ && op != "MSET"@ && op != "COMPACT"@ && op != "STATS"@ && op != "LIST"@ && op
            != "PING"@ && op != "QUIT"@ ==> command_for(op, words) == ParseView::InvalidInput(
            "Unknown command: "@ + op,
        ),
{
    reveal_strlit("READ");
    reveal_strlit("DELETE");
    reveal_strlit("EXISTS");
    reveal_strlit("RANGE");
    reveal_strlit("WRITE");
    reveal_strlit("MGET");
    reveal_strlit("MSET");
    reveal_strlit("COMPACT");
    reveal_strlit("STATS");
    reveal_strlit("LIST");
    reveal_strlit("PING");
    reveal_strlit("QUIT");
    assert("WRITE"@[0] == 'W' && "READ"@[1] == 'E' && "RANGE"@[1] == 'A' && "READ"@.len() == 4
        && "DELETE"@[0] == 'D' && "EXISTS"@[0] == 'E' && "COMPACT"@[0] == 'C' && "STATS"@[0] == 'S'
        && "LIST"@[0] == 'L' && "PING"@[0] == 'P' && "QUIT"@[0] == 'Q' && "MGET"@[1] == 'G'
        && "MSET"@[1] == 'S' && "READ"@[0] == 'R' && "RANGE"@[0] == 'R' && "MGET"@[0] == 'M'
        && "MSET"@[0] == 'M');
}

/// Small letters of ASCII become the capital ones; other characters stay.
pub proof fn lemma_ascii_capital(c: char)
    ensures
        'a' <= c <= 'z' ==> 'A' <= ascii_capital(c) <= 'Z' && ascii_capital(c) as u32 - 'A' as u32
            == c as u32 - 'a' as u32,
        !('a' <= c <= 'z') ==> ascii_capital(c) == c,
{
}

/// The words of a line.
fn words_of(line: &str) -> (words: Vec<String>)
    ensures
        string_views(words@) == words_in(line@),
{
    let chars = chars_of(line);
    let mut words: Vec<String> = Vec::new();
    let mut start: usize = 0;
    let mut i: usize = 0;
    assert(string_views(words@) =~= Seq::empty());
    assert(chars@.subrange(0, 0) =~= Seq::empty());
    while i < chars.len()
        invariant
            chars@ == line@,
            start <= i <= chars@.len(),
            split_words(line@.take(i as int)) == (
                string_views(words@),
                line@.subrange(start as int, i as int),
            ),
        decreases chars@.len() - i,
    {
        let ghost before = string_views(words@);
        assert(line@.take(i + 1).drop_last() =~= line@.take(i as int));
        if is_white(chars[i]) {
            if start < i {
                let word = String::from_str(line.substring_char(start, i));
                assert(word@ =~= line@.subrange(start as int, i as int));
                words.push(word);
                assert(string_views(words@) =~= before.push(word@));
            }
            start = i + 1;
            assert(line@.subrange(start as int, i + 1) =~= Seq::empty());
            assert(start == i + 1);
        } else {
            assert(line@.subrange(start as int, i + 1) =~= line@.subrange(
                start as int,
                i as int,
            ).push(line@[i as int]));
        }
        i = i + 1;
    }
    assert(line@.take(i as int) =~= line@);
    if start < i {
        let ghost before = string_views(words@);
        let word = String::from_str(line.substring_char(start, i));
        assert(word@ =~= line@.subrange(start as int, i as int));
        words.push(word);
        assert(string_views(words@) =~= before.push(word@));
    }
    words
}

fn join_from(words: &Vec<String>, from: usize) -> (s: String)
    requires
        from < words@.len(),
    ensures
        s@ == spaced(string_views(words@).skip(from as int)),
{
    let ghost ws = string_views(words@).skip(from as int);
    let count: usize = words.len();
    let mut s = words[from].clone();
    let mut i: usize = from + 1;
    assert(ws.take(1) =~= seq![words@[from as int]@]);
    while i < count
        invariant
            ws == string_views(words@).skip(from as int),
            count == words@.len(),
            from < i <= words@.len(),
            s@ == spaced(ws.take(i - from)),
        decreases words@.len() - i,
    {
        assert(ws.take(i + 1 - from).drop_last() =~= ws.take(i - from));
        s = s.concat(" ").concat(words[i].as_str());
        i = i + 1;
    }
    assert(ws.take(i - from) =~= ws);
    s
}

fn keys_after(words: &Vec<String>) -> (keys: Vec<String>)
    requires
        words@.len() >= 1,
    ensures
        string_views(keys@) == string_views(words@).skip(1),
{
    let mut keys: Vec<String> = Vec::new();
    let mut i: usize = 1;
    while i < words.len()
        invariant
            1 <= i <= words@.len(),
            string_views(keys@) == string_views(words@).subrange(1, i as int),
        decreases words@.len() - i,
    {
        let ghost before = string_views(keys@);
        keys.push(words[i].clone());
        assert(string_views(keys@) =~= before.push(words@[i as int]@));
        i = i + 1;
        assert(string_views(keys@) =~= string_views(words@).subrange(1, i as int));
    }
    assert(string_views(keys@) =~= string_views(words@).skip(1));
    keys
}

fn items_after(words: &Vec<String>) -> (items: Vec<(String, String, Option<u32>)>)
    requires
        words@.len() >= 1,
    ensures
        item_views(items@) == items_in(string_views(words@)),
{
    let ghost all = items_in(string_views(words@));
    let count: usize = words.len();
    let mut items: Vec<(String, String, Option<u32>)> = Vec::new();
    let mut p: usize = 1;
    while p < count && count - p >= 2
        invariant
            all == items_in(string_views(words@)),
            count == words@.len(),
            1 <= p <= count,
            p == 2 * items@.len() + 1,
            items@.len() <= all.len(),
            item_views(items@) == all.take(items@.len() as int),
        decreases count - p,
    {
        let ghost before = item_views(items@);
        let ghost n = items@.len() as int;
        items.push((words[p].clone(), words[p + 1].clone(), None));
        assert(item_views(items@) =~= before.push((words@[p as int]@, words@[p + 1]@, None)));
        assert(all[n] == (words@[p as int]@, words@[p + 1]@, None::<u32>));
        p = p + 2;
        assert(item_views(items@) =~= all.take(n + 1));
    }
    assert(all.take(items@.len() as int) =~= all);
    items
}

fn usage(text: &str) -> (r: ParseResult)
    ensures
        r@ == ParseView::InvalidInput(text@),
{
    ParseResult::InvalidInput(String::from_str(text))
}

/// What the words of a line come to, given the first of them in capital letters.
pub fn command_of(op: &str, words: &Vec<String>) -> (r: ParseResult)
    requires
        words@.len() >= 1,
    ensures
        r@ == command_for(op@, string_views(words@)),
{
    if same(op, "WRITE") {
        if words.len() > 2 {
            ParseResult::Cmd(Command::Write(words[1].clone(), join_from(words, 2), None))
        } else {
            usage("Usage: WRITE <key> <value>")
        }
    } else if same(op, "READ") {
        if words.len() == 2 {
            ParseResult::Cmd(Command::Read(words[1].clone()))
        } else {
            usage("Usage: READ <key>")
        }
    } else if same(op, "DELETE") {
        if words.len() == 2 {
            ParseResult::Cmd(Command::Delete(words[1].clone()))
        } else {
            usage("Usage: DELETE <key>")
        }
    } else if same(op, "EXISTS") {
        if words.len() == 2 {
            ParseResult::Cmd(Command::Exists(words[1].clone()))
        } else {
            usage("Usage: EXISTS <key>")
        }
    } else if same(op, "COMPACT") {
        ParseResult::Cmd(Command::Compact)
    } else if same(op, "STATS") {
        ParseResult::Cmd(Command::Stats)
    } else if same(op, "LIST") {
        ParseResult::Cmd(Command::List)
    } else if same(op, "PING") {
        ParseResult::Cmd(Command::Ping)
    } else if same(op, "QUIT") {
        ParseResult::Quit
    } else if same(op, "MGET") {
        if words.len() < 2 {
            usage("Usage: MGET <key1> <key2> <keyn>")
        } else {
            ParseResult::Cmd(Command::Mget(keys_after(words)))
        }
    } else if same(op, "MSET") {
        if words.len() < 3 {
            usage("Usage: MSET <key1> <value1> <keyn> <valuen>")
        } else {
            ParseResult::Cmd(Command::Mset(items_after(words)))
        }
    } else if same(op, "RANGE") {
        if words.len() == 3 {
            ParseResult::Cmd(Command::Range(words[1].clone(), words[2].clone()))
        } else {
            usage("Usage: RANGE <start> <end>")
        }
    } else {
        ParseResult::InvalidInput(String::from_str("Unknown command: ").concat(op))
    }
}

/// Parses a line. The command may be written in small letters.
pub fn parse_command(line: &str) -> (r: ParseResult)
    ensures
        r@ == parsed(line@),
        words_in(line@).len() > 0 && (forall|i: int|
            0 <= i < words_in(line@)[0].len() ==> (#[trigger] words_in(line@)[0][i]) < '\u{80}')
            ==> r@ == command_for(
            words_in(line@)[0].map_values(|c: char| ascii_capital(c)),
            words_in(line@),
        ),
        forall|key: Seq<char>, ws: Seq<Seq<char>>|
            is_word(key) && ws.len() > 0 && (forall|i: int|
                0 <= i < ws.len() ==> is_word(#[trigger] ws[i])) && line@ == #[trigger] spaced(
                Seq::empty().push("WRITE"@).push(key) + ws,
            ) ==> r@ == ParseView::Cmd(CommandView::Write(key, spaced(ws), None)),
{
    proof {
        assert forall|key: Seq<char>, ws: Seq<Seq<char>>|
            is_word(key) && ws.len() > 0 && (forall|i: int|
                0 <= i < ws.len() ==> is_word(#[trigger] ws[i])) && line@ == #[trigger] spaced(
                Seq::empty().push("WRITE"@).push(key) + ws,
            ) implies command_for("WRITE"@, words_in(line@)) == ParseView::Cmd(
            CommandView::Write(key, spaced(ws), None),
        ) && words_in(line@)[0] == "WRITE"@ && words_in(line@).len() > 0 by {
            lemma_write_line(key, ws);
            assert(Seq::empty().push("WRITE"@).push(key) =~= seq!["WRITE"@, key]);
        }
        reveal_strlit("WRITE");
        assert("WRITE"@.map_values(|c: char| ascii_capital(c)) =~= "WRITE"@);
    }
    let words = words_of(line);
    assert(string_views(words@).len() == words@.len());
    if words.len() == 0 {
        let r = ParseResult::InvalidInput(String::new());
        assert(r@->InvalidInput_0 =~= Seq::empty());
        return r;
    }
    assert(string_views(words@)[0] == words@[0]@);
    let op = to_capitals(words[0].as_str());
    command_of(op.as_str(), &words)
}

/// A line without words comes to no request, and to nothing that could be said about it. Of
/// a line with words the first one names the command, in capital letters.
pub proof fn lemma_line(line: Seq<char>)
    ensures
        words_in(line).len() == 0 ==> parsed(line) == ParseView::InvalidInput(Seq::empty()),
        words_in(line).len() > 0 ==> parsed(line) == command_for(
            capitals(words_in(line)[0]),
            words_in(line),
        ),
{
}

} // verus!
