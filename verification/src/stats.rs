//! Runtime counters.

use vstd::prelude::*;
use vstd::string::StringExecFns;

use crate::number::{decimal, decimal_string, is_digit, lemma_parse_decimal};

verus! {

/// The counters of a server.
#[derive(Debug)]
pub struct Stats {
    pub compacting: bool,
    pub compaction_count: u64,
    pub last_compact_start_ms: u64,
    pub last_compact_end_ms: u64,
    pub write_blocked_attempts: u64,
    pub write_blocked_total_ms: u64,
    pub reads: u64,
    pub writes: u64,
    pub deletes: u64,
    pub active_connections: i64,
}

/// `n` in decimal, with a minus sign where it is negative.
pub open spec fn signed_decimal(n: int) -> Seq<char> {
    if n < 0 {
        seq!['-'] + decimal((-n) as nat)
    } else {
        decimal(n as nat)
    }
}

/// A truth value as text.
pub open spec fn bool_text(b: bool) -> Seq<char> {
    if b {
        "true"@
    } else {
        "false"@
    }
}

fn signed_decimal_string(n: i64) -> (s: String)
    ensures
        s@ == signed_decimal(n as int),
{
    if n < 0 {
        proof {
            reveal_strlit("-");
        }
        let magnitude: u64 = (-(n as i128)) as u64;
        let s = String::from_str("-").concat(decimal_string(magnitude).as_str());
        assert(s@ =~= signed_decimal(n as int));
        s
    } else {
        decimal_string(n as u64)
    }
}

/// The counters as lines of `name=value`.
pub open spec fn snapshot_text(s: Stats) -> Seq<char> {
    "compacting="@ + bool_text(s.compacting) + "\ncompaction_count="@ + decimal(
        s.compaction_count as nat,
    ) + "\nlast_compact_start_ms="@ + decimal(s.last_compact_start_ms as nat)
        + "\nlast_compact_end_ms="@ + decimal(s.last_compact_end_ms as nat)
        + "\nwrite_blocked_attempts="@ + decimal(s.write_blocked_attempts as nat)
        + "\nwrite_blocked_total_ms="@ + decimal(s.write_blocked_total_ms as nat) + "\nreads="@
        + decimal(s.reads as nat) + "\nwrites="@ + decimal(s.writes as nat) + "\ndeletes="@
        + decimal(s.deletes as nat) + "\nactive_connections="@ + signed_decimal(
        s.active_connections as int,
    )
}

/// The lines of a text.
pub open spec fn lines(text: Seq<char>) -> Seq<Seq<char>>
    decreases text.len(),
{
    if text.len() == 0 {
        seq![Seq::empty()]
    } else {
        let before = lines(text.drop_last());
        if text.last() == '\n' {
            before.push(Seq::empty())
        } else {
            before.drop_last().push(before.last().push(text.last()))
        }
    }
}

proof fn lemma_lines_some(text: Seq<char>)
    ensures
        lines(text).len() > 0,
    decreases text.len(),
{
    if text.len() > 0 {
        lemma_lines_some(text.drop_last());
    }
}

proof fn lemma_last_line(text: Seq<char>, line: Seq<char>)
    requires
        forall|i: int| 0 <= i < line.len() ==> #[trigger] line[i] != '\n',
    ensures
        lines(text + seq!['\n'] + line) == lines(text).push(line),
    decreases line.len(),
{
    let all = text + seq!['\n'] + line;
    if line.len() == 0 {
        assert(all.drop_last() =~= text);
        assert(all.last() == '\n');
        assert(line =~= Seq::<char>::empty());
    } else {
        let front = line.drop_last();
        assert forall|i: int| 0 <= i < front.len() implies #[trigger] front[i] != '\n' by {
            assert(line[i] != '\n');
        }
        lemma_last_line(text, front);
        assert(all.drop_last() =~= text + seq!['\n'] + front);
        assert(all.last() == line[line.len() - 1]);
        assert(front.push(line.last()) =~= line);
        assert(lines(text).push(front).drop_last() =~= lines(text));
    }
}

proof fn lemma_only_line(line: Seq<char>)
    requires
        forall|i: int| 0 <= i < line.len() ==> #[trigger] line[i] != '\n',
    ensures
        lines(line) == seq![line],
    decreases line.len(),
{
    if line.len() > 0 {
        let front = line.drop_last();
        assert forall|i: int| 0 <= i < front.len() implies #[trigger] front[i] != '\n' by {
            assert(line[i] != '\n');
        }
        lemma_only_line(front);
        assert(line[line.len() - 1] != '\n');
        assert(front.push(line.last()) =~= line);
        assert(seq![front].drop_last().push(line) =~= seq![line]);
    } else {
        assert(line =~= Seq::<char>::empty());
    }
}

proof fn lemma_line(text: Seq<char>, start: Seq<char>, name: Seq<char>, value: Seq<char>)
    requires
        start == seq!['\n'] + name,
        forall|i: int| 0 <= i < name.len() ==> #[trigger] name[i] != '\n',
        forall|i: int| 0 <= i < value.len() ==> #[trigger] value[i] != '\n',
    ensures
        lines(text + start + value) == lines(text).push(name + value),
{
    let line = name + value;
    assert(text + start + value =~= text + seq!['\n'] + line);
    assert forall|i: int| 0 <= i < line.len() implies #[trigger] line[i] != '\n' by {
        if i < name.len() {
            assert(name[i] != '\n');
        } else {
            assert(value[i - name.len()] != '\n');
        }
    }
    lemma_last_line(text, line);
}

proof fn lemma_digits_only(n: nat)
    ensures
        forall|i: int| 0 <= i < decimal(n).len() ==> #[trigger] decimal(n)[i] != '\n',
{
    lemma_parse_decimal(n, n);
    assert forall|i: int| 0 <= i < decimal(n).len() implies #[trigger] decimal(n)[i] != '\n' by {
        assert(is_digit(decimal(n)[i]));
    }
}

/// The counters are told one to a line, each after its own name: the number of reads after
/// `reads=`, that of writes after `writes=`, and so on.
pub proof fn lemma_snapshot_lines(s: Stats)
    ensures
        ({
            let told = lines(snapshot_text(s));
            &&& told.len() == 10
            &&& told[0] == "compacting="@ + if s.compacting {
                "true"@
            } else {
                "false"@
            }
            &&& told[1] == "compaction_count="@ + decimal(s.compaction_count as nat)
            &&& told[2] == "last_compact_start_ms="@ + decimal(s.last_compact_start_ms as nat)
            &&& told[3] == "last_compact_end_ms="@ + decimal(s.last_compact_end_ms as nat)
            &&& told[4] == "write_blocked_attempts="@ + decimal(s.write_blocked_attempts as nat)
            &&& told[5] == "write_blocked_total_ms="@ + decimal(s.write_blocked_total_ms as nat)
            &&& told[6] == "reads="@ + decimal(s.reads as nat)
            &&& told[7] == "writes="@ + decimal(s.writes as nat)
            &&& told[8] == "deletes="@ + decimal(s.deletes as nat)
            &&& s.active_connections >= 0 ==> told[9] == "active_connections="@ + decimal(
                s.active_connections as nat,
            )
            &&& s.active_connections < 0 ==> told[9] == "active_connections=-"@ + decimal(
                (-s.active_connections) as nat,
            )
        }),
{
    reveal_strlit("compacting=");
    reveal_strlit("true");
    reveal_strlit("false");
    reveal_strlit("active_connections=-");
    reveal_strlit("\ncompaction_count=");
    reveal_strlit("compaction_count=");
    reveal_strlit("\nlast_compact_start_ms=");
    reveal_strlit("last_compact_start_ms=");
    reveal_strlit("\nlast_compact_end_ms=");
    reveal_strlit("last_compact_end_ms=");
    reveal_strlit("\nwrite_blocked_attempts=");
    reveal_strlit("write_blocked_attempts=");
    reveal_strlit("\nwrite_blocked_total_ms=");
    reveal_strlit("write_blocked_total_ms=");
    reveal_strlit("\nreads=");
    reveal_strlit("reads=");
    reveal_strlit("\nwrites=");
    reveal_strlit("writes=");
    reveal_strlit("\ndeletes=");
    reveal_strlit("deletes=");
    reveal_strlit("\nactive_connections=");
    reveal_strlit("active_connections=");
    assert("\ncompaction_count="@ =~= seq!['\n'] + "compaction_count="@);
    assert("\nlast_compact_start_ms="@ =~= seq!['\n'] + "last_compact_start_ms="@);
    assert("\nlast_compact_end_ms="@ =~= seq!['\n'] + "last_compact_end_ms="@);
    assert("\nwrite_blocked_attempts="@ =~= seq!['\n'] + "write_blocked_attempts="@);
    assert("\nwrite_blocked_total_ms="@ =~= seq!['\n'] + "write_blocked_total_ms="@);
    assert("\nreads="@ =~= seq!['\n'] + "reads="@);
    assert("\nwrites="@ =~= seq!['\n'] + "writes="@);
    assert("\ndeletes="@ =~= seq!['\n'] + "deletes="@);
    assert("\nactive_connections="@ =~= seq!['\n'] + "active_connections="@);
    lemma_digits_only(s.compaction_count as nat);
    lemma_digits_only(s.last_compact_start_ms as nat);
    lemma_digits_only(s.last_compact_end_ms as nat);
    lemma_digits_only(s.write_blocked_attempts as nat);
    lemma_digits_only(s.write_blocked_total_ms as nat);
    lemma_digits_only(s.reads as nat);
    lemma_digits_only(s.writes as nat);
    lemma_digits_only(s.deletes as nat);
    lemma_digits_only((-s.active_connections) as nat);
    lemma_digits_only(s.active_connections as nat);
    let conn = signed_decimal(s.active_connections as int);
    assert forall|i: int| 0 <= i < conn.len() implies #[trigger] conn[i] != '\n' by {
        if s.active_connections < 0 && i > 0 {
            assert(conn[i] == decimal((-s.active_connections) as nat)[i - 1]);
        }
    }
    let t0 = "compacting="@ + bool_text(s.compacting);
    lemma_only_line(t0);
    let t1 = t0 + "\ncompaction_count="@ + decimal(s.compaction_count as nat);
    lemma_line(t0, "\ncompaction_count="@, "compaction_count="@, decimal(s.compaction_count as nat));
    let t2 = t1 + "\nlast_compact_start_ms="@ + decimal(s.last_compact_start_ms as nat);
    lemma_line(t1, "\nlast_compact_start_ms="@, "last_compact_start_ms="@, decimal(s.last_compact_start_ms as nat));
    let t3 = t2 + "\nlast_compact_end_ms="@ + decimal(s.last_compact_end_ms as nat);
    lemma_line(t2, "\nlast_compact_end_ms="@, "last_compact_end_ms="@, decimal(s.last_compact_end_ms as nat));
    let t4 = t3 + "\nwrite_blocked_attempts="@ + decimal(s.write_blocked_attempts as nat);
    lemma_line(t3, "\nwrite_blocked_attempts="@, "write_blocked_attempts="@, decimal(s.write_blocked_attempts as nat));
    let t5 = t4 + "\nwrite_blocked_total_ms="@ + decimal(s.write_blocked_total_ms as nat);
    lemma_line(t4, "\nwrite_blocked_total_ms="@, "write_blocked_total_ms="@, decimal(s.write_blocked_total_ms as nat));
    let t6 = t5 + "\nreads="@ + decimal(s.reads as nat);
    lemma_line(t5, "\nreads="@, "reads="@, decimal(s.reads as nat));
    let t7 = t6 + "\nwrites="@ + decimal(s.writes as nat);
    lemma_line(t6, "\nwrites="@, "writes="@, decimal(s.writes as nat));
    let t8 = t7 + "\ndeletes="@ + decimal(s.deletes as nat);
    lemma_line(t7, "\ndeletes="@, "deletes="@, decimal(s.deletes as nat));
    let t9 = t8 + "\nactive_connections="@ + signed_decimal(s.active_connections as int);
    lemma_line(t8, "\nactive_connections="@, "active_connections="@, signed_decimal(s.active_connections as int));
    assert(snapshot_text(s) == t9);
    assert("active_connections=-"@ =~= "active_connections="@ + seq!['-']);
    assert("active_connections="@ + (seq!['-'] + decimal((-s.active_connections) as nat))
        =~= "active_connections=-"@ + decimal((-s.active_connections) as nat));
}

impl Stats {
    /// All counters at zero.
    pub open spec fn zero() -> Stats {
        Stats {
            compacting: false,
            compaction_count: 0,
            last_compact_start_ms: 0,
            last_compact_end_ms: 0,
            write_blocked_attempts: 0,
            write_blocked_total_ms: 0,
            reads: 0,
            writes: 0,
            deletes: 0,
            active_connections: 0,
        }
    }

    /// All counters at zero.
    pub fn new() -> (s: Stats)
        ensures
            s == Stats::zero(),
    {
        Stats {
            compacting: false,
            compaction_count: 0,
            last_compact_start_ms: 0,
            last_compact_end_ms: 0,
            write_blocked_attempts: 0,
            write_blocked_total_ms: 0,
            reads: 0,
            writes: 0,
            deletes: 0,
            active_connections: 0,
        }
    }

    /// The counters as lines of `name=value`.
    pub fn snapshot(&self) -> (s: String)
        ensures
            s@ == snapshot_text(*self),
    {
        let flag: &str = if self.compacting {
            "true"
        } else {
            "false"
        };
        String::from_str("compacting=").concat(flag).concat("\ncompaction_count=").concat(
            decimal_string(self.compaction_count).as_str(),
        ).concat("\nlast_compact_start_ms=").concat(
            decimal_string(self.last_compact_start_ms).as_str(),
        ).concat("\nlast_compact_end_ms=").concat(
            decimal_string(self.last_compact_end_ms).as_str(),
        ).concat("\nwrite_blocked_attempts=").concat(
            decimal_string(self.write_blocked_attempts).as_str(),
        ).concat("\nwrite_blocked_total_ms=").concat(
            decimal_string(self.write_blocked_total_ms).as_str(),
        ).concat("\nreads=").concat(decimal_string(self.reads).as_str()).concat("\nwrites=").concat(
            decimal_string(self.writes).as_str(),
        ).concat("\ndeletes=").concat(decimal_string(self.deletes).as_str()).concat(
            "\nactive_connections=",
        ).concat(signed_decimal_string(self.active_connections).as_str())
    }
}

impl Default for Stats {
    fn default() -> (s: Stats)
        ensures
            s == Stats::zero(),
    {
        Stats::new()
    }
}

/// New counters are all at zero, and no compaction runs.
pub proof fn lemma_zero()
    ensures
        ({
            let s = Stats::zero();
            &&& !s.compacting
            &&& s.compaction_count == 0
            &&& s.last_compact_start_ms == 0
            &&& s.last_compact_end_ms == 0
            &&& s.write_blocked_attempts == 0
            &&& s.write_blocked_total_ms == 0
            &&& s.reads == 0
            &&& s.writes == 0
            &&& s.deletes == 0
            &&& s.active_connections == 0
        }),
{
}

} // verus!
