//! What a benchmark asks for, and what it makes of the answers.

use vstd::prelude::*;
use vstd::string::StringExecFns;

use crate::bffp::{DecodedResponse, ResponseStatus};
use crate::number::{decimal, decimal_string};
use crate::text::{chars_of, same, string_views};

verus! {

/// Whether a request found what it asked for.
#[derive(Clone, Copy, PartialEq, Eq, Structural, Debug)]
pub enum SendResult {
    Hit,
    Miss,
}

/// The strings of an answer, with a semicolon and a space between each two.
pub open spec fn joined(rows: Seq<Seq<char>>) -> Seq<char>
    decreases rows.len(),
{
    if rows.len() == 0 {
        Seq::empty()
    } else if rows.len() == 1 {
        rows[0]
    } else {
        joined(rows.drop_last()) + "; "@ + rows.last()
    }
}

fn join_rows(rows: &Vec<String>) -> (s: String)
    ensures
        s@ == joined(string_views(rows@)),
{
    let mut s = String::new();
    let ghost rv = string_views(rows@);
    assert(rv.take(0) =~= Seq::empty());
    assert(s@ =~= Seq::empty());
    for i in 0..rows.len()
        invariant
            rv == string_views(rows@),
            s@ == joined(rv.take(i as int)),
    {
        assert(rv.take(i + 1).drop_last() =~= rv.take(i as int));
        if i == 0 {
            s = rows[0].clone();
        } else {
            s = s.concat("; ").concat(rows[i].as_str());
        }
    }
    assert(rv.take(rv.len() as int) =~= rv);
    s
}

/// What an answer says to a benchmark: whether something was found, or what went wrong.
pub fn send_result(res: &DecodedResponse) -> (r: Result<SendResult, String>)
    ensures
        match res.status {
            ResponseStatus::Okay | ResponseStatus::Noop => r == Ok::<SendResult, String>(
                SendResult::Hit,
            ),
            ResponseStatus::NotFound => r == Ok::<SendResult, String>(SendResult::Miss),
            ResponseStatus::Error => r matches Err(e) && e@ == joined(
                string_views(res.payload@),
            ),
        },
{
    match res.status {
        ResponseStatus::Okay | ResponseStatus::Noop => Ok(SendResult::Hit),
        ResponseStatus::NotFound => Ok(SendResult::Miss),
        ResponseStatus::Error => Err(join_rows(&res.payload)),
    }
}

/// What the times that requests took come to, in nanoseconds.
#[derive(Clone, Copy, PartialEq, Eq, Structural, Debug)]
pub struct Latencies {
    pub min: u64,
    pub max: u64,
    pub mean: u64,
    pub p99: u64,
}

/// Whether numbers ascend.
pub open spec fn ascending(s: Seq<u64>) -> bool {
    forall|i: int, j: int| 0 <= i <= j < s.len() ==> s[i] <= s[j]
}

/// The sum of numbers.
pub open spec fn total(s: Seq<u64>) -> nat
    decreases s.len(),
{
    if s.len() == 0 {
        0
    } else {
        total(s.drop_last()) + s.last() as nat
    }
}

proof fn lemma_total_bound(s: Seq<u64>)
    ensures
        total(s) <= s.len() * u64::MAX,
    decreases s.len(),
{
    if s.len() > 0 {
        lemma_total_bound(s.drop_last());
        assert(s.len() * u64::MAX == (s.len() - 1) * u64::MAX + u64::MAX) by (nonlinear_arith);
    }
}

/// Sorts numbers in ascending order.
fn sort_ascending(v: &mut Vec<u64>)
    ensures
        ascending(final(v)@),
        final(v)@.to_multiset() == old(v)@.to_multiset(),
        final(v)@.len() == old(v)@.len(),
{
    let ghost all = v@;
    let n: usize = v.len();
    let mut i: usize = 0;
    while i < n
        invariant
            i <= n,
            n == v@.len(),
            n == all.len(),
            v@.to_multiset() == all.to_multiset(),
            ascending(v@.take(i as int)),
        decreases n - i,
    {
        let mut j: usize = i;
        assert forall|a: int, b: int| 0 <= a <= b < i implies #[trigger] v@[a] <= #[trigger] v@[b] by {
            assert(v@.take(i as int)[a] <= v@.take(i as int)[b]);
        }
        while j > 0 && v[j - 1] > v[j]
            invariant
                j <= i < n,
                n == v@.len(),
                n == all.len(),
                v@.to_multiset() == all.to_multiset(),
                forall|a: int, b: int|
                    0 <= a <= b <= i && a != j && b != j ==> #[trigger] v@[a] <= #[trigger] v@[b],
                forall|b: int| j < b <= i ==> v@[j as int] < #[trigger] v@[b],
            decreases j,
        {
            let ghost before = v@;
            let x: u64 = v[j - 1];
            let y: u64 = v[j];
            v.set(j - 1, y);
            v.set(j, x);
            proof {
                lemma_swapped(before, j - 1, j as int);
                assert(v@ =~= before.update(j - 1, before[j as int]).update(
                    j as int,
                    before[j - 1],
                ));
            }
            j = j - 1;
        }
        i = i + 1;
        assert(ascending(v@.take(i as int)));
    }
    assert(v@.take(n as int) =~= v@);
}

proof fn lemma_swapped(s: Seq<u64>, a: int, b: int)
    requires
        0 <= a < b < s.len(),
    ensures
        s.update(a, s[b]).update(b, s[a]).to_multiset() == s.to_multiset(),
{
    let t = s.update(a, s[b]);
    vstd::seq_lib::to_multiset_update(s, a, s[b]);
    vstd::seq_lib::to_multiset_update(t, b, s[a]);
    s.to_multiset_ensures();
    t.to_multiset_ensures();
    assert(t.update(b, s[a]).to_multiset() =~= s.to_multiset());
}

/// Sorts the times that requests took, and says what they come to: the shortest and the
/// longest, the mean without its fraction, and the one that 99 in 100 do not exceed.
pub fn compute_stats(latencies: &mut Vec<u64>) -> (r: Latencies)
    requires
        0 < old(latencies)@.len() <= u32::MAX,
    ensures
        ascending(final(latencies)@),
        final(latencies)@.to_multiset() == old(latencies)@.to_multiset(),
        final(latencies)@.len() == old(latencies)@.len(),
        ({
            let s = final(latencies)@;
            &&& r.min == s[0]
            &&& r.max == s.last()
            &&& r.mean == total(s) / s.len()
            &&& r.p99 == s[(s.len() * 99 / 100) as int]
            &&& forall|i: int| 0 <= i < s.len() ==> r.min <= #[trigger] s[i] <= r.max
            &&& r.mean * s.len() <= total(s) < (r.mean + 1) * s.len()
            &&& exists|i: int|
                0 <= i < s.len() && #[trigger] s[i] == r.p99 && 100 * i <= 99 * s.len() < 100 * (i
                    + 1)
        }),
{
    sort_ascending(latencies);
    let n: usize = latencies.len();
    let mut sum: u128 = 0;
    for i in 0..n
        invariant
            n == latencies@.len(),
            n <= u32::MAX,
            sum == total(latencies@.take(i as int)),
    {
        proof {
            lemma_total_bound(latencies@.take(i as int));
            assert(i * u64::MAX <= u32::MAX * u64::MAX) by (nonlinear_arith)
                requires
                    i <= u32::MAX,
            ;
            assert(latencies@.take(i + 1).drop_last() =~= latencies@.take(i as int));
        }
        sum = sum + latencies[i] as u128;
    }
    proof {
        assert(latencies@.take(n as int) =~= latencies@);
        lemma_total_bound(latencies@);
        assert(total(latencies@) / n as nat <= u64::MAX) by (nonlinear_arith)
            requires
                total(latencies@) <= n * u64::MAX,
                n > 0,
        ;
    }
    let mean: u64 = (sum / n as u128) as u64;
    let at: usize = (n as u64 * 99 / 100) as usize;
    proof {
        let sum = total(latencies@) as int;
        let d = n as int;
        vstd::arithmetic::div_mod::lemma_fundamental_div_mod(sum, d);
        vstd::arithmetic::div_mod::lemma_mod_bound(sum, d);
        assert(d * (sum / d) == mean * d) by (nonlinear_arith)
            requires
                mean == sum / d,
        ;
        assert((mean + 1) * d == mean * d + d) by (nonlinear_arith);
        let s = latencies@;
        let i = at as int;
        assert(0 <= i < s.len() && 100 * i <= 99 * s.len() < 100 * (i + 1));
        assert(s[i] == s[i]);
    }
    Latencies { min: latencies[0], max: latencies[n - 1], mean, p99: latencies[at] }
}

/// `n` in decimal, with zeros before it up to eight digits.
pub open spec fn padded(n: nat) -> Seq<char> {
    let d = decimal(n);
    if d.len() < 8 {
        Seq::new((8 - d.len()) as nat, |i: int| '0') + d
    } else {
        d
    }
}

fn padded_string(n: usize) -> (s: String)
    ensures
        s@ == padded(n as nat),
{
    let d = decimal_string(n as u64);
    let len: usize = chars_of(d.as_str()).len();
    let mut zeros = String::new();
    let mut i: usize = len;
    assert(zeros@ =~= Seq::new(0, |i: int| '0'));
    while i < 8
        invariant
            len == d@.len(),
            len <= i,
            i <= 8 || i == len,
            zeros@ == Seq::new((i - len) as nat, |i: int| '0'),
        decreases 8 - i,
    {
        zeros = zeros.concat("0");
        i = i + 1;
        proof {
            reveal_strlit("0");
            assert(zeros@ =~= Seq::new((i - len) as nat, |i: int| '0'));
        }
    }
    let s = zeros.concat(d.as_str());
    assert(s@ =~= padded(n as nat));
    s
}

/// The key of a number that is written.
pub open spec fn bench_key(i: nat) -> Seq<char> {
    "bench:key:"@ + padded(i)
}

/// The key of a number that is never written.
pub open spec fn missing_key(i: nat) -> Seq<char> {
    "bench:missing:"@ + padded(i)
}

/// The keys that are written.
pub fn bench_keys(count: usize) -> (keys: Vec<String>)
    ensures
        string_views(keys@) == Seq::new(count as nat, |i: int| bench_key(i as nat)),
{
    let mut keys: Vec<String> = Vec::new();
    for i in 0..count
        invariant
            string_views(keys@) == Seq::new(i as nat, |i: int| bench_key(i as nat)),
    {
        let ghost before = string_views(keys@);
        let key = String::from_str("bench:key:").concat(padded_string(i).as_str());
        keys.push(key);
        assert(string_views(keys@) =~= before.push(key@));
        assert(string_views(keys@) =~= Seq::new((i + 1) as nat, |i: int| bench_key(i as nat)));
    }
    assert(string_views(keys@) =~= Seq::new(count as nat, |i: int| bench_key(i as nat)));
    keys
}

/// How many of the first `i` of `n` reads are misses, where `misses` of them all are to
/// be: they are spread evenly.
pub open spec fn misses_before(i: nat, misses: nat, n: nat) -> nat {
    i * misses / n
}

/// Whether the read at `i` is a miss.
pub open spec fn misses_at(i: nat, misses: nat, n: nat) -> bool {
    misses > 0 && misses_before(i, misses, n) < misses_before(i + 1, misses, n)
}

/// How many of the first `i` reads are misses, counted.
pub open spec fn count_misses(i: nat, misses: nat, n: nat) -> nat
    decreases i,
{
    if i == 0 {
        0
    } else {
        count_misses((i - 1) as nat, misses, n) + if misses_at((i - 1) as nat, misses, n) {
            1nat
        } else {
            0nat
        }
    }
}

/// Exactly as many reads are misses as are to be, and they are spread evenly over all of
/// them.
pub proof fn lemma_misses_spread(i: nat, misses: nat, n: nat)
    requires
        n > 0,
        misses <= n,
    ensures
        count_misses(i, misses, n) == misses_before(i, misses, n),
        count_misses(n, misses, n) == misses,
    decreases i,
{
    lemma_misses_counted(i, misses, n);
    lemma_misses_counted(n, misses, n);
    assert(n * misses / n == misses) by (nonlinear_arith)
        requires
            n > 0,
    ;
}

proof fn lemma_misses_counted(i: nat, misses: nat, n: nat)
    requires
        n > 0,
        misses <= n,
    ensures
        count_misses(i, misses, n) == misses_before(i, misses, n),
    decreases i,
{
    if i == 0 {
        assert(0 * misses / n == 0) by (nonlinear_arith)
            requires
                n > 0,
        ;
    } else {
        let j = (i - 1) as nat;
        lemma_misses_counted(j, misses, n);
        let a = j * misses;
        assert(i * misses == a + misses) by (nonlinear_arith)
            requires
                i == j + 1,
                a == j * misses,
        ;
        assert(a / n <= (a + misses) / n <= a / n + 1) by (nonlinear_arith)
            requires
                n > 0,
                misses <= n,
        ;
        if misses == 0 {
            assert(a / n == (a + misses) / n);
        }
    }
}

/// Whether the read at `i` is a miss.
pub fn is_miss(i: usize, misses: usize, n: usize) -> (r: bool)
    requires
        i < n,
    ensures
        r == misses_at(i as nat, misses as nat, n as nat),
{
    proof {
        assert(i * misses <= usize::MAX * usize::MAX) by (nonlinear_arith)
            requires
                0 <= i <= usize::MAX,
                0 <= misses <= usize::MAX,
        ;
        assert((i + 1) * misses <= usize::MAX * usize::MAX) by (nonlinear_arith)
            requires
                0 <= i + 1 <= usize::MAX,
                0 <= misses <= usize::MAX,
        ;
        assert(usize::MAX * usize::MAX <= u128::MAX) by (nonlinear_arith)
            requires
                usize::MAX <= u64::MAX,
        ;
    }
    let a: u128 = i as u128 * misses as u128 / n as u128;
    let b: u128 = (i as u128 + 1) * misses as u128 / n as u128;
    misses > 0 && a < b
}

/// The keys to be read where `misses` of them are to be missing.
pub open spec fn read_keys(keys: Seq<Seq<char>>, misses: nat) -> Seq<Seq<char>> {
    Seq::new(
        keys.len(),
        |i: int|
            if misses_at(i as nat, misses, keys.len()) {
                missing_key(i as nat)
            } else {
                keys[i]
            },
    )
}

/// The keys to be read: all of them, but for the misses among them.
pub fn build_read_keys(keys: &Vec<String>, misses: usize) -> (out: Vec<String>)
    ensures
        string_views(out@) == read_keys(string_views(keys@), misses as nat),
{
    let mut out: Vec<String> = Vec::new();
    let ghost want = read_keys(string_views(keys@), misses as nat);
    for i in 0..keys.len()
        invariant
            want == read_keys(string_views(keys@), misses as nat),
            string_views(out@) == want.take(i as int),
    {
        let ghost before = string_views(out@);
        let key = if is_miss(i, misses, keys.len()) {
            String::from_str("bench:missing:").concat(padded_string(i).as_str())
        } else {
            keys[i].clone()
        };
        assert(key@ == want[i as int]);
        out.push(key);
        assert(string_views(out@) =~= before.push(key@));
        assert(string_views(out@) =~= want.take(i + 1));
    }
    assert(want.take(want.len() as int) =~= want);
    out
}

/// The keys to be read where each is picked by a number, but for the misses.
pub open spec fn picked_keys(keys: Seq<Seq<char>>, picks: Seq<usize>, misses: nat) -> Seq<
    Seq<char>,
> {
    Seq::new(
        picks.len(),
        |i: int|
            if misses_at(i as nat, misses, picks.len()) {
                missing_key(i as nat)
            } else {
                keys[picks[i] as int]
            },
    )
}

/// The keys to be read, each picked by a number, but for the misses among them.
pub fn build_zipf_read_keys(keys: &Vec<String>, picks: &Vec<usize>, misses: usize) -> (out: Vec<
    String,
>)
    requires
        forall|i: int| 0 <= i < picks@.len() ==> (#[trigger] picks@[i]) < keys@.len(),
    ensures
        string_views(out@) == picked_keys(string_views(keys@), picks@, misses as nat),
{
    let mut out: Vec<String> = Vec::new();
    let ghost want = picked_keys(string_views(keys@), picks@, misses as nat);
    for i in 0..picks.len()
        invariant
            want == picked_keys(string_views(keys@), picks@, misses as nat),
            string_views(out@) == want.take(i as int),
            forall|i: int| 0 <= i < picks@.len() ==> (#[trigger] picks@[i]) < keys@.len(),
    {
        let ghost before = string_views(out@);
        let key = if is_miss(i, misses, picks.len()) {
            String::from_str("bench:missing:").concat(padded_string(i).as_str())
        } else {
            keys[picks[i]].clone()
        };
        assert(key@ == want[i as int]);
        out.push(key);
        assert(string_views(out@) =~= before.push(key@));
        assert(string_views(out@) =~= want.take(i + 1));
    }
    assert(want.take(want.len() as int) =~= want);
    out
}

/// What range queries say.
pub open spec fn query_views(v: Seq<(String, String)>) -> Seq<(Seq<char>, Seq<char>)> {
    v.map_values(|q: (String, String)| (q.0@, q.1@))
}

/// The first and the last key of each full window of keys.
pub open spec fn range_queries(keys: Seq<Seq<char>>, window: nat) -> Seq<(Seq<char>, Seq<char>)> {
    if window == 0 {
        Seq::empty()
    } else {
        Seq::new(
            keys.len() / window,
            |i: int| (keys[i * window], keys[i * window + window - 1]),
        )
    }
}

/// The queries of a benchmark, each of which asks for a window of the keys. The windows
/// follow each other; keys that fill none are left out.
pub fn build_range_queries(keys: &Vec<String>, window: usize) -> (out: Vec<(String, String)>)
    ensures
        query_views(out@) == range_queries(string_views(keys@), window as nat),
{
    let mut out: Vec<(String, String)> = Vec::new();
    let ghost want = range_queries(string_views(keys@), window as nat);
    assert(query_views(out@) =~= want.take(0));
    if window == 0 {
        return out;
    }
    let count: usize = keys.len();
    let mut p: usize = 0;
    proof {
        assert(count == window * (count as int / window as int) + count as int % window as int)
            by {
            vstd::arithmetic::div_mod::lemma_fundamental_div_mod(count as int, window as int);
        }
    }
    while count - p >= window
        invariant
            window > 0,
            count == keys@.len(),
            want == range_queries(string_views(keys@), window as nat),
            p == out@.len() * window,
            p <= count,
            out@.len() <= want.len(),
            query_views(out@) == want.take(out@.len() as int),
        decreases count - p,
    {
        let ghost n = out@.len() as int;
        let ghost before = query_views(out@);
        proof {
            assert((n + 1) * window == p + window) by (nonlinear_arith)
                requires
                    p == n * window,
            ;
            assert(n + 1 <= count as nat / window as nat) by (nonlinear_arith)
                requires
                    (n + 1) * window <= count,
                    window > 0,
            ;
        }
        out.push((keys[p].clone(), keys[p + (window - 1)].clone()));
        assert(query_views(out@) =~= before.push(
            (keys@[p as int]@, keys@[p + (window - 1)]@),
        ));
        assert(want[n] == (keys@[p as int]@, keys@[p + (window - 1)]@));
        p = p + window;
        assert(query_views(out@) =~= want.take(n + 1));
    }
    proof {
        let n = out@.len() as int;
        assert(count as nat / window as nat <= n) by (nonlinear_arith)
            requires
                count < n * window + window,
                window > 0,
        ;
        assert(want.take(want.len() as int) =~= want);
    }
    out
}

/// The distance between the keys that are deleted.
pub open spec fn delete_step(count: nat, deletes: nat) -> nat {
    if deletes == 0 || count / deletes == 0 {
        1
    } else {
        count / deletes
    }
}

/// The keys that are deleted: `deletes` of them at equal distances, or as many as there
/// are.
pub open spec fn deleted_keys(keys: Seq<Seq<char>>, deletes: nat) -> Seq<Seq<char>> {
    let step = delete_step(keys.len(), deletes);
    Seq::new(
        if deletes <= keys.len() {
            deletes
        } else {
            keys.len()
        },
        |i: int| keys[i * step],
    )
}

/// The keys that are deleted.
pub fn delete_keys(keys: &Vec<String>, deletes: usize) -> (out: Vec<String>)
    ensures
        string_views(out@) == deleted_keys(string_views(keys@), deletes as nat),
{
    let count: usize = keys.len();
    let step: usize = if deletes == 0 || count / deletes == 0 {
        1
    } else {
        count / deletes
    };
    let ghost want = deleted_keys(string_views(keys@), deletes as nat);
    let mut out: Vec<String> = Vec::new();
    let n: usize = if deletes <= count {
        deletes
    } else {
        count
    };
    assert(n * step <= count) by (nonlinear_arith)
        requires
            n <= deletes,
            n <= count,
            step == (if deletes == 0 || count as int / deletes as int == 0 {
                1
            } else {
                count as int / deletes as int
            }),
    ;
    for i in 0..n
        invariant
            count == keys@.len(),
            n == want.len(),
            n * step <= count,
            step >= 1,
            step == delete_step(count as nat, deletes as nat),
            want == deleted_keys(string_views(keys@), deletes as nat),
            string_views(out@) == want.take(i as int),
    {
        let ghost before = string_views(out@);
        assert(0 <= i * step < n * step) by (nonlinear_arith)
            requires
                0 <= i < n,
                step >= 1,
        ;
        let key = keys[i * step].clone();
        assert(key@ == want[i as int]);
        out.push(key);
        assert(string_views(out@) =~= before.push(key@));
        assert(string_views(out@) =~= want.take(i + 1));
    }
    assert(want.take(n as int) =~= want);
    out
}

/// The keys that are not among those deleted.
pub open spec fn left_over(keys: Seq<Seq<char>>, deleted: Seq<Seq<char>>) -> Seq<Seq<char>> {
    keys.filter(|k: Seq<char>| !deleted.contains(k))
}

fn is_among(key: &str, keys: &Vec<String>) -> (r: bool)
    ensures
        r == string_views(keys@).contains(key@),
{
    for i in 0..keys.len()
        invariant
            forall|j: int| 0 <= j < i ==> #[trigger] string_views(keys@)[j] != key@,
    {
        assert(string_views(keys@)[i as int] == keys@[i as int]@);
        if same(keys[i].as_str(), key) {
            return true;
        }
    }
    false
}

/// The keys that are not among those deleted, in their order.
pub fn surviving_keys(keys: &Vec<String>, deleted: &Vec<String>) -> (out: Vec<String>)
    ensures
        string_views(out@) == left_over(string_views(keys@), string_views(deleted@)),
{
    let mut out: Vec<String> = Vec::new();
    let ghost kv = string_views(keys@);
    let ghost dv = string_views(deleted@);
    let ghost stays = |k: Seq<char>| !dv.contains(k);
    assert(kv.take(0).filter(stays) =~= Seq::empty()) by {
        reveal(Seq::filter);
    }
    assert(string_views(out@) =~= Seq::empty());
    for i in 0..keys.len()
        invariant
            kv == string_views(keys@),
            dv == string_views(deleted@),
            stays == (|k: Seq<char>| !dv.contains(k)),
            string_views(out@) == kv.take(i as int).filter(stays),
    {
        let ghost before = string_views(out@);
        assert(kv.take(i + 1).drop_last() =~= kv.take(i as int));
        proof {
            reveal(Seq::filter);
        }
        if !is_among(keys[i].as_str(), deleted) {
            out.push(keys[i].clone());
            assert(string_views(out@) =~= before.push(kv[i as int]));
        }
    }
    assert(kv.take(kv.len() as int) =~= kv);
    out
}

/// Where the share of the worker `w` of `n` starts, of `count` keys.
pub open spec fn share_start(w: nat, count: nat, n: nat) -> nat {
    w * count / n
}

/// The keys of a worker of `n`: from the first number to before the second.
pub fn worker_share(w: usize, count: usize, n: usize) -> (r: (usize, usize))
    requires
        w < n,
    ensures
        r.0 == share_start(w as nat, count as nat, n as nat),
        r.1 == share_start((w + 1) as nat, count as nat, n as nat),
        r.0 <= r.1 <= count,
{
    proof {
        lemma_shares(w as nat, count as nat, n as nat);
        assert(w * count <= usize::MAX * usize::MAX) by (nonlinear_arith)
            requires
                0 <= w <= usize::MAX,
                0 <= count <= usize::MAX,
        ;
        assert((w + 1) * count <= usize::MAX * usize::MAX) by (nonlinear_arith)
            requires
                0 <= w + 1 <= usize::MAX,
                0 <= count <= usize::MAX,
        ;
        assert(usize::MAX * usize::MAX <= u128::MAX) by (nonlinear_arith)
            requires
                usize::MAX <= u64::MAX,
        ;
    }
    let start: u128 = w as u128 * count as u128 / n as u128;
    let end: u128 = (w as u128 + 1) * count as u128 / n as u128;
    (start as usize, end as usize)
}

/// The shares of the workers follow each other without a gap, and together they are all
/// the keys.
pub proof fn lemma_shares(w: nat, count: nat, n: nat)
    requires
        w < n,
    ensures
        share_start(0, count, n) == 0,
        share_start(n, count, n) == count,
        share_start(w, count, n) <= share_start(w + 1, count, n) <= count,
{
    assert(0 * count / n == 0) by (nonlinear_arith)
        requires
            n > 0,
    ;
    assert(n * count / n == count) by (nonlinear_arith)
        requires
            n > 0,
    ;
    assert(w * count / n <= (w + 1) * count / n) by (nonlinear_arith)
        requires
            n > 0,
    ;
    assert((w + 1) * count / n <= count) by (nonlinear_arith)
        requires
            n > 0,
            w + 1 <= n,
    ;
}

/// The number after `x` of a generator of pseudorandom numbers.
pub open spec fn shuffled(x: u64) -> u64 {
    let a = x ^ (x << 13);
    let b = a ^ (a >> 7);
    b ^ (b << 17)
}

/// A generator of pseudorandom numbers. From a number other than 0 it never comes to 0.
pub struct Rng(pub u64);

impl Rng {
    pub fn new(seed: u64) -> (r: Rng)
        ensures
            r.0 == seed,
    {
        Rng(seed)
    }

    /// The next number.
    pub fn next_u64(&mut self) -> (r: u64)
        ensures
            r == shuffled(old(self).0),
            final(self).0 == r,
            old(self).0 != 0 ==> r != 0,
    {
        let x: u64 = self.0;
        let a: u64 = x ^ (x << 13);
        let b: u64 = a ^ (a >> 7);
        let c: u64 = b ^ (b << 17);
        assert(x != 0 ==> x ^ (x << 13) != 0) by (bit_vector);
        assert(a != 0 ==> a ^ (a >> 7) != 0) by (bit_vector);
        assert(b != 0 ==> b ^ (b << 17) != 0) by (bit_vector);
        self.0 = c;
        c
    }
}

/// The strings of an answer follow each other, with a semicolon and a space between them.
pub proof fn lemma_joined(rows: Seq<Seq<char>>, row: Seq<char>)
    ensures
        joined(Seq::empty()) == Seq::<char>::empty(),
        rows.len() == 0 ==> joined(rows.push(row)) == row,
        rows.len() > 0 ==> joined(rows.push(row)) == joined(rows) + "; "@ + row,
{
    assert(rows.push(row).drop_last() =~= rows);
}

/// Numbers are added up one by one.
pub proof fn lemma_total(s: Seq<u64>, n: u64)
    ensures
        total(Seq::empty()) == 0,
        total(s.push(n)) == total(s) + n,
{
    assert(s.push(n).drop_last() =~= s);
}

/// A padded number ends with its digits. What comes before them is zeros, as many as make
/// eight characters; none where there are eight digits or more.
pub proof fn lemma_padded(n: nat)
    ensures
        padded(n).len() >= 8,
        decimal(n).len() >= 8 ==> padded(n) == decimal(n),
        decimal(n).len() < 8 ==> padded(n).len() == 8,
        decimal(n).len() <= padded(n).len(),
        padded(n).skip(padded(n).len() - decimal(n).len()) == decimal(n),
        forall|i: int|
            0 <= i < padded(n).len() - decimal(n).len() ==> #[trigger] padded(n)[i] == '0',
{
    assert(padded(n).skip(padded(n).len() - decimal(n).len()) =~= decimal(n));
}

/// The keys that are written begin with `bench:key:`, those that never are with
/// `bench:missing:`; the number of the key follows. So no key is both.
pub proof fn lemma_bench_keys(i: nat, j: nat)
    ensures
        bench_key(i) == "bench:key:"@ + padded(i),
        missing_key(i) == "bench:missing:"@ + padded(i),
        bench_key(i) != missing_key(j),
{
    reveal_strlit("bench:key:");
    reveal_strlit("bench:missing:");
    assert(bench_key(i)[6] == 'k');
    assert(missing_key(j)[6] == 'm');
}

/// A read is a miss where the share of misses up to it and with it comes to one more whole
/// miss than up to it alone. What is read then is a key that is never written; otherwise
/// the key of that number, or the one that was picked.
pub proof fn lemma_read_keys(keys: Seq<Seq<char>>, picks: Seq<usize>, misses: nat, i: int)
    ensures
        read_keys(keys, misses).len() == keys.len(),
        picked_keys(keys, picks, misses).len() == picks.len(),
        0 <= i < keys.len() ==> read_keys(keys, misses)[i] == (if misses > 0 && (i * misses) / (
        keys.len() as int) < ((i + 1) * misses) / (keys.len() as int) {
            "bench:missing:"@ + padded(i as nat)
        } else {
            keys[i]
        }),
        0 <= i < picks.len() ==> picked_keys(keys, picks, misses)[i] == (if misses > 0 && (i
            * misses) / (picks.len() as int) < ((i + 1) * misses) / (picks.len() as int) {
            "bench:missing:"@ + padded(i as nat)
        } else {
            keys[picks[i] as int]
        }),
{
}

/// The windows of range queries follow each other without a gap from the first key on, each
/// as long as it should be, and what is left at the end is too short for one more.
pub proof fn lemma_range_queries(keys: Seq<Seq<char>>, window: nat, i: int)
    ensures
        window == 0 ==> range_queries(keys, window).len() == 0,
        window > 0 ==> range_queries(keys, window).len() * window <= keys.len() < (range_queries(
            keys,
            window,
        ).len() + 1) * window,
        window > 0 && 0 <= i < range_queries(keys, window).len() ==> range_queries(keys, window)[i].0
            == keys[i * window] && range_queries(keys, window)[i].1 == keys[(i + 1) * window - 1],
{
    if window > 0 {
        let n = keys.len() as int;
        let w = window as int;
        vstd::arithmetic::div_mod::lemma_fundamental_div_mod(n, w);
        vstd::arithmetic::div_mod::lemma_mod_bound(n, w);
        assert(w * (n / w) == (n / w) * w) by (nonlinear_arith);
        assert((n / w + 1) * w == (n / w) * w + w) by (nonlinear_arith);
        assert((i + 1) * w == i * w + w) by (nonlinear_arith);
    }
}

/// As many keys are deleted as are to be, or all where there are fewer. They are the first
/// one and then one at every further step, and the step is as long as lets them be that
/// many.
pub proof fn lemma_deleted_keys(keys: Seq<Seq<char>>, deletes: nat, i: int)
    ensures
        deletes <= keys.len() ==> deleted_keys(keys, deletes).len() == deletes,
        deletes > keys.len() ==> deleted_keys(keys, deletes) == keys,
        0 < deletes <= keys.len() ==> delete_step(keys.len(), deletes) * deletes <= keys.len() < (
        delete_step(keys.len(), deletes) + 1) * deletes,
        0 <= i < deletes <= keys.len() ==> deleted_keys(keys, deletes)[i] == keys[i * delete_step(
            keys.len(),
            deletes,
        )],
{
    let n = keys.len() as int;
    let d = deletes as int;
    if 0 < d <= n {
        vstd::arithmetic::div_mod::lemma_fundamental_div_mod(n, d);
        vstd::arithmetic::div_mod::lemma_mod_bound(n, d);
        let q = n / d;
        assert(d * q == q * d) by (nonlinear_arith);
        assert((q + 1) * d == q * d + d) by (nonlinear_arith);
        assert(q > 0) by (nonlinear_arith)
            requires
                d * q + n % d == n,
                n % d < d,
                d <= n,
                d > 0,
        ;
    } else if d > n {
        assert(n / d == 0) by (nonlinear_arith)
            requires
                0 <= n < d,
        ;
        assert(delete_step(keys.len(), deletes) == 1);
        assert(deleted_keys(keys, deletes) =~= keys);
    }
}

/// The keys that are left are those that were not deleted, and no others.
pub proof fn lemma_left_over(keys: Seq<Seq<char>>, deleted: Seq<Seq<char>>, k: Seq<char>)
    ensures
        left_over(keys, deleted).contains(k) <==> keys.contains(k) && !deleted.contains(k),
        left_over(keys, deleted).len() <= keys.len(),
    decreases keys.len(),
{
    reveal(Seq::filter);
    if keys.len() > 0 {
        let front = keys.drop_last();
        let before = left_over(front, deleted);
        let r = left_over(keys, deleted);
        lemma_left_over(front, deleted, k);
        assert(keys[keys.len() - 1] == keys.last());
        if front.contains(k) {
            let i = front.index_of(k);
            assert(keys[i] == k);
        }
        if keys.contains(k) && k != keys.last() {
            let i = keys.index_of(k);
            assert(front[i] == k);
        }
        if r.len() > before.len() {
            assert(r[before.len() as int] == keys.last());
            if before.contains(k) {
                let i = before.index_of(k);
                assert(r[i] == k);
            }
            if r.contains(k) && k != keys.last() {
                let i = r.index_of(k);
                assert(before[i] == k);
            }
        }
    }
}

/// The share of a worker starts where its part of all keys does, without the fraction. So
/// no share has more than one key more than another.
pub proof fn lemma_even_shares(w: nat, count: nat, n: nat)
    requires
        w < n,
    ensures
        share_start(w, count, n) * n <= w * count < (share_start(w, count, n) + 1) * n,
        (share_start(w + 1, count, n) - share_start(w, count, n) - 1) * n < count,
        count < (share_start(w + 1, count, n) - share_start(w, count, n) + 1) * n,
{
    let d = n as int;
    let a = (w * count) as int;
    let b = ((w + 1) * count) as int;
    let x = a / d;
    let y = b / d;
    vstd::arithmetic::div_mod::lemma_fundamental_div_mod(a, d);
    vstd::arithmetic::div_mod::lemma_mod_bound(a, d);
    vstd::arithmetic::div_mod::lemma_fundamental_div_mod(b, d);
    vstd::arithmetic::div_mod::lemma_mod_bound(b, d);
    assert((w + 1) * count == w * count + count) by (nonlinear_arith);
    assert(d * x == x * d) by (nonlinear_arith);
    assert((x + 1) * d == x * d + d) by (nonlinear_arith);
    assert((y - x - 1) * d == d * y - d * x - d) by (nonlinear_arith);
    assert((y - x + 1) * d == d * y - d * x + d) by (nonlinear_arith);
}

/// The generator mixes a number with itself moved up by 13 bits, the outcome with itself
/// moved down by 7, and that with itself moved up by 17.
pub proof fn lemma_shuffled(x: u64, a: u64, b: u64)
    requires
        a == x ^ (((x * 0x2000) % 0x1_0000_0000_0000_0000) as u64),
        b == a ^ (a / 0x80),
    ensures
        shuffled(x) == b ^ (((b * 0x2_0000) % 0x1_0000_0000_0000_0000) as u64),
{
    assert(x << 13 == ((x * 0x2000) % 0x1_0000_0000_0000_0000) as u64) by (bit_vector);
    assert(a >> 7 == a / 0x80) by (bit_vector);
    assert(b << 17 == ((b * 0x2_0000) % 0x1_0000_0000_0000_0000) as u64) by (bit_vector);
}

} // verus!
