//! What the storage engines have in common.

use vstd::prelude::*;
use vstd::utf8::encode_utf8;

use crate::error::StoreError;
use crate::record::TTL_LEN;
use crate::sorted_map::{keys_in_order, lemma_orderable, lemma_orderable_part, orderable};
use crate::text::{byte_len, key_le, key_lt, lemma_key_lt_bytes, string_views};
use crate::utils::expired;

verus! {

/// The time, in milliseconds and in nanoseconds.
#[derive(Clone, Copy, PartialEq, Eq, Structural, Debug)]
pub struct Clock {
    pub ms: u64,
    pub ns: u64,
}

/// The time some nanoseconds after another.
pub open spec fn clock_after(now: Clock, ns: nat) -> Clock {
    Clock {
        ms: now.ms,
        ns: if now.ns + ns <= u64::MAX {
            (now.ns + ns) as u64
        } else {
            u64::MAX
        },
    }
}

/// A clock that goes on by some nanoseconds keeps its milliseconds, and stops at the last
/// nanosecond that it can show.
pub proof fn lemma_clock_after(now: Clock, ns: nat)
    ensures
        clock_after(now, ns).ms == now.ms,
        now.ns + ns <= u64::MAX ==> clock_after(now, ns).ns == now.ns + ns,
        now.ns + ns > u64::MAX ==> clock_after(now, ns).ns == u64::MAX,
{
}

/// What became of a request to change the time at which a key expires.
#[derive(Clone, Copy, PartialEq, Eq, Structural, Debug)]
pub enum TtlOutcome {
    /// The key is not there.
    NotFound,
    /// The key now expires at the time asked for.
    ExpirySet,
    /// The key now never expires.
    Persisted,
}

/// What a store holds for a key.
pub struct Live {
    pub value: Seq<char>,
    pub expiry_ms: Option<u64>,
}

/// The keys of a store, with their values and times of expiry.
pub type Contents = Map<Seq<char>, Live>;

/// A key, a value and a time of expiry.
pub type Item = (Seq<char>, Seq<char>, Option<u64>);

/// The value that a read finds: nothing where the key is missing or has expired.
pub open spec fn visible(c: Contents, key: Seq<char>, now_ms: u64) -> Option<Seq<char>> {
    if c.contains_key(key) && !expired(c[key].expiry_ms, now_ms) {
        Some(c[key].value)
    } else {
        None
    }
}

/// A key with a time of expiry is read up to that time and not from it on; one without such
/// a time is always read. What is read is the value that the contents have for the key.
pub proof fn lemma_visible(c: Contents, key: Seq<char>, now_ms: u64)
    ensures
        visible(c, key, now_ms) is Some <==> c.contains_key(key) && (c[key].expiry_ms matches Some(
            t,
        ) ==> now_ms < t),
        visible(c, key, now_ms) matches Some(v) ==> v == c[key].value,
{
}

/// The contents without what has expired.
pub open spec fn unexpired(c: Contents, now_ms: u64) -> Contents {
    c.restrict(
        Set::new(|k: Seq<char>| c.contains_key(k) && !expired(c[k].expiry_ms, now_ms)),
    )
}

/// What has not expired are the keys without a time of expiry and those whose time is still
/// to come, with what the contents have for them.
pub proof fn lemma_unexpired(c: Contents, key: Seq<char>, now_ms: u64)
    ensures
        unexpired(c, now_ms).contains_key(key) <==> c.contains_key(key) && (
        c[key].expiry_ms matches Some(t) ==> now_ms < t),
        unexpired(c, now_ms).contains_key(key) ==> unexpired(c, now_ms)[key] == c[key],
{
}

/// Dropping what has expired changes nothing that is read from then on.
pub proof fn lemma_unexpired_visible(c: Contents, dropped_ms: u64, key: Seq<char>, now_ms: u64)
    requires
        dropped_ms <= now_ms,
    ensures
        visible(unexpired(c, dropped_ms), key, now_ms) == visible(c, key, now_ms),
{
}

/// What has not expired can be brought into an order where all can.
pub proof fn lemma_unexpired_ordered(c: Contents, now_ms: u64)
    requires
        orderable(c),
    ensures
        orderable(unexpired(c, now_ms)),
{
    lemma_orderable_part(c, unexpired(c, now_ms));
}

/// Dropping what has expired changes nothing that is left when that is done again later.
pub proof fn lemma_unexpired_twice(c: Contents, first_ms: u64, second_ms: u64)
    requires
        first_ms <= second_ms,
    ensures
        unexpired(unexpired(c, first_ms), second_ms) == unexpired(c, second_ms),
{
    assert(unexpired(unexpired(c, first_ms), second_ms) =~= unexpired(c, second_ms));
}

/// The contents after items were written, in their order.
pub open spec fn put_all(c: Contents, items: Seq<Item>) -> Contents
    decreases items.len(),
{
    if items.len() == 0 {
        c
    } else {
        let t = items.last();
        put_all(c, items.drop_last()).insert(t.0, Live { value: t.1, expiry_ms: t.2 })
    }
}

/// Of several items with one key the last one counts, and keys that no item has keep
/// what they held.
pub proof fn lemma_put_all(c: Contents, items: Seq<Item>, key: Seq<char>)
    ensures
        (forall|i: int| 0 <= i < items.len() ==> (#[trigger] items[i]).0 != key) ==> {
            &&& put_all(c, items).contains_key(key) == c.contains_key(key)
            &&& c.contains_key(key) ==> put_all(c, items)[key] == c[key]
        },
        forall|i: int|
            0 <= i < items.len() && (#[trigger] items[i]).0 == key && (forall|j: int|
                i < j < items.len() ==> (#[trigger] items[j]).0 != key) ==> {
                &&& put_all(c, items).contains_key(key)
                &&& put_all(c, items)[key] == (Live { value: items[i].1, expiry_ms: items[i].2 })
            },
    decreases items.len(),
{
    if items.len() > 0 {
        let front = items.drop_last();
        lemma_put_all(c, front, key);
        let n = items.len() - 1;
        assert forall|i: int| 0 <= i < front.len() implies #[trigger] front[i] == items[i] by {}
        assert forall|i: int|
            0 <= i < items.len() && (#[trigger] items[i]).0 == key && (forall|j: int|
                i < j < items.len() ==> (#[trigger] items[j]).0 != key) implies {
            &&& put_all(c, items).contains_key(key)
            &&& put_all(c, items)[key] == (Live { value: items[i].1, expiry_ms: items[i].2 })
        } by {
            if i < n {
                assert(items[n].0 != key);
                assert(front[i].0 == key);
            }
        }
        if forall|i: int| 0 <= i < items.len() ==> (#[trigger] items[i]).0 != key {
            assert(items[n].0 != key);
        }
    }
}

/// Whether a key and a value fit into memory beside what an engine holds there.
pub open spec fn fits_in_memory(key: Seq<char>, value: Seq<char>) -> bool {
    byte_len(key) + byte_len(value) + TTL_LEN <= usize::MAX / 2
}

/// What the items of a sequence say.
pub open spec fn timed_views(v: Seq<(String, String, Option<u64>)>) -> Seq<Item> {
    v.map_values(|t: (String, String, Option<u64>)| (t.0@, t.1@, t.2))
}

/// What the answers of a sequence say.
pub open spec fn answer_views(v: Seq<(String, Option<String>)>) -> Seq<
    (Seq<char>, Option<Seq<char>>),
> {
    v.map_values(
        |t: (String, Option<String>)|
            (
                t.0@,
                match t.1 {
                    Some(s) => Some(s@),
                    None => None,
                },
            ),
    )
}

/// What reads of several keys find, where `read` says what a read of one finds. The
/// first error ends it.
pub open spec fn reads(
    read: spec_fn(Seq<char>) -> Result<Option<Seq<char>>, StoreError>,
    keys: Seq<Seq<char>>,
) -> Result<Seq<(Seq<char>, Option<Seq<char>>)>, StoreError>
    decreases keys.len(),
{
    if keys.len() == 0 {
        Ok(Seq::empty())
    } else {
        match reads(read, keys.drop_last()) {
            Err(e) => Err(e),
            Ok(found) => match read(keys.last()) {
                Err(e) => Err(e),
                Ok(v) => Ok(found.push((keys.last(), v))),
            },
        }
    }
}

/// Reading several keys gives each of them, in their order, with what a read of it finds. It
/// fails just where one of the reads does, with the error of the first that does.
pub proof fn lemma_reads(
    read: spec_fn(Seq<char>) -> Result<Option<Seq<char>>, StoreError>,
    keys: Seq<Seq<char>>,
)
    ensures
        match reads(read, keys) {
            Ok(found) => {
                &&& found.len() == keys.len()
                &&& forall|i: int|
                    0 <= i < keys.len() ==> (#[trigger] found[i]).0 == keys[i] && read(keys[i])
                        == Ok::<Option<Seq<char>>, StoreError>(found[i].1)
            },
            Err(e) => exists|n: int|
                {
                    &&& 0 <= n < keys.len()
                    &&& read(#[trigger] keys[n]) == Err::<Option<Seq<char>>, StoreError>(e)
                    &&& forall|i: int| 0 <= i < n ==> read(#[trigger] keys[i]) is Ok
                },
        },
    decreases keys.len(),
{
    if keys.len() > 0 {
        let front = keys.drop_last();
        lemma_reads(read, front);
        match reads(read, front) {
            Ok(before) => {
                assert forall|i: int| 0 <= i < front.len() implies read(#[trigger] keys[i]) is Ok by {
                    assert(before[i].0 == front[i]);
                }
                match read(keys.last()) {
                    Ok(v) => {
                        let found = reads(read, keys)->Ok_0;
                        assert forall|i: int| 0 <= i < keys.len() implies (#[trigger] found[i]).0
                            == keys[i] && read(keys[i]) == Ok::<Option<Seq<char>>, StoreError>(
                            found[i].1,
                        ) by {
                            if i < front.len() {
                                assert(found[i] == before[i]);
                                assert(before[i].0 == front[i]);
                            }
                        }
                    },
                    Err(e) => {
                        assert(read(keys[keys.len() - 1]) == Err::<Option<Seq<char>>, StoreError>(
                            e,
                        ));
                    },
                }
            },
            Err(e) => {
                let n = choose|n: int|
                    {
                        &&& 0 <= n < front.len()
                        &&& read(#[trigger] front[n]) == Err::<Option<Seq<char>>, StoreError>(e)
                        &&& forall|i: int| 0 <= i < n ==> read(#[trigger] front[i]) is Ok
                    };
                assert(keys[n] == front[n]);
                assert forall|i: int| 0 <= i < n implies read(#[trigger] keys[i]) is Ok by {
                    assert(front[i] == keys[i]);
                }
            },
        }
    }
}

proof fn lemma_reads_stop(
    read: spec_fn(Seq<char>) -> Result<Option<Seq<char>>, StoreError>,
    keys: Seq<Seq<char>>,
    n: int,
)
    requires
        0 <= n <= keys.len(),
        reads(read, keys.take(n)) is Err,
    ensures
        reads(read, keys) == reads(read, keys.take(n)),
    decreases keys.len() - n,
{
    if n == keys.len() {
        assert(keys.take(n) =~= keys);
    } else {
        assert(keys.take(n + 1).drop_last() =~= keys.take(n));
        lemma_reads_stop(read, keys, n + 1);
    }
}

/// The first of some items that is refused, with the reason, where `refused` says why a
/// key and a value are.
pub open spec fn first_refused(
    refused: spec_fn(Seq<char>, Seq<char>) -> Option<StoreError>,
    items: Seq<Item>,
) -> Option<(int, StoreError)>
    decreases items.len(),
{
    if items.len() == 0 {
        None
    } else {
        match first_refused(refused, items.drop_last()) {
            Some(x) => Some(x),
            None => match refused(items.last().0, items.last().1) {
                Some(e) => Some((items.len() - 1, e)),
                None => None,
            },
        }
    }
}

/// The first item that is refused is one that is refused, with its reason, and none before
/// it is; there is no first where none is refused.
pub proof fn lemma_first_refused(
    refused: spec_fn(Seq<char>, Seq<char>) -> Option<StoreError>,
    items: Seq<Item>,
)
    ensures
        match first_refused(refused, items) {
            Some((n, e)) => {
                &&& 0 <= n < items.len()
                &&& refused(items[n].0, items[n].1) == Some(e)
                &&& forall|i: int|
                    0 <= i < n ==> refused((#[trigger] items[i]).0, items[i].1) is None
            },
            None => forall|i: int|
                0 <= i < items.len() ==> refused((#[trigger] items[i]).0, items[i].1) is None,
        },
    decreases items.len(),
{
    if items.len() > 0 {
        let front = items.drop_last();
        lemma_first_refused(refused, front);
        assert forall|i: int| 0 <= i < front.len() implies #[trigger] items[i] == front[i] by {}
        if let Some((n, _)) = first_refused(refused, front) {
            assert(items[n] == front[n]);
        }
    }
}

proof fn lemma_refused_stays(
    refused: spec_fn(Seq<char>, Seq<char>) -> Option<StoreError>,
    items: Seq<Item>,
    n: int,
)
    requires
        0 <= n <= items.len(),
        first_refused(refused, items.take(n)) is Some,
    ensures
        first_refused(refused, items) == first_refused(refused, items.take(n)),
    decreases items.len() - n,
{
    if n == items.len() {
        assert(items.take(n) =~= items);
    } else {
        assert(items.take(n + 1).drop_last() =~= items.take(n));
        lemma_refused_stays(refused, items, n + 1);
    }
}

/// Whether a step leads from one of some states to the next. Only the last step ends
/// as `end` says; those before it end well.
pub open spec fn stepped<S>(
    states: Seq<S>,
    i: int,
    step: spec_fn(int, S, S, Option<StoreError>) -> bool,
    end: Option<StoreError>,
) -> bool {
    step(
        i,
        states[i],
        states[i + 1],
        if i + 2 == states.len() {
            end
        } else {
            None
        },
    )
}

/// Whether the states are those that a run of at most `n` steps goes through. One that
/// ends well takes all of them; one that does not ends with the step that failed.
pub open spec fn run_through<S>(
    states: Seq<S>,
    first: S,
    last: S,
    n: nat,
    step: spec_fn(int, S, S, Option<StoreError>) -> bool,
    end: Option<StoreError>,
) -> bool {
    &&& 1 <= states.len() <= n + 1
    &&& states[0] == first
    &&& states[states.len() - 1] == last
    &&& match end {
        None => states.len() == n + 1,
        Some(_) => states.len() >= 2,
    }
    &&& forall|i: int| 0 <= i < states.len() - 1 ==> #[trigger] stepped(states, i, step, end)
}

/// Whether a run of steps, each of which may fail, leads from one state to another.
pub open spec fn run<S>(
    first: S,
    last: S,
    n: nat,
    step: spec_fn(int, S, S, Option<StoreError>) -> bool,
    end: Option<StoreError>,
) -> bool {
    exists|states: Seq<S>| #[trigger] run_through(states, first, last, n, step, end)
}

proof fn lemma_run_grows<S>(
    states: Seq<S>,
    next: S,
    n: nat,
    step: spec_fn(int, S, S, Option<StoreError>) -> bool,
    end: Option<StoreError>,
)
    requires
        states.len() >= 1,
        run_through(
            states,
            states[0],
            states[states.len() - 1],
            (states.len() - 1) as nat,
            step,
            None,
        ),
        step(states.len() - 1, states[states.len() - 1], next, end),
        match end {
            None => n == states.len(),
            Some(_) => n >= states.len(),
        },
    ensures
        run_through(states.push(next), states[0], next, n, step, end),
{
    let grown = states.push(next);
    assert forall|i: int| 0 <= i < grown.len() - 1 implies #[trigger] stepped(
        grown,
        i,
        step,
        end,
    ) by {
        if i < states.len() - 1 {
            assert(stepped(states, i, step, None));
        }
    }
}

/// The error of a result, if it has one.
pub open spec fn error_in<T>(r: Result<T, StoreError>) -> Option<StoreError> {
    match r {
        Ok(_) => None,
        Err(e) => Some(e),
    }
}

/// What the pairs of a sequence say.
pub open spec fn pair_views(v: Seq<(String, String)>) -> Seq<(Seq<char>, Seq<char>)> {
    v.map_values(|t: (String, String)| (t.0@, t.1@))
}

/// The contents whose keys lie between two keys, both included.
pub open spec fn between(c: Contents, start: Seq<char>, end: Seq<char>) -> Contents {
    c.restrict(
        Set::new(|k: Seq<char>| c.contains_key(k) && key_le(start, k) && key_le(k, end)),
    )
}

/// What lies between two keys can be brought into an order where all can.
pub proof fn lemma_between_ordered(c: Contents, start: Seq<char>, end: Seq<char>)
    requires
        orderable(c),
    ensures
        orderable(between(c, start, end)),
{
    lemma_orderable_part(c, between(c, start, end));
}

/// The keys of some contents in order, each with its value.
pub open spec fn pairs_in_order(c: Contents) -> Seq<(Seq<char>, Seq<char>)> {
    keys_in_order(c).map_values(|k: Seq<char>| (k, c[k].value))
}

/// What a listing of some contents holds: the keys that have not expired, each once, in the
/// order of their bytes.
pub proof fn lemma_listed(c: Contents, now_ms: u64)
    requires
        orderable(c),
    ensures
        ({
            let ks = keys_in_order(unexpired(c, now_ms));
            &&& forall|k: Seq<char>| #[trigger]
                ks.contains(k) <==> c.contains_key(k) && (c[k].expiry_ms matches Some(t)
                    ==> now_ms < t)
            &&& forall|i: int, j: int| 0 <= i < j < ks.len() ==> sooner(#[trigger] ks[i], #[trigger] ks[j])
        }),
{
    lemma_unexpired_ordered(c, now_ms);
    let u = unexpired(c, now_ms);
    let ks = keys_in_order(u);
    lemma_orderable(u);
    assert forall|k: Seq<char>| #[trigger] ks.contains(k) <==> c.contains_key(k) && (
    c[k].expiry_ms matches Some(t) ==> now_ms < t) by {
        assert(u.contains_key(k) <==> ks.contains(k));
    }
    assert forall|i: int, j: int| 0 <= i < j < ks.len() implies sooner(#[trigger] ks[i], #[trigger] ks[j]) by {
        assert(key_lt(ks[i], ks[j]));
        lemma_key_lt_bytes(ks[i], ks[j]);
    }
}

/// Whether the bytes of a string come before those of another: at the first byte in which
/// they differ it has the smaller one, or it has ended there.
pub open spec fn sooner(a: Seq<char>, b: Seq<char>) -> bool {
    exists|i: int|
        {
            &&& 0 <= i <= encode_utf8(a).len()
            &&& i < encode_utf8(b).len()
            &&& #[trigger] encode_utf8(a).take(i) == encode_utf8(b).take(i)
            &&& i == encode_utf8(a).len() || encode_utf8(a)[i] < encode_utf8(b)[i]
        }
}

/// What a range of some contents holds: each key between two keys, both included, that has
/// not expired, once, with its value, in the order of their bytes.
pub proof fn lemma_ranged(c: Contents, start: Seq<char>, end: Seq<char>, now_ms: u64)
    requires
        orderable(c),
    ensures
        ({
            let rows = pairs_in_order(between(unexpired(c, now_ms), start, end));
            &&& forall|k: Seq<char>, v: Seq<char>| #[trigger]
                rows.contains((k, v)) <==> {
                    &&& c.contains_key(k)
                    &&& v == c[k].value
                    &&& c[k].expiry_ms matches Some(t) ==> now_ms < t
                    &&& k == start || sooner(start, k)
                    &&& k == end || sooner(k, end)
                }
            &&& forall|i: int, j: int|
                0 <= i < j < rows.len() ==> sooner((#[trigger] rows[i]).0, (#[trigger] rows[j]).0)
        }),
{
    let u = unexpired(c, now_ms);
    let b = between(u, start, end);
    let ks = keys_in_order(b);
    let rows = pairs_in_order(b);
    lemma_unexpired_ordered(c, now_ms);
    lemma_between_ordered(u, start, end);
    lemma_orderable(b);
    assert forall|k: Seq<char>, v: Seq<char>| #[trigger] rows.contains((k, v)) <==> {
        &&& c.contains_key(k)
        &&& v == c[k].value
        &&& c[k].expiry_ms matches Some(t) ==> now_ms < t
        &&& k == start || sooner(start, k)
        &&& k == end || sooner(k, end)
    } by {
        lemma_key_lt_bytes(start, k);
        lemma_key_lt_bytes(k, end);
        assert(b.contains_key(k) <==> ks.contains(k));
        if rows.contains((k, v)) {
            let i = rows.index_of((k, v));
            assert(rows[i] == (ks[i], b[ks[i]].value));
            assert(ks.contains(ks[i]));
        }
        if b.contains_key(k) {
            let i = ks.index_of(k);
            assert(rows[i] == (ks[i], b[ks[i]].value));
        }
    }
    assert forall|i: int, j: int| 0 <= i < j < rows.len() implies sooner(
        (#[trigger] rows[i]).0,
        (#[trigger] rows[j]).0,
    ) by {
        assert(key_lt(ks[i], ks[j]));
        lemma_key_lt_bytes(ks[i], ks[j]);
    }
}

/// A store of keys and values.
///
/// Each operation says what it makes of any store (`read`, `there`, `wrote`, `erased`).
/// Of a store in good order, which finds in its files what was written to them, it says
/// so over the contents as well.
pub trait StorageEngine: Sized {
    /// Whether what is held in memory is consistent in itself.
    spec fn wf(&self) -> bool;

    /// Whether the store is in good order: it finds in its files what was written to
    /// them.
    spec fn healthy(&self) -> bool;

    /// Whether the files alone give back what the store holds, once it is opened anew.
    spec fn recoverable(&self) -> bool;

    /// The keys with their values and times of expiry.
    spec fn contents(&self) -> Contents;

    /// What a read of a key gives at some time: its value, nothing where it is not there
    /// or has expired, or the error that kept it from being read.
    spec fn read(&self, key: Seq<char>, now_ms: u64) -> Result<Option<Seq<char>>, StoreError>;

    /// The keys that are there at some time, in order, or the error that kept them from
    /// being found.
    spec fn listing(&self, now_ms: u64) -> Result<Seq<Seq<char>>, StoreError>;

    /// Whether a key is there at some time, as far as the store can tell. A key whose value
    /// cannot be read may be there all the same.
    spec fn there(&self, key: Seq<char>, now_ms: u64) -> bool;

    /// Whether that is the store after a write, which ended with an error or with none.
    spec fn wrote(
        &self,
        after: Self,
        key: Seq<char>,
        value: Seq<char>,
        expiry_ms: Option<u64>,
        now: Clock,
        end: Option<StoreError>,
    ) -> bool;

    /// Whether that is the store after a deletion, which ended with an error or with none.
    spec fn erased(
        &self,
        after: Self,
        key: Seq<char>,
        now: Clock,
        end: Option<StoreError>,
    ) -> bool;

    /// In a store in good order a read finds what the contents say.
    proof fn lemma_read(&self, key: Seq<char>, now_ms: u64)
        requires
            self.healthy(),
        ensures
            self.read(key, now_ms) == Ok::<Option<Seq<char>>, StoreError>(
                visible(self.contents(), key, now_ms),
            ),
            self.there(key, now_ms) == visible(self.contents(), key, now_ms) is Some,
    ;

    /// The keys of a store in good order can be brought into an order.
    proof fn lemma_ordered(&self)
        requires
            self.wf(),
            self.healthy(),
        ensures
            orderable(self.contents()),
    ;

    /// A listing of a store in good order has the keys that the contents have.
    proof fn lemma_listing(&self, now_ms: u64)
        requires
            self.wf(),
            self.healthy(),
        ensures
            self.listing(now_ms) == Ok::<Seq<Seq<char>>, StoreError>(
                keys_in_order(unexpired(self.contents(), now_ms)),
            ),
    ;

    /// Why a store in good order refuses a key and a value that it could keep in good
    /// order, if it does.
    spec fn refused(key: Seq<char>, value: Seq<char>) -> Option<StoreError>;

    /// A store in good order refuses nothing else.
    proof fn lemma_refused(
        &self,
        key: Seq<char>,
        value: Seq<char>,
        expiry_ms: Option<u64>,
        now: Clock,
    )
        requires
            self.wf(),
            self.healthy(),
            self.orderly(key, value, now),
        ensures
            self.write_error(key, value, expiry_ms, now) == Self::refused(key, value),
    ;

    /// Why a write is refused, if it is.
    spec fn write_error(
        &self,
        key: Seq<char>,
        value: Seq<char>,
        expiry_ms: Option<u64>,
        now: Clock,
    ) -> Option<StoreError>;

    /// Why a deletion is refused, if it is.
    spec fn delete_error(&self, key: Seq<char>, now: Clock) -> Option<StoreError>;

    /// Whether a write of that size at that time is one that the store can keep in
    /// good order: it can be read back from the files, and no file was begun later.
    spec fn orderly(&self, key: Seq<char>, value: Seq<char>, now: Clock) -> bool;

    /// Whether a compaction may run at that time.
    spec fn compactable(&self, now: Clock) -> bool;

    /// The bytes of records that no key needs any more.
    spec fn spec_dead_bytes(&self) -> u64;

    /// The bytes of all records.
    spec fn spec_total_bytes(&self) -> u64;

    /// The number of files that hold records.
    spec fn spec_segment_count(&self) -> nat;

    /// Reads a key. What has expired is not found.
    fn get(&self, key: &str, now: Clock) -> (r: Result<Option<(String, String)>, StoreError>)
        requires
            self.wf(),
        ensures
            match r {
                Ok(Some((k, v))) => self.read(key@, now.ms) == Ok::<
                    Option<Seq<char>>,
                    StoreError,
                >(Some(v@)) && (self.healthy() ==> k@ == key@),
                Ok(None) => self.read(key@, now.ms) == Ok::<Option<Seq<char>>, StoreError>(None),
                Err(e) => self.read(key@, now.ms) == Err::<Option<Seq<char>>, StoreError>(e),
            },
            self.healthy() ==> self.read(key@, now.ms) == Ok::<Option<Seq<char>>, StoreError>(
                visible(self.contents(), key@, now.ms),
            ),
            self.healthy() ==> {
                let c = self.contents();
                match r {
                    Ok(Some((_, v))) => {
                        &&& c.contains_key(key@)
                        &&& v@ == c[key@].value
                        &&& c[key@].expiry_ms matches Some(t) ==> now.ms < t
                    },
                    Ok(None) => c.contains_key(key@) ==> (c[key@].expiry_ms matches Some(t) && t
                        <= now.ms),
                    Err(_) => false,
                }
            },
    ;

    /// Writes a key that expires at some time, or never.
    fn set_with_ttl(&mut self, key: &str, value: &str, expiry_ms: Option<u64>, now: Clock) -> (r:
        Result<(), StoreError>)
        requires
            old(self).wf(),
            fits_in_memory(key@, value@),
        ensures
            final(self).wf(),
            old(self).write_error(key@, value@, expiry_ms, now) == error_in(r),
            old(self).wrote(*final(self), key@, value@, expiry_ms, now, error_in(r)),
            forall|k: Seq<char>, v: Seq<char>, later: Clock|
                later.ns > now.ns && old(self).orderly(k, v, now) ==> #[trigger] final(
                self).orderly(k, v, later),
            old(self).healthy() && old(self).orderly(key@, value@, now) ==> {
                &&& final(self).healthy()
                &&& old(self).recoverable() ==> final(self).recoverable()
                &&& final(self).contents() == match r {
                    Ok(_) => old(self).contents().insert(key@, Live { value: value@, expiry_ms }),
                    Err(_) => old(self).contents(),
                }
            },
    ;

    /// Writes a key that never expires.
    fn set(&mut self, key: &str, value: &str, now: Clock) -> (r: Result<(), StoreError>)
        requires
            old(self).wf(),
            fits_in_memory(key@, value@),
        ensures
            final(self).wf(),
            old(self).write_error(key@, value@, None, now) == error_in(r),
            old(self).wrote(*final(self), key@, value@, None, now, error_in(r)),
            forall|k: Seq<char>, v: Seq<char>, later: Clock|
                later.ns > now.ns && old(self).orderly(k, v, now) ==> #[trigger] final(
                self).orderly(k, v, later),
            old(self).healthy() && old(self).orderly(key@, value@, now) ==> {
                &&& final(self).healthy()
                &&& old(self).recoverable() ==> final(self).recoverable()
                &&& final(self).contents() == match r {
                    Ok(_) => old(self).contents().insert(
                        key@,
                        Live { value: value@, expiry_ms: None },
                    ),
                    Err(_) => old(self).contents(),
                }
            },
    {
        self.set_with_ttl(key, value, None, now)
    }

    /// Deletes a key. Says whether it was there.
    fn delete(&mut self, key: &str, now: Clock) -> (r: Result<Option<()>, StoreError>)
        requires
            old(self).wf(),
            fits_in_memory(key@, Seq::empty()),
        ensures
            final(self).wf(),
            old(self).delete_error(key@, now) == error_in(r),
            r matches Ok(x) ==> (x is Some <==> old(self).there(key@, now.ms)),
            old(self).erased(*final(self), key@, now, error_in(r)),
            old(self).healthy() && old(self).orderly(key@, Seq::empty(), now) ==> {
                &&& final(self).healthy()
                &&& old(self).recoverable() ==> final(self).recoverable()
                &&& final(self).contents() == match r {
                    Ok(_) => old(self).contents().remove(key@),
                    Err(_) => old(self).contents(),
                }
            },
    ;

    /// Rewrites the files without what is no longer needed.
    fn compact(&mut self, now: Clock) -> (r: Result<(), StoreError>)
        requires
            old(self).wf(),
        ensures
            final(self).wf(),
            old(self).healthy() && old(self).compactable(now) ==> {
                &&& r is Ok
                &&& final(self).healthy()
                &&& old(self).recoverable() ==> final(self).recoverable()
                &&& final(self).contents() == unexpired(old(self).contents(), now.ms)
            },
    ;

    /// The bytes of records that no key needs any more.
    fn dead_bytes(&self) -> (n: u64)
        ensures
            n == self.spec_dead_bytes(),
    ;

    /// The bytes of all records.
    fn total_bytes(&self) -> (n: u64)
        ensures
            n == self.spec_total_bytes(),
    ;

    /// The number of files that hold records.
    fn segment_count(&self) -> (n: usize)
        requires
            self.wf(),
        ensures
            n == self.spec_segment_count(),
    ;

    /// The keys that are there, in order.
    fn list_keys(&self, now: Clock) -> (r: Result<Vec<String>, StoreError>)
        requires
            self.wf(),
        ensures
            match r {
                Ok(keys) => self.listing(now.ms) == Ok::<Seq<Seq<char>>, StoreError>(
                    string_views(keys@),
                ),
                Err(e) => self.listing(now.ms) == Err::<Seq<Seq<char>>, StoreError>(e),
            },
            self.healthy() ==> self.listing(now.ms) == Ok::<Seq<Seq<char>>, StoreError>(
                keys_in_order(unexpired(self.contents(), now.ms)),
            ),
            self.healthy() ==> match r {
                Ok(keys) => forall|k: Seq<char>| #[trigger]
                    string_views(keys@).contains(k) <==> self.contents().contains_key(k) && (
                    self.contents()[k].expiry_ms matches Some(t) ==> now.ms < t),
                Err(_) => false,
            },
    ;

    /// Whether a key is there.
    fn contains(&self, key: &str, now: Clock) -> (r: bool)
        requires
            self.wf(),
        ensures
            r == self.there(key@, now.ms),
            self.healthy() ==> (r <==> self.contents().contains_key(key@) && (
            self.contents()[key@].expiry_ms matches Some(t) ==> now.ms < t)),
    ;

    /// Changes the time at which a key expires. Nothing in its place means never.
    fn ttl(&mut self, key: &str, expiry_ms: Option<u64>, now: Clock) -> (r: Result<
        TtlOutcome,
        StoreError,
    >)
        requires
            old(self).wf(),
        ensures
            final(self).wf(),
            match old(self).read(key@, now.ms) {
                Err(e) => r == Err::<TtlOutcome, StoreError>(e) && *final(self) == *old(self),
                Ok(None) => {
                    &&& r == Ok::<TtlOutcome, StoreError>(TtlOutcome::NotFound)
                    &&& *final(self) == *old(self)
                },
                Ok(Some(v)) => if fits_in_memory(key@, v) {
                    &&& old(self).write_error(key@, v, expiry_ms, now) == error_in(r)
                    &&& old(self).wrote(*final(self), key@, v, expiry_ms, now, error_in(r))
                    &&& r matches Ok(outcome) ==> outcome == if expiry_ms is Some {
                        TtlOutcome::ExpirySet
                    } else {
                        TtlOutcome::Persisted
                    }
                } else {
                    &&& r == Err::<TtlOutcome, StoreError>(StoreError::TooLarge)
                    &&& *final(self) == *old(self)
                },
            },
            old(self).healthy() ==> match visible(old(self).contents(), key@, now.ms) {
                None => final(self).contents() == old(self).contents() && final(self).healthy(),
                Some(v) => old(self).orderly(key@, v, now) ==> {
                    &&& final(self).healthy()
                    &&& old(self).recoverable() ==> final(self).recoverable()
                    &&& final(self).contents() == match r {
                        Ok(_) => old(self).contents().insert(key@, Live { value: v, expiry_ms }),
                        Err(_) => old(self).contents(),
                    }
                },
            },
    ;

    /// Reads several keys. The first error ends it.
    fn mget(&self, keys: Vec<String>, now: Clock) -> (r: Result<
        Vec<(String, Option<String>)>,
        StoreError,
    >)
        requires
            self.wf(),
        ensures
            match r {
                Ok(res) => reads(
                    |k: Seq<char>| self.read(k, now.ms),
                    string_views(keys@),
                ) == Ok::<Seq<(Seq<char>, Option<Seq<char>>)>, StoreError>(answer_views(res@)),
                Err(e) => reads(
                    |k: Seq<char>| self.read(k, now.ms),
                    string_views(keys@),
                ) == Err::<Seq<(Seq<char>, Option<Seq<char>>)>, StoreError>(e),
            },
    {
        let mut res: Vec<(String, Option<String>)> = Vec::new();
        let ghost ks = string_views(keys@);
        let ghost read = |k: Seq<char>| self.read(k, now.ms);
        assert(ks.take(0) =~= Seq::<Seq<char>>::empty());
        assert(answer_views(res@) =~= Seq::<(Seq<char>, Option<Seq<char>>)>::empty());
        for i in 0..keys.len()
            invariant
                self.wf(),
                ks == string_views(keys@),
                read == (|k: Seq<char>| self.read(k, now.ms)),
                reads(read, ks.take(i as int)) == Ok::<
                    Seq<(Seq<char>, Option<Seq<char>>)>,
                    StoreError,
                >(answer_views(res@)),
        {
            let key = &keys[i];
            assert(key@ == ks[i as int]);
            assert(ks.take(i + 1).drop_last() =~= ks.take(i as int));
            let ghost before = answer_views(res@);
            match self.get(key.as_str(), now) {
                Ok(Some((_, v))) => {
                    let ghost a = (key@, Some(v@));
                    res.push((key.clone(), Some(v)));
                    assert(answer_views(res@) =~= before.push(a));
                },
                Ok(None) => {
                    let ghost a = (key@, None::<Seq<char>>);
                    res.push((key.clone(), None));
                    assert(answer_views(res@) =~= before.push(a));
                },
                Err(e) => {
                    proof {
                        lemma_reads_stop(read, ks, i + 1);
                    }
                    return Err(e);
                },
            }
        }
        assert(ks.take(keys@.len() as int) =~= ks);
        Ok(res)
    }

    /// Writes several keys, in their order, each a nanosecond after the one before.
    /// The first refusal ends it; what comes before it stays written.
    fn mset(&mut self, items: Vec<(String, String, Option<u64>)>, now: Clock) -> (r: Result<
        (),
        StoreError,
    >)
        requires
            old(self).wf(),
            forall|i: int|
                0 <= i < items@.len() ==> fits_in_memory(
                    (#[trigger] items@[i]).0@,
                    items@[i].1@,
                ),
        ensures
            final(self).wf(),
            run(
                *old(self),
                *final(self),
                items@.len(),
                |i: int, a: Self, b: Self, end: Option<StoreError>|
                    {
                        let t = timed_views(items@)[i];
                        let at = clock_after(now, i as nat);
                        &&& a.write_error(t.0, t.1, t.2, at) == end
                        &&& a.wrote(b, t.0, t.1, t.2, at, end)
                    },
                error_in(r),
            ),
            ({
                let ts = timed_views(items@);
                &&& now.ns + items@.len() <= u64::MAX
                &&& old(self).healthy()
                &&& forall|i: int|
                    0 <= i < ts.len() ==> old(self).orderly(
                        (#[trigger] ts[i]).0,
                        ts[i].1,
                        now,
                    )
            }) ==> final(self).healthy() && (old(self).recoverable()
                ==> final(self).recoverable()) && match first_refused(
                |k: Seq<char>, v: Seq<char>| Self::refused(k, v),
                timed_views(items@),
            ) {
                None => {
                    &&& r is Ok
                    &&& final(self).contents() == put_all(
                        old(self).contents(),
                        timed_views(items@),
                    )
                },
                Some((n, e)) => {
                    &&& r == Err::<(), StoreError>(e)
                    &&& final(self).contents() == put_all(
                        old(self).contents(),
                        timed_views(items@).take(n),
                    )
                },
            },
    {
        let ghost ts = timed_views(items@);
        let ghost refuse = |k: Seq<char>, v: Seq<char>| Self::refused(k, v);
        let ghost good = now.ns + items@.len() <= u64::MAX && old(self).healthy() && forall|i: int|
            0 <= i < ts.len() ==> old(self).orderly((#[trigger] ts[i]).0, ts[i].1, now);
        let ghost step = |i: int, a: Self, b: Self, end: Option<StoreError>|
            {
                let t = timed_views(items@)[i];
                let at = clock_after(now, i as nat);
                &&& a.write_error(t.0, t.1, t.2, at) == end
                &&& a.wrote(b, t.0, t.1, t.2, at, end)
            };
        let ghost mut states: Seq<Self> = seq![*self];
        let mut ns: u64 = now.ns;
        assert(ts.take(0) =~= Seq::<Item>::empty());
        assert(run_through(states, *old(self), *self, 0, step, None));
        for i in 0..items.len()
            invariant
                self.wf(),
                ts == timed_views(items@),
                refuse == (|k: Seq<char>, v: Seq<char>| Self::refused(k, v)),
                forall|j: int|
                    0 <= j < items@.len() ==> fits_in_memory(
                        (#[trigger] items@[j]).0@,
                        items@[j].1@,
                    ),
                good == (now.ns + items@.len() <= u64::MAX && old(self).healthy() && forall|j: int|
                    0 <= j < ts.len() ==> old(self).orderly((#[trigger] ts[j]).0, ts[j].1, now)),
                step == (|i: int, a: Self, b: Self, end: Option<StoreError>|
                    {
                        let t = timed_views(items@)[i];
                        let at = clock_after(now, i as nat);
                        &&& a.write_error(t.0, t.1, t.2, at) == end
                        &&& a.wrote(b, t.0, t.1, t.2, at, end)
                    }),
                (Clock { ms: now.ms, ns }) == clock_after(now, i as nat),
                run_through(states, *old(self), *self, i as nat, step, None),
                good ==> {
                    &&& ns == now.ns + i
                    &&& self.healthy()
                    &&& old(self).recoverable() ==> self.recoverable()
                    &&& first_refused(refuse, ts.take(i as int)) is None
                    &&& self.contents() == put_all(old(self).contents(), ts.take(i as int))
                    &&& forall|j: int|
                        0 <= j < ts.len() ==> self.orderly(
                            (#[trigger] ts[j]).0,
                            ts[j].1,
                            Clock { ms: now.ms, ns },
                        )
                },
        {
            let t = &items[i];
            let at = Clock { ms: now.ms, ns };
            assert(ts[i as int] == (t.0@, t.1@, t.2));
            assert(ts.take(i + 1).drop_last() =~= ts.take(i as int));
            proof {
                if good {
                    self.lemma_refused(ts[i as int].0, ts[i as int].1, ts[i as int].2, at);
                }
            }
            let ghost before = *self;
            match self.set_with_ttl(t.0.as_str(), t.1.as_str(), t.2, at) {
                Ok(_) => {
                    proof {
                        assert(step(i as int, before, *self, None));
                        lemma_run_grows(states, *self, (i + 1) as nat, step, None);
                        states = states.push(*self);
                    }
                },
                Err(e) => {
                    proof {
                        assert(step(i as int, before, *self, Some(e)));
                        lemma_run_grows(states, *self, items@.len(), step, Some(e));
                        if good {
                            assert(first_refused(refuse, ts.take(i + 1)) == Some((i as int, e)));
                            lemma_refused_stays(refuse, ts, i + 1);
                        }
                    }
                    return Err(e);
                },
            }
            ns = ns.saturating_add(1);
        }
        assert(ts.take(items@.len() as int) =~= ts);
        Ok(())
    }

    /// Runs at most one step of compaction. Says whether one ran.
    fn compact_step(&mut self, now: Clock) -> (r: Result<bool, StoreError>)
        requires
            old(self).wf(),
        ensures
            final(self).wf(),
        default_ensures
            r == Ok::<bool, StoreError>(false),
            *final(self) == *old(self),
    {
        Ok(false)
    }
}

/// A store that can be read in the order of its keys.
pub trait RangeScan: StorageEngine {
    /// The keys between two keys, both included, in order, with their values, or the
    /// error that kept them from being found.
    spec fn ranging(&self, start: Seq<char>, end: Seq<char>, now_ms: u64) -> Result<
        Seq<(Seq<char>, Seq<char>)>,
        StoreError,
    >;

    /// A range of a store in good order has the keys that the contents have there.
    proof fn lemma_ranging(&self, start: Seq<char>, end: Seq<char>, now_ms: u64)
        requires
            self.wf(),
            self.healthy(),
        ensures
            self.ranging(start, end, now_ms) == Ok::<Seq<(Seq<char>, Seq<char>)>, StoreError>(
                pairs_in_order(between(unexpired(self.contents(), now_ms), start, end)),
            ),
    ;

    /// The keys between two keys, both included, in order, with their values.
    fn range(&self, start: &str, end: &str, now: Clock) -> (r: Result<
        Vec<(String, String)>,
        StoreError,
    >)
        requires
            self.wf(),
        ensures
            match r {
                Ok(pairs) => self.ranging(start@, end@, now.ms) == Ok::<
                    Seq<(Seq<char>, Seq<char>)>,
                    StoreError,
                >(pair_views(pairs@)),
                Err(e) => self.ranging(start@, end@, now.ms) == Err::<
                    Seq<(Seq<char>, Seq<char>)>,
                    StoreError,
                >(e),
            },
            self.healthy() ==> self.ranging(start@, end@, now.ms) == Ok::<
                Seq<(Seq<char>, Seq<char>)>,
                StoreError,
            >(pairs_in_order(between(unexpired(self.contents(), now.ms), start@, end@))),
            self.healthy() ==> match r {
                Ok(pairs) => {
                    let c = self.contents();
                    let rows = pair_views(pairs@);
                    &&& forall|k: Seq<char>, v: Seq<char>| #[trigger]
                        rows.contains((k, v)) <==> {
                            &&& c.contains_key(k)
                            &&& v == c[k].value
                            &&& c[k].expiry_ms matches Some(t) ==> now.ms < t
                            &&& k == start@ || sooner(start@, k)
                            &&& k == end@ || sooner(k, end@)
                        }
                    &&& forall|i: int, j: int|
                        0 <= i < j < rows.len() ==> sooner(
                            (#[trigger] rows[i]).0,
                            (#[trigger] rows[j]).0,
                        )
                },
                Err(_) => false,
            },
    ;
}

} // verus!
