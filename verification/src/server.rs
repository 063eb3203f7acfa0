//! What the server answers, and what it counts.

use vstd::prelude::*;
use vstd::string::StringExecFns;
use vstd::utf8::encode_utf8;

use crate::bffp::{
    decode_input_frame, encode_frame, item_views, lemma_parsed_within, lemma_response_bytes,
    parse_command_frame, response_frame, Command, CommandView, ItemView, ResponseStatus,
};
use crate::bytes::{from_be_u32, lemma_be_u32_value, read_u32};
use crate::engine::{
    answer_views, between, clock_after, error_in, first_refused, fits_in_memory, lemma_listed,
    lemma_put_all, lemma_ranged, lemma_reads, lemma_visible, pair_views, pairs_in_order,
    put_all, reads, run, sooner, timed_views, unexpired, visible, Clock, Item, Live, RangeScan,
    StorageEngine, TtlOutcome,
};
use crate::error::StoreError;
use crate::number::{decimal, decimal_string};
use crate::record::{MAX_KEY_SIZE, MAX_VALUE_SIZE};
use crate::sorted_map::keys_in_order;
use crate::stats::{lemma_snapshot_lines, lines, snapshot_text, Stats};
use crate::text::string_views;
use crate::utils::{expired, lemma_expired};

verus! {

/// The largest frame that is read.
pub const MAX_REQUEST_BYTES: usize = MAX_KEY_SIZE + MAX_VALUE_SIZE + 1024;

/// What is left to do once a request was answered.
#[derive(Clone, Copy, PartialEq, Eq, Structural, Debug)]
pub enum FollowUp {
    Nothing,
    /// Something was written: a compaction may be due.
    CheckCompaction,
    /// A compaction was asked for, and is noted as running.
    Compact,
}

/// The answer to a request.
pub struct Reply {
    pub frame: Vec<u8>,
    pub follow_up: FollowUp,
}

/// When a compaction is started without being asked for: when there are more
/// segments than this. 0 for never.
#[derive(Clone, Copy, PartialEq, Eq, Structural, Debug)]
pub struct CompactionCfg {
    pub max_segment: usize,
}

/// An answer that has no strings.
pub open spec fn bare(status: ResponseStatus) -> Seq<u8> {
    response_frame(status, Seq::empty())
}

/// An answer with one string.
pub open spec fn told(status: ResponseStatus, text: Seq<char>) -> Seq<u8> {
    response_frame(status, seq![text])
}

/// The answer to a request that failed.
pub open spec fn failed(e: StoreError) -> Seq<u8> {
    told(ResponseStatus::Error, e.spec_message())
}

/// The time at which something expires that is to live for some seconds.
pub open spec fn expiry_after(seconds: u32, now_ms: u64) -> u64 {
    let at = now_ms + seconds * 1000;
    if at <= u64::MAX {
        at as u64
    } else {
        u64::MAX
    }
}

/// The time of expiry of a write.
pub open spec fn write_expiry(ttl: Option<u32>, now_ms: u64) -> Option<u64> {
    match ttl {
        Some(seconds) => Some(expiry_after(seconds, now_ms)),
        None => None,
    }
}

/// The time of expiry that a key is given: none for 0 seconds.
pub open spec fn ttl_expiry(seconds: u32, now_ms: u64) -> Option<u64> {
    if seconds == 0 {
        None
    } else {
        Some(expiry_after(seconds, now_ms))
    }
}

/// The items of a request with their times of expiry.
pub open spec fn with_expiry(items: Seq<ItemView>, now_ms: u64) -> Seq<Item> {
    items.map_values(|t: ItemView| (t.0, t.1, write_expiry(t.2, now_ms)))
}

/// The keys with what was found for them, one after the other. A character of its own
/// stands for what was not found.
pub open spec fn answer_rows(found: Seq<(Seq<char>, Option<Seq<char>>)>) -> Seq<Seq<char>>
    decreases found.len(),
{
    if found.len() == 0 {
        Seq::empty()
    } else {
        let (k, v) = found.last();
        answer_rows(found.drop_last()).push(k).push(
            match v {
                Some(v) => v,
                None => seq!['\0'],
            },
        )
    }
}

/// Keys and values, one after the other.
pub open spec fn pair_rows(pairs: Seq<(Seq<char>, Seq<char>)>) -> Seq<Seq<char>>
    decreases pairs.len(),
{
    if pairs.len() == 0 {
        Seq::empty()
    } else {
        pair_rows(pairs.drop_last()).push(pairs.last().0).push(pairs.last().1)
    }
}

/// Whether what a request writes fits into memory.
pub open spec fn request_fits(c: CommandView) -> bool {
    match c {
        CommandView::Write(k, v, _) => fits_in_memory(k, v),
        CommandView::Delete(k) => fits_in_memory(k, Seq::empty()),
        CommandView::Mset(items) => forall|i: int|
            0 <= i < items.len() ==> fits_in_memory((#[trigger] items[i]).0, items[i].1),
        _ => true,
    }
}

/// Whether items were written to a store, in their order, each a nanosecond after the one
/// before. The first that is refused ends it.
pub open spec fn all_written<E: StorageEngine>(
    before: E,
    after: E,
    items: Seq<Item>,
    now: Clock,
    end: Option<StoreError>,
) -> bool {
    run(
        before,
        after,
        items.len(),
        |i: int, a: E, b: E, end: Option<StoreError>|
            {
                let t = items[i];
                let at = clock_after(now, i as nat);
                &&& a.write_error(t.0, t.1, t.2, at) == end
                &&& a.wrote(b, t.0, t.1, t.2, at, end)
            },
        end,
    )
}

/// What a request makes of a store, whatever the order it is in. Where it writes several
/// keys, the answer says how that ended.
pub open spec fn carried_out<E: StorageEngine>(
    before: E,
    after: E,
    c: CommandView,
    now: Clock,
    frame: Seq<u8>,
) -> bool {
    match c {
        CommandView::Write(k, v, ttl) => {
            let expiry_ms = write_expiry(ttl, now.ms);
            before.wrote(
                after,
                k,
                v,
                expiry_ms,
                now,
                before.write_error(k, v, expiry_ms, now),
            )
        },
        CommandView::Delete(k) => before.erased(after, k, now, before.delete_error(k, now)),
        CommandView::Ttl(k, seconds) => {
            let expiry_ms = ttl_expiry(seconds, now.ms);
            match before.read(k, now.ms) {
                Ok(Some(v)) if fits_in_memory(k, v) => before.wrote(
                    after,
                    k,
                    v,
                    expiry_ms,
                    now,
                    before.write_error(k, v, expiry_ms, now),
                ),
                _ => after == before,
            }
        },
        CommandView::Mset(items) => exists|end: Option<StoreError>| #[trigger]
            all_written(before, after, with_expiry(items, now.ms), now, end) && frame == match end {
                None => bare(ResponseStatus::Okay),
                Some(e) => failed(e),
            },
        _ => after == before,
    }
}

/// Whether the store can keep in good order what a request writes.
pub open spec fn request_orderly<E: StorageEngine>(engine: E, c: CommandView, now: Clock) -> bool {
    match c {
        CommandView::Write(k, v, _) => engine.orderly(k, v, now),
        CommandView::Delete(k) => engine.orderly(k, Seq::empty(), now),
        CommandView::Ttl(k, _) => match visible(engine.contents(), k, now.ms) {
            Some(v) => engine.orderly(k, v, now),
            None => true,
        },
        CommandView::Mset(items) => now.ns + items.len() <= u64::MAX && forall|i: int|
            0 <= i < items.len() ==> engine.orderly((#[trigger] items[i]).0, items[i].1, now),
        _ => true,
    }
}

/// Why the time of expiry of a key cannot be changed, if it cannot.
pub open spec fn ttl_error<E: StorageEngine>(
    engine: E,
    key: Seq<char>,
    value: Seq<char>,
    expiry_ms: Option<u64>,
    now: Clock,
) -> Option<StoreError> {
    if fits_in_memory(key, value) {
        engine.write_error(key, value, expiry_ms, now)
    } else {
        Some(StoreError::TooLarge)
    }
}

/// The answer that a request gets.
pub open spec fn answer<E: StorageEngine>(
    engine: E,
    stats: Stats,
    c: CommandView,
    now: Clock,
) -> Seq<u8> {
    match c {
        CommandView::Invalid(n) => told(
            ResponseStatus::Error,
            "Invalid op code: "@ + decimal(n as nat),
        ),
        CommandView::Read(k) => match engine.read(k, now.ms) {
            Ok(Some(v)) => told(ResponseStatus::Okay, v),
            Ok(None) => bare(ResponseStatus::NotFound),
            Err(e) => failed(e),
        },
        CommandView::Write(k, v, ttl) => match engine.write_error(
            k,
            v,
            write_expiry(ttl, now.ms),
            now,
        ) {
            None => bare(ResponseStatus::Okay),
            Some(e) => failed(e),
        },
        CommandView::Delete(k) => match engine.delete_error(k, now) {
            Some(e) => failed(e),
            None => if engine.there(k, now.ms) {
                bare(ResponseStatus::Okay)
            } else {
                bare(ResponseStatus::NotFound)
            },
        },
        CommandView::Compact => if stats.compacting {
            bare(ResponseStatus::Noop)
        } else {
            bare(ResponseStatus::Okay)
        },
        CommandView::Stats => told(ResponseStatus::Okay, snapshot_text(stats)),
        CommandView::List => match engine.listing(now.ms) {
            Ok(keys) => response_frame(ResponseStatus::Okay, keys),
            Err(e) => failed(e),
        },
        CommandView::Exists(k) => if engine.there(k, now.ms) {
            bare(ResponseStatus::Okay)
        } else {
            bare(ResponseStatus::NotFound)
        },
        CommandView::Ping => told(ResponseStatus::Okay, "PONG"@),
        CommandView::Mget(ks) => match reads(|k: Seq<char>| engine.read(k, now.ms), ks) {
            Ok(found) => response_frame(ResponseStatus::Okay, answer_rows(found)),
            Err(e) => failed(e),
        },
        CommandView::Mset(items) => match first_refused(
            |k: Seq<char>, v: Seq<char>| E::refused(k, v),
            with_expiry(items, now.ms),
        ) {
            None => bare(ResponseStatus::Okay),
            Some((_, e)) => failed(e),
        },
        CommandView::Range(_, _) => told(
            ResponseStatus::Error,
            "RANGE is not supported by this engine"@,
        ),
        CommandView::Ttl(k, seconds) => match engine.read(k, now.ms) {
            Err(e) => failed(e),
            Ok(None) => bare(ResponseStatus::NotFound),
            Ok(Some(v)) => match ttl_error(engine, k, v, ttl_expiry(seconds, now.ms), now) {
                None => bare(ResponseStatus::Okay),
                Some(e) => failed(e),
            },
        },
    }
}

/// Whether `answer` says what a request gets. Of one that writes several keys it does
/// where the store is in good order and can keep them so; of any other store
/// `carried_out` says it, write by write.
pub open spec fn determined<E: StorageEngine>(engine: E, c: CommandView, now: Clock) -> bool {
    c is Mset ==> engine.healthy() && request_orderly(engine, c, now)
}

/// The answer of a store that can be read in the order of its keys.
pub open spec fn ranged_answer<E: RangeScan>(
    engine: E,
    stats: Stats,
    c: CommandView,
    now: Clock,
) -> Seq<u8> {
    match c {
        CommandView::Range(start, end) => match engine.ranging(start, end, now.ms) {
            Ok(pairs) => response_frame(ResponseStatus::Okay, pair_rows(pairs)),
            Err(e) => failed(e),
        },
        _ => answer(engine, stats, c, now),
    }
}

/// The counters once a request was answered.
pub open spec fn tally(stats: Stats, c: CommandView, follow_up: FollowUp, now_ms: u64) -> Stats {
    let done = follow_up == FollowUp::CheckCompaction;
    match c {
        CommandView::Read(_) | CommandView::Mget(_) => Stats {
            reads: stats.reads.wrapping_add(1),
            ..stats
        },
        CommandView::Write(_, _, _) | CommandView::Mset(_) => Stats {
            write_blocked_attempts: if stats.compacting {
                stats.write_blocked_attempts.wrapping_add(1)
            } else {
                stats.write_blocked_attempts
            },
            writes: if done {
                stats.writes.wrapping_add(1)
            } else {
                stats.writes
            },
            ..stats
        },
        CommandView::Delete(_) => Stats {
            deletes: if done {
                stats.deletes.wrapping_add(1)
            } else {
                stats.deletes
            },
            ..stats
        },
        CommandView::Compact => if follow_up == FollowUp::Compact {
            Stats { compacting: true, last_compact_start_ms: now_ms, ..stats }
        } else {
            stats
        },
        _ => stats,
    }
}

/// What is left to do after an answer.
pub open spec fn next_step(stats: Stats, c: CommandView, frame: Seq<u8>) -> FollowUp {
    match c {
        CommandView::Write(_, _, _) | CommandView::Mset(_) | CommandView::Delete(_) => if frame
            == bare(ResponseStatus::Okay) {
            FollowUp::CheckCompaction
        } else {
            FollowUp::Nothing
        },
        CommandView::Compact => if stats.compacting {
            FollowUp::Nothing
        } else {
            FollowUp::Compact
        },
        _ => FollowUp::Nothing,
    }
}

/// What a request leaves of a store in good order.
pub open spec fn outcome<E: StorageEngine>(
    before: E,
    after: E,
    c: CommandView,
    now: Clock,
) -> bool {
    &&& after.healthy()
    &&& before.recoverable() ==> after.recoverable()
    &&& match c {
        CommandView::Write(k, v, ttl) => after.contents() == match before.write_error(
            k,
            v,
            write_expiry(ttl, now.ms),
            now,
        ) {
            None => before.contents().insert(
                k,
                Live { value: v, expiry_ms: write_expiry(ttl, now.ms) },
            ),
            Some(_) => before.contents(),
        },
        CommandView::Delete(k) => after.contents() == match before.delete_error(k, now) {
            None => before.contents().remove(k),
            Some(_) => before.contents(),
        },
        CommandView::Ttl(k, seconds) => after.contents() == match visible(
            before.contents(),
            k,
            now.ms,
        ) {
            None => before.contents(),
            Some(v) => match ttl_error(before, k, v, ttl_expiry(seconds, now.ms), now) {
                None => before.contents().insert(
                    k,
                    Live { value: v, expiry_ms: ttl_expiry(seconds, now.ms) },
                ),
                Some(_) => before.contents(),
            },
        },
        CommandView::Mset(items) => {
            let ts = with_expiry(items, now.ms);
            after.contents() == match first_refused(
                |k: Seq<char>, v: Seq<char>| E::refused(k, v),
                ts,
            ) {
                None => put_all(before.contents(), ts),
                Some((n, _)) => put_all(before.contents(), ts.take(n)),
            }
        },
        _ => after.contents() == before.contents(),
    }
}

/// What is to live for some seconds expires a thousand times as many milliseconds later, or
/// at the last time that can be told. A key is written without a time of expiry where no
/// seconds are given, and changing the time with 0 seconds takes it away.
pub proof fn lemma_expiry_times(seconds: u32, now_ms: u64)
    ensures
        now_ms + 1000 * seconds <= u64::MAX ==> expiry_after(seconds, now_ms) == now_ms + 1000
            * seconds,
        now_ms + 1000 * seconds > u64::MAX ==> expiry_after(seconds, now_ms) == u64::MAX,
        write_expiry(None, now_ms) is None,
        write_expiry(Some(seconds), now_ms) == Some(expiry_after(seconds, now_ms)),
        seconds == 0 ==> ttl_expiry(seconds, now_ms) is None,
        seconds != 0 ==> ttl_expiry(seconds, now_ms) == Some(expiry_after(seconds, now_ms)),
{
}

/// The items of a request keep their keys, their values and their order.
pub proof fn lemma_items_timed(items: Seq<ItemView>, now_ms: u64)
    ensures
        with_expiry(items, now_ms).len() == items.len(),
        forall|i: int|
            0 <= i < items.len() ==> (#[trigger] with_expiry(items, now_ms)[i]).0 == items[i].0
                && with_expiry(items, now_ms)[i].1 == items[i].1 && with_expiry(items, now_ms)[i].2
                == write_expiry(items[i].2, now_ms),
{
}

/// What was found for several keys is told in two rows for each: the key, and then its value
/// or, where it was not found, a null character.
pub proof fn lemma_answer_rows(found: Seq<(Seq<char>, Option<Seq<char>>)>)
    ensures
        answer_rows(found).len() == 2 * found.len(),
        forall|i: int|
            #![trigger found[i]]
            0 <= i < found.len() ==> answer_rows(found)[2 * i] == found[i].0 && answer_rows(
                found,
            )[2 * i + 1] == match found[i].1 {
                Some(v) => v,
                None => seq!['\0'],
            },
    decreases found.len(),
{
    if found.len() > 0 {
        let front = found.drop_last();
        lemma_answer_rows(front);
        assert forall|i: int| #![trigger found[i]] 0 <= i < found.len() implies answer_rows(
            found,
        )[2 * i] == found[i].0 && answer_rows(found)[2 * i + 1] == (match found[i].1 {
            Some(v) => v,
            None => seq!['\0'],
        }) by {
            if i < front.len() {
                assert(front[i] == found[i]);
            }
        }
    }
}

/// Keys and values are told in two rows for each pair, in their order.
pub proof fn lemma_pair_rows(pairs: Seq<(Seq<char>, Seq<char>)>)
    ensures
        pair_rows(pairs).len() == 2 * pairs.len(),
        forall|i: int|
            #![trigger pairs[i]]
            0 <= i < pairs.len() ==> pair_rows(pairs)[2 * i] == pairs[i].0 && pair_rows(
                pairs,
            )[2 * i + 1] == pairs[i].1,
    decreases pairs.len(),
{
    if pairs.len() > 0 {
        let front = pairs.drop_last();
        lemma_pair_rows(front);
        assert forall|i: int| #![trigger pairs[i]] 0 <= i < pairs.len() implies pair_rows(
            pairs,
        )[2 * i] == pairs[i].0 && pair_rows(pairs)[2 * i + 1] == pairs[i].1 by {
            if i < front.len() {
                assert(front[i] == pairs[i]);
            }
        }
    }
}

/// Each request counts where it belongs, and nowhere else. Reading, of one key or of
/// several, counts as a read. Writing counts as a write where it was done, and a deletion as
/// a deletion; a write while a compaction runs is noted as held up.
pub proof fn lemma_tally(stats: Stats, c: CommandView, follow_up: FollowUp, now_ms: u64)
    ensures
        ({
            let t = tally(stats, c, follow_up, now_ms);
            let reading = c is Read || c is Mget;
            let writing = c is Write || c is Mset;
            let done = follow_up == FollowUp::CheckCompaction;
            let begins = c is Compact && follow_up == FollowUp::Compact;
            &&& t.reads == if reading {
                stats.reads.wrapping_add(1)
            } else {
                stats.reads
            }
            &&& t.writes == if writing && done {
                stats.writes.wrapping_add(1)
            } else {
                stats.writes
            }
            &&& t.deletes == if c is Delete && done {
                stats.deletes.wrapping_add(1)
            } else {
                stats.deletes
            }
            &&& t.write_blocked_attempts == if writing && stats.compacting {
                stats.write_blocked_attempts.wrapping_add(1)
            } else {
                stats.write_blocked_attempts
            }
            &&& t.compacting == (stats.compacting || begins)
            &&& t.last_compact_start_ms == if begins {
                now_ms
            } else {
                stats.last_compact_start_ms
            }
            &&& t.last_compact_end_ms == stats.last_compact_end_ms
            &&& t.compaction_count == stats.compaction_count
            &&& t.write_blocked_total_ms == stats.write_blocked_total_ms
            &&& t.active_connections == stats.active_connections
        }),
{
}

/// The counters after some requests, each with what was left to do after it.
pub open spec fn tallied(stats: Stats, requests: Seq<(CommandView, FollowUp, u64)>) -> Stats
    decreases requests.len(),
{
    if requests.len() == 0 {
        stats
    } else {
        let (c, follow_up, now_ms) = requests.last();
        tally(tallied(stats, requests.drop_last()), c, follow_up, now_ms)
    }
}

proof fn lemma_tallied(requests: Seq<(CommandView, FollowUp, u64)>)
    requires
        requests.len() <= u64::MAX,
    ensures
        ({
            let s = tallied(Stats::zero(), requests);
            &&& s.reads == requests.filter(
                |r: (CommandView, FollowUp, u64)| r.0 is Read || r.0 is Mget,
            ).len()
            &&& s.writes == requests.filter(
                |r: (CommandView, FollowUp, u64)|
                    (r.0 is Write || r.0 is Mset) && r.1 == FollowUp::CheckCompaction,
            ).len()
            &&& s.deletes == requests.filter(
                |r: (CommandView, FollowUp, u64)|
                    r.0 is Delete && r.1 == FollowUp::CheckCompaction,
            ).len()
            &&& s.reads <= requests.len() && s.writes <= requests.len() && s.deletes
                <= requests.len()
        }),
    decreases requests.len(),
{
    reveal(Seq::filter);
    if requests.len() > 0 {
        lemma_tallied(requests.drop_last());
        let (c, follow_up, now_ms) = requests.last();
        lemma_tally(
            tallied(Stats::zero(), requests.drop_last()),
            c,
            follow_up,
            now_ms,
        );
    }
}

/// What the counters tell after any requests to a new server: as many reads as requests to
/// read, as many writes as requests to write that were done, and as many deletions as
/// requests to delete that were.
pub proof fn lemma_counted(requests: Seq<(CommandView, FollowUp, u64)>)
    requires
        requests.len() <= u64::MAX,
    ensures
        ({
            let told = lines(snapshot_text(tallied(Stats::zero(), requests)));
            let reads = requests.filter(
                |r: (CommandView, FollowUp, u64)| r.0 is Read || r.0 is Mget,
            );
            let writes = requests.filter(
                |r: (CommandView, FollowUp, u64)|
                    (r.0 is Write || r.0 is Mset) && r.1 == FollowUp::CheckCompaction,
            );
            let deletes = requests.filter(
                |r: (CommandView, FollowUp, u64)|
                    r.0 is Delete && r.1 == FollowUp::CheckCompaction,
            );
            &&& told.contains("reads="@ + decimal(reads.len()))
            &&& told.contains("writes="@ + decimal(writes.len()))
            &&& told.contains("deletes="@ + decimal(deletes.len()))
        }),
{
    let s = tallied(Stats::zero(), requests);
    let told = lines(snapshot_text(s));
    lemma_tallied(requests);
    lemma_snapshot_lines(s);
    assert(told.contains(told[6]));
    assert(told.contains(told[7]));
    assert(told.contains(told[8]));
}

/// The bytes of an answer without strings: a length of 1 and the status.
pub proof fn lemma_bare_bytes(status: ResponseStatus)
    ensures
        bare(status) == seq![
            0u8,
            0u8,
            0u8,
            1u8,
            match status {
                ResponseStatus::Okay => 0u8,
                ResponseStatus::NotFound => 1u8,
                ResponseStatus::Error => 2u8,
                ResponseStatus::Noop => 3u8,
            },
        ],
{
    lemma_response_bytes(status, Seq::empty(), Seq::empty());
    lemma_be_u32_value(Seq::empty(), 1);
    assert(bare(status) =~= seq![0u8, 0u8, 0u8, 1u8, status.spec_code()]);
}

/// After a request that has changed something a compaction may be due, and only then. One
/// that asks for a compaction starts it, unless one is running.
pub proof fn lemma_next_step(stats: Stats, c: CommandView, frame: Seq<u8>)
    ensures
        next_step(stats, c, frame) == FollowUp::CheckCompaction <==> (c is Write || c is Mset || c
            is Delete) && frame == seq![0u8, 0u8, 0u8, 1u8, 0u8],
        next_step(stats, c, frame) == FollowUp::Compact <==> c is Compact && !stats.compacting,
{
    lemma_bare_bytes(ResponseStatus::Okay);
}

/// What a store in good order answers to a request that changes nothing. A key that is there
/// and has not expired is answered with its value and with `Okay`; any other is not found.
pub proof fn lemma_answers<E: StorageEngine>(
    engine: E,
    stats: Stats,
    key: Seq<char>,
    now: Clock,
)
    requires
        engine.wf(),
        engine.healthy(),
    ensures
        ({
            let c = engine.contents();
            let there = c.contains_key(key) && (c[key].expiry_ms matches Some(t) ==> now.ms < t);
            &&& answer(engine, stats, CommandView::Read(key), now) == if there {
                response_frame(ResponseStatus::Okay, seq![c[key].value])
            } else {
                response_frame(ResponseStatus::NotFound, Seq::empty())
            }
            &&& answer(engine, stats, CommandView::Exists(key), now) == response_frame(
                if there {
                    ResponseStatus::Okay
                } else {
                    ResponseStatus::NotFound
                },
                Seq::empty(),
            )
            &&& engine.delete_error(key, now) is None ==> answer(
                engine,
                stats,
                CommandView::Delete(key),
                now,
            ) == response_frame(
                if there {
                    ResponseStatus::Okay
                } else {
                    ResponseStatus::NotFound
                },
                Seq::empty(),
            )
        }),
        answer(engine, stats, CommandView::Ping, now) == response_frame(
            ResponseStatus::Okay,
            seq!["PONG"@],
        ),
        answer(engine, stats, CommandView::Stats, now) == response_frame(
            ResponseStatus::Okay,
            seq![snapshot_text(stats)],
        ),
        answer(engine, stats, CommandView::Compact, now) == response_frame(
            if stats.compacting {
                ResponseStatus::Noop
            } else {
                ResponseStatus::Okay
            },
            Seq::empty(),
        ),
{
    engine.lemma_read(key, now.ms);
    lemma_visible(engine.contents(), key, now.ms);
}

/// What a store in good order answers to a request for several keys: two rows for each, in
/// the order in which they were asked for.
pub proof fn lemma_mget_answer<E: StorageEngine>(
    engine: E,
    stats: Stats,
    keys: Seq<Seq<char>>,
    now: Clock,
)
    requires
        engine.healthy(),
    ensures
        exists|rows: Seq<Seq<char>>|
            {
                &&& #[trigger] response_frame(ResponseStatus::Okay, rows) == answer(
                    engine,
                    stats,
                    CommandView::Mget(keys),
                    now,
                )
                &&& rows.len() == 2 * keys.len()
                &&& forall|i: int|
                    #![trigger keys[i]]
                    0 <= i < keys.len() ==> rows[2 * i] == keys[i] && rows[2 * i + 1] == if engine.contents().contains_key(
                        keys[i],
                    ) && (engine.contents()[keys[i]].expiry_ms matches Some(t) ==> now.ms < t) {
                        engine.contents()[keys[i]].value
                    } else {
                        seq!['\0']
                    }
            },
{
    let read = |k: Seq<char>| engine.read(k, now.ms);
    assert forall|i: int| 0 <= i < keys.len() implies read(#[trigger] keys[i]) is Ok by {
        engine.lemma_read(keys[i], now.ms);
    }
    lemma_reads(read, keys);
    let found = reads(read, keys)->Ok_0;
    let rows = answer_rows(found);
    lemma_answer_rows(found);
    assert forall|i: int| #![trigger keys[i]] 0 <= i < keys.len() implies rows[2 * i] == keys[i]
        && rows[2 * i + 1] == (if engine.contents().contains_key(keys[i]) && (
    engine.contents()[keys[i]].expiry_ms matches Some(t) ==> now.ms < t) {
        engine.contents()[keys[i]].value
    } else {
        seq!['\0']
    }) by {
        engine.lemma_read(keys[i], now.ms);
        lemma_visible(engine.contents(), keys[i], now.ms);
        assert(found[i].0 == keys[i]);
    }
    assert(response_frame(ResponseStatus::Okay, rows) == answer(
        engine,
        stats,
        CommandView::Mget(keys),
        now,
    ));
}

/// What a store in good order answers to a request for all keys: those that have not
/// expired, each once, in the order of their bytes.
pub proof fn lemma_list_answer<E: StorageEngine>(engine: E, stats: Stats, now: Clock)
    requires
        engine.wf(),
        engine.healthy(),
    ensures
        exists|rows: Seq<Seq<char>>|
            {
                &&& #[trigger] response_frame(ResponseStatus::Okay, rows) == answer(
                    engine,
                    stats,
                    CommandView::List,
                    now,
                )
                &&& forall|k: Seq<char>| #[trigger]
                    rows.contains(k) <==> engine.contents().contains_key(k) && (
                    engine.contents()[k].expiry_ms matches Some(t) ==> now.ms < t)
                &&& forall|i: int, j: int|
                    0 <= i < j < rows.len() ==> sooner(#[trigger] rows[i], #[trigger] rows[j])
            },
{
    engine.lemma_ordered();
    engine.lemma_listing(now.ms);
    lemma_listed(engine.contents(), now.ms);
    let rows = keys_in_order(unexpired(engine.contents(), now.ms));
    assert(response_frame(ResponseStatus::Okay, rows) == answer(
        engine,
        stats,
        CommandView::List,
        now,
    ));
}

/// What a store in good order answers to a request for a range: two rows for each key that
/// lies between the two keys, both included, and has not expired, in the order of their
/// bytes.
pub proof fn lemma_range_answer<E: RangeScan>(
    engine: E,
    stats: Stats,
    start: Seq<char>,
    end: Seq<char>,
    now: Clock,
)
    requires
        engine.wf(),
        engine.healthy(),
    ensures
        exists|pairs: Seq<(Seq<char>, Seq<char>)>|
            {
                &&& response_frame(ResponseStatus::Okay, #[trigger] pair_rows(pairs))
                    == ranged_answer(engine, stats, CommandView::Range(start, end), now)
                &&& forall|k: Seq<char>, v: Seq<char>| #[trigger]
                    pairs.contains((k, v)) <==> {
                        &&& engine.contents().contains_key(k)
                        &&& v == engine.contents()[k].value
                        &&& engine.contents()[k].expiry_ms matches Some(t) ==> now.ms < t
                        &&& k == start || sooner(start, k)
                        &&& k == end || sooner(k, end)
                    }
                &&& forall|i: int, j: int|
                    0 <= i < j < pairs.len() ==> sooner(
                        (#[trigger] pairs[i]).0,
                        (#[trigger] pairs[j]).0,
                    )
            },
{
    engine.lemma_ordered();
    engine.lemma_ranging(start, end, now.ms);
    lemma_ranged(engine.contents(), start, end, now.ms);
    let pairs = pairs_in_order(between(unexpired(engine.contents(), now.ms), start, end));
    assert(response_frame(ResponseStatus::Okay, pair_rows(pairs)) == ranged_answer(
        engine,
        stats,
        CommandView::Range(start, end),
        now,
    ));
}

/// A key that is written with some seconds to live is read until that many seconds have
/// passed, and not from then on; one that is written without is read for good.
pub proof fn lemma_write_read_times<E: StorageEngine>(
    before: E,
    after: E,
    stats: Stats,
    key: Seq<char>,
    value: Seq<char>,
    ttl: Option<u32>,
    now: Clock,
    later: Clock,
)
    requires
        answer(before, stats, CommandView::Write(key, value, ttl), now) == bare(
            ResponseStatus::Okay,
        ),
        before.healthy(),
        outcome(before, after, CommandView::Write(key, value, ttl), now),
        ttl matches Some(seconds) ==> now.ms + 1000 * seconds <= u64::MAX,
    ensures
        answer(after, stats, CommandView::Read(key), later) == if ttl matches Some(seconds)
            && later.ms >= now.ms + 1000 * seconds {
            response_frame(ResponseStatus::NotFound, Seq::empty())
        } else {
            response_frame(ResponseStatus::Okay, seq![value])
        },
{
    lemma_write_read(before, after, stats, key, value, ttl, now, key, later);
    lemma_expired(write_expiry(ttl, now.ms), later.ms);
    if let Some(seconds) = ttl {
        lemma_expiry_times(seconds, now.ms);
    }
}

/// The answers have the status that they say.
proof fn lemma_status(status: ResponseStatus, rows: Seq<Seq<char>>)
    ensures
        response_frame(status, rows)[4] == status.spec_code(),
{
}

fn reply(status: ResponseStatus, follow_up: FollowUp) -> (r: Reply)
    ensures
        r.frame@ == bare(status),
        r.follow_up == follow_up,
{
    let none: Vec<String> = Vec::new();
    assert(string_views(none@) =~= Seq::<Seq<char>>::empty());
    Reply { frame: encode_frame(status, none.as_slice()), follow_up }
}

fn reply_text(status: ResponseStatus, text: String) -> (r: Reply)
    ensures
        r.frame@ == told(status, text@),
        r.follow_up == FollowUp::Nothing,
{
    let ghost t = text@;
    let mut rows: Vec<String> = Vec::new();
    rows.push(text);
    assert(string_views(rows@) =~= seq![t]);
    Reply { frame: encode_frame(status, rows.as_slice()), follow_up: FollowUp::Nothing }
}

/// The answer to a request that failed.
pub fn reply_error(e: StoreError) -> (r: Reply)
    ensures
        r.frame@ == failed(e),
        r.follow_up == FollowUp::Nothing,
{
    reply_text(ResponseStatus::Error, e.message())
}

fn expiry_of(seconds: u32, now_ms: u64) -> (t: u64)
    ensures
        t == expiry_after(seconds, now_ms),
{
    let ms: u64 = seconds as u64 * 1000;
    now_ms.saturating_add(ms)
}

/// Keys with what was found for them, one after the other.
fn answers_to_rows(found: Vec<(String, Option<String>)>) -> (rows: Vec<String>)
    ensures
        string_views(rows@) == answer_rows(answer_views(found@)),
{
    let ghost av = answer_views(found@);
    let mut rows: Vec<String> = Vec::new();
    assert(string_views(rows@) =~= Seq::<Seq<char>>::empty());
    assert(av.take(0) =~= Seq::<(Seq<char>, Option<Seq<char>>)>::empty());
    for i in 0..found.len()
        invariant
            av == answer_views(found@),
            string_views(rows@) == answer_rows(av.take(i as int)),
    {
        let ghost before = string_views(rows@);
        let t = &found[i];
        assert(av.take(i + 1).drop_last() =~= av.take(i as int));
        assert(av.take(i + 1).last() == av[i as int]);
        let second = match &t.1 {
            Some(v) => v.clone(),
            None => {
                proof {
                    reveal_strlit("\0");
                    assert("\0"@ =~= seq!['\0']);
                }
                String::from_str("\0")
            },
        };
        let ghost pair = (t.0@, second@);
        rows.push(t.0.clone());
        assert(string_views(rows@) =~= before.push(pair.0));
        let ghost half = string_views(rows@);
        rows.push(second);
        assert(string_views(rows@) =~= half.push(pair.1));
    }
    assert(av.take(found@.len() as int) =~= av);
    rows
}

/// Keys and values, one after the other.
fn pairs_to_rows(pairs: Vec<(String, String)>) -> (rows: Vec<String>)
    ensures
        string_views(rows@) == pair_rows(pair_views(pairs@)),
{
    let ghost pv = pair_views(pairs@);
    let mut rows: Vec<String> = Vec::new();
    assert(string_views(rows@) =~= Seq::<Seq<char>>::empty());
    assert(pv.take(0) =~= Seq::<(Seq<char>, Seq<char>)>::empty());
    for i in 0..pairs.len()
        invariant
            pv == pair_views(pairs@),
            string_views(rows@) == pair_rows(pv.take(i as int)),
    {
        let ghost before = string_views(rows@);
        let t = &pairs[i];
        assert(pv.take(i + 1).drop_last() =~= pv.take(i as int));
        assert(pv.take(i + 1).last() == pv[i as int]);
        rows.push(t.0.clone());
        assert(string_views(rows@) =~= before.push(t.0@));
        let ghost half = string_views(rows@);
        rows.push(t.1.clone());
        assert(string_views(rows@) =~= half.push(t.1@));
    }
    assert(pv.take(pairs@.len() as int) =~= pv);
    rows
}

/// The items of a request with their times of expiry.
fn items_with_expiry(items: Vec<(String, String, Option<u32>)>, now_ms: u64) -> (out: Vec<
    (String, String, Option<u64>),
>)
    ensures
        timed_views(out@) == with_expiry(item_views(items@), now_ms),
{
    let ghost iv = item_views(items@);
    let mut out: Vec<(String, String, Option<u64>)> = Vec::new();
    assert(timed_views(out@) =~= with_expiry(iv.take(0), now_ms));
    for i in 0..items.len()
        invariant
            iv == item_views(items@),
            timed_views(out@) == with_expiry(iv.take(i as int), now_ms),
    {
        let ghost before = timed_views(out@);
        let t = &items[i];
        let expiry: Option<u64> = match t.2 {
            Some(seconds) => Some(expiry_of(seconds, now_ms)),
            None => None,
        };
        assert(iv[i as int] == (t.0@, t.1@, t.2));
        out.push((t.0.clone(), t.1.clone(), expiry));
        assert(timed_views(out@) =~= before.push((t.0@, t.1@, expiry)));
        assert(timed_views(out@) =~= with_expiry(iv.take(i + 1), now_ms));
    }
    assert(iv.take(items@.len() as int) =~= iv);
    out
}

/// An answer that says more than that all is well is another one.
proof fn lemma_not_okay()
    ensures
        bare(ResponseStatus::NotFound) != bare(ResponseStatus::Okay),
        forall|e: StoreError| #[trigger] failed(e) != bare(ResponseStatus::Okay),
{
    lemma_status(ResponseStatus::Okay, Seq::empty());
    lemma_status(ResponseStatus::NotFound, Seq::empty());
    assert forall|e: StoreError| #[trigger] failed(e) != bare(ResponseStatus::Okay) by {
        lemma_status(ResponseStatus::Error, seq![e.spec_message()]);
    }
}

/// A read gives back what a write that was answered well wrote, until it expires. Other
/// keys are read as before.
pub proof fn lemma_write_read<E: StorageEngine>(
    before: E,
    after: E,
    stats: Stats,
    key: Seq<char>,
    value: Seq<char>,
    ttl: Option<u32>,
    now: Clock,
    other: Seq<char>,
    later: Clock,
)
    requires
        answer(before, stats, CommandView::Write(key, value, ttl), now) == bare(
            ResponseStatus::Okay,
        ),
        before.healthy(),
        outcome(before, after, CommandView::Write(key, value, ttl), now),
    ensures
        answer(after, stats, CommandView::Read(key), later) == if expired(
            write_expiry(ttl, now.ms),
            later.ms,
        ) {
            bare(ResponseStatus::NotFound)
        } else {
            told(ResponseStatus::Okay, value)
        },
        other != key ==> answer(after, stats, CommandView::Read(other), later) == answer(
            before,
            stats,
            CommandView::Read(other),
            later,
        ),
{
    lemma_not_okay();
    if let Some(e) = before.write_error(key, value, write_expiry(ttl, now.ms), now) {
        assert(failed(e) != bare(ResponseStatus::Okay));
    }
    after.lemma_read(key, later.ms);
    after.lemma_read(other, later.ms);
    before.lemma_read(other, later.ms);
}

/// A write that is refused is answered with the reason, and changes nothing that is read.
pub proof fn lemma_refused_write<E: StorageEngine>(
    before: E,
    after: E,
    stats: Stats,
    key: Seq<char>,
    value: Seq<char>,
    ttl: Option<u32>,
    now: Clock,
    e: StoreError,
    other: Seq<char>,
    later: Clock,
)
    requires
        before.write_error(key, value, write_expiry(ttl, now.ms), now) == Some(e),
        before.healthy(),
        outcome(before, after, CommandView::Write(key, value, ttl), now),
    ensures
        answer(before, stats, CommandView::Write(key, value, ttl), now) == failed(e),
        answer(after, stats, CommandView::Read(other), later) == answer(
            before,
            stats,
            CommandView::Read(other),
            later,
        ),
{
    after.lemma_read(other, later.ms);
    before.lemma_read(other, later.ms);
}

/// A key that was deleted is not found. Other keys are read as before.
pub proof fn lemma_delete_read<E: StorageEngine>(
    before: E,
    after: E,
    stats: Stats,
    key: Seq<char>,
    now: Clock,
    other: Seq<char>,
    later: Clock,
)
    requires
        before.delete_error(key, now) is None,
        before.healthy(),
        outcome(before, after, CommandView::Delete(key), now),
    ensures
        answer(after, stats, CommandView::Read(key), later) == bare(ResponseStatus::NotFound),
        other != key ==> answer(after, stats, CommandView::Read(other), later) == answer(
            before,
            stats,
            CommandView::Read(other),
            later,
        ),
{
    after.lemma_read(key, later.ms);
    after.lemma_read(other, later.ms);
    before.lemma_read(other, later.ms);
}

/// A key whose time of expiry was changed keeps its value until then; with 0 seconds it
/// keeps it for ever.
pub proof fn lemma_ttl_read<E: StorageEngine>(
    before: E,
    after: E,
    stats: Stats,
    key: Seq<char>,
    seconds: u32,
    now: Clock,
    later: Clock,
)
    requires
        answer(before, stats, CommandView::Ttl(key, seconds), now) == bare(ResponseStatus::Okay),
        before.healthy(),
        outcome(before, after, CommandView::Ttl(key, seconds), now),
    ensures
        answer(after, stats, CommandView::Read(key), later) == if seconds != 0 && expired(
            Some(expiry_after(seconds, now.ms)),
            later.ms,
        ) {
            bare(ResponseStatus::NotFound)
        } else {
            answer(before, stats, CommandView::Read(key), now)
        },
{
    lemma_not_okay();
    before.lemma_read(key, now.ms);
    after.lemma_read(key, later.ms);
    if let Some(v) = visible(before.contents(), key, now.ms) {
        if let Some(e) = ttl_error(before, key, v, ttl_expiry(seconds, now.ms), now) {
            assert(failed(e) != bare(ResponseStatus::Okay));
        }
    }
}

/// After several keys were written, each is read with the value of the last item that
/// has it, until that expires. Keys that no item has are read as before.
pub proof fn lemma_mset_read<E: StorageEngine>(
    before: E,
    after: E,
    stats: Stats,
    items: Seq<ItemView>,
    now: Clock,
    key: Seq<char>,
    later: Clock,
)
    requires
        answer(before, stats, CommandView::Mset(items), now) == bare(ResponseStatus::Okay),
        before.healthy(),
        outcome(before, after, CommandView::Mset(items), now),
    ensures
        (forall|i: int| 0 <= i < items.len() ==> (#[trigger] items[i]).0 != key) ==> answer(
            after,
            stats,
            CommandView::Read(key),
            later,
        ) == answer(before, stats, CommandView::Read(key), later),
        forall|i: int|
            0 <= i < items.len() && (#[trigger] items[i]).0 == key && (forall|j: int|
                i < j < items.len() ==> (#[trigger] items[j]).0 != key) ==> answer(
                after,
                stats,
                CommandView::Read(key),
                later,
            ) == if expired(write_expiry(items[i].2, now.ms), later.ms) {
                bare(ResponseStatus::NotFound)
            } else {
                told(ResponseStatus::Okay, items[i].1)
            },
{
    let ts = with_expiry(items, now.ms);
    lemma_not_okay();
    if let Some((_, e)) = first_refused(|k: Seq<char>, v: Seq<char>| E::refused(k, v), ts) {
        assert(failed(e) != bare(ResponseStatus::Okay));
    }
    before.lemma_read(key, later.ms);
    after.lemma_read(key, later.ms);
    lemma_put_all(before.contents(), ts, key);
    assert forall|i: int| 0 <= i < items.len() implies #[trigger] ts[i] == (
        items[i].0,
        items[i].1,
        write_expiry(items[i].2, now.ms),
    ) by {}
    assert forall|i: int|
        0 <= i < items.len() && (#[trigger] items[i]).0 == key && (forall|j: int|
            i < j < items.len() ==> (#[trigger] items[j]).0 != key) implies answer(
        after,
        stats,
        CommandView::Read(key),
        later,
    ) == if expired(write_expiry(items[i].2, now.ms), later.ms) {
        bare(ResponseStatus::NotFound)
    } else {
        told(ResponseStatus::Okay, items[i].1)
    } by {
        assert forall|j: int| i < j < ts.len() implies (#[trigger] ts[j]).0 != key by {
            assert(items[j].0 != key);
        }
        assert(ts[i].0 == key);
    }
    if forall|i: int| 0 <= i < items.len() ==> (#[trigger] items[i]).0 != key {
        assert forall|i: int| 0 <= i < ts.len() implies (#[trigger] ts[i]).0 != key by {
            assert(items[i].0 != key);
        }
    }
}

/// Writes several keys.
fn run_mset<E: StorageEngine>(
    items: Vec<(String, String, Option<u32>)>,
    engine: &mut E,
    stats: &mut Stats,
    now: Clock,
) -> (r: Reply)
    requires
        old(engine).wf(),
        request_fits(CommandView::Mset(item_views(items@))),
    ensures
        final(engine).wf(),
        r.follow_up == next_step(*old(stats), CommandView::Mset(item_views(items@)), r.frame@),
        *final(stats) == tally(
            *old(stats),
            CommandView::Mset(item_views(items@)),
            r.follow_up,
            now.ms,
        ),
        carried_out(
            *old(engine),
            *final(engine),
            CommandView::Mset(item_views(items@)),
            now,
            r.frame@,
        ),
        old(engine).healthy() && request_orderly(
            *old(engine),
            CommandView::Mset(item_views(items@)),
            now,
        ) ==> r.frame@ == answer(
            *old(engine),
            *old(stats),
            CommandView::Mset(item_views(items@)),
            now,
        ) && outcome(*old(engine), *final(engine), CommandView::Mset(item_views(items@)), now),
{
    proof {
        lemma_not_okay();
    }
    if stats.compacting {
        stats.write_blocked_attempts = stats.write_blocked_attempts.wrapping_add(1);
    }
    let ghost iv = item_views(items@);
    let ghost c = CommandView::Mset(iv);
    assert(request_fits(c));
    let timed = items_with_expiry(items, now.ms);
    let ghost ts = timed_views(timed@);
    proof {
        assert(ts.len() == timed@.len());
        assert(iv.len() == ts.len());
        assert forall|i: int| 0 <= i < timed@.len() implies fits_in_memory(
            (#[trigger] timed@[i]).0@,
            timed@[i].1@,
        ) by {
            assert(ts[i] == (timed@[i].0@, timed@[i].1@, timed@[i].2));
            assert(fits_in_memory(c->Mset_0[i].0, c->Mset_0[i].1));
            assert(timed@[i].0@ == iv[i].0);
        }
        if request_orderly(*engine, c, now) {
            assert forall|i: int| 0 <= i < ts.len() implies engine.orderly(
                (#[trigger] ts[i]).0,
                ts[i].1,
                now,
            ) by {
                assert(engine.orderly(iv[i].0, iv[i].1, now));
            }
        }
    }
    let ghost before = *engine;
    let ghost tv = timed@;
    let written = engine.mset(timed, now);
    proof {
        let all = with_expiry(iv, now.ms);
        let f = |i: int, a: E, b: E, end: Option<StoreError>|
            {
                let t = timed_views(tv)[i];
                let at = clock_after(now, i as nat);
                &&& a.write_error(t.0, t.1, t.2, at) == end
                &&& a.wrote(b, t.0, t.1, t.2, at, end)
            };
        let g = |i: int, a: E, b: E, end: Option<StoreError>|
            {
                let t = all[i];
                let at = clock_after(now, i as nat);
                &&& a.write_error(t.0, t.1, t.2, at) == end
                &&& a.wrote(b, t.0, t.1, t.2, at, end)
            };
        assert(f =~= g);
        assert(all_written(before, *engine, all, now, error_in(written)));
    }
    match written {
        Ok(_) => {
            stats.writes = stats.writes.wrapping_add(1);
            reply(ResponseStatus::Okay, FollowUp::CheckCompaction)
        },
        Err(e) => reply_error(e),
    }
}

/// Writes a key.
fn run_write<E: StorageEngine>(
    key: &str,
    value: &str,
    ttl: Option<u32>,
    engine: &mut E,
    stats: &mut Stats,
    now: Clock,
) -> (r: Reply)
    requires
        old(engine).wf(),
        request_fits(CommandView::Write(key@, value@, ttl)),
    ensures
        final(engine).wf(),
        r.follow_up == next_step(*old(stats), CommandView::Write(key@, value@, ttl), r.frame@),
        *final(stats) == tally(
            *old(stats),
            CommandView::Write(key@, value@, ttl),
            r.follow_up,
            now.ms,
        ),
        r.frame@ == answer(*old(engine), *old(stats), CommandView::Write(key@, value@, ttl), now),
        carried_out(
            *old(engine),
            *final(engine),
            CommandView::Write(key@, value@, ttl),
            now,
            r.frame@,
        ),
        old(engine).healthy() && request_orderly(
            *old(engine),
            CommandView::Write(key@, value@, ttl),
            now,
        ) ==> {
            &&& outcome(
                *old(engine),
                *final(engine),
                CommandView::Write(key@, value@, ttl),
                now,
            )
        },
{
    proof {
        lemma_not_okay();
    }
    if stats.compacting {
        stats.write_blocked_attempts = stats.write_blocked_attempts.wrapping_add(1);
    }
    let expiry: Option<u64> = match ttl {
        Some(seconds) => Some(expiry_of(seconds, now.ms)),
        None => None,
    };
    match engine.set_with_ttl(key, value, expiry, now) {
        Ok(_) => {
            stats.writes = stats.writes.wrapping_add(1);
            reply(ResponseStatus::Okay, FollowUp::CheckCompaction)
        },
        Err(e) => reply_error(e),
    }
}

/// Deletes a key.
fn run_delete<E: StorageEngine>(
    key: &str,
    engine: &mut E,
    stats: &mut Stats,
    now: Clock,
) -> (r: Reply)
    requires
        old(engine).wf(),
        request_fits(CommandView::Delete(key@)),
    ensures
        final(engine).wf(),
        r.follow_up == next_step(*old(stats), CommandView::Delete(key@), r.frame@),
        *final(stats) == tally(
            *old(stats),
            CommandView::Delete(key@),
            r.follow_up,
            now.ms,
        ),
        r.frame@ == answer(*old(engine), *old(stats), CommandView::Delete(key@), now),
        carried_out(*old(engine), *final(engine), CommandView::Delete(key@), now, r.frame@),
        old(engine).healthy() && request_orderly(
            *old(engine),
            CommandView::Delete(key@),
            now,
        ) ==> outcome(*old(engine), *final(engine), CommandView::Delete(key@), now),
{
    proof {
        lemma_not_okay();
    }
    match engine.delete(key, now) {
        Ok(Some(_)) => {
            stats.deletes = stats.deletes.wrapping_add(1);
            reply(ResponseStatus::Okay, FollowUp::CheckCompaction)
        },
        Ok(None) => reply(ResponseStatus::NotFound, FollowUp::Nothing),
        Err(e) => reply_error(e),
    }
}

/// Changes the time at which a key expires.
fn run_ttl<E: StorageEngine>(
    key: &str,
    seconds: u32,
    engine: &mut E,
    stats: &mut Stats,
    now: Clock,
) -> (r: Reply)
    requires
        old(engine).wf(),
        request_fits(CommandView::Ttl(key@, seconds)),
    ensures
        final(engine).wf(),
        r.follow_up == next_step(*old(stats), CommandView::Ttl(key@, seconds), r.frame@),
        *final(stats) == tally(
            *old(stats),
            CommandView::Ttl(key@, seconds),
            r.follow_up,
            now.ms,
        ),
        r.frame@ == answer(*old(engine), *old(stats), CommandView::Ttl(key@, seconds), now),
        carried_out(*old(engine), *final(engine), CommandView::Ttl(key@, seconds), now, r.frame@),
        old(engine).healthy() && request_orderly(
            *old(engine),
            CommandView::Ttl(key@, seconds),
            now,
        ) ==> outcome(*old(engine), *final(engine), CommandView::Ttl(key@, seconds), now),
{
    proof {
        lemma_not_okay();
        if engine.healthy() {
            engine.lemma_read(key@, now.ms);
        }
    }
    let expiry: Option<u64> = if seconds == 0 {
        None
    } else {
        Some(expiry_of(seconds, now.ms))
    };
    match engine.ttl(key, expiry, now) {
        Ok(TtlOutcome::NotFound) => reply(ResponseStatus::NotFound, FollowUp::Nothing),
        Ok(_) => reply(ResponseStatus::Okay, FollowUp::Nothing),
        Err(e) => reply_error(e),
    }
}

/// Carries out a request and answers it.
pub fn dispatch<E: StorageEngine>(
    command: Command,
    engine: &mut E,
    stats: &mut Stats,
    now: Clock,
) -> (r: Reply)
    requires
        old(engine).wf(),
        request_fits(command@),
    ensures
        final(engine).wf(),
        r.follow_up == next_step(*old(stats), command@, r.frame@),
        *final(stats) == tally(*old(stats), command@, r.follow_up, now.ms),
        determined(*old(engine), command@, now) ==> r.frame@ == answer(
            *old(engine),
            *old(stats),
            command@,
            now,
        ),
        carried_out(*old(engine), *final(engine), command@, now, r.frame@),
        old(engine).healthy() && request_orderly(*old(engine), command@, now) ==> outcome(
            *old(engine),
            *final(engine),
            command@,
            now,
        ),
{
    match command {
        Command::Invalid(n) => reply_text(
            ResponseStatus::Error,
            String::from_str("Invalid op code: ").concat(decimal_string(n as u64).as_str()),
        ),
        Command::Read(key) => {
            stats.reads = stats.reads.wrapping_add(1);
            match engine.get(key.as_str(), now) {
                Ok(Some((_, v))) => reply_text(ResponseStatus::Okay, v),
                Ok(None) => reply(ResponseStatus::NotFound, FollowUp::Nothing),
                Err(e) => reply_error(e),
            }
        },
        Command::Write(key, value, ttl) => run_write(
            key.as_str(),
            value.as_str(),
            ttl,
            engine,
            stats,
            now,
        ),
        Command::Delete(key) => run_delete(key.as_str(), engine, stats, now),
        Command::Compact => if begin_compaction(stats, now.ms) {
            reply(ResponseStatus::Okay, FollowUp::Compact)
        } else {
            reply(ResponseStatus::Noop, FollowUp::Nothing)
        },
        Command::Stats => reply_text(ResponseStatus::Okay, stats.snapshot()),
        Command::List => match engine.list_keys(now) {
            Ok(keys) => Reply {
                frame: encode_frame(ResponseStatus::Okay, keys.as_slice()),
                follow_up: FollowUp::Nothing,
            },
            Err(e) => reply_error(e),
        },
        Command::Exists(key) => if engine.contains(key.as_str(), now) {
            reply(ResponseStatus::Okay, FollowUp::Nothing)
        } else {
            reply(ResponseStatus::NotFound, FollowUp::Nothing)
        },
        Command::Ping => reply_text(ResponseStatus::Okay, String::from_str("PONG")),
        Command::Mget(keys) => {
            stats.reads = stats.reads.wrapping_add(1);
            match engine.mget(keys, now) {
                Ok(found) => {
                    let rows = answers_to_rows(found);
                    Reply {
                        frame: encode_frame(ResponseStatus::Okay, rows.as_slice()),
                        follow_up: FollowUp::Nothing,
                    }
                },
                Err(e) => reply_error(e),
            }
        },
        Command::Mset(items) => run_mset(items, engine, stats, now),
        Command::Range(_, _) => reply_text(
            ResponseStatus::Error,
            String::from_str("RANGE is not supported by this engine"),
        ),
        Command::Ttl(key, seconds) => run_ttl(key.as_str(), seconds, engine, stats, now),
    }
}

/// Notes that a compaction starts, unless one is running. Says whether it may start.
pub fn begin_compaction(stats: &mut Stats, now_ms: u64) -> (r: bool)
    ensures
        r == !old(stats).compacting,
        *final(stats) == if old(stats).compacting {
            *old(stats)
        } else {
            (Stats { compacting: true, last_compact_start_ms: now_ms, ..*old(stats) })
        },
{
    if stats.compacting {
        return false;
    }
    stats.compacting = true;
    stats.last_compact_start_ms = now_ms;
    true
}

/// Notes that a compaction has ended.
pub fn end_compaction(stats: &mut Stats, now_ms: u64)
    ensures
        *final(stats) == (Stats {
            compacting: false,
            last_compact_end_ms: now_ms,
            compaction_count: old(stats).compaction_count.wrapping_add(1),
            ..*old(stats)
        }),
{
    stats.last_compact_end_ms = now_ms;
    stats.compacting = false;
    stats.compaction_count = stats.compaction_count.wrapping_add(1);
}

/// Notes how long a write was held up.
pub fn note_blocked(stats: &mut Stats, ms: u64)
    ensures
        *final(stats) == (Stats {
            write_blocked_total_ms: old(stats).write_blocked_total_ms.wrapping_add(ms),
            ..*old(stats)
        }),
{
    stats.write_blocked_total_ms = stats.write_blocked_total_ms.wrapping_add(ms);
}

/// Whether there are more segments than a server is to keep.
pub fn too_many_segments(segment_count: usize, cfg: CompactionCfg) -> (r: bool)
    ensures
        r == (cfg.max_segment > 0 && segment_count > cfg.max_segment),
{
    cfg.max_segment > 0 && segment_count > cfg.max_segment
}

/// Carries out a request to a store that can be read in the order of its keys.
pub fn dispatch_ranged<E: RangeScan>(
    command: Command,
    engine: &mut E,
    stats: &mut Stats,
    now: Clock,
) -> (r: Reply)
    requires
        old(engine).wf(),
        request_fits(command@),
    ensures
        final(engine).wf(),
        r.follow_up == next_step(*old(stats), command@, r.frame@),
        *final(stats) == tally(*old(stats), command@, r.follow_up, now.ms),
        determined(*old(engine), command@, now) ==> r.frame@ == ranged_answer(
            *old(engine),
            *old(stats),
            command@,
            now,
        ),
        carried_out(*old(engine), *final(engine), command@, now, r.frame@),
        old(engine).healthy() && request_orderly(*old(engine), command@, now) ==> outcome(
            *old(engine),
            *final(engine),
            command@,
            now,
        ),
{
    match command {
        Command::Range(start, end) => match engine.range(start.as_str(), end.as_str(), now) {
            Ok(pairs) => {
                let rows = pairs_to_rows(pairs);
                Reply {
                    frame: encode_frame(ResponseStatus::Okay, rows.as_slice()),
                    follow_up: FollowUp::Nothing,
                }
            },
            Err(e) => reply_error(e),
        },
        other => dispatch(other, engine, stats, now),
    }
}

/// The length that a frame announces in its first bytes, or the answer where it
/// cannot be read.
pub fn frame_length(head: &[u8]) -> (r: Result<usize, Reply>)
    ensures
        r is Ok <==> head@.len() >= 4 && head@[0] * 0x100_0000 + head@[1] * 0x1_0000 + head@[2]
            * 0x100 + head@[3] <= 6 * 1024 * 1024 + 1024,
        r matches Ok(n) ==> n == head@[0] * 0x100_0000 + head@[1] * 0x1_0000 + head@[2] * 0x100
            + head@[3],
        match r {
            Ok(n) => head@.len() >= 4 && n == from_be_u32(head@.subrange(0, 4)) && n
                <= MAX_REQUEST_BYTES,
            Err(reply) => reply.follow_up == FollowUp::Nothing && if head@.len() < 4 {
                reply.frame@ == told(ResponseStatus::Error, "Received empty request."@)
            } else {
                let n = from_be_u32(head@.subrange(0, 4));
                &&& n > MAX_REQUEST_BYTES
                &&& reply.frame@ == told(
                    ResponseStatus::Error,
                    "Frame too large: "@ + decimal(n as nat) + " bytes"@,
                )
            },
        },
{
    if head.len() < 4 {
        return Err(
            reply_text(ResponseStatus::Error, String::from_str("Received empty request.")),
        );
    }
    let n = read_u32(head, 0);
    proof {
        lemma_be_u32_value(head@.subrange(0, 4), 0);
    }
    if n as u64 > MAX_REQUEST_BYTES as u64 {
        let text = String::from_str("Frame too large: ").concat(
            decimal_string(n as u64).as_str(),
        ).concat(" bytes");
        return Err(reply_text(ResponseStatus::Error, text));
    }
    Ok(n as usize)
}

/// Reads the request that a frame holds, or gives the answer where it holds none.
pub fn read_request(buffer: &[u8]) -> (r: Result<Command, Reply>)
    requires
        buffer@.len() <= 4 + MAX_REQUEST_BYTES,
    ensures
        match r {
            Ok(c) => parse_command_frame(buffer@) == Ok::<CommandView, StoreError>(c@)
                && request_fits(c@),
            Err(reply) => {
                &&& parse_command_frame(buffer@) matches Err(e)
                &&& reply.frame@ == failed(e)
                &&& reply.follow_up == FollowUp::Nothing
            },
        },
{
    proof {
        lemma_parsed_within(buffer@);
        assert(encode_utf8(Seq::<char>::empty()).len() == 0) by {
            reveal_with_fuel(encode_utf8, 1);
        }
    }
    match decode_input_frame(buffer) {
        Ok(c) => Ok(c),
        Err(e) => Err(reply_error(e)),
    }
}

/// Whether a frame holds a request to write one key. The time that such a request waits
/// for its turn is counted.
pub fn is_write(buffer: &[u8]) -> (r: bool)
    requires
        buffer@.len() <= 4 + MAX_REQUEST_BYTES,
    ensures
        r <==> (parse_command_frame(buffer@) matches Ok(c) && c is Write),
{
    match read_request(buffer) {
        Ok(Command::Write(_, _, _)) => true,
        _ => false,
    }
}

/// Answers the request that a frame holds.
pub fn handle_request<E: StorageEngine>(
    buffer: &[u8],
    engine: &mut E,
    stats: &mut Stats,
    now: Clock,
) -> (r: Reply)
    requires
        old(engine).wf(),
        buffer@.len() <= 4 + MAX_REQUEST_BYTES,
    ensures
        final(engine).wf(),
        match parse_command_frame(buffer@) {
            Err(e) => {
                &&& r.frame@ == failed(e)
                &&& r.follow_up == FollowUp::Nothing
                &&& *final(engine) == *old(engine)
                &&& *final(stats) == *old(stats)
            },
            Ok(c) => {
                &&& r.follow_up == next_step(*old(stats), c, r.frame@)
                &&& *final(stats) == tally(*old(stats), c, r.follow_up, now.ms)
                &&& determined(*old(engine), c, now) ==> r.frame@ == answer(
                    *old(engine),
                    *old(stats),
                    c,
                    now,
                )
                &&& carried_out(*old(engine), *final(engine), c, now, r.frame@)
                &&& old(engine).healthy() && request_orderly(*old(engine), c, now) ==> outcome(
                    *old(engine),
                    *final(engine),
                    c,
                    now,
                )
            },
        },
{
    match read_request(buffer) {
        Ok(command) => dispatch(command, engine, stats, now),
        Err(reply) => reply,
    }
}

/// Answers the request that a frame holds, from a store that can be read in the order of
/// its keys.
pub fn handle_request_ranged<E: RangeScan>(
    buffer: &[u8],
    engine: &mut E,
    stats: &mut Stats,
    now: Clock,
) -> (r: Reply)
    requires
        old(engine).wf(),
        buffer@.len() <= 4 + MAX_REQUEST_BYTES,
    ensures
        final(engine).wf(),
        match parse_command_frame(buffer@) {
            Err(e) => {
                &&& r.frame@ == failed(e)
                &&& r.follow_up == FollowUp::Nothing
                &&& *final(engine) == *old(engine)
                &&& *final(stats) == *old(stats)
            },
            Ok(c) => {
                &&& r.follow_up == next_step(*old(stats), c, r.frame@)
                &&& *final(stats) == tally(*old(stats), c, r.follow_up, now.ms)
                &&& determined(*old(engine), c, now) ==> r.frame@ == ranged_answer(
                    *old(engine),
                    *old(stats),
                    c,
                    now,
                )
                &&& carried_out(*old(engine), *final(engine), c, now, r.frame@)
                &&& old(engine).healthy() && request_orderly(*old(engine), c, now) ==> outcome(
                    *old(engine),
                    *final(engine),
                    c,
                    now,
                )
            },
        },
{
    match read_request(buffer) {
        Ok(command) => dispatch_ranged(command, engine, stats, now),
        Err(reply) => reply,
    }
}

/// What a request is answered that cannot be carried out: the status of an error, and the
/// text of what went wrong, or of what is not supported.
pub proof fn lemma_error_answers<E: StorageEngine>(
    engine: E,
    stats: Stats,
    key: Seq<char>,
    value: Seq<char>,
    n: u8,
    now: Clock,
)
    ensures
        answer(engine, stats, CommandView::Invalid(n), now) == response_frame(
            ResponseStatus::Error,
            seq!["Invalid op code: "@ + decimal(n as nat)],
        ),
        answer(engine, stats, CommandView::Range(key, value), now) == response_frame(
            ResponseStatus::Error,
            seq!["RANGE is not supported by this engine"@],
        ),
        engine.read(key, now.ms) matches Err(e) ==> answer(
            engine,
            stats,
            CommandView::Read(key),
            now,
        ) == response_frame(ResponseStatus::Error, seq![e.spec_message()]),
        engine.listing(now.ms) matches Err(e) ==> answer(engine, stats, CommandView::List, now)
            == response_frame(ResponseStatus::Error, seq![e.spec_message()]),
        engine.delete_error(key, now) matches Some(e) ==> answer(
            engine,
            stats,
            CommandView::Delete(key),
            now,
        ) == response_frame(ResponseStatus::Error, seq![e.spec_message()]),
{
}

/// A write is answered with `Okay`, or where it is refused with an error that says why. The
/// time at which it expires is the given seconds from now on.
pub proof fn lemma_write_answers<E: StorageEngine>(
    engine: E,
    stats: Stats,
    key: Seq<char>,
    value: Seq<char>,
    seconds: u32,
    now: Clock,
)
    requires
        now.ms + 1000 * seconds <= u64::MAX,
    ensures
        answer(engine, stats, CommandView::Write(key, value, None), now) == (
        match engine.write_error(key, value, None, now) {
            None => response_frame(ResponseStatus::Okay, Seq::empty()),
            Some(e) => response_frame(ResponseStatus::Error, seq![e.spec_message()]),
        }),
        answer(engine, stats, CommandView::Write(key, value, Some(seconds)), now) == (
        match engine.write_error(key, value, Some((now.ms + 1000 * seconds) as u64), now) {
            None => response_frame(ResponseStatus::Okay, Seq::empty()),
            Some(e) => response_frame(ResponseStatus::Error, seq![e.spec_message()]),
        }),
{
}

/// A change of the time of expiry is answered with `NotFound` where the key is not there,
/// and otherwise as the write is that it comes to.
pub proof fn lemma_ttl_answers<E: StorageEngine>(
    engine: E,
    stats: Stats,
    key: Seq<char>,
    seconds: u32,
    now: Clock,
)
    requires
        now.ms + 1000 * seconds <= u64::MAX,
    ensures
        match engine.read(key, now.ms) {
            Err(e) => answer(engine, stats, CommandView::Ttl(key, seconds), now) == response_frame(
                ResponseStatus::Error,
                seq![e.spec_message()],
            ),
            Ok(None) => answer(engine, stats, CommandView::Ttl(key, seconds), now)
                == response_frame(ResponseStatus::NotFound, Seq::empty()),
            Ok(Some(v)) => fits_in_memory(key, v) ==> answer(
                engine,
                stats,
                CommandView::Ttl(key, seconds),
                now,
            ) == (match engine.write_error(
                key,
                v,
                if seconds == 0 {
                    None
                } else {
                    Some((now.ms + 1000 * seconds) as u64)
                },
                now,
            ) {
                None => response_frame(ResponseStatus::Okay, Seq::empty()),
                Some(e) => response_frame(ResponseStatus::Error, seq![e.spec_message()]),
            }),
        },
{
}

/// What a request leaves of a store in good order, key by key. A write, a deletion and a
/// change of a time of expiry concern their own key; all other requests but those that write
/// several keys leave everything as it is.
pub proof fn lemma_other_keys<E: StorageEngine>(
    before: E,
    after: E,
    c: CommandView,
    now: Clock,
    k: Seq<char>,
)
    requires
        outcome(before, after, c, now),
        !(c is Mset),
        c matches CommandView::Write(x, _, _) ==> x != k,
        c matches CommandView::Delete(x) ==> x != k,
        c matches CommandView::Ttl(x, _) ==> x != k,
    ensures
        after.contents().contains_key(k) == before.contents().contains_key(k),
        after.contents().contains_key(k) ==> after.contents()[k] == before.contents()[k],
{
}

/// What a request leaves of its own key in a store in good order, where it is not refused:
/// a write its value and the time of expiry that the seconds come to, a deletion nothing, and
/// a change of a time of expiry the value that was there with the new time, or without one
/// where the seconds are 0.
pub proof fn lemma_own_key<E: StorageEngine>(
    before: E,
    after: E,
    k: Seq<char>,
    v: Seq<char>,
    seconds: u32,
    now: Clock,
)
    requires
        now.ms + 1000 * seconds <= u64::MAX,
    ensures
        ({
            let at = (now.ms + 1000 * seconds) as u64;
            &&& outcome(before, after, CommandView::Write(k, v, Some(seconds)), now)
                && before.write_error(k, v, Some(at), now) is None ==> after.contents()
                == before.contents().insert(k, Live { value: v, expiry_ms: Some(at) })
            &&& outcome(before, after, CommandView::Write(k, v, None), now)
                && before.write_error(k, v, None, now) is None ==> after.contents()
                == before.contents().insert(k, Live { value: v, expiry_ms: None })
            &&& outcome(before, after, CommandView::Delete(k), now) && before.delete_error(
                k,
                now,
            ) is None ==> after.contents() == before.contents().remove(k)
            &&& outcome(before, after, CommandView::Ttl(k, seconds), now) && seconds > 0
                && fits_in_memory(k, v) && visible(before.contents(), k, now.ms) == Some(v)
                && before.write_error(k, v, Some(at), now) is None ==> after.contents()
                == before.contents().insert(k, Live { value: v, expiry_ms: Some(at) })
            &&& outcome(before, after, CommandView::Ttl(k, 0), now) && fits_in_memory(k, v)
                && visible(before.contents(), k, now.ms) == Some(v) && before.write_error(
                k,
                v,
                None,
                now,
            ) is None ==> after.contents() == before.contents().insert(
                k,
                Live { value: v, expiry_ms: None },
            )
            &&& outcome(before, after, CommandView::Ttl(k, seconds), now) && visible(
                before.contents(),
                k,
                now.ms,
            ) is None ==> after.contents() == before.contents()
        }),
{
}

} // verus!
