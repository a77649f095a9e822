//! What holds of the store and its commands as a whole.
use vstd::prelude::*;

use crate::command::{command_of, folded, set_options, Command, SetOptions, NOT_A_NUMBER};
use crate::dispatch::{executes, serves, Outcome, Situation, AUTHENTICATION_REQUIRED};
use crate::entry::{Record, ValueView};
use crate::eviction::{lemma_sweeps, makes_room, sweeps, victims, Samples};
use crate::expiry_commands::{
    expire_leaves, expire_reply, persist_leaves, persist_reply, pttl_reply, seconds_left, ttl_reply,
    NO_EXPIRY, NO_KEY,
};
use crate::fields::merged;
use crate::hash_commands::{hget_reply, hset_answers, hset_pairs, pairs_size};
use crate::model::{
    deadline, lemma_total_without, lemma_wrapped_twice, text_record, wrapped, StoreView,
};
use crate::number::{decimal, law_decimal_round_trip, signed_of, unsigned_of};
use crate::resp::{bulk_or_null, Reply};
use crate::size::{live_weight, record_size, record_weight};
use crate::stats::{LocalCount, ServerStats};
use crate::sums::{
    lemma_map_sum_empty, lemma_map_sum_insert, map_sum,
};
use crate::text_commands::{
    decrby_answers, del_leaves, get_reply, growth, incr_answers, incremented, mget_reply,
    mset_answers, mset_pairs, net_growth, room_for, room_needed, set_answers, setex_answers, sets,
    stored_all, stores_all, text_size, texts, OUT_OF_MEMORY,
};

verus! {

// ---------------------------------------------------------------------------------------------
// The memory counter
// ---------------------------------------------------------------------------------------------

/// A store without keys, whose counter is at zero, is accounted for.
pub proof fn law_empty_store_is_accounted(v: StoreView)
    requires
        v.contents == Map::<Seq<u8>, Record>::empty(),
        v.memory_used == 0,
    ensures
        v.accounted(),
{
    lemma_map_sum_empty(v.contents, record_weight());
}

/// Storing a record keeps the memory counter in step.
pub proof fn law_replacing_keeps_account(v: StoreView, key: Seq<u8>, record: Record, time: u32)
    requires
        v.contents.dom().finite(),
        v.accounted(),
    ensures
        v.replaced(key, record, time).accounted(),
        v.replaced(key, record, time).contents.dom().finite(),
{
    let without = v.contents.remove(key);
    lemma_total_without(v, key);
    lemma_map_sum_insert(without, record_weight(), key, record);
    assert(without.insert(key, record) =~= v.contents.insert(key, record));
    lemma_wrapped_twice(
        v.total_size() as int,
        record_size(key, record) - v.size_of(key),
    );
}

proof fn lemma_stores(v: StoreView, key: Seq<u8>, record: Record, after: StoreView)
    requires
        v.contents.dom().finite(),
        v.accounted(),
        v.stores(key, record, after),
    ensures
        after.accounted(),
        after.contents.dom().finite(),
{
    let time = choose|time: u32| after == #[trigger] v.replaced(key, record, time);
    law_replacing_keeps_account(v, key, record, time);
}

/// Removing a key keeps the memory counter in step.
pub proof fn law_dropping_keeps_account(v: StoreView, key: Seq<u8>)
    requires
        v.contents.dom().finite(),
        v.accounted(),
    ensures
        v.dropped(key).accounted(),
        v.dropped(key).contents.dom().finite(),
{
    lemma_total_without(v, key);
    lemma_wrapped_twice(v.total_size() as int, -v.size_of(key));
}

/// Removing keys keeps the memory counter in step.
pub proof fn law_dropping_all_keeps_account(v: StoreView, keys: Seq<Seq<u8>>)
    requires
        v.contents.dom().finite(),
        v.accounted(),
    ensures
        v.dropped_all(keys).accounted(),
        v.dropped_all(keys).contents.dom().finite(),
    decreases keys.len(),
{
    if keys.len() > 0 {
        law_dropping_all_keeps_account(v, keys.drop_last());
        law_dropping_keeps_account(v.dropped_all(keys.drop_last()), keys.last());
    }
}

/// Removing a key that has expired keeps the memory counter in step.
pub proof fn law_purging_keeps_account(v: StoreView, key: Seq<u8>, now: u64)
    requires
        v.contents.dom().finite(),
        v.accounted(),
    ensures
        v.purged(key, now).accounted(),
        v.purged(key, now).contents.dom().finite(),
{
    law_dropping_keeps_account(v, key);
}

/// Visiting a key keeps the memory counter in step.
pub proof fn law_visiting_keeps_account(v: StoreView, key: Seq<u8>, now: u64, time: Option<u32>)
    requires
        v.contents.dom().finite(),
        v.accounted(),
    ensures
        v.visited(key, now, time).accounted(),
        v.visited(key, now, time).contents.dom().finite(),
{
    law_purging_keeps_account(v, key, now);
}

/// Visiting keys keeps the memory counter in step.
pub proof fn law_visiting_all_keeps_account(
    v: StoreView,
    keys: Seq<Seq<u8>>,
    now: u64,
    times: Seq<Option<u32>>,
)
    requires
        v.contents.dom().finite(),
        v.accounted(),
    ensures
        v.visited_all(keys, now, times).accounted(),
        v.visited_all(keys, now, times).contents.dom().finite(),
    decreases keys.len(),
{
    if keys.len() > 0 {
        law_visiting_all_keeps_account(v, keys.drop_last(), now, times.drop_last());
        law_visiting_keeps_account(
            v.visited_all(keys.drop_last(), now, times.drop_last()),
            keys.last(),
            now,
            times.last(),
        );
    }
}

/// Changing when a key expires keeps the memory counter in step.
pub proof fn law_expiry_keeps_account(v: StoreView, key: Seq<u8>, expiry: Option<u64>)
    requires
        v.contents.dom().finite(),
        v.has(key),
        v.accounted(),
    ensures
        v.with_expiry(key, expiry).accounted(),
        v.with_expiry(key, expiry).contents.dom().finite(),
{
    let record = Record { expiry, ..v.contents[key] };
    let without = v.contents.remove(key);
    lemma_total_without(v, key);
    lemma_map_sum_insert(without, record_weight(), key, record);
    assert(without.insert(key, record) =~= v.contents.insert(key, record));
}

/// Evicting keys keeps the memory counter in step.
pub proof fn law_evicting_keeps_account(v: StoreView, keys: Seq<Seq<u8>>)
    requires
        v.contents.dom().finite(),
        v.holds_all(keys),
        v.accounted(),
    ensures
        v.evicted_all(keys).accounted(),
        v.evicted_all(keys).contents.dom().finite(),
        v.tracks_memory() ==> v.evicted_all(keys).total_size() + v.sizes(keys) == v.total_size(),
    decreases keys.len(),
{
    if keys.len() == 0 {
        assert(v.contents.remove_keys(keys.to_set()) =~= v.contents);
    } else {
        let (rest, key) = (keys.drop_last(), keys.last());
        assert forall|i: int| 0 <= i < rest.len() implies v.has(#[trigger] rest[i]) by {
            assert(v.has(keys[i]));
        }
        law_evicting_keeps_account(v, rest);
        let before = v.evicted_all(rest);
        assert(keys[keys.len() - 1] == key);
        assert(!rest.contains(key)) by {
            if rest.contains(key) {
                let i = choose|i: int| 0 <= i < rest.len() && rest[i] == key;
                assert(keys[i] == key);
            }
        }
        assert(before.has(key));
        lemma_total_without(before, key);
        assert(keys.to_set() =~= rest.to_set().insert(key)) by {
            assert forall|k: Seq<u8>| keys.to_set().contains(k) == rest.to_set().insert(
                key,
            ).contains(k) by {
                if keys.contains(k) && k != key {
                    let i = choose|i: int| 0 <= i < keys.len() && keys[i] == k;
                    assert(rest[i] == k);
                }
                if rest.contains(k) {
                    let i = choose|i: int| 0 <= i < rest.len() && rest[i] == k;
                    assert(keys[i] == k);
                }
            }
        }
        assert(v.evicted_all(keys).contents =~= before.contents.remove(key));
        lemma_wrapped_twice(v.total_size() as int, -v.sizes(keys));
    }
}

/// Making room keeps the memory counter in step.
pub proof fn law_making_room_keeps_account(
    before: StoreView,
    needed: nat,
    after: StoreView,
    granted: bool,
)
    requires
        before.contents.dom().finite(),
        before.accounted(),
        makes_room(before, needed, after, granted),
    ensures
        after.accounted(),
        after.contents.dom().finite(),
        after.limits == before.limits,
        after.total_size() <= before.total_size(),
{
    if after != before {
        let (keys, draws) = choose|keys: Seq<Seq<u8>>, draws: Seq<Samples>| #[trigger]
            victims(before, needed, keys, draws, after);
        law_evicting_keeps_account(before, keys);
    }
}

/// Removing expired keys that nobody asks for keeps the memory counter in step, and leaves every
/// live key, and every key that it does not remove, as it was; what it counts is what it removes.
pub proof fn law_sweeping_spares_live_keys(
    before: StoreView,
    count: usize,
    now: u64,
    after: StoreView,
    removed: usize,
)
    requires
        before.contents.dom().finite(),
        sweeps(before, count, now, after, removed),
    ensures
        before.accounted() ==> after.accounted(),
        removed <= count,
        after.contents.dom().len() + removed == before.contents.dom().len(),
        after.evicted_keys == before.evicted_keys,
        forall|key: Seq<u8>| #[trigger] before.live(key, now) ==> after.has(key),
        forall|key: Seq<u8>| #[trigger]
            after.has(key) ==> {
                &&& before.has(key)
                &&& after.contents[key] == before.contents[key]
                &&& after.access_times[key] == before.access_times[key]
            },
{
    lemma_sweeps(before, count, now, after, removed);
    lemma_wrapped_twice(before.total_size() as int, after.total_size() - before.total_size());
}

/// Emptying a store in which no key has expired keeps the memory counter in step: it is at zero.
pub proof fn law_flushing_keeps_account(v: StoreView, now: u64)
    requires
        v.contents.dom().finite(),
        v.accounted(),
        forall|key: Seq<u8>| !v.stale(key, now),
    ensures
        v.flushed(now).accounted(),
{
    lemma_live_is_total(v.contents, v, now);
    lemma_map_sum_empty(v.flushed(now).contents, record_weight());
    if v.tracks_memory() && v.live_size(now) < v.memory_used {
        assert(wrapped(v.total_size() as int) <= v.total_size()) by {
            assert(v.total_size() as int % 0x1_0000_0000_0000_0000 <= v.total_size());
        }
    }
}

proof fn lemma_live_is_total(m: Map<Seq<u8>, Record>, v: StoreView, now: u64)
    requires
        m.dom().finite(),
        m.submap_of(v.contents),
        forall|key: Seq<u8>| !v.stale(key, now),
    ensures
        map_sum(m, live_weight(now)) == map_sum(m, record_weight()),
    decreases m.dom().len(),
{
    if m.dom().len() > 0 {
        let key = m.dom().choose();
        assert(m.dom().contains(key));
        assert(m.contains_key(key) && v.contents.contains_key(key) && v.contents[key] == m[key]);
        assert(!v.stale(key, now));
        lemma_live_is_total(m.remove(key), v, now);
    }
}

proof fn lemma_stored_all(
    v: StoreView,
    pairs: Seq<(Seq<u8>, Seq<u8>)>,
    now: u64,
    times: Seq<u32>,
)
    requires
        v.contents.dom().finite(),
        v.accounted(),
    ensures
        stored_all(v, pairs, now, times).accounted(),
        stored_all(v, pairs, now, times).contents.dom().finite(),
    decreases pairs.len(),
{
    if pairs.len() > 0 {
        lemma_stored_all(v, pairs.drop_last(), now, times.drop_last());
        law_replacing_keeps_account(
            stored_all(v, pairs.drop_last(), now, times.drop_last()),
            pairs.last().0,
            text_record(pairs.last().1, None, now),
            times.last(),
        );
    }
}

proof fn lemma_room_for(
    before: StoreView,
    needed: nat,
    after: StoreView,
    granted: bool,
)
    requires
        before.contents.dom().finite(),
        before.accounted(),
        room_for(before, needed, after, granted),
    ensures
        after.accounted(),
        after.contents.dom().finite(),
{
    if needed != 0 {
        law_making_room_keeps_account(before, needed, after, granted);
    }
}

proof fn lemma_incr_keeps_account(
    before: StoreView,
    words: Seq<Seq<u8>>,
    delta: i64,
    now: u64,
    after: StoreView,
    reply: Reply,
)
    requires
        before.contents.dom().finite(),
        before.accounted(),
        incr_answers(before, words, delta, now, after, reply),
    ensures
        after.accounted(),
{
    if words.len() >= 2 {
        let key = words[1];
        let purged = before.purged(key, now);
        law_purging_keeps_account(before, key, now);
        if let Ok(sum) = incremented(before, key, delta, now) {
            let text = decimal(sum as int);
            let record = Record {
                value: ValueView::Text(text),
                expiry: before.live_expiry(key, now),
            };
            let needed = growth(before, key, text, now);
            let (mid, granted) = choose|mid: StoreView, granted: bool|
                {
                    &&& #[trigger] room_for(purged, needed, mid, granted)
                    &&& if granted {
                        mid.stores(key, record, after) && reply == Reply::Integer(sum as int)
                    } else {
                        after == mid && reply == Reply::Error(OUT_OF_MEMORY@)
                    }
                };
            lemma_room_for(purged, needed, mid, granted);
            if granted {
                lemma_stores(mid, key, record, after);
            }
        }
    }
}

proof fn lemma_set_keeps_account(
    before: StoreView,
    words: Seq<Seq<u8>>,
    now: u64,
    after: StoreView,
    reply: Reply,
)
    requires
        before.contents.dom().finite(),
        before.accounted(),
        set_answers(before, words, now, after, reply),
    ensures
        after.accounted(),
{
    if words.len() >= 3 {
        let (key, value) = (words[1], words[2]);
        let needed = text_size(key, value);
        let (mid, granted) = choose|mid: StoreView, granted: bool|
            {
                &&& #[trigger] makes_room(before, needed, mid, granted)
                &&& if !granted {
                    after == mid && reply == Reply::Error(OUT_OF_MEMORY@)
                } else {
                    match set_options(words.skip(3), SetOptions::none()) {
                        Err(message) => after == mid && reply == Reply::Error(message),
                        Ok(options) => sets(mid, key, value, options, now, after, reply),
                    }
                }
            };
        law_making_room_keeps_account(before, needed, mid, granted);
        if let Ok(options) = set_options(words.skip(3), SetOptions::none()) {
            if after != mid {
                lemma_stores(mid, key, text_record(value, options.ttl, now), after);
            }
        }
    }
}

proof fn lemma_setex_keeps_account(
    before: StoreView,
    words: Seq<Seq<u8>>,
    now: u64,
    after: StoreView,
    reply: Reply,
)
    requires
        before.contents.dom().finite(),
        before.accounted(),
        setex_answers(before, words, now, after, reply),
    ensures
        after.accounted(),
{
    if words.len() >= 4 {
        let (key, value) = (words[1], words[3]);
        let needed = text_size(key, value);
        let seconds = unsigned_of(words[2]);
        let (mid, granted) = choose|mid: StoreView, granted: bool|
            {
                &&& #[trigger] makes_room(before, needed, mid, granted)
                &&& after == mid || (seconds is Some && mid.stores(
                    key,
                    text_record(value, seconds, now),
                    after,
                ))
            };
        law_making_room_keeps_account(before, needed, mid, granted);
        if after != mid {
            lemma_stores(mid, key, text_record(value, seconds, now), after);
        }
    }
}

proof fn lemma_mset_keeps_account(
    before: StoreView,
    words: Seq<Seq<u8>>,
    now: u64,
    after: StoreView,
    reply: Reply,
)
    requires
        before.contents.dom().finite(),
        before.accounted(),
        mset_answers(before, words, now, after, reply),
    ensures
        after.accounted(),
{
    if words.len() >= 3 && words.len() % 2 == 1 {
        let pairs = mset_pairs(words);
        let needed = room_needed(net_growth(before, pairs, now));
        let (mid, granted) = choose|mid: StoreView, granted: bool|
            {
                &&& #[trigger] room_for(before, needed, mid, granted)
                &&& if granted {
                    stores_all(mid, pairs, now, after) && reply == Reply::Status("OK"@)
                } else {
                    after == mid && reply == Reply::Error(OUT_OF_MEMORY@)
                }
            };
        lemma_room_for(before, needed, mid, granted);
        if granted {
            let times = choose|times: Seq<u32>|
                times.len() == pairs.len() && after == #[trigger] stored_all(mid, pairs, now, times);
            lemma_stored_all(mid, pairs, now, times);
        }
    }
}

proof fn lemma_hset_keeps_account(
    before: StoreView,
    words: Seq<Seq<u8>>,
    now: u64,
    after: StoreView,
    reply: Reply,
)
    requires
        before.contents.dom().finite(),
        before.accounted(),
        hset_answers(before, words, now, after, reply),
    ensures
        after.accounted(),
{
    if words.len() >= 4 && words.len() % 2 == 0 {
        let (key, pairs) = (words[1], hset_pairs(words));
        let needed = pairs_size(key, pairs);
        let (mid, granted) = choose|mid: StoreView, granted: bool|
            {
                &&& #[trigger] makes_room(before, needed, mid, granted)
                &&& after == mid || exists|record: Record| #[trigger]
                    mid.stores(key, record, after)
            };
        law_making_room_keeps_account(before, needed, mid, granted);
        if after != mid {
            let record = choose|record: Record| #[trigger] mid.stores(key, record, after);
            lemma_stores(mid, key, record, after);
        }
    }
}

/// Whatever a client asks for, the memory counter stays in step with the records; but for emptying
/// a store in which a key has expired without having been removed, which leaves what that key
/// counted for on the counter.
pub proof fn law_requests_keep_account(s: Situation, o: Outcome)
    requires
        s.store.contents.dom().finite(),
        s.store.accounted(),
        executes(s, o),
    ensures
        o.store.accounted() || exists|at: u64, key: Seq<u8>| #[trigger]
            s.store.stale(key, at) && o.store == s.store.flushed(at),
{
    if s.words.len() > 0 && o.store != s.store {
        let command = command_of(s.words[0]);
        let reply = o.reply.unwrap();
        assert(serves(command, s, o.store, reply));
        match command {
            Command::SetValue => lemma_set_keeps_account(
                s.store,
                s.words,
                s.now,
                o.store,
                reply,
            ),
            Command::Setex => lemma_setex_keeps_account(
                s.store,
                s.words,
                s.now,
                o.store,
                reply,
            ),
            Command::Mset => lemma_mset_keeps_account(
                s.store,
                s.words,
                s.now,
                o.store,
                reply,
            ),
            Command::Hset => lemma_hset_keeps_account(
                s.store,
                s.words,
                s.now,
                o.store,
                reply,
            ),
            Command::Incr => lemma_incr_keeps_account(
                s.store,
                s.words,
                1,
                s.now,
                o.store,
                reply,
            ),
            Command::Decr => lemma_incr_keeps_account(
                s.store,
                s.words,
                (-1) as i64,
                s.now,
                o.store,
                reply,
            ),
            Command::Incrby => {
                let n = signed_of(s.words[2]).unwrap();
                lemma_incr_keeps_account(s.store, s.words, n, s.now, o.store, reply);
            },
            Command::Decrby => {
                let n = signed_of(s.words[2]).unwrap();
                lemma_incr_keeps_account(
                    s.store,
                    s.words,
                    (-n) as i64,
                    s.now,
                    o.store,
                    reply,
                );
            },
            Command::Del => law_dropping_all_keeps_account(s.store, s.words.skip(1)),
            Command::Mget => {
                let times = choose|times: Seq<Option<u32>>|
                    {
                        &&& times.len() == s.words.len() - 1
                        &&& o.store == #[trigger] s.store.visited_all(
                            s.words.skip(1),
                            s.now,
                            times,
                        )
                    };
                law_visiting_all_keeps_account(s.store, s.words.skip(1), s.now, times);
            },
            Command::Get | Command::Hget | Command::Hgetall => {
                let time = choose|time: Option<u32>|
                    o.store == #[trigger] s.store.visited(s.words[1], s.now, time);
                law_visiting_keeps_account(s.store, s.words[1], s.now, time);
            },
            Command::Flushdb | Command::Flushall => {
                let at = choose|at: u64| o.store == #[trigger] s.store.flushed(at);
                if forall|key: Seq<u8>| !s.store.stale(key, at) {
                    law_flushing_keeps_account(s.store, at);
                } else {
                    let key = choose|key: Seq<u8>| s.store.stale(key, at);
                    assert(s.store.stale(key, at) && o.store == s.store.flushed(at));
                }
            },
            _ => {
                let key = s.words[1];
                law_purging_keeps_account(s.store, key, s.now);
                law_dropping_keeps_account(s.store, key);
                if s.store.has(key) {
                    law_expiry_keeps_account(s.store, key, None);
                    if let Some(seconds) = signed_of(s.words[2]) {
                        law_expiry_keeps_account(
                            s.store,
                            key,
                            Some(deadline(s.now, seconds as u64)),
                        );
                    }
                }
            },
        }
    }
}

/// Under a memory limit, a SET that is granted room ends within the limit, whether it stores the
/// byte string or its options keep it from doing so.
pub proof fn law_set_stays_within_limit(
    before: StoreView,
    words: Seq<Seq<u8>>,
    now: u64,
    after: StoreView,
    reply: Reply,
)
    requires
        words.len() >= 3,
        before.contents.dom().finite(),
        before.tracks_memory(),
        before.accounted(),
        before.total_size() <= u64::MAX,
        set_answers(before, words, now, after, reply),
        reply != Reply::Error(OUT_OF_MEMORY@),
    ensures
        after.memory_used <= after.limits.max_memory,
{
    let (key, value) = (words[1], words[2]);
    let needed = text_size(key, value);
    let (mid, granted) = choose|mid: StoreView, granted: bool|
        {
            &&& #[trigger] makes_room(before, needed, mid, granted)
            &&& if !granted {
                after == mid && reply == Reply::Error(OUT_OF_MEMORY@)
            } else {
                match set_options(words.skip(3), SetOptions::none()) {
                    Err(message) => after == mid && reply == Reply::Error(message),
                    Ok(options) => sets(mid, key, value, options, now, after, reply),
                }
            }
        };
    assert(granted);
    lemma_granted_room(before, needed, mid);
    if after != mid {
        let options = set_options(words.skip(3), SetOptions::none())->Ok_0;
        let record = text_record(value, options.ttl, now);
        let time = choose|time: u32| after == #[trigger] mid.replaced(key, record, time);
        lemma_stored_text_fits(mid, key, value, options.ttl, now, time);
    }
}

proof fn lemma_granted_room(before: StoreView, needed: nat, mid: StoreView)
    requires
        before.contents.dom().finite(),
        before.tracks_memory(),
        before.accounted(),
        before.total_size() <= u64::MAX,
        makes_room(before, needed, mid, true),
    ensures
        mid.contents.dom().finite(),
        mid.tracks_memory(),
        mid.fits(needed),
        mid.memory_used == mid.total_size(),
{
    law_making_room_keeps_account(before, needed, mid, true);
}

proof fn lemma_stored_text_fits(
    v: StoreView,
    key: Seq<u8>,
    value: Seq<u8>,
    ttl: Option<u64>,
    now: u64,
    time: u32,
)
    requires
        v.contents.dom().finite(),
        v.tracks_memory(),
        v.memory_used == v.total_size(),
        v.fits(text_size(key, value)),
    ensures
        ({
            let after = v.replaced(key, text_record(value, ttl, now), time);
            after.memory_used <= after.limits.max_memory
        }),
{
    lemma_total_without(v, key);
}

// ---------------------------------------------------------------------------------------------
// Reading what was written
// ---------------------------------------------------------------------------------------------

/// A byte string that is stored is read until it expires, and not after; no other key is touched.
pub proof fn law_stored_text_is_read(
    v: StoreView,
    key: Seq<u8>,
    text: Seq<u8>,
    ttl: Option<u64>,
    now: u64,
    time: u32,
    later: u64,
)
    ensures
        ({
            let after = v.replaced(key, text_record(text, ttl, now), time);
            let expired = ttl matches Some(seconds) && later >= deadline(now, seconds);
            &&& after.text(key, later) == (if expired {
                None
            } else {
                Some(text)
            })
            &&& forall|other: Seq<u8>| other != key ==> #[trigger] after.text(other, later)
                == v.text(other, later)
        }),
{
}

/// A GET that follows a SET which was answered with OK gives the byte string that was set, until
/// the time to live that the options gave has passed; TTL tells what is left of it.
pub proof fn law_get_after_set(
    before: StoreView,
    words: Seq<Seq<u8>>,
    now: u64,
    after: StoreView,
    get: Seq<Seq<u8>>,
    later: u64,
)
    requires
        words.len() >= 3,
        set_answers(before, words, now, after, Reply::Status("OK"@)),
        get.len() >= 2,
        get[1] == words[1],
    ensures
        match set_options(words.skip(3), SetOptions::none()) {
            Err(_) => false,
            Ok(options) => match options.ttl {
                None => {
                    &&& get_reply(after, get, later) == Reply::Bulk(words[2])
                    &&& ttl_reply(after, get, later) == Reply::Integer(-1)
                },
                Some(seconds) => if later < deadline(now, seconds) {
                    &&& get_reply(after, get, later) == Reply::Bulk(words[2])
                    &&& ttl_reply(after, get, later) == Reply::Integer(
                        seconds_left(deadline(now, seconds), later) as int,
                    )
                } else {
                    &&& get_reply(after, get, later) == Reply::Null
                    &&& ttl_reply(after, get, later) == Reply::Integer(-2)
                },
            },
        },
{
}

/// A SET for which there is room, and which its options allow, stores the byte string; it is
/// answered with OK, or with what the key held before where the options ask for that.
pub proof fn law_set_succeeds_where_there_is_room(
    before: StoreView,
    words: Seq<Seq<u8>>,
    options: SetOptions,
    now: u64,
    after: StoreView,
    reply: Reply,
)
    requires
        words.len() >= 3,
        before.fits(text_size(words[1], words[2])),
        set_options(words.skip(3), SetOptions::none()) == Ok::<SetOptions, Seq<char>>(options),
        options.nx ==> !options.xx && !before.live(words[1], now),
        options.xx ==> before.live(words[1], now),
        set_answers(before, words, now, after, reply),
    ensures
        before.stores(words[1], text_record(words[2], options.ttl, now), after),
        reply == (if options.get {
            bulk_or_null(before.text(words[1], now))
        } else {
            Reply::Status("OK"@)
        }),
{
}

/// A GET that follows a DEL of the key gives nothing.
pub proof fn law_get_after_del(
    v: StoreView,
    words: Seq<Seq<u8>>,
    i: int,
    get: Seq<Seq<u8>>,
    later: u64,
)
    requires
        1 <= i < words.len(),
        get.len() >= 2,
        get[1] == words[i],
    ensures
        get_reply(del_leaves(v, words), get, later) == Reply::Null,
        ttl_reply(del_leaves(v, words), get, later) == Reply::Integer(-2),
{
    law_deleted_keys_are_gone(v, words.skip(1), get[1]);
    assert(words.skip(1)[i - 1] == get[1]);
}

/// A key that has expired reads as one that is not there.
pub proof fn law_expired_key_reads_as_absent(v: StoreView, key: Seq<u8>, now: u64, words: Seq<Seq<u8>>)
    requires
        v.stale(key, now),
        words.len() >= 3,
        words[1] == key,
    ensures
        get_reply(v, words, now) == Reply::Null,
        hget_reply(v, words, now) == Reply::Null,
        ttl_reply(v, words, now) == Reply::Integer(-2),
        pttl_reply(v, words, now) == Reply::Integer(-2),
        persist_reply(v, words, now) == Reply::Integer(0),
        signed_of(words[2]) is Some ==> expire_reply(v, words, now) == Reply::Integer(0),
{
}

/// Looking at a key, which removes it if it has expired, changes nothing that can be read.
pub proof fn law_purging_is_not_seen(v: StoreView, key: Seq<u8>, now: u64, later: u64)
    requires
        now <= later,
    ensures
        forall|other: Seq<u8>| #[trigger]
            v.purged(key, now).live(other, later) == v.live(other, later),
        forall|other: Seq<u8>| #[trigger]
            v.purged(key, now).text(other, later) == v.text(other, later),
        forall|other: Seq<u8>| #[trigger]
            v.purged(key, now).hash_fields(other, later) == v.hash_fields(other, later),
        forall|other: Seq<u8>| #[trigger]
            v.purged(key, now).live_expiry(other, later) == v.live_expiry(other, later),
{
}

/// Recording an access changes nothing that can be read.
pub proof fn law_visiting_is_not_seen(
    v: StoreView,
    key: Seq<u8>,
    now: u64,
    time: Option<u32>,
    later: u64,
)
    requires
        now <= later,
    ensures
        forall|other: Seq<u8>| #[trigger]
            v.visited(key, now, time).live(other, later) == v.live(other, later),
        forall|other: Seq<u8>| #[trigger]
            v.visited(key, now, time).text(other, later) == v.text(other, later),
        forall|other: Seq<u8>| #[trigger]
            v.visited(key, now, time).hash_fields(other, later) == v.hash_fields(other, later),
        forall|other: Seq<u8>| #[trigger]
            v.visited(key, now, time).live_expiry(other, later) == v.live_expiry(other, later),
        forall|other: Seq<u8>| other != key ==> #[trigger] v.visited(key, now, time).access_times.get(
            other,
        ) == v.access_times.get(other),
{
}

/// Keys that were removed are gone, and the others are as they were.
pub proof fn law_deleted_keys_are_gone(v: StoreView, keys: Seq<Seq<u8>>, key: Seq<u8>)
    ensures
        v.dropped_all(keys).has(key) == (v.has(key) && !keys.contains(key)),
        v.dropped_all(keys).has(key) ==> v.dropped_all(keys).contents[key] == v.contents[key],
        !keys.contains(key) ==> v.dropped_all(keys).access_times.get(key) == v.access_times.get(key),
    decreases keys.len(),
{
    if keys.len() > 0 {
        let rest = keys.drop_last();
        law_deleted_keys_are_gone(v, rest, key);
        if keys.contains(key) && key != keys.last() {
            let i = choose|i: int| 0 <= i < keys.len() && keys[i] == key;
            assert(rest[i] == key);
        }
        if rest.contains(key) {
            let i = choose|i: int| 0 <= i < rest.len() && rest[i] == key;
            assert(keys[i] == key);
        }
        assert(keys[keys.len() - 1] == keys.last());
    }
}

/// Where a key stands last in a list of pairs.
pub open spec fn last_at(pairs: Seq<(Seq<u8>, Seq<u8>)>, key: Seq<u8>, at: int) -> bool {
    &&& 0 <= at < pairs.len()
    &&& pairs[at].0 == key
    &&& forall|i: int| at < i < pairs.len() ==> (#[trigger] pairs[i]).0 != key
}

/// Of several byte strings for a key, the last is stored, and does not expire; keys that are not in
/// the list are as they were.
pub proof fn law_last_of_many_is_stored(
    v: StoreView,
    pairs: Seq<(Seq<u8>, Seq<u8>)>,
    key: Seq<u8>,
    now: u64,
    times: Seq<u32>,
    later: u64,
)
    ensures
        forall|at: int| #[trigger]
            last_at(pairs, key, at) ==> stored_all(v, pairs, now, times).text(key, later) == Some(
                pairs[at].1,
            ),
        (forall|i: int| 0 <= i < pairs.len() ==> (#[trigger] pairs[i]).0 != key) ==> stored_all(
            v,
            pairs,
            now,
            times,
        ).text(key, later) == v.text(key, later),
    decreases pairs.len(),
{
    if pairs.len() > 0 {
        let rest = pairs.drop_last();
        let end = pairs.len() - 1;
        law_last_of_many_is_stored(v, rest, key, now, times.drop_last(), later);
        assert forall|at: int| #[trigger] last_at(pairs, key, at) implies stored_all(
            v,
            pairs,
            now,
            times,
        ).text(key, later) == Some(pairs[at].1) by {
            if at < end {
                assert(pairs[end].0 != key);
                assert forall|i: int| at < i < rest.len() implies (#[trigger] rest[i]).0 != key by {
                    assert(pairs[i].0 != key);
                }
                assert(last_at(rest, key, at));
            }
        }
        if forall|i: int| 0 <= i < pairs.len() ==> (#[trigger] pairs[i]).0 != key {
            assert(pairs[end].0 != key);
            assert forall|i: int| 0 <= i < rest.len() implies (#[trigger] rest[i]).0 != key by {
                assert(pairs[i].0 != key);
            }
        }
    }
}

/// An MGET that follows an MSET gives for each key the last byte string that was set for it.
pub proof fn law_mget_after_mset(
    before: StoreView,
    words: Seq<Seq<u8>>,
    now: u64,
    after: StoreView,
    get: Seq<Seq<u8>>,
    later: u64,
    i: int,
    at: int,
)
    requires
        words.len() >= 3,
        words.len() % 2 == 1,
        mset_answers(before, words, now, after, Reply::Status("OK"@)),
        1 <= i < get.len(),
        last_at(mset_pairs(words), get[i], at),
    ensures
        mget_reply(after, get, later) matches Reply::List(items) && items.len() == get.len() - 1
            && items[i - 1] == Reply::Bulk(mset_pairs(words)[at].1),
{
    let pairs = mset_pairs(words);
    let needed = room_needed(net_growth(before, pairs, now));
    let (mid, granted) = choose|mid: StoreView, granted: bool|
        {
            &&& #[trigger] room_for(before, needed, mid, granted)
            &&& if granted {
                stores_all(mid, pairs, now, after)
            } else {
                after == mid && Reply::Status("OK"@) == Reply::Error(OUT_OF_MEMORY@)
            }
        };
    let times = choose|times: Seq<u32>|
        times.len() == pairs.len() && after == #[trigger] stored_all(mid, pairs, now, times);
    law_last_of_many_is_stored(mid, pairs, get[i], now, times, later);
    assert(texts(after, get.skip(1), later)[i - 1] == bulk_or_null(after.text(get[i], later)));
}

// ---------------------------------------------------------------------------------------------
// Hashes
// ---------------------------------------------------------------------------------------------

/// A field holds the last value that was set for it; fields that are not in the list are as they
/// were.
pub proof fn law_last_field_value_wins(
    base: Map<Seq<u8>, Seq<u8>>,
    pairs: Seq<(Seq<u8>, Seq<u8>)>,
    field: Seq<u8>,
)
    ensures
        forall|at: int| #[trigger]
            last_at(pairs, field, at) ==> merged(base, pairs).get(field) == Some(pairs[at].1),
        (forall|i: int| 0 <= i < pairs.len() ==> (#[trigger] pairs[i]).0 != field) ==> merged(
            base,
            pairs,
        ).get(field) == base.get(field),
    decreases pairs.len(),
{
    if pairs.len() > 0 {
        let rest = pairs.drop_last();
        let end = pairs.len() - 1;
        law_last_field_value_wins(base, rest, field);
        assert forall|at: int| #[trigger] last_at(pairs, field, at) implies merged(
            base,
            pairs,
        ).get(field) == Some(pairs[at].1) by {
            if at < end {
                assert(pairs[end].0 != field);
                assert forall|i: int| at < i < rest.len() implies (#[trigger] rest[i]).0 != field by {
                    assert(pairs[i].0 != field);
                }
                assert(last_at(rest, field, at));
            }
        }
        if forall|i: int| 0 <= i < pairs.len() ==> (#[trigger] pairs[i]).0 != field {
            assert(pairs[end].0 != field);
            assert forall|i: int| 0 <= i < rest.len() implies (#[trigger] rest[i]).0 != field by {
                assert(pairs[i].0 != field);
            }
        }
    }
}

/// An HGET that follows an HSET which was answered with a number gives the last value that was set
/// for the field, as long as the key is live.
pub proof fn law_hget_after_hset(
    before: StoreView,
    words: Seq<Seq<u8>>,
    now: u64,
    after: StoreView,
    added: int,
    get: Seq<Seq<u8>>,
    later: u64,
    at: int,
)
    requires
        hset_answers(before, words, now, after, Reply::Integer(added)),
        get.len() >= 3,
        get[1] == words[1],
        last_at(hset_pairs(words), get[2], at),
        after.live(words[1], later),
    ensures
        hget_reply(after, get, later) == Reply::Bulk(hset_pairs(words)[at].1),
{
    let (key, pairs) = (words[1], hset_pairs(words));
    let needed = pairs_size(key, pairs);
    let (mid, granted) = choose|mid: StoreView, granted: bool|
        {
            &&& #[trigger] makes_room(before, needed, mid, granted)
            &&& granted
            &&& after.contents == mid.contents.insert(
                key,
                (Record {
                    value: ValueView::Hash(merged(mid.hash_fields(key, now), pairs)),
                    expiry: mid.live_expiry(key, now),
                }),
            )
        };
    law_last_field_value_wins(mid.hash_fields(key, now), pairs, get[2]);
}

/// An HSET for which there is room, on a key that holds no byte string, sets the fields, leaves the
/// other fields as they were, and does not change when the key expires.
pub proof fn law_hset_keeps_expiry_and_other_fields(
    before: StoreView,
    words: Seq<Seq<u8>>,
    now: u64,
    after: StoreView,
    reply: Reply,
    field: Seq<u8>,
)
    requires
        words.len() >= 4,
        words.len() % 2 == 0,
        before.fits(pairs_size(words[1], hset_pairs(words))),
        !before.not_a_hash(words[1], now),
        hset_answers(before, words, now, after, reply),
        forall|i: int| 0 <= i < hset_pairs(words).len() ==> (#[trigger] hset_pairs(words)[i]).0 != field,
    ensures
        reply is Integer,
        after.live_expiry(words[1], now) == before.live_expiry(words[1], now),
        after.hash_fields(words[1], now).get(field) == before.hash_fields(words[1], now).get(field),
{
    law_last_field_value_wins(before.hash_fields(words[1], now), hset_pairs(words), field);
}

// ---------------------------------------------------------------------------------------------
// Numbers
// ---------------------------------------------------------------------------------------------

/// What INCR and its kin answer is what a GET gives then, and the key expires when it would have.
pub proof fn law_get_after_incr(
    before: StoreView,
    words: Seq<Seq<u8>>,
    delta: i64,
    now: u64,
    after: StoreView,
    sum: i64,
)
    requires
        words.len() >= 2,
        incr_answers(before, words, delta, now, after, Reply::Integer(sum as int)),
    ensures
        get_reply(after, words, now) == Reply::Bulk(decimal(sum as int)),
        after.live_expiry(words[1], now) == before.live_expiry(words[1], now),
{
}

/// Adding and then subtracting the same number gives back the number that was there.
pub proof fn law_decr_undoes_incr(
    before: StoreView,
    words: Seq<Seq<u8>>,
    n: i64,
    delta: i64,
    now: u64,
    mid: StoreView,
    after: StoreView,
    up: Reply,
    down: Reply,
)
    requires
        words.len() >= 2,
        delta > i64::MIN,
        before.text(words[1], now) matches Some(text) && signed_of(text) == Some(n),
        incr_answers(before, words, delta, now, mid, up),
        incr_answers(mid, words, (-delta) as i64, now, after, down),
        up is Integer,
        down is Integer,
    ensures
        up == Reply::Integer(n + delta),
        down == Reply::Integer(n as int),
        get_reply(after, words, now) == Reply::Bulk(decimal(n as int)),
{
    let sum = (n + delta) as i64;
    assert(up == Reply::Integer(n + delta));
    law_get_after_incr(before, words, delta, now, mid, sum);
    law_decimal_round_trip(sum);
    assert(mid.text(words[1], now) == Some(decimal(sum as int)));
    law_get_after_incr(mid, words, (-delta) as i64, now, after, n);
}

/// DECRBY answers and does what adding the number with its sign turned does; the least number, which
/// has no counterpart, is refused as out of range, and changes nothing.
pub proof fn law_decrby_adds_the_opposite(
    before: StoreView,
    words: Seq<Seq<u8>>,
    n: i64,
    now: u64,
    after: StoreView,
    reply: Reply,
)
    requires
        words.len() >= 3,
        signed_of(words[2]) == Some(n),
    ensures
        n != i64::MIN ==> (decrby_answers(before, words, now, after, reply) <==> incr_answers(
            before,
            words,
            (-n) as i64,
            now,
            after,
            reply,
        )),
        n == i64::MIN ==> (decrby_answers(before, words, now, after, reply) <==> after == before
            && reply == Reply::Error(NOT_A_NUMBER@)),
{
}

// ---------------------------------------------------------------------------------------------
// Times to live
// ---------------------------------------------------------------------------------------------

/// After `EXPIRE key seconds` a live key has that many seconds less those that have passed, and is
/// not live any more once they have all passed.
pub proof fn law_ttl_after_expire(
    v: StoreView,
    words: Seq<Seq<u8>>,
    seconds: i64,
    now: u64,
    get: Seq<Seq<u8>>,
    later: u64,
)
    requires
        words.len() >= 3,
        signed_of(words[2]) == Some(seconds),
        seconds > 0,
        now + seconds <= u64::MAX,
        v.live(words[1], now),
        get.len() >= 2,
        get[1] == words[1],
        now <= later,
    ensures
        expire_reply(v, words, now) == Reply::Integer(1),
        later < now + seconds ==> ttl_reply(expire_leaves(v, words, now), get, later)
            == Reply::Integer(now + seconds - later),
        later >= now + seconds ==> ttl_reply(expire_leaves(v, words, now), get, later)
            == Reply::Integer(-2),
{
}

/// TTL and PTTL answer -2 just for a key that is not live and -1 just for one that does not expire;
/// for every other key they answer a positive number, however far off its time is.
pub proof fn law_ttl_tells_keys_apart(v: StoreView, words: Seq<Seq<u8>>, now: u64)
    requires
        words.len() >= 2,
    ensures
        ({
            let (key, ttl, pttl) = (
                words[1],
                ttl_reply(v, words, now),
                pttl_reply(v, words, now),
            );
            let (live, expires) = (v.live(key, now), v.live_expiry(key, now) is Some);
            &&& ttl == Reply::Integer(NO_KEY as int) <==> !live
            &&& pttl == Reply::Integer(NO_KEY as int) <==> !live
            &&& ttl == Reply::Integer(NO_EXPIRY as int) <==> live && !expires
            &&& pttl == Reply::Integer(NO_EXPIRY as int) <==> live && !expires
            &&& live && expires ==> (ttl matches Reply::Integer(n) && n > 0)
            &&& live && expires ==> (pttl matches Reply::Integer(n) && n > 0)
        }),
{
}

/// PTTL counts a thousand for each second of TTL, as far as that can be written.
pub proof fn law_pttl_is_ttl_in_millis(v: StoreView, words: Seq<Seq<u8>>, now: u64)
    requires
        words.len() >= 2,
        v.live_expiry(words[1], now) matches Some(expiry) && (expiry - now) * 1000 <= i64::MAX,
    ensures
        ttl_reply(v, words, now) matches Reply::Integer(seconds) && seconds > 0 && pttl_reply(
            v,
            words,
            now,
        ) == Reply::Integer(seconds * 1000),
{
}

/// After PERSIST a live key does not expire, and holds what it held.
pub proof fn law_persisted_key_stays(v: StoreView, words: Seq<Seq<u8>>, now: u64, later: u64)
    requires
        words.len() >= 2,
        v.live(words[1], now),
    ensures
        persist_leaves(v, words, now).live(words[1], later),
        persist_leaves(v, words, now).contents[words[1]].value == v.contents[words[1]].value,
        ttl_reply(persist_leaves(v, words, now), words, later) == Reply::Integer(-1),
{
}

/// SET with NX stores at most once: while what it stored is live, a second one changes nothing.
pub proof fn law_nx_stores_once(
    before: StoreView,
    key: Seq<u8>,
    first: Seq<u8>,
    options: SetOptions,
    now: u64,
    mid: StoreView,
    second: Seq<u8>,
    later: u64,
    after: StoreView,
    reply: Reply,
)
    requires
        options.nx,
        !options.xx,
        !before.live(key, now),
        sets(before, key, first, options, now, mid, Reply::Status("OK"@)),
        mid.live(key, later),
        sets(mid, key, second, options, later, after, reply),
    ensures
        after == mid,
        after.text(key, later) == Some(first),
        reply == (if options.get {
            Reply::Bulk(first)
        } else {
            Reply::Null
        }),
{
}

// ---------------------------------------------------------------------------------------------
// Who may do what
// ---------------------------------------------------------------------------------------------

/// A client that has not authenticated changes nothing; it gets in with the password alone; and
/// where it asks for anything but AUTH and PING, it is told to authenticate.
pub proof fn law_no_access_without_password(s: Situation, o: Outcome)
    requires
        !s.authenticated,
        executes(s, o),
    ensures
        o.store == s.store,
        o.authenticated <==> s.words.len() >= 2 && command_of(s.words[0]) == Command::Auth
            && s.password.len() > 0 && s.words[1] == s.password,
        s.words.len() > 0 && command_of(s.words[0]) != Command::Auth && command_of(s.words[0])
            != Command::Ping ==> o.reply == Some(Reply::Error(AUTHENTICATION_REQUIRED@)),
{
}

/// Two names that differ in nothing but the case of their letters.
pub open spec fn same_but_for_case(a: Seq<u8>, b: Seq<u8>) -> bool {
    &&& a.len() == b.len()
    &&& forall|i: int|
        0 <= i < a.len() ==> {
            ||| #[trigger] a[i] == b[i]
            ||| 65 <= a[i] <= 90 && b[i] == a[i] + 32
            ||| 97 <= a[i] <= 122 && a[i] == b[i] + 32
        }
}

proof fn lemma_same_command(a: Seq<u8>, b: Seq<u8>)
    requires
        same_but_for_case(a, b),
    ensures
        command_of(a) == command_of(b),
{
    assert forall|i: int| 0 <= i < a.len() implies folded(a)[i] == folded(b)[i] by {
        let (x, y) = (a[i], b[i]);
        assert(x == y || (65 <= x <= 90 && y == x + 32) || (97 <= x <= 122 && x == y + 32));
        assert((x | 0x20u8) == (y | 0x20u8)) by (bit_vector)
            requires
                x == y || (65 <= x <= 90 && y == x + 32) || (97 <= x <= 122 && x == y + 32),
        ;
    }
    assert(folded(a) =~= folded(b));
}

proof fn lemma_name_is_not_served(
    command: Command,
    s: Situation,
    t: Situation,
    after: StoreView,
    reply: Reply,
)
    requires
        s.words.len() > 0,
        t == (Situation { words: s.words.update(0, t.words[0]), ..s }),
        serves(command, s, after, reply),
    ensures
        serves(command, t, after, reply),
{
    let (a, b) = (s.words, t.words);
    assert(a.skip(1) =~= b.skip(1));
    match command {
        Command::SetValue => {
            if a.len() >= 3 {
                assert(a.skip(3) =~= b.skip(3));
            }
        },
        Command::Scan => {
            if a.len() >= 2 {
                assert(a.skip(2) =~= b.skip(2));
            }
        },
        Command::Mset => {
            assert(mset_pairs(a) =~= mset_pairs(b));
        },
        Command::Hset => {
            if a.len() >= 2 {
                assert(hset_pairs(a) =~= hset_pairs(b));
            }
        },
        _ => {},
    }
}

/// Two requests whose names differ in nothing but the case of their letters have the same outcomes.
pub proof fn law_case_of_the_name_does_not_matter(s: Situation, name: Seq<u8>, o: Outcome)
    requires
        s.words.len() > 0,
        same_but_for_case(s.words[0], name),
    ensures
        executes(s, o) <==> executes(Situation { words: s.words.update(0, name), ..s }, o),
{
    let t = Situation { words: s.words.update(0, name), ..s };
    lemma_same_command(s.words[0], name);
    let command = command_of(name);
    assert(s.words =~= t.words.update(0, s.words[0]));
    if o.reply is Some {
        let reply = o.reply.unwrap();
        if serves(command, s, o.store, reply) {
            lemma_name_is_not_served(command, s, t, o.store, reply);
        }
        if serves(command, t, o.store, reply) {
            lemma_name_is_not_served(command, t, s, o.store, reply);
        }
    }
}

/// Every command is counted once: the total and what waits to be told to it grow by one together,
/// and telling it changes their sum no more.
pub proof fn law_commands_are_counted(
    before: ServerStats,
    waiting: LocalCount,
    after: ServerStats,
    left: LocalCount,
)
    requires
        waiting.wf(),
        left.wf(),
        after == before.with_commands(waiting.commands + 1 - left.commands),
    ensures
        wrapped(after.total_commands + left.commands) == wrapped(
            before.total_commands + waiting.commands + 1,
        ),
        after.with_commands(left.commands as int).total_commands == wrapped(
            before.total_commands + waiting.commands + 1,
        ),
{
    lemma_wrapped_twice(
        before.total_commands + waiting.commands + 1 - left.commands,
        left.commands as int,
    );
}

} // verus!
