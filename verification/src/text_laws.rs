//! What the commands on byte strings are for.
use vstd::prelude::*;

use crate::client::{
    answered, asks, gives_text, holds, lemma_asks, names, refused, same_at, same_setup, sound, spells,
    there,
};
use crate::command::{set_options, Command, SetOptions, NOT_A_NUMBER};
use crate::dispatch::{executes, Action, Outcome, Situation};
use crate::entry::{Record, ValueView};
use crate::eviction::makes_room;
use crate::model::{text_record, StoreView};
use crate::number::{decimal, signed_of, unsigned_of};
use crate::option_laws::{
    grants, law_options_grant_wishes, law_other_options_are_refused, lives_for, says, wished, Wish,
};
use crate::resp::{bulk_or_null, Reply};
use crate::room_laws::{
    ends, held_at_most, law_keys_give_way, law_sizes, lemma_looked, lemma_read, lemma_removed,
    lemma_room_for, lemma_stored, lemma_text_size, looked, read, removed, room_is_made, room_to_grow,
    room_to_swap, stored, weight, weight_now,
};
use crate::text_commands::{
    growth, incr_answers, incremented, mset_pairs, net_growth, room_for, room_needed, sets,
    stored_all, stores_all, text_size, texts, OUT_OF_MEMORY,
};

verus! {

/// GET gives the byte string under a key that is there, and nothing else; the key is only read.
pub proof fn law_get(s: Situation, o: Outcome)
    requires
        asks(s, "get"@),
        executes(s, o),
    ensures
        s.words.len() < 2 ==> refused(s, o, "wrong number of arguments"@),
        s.words.len() >= 2 ==> exists|reply: Reply| #[trigger]
            answered(s, o, reply) && gives_text(s.store, s.words[1], s.now, reply),
        s.words.len() >= 2 ==> read(s.store, o.store, s.words[1], s.now),
{
    lemma_asks(s, Command::Get, "get"@);
    if s.words.len() >= 2 {
        let reply = o.reply.unwrap();
        lemma_read(s.store, o.store, s.words[1], s.now);
        lemma_gives_text(s.store, s.words[1], s.now);
        assert(answered(s, o, reply));
    }
}

proof fn lemma_gives_text(v: StoreView, key: Seq<u8>, now: u64)
    ensures
        gives_text(v, key, now, bulk_or_null(v.text(key, now))),
{
    if let Some(text) = v.text(key, now) {
        assert(holds(v, key, now, text));
    }
}

/// What a SET does once it has room: it stores the byte string, to live as long as was wished for,
/// unless it was wished for only where the key is not there, or only where it is; and it answers
/// with what the key held where that was wished for.
pub open spec fn set_comes_to(
    s: Situation,
    mid: StoreView,
    wishes: Seq<Wish>,
    o: Outcome,
    reply: Reply,
) -> bool {
    let (key, text, now) = (s.words[1], s.words[2], s.now);
    let (nx, xx) = (wished(wishes, Wish::IfAbsent), wished(wishes, Wish::IfPresent));
    let give = wished(wishes, Wish::GiveOld);
    if nx && xx {
        o.store == mid && reply == Reply::Error(
            "XX and NX options at the same time are not compatible"@,
        )
    } else if nx && there(mid, key, now) {
        o.store == mid && if give {
            gives_text(mid, key, now, reply)
        } else {
            reply == Reply::Null
        }
    } else if xx && !there(mid, key, now) {
        o.store == mid && reply == Reply::Null
    } else {
        &&& exists|seconds: Option<u64>| #[trigger]
            lives_for(wishes, seconds) && stored(
                mid,
                o.store,
                key,
                ValueView::Text(text),
                ends(now, seconds),
            )
        &&& if give {
            gives_text(mid, key, now, reply)
        } else {
            reply == Reply::Status("OK"@)
        }
    }
}

/// SET asks for room for the byte string, and then does what was wished for, in whatever order and
/// case the wishes were said.
pub proof fn law_set(s: Situation, wishes: Seq<Wish>, o: Outcome)
    requires
        asks(s, "set"@),
        sound(s.store),
        s.words.len() >= 3,
        says(s.words.skip(3), wishes),
        executes(s, o),
    ensures
        exists|mid: StoreView, granted: bool, reply: Reply|
            {
                &&& #[trigger] room_is_made(
                    s.store,
                    held_at_most(s.words[1].len() + s.words[2].len() + 64),
                    mid,
                    granted,
                )
                &&& #[trigger] answered(s, o, reply)
                &&& granted ==> set_comes_to(s, mid, wishes, o, reply)
                &&& !granted ==> o.store == mid && reply == Reply::Error(
                    "OOM command not allowed when used memory > 'maxmemory'"@,
                )
            },
{
    lemma_asks(s, Command::SetValue, "set"@);
    law_options_grant_wishes(s.words.skip(3), wishes);
    let (key, text, now) = (s.words[1], s.words[2], s.now);
    let options = set_options(s.words.skip(3), SetOptions::none())->Ok_0;
    let reply = o.reply.unwrap();
    let needed = text_size(key, text);
    lemma_text_size(key, text);
    let (mid, granted) = choose|mid: StoreView, granted: bool|
        {
            &&& #[trigger] makes_room(s.store, needed, mid, granted)
            &&& if !granted {
                o.store == mid && reply == Reply::Error(OUT_OF_MEMORY@)
            } else {
                sets(mid, key, text, options, now, o.store, reply)
            }
        };
    law_keys_give_way(s.store, needed, mid, granted);
    if granted {
        lemma_sets(s, mid, wishes, options, o, reply);
    }
    assert(answered(s, o, reply));
}

proof fn lemma_sets(
    s: Situation,
    mid: StoreView,
    wishes: Seq<Wish>,
    options: SetOptions,
    o: Outcome,
    reply: Reply,
)
    requires
        grants(options, wishes),
        sets(mid, s.words[1], s.words[2], options, s.now, o.store, reply),
    ensures
        set_comes_to(s, mid, wishes, o, reply),
{
    let (key, text, now) = (s.words[1], s.words[2], s.now);
    lemma_gives_text(mid, key, now);
    let record = text_record(text, options.ttl, now);
    if mid.stores(key, record, o.store) {
        lemma_stored(mid, key, record, o.store);
        assert(lives_for(wishes, options.ttl));
        assert(record.expiry == ends(now, options.ttl));
    }
}

/// A SET that was wished for only where the key is not there leaves a key that is there as it was,
/// whatever else was wished for.
pub proof fn law_nx_leaves_a_key_alone(s: Situation, wishes: Seq<Wish>, o: Outcome)
    requires
        asks(s, "set"@),
        sound(s.store),
        s.store.limits.max_memory == 0,
        s.words.len() >= 3,
        says(s.words.skip(3), wishes),
        wished(wishes, Wish::IfAbsent),
        there(s.store, s.words[1], s.now),
        executes(s, o),
    ensures
        o.store == s.store,
        !wished(wishes, Wish::IfPresent) && !wished(wishes, Wish::GiveOld) ==> answered(
            s,
            o,
            Reply::Null,
        ),
{
    law_set(s, wishes, o);
}

/// A SET that was wished for only where the key is there leaves a key that is not there without a
/// byte string, whatever else was wished for.
pub proof fn law_xx_makes_no_key(s: Situation, wishes: Seq<Wish>, o: Outcome)
    requires
        asks(s, "set"@),
        sound(s.store),
        s.store.limits.max_memory == 0,
        s.words.len() >= 3,
        says(s.words.skip(3), wishes),
        wished(wishes, Wish::IfPresent),
        !there(s.store, s.words[1], s.now),
        executes(s, o),
    ensures
        o.store == s.store,
        !wished(wishes, Wish::IfAbsent) ==> answered(s, o, Reply::Null),
{
    law_set(s, wishes, o);
}

/// A SET is refused once it has asked for room; nothing is stored.
pub open spec fn set_refused(s: Situation, o: Outcome, message: Seq<char>) -> bool {
    exists|granted: bool|
        {
            &&& #[trigger] room_is_made(
                s.store,
                held_at_most(s.words[1].len() + s.words[2].len() + 64),
                o.store,
                granted,
            )
            &&& granted ==> answered(s, o, Reply::Error(message))
            &&& !granted ==> answered(
                s,
                o,
                Reply::Error("OOM command not allowed when used memory > 'maxmemory'"@),
            )
        }
}

/// A SET with too few words, or with words that say no wishes, stores nothing.
pub proof fn law_set_refuses_other_words(s: Situation, i: int, wishes: Seq<Wish>, o: Outcome)
    requires
        asks(s, "set"@),
        sound(s.store),
        executes(s, o),
    ensures
        s.words.len() < 3 ==> refused(s, o, "wrong number of arguments"@),
        s.words.len() >= 3 && 0 <= i < s.words.len() - 3 && says(s.words.skip(3).take(i), wishes) ==> {
            let (rest, word) = (s.words.skip(3), s.words[3 + i]);
            let timed = spells(word, "ex"@) || spells(word, "px"@);
            let flag = spells(word, "nx"@) || spells(word, "xx"@)
                || spells(word, "get"@);
            &&& !timed && !flag ==> set_refused(s, o, "syntax error"@)
            &&& timed && 3 + i + 1 == s.words.len() ==> set_refused(s, o, "syntax error"@)
            &&& timed && 3 + i + 1 < s.words.len() && (unsigned_of(s.words[4 + i]) is None
                || unsigned_of(s.words[4 + i]) == Some(0u64)) ==> set_refused(
                s,
                o,
                "value is not an integer or out of range"@,
            )
        },
{
    lemma_asks(s, Command::SetValue, "set"@);
    if s.words.len() >= 3 && 0 <= i < s.words.len() - 3 && says(s.words.skip(3).take(i), wishes) {
        law_other_options_are_refused(s.words.skip(3), i, wishes);
        assert(s.words.skip(3)[i] == s.words[3 + i]);
        if 3 + i + 1 < s.words.len() {
            assert(s.words.skip(3)[i + 1] == s.words[4 + i]);
        }
        if let Err(message) = set_options(s.words.skip(3), SetOptions::none()) {
            let (key, text) = (s.words[1], s.words[2]);
            lemma_text_size(key, text);
            let granted = choose|granted: bool|
                {
                    &&& #[trigger] makes_room(s.store, text_size(key, text), o.store, granted)
                    &&& o.reply == Some(
                        Reply::Error(
                            if granted {
                                message
                            } else {
                                OUT_OF_MEMORY@
                            },
                        ),
                    )
                };
            law_keys_give_way(s.store, text_size(key, text), o.store, granted);
            assert(set_refused(s, o, message));
        }
    }
}

/// SETEX asks for room for the byte string and stores it, to live for so many seconds; it does so
/// for a positive number of seconds only.
pub proof fn law_setex(s: Situation, o: Outcome)
    requires
        asks(s, "setex"@),
        sound(s.store),
        executes(s, o),
    ensures
        s.words.len() < 4 ==> refused(s, o, "wrong number of arguments"@),
        s.words.len() >= 4 ==> exists|mid: StoreView, granted: bool, reply: Reply|
            {
                &&& #[trigger] room_is_made(
                    s.store,
                    held_at_most(s.words[1].len() + s.words[3].len() + 64),
                    mid,
                    granted,
                )
                &&& #[trigger] answered(s, o, reply)
                &&& !granted ==> o.store == mid && reply == Reply::Error(
                    "OOM command not allowed when used memory > 'maxmemory'"@,
                )
                &&& granted ==> match unsigned_of(s.words[2]) {
                    Some(seconds) if seconds > 0 => reply == Reply::Status("OK"@) && stored(
                        mid,
                        o.store,
                        s.words[1],
                        ValueView::Text(s.words[3]),
                        ends(s.now, Some(seconds)),
                    ),
                    _ => o.store == mid && reply == Reply::Error(
                        "value is not an integer or out of range"@,
                    ),
                }
            },
{
    lemma_asks(s, Command::Setex, "setex"@);
    if s.words.len() >= 4 {
        let (key, text, now) = (s.words[1], s.words[3], s.now);
        let reply = o.reply.unwrap();
        let needed = text_size(key, text);
        lemma_text_size(key, text);
        let (mid, granted) = choose|mid: StoreView, granted: bool|
            {
                &&& #[trigger] makes_room(s.store, needed, mid, granted)
                &&& if !granted {
                    o.store == mid && reply == Reply::Error(OUT_OF_MEMORY@)
                } else {
                    match unsigned_of(s.words[2]) {
                        Some(seconds) if seconds > 0 => {
                            &&& mid.stores(key, text_record(text, Some(seconds), now), o.store)
                            &&& reply == Reply::Status("OK"@)
                        },
                        _ => o.store == mid && reply == Reply::Error(
                            NOT_A_NUMBER@,
                        ),
                    }
                }
            };
        law_keys_give_way(s.store, needed, mid, granted);
        if granted {
            if let Some(seconds) = unsigned_of(s.words[2]) {
                if seconds > 0 {
                    lemma_stored(mid, key, text_record(text, Some(seconds), now), o.store);
                }
            }
        }
        assert(answered(s, o, reply));
    }
}

/// MGET answers with one item for each key, in their order: what GET would answer for it. No key is
/// changed by it but for when it counts as last accessed; those that are there no more are removed.
pub proof fn law_mget(s: Situation, o: Outcome)
    requires
        asks(s, "mget"@),
        executes(s, o),
    ensures
        s.words.len() < 2 ==> refused(s, o, "wrong number of arguments"@),
        s.words.len() >= 2 ==> {
            &&& o.reply matches Some(Reply::List(items)) && items.len() == s.words.len() - 1
                && forall|i: int|
                0 <= i < items.len() ==> gives_text(
                    s.store,
                    s.words[i + 1],
                    s.now,
                    #[trigger] items[i],
                )
            &&& forall|key: Seq<u8>| #[trigger]
                o.store.contents.contains_key(key) <==> s.store.contents.contains_key(key) && !(
                s.words.skip(1).contains(key) && !there(s.store, key, s.now))
            &&& forall|key: Seq<u8>| #[trigger]
                o.store.contents.contains_key(key) ==> o.store.contents[key]
                    == s.store.contents[key]
            &&& forall|key: Seq<u8>|
                !#[trigger] s.words.skip(1).contains(key) ==> same_at(s.store, o.store, key)
            &&& o.store.evicted_keys == s.store.evicted_keys && o.store.limits == s.store.limits
        },
{
    lemma_asks(s, Command::Mget, "mget"@);
    if s.words.len() >= 2 {
        let keys = s.words.skip(1);
        let items = texts(s.store, keys, s.now);
        assert forall|i: int| 0 <= i < items.len() implies gives_text(
            s.store,
            s.words[i + 1],
            s.now,
            #[trigger] items[i],
        ) by {
            lemma_gives_text(s.store, keys[i], s.now);
        }
        let times = choose|times: Seq<Option<u32>>|
            {
                &&& times.len() == s.words.len() - 1
                &&& o.store == #[trigger] s.store.visited_all(keys, s.now, times)
            };
        assert forall|key: Seq<u8>| true implies read_of_many(
            s.store,
            #[trigger] o.store.contents.contains_key(key),
            o.store,
            keys,
            key,
            s.now,
        ) by {
            lemma_read_many(s.store, keys, s.now, times, key);
        }
        assert forall|key: Seq<u8>| !#[trigger] keys.contains(key) implies same_at(
            s.store,
            o.store,
            key,
        ) by {
            lemma_read_many(s.store, keys, s.now, times, key);
        }
        lemma_read_many(s.store, keys, s.now, times, Seq::empty());
    }
}

spec fn read_of_many(
    v: StoreView,
    left: bool,
    w: StoreView,
    keys: Seq<Seq<u8>>,
    key: Seq<u8>,
    now: u64,
) -> bool {
    &&& left <==> v.contents.contains_key(key) && !(keys.contains(key) && !there(v, key, now))
    &&& left ==> w.contents[key] == v.contents[key]
}

proof fn lemma_read_many(
    v: StoreView,
    keys: Seq<Seq<u8>>,
    now: u64,
    times: Seq<Option<u32>>,
    key: Seq<u8>,
)
    requires
        times.len() == keys.len(),
    ensures
        ({
            let w = v.visited_all(keys, now, times);
            &&& read_of_many(v, w.contents.contains_key(key), w, keys, key, now)
            &&& !keys.contains(key) ==> same_at(v, w, key)
            &&& w.evicted_keys == v.evicted_keys
            &&& w.limits == v.limits
        }),
    decreases keys.len(),
{
    if keys.len() > 0 {
        let rest = keys.drop_last();
        lemma_read_many(v, rest, now, times.drop_last(), key);
        lemma_member(keys, key);
    }
}

proof fn lemma_member(keys: Seq<Seq<u8>>, key: Seq<u8>)
    requires
        keys.len() > 0,
    ensures
        keys.contains(key) <==> keys.drop_last().contains(key) || keys.last() == key,
{
    let rest = keys.drop_last();
    if keys.contains(key) && keys.last() != key {
        let i = choose|i: int| 0 <= i < keys.len() && keys[i] == key;
        assert(rest[i] == key);
    }
    if rest.contains(key) {
        let i = choose|i: int| 0 <= i < rest.len() && rest[i] == key;
        assert(keys[i] == key);
    }
    assert(keys[keys.len() - 1] == keys.last());
}

/// How much more the first `n` pairs of `MSET key text ..` count for than the keys that are there
/// count for now.
pub open spec fn gain(s: Situation, n: int) -> int
    decreases n,
{
    if n <= 0 {
        0
    } else {
        let (key, text) = (s.words[2 * n - 1], s.words[2 * n]);
        gain(s, n - 1) + held_at_most(key.len() + text.len() + 64) - weight_now(
            s.store,
            key,
            s.now,
        )
    }
}

/// The last pair of `MSET key text ..` that names the key is the one at `i`.
pub open spec fn set_last(words: Seq<Seq<u8>>, key: Seq<u8>, i: int) -> bool {
    &&& 0 <= i < (words.len() - 1) / 2
    &&& words[2 * i + 1] == key
    &&& forall|j: int| i < j < (words.len() - 1) / 2 ==> words[#[trigger] (2 * j + 1)] != key
}

/// MSET asks for room for what the keys gain together, and then every key that it names holds the
/// last text that it gives for it, for good, and no other key is touched.
pub proof fn law_mset(s: Situation, o: Outcome)
    requires
        asks(s, "mset"@),
        sound(s.store),
        executes(s, o),
    ensures
        s.words.len() < 3 || s.words.len() % 2 == 0 ==> refused(
            s,
            o,
            "wrong number of arguments for MSET"@,
        ),
        s.words.len() >= 3 && s.words.len() % 2 == 1 ==> {
            let total = gain(s, (s.words.len() - 1) / 2);
            exists|mid: StoreView, granted: bool, reply: Reply|
                {
                    &&& #[trigger] answered(s, o, reply)
                    &&& #[trigger] room_to_grow(s.store, total, mid, granted)
                    &&& !granted ==> o.store == mid && reply == Reply::Error(
                        "OOM command not allowed when used memory > 'maxmemory'"@,
                    )
                    &&& granted ==> reply == Reply::Status("OK"@) && all_set(s, mid, o.store)
                }
        },
{
    lemma_asks(s, Command::Mset, "mset"@);
    if s.words.len() >= 3 && s.words.len() % 2 == 1 {
        let pairs = mset_pairs(s.words);
        let reply = o.reply.unwrap();
        let net = net_growth(s.store, pairs, s.now);
        let n = (s.words.len() - 1) / 2;
        assert(pairs.take(n) =~= pairs);
        lemma_gain(s, n);
        let (mid, granted) = choose|mid: StoreView, granted: bool|
            {
                &&& #[trigger] room_for(s.store, room_needed(net), mid, granted)
                &&& if granted {
                    stores_all(mid, pairs, s.now, o.store) && reply
                        == Reply::Status("OK"@)
                } else {
                    o.store == mid && reply == Reply::Error(OUT_OF_MEMORY@)
                }
            };
        lemma_room_for(s.store, room_needed(net), mid, granted);
        if granted {
            let times = choose|times: Seq<u32>|
                times.len() == pairs.len() && o.store == #[trigger] stored_all(
                    mid,
                    pairs,
                    s.now,
                    times,
                );
            assert forall|key: Seq<u8>| #[trigger] set_or_kept(s, mid, o.store, key) by {
                lemma_set_many(s, mid, n, times, key);
            }
            lemma_set_many(s, mid, n, times, Seq::empty());
        }
        assert(answered(s, o, reply));
        assert(room_to_grow(s.store, net, mid, granted));
    }
}

/// A key that an MSET names holds the last text that it gives for it, and is never there no more;
/// another key holds what it held.
pub open spec fn set_or_kept(s: Situation, mid: StoreView, w: StoreView, key: Seq<u8>) -> bool {
    &&& forall|i: int| #[trigger]
        set_last(s.words, key, i) ==> w.contents.contains_key(key) && w.contents[key] == (Record {
            value: ValueView::Text(s.words[2 * i + 2]),
            expiry: None,
        }) && w.access_times.contains_key(key)
    &&& (forall|i: int| !#[trigger] set_last(s.words, key, i)) ==> same_at(mid, w, key)
}

/// Every key is set or kept as an MSET wants it.
pub open spec fn all_set(s: Situation, mid: StoreView, w: StoreView) -> bool {
    &&& forall|key: Seq<u8>| #[trigger] set_or_kept(s, mid, w, key)
    &&& same_setup(mid, w)
}

proof fn lemma_gain(s: Situation, n: int)
    requires
        0 <= n <= (s.words.len() - 1) / 2,
        s.words.len() >= 1,
    ensures
        net_growth(s.store, mset_pairs(s.words).take(n), s.now) == gain(s, n),
    decreases n,
{
    let pairs = mset_pairs(s.words);
    if n > 0 {
        lemma_gain(s, n - 1);
        assert(pairs.take(n).drop_last() =~= pairs.take(n - 1));
        let (key, text) = (s.words[2 * n - 1], s.words[2 * n]);
        assert(pairs.take(n).last() == (key, text));
        lemma_text_size(key, text);
        if s.store.has(key) {
            law_sizes(key, s.store.contents[key]);
        }
    } else {
        assert(pairs.take(0) =~= Seq::empty());
    }
}

spec fn set_last_before(words: Seq<Seq<u8>>, n: int, key: Seq<u8>, i: int) -> bool {
    &&& 0 <= i < n
    &&& words[2 * i + 1] == key
    &&& forall|j: int| i < j < n ==> words[#[trigger] (2 * j + 1)] != key
}

proof fn lemma_set_some(s: Situation, mid: StoreView, n: int, times: Seq<u32>, key: Seq<u8>)
    requires
        0 <= n <= (s.words.len() - 1) / 2,
        s.words.len() >= 1,
        times.len() == n,
    ensures
        ({
            let w = stored_all(mid, mset_pairs(s.words).take(n), s.now, times);
            &&& forall|i: int| #[trigger]
                set_last_before(s.words, n, key, i) ==> w.contents.contains_key(key)
                    && w.contents[key] == (Record {
                    value: ValueView::Text(s.words[2 * i + 2]),
                    expiry: None,
                }) && w.access_times.contains_key(key)
            &&& (forall|i: int| !#[trigger] set_last_before(s.words, n, key, i)) ==> same_at(
                mid,
                w,
                key,
            )
            &&& same_setup(mid, w)
        }),
    decreases n,
{
    let pairs = mset_pairs(s.words);
    if n == 0 {
        assert(pairs.take(0) =~= Seq::empty());
    } else {
        lemma_set_some(s, mid, n - 1, times.drop_last(), key);
        assert(pairs.take(n).drop_last() =~= pairs.take(n - 1));
        assert(pairs.take(n).last() == (s.words[2 * n - 1], s.words[2 * n]));
        let w = stored_all(mid, pairs.take(n), s.now, times);
        let before = stored_all(mid, pairs.take(n - 1), s.now, times.drop_last());
        if s.words[2 * n - 1] == key {
            assert forall|i: int| #[trigger] set_last_before(s.words, n, key, i) implies i == n
                - 1 by {
                if i < n - 1 {
                    assert(s.words[2 * (n - 1) + 1] != key);
                }
            }
            assert(set_last_before(s.words, n, key, n - 1));
        } else {
            assert forall|i: int| #[trigger]
                set_last_before(s.words, n, key, i) == set_last_before(
                s.words,
                n - 1,
                key,
                i,
            ) by {
                if set_last_before(s.words, n - 1, key, i) {
                    assert forall|j: int| i < j < n implies s.words[#[trigger] (2 * j + 1)]
                        != key by {}
                }
                if set_last_before(s.words, n, key, i) {
                    assert(i != n - 1);
                }
            }
            assert(same_at(before, w, key));
            if forall|i: int| !#[trigger] set_last_before(s.words, n, key, i) {
                assert forall|i: int| !#[trigger] set_last_before(s.words, n - 1, key, i) by {
                    assert(!set_last_before(s.words, n, key, i));
                }
            }
        }
    }
}

proof fn lemma_set_many(s: Situation, mid: StoreView, n: int, times: Seq<u32>, key: Seq<u8>)
    requires
        s.words.len() >= 3,
        n == (s.words.len() - 1) / 2,
        times.len() == n,
    ensures
        set_or_kept(s, mid, stored_all(mid, mset_pairs(s.words), s.now, times), key),
        same_setup(mid, stored_all(mid, mset_pairs(s.words), s.now, times)),
{
    let pairs = mset_pairs(s.words);
    assert(pairs.take(n) =~= pairs);
    lemma_set_some(s, mid, n, times, key);
    assert forall|i: int| #[trigger] set_last(s.words, key, i) == set_last_before(
        s.words,
        n,
        key,
        i,
    ) by {}
    if forall|i: int| !#[trigger] set_last(s.words, key, i) {
        assert forall|i: int| !#[trigger] set_last_before(s.words, n, key, i) by {
            assert(!set_last(s.words, key, i));
        }
    }
}

/// DEL removes the keys that it names, and no others, and changes none of those.
pub proof fn law_del(s: Situation, o: Outcome, key: Seq<u8>)
    requires
        asks(s, "del"@),
        executes(s, o),
    ensures
        s.words.len() < 2 ==> refused(s, o, "wrong number of arguments"@),
        s.words.len() >= 2 ==> {
            &&& s.words.skip(1).contains(key) ==> !o.store.contents.contains_key(key)
                && !o.store.access_times.contains_key(key)
            &&& !s.words.skip(1).contains(key) ==> same_at(s.store, o.store, key)
            &&& same_setup(s.store, o.store)
            &&& s.store.limits.max_memory == 0 ==> o.store.memory_used == s.store.memory_used
        },
{
    lemma_asks(s, Command::Del, "del"@);
    if s.words.len() >= 2 {
        lemma_dropped_all(s.store, s.words.skip(1), key);
    }
}

proof fn lemma_dropped_all(v: StoreView, keys: Seq<Seq<u8>>, key: Seq<u8>)
    ensures
        ({
            let w = v.dropped_all(keys);
            &&& keys.contains(key) ==> !w.contents.contains_key(key)
                && !w.access_times.contains_key(key)
            &&& !keys.contains(key) ==> same_at(v, w, key)
            &&& same_setup(v, w)
            &&& v.limits.max_memory == 0 ==> w.memory_used == v.memory_used
        }),
    decreases keys.len(),
{
    if keys.len() > 0 {
        lemma_dropped_all(v, keys.drop_last(), key);
        lemma_member(keys, key);
    }
}

/// DEL counts the keys that it names and that are there, each once: naming one more counts one more
/// if that key is there and was not named before, and removes that key as well.
pub proof fn law_del_counts(s: Situation, o: Outcome, key: Seq<u8>, t: Situation, p: Outcome)
    requires
        asks(s, "del"@),
        t == (Situation { words: s.words.push(key), ..s }),
        executes(s, o),
        executes(t, p),
    ensures
        ({
            let more: int = if there(s.store, key, s.now) && !s.words.skip(1).contains(key) {
                1
            } else {
                0
            };
            &&& s.words.len() == 1 ==> answered(t, p, Reply::Integer(more))
            &&& s.words.len() > 1 ==> exists|n: int|
                #![trigger answered(s, o, Reply::Integer(n))]
                answered(s, o, Reply::Integer(n)) && answered(t, p, Reply::Integer(n + more))
        }),
        removed(o.store, p.store, key),
{
    lemma_asks(s, Command::Del, "del"@);
    assert(t.words[0] == s.words[0]);
    assert(t.words.skip(1) =~= s.words.skip(1).push(key));
    let (keys, longer) = (s.words.skip(1), t.words.skip(1));
    let a = s.store.live_among(keys, s.now);
    let b = s.store.live_among(longer, s.now);
    assert(longer.drop_last() =~= keys);
    assert forall|k: Seq<u8>| longer.to_set().contains(k) == keys.to_set().insert(key).contains(
        k,
    ) by {
        lemma_member(longer, k);
    }
    assert(longer.to_set() =~= keys.to_set().insert(key));
    if there(s.store, key, s.now) && !keys.contains(key) {
        assert(b =~= a.insert(key));
    } else {
        assert(b =~= a);
    }
    if s.words.len() == 1 {
        assert(a =~= Set::empty());
        assert(s.store.dropped_all(keys) == s.store);
    } else {
        assert(answered(s, o, Reply::Integer(a.len() as int)));
    }
    assert(p.store == o.store.dropped(key));
    lemma_removed(o.store, key);
}

/// EXISTS changes nothing, and counts how many of the words it is given name a key that is there:
/// one word more counts one more if it does.
pub proof fn law_exists_counts(s: Situation, o: Outcome, key: Seq<u8>, t: Situation, p: Outcome)
    requires
        asks(s, "exists"@),
        t == (Situation { words: s.words.push(key), ..s }),
        executes(s, o),
        executes(t, p),
    ensures
        p.store == s.store,
        s.words.len() == 1 ==> refused(s, o, "wrong number of arguments"@),
        ({
            let more: int = if there(s.store, key, s.now) {
                1
            } else {
                0
            };
            &&& s.words.len() == 1 ==> answered(t, p, Reply::Integer(more))
            &&& s.words.len() > 1 ==> exists|n: int|
                #![trigger answered(s, o, Reply::Integer(n))]
                answered(s, o, Reply::Integer(n)) && answered(t, p, Reply::Integer(n + more))
        }),
{
    lemma_asks(s, Command::Exists, "exists"@);
    assert(t.words[0] == s.words[0]);
    assert(t.words.skip(1) =~= s.words.skip(1).push(key));
    let live = |key: Seq<u8>| s.store.live(key, s.now);
    let (keys, longer) = (s.words.skip(1), t.words.skip(1));
    assert(longer.drop_last() =~= keys);
    reveal(Seq::filter);
    if s.words.len() == 1 {
        assert(keys.filter(live).len() == 0);
    } else {
        assert(answered(s, o, Reply::Integer(keys.filter(live).len() as int)));
    }
}

/// The request adds the number to the one under its second word: one, one less than none, the number
/// that it gives, or that number with its sign turned.
pub open spec fn adds(s: Situation, delta: i64) -> bool {
    &&& s.words.len() >= 2
    &&& {
        ||| asks(s, "incr"@) && delta == 1
        ||| asks(s, "decr"@) && delta == -1
        ||| asks(s, "incrby"@) && s.words.len() >= 3 && signed_of(s.words[2]) == Some(delta)
        ||| asks(s, "decrby"@) && s.words.len() >= 3 && delta > i64::MIN && signed_of(s.words[2])
            == Some((-delta) as i64)
    }
}

/// The number under a key: none where the key is not there, and what the byte string says where it
/// says a number.
pub open spec fn counts_as(v: StoreView, key: Seq<u8>, now: u64, n: i64) -> bool {
    if there(v, key, now) {
        exists|text: Seq<u8>| #[trigger] holds(v, key, now, text) && signed_of(text) == Some(n)
    } else {
        n == 0
    }
}

/// When a key that is there is so no more, if ever.
pub open spec fn end_of(v: StoreView, key: Seq<u8>, now: u64) -> Option<u64> {
    if there(v, key, now) {
        v.contents[key].expiry
    } else {
        None
    }
}

/// Room was asked for where the sum takes more than the number did; then the sum is stored, for as
/// long as the number would have been, and is the answer.
pub open spec fn sum_goes_in(
    s: Situation,
    sum: int,
    cleared: StoreView,
    mid: StoreView,
    granted: bool,
    o: Outcome,
) -> bool {
    let (key, value) = (s.words[1], ValueView::Text(decimal(sum)));
    &&& looked(s.store, cleared, key, s.now)
    &&& room_to_swap(cleared, weight_now(s.store, key, s.now), weight(key, value), mid, granted)
    &&& granted ==> answered(s, o, Reply::Integer(sum)) && stored(
        mid,
        o.store,
        key,
        value,
        end_of(s.store, key, s.now),
    )
    &&& !granted ==> o.store == mid && answered(
        s,
        o,
        Reply::Error("OOM command not allowed when used memory > 'maxmemory'"@),
    )
}

/// The sum takes the place of the number.
pub open spec fn sum_is_stored(s: Situation, sum: int, o: Outcome) -> bool {
    exists|cleared: StoreView, mid: StoreView, granted: bool| #[trigger]
        sum_goes_in(s, sum, cleared, mid, granted, o)
}

proof fn lemma_adds(s: Situation, delta: i64, o: Outcome)
    requires
        adds(s, delta),
        executes(s, o),
    ensures
        o.reply is Some,
        o.authenticated == s.authenticated,
        o.action == Action::Done,
        incr_answers(
            s.store,
            s.words,
            delta,
            s.now,
            o.store,
            o.reply.unwrap(),
        ),
{
    if asks(s, "incr"@) && delta == 1 {
        lemma_asks(s, Command::Incr, "incr"@);
    } else if asks(s, "decr"@) && delta == -1 {
        lemma_asks(s, Command::Decr, "decr"@);
    } else if asks(s, "incrby"@) && signed_of(s.words[2]) == Some(delta) {
        lemma_asks(s, Command::Incrby, "incrby"@);
    } else {
        lemma_asks(s, Command::Decrby, "decrby"@);
    }
}

/// INCR and its kin answer with the sum of the number under the key and the number that they add, and
/// store it; a key that is not there counts as none. Where the sum cannot be written, nothing is
/// stored.
pub proof fn law_sum(s: Situation, delta: i64, n: i64, o: Outcome)
    requires
        adds(s, delta),
        sound(s.store),
        counts_as(s.store, s.words[1], s.now, n),
        executes(s, o),
    ensures
        i64::MIN <= n + delta <= i64::MAX ==> sum_is_stored(s, n + delta, o),
        n + delta > i64::MAX ==> looked(s.store, o.store, s.words[1], s.now) && answered(
            s,
            o,
            Reply::Error("increment would produce overflow"@),
        ),
        n + delta < i64::MIN ==> looked(s.store, o.store, s.words[1], s.now) && answered(
            s,
            o,
            Reply::Error("decrement would produce overflow"@),
        ),
{
    lemma_adds(s, delta, o);
    let (key, now) = (s.words[1], s.now);
    let purged = s.store.purged(key, now);
    lemma_looked(s.store, key, now);
    let reply = o.reply.unwrap();
    if there(s.store, key, now) {
        let text = choose|text: Seq<u8>| #[trigger]
            holds(s.store, key, now, text) && signed_of(text) == Some(n);
        assert(holds(s.store, key, now, text));
    }
    assert(s.store.live(key, now) == there(s.store, key, now));
    if i64::MIN <= n + delta <= i64::MAX {
        let sum = (n + delta) as i64;
        assert(incremented(s.store, key, delta, now) == Ok::<i64, Seq<char>>(sum));
        let text = decimal(sum as int);
        let needed = growth(s.store, key, text, now);
        lemma_text_size(key, text);
        if s.store.has(key) {
            law_sizes(key, s.store.contents[key]);
        }
        let record = Record {
            value: ValueView::Text(text),
            expiry: s.store.live_expiry(key, now),
        };
        let (mid, granted) = choose|mid: StoreView, granted: bool|
            {
                &&& #[trigger] room_for(purged, needed, mid, granted)
                &&& if granted {
                    mid.stores(key, record, o.store) && reply == Reply::Integer(sum as int)
                } else {
                    o.store == mid && reply == Reply::Error(OUT_OF_MEMORY@)
                }
            };
        lemma_sound_when_looked(s.store, key, now);
        lemma_room_for(purged, needed, mid, granted);
        if granted {
            lemma_stored(mid, key, record, o.store);
        }
        assert(sum_goes_in(s, sum as int, purged, mid, granted, o));
    }
}

proof fn lemma_sound_when_looked(v: StoreView, key: Seq<u8>, now: u64)
    requires
        sound(v),
    ensures
        sound(v.purged(key, now)),
{
    assert(v.purged(key, now).access_times.dom() =~= v.purged(key, now).contents.dom());
}

/// INCR and its kin store nothing where the key holds a hash or a byte string that says no number,
/// where they are given no number, or too few words.
pub proof fn law_sum_needs_numbers(s: Situation, o: Outcome, delta: i64)
    requires
        executes(s, o),
    ensures
        adds(s, delta) && there(s.store, s.words[1], s.now) ==> match s.store.contents[s.words[1]].value {
            ValueView::Hash(_) => refused(
                s,
                o,
                "WRONGTYPE Operation against a key holding the wrong kind of value"@,
            ),
            ValueView::Text(text) => signed_of(text) is None ==> refused(
                s,
                o,
                "value is not an integer or out of range"@,
            ),
        },
        (asks(s, "incr"@) || asks(s, "decr"@)) && s.words.len() < 2 ==> refused(
            s,
            o,
            "wrong number of arguments"@,
        ),
        (asks(s, "incrby"@) || asks(s, "decrby"@)) && s.words.len() < 3 ==> refused(
            s,
            o,
            "wrong number of arguments"@,
        ),
        (asks(s, "incrby"@) || asks(s, "decrby"@)) && s.words.len() >= 3 && signed_of(
            s.words[2],
        ) is None ==> refused(s, o, "value is not an integer or out of range"@),
        asks(s, "decrby"@) && s.words.len() >= 3 && signed_of(s.words[2]) == Some(i64::MIN)
            ==> refused(s, o, "value is not an integer or out of range"@),
{
    if adds(s, delta) {
        lemma_adds(s, delta, o);
    }
    if asks(s, "incr"@) {
        lemma_asks(s, Command::Incr, "incr"@);
    }
    if asks(s, "decr"@) {
        lemma_asks(s, Command::Decr, "decr"@);
    }
    if asks(s, "incrby"@) {
        lemma_asks(s, Command::Incrby, "incrby"@);
    }
    if asks(s, "decrby"@) {
        lemma_asks(s, Command::Decrby, "decrby"@);
    }
}

/// A key that is not there comes to hold just the number that is added, if anything is stored.
pub proof fn law_counting_starts_at_nothing(s: Situation, delta: i64, o: Outcome, n: int)
    requires
        adds(s, delta),
        sound(s.store),
        !there(s.store, s.words[1], s.now),
        executes(s, o),
        answered(s, o, Reply::Integer(n)),
    ensures
        n == delta,
        holds(o.store, s.words[1], s.now, decimal(delta as int)),
{
    law_sum(s, delta, 0, o);
}

} // verus!
