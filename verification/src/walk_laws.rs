//! What SCAN is for: a walk over the keys that are there and match a pattern, page by page.
use vstd::prelude::*;

use crate::client::{answered, asks, lemma_asks, lemma_spells, refused, sound, spells, there};
use crate::command::{same_word, scan_options, Command, ScanOptionsView};
use crate::dispatch::{executes, Outcome, Situation};
use crate::glob::glob;
use crate::model::StoreView;
use crate::number::{decimal, law_unsigned_round_trip, unsigned_of};
use crate::order::Listing;
use crate::resp::{bulk_list, Reply};
use crate::room_laws::held_at_most;
use crate::scan::{
    ahead, cursor_at, lemma_walk_order, page_count, page_full, page_of, scanned, stands_at, wanted,
    wanted_keys,
};
use crate::scan_laws::{
    addressable, all_keys, law_walk_gives_live_keys, lemma_ahead_is_held, lemma_cursor,
    live_and_matched, matched, walk, Answer, Ask,
};
use crate::size::clamped;

verus! {

/// The `i`th pair of words after `SCAN cursor` is an option of the name.
pub open spec fn option_at(words: Seq<Seq<u8>>, i: int, name: Seq<char>) -> bool {
    1 <= i < words.len() / 2 && spells(words[2 * i], name)
}

/// Every pair of words after `SCAN cursor` is a pattern, or a count with a number.
pub open spec fn says_options(words: Seq<Seq<u8>>) -> bool {
    &&& words.len() >= 2
    &&& words.len() % 2 == 0
    &&& forall|i: int|
        1 <= i < words.len() / 2 ==> #[trigger] option_at(words, i, "match"@) || option_at(
            words,
            i,
            "count"@,
        ) && unsigned_of(words[2 * i + 1]) is Some
}

/// The pattern that the words after `SCAN cursor` ask for is that of the last one among them; none
/// where there is none.
pub open spec fn wants(words: Seq<Seq<u8>>, pattern: Option<Seq<u8>>) -> bool {
    match pattern {
        None => forall|i: int| !#[trigger] option_at(words, i, "match"@),
        Some(pattern) => exists|i: int|
            {
                &&& #[trigger] option_at(words, i, "match"@)
                &&& words[2 * i + 1] == pattern
                &&& forall|j: int| j > i ==> !#[trigger] option_at(words, j, "match"@)
            },
    }
}

/// The number of keys that the words after `SCAN cursor` ask for is that of the last count among
/// them, as far as it can be held; ten where there is none.
pub open spec fn wants_count(words: Seq<Seq<u8>>, n: usize) -> bool {
    ||| n == 10 && forall|i: int| !#[trigger] option_at(words, i, "count"@)
    ||| exists|i: int|
        {
            &&& #[trigger] option_at(words, i, "count"@)
            &&& unsigned_of(words[2 * i + 1]) matches Some(count) && n == held_at_most(count as nat)
            &&& forall|j: int| j > i ==> !#[trigger] option_at(words, j, "count"@)
        }
}

/// How many keys a page is to hold where so many are asked for: ten at least, and a thousand at
/// most.
pub open spec fn aim(n: usize) -> int {
    if n < 10 {
        10
    } else if n > 1000 {
        1000
    } else {
        n as int
    }
}

/// The keys of a page, where an answer is one.
pub open spec fn page_keys(reply: Reply) -> Seq<Reply> {
    match reply {
        Reply::List(parts) => match parts[1] {
            Reply::List(keys) => keys,
            _ => Seq::empty(),
        },
        _ => Seq::empty(),
    }
}

/// The cursor that goes with a page, as it is written in the answer.
pub open spec fn page_cursor(reply: Reply) -> Seq<u8> {
    match reply {
        Reply::List(parts) => match parts[0] {
            Reply::Bulk(text) => text,
            _ => Seq::empty(),
        },
        _ => Seq::empty(),
    }
}

/// An answer with a cursor and some keys.
pub open spec fn is_page(reply: Reply) -> bool {
    &&& reply matches Reply::List(parts) && parts.len() == 2 && parts[0] is Bulk && parts[1] is List
    &&& forall|i: int| 0 <= i < page_keys(reply).len() ==> #[trigger] page_keys(reply)[i] is Bulk
}

proof fn lemma_scan_words(word: Seq<u8>)
    ensures
        spells(word, "match"@) == same_word(word, "match"@),
        spells(word, "count"@) == same_word(word, "count"@),
        !(spells(word, "match"@) && spells(word, "count"@)),
{
    reveal_strlit("match");
    reveal_strlit("count");
    lemma_spells(word, "match"@);
    lemma_spells(word, "count"@);
    if word.len() == 5 {
        let a = word[0] as int;
        assert(spells(word, "match"@) ==> a == 'm' as int || a + 32 == 'm' as int);
        assert(spells(word, "count"@) ==> a == 'c' as int || a + 32 == 'c' as int);
    }
}

/// What the options from the `i`th pair on make of those before.
proof fn lemma_scan_options(words: Seq<Seq<u8>>, i: int, options: ScanOptionsView)
    requires
        says_options(words),
        1 <= i <= words.len() / 2,
    ensures
        scan_options(words.skip(2 * i), options) is Ok,
        (forall|j: int| j >= i ==> !#[trigger] option_at(words, j, "match"@)) ==> scan_options(
            words.skip(2 * i),
            options,
        )->Ok_0.pattern == options.pattern,
        forall|j: int|
            #![trigger option_at(words, j, "match"@)]
            j >= i && option_at(words, j, "match"@) && (forall|l: int|
                l > j ==> !#[trigger] option_at(words, l, "match"@)) ==> scan_options(
                words.skip(2 * i),
                options,
            )->Ok_0.pattern == Some(words[2 * j + 1]),
        (forall|j: int| j >= i ==> !#[trigger] option_at(words, j, "count"@)) ==> scan_options(
            words.skip(2 * i),
            options,
        )->Ok_0.count == options.count,
        forall|j: int|
            #![trigger option_at(words, j, "count"@)]
            j >= i && option_at(words, j, "count"@) && (forall|l: int|
                l > j ==> !#[trigger] option_at(words, l, "count"@)) ==> scan_options(
                words.skip(2 * i),
                options,
            )->Ok_0.count == held_at_most(unsigned_of(words[2 * j + 1]).unwrap() as nat),
    decreases words.len() / 2 - i,
{
    let rest = words.skip(2 * i);
    if i < words.len() / 2 {
        assert(rest[0] == words[2 * i] && rest[1] == words[2 * i + 1]);
        assert(rest.skip(2) =~= words.skip(2 * (i + 1)));
        lemma_scan_words(words[2 * i]);
        assert(option_at(words, i, "match"@) || option_at(words, i, "count"@) && unsigned_of(
            words[2 * i + 1],
        ) is Some);
        let next = if spells(words[2 * i], "match"@) {
            ScanOptionsView { pattern: Some(words[2 * i + 1]), ..options }
        } else {
            ScanOptionsView {
                count: clamped(unsigned_of(words[2 * i + 1]).unwrap() as nat) as usize,
                ..options
            }
        };
        lemma_scan_options(words, i + 1, next);
        assert(scan_options(rest, options) == scan_options(words.skip(2 * (i + 1)), next));
        if forall|j: int| j >= i ==> !#[trigger] option_at(words, j, "match"@) {
            assert(!option_at(words, i, "match"@));
        }
        if forall|j: int| j >= i ==> !#[trigger] option_at(words, j, "count"@) {
            assert(!option_at(words, i, "count"@));
        }
    }
}

/// A SCAN with options that can be read is answered with a page of the walk that its cursor and its
/// pattern are for.
proof fn lemma_scan_page(s: Situation, o: Outcome, cursor: u64, pattern: Option<Seq<u8>>) -> (page: (
    usize,
    u64,
    Seq<Seq<u8>>,
))
    requires
        asks(s, "scan"@),
        s.words.len() >= 2,
        unsigned_of(s.words[1]) == Some(cursor),
        says_options(s.words),
        wants(s.words, pattern),
        executes(s, o),
    ensures
        o.store == s.store,
        answered(
            s,
            o,
            Reply::List(seq![Reply::Bulk(decimal(page.1 as int)), bulk_list(page.2)]),
        ),
        scanned(
            s.store.walk_order(),
            cursor,
            page_count(page.0),
            pattern,
            s.now,
            page.1,
            page.2,
        ),
        forall|n: usize| #[trigger] wants_count(s.words, n) ==> page.0 == n,
{
    lemma_asks(s, Command::Scan, "scan"@);
    let none = ScanOptionsView::none();
    lemma_scan_options(s.words, 1, none);
    let options = scan_options(s.words.skip(2), none)->Ok_0;
    match pattern {
        None => {
            assert forall|j: int| j >= 1 implies !#[trigger] option_at(s.words, j, "match"@) by {}
        },
        Some(p) => {
            let i = choose|i: int|
                {
                    &&& #[trigger] option_at(s.words, i, "match"@)
                    &&& s.words[2 * i + 1] == p
                    &&& forall|j: int| j > i ==> !#[trigger] option_at(s.words, j, "match"@)
                };
            assert(option_at(s.words, i, "match"@));
        },
    }
    assert(options.pattern == pattern);
    assert forall|n: usize| #[trigger] wants_count(s.words, n) implies options.count == n by {
        if n == 10 && forall|i: int| !#[trigger] option_at(s.words, i, "count"@) {
            assert forall|j: int| j >= 1 implies !#[trigger] option_at(s.words, j, "count"@) by {}
        } else {
            let i = choose|i: int|
                {
                    &&& #[trigger] option_at(s.words, i, "count"@)
                    &&& unsigned_of(s.words[2 * i + 1]) matches Some(count) && n == held_at_most(
                        count as nat,
                    )
                    &&& forall|j: int| j > i ==> !#[trigger] option_at(s.words, j, "count"@)
                };
            assert(option_at(s.words, i, "count"@));
        }
    }
    let (next, keys) = choose|next: u64, keys: Seq<Seq<u8>>|
        {
            &&& #[trigger] scanned(
                s.store.walk_order(),
                cursor,
                page_count(options.count),
                options.pattern,
                s.now,
                next,
                keys,
            )
            &&& o.reply.unwrap() == Reply::List(
                seq![Reply::Bulk(decimal(next as int)), bulk_list(keys)],
            )
        };
    (options.count, next, keys)
}

/// SCAN changes nothing, and whatever its options are: the keys that it gives are there, and match
/// the pattern that it was given, if any.
pub proof fn law_scan_page(s: Situation, o: Outcome, cursor: u64, pattern: Option<Seq<u8>>)
    requires
        asks(s, "scan"@),
        sound(s.store),
        s.store.num_shards > 0,
        s.words.len() >= 2,
        unsigned_of(s.words[1]) == Some(cursor),
        says_options(s.words),
        wants(s.words, pattern),
        executes(s, o),
    ensures
        o.store == s.store,
        o.reply matches Some(reply) && {
            &&& answered(s, o, reply)
            &&& is_page(reply)
            &&& forall|i: int|
                0 <= i < page_keys(reply).len() ==> {
                    let key = (#[trigger] page_keys(reply)[i])->Bulk_0;
                    &&& there(s.store, key, s.now)
                    &&& pattern matches Some(p) ==> glob(key, p)
                }
        },
{
    let (hint, next, keys) = lemma_scan_page(s, o, cursor, pattern);
    let reply = o.reply.unwrap();
    let items = keys.map_values(|item: Seq<u8>| Reply::Bulk(item));
    assert(page_keys(reply) == items);
    let listings = s.store.walk_order();
    let entries = ahead(listings, cursor);
    let n = choose|n: int| #[trigger]
        page_of(listings, cursor, page_count(hint), pattern, s.now, n, next, keys);
    assert forall|i: int| 0 <= i < items.len() implies {
        let key = (#[trigger] items[i])->Bulk_0;
        &&& there(s.store, key, s.now)
        &&& pattern matches Some(p) ==> glob(key, p)
    } by {
        lemma_page_key(s.store, cursor, n, pattern, s.now, i);
    }
}

proof fn lemma_page_key(
    v: StoreView,
    cursor: u64,
    n: int,
    pattern: Option<Seq<u8>>,
    now: u64,
    i: int,
)
    requires
        sound(v),
        v.num_shards > 0,
        0 <= n <= ahead(v.walk_order(), cursor).len(),
        0 <= i < wanted_keys(ahead(v.walk_order(), cursor).take(n), pattern, now).len(),
    ensures
        ({
            let key = wanted_keys(ahead(v.walk_order(), cursor).take(n), pattern, now)[i];
            &&& there(v, key, now)
            &&& pattern matches Some(p) ==> glob(key, p)
        }),
{
    let listings = v.walk_order();
    let taken = ahead(listings, cursor).take(n);
    let j = lemma_wanted_entry(taken, pattern, now, i);
    lemma_walk_order(v);
    lemma_ahead_is_held(v, listings, cursor, j);
}

/// A reported key is that of an entry which has not expired and matches.
proof fn lemma_wanted_entry(entries: Listing, pattern: Option<Seq<u8>>, now: u64, i: int) -> (j: int)
    requires
        0 <= i < wanted_keys(entries, pattern, now).len(),
    ensures
        0 <= j < entries.len(),
        entries[j].0 == wanted_keys(entries, pattern, now)[i],
        !entries[j].1.expired(now),
        pattern matches Some(p) ==> glob(entries[j].0, p),
    decreases entries.len(),
{
    let before = wanted_keys(entries.drop_last(), pattern, now);
    if i < before.len() {
        lemma_wanted_entry(entries.drop_last(), pattern, now, i)
    } else {
        entries.len() - 1
    }
}

/// A page holds no more keys than it is to hold; it holds as many where every key of the store is
/// wanted, unless it is the last.
pub proof fn law_scan_page_size(
    s: Situation,
    o: Outcome,
    cursor: u64,
    pattern: Option<Seq<u8>>,
    n: usize,
)
    requires
        asks(s, "scan"@),
        sound(s.store),
        s.store.num_shards > 0,
        unsigned_of(s.words[1]) == Some(cursor),
        says_options(s.words),
        wants(s.words, pattern),
        wants_count(s.words, n),
        executes(s, o),
    ensures
        o.reply matches Some(reply) && {
            &&& is_page(reply)
            &&& page_keys(reply).len() <= aim(n)
            &&& (forall|key: Seq<u8>| #[trigger]
                s.store.contents.contains_key(key) ==> there(s.store, key, s.now) && (
                pattern matches Some(p) ==> glob(key, p))) && unsigned_of(page_cursor(reply)) != Some(
                0u64,
            ) ==> page_keys(reply).len() == aim(n)
        },
{
    let (hint, next, keys) = lemma_scan_page(s, o, cursor, pattern);
    law_unsigned_round_trip(next);
    let reply = o.reply.unwrap();
    assert(page_keys(reply) == keys.map_values(|item: Seq<u8>| Reply::Bulk(item)));
    assert(page_cursor(reply) == decimal(next as int));
    let listings = s.store.walk_order();
    let entries = ahead(listings, cursor);
    let count = page_count(hint);
    let taken = choose|taken: int| #[trigger]
        page_of(listings, cursor, count, pattern, s.now, taken, next, keys);
    if taken > 0 {
        assert(!page_full(entries.take(taken - 1), count, pattern, s.now));
        assert(entries.take(taken).drop_last() =~= entries.take(taken - 1));
    }
    if (forall|key: Seq<u8>| #[trigger]
        s.store.contents.contains_key(key) ==> there(s.store, key, s.now) && (
        pattern matches Some(p) ==> glob(key, p))) && next != 0 {
        lemma_walk_order(s.store);
        assert forall|j: int| 0 <= j < taken implies wanted(
            (#[trigger] entries.take(taken)[j]).0,
            entries.take(taken)[j].1,
            pattern,
            s.now,
        ) by {
            lemma_ahead_is_held(s.store, listings, cursor, j);
            assert(s.store.contents.contains_key(entries[j].0));
        }
        lemma_all_wanted(entries.take(taken), pattern, s.now);
    }
}

proof fn lemma_all_wanted(entries: Listing, pattern: Option<Seq<u8>>, now: u64)
    requires
        forall|j: int|
            0 <= j < entries.len() ==> wanted(
                (#[trigger] entries[j]).0,
                entries[j].1,
                pattern,
                now,
            ),
    ensures
        wanted_keys(entries, pattern, now).len() == entries.len(),
    decreases entries.len(),
{
    if entries.len() > 0 {
        let rest = entries.drop_last();
        assert forall|j: int| 0 <= j < rest.len() implies wanted(
            (#[trigger] rest[j]).0,
            rest[j].1,
            pattern,
            now,
        ) by {
            assert(rest[j] == entries[j]);
        }
        assert(entries[entries.len() - 1] == entries.last());
        lemma_all_wanted(rest, pattern, now);
    }
}

/// A page that holds fewer keys than it is to hold, and is not the last, has looked at three times
/// as many.
pub proof fn law_scan_looks_so_far(
    s: Situation,
    o: Outcome,
    cursor: u64,
    pattern: Option<Seq<u8>>,
    n: usize,
    next: u64,
)
    requires
        asks(s, "scan"@),
        addressable(s.store.walk_order()),
        unsigned_of(s.words[1]) == Some(cursor),
        says_options(s.words),
        wants(s.words, pattern),
        wants_count(s.words, n),
        executes(s, o),
        unsigned_of(page_cursor(o.reply.unwrap())) == Some(next),
        next != 0,
        page_keys(o.reply.unwrap()).len() < aim(n),
    ensures
        ahead(s.store.walk_order(), cursor).skip(3 * aim(n)) == ahead(s.store.walk_order(), next),
{
    let (hint, after, keys) = lemma_scan_page(s, o, cursor, pattern);
    law_unsigned_round_trip(after);
    let reply = o.reply.unwrap();
    assert(page_keys(reply) == keys.map_values(|item: Seq<u8>| Reply::Bulk(item)));
    assert(page_cursor(reply) == decimal(after as int));
    let listings = s.store.walk_order();
    let entries = ahead(listings, cursor);
    let count = page_count(hint);
    let taken = choose|taken: int| #[trigger]
        page_of(listings, cursor, count, pattern, s.now, taken, next, keys);
    if taken > 0 {
        assert(!page_full(entries.take(taken - 1), count, pattern, s.now));
    }
    assert(taken == 3 * aim(n));
    let (shard, position) = choose|shard: int, position: int| #[trigger]
        stands_at(listings, cursor, taken, shard, position) && next == cursor_at(shard, position);
    lemma_cursor(listings, shard, position);
}

/// A client walks over a store that stays as it is: each call is a SCAN with the same pattern, the
/// first at the cursor zero and every other at the cursor that came with the last page; the walk is
/// over when the cursor is zero again.
pub open spec fn walks(
    v: StoreView,
    now: u64,
    pattern: Option<Seq<u8>>,
    calls: Seq<(Situation, Outcome)>,
) -> bool {
    &&& calls.len() > 0
    &&& forall|i: int|
        0 <= i < calls.len() ==> {
            let (s, o) = #[trigger] calls[i];
            &&& asks(s, "scan"@)
            &&& s.store == v
            &&& s.now == now
            &&& says_options(s.words)
            &&& wants(s.words, pattern)
            &&& executes(s, o)
        }
    &&& unsigned_of(calls[0].0.words[1]) == Some(0u64)
    &&& forall|i: int, j: int|
        0 <= i && j == i + 1 && j < calls.len() ==> {
            &&& (#[trigger] calls[j]).0.words[1] == page_cursor(
                (#[trigger] calls[i]).1.reply.unwrap(),
            )
            &&& unsigned_of(page_cursor(calls[i].1.reply.unwrap())) != Some(0u64)
        }
    &&& unsigned_of(page_cursor(calls.last().1.reply.unwrap())) == Some(0u64)
}

/// The keys of all pages of a walk, one after the other.
pub open spec fn keys_given(calls: Seq<(Situation, Outcome)>) -> Seq<Reply>
    decreases calls.len(),
{
    if calls.len() == 0 {
        Seq::empty()
    } else {
        page_keys(calls[0].1.reply.unwrap()) + keys_given(calls.drop_first())
    }
}

spec fn tail_walks(
    v: StoreView,
    now: u64,
    pattern: Option<Seq<u8>>,
    calls: Seq<(Situation, Outcome)>,
    cursor: u64,
) -> bool {
    &&& calls.len() > 0
    &&& forall|i: int|
        0 <= i < calls.len() ==> {
            let (s, o) = #[trigger] calls[i];
            &&& asks(s, "scan"@)
            &&& s.store == v
            &&& s.now == now
            &&& says_options(s.words)
            &&& wants(s.words, pattern)
            &&& executes(s, o)
        }
    &&& unsigned_of(calls[0].0.words[1]) == Some(cursor)
    &&& forall|i: int, j: int|
        0 <= i && j == i + 1 && j < calls.len() ==> {
            &&& (#[trigger] calls[j]).0.words[1] == page_cursor(
                (#[trigger] calls[i]).1.reply.unwrap(),
            )
            &&& unsigned_of(page_cursor(calls[i].1.reply.unwrap())) != Some(0u64)
        }
    &&& unsigned_of(page_cursor(calls.last().1.reply.unwrap())) == Some(0u64)
}

proof fn lemma_walks(
    v: StoreView,
    now: u64,
    pattern: Option<Seq<u8>>,
    calls: Seq<(Situation, Outcome)>,
    cursor: u64,
) -> (told: (Seq<Ask>, Seq<Answer>))
    requires
        tail_walks(v, now, pattern, calls, cursor),
    ensures
        walk(v.walk_order(), cursor, pattern, told.0, told.1),
        forall|i: int| 0 <= i < told.0.len() ==> (#[trigger] told.0[i]).now == now,
        keys_given(calls) == all_keys(told.1).map_values(|key: Seq<u8>| Reply::Bulk(key)),
    decreases calls.len(),
{
    let (s, o) = calls[0];
    let (hint, next, keys) = lemma_scan_page(s, o, cursor, pattern);
    law_unsigned_round_trip(next);
    let ask = Ask { count_hint: hint, now };
    let answer = Answer { next, keys };
    let reply = o.reply.unwrap();
    let items = keys.map_values(|item: Seq<u8>| Reply::Bulk(item));
    assert(page_cursor(reply) == decimal(next as int));
    assert(page_keys(reply) == items);
    if calls.len() == 1 {
        let (asked, told) = (seq![ask], seq![answer]);
        assert(calls.last() == calls[0]);
        assert(next == 0);
        assert(keys_given(calls.drop_first()) =~= Seq::empty());
        assert(all_keys(told.drop_first()) =~= Seq::empty());
        assert(all_keys(told) =~= keys);
        assert(keys_given(calls) =~= all_keys(told).map_values(|key: Seq<u8>| Reply::Bulk(key)));
        (asked, told)
    } else {
        let rest = calls.drop_first();
        assert(calls[1].0.words[1] == page_cursor(calls[0].1.reply.unwrap()));
        assert(rest[0] == calls[1]);
        assert forall|i: int| 0 <= i < rest.len() implies {
            let (s, o) = #[trigger] rest[i];
            &&& asks(s, "scan"@)
            &&& s.store == v
            &&& s.now == now
            &&& says_options(s.words)
            &&& wants(s.words, pattern)
            &&& executes(s, o)
        } by {
            assert(rest[i] == calls[i + 1]);
        }
        assert forall|i: int, j: int| 0 <= i && j == i + 1 && j < rest.len() implies {
            &&& (#[trigger] rest[j]).0.words[1] == page_cursor(
                (#[trigger] rest[i]).1.reply.unwrap(),
            )
            &&& unsigned_of(page_cursor(rest[i].1.reply.unwrap())) != Some(0u64)
        } by {
            assert(rest[i] == calls[i + 1] && rest[j] == calls[j + 1]);
        }
        assert(rest.last() == calls.last());
        let (asks_after, told_after) = lemma_walks(v, now, pattern, rest, next);
        let (asked, told) = (seq![ask] + asks_after, seq![answer] + told_after);
        assert(asked.drop_first() =~= asks_after);
        assert(told.drop_first() =~= told_after);
        assert(all_keys(told) == keys + all_keys(told_after));
        assert(keys_given(calls) =~= all_keys(told).map_values(|key: Seq<u8>| Reply::Bulk(key)));
        assert forall|i: int| 0 <= i < asked.len() implies (#[trigger] asked[i]).now == now by {
            if i > 0 {
                assert(asked[i] == asks_after[i - 1]);
            }
        }
        (asked, told)
    }
}

/// A walk gives just the keys that are there and match the pattern, if there is one, each once,
/// whatever counts the calls ask for.
pub proof fn law_scan_walk(
    v: StoreView,
    now: u64,
    pattern: Option<Seq<u8>>,
    calls: Seq<(Situation, Outcome)>,
)
    requires
        sound(v),
        v.num_shards > 0,
        addressable(v.walk_order()),
        walks(v, now, pattern, calls),
    ensures
        keys_given(calls).no_duplicates(),
        forall|key: Seq<u8>| #[trigger]
            keys_given(calls).contains(Reply::Bulk(key)) <==> there(v, key, now) && (
            pattern matches Some(p) ==> glob(key, p)),
{
    let (asked, told) = lemma_walks(v, now, pattern, calls, 0);
    law_walk_gives_live_keys(v, pattern, asked, told, now);
    let all = all_keys(told);
    let given = keys_given(calls);
    assert forall|key: Seq<u8>| #[trigger] given.contains(Reply::Bulk(key)) <==> there(v, key, now)
        && (pattern matches Some(p) ==> glob(key, p)) by {
        if given.contains(Reply::Bulk(key)) {
            let i = choose|i: int| 0 <= i < given.len() && given[i] == Reply::Bulk(key);
            assert(all[i] == key);
            assert(all.to_set().contains(key));
            assert(live_and_matched(v, pattern, now).contains(key));
        }
        if there(v, key, now) && (pattern matches Some(p) ==> glob(key, p)) {
            assert(matched(key, pattern));
            assert(live_and_matched(v, pattern, now).contains(key));
            assert(all.to_set().contains(key));
            let i = choose|i: int| 0 <= i < all.len() && all[i] == key;
            assert(given[i] == Reply::Bulk(key));
        }
    }
    assert forall|i: int, j: int| 0 <= i < given.len() && 0 <= j < given.len() && i != j implies given[i]
        != given[j] by {
        assert(all[i] != all[j]);
    }
}

/// A SCAN whose cursor or options cannot be read is refused: for a count that is no number, or else
/// as no options.
pub proof fn law_scan_refuses_other_words(s: Situation, i: int, o: Outcome)
    requires
        asks(s, "scan"@),
        executes(s, o),
    ensures
        s.words.len() < 2 ==> refused(s, o, "wrong number of arguments for 'scan' command"@),
        s.words.len() >= 2 && unsigned_of(s.words[1]) is None ==> refused(s, o, "invalid cursor"@),
        s.words.len() >= 2 && unsigned_of(s.words[1]) is Some && 1 <= i && 2 * i < s.words.len()
            && says_options(s.words.take(2 * i)) ==> {
            let word = s.words[2 * i];
            &&& 2 * i + 1 == s.words.len() ==> refused(s, o, "syntax error"@)
            &&& !spells(word, "match"@) && !spells(word, "count"@) ==> refused(
                s,
                o,
                "syntax error"@,
            )
            &&& spells(word, "count"@) && 2 * i + 1 < s.words.len() && unsigned_of(
                s.words[2 * i + 1],
            ) is None ==> refused(s, o, "value is not an integer or out of range"@)
        },
{
    lemma_asks(s, Command::Scan, "scan"@);
    if s.words.len() >= 2 && unsigned_of(s.words[1]) is Some && 1 <= i && 2 * i < s.words.len()
        && says_options(s.words.take(2 * i)) {
        lemma_options_up_to(s.words, i, 1, ScanOptionsView::none());
    }
}

/// The options before the `i`th pair are read; what that pair is decides.
proof fn lemma_options_up_to(words: Seq<Seq<u8>>, i: int, from: int, options: ScanOptionsView)
    requires
        1 <= from <= i,
        2 * i < words.len(),
        says_options(words.take(2 * i)),
    ensures
        ({
            let (word, read) = (words[2 * i], scan_options(words.skip(2 * from), options));
            &&& 2 * i + 1 == words.len() || !spells(word, "match"@) && !spells(word, "count"@)
                ==> read == Err::<ScanOptionsView, Seq<char>>("syntax error"@)
            &&& spells(word, "count"@) && 2 * i + 1 < words.len() && unsigned_of(words[2 * i + 1])
                is None ==> read == Err::<ScanOptionsView, Seq<char>>(
                "value is not an integer or out of range"@,
            )
        }),
    decreases i - from,
{
    let rest = words.skip(2 * from);
    assert(rest[0] == words[2 * from]);
    lemma_scan_words(words[2 * from]);
    if 2 * from + 1 < words.len() {
        assert(rest[1] == words[2 * from + 1]);
    }
    if from < i {
        let before = words.take(2 * i);
        assert(before[2 * from] == words[2 * from] && before[2 * from + 1] == words[2 * from + 1]);
        assert(option_at(before, from, "match"@) || option_at(before, from, "count"@) && unsigned_of(
            before[2 * from + 1],
        ) is Some);
        assert(rest.skip(2) =~= words.skip(2 * (from + 1)));
        let next = if spells(words[2 * from], "match"@) {
            ScanOptionsView { pattern: Some(words[2 * from + 1]), ..options }
        } else {
            ScanOptionsView {
                count: clamped(unsigned_of(words[2 * from + 1]).unwrap() as nat) as usize,
                ..options
            }
        };
        lemma_options_up_to(words, i, from + 1, next);
    }
}

} // verus!
