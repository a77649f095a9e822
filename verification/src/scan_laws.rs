//! What holds of a walk as a whole.
use vstd::prelude::*;

use crate::entry::Record;
use crate::glob::glob;
use crate::model::StoreView;
use crate::order::Listing;
use crate::scan::{
    ahead, cursor_at, lemma_remaining_split, lemma_stretch_split, lemma_walk_order, page_count,
    page_full, page_of, page_takes, remaining, scanned, stands_at, stretch, tail, wanted, wanted_keys,
    MIN_COUNT, SHARD_STRIDE,
};
use crate::sums::{lemma_listing_finite, lists};

verus! {

/// What one call of a walk asks: how many keys, and at which time.
pub ghost struct Ask {
    pub count_hint: usize,
    pub now: u64,
}

/// What one call of a walk answers.
pub ghost struct Answer {
    pub next: u64,
    pub keys: Seq<Seq<u8>>,
}

/// A client walks from a cursor until it is told that the walk is over.
pub open spec fn walk(
    listings: Seq<Listing>,
    cursor: u64,
    pattern: Option<Seq<u8>>,
    asks: Seq<Ask>,
    replies: Seq<Answer>,
) -> bool
    decreases replies.len(),
{
    &&& replies.len() > 0
    &&& asks.len() == replies.len()
    &&& scanned(
        listings,
        cursor,
        page_count(asks[0].count_hint),
        pattern,
        asks[0].now,
        replies[0].next,
        replies[0].keys,
    )
    &&& if replies.len() == 1 {
        replies[0].next == 0
    } else {
        &&& replies[0].next != 0
        &&& walk(
            listings,
            replies[0].next,
            pattern,
            asks.drop_first(),
            replies.drop_first(),
        )
    }
}

/// The keys of all answers, one after the other.
pub open spec fn all_keys(replies: Seq<Answer>) -> Seq<Seq<u8>>
    decreases replies.len(),
{
    if replies.len() == 0 {
        Seq::empty()
    } else {
        replies[0].keys + all_keys(replies.drop_first())
    }
}

/// The key matches the pattern, if there is one.
pub open spec fn matched(key: Seq<u8>, pattern: Option<Seq<u8>>) -> bool {
    pattern matches Some(pattern) ==> glob(key, pattern)
}

/// Every position in the shards can be written as a cursor.
pub open spec fn addressable(listings: Seq<Listing>) -> bool {
    &&& listings.len() * SHARD_STRIDE <= 0x1_0000_0000_0000_0000
    &&& forall|i: int| 0 <= i < listings.len() ==> (#[trigger] listings[i]).len() <= SHARD_STRIDE
}

spec fn distinct(entries: Listing) -> bool {
    forall|i: int, j: int|
        0 <= i < j < entries.len() ==> (#[trigger] entries[i]).0 != (#[trigger] entries[j]).0
}

spec fn wanted_at(entries: Listing, j: int, pattern: Option<Seq<u8>>, now: u64) -> bool {
    0 <= j < entries.len() && wanted(entries[j].0, entries[j].1, pattern, now)
}

/// The reported keys are those of the wanted entries, each once.
proof fn lemma_wanted_members(entries: Listing, pattern: Option<Seq<u8>>, now: u64)
    requires
        distinct(entries),
    ensures
        wanted_keys(entries, pattern, now).no_duplicates(),
        forall|j: int| #[trigger]
            wanted_at(entries, j, pattern, now) ==> wanted_keys(entries, pattern, now).contains(
                entries[j].0,
            ),
        forall|key: Seq<u8>| #[trigger]
            wanted_keys(entries, pattern, now).contains(key) ==> exists|j: int|
                #[trigger] wanted_at(entries, j, pattern, now) && entries[j].0 == key,
    decreases entries.len(),
{
    if entries.len() > 0 {
        let rest = entries.drop_last();
        let last = entries.len() - 1;
        let before = wanted_keys(rest, pattern, now);
        let keys = wanted_keys(entries, pattern, now);
        lemma_wanted_members(rest, pattern, now);
        if wanted(entries[last].0, entries[last].1, pattern, now) {
            assert(keys == before.push(entries[last].0));
            assert(!before.contains(entries[last].0)) by {
                if before.contains(entries[last].0) {
                    let j = choose|j: int| #[trigger]
                        wanted_at(rest, j, pattern, now) && rest[j].0 == entries[last].0;
                    assert(entries[j].0 != entries[last].0);
                }
            }
            assert(keys[before.len() as int] == entries[last].0);
        }
        assert forall|j: int| #[trigger] wanted_at(entries, j, pattern, now) implies keys.contains(
            entries[j].0,
        ) by {
            if j < last {
                assert(wanted_at(rest, j, pattern, now));
                let i = choose|i: int| 0 <= i < before.len() && before[i] == rest[j].0;
                assert(keys[i] == entries[j].0);
            }
        }
        assert forall|key: Seq<u8>| #[trigger] keys.contains(key) implies exists|j: int| #[trigger]
            wanted_at(entries, j, pattern, now) && entries[j].0 == key by {
            let i = choose|i: int| 0 <= i < keys.len() && keys[i] == key;
            if i < before.len() {
                assert(before[i] == key);
                assert(before.contains(key));
                let j = choose|j: int| #[trigger]
                    wanted_at(rest, j, pattern, now) && rest[j].0 == key;
                assert(wanted_at(entries, j, pattern, now));
            } else {
                assert(wanted_at(entries, last, pattern, now));
            }
        }
    }
}

/// A cursor names the position that it was made for.
pub(crate) proof fn lemma_cursor(listings: Seq<Listing>, shard: int, position: int)
    requires
        addressable(listings),
        0 <= shard < listings.len(),
        0 <= position < listings[shard].len(),
    ensures
        ahead(listings, cursor_at(shard, position)) == remaining(listings, shard, position),
        cursor_at(shard, position) == shard * SHARD_STRIDE + position,
{
    let c = shard * SHARD_STRIDE + position;
    assert(position < SHARD_STRIDE);
    assert((shard + 1) * SHARD_STRIDE <= listings.len() * SHARD_STRIDE) by (nonlinear_arith)
        requires
            shard + 1 <= listings.len(),
    ;
    assert((shard + 1) * SHARD_STRIDE == shard * SHARD_STRIDE + SHARD_STRIDE) by (nonlinear_arith);
    assert(0 <= c < 0x1_0000_0000_0000_0000);
    assert(c % 0x1_0000_0000_0000_0000 == c);
    vstd::arithmetic::div_mod::lemma_fundamental_div_mod_converse(
        c,
        SHARD_STRIDE as int,
        shard,
        position,
    );
}

/// The entries of all shards list what the store holds.
proof fn lemma_stretch_lists(v: StoreView, listings: Seq<Listing>, end: int)
    requires
        v.listed_by(listings),
        v.num_shards > 0,
        0 <= end <= listings.len(),
    ensures
        lists(stretch(listings, 0, 0, end), v.records_before(end)),
    decreases end,
{
    assert forall|key: Seq<u8>| 0 <= #[trigger] v.place(key) < v.num_shards by {}
    if end > 0 {
        lemma_stretch_lists(v, listings, end - 1);
        let before = stretch(listings, 0, 0, end - 1);
        let here = listings[end - 1];
        let all = stretch(listings, 0, 0, end);
        let m = v.records_before(end);
        assert(tail(here, 0) =~= here);
        assert(all == before + here);
        assert(lists(here, v.shard_records(end - 1)));
        assert forall|i: int| 0 <= i < all.len() implies m.contains_key(#[trigger] all[i].0)
            && m[all[i].0] == all[i].1 by {
            if i < before.len() {
                assert(all[i] == before[i]);
                assert(v.records_before(end - 1).contains_key(before[i].0));
            } else {
                assert(all[i] == here[i - before.len()]);
                assert(v.shard_records(end - 1).contains_key(here[i - before.len()].0));
            }
        }
        assert forall|i: int, j: int| 0 <= i < j < all.len() implies (#[trigger] all[i]).0 != (
        #[trigger] all[j]).0 by {
            if i < before.len() {
                assert(all[i] == before[i]);
                assert(v.records_before(end - 1).contains_key(before[i].0));
                if j < before.len() {
                    assert(all[j] == before[j]);
                } else {
                    assert(all[j] == here[j - before.len()]);
                    assert(v.shard_records(end - 1).contains_key(here[j - before.len()].0));
                }
            } else {
                assert(all[i] == here[i - before.len()]);
                assert(all[j] == here[j - before.len()]);
            }
        }
        assert forall|key: Seq<u8>| #[trigger] m.contains_key(key) implies exists|i: int|
            0 <= i < all.len() && (#[trigger] all[i]).0 == key by {
            if v.place(key) < end - 1 {
                assert(v.records_before(end - 1).contains_key(key));
                let i = choose|i: int| 0 <= i < before.len() && (#[trigger] before[i]).0 == key;
                assert(all[i].0 == key);
            } else {
                assert(v.shard_records(end - 1).contains_key(key));
                let i = choose|i: int| 0 <= i < here.len() && (#[trigger] here[i]).0 == key;
                assert(all[before.len() + i].0 == key);
            }
        }
    }
}

proof fn lemma_all_lists(v: StoreView, listings: Seq<Listing>)
    requires
        v.listed_by(listings),
        v.num_shards > 0,
    ensures
        lists(ahead(listings, 0), v.contents),
{
    lemma_stretch_lists(v, listings, listings.len() as int);
    assert forall|key: Seq<u8>| #[trigger] v.place(key) < v.num_shards by {}
    assert(v.records_before(listings.len() as int) =~= v.contents);
}

proof fn lemma_walk(
    listings: Seq<Listing>,
    cursor: u64,
    pattern: Option<Seq<u8>>,
    asks: Seq<Ask>,
    replies: Seq<Answer>,
)
    requires
        addressable(listings),
        distinct(ahead(listings, cursor)),
        walk(listings, cursor, pattern, asks, replies),
    ensures
        all_keys(replies).no_duplicates(),
        forall|j: int|
            0 <= j < ahead(listings, cursor).len() && (forall|i: int|
                0 <= i < asks.len() ==> wanted_at(
                    ahead(listings, cursor),
                    j,
                    pattern,
                    (#[trigger] asks[i]).now,
                )) ==> all_keys(replies).contains(#[trigger] ahead(listings, cursor)[j].0),
        forall|key: Seq<u8>| #[trigger]
            all_keys(replies).contains(key) ==> exists|j: int, i: int|
                0 <= i < asks.len() && (#[trigger] ahead(listings, cursor)[j]).0 == key
                    && wanted_at(
                    ahead(listings, cursor),
                    j,
                    pattern,
                    (#[trigger] asks[i]).now,
                ),
    decreases replies.len(),
{
    let entries = ahead(listings, cursor);
    let count = page_count(asks[0].count_hint);
    let now = asks[0].now;
    let n = choose|n: int| #[trigger]
        page_of(listings, cursor, count, pattern, now, n, replies[0].next, replies[0].keys);
    let taken = entries.take(n);
    let keys = replies[0].keys;
    let rest = all_keys(replies.drop_first());
    let all = all_keys(replies);
    assert(all == keys + rest);
    lemma_wanted_members(taken, pattern, now);
    if replies.len() == 1 {
        assert(rest =~= Seq::empty());
        if n < entries.len() {
            let (shard, position) = choose|shard: int, position: int| #[trigger]
                stands_at(listings, cursor, n, shard, position) && replies[0].next == cursor_at(
                    shard,
                    position,
                );
            lemma_cursor(listings, shard, position);
            lemma_page_moves(listings, cursor, count, pattern, now, n);
            assert(shard * SHARD_STRIDE >= 0) by (nonlinear_arith)
                requires
                    shard >= 0,
            ;
            assert(shard == 0 && position == 0) by (nonlinear_arith)
                requires
                    shard >= 0,
                    position >= 0,
                    shard * SHARD_STRIDE + position == 0,
            ;
            lemma_start_is_longest(listings, cursor);
            assert(false);
        }
        assert(taken =~= entries);
        assert(all =~= keys);
        assert forall|j: int|
            0 <= j < entries.len() && (forall|i: int|
                0 <= i < asks.len() ==> wanted_at(
                    entries,
                    j,
                    pattern,
                    (#[trigger] asks[i]).now,
                )) implies all.contains(#[trigger] entries[j].0) by {
            assert(wanted_at(entries, j, pattern, asks[0].now));
            assert(wanted_at(taken, j, pattern, now));
        }
        assert forall|key: Seq<u8>| #[trigger] all.contains(key) implies exists|j: int, i: int|
            0 <= i < asks.len() && (#[trigger] entries[j]).0 == key && wanted_at(
                entries,
                j,
                pattern,
                (#[trigger] asks[i]).now,
            ) by {
            let j = choose|j: int| #[trigger]
                wanted_at(taken, j, pattern, now) && taken[j].0 == key;
            assert(entries[j].0 == key && wanted_at(entries, j, pattern, asks[0].now));
        }
    } else {
        assert(n < entries.len());
        let (shard, position) = choose|shard: int, position: int| #[trigger]
            stands_at(listings, cursor, n, shard, position) && replies[0].next == cursor_at(
                shard,
                position,
            );
        lemma_cursor(listings, shard, position);
        let later = ahead(listings, replies[0].next);
        assert(later == entries.skip(n));
        let (asks1, replies1) = (asks.drop_first(), replies.drop_first());
        lemma_walk(listings, replies[0].next, pattern, asks1, replies1);
        assert forall|key: Seq<u8>| !(keys.contains(key) && rest.contains(key)) by {
            if keys.contains(key) && rest.contains(key) {
                let a = choose|j: int| #[trigger]
                    wanted_at(taken, j, pattern, now) && taken[j].0 == key;
                let (b, i) = choose|j: int, i: int|
                    0 <= i < asks1.len() && (#[trigger] later[j]).0 == key && wanted_at(
                        later,
                        j,
                        pattern,
                        (#[trigger] asks1[i]).now,
                    );
                assert(entries[a].0 == key);
                assert(entries[n + b].0 == key);
            }
        }
        assert(all.no_duplicates()) by {
            assert forall|x: int, y: int| 0 <= x < all.len() && 0 <= y < all.len() && x
                != y implies all[x] != all[y] by {
                if all[x] == all[y] {
                    let key = all[x];
                    if x < keys.len() {
                        assert(keys[x] == key);
                    } else {
                        assert(rest[x - keys.len()] == key);
                    }
                    if y < keys.len() {
                        assert(keys[y] == key);
                    } else {
                        assert(rest[y - keys.len()] == key);
                    }
                    assert(!(keys.contains(key) && rest.contains(key)));
                }
            }
        }
        assert forall|j: int|
            0 <= j < entries.len() && (forall|i: int|
                0 <= i < asks.len() ==> wanted_at(
                    entries,
                    j,
                    pattern,
                    (#[trigger] asks[i]).now,
                )) implies all.contains(#[trigger] entries[j].0) by {
            let key = entries[j].0;
            if j < n {
                assert(wanted_at(entries, j, pattern, asks[0].now));
                assert(wanted_at(taken, j, pattern, now));
                let x = choose|x: int| 0 <= x < keys.len() && keys[x] == taken[j].0;
                assert(all[x] == key);
            } else {
                assert(later[j - n] == entries[j]);
                assert forall|i: int| 0 <= i < asks1.len() implies wanted_at(
                    later,
                    j - n,
                    pattern,
                    (#[trigger] asks1[i]).now,
                ) by {
                    assert(asks1[i] == asks[i + 1]);
                    assert(wanted_at(entries, j, pattern, asks[i + 1].now));
                }
                assert(rest.contains(later[j - n].0));
                let x = choose|x: int| 0 <= x < rest.len() && rest[x] == key;
                assert(all[keys.len() + x] == key);
            }
        }
        assert forall|key: Seq<u8>| #[trigger] all.contains(key) implies exists|j: int, i: int|
            0 <= i < asks.len() && (#[trigger] entries[j]).0 == key && wanted_at(
                entries,
                j,
                pattern,
                (#[trigger] asks[i]).now,
            ) by {
            let x = choose|x: int| 0 <= x < all.len() && all[x] == key;
            if x < keys.len() {
                assert(keys[x] == key);
                assert(keys.contains(key));
                let j = choose|j: int| #[trigger]
                    wanted_at(taken, j, pattern, now) && taken[j].0 == key;
                assert(entries[j].0 == key && wanted_at(entries, j, pattern, asks[0].now));
            } else {
                assert(rest[x - keys.len()] == key);
                assert(rest.contains(key));
                let (j, i) = choose|j: int, i: int|
                    0 <= i < asks1.len() && (#[trigger] later[j]).0 == key && wanted_at(
                        later,
                        j,
                        pattern,
                        (#[trigger] asks1[i]).now,
                    );
                assert(asks1[i] == asks[i + 1]);
                assert(entries[n + j].0 == key && wanted_at(
                    entries,
                    n + j,
                    pattern,
                    asks[i + 1].now,
                ));
            }
        }
    }
}

/// A cursor stands for a shard and a position in it: before it are the rest of that shard, and then
/// what is before the start of the next; behind the last shard there is nothing.
pub proof fn law_cursor_stands_for_a_place(listings: Seq<Listing>, shard: int, position: int)
    requires
        0 <= shard,
        0 <= position < 1_000_000_000,
        (shard + 1) * 1_000_000_000 <= u64::MAX,
    ensures
        shard < listings.len() && position <= listings[shard].len() ==> ahead(
            listings,
            (shard * 1_000_000_000 + position) as u64,
        ) == listings[shard].skip(position) + ahead(listings, ((shard + 1) * 1_000_000_000) as u64),
        shard >= listings.len() ==> ahead(
            listings,
            (shard * 1_000_000_000 + position) as u64,
        ).len() == 0,
        cursor_at(shard, position) == shard * 1_000_000_000 + position,
{
    let (c, next) = (shard * 1_000_000_000 + position, (shard + 1) * 1_000_000_000);
    vstd::arithmetic::div_mod::lemma_fundamental_div_mod_converse(
        c,
        1_000_000_000,
        shard,
        position,
    );
    vstd::arithmetic::div_mod::lemma_fundamental_div_mod_converse(
        next,
        1_000_000_000,
        shard + 1,
        0,
    );
    let end = listings.len() as int;
    if shard < end {
        lemma_stretch_split(listings, shard, position, shard + 1, end);
        assert(stretch(listings, shard, position, shard) =~= Seq::empty());
        if position <= listings[shard].len() {
            assert(stretch(listings, shard, position, shard + 1) =~= listings[shard].skip(position));
        }
    }
}

/// What a cursor has before it are entries of the store.
pub(crate) proof fn lemma_ahead_is_held(
    v: StoreView,
    listings: Seq<Listing>,
    cursor: u64,
    j: int,
)
    requires
        v.listed_by(listings),
        0 <= j < ahead(listings, cursor).len(),
    ensures
        v.contents.contains_key(ahead(listings, cursor)[j].0),
        v.contents[ahead(listings, cursor)[j].0] == ahead(listings, cursor)[j].1,
{
    let (shard, position) = ((cursor / SHARD_STRIDE) as int, (cursor % SHARD_STRIDE) as int);
    lemma_stretch_is_held(v, listings, shard, position, listings.len() as int, j);
}

proof fn lemma_stretch_is_held(
    v: StoreView,
    listings: Seq<Listing>,
    shard: int,
    position: int,
    end: int,
    j: int,
)
    requires
        v.listed_by(listings),
        position >= 0,
        shard >= 0,
        end <= listings.len(),
        0 <= j < stretch(listings, shard, position, end).len(),
    ensures
        ({
            let entry = stretch(listings, shard, position, end)[j];
            v.contents.contains_key(entry.0) && v.contents[entry.0] == entry.1
        }),
    decreases end,
{
    if end > shard && end > 0 {
        let before = stretch(listings, shard, position, end - 1);
        if j < before.len() {
            lemma_stretch_is_held(v, listings, shard, position, end - 1, j);
        } else {
            let here = listings[end - 1];
            let i = j - before.len() + (if end - 1 == shard {
                position
            } else {
                0
            });
            assert(stretch(listings, shard, position, end)[j] == here[i]);
            assert(lists(here, v.shard_records(end - 1)));
            assert(v.shard_records(end - 1).contains_key(here[i].0));
        }
    }
}

/// A page that is not the last takes at least the fewest keys that a page aims for.
proof fn lemma_page_moves(
    listings: Seq<Listing>,
    cursor: u64,
    count: usize,
    pattern: Option<Seq<u8>>,
    now: u64,
    n: int,
)
    requires
        count >= MIN_COUNT,
        page_takes(ahead(listings, cursor), n, count, pattern, now),
        n < ahead(listings, cursor).len(),
    ensures
        n >= MIN_COUNT,
{
    lemma_wanted_keys_len(ahead(listings, cursor).take(n), pattern, now);
}

/// No more keys are reported than there are entries.
proof fn lemma_wanted_keys_len(entries: Listing, pattern: Option<Seq<u8>>, now: u64)
    ensures
        wanted_keys(entries, pattern, now).len() <= entries.len(),
    decreases entries.len(),
{
    if entries.len() > 0 {
        lemma_wanted_keys_len(entries.drop_last(), pattern, now);
    }
}

/// No cursor has more entries before it than the start of a walk.
proof fn lemma_start_is_longest(listings: Seq<Listing>, cursor: u64)
    ensures
        ahead(listings, cursor).len() <= remaining(listings, 0, 0).len(),
{
    let (shard, position) = ((cursor / SHARD_STRIDE) as int, (cursor % SHARD_STRIDE) as int);
    lemma_stretch_len(listings, shard, position, listings.len() as int);
}

proof fn lemma_stretch_len(listings: Seq<Listing>, shard: int, position: int, end: int)
    requires
        shard >= 0,
        position >= 0,
    ensures
        stretch(listings, shard, position, end).len() <= stretch(listings, 0, 0, end).len(),
    decreases end,
{
    if end > 0 {
        lemma_stretch_len(listings, shard, position, end - 1);
    }
}

/// However often a client calls, with whatever counts and at whatever times: once it is told that
/// the walk is over it was given no key twice, it was given every key that matches and was live
/// throughout, and each key that it was given is there, matches and was live at one of the calls.
/// The store stays as it is in the meantime.
pub proof fn law_walk_is_complete(
    v: StoreView,
    pattern: Option<Seq<u8>>,
    asks: Seq<Ask>,
    replies: Seq<Answer>,
)
    requires
        v.num_shards > 0,
        v.contents.dom().finite(),
        addressable(v.walk_order()),
        walk(v.walk_order(), 0, pattern, asks, replies),
    ensures
        all_keys(replies).no_duplicates(),
        forall|key: Seq<u8>|
            matched(key, pattern) && (forall|i: int|
                0 <= i < asks.len() ==> v.live(key, (#[trigger] asks[i]).now))
                ==> #[trigger] all_keys(replies).contains(key),
        forall|key: Seq<u8>| #[trigger]
            all_keys(replies).contains(key) ==> matched(key, pattern) && exists|i: int|
                0 <= i < asks.len() && v.live(key, (#[trigger] asks[i]).now),
{
    let listings = v.walk_order();
    let entries = ahead(listings, 0);
    lemma_walk_order(v);
    lemma_all_lists(v, listings);
    assert(distinct(entries));
    lemma_walk(listings, 0, pattern, asks, replies);
    let all = all_keys(replies);
    assert forall|key: Seq<u8>|
        matched(key, pattern) && (forall|i: int|
            0 <= i < asks.len() ==> v.live(key, (#[trigger] asks[i]).now)) implies #[trigger] all.contains(
        key,
    ) by {
        assert(v.live(key, asks[0].now));
        assert(v.contents.contains_key(key));
        let j = choose|j: int| 0 <= j < entries.len() && (#[trigger] entries[j]).0 == key;
        assert(v.contents[entries[j].0] == entries[j].1);
        assert forall|i: int| 0 <= i < asks.len() implies wanted_at(
            entries,
            j,
            pattern,
            (#[trigger] asks[i]).now,
        ) by {
            assert(v.live(key, asks[i].now));
        }
        assert(all.contains(entries[j].0));
    }
    assert forall|key: Seq<u8>| #[trigger] all.contains(key) implies matched(key, pattern)
        && exists|i: int| 0 <= i < asks.len() && v.live(key, (#[trigger] asks[i]).now) by {
        let (j, i) = choose|j: int, i: int|
            0 <= i < asks.len() && (#[trigger] entries[j]).0 == key && wanted_at(
                entries,
                j,
                pattern,
                (#[trigger] asks[i]).now,
            );
        assert(v.contents.contains_key(entries[j].0));
        assert(v.live(key, asks[i].now));
    }
}

/// The keys that are live at a time and match a pattern, if there is one.
pub open spec fn live_and_matched(v: StoreView, pattern: Option<Seq<u8>>, now: u64) -> Set<Seq<u8>> {
    v.contents.dom().filter(|key: Seq<u8>| v.live(key, now) && matched(key, pattern))
}

/// A walk at one moment gives exactly the live keys that match the pattern, each once; without a
/// pattern, all live keys.
pub proof fn law_walk_gives_live_keys(
    v: StoreView,
    pattern: Option<Seq<u8>>,
    asks: Seq<Ask>,
    replies: Seq<Answer>,
    now: u64,
)
    requires
        v.num_shards > 0,
        v.contents.dom().finite(),
        addressable(v.walk_order()),
        walk(v.walk_order(), 0, pattern, asks, replies),
        forall|i: int| 0 <= i < asks.len() ==> (#[trigger] asks[i]).now == now,
    ensures
        all_keys(replies).no_duplicates(),
        all_keys(replies).to_set() == live_and_matched(v, pattern, now),
{
    law_walk_is_complete(v, pattern, asks, replies);
    let all = all_keys(replies);
    assert forall|key: Seq<u8>| all.to_set().contains(key) == live_and_matched(
        v,
        pattern,
        now,
    ).contains(key) by {
        if v.live(key, now) && matched(key, pattern) {
            assert forall|i: int| 0 <= i < asks.len() implies v.live(key, (#[trigger] asks[i]).now) by {}
            assert(all.contains(key));
        }
        if all.contains(key) {
            let i = choose|i: int| 0 <= i < asks.len() && v.live(key, (#[trigger] asks[i]).now);
            assert(asks[i].now == now);
        }
    }
    assert(all.to_set() =~= live_and_matched(v, pattern, now));
}

/// A client has walked from a cursor and has not been told yet that the walk is over.
pub open spec fn walking(
    listings: Seq<Listing>,
    cursor: u64,
    pattern: Option<Seq<u8>>,
    asks: Seq<Ask>,
    replies: Seq<Answer>,
) -> bool
    decreases replies.len(),
{
    &&& asks.len() == replies.len()
    &&& replies.len() > 0 ==> {
        &&& scanned(
            listings,
            cursor,
            page_count(asks[0].count_hint),
            pattern,
            asks[0].now,
            replies[0].next,
            replies[0].keys,
        )
        &&& replies[0].next != 0
        &&& walking(
            listings,
            replies[0].next,
            pattern,
            asks.drop_first(),
            replies.drop_first(),
        )
    }
}

proof fn lemma_walking(
    listings: Seq<Listing>,
    cursor: u64,
    pattern: Option<Seq<u8>>,
    asks: Seq<Ask>,
    replies: Seq<Answer>,
)
    requires
        addressable(listings),
        walking(listings, cursor, pattern, asks, replies),
    ensures
        replies.len() * MIN_COUNT <= ahead(listings, cursor).len(),
    decreases replies.len(),
{
    if replies.len() > 0 {
        law_walk_moves_on(
            listings,
            cursor,
            asks[0].count_hint,
            pattern,
            asks[0].now,
            replies[0].next,
            replies[0].keys,
        );
        lemma_walking(
            listings,
            replies[0].next,
            pattern,
            asks.drop_first(),
            replies.drop_first(),
        );
    }
}

/// A walk ends: a client is told so at the latest when it has called once more than there are tens
/// of keys. The store stays as it is in the meantime.
pub proof fn law_walk_ends(
    v: StoreView,
    pattern: Option<Seq<u8>>,
    asks: Seq<Ask>,
    replies: Seq<Answer>,
)
    requires
        v.num_shards > 0,
        v.contents.dom().finite(),
        addressable(v.walk_order()),
        walking(v.walk_order(), 0, pattern, asks, replies),
    ensures
        replies.len() * MIN_COUNT <= v.contents.dom().len(),
{
    lemma_walk_order(v);
    lemma_all_lists(v, v.walk_order());
    lemma_walking(v.walk_order(), 0, pattern, asks, replies);
    let entries = ahead(v.walk_order(), 0);
    let keys = entries.map_values(|pair: (Seq<u8>, Record)| pair.0);
    lemma_listing_finite(entries, v.contents);
    assert forall|i: int, j: int| 0 <= i < keys.len() && 0 <= j < keys.len() && i != j implies keys[i]
        != keys[j] by {
        if i < j {
            assert(entries[i].0 != entries[j].0);
        } else {
            assert(entries[j].0 != entries[i].0);
        }
    }
    keys.unique_seq_to_set();
}

/// A walk moves on: every page but the last leaves at least ten entries fewer before the cursor.
pub proof fn law_walk_moves_on(
    listings: Seq<Listing>,
    cursor: u64,
    count_hint: usize,
    pattern: Option<Seq<u8>>,
    now: u64,
    next: u64,
    keys: Seq<Seq<u8>>,
)
    requires
        addressable(listings),
        scanned(listings, cursor, page_count(count_hint), pattern, now, next, keys),
    ensures
        next != 0 ==> ahead(listings, next).len() + MIN_COUNT <= ahead(listings, cursor).len(),
{
    let count = page_count(count_hint);
    let n = choose|n: int| #[trigger]
        page_of(listings, cursor, count, pattern, now, n, next, keys);
    if next != 0 {
        let (shard, position) = choose|shard: int, position: int| #[trigger]
            stands_at(listings, cursor, n, shard, position) && next == cursor_at(shard, position);
        lemma_cursor(listings, shard, position);
        lemma_page_moves(listings, cursor, count, pattern, now, n);
    }
}

/// Two positions with an entry each have different numbers of entries from them on.
proof fn lemma_positions_differ(
    listings: Seq<Listing>,
    shard: int,
    position: int,
    later: int,
    at: int,
)
    requires
        0 <= shard <= later < listings.len(),
        0 <= position < listings[shard].len(),
        0 <= at < listings[later].len(),
        shard == later ==> position < at,
    ensures
        remaining(listings, shard, position).len() > remaining(listings, later, at).len(),
{
    lemma_remaining_split(listings, shard, position, later, at);
    if shard < later {
        lemma_stretch_not_empty(listings, shard, position, later);
    }
}

proof fn lemma_stretch_not_empty(listings: Seq<Listing>, shard: int, position: int, end: int)
    requires
        0 <= shard < end <= listings.len(),
        0 <= position < listings[shard].len(),
    ensures
        stretch(listings, shard, position, end).len() > 0,
    decreases end,
{
    if end - 1 > shard {
        lemma_stretch_not_empty(listings, shard, position, end - 1);
    }
}

/// On the same order of the shards, the same question has one answer.
pub proof fn law_page_is_determined(
    listings: Seq<Listing>,
    cursor: u64,
    count: usize,
    pattern: Option<Seq<u8>>,
    now: u64,
    a: Answer,
    b: Answer,
)
    requires
        scanned(listings, cursor, count, pattern, now, a.next, a.keys),
        scanned(listings, cursor, count, pattern, now, b.next, b.keys),
    ensures
        a == b,
{
    let entries = ahead(listings, cursor);
    let m = choose|n: int| #[trigger]
        page_of(listings, cursor, count, pattern, now, n, a.next, a.keys);
    let n = choose|n: int| #[trigger]
        page_of(listings, cursor, count, pattern, now, n, b.next, b.keys);
    if m < n {
        assert(!page_full(entries.take(m), count, pattern, now));
    }
    if n < m {
        assert(!page_full(entries.take(n), count, pattern, now));
    }
    assert(m == n);
    if n < entries.len() {
        let (s1, p1) = choose|shard: int, position: int| #[trigger]
            stands_at(listings, cursor, n, shard, position) && a.next == cursor_at(shard, position);
        let (s2, p2) = choose|shard: int, position: int| #[trigger]
            stands_at(listings, cursor, n, shard, position) && b.next == cursor_at(shard, position);
        if s1 < s2 || (s1 == s2 && p1 < p2) {
            lemma_positions_differ(listings, s1, p1, s2, p2);
        } else if s2 < s1 || (s1 == s2 && p2 < p1) {
            lemma_positions_differ(listings, s2, p2, s1, p1);
        }
    }
}

} // verus!
