//! Walking the keys of a store page by page, by a cursor.
use bytes::Bytes;
use vstd::prelude::*;

use crate::entry::{Entry, Record};
use crate::glob::{glob, matches_pattern};
use crate::model::{wrapped, StoreView};
use crate::octets::{octets, octets_all, slice_of};
use crate::order::{
    lemma_sorted_listing, lemma_sorting_lists, sort_by_key, sorted_listing, Listing,
};
use crate::store::{record_listing, ShardedStore};
use crate::sums::lists;

verus! {

/// A cursor is the number of a shard times this, plus a position in the shard.
pub const SHARD_STRIDE: u64 = 1_000_000_000;

/// The fewest keys that a page aims for.
pub const MIN_COUNT: usize = 10;

/// The most keys that a page holds.
pub const MAX_COUNT: usize = 1000;

/// How many keys a page aims for when `hint` are asked for.
pub open spec fn page_count(hint: usize) -> usize {
    if hint < MIN_COUNT {
        MIN_COUNT
    } else if hint > MAX_COUNT {
        MAX_COUNT
    } else {
        hint
    }
}

/// A walk reports the keys that are live and match the pattern, if there is one.
pub open spec fn wanted(key: Seq<u8>, record: Record, pattern: Option<Seq<u8>>, now: u64) -> bool {
    &&& !record.expired(now)
    &&& pattern matches Some(pattern) ==> glob(key, pattern)
}

/// The keys of a listing that a walk reports, in order.
pub open spec fn wanted_keys(entries: Listing, pattern: Option<Seq<u8>>, now: u64) -> Seq<Seq<u8>>
    decreases entries.len(),
{
    if entries.len() == 0 {
        Seq::empty()
    } else {
        let before = wanted_keys(entries.drop_last(), pattern, now);
        if wanted(entries.last().0, entries.last().1, pattern, now) {
            before.push(entries.last().0)
        } else {
            before
        }
    }
}

/// What is left of a listing from a position on.
pub open spec fn tail(entries: Listing, position: int) -> Listing {
    if position <= entries.len() {
        entries.skip(position)
    } else {
        Seq::empty()
    }
}

/// The entries from a position in one shard up to the start of another.
pub open spec fn stretch(listings: Seq<Listing>, shard: int, position: int, end: int) -> Listing
    decreases end,
{
    if end <= shard || end <= 0 {
        Seq::empty()
    } else {
        stretch(listings, shard, position, end - 1) + (if end - 1 == shard {
            tail(listings[end - 1], position)
        } else {
            listings[end - 1]
        })
    }
}

/// The entries from a position in a shard on.
pub open spec fn remaining(listings: Seq<Listing>, shard: int, position: int) -> Listing {
    stretch(listings, shard, position, listings.len() as int)
}

/// The entries that a cursor has before it.
pub open spec fn ahead(listings: Seq<Listing>, cursor: u64) -> Listing {
    remaining(listings, (cursor / SHARD_STRIDE) as int, (cursor % SHARD_STRIDE) as int)
}

/// The cursor for a position in a shard.
pub open spec fn cursor_at(shard: int, position: int) -> u64 {
    wrapped(shard * SHARD_STRIDE + position)
}

/// A page that has looked at these entries ends here: it has as many keys as it aims for, or has
/// looked at three times as many entries.
pub open spec fn page_full(taken: Listing, count: usize, pattern: Option<Seq<u8>>, now: u64) -> bool {
    ||| wanted_keys(taken, pattern, now).len() >= count
    ||| taken.len() >= 3 * count
}

/// A page takes the first `n` of the entries before it: all of them, or as many as fill it.
pub open spec fn page_takes(
    entries: Listing,
    n: int,
    count: usize,
    pattern: Option<Seq<u8>>,
    now: u64,
) -> bool {
    &&& 0 <= n <= entries.len()
    &&& forall|m: int| 0 <= m < n ==> !page_full(#[trigger] entries.take(m), count, pattern, now)
    &&& n < entries.len() ==> page_full(entries.take(n), count, pattern, now)
}

/// The entry at a position in a shard is the one after the first `n` of the entries before a
/// cursor.
pub open spec fn stands_at(
    listings: Seq<Listing>,
    cursor: u64,
    n: int,
    shard: int,
    position: int,
) -> bool {
    &&& 0 <= shard < listings.len()
    &&& 0 <= position < listings[shard].len()
    &&& remaining(listings, shard, position) == ahead(listings, cursor).skip(n)
}

/// The page after a cursor takes `n` entries and reports `keys`, and the walk goes on at `next`;
/// it is over where `next` is zero.
pub open spec fn page_of(
    listings: Seq<Listing>,
    cursor: u64,
    count: usize,
    pattern: Option<Seq<u8>>,
    now: u64,
    n: int,
    next: u64,
    keys: Seq<Seq<u8>>,
) -> bool {
    let entries = ahead(listings, cursor);
    &&& page_takes(entries, n, count, pattern, now)
    &&& keys == wanted_keys(entries.take(n), pattern, now)
    &&& n == entries.len() ==> next == 0
    &&& n < entries.len() ==> exists|shard: int, position: int| #[trigger]
        stands_at(listings, cursor, n, shard, position) && next == cursor_at(shard, position)
}

/// What a scan answers, when the shards are walked in the order of `listings`.
pub open spec fn scanned(
    listings: Seq<Listing>,
    cursor: u64,
    count: usize,
    pattern: Option<Seq<u8>>,
    now: u64,
    next: u64,
    keys: Seq<Seq<u8>>,
) -> bool {
    exists|n: int| #[trigger] page_of(listings, cursor, count, pattern, now, n, next, keys)
}

impl StoreView {
    /// The shards can be walked in this order.
    pub open spec fn listed_by(self, listings: Seq<Listing>) -> bool {
        &&& listings.len() == self.num_shards
        &&& forall|i: int|
            0 <= i < listings.len() ==> lists(#[trigger] listings[i], self.shard_records(i))
    }

    /// The order in which the shards are walked: each by its keys, byte by byte.
    pub open spec fn walk_order(self) -> Seq<Listing> {
        Seq::new(self.num_shards as nat, |i: int| sorted_listing(self.shard_records(i)))
    }
}

/// The order of a walk has every key in its shard.
pub proof fn lemma_walk_order(v: StoreView)
    requires
        v.contents.dom().finite(),
    ensures
        v.listed_by(v.walk_order()),
{
    let listings = v.walk_order();
    assert forall|i: int| 0 <= i < listings.len() implies lists(
        #[trigger] listings[i],
        v.shard_records(i),
    ) by {
        assert(v.shard_records(i).dom().subset_of(v.contents.dom()));
        vstd::set_lib::lemma_set_subset_finite(v.contents.dom(), v.shard_records(i).dom());
        lemma_sorted_listing(v.shard_records(i));
    }
}

/// The bytes of an optional pattern.
pub open spec fn pattern_view(pattern: Option<&[u8]>) -> Option<Seq<u8>> {
    match pattern {
        Some(pattern) => Some(pattern@),
        None => None,
    }
}

/// The keys of two listings, one after the other.
pub proof fn lemma_wanted_keys_add(a: Listing, b: Listing, pattern: Option<Seq<u8>>, now: u64)
    ensures
        wanted_keys(a + b, pattern, now) == wanted_keys(a, pattern, now) + wanted_keys(
            b,
            pattern,
            now,
        ),
    decreases b.len(),
{
    if b.len() == 0 {
        assert(a + b =~= a);
        assert(wanted_keys(a, pattern, now) + wanted_keys(b, pattern, now) =~= wanted_keys(
            a,
            pattern,
            now,
        ));
    } else {
        lemma_wanted_keys_add(a, b.drop_last(), pattern, now);
        assert((a + b).drop_last() =~= a + b.drop_last());
        assert(wanted_keys(a + b, pattern, now) =~= wanted_keys(a, pattern, now) + wanted_keys(
            b,
            pattern,
            now,
        ));
    }
}

/// A stretch can be split at the start of a shard.
pub(crate) proof fn lemma_stretch_split(listings: Seq<Listing>, shard: int, position: int, mid: int, end: int)
    requires
        0 <= shard < mid <= end,
    ensures
        stretch(listings, shard, position, end) == stretch(listings, shard, position, mid) + stretch(
            listings,
            mid,
            0,
            end,
        ),
    decreases end,
{
    let whole = stretch(listings, shard, position, mid);
    if end == mid {
        assert(whole + Seq::<(Seq<u8>, Record)>::empty() =~= whole);
    } else {
        lemma_stretch_split(listings, shard, position, mid, end - 1);
        assert(tail(listings[end - 1], 0) =~= listings[end - 1]);
        assert(stretch(listings, shard, position, end) =~= whole + stretch(listings, mid, 0, end));
    }
}

/// Stopping in the middle of a shard leaves what comes after.
pub(crate) proof fn lemma_remaining_split(
    listings: Seq<Listing>,
    shard: int,
    position: int,
    stop: int,
    at: int,
)
    requires
        0 <= shard <= stop < listings.len(),
        0 <= at <= listings[stop].len(),
        stop == shard ==> 0 <= position <= at,
    ensures
        remaining(listings, shard, position) == stretch(listings, shard, position, stop)
            + listings[stop].subrange(
            if stop == shard {
                position
            } else {
                0
            },
            at,
        ) + remaining(listings, stop, at),
{
    let end = listings.len() as int;
    let from = if stop == shard {
        position
    } else {
        0
    };
    let here = listings[stop];
    let rest = stretch(listings, stop + 1, 0, end);
    lemma_stretch_split(listings, stop, at, stop + 1, end);
    assert(stretch(listings, stop, at, stop) =~= Seq::empty());
    assert(stretch(listings, stop, at, stop + 1) =~= here.skip(at));
    if stop == shard {
        lemma_stretch_split(listings, shard, position, stop + 1, end);
        assert(stretch(listings, shard, position, shard) =~= Seq::empty());
        assert(stretch(listings, shard, position, stop + 1) =~= here.skip(position));
    } else {
        lemma_stretch_split(listings, shard, position, stop, end);
        lemma_stretch_split(listings, stop, 0, stop + 1, end);
        assert(stretch(listings, stop, 0, stop) =~= Seq::empty());
        assert(stretch(listings, stop, 0, stop + 1) =~= here);
    }
    assert(here.skip(from) =~= here.subrange(from, at) + here.skip(at));
    assert(remaining(listings, shard, position) =~= stretch(listings, shard, position, stop)
        + here.subrange(from, at) + remaining(listings, stop, at));
}

/// Looks through the entries of one shard from a position on, for a page that has `found` some
/// keys and `checked` some entries before. Returns where the page is full, if it is, and how many
/// entries it has checked by then.
pub fn scan_list(
    list: &Vec<(Bytes, Entry)>,
    position: usize,
    count: usize,
    pattern: Option<&[u8]>,
    now: u64,
    found: &mut Vec<Bytes>,
    checked: usize,
) -> (outcome: (Option<usize>, usize))
    requires
        count <= MAX_COUNT,
    ensures
        ({
            let entries = tail(record_listing(list@), position as int);
            let n = outcome.1 - checked;
            let p = pattern_view(pattern);
            &&& 0 <= n <= entries.len()
            &&& octets_all(final(found)@) == octets_all(old(found)@) + wanted_keys(
                entries.take(n),
                p,
                now,
            )
            &&& forall|m: int|
                0 <= m < n ==> old(found)@.len() + wanted_keys(
                    #[trigger] entries.take(m),
                    p,
                    now,
                ).len() < count && checked + m < 3 * count
            &&& outcome.0 is None ==> n == entries.len()
            &&& outcome.0 matches Some(stop) ==> stop == position + n && n < entries.len() && (
            final(found)@.len() >= count || outcome.1 >= 3 * count)
        }),
{
    let ghost entries = tail(record_listing(list@), position as int);
    let ghost p = pattern_view(pattern);
    let ghost start = octets_all(found@);
    let mut pos: usize = position;
    let mut seen: usize = checked;
    proof {
        assert(entries.take(0) =~= Seq::empty());
        assert(start + Seq::<Seq<u8>>::empty() =~= start);
    }
    while pos < list.len()
        invariant
            count <= MAX_COUNT,
            position <= pos,
            p == pattern_view(pattern),
            start == octets_all(old(found)@),
            entries == tail(record_listing(list@), position as int),
            position <= list@.len() ==> pos <= list@.len(),
            position > list@.len() ==> pos == position,
            seen - checked == pos - position,
            octets_all(found@) == start + wanted_keys(entries.take(pos - position), p, now),
            forall|m: int|
                0 <= m < pos - position ==> start.len() + wanted_keys(
                    #[trigger] entries.take(m),
                    p,
                    now,
                ).len() < count && checked + m < 3 * count,
        decreases list.len() - pos,
    {
        let ghost n = pos - position;
        if found.len() >= count || seen >= count * 3 {
            return (Some(pos), seen);
        }
        proof {
            assert(octets_all(found@).len() == found@.len());
            assert(entries.take(n + 1).drop_last() =~= entries.take(n));
            assert(entries[n] == record_listing(list@)[pos as int]);
        }
        seen += 1;
        let (key, entry) = &list[pos];
        let matched = match pattern {
            Some(pattern) => matches_pattern(slice_of(key), pattern),
            None => true,
        };
        if !entry.is_expired(now) && matched {
            let ghost before = octets_all(found@);
            found.push(key.clone());
            proof {
                assert(octets_all(found@) =~= before.push(octets(*key)));
                assert(octets_all(found@) =~= start + wanted_keys(entries.take(n + 1), p, now));
            }
        }
        pos += 1;
    }
    (None, seen)
}

/// The cursor for a position in a shard.
pub fn encode_cursor(shard: usize, position: usize) -> (cursor: u64)
    ensures
        cursor == cursor_at(shard as int, position as int),
{
    proof {
        crate::model::lemma_wrapped_twice(shard * SHARD_STRIDE, position as int);
    }
    (shard as u64).wrapping_mul(SHARD_STRIDE).wrapping_add(position as u64)
}

impl ShardedStore {
    /// The keys and records of a shard, in the order in which they are walked.
    fn walk_shard(&self, i: usize) -> (list: Vec<(Bytes, Entry)>)
        requires
            self.wf(),
            i < self@.num_shards,
        ensures
            record_listing(list@) == sorted_listing(self@.shard_records(i as int)),
    {
        let unsorted = self.list_shard(i);
        let ghost before = unsorted@;
        let list = sort_by_key(unsorted);
        proof {
            let m = self@.shard_records(i as int);
            self.lemma_shard_finite(i as int);
            lemma_sorting_lists(before, list@, m);
        }
        list
    }

    /// One page of a walk over the live keys that match the pattern, if there is one: the keys,
    /// and the cursor at which the walk goes on, zero where it is over. The walk starts at the
    /// cursor zero. A shard is walked in the order of its keys, so that a cursor stands for the same
    /// place from one call to the next.
    pub fn scan(&self, cursor: u64, count_hint: usize, pattern: Option<&[u8]>, now: u64) -> (page: (
        u64,
        Vec<Bytes>,
    ))
        requires
            self.wf(),
        ensures
            scanned(
                self@.walk_order(),
                cursor,
                page_count(count_hint),
                pattern_view(pattern),
                now,
                page.0,
                octets_all(page.1@),
            ),
    {
        let num_shards: usize = self.shard_count();
        let count: usize = if count_hint < MIN_COUNT {
            MIN_COUNT
        } else if count_hint > MAX_COUNT {
            MAX_COUNT
        } else {
            count_hint
        };
        let mut found: Vec<Bytes> = Vec::new();
        let ghost p = pattern_view(pattern);
        let ghost first = (cursor / SHARD_STRIDE) as int;
        let ghost offset = (cursor % SHARD_STRIDE) as int;
        let ghost listings = self@.walk_order();
        if cursor / SHARD_STRIDE >= num_shards as u64 {
            proof {
                assert(ahead(listings, cursor) =~= Seq::empty());
                assert(ahead(listings, cursor).take(0) =~= Seq::empty());
                assert(octets_all(found@) =~= Seq::empty());
                assert(page_of(listings, cursor, count, p, now, 0, 0, octets_all(found@)));
            }
            return (0, found);
        }
        let mut shard: usize = (cursor / SHARD_STRIDE) as usize;
        let mut position: usize = (cursor % SHARD_STRIDE) as usize;
        let mut checked: usize = 0;
        let ghost mut done: Listing = Seq::empty();
        proof {
            assert(octets_all(found@) =~= Seq::empty());
        }
        while shard < num_shards
            invariant
                self.wf(),
                num_shards == self@.num_shards,
                count == page_count(count_hint),
                p == pattern_view(pattern),
                first == (cursor / SHARD_STRIDE) as int,
                offset == (cursor % SHARD_STRIDE) as int,
                first <= shard <= num_shards,
                position == if shard == first {
                    offset
                } else {
                    0
                },
                listings == self@.walk_order(),
                done == stretch(listings, first, offset, shard as int),
                checked == done.len(),
                octets_all(found@) == wanted_keys(done, p, now),
                forall|m: int|
                    0 <= m < done.len() ==> !page_full(#[trigger] done.take(m), count, p, now),
            decreases num_shards - shard,
        {
            let list = self.walk_shard(shard);
            let ghost here = record_listing(list@);
            assert(here == listings[shard as int]);
            let ghost entries = tail(here, position as int);
            let ghost found0 = octets_all(found@);
            let outcome = scan_list(&list, position, count, pattern, now, &mut found, checked);
            let ghost n = outcome.1 - checked;
            let ghost taken = entries.take(n);
            proof {
                lemma_wanted_keys_add(done, taken, p, now);
                assert forall|m: int| 0 <= m < done.len() + n implies !page_full(
                    #[trigger] (done + taken).take(m),
                    count,
                    p,
                    now,
                ) by {
                    if m < done.len() {
                        assert((done + taken).take(m) =~= done.take(m));
                    } else {
                        let k = m - done.len();
                        assert((done + taken).take(m) =~= done + entries.take(k));
                        lemma_wanted_keys_add(done, entries.take(k), p, now);
                    }
                }
            }
            checked = outcome.1;
            if let Some(stop) = outcome.0 {
                let next = encode_cursor(shard, stop);
                proof {
                    let whole = ahead(listings, cursor);
                    let size = done.len() + n;
                    lemma_remaining_split(listings, first, offset, shard as int, stop as int);
                    assert(here.subrange(position as int, stop as int) =~= taken);
                    assert(whole == done + taken + remaining(listings, shard as int, stop as int));
                    assert(whole.take(size) =~= done + taken);
                    assert(whole.skip(size) =~= remaining(listings, shard as int, stop as int));
                    assert forall|m: int| 0 <= m < size implies !page_full(
                        #[trigger] whole.take(m),
                        count,
                        p,
                        now,
                    ) by {
                        assert(whole.take(m) =~= (done + taken).take(m));
                    }
                    lemma_remaining_split(
                        listings,
                        shard as int,
                        stop as int,
                        shard as int,
                        stop + 1,
                    );
                    assert(size < whole.len());
                    assert(stands_at(listings, cursor, size, shard as int, stop as int));
                    assert(page_of(listings, cursor, count, p, now, size, next, octets_all(found@)));
                }
                return (next, found);
            }
            proof {
                assert(taken =~= entries);
                assert(tail(here, 0) =~= here);
                done = done + taken;
                assert(done == stretch(listings, first, offset, shard + 1));
            }
            shard += 1;
            position = 0;
        }
        proof {
            let whole = ahead(listings, cursor);
            assert(whole == done);
            assert(whole.take(whole.len() as int) =~= whole);
            assert(page_of(
                listings,
                cursor,
                count,
                p,
                now,
                whole.len() as int,
                0,
                octets_all(found@),
            ));
        }
        (0, found)
    }
}

} // verus!
