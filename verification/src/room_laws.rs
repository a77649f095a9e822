//! What making room comes to: how much an entry counts for, and which keys give way.
use vstd::prelude::*;

use crate::client::{same_at, same_but_at, same_setup, sound, there};
use crate::entry::{Record, ValueView};
use crate::eviction::{
    drawn_for_eviction, drawn_in_turn, drawn_key, evicts_oldest, lemma_sweeps, makes_room, oldest,
    oldest_key, sweeps, swept, swept_count, victims, Samples,
};
use crate::limits::EvictionPolicy;
use crate::model::StoreView;
use crate::size::{field_weight, record_size, value_size};
use crate::sums::map_sum;
use crate::text_commands::{room_for, text_size};

verus! {

/// The bytes of the names and values of some fields.
pub open spec fn field_bytes(fields: Map<Seq<u8>, Seq<u8>>) -> nat
    decreases fields.dom().len(),
{
    if fields.dom().finite() && fields.dom().len() > 0 {
        let field = fields.dom().choose();
        field.len() + fields[field].len() + field_bytes(fields.remove(field))
    } else {
        0
    }
}

/// The largest size that can be told, where a size is larger.
pub open spec fn held_at_most(n: nat) -> nat {
    if n <= usize::MAX {
        n
    } else {
        usize::MAX as nat
    }
}

/// What an entry counts for: the bytes of its key and of what it holds, 64 for every entry, and 128
/// more for a hash.
pub open spec fn weight(key: Seq<u8>, value: ValueView) -> nat {
    match value {
        ValueView::Text(text) => held_at_most(key.len() + text.len() + 64),
        ValueView::Hash(fields) => held_at_most(key.len() + 64 + 128 + field_bytes(fields)),
    }
}

/// What the entries under some keys count for together.
pub open spec fn weights(v: StoreView, keys: Seq<Seq<u8>>) -> nat
    decreases keys.len(),
{
    if keys.len() == 0 {
        0
    } else {
        weights(v, keys.drop_last()) + weight(keys.last(), v.contents[keys.last()].value)
    }
}

/// None of the keys that are left once some are gone is kept in the shard.
pub open spec fn all_elsewhere(v: StoreView, gone: Seq<Seq<u8>>, shard: int) -> bool {
    forall|key: Seq<u8>|
        v.contents.contains_key(key) && !gone.contains(key) ==> #[trigger] v.place(key) != shard
}

/// There is a shard in which none of the keys is kept that are left once some are gone.
pub open spec fn shard_is_empty(v: StoreView, gone: Seq<Seq<u8>>) -> bool {
    exists|shard: int| 0 <= shard < v.num_shards && #[trigger] all_elsewhere(v, gone, shard)
}

/// Samples of the keys that are left once some are gone, each with its access time: as many as are
/// asked for, unless a draw came upon an empty shard.
pub open spec fn sampled(v: StoreView, gone: Seq<Seq<u8>>, samples: Samples) -> bool {
    &&& forall|i: int|
        0 <= i < samples.len() ==> {
            &&& v.contents.contains_key((#[trigger] samples[i]).0)
            &&& !gone.contains(samples[i].0)
            &&& samples[i].1 == v.access_times[samples[i].0]
        }
    &&& samples.len() <= v.limits.eviction_sample_size
    &&& samples.len() == v.limits.eviction_sample_size || shard_is_empty(v, gone)
}

/// The key is among the samples, and none of them was accessed earlier.
pub open spec fn least_recent(v: StoreView, samples: Samples, key: Seq<u8>) -> bool {
    &&& exists|at: int| 0 <= at < samples.len() && (#[trigger] samples[at]).0 == key
    &&& forall|i: int|
        0 <= i < samples.len() ==> v.access_times[key] <= (#[trigger] samples[i]).1
}

/// Keys give way, one after the other: each is there, none goes twice, and all others stay as they
/// were. It goes on until enough is freed, and no longer, but for no more than a hundred keys, and
/// not where none can be drawn. Where the least recently used are to go, each was that among samples
/// drawn when its turn came.
pub open spec fn give_way(
    before: StoreView,
    needed: nat,
    keys: Seq<Seq<u8>>,
    draws: Seq<Samples>,
    after: StoreView,
) -> bool {
    let lru = before.limits.eviction_policy == EvictionPolicy::AllKeysLru;
    &&& keys.no_duplicates()
    &&& forall|i: int| 0 <= i < keys.len() ==> before.contents.contains_key(#[trigger] keys[i])
    &&& forall|key: Seq<u8>| #[trigger]
        after.contents.contains_key(key) <==> before.contents.contains_key(key) && !keys.contains(
            key,
        )
    &&& forall|key: Seq<u8>| #[trigger]
        after.contents.contains_key(key) ==> after.contents[key] == before.contents[key]
            && after.access_times[key] == before.access_times[key]
    &&& after.limits == before.limits
    &&& after.num_shards == before.num_shards
    &&& after.seed == before.seed
    &&& after.start_time == before.start_time
    &&& after.evicted_keys == (before.evicted_keys + keys.len()) % 0x1_0000_0000_0000_0000
    &&& after.memory_used == (before.memory_used - weights(before, keys)) % 0x1_0000_0000_0000_0000
    &&& keys.len() <= 100
    &&& keys.len() > 0 ==> weights(before, keys.drop_last()) < needed
    &&& {
        ||| weights(before, keys) >= needed
        ||| keys.len() == 100
        ||| shard_is_empty(before, keys)
        ||| lru && before.limits.eviction_sample_size == 0
    }
    &&& lru ==> draws.len() == keys.len() && forall|i: int|
        0 <= i < keys.len() ==> sampled(before, keys.take(i), #[trigger] draws[i]) && least_recent(
            before,
            draws[i],
            keys[i],
        )
}

/// Room is asked for: it is granted at once where there is some, or no limit; it is refused where
/// keys may not give way; else keys give way, and it is granted where there is room then.
pub open spec fn room_is_made(
    before: StoreView,
    needed: nat,
    after: StoreView,
    granted: bool,
) -> bool {
    let max = before.limits.max_memory;
    if max == 0 || before.memory_used + needed <= max {
        granted && after == before
    } else if before.limits.eviction_policy == EvictionPolicy::NoEviction {
        !granted && after == before
    } else {
        &&& granted <==> after.memory_used + needed <= max
        &&& exists|keys: Seq<Seq<u8>>, draws: Seq<Samples>| #[trigger]
            give_way(before, needed, keys, draws, after)
    }
}

/// Room is asked for where the entries are to count for more than they do.
pub open spec fn room_to_grow(
    before: StoreView,
    gain: int,
    after: StoreView,
    granted: bool,
) -> bool {
    if gain <= 0 {
        granted && after == before
    } else {
        room_is_made(before, held_at_most(gain as nat), after, granted)
    }
}

/// Room is asked for where an entry is to count for more than it does.
pub open spec fn room_to_swap(
    before: StoreView,
    old_weight: nat,
    new_weight: nat,
    after: StoreView,
    granted: bool,
) -> bool {
    room_to_grow(before, new_weight - old_weight, after, granted)
}

proof fn lemma_field_bytes(fields: Map<Seq<u8>, Seq<u8>>)
    ensures
        map_sum(fields, field_weight()) == field_bytes(fields),
    decreases fields.dom().len(),
{
    if fields.dom().finite() && fields.dom().len() > 0 {
        let field = fields.dom().choose();
        assert(fields.dom().contains(field));
        lemma_field_bytes(fields.remove(field));
    }
}

/// A sweep that draws a key in a store where all have expired, and no draw can come upon an empty
/// shard, removes at least one.
pub proof fn law_sweeping_removes_expired_keys(
    before: StoreView,
    count: usize,
    now: u64,
    after: StoreView,
    removed: usize,
)
    requires
        sweeps(before, count, now, after, removed),
        count > 0,
        forall|key: Seq<u8>| !#[trigger] there(before, key, now),
        !shard_is_empty(before, Seq::empty()),
    ensures
        removed > 0,
{
    let draws = choose|draws: Seq<Option<Seq<u8>>>|
        {
            &&& #[trigger] drawn_in_turn(before, draws, now)
            &&& draws.len() == count
            &&& after == swept(before, draws, now)
            &&& removed == swept_count(before, draws, now)
        };
    assert(before.occupied()) by {
        assert forall|shard: int| 0 <= shard < before.num_shards implies #[trigger] before.shard_in_use(
            shard,
        ) by {
            assert(!all_elsewhere(before, Seq::empty(), shard));
        }
    }
    let first = draws.take(1);
    assert(draws.take(0) =~= Seq::empty());
    assert(drawn_key(swept(before, draws.take(0), now), draws[0]));
    assert(first.drop_last() =~= Seq::empty() && first.last() == draws[0]);
    let key = draws[0].unwrap();
    assert(!there(before, key, now));
    let none = Seq::<Option<Seq<u8>>>::empty();
    assert(swept(before, none, now) == before && swept_count(before, none, now) == 0);
    assert(first.drop_last() == none);
    assert(before.stale(key, now));
    assert(swept_count(before, first, now) == 1);
    lemma_sweeping_counts_up(before, draws, now);
}

proof fn lemma_sweeping_counts_up(v: StoreView, draws: Seq<Option<Seq<u8>>>, now: u64)
    requires
        draws.len() > 0,
    ensures
        swept_count(v, draws.take(1), now) <= swept_count(v, draws, now),
    decreases draws.len(),
{
    if draws.len() == 1 {
        assert(draws.take(1) =~= draws);
    } else {
        lemma_sweeping_counts_up(v, draws.drop_last(), now);
        assert(draws.drop_last().take(1) =~= draws.take(1));
    }
}

/// The keys that were drawn were all held; those of them that had expired are gone, and no other key
/// is.
pub open spec fn drawn_keys_go(
    before: StoreView,
    draws: Seq<Option<Seq<u8>>>,
    now: u64,
    after: StoreView,
) -> bool {
    &&& forall|i: int|
        0 <= i < draws.len() ==> (#[trigger] draws[i] matches Some(key)
            ==> before.contents.contains_key(key) && (after.contents.contains_key(key) ==> there(
            before,
            key,
            now,
        )))
    &&& forall|key: Seq<u8>|
        #![trigger after.contents.contains_key(key)]
        before.contents.contains_key(key) && !after.contents.contains_key(key) ==> draws.contains(
            Some(key),
        ) && !there(before, key, now)
}

/// A sweep draws as many keys as it is asked to, unless it comes upon an empty shard, and has those
/// go that have expired.
pub proof fn law_swept_keys_were_drawn(
    before: StoreView,
    count: usize,
    now: u64,
    after: StoreView,
    removed: usize,
)
    requires
        sweeps(before, count, now, after, removed),
    ensures
        exists|draws: Seq<Option<Seq<u8>>>|
            draws.len() == count && #[trigger] drawn_keys_go(before, draws, now, after),
{
    let draws = choose|draws: Seq<Option<Seq<u8>>>|
        {
            &&& #[trigger] drawn_in_turn(before, draws, now)
            &&& draws.len() == count
            &&& after == swept(before, draws, now)
            &&& removed == swept_count(before, draws, now)
        };
    lemma_drawn_keys_go(before, draws, now);
}

proof fn lemma_drawn_keys_go(before: StoreView, draws: Seq<Option<Seq<u8>>>, now: u64)
    requires
        drawn_in_turn(before, draws, now),
    ensures
        drawn_keys_go(before, draws, now, swept(before, draws, now)),
        forall|key: Seq<u8>| #[trigger]
            swept(before, draws, now).contents.contains_key(key) ==> before.contents.contains_key(key)
                && swept(before, draws, now).contents[key] == before.contents[key],
    decreases draws.len(),
{
    if draws.len() > 0 {
        let (rest, end) = (draws.drop_last(), draws.len() - 1);
        assert forall|i: int| 0 <= i < rest.len() implies drawn_key(
            swept(before, rest.take(i), now),
            #[trigger] rest[i],
        ) by {
            assert(rest.take(i) =~= draws.take(i));
            assert(drawn_key(swept(before, draws.take(i), now), draws[i]));
        }
        lemma_drawn_keys_go(before, rest, now);
        let (mid, after) = (swept(before, rest, now), swept(before, draws, now));
        assert(draws.take(end) =~= rest);
        assert(drawn_key(mid, draws[end]));
        assert forall|i: int| 0 <= i < draws.len() implies (#[trigger] draws[i] matches Some(key)
            ==> before.contents.contains_key(key) && (after.contents.contains_key(key) ==> there(
            before,
            key,
            now,
        ))) by {
            if i < end {
                assert(rest[i] == draws[i]);
                if let Some(key) = draws[i] {
                    assert(after.contents.contains_key(key) ==> mid.contents.contains_key(key));
                }
            } else if let Some(key) = draws[i] {
                assert(mid.contents.contains_key(key));
            }
        }
        assert forall|key: Seq<u8>|
            #![trigger after.contents.contains_key(key)]
            before.contents.contains_key(key) && !after.contents.contains_key(key) implies draws.contains(
            Some(key),
        ) && !there(before, key, now) by {
            if mid.contents.contains_key(key) {
                assert(draws[end] == Some(key));
            } else {
                let i = choose|i: int| 0 <= i < rest.len() && rest[i] == Some(key);
                assert(draws[i] == Some(key));
            }
        }
    }
}

/// A sweep removes keys that have expired, and changes nothing else but the memory in use; it counts
/// what it removes.
pub proof fn law_sweeping_changes_nothing_else(
    before: StoreView,
    count: usize,
    now: u64,
    after: StoreView,
    removed: usize,
    key: Seq<u8>,
)
    requires
        sound(before),
        sweeps(before, count, now, after, removed),
    ensures
        same_setup(before, after),
        there(before, key, now) ==> after.contents.contains_key(key),
        after.contents.contains_key(key) ==> same_at(before, after, key),
        after.contents.dom().len() + removed == before.contents.dom().len(),
        removed <= count,
        before.limits.max_memory == 0 ==> after.memory_used == before.memory_used,
{
    lemma_sweeps(before, count, now, after, removed);
    let draws = choose|draws: Seq<Option<Seq<u8>>>|
        {
            &&& #[trigger] drawn_in_turn(before, draws, now)
            &&& draws.len() == count
            &&& after == swept(before, draws, now)
            &&& removed == swept_count(before, draws, now)
        };
    lemma_swept_is_sound(before, draws, now);
    assert(before.live(key, now) == there(before, key, now));
    if there(before, key, now) {
        assert(before.has(key));
    }
    if after.contents.contains_key(key) {
        assert(after.has(key));
        assert(before.has(key));
        assert(before.access_times.dom().contains(key) && after.access_times.dom().contains(key));
    }
}

proof fn lemma_swept_is_sound(v: StoreView, draws: Seq<Option<Seq<u8>>>, now: u64)
    requires
        sound(v),
    ensures
        sound(swept(v, draws, now)),
    decreases draws.len(),
{
    if draws.len() > 0 {
        lemma_swept_is_sound(v, draws.drop_last(), now);
        let (mid, after) = (swept(v, draws.drop_last(), now), swept(v, draws, now));
        assert(after.access_times.dom() =~= after.contents.dom());
    }
}

/// An entry counts for its bytes and what every entry, and every hash, counts for beside them.
pub proof fn law_sizes(key: Seq<u8>, record: Record)
    ensures
        record_size(key, record) == weight(key, record.value),
        value_size(key.len(), record.value) == weight(key, record.value),
{
    if let ValueView::Hash(fields) = record.value {
        lemma_field_bytes(fields);
    }
}

/// A byte string counts for its bytes, those of its key, and 64 more.
pub proof fn lemma_text_size(key: Seq<u8>, text: Seq<u8>)
    ensures
        text_size(key, text) == held_at_most(key.len() + text.len() + 64),
{
    law_sizes(key, Record { value: ValueView::Text(text), expiry: None });
}

proof fn lemma_weights(v: StoreView, keys: Seq<Seq<u8>>)
    requires
        forall|i: int| 0 <= i < keys.len() ==> v.contents.contains_key(#[trigger] keys[i]),
    ensures
        v.sizes(keys) == weights(v, keys),
    decreases keys.len(),
{
    if keys.len() > 0 {
        assert forall|i: int| 0 <= i < keys.drop_last().len() implies v.contents.contains_key(
            #[trigger] keys.drop_last()[i],
        ) by {
            assert(keys.drop_last()[i] == keys[i]);
        }
        lemma_weights(v, keys.drop_last());
        assert(v.contents.contains_key(keys[keys.len() - 1]));
        law_sizes(keys.last(), v.contents[keys.last()]);
    }
}

proof fn lemma_empty_shard(before: StoreView, keys: Seq<Seq<u8>>)
    requires
        !before.evicted_all(keys).occupied(),
    ensures
        shard_is_empty(before, keys),
{
    let after = before.evicted_all(keys);
    let shard = choose|shard: int|
        0 <= shard < after.num_shards && !#[trigger] after.shard_in_use(shard);
    assert forall|key: Seq<u8>|
        before.contents.contains_key(key) && !keys.contains(key) implies #[trigger] before.place(key)
        != shard by {
        assert(after.has(key));
        assert(after.place(key) == before.place(key));
    }
    assert(all_elsewhere(before, keys, shard));
}

/// Making room is no more and no less than keys giving way where they have to.
pub proof fn law_keys_give_way(before: StoreView, needed: nat, after: StoreView, granted: bool)
    requires
        sound(before),
        makes_room(before, needed, after, granted),
    ensures
        room_is_made(before, needed, after, granted),
{
    let max = before.limits.max_memory;
    if !(max == 0 || before.memory_used + needed <= max) && before.limits.eviction_policy
        != EvictionPolicy::NoEviction {
        let (keys, draws) = choose|keys: Seq<Seq<u8>>, draws: Seq<Samples>| #[trigger]
            victims(before, needed, keys, draws, after);
        lemma_weights(before, keys);
        if keys.len() > 0 {
            assert forall|i: int| 0 <= i < keys.drop_last().len() implies before.contents.contains_key(
                #[trigger] keys.drop_last()[i],
            ) by {
                assert(keys.drop_last()[i] == keys[i]);
            }
            lemma_weights(before, keys.drop_last());
        }
        assert forall|i: int| 0 <= i < keys.len() implies before.contents.contains_key(
            #[trigger] keys[i],
        ) by {
            assert(before.has(keys[i]));
        }
        assert forall|key: Seq<u8>| #[trigger]
            after.contents.contains_key(key) implies after.contents[key] == before.contents[key]
            && after.access_times[key] == before.access_times[key] by {
            assert(before.access_times.dom().contains(key));
        }
        if !after.occupied() {
            lemma_empty_shard(before, keys);
        }
        if before.limits.eviction_policy == EvictionPolicy::AllKeysLru {
            assert forall|i: int| 0 <= i < keys.len() implies sampled(
                before,
                keys.take(i),
                #[trigger] draws[i],
            ) && least_recent(before, draws[i], keys[i]) by {
                lemma_least_recent(before, keys.take(i), draws[i], keys[i]);
            }
        }
        assert(give_way(before, needed, keys, draws, after));
    }
}

proof fn lemma_least_recent(
    before: StoreView,
    gone: Seq<Seq<u8>>,
    samples: Samples,
    key: Seq<u8>,
)
    requires
        sound(before),
        drawn_for_eviction(before.evicted_all(gone), samples),
        oldest_key(samples, key),
    ensures
        sampled(before, gone, samples),
        least_recent(before, samples, key),
{
    let v = before.evicted_all(gone);
    assert forall|i: int| 0 <= i < samples.len() implies {
        &&& before.contents.contains_key((#[trigger] samples[i]).0)
        &&& !gone.contains(samples[i].0)
        &&& samples[i].1 == before.access_times[samples[i].0]
    } by {
        assert(v.has(samples[i].0));
        assert(before.access_times.dom().contains(samples[i].0));
    }
    if !v.occupied() {
        lemma_empty_shard(before, gone);
    }
    let at = choose|at: int| #[trigger] oldest(samples, at) && samples[at].0 == key;
    assert(samples[at].1 == before.access_times[key]);
}

/// The same, for a write that may need no room at all.
pub proof fn lemma_room_for(before: StoreView, needed: nat, after: StoreView, granted: bool)
    requires
        sound(before),
        room_for(before, needed, after, granted),
    ensures
        needed > 0 ==> room_is_made(before, needed, after, granted),
        needed == 0 ==> granted && after == before,
{
    if needed > 0 {
        law_keys_give_way(before, needed, after, granted);
    }
}

/// Where the least recently used are to go and one key has gone to make room, it was accessed no
/// later than any of the keys that were drawn, itself among them.
pub proof fn law_evicted_key_was_least_recent(
    before: StoreView,
    needed: nat,
    after: StoreView,
    granted: bool,
    key: Seq<u8>,
)
    requires
        sound(before),
        makes_room(before, needed, after, granted),
        before.limits.eviction_policy == EvictionPolicy::AllKeysLru,
        before.contents.contains_key(key),
        !after.contents.contains_key(key),
        forall|other: Seq<u8>|
            other != key && before.contents.contains_key(other)
                ==> #[trigger] after.contents.contains_key(other),
    ensures
        exists|samples: Samples| #[trigger]
            sampled(before, Seq::empty(), samples) && least_recent(before, samples, key),
{
    law_keys_give_way(before, needed, after, granted);
    let (keys, draws) = choose|keys: Seq<Seq<u8>>, draws: Seq<Samples>| #[trigger]
        give_way(before, needed, keys, draws, after);
    assert(!after.contents.contains_key(key));
    assert(keys.contains(key));
    assert(before.contents.contains_key(keys[0]) && keys.contains(keys[0]));
    assert(!after.contents.contains_key(keys[0]));
    assert(keys[0] == key);
    assert(keys.take(0) =~= Seq::empty());
    assert(sampled(before, keys.take(0), draws[0]) && least_recent(before, draws[0], keys[0]));
}

/// Evicting one of some samples takes the one that was accessed first; where there are several, the
/// one that was drawn first. Nothing else goes, and what it counted for is freed.
pub proof fn law_oldest_sample_goes(
    before: StoreView,
    samples: Samples,
    after: StoreView,
    freed: usize,
)
    requires
        evicts_oldest(before, samples, after, freed),
        forall|i: int|
            0 <= i < samples.len() ==> before.contents.contains_key((#[trigger] samples[i]).0),
    ensures
        samples.len() == 0 ==> after == before && freed == 0,
        samples.len() > 0 ==> exists|at: int|
            {
                &&& 0 <= at < samples.len()
                &&& freed == weight((#[trigger] samples[at]).0, before.contents[samples[at].0].value)
                &&& after.contents == before.contents.remove(samples[at].0)
                &&& forall|i: int| 0 <= i < samples.len() ==> samples[at].1 <= (#[trigger] samples[i]).1
                &&& forall|i: int| 0 <= i < at ==> samples[at].1 != (#[trigger] samples[i]).1
            },
{
    if samples.len() > 0 {
        let key = choose|key: Seq<u8>|
            {
                &&& #[trigger] oldest_key(samples, key)
                &&& freed == before.size_of(key)
                &&& after == before.evicted(key)
            };
        let at = choose|at: int| #[trigger] oldest(samples, at) && samples[at].0 == key;
        assert(before.contents.contains_key(samples[at].0));
        law_sizes(key, before.contents[key]);
        assert(freed == weight(samples[at].0, before.contents[samples[at].0].value));
    }
}

/// What the entry under a key counts for, if there is one.
pub open spec fn weight_at(v: StoreView, key: Seq<u8>) -> nat {
    if v.contents.contains_key(key) {
        weight(key, v.contents[key].value)
    } else {
        0
    }
}

/// What the entry under a key counts for, if the key is there.
pub open spec fn weight_now(v: StoreView, key: Seq<u8>, now: u64) -> nat {
    if there(v, key, now) {
        weight(key, v.contents[key].value)
    } else {
        0
    }
}

/// The memory counter has moved by so much, which it does while there is a limit.
pub open spec fn memory_moved(v: StoreView, w: StoreView, by: int) -> bool {
    w.memory_used == if v.limits.max_memory > 0 {
        (v.memory_used + by) % 0x1_0000_0000_0000_0000
    } else {
        v.memory_used as int
    }
}

/// The key has come to hold the value until the time, if any; nothing else has changed but the
/// memory in use.
pub open spec fn stored(
    v: StoreView,
    w: StoreView,
    key: Seq<u8>,
    value: ValueView,
    expiry: Option<u64>,
) -> bool {
    &&& same_but_at(v, w, key)
    &&& w.contents.contains_key(key)
    &&& w.contents[key] == (Record { value, expiry })
    &&& w.access_times.contains_key(key)
    &&& memory_moved(v, w, weight(key, value) - weight_at(v, key))
}

/// The key has been removed; nothing else has changed but the memory in use.
pub open spec fn removed(v: StoreView, w: StoreView, key: Seq<u8>) -> bool {
    &&& same_but_at(v, w, key)
    &&& !w.contents.contains_key(key)
    &&& !w.access_times.contains_key(key)
    &&& memory_moved(v, w, -weight_at(v, key))
}

/// The key was looked at: it is removed if it is there no more; else nothing has changed.
pub open spec fn looked(v: StoreView, w: StoreView, key: Seq<u8>, now: u64) -> bool {
    if v.contents.contains_key(key) && !there(v, key, now) {
        removed(v, w, key)
    } else {
        w == v
    }
}

/// The key was read: it was looked at, and it may count as accessed later.
pub open spec fn read(v: StoreView, w: StoreView, key: Seq<u8>, now: u64) -> bool {
    if there(v, key, now) {
        &&& same_but_at(v, w, key)
        &&& w.contents == v.contents
        &&& w.access_times.contains_key(key) || w.access_times == v.access_times
        &&& w.memory_used == v.memory_used
    } else {
        looked(v, w, key, now)
    }
}

/// When a key that is to live for some time from now on is there no more.
pub open spec fn ends(now: u64, seconds: Option<u64>) -> Option<u64> {
    match seconds {
        None => None,
        Some(seconds) => if now + seconds <= u64::MAX {
            Some((now + seconds) as u64)
        } else {
            Some(u64::MAX)
        },
    }
}

pub proof fn lemma_stored(v: StoreView, key: Seq<u8>, record: Record, after: StoreView)
    requires
        v.stores(key, record, after),
    ensures
        stored(v, after, key, record.value, record.expiry),
{
    let time = choose|time: u32| after == #[trigger] v.replaced(key, record, time);
    law_sizes(key, record);
    if v.has(key) {
        law_sizes(key, v.contents[key]);
    }
    assert forall|other: Seq<u8>| other != key implies #[trigger] same_at(v, after, other) by {}
}

pub proof fn lemma_removed(v: StoreView, key: Seq<u8>)
    ensures
        removed(v, v.dropped(key), key),
{
    if v.has(key) {
        law_sizes(key, v.contents[key]);
    }
    assert forall|other: Seq<u8>| other != key implies #[trigger] same_at(
        v,
        v.dropped(key),
        other,
    ) by {}
}

pub proof fn lemma_looked(v: StoreView, key: Seq<u8>, now: u64)
    ensures
        looked(v, v.purged(key, now), key, now),
{
    lemma_removed(v, key);
}

pub proof fn lemma_read(v: StoreView, after: StoreView, key: Seq<u8>, now: u64)
    requires
        v.visits(key, now, after),
    ensures
        read(v, after, key, now),
{
    let time = choose|time: Option<u32>| after == #[trigger] v.visited(key, now, time);
    lemma_looked(v, key, now);
    if there(v, key, now) {
        assert forall|other: Seq<u8>| other != key implies #[trigger] same_at(v, after, other) by {}
    }
}

} // verus!
