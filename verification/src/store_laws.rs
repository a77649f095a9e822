//! What the operations on a store are for, apart from the commands that use them.
use vstd::prelude::*;

use crate::client::{same_at, same_but_at, same_setup, sound, there};
use crate::digest::key_digest;
use crate::entry::{Record, ValueView};
use crate::eviction::makes_room;
use crate::limits::MemoryLimits;
use crate::model::{text_record, StoreView};
use crate::room_laws::{ends, law_sizes, weight_at, weights};
use crate::size::live_weight;
use crate::store::{recorded, time_or_start};
use crate::sums::{lemma_map_sum_empty, lemma_map_sum_remove, map_sum};

verus! {

/// Of any ten numbers in a row, one has an access recorded.
pub proof fn law_one_access_in_ten_is_recorded(roll: u32)
    requires
        roll <= u32::MAX - 10,
    ensures
        recorded(0),
        recorded((roll + 10) as u32) == recorded(roll),
        recorded(roll) ==> forall|i: int| 1 <= i < 10 ==> !recorded(#[trigger] ((roll + i) as u32)),
{
}

/// Where no time is recorded, a new entry counts as accessed at the start.
pub proof fn law_new_entry_counts_as_accessed(time: u32)
    ensures
        time_or_start(Some(time)) == time,
        time_or_start(None) == 0,
{
}

/// A byte string that is put under a key stands there with its end and its access time; nothing else
/// changes, the memory in use neither.
pub proof fn law_putting_text(
    v: StoreView,
    key: Seq<u8>,
    text: Seq<u8>,
    ttl: Option<u64>,
    now: u64,
    time: u32,
)
    ensures
        ({
            let w = v.put(key, text_record(text, ttl, now), time);
            &&& same_but_at(v, w, key)
            &&& w.memory_used == v.memory_used
            &&& w.contents.contains_key(key)
            &&& w.contents[key] == (Record { value: ValueView::Text(text), expiry: ends(now, ttl) })
            &&& w.access_times.contains_key(key)
            &&& w.access_times[key] == time
        }),
{
    let w = v.put(key, text_record(text, ttl, now), time);
    assert forall|other: Seq<u8>| other != key implies #[trigger] same_at(v, w, other) by {}
}

/// What a key counts for is what its entry weighs; nothing where it holds none.
pub proof fn law_size_of_a_key(v: StoreView, key: Seq<u8>)
    ensures
        v.size_of(key) == weight_at(v, key),
{
    law_sizes(key, v.contents[key]);
}

/// An access that is recorded at a time is found there, as long as the key is there; where none is
/// recorded, all stays as it was.
pub proof fn law_access_is_recorded(v: StoreView, key: Seq<u8>, now: u64, time: Option<u32>)
    requires
        there(v, key, now),
    ensures
        v.visited(key, now, time).contents == v.contents,
        v.visited(key, now, time).memory_used == v.memory_used,
        same_but_at(v, v.visited(key, now, time), key),
        time is None ==> v.visited(key, now, time) == v,
        time matches Some(time) ==> v.visited(key, now, Some(time)).access_times[key] == time,
{
    let w = v.visited(key, now, time);
    assert forall|other: Seq<u8>| other != key implies #[trigger] same_at(v, w, other) by {}
}

/// Setting fields counts as an access at the time that is given.
pub proof fn law_setting_fields_is_an_access(
    v: StoreView,
    key: Seq<u8>,
    fields: Seq<(Seq<u8>, Seq<u8>)>,
    now: u64,
    time: u32,
)
    ensures
        v.with_fields(key, fields, now, time).access_times[key] == time,
        v.with_fields(key, fields, now, time).access_times.contains_key(key),
{
}

/// A key is kept in the shard that its digest leaves when divided by their number.
pub proof fn law_place_of_a_key(v: StoreView, key: Seq<u8>)
    requires
        v.num_shards > 0,
    ensures
        0 <= v.place(key) < v.num_shards,
        exists|rounds: int|
            (key_digest(v.seed, key) as usize) as int == #[trigger] (rounds * v.num_shards as int) + v.place(
                key,
            ),
{
    let (digest, n) = ((key_digest(v.seed, key) as usize) as int, v.num_shards as int);
    vstd::arithmetic::div_mod::lemma_fundamental_div_mod(digest, n);
    vstd::arithmetic::mul::lemma_mul_is_commutative(n, digest / n);
    assert(digest == (digest / n) * n + v.place(key));
}

/// A store is empty just where no key holds anything; clearing it makes it so, and leaves the rest
/// of it alone.
pub proof fn law_clearing(v: StoreView)
    ensures
        v.vacant() <==> forall|key: Seq<u8>| !#[trigger] v.contents.contains_key(key),
        v.cleared().vacant(),
        forall|key: Seq<u8>| !#[trigger] v.cleared().access_times.contains_key(key),
        same_setup(v, v.cleared()),
        v.cleared().memory_used == v.memory_used,
{
    if forall|key: Seq<u8>| !#[trigger] v.contents.contains_key(key) {
        assert(v.contents =~= Map::<Seq<u8>, Record>::empty());
    }
    if v.vacant() {
        assert(v.contents == Map::<Seq<u8>, Record>::empty());
    }
}

/// A new store holds no key and uses no memory, so that there is room in it for whatever the limit
/// allows.
pub proof fn law_new_store(v: StoreView, num_shards: nat, limits: MemoryLimits, needed: nat)
    requires
        v.starts(num_shards, limits),
        needed <= limits.max_memory,
    ensures
        forall|key: Seq<u8>| !#[trigger] v.contents.contains_key(key),
        forall|key: Seq<u8>| !#[trigger] v.access_times.contains_key(key),
        v.num_shards == num_shards,
        v.memory_used == 0,
        v.evicted_keys == 0,
        sound(v),
        forall|after: StoreView, granted: bool| #[trigger]
            makes_room(v, needed, after, granted) ==> granted && after == v,
{
    assert(v.access_times.dom() =~= v.contents.dom());
}

/// Without a limit there is always room, and no key gives way.
pub proof fn law_no_limit(v: StoreView, needed: nat, after: StoreView, granted: bool)
    requires
        v.limits == MemoryLimits::none(),
        makes_room(v, needed, after, granted),
    ensures
        granted,
        after == v,
{
}

/// The keys are those that are there, each once.
pub open spec fn all_there(v: StoreView, now: u64, keys: Seq<Seq<u8>>) -> bool {
    &&& keys.no_duplicates()
    &&& forall|key: Seq<u8>| #[trigger] keys.contains(key) <==> there(v, key, now)
}

/// Flushing a store takes what its keys that are there weigh off the memory in use, down to nothing.
pub proof fn law_flushing_releases_memory(v: StoreView, now: u64, keys: Seq<Seq<u8>>)
    requires
        sound(v),
        all_there(v, now, keys),
    ensures
        v.flushed(now).memory_used == (if weights(v, keys) <= v.memory_used {
            v.memory_used - weights(v, keys)
        } else {
            0
        }),
        v.flushed(now).vacant(),
        same_setup(v, v.flushed(now)),
{
    assert forall|key: Seq<u8>| v.contents.contains_key(key) && !keys.contains(key) implies (
    #[trigger] v.contents[key]).expired(now) by {
        assert(!there(v, key, now));
    }
    assert forall|i: int| 0 <= i < keys.len() implies v.contents.contains_key(#[trigger] keys[i])
        && !v.contents[keys[i]].expired(now) by {
        assert(keys.contains(keys[i]));
        assert(there(v, keys[i], now));
    }
    lemma_live_weights(v, v.contents, now, keys);
}

proof fn lemma_live_weights(
    v: StoreView,
    m: Map<Seq<u8>, Record>,
    now: u64,
    keys: Seq<Seq<u8>>,
)
    requires
        m.dom().finite(),
        keys.no_duplicates(),
        forall|i: int|
            0 <= i < keys.len() ==> m.contains_key(#[trigger] keys[i]) && !m[keys[i]].expired(now)
                && m[keys[i]] == v.contents[keys[i]],
        forall|key: Seq<u8>|
            m.contains_key(key) && !keys.contains(key) ==> (#[trigger] m[key]).expired(now),
    ensures
        map_sum(m, live_weight(now)) == weights(v, keys),
    decreases keys.len(),
{
    if keys.len() == 0 {
        lemma_nothing_live(m, now);
    } else {
        let (key, rest) = (keys.last(), keys.drop_last());
        let end = keys.len() - 1;
        assert(keys[end] == key);
        lemma_map_sum_remove(m, live_weight(now), key);
        law_sizes(key, m[key]);
        let less = m.remove(key);
        assert forall|i: int| 0 <= i < rest.len() implies less.contains_key(#[trigger] rest[i])
            && !less[rest[i]].expired(now) && less[rest[i]] == v.contents[rest[i]] by {
            assert(rest[i] == keys[i]);
            assert(keys[i] != keys[end]);
        }
        assert forall|other: Seq<u8>| less.contains_key(other) && !rest.contains(other) implies (
        #[trigger] less[other]).expired(now) by {
            if keys.contains(other) {
                let i = choose|i: int| 0 <= i < keys.len() && keys[i] == other;
                assert(rest[i] == other);
            }
            assert(m[other].expired(now));
        }
        lemma_live_weights(v, less, now, rest);
    }
}

proof fn lemma_nothing_live(m: Map<Seq<u8>, Record>, now: u64)
    requires
        m.dom().finite(),
        forall|key: Seq<u8>| m.contains_key(key) ==> (#[trigger] m[key]).expired(now),
    ensures
        map_sum(m, live_weight(now)) == 0,
    decreases m.dom().len(),
{
    if m.dom().len() == 0 {
        lemma_map_sum_empty(m, live_weight(now));
    } else {
        let key = m.dom().choose();
        assert(m.dom().contains(key));
        assert(m[key].expired(now));
        lemma_map_sum_remove(m, live_weight(now), key);
        lemma_nothing_live(m.remove(key), now);
    }
}

} // verus!
