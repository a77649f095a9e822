//! Making room: eviction of keys when the memory limit is reached, and removal of expired keys
//! that nobody asks for.
use bytes::Bytes;
use vstd::prelude::*;

use crate::clock::get_timestamp;
use crate::limits::EvictionPolicy;
use crate::model::{lemma_total_without, lemma_wrapped_twice, wrapped, StoreView};
use crate::octets::{octets, slice_of};
use crate::store::ShardedStore;

verus! {

/// The most evictions that are tried for one request.
pub const MAX_EVICTIONS: usize = 100;

/// Keys drawn from a store, each with the time at which it counts as last accessed.
pub type Samples = Seq<(Seq<u8>, u32)>;

/// The samples in a list.
pub open spec fn samples_of(list: Seq<(Bytes, u32)>) -> Samples {
    list.map_values(|sample: (Bytes, u32)| (octets(sample.0), sample.1))
}

/// Every sample is a key of the store with its access time.
pub open spec fn drawn_from(v: StoreView, samples: Samples) -> bool {
    forall|i: int|
        0 <= i < samples.len() ==> v.has((#[trigger] samples[i]).0)
            && v.access_times[samples[i].0] == samples[i].1
}

/// The sample was not accessed later than any other, and earlier than all drawn before it.
pub open spec fn oldest(samples: Samples, at: int) -> bool {
    &&& 0 <= at < samples.len()
    &&& forall|i: int| 0 <= i < samples.len() ==> samples[at].1 <= (#[trigger] samples[i]).1
    &&& forall|i: int| 0 <= i < at ==> samples[at].1 < (#[trigger] samples[i]).1
}

/// The key is the oldest of the samples.
pub open spec fn oldest_key(samples: Samples, key: Seq<u8>) -> bool {
    exists|at: int| #[trigger] oldest(samples, at) && samples[at].0 == key
}

/// What evicting the oldest of some samples does: nothing where there is none.
pub open spec fn evicts_oldest(
    before: StoreView,
    samples: Samples,
    after: StoreView,
    freed: usize,
) -> bool {
    if samples.len() == 0 {
        after == before && freed == 0
    } else {
        exists|key: Seq<u8>|
            {
                &&& #[trigger] oldest_key(samples, key)
                &&& freed == before.size_of(key)
                &&& after == before.evicted(key)
            }
    }
}

/// Samples as they are drawn for one eviction: of the configured number, unless a draw came upon
/// an empty shard.
pub open spec fn drawn_for_eviction(v: StoreView, samples: Samples) -> bool {
    &&& drawn_from(v, samples)
    &&& samples.len() <= v.limits.eviction_sample_size
    &&& samples.len() < v.limits.eviction_sample_size ==> !v.occupied()
}

/// One key that is drawn: none where the draw came upon an empty shard.
pub open spec fn drawn_key(v: StoreView, key: Option<Seq<u8>>) -> bool {
    match key {
        Some(key) => v.has(key),
        None => !v.occupied(),
    }
}

/// The keys are evicted one after the other until `needed` bytes are freed, the most evictions
/// are done, or no key is drawn. Under the policy of evicting the least recently used, `draws` are
/// the samples that were drawn, and each key is the oldest of its samples.
pub open spec fn victims(
    before: StoreView,
    needed: nat,
    keys: Seq<Seq<u8>>,
    draws: Seq<Samples>,
    after: StoreView,
) -> bool {
    let lru = before.limits.eviction_policy == EvictionPolicy::AllKeysLru;
    &&& before.holds_all(keys)
    &&& after == before.evicted_all(keys)
    &&& keys.len() <= MAX_EVICTIONS
    &&& keys.len() > 0 ==> before.sizes(keys.drop_last()) < needed
    &&& lru ==> each_oldest(before, keys, draws)
    &&& {
        ||| before.sizes(keys) >= needed
        ||| keys.len() == MAX_EVICTIONS
        ||| !after.occupied()
        ||| lru && before.limits.eviction_sample_size == 0
    }
}

/// Each of the keys was, when its turn came, the oldest of the samples drawn for it.
pub open spec fn each_oldest(
    before: StoreView,
    keys: Seq<Seq<u8>>,
    draws: Seq<Samples>,
) -> bool {
    &&& draws.len() == keys.len()
    &&& forall|i: int|
        0 <= i < keys.len() ==> drawn_for_eviction(
            before.evicted_all(keys.take(i)),
            #[trigger] draws[i],
        ) && oldest_key(draws[i], keys[i])
}

/// What asking for `needed` bytes of room does: nothing where there is room; nothing where keys
/// may not be evicted, and the request is refused; else keys are evicted, and the request is
/// granted where there is room then.
pub open spec fn makes_room(
    before: StoreView,
    needed: nat,
    after: StoreView,
    granted: bool,
) -> bool {
    if before.fits(needed) {
        granted && after == before
    } else if before.limits.eviction_policy == EvictionPolicy::NoEviction {
        !granted && after == before
    } else {
        &&& granted == after.fits(needed)
        &&& exists|keys: Seq<Seq<u8>>, draws: Seq<Samples>| #[trigger]
            victims(before, needed, keys, draws, after)
    }
}

/// Of some samples, one is the oldest, and no other is.
proof fn lemma_oldest_is_unique(samples: Samples, a: int, b: int)
    requires
        oldest(samples, a),
        oldest(samples, b),
    ensures
        a == b,
{
    if a < b {
        assert(samples[b].1 < samples[a].1);
    } else if b < a {
        assert(samples[a].1 < samples[b].1);
    }
}

/// Evicts the oldest of some sampled keys. Returns the bytes that are freed, zero where there is no
/// sample, or where the key is no longer there.
pub fn evict_oldest(store: &mut ShardedStore, samples: &Vec<(Bytes, u32)>) -> (freed: usize)
    requires
        old(store).wf(),
        old(store)@.num_shards > 0,
    ensures
        final(store).wf(),
        samples@.len() == 0 ==> freed == 0 && final(store)@ == old(store)@,
        samples@.len() > 0 ==> exists|at: int| #[trigger] oldest(samples_of(samples@), at),
        forall|at: int| #[trigger]
            oldest(samples_of(samples@), at) ==> {
                let key = samples_of(samples@)[at].0;
                &&& freed == old(store)@.size_of(key)
                &&& final(store)@ == (if old(store)@.has(key) {
                    old(store)@.evicted(key)
                } else {
                    old(store)@
                })
            },
{
    let ghost all = samples_of(samples@);
    if samples.len() == 0 {
        return 0;
    }
    let mut best: usize = 0;
    let mut i: usize = 1;
    while i < samples.len()
        invariant
            all == samples_of(samples@),
            best < i <= samples@.len(),
            forall|j: int| 0 <= j < i ==> all[best as int].1 <= (#[trigger] all[j]).1,
            forall|j: int| 0 <= j < best ==> all[best as int].1 < (#[trigger] all[j]).1,
        decreases samples@.len() - i,
    {
        assert(all[i as int].1 == samples@[i as int].1 && all[best as int].1
            == samples@[best as int].1);
        if samples[i].1 < samples[best].1 {
            best = i;
        }
        i += 1;
    }
    proof {
        assert(oldest(all, best as int));
        assert(all[best as int].0 == octets(samples@[best as int].0));
        assert forall|at: int| #[trigger] oldest(all, at) implies at == best by {
            lemma_oldest_is_unique(all, at, best as int);
        }
    }
    store.evict_key(slice_of(&samples[best].0))
}

/// Evicts the least recently used of a few sampled keys. Returns the bytes that are freed, zero
/// where no key was drawn. Chance decides which keys are sampled; see [`evict_oldest`].
pub fn evict_lru(store: &mut ShardedStore) -> (freed: usize)
    requires
        old(store).wf(),
        old(store)@.num_shards > 0,
    ensures
        final(store).wf(),
        exists|samples: Samples|
            {
                &&& #[trigger] drawn_for_eviction(old(store)@, samples)
                &&& evicts_oldest(old(store)@, samples, final(store)@, freed)
            },
{
    let sample_size: usize = store.limits().eviction_sample_size;
    let mut samples: Vec<(Bytes, u32)> = Vec::new();
    let mut i: usize = 0;
    while i < sample_size
        invariant
            i <= sample_size,
            store.wf(),
            store@.num_shards > 0,
            *store == *old(store),
            samples@.len() <= i,
            drawn_from(store@, samples_of(samples@)),
            samples@.len() < i ==> !store@.occupied(),
        decreases sample_size - i,
    {
        if let Some((key, entry)) = store.sample_entry() {
            let ghost before = samples_of(samples@);
            let ghost sample = (octets(key), entry.last_accessed);
            samples.push((key, entry.last_accessed));
            assert(samples_of(samples@) =~= before.push(sample));
        }
        i += 1;
    }
    let freed = evict_oldest(store, &samples);
    proof {
        let all = samples_of(samples@);
        assert(drawn_for_eviction(old(store)@, all));
        if all.len() > 0 {
            let at = choose|at: int| #[trigger] oldest(all, at);
            assert(old(store)@.has(all[at].0));
            assert(oldest_key(all, all[at].0));
        }
        assert(evicts_oldest(old(store)@, all, store@, freed));
    }
    freed
}

/// Evicts a key that is chosen at random. Returns the bytes that are freed, zero where no key was
/// drawn. Chance decides which key it is.
pub fn evict_random(store: &mut ShardedStore) -> (freed: usize)
    requires
        old(store).wf(),
        old(store)@.num_shards > 0,
    ensures
        final(store).wf(),
        exists|key: Option<Seq<u8>>|
            {
                &&& #[trigger] drawn_key(old(store)@, key)
                &&& match key {
                    Some(key) => {
                        &&& freed == old(store)@.size_of(key)
                        &&& final(store)@ == old(store)@.evicted(key)
                    },
                    None => freed == 0 && final(store)@ == old(store)@,
                }
            },
{
    match store.sample_entry() {
        Some((key, _entry)) => {
            assert(drawn_key(store@, Some(octets(key))));
            store.evict_key(slice_of(&key))
        },
        None => {
            assert(drawn_key(store@, None));
            0
        },
    }
}

/// One more eviction after those of a list.
proof fn lemma_one_more(before: StoreView, keys: Seq<Seq<u8>>, key: Seq<u8>)
    requires
        before.holds_all(keys),
        before.evicted_all(keys).has(key),
    ensures
        before.holds_all(keys.push(key)),
        before.evicted_all(keys.push(key)) == before.evicted_all(keys).evicted(key),
        before.sizes(keys.push(key)) == before.sizes(keys) + before.size_of(key),
        before.evicted_all(keys).size_of(key) == before.size_of(key),
{
    let more = keys.push(key);
    assert(!keys.contains(key)) by {
        assert(!keys.to_set().contains(key));
    }
    assert(more.drop_last() =~= keys);
    assert(more.to_set() =~= keys.to_set().insert(key)) by {
        assert forall|k: Seq<u8>| more.to_set().contains(k) == keys.to_set().insert(key).contains(k) by {
            if keys.contains(k) {
                let i = choose|i: int| 0 <= i < keys.len() && keys[i] == k;
                assert(more[i] == k);
            }
            if k == key {
                assert(more[keys.len() as int] == k);
            }
        }
    }
    assert forall|i: int| 0 <= i < more.len() implies before.has(#[trigger] more[i]) by {
        if i < keys.len() {
            assert(before.has(keys[i]));
        }
    }
    lemma_wrapped_twice(before.memory_used - before.sizes(keys), -before.size_of(key));
    lemma_wrapped_twice(before.evicted_keys + keys.len(), 1);
    assert(before.evicted_all(more) =~= before.evicted_all(keys).evicted(key));
}

/// Makes room for `needed_size` bytes more, by evicting keys where that is the policy. Returns
/// whether there is room.
pub fn evict_if_needed(store: &mut ShardedStore, needed_size: usize) -> (granted: bool)
    requires
        old(store).wf(),
        old(store)@.num_shards > 0,
    ensures
        final(store).wf(),
        makes_room(old(store)@, needed_size as nat, final(store)@, granted),
{
    if has_room(store, needed_size) {
        return true;
    }
    let policy = store.limits().eviction_policy;
    if policy == EvictionPolicy::NoEviction {
        return false;
    }
    let ghost before = store@;
    let ghost mut keys: Seq<Seq<u8>> = Seq::empty();
    let ghost mut draws: Seq<Samples> = Seq::empty();
    let mut freed: usize = 0;
    let mut attempts: usize = 0;
    let mut found = true;
    proof {
        assert(before.contents.remove_keys(keys.to_set()) =~= before.contents);
        assert(before.access_times.remove_keys(keys.to_set()) =~= before.access_times);
        assert(wrapped(before.memory_used as int) == before.memory_used);
        assert(wrapped(before.evicted_keys as int) == before.evicted_keys);
        assert(before.evicted_all(keys) =~= before);
    }
    while found && freed < needed_size && attempts < MAX_EVICTIONS
        invariant
            store.wf(),
            store@.num_shards > 0,
            policy == before.limits.eviction_policy,
            policy != EvictionPolicy::NoEviction,
            before.holds_all(keys),
            store@ == before.evicted_all(keys),
            keys.len() <= attempts,
            found ==> keys.len() == attempts,
            attempts <= MAX_EVICTIONS,
            before.sizes(keys) <= usize::MAX ==> freed == before.sizes(keys),
            before.sizes(keys) > usize::MAX ==> freed == usize::MAX,
            keys.len() > 0 ==> before.sizes(keys.drop_last()) < needed_size,
            policy == EvictionPolicy::AllKeysLru ==> each_oldest(before, keys, draws),
            !found ==> !store@.occupied() || policy == EvictionPolicy::AllKeysLru
                && before.limits.eviction_sample_size == 0,
        decreases MAX_EVICTIONS - attempts,
    {
        attempts += 1;
        let ghost v = store@;
        let evicted: usize = match policy {
            EvictionPolicy::AllKeysLru => evict_lru(store),
            _ => evict_random(store),
        };
        proof {
            assert forall|key: Seq<u8>| v.has(key) implies #[trigger] v.size_of(key) > 0 by {}
        }
        let ghost samples = choose|samples: Samples|
            {
                &&& #[trigger] drawn_for_eviction(v, samples)
                &&& evicts_oldest(v, samples, store@, evicted)
            };
        if evicted == 0 {
            found = false;
            proof {
                if policy == EvictionPolicy::AllKeysLru && samples.len() > 0 {
                    let key = choose|key: Seq<u8>|
                        {
                            &&& #[trigger] oldest_key(samples, key)
                            &&& evicted == v.size_of(key)
                            &&& store@ == v.evicted(key)
                        };
                    let at = choose|at: int| #[trigger] oldest(samples, at) && samples[at].0 == key;
                    assert(v.has(samples[at].0));
                    assert(v.size_of(key) > 0);
                } else if policy != EvictionPolicy::AllKeysLru {
                    let key = choose|key: Option<Seq<u8>>|
                        {
                            &&& #[trigger] drawn_key(v, key)
                            &&& match key {
                                Some(key) => evicted == v.size_of(key) && store@ == v.evicted(key),
                                None => evicted == 0 && store@ == v,
                            }
                        };
                    if key is Some {
                        assert(v.size_of(key.unwrap()) > 0);
                    }
                }
            }
        } else {
            freed = freed.saturating_add(evicted);
            proof {
                let key = if policy == EvictionPolicy::AllKeysLru {
                    choose|key: Seq<u8>|
                        {
                            &&& #[trigger] oldest_key(samples, key)
                            &&& evicted == v.size_of(key)
                            &&& store@ == v.evicted(key)
                        }
                } else {
                    (choose|key: Option<Seq<u8>>|
                        {
                            &&& #[trigger] drawn_key(v, key)
                            &&& match key {
                                Some(key) => evicted == v.size_of(key) && store@ == v.evicted(key),
                                None => evicted == 0 && store@ == v,
                            }
                        }).unwrap()
                };
                if policy == EvictionPolicy::AllKeysLru {
                    let at = choose|at: int| #[trigger] oldest(samples, at) && samples[at].0 == key;
                    assert(v.has(samples[at].0));
                }
                lemma_one_more(before, keys, key);
                let more = keys.push(key);
                assert(more.drop_last() =~= keys);
                if policy == EvictionPolicy::AllKeysLru {
                    let longer = draws.push(samples);
                    assert forall|i: int| 0 <= i < more.len() implies drawn_for_eviction(
                        before.evicted_all(more.take(i)),
                        #[trigger] longer[i],
                    ) && oldest_key(longer[i], more[i]) by {
                        assert(more.take(i) =~= keys.take(i));
                        if i == keys.len() {
                            assert(keys.take(i) =~= keys);
                        } else {
                            assert(longer[i] == draws[i]);
                            assert(more[i] == keys[i]);
                        }
                    }
                    draws = longer;
                }
                keys = more;
            }
        }
    }
    proof {
        assert(victims(before, needed_size as nat, keys, draws, store@));
    }
    has_room(store, needed_size)
}

/// Whether there is room for `needed_size` bytes more.
pub fn has_room(store: &ShardedStore, needed_size: usize) -> (room: bool)
    ensures
        room == store@.fits(needed_size as nat),
{
    let max_memory: u64 = store.limits().max_memory;
    let used: u64 = store.memory_used();
    max_memory == 0 || (used <= max_memory && needed_size as u64 <= max_memory - used)
}

/// Each of the keys was, when its turn came, drawn from the store; those drawn before it were
/// removed if they had expired.
pub open spec fn drawn_in_turn(
    before: StoreView,
    draws: Seq<Option<Seq<u8>>>,
    now: u64,
) -> bool {
    forall|i: int|
        0 <= i < draws.len() ==> drawn_key(swept(before, draws.take(i), now), #[trigger] draws[i])
}

/// The keys that are drawn are removed, one after the other, if they have expired.
pub open spec fn swept(v: StoreView, draws: Seq<Option<Seq<u8>>>, now: u64) -> StoreView
    decreases draws.len(),
{
    if draws.len() == 0 {
        v
    } else {
        let before = swept(v, draws.drop_last(), now);
        match draws.last() {
            Some(key) => before.purged(key, now),
            None => before,
        }
    }
}

/// How many of the keys that are drawn are removed.
pub open spec fn swept_count(v: StoreView, draws: Seq<Option<Seq<u8>>>, now: u64) -> nat
    decreases draws.len(),
{
    if draws.len() == 0 {
        0
    } else {
        swept_count(v, draws.drop_last(), now) + (match draws.last() {
            Some(key) if swept(v, draws.drop_last(), now).stale(key, now) => 1nat,
            _ => 0nat,
        })
    }
}

/// What drawing `count` keys and removing those that have expired does.
pub open spec fn sweeps(
    before: StoreView,
    count: usize,
    now: u64,
    after: StoreView,
    removed: usize,
) -> bool {
    exists|draws: Seq<Option<Seq<u8>>>|
        {
            &&& #[trigger] drawn_in_turn(before, draws, now)
            &&& draws.len() == count
            &&& after == swept(before, draws, now)
            &&& removed == swept_count(before, draws, now)
        }
}

/// Keys that had expired were removed, `removed` in number, and their memory was released; nothing
/// else changed.
pub open spec fn spares(before: StoreView, now: u64, after: StoreView, removed: nat) -> bool {
    &&& after.contents.dom().len() + removed == before.contents.dom().len()
    &&& forall|key: Seq<u8>| #[trigger]
        after.has(key) ==> {
            &&& before.has(key)
            &&& after.contents[key] == before.contents[key]
            &&& after.access_times[key] == before.access_times[key]
        }
    &&& forall|key: Seq<u8>| #[trigger]
        before.has(key) && !after.has(key) ==> before.stale(key, now)
    &&& after == StoreView {
        contents: after.contents,
        access_times: after.access_times,
        ..before.adjusted(after.total_size() - before.total_size())
    }
}

proof fn lemma_swept(before: StoreView, draws: Seq<Option<Seq<u8>>>, now: u64)
    requires
        before.contents.dom().finite(),
    ensures
        swept(before, draws, now).contents.dom().finite(),
        swept_count(before, draws, now) <= draws.len(),
        spares(before, now, swept(before, draws, now), swept_count(before, draws, now)),
    decreases draws.len(),
{
    if draws.len() > 0 {
        lemma_swept(before, draws.drop_last(), now);
        let mid = swept(before, draws.drop_last(), now);
        let after = swept(before, draws, now);
        if let Some(drawn) = draws.last() {
            assert forall|key: Seq<u8>| #[trigger] after.has(key) implies {
                &&& before.has(key)
                &&& after.contents[key] == before.contents[key]
                &&& after.access_times[key] == before.access_times[key]
            } by {
                assert(mid.has(key));
            }
            assert forall|key: Seq<u8>| #[trigger]
                before.has(key) && !after.has(key) implies before.stale(key, now) by {
                if mid.has(key) {
                    assert(mid.contents[key] == before.contents[key]);
                }
            }
            if mid.stale(drawn, now) {
                lemma_total_without(mid, drawn);
                lemma_wrapped_twice(
                    before.memory_used + mid.total_size() - before.total_size(),
                    -mid.size_of(drawn),
                );
            }
        }
    } else {
        assert(wrapped(before.memory_used as int) == before.memory_used);
    }
}

/// Drawing keys and removing those that have expired spares all others.
pub proof fn lemma_sweeps(
    before: StoreView,
    count: usize,
    now: u64,
    after: StoreView,
    removed: usize,
)
    requires
        before.contents.dom().finite(),
        sweeps(before, count, now, after, removed),
    ensures
        removed <= count,
        spares(before, now, after, removed as nat),
{
    let draws = choose|draws: Seq<Option<Seq<u8>>>|
        {
            &&& #[trigger] drawn_in_turn(before, draws, now)
            &&& draws.len() == count
            &&& after == swept(before, draws, now)
            &&& removed == swept_count(before, draws, now)
        };
    lemma_swept(before, draws, now);
}

/// Removes a key that was drawn if it has expired. Returns whether it was removed.
pub fn sweep_drawn(store: &mut ShardedStore, drawn: &[u8], now: u64) -> (removed: bool)
    requires
        old(store).wf(),
        old(store)@.num_shards > 0,
    ensures
        final(store).wf(),
        removed == old(store)@.stale(drawn@, now),
        final(store)@ == (if removed {
            old(store)@.dropped(drawn@)
        } else {
            old(store)@
        }),
{
    let expired = match store.find(drawn) {
        Some(entry) => entry.is_expired(now),
        None => false,
    };
    if expired {
        let _size = store.drop_key(drawn);
    }
    expired
}

/// Draws `count` keys and removes those that have expired at the time `now`. Returns how many.
/// Chance decides which keys are drawn; see [`sweep_drawn`].
pub fn expire_random_keys_at(store: &mut ShardedStore, count: usize, now: u64) -> (removed: usize)
    requires
        old(store).wf(),
        old(store)@.num_shards > 0,
    ensures
        final(store).wf(),
        sweeps(old(store)@, count, now, final(store)@, removed),
        removed <= count,
        spares(old(store)@, now, final(store)@, removed as nat),
{
    let ghost before = store@;
    let ghost mut draws: Seq<Option<Seq<u8>>> = Seq::empty();
    let mut removed: usize = 0;
    let mut i: usize = 0;
    while i < count
        invariant
            i <= count,
            store.wf(),
            store@.num_shards > 0,
            removed <= i,
            draws.len() == i,
            drawn_in_turn(before, draws, now),
            store@ == swept(before, draws, now),
            removed == swept_count(before, draws, now),
        decreases count - i,
    {
        let picked = store.sample_entry();
        let ghost draw = if picked is Some {
            Some(octets(picked.unwrap().0))
        } else {
            None
        };
        proof {
            let more = draws.push(draw);
            assert(more.drop_last() =~= draws);
            assert forall|j: int| 0 <= j < more.len() implies drawn_key(
                swept(before, more.take(j), now),
                #[trigger] more[j],
            ) by {
                assert(more.take(j) =~= draws.take(j));
                if j == draws.len() {
                    assert(draws.take(j) =~= draws);
                } else {
                    assert(more[j] == draws[j]);
                }
            }
            draws = more;
        }
        if let Some((key, _entry)) = picked {
            if sweep_drawn(store, slice_of(&key), now) {
                removed += 1;
            }
        }
        i += 1;
    }
    proof {
        old(store).law_keys_are_finite();
        assert(sweeps(before, count, now, store@, removed));
        lemma_sweeps(before, count, now, store@, removed);
    }
    removed
}

/// Draws `count` keys and removes those that have expired by now. The clock decides which; see
/// [`expire_random_keys_at`].
pub fn expire_random_keys(store: &mut ShardedStore, count: usize) -> (removed: usize)
    requires
        old(store).wf(),
        old(store)@.num_shards > 0,
    ensures
        final(store).wf(),
        removed <= count,
        exists|now: u64|
            {
                &&& #[trigger] sweeps(old(store)@, count, now, final(store)@, removed)
                &&& spares(old(store)@, now, final(store)@, removed as nat)
            },
{
    expire_random_keys_at(store, count, get_timestamp())
}

} // verus!
