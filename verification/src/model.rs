//! A store as its contracts see it: what the keys hold, how much memory they count for, and
//! where they are placed.
use ahash::AHasher;
use vstd::prelude::*;

use crate::digest::key_digest;
use crate::entry::{Record, ValueView};
use crate::fields::merged;
use crate::limits::MemoryLimits;
use crate::size::{live_weight, record_size, record_weight};
use crate::sums::{lemma_map_sum_remove, map_sum};

verus! {

/// The state of a store.
#[verifier::ext_equal]
pub ghost struct StoreView {
    /// What each key holds. A key whose record has expired stays until it is removed.
    pub contents: Map<Seq<u8>, Record>,
    /// When each key counts as last accessed, in seconds since the start.
    pub access_times: Map<Seq<u8>, u32>,
    /// The bytes that the entries count for, kept up to date while there is a limit.
    pub memory_used: u64,
    /// How many keys have been evicted.
    pub evicted_keys: u64,
    pub limits: MemoryLimits,
    pub num_shards: nat,
    /// The hasher state that places the keys.
    pub seed: AHasher,
    /// When the store was made, in seconds since the epoch.
    pub start_time: u64,
}

/// `n`, wrapped around to a 64-bit counter.
pub open spec fn wrapped(n: int) -> u64 {
    (n % 0x1_0000_0000_0000_0000) as u64
}

/// Two moves of a counter are one move by their sum.
pub proof fn lemma_wrapped_twice(n: int, change: int)
    ensures
        wrapped(wrapped(n) + change) == wrapped(n + change),
{
    vstd::arithmetic::div_mod::lemma_add_mod_noop(n, change, 0x1_0000_0000_0000_0000);
    vstd::arithmetic::div_mod::lemma_add_mod_noop(
        n % 0x1_0000_0000_0000_0000,
        change,
        0x1_0000_0000_0000_0000,
    );
    vstd::arithmetic::div_mod::lemma_mod_twice(n, 0x1_0000_0000_0000_0000);
}

/// `now + seconds`, held at the largest time that can be written.
pub open spec fn deadline(now: u64, seconds: u64) -> u64 {
    if now + seconds <= u64::MAX {
        (now + seconds) as u64
    } else {
        u64::MAX
    }
}

/// The record of a byte string that is stored at `now`, with an optional time to live.
pub open spec fn text_record(text: Seq<u8>, ttl: Option<u64>, now: u64) -> Record {
    Record {
        value: ValueView::Text(text),
        expiry: match ttl {
            Some(seconds) => Some(deadline(now, seconds)),
            None => None,
        },
    }
}

impl StoreView {
    pub open spec fn has(self, key: Seq<u8>) -> bool {
        self.contents.contains_key(key)
    }

    /// The key holds a record that has not expired.
    pub open spec fn live(self, key: Seq<u8>, now: u64) -> bool {
        self.has(key) && !self.contents[key].expired(now)
    }

    /// The key holds a record that has expired but was not removed yet.
    pub open spec fn stale(self, key: Seq<u8>, now: u64) -> bool {
        self.has(key) && self.contents[key].expired(now)
    }

    /// The byte string that a live key holds.
    pub open spec fn text(self, key: Seq<u8>, now: u64) -> Option<Seq<u8>> {
        if self.live(key, now) {
            match self.contents[key].value {
                ValueView::Text(text) => Some(text),
                ValueView::Hash(_) => None,
            }
        } else {
            None
        }
    }

    /// A live key holds a byte string where a hash is asked for.
    pub open spec fn not_a_hash(self, key: Seq<u8>, now: u64) -> bool {
        self.live(key, now) && self.contents[key].value is Text
    }

    /// The fields of the hash that a live key holds; none where it holds no hash.
    pub open spec fn hash_fields(self, key: Seq<u8>, now: u64) -> Map<Seq<u8>, Seq<u8>> {
        if self.live(key, now) {
            match self.contents[key].value {
                ValueView::Text(_) => Map::empty(),
                ValueView::Hash(fields) => fields,
            }
        } else {
            Map::empty()
        }
    }

    /// When the record of a live key expires.
    pub open spec fn live_expiry(self, key: Seq<u8>, now: u64) -> Option<u64> {
        if self.live(key, now) {
            self.contents[key].expiry
        } else {
            None
        }
    }

    /// The keys of a list that are live, each once.
    pub open spec fn live_among(self, keys: Seq<Seq<u8>>, now: u64) -> Set<Seq<u8>> {
        keys.to_set().filter(|key: Seq<u8>| self.live(key, now))
    }

    /// The records that are kept in one shard.
    pub open spec fn shard_records(self, shard: int) -> Map<Seq<u8>, Record> {
        self.contents.filter_keys(|key: Seq<u8>| self.place(key) == shard)
    }

    /// What the record of a key counts for; nothing where the key holds none.
    pub open spec fn size_of(self, key: Seq<u8>) -> nat {
        if self.has(key) {
            record_size(key, self.contents[key])
        } else {
            0
        }
    }

    /// The records that are kept in the shards before one.
    pub open spec fn records_before(self, shard: int) -> Map<Seq<u8>, Record> {
        self.contents.filter_keys(|key: Seq<u8>| self.place(key) < shard)
    }

    /// What all records count for together.
    pub open spec fn total_size(self) -> nat {
        map_sum(self.contents, record_weight())
    }

    /// What the records that have not expired count for together.
    pub open spec fn live_size(self, now: u64) -> nat {
        map_sum(self.contents, live_weight(now))
    }

    /// Memory is accounted for while there is a limit.
    pub open spec fn tracks_memory(self) -> bool {
        self.limits.max_memory > 0
    }

    /// The memory counter shows what the records count for.
    pub open spec fn accounted(self) -> bool {
        self.tracks_memory() ==> self.memory_used == wrapped(self.total_size() as int)
    }

    /// The memory counter moved by `change`, where memory is accounted for.
    pub open spec fn adjusted(self, change: int) -> StoreView {
        if self.tracks_memory() {
            StoreView { memory_used: wrapped(self.memory_used + change), ..self }
        } else {
            self
        }
    }

    /// The key is removed and its memory released.
    pub open spec fn dropped(self, key: Seq<u8>) -> StoreView {
        StoreView {
            contents: self.contents.remove(key),
            access_times: self.access_times.remove(key),
            ..self.adjusted(-self.size_of(key))
        }
    }

    /// The keys of a list are removed and their memory released.
    pub open spec fn dropped_all(self, keys: Seq<Seq<u8>>) -> StoreView
        decreases keys.len(),
    {
        if keys.len() == 0 {
            self
        } else {
            self.dropped_all(keys.drop_last()).dropped(keys.last())
        }
    }

    /// The key is removed if its record has expired.
    pub open spec fn purged(self, key: Seq<u8>, now: u64) -> StoreView {
        if self.stale(key, now) {
            self.dropped(key)
        } else {
            self
        }
    }

    /// An access to a live key is recorded at a time, where there is one; a key that has expired
    /// is removed.
    pub open spec fn visited(self, key: Seq<u8>, now: u64, time: Option<u32>) -> StoreView {
        match time {
            Some(time) if self.live(key, now) => StoreView {
                access_times: self.access_times.insert(key, time),
                ..self
            },
            _ => self.purged(key, now),
        }
    }

    /// The keys of a list are visited one after the other.
    pub open spec fn visited_all(
        self,
        keys: Seq<Seq<u8>>,
        now: u64,
        times: Seq<Option<u32>>,
    ) -> StoreView
        decreases keys.len(),
    {
        if keys.len() == 0 {
            self
        } else {
            self.visited_all(keys.drop_last(), now, times.drop_last()).visited(
                keys.last(),
                now,
                times.last(),
            )
        }
    }

    /// The key holds the record and counts as last accessed at a time; the memory counter is left
    /// alone.
    pub open spec fn put(self, key: Seq<u8>, record: Record, time: u32) -> StoreView {
        StoreView {
            contents: self.contents.insert(key, record),
            access_times: self.access_times.insert(key, time),
            ..self
        }
    }

    /// The key holds the record and counts as last accessed at a time, and the memory counter
    /// follows.
    pub open spec fn replaced(self, key: Seq<u8>, record: Record, time: u32) -> StoreView {
        StoreView {
            contents: self.contents.insert(key, record),
            access_times: self.access_times.insert(key, time),
            ..self.adjusted(record_size(key, record) - self.size_of(key))
        }
    }

    /// Fields of the hash under the key are set; it is made where the key holds none that is live.
    /// It expires when it would have, and counts as last accessed at a time.
    pub open spec fn with_fields(
        self,
        key: Seq<u8>,
        fields: Seq<(Seq<u8>, Seq<u8>)>,
        now: u64,
        time: u32,
    ) -> StoreView {
        self.replaced(
            key,
            Record {
                value: ValueView::Hash(merged(self.hash_fields(key, now), fields)),
                expiry: self.live_expiry(key, now),
            },
            time,
        )
    }

    /// The key is made to hold the record, the memory counter follows, and the key counts as last
    /// accessed at some time.
    pub open spec fn stores(self, key: Seq<u8>, record: Record, after: StoreView) -> bool {
        exists|time: u32| after == #[trigger] self.replaced(key, record, time)
    }

    /// The key is visited, and the access is recorded at some time, or not at all.
    pub open spec fn visits(self, key: Seq<u8>, now: u64, after: StoreView) -> bool {
        exists|time: Option<u32>| after == #[trigger] self.visited(key, now, time)
    }

    /// The record of the key expires at another time, or not at all.
    pub open spec fn with_expiry(self, key: Seq<u8>, expiry: Option<u64>) -> StoreView {
        StoreView {
            contents: self.contents.insert(key, Record { expiry, ..self.contents[key] }),
            ..self
        }
    }

    /// The key is evicted.
    pub open spec fn evicted(self, key: Seq<u8>) -> StoreView {
        StoreView {
            contents: self.contents.remove(key),
            access_times: self.access_times.remove(key),
            memory_used: wrapped(self.memory_used - self.size_of(key)),
            evicted_keys: wrapped(self.evicted_keys + 1),
            ..self
        }
    }

    /// The keys of a list are all there, and none of them occurs twice.
    pub open spec fn holds_all(self, keys: Seq<Seq<u8>>) -> bool {
        &&& keys.no_duplicates()
        &&& forall|i: int| 0 <= i < keys.len() ==> self.has(#[trigger] keys[i])
    }

    /// What the records of the keys of a list count for together.
    pub open spec fn sizes(self, keys: Seq<Seq<u8>>) -> nat
        decreases keys.len(),
    {
        if keys.len() == 0 {
            0
        } else {
            self.sizes(keys.drop_last()) + self.size_of(keys.last())
        }
    }

    /// The keys of a list, none of which occurs twice, are evicted.
    pub open spec fn evicted_all(self, keys: Seq<Seq<u8>>) -> StoreView {
        StoreView {
            contents: self.contents.remove_keys(keys.to_set()),
            access_times: self.access_times.remove_keys(keys.to_set()),
            memory_used: wrapped(self.memory_used - self.sizes(keys)),
            evicted_keys: wrapped(self.evicted_keys + keys.len()),
            ..self
        }
    }

    /// There is room for `needed` bytes more.
    pub open spec fn fits(self, needed: nat) -> bool {
        self.limits.max_memory == 0 || self.memory_used + needed <= self.limits.max_memory
    }

    /// The store is as it starts: it has so many shards and these limits, and holds nothing.
    pub open spec fn starts(self, num_shards: nat, limits: MemoryLimits) -> bool {
        &&& self.contents == Map::<Seq<u8>, Record>::empty()
        &&& self.access_times == Map::<Seq<u8>, u32>::empty()
        &&& self.num_shards == num_shards
        &&& self.limits == limits
        &&& self.memory_used == 0
        &&& self.evicted_keys == 0
    }

    /// No key holds a record.
    pub open spec fn vacant(self) -> bool {
        self.contents =~= Map::<Seq<u8>, Record>::empty()
    }

    /// All keys are removed; the memory counter is left alone.
    pub open spec fn cleared(self) -> StoreView {
        StoreView { contents: Map::empty(), access_times: Map::empty(), ..self }
    }

    /// All keys are removed. What the live ones counted for is taken off the memory counter, but
    /// for no more than it shows.
    pub open spec fn flushed(self, now: u64) -> StoreView {
        StoreView {
            contents: Map::empty(),
            access_times: Map::empty(),
            memory_used: if self.live_size(now) >= self.memory_used {
                0
            } else {
                (self.memory_used - self.live_size(now)) as u64
            },
            ..self
        }
    }

    /// The shard in which the key is kept.
    pub open spec fn place(self, key: Seq<u8>) -> int {
        (key_digest(self.seed, key) as usize) as int % self.num_shards as int
    }

    /// The shard holds at least one key.
    pub open spec fn shard_in_use(self, shard: int) -> bool {
        exists|key: Seq<u8>| self.has(key) && #[trigger] self.place(key) == shard
    }

    /// Every shard holds at least one key.
    pub open spec fn occupied(self) -> bool {
        forall|shard: int| 0 <= shard < self.num_shards ==> #[trigger] self.shard_in_use(shard)
    }
}

/// What the records count for once the key was removed.
pub proof fn lemma_total_without(v: StoreView, key: Seq<u8>)
    requires
        v.contents.dom().finite(),
    ensures
        map_sum(v.contents.remove(key), record_weight()) == v.total_size() - v.size_of(key),
{
    if v.has(key) {
        lemma_map_sum_remove(v.contents, record_weight(), key);
    } else {
        assert(v.contents.remove(key) =~= v.contents);
    }
}

} // verus!
