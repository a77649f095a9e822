//! The sharded key-value store.
use ahash::AHasher;
use bytes::Bytes;
use dashmap::DashMap;
use std::sync::Arc;
use vstd::prelude::*;

use crate::chance::{random_below, random_u32};
use crate::clock::{get_timestamp, get_uptime_seconds, uptime};
use crate::digest::{digest, key_digest, process_hasher};
use crate::entry::{Entry, EntryValue, EntryView, Record};
use crate::fields::{
    copy_fields, fields_of, flatten, get_field, lists_flat, merged, no_fields, pairs_of,
    set_fields,
};
use crate::limits::MemoryLimits;
use crate::model::{lemma_wrapped_twice, text_record, wrapped, StoreView};
use crate::octets::{octets, octets_all, octets_opt, slice_of};
use crate::shard_map::{
    clear_entries, count_entries, entries_of, entry_opt, get_entry, has_no_entries, list_entries,
    listing_of, new_shard, nth_entry, overwrite_entry, put_entry, take_entry,
};
use crate::size::{calculate_entry_size, clamped, entry_size, live_weight, record_size};
use crate::sums::{
    lemma_listing_sum, lemma_map_sum_empty, lemma_map_sum_union, lemma_seq_sum_take, lists,
    map_sum, seq_sum,
};

verus! {

/// How many entries a new shard has room for.
const SHARD_CAPACITY: usize = 1000;

/// What is answered where a key holds a byte string and a hash is asked for.
pub const WRONG_TYPE: &'static str =
    "WRONGTYPE Operation against a key holding the wrong kind of value";

/// `n`, held at the largest 64-bit number.
spec fn capped(n: nat) -> nat {
    if n <= u64::MAX {
        n
    } else {
        u64::MAX as nat
    }
}

/// A key-value store, split into shards by the digest of the keys.
pub struct ShardedStore {
    shards: Vec<DashMap<Bytes, Entry>>,
    num_shards: usize,
    seed: AHasher,
    start_time: u64,
    limits: MemoryLimits,
    memory_used: u64,
    evicted_keys: u64,
}

/// The records of a map of entries.
pub open spec fn records(entries: Map<Seq<u8>, EntryView>) -> Map<Seq<u8>, Record> {
    entries.map_values(|entry: EntryView| entry.record)
}

/// The access times of a map of entries.
pub open spec fn times(entries: Map<Seq<u8>, EntryView>) -> Map<Seq<u8>, u32> {
    entries.map_values(|entry: EntryView| entry.last_accessed)
}

/// The keys and records of a list of entries.
pub open spec fn record_listing(list: Seq<(Bytes, Entry)>) -> Seq<(Seq<u8>, Record)> {
    Seq::new(list.len(), |i: int| (octets(list[i].0), list[i].1@.record))
}

/// An access is recorded, for a number drawn at random: one time out of ten.
pub open spec fn recorded(roll: u32) -> bool {
    roll % 10 == 0
}

/// Whether an access is recorded, for a number drawn at random.
pub fn records_access(roll: u32) -> (records: bool)
    ensures
        records == recorded(roll),
{
    roll % 10 == 0
}

/// When a new entry counts as last accessed: at the start, where no time is recorded.
pub open spec fn time_or_start(accessed: Option<u32>) -> u32 {
    match accessed {
        Some(time) => time,
        None => 0,
    }
}

/// When a new entry counts as last accessed.
fn creation_time(accessed: Option<u32>) -> (time: u32)
    ensures
        time == time_or_start(accessed),
{
    match accessed {
        Some(time) => time,
        None => 0,
    }
}

/// When an access takes place that is to be recorded, for a number drawn at random: in seconds since
/// `start_time`. The clock decides how many.
pub fn access_time(roll: u32, start_time: u64) -> (time: Option<u32>)
    ensures
        time is Some <==> recorded(roll),
        time is Some ==> exists|now: u64| time.unwrap() == #[trigger] uptime(now, start_time),
{
    if records_access(roll) {
        Some(get_uptime_seconds(start_time))
    } else {
        None
    }
}

/// Replacing one entry replaces one record and one access time.
proof fn lemma_records(entries: Map<Seq<u8>, EntryView>, key: Seq<u8>, entry: EntryView)
    ensures
        records(entries.insert(key, entry)) == records(entries).insert(key, entry.record),
        times(entries.insert(key, entry)) == times(entries).insert(key, entry.last_accessed),
        records(entries.remove(key)) == records(entries).remove(key),
        times(entries.remove(key)) == times(entries).remove(key),
        entries.contains_key(key) && entries[key].record == entry.record ==> records(
            entries.insert(key, entry),
        ) == records(entries),
        entries.contains_key(key) && entries[key].last_accessed == entry.last_accessed ==> times(
            entries.insert(key, entry),
        ) == times(entries),
{
    assert(records(entries.insert(key, entry)) =~= records(entries).insert(key, entry.record));
    assert(times(entries.insert(key, entry)) =~= times(entries).insert(key, entry.last_accessed));
    assert(records(entries.remove(key)) =~= records(entries).remove(key));
    assert(times(entries.remove(key)) =~= times(entries).remove(key));
    if entries.contains_key(key) && entries[key].record == entry.record {
        assert(records(entries.insert(key, entry)) =~= records(entries));
    }
    if entries.contains_key(key) && entries[key].last_accessed == entry.last_accessed {
        assert(times(entries.insert(key, entry)) =~= times(entries));
    }
}

impl View for ShardedStore {
    type V = StoreView;

    closed spec fn view(&self) -> StoreView {
        StoreView {
            contents: records(self.entries()),
            access_times: times(self.entries()),
            memory_used: self.memory_used,
            evicted_keys: self.evicted_keys,
            limits: self.limits,
            num_shards: self.num_shards as nat,
            seed: self.seed,
            start_time: self.start_time,
        }
    }
}

impl ShardedStore {
    spec fn shard(self, i: int) -> Map<Seq<u8>, EntryView> {
        entries_of(self.shards@[i])
    }

    spec fn home(self, key: Seq<u8>) -> int {
        (key_digest(self.seed, key) as usize) as int % self.num_shards as int
    }

    /// The entries of all shards, with their access times.
    spec fn entries(self) -> Map<Seq<u8>, EntryView> {
        Map::new(
            |key: Seq<u8>| self.num_shards > 0 && self.shard(self.home(key)).contains_key(key),
            |key: Seq<u8>| self.shard(self.home(key))[key],
        )
    }

    /// Every key is kept in the shard that its digest names.
    pub closed spec fn wf(self) -> bool {
        &&& self.shards@.len() == self.num_shards
        &&& forall|i: int|
            0 <= i < self.num_shards ==> (#[trigger] self.shard(i)).dom().finite()
        &&& forall|i: int, key: Seq<u8>|
            0 <= i < self.num_shards && #[trigger] self.shard(i).contains_key(key) ==> self.home(key)
                == i
    }

    /// Only the entries may differ.
    spec fn same_frame(self, other: ShardedStore) -> bool {
        &&& self.num_shards == other.num_shards
        &&& self.seed == other.seed
        &&& self.start_time == other.start_time
        &&& self.limits == other.limits
        &&& self.memory_used == other.memory_used
        &&& self.evicted_keys == other.evicted_keys
    }

    /// The effect on the whole of changing one key in its shard.
    proof fn lemma_one_shard(self, before: ShardedStore, key: Seq<u8>)
        requires
            before.wf(),
            before.num_shards > 0,
            self.same_frame(before),
            self.shards@.len() == self.num_shards,
            forall|i: int| 0 <= i < self.num_shards && i != self.home(key) ==> self.shard(i)
                == #[trigger] before.shard(i),
            self.shard(self.home(key)).dom().finite(),
            forall|k: Seq<u8>| k != key ==> (#[trigger] self.shard(self.home(key)).contains_key(k)
                == before.shard(self.home(key)).contains_key(k)),
            forall|k: Seq<u8>| k != key && #[trigger] self.shard(self.home(key)).contains_key(k)
                ==> self.shard(self.home(key))[k] == before.shard(self.home(key))[k],
        ensures
            self.wf(),
            self.shard(self.home(key)).contains_key(key) ==> self.entries()
                == before.entries().insert(key, self.shard(self.home(key))[key]),
            !self.shard(self.home(key)).contains_key(key) ==> self.entries()
                == before.entries().remove(key),
    {
        let h = self.home(key);
        assert(0 <= h < self.num_shards);
        assert forall|i: int, k: Seq<u8>|
            0 <= i < self.num_shards && #[trigger] self.shard(i).contains_key(k) implies self.home(k)
            == i by {
            if k != key || i != h {
                assert(before.shard(i).contains_key(k));
            }
        }
        assert forall|i: int| 0 <= i < self.num_shards implies (#[trigger] self.shard(
            i,
        )).dom().finite() by {
            if i != h {
                assert(before.shard(i).dom().finite());
            }
        }
        assert forall|k: Seq<u8>| k != key implies {
            &&& #[trigger] self.entries().contains_key(k) == before.entries().contains_key(k)
            &&& self.entries().contains_key(k) ==> self.entries()[k] == before.entries()[k]
        } by {
            assert(self.home(k) == before.home(k));
            let i = self.home(k);
            if i != h {
                assert(self.shard(i) == before.shard(i));
            } else {
                assert(self.shard(h).contains_key(k) == before.shard(h).contains_key(k));
            }
        }
        if self.shard(h).contains_key(key) {
            assert(self.entries() =~= before.entries().insert(key, self.shard(h)[key]));
        } else {
            assert(self.entries() =~= before.entries().remove(key));
        }
    }

    /// Every key that holds a record has an access time, and no other key has.
    pub proof fn law_access_times_go_with_records(self)
        requires
            self.wf(),
        ensures
            self@.access_times.dom() == self@.contents.dom(),
    {
        assert(self@.access_times.dom() =~= self@.contents.dom());
    }

    /// The shard that keeps the key.
    pub fn hash(&self, key: &[u8]) -> (shard: usize)
        requires
            self.wf(),
            self@.num_shards > 0,
        ensures
            shard == self@.place(key@),
            shard < self@.num_shards,
    {
        digest(&self.seed, key) as usize % self.num_shards
    }

    /// The entry under a key.
    fn lookup(&self, key: &[u8]) -> (found: Option<Entry>)
        requires
            self.wf(),
            self.num_shards > 0,
        ensures
            entry_opt(found) == self.entries().get(key@),
    {
        let i = self.hash(key);
        get_entry(&self.shards[i], key)
    }

    /// Puts an entry under a key.
    fn insert(&mut self, key: Bytes, entry: Entry) -> (before: Option<Entry>)
        requires
            old(self).wf(),
            old(self).num_shards > 0,
        ensures
            final(self).wf(),
            final(self).same_frame(*old(self)),
            final(self).entries() == old(self).entries().insert(octets(key), entry@),
            entry_opt(before) == old(self).entries().get(octets(key)),
    {
        let i = self.hash(slice_of(&key));
        let ghost k = octets(key);
        let ghost e = entry@;
        let before = put_entry(&mut self.shards[i], key, entry);
        proof {
            assert(self.shard(i as int) == old(self).shard(i as int).insert(k, e));
            self.lemma_one_shard(*old(self), k);
        }
        before
    }

    /// Takes out the entry under a key.
    fn remove(&mut self, key: &[u8]) -> (taken: Option<Entry>)
        requires
            old(self).wf(),
            old(self).num_shards > 0,
        ensures
            final(self).wf(),
            final(self).same_frame(*old(self)),
            final(self).entries() == old(self).entries().remove(key@),
            entry_opt(taken) == old(self).entries().get(key@),
    {
        let i = self.hash(key);
        let taken = take_entry(&mut self.shards[i], key);
        proof {
            assert(self.shard(i as int) == old(self).shard(i as int).remove(key@));
            self.lemma_one_shard(*old(self), key@);
        }
        taken
    }

    /// Overwrites the entry under a key.
    fn overwrite(&mut self, key: &[u8], entry: Entry)
        requires
            old(self).wf(),
            old(self).num_shards > 0,
            old(self).entries().contains_key(key@),
        ensures
            final(self).wf(),
            final(self).same_frame(*old(self)),
            final(self).entries() == old(self).entries().insert(key@, entry@),
    {
        let i = self.hash(key);
        let ghost e = entry@;
        let _found = overwrite_entry(&mut self.shards[i], key, entry);
        proof {
            assert(self.shard(i as int) == old(self).shard(i as int).insert(key@, e));
            self.lemma_one_shard(*old(self), key@);
        }
    }

    /// A store of `num_shards` empty shards, without a memory limit.
    pub fn new(num_shards: usize) -> (store: ShardedStore)
        ensures
            store.wf(),
            store@.starts(num_shards as nat, MemoryLimits::none()),
    {
        ShardedStore::with_limits(num_shards, MemoryLimits::unlimited())
    }

    /// A store of `num_shards` empty shards, with memory limits.
    pub fn with_limits(num_shards: usize, limits: MemoryLimits) -> (store: ShardedStore)
        ensures
            store.wf(),
            store@.starts(num_shards as nat, limits),
    {
        let mut shards: Vec<DashMap<Bytes, Entry>> = Vec::new();
        let mut i: usize = 0;
        while i < num_shards
            invariant
                i <= num_shards,
                shards@.len() == i,
                forall|j: int|
                    0 <= j < i ==> entries_of(#[trigger] shards@[j]) == Map::<
                        Seq<u8>,
                        EntryView,
                    >::empty(),
            decreases num_shards - i,
        {
            shards.push(new_shard(SHARD_CAPACITY));
            i += 1;
        }
        let store = ShardedStore {
            shards,
            num_shards,
            seed: process_hasher(),
            start_time: get_timestamp(),
            limits,
            memory_used: 0,
            evicted_keys: 0,
        };
        proof {
            assert forall|j: int| 0 <= j < num_shards implies #[trigger] store.shard(j) == Map::<
                Seq<u8>,
                EntryView,
            >::empty() by {
                assert(entries_of(store.shards@[j]) == Map::<Seq<u8>, EntryView>::empty());
            }
            assert(store.entries() =~= Map::<Seq<u8>, EntryView>::empty());
            assert(store@.contents =~= Map::<Seq<u8>, Record>::empty());
            assert(store@.access_times =~= Map::<Seq<u8>, u32>::empty());
        }
        store
    }

    /// The memory that the entries count for; kept up to date while there is a limit.
    pub fn memory_used(&self) -> (used: u64)
        ensures
            used == self@.memory_used,
    {
        self.memory_used
    }

    /// How many keys have been evicted.
    pub fn evicted_keys(&self) -> (count: u64)
        ensures
            count == self@.evicted_keys,
    {
        self.evicted_keys
    }

    /// The memory limits.
    pub fn limits(&self) -> (limits: MemoryLimits)
        ensures
            limits == self@.limits,
    {
        self.limits
    }

    /// Moves the memory counter down, where memory is accounted for.
    pub(crate) fn release(&mut self, size: usize)
        requires
            old(self).wf(),
        ensures
            final(self).wf(),
            final(self)@ == old(self)@.adjusted(-size),
    {
        if self.limits.max_memory > 0 {
            self.memory_used = self.memory_used.wrapping_sub(size as u64);
        }
        proof {
            assert(self.shards == old(self).shards);
            assert(forall|i: int| self.shard(i) == old(self).shard(i));
            assert(self.entries() =~= old(self).entries());
        }
    }

    /// Moves the memory counter up, where memory is accounted for.
    pub(crate) fn charge(&mut self, size: usize)
        requires
            old(self).wf(),
        ensures
            final(self).wf(),
            final(self)@ == old(self)@.adjusted(size as int),
    {
        if self.limits.max_memory > 0 {
            self.memory_used = self.memory_used.wrapping_add(size as u64);
        }
        proof {
            assert(self.shards == old(self).shards);
            assert(forall|i: int| self.shard(i) == old(self).shard(i));
            assert(self.entries() =~= old(self).entries());
        }
    }

    /// Removes a key and releases its memory. Returns what it counted for.
    pub(crate) fn drop_key(&mut self, key: &[u8]) -> (size: Option<usize>)
        requires
            old(self).wf(),
            old(self)@.num_shards > 0,
        ensures
            final(self).wf(),
            final(self)@ == old(self)@.dropped(key@),
            size is Some <==> old(self)@.has(key@),
            size is Some ==> size.unwrap() == old(self)@.size_of(key@),
    {
        let ghost gone = arbitrary::<EntryView>();
        proof {
            lemma_records(self.entries(), key@, gone);
            assert(wrapped(self.memory_used as int) == self.memory_used);
        }
        match self.remove(key) {
            Some(entry) => {
                let size = calculate_entry_size(key.len(), &entry.value);
                self.release(size);
                assert(self@ =~= old(self)@.dropped(key@));
                Some(size)
            },
            None => {
                assert(self@ =~= old(self)@.dropped(key@));
                None
            },
        }
    }

    /// The time of an access that is to be recorded, one time out of ten. Chance and the clock
    /// decide; see [`access_time`].
    fn sample_access(&self) -> (time: Option<u32>)
        ensures
            time is Some ==> exists|now: u64| time.unwrap() == #[trigger] uptime(
                now,
                self.start_time,
            ),
    {
        access_time(random_u32(), self.start_time)
    }

    /// Records an access to a key at a time, where there is one.
    fn touch(&mut self, key: &[u8], entry: &Entry, accessed: Option<u32>)
        requires
            old(self).wf(),
            old(self)@.num_shards > 0,
            old(self).entries().contains_key(key@),
            old(self).entries()[key@] == entry@,
        ensures
            final(self).wf(),
            final(self)@ == (match accessed {
                Some(time) => (StoreView {
                    access_times: old(self)@.access_times.insert(key@, time),
                    ..old(self)@
                }),
                None => old(self)@,
            }),
    {
        match accessed {
            Some(time) => {
                let mut changed = entry.clone();
                changed.last_accessed = time;
                proof {
                    lemma_records(self.entries(), key@, changed@);
                }
                self.overwrite(key, changed);
                assert(self@ =~= (StoreView {
                    access_times: old(self)@.access_times.insert(key@, time),
                    ..old(self)@
                }));
            },
            None => {},
        }
    }

    /// Stores a byte string that counts as last accessed at a time, or at the start where there is
    /// none, with an optional time to live in seconds. Returns what the entry that was there before
    /// counted for. The memory counter is left to the caller.
    pub fn set_accessed(
        &mut self,
        key: Bytes,
        value: Bytes,
        ttl: Option<u64>,
        now: u64,
        accessed: Option<u32>,
    ) -> (old_size: Option<usize>)
        requires
            old(self).wf(),
            old(self)@.num_shards > 0,
        ensures
            final(self).wf(),
            final(self)@ == old(self)@.put(
                octets(key),
                text_record(octets(value), ttl, now),
                time_or_start(accessed),
            ),
            old_size is Some <==> old(self)@.has(octets(key)),
            old_size is Some ==> old_size.unwrap() == old(self)@.size_of(octets(key)),
    {
        let expiry = match ttl {
            Some(seconds) => Some(now.saturating_add(seconds)),
            None => None,
        };
        let key_len = key.len();
        let last_accessed: u32 = creation_time(accessed);
        let entry = Entry { value: EntryValue::String(value), expiry, last_accessed };
        proof {
            lemma_records(self.entries(), octets(key), entry@);
        }
        match self.insert(key, entry) {
            Some(before) => Some(calculate_entry_size(key_len, &before.value)),
            None => None,
        }
    }

    /// Stores a byte string, with an optional time to live in seconds. Returns what the entry
    /// that was there before counted for. The memory counter is left to the caller. Chance and the
    /// clock decide when the key counts as last accessed; see [`ShardedStore::set_accessed`].
    pub fn set(&mut self, key: Bytes, value: Bytes, ttl: Option<u64>, now: u64) -> (old_size:
        Option<usize>)
        requires
            old(self).wf(),
            old(self)@.num_shards > 0,
        ensures
            final(self).wf(),
            exists|time: u32| final(self)@ == #[trigger] old(self)@.put(
                octets(key),
                text_record(octets(value), ttl, now),
                time,
            ),
            old_size is Some <==> old(self)@.has(octets(key)),
            old_size is Some ==> old_size.unwrap() == old(self)@.size_of(octets(key)),
    {
        let accessed = self.sample_access();
        self.set_accessed(key, value, ttl, now, accessed)
    }

    /// What the entry under a live key counts for.
    pub fn get_existing_size(&self, key: &[u8], now: u64) -> (size: Option<usize>)
        requires
            self.wf(),
            self@.num_shards > 0,
        ensures
            size is Some <==> self@.live(key@, now),
            size is Some ==> size.unwrap() == self@.size_of(key@),
    {
        match self.lookup(key) {
            Some(entry) => {
                if entry.is_expired(now) {
                    None
                } else {
                    Some(calculate_entry_size(key.len(), &entry.value))
                }
            },
            None => None,
        }
    }

    /// The byte string under a live key; none where the key holds a hash. An expired key is
    /// removed. The access is recorded at a time, where there is one.
    pub fn get_accessed(&mut self, key: &[u8], now: u64, accessed: Option<u32>) -> (value: Option<
        Bytes,
    >)
        requires
            old(self).wf(),
            old(self)@.num_shards > 0,
        ensures
            final(self).wf(),
            final(self)@ == old(self)@.visited(key@, now, accessed),
            octets_opt(value) == old(self)@.text(key@, now),
    {
        match self.access(key, now, accessed) {
            Some(entry) => match entry.value {
                EntryValue::String(text) => Some(text),
                EntryValue::Hash(_) => None,
            },
            None => None,
        }
    }

    /// The byte string under a live key; none where the key holds a hash. An expired key is
    /// removed. Chance and the clock decide whether the access is recorded, and when it took place;
    /// see [`ShardedStore::get_accessed`].
    pub fn get(&mut self, key: &[u8], now: u64) -> (value: Option<Bytes>)
        requires
            old(self).wf(),
            old(self)@.num_shards > 0,
        ensures
            final(self).wf(),
            old(self)@.visits(key@, now, final(self)@),
            octets_opt(value) == old(self)@.text(key@, now),
    {
        let accessed = self.sample_access();
        self.get_accessed(key, now, accessed)
    }

    /// The entry under a live key. An expired key is removed. The access is recorded at a time,
    /// where there is one.
    fn access(&mut self, key: &[u8], now: u64, accessed: Option<u32>) -> (found: Option<Entry>)
        requires
            old(self).wf(),
            old(self)@.num_shards > 0,
        ensures
            final(self).wf(),
            final(self)@ == old(self)@.visited(key@, now, accessed),
            found is Some <==> old(self)@.live(key@, now),
            found is Some ==> found.unwrap()@.record == old(self)@.contents[key@],
    {
        match self.lookup(key) {
            Some(entry) => {
                if entry.is_expired(now) {
                    let _size = self.drop_key(key);
                    None
                } else {
                    self.touch(key, &entry, accessed);
                    Some(entry)
                }
            },
            None => None,
        }
    }

    /// Removes keys and releases their memory. Returns how many of them were live.
    pub fn delete(&mut self, keys: &[Bytes], now: u64) -> (count: usize)
        requires
            old(self).wf(),
            old(self)@.num_shards > 0,
        ensures
            final(self).wf(),
            final(self)@ == old(self)@.dropped_all(octets_all(keys@)),
            count == old(self)@.live_among(octets_all(keys@), now).len(),
    {
        let ghost all = octets_all(keys@);
        let ghost v0 = self@;
        let mut count: usize = 0;
        let mut i: usize = 0;
        proof {
            assert(all.take(0) =~= Seq::empty());
            assert(v0.live_among(all.take(0), now) =~= Set::empty());
        }
        while i < keys.len()
            invariant
                i <= keys@.len(),
                all == octets_all(keys@),
                self.wf(),
                self@.num_shards > 0,
                self@ == v0.dropped_all(all.take(i as int)),
                self@.contents == v0.contents.remove_keys(all.take(i as int).to_set()),
                count == v0.live_among(all.take(i as int), now).len(),
                v0.live_among(all.take(i as int), now).finite(),
                count <= i,
            decreases keys@.len() - i,
        {
            let key = slice_of(&keys[i]);
            let ghost (part, more) = (all.take(i as int), all.take(i + 1));
            proof {
                assert(more.drop_last() =~= part);
                assert(more.last() == key@);
                assert(more[i as int] == key@);
                assert forall|k: Seq<u8>| more.contains(k) == (part.contains(k) || k == key@) by {
                    if more.contains(k) {
                        let j = choose|j: int| 0 <= j < more.len() && more[j] == k;
                        if j < i {
                            assert(part[j] == k);
                        }
                    }
                    if part.contains(k) {
                        let j = choose|j: int| 0 <= j < part.len() && part[j] == k;
                        assert(more[j] == k);
                    }
                }
                assert(more.to_set() =~= part.to_set().insert(key@));
                assert(self@.contents.remove(key@) =~= v0.contents.remove_keys(more.to_set()));
            }
            let found = self.lookup(key);
            let ghost before = self@;
            let _size = self.drop_key(key);
            let counted = match found {
                Some(entry) => !entry.is_expired(now),
                None => false,
            };
            proof {
                assert(self@.contents == before.contents.remove(key@));
                assert(counted == before.live(key@, now));
                if counted {
                    assert(!part.to_set().contains(key@));
                    assert(v0.live_among(more, now) =~= v0.live_among(part, now).insert(key@));
                } else {
                    assert(v0.live_among(more, now) =~= v0.live_among(part, now));
                }
            }
            if counted {
                count += 1;
            }
            i += 1;
        }
        proof {
            assert(all.take(keys@.len() as int) =~= all);
        }
        count
    }

    /// How many of the keys are live; a key that occurs twice counts twice.
    pub fn count_existing(&self, keys: &[Bytes], now: u64) -> (count: usize)
        requires
            self.wf(),
            self@.num_shards > 0,
        ensures
            count == octets_all(keys@).filter(|key: Seq<u8>| self@.live(key, now)).len(),
    {
        let ghost all = octets_all(keys@);
        let ghost is_live = |key: Seq<u8>| self@.live(key, now);
        let mut count: usize = 0;
        let mut i: usize = 0;
        proof {
            reveal(Seq::filter);
            assert(all.take(0) =~= Seq::empty());
        }
        while i < keys.len()
            invariant
                i <= keys@.len(),
                self.wf(),
                self@.num_shards > 0,
                all == octets_all(keys@),
                is_live == (|key: Seq<u8>| self@.live(key, now)),
                count == all.take(i as int).filter(is_live).len(),
                count <= i,
            decreases keys@.len() - i,
        {
            let key = slice_of(&keys[i]);
            proof {
                reveal(Seq::filter);
                let more = all.take(i + 1);
                assert(more.drop_last() =~= all.take(i as int));
                assert(more.last() == key@);
            }
            if let Some(entry) = self.lookup(key) {
                if !entry.is_expired(now) {
                    count += 1;
                }
            }
            i += 1;
        }
        proof {
            assert(all.take(keys@.len() as int) =~= all);
        }
        count
    }

    /// What one shard holds is what the store holds under the keys placed there.
    proof fn lemma_shard_records(self, i: int)
        requires
            self.wf(),
            0 <= i < self.num_shards,
        ensures
            self@.shard_records(i) == records(self.shard(i)),
            self@.shard_records(i).dom().finite(),
    {
        assert forall|k: Seq<u8>|
            #[trigger] self@.shard_records(i).contains_key(k) == records(self.shard(i)).contains_key(
                k,
            ) by {
            assert(self@.place(k) == self.home(k));
            if self.shard(i).contains_key(k) {
                assert(self.home(k) == i);
            }
        }
        assert forall|k: Seq<u8>| #[trigger]
            self@.shard_records(i).contains_key(k) implies self@.shard_records(i)[k] == records(
            self.shard(i),
        )[k] by {
            assert(self@.place(k) == self.home(k));
        }
        assert(self@.shard_records(i) =~= records(self.shard(i)));
        assert(records(self.shard(i)).dom() =~= self.shard(i).dom());
        assert(self.shard(i).dom().finite());
    }

    /// The records before a shard and those in it are the records before the next one.
    proof fn lemma_records_before(self, i: int)
        requires
            self.wf(),
            0 <= i <= self.num_shards,
        ensures
            self@.records_before(i).dom().finite(),
            i == self.num_shards ==> self@.records_before(i) == self@.contents,
            i == 0 ==> self@.records_before(i).dom() == Set::<Seq<u8>>::empty(),
            i > 0 ==> {
                &&& self@.records_before(i - 1).dom().finite()
                &&& self@.records_before(i - 1).dom().disjoint(
                    self@.shard_records(i - 1).dom(),
                )
                &&& self@.records_before(i) == self@.records_before(i - 1).union_prefer_right(
                    self@.shard_records(i - 1),
                )
            },
        decreases i,
    {
        let v = self@;
        assert forall|k: Seq<u8>| #[trigger] v.contents.contains_key(k) implies 0 <= v.place(k)
            < self.num_shards by {
            assert(self.num_shards > 0);
        }
        if i == 0 {
            assert(v.records_before(0).dom() =~= Set::<Seq<u8>>::empty());
        } else {
            self.lemma_records_before(i - 1);
            self.lemma_shard_records(i - 1);
            let joined = v.records_before(i - 1).union_prefer_right(v.shard_records(i - 1));
            assert(v.records_before(i) =~= joined);
            assert(joined.dom() =~= v.records_before(i - 1).dom().union(
                v.shard_records(i - 1).dom(),
            ));
        }
        if i == self.num_shards {
            assert(v.records_before(i) =~= v.contents);
        }
    }

    /// A store holds finitely many keys.
    pub proof fn law_keys_are_finite(self)
        requires
            self.wf(),
        ensures
            self@.contents.dom().finite(),
    {
        self.lemma_records_before(self.num_shards as int);
    }

    /// Every key that is there is placed in a shard.
    pub(crate) proof fn lemma_placed(self, key: Seq<u8>)
        requires
            self.wf(),
            self@.has(key),
        ensures
            0 <= self@.place(key) < self@.num_shards,
    {
    }

    /// A shard holds finitely many keys.
    pub(crate) proof fn lemma_shard_finite(self, i: int)
        requires
            self.wf(),
            0 <= i < self@.num_shards,
        ensures
            self@.shard_records(i).dom().finite(),
    {
        self.lemma_shard_records(i);
    }

    /// How many shards there are.
    pub fn shard_count(&self) -> (count: usize)
        ensures
            count == self@.num_shards,
    {
        self.num_shards
    }

    /// The keys and records of a shard, in some order.
    pub(crate) fn list_shard(&self, i: usize) -> (list: Vec<(Bytes, Entry)>)
        requires
            self.wf(),
            i < self@.num_shards,
        ensures
            lists(record_listing(list@), self@.shard_records(i as int)),
    {
        let list = list_entries(&self.shards[i]);
        proof {
            self.lemma_shard_records(i as int);
            let (full, short) = (listing_of(list@), record_listing(list@));
            let m = self.shard(i as int);
            assert forall|j: int| 0 <= j < short.len() implies records(m).contains_key(
                #[trigger] short[j].0,
            ) && records(m)[short[j].0] == short[j].1 by {
                assert(full[j].0 == short[j].0);
            }
            assert forall|j: int, l: int| 0 <= j < l < short.len() implies (#[trigger] short[j]).0 != (
            #[trigger] short[l]).0 by {
                assert(full[j].0 != full[l].0);
            }
            assert forall|k: Seq<u8>| #[trigger] records(m).contains_key(k) implies exists|j: int|
                0 <= j < short.len() && (#[trigger] short[j]).0 == k by {
                assert(m.contains_key(k));
                let j = choose|j: int| 0 <= j < full.len() && (#[trigger] full[j]).0 == k;
                assert(short[j].0 == k);
            }
        }
        list
    }

    /// All live keys, each once, in some order.
    pub fn keys(&self, now: u64) -> (result: Vec<Bytes>)
        requires
            self.wf(),
        ensures
            octets_all(result@).no_duplicates(),
            octets_all(result@).to_set() == self@.contents.dom().filter(
                |key: Seq<u8>| self@.live(key, now),
            ),
    {
        let mut result: Vec<Bytes> = Vec::new();
        let mut i: usize = 0;
        while i < self.num_shards
            invariant
                self.wf(),
                i <= self.num_shards,
                octets_all(result@).no_duplicates(),
                forall|k: Seq<u8>| #[trigger]
                    octets_all(result@).contains(k) <==> self@.live(k, now) && self@.place(k) < i,
            decreases self.num_shards - i,
        {
            let list = self.list_shard(i);
            let ghost listing = record_listing(list@);
            let mut j: usize = 0;
            while j < list.len()
                invariant
                    self.wf(),
                    i < self.num_shards,
                    listing == record_listing(list@),
                    lists(listing, self@.shard_records(i as int)),
                    j <= list.len(),
                    octets_all(result@).no_duplicates(),
                    forall|k: Seq<u8>| #[trigger]
                        octets_all(result@).contains(k) <==> self@.live(k, now) && (self@.place(k) < i
                            || exists|l: int| 0 <= l < j && (#[trigger] listing[l]).0 == k),
                decreases list.len() - j,
            {
                let (key, entry) = &list[j];
                let ghost k = octets(*key);
                let ghost before = octets_all(result@);
                proof {
                    assert(listing[j as int].0 == k);
                    assert(self@.shard_records(i as int).contains_key(k));
                    assert(self@.place(k) == i);
                    assert(self@.contents[k] == entry@.record);
                }
                if !entry.is_expired(now) {
                    result.push(key.clone());
                    proof {
                        let after = octets_all(result@);
                        assert(after =~= before.push(k));
                        assert(!before.contains(k)) by {
                            if exists|l: int| 0 <= l < j && (#[trigger] listing[l]).0 == k {
                                let l = choose|l: int| 0 <= l < j && (#[trigger] listing[l]).0 == k;
                                assert(listing[l].0 != listing[j as int].0);
                            }
                        }
                        assert(after[after.len() - 1] == k);
                        assert forall|x: Seq<u8>| #[trigger] after.contains(x) == (before.contains(x)
                            || x == k) by {
                            if before.contains(x) {
                                let n = choose|n: int| 0 <= n < before.len() && before[n] == x;
                                assert(after[n] == x);
                            }
                        }
                    }
                }
                proof {
                    assert forall|x: Seq<u8>| #[trigger]
                        octets_all(result@).contains(x) <==> self@.live(x, now) && (self@.place(x) < i
                            || exists|l: int| 0 <= l < j + 1 && (#[trigger] listing[l]).0 == x) by {
                        if exists|l: int| 0 <= l < j + 1 && (#[trigger] listing[l]).0 == x {
                            let l = choose|l: int| 0 <= l < j + 1 && (#[trigger] listing[l]).0 == x;
                            if l < j {
                                assert(exists|m: int| 0 <= m < j && (#[trigger] listing[m]).0 == x);
                            }
                        }
                    }
                }
                j += 1;
            }
            proof {
                assert forall|x: Seq<u8>| #[trigger]
                    octets_all(result@).contains(x) <==> self@.live(x, now) && self@.place(x) < i
                        + 1 by {
                    if self@.live(x, now) && self@.place(x) == i {
                        assert(self@.shard_records(i as int).contains_key(x));
                        let l = choose|l: int| 0 <= l < listing.len() && (#[trigger] listing[l]).0 == x;
                        assert(listing[l].0 == x);
                    }
                    if exists|l: int| 0 <= l < listing.len() && (#[trigger] listing[l]).0 == x {
                        let l = choose|l: int| 0 <= l < listing.len() && (#[trigger] listing[l]).0 == x;
                        assert(self@.shard_records(i as int).contains_key(listing[l].0));
                    }
                }
            }
            i += 1;
        }
        proof {
            assert forall|k: Seq<u8>| self@.live(k, now) implies self@.place(k) < self.num_shards by {
                assert(self.num_shards > 0);
            }
            assert(octets_all(result@).to_set() =~= self@.contents.dom().filter(
                |key: Seq<u8>| self@.live(key, now),
            ));
        }
        result
    }

    /// How many keys there are, the expired ones that were not removed yet included.
    pub fn len(&self) -> (count: usize)
        requires
            self.wf(),
        ensures
            count == clamped(self@.contents.dom().len()),
    {
        let mut count: usize = 0;
        let mut i: usize = 0;
        proof {
            self.lemma_records_before(0);
        }
        while i < self.num_shards
            invariant
                self.wf(),
                i <= self.num_shards,
                count == clamped(self@.records_before(i as int).dom().len()),
            decreases self.num_shards - i,
        {
            proof {
                self.lemma_records_before(i + 1);
                self.lemma_shard_records(i as int);
                let (a, b) = (self@.records_before(i as int).dom(), self@.shard_records(
                    i as int,
                ).dom());
                assert(self@.records_before(i + 1).dom() =~= a.union(b));
                vstd::set_lib::lemma_set_disjoint_lens(a, b);
                assert(b =~= self.shard(i as int).dom());
            }
            count = count.saturating_add(count_entries(&self.shards[i]));
            i += 1;
        }
        proof {
            self.lemma_records_before(self.num_shards as int);
        }
        count
    }

    /// Whether there is no key at all.
    pub fn is_empty(&self) -> (empty: bool)
        requires
            self.wf(),
        ensures
            empty == self@.vacant(),
    {
        let mut i: usize = 0;
        while i < self.num_shards
            invariant
                self.wf(),
                i <= self.num_shards,
                forall|j: int|
                    0 <= j < i ==> (#[trigger] self.shard(j)).dom() =~= Set::<Seq<u8>>::empty(),
            decreases self.num_shards - i,
        {
            if !has_no_entries(&self.shards[i]) {
                proof {
                    let k = choose|k: Seq<u8>| self.shard(i as int).dom().contains(k);
                    assert(self.shard(i as int).contains_key(k));
                    assert(self.home(k) == i);
                    assert(self@.contents.contains_key(k));
                }
                return false;
            }
            assert(self.shard(i as int).dom() =~= Set::<Seq<u8>>::empty());
            i += 1;
        }
        proof {
            assert forall|k: Seq<u8>| !self@.contents.contains_key(k) by {
                if self@.contents.contains_key(k) {
                    assert(self.shard(self.home(k)).dom().contains(k));
                }
            }
            assert(self@.contents =~= Map::<Seq<u8>, Record>::empty());
        }
        true
    }

    /// Removes all keys. The memory counter is left to the caller.
    pub fn clear(&mut self)
        requires
            old(self).wf(),
        ensures
            final(self).wf(),
            final(self)@ == old(self)@.cleared(),
    {
        let mut i: usize = 0;
        while i < self.num_shards
            invariant
                i <= self.num_shards,
                self.same_frame(*old(self)),
                self.shards@.len() == self.num_shards,
                forall|j: int|
                    0 <= j < i ==> #[trigger] self.shard(j) == Map::<Seq<u8>, EntryView>::empty(),
            decreases self.num_shards - i,
        {
            let ghost before = *self;
            clear_entries(&mut self.shards[i]);
            proof {
                assert forall|j: int| 0 <= j < i + 1 implies #[trigger] self.shard(j) == Map::<
                    Seq<u8>,
                    EntryView,
                >::empty() by {
                    if j < i {
                        assert(self.shard(j) == before.shard(j));
                    }
                }
            }
            i += 1;
        }
        proof {
            assert(self.entries() =~= Map::<Seq<u8>, EntryView>::empty());
            assert(self@.contents =~= Map::<Seq<u8>, Record>::empty());
            assert(self@.access_times =~= Map::<Seq<u8>, u32>::empty());
        }
    }

    /// Taking off the counter what the old record counted for and adding what the new one counts for
    /// is one move of the counter.
    proof fn lemma_replaced(self, before: StoreView, key: Seq<u8>, record: Record, time: u32)
        requires
            self@.limits == before.limits,
            self@.num_shards == before.num_shards,
            self@.seed == before.seed,
            self@.evicted_keys == before.evicted_keys,
            self@.start_time == before.start_time,
            self@.contents == before.contents.insert(key, record),
            self@.access_times == before.access_times.insert(key, time),
            before.tracks_memory() ==> self@.memory_used == wrapped(
                wrapped(before.memory_used - before.size_of(key)) + record_size(key, record),
            ),
            !before.tracks_memory() ==> self@.memory_used == before.memory_used,
        ensures
            self@ == before.replaced(key, record, time),
    {
        lemma_wrapped_twice(before.memory_used - before.size_of(key), record_size(key, record) as int);
        assert(self@ =~= before.replaced(key, record, time));
    }

    /// The entry under a key.
    pub(crate) fn find(&self, key: &[u8]) -> (found: Option<Entry>)
        requires
            self.wf(),
            self@.num_shards > 0,
        ensures
            found is Some <==> self@.has(key@),
            found is Some ==> found.unwrap()@.record == self@.contents[key@],
    {
        self.lookup(key)
    }

    /// The entry under a live key. An expired key is removed.
    pub(crate) fn find_live(&mut self, key: &[u8], now: u64) -> (found: Option<Entry>)
        requires
            old(self).wf(),
            old(self)@.num_shards > 0,
        ensures
            final(self).wf(),
            final(self)@ == old(self)@.purged(key@, now),
            found is Some <==> old(self)@.live(key@, now),
            found is Some ==> found.unwrap()@.record == old(self)@.contents[key@],
    {
        self.access(key, now, None)
    }

    /// Lets the record of a key expire at another time, or not at all.
    pub(crate) fn set_expiry(&mut self, key: &[u8], expiry: Option<u64>)
        requires
            old(self).wf(),
            old(self)@.num_shards > 0,
            old(self)@.has(key@),
        ensures
            final(self).wf(),
            final(self)@ == old(self)@.with_expiry(key@, expiry),
    {
        if let Some(entry) = self.lookup(key) {
            let changed = Entry { value: entry.value, expiry, last_accessed: entry.last_accessed };
            proof {
                lemma_records(self.entries(), key@, changed@);
            }
            self.overwrite(key, changed);
            assert(self@ =~= old(self)@.with_expiry(key@, expiry));
        }
    }

    /// Stores a byte string and lets the memory counter follow.
    pub(crate) fn store_text(&mut self, key: Bytes, value: Bytes, ttl: Option<u64>, now: u64)
        requires
            old(self).wf(),
            old(self)@.num_shards > 0,
        ensures
            final(self).wf(),
            old(self)@.stores(octets(key), text_record(octets(value), ttl, now), final(self)@),
    {
        let size: usize = entry_size(key.len(), value.len());
        let ghost (k, record) = (octets(key), text_record(octets(value), ttl, now));
        let old_size = self.set(key, value, ttl, now);
        let ghost time = choose|time: u32| self@ == #[trigger] old(self)@.put(k, record, time);
        if let Some(before) = old_size {
            self.release(before);
        }
        self.charge(size);
        proof {
            assert(wrapped(old(self)@.memory_used as int) == old(self)@.memory_used);
            self.lemma_replaced(old(self)@, k, record, time);
        }
    }

    /// Stores an entry and lets the memory counter follow.
    pub(crate) fn store_entry(&mut self, key: Bytes, entry: Entry)
        requires
            old(self).wf(),
            old(self)@.num_shards > 0,
        ensures
            final(self).wf(),
            final(self)@ == old(self)@.replaced(octets(key), entry@.record, entry.last_accessed),
    {
        let key_len = key.len();
        let ghost (k, e) = (octets(key), entry@);
        let size: usize = calculate_entry_size(key_len, &entry.value);
        proof {
            lemma_records(self.entries(), k, e);
        }
        if let Some(before) = self.insert(key, entry) {
            let old_size = calculate_entry_size(key_len, &before.value);
            self.release(old_size);
        }
        self.charge(size);
        proof {
            assert(wrapped(old(self)@.memory_used as int) == old(self)@.memory_used);
            self.lemma_replaced(old(self)@, k, e.record, e.last_accessed);
        }
    }

    /// Sets fields of a hash, which is made where the key holds nothing that is live, and which
    /// counts as last accessed at a time, or at the start where there is none. Returns how many of
    /// the fields are new.
    pub fn hset_accessed(
        &mut self,
        key: Bytes,
        fields: &[(Bytes, Bytes)],
        now: u64,
        accessed: Option<u32>,
    ) -> (added: Result<usize, &'static str>)
        requires
            old(self).wf(),
            old(self)@.num_shards > 0,
        ensures
            final(self).wf(),
            added is Err <==> old(self)@.not_a_hash(octets(key), now),
            added matches Err(message) ==> {
                &&& message@ == WRONG_TYPE@
                &&& final(self)@ == old(self)@
            },
            added matches Ok(count) ==> {
                let base = old(self)@.hash_fields(octets(key), now);
                &&& count == merged(base, pairs_of(fields@)).dom().difference(base.dom()).len()
                &&& final(self)@ == old(self)@.with_fields(
                    octets(key),
                    pairs_of(fields@),
                    now,
                    time_or_start(accessed),
                )
            },
    {
        let ghost k = octets(key);
        let ghost base = self@.hash_fields(k, now);
        let mut hash = no_fields();
        let mut expiry: Option<u64> = None;
        if let Some(entry) = self.lookup(slice_of(&key)) {
            if !entry.is_expired(now) {
                match &entry.value {
                    EntryValue::Hash(present) => {
                        hash = copy_fields(present);
                        expiry = entry.expiry;
                    },
                    EntryValue::String(_) => {
                        return Err(WRONG_TYPE);
                    },
                }
            }
        }
        proof {
            assert(fields_of(hash) =~= base);
            assert(expiry == self@.live_expiry(k, now));
        }
        let count = set_fields(&mut hash, fields);
        let value = EntryValue::Hash(Arc::new(hash));
        self.store_entry(key, Entry { value, expiry, last_accessed: creation_time(accessed) });
        Ok(count)
    }

    /// Sets fields of a hash, which is made where the key holds nothing that is live. Returns
    /// how many of the fields are new. Chance and the clock decide when the key counts as last
    /// accessed; see [`ShardedStore::hset_accessed`].
    pub fn hset(&mut self, key: Bytes, fields: &[(Bytes, Bytes)], now: u64) -> (added: Result<
        usize,
        &'static str,
    >)
        requires
            old(self).wf(),
            old(self)@.num_shards > 0,
        ensures
            final(self).wf(),
            added is Err <==> old(self)@.not_a_hash(octets(key), now),
            added matches Err(message) ==> {
                &&& message@ == WRONG_TYPE@
                &&& final(self)@ == old(self)@
            },
            added matches Ok(count) ==> {
                let base = old(self)@.hash_fields(octets(key), now);
                &&& count == merged(base, pairs_of(fields@)).dom().difference(base.dom()).len()
                &&& exists|time: u32| final(self)@ == #[trigger] old(self)@.with_fields(
                    octets(key),
                    pairs_of(fields@),
                    now,
                    time,
                )
            },
    {
        let accessed = self.sample_access();
        self.hset_accessed(key, fields, now, accessed)
    }

    /// The value of a field of a hash. An expired key is removed. The access is recorded at a time,
    /// where there is one.
    pub fn hget_accessed(
        &mut self,
        key: &[u8],
        field: &[u8],
        now: u64,
        accessed: Option<u32>,
    ) -> (value: Result<Option<Bytes>, &'static str>)
        requires
            old(self).wf(),
            old(self)@.num_shards > 0,
        ensures
            final(self).wf(),
            final(self)@ == old(self)@.visited(key@, now, accessed),
            value is Err <==> old(self)@.not_a_hash(key@, now),
            value matches Err(message) ==> message@ == WRONG_TYPE@,
            value matches Ok(found) ==> octets_opt(found) == old(self)@.hash_fields(key@, now).get(
                field@,
            ),
    {
        match self.access(key, now, accessed) {
            Some(entry) => match &entry.value {
                EntryValue::Hash(hash) => Ok(get_field(hash, field)),
                EntryValue::String(_) => Err(WRONG_TYPE),
            },
            None => Ok(None),
        }
    }

    /// The value of a field of a hash. An expired key is removed. Chance and the clock decide
    /// whether the access is recorded, and when it took place; see
    /// [`ShardedStore::hget_accessed`].
    pub fn hget(&mut self, key: &[u8], field: &[u8], now: u64) -> (value: Result<
        Option<Bytes>,
        &'static str,
    >)
        requires
            old(self).wf(),
            old(self)@.num_shards > 0,
        ensures
            final(self).wf(),
            old(self)@.visits(key@, now, final(self)@),
            value is Err <==> old(self)@.not_a_hash(key@, now),
            value matches Err(message) ==> message@ == WRONG_TYPE@,
            value matches Ok(found) ==> octets_opt(found) == old(self)@.hash_fields(key@, now).get(
                field@,
            ),
    {
        let accessed = self.sample_access();
        self.hget_accessed(key, field, now, accessed)
    }

    /// The fields of a hash with their values, one after the other, in some order. An expired
    /// key is removed. The access is recorded at a time, where there is one.
    pub fn hgetall_accessed(&mut self, key: &[u8], now: u64, accessed: Option<u32>) -> (flat:
        Result<Vec<Bytes>, &'static str>)
        requires
            old(self).wf(),
            old(self)@.num_shards > 0,
        ensures
            final(self).wf(),
            final(self)@ == old(self)@.visited(key@, now, accessed),
            flat is Err <==> old(self)@.not_a_hash(key@, now),
            flat matches Err(message) ==> message@ == WRONG_TYPE@,
            flat matches Ok(list) ==> lists_flat(
                octets_all(list@),
                old(self)@.hash_fields(key@, now),
            ),
    {
        match self.access(key, now, accessed) {
            Some(entry) => match &entry.value {
                EntryValue::Hash(hash) => Ok(flatten(hash)),
                EntryValue::String(_) => Err(WRONG_TYPE),
            },
            None => Ok(Vec::new()),
        }
    }

    /// The fields of a hash with their values, one after the other, in some order. An expired
    /// key is removed. Chance and the clock decide whether the access is recorded, and when it took
    /// place; see [`ShardedStore::hgetall_accessed`].
    pub fn hgetall(&mut self, key: &[u8], now: u64) -> (flat: Result<Vec<Bytes>, &'static str>)
        requires
            old(self).wf(),
            old(self)@.num_shards > 0,
        ensures
            final(self).wf(),
            old(self)@.visits(key@, now, final(self)@),
            flat is Err <==> old(self)@.not_a_hash(key@, now),
            flat matches Err(message) ==> message@ == WRONG_TYPE@,
            flat matches Ok(list) ==> lists_flat(
                octets_all(list@),
                old(self)@.hash_fields(key@, now),
            ),
    {
        let accessed = self.sample_access();
        self.hgetall_accessed(key, now, accessed)
    }

    /// An entry of a shard that is chosen at random, none where that shard holds no entry.
    pub(crate) fn sample_entry(&self) -> (picked: Option<(Bytes, Entry)>)
        requires
            self.wf(),
            self@.num_shards > 0,
        ensures
            picked is Some ==> self@.has(octets(picked.unwrap().0))
                && self@.contents[octets(picked.unwrap().0)] == picked.unwrap().1@.record
                && self@.access_times[octets(picked.unwrap().0)] == picked.unwrap().1.last_accessed,
            picked is None ==> !self@.occupied(),
    {
        let i: usize = random_below(self.num_shards);
        let len: usize = count_entries(&self.shards[i]);
        proof {
            if self@.shard_in_use(i as int) {
                let key = choose|key: Seq<u8>| self@.has(key) && #[trigger] self@.place(key) == i;
                assert(self.home(key) == i);
                assert(self.shard(i as int).dom().contains(key));
                assert(len > 0);
            }
        }
        if len == 0 {
            return None;
        }
        let picked = nth_entry(&self.shards[i], random_below(len));
        proof {
            let key = octets(picked.unwrap().0);
            assert(self.shard(i as int).contains_key(key));
            assert(self.home(key) == i);
        }
        picked
    }

    /// Evicts a key. Returns what it counted for, zero where there is no such key.
    pub fn evict_key(&mut self, key: &[u8]) -> (size: usize)
        requires
            old(self).wf(),
            old(self)@.num_shards > 0,
        ensures
            final(self).wf(),
            final(self)@ == (if old(self)@.has(key@) {
                old(self)@.evicted(key@)
            } else {
                old(self)@
            }),
            size == old(self)@.size_of(key@),
    {
        proof {
            lemma_records(self.entries(), key@, arbitrary::<EntryView>());
        }
        match self.remove(key) {
            Some(entry) => {
                let size = calculate_entry_size(key.len(), &entry.value);
                let ghost before = *self;
                self.memory_used = self.memory_used.wrapping_sub(size as u64);
                self.evicted_keys = self.evicted_keys.wrapping_add(1);
                proof {
                    assert(self.shards == before.shards);
                    assert(forall|i: int| #[trigger] self.shard(i) == before.shard(i));
                    assert(forall|k: Seq<u8>| #[trigger] self.home(k) == before.home(k));
                    assert(self.entries() =~= before.entries());
                    assert(self@ =~= old(self)@.evicted(key@));
                }
                size
            },
            None => 0,
        }
    }

    /// What the live entries count for together, held at the largest number that can be written.
    fn live_memory(&self, now: u64) -> (memory: u64)
        requires
            self.wf(),
        ensures
            self@.live_size(now) <= u64::MAX ==> memory == self@.live_size(now),
            self@.live_size(now) > u64::MAX ==> memory == u64::MAX,
    {
        let mut memory: u64 = 0;
        let mut i: usize = 0;
        let ghost weight = live_weight(now);
        proof {
            self.lemma_records_before(0);
            lemma_map_sum_empty(self@.records_before(0), weight);
        }
        while i < self.num_shards
            invariant
                self.wf(),
                i <= self.num_shards,
                weight == live_weight(now),
                memory == capped(map_sum(self@.records_before(i as int), weight)),
            decreases self.num_shards - i,
        {
            let list = self.list_shard(i);
            let ghost listing = record_listing(list@);
            let ghost start = map_sum(self@.records_before(i as int), weight);
            let mut j: usize = 0;
            proof {
                assert(listing.take(0) =~= Seq::empty());
            }
            while j < list.len()
                invariant
                    j <= list.len(),
                    listing == record_listing(list@),
                    weight == live_weight(now),
                    memory == capped(start + seq_sum(listing.take(j as int), weight)),
                decreases list.len() - j,
            {
                let (key, entry) = &list[j];
                proof {
                    lemma_seq_sum_take(listing, j as int, weight);
                }
                if !entry.is_expired(now) {
                    let size: usize = calculate_entry_size(key.len(), &entry.value);
                    memory = memory.saturating_add(size as u64);
                }
                j += 1;
            }
            proof {
                assert(listing.take(list.len() as int) =~= listing);
                lemma_listing_sum(listing, self@.shard_records(i as int), weight);
                self.lemma_records_before(i + 1);
                lemma_map_sum_union(
                    self@.records_before(i as int),
                    self@.shard_records(i as int),
                    weight,
                );
            }
            i += 1;
        }
        proof {
            self.lemma_records_before(self.num_shards as int);
        }
        memory
    }

    /// Removes all keys as of the time `now`, and takes what the live ones counted for off the
    /// memory counter.
    pub fn flush_at(&mut self, now: u64)
        requires
            old(self).wf(),
        ensures
            final(self).wf(),
            final(self)@ == old(self)@.flushed(now),
    {
        let memory: u64 = self.live_memory(now);
        self.clear();
        let ghost before = *self;
        if memory >= self.memory_used {
            self.memory_used = 0;
        } else {
            self.memory_used = self.memory_used - memory;
        }
        proof {
            assert(self.shards == before.shards);
            assert(forall|i: int| #[trigger] self.shard(i) == before.shard(i));
            assert(forall|k: Seq<u8>| #[trigger] self.home(k) == before.home(k));
            assert(self.entries() =~= before.entries());
            assert(self@ =~= old(self)@.flushed(now));
        }
    }

    /// Removes all keys as of the current time. The clock decides which of them are live; see
    /// [`ShardedStore::flush_at`].
    pub fn flush(&mut self)
        requires
            old(self).wf(),
        ensures
            final(self).wf(),
            exists|now: u64| final(self)@ == #[trigger] old(self)@.flushed(now),
    {
        self.flush_at(get_timestamp())
    }
}

} // verus!
