//! Snapshots: the live records of a store as bytes, and back.
//!
//! A snapshot is one list of byte strings for each record, written as a request is: what kind of
//! value the key holds, when it expires, the key, and then the byte string, or the fields with
//! their values.
use bytes::Bytes;
use std::sync::Arc;
use vstd::prelude::*;
use vstd::slice::slice_subrange;

use crate::entry::{Entry, EntryValue, Record, ValueView};
use crate::fields::{flatten, lemma_merged_listing, merged, no_fields, pairs_of, set_fields};
use crate::laws::law_replacing_keeps_account;
use crate::model::StoreView;
use crate::number::{format_u64, law_unsigned_round_trip, parse_u64, unsigned_of};
use crate::octets::{bytes_from, octets, octets_all, slice_of};
use crate::request::{
    law_request_round_trip, lemma_request_extent, lemma_wire_is_bulk_list, parse_request,
    request_in, sendable, wire, Parsed, Request,
};
use crate::resp::RespWriter;
use crate::size::clamped;
use crate::store::{record_listing, ShardedStore};
use crate::sums::lists;

verus! {

/// The byte `t`, for a byte string.
pub const TEXT_KIND: u8 = 116;

/// The byte `h`, for a hash.
pub const HASH_KIND: u8 = 104;

/// The fields and values from the fourth word on.
pub open spec fn trailing_pairs(words: Seq<Seq<u8>>) -> Seq<(Seq<u8>, Seq<u8>)> {
    Seq::new(((words.len() - 3) / 2) as nat, |i: int| (words[3 + 2 * i], words[4 + 2 * i]))
}

/// The value that the words of a record tell of.
pub open spec fn value_of(words: Seq<Seq<u8>>) -> Option<ValueView> {
    if words[0] == seq![TEXT_KIND] && words.len() == 4 {
        Some(ValueView::Text(words[3]))
    } else if words[0] == seq![HASH_KIND] && words.len() % 2 == 1 {
        Some(ValueView::Hash(merged(Map::empty(), trailing_pairs(words))))
    } else {
        None
    }
}

/// The key and the record that words tell of, if they tell of one.
pub open spec fn record_of(words: Seq<Seq<u8>>) -> Option<(Seq<u8>, Record)> {
    if words.len() < 3 {
        None
    } else {
        match value_of(words) {
            None => None,
            Some(value) => if words[1].len() == 0 {
                Some((words[2], Record { value, expiry: None }))
            } else {
                match unsigned_of(words[1]) {
                    Some(time) => Some((words[2], Record { value, expiry: Some(time) })),
                    None => None,
                }
            },
        }
    }
}

/// The words for a key and its record.
fn words_for(key: &Bytes, entry: &Entry) -> (words: Vec<Bytes>)
    ensures
        record_of(octets_all(words@)) == Some((octets(*key), entry@.record)),
{
    let mut words: Vec<Bytes> = Vec::new();
    let mut kind: Vec<u8> = Vec::new();
    kind.push(
        match &entry.value {
            EntryValue::String(_) => TEXT_KIND,
            EntryValue::Hash(_) => HASH_KIND,
        },
    );
    let time: Vec<u8> = match entry.expiry {
        Some(time) => {
            proof {
                law_unsigned_round_trip(time);
            }
            format_u64(time)
        },
        None => Vec::new(),
    };
    let ghost (first, second) = (kind@, time@);
    words.push(bytes_from(kind));
    words.push(bytes_from(time));
    words.push(key.clone());
    let ghost start = octets_all(words@);
    match &entry.value {
        EntryValue::String(text) => {
            words.push(text.clone());
            proof {
                let all = octets_all(words@);
                assert(all[0] =~= seq![TEXT_KIND]);
                assert(all[1] == second && all[2] == octets(*key) && all[3] == octets(*text));
            }
        },
        EntryValue::Hash(hash) => {
            let mut flat = flatten(hash);
            let ghost pieces = octets_all(flat@);
            words.append(&mut flat);
            proof {
                let all = octets_all(words@);
                assert(all =~= start + pieces);
                assert(all[0] =~= seq![HASH_KIND]);
                assert(all[0] != seq![TEXT_KIND]) by {
                    assert(all[0][0] == HASH_KIND);
                    assert(seq![TEXT_KIND][0] == TEXT_KIND);
                }
                assert(all[1] == second && all[2] == octets(*key));
                let pairs = Seq::new(
                    (pieces.len() / 2) as nat,
                    |i: int| (pieces[2 * i], pieces[2 * i + 1]),
                );
                assert(trailing_pairs(all) =~= pairs);
                lemma_merged_listing(pairs, entry@.record.value->Hash_0);
            }
        },
    }
    words
}

/// Byte strings are no longer than a machine number can tell.
fn note_lengths(words: &Vec<Bytes>)
    ensures
        forall|i: int| 0 <= i < words@.len() ==> octets(#[trigger] words@[i]).len() <= usize::MAX,
{
    let mut i: usize = 0;
    while i < words.len()
        invariant
            i <= words@.len(),
            forall|j: int| 0 <= j < i ==> octets(#[trigger] words@[j]).len() <= usize::MAX,
        decreases words@.len() - i,
    {
        let _len: usize = words[i].len();
        i += 1;
    }
}

/// The key and the entry that words tell of, if they tell of one.
fn read_record(words: &Vec<Bytes>) -> (record: Option<(Bytes, Entry)>)
    ensures
        record is Some <==> record_of(octets_all(words@)) is Some,
        record is Some ==> record_of(octets_all(words@)) == Some(
            (octets(record.unwrap().0), record.unwrap().1@.record),
        ),
        record is Some ==> record.unwrap().1.last_accessed == 0,
{
    let ghost all = octets_all(words@);
    if words.len() < 3 {
        return None;
    }
    let kind = slice_of(&words[0]);
    proof {
        assert(all[0] == kind@);
        if kind@.len() == 1 && kind@[0] == TEXT_KIND {
            assert(all[0] =~= seq![TEXT_KIND]);
        }
        if kind@.len() == 1 && kind@[0] == HASH_KIND {
            assert(all[0] =~= seq![HASH_KIND]);
        }
        assert(seq![TEXT_KIND][0] == TEXT_KIND && seq![TEXT_KIND].len() == 1);
        assert(seq![HASH_KIND][0] == HASH_KIND && seq![HASH_KIND].len() == 1);
    }
    if kind.len() != 1 {
        return None;
    }
    let value = if kind[0] == TEXT_KIND && words.len() == 4 {
        EntryValue::String(words[3].clone())
    } else if kind[0] == HASH_KIND && words.len() % 2 == 1 {
        let mut hash = no_fields();
        let fields = trailing_fields(words);
        let _added = set_fields(&mut hash, fields.as_slice());
        EntryValue::Hash(Arc::new(hash))
    } else {
        return None;
    };
    assert(value_of(all) == Some(value@));
    let time = slice_of(&words[1]);
    if time.len() == 0 {
        return Some((words[2].clone(), Entry { value, expiry: None, last_accessed: 0 }));
    }
    match parse_u64(time) {
        Some(time) => Some(
            (words[2].clone(), Entry { value, expiry: Some(time), last_accessed: 0 }),
        ),
        None => None,
    }
}

/// The fields and values from the fourth word on.
fn trailing_fields(words: &Vec<Bytes>) -> (fields: Vec<(Bytes, Bytes)>)
    requires
        words@.len() >= 3,
        words@.len() % 2 == 1,
    ensures
        pairs_of(fields@) == trailing_pairs(octets_all(words@)),
{
    let mut fields: Vec<(Bytes, Bytes)> = Vec::new();
    let mut i: usize = 3;
    while i < words.len()
        invariant
            3 <= i <= words@.len(),
            words@.len() % 2 == 1,
            i % 2 == 1,
            fields@.len() == (i - 3) / 2,
            forall|j: int|
                0 <= j < fields@.len() ==> octets((#[trigger] fields@[j]).0) == octets(
                    words@[3 + 2 * j],
                ) && octets(fields@[j].1) == octets(words@[4 + 2 * j]),
        decreases words@.len() - i,
    {
        fields.push((words[i].clone(), words[i + 1].clone()));
        i += 2;
    }
    assert(pairs_of(fields@) =~= trailing_pairs(octets_all(words@)));
    fields
}

/// Records on the wire, one after the other.
pub open spec fn wires(records: Seq<Seq<Seq<u8>>>) -> Seq<u8>
    decreases records.len(),
{
    if records.len() == 0 {
        Seq::empty()
    } else {
        wires(records.drop_last()) + wire(records.last())
    }
}

/// The key that words tell of.
pub open spec fn key_of(words: Seq<Seq<u8>>) -> Seq<u8> {
    record_of(words).unwrap().0
}

/// The words tell of a live key and what it holds.
pub open spec fn tells_of(v: StoreView, now: u64, words: Seq<Seq<u8>>) -> bool {
    &&& sendable(words)
    &&& record_of(words) is Some
    &&& v.live(key_of(words), now)
    &&& v.contents[key_of(words)] == record_of(words).unwrap().1
}

/// The records tell of the key.
pub open spec fn mentions(records: Seq<Seq<Seq<u8>>>, key: Seq<u8>) -> bool {
    exists|i: int| 0 <= i < records.len() && key_of(#[trigger] records[i]) == key
}

/// The records tell of every live key, and of none twice.
pub open spec fn tells_all(v: StoreView, now: u64, records: Seq<Seq<Seq<u8>>>) -> bool {
    &&& forall|i: int| 0 <= i < records.len() ==> tells_of(v, now, #[trigger] records[i])
    &&& forall|i: int, j: int|
        0 <= i < j < records.len() ==> key_of(#[trigger] records[i]) != key_of(
            #[trigger] records[j],
        )
    &&& forall|key: Seq<u8>| v.live(key, now) ==> #[trigger] mentions(records, key)
}

/// The bytes are a snapshot of the store, with so many keys.
pub open spec fn snapshot_of(v: StoreView, now: u64, bytes: Seq<u8>, count: nat) -> bool {
    exists|records: Seq<Seq<Seq<u8>>>|
        {
            &&& #[trigger] tells_all(v, now, records)
            &&& bytes == wires(records)
            &&& count == records.len()
        }
}

/// A snapshot of the live keys of a store, and how many there are.
pub fn export_snapshot(store: &ShardedStore, now: u64) -> (snapshot: (Vec<u8>, usize))
    requires
        store.wf(),
    ensures
        exists|count: nat|
            {
                &&& #[trigger] snapshot_of(store@, now, snapshot.0@, count)
                &&& snapshot.1 == clamped(count)
            },
{
    let num_shards: usize = store.shard_count();
    let ghost v = store@;
    let mut writer = RespWriter::new();
    let ghost mut records: Seq<Seq<Seq<u8>>> = Seq::empty();
    let mut count: usize = 0;
    let mut i: usize = 0;
    proof {
        assert forall|key: Seq<u8>| v.live(key, now) && v.place(key) < 0 implies #[trigger] mentions(
            records,
            key,
        ) by {
            store.lemma_placed(key);
        }
    }
    while i < num_shards
        invariant
            store.wf(),
            v == store@,
            num_shards == v.num_shards,
            i <= num_shards,
            writer@ == wires(records),
            count == clamped(records.len()),
            forall|a: int| 0 <= a < records.len() ==> tells_of(v, now, #[trigger] records[a]),
            forall|a: int|
                0 <= a < records.len() ==> v.place(key_of(#[trigger] records[a])) < i,
            forall|a: int, b: int|
                0 <= a < b < records.len() ==> key_of(#[trigger] records[a]) != key_of(
                    #[trigger] records[b],
                ),
            forall|key: Seq<u8>|
                v.live(key, now) && v.place(key) < i ==> #[trigger] mentions(records, key),
        decreases num_shards - i,
    {
        let list = store.list_shard(i);
        let ghost listing = record_listing(list@);
        let mut j: usize = 0;
        while j < list.len()
            invariant
                v == store@,
                i < num_shards,
                num_shards == v.num_shards,
                j <= list.len(),
                listing == record_listing(list@),
                lists(listing, v.shard_records(i as int)),
                writer@ == wires(records),
                count == clamped(records.len()),
                forall|a: int| 0 <= a < records.len() ==> tells_of(v, now, #[trigger] records[a]),
                forall|a: int|
                    0 <= a < records.len() ==> v.place(key_of(#[trigger] records[a])) < i || exists|
                        l: int,
                    |
                        0 <= l < j && (#[trigger] listing[l]).0 == key_of(records[a]),
                forall|a: int, b: int|
                    0 <= a < b < records.len() ==> key_of(#[trigger] records[a]) != key_of(
                        #[trigger] records[b],
                    ),
                forall|key: Seq<u8>|
                    v.live(key, now) && v.place(key) < i ==> #[trigger] mentions(records, key),
                forall|l: int|
                    0 <= l < j && v.live((#[trigger] listing[l]).0, now) ==> mentions(
                        records,
                        listing[l].0,
                    ),
            decreases list.len() - j,
        {
            let (key, entry) = &list[j];
            let ghost k = octets(*key);
            let ghost before = records;
            proof {
                assert(listing[j as int].0 == k);
                assert(v.shard_records(i as int).contains_key(k));
            }
            if !entry.is_expired(now) {
                let words = words_for(key, entry);
                note_lengths(&words);
                writer.write_array(words.as_slice());
                count = count.saturating_add(1);
                proof {
                    let all = octets_all(words@);
                    lemma_wire_is_bulk_list(all);
                    assert forall|a: int| 0 <= a < all.len() implies (#[trigger] all[a]).len()
                        <= u64::MAX by {
                        assert(octets(words@[a]).len() <= usize::MAX);
                    }
                    records = before.push(all);
                    assert(records.drop_last() =~= before);
                    assert(tells_of(v, now, all));
                    assert forall|a: int| 0 <= a < before.len() implies key_of(
                        #[trigger] before[a],
                    ) != k by {
                        if key_of(before[a]) == k {
                            if v.place(k) >= i {
                                let l = choose|l: int|
                                    0 <= l < j && (#[trigger] listing[l]).0 == key_of(before[a]);
                                assert(listing[l].0 != listing[j as int].0);
                            }
                        }
                    }
                    assert forall|a: int, b: int| 0 <= a < b < records.len() implies key_of(
                        #[trigger] records[a],
                    ) != key_of(#[trigger] records[b]) by {
                        assert(records[a] == before[a]);
                        if b < before.len() {
                            assert(records[b] == before[b]);
                        }
                    }
                    assert forall|a: int| 0 <= a < records.len() implies v.place(
                        key_of(#[trigger] records[a]),
                    ) < i || exists|l: int|
                        0 <= l < j + 1 && (#[trigger] listing[l]).0 == key_of(records[a]) by {
                        if a < before.len() {
                            assert(records[a] == before[a]);
                            if v.place(key_of(before[a])) >= i {
                                let l = choose|l: int|
                                    0 <= l < j && (#[trigger] listing[l]).0 == key_of(before[a]);
                                assert(listing[l].0 == key_of(records[a]));
                            }
                        } else {
                            assert(listing[j as int].0 == key_of(records[a]));
                        }
                    }
                    assert forall|x: Seq<u8>| mentions(before, x) || x == k implies #[trigger] mentions(
                        records,
                        x,
                    ) by {
                        if x == k {
                            assert(key_of(records[before.len() as int]) == x);
                        } else {
                            let a = choose|a: int|
                                0 <= a < before.len() && key_of(#[trigger] before[a]) == x;
                            assert(key_of(records[a]) == x);
                        }
                    }
                }
            }
            j += 1;
        }
        proof {
            assert forall|key: Seq<u8>|
                v.live(key, now) && v.place(key) < i + 1 implies #[trigger] mentions(
                records,
                key,
            ) by {
                if v.place(key) == i {
                    assert(v.shard_records(i as int).contains_key(key));
                    let l = choose|l: int| 0 <= l < listing.len() && (#[trigger] listing[l]).0 == key;
                    assert(v.live(listing[l].0, now));
                }
            }
            assert forall|a: int| 0 <= a < records.len() implies v.place(
                key_of(#[trigger] records[a]),
            ) < i + 1 by {
                if v.place(key_of(records[a])) >= i {
                    let l = choose|l: int|
                        0 <= l < listing.len() && (#[trigger] listing[l]).0 == key_of(records[a]);
                    assert(v.shard_records(i as int).contains_key(listing[l].0));
                }
            }
        }
        i += 1;
    }
    proof {
        assert forall|key: Seq<u8>| v.live(key, now) implies #[trigger] mentions(records, key) by {
            store.lemma_placed(key);
        }
        assert(tells_all(v, now, records));
    }
    let snapshot = (writer.into_buffer(), count);
    assert(snapshot_of(store@, now, snapshot.0@, records.len()));
    snapshot
}

/// The keys and records of a snapshot, if the bytes are one.
pub open spec fn snapshot_records(buf: Seq<u8>) -> Option<Seq<(Seq<u8>, Record)>>
    decreases buf.len(),
{
    if buf.len() == 0 {
        Some(Seq::empty())
    } else {
        match request_in(buf) {
            Parsed::Done(words, used) => if 0 < used <= buf.len() && record_of(words) is Some {
                match snapshot_records(buf.skip(used)) {
                    Some(rest) => Some(seq![record_of(words).unwrap()] + rest),
                    None => None,
                }
            } else {
                None
            },
            _ => None,
        }
    }
}

/// None of the entries counts as accessed yet.
pub open spec fn not_accessed(list: Seq<(Bytes, Entry)>) -> bool {
    forall|i: int| 0 <= i < list.len() ==> (#[trigger] list[i]).1.last_accessed == 0
}

/// The keys and entries of a snapshot, if the bytes are one.
pub fn parse_snapshot(buf: &[u8]) -> (entries: Option<Vec<(Bytes, Entry)>>)
    ensures
        entries is Some <==> snapshot_records(buf@) is Some,
        entries is Some ==> record_listing(entries.unwrap()@) == snapshot_records(buf@).unwrap(),
        entries is Some ==> not_accessed(entries.unwrap()@),
{
    let mut list: Vec<(Bytes, Entry)> = Vec::new();
    let mut at: usize = 0;
    proof {
        assert(record_listing(list@) =~= Seq::empty());
        assert(buf@.skip(0) =~= buf@);
        if let Some(all) = snapshot_records(buf@) {
            assert(Seq::<(Seq<u8>, Record)>::empty() + all =~= all);
        }
    }
    while at < buf.len()
        invariant
            at <= buf@.len(),
            not_accessed(list@),
            snapshot_records(buf@) == (match snapshot_records(buf@.skip(at as int)) {
                Some(rest) => Some(record_listing(list@) + rest),
                None => None,
            }),
        decreases buf@.len() - at,
    {
        let rest = slice_subrange(buf, at, buf.len());
        proof {
            assert(rest@ =~= buf@.skip(at as int));
            lemma_request_extent(rest@);
        }
        match parse_request(rest) {
            Request::Complete(words, used) => {
                let ghost before = record_listing(list@);
                match read_record(&words) {
                    Some(record) => {
                        let ghost pair = (octets(record.0), record.1@.record);
                        list.push(record);
                        proof {
                            assert(record_listing(list@) =~= before.push(pair));
                            assert(rest@.skip(used as int) =~= buf@.skip(at + used));
                            if let Some(more) = snapshot_records(buf@.skip(at + used)) {
                                assert(before + (seq![pair] + more) =~= before.push(pair) + more);
                            }
                        }
                        at += used;
                    },
                    None => return None,
                }
            },
            Request::Partial => return None,
            Request::Malformed => return None,
        }
    }
    proof {
        assert(buf@.skip(at as int) =~= Seq::empty());
        assert(record_listing(list@) + Seq::<(Seq<u8>, Record)>::empty() =~= record_listing(list@));
    }
    Some(list)
}

/// Those of the records that have not expired are stored one after the other, as not accessed yet.
pub open spec fn restored(v: StoreView, records: Seq<(Seq<u8>, Record)>, now: u64) -> StoreView
    decreases records.len(),
{
    if records.len() == 0 {
        v
    } else {
        let before = restored(v, records.drop_last(), now);
        if records.last().1.expired(now) {
            before
        } else {
            before.replaced(records.last().0, records.last().1, 0)
        }
    }
}

/// How many of the records have not expired.
pub open spec fn live_records(records: Seq<(Seq<u8>, Record)>, now: u64) -> nat
    decreases records.len(),
{
    if records.len() == 0 {
        0
    } else {
        live_records(records.drop_last(), now) + (if records.last().1.expired(now) {
            0nat
        } else {
            1nat
        })
    }
}

/// Stores the records of a snapshot that have not expired. Returns how many they are, or nothing
/// where the bytes are no snapshot; the store is left alone then.
pub fn import_snapshot(store: &mut ShardedStore, buf: &[u8], now: u64) -> (count: Option<usize>)
    requires
        old(store).wf(),
        old(store)@.num_shards > 0,
    ensures
        final(store).wf(),
        count is Some <==> snapshot_records(buf@) is Some,
        count is None ==> final(store)@ == old(store)@,
        count is Some ==> final(store)@ == restored(
            old(store)@,
            snapshot_records(buf@).unwrap(),
            now,
        ),
        count is Some ==> count.unwrap() == live_records(snapshot_records(buf@).unwrap(), now),
{
    let list = match parse_snapshot(buf) {
        Some(list) => list,
        None => return None,
    };
    let ghost records = record_listing(list@);
    let ghost v = store@;
    let mut count: usize = 0;
    let mut i: usize = 0;
    proof {
        assert(records.take(0) =~= Seq::empty());
    }
    while i < list.len()
        invariant
            i <= list.len(),
            records == record_listing(list@),
            not_accessed(list@),
            store.wf(),
            store@.num_shards > 0,
            count <= i,
            store@ == restored(v, records.take(i as int), now),
            count == live_records(records.take(i as int), now),
        decreases list.len() - i,
    {
        let (key, entry) = &list[i];
        proof {
            assert(records.take(i + 1).drop_last() =~= records.take(i as int));
            assert(records.take(i + 1).last() == (octets(*key), entry@.record));
        }
        if !entry.is_expired(now) {
            let copy = entry.clone();
            assert(copy@.last_accessed == list@[i as int].1.last_accessed);
            store.store_entry(key.clone(), copy);
            count += 1;
        }
        i += 1;
    }
    proof {
        assert(records.take(i as int) =~= records);
    }
    Some(count)
}

/// The first record stands first on the wire.
proof fn lemma_wires_first(records: Seq<Seq<Seq<u8>>>)
    requires
        records.len() > 0,
    ensures
        wires(records) == wire(records[0]) + wires(records.skip(1)),
    decreases records.len(),
{
    let rest = records.drop_last();
    if rest.len() == 0 {
        assert(records.skip(1) =~= Seq::empty());
        assert(rest =~= Seq::empty());
        assert(wires(records) =~= wire(records[0]) + wires(records.skip(1)));
    } else {
        lemma_wires_first(rest);
        assert(rest.skip(1) =~= records.skip(1).drop_last());
        assert(records.skip(1).last() == records.last());
        assert(wires(records) =~= wire(records[0]) + wires(records.skip(1)));
    }
}

/// Words that can be sent and tell of a record.
pub open spec fn sendable_record(words: Seq<Seq<u8>>) -> bool {
    sendable(words) && record_of(words) is Some
}

/// Records on the wire are read back in order.
pub(crate) proof fn lemma_wires_read(records: Seq<Seq<Seq<u8>>>)
    requires
        forall|i: int| 0 <= i < records.len() ==> sendable_record(#[trigger] records[i]),
    ensures
        snapshot_records(wires(records)) == Some(
            records.map_values(|words: Seq<Seq<u8>>| record_of(words).unwrap()),
        ),
    decreases records.len(),
{
    let told = records.map_values(|words: Seq<Seq<u8>>| record_of(words).unwrap());
    if records.len() == 0 {
        assert(told =~= Seq::empty());
    } else {
        let (first, rest) = (records[0], records.skip(1));
        lemma_wires_first(records);
        law_request_round_trip(first, wires(rest));
        let buf = wires(records);
        lemma_request_extent(buf);
        assert(buf.skip(wire(first).len() as int) =~= wires(rest));
        assert(sendable_record(first));
        assert forall|i: int| 0 <= i < rest.len() implies sendable_record(#[trigger] rest[i]) by {
            assert(rest[i] == records[i + 1]);
        }
        lemma_wires_read(rest);
        assert(told =~= seq![record_of(first).unwrap()] + rest.map_values(
            |words: Seq<Seq<u8>>| record_of(words).unwrap(),
        ));
    }
}

proof fn lemma_restored(v: StoreView, records: Seq<(Seq<u8>, Record)>, now: u64)
    requires
        v.contents == Map::<Seq<u8>, Record>::empty(),
        forall|i: int| 0 <= i < records.len() ==> !(#[trigger] records[i]).1.expired(now),
        forall|i: int, j: int|
            0 <= i < j < records.len() ==> (#[trigger] records[i]).0 != (#[trigger] records[j]).0,
    ensures
        lists(records, restored(v, records, now).contents),
    decreases records.len(),
{
    let m = restored(v, records, now).contents;
    if records.len() > 0 {
        let rest = records.drop_last();
        let end = records.len() - 1;
        assert forall|i: int| 0 <= i < rest.len() implies !(#[trigger] rest[i]).1.expired(now) by {
            assert(rest[i] == records[i]);
        }
        assert forall|i: int, j: int| 0 <= i < j < rest.len() implies (#[trigger] rest[i]).0 != (
        #[trigger] rest[j]).0 by {
            assert(rest[i] == records[i] && rest[j] == records[j]);
        }
        lemma_restored(v, rest, now);
        let before = restored(v, rest, now).contents;
        assert(!records[end].1.expired(now));
        assert(m == before.insert(records[end].0, records[end].1));
        assert forall|i: int| 0 <= i < records.len() implies m.contains_key(#[trigger] records[i].0)
            && m[records[i].0] == records[i].1 by {
            if i < end {
                assert(rest[i] == records[i]);
                assert(before.contains_key(rest[i].0));
                assert(records[i].0 != records[end].0);
            }
        }
        assert forall|key: Seq<u8>| #[trigger] m.contains_key(key) implies exists|i: int|
            0 <= i < records.len() && (#[trigger] records[i]).0 == key by {
            if key == records[end].0 {
            } else {
                assert(before.contains_key(key));
                let i = choose|i: int| 0 <= i < rest.len() && (#[trigger] rest[i]).0 == key;
                assert(records[i].0 == key);
            }
        }
    }
}

/// Reading a snapshot keeps the memory counter in step with the records.
pub proof fn law_restoring_keeps_account(
    v: StoreView,
    records: Seq<(Seq<u8>, Record)>,
    now: u64,
)
    requires
        v.contents.dom().finite(),
        v.accounted(),
    ensures
        restored(v, records, now).accounted(),
        restored(v, records, now).contents.dom().finite(),
    decreases records.len(),
{
    if records.len() > 0 {
        law_restoring_keeps_account(v, records.drop_last(), now);
        law_replacing_keeps_account(
            restored(v, records.drop_last(), now),
            records.last().0,
            records.last().1,
            0,
        );
    }
}

/// A snapshot that is read back at once into an empty store gives the records that were live when
/// it was made.
pub proof fn law_snapshot_round_trip(
    v: StoreView,
    now: u64,
    bytes: Seq<u8>,
    count: nat,
    empty: StoreView,
)
    requires
        snapshot_of(v, now, bytes, count),
        empty.contents == Map::<Seq<u8>, Record>::empty(),
    ensures
        snapshot_records(bytes) is Some,
        restored(empty, snapshot_records(bytes).unwrap(), now).contents
            == v.contents.filter_keys(|key: Seq<u8>| v.live(key, now)),
{
    let records = choose|records: Seq<Seq<Seq<u8>>>|
        {
            &&& #[trigger] tells_all(v, now, records)
            &&& bytes == wires(records)
            &&& count == records.len()
        };
    assert forall|i: int| 0 <= i < records.len() implies sendable_record(#[trigger] records[i]) by {
        assert(tells_of(v, now, records[i]));
    }
    lemma_wires_read(records);
    let told = records.map_values(|words: Seq<Seq<u8>>| record_of(words).unwrap());
    assert forall|i: int| 0 <= i < told.len() implies !(#[trigger] told[i]).1.expired(now) by {
        assert(tells_of(v, now, records[i]));
    }
    assert forall|i: int, j: int| 0 <= i < j < told.len() implies (#[trigger] told[i]).0 != (
    #[trigger] told[j]).0 by {
        assert(key_of(records[i]) != key_of(records[j]));
    }
    lemma_restored(empty, told, now);
    let m = restored(empty, told, now).contents;
    let live = v.contents.filter_keys(|key: Seq<u8>| v.live(key, now));
    assert forall|key: Seq<u8>| #[trigger] m.contains_key(key) == live.contains_key(key) by {
        if m.contains_key(key) {
            let i = choose|i: int| 0 <= i < told.len() && (#[trigger] told[i]).0 == key;
            assert(tells_of(v, now, records[i]));
        }
        if live.contains_key(key) {
            assert(mentions(records, key));
            let i = choose|i: int| 0 <= i < records.len() && key_of(#[trigger] records[i]) == key;
            assert(told[i].0 == key);
            assert(m.contains_key(told[i].0));
        }
    }
    assert forall|key: Seq<u8>| #[trigger] m.contains_key(key) implies m[key] == live[key] by {
        let i = choose|i: int| 0 <= i < told.len() && (#[trigger] told[i]).0 == key;
        assert(tells_of(v, now, records[i]));
        assert(m[told[i].0] == told[i].1);
    }
    assert(m =~= live);
}

} // verus!
