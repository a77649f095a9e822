//! What a snapshot is for: the keys that are there come back, and nothing else does.
use vstd::prelude::*;

use crate::client::{same_at, same_setup, there};
use crate::entry::{Record, ValueView};
use crate::fields::merged;
use crate::hash_laws::{field_set_last, field_set_or_kept};
use crate::laws::{last_at, law_last_field_value_wins};
use crate::model::StoreView;
use crate::number::unsigned_of;
use crate::request::{law_verdict_is_stable, lemma_request_extent, request_in};
use crate::snapshot::{
    key_of, lemma_wires_read, live_records, mentions, record_of, restored, sendable_record,
    snapshot_of, snapshot_records, tells_all, tells_of, trailing_pairs, wires,
};
use crate::wire_laws::{law_what_is_sent_is_read, sends};

verus! {

/// The record has not expired.
pub open spec fn in_time(record: Record, now: u64) -> bool {
    match record.expiry {
        Some(time) => now < time,
        None => true,
    }
}

/// The word tells when a record expires: it is empty where it never does.
pub open spec fn tells_end(word: Seq<u8>, expiry: Option<u64>) -> bool {
    match expiry {
        None => word.len() == 0,
        Some(time) => unsigned_of(word) == Some(time),
    }
}

/// A byte string is told of in four words: `t`, when it expires, its key, and its bytes.
pub proof fn law_words_for_text(words: Seq<Seq<u8>>, key: Seq<u8>, text: Seq<u8>, expiry: Option<u64>)
    requires
        words.len() == 4,
        words[0] == seq!['t' as u8],
        tells_end(words[1], expiry),
        words[2] == key,
        words[3] == text,
    ensures
        record_of(words) == Some((key, (Record { value: ValueView::Text(text), expiry }))),
{
}

/// A hash is told of in words for `h`, when it expires, its key, and then each field and its value;
/// of two values for one field the last counts.
pub proof fn law_words_for_hash(words: Seq<Seq<u8>>, expiry: Option<u64>)
    requires
        words.len() >= 3,
        words.len() % 2 == 1,
        words[0] == seq!['h' as u8],
        tells_end(words[1], expiry),
    ensures
        record_of(words) matches Some((key, record)) && {
            &&& key == words[2]
            &&& record.expiry == expiry
            &&& record.value matches ValueView::Hash(fields) && forall|field: Seq<u8>| #[trigger]
                field_set_or_kept(words.skip(1), Map::empty(), fields, field)
        },
{
    assert(seq!['h' as u8][0] == 104 && seq![116u8][0] == 116);
    assert(words[0] != seq![116u8]);
    let pairs = trailing_pairs(words);
    let fields = merged(Map::empty(), pairs);
    let told = words.skip(1);
    assert forall|field: Seq<u8>| #[trigger]
        field_set_or_kept(told, Map::empty(), fields, field) by {
        law_last_field_value_wins(Map::empty(), pairs, field);
        assert forall|i: int| #[trigger] field_set_last(told, field, i) implies fields.contains_key(
            field,
        ) && fields[field] == told[2 * i + 3] by {
            assert(pairs[i] == (words[3 + 2 * i], words[4 + 2 * i]));
            assert forall|j: int| i < j < pairs.len() implies (#[trigger] pairs[j]).0 != field by {
                assert(told[2 * j + 2] != field);
            }
            assert(last_at(pairs, field, i));
        }
        if forall|i: int| !#[trigger] field_set_last(told, field, i) {
            lemma_not_named(words, field, pairs.len() as int);
            assert(fields.get(field) == Map::<Seq<u8>, Seq<u8>>::empty().get(field));
        }
    }
}

/// A field that no pair names last is named by none.
proof fn lemma_not_named(words: Seq<Seq<u8>>, field: Seq<u8>, n: int)
    requires
        words.len() >= 3,
        words.len() % 2 == 1,
        0 <= n <= trailing_pairs(words).len(),
        forall|i: int| !#[trigger] field_set_last(words.skip(1), field, i),
        forall|j: int| n <= j < trailing_pairs(words).len() ==> (#[trigger] trailing_pairs(words)[j]).0
            != field,
    ensures
        forall|i: int| 0 <= i < trailing_pairs(words).len() ==> (#[trigger] trailing_pairs(words)[i]).0
            != field,
    decreases n,
{
    let (pairs, told) = (trailing_pairs(words), words.skip(1));
    if n > 0 {
        let i = n - 1;
        assert(pairs[i].0 == told[2 * i + 2]);
        if pairs[i].0 == field {
            assert forall|j: int| i < j < (told.len() - 2) / 2 implies told[#[trigger] (2 * j + 2)]
                != field by {
                assert(pairs[j].0 == told[2 * j + 2]);
            }
            assert(field_set_last(told, field, i));
        }
        lemma_not_named(words, field, n - 1);
    }
}

/// Other words tell of nothing.
pub proof fn law_other_words_tell_of_nothing(words: Seq<Seq<u8>>)
    requires
        ({
            ||| words.len() < 3
            ||| words[0] != seq!['t' as u8] && words[0] != seq!['h' as u8]
            ||| words[0] == seq!['t' as u8] && words.len() != 4
            ||| words[0] == seq!['h' as u8] && words.len() % 2 == 0
            ||| words[1].len() > 0 && unsigned_of(words[1]) is None
        }),
    ensures
        record_of(words) is None,
{
    assert(seq!['h' as u8][0] == 104 && seq!['t' as u8][0] == 116);
}

/// A snapshot is read record by record; where one of them cannot be read, nothing is.
pub proof fn law_snapshot_is_read_in_order(bytes: Seq<u8>, words: Seq<Seq<u8>>, rest: Seq<u8>)
    requires
        sends(bytes, words),
    ensures
        snapshot_records(Seq::empty()) == Some(Seq::<(Seq<u8>, Record)>::empty()),
        record_of(words) is Some && snapshot_records(rest) is Some ==> snapshot_records(bytes + rest)
            == Some(seq![record_of(words).unwrap()] + snapshot_records(rest).unwrap()),
        record_of(words) is None || snapshot_records(rest) is None ==> snapshot_records(bytes + rest)
            is None,
{
    law_what_is_sent_is_read(bytes, words, rest);
    lemma_request_extent(bytes + rest);
    assert((bytes + rest).skip(bytes.len() as int) =~= rest);
}

/// A record that was cut off makes a snapshot unreadable.
pub proof fn law_cut_off_snapshot_is_refused(bytes: Seq<u8>, words: Seq<Seq<u8>>, arrived: int)
    requires
        sends(bytes, words),
        0 < arrived < bytes.len(),
    ensures
        snapshot_records(bytes.take(arrived)) is None,
{
    let (part, more) = (bytes.take(arrived), bytes.skip(arrived));
    law_what_is_sent_is_read(bytes, words, Seq::empty());
    assert(part + more =~= bytes + Seq::<u8>::empty());
    lemma_request_extent(part);
    if !(request_in(part) is More) {
        law_verdict_is_stable(part, more);
    }
}

/// The last of the records for the key that has not expired is the one at `i`.
pub open spec fn told_last(
    records: Seq<(Seq<u8>, Record)>,
    now: u64,
    key: Seq<u8>,
    i: int,
) -> bool {
    &&& 0 <= i < records.len()
    &&& records[i].0 == key
    &&& in_time(records[i].1, now)
    &&& forall|j: int|
        i < j < records.len() ==> (#[trigger] records[j]).0 != key || !in_time(records[j].1, now)
}

/// A key comes to hold the last record for it that has not expired, and counts as accessed at the
/// start; a key without one is as it was.
pub proof fn law_restored_keys(
    v: StoreView,
    records: Seq<(Seq<u8>, Record)>,
    now: u64,
    key: Seq<u8>,
)
    ensures
        forall|i: int| #[trigger]
            told_last(records, now, key, i) ==> {
                let w = restored(v, records, now);
                &&& w.contents.contains_key(key)
                &&& w.contents[key] == records[i].1
                &&& w.access_times.contains_key(key)
                &&& w.access_times[key] == 0
            },
        (forall|i: int|
            0 <= i < records.len() ==> (#[trigger] records[i]).0 != key || !in_time(
                records[i].1,
                now,
            )) ==> same_at(v, restored(v, records, now), key),
        same_setup(v, restored(v, records, now)),
    decreases records.len(),
{
    if records.len() > 0 {
        let (rest, end) = (records.drop_last(), records.len() - 1);
        law_restored_keys(v, rest, now, key);
        assert forall|i: int| #[trigger] told_last(records, now, key, i) implies {
            let w = restored(v, records, now);
            &&& w.contents.contains_key(key)
            &&& w.contents[key] == records[i].1
            &&& w.access_times.contains_key(key)
            &&& w.access_times[key] == 0
        } by {
            if i < end {
                assert(rest[i] == records[i]);
                assert forall|j: int| i < j < rest.len() implies (#[trigger] rest[j]).0 != key
                    || !in_time(rest[j].1, now) by {
                    assert(rest[j] == records[j]);
                }
                assert(told_last(rest, now, key, i));
                assert(records[end].0 != key || !in_time(records[end].1, now));
            }
        }
        if forall|i: int|
            0 <= i < records.len() ==> (#[trigger] records[i]).0 != key || !in_time(
                records[i].1,
                now,
            ) {
            assert forall|i: int| 0 <= i < rest.len() implies (#[trigger] rest[i]).0 != key
                || !in_time(rest[i].1, now) by {
                assert(rest[i] == records[i]);
            }
            assert(records[end].0 != key || !in_time(records[end].1, now));
        }
    }
}

/// Each record that has not expired counts as restored, and no other does.
pub proof fn law_restored_records_are_counted(
    records: Seq<(Seq<u8>, Record)>,
    key: Seq<u8>,
    record: Record,
    now: u64,
)
    ensures
        live_records(Seq::empty(), now) == 0,
        live_records(records.push((key, record)), now) == live_records(records, now) + (if in_time(
            record,
            now,
        ) {
            1nat
        } else {
            0nat
        }),
{
    assert(records.push((key, record)).drop_last() =~= records);
}

/// A snapshot tells of each key that is there what it holds, and of no other; it says how many they
/// are.
pub proof fn law_snapshot_tells_what_is_there(v: StoreView, now: u64, bytes: Seq<u8>, count: nat)
    requires
        snapshot_of(v, now, bytes, count),
    ensures
        snapshot_records(bytes) matches Some(list) && {
            &&& list.len() == count
            &&& forall|i: int|
                0 <= i < list.len() ==> there(v, (#[trigger] list[i]).0, now)
                    && v.contents[list[i].0] == list[i].1
            &&& forall|i: int, j: int|
                0 <= i < j < list.len() ==> (#[trigger] list[i]).0 != (#[trigger] list[j]).0
            &&& forall|key: Seq<u8>| #[trigger]
                there(v, key, now) ==> exists|i: int|
                    0 <= i < list.len() && (#[trigger] list[i]).0 == key
        },
{
    let records = choose|records: Seq<Seq<Seq<u8>>>|
        {
            &&& #[trigger] tells_all(v, now, records)
            &&& bytes == wires(records)
            &&& count == records.len()
        };
    assert forall|i: int| 0 <= i < records.len() implies sendable_record(#[trigger] records[i]) by {
        assert(tells_of(v, now, records[i]));
    }
    lemma_wires_read(records);
    let list = records.map_values(|words: Seq<Seq<u8>>| record_of(words).unwrap());
    assert forall|i: int| 0 <= i < list.len() implies there(v, (#[trigger] list[i]).0, now)
        && v.contents[list[i].0] == list[i].1 by {
        assert(tells_of(v, now, records[i]));
    }
    assert forall|i: int, j: int| 0 <= i < j < list.len() implies (#[trigger] list[i]).0 != (
    #[trigger] list[j]).0 by {
        assert(key_of(records[i]) != key_of(records[j]));
    }
    assert forall|key: Seq<u8>| #[trigger] there(v, key, now) implies exists|i: int|
        0 <= i < list.len() && (#[trigger] list[i]).0 == key by {
        assert(v.live(key, now));
        assert(mentions(records, key));
        let i = choose|i: int| 0 <= i < records.len() && key_of(#[trigger] records[i]) == key;
        assert(list[i].0 == key);
    }
}

/// A snapshot that is read back later brings back the keys that are there still, as they were; a
/// store that held other keys keeps them.
pub proof fn law_snapshot_brings_keys_back(
    v: StoreView,
    now: u64,
    bytes: Seq<u8>,
    count: nat,
    into: StoreView,
    later: u64,
    key: Seq<u8>,
)
    requires
        snapshot_of(v, now, bytes, count),
        now <= later,
    ensures
        snapshot_records(bytes) is Some,
        ({
            let w = restored(into, snapshot_records(bytes).unwrap(), later);
            &&& there(v, key, later) ==> there(w, key, later) && w.contents[key] == v.contents[key]
            &&& !there(v, key, later) ==> same_at(into, w, key)
            &&& same_setup(into, w)
        }),
{
    law_snapshot_tells_what_is_there(v, now, bytes, count);
    let list = snapshot_records(bytes).unwrap();
    law_restored_keys(into, list, later, key);
    if there(v, key, later) {
        assert(there(v, key, now));
        let i = choose|i: int| 0 <= i < list.len() && (#[trigger] list[i]).0 == key;
        assert(told_last(list, later, key, i));
    }
}

} // verus!
