//! What the commands on hashes are for.
use vstd::prelude::*;

use crate::client::{answered, asks, lemma_asks, refused, sound, there};
use crate::command::Command;
use crate::dispatch::{executes, Outcome, Situation};
use crate::entry::{Record, ValueView};
use crate::eviction::makes_room;
use crate::fields::{lists_flat, merged};
use crate::hash_commands::{hset_pairs, pairs_size};
use crate::laws::{last_at, law_last_field_value_wins};
use crate::model::StoreView;
use crate::resp::{bulk_list, Reply};
use crate::room_laws::{
    held_at_most, law_keys_give_way, lemma_read, lemma_stored, read, room_is_made, stored,
};
use crate::size::field_weight;
use crate::store::WRONG_TYPE;
use crate::sums::{lemma_listing_finite, seq_sum};
use crate::text_commands::OUT_OF_MEMORY;
use crate::text_laws::end_of;

verus! {

/// The fields of the hash under a key that is there; none where it holds no hash.
pub open spec fn fields_now(v: StoreView, key: Seq<u8>, now: u64) -> Map<Seq<u8>, Seq<u8>> {
    if there(v, key, now) {
        match v.contents[key].value {
            ValueView::Hash(fields) => fields,
            ValueView::Text(_) => Map::empty(),
        }
    } else {
        Map::empty()
    }
}

/// The key is there and holds a byte string, where a hash is asked for.
pub open spec fn wrong_kind(v: StoreView, key: Seq<u8>, now: u64) -> bool {
    there(v, key, now) && v.contents[key].value is Text
}

/// The bytes of the first `n` fields and values of `HSET key field value ..`.
pub open spec fn bytes_given(words: Seq<Seq<u8>>, n: int) -> nat
    decreases n,
{
    if n <= 0 {
        0
    } else {
        bytes_given(words, n - 1) + words[2 * n].len() + words[2 * n + 1].len()
    }
}

/// The last pair of `HSET key field value ..` that names the field is the one at `i`.
pub open spec fn field_set_last(words: Seq<Seq<u8>>, field: Seq<u8>, i: int) -> bool {
    &&& 0 <= i < (words.len() - 2) / 2
    &&& words[2 * i + 2] == field
    &&& forall|j: int| i < j < (words.len() - 2) / 2 ==> words[#[trigger] (2 * j + 2)] != field
}

/// A field that an HSET names has the last value that it gives for it; another field has the value
/// that it had, if any.
pub open spec fn field_set_or_kept(
    words: Seq<Seq<u8>>,
    was: Map<Seq<u8>, Seq<u8>>,
    is: Map<Seq<u8>, Seq<u8>>,
    field: Seq<u8>,
) -> bool {
    &&& forall|i: int| #[trigger]
        field_set_last(words, field, i) ==> is.contains_key(field) && is[field] == words[2 * i + 3]
    &&& (forall|i: int| !#[trigger] field_set_last(words, field, i)) ==> is.contains_key(field)
        == was.contains_key(field) && (was.contains_key(field) ==> is[field] == was[field])
}

/// What an HSET does once it has room: the hash comes to have the fields that it names and keeps the
/// others, for as long as it would have been there; the answer is how many are new.
pub open spec fn hset_comes_to(
    s: Situation,
    mid: StoreView,
    fields: Map<Seq<u8>, Seq<u8>>,
    o: Outcome,
    reply: Reply,
) -> bool {
    let (key, was) = (s.words[1], fields_now(mid, s.words[1], s.now));
    &&& forall|field: Seq<u8>| #[trigger] field_set_or_kept(s.words, was, fields, field)
    &&& stored(mid, o.store, key, ValueView::Hash(fields), end_of(mid, key, s.now))
    &&& reply == Reply::Integer(fields.dom().difference(was.dom()).len() as int)
}

/// HSET asks for room for the fields and sets them; a key that holds a byte string is left alone.
pub proof fn law_hset(s: Situation, o: Outcome)
    requires
        asks(s, "hset"@),
        sound(s.store),
        executes(s, o),
    ensures
        s.words.len() < 4 || s.words.len() % 2 == 1 ==> refused(s, o, "wrong number of arguments"@),
        s.words.len() >= 4 && s.words.len() % 2 == 0 ==> exists|
            mid: StoreView,
            granted: bool,
            reply: Reply,
        |
            {
                &&& #[trigger] room_is_made(
                    s.store,
                    held_at_most(
                        s.words[1].len() + 64 + 128 + bytes_given(s.words, (s.words.len() - 2) / 2),
                    ),
                    mid,
                    granted,
                )
                &&& #[trigger] answered(s, o, reply)
                &&& !granted ==> o.store == mid && reply == Reply::Error(
                    "OOM command not allowed when used memory > 'maxmemory'"@,
                )
                &&& granted && wrong_kind(mid, s.words[1], s.now) ==> o.store == mid && reply
                    == Reply::Error(
                    "WRONGTYPE Operation against a key holding the wrong kind of value"@,
                )
                &&& granted && !wrong_kind(mid, s.words[1], s.now) ==> exists|
                    fields: Map<Seq<u8>, Seq<u8>>,
                | #[trigger] hset_comes_to(s, mid, fields, o, reply)
            },
{
    lemma_asks(s, Command::Hset, "hset"@);
    if s.words.len() >= 4 && s.words.len() % 2 == 0 {
        let (key, pairs, now) = (s.words[1], hset_pairs(s.words), s.now);
        let reply = o.reply.unwrap();
        let n = (s.words.len() - 2) / 2;
        assert(pairs.take(n) =~= pairs);
        lemma_bytes_given(s.words, n);
        let needed = pairs_size(key, pairs);
        assert(needed == held_at_most(key.len() + 64 + 128 + bytes_given(s.words, n)));
        let (mid, granted) = choose|mid: StoreView, granted: bool|
            {
                &&& #[trigger] makes_room(s.store, needed, mid, granted)
                &&& if !granted {
                    o.store == mid && reply == Reply::Error(OUT_OF_MEMORY@)
                } else if mid.not_a_hash(key, now) {
                    o.store == mid && reply == Reply::Error(WRONG_TYPE@)
                } else {
                    let base = mid.hash_fields(key, now);
                    let whole = merged(base, pairs);
                    &&& mid.stores(
                        key,
                        (Record {
                            value: ValueView::Hash(whole),
                            expiry: mid.live_expiry(key, now),
                        }),
                        o.store,
                    )
                    &&& reply == Reply::Integer(whole.dom().difference(base.dom()).len() as int)
                }
            };
        law_keys_give_way(s.store, needed, mid, granted);
        if granted && !wrong_kind(mid, key, now) {
            let was = fields_now(mid, key, now);
            let whole = merged(was, pairs);
            assert(was == mid.hash_fields(key, now));
            let record = Record {
                value: ValueView::Hash(whole),
                expiry: mid.live_expiry(key, now),
            };
            lemma_stored(mid, key, record, o.store);
            assert forall|field: Seq<u8>| #[trigger]
                field_set_or_kept(s.words, was, whole, field) by {
                lemma_field(s.words, was, field);
            }
            assert(hset_comes_to(s, mid, whole, o, reply));
        }
        assert(answered(s, o, reply));
    }
}

proof fn lemma_bytes_given(words: Seq<Seq<u8>>, n: int)
    requires
        words.len() >= 2,
        0 <= n <= (words.len() - 2) / 2,
    ensures
        seq_sum(hset_pairs(words).take(n), field_weight()) == bytes_given(words, n),
    decreases n,
{
    let pairs = hset_pairs(words);
    if n > 0 {
        lemma_bytes_given(words, n - 1);
        assert(pairs.take(n).drop_last() =~= pairs.take(n - 1));
        assert(pairs.take(n).last() == (words[2 * n], words[2 * n + 1]));
    } else {
        assert(pairs.take(0) =~= Seq::empty());
    }
}

proof fn lemma_field(words: Seq<Seq<u8>>, was: Map<Seq<u8>, Seq<u8>>, field: Seq<u8>)
    requires
        words.len() >= 2,
    ensures
        field_set_or_kept(words, was, merged(was, hset_pairs(words)), field),
{
    let pairs = hset_pairs(words);
    law_last_field_value_wins(was, pairs, field);
    assert forall|i: int| #[trigger] field_set_last(words, field, i) implies last_at(
        pairs,
        field,
        i,
    ) by {
        assert forall|j: int| i < j < pairs.len() implies (#[trigger] pairs[j]).0 != field by {
            assert(words[2 * j + 2] != field);
        }
    }
    if forall|i: int| !#[trigger] field_set_last(words, field, i) {
        assert forall|i: int| 0 <= i < pairs.len() implies (#[trigger] pairs[i]).0 != field by {
            if pairs[i].0 == field {
                lemma_some_is_last(words, field, i);
            }
        }
    }
}

/// Where a field is named, one of the pairs that name it is the last.
proof fn lemma_some_is_last(words: Seq<Seq<u8>>, field: Seq<u8>, i: int)
    requires
        words.len() >= 2,
        0 <= i < (words.len() - 2) / 2,
        words[2 * i + 2] == field,
    ensures
        exists|at: int| #[trigger] field_set_last(words, field, at),
    decreases (words.len() - 2) / 2 - i,
{
    if !field_set_last(words, field, i) {
        let j = choose|j: int|
            i < j < (words.len() - 2) / 2 && words[#[trigger] (2 * j + 2)] == field;
        lemma_some_is_last(words, field, j);
    }
}

/// HGET gives the value of a field of a hash that is there, and nothing else; the key is only read.
pub proof fn law_hget(s: Situation, o: Outcome)
    requires
        asks(s, "hget"@),
        executes(s, o),
    ensures
        s.words.len() < 3 ==> refused(s, o, "wrong number of arguments"@),
        s.words.len() >= 3 ==> {
            let fields = fields_now(s.store, s.words[1], s.now);
            &&& read(s.store, o.store, s.words[1], s.now)
            &&& if wrong_kind(s.store, s.words[1], s.now) {
                answered(
                    s,
                    o,
                    Reply::Error(
                        "WRONGTYPE Operation against a key holding the wrong kind of value"@,
                    ),
                )
            } else if fields.contains_key(s.words[2]) {
                answered(s, o, Reply::Bulk(fields[s.words[2]]))
            } else {
                answered(s, o, Reply::Null)
            }
        },
{
    lemma_asks(s, Command::Hget, "hget"@);
    if s.words.len() >= 3 {
        lemma_read(s.store, o.store, s.words[1], s.now);
    }
}

/// At an even place of a list stands the field, and its value right behind it.
pub open spec fn given_at(items: Seq<Reply>, at: int, field: Seq<u8>, value: Seq<u8>) -> bool {
    &&& 0 <= at < items.len() - 1
    &&& at % 2 == 0
    &&& items[at] == Reply::Bulk(field)
    &&& items[at + 1] == Reply::Bulk(value)
}

/// The items are the fields with their values, each value right behind its field, and no others.
pub open spec fn lists_fields(items: Seq<Reply>, fields: Map<Seq<u8>, Seq<u8>>) -> bool {
    &&& items.len() == 2 * fields.dom().len()
    &&& forall|field: Seq<u8>| #[trigger]
        fields.contains_key(field) ==> exists|at: int| #[trigger]
            given_at(items, at, field, fields[field])
}

/// HGETALL gives every field of a hash with its value, and nothing for a key that is not there; the
/// key is only read.
pub proof fn law_hgetall(s: Situation, o: Outcome)
    requires
        asks(s, "hgetall"@),
        executes(s, o),
    ensures
        s.words.len() < 2 ==> refused(s, o, "wrong number of arguments"@),
        s.words.len() >= 2 ==> {
            &&& read(s.store, o.store, s.words[1], s.now)
            &&& wrong_kind(s.store, s.words[1], s.now) ==> answered(
                s,
                o,
                Reply::Error("WRONGTYPE Operation against a key holding the wrong kind of value"@),
            )
            &&& !wrong_kind(s.store, s.words[1], s.now) ==> {
                &&& o.reply matches Some(Reply::List(items)) && lists_fields(
                    items,
                    fields_now(s.store, s.words[1], s.now),
                )
                &&& answered(s, o, o.reply.unwrap())
            }
        },
{
    lemma_asks(s, Command::Hgetall, "hgetall"@);
    if s.words.len() >= 2 {
        let (key, now) = (s.words[1], s.now);
        lemma_read(s.store, o.store, key, now);
        if !wrong_kind(s.store, key, now) {
            let fields = fields_now(s.store, key, now);
            assert(fields == s.store.hash_fields(key, now));
            let flat = choose|flat: Seq<Seq<u8>>| #[trigger]
                lists_flat(flat, fields) && o.reply.unwrap() == bulk_list(flat);
            let items = flat.map_values(|item: Seq<u8>| Reply::Bulk(item));
            lemma_lists_fields(flat, fields);
            assert(answered(s, o, Reply::List(items)));
        }
    }
}

proof fn lemma_lists_fields(flat: Seq<Seq<u8>>, fields: Map<Seq<u8>, Seq<u8>>)
    requires
        lists_flat(flat, fields),
    ensures
        lists_fields(flat.map_values(|item: Seq<u8>| Reply::Bulk(item)), fields),
{
    let items = flat.map_values(|item: Seq<u8>| Reply::Bulk(item));
    let pairs = Seq::new((flat.len() / 2) as nat, |i: int| (flat[2 * i], flat[2 * i + 1]));
    let names = pairs.map_values(|pair: (Seq<u8>, Seq<u8>)| pair.0);
    lemma_listing_finite(pairs, fields);
    assert forall|i: int, j: int| 0 <= i < names.len() && 0 <= j < names.len() && i != j implies names[i]
        != names[j] by {
        if i < j {
            assert(pairs[i].0 != pairs[j].0);
        } else {
            assert(pairs[j].0 != pairs[i].0);
        }
    }
    names.unique_seq_to_set();
    assert forall|field: Seq<u8>| #[trigger] fields.contains_key(field) implies exists|at: int|
        #[trigger] given_at(items, at, field, fields[field]) by {
        let i = choose|i: int| 0 <= i < pairs.len() && (#[trigger] pairs[i]).0 == field;
        assert(fields[pairs[i].0] == pairs[i].1);
        assert(given_at(items, 2 * i, field, fields[field]));
    }
}

/// An HGETALL that follows an HSET at once gives every field that the HSET names, with the last value
/// that it gives for it.
pub proof fn law_hgetall_after_hset(
    s: Situation,
    o: Outcome,
    t: Situation,
    p: Outcome,
    i: int,
    added: int,
)
    requires
        asks(s, "hset"@),
        sound(s.store),
        executes(s, o),
        answered(s, o, Reply::Integer(added)),
        asks(t, "hgetall"@),
        t.words.len() >= 2,
        t.words[1] == s.words[1],
        t.store == o.store,
        t.now == s.now,
        executes(t, p),
        field_set_last(s.words, s.words[2 * i + 2], i),
    ensures
        p.reply matches Some(Reply::List(items)) && exists|at: int| #[trigger]
            given_at(items, at, s.words[2 * i + 2], s.words[2 * i + 3]),
{
    lemma_asks(s, Command::Hset, "hset"@);
    lemma_asks(t, Command::Hgetall, "hgetall"@);
    lemma_hset_holds(s, o, i, added);
    lemma_hgetall_gives(t, p, s.words[2 * i + 2], s.words[2 * i + 3]);
}

proof fn lemma_hset_holds(s: Situation, o: Outcome, i: int, added: int)
    requires
        asks(s, "hset"@),
        sound(s.store),
        executes(s, o),
        answered(s, o, Reply::Integer(added)),
        field_set_last(s.words, s.words[2 * i + 2], i),
    ensures
        !wrong_kind(o.store, s.words[1], s.now),
        fields_now(o.store, s.words[1], s.now).contains_key(s.words[2 * i + 2]),
        fields_now(o.store, s.words[1], s.now)[s.words[2 * i + 2]] == s.words[2 * i + 3],
{
    lemma_asks(s, Command::Hset, "hset"@);
    law_hset(s, o);
    let (mid, granted, reply) = choose|mid: StoreView, granted: bool, reply: Reply|
        {
            &&& #[trigger] room_is_made(
                s.store,
                held_at_most(
                    s.words[1].len() + 64 + 128 + bytes_given(s.words, (s.words.len() - 2) / 2),
                ),
                mid,
                granted,
            )
            &&& #[trigger] answered(s, o, reply)
            &&& !granted ==> o.store == mid && reply == Reply::Error(
                "OOM command not allowed when used memory > 'maxmemory'"@,
            )
            &&& granted && wrong_kind(mid, s.words[1], s.now) ==> o.store == mid && reply
                == Reply::Error(
                "WRONGTYPE Operation against a key holding the wrong kind of value"@,
            )
            &&& granted && !wrong_kind(mid, s.words[1], s.now) ==> exists|
                fields: Map<Seq<u8>, Seq<u8>>,
            | #[trigger] hset_comes_to(s, mid, fields, o, reply)
        };
    let fields = choose|fields: Map<Seq<u8>, Seq<u8>>| #[trigger]
        hset_comes_to(s, mid, fields, o, reply);
    assert(field_set_or_kept(
        s.words,
        fields_now(mid, s.words[1], s.now),
        fields,
        s.words[2 * i + 2],
    ));
    assert(there(o.store, s.words[1], s.now));
}

proof fn lemma_hgetall_gives(t: Situation, p: Outcome, field: Seq<u8>, value: Seq<u8>)
    requires
        asks(t, "hgetall"@),
        t.words.len() >= 2,
        executes(t, p),
        !wrong_kind(t.store, t.words[1], t.now),
        fields_now(t.store, t.words[1], t.now).contains_key(field),
        fields_now(t.store, t.words[1], t.now)[field] == value,
    ensures
        p.reply matches Some(Reply::List(items)) && exists|at: int| #[trigger]
            given_at(items, at, field, value),
{
    law_hgetall(t, p);
    lemma_in_list(
        p.reply.unwrap()->List_0,
        fields_now(t.store, t.words[1], t.now),
        field,
    );
}

proof fn lemma_in_list(items: Seq<Reply>, fields: Map<Seq<u8>, Seq<u8>>, field: Seq<u8>)
    requires
        lists_fields(items, fields),
        fields.contains_key(field),
    ensures
        exists|at: int| #[trigger] given_at(items, at, field, fields[field]),
{
}

} // verus!
