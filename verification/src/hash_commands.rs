//! The commands on hashes.
use bytes::Bytes;
use vstd::prelude::*;

use crate::entry::{Record, ValueView};
use crate::eviction::{evict_if_needed, makes_room};
use crate::fields::{lists_flat, merged, pairs_of};
use crate::model::StoreView;
use crate::octets::{octets_all, slice_of};
use crate::resp::{bulk_list, bulk_or_null, encoded, Reply, RespWriter};
use crate::size::{clamped, field_weight, ENTRY_OVERHEAD, HASH_OVERHEAD};
use crate::store::{ShardedStore, WRONG_TYPE};
use crate::sums::{lemma_seq_sum_take, seq_sum};
use crate::text_commands::{looks_up, OUT_OF_MEMORY, WRONG_ARGUMENTS};

verus! {

/// The fields and values of `HSET key field value ..`.
pub open spec fn hset_pairs(words: Seq<Seq<u8>>) -> Seq<(Seq<u8>, Seq<u8>)> {
    Seq::new(((words.len() - 2) / 2) as nat, |i: int| (words[2 + 2 * i], words[3 + 2 * i]))
}

/// What a hash of the fields alone would count for.
pub open spec fn pairs_size(key: Seq<u8>, pairs: Seq<(Seq<u8>, Seq<u8>)>) -> nat {
    clamped(
        key.len() + ENTRY_OVERHEAD as nat + HASH_OVERHEAD as nat + seq_sum(pairs, field_weight()),
    )
}

/// What `HSET key field value ..` does: room is made for the fields, and they are set. The answer
/// is how many of them are new.
pub open spec fn hset_answers(
    before: StoreView,
    words: Seq<Seq<u8>>,
    now: u64,
    after: StoreView,
    reply: Reply,
) -> bool {
    if words.len() < 4 || words.len() % 2 == 1 {
        after == before && reply == Reply::Error(WRONG_ARGUMENTS@)
    } else {
        let (key, pairs) = (words[1], hset_pairs(words));
        exists|mid: StoreView, granted: bool|
            {
                &&& #[trigger] makes_room(before, pairs_size(key, pairs), mid, granted)
                &&& if !granted {
                    after == mid && reply == Reply::Error(OUT_OF_MEMORY@)
                } else if mid.not_a_hash(key, now) {
                    after == mid && reply == Reply::Error(WRONG_TYPE@)
                } else {
                    let base = mid.hash_fields(key, now);
                    let whole = merged(base, pairs);
                    &&& mid.stores(
                        key,
                        (Record {
                            value: ValueView::Hash(whole),
                            expiry: mid.live_expiry(key, now),
                        }),
                        after,
                    )
                    &&& reply == Reply::Integer(whole.dom().difference(base.dom()).len() as int)
                }
            }
    }
}

/// The fields of an HSET, and what a hash of them alone would count for.
fn hset_fields(command: &[Bytes]) -> (fields: (Vec<(Bytes, Bytes)>, usize))
    requires
        command@.len() >= 4,
        command@.len() % 2 == 0,
    ensures
        pairs_of(fields.0@) == hset_pairs(octets_all(command@)),
        fields.1 == pairs_size(
            octets_all(command@)[1],
            hset_pairs(octets_all(command@)),
        ),
{
    let ghost words = octets_all(command@);
    let ghost pairs = hset_pairs(words);
    let ghost fixed = words[1].len() + ENTRY_OVERHEAD as nat + HASH_OVERHEAD as nat;
    let mut fields: Vec<(Bytes, Bytes)> = Vec::new();
    let mut size: usize = command[1].len().saturating_add(ENTRY_OVERHEAD).saturating_add(
        HASH_OVERHEAD,
    );
    let mut i: usize = 0;
    proof {
        assert(pairs.take(0) =~= Seq::empty());
        assert(pairs_of(fields@) =~= pairs.take(0));
    }
    while i < (command.len() - 2) / 2
        invariant
            command@.len() >= 4,
            command@.len() % 2 == 0,
            words == octets_all(command@),
            pairs == hset_pairs(words),
            i <= (command@.len() - 2) / 2,
            pairs_of(fields@) == pairs.take(i as int),
            size == clamped(fixed + seq_sum(pairs.take(i as int), field_weight())),
        decreases (command@.len() - 2) / 2 - i,
    {
        let field = &command[2 + 2 * i];
        let value = &command[3 + 2 * i];
        let ghost before = fields@;
        proof {
            lemma_seq_sum_take(pairs, i as int, field_weight());
        }
        fields.push((field.clone(), value.clone()));
        size = size.saturating_add(field.len()).saturating_add(value.len());
        proof {
            assert(pairs_of(fields@) =~= pairs_of(before).push(pairs[i as int]));
            assert(pairs.take(i + 1) =~= pairs.take(i as int).push(pairs[i as int]));
        }
        i += 1;
    }
    proof {
        assert(pairs.take(i as int) =~= pairs);
    }
    (fields, size)
}

/// `HSET key field value ..`: sets fields of a hash.
pub fn handle_hset(store: &mut ShardedStore, command: &[Bytes], writer: &mut RespWriter, now: u64)
    requires
        old(store).wf(),
        old(store)@.num_shards > 0,
    ensures
        final(store).wf(),
        exists|reply: Reply|
            {
                &&& #[trigger] hset_answers(
                    old(store)@,
                    octets_all(command@),
                    now,
                    final(store)@,
                    reply,
                )
                &&& final(writer)@ == old(writer)@ + encoded(reply)
            },
{
    let ghost words = octets_all(command@);
    let ghost before = store@;
    if command.len() < 4 || command.len() % 2 == 1 {
        writer.write_error(WRONG_ARGUMENTS);
        assert(hset_answers(
            before,
            words,
            now,
            store@,
            Reply::Error(WRONG_ARGUMENTS@),
        ));
        return;
    }
    let (fields, size) = hset_fields(command);
    let granted = evict_if_needed(store, size);
    let ghost mid = store@;
    assert(makes_room(before, pairs_size(words[1], hset_pairs(words)), mid, granted));
    if !granted {
        writer.write_error(OUT_OF_MEMORY);
        assert(hset_answers(before, words, now, store@, Reply::Error(OUT_OF_MEMORY@)));
        return;
    }
    match store.hset(command[1].clone(), fields.as_slice(), now) {
        Ok(count) => {
            writer.write_integer(count);
            assert(hset_answers(before, words, now, store@, Reply::Integer(count as int)));
        },
        Err(message) => {
            writer.write_error(message);
            assert(hset_answers(before, words, now, store@, Reply::Error(WRONG_TYPE@)));
        },
    }
}

/// What `HGET key field` answers.
pub open spec fn hget_reply(v: StoreView, words: Seq<Seq<u8>>, now: u64) -> Reply {
    if words.len() < 3 {
        Reply::Error(WRONG_ARGUMENTS@)
    } else if v.not_a_hash(words[1], now) {
        Reply::Error(WRONG_TYPE@)
    } else {
        bulk_or_null(v.hash_fields(words[1], now).get(words[2]))
    }
}

/// What `HGET key field` does to the store: the key is visited.
pub open spec fn hget_looks_up(
    v: StoreView,
    words: Seq<Seq<u8>>,
    now: u64,
    after: StoreView,
) -> bool {
    if words.len() < 3 {
        after == v
    } else {
        v.visits(words[1], now, after)
    }
}

/// `HGET key field`: the value of a field.
pub fn handle_hget(store: &mut ShardedStore, command: &[Bytes], writer: &mut RespWriter, now: u64)
    requires
        old(store).wf(),
        old(store)@.num_shards > 0,
    ensures
        final(store).wf(),
        hget_looks_up(old(store)@, octets_all(command@), now, final(store)@),
        final(writer)@ == old(writer)@ + encoded(
            hget_reply(old(store)@, octets_all(command@), now),
        ),
{
    if command.len() < 3 {
        writer.write_error(WRONG_ARGUMENTS);
        return;
    }
    match store.hget(slice_of(&command[1]), slice_of(&command[2]), now) {
        Ok(value) => writer.write_optional(&value),
        Err(message) => writer.write_error(message),
    }
}

/// What `HGETALL key` answers: the fields with their values, in some order.
pub open spec fn hgetall_answers(
    v: StoreView,
    words: Seq<Seq<u8>>,
    now: u64,
    reply: Reply,
) -> bool {
    if words.len() < 2 {
        reply == Reply::Error(WRONG_ARGUMENTS@)
    } else if v.not_a_hash(words[1], now) {
        reply == Reply::Error(WRONG_TYPE@)
    } else {
        exists|flat: Seq<Seq<u8>>| #[trigger]
            lists_flat(flat, v.hash_fields(words[1], now)) && reply == bulk_list(flat)
    }
}

/// `HGETALL key`: the fields of a hash with their values.
pub fn handle_hgetall(
    store: &mut ShardedStore,
    command: &[Bytes],
    writer: &mut RespWriter,
    now: u64,
)
    requires
        old(store).wf(),
        old(store)@.num_shards > 0,
    ensures
        final(store).wf(),
        looks_up(old(store)@, octets_all(command@), now, final(store)@),
        exists|reply: Reply|
            {
                &&& #[trigger] hgetall_answers(old(store)@, octets_all(command@), now, reply)
                &&& final(writer)@ == old(writer)@ + encoded(reply)
            },
{
    let ghost words = octets_all(command@);
    let ghost before = store@;
    if command.len() < 2 {
        writer.write_error(WRONG_ARGUMENTS);
        assert(hgetall_answers(before, words, now, Reply::Error(WRONG_ARGUMENTS@)));
        return;
    }
    match store.hgetall(slice_of(&command[1]), now) {
        Ok(flat) => {
            writer.write_array(flat.as_slice());
            assert(hgetall_answers(before, words, now, bulk_list(octets_all(flat@))));
        },
        Err(message) => {
            writer.write_error(message);
            assert(hgetall_answers(before, words, now, Reply::Error(WRONG_TYPE@)));
        },
    }
}

} // verus!
