//! The commands on byte strings.
use bytes::Bytes;
use vstd::prelude::*;
use vstd::slice::slice_subrange;

use crate::command::{parse_set_options, set_options, SetOptions, NOT_A_NUMBER};
use crate::entry::{EntryValue, Record, ValueView};
use crate::eviction::{evict_if_needed, makes_room};
use crate::model::{text_record, StoreView};
use crate::number::{decimal, format_i64, parse_i64, parse_u64, signed_of, unsigned_of};
use crate::octets::{bytes_from, octets, octets_all, octets_opt, slice_of};
use crate::resp::{
    bulk_or_null, encoded, encoded_all, lemma_encoded_push, list_header, Reply, RespWriter,
};
use crate::size::{calculate_entry_size, clamped, entry_size, value_size};
use crate::store::{ShardedStore, WRONG_TYPE};

verus! {

/// The answer to a command with too few words.
pub const WRONG_ARGUMENTS: &'static str = "wrong number of arguments";

/// The answer to a write that there is no room for.
pub const OUT_OF_MEMORY: &'static str =
    "OOM command not allowed when used memory > 'maxmemory'";

/// What a byte string counts for under a key.
pub open spec fn text_size(key: Seq<u8>, text: Seq<u8>) -> nat {
    value_size(key.len(), ValueView::Text(text))
}

/// Asking for room, unless none is needed.
pub open spec fn room_for(
    before: StoreView,
    needed: nat,
    after: StoreView,
    granted: bool,
) -> bool {
    if needed == 0 {
        granted && after == before
    } else {
        makes_room(before, needed, after, granted)
    }
}

/// What SET does once there is room.
pub open spec fn sets(
    before: StoreView,
    key: Seq<u8>,
    value: Seq<u8>,
    options: SetOptions,
    now: u64,
    after: StoreView,
    reply: Reply,
) -> bool {
    let present = before.live(key, now);
    let answer = bulk_or_null(before.text(key, now));
    if options.nx && options.xx {
        after == before && reply == Reply::Error(NX_AND_XX@)
    } else if options.nx && present {
        after == before && reply == (if options.get {
            answer
        } else {
            Reply::Null
        })
    } else if options.xx && !present {
        after == before && reply == Reply::Null
    } else {
        &&& before.stores(key, text_record(value, options.ttl, now), after)
        &&& reply == (if options.get {
            answer
        } else {
            Reply::Status("OK"@)
        })
    }
}

/// What `SET key value option ..` does: room is made first, whatever the options say.
pub open spec fn set_answers(
    before: StoreView,
    words: Seq<Seq<u8>>,
    now: u64,
    after: StoreView,
    reply: Reply,
) -> bool {
    if words.len() < 3 {
        after == before && reply == Reply::Error(WRONG_ARGUMENTS@)
    } else {
        let (key, value) = (words[1], words[2]);
        exists|mid: StoreView, granted: bool|
            {
                &&& #[trigger] makes_room(before, text_size(key, value), mid, granted)
                &&& if !granted {
                    after == mid && reply == Reply::Error(OUT_OF_MEMORY@)
                } else {
                    match set_options(words.skip(3), SetOptions::none()) {
                        Err(message) => after == mid && reply == Reply::Error(message),
                        Ok(options) => sets(mid, key, value, options, now, after, reply),
                    }
                }
            }
    }
}

/// The answer to two options that exclude each other.
pub const NX_AND_XX: &'static str = "XX and NX options at the same time are not compatible";

/// SET once there is room.
fn set_value(
    store: &mut ShardedStore,
    key: &Bytes,
    value: &Bytes,
    options: SetOptions,
    writer: &mut RespWriter,
    now: u64,
)
    requires
        old(store).wf(),
        old(store)@.num_shards > 0,
    ensures
        final(store).wf(),
        exists|reply: Reply|
            {
                &&& #[trigger] sets(
                    old(store)@,
                    octets(*key),
                    octets(*value),
                    options,
                    now,
                    final(store)@,
                    reply,
                )
                &&& final(writer)@ == old(writer)@ + encoded(reply)
            },
{
    let ghost (k, v, before) = (octets(*key), octets(*value), store@);
    if options.nx && options.xx {
        writer.write_error(NX_AND_XX);
        assert(sets(before, k, v, options, now, store@, Reply::Error(NX_AND_XX@)));
        return;
    }
    let mut present = false;
    let mut old_value: Option<Bytes> = None;
    if let Some(entry) = store.find(slice_of(key)) {
        if !entry.is_expired(now) {
            present = true;
            if let EntryValue::String(text) = entry.value {
                old_value = Some(text);
            }
        }
    }
    proof {
        assert(octets_opt(old_value) == before.text(k, now));
    }
    let ghost answer = bulk_or_null(before.text(k, now));
    if (options.nx && present) || (options.xx && !present) {
        if options.nx && options.get {
            writer.write_optional(&old_value);
            assert(sets(before, k, v, options, now, store@, answer));
        } else {
            writer.write_null();
            assert(sets(before, k, v, options, now, store@, Reply::Null));
        }
        return;
    }
    store.store_text(key.clone(), value.clone(), options.ttl, now);
    if options.get {
        writer.write_optional(&old_value);
        assert(sets(before, k, v, options, now, store@, answer));
    } else {
        writer.write_simple_string("OK");
        assert(sets(before, k, v, options, now, store@, Reply::Status("OK"@)));
    }
}

/// `SET key value option ..`: stores a byte string.
pub fn handle_set(store: &mut ShardedStore, command: &[Bytes], writer: &mut RespWriter, now: u64)
    requires
        old(store).wf(),
        old(store)@.num_shards > 0,
    ensures
        final(store).wf(),
        exists|reply: Reply|
            {
                &&& #[trigger] set_answers(
                    old(store)@,
                    octets_all(command@),
                    now,
                    final(store)@,
                    reply,
                )
                &&& final(writer)@ == old(writer)@ + encoded(reply)
            },
{
    let ghost words = octets_all(command@);
    let ghost before = store@;
    if command.len() < 3 {
        writer.write_error(WRONG_ARGUMENTS);
        assert(set_answers(
            before,
            words,
            now,
            store@,
            Reply::Error(WRONG_ARGUMENTS@),
        ));
        return;
    }
    let key = &command[1];
    let value = &command[2];
    let ghost (k, v) = (words[1], words[2]);
    let size: usize = entry_size(key.len(), value.len());
    let granted = evict_if_needed(store, size);
    let ghost mid = store@;
    assert(makes_room(before, text_size(k, v), mid, granted));
    if !granted {
        writer.write_error(OUT_OF_MEMORY);
        assert(set_answers(before, words, now, store@, Reply::Error(OUT_OF_MEMORY@)));
        return;
    }
    match parse_set_options(command, 3) {
        Ok(options) => {
            let ghost start = writer@;
            set_value(store, key, value, options, writer, now);
            proof {
                let reply = choose|reply: Reply|
                    {
                        &&& #[trigger] sets(mid, k, v, options, now, store@, reply)
                        &&& writer@ == start + encoded(reply)
                    };
                assert(set_answers(before, words, now, store@, reply));
            }
        },
        Err(message) => {
            writer.write_error(message);
            assert(set_answers(before, words, now, store@, Reply::Error(message@)));
        },
    }
}

/// What `SETEX key seconds value` does: it sets a byte string with a time to live.
pub open spec fn setex_answers(
    before: StoreView,
    words: Seq<Seq<u8>>,
    now: u64,
    after: StoreView,
    reply: Reply,
) -> bool {
    if words.len() < 4 {
        after == before && reply == Reply::Error(WRONG_ARGUMENTS@)
    } else {
        let (key, value) = (words[1], words[3]);
        exists|mid: StoreView, granted: bool|
            {
                &&& #[trigger] makes_room(before, text_size(key, value), mid, granted)
                &&& if !granted {
                    after == mid && reply == Reply::Error(OUT_OF_MEMORY@)
                } else {
                    match unsigned_of(words[2]) {
                        Some(seconds) if seconds > 0 => {
                            &&& mid.stores(key, text_record(value, Some(seconds), now), after)
                            &&& reply == Reply::Status("OK"@)
                        },
                        _ => after == mid && reply == Reply::Error(NOT_A_NUMBER@),
                    }
                }
            }
    }
}

/// `SETEX key seconds value`: stores a byte string with a time to live.
pub fn handle_setex(store: &mut ShardedStore, command: &[Bytes], writer: &mut RespWriter, now: u64)
    requires
        old(store).wf(),
        old(store)@.num_shards > 0,
    ensures
        final(store).wf(),
        exists|reply: Reply|
            {
                &&& #[trigger] setex_answers(
                    old(store)@,
                    octets_all(command@),
                    now,
                    final(store)@,
                    reply,
                )
                &&& final(writer)@ == old(writer)@ + encoded(reply)
            },
{
    let ghost words = octets_all(command@);
    let ghost before = store@;
    if command.len() < 4 {
        writer.write_error(WRONG_ARGUMENTS);
        assert(setex_answers(
            before,
            words,
            now,
            store@,
            Reply::Error(WRONG_ARGUMENTS@),
        ));
        return;
    }
    let key = &command[1];
    let value = &command[3];
    let ghost (k, v) = (words[1], words[3]);
    let size: usize = entry_size(key.len(), value.len());
    let granted = evict_if_needed(store, size);
    let ghost mid = store@;
    assert(makes_room(before, text_size(k, v), mid, granted));
    if !granted {
        writer.write_error(OUT_OF_MEMORY);
        assert(setex_answers(before, words, now, store@, Reply::Error(OUT_OF_MEMORY@)));
        return;
    }
    if let Some(seconds) = parse_u64(slice_of(&command[2])) {
        if seconds > 0 {
            store.store_text(key.clone(), value.clone(), Some(seconds), now);
            writer.write_simple_string("OK");
            assert(setex_answers(before, words, now, store@, Reply::Status("OK"@)));
            return;
        }
    }
    writer.write_error(NOT_A_NUMBER);
    assert(setex_answers(before, words, now, store@, Reply::Error(NOT_A_NUMBER@)));
}

/// What GET answers.
pub open spec fn get_reply(v: StoreView, words: Seq<Seq<u8>>, now: u64) -> Reply {
    if words.len() < 2 {
        Reply::Error(WRONG_ARGUMENTS@)
    } else {
        bulk_or_null(v.text(words[1], now))
    }
}

/// What a command that looks at the key in its second word leaves: the key is removed if it has
/// expired.
pub open spec fn looked_at(v: StoreView, words: Seq<Seq<u8>>, now: u64) -> StoreView {
    if words.len() < 2 {
        v
    } else {
        v.purged(words[1], now)
    }
}

/// What a command that looks up the key in its second word does: the key is visited.
pub open spec fn looks_up(v: StoreView, words: Seq<Seq<u8>>, now: u64, after: StoreView) -> bool {
    if words.len() < 2 {
        after == v
    } else {
        v.visits(words[1], now, after)
    }
}

/// `GET key`: the byte string under a key.
pub fn handle_get(store: &mut ShardedStore, command: &[Bytes], writer: &mut RespWriter, now: u64)
    requires
        old(store).wf(),
        old(store)@.num_shards > 0,
    ensures
        final(store).wf(),
        looks_up(old(store)@, octets_all(command@), now, final(store)@),
        final(writer)@ == old(writer)@ + encoded(
            get_reply(old(store)@, octets_all(command@), now),
        ),
{
    if command.len() < 2 {
        writer.write_error(WRONG_ARGUMENTS);
        return;
    }
    let value = store.get(slice_of(&command[1]), now);
    writer.write_optional(&value);
}

/// What INCR and its kin make of the byte string under a key: `delta` more, where it is a number
/// and the sum can be written. A key that is not live counts as zero.
pub open spec fn incremented(v: StoreView, key: Seq<u8>, delta: i64, now: u64) -> Result<
    i64,
    Seq<char>,
> {
    if v.live(key, now) {
        match v.contents[key].value {
            ValueView::Hash(_) => Err(WRONG_TYPE@),
            ValueView::Text(text) => match signed_of(text) {
                None => Err(NOT_A_NUMBER@),
                Some(n) => checked_sum(n, delta),
            },
        }
    } else {
        checked_sum(0, delta)
    }
}

/// The sum of two numbers, where it can be written.
pub open spec fn checked_sum(n: i64, delta: i64) -> Result<i64, Seq<char>> {
    if i64::MIN <= n + delta <= i64::MAX {
        Ok((n + delta) as i64)
    } else if delta > 0 {
        Err(INCREMENT_OVERFLOW@)
    } else {
        Err(DECREMENT_OVERFLOW@)
    }
}

/// The answer to a sum that is too large.
pub const INCREMENT_OVERFLOW: &'static str = "increment would produce overflow";

/// The answer to a sum that is too small.
pub const DECREMENT_OVERFLOW: &'static str = "decrement would produce overflow";

/// How much more a key counts for once it holds the byte string.
pub open spec fn growth(v: StoreView, key: Seq<u8>, text: Seq<u8>, now: u64) -> nat {
    let present = if v.live(key, now) {
        v.size_of(key)
    } else {
        0
    };
    if text_size(key, text) > present {
        (text_size(key, text) - present) as nat
    } else {
        0
    }
}

/// What INCR and its kin do: the sum takes the place of the byte string, and expires when that
/// would have.
pub open spec fn incr_answers(
    before: StoreView,
    words: Seq<Seq<u8>>,
    delta: i64,
    now: u64,
    after: StoreView,
    reply: Reply,
) -> bool {
    if words.len() < 2 {
        after == before && reply == Reply::Error(WRONG_ARGUMENTS@)
    } else {
        let key = words[1];
        let purged = before.purged(key, now);
        match incremented(before, key, delta, now) {
            Err(message) => after == purged && reply == Reply::Error(message),
            Ok(sum) => {
                let text = decimal(sum as int);
                exists|mid: StoreView, granted: bool|
                    {
                        &&& #[trigger] room_for(
                            purged,
                            growth(before, key, text, now),
                            mid,
                            granted,
                        )
                        &&& if granted {
                            &&& mid.stores(
                                key,
                                (Record {
                                    value: ValueView::Text(text),
                                    expiry: before.live_expiry(key, now),
                                }),
                                after,
                            )
                            &&& reply == Reply::Integer(sum as int)
                        } else {
                            after == mid && reply == Reply::Error(OUT_OF_MEMORY@)
                        }
                    }
            },
        }
    }
}

/// Asks for room, unless none is needed.
fn ask_for_room(store: &mut ShardedStore, needed: usize) -> (granted: bool)
    requires
        old(store).wf(),
        old(store)@.num_shards > 0,
    ensures
        final(store).wf(),
        room_for(old(store)@, needed as nat, final(store)@, granted),
{
    needed == 0 || evict_if_needed(store, needed)
}

/// `INCR key` and its kin: adds `delta` to the number under a key.
pub fn handle_incr(
    store: &mut ShardedStore,
    command: &[Bytes],
    writer: &mut RespWriter,
    now: u64,
    delta: i64,
)
    requires
        old(store).wf(),
        old(store)@.num_shards > 0,
    ensures
        final(store).wf(),
        exists|reply: Reply|
            {
                &&& #[trigger] incr_answers(
                    old(store)@,
                    octets_all(command@),
                    delta,
                    now,
                    final(store)@,
                    reply,
                )
                &&& final(writer)@ == old(writer)@ + encoded(reply)
            },
{
    let ghost words = octets_all(command@);
    let ghost before = store@;
    if command.len() < 2 {
        writer.write_error(WRONG_ARGUMENTS);
        assert(incr_answers(
            before,
            words,
            delta,
            now,
            store@,
            Reply::Error(WRONG_ARGUMENTS@),
        ));
        return;
    }
    let key = &command[1];
    let ghost k = words[1];
    let mut current: i64 = 0;
    let mut ttl: Option<u64> = None;
    let mut old_size: usize = 0;
    if let Some(entry) = store.find_live(slice_of(key), now) {
        let parsed = match &entry.value {
            EntryValue::String(text) => match parse_i64(slice_of(text)) {
                Some(n) => Ok(n),
                None => Err(NOT_A_NUMBER),
            },
            EntryValue::Hash(_) => Err(WRONG_TYPE),
        };
        match parsed {
            Ok(n) => {
                current = n;
            },
            Err(message) => {
                writer.write_error(message);
                assert(incr_answers(
                    before,
                    words,
                    delta,
                    now,
                    store@,
                    Reply::Error(message@),
                ));
                return;
            },
        }
        ttl = match entry.expiry {
            Some(expiry) => Some(expiry - now),
            None => None,
        };
        old_size = calculate_entry_size(key.len(), &entry.value);
    }
    assert(incremented(before, k, delta, now) == checked_sum(current, delta));
    let sum: i64 = match current.checked_add(delta) {
        Some(sum) => sum,
        None => {
            let message = if delta > 0 {
                INCREMENT_OVERFLOW
            } else {
                DECREMENT_OVERFLOW
            };
            writer.write_error(message);
            assert(incr_answers(before, words, delta, now, store@, Reply::Error(message@)));
            return;
        },
    };
    let value = bytes_from(format_i64(sum));
    let size: usize = entry_size(key.len(), value.len());
    let needed: usize = if size > old_size {
        size - old_size
    } else {
        0
    };
    let ghost text = decimal(sum as int);
    assert(needed == growth(before, k, text, now));
    let granted = ask_for_room(store, needed);
    let ghost mid = store@;
    assert(room_for(
        before.purged(k, now),
        growth(before, k, text, now),
        mid,
        granted,
    ));
    if !granted {
        writer.write_error(OUT_OF_MEMORY);
        assert(incr_answers(
            before,
            words,
            delta,
            now,
            store@,
            Reply::Error(OUT_OF_MEMORY@),
        ));
        return;
    }
    store.store_text(key.clone(), value, ttl, now);
    writer.write_signed_integer(sum);
    proof {
        assert(text_record(text, ttl, now) == (Record {
            value: ValueView::Text(text),
            expiry: before.live_expiry(k, now),
        }));
        assert(incr_answers(before, words, delta, now, store@, Reply::Integer(sum as int)));
    }
}

/// What `INCRBY key increment` does.
pub open spec fn incrby_answers(
    before: StoreView,
    words: Seq<Seq<u8>>,
    now: u64,
    after: StoreView,
    reply: Reply,
) -> bool {
    if words.len() < 3 {
        after == before && reply == Reply::Error(WRONG_ARGUMENTS@)
    } else {
        match signed_of(words[2]) {
            None => after == before && reply == Reply::Error(NOT_A_NUMBER@),
            Some(n) => incr_answers(before, words, n, now, after, reply),
        }
    }
}

/// `INCRBY key increment`: adds to the number under a key.
pub fn handle_incrby(store: &mut ShardedStore, command: &[Bytes], writer: &mut RespWriter, now: u64)
    requires
        old(store).wf(),
        old(store)@.num_shards > 0,
    ensures
        final(store).wf(),
        exists|reply: Reply|
            {
                &&& #[trigger] incrby_answers(
                    old(store)@,
                    octets_all(command@),
                    now,
                    final(store)@,
                    reply,
                )
                &&& final(writer)@ == old(writer)@ + encoded(reply)
            },
{
    let ghost words = octets_all(command@);
    let ghost (before, start) = (store@, writer@);
    if command.len() < 3 {
        writer.write_error(WRONG_ARGUMENTS);
        assert(incrby_answers(
            before,
            words,
            now,
            store@,
            Reply::Error(WRONG_ARGUMENTS@),
        ));
        return;
    }
    match parse_i64(slice_of(&command[2])) {
        Some(increment) => {
            handle_incr(store, command, writer, now, increment);
            proof {
                let reply = choose|reply: Reply|
                    {
                        &&& #[trigger] incr_answers(
                            before,
                            words,
                            increment,
                            now,
                            store@,
                            reply,
                        )
                        &&& writer@ == start + encoded(reply)
                    };
                assert(incrby_answers(before, words, now, store@, reply));
            }
        },
        None => {
            writer.write_error(NOT_A_NUMBER);
            assert(incrby_answers(
                before,
                words,
                now,
                store@,
                Reply::Error(NOT_A_NUMBER@),
            ));
        },
    }
}

/// What `DECRBY key decrement` does. The least number has no counterpart and is refused.
pub open spec fn decrby_answers(
    before: StoreView,
    words: Seq<Seq<u8>>,
    now: u64,
    after: StoreView,
    reply: Reply,
) -> bool {
    if words.len() < 3 {
        after == before && reply == Reply::Error(WRONG_ARGUMENTS@)
    } else {
        match signed_of(words[2]) {
            Some(n) if n > i64::MIN => incr_answers(
                before,
                words,
                (-n) as i64,
                now,
                after,
                reply,
            ),
            _ => after == before && reply == Reply::Error(NOT_A_NUMBER@),
        }
    }
}

/// `DECRBY key decrement`: subtracts from the number under a key.
pub fn handle_decrby(store: &mut ShardedStore, command: &[Bytes], writer: &mut RespWriter, now: u64)
    requires
        old(store).wf(),
        old(store)@.num_shards > 0,
    ensures
        final(store).wf(),
        exists|reply: Reply|
            {
                &&& #[trigger] decrby_answers(
                    old(store)@,
                    octets_all(command@),
                    now,
                    final(store)@,
                    reply,
                )
                &&& final(writer)@ == old(writer)@ + encoded(reply)
            },
{
    let ghost words = octets_all(command@);
    let ghost (before, start) = (store@, writer@);
    if command.len() < 3 {
        writer.write_error(WRONG_ARGUMENTS);
        assert(decrby_answers(
            before,
            words,
            now,
            store@,
            Reply::Error(WRONG_ARGUMENTS@),
        ));
        return;
    }
    if let Some(decrement) = parse_i64(slice_of(&command[2])) {
        if decrement != i64::MIN {
            let delta: i64 = -decrement;
            handle_incr(store, command, writer, now, delta);
            proof {
                let reply = choose|reply: Reply|
                    {
                        &&& #[trigger] incr_answers(
                            before,
                            words,
                            delta,
                            now,
                            store@,
                            reply,
                        )
                        &&& writer@ == start + encoded(reply)
                    };
                assert(decrby_answers(before, words, now, store@, reply));
            }
            return;
        }
    }
    writer.write_error(NOT_A_NUMBER);
    assert(decrby_answers(before, words, now, store@, Reply::Error(NOT_A_NUMBER@)));
}

/// The byte strings under keys, each as an answer.
pub open spec fn texts(v: StoreView, keys: Seq<Seq<u8>>, now: u64) -> Seq<Reply> {
    keys.map_values(|key: Seq<u8>| bulk_or_null(v.text(key, now)))
}

/// What MGET answers.
pub open spec fn mget_reply(v: StoreView, words: Seq<Seq<u8>>, now: u64) -> Reply {
    if words.len() < 2 {
        Reply::Error(WRONG_ARGUMENTS@)
    } else {
        Reply::List(texts(v, words.skip(1), now))
    }
}

/// What MGET does to the store: the keys are visited one after the other.
pub open spec fn looks_up_all(
    v: StoreView,
    words: Seq<Seq<u8>>,
    now: u64,
    after: StoreView,
) -> bool {
    if words.len() < 2 {
        after == v
    } else {
        exists|times: Seq<Option<u32>>|
            {
                &&& times.len() == words.len() - 1
                &&& after == #[trigger] v.visited_all(words.skip(1), now, times)
            }
    }
}

/// Visiting keys does not change what any key holds.
pub proof fn lemma_visited_all_text(
    v: StoreView,
    keys: Seq<Seq<u8>>,
    now: u64,
    times: Seq<Option<u32>>,
    key: Seq<u8>,
)
    ensures
        v.visited_all(keys, now, times).text(key, now) == v.text(key, now),
        v.visited_all(keys, now, times).num_shards == v.num_shards,
    decreases keys.len(),
{
    if keys.len() > 0 {
        lemma_visited_all_text(v, keys.drop_last(), now, times.drop_last(), key);
    }
}

/// `MGET key ..`: the byte strings under keys.
pub fn handle_mget(store: &mut ShardedStore, command: &[Bytes], writer: &mut RespWriter, now: u64)
    requires
        old(store).wf(),
        old(store)@.num_shards > 0,
    ensures
        final(store).wf(),
        looks_up_all(old(store)@, octets_all(command@), now, final(store)@),
        final(writer)@ == old(writer)@ + encoded(
            mget_reply(old(store)@, octets_all(command@), now),
        ),
{
    if command.len() < 2 {
        writer.write_error(WRONG_ARGUMENTS);
        return;
    }
    let ghost words = octets_all(command@);
    let ghost keys = words.skip(1);
    let ghost (before, start) = (store@, writer@);
    let ghost all = texts(before, keys, now);
    let ghost mut times: Seq<Option<u32>> = Seq::empty();
    writer.write_array_header(command.len() - 1);
    let mut i: usize = 1;
    proof {
        assert(all.take(0) =~= Seq::empty());
        assert(keys.take(0) =~= Seq::empty());
        assert(writer@ =~= start + (list_header(all.len()) + encoded_all(all.take(0))));
    }
    while i < command.len()
        invariant
            1 <= i <= command@.len(),
            store.wf(),
            store@.num_shards > 0,
            words == octets_all(command@),
            keys == words.skip(1),
            all == texts(before, keys, now),
            times.len() == i - 1,
            store@ == before.visited_all(keys.take(i - 1), now, times),
            writer@ == start + (list_header(all.len()) + encoded_all(all.take(i - 1))),
        decreases command@.len() - i,
    {
        let ghost done = keys.take(i - 1);
        let ghost v = store@;
        let value = store.get(slice_of(&command[i]), now);
        writer.write_optional(&value);
        proof {
            let key = keys[i - 1];
            let time = choose|time: Option<u32>| store@ == #[trigger] v.visited(key, now, time);
            let more = times.push(time);
            assert(more.drop_last() =~= times);
            let item = bulk_or_null(before.text(key, now));
            lemma_visited_all_text(before, done, now, times, key);
            assert(keys.take(i as int).drop_last() =~= done);
            assert(all.take(i as int) =~= all.take(i - 1).push(item));
            lemma_encoded_push(all.take(i - 1), item);
            assert(writer@ =~= start + (list_header(all.len()) + encoded_all(all.take(i as int))));
            times = more;
            lemma_visited_all_text(before, keys.take(i as int), now, times, key);
        }
        i += 1;
    }
    proof {
        assert(all.take(command@.len() - 1) =~= all);
        assert(keys.take(command@.len() - 1) =~= keys);
    }
}

/// The keys and byte strings of `MSET key value ..`.
pub open spec fn mset_pairs(words: Seq<Seq<u8>>) -> Seq<(Seq<u8>, Seq<u8>)> {
    Seq::new(((words.len() - 1) / 2) as nat, |i: int| (words[1 + 2 * i], words[2 + 2 * i]))
}

/// How much more the keys count for once they hold the byte strings, each looked at by itself.
pub open spec fn net_growth(v: StoreView, pairs: Seq<(Seq<u8>, Seq<u8>)>, now: u64) -> int
    decreases pairs.len(),
{
    if pairs.len() == 0 {
        0
    } else {
        let (key, text) = pairs.last();
        net_growth(v, pairs.drop_last(), now) + text_size(key, text) - (if v.live(key, now) {
            v.size_of(key)
        } else {
            0
        })
    }
}

/// The room that a growth needs; shrinking needs none.
pub open spec fn room_needed(net: int) -> nat {
    if net > 0 {
        clamped(net as nat)
    } else {
        0
    }
}

/// Byte strings are stored one after the other, and their keys count as last accessed at times.
pub open spec fn stored_all(
    v: StoreView,
    pairs: Seq<(Seq<u8>, Seq<u8>)>,
    now: u64,
    times: Seq<u32>,
) -> StoreView
    decreases pairs.len(),
{
    if pairs.len() == 0 {
        v
    } else {
        stored_all(v, pairs.drop_last(), now, times.drop_last()).replaced(
            pairs.last().0,
            text_record(pairs.last().1, None, now),
            times.last(),
        )
    }
}

/// Byte strings are stored one after the other, and their keys count as last accessed at some times.
pub open spec fn stores_all(
    v: StoreView,
    pairs: Seq<(Seq<u8>, Seq<u8>)>,
    now: u64,
    after: StoreView,
) -> bool {
    exists|times: Seq<u32>|
        times.len() == pairs.len() && after == #[trigger] stored_all(v, pairs, now, times)
}

/// What `MSET key value ..` does: room is made for what the keys grow by together.
pub open spec fn mset_answers(
    before: StoreView,
    words: Seq<Seq<u8>>,
    now: u64,
    after: StoreView,
    reply: Reply,
) -> bool {
    if words.len() < 3 || words.len() % 2 == 0 {
        after == before && reply == Reply::Error(WRONG_PAIRS@)
    } else {
        let pairs = mset_pairs(words);
        exists|mid: StoreView, granted: bool|
            {
                &&& #[trigger] room_for(
                    before,
                    room_needed(net_growth(before, pairs, now)),
                    mid,
                    granted,
                )
                &&& if granted {
                    stores_all(mid, pairs, now, after) && reply == Reply::Status("OK"@)
                } else {
                    after == mid && reply == Reply::Error(OUT_OF_MEMORY@)
                }
            }
    }
}

/// The answer to MSET without pairs.
pub const WRONG_PAIRS: &'static str = "wrong number of arguments for MSET";

/// How much more the keys of an MSET count for.
fn net_size(store: &ShardedStore, command: &[Bytes], now: u64) -> (net: i128)
    requires
        store.wf(),
        store@.num_shards > 0,
        command@.len() % 2 == 1,
    ensures
        net == net_growth(store@, mset_pairs(octets_all(command@)), now),
{
    let ghost words = octets_all(command@);
    let ghost pairs = mset_pairs(words);
    let mut net: i128 = 0;
    let mut i: usize = 0;
    proof {
        assert(pairs.take(0) =~= Seq::empty());
    }
    while i < (command.len() - 1) / 2
        invariant
            store.wf(),
            store@.num_shards > 0,
            command@.len() % 2 == 1,
            words == octets_all(command@),
            pairs == mset_pairs(words),
            i <= (command@.len() - 1) / 2,
            net == net_growth(store@, pairs.take(i as int), now),
            -(i * 0x1_0000_0000_0000_0000) <= net <= i * 0x1_0000_0000_0000_0000,
        decreases (command@.len() - 1) / 2 - i,
    {
        let key = &command[1 + 2 * i];
        let value = &command[2 + 2 * i];
        let size: usize = entry_size(key.len(), value.len());
        let old_size: usize = match store.get_existing_size(slice_of(key), now) {
            Some(size) => size,
            None => 0,
        };
        proof {
            assert(pairs.take(i + 1).drop_last() =~= pairs.take(i as int));
            assert(pairs.take(i + 1).last() == (words[1 + 2 * i], words[2 + 2 * i]));
        }
        net = net + size as i128 - old_size as i128;
        i += 1;
    }
    proof {
        assert(pairs.take(i as int) =~= pairs);
    }
    net
}

/// `MSET key value ..`: stores byte strings.
pub fn handle_mset(store: &mut ShardedStore, command: &[Bytes], writer: &mut RespWriter, now: u64)
    requires
        old(store).wf(),
        old(store)@.num_shards > 0,
    ensures
        final(store).wf(),
        exists|reply: Reply|
            {
                &&& #[trigger] mset_answers(
                    old(store)@,
                    octets_all(command@),
                    now,
                    final(store)@,
                    reply,
                )
                &&& final(writer)@ == old(writer)@ + encoded(reply)
            },
{
    let ghost words = octets_all(command@);
    let ghost before = store@;
    if command.len() < 3 || command.len() % 2 == 0 {
        writer.write_error(WRONG_PAIRS);
        assert(mset_answers(before, words, now, store@, Reply::Error(WRONG_PAIRS@)));
        return;
    }
    let ghost pairs = mset_pairs(words);
    let net: i128 = net_size(store, command, now);
    let needed: usize = if net <= 0 {
        0
    } else if net > usize::MAX as i128 {
        usize::MAX
    } else {
        net as usize
    };
    let granted = ask_for_room(store, needed);
    let ghost mid = store@;
    assert(room_for(before, room_needed(net as int), mid, granted));
    if !granted {
        writer.write_error(OUT_OF_MEMORY);
        assert(mset_answers(before, words, now, store@, Reply::Error(OUT_OF_MEMORY@)));
        return;
    }
    let mut i: usize = 0;
    let ghost mut times: Seq<u32> = Seq::empty();
    proof {
        assert(pairs.take(0) =~= Seq::empty());
    }
    while i < (command.len() - 1) / 2
        invariant
            store.wf(),
            store@.num_shards > 0,
            command@.len() % 2 == 1,
            words == octets_all(command@),
            pairs == mset_pairs(words),
            i <= (command@.len() - 1) / 2,
            times.len() == i,
            store@ == stored_all(mid, pairs.take(i as int), now, times),
        decreases (command@.len() - 1) / 2 - i,
    {
        let key = &command[1 + 2 * i];
        let value = &command[2 + 2 * i];
        proof {
            assert(pairs.take(i + 1).drop_last() =~= pairs.take(i as int));
            assert(pairs.take(i + 1).last() == (words[1 + 2 * i], words[2 + 2 * i]));
        }
        let ghost v = store@;
        store.store_text(key.clone(), value.clone(), None, now);
        proof {
            let record = text_record(words[2 + 2 * i], None, now);
            let time = choose|time: u32| store@ == #[trigger] v.replaced(words[1 + 2 * i], record, time);
            let more = times.push(time);
            assert(more.drop_last() =~= times);
            times = more;
        }
        i += 1;
    }
    proof {
        assert(pairs.take(i as int) =~= pairs);
        assert(stores_all(mid, pairs, now, store@));
    }
    writer.write_simple_string("OK");
    assert(mset_answers(before, words, now, store@, Reply::Status("OK"@)));
}

/// What DEL answers: how many of the keys were live.
pub open spec fn del_reply(v: StoreView, words: Seq<Seq<u8>>, now: u64) -> Reply {
    if words.len() < 2 {
        Reply::Error(WRONG_ARGUMENTS@)
    } else {
        Reply::Integer(v.live_among(words.skip(1), now).len() as int)
    }
}

/// What DEL leaves.
pub open spec fn del_leaves(v: StoreView, words: Seq<Seq<u8>>) -> StoreView {
    if words.len() < 2 {
        v
    } else {
        v.dropped_all(words.skip(1))
    }
}

/// `DEL key ..`: removes keys.
pub fn handle_del(store: &mut ShardedStore, command: &[Bytes], writer: &mut RespWriter, now: u64)
    requires
        old(store).wf(),
        old(store)@.num_shards > 0,
    ensures
        final(store).wf(),
        final(store)@ == del_leaves(old(store)@, octets_all(command@)),
        final(writer)@ == old(writer)@ + encoded(
            del_reply(old(store)@, octets_all(command@), now),
        ),
{
    if command.len() < 2 {
        writer.write_error(WRONG_ARGUMENTS);
        return;
    }
    let keys = slice_subrange(command, 1, command.len());
    assert(octets_all(keys@) =~= octets_all(command@).skip(1));
    let count: usize = store.delete(keys, now);
    writer.write_integer(count);
}

/// What EXISTS answers: how many of the words name a live key.
pub open spec fn exists_reply(v: StoreView, words: Seq<Seq<u8>>, now: u64) -> Reply {
    if words.len() < 2 {
        Reply::Error(WRONG_ARGUMENTS@)
    } else {
        Reply::Integer(words.skip(1).filter(|key: Seq<u8>| v.live(key, now)).len() as int)
    }
}

/// `EXISTS key ..`: counts live keys.
pub fn handle_exists(store: &ShardedStore, command: &[Bytes], writer: &mut RespWriter, now: u64)
    requires
        store.wf(),
        store@.num_shards > 0,
    ensures
        final(writer)@ == old(writer)@ + encoded(
            exists_reply(store@, octets_all(command@), now),
        ),
{
    if command.len() < 2 {
        writer.write_error(WRONG_ARGUMENTS);
        return;
    }
    let keys = slice_subrange(command, 1, command.len());
    assert(octets_all(keys@) =~= octets_all(command@).skip(1));
    let count: usize = store.count_existing(keys, now);
    writer.write_integer(count);
}

} // verus!
