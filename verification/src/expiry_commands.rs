//! The commands on the time to live of keys.
use bytes::Bytes;
use vstd::prelude::*;

use crate::command::NOT_A_NUMBER;
use crate::model::{deadline, StoreView};
use crate::number::{parse_i64, signed_of};
use crate::octets::{octets_all, slice_of};
use crate::resp::{encoded, Reply, RespWriter};
use crate::store::ShardedStore;
use crate::text_commands::{looked_at, WRONG_ARGUMENTS};

verus! {

/// The answer for a key that is not live.
pub const NO_KEY: i64 = -2;

/// The answer for a key that does not expire.
pub const NO_EXPIRY: i64 = -1;

/// The seconds that are left of a live key, held at the largest number that can be written.
pub open spec fn seconds_left(expiry: u64, now: u64) -> i64 {
    if expiry - now <= i64::MAX {
        (expiry - now) as i64
    } else {
        i64::MAX
    }
}

/// The milliseconds that are left of a live key, held at the largest number that can be written.
pub open spec fn millis_left(expiry: u64, now: u64) -> i64 {
    if (expiry - now) * 1000 <= i64::MAX {
        ((expiry - now) * 1000) as i64
    } else {
        i64::MAX
    }
}

/// What TTL answers.
pub open spec fn ttl_reply(v: StoreView, words: Seq<Seq<u8>>, now: u64) -> Reply {
    if words.len() < 2 {
        Reply::Error(WRONG_ARGUMENTS@)
    } else if !v.live(words[1], now) {
        Reply::Integer(NO_KEY as int)
    } else {
        match v.contents[words[1]].expiry {
            Some(expiry) => Reply::Integer(seconds_left(expiry, now) as int),
            None => Reply::Integer(NO_EXPIRY as int),
        }
    }
}

/// What PTTL answers.
pub open spec fn pttl_reply(v: StoreView, words: Seq<Seq<u8>>, now: u64) -> Reply {
    if words.len() < 2 {
        Reply::Error(WRONG_ARGUMENTS@)
    } else if !v.live(words[1], now) {
        Reply::Integer(NO_KEY as int)
    } else {
        match v.contents[words[1]].expiry {
            Some(expiry) => Reply::Integer(millis_left(expiry, now) as int),
            None => Reply::Integer(NO_EXPIRY as int),
        }
    }
}

/// `TTL key`: the seconds that a key has left.
pub fn handle_ttl(store: &mut ShardedStore, command: &[Bytes], writer: &mut RespWriter, now: u64)
    requires
        old(store).wf(),
        old(store)@.num_shards > 0,
    ensures
        final(store).wf(),
        final(store)@ == looked_at(old(store)@, octets_all(command@), now),
        final(writer)@ == old(writer)@ + encoded(
            ttl_reply(old(store)@, octets_all(command@), now),
        ),
{
    if command.len() < 2 {
        writer.write_error(WRONG_ARGUMENTS);
        return;
    }
    let left: i64 = match store.find_live(slice_of(&command[1]), now) {
        Some(entry) => match entry.expiry {
            Some(expiry) => {
                let left: u64 = expiry - now;
                if left <= i64::MAX as u64 {
                    left as i64
                } else {
                    i64::MAX
                }
            },
            None => NO_EXPIRY,
        },
        None => NO_KEY,
    };
    writer.write_signed_integer(left);
}

/// `PTTL key`: the milliseconds that a key has left.
pub fn handle_pttl(store: &mut ShardedStore, command: &[Bytes], writer: &mut RespWriter, now: u64)
    requires
        old(store).wf(),
        old(store)@.num_shards > 0,
    ensures
        final(store).wf(),
        final(store)@ == looked_at(old(store)@, octets_all(command@), now),
        final(writer)@ == old(writer)@ + encoded(
            pttl_reply(old(store)@, octets_all(command@), now),
        ),
{
    if command.len() < 2 {
        writer.write_error(WRONG_ARGUMENTS);
        return;
    }
    let left: i64 = match store.find_live(slice_of(&command[1]), now) {
        Some(entry) => match entry.expiry {
            Some(expiry) => {
                let left: u64 = expiry - now;
                if left <= i64::MAX as u64 / 1000 {
                    left as i64 * 1000
                } else {
                    i64::MAX
                }
            },
            None => NO_EXPIRY,
        },
        None => NO_KEY,
    };
    writer.write_signed_integer(left);
}

/// What `EXPIRE key seconds` answers: whether the key was live.
pub open spec fn expire_reply(v: StoreView, words: Seq<Seq<u8>>, now: u64) -> Reply {
    if words.len() < 3 {
        Reply::Error(WRONG_ARGUMENTS@)
    } else if signed_of(words[2]) is None {
        Reply::Error(NOT_A_NUMBER@)
    } else if v.live(words[1], now) {
        Reply::Integer(1)
    } else {
        Reply::Integer(0)
    }
}

/// What `EXPIRE key seconds` leaves: a live key expires after so many seconds; it is removed where
/// they are not positive, and where it has expired already.
pub open spec fn expire_leaves(v: StoreView, words: Seq<Seq<u8>>, now: u64) -> StoreView {
    if words.len() < 3 {
        v
    } else {
        match signed_of(words[2]) {
            None => v,
            Some(seconds) => if seconds <= 0 {
                v.dropped(words[1])
            } else if v.live(words[1], now) {
                v.with_expiry(words[1], Some(deadline(now, seconds as u64)))
            } else {
                v.purged(words[1], now)
            },
        }
    }
}

/// `EXPIRE key seconds`: sets the time to live of a key.
pub fn handle_expire(store: &mut ShardedStore, command: &[Bytes], writer: &mut RespWriter, now: u64)
    requires
        old(store).wf(),
        old(store)@.num_shards > 0,
    ensures
        final(store).wf(),
        final(store)@ == expire_leaves(old(store)@, octets_all(command@), now),
        final(writer)@ == old(writer)@ + encoded(
            expire_reply(old(store)@, octets_all(command@), now),
        ),
{
    if command.len() < 3 {
        writer.write_error(WRONG_ARGUMENTS);
        return;
    }
    let key = slice_of(&command[1]);
    let seconds: i64 = match parse_i64(slice_of(&command[2])) {
        Some(seconds) => seconds,
        None => {
            writer.write_error(NOT_A_NUMBER);
            return;
        },
    };
    if seconds <= 0 {
        let live = match store.find(key) {
            Some(entry) => !entry.is_expired(now),
            None => false,
        };
        let _size = store.drop_key(key);
        writer.write_integer(
            if live {
                1
            } else {
                0
            },
        );
        return;
    }
    match store.find_live(key, now) {
        Some(_entry) => {
            store.set_expiry(key, Some(now.saturating_add(seconds as u64)));
            writer.write_integer(1);
        },
        None => {
            writer.write_integer(0);
        },
    }
}

/// What PERSIST answers: whether the key was live and would have expired.
pub open spec fn persist_reply(v: StoreView, words: Seq<Seq<u8>>, now: u64) -> Reply {
    if words.len() < 2 {
        Reply::Error(WRONG_ARGUMENTS@)
    } else if v.live_expiry(words[1], now) is Some {
        Reply::Integer(1)
    } else {
        Reply::Integer(0)
    }
}

/// What PERSIST leaves: a live key does not expire any more.
pub open spec fn persist_leaves(v: StoreView, words: Seq<Seq<u8>>, now: u64) -> StoreView {
    if words.len() < 2 {
        v
    } else if v.live_expiry(words[1], now) is Some {
        v.with_expiry(words[1], None)
    } else {
        v.purged(words[1], now)
    }
}

/// `PERSIST key`: lets a key stay.
pub fn handle_persist(
    store: &mut ShardedStore,
    command: &[Bytes],
    writer: &mut RespWriter,
    now: u64,
)
    requires
        old(store).wf(),
        old(store)@.num_shards > 0,
    ensures
        final(store).wf(),
        final(store)@ == persist_leaves(old(store)@, octets_all(command@), now),
        final(writer)@ == old(writer)@ + encoded(
            persist_reply(old(store)@, octets_all(command@), now),
        ),
{
    if command.len() < 2 {
        writer.write_error(WRONG_ARGUMENTS);
        return;
    }
    let key = slice_of(&command[1]);
    if let Some(entry) = store.find_live(key, now) {
        if entry.expiry.is_some() {
            store.set_expiry(key, None);
            writer.write_integer(1);
            return;
        }
    }
    writer.write_integer(0);
}

} // verus!
