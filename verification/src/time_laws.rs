//! What the commands on times to live are for.
use vstd::prelude::*;

use crate::client::{answered, asks, lemma_asks, refused, same_at, same_but_at, there};
use crate::command::Command;
use crate::dispatch::{executes, Outcome, Situation};
use crate::entry::Record;
use crate::model::StoreView;
use crate::number::signed_of;
use crate::resp::Reply;
use crate::room_laws::{lemma_looked, lemma_removed, looked, removed};

verus! {

/// TTL tells how many seconds a key that is there has left; -1 where it has no end, and -2 where the
/// key is not there. More than can be told counts as the most that can.
pub proof fn law_ttl(s: Situation, o: Outcome)
    requires
        asks(s, "ttl"@),
        executes(s, o),
    ensures
        s.words.len() < 2 ==> refused(s, o, "wrong number of arguments"@),
        s.words.len() >= 2 ==> {
            let key = s.words[1];
            &&& looked(s.store, o.store, key, s.now)
            &&& !there(s.store, key, s.now) ==> answered(s, o, Reply::Integer(-2))
            &&& there(s.store, key, s.now) ==> match s.store.contents[key].expiry {
                None => answered(s, o, Reply::Integer(-1)),
                Some(end) => if end - s.now <= 0x7fff_ffff_ffff_ffff {
                    answered(s, o, Reply::Integer(end - s.now))
                } else {
                    answered(s, o, Reply::Integer(0x7fff_ffff_ffff_ffff))
                },
            }
        },
{
    lemma_asks(s, Command::Ttl, "ttl"@);
    if s.words.len() >= 2 {
        lemma_looked(s.store, s.words[1], s.now);
    }
}

/// PTTL tells how many milliseconds a key that is there has left; -1 where it has no end, and -2
/// where the key is not there. More than can be told counts as the most that can.
pub proof fn law_pttl(s: Situation, o: Outcome)
    requires
        asks(s, "pttl"@),
        executes(s, o),
    ensures
        s.words.len() < 2 ==> refused(s, o, "wrong number of arguments"@),
        s.words.len() >= 2 ==> {
            let key = s.words[1];
            &&& looked(s.store, o.store, key, s.now)
            &&& !there(s.store, key, s.now) ==> answered(s, o, Reply::Integer(-2))
            &&& there(s.store, key, s.now) ==> match s.store.contents[key].expiry {
                None => answered(s, o, Reply::Integer(-1)),
                Some(end) => if 1000 * (end - s.now) <= 0x7fff_ffff_ffff_ffff {
                    answered(s, o, Reply::Integer(1000 * (end - s.now)))
                } else {
                    answered(s, o, Reply::Integer(0x7fff_ffff_ffff_ffff))
                },
            }
        },
{
    lemma_asks(s, Command::Pttl, "pttl"@);
    if s.words.len() >= 2 {
        lemma_looked(s.store, s.words[1], s.now);
    }
}

/// The key ends at another time, or at none, and holds what it held; nothing else has changed.
pub open spec fn ends_otherwise(
    v: StoreView,
    w: StoreView,
    key: Seq<u8>,
    end: Option<u64>,
) -> bool {
    &&& same_but_at(v, w, key)
    &&& w.contents.contains_key(key)
    &&& w.contents[key] == (Record { expiry: end, value: v.contents[key].value })
    &&& w.access_times == v.access_times
    &&& w.memory_used == v.memory_used
}

/// EXPIRE gives a key that is there so many seconds from now on; it removes the key where they are
/// not positive. The answer is whether the key was there.
pub proof fn law_expire(s: Situation, o: Outcome)
    requires
        asks(s, "expire"@),
        executes(s, o),
    ensures
        s.words.len() < 3 ==> refused(s, o, "wrong number of arguments"@),
        s.words.len() >= 3 && signed_of(s.words[2]) is None ==> refused(
            s,
            o,
            "value is not an integer or out of range"@,
        ),
        s.words.len() >= 3 && signed_of(s.words[2]) is Some ==> {
            let (key, seconds) = (s.words[1], signed_of(s.words[2]).unwrap());
            &&& answered(
                s,
                o,
                Reply::Integer(
                    if there(s.store, key, s.now) {
                        1
                    } else {
                        0
                    },
                ),
            )
            &&& seconds <= 0 ==> removed(s.store, o.store, key)
            &&& seconds > 0 && !there(s.store, key, s.now) ==> looked(
                s.store,
                o.store,
                key,
                s.now,
            )
            &&& seconds > 0 && there(s.store, key, s.now) ==> ends_otherwise(
                s.store,
                o.store,
                key,
                Some(
                    if s.now + seconds <= u64::MAX {
                        (s.now + seconds) as u64
                    } else {
                        u64::MAX
                    },
                ),
            )
        },
{
    lemma_asks(s, Command::Expire, "expire"@);
    if s.words.len() >= 3 && signed_of(s.words[2]) is Some {
        let (key, seconds) = (s.words[1], signed_of(s.words[2]).unwrap());
        lemma_removed(s.store, key);
        lemma_looked(s.store, key, s.now);
        if seconds > 0 && there(s.store, key, s.now) {
            assert forall|other: Seq<u8>| other != key implies #[trigger] same_at(
                s.store,
                o.store,
                other,
            ) by {}
        }
    }
}

/// PERSIST lets a key that is there be so for good. The answer is whether it would have ended.
pub proof fn law_persist(s: Situation, o: Outcome)
    requires
        asks(s, "persist"@),
        executes(s, o),
    ensures
        s.words.len() < 2 ==> refused(s, o, "wrong number of arguments"@),
        s.words.len() >= 2 ==> {
            let key = s.words[1];
            if there(s.store, key, s.now) && s.store.contents[key].expiry is Some {
                answered(s, o, Reply::Integer(1)) && ends_otherwise(s.store, o.store, key, None)
            } else {
                answered(s, o, Reply::Integer(0)) && looked(s.store, o.store, key, s.now)
            }
        },
{
    lemma_asks(s, Command::Persist, "persist"@);
    if s.words.len() >= 2 {
        let key = s.words[1];
        lemma_looked(s.store, key, s.now);
        if there(s.store, key, s.now) && s.store.contents[key].expiry is Some {
            assert forall|other: Seq<u8>| other != key implies #[trigger] same_at(
                s.store,
                o.store,
                other,
            ) by {}
        }
    }
}

} // verus!
