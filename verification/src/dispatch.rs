//! Requests, from the first word to the reply.
use bytes::Bytes;
use vstd::prelude::*;

use crate::command::{classify, command_of, Command};
use crate::expiry_commands::{
    expire_leaves, expire_reply, handle_expire, handle_persist, handle_pttl, handle_ttl,
    persist_leaves, persist_reply, pttl_reply, ttl_reply,
};
use crate::hash_commands::{
    handle_hget, handle_hgetall, handle_hset, hget_looks_up, hget_reply, hgetall_answers,
    hset_answers,
};
use crate::model::StoreView;
use crate::octets::{octets_all, slice_of};
use crate::resp::{bulk_list, encoded, Reply, RespWriter};
use crate::server_commands::{
    auth_leaves, auth_reply, handle_auth, handle_keys, handle_scan, keys_answers, scan_answers,
    ConnectionState,
};
use crate::size::clamped;
use crate::stats::{LocalCount, ServerStats};
use crate::store::ShardedStore;
use crate::text_commands::{
    decrby_answers, del_leaves, del_reply, exists_reply, get_reply, handle_decrby, handle_del,
    handle_exists, handle_get, handle_incr, handle_incrby, handle_mget, handle_mset, handle_set,
    handle_setex, incr_answers, incrby_answers, looked_at, looks_up, looks_up_all, mget_reply, mset_answers,
    set_answers, setex_answers,
};

verus! {

/// What the server was set up with.
pub struct Settings {
    /// The password that clients are to give; empty where they need none.
    pub password: Vec<u8>,
    /// Whether snapshots may be saved.
    pub persistence_enabled: bool,
}

/// How the saving of snapshots stands.
#[derive(Clone, Copy, PartialEq, Eq, Structural, Debug)]
pub struct SaveStatus {
    /// A snapshot is being saved in the background.
    pub in_progress: bool,
    /// When the last snapshot was saved, in seconds since the epoch.
    pub last_save_time: u64,
}

/// What is left to do for a request once the reply is written, or before it can be.
#[derive(Clone, Copy, PartialEq, Eq, Structural, Debug)]
pub enum Action {
    /// Nothing.
    Done,
    /// Save a snapshot, then write the reply with [`finish_save`].
    Save,
    /// Start saving a snapshot in the background.
    BackgroundSave,
    /// Write the reply with [`crate::server_commands::handle_info`].
    Info,
}

/// The answer to a request without words.
pub const EMPTY_COMMAND: &'static str = "empty command";

/// The answer to a client that has to authenticate first.
pub const AUTHENTICATION_REQUIRED: &'static str = "NOAUTH Authentication required";

/// The answer to a request whose first word is no command.
pub const UNKNOWN_COMMAND: &'static str = "unknown command";

/// The answer to SAVE and BGSAVE where snapshots may not be saved.
pub const PERSISTENCE_DISABLED: &'static str = "persistence is disabled";

/// The answer to BGSAVE while a snapshot is being saved.
pub const SAVE_RUNNING: &'static str = "Background save already in progress";

/// The answer to BGSAVE.
pub const SAVE_STARTED: &'static str = "Background saving started";

/// All that decides what a request does.
pub ghost struct Situation {
    pub store: StoreView,
    pub words: Seq<Seq<u8>>,
    pub now: u64,
    pub authenticated: bool,
    pub password: Seq<u8>,
    pub persistence_enabled: bool,
    pub saves: SaveStatus,
}

/// What a request does.
pub ghost struct Outcome {
    pub store: StoreView,
    pub authenticated: bool,
    pub action: Action,
    /// The reply, where it is written already.
    pub reply: Option<Reply>,
}

/// What a command on the store does.
pub open spec fn serves(command: Command, s: Situation, after: StoreView, reply: Reply) -> bool {
    let (before, words, now) = (s.store, s.words, s.now);
    match command {
        Command::SetValue => set_answers(before, words, now, after, reply),
        Command::Setex => setex_answers(before, words, now, after, reply),
        Command::Get => looks_up(before, words, now, after) && reply == get_reply(
            before,
            words,
            now,
        ),
        Command::Del => after == del_leaves(before, words) && reply == del_reply(before, words, now),
        Command::Exists => after == before && reply == exists_reply(before, words, now),
        Command::Ttl => after == looked_at(before, words, now) && reply == ttl_reply(
            before,
            words,
            now,
        ),
        Command::Pttl => after == looked_at(before, words, now) && reply == pttl_reply(
            before,
            words,
            now,
        ),
        Command::Expire => after == expire_leaves(before, words, now) && reply == expire_reply(
            before,
            words,
            now,
        ),
        Command::Persist => after == persist_leaves(before, words, now) && reply == persist_reply(
            before,
            words,
            now,
        ),
        Command::Incr => incr_answers(before, words, 1, now, after, reply),
        Command::Decr => incr_answers(before, words, (-1) as i64, now, after, reply),
        Command::Incrby => incrby_answers(before, words, now, after, reply),
        Command::Decrby => decrby_answers(before, words, now, after, reply),
        Command::Mget => looks_up_all(before, words, now, after) && reply == mget_reply(
            before,
            words,
            now,
        ),
        Command::Mset => mset_answers(before, words, now, after, reply),
        Command::Hset => hset_answers(before, words, now, after, reply),
        Command::Hget => hget_looks_up(before, words, now, after) && reply == hget_reply(
            before,
            words,
            now,
        ),
        Command::Hgetall => looks_up(before, words, now, after) && hgetall_answers(
            before,
            words,
            now,
            reply,
        ),
        Command::Keys => after == before && keys_answers(before, now, reply),
        Command::Scan => after == before && scan_answers(before, words, now, reply),
        Command::Dbsize => after == before && reply == Reply::Integer(
            clamped(before.contents.dom().len()) as int,
        ),
        Command::Flushdb | Command::Flushall => {
            &&& reply == Reply::Status("OK"@)
            &&& exists|at: u64| after == #[trigger] before.flushed(at)
        },
        Command::Lastsave => after == before && reply == Reply::Integer(
            clamped(s.saves.last_save_time as nat) as int,
        ),
        Command::Ping => after == before && reply == Reply::Status("PONG"@),
        Command::Config | Command::Catalogue => after == before && reply == bulk_list(Seq::empty()),
        _ => after == before && reply == Reply::Error(UNKNOWN_COMMAND@),
    }
}

/// A request that changes nothing but is answered.
pub open spec fn turned_down(s: Situation, message: Seq<char>, o: Outcome) -> bool {
    o == Outcome {
        store: s.store,
        authenticated: s.authenticated,
        action: Action::Done,
        reply: Some(Reply::Error(message)),
    }
}

/// What a request does: it is turned down where it is empty, or where the client has to
/// authenticate first; AUTH and PING need no authentication.
pub open spec fn executes(s: Situation, o: Outcome) -> bool {
    if s.words.len() == 0 {
        turned_down(s, EMPTY_COMMAND@, o)
    } else {
        let command = command_of(s.words[0]);
        if !s.authenticated && command != Command::Auth && command != Command::Ping {
            turned_down(s, AUTHENTICATION_REQUIRED@, o)
        } else {
            match command {
                Command::Auth => {
                    &&& o.store == s.store
                    &&& o.authenticated == auth_leaves(s.authenticated, s.password, s.words)
                    &&& o.action == Action::Done
                    &&& o.reply == Some(auth_reply(s.password, s.words))
                },
                Command::Save => if !s.persistence_enabled {
                    turned_down(s, PERSISTENCE_DISABLED@, o)
                } else {
                    &&& o.store == s.store
                    &&& o.authenticated == s.authenticated
                    &&& o.action == Action::Save
                    &&& o.reply is None
                },
                Command::Bgsave => if !s.persistence_enabled {
                    turned_down(s, PERSISTENCE_DISABLED@, o)
                } else if s.saves.in_progress {
                    turned_down(s, SAVE_RUNNING@, o)
                } else {
                    &&& o.store == s.store
                    &&& o.authenticated == s.authenticated
                    &&& o.action == Action::BackgroundSave
                    &&& o.reply == Some(Reply::Status(SAVE_STARTED@))
                },
                Command::Info => {
                    &&& o.store == s.store
                    &&& o.authenticated == s.authenticated
                    &&& o.action == Action::Info
                    &&& o.reply is None
                },
                _ => {
                    &&& o.authenticated == s.authenticated
                    &&& o.action == Action::Done
                    &&& o.reply is Some
                    &&& serves(command, s, o.store, o.reply.unwrap())
                },
            }
        }
    }
}

/// What is written of an outcome.
pub open spec fn written(o: Outcome) -> Seq<u8> {
    match o.reply {
        Some(reply) => encoded(reply),
        None => Seq::empty(),
    }
}

/// Runs a command on the store.
#[verifier::spinoff_prover]
fn serve(
    kind: Command,
    store: &mut ShardedStore,
    command: &[Bytes],
    writer: &mut RespWriter,
    saves: SaveStatus,
    now: u64,
    Ghost(s): Ghost<Situation>,
)
    requires
        old(store).wf(),
        old(store)@.num_shards > 0,
        s.store == old(store)@,
        s.words == octets_all(command@),
        s.now == now,
        s.saves == saves,
    ensures
        final(store).wf(),
        exists|reply: Reply|
            {
                &&& #[trigger] serves(kind, s, final(store)@, reply)
                &&& final(writer)@ == old(writer)@ + encoded(reply)
            },
{
    let ghost start = writer@;
    match kind {
        Command::SetValue => {
            handle_set(store, command, writer, now);
            proof {
                let reply = choose|reply: Reply|
                    {
                        &&& #[trigger] set_answers(
                            s.store,
                            s.words,
                            now,
                            store@,
                            reply,
                        )
                        &&& writer@ == start + encoded(reply)
                    };
                assert(serves(kind, s, store@, reply));
            }
        },
        Command::Setex => {
            handle_setex(store, command, writer, now);
            proof {
                let reply = choose|reply: Reply|
                    {
                        &&& #[trigger] setex_answers(
                            s.store,
                            s.words,
                            now,
                            store@,
                            reply,
                        )
                        &&& writer@ == start + encoded(reply)
                    };
                assert(serves(kind, s, store@, reply));
            }
        },
        Command::Get => {
            handle_get(store, command, writer, now);
            assert(serves(kind, s, store@, get_reply(s.store, s.words, now)));
        },
        Command::Del => {
            handle_del(store, command, writer, now);
            assert(serves(kind, s, store@, del_reply(s.store, s.words, now)));
        },
        Command::Exists => {
            handle_exists(store, command, writer, now);
            assert(serves(kind, s, store@, exists_reply(s.store, s.words, now)));
        },
        Command::Ttl => {
            handle_ttl(store, command, writer, now);
            assert(serves(kind, s, store@, ttl_reply(s.store, s.words, now)));
        },
        Command::Pttl => {
            handle_pttl(store, command, writer, now);
            assert(serves(kind, s, store@, pttl_reply(s.store, s.words, now)));
        },
        Command::Expire => {
            handle_expire(store, command, writer, now);
            assert(serves(kind, s, store@, expire_reply(s.store, s.words, now)));
        },
        Command::Persist => {
            handle_persist(store, command, writer, now);
            assert(serves(kind, s, store@, persist_reply(s.store, s.words, now)));
        },
        Command::Incr | Command::Decr => {
            let delta: i64 = if kind == Command::Incr {
                1
            } else {
                -1
            };
            handle_incr(store, command, writer, now, delta);
            proof {
                let reply = choose|reply: Reply|
                    {
                        &&& #[trigger] incr_answers(
                            s.store,
                            s.words,
                            delta,
                            now,
                            store@,
                            reply,
                        )
                        &&& writer@ == start + encoded(reply)
                    };
                assert(serves(kind, s, store@, reply));
            }
        },
        Command::Incrby => {
            handle_incrby(store, command, writer, now);
            proof {
                let reply = choose|reply: Reply|
                    {
                        &&& #[trigger] incrby_answers(
                            s.store,
                            s.words,
                            now,
                            store@,
                            reply,
                        )
                        &&& writer@ == start + encoded(reply)
                    };
                assert(serves(kind, s, store@, reply));
            }
        },
        Command::Decrby => {
            handle_decrby(store, command, writer, now);
            proof {
                let reply = choose|reply: Reply|
                    {
                        &&& #[trigger] decrby_answers(
                            s.store,
                            s.words,
                            now,
                            store@,
                            reply,
                        )
                        &&& writer@ == start + encoded(reply)
                    };
                assert(serves(kind, s, store@, reply));
            }
        },
        Command::Mget => {
            handle_mget(store, command, writer, now);
            assert(serves(kind, s, store@, mget_reply(s.store, s.words, now)));
        },
        Command::Mset => {
            handle_mset(store, command, writer, now);
            proof {
                let reply = choose|reply: Reply|
                    {
                        &&& #[trigger] mset_answers(
                            s.store,
                            s.words,
                            now,
                            store@,
                            reply,
                        )
                        &&& writer@ == start + encoded(reply)
                    };
                assert(serves(kind, s, store@, reply));
            }
        },
        Command::Hset => {
            handle_hset(store, command, writer, now);
            proof {
                let reply = choose|reply: Reply|
                    {
                        &&& #[trigger] hset_answers(
                            s.store,
                            s.words,
                            now,
                            store@,
                            reply,
                        )
                        &&& writer@ == start + encoded(reply)
                    };
                assert(serves(kind, s, store@, reply));
            }
        },
        Command::Hget => {
            handle_hget(store, command, writer, now);
            assert(serves(kind, s, store@, hget_reply(s.store, s.words, now)));
        },
        Command::Hgetall => {
            handle_hgetall(store, command, writer, now);
            proof {
                let reply = choose|reply: Reply|
                    {
                        &&& #[trigger] hgetall_answers(s.store, s.words, now, reply)
                        &&& writer@ == start + encoded(reply)
                    };
                assert(serves(kind, s, store@, reply));
            }
        },
        Command::Keys => {
            handle_keys(store, writer, now);
            proof {
                let reply = choose|reply: Reply|
                    {
                        &&& #[trigger] keys_answers(s.store, now, reply)
                        &&& writer@ == start + encoded(reply)
                    };
                assert(serves(kind, s, store@, reply));
            }
        },
        Command::Scan => {
            handle_scan(store, command, writer, now);
            proof {
                let reply = choose|reply: Reply|
                    {
                        &&& #[trigger] scan_answers(s.store, s.words, now, reply)
                        &&& writer@ == start + encoded(reply)
                    };
                assert(serves(kind, s, store@, reply));
            }
        },
        Command::Dbsize => {
            let count: usize = store.len();
            writer.write_integer(count);
            assert(serves(kind, s, store@, Reply::Integer(count as int)));
        },
        Command::Flushdb | Command::Flushall => {
            store.flush();
            writer.write_simple_string("OK");
            assert(serves(kind, s, store@, Reply::Status("OK"@)));
        },
        Command::Lastsave => {
            let time: usize = if saves.last_save_time > usize::MAX as u64 {
                usize::MAX
            } else {
                saves.last_save_time as usize
            };
            writer.write_integer(time);
            assert(serves(kind, s, store@, Reply::Integer(time as int)));
        },
        Command::Ping => {
            writer.write_simple_string("PONG");
            assert(serves(kind, s, store@, Reply::Status("PONG"@)));
        },
        Command::Config | Command::Catalogue => {
            let none: Vec<Bytes> = Vec::new();
            writer.write_array(none.as_slice());
            proof {
                assert(octets_all(none@) =~= Seq::empty());
                assert(serves(kind, s, store@, bulk_list(Seq::empty())));
            }
        },
        _ => {
            writer.write_error(UNKNOWN_COMMAND);
            assert(serves(kind, s, store@, Reply::Error(UNKNOWN_COMMAND@)));
        },
    }
}

/// Runs a request: changes the store and the state of the connection, counts the command, and
/// writes the reply, unless something else has to be done first.
pub fn execute_command(
    store: &mut ShardedStore,
    command: &[Bytes],
    writer: &mut RespWriter,
    state: &mut ConnectionState,
    count: &mut LocalCount,
    stats: &mut ServerStats,
    settings: &Settings,
    saves: SaveStatus,
    now: u64,
) -> (action: Action)
    requires
        old(store).wf(),
        old(store)@.num_shards > 0,
        old(count).wf(),
    ensures
        final(store).wf(),
        final(count).wf(),
        old(count).counts_one(*old(stats), *final(count), *final(stats)),
        exists|o: Outcome|
            {
                &&& #[trigger] executes(
                    (Situation {
                        store: old(store)@,
                        words: octets_all(command@),
                        now,
                        authenticated: old(state).authenticated,
                        password: settings.password@,
                        persistence_enabled: settings.persistence_enabled,
                        saves,
                    }),
                    o,
                )
                &&& final(store)@ == o.store
                &&& final(state).authenticated == o.authenticated
                &&& action == o.action
                &&& final(writer)@ == old(writer)@ + written(o)
            },
{
    let ghost s = Situation {
        store: store@,
        words: octets_all(command@),
        now,
        authenticated: state.authenticated,
        password: settings.password@,
        persistence_enabled: settings.persistence_enabled,
        saves,
    };
    let ghost start = writer@;
    let ghost base = Outcome {
        store: s.store,
        authenticated: s.authenticated,
        action: Action::Done,
        reply: None,
    };
    count.record(stats);
    if command.len() == 0 {
        writer.write_error(EMPTY_COMMAND);
        assert(executes(s, Outcome { reply: Some(Reply::Error(EMPTY_COMMAND@)), ..base }));
        return Action::Done;
    }
    let kind = classify(slice_of(&command[0]));
    if !state.authenticated && kind != Command::Auth && kind != Command::Ping {
        writer.write_error(AUTHENTICATION_REQUIRED);
        assert(executes(
            s,
            Outcome { reply: Some(Reply::Error(AUTHENTICATION_REQUIRED@)), ..base },
        ));
        return Action::Done;
    }
    match kind {
        Command::Auth => {
            handle_auth(command, settings.password.as_slice(), writer, state);
            assert(executes(
                s,
                Outcome {
                    reply: Some(auth_reply(s.password, s.words)),
                    authenticated: auth_leaves(s.authenticated, s.password, s.words),
                    ..base
                },
            ));
            Action::Done
        },
        Command::Save => {
            if !settings.persistence_enabled {
                writer.write_error(PERSISTENCE_DISABLED);
                assert(executes(
                    s,
                    Outcome { reply: Some(Reply::Error(PERSISTENCE_DISABLED@)), ..base },
                ));
                return Action::Done;
            }
            proof {
                let o = Outcome { action: Action::Save, ..base };
                assert(executes(s, o));
                assert(start + written(o) =~= start);
            }
            Action::Save
        },
        Command::Bgsave => {
            if !settings.persistence_enabled {
                writer.write_error(PERSISTENCE_DISABLED);
                assert(executes(
                    s,
                    Outcome { reply: Some(Reply::Error(PERSISTENCE_DISABLED@)), ..base },
                ));
                return Action::Done;
            }
            if saves.in_progress {
                writer.write_error(SAVE_RUNNING);
                assert(executes(s, Outcome { reply: Some(Reply::Error(SAVE_RUNNING@)), ..base }));
                return Action::Done;
            }
            writer.write_simple_string(SAVE_STARTED);
            assert(executes(
                s,
                Outcome {
                    action: Action::BackgroundSave,
                    reply: Some(Reply::Status(SAVE_STARTED@)),
                    ..base
                },
            ));
            Action::BackgroundSave
        },
        Command::Info => {
            proof {
                let o = Outcome { action: Action::Info, ..base };
                assert(executes(s, o));
                assert(start + written(o) =~= start);
            }
            Action::Info
        },
        _ => {
            serve(kind, store, command, writer, saves, now, Ghost(s));
            proof {
                let reply = choose|reply: Reply|
                    {
                        &&& #[trigger] serves(kind, s, store@, reply)
                        &&& writer@ == start + encoded(reply)
                    };
                assert(executes(s, Outcome { store: store@, reply: Some(reply), ..base }));
            }
            Action::Done
        },
    }
}

/// What SAVE answers once the snapshot was saved, or was not.
pub open spec fn save_reply(saved: Result<usize, &str>) -> Reply {
    match saved {
        Ok(_) => Reply::Status("OK"@),
        Err(message) => Reply::Error(message@),
    }
}

/// Writes the reply to SAVE: how many keys were saved, or why none were.
pub fn finish_save(saved: Result<usize, &str>, writer: &mut RespWriter)
    ensures
        final(writer)@ == old(writer)@ + encoded(save_reply(saved)),
{
    match saved {
        Ok(_) => writer.write_simple_string("OK"),
        Err(message) => writer.write_error(message),
    }
}

} // verus!
