//! What the commands on the server and on the store as a whole are for.
use vstd::prelude::*;
use vstd::utf8::encode_utf8;

use crate::client::{
    answered, asks, law_names_stand_for_commands, law_other_names_are_unknown, lemma_asks, names,
    refused, same_setup, sound, spells, there,
};
use crate::command::Command;
use crate::dispatch::{executes, save_reply, written, Action, Outcome, Situation};
use crate::model::StoreView;
use crate::number::decimal;
use crate::resp::{bulk_list, encoded, Reply};
use crate::room_laws::weights;
use crate::server_commands::{info_text, limit_in_words, trusted_at_first, InfoFacts};
use crate::size::clamped;
use crate::store_laws::{all_there, law_flushing_releases_memory};

verus! {

/// KEYS gives every key that is there, once, and no other.
pub proof fn law_keys(s: Situation, o: Outcome)
    requires
        asks(s, "keys"@),
        executes(s, o),
    ensures
        o.store == s.store,
        o.reply matches Some(Reply::List(items)) && {
            &&& answered(s, o, Reply::List(items))
            &&& forall|i: int|
                0 <= i < items.len() ==> (#[trigger] items[i] matches Reply::Bulk(key) && there(
                    s.store,
                    key,
                    s.now,
                ))
            &&& forall|i: int, j: int|
                0 <= i < j < items.len() ==> #[trigger] items[i] != #[trigger] items[j]
            &&& forall|key: Seq<u8>| #[trigger]
                there(s.store, key, s.now) ==> items.contains(Reply::Bulk(key))
        },
{
    lemma_asks(s, Command::Keys, "keys"@);
    let keys = choose|keys: Seq<Seq<u8>>|
        {
            &&& keys.no_duplicates()
            &&& keys.to_set() == s.store.contents.dom().filter(
                |key: Seq<u8>| s.store.live(key, s.now),
            )
            &&& o.reply.unwrap() == #[trigger] bulk_list(keys)
        };
    let items = keys.map_values(|item: Seq<u8>| Reply::Bulk(item));
    let live = s.store.contents.dom().filter(|key: Seq<u8>| s.store.live(key, s.now));
    assert forall|i: int| 0 <= i < items.len() implies (#[trigger] items[i] matches Reply::Bulk(key)
        && there(s.store, key, s.now)) by {
        assert(keys.to_set().contains(keys[i]));
        assert(live.contains(keys[i]));
    }
    assert forall|key: Seq<u8>| #[trigger] there(s.store, key, s.now) implies items.contains(
        Reply::Bulk(key),
    ) by {
        assert(live.contains(key));
        assert(keys.to_set().contains(key));
        let i = choose|i: int| 0 <= i < keys.len() && keys[i] == key;
        assert(items[i] == Reply::Bulk(key));
    }
}

/// DBSIZE tells how many keys the store holds.
pub proof fn law_dbsize(s: Situation, o: Outcome)
    requires
        asks(s, "dbsize"@),
        s.store.contents.dom().len() <= usize::MAX,
        executes(s, o),
    ensures
        o.store == s.store,
        answered(s, o, Reply::Integer(s.store.contents.dom().len() as int)),
{
    lemma_asks(s, Command::Dbsize, "dbsize"@);
}

/// What the keys weigh that were there at a time has been taken off the memory in use, down to
/// nothing.
pub open spec fn released(v: StoreView, w: StoreView, at: u64) -> bool {
    forall|keys: Seq<Seq<u8>>| #[trigger]
        all_there(v, at, keys) ==> w.memory_used == (if weights(v, keys) <= v.memory_used {
            v.memory_used - weights(v, keys)
        } else {
            0
        })
}

/// FLUSHDB and FLUSHALL leave no key, and release the memory of those that were there.
pub proof fn law_flush(s: Situation, o: Outcome)
    requires
        asks(s, "flushdb"@) || asks(s, "flushall"@),
        sound(s.store),
        executes(s, o),
    ensures
        answered(s, o, Reply::Status("OK"@)),
        forall|key: Seq<u8>| !#[trigger] o.store.contents.contains_key(key),
        forall|key: Seq<u8>| !#[trigger] o.store.access_times.contains_key(key),
        same_setup(s.store, o.store),
        o.store.memory_used <= s.store.memory_used,
        exists|at: u64| #[trigger] released(s.store, o.store, at),
{
    if asks(s, "flushdb"@) {
        lemma_asks(s, Command::Flushdb, "flushdb"@);
    } else {
        lemma_asks(s, Command::Flushall, "flushall"@);
    }
    let at = choose|at: u64| o.store == #[trigger] s.store.flushed(at);
    assert forall|keys: Seq<Seq<u8>>| #[trigger] all_there(s.store, at, keys) implies o.store.memory_used
        == (if weights(s.store, keys) <= s.store.memory_used {
        s.store.memory_used - weights(s.store, keys)
    } else {
        0
    }) by {
        law_flushing_releases_memory(s.store, at, keys);
    }
    assert(released(s.store, o.store, at));
}

/// PING is answered, by anyone; CONFIG and COMMAND with an empty list.
pub proof fn law_small_talk(s: Situation, o: Outcome)
    requires
        executes(s, o),
    ensures
        s.words.len() > 0 && spells(s.words[0], "ping"@) ==> o.store == s.store && answered(
            s,
            o,
            Reply::Status("PONG"@),
        ),
        asks(s, "config"@) || asks(s, "command"@) ==> o.store == s.store && answered(
            s,
            o,
            Reply::List(Seq::empty()),
        ),
{
    if s.words.len() > 0 && spells(s.words[0], "ping"@) {
        law_names_stand_for_commands(s.words[0], Command::Ping, "ping"@);
    }
    assert(Seq::<Seq<u8>>::empty().map_values(|item: Seq<u8>| Reply::Bulk(item))
        =~= Seq::<Reply>::empty());
    if asks(s, "config"@) {
        lemma_asks(s, Command::Config, "config"@);
    } else if asks(s, "command"@) {
        lemma_asks(s, Command::Catalogue, "command"@);
    }
}

/// SAVE and BGSAVE have a snapshot saved where that is allowed, BGSAVE one at a time; LASTSAVE tells
/// when one was; INFO has the caller tell. None of them changes the store.
pub proof fn law_saving(s: Situation, o: Outcome)
    requires
        executes(s, o),
    ensures
        asks(s, "save"@) && !s.persistence_enabled ==> refused(s, o, "persistence is disabled"@),
        asks(s, "save"@) && s.persistence_enabled ==> o == (Outcome {
            store: s.store,
            authenticated: true,
            action: Action::Save,
            reply: None,
        }),
        asks(s, "bgsave"@) && !s.persistence_enabled ==> refused(s, o, "persistence is disabled"@),
        asks(s, "bgsave"@) && s.persistence_enabled && s.saves.in_progress ==> refused(
            s,
            o,
            "Background save already in progress"@,
        ),
        asks(s, "bgsave"@) && s.persistence_enabled && !s.saves.in_progress ==> o == (Outcome {
            store: s.store,
            authenticated: true,
            action: Action::BackgroundSave,
            reply: Some(Reply::Status("Background saving started"@)),
        }),
        asks(s, "lastsave"@) && s.saves.last_save_time <= usize::MAX ==> o.store == s.store
            && answered(s, o, Reply::Integer(s.saves.last_save_time as int)),
        asks(s, "info"@) ==> o == (Outcome {
            store: s.store,
            authenticated: true,
            action: Action::Info,
            reply: None,
        }),
{
    if asks(s, "save"@) {
        lemma_asks(s, Command::Save, "save"@);
    }
    if asks(s, "bgsave"@) {
        lemma_asks(s, Command::Bgsave, "bgsave"@);
    }
    if asks(s, "lastsave"@) {
        lemma_asks(s, Command::Lastsave, "lastsave"@);
    }
    if asks(s, "info"@) {
        lemma_asks(s, Command::Info, "info"@);
    }
}

/// On a new connection, where there is a password, nothing can be done but to give it and to say
/// PING; where there is none, nothing is refused for the want of it.
pub proof fn law_first_request(s: Situation, o: Outcome)
    requires
        executes(s, o),
        s.authenticated == trusted_at_first(s.password),
        s.words.len() > 0,
    ensures
        s.password.len() > 0 && !spells(s.words[0], "auth"@) && !spells(s.words[0], "ping"@)
            ==> refused(s, o, "NOAUTH Authentication required"@),
        s.password.len() == 0 ==> s.authenticated && o.authenticated,
{
    law_password(s, o);
}

/// An answer is written as it stands; where there is none yet, nothing is.
pub proof fn law_what_is_written(o: Outcome, reply: Reply)
    ensures
        o.reply == Some(reply) ==> written(o) == encoded(reply),
        o.reply is None ==> written(o).len() == 0,
{
}

/// A SAVE is answered with success where the snapshot was saved, and else with what went wrong.
pub proof fn law_save_is_answered(saved: Result<usize, &str>)
    ensures
        saved is Ok ==> save_reply(saved) == Reply::Status("OK"@),
        saved matches Err(message) ==> save_reply(saved) == Reply::Error(message@),
{
}

/// Between the two labels, the text shows the value.
pub open spec fn shows(text: Seq<u8>, label: Seq<char>, value: Seq<u8>, next: Seq<char>) -> bool {
    exists|before: Seq<u8>, after: Seq<u8>|
        text == #[trigger] (before + (encode_utf8(label) + value + encode_utf8(next)) + after)
}

/// The labels of INFO.
spec fn info_label(i: int) -> Seq<char> {
    if i == 0 {
        "# Server\r\nredis_version:7.0.0\r\nredis_mode:standalone\r\nos:Redistill\r\narch_bits:64\r\nprocess_id:"@
    } else if i == 1 {
        "\r\nuptime_in_seconds:"@
    } else if i == 2 {
        "\r\n\r\n# Clients\r\nconnected_clients:"@
    } else if i == 3 {
        "\r\n\r\n# Memory\r\nused_memory:"@
    } else if i == 4 {
        "\r\nused_memory_human:"@
    } else if i == 5 {
        "\r\nmaxmemory:"@
    } else if i == 6 {
        "\r\nmaxmemory_human:"@
    } else if i == 7 {
        "\r\nmaxmemory_policy:"@
    } else if i == 8 {
        "\r\nevicted_keys:"@
    } else if i == 9 {
        "\r\n\r\n# Stats\r\ntotal_connections_received:"@
    } else if i == 10 {
        "\r\ntotal_commands_processed:"@
    } else if i == 11 {
        "\r\nrejected_connections:"@
    } else if i == 12 {
        "\r\n\r\n# Keyspace\r\ndb0:keys="@
    } else {
        ",expires=0,avg_ttl=0\r\n"@
    }
}

/// The values that INFO gives between its labels.
spec fn info_value(v: StoreView, facts: InfoFacts<'_>, i: int) -> Seq<u8> {
    if i == 0 {
        decimal(facts.process_id as int)
    } else if i == 1 {
        decimal(facts.uptime_seconds as int)
    } else if i == 2 {
        decimal(facts.stats.active_connections as int)
    } else if i == 3 {
        decimal(v.memory_used as int)
    } else if i == 4 {
        encode_utf8(facts.used_memory_human@)
    } else if i == 5 {
        decimal(v.limits.max_memory as int)
    } else if i == 6 {
        encode_utf8(limit_in_words(v.limits.max_memory, facts.max_memory_human@))
    } else if i == 7 {
        encode_utf8(v.limits.eviction_policy.name())
    } else if i == 8 {
        decimal(v.evicted_keys as int)
    } else if i == 9 {
        decimal(facts.stats.total_connections as int)
    } else if i == 10 {
        decimal(facts.stats.total_commands as int)
    } else if i == 11 {
        decimal(facts.stats.rejected_connections as int)
    } else {
        decimal(clamped(v.contents.dom().len()) as int)
    }
}

/// The first labels, with the values between them.
spec fn interleaved(v: StoreView, facts: InfoFacts<'_>, n: int) -> Seq<u8>
    decreases n,
{
    if n <= 0 {
        encode_utf8(info_label(0))
    } else {
        interleaved(v, facts, n - 1) + info_value(v, facts, n - 1) + encode_utf8(info_label(n))
    }
}

proof fn lemma_info_is_labels_and_values(v: StoreView, facts: InfoFacts<'_>)
    ensures
        info_text(v, facts) == interleaved(v, facts, 13),
{
    reveal_with_fuel(interleaved, 14);
}

proof fn lemma_shown(v: StoreView, facts: InfoFacts<'_>, i: int, n: int)
    requires
        0 <= i < n,
    ensures
        shows(
            interleaved(v, facts, n),
            info_label(i),
            info_value(v, facts, i),
            info_label(i + 1),
        ),
    decreases n,
{
    let text = interleaved(v, facts, n);
    let piece = encode_utf8(info_label(i)) + info_value(v, facts, i) + encode_utf8(
        info_label(i + 1),
    );
    let rest = interleaved(v, facts, n - 1);
    if i + 1 == n {
        let none = Seq::<u8>::empty();
        if i == 0 {
            assert(text =~= none + piece + none);
        } else {
            let before = interleaved(v, facts, i - 1) + info_value(v, facts, i - 1);
            assert(rest == before + encode_utf8(info_label(i)));
            assert(text =~= before + piece + none);
        }
    } else {
        lemma_shown(v, facts, i, n - 1);
        let (before, after) = choose|before: Seq<u8>, after: Seq<u8>|
            rest == #[trigger] (before + piece + after);
        assert(text =~= before + piece + (after + info_value(v, facts, n - 1) + encode_utf8(
            info_label(n),
        )));
    }
}

/// INFO tells of the process, the clients, the memory and its limit, the counters and the keys, each
/// under its own label.
pub proof fn law_info(v: StoreView, facts: InfoFacts<'_>)
    ensures
        shows(
            info_text(v, facts),
            "# Server\r\nredis_version:7.0.0\r\nredis_mode:standalone\r\nos:Redistill\r\narch_bits:64\r\nprocess_id:"@,
            decimal(facts.process_id as int),
            "\r\nuptime_in_seconds:"@,
        ),
        shows(
            info_text(v, facts),
            "\r\nuptime_in_seconds:"@,
            decimal(facts.uptime_seconds as int),
            "\r\n\r\n# Clients\r\nconnected_clients:"@,
        ),
        shows(
            info_text(v, facts),
            "\r\n\r\n# Clients\r\nconnected_clients:"@,
            decimal(facts.stats.active_connections as int),
            "\r\n\r\n# Memory\r\nused_memory:"@,
        ),
        shows(
            info_text(v, facts),
            "\r\n\r\n# Memory\r\nused_memory:"@,
            decimal(v.memory_used as int),
            "\r\nused_memory_human:"@,
        ),
        shows(
            info_text(v, facts),
            "\r\nused_memory_human:"@,
            encode_utf8(facts.used_memory_human@),
            "\r\nmaxmemory:"@,
        ),
        shows(
            info_text(v, facts),
            "\r\nmaxmemory:"@,
            decimal(v.limits.max_memory as int),
            "\r\nmaxmemory_human:"@,
        ),
        v.limits.max_memory > 0 ==> shows(
            info_text(v, facts),
            "\r\nmaxmemory_human:"@,
            encode_utf8(facts.max_memory_human@),
            "\r\nmaxmemory_policy:"@,
        ),
        v.limits.max_memory == 0 ==> shows(
            info_text(v, facts),
            "\r\nmaxmemory_human:"@,
            encode_utf8("unlimited"@),
            "\r\nmaxmemory_policy:"@,
        ),
        shows(
            info_text(v, facts),
            "\r\nmaxmemory_policy:"@,
            encode_utf8(v.limits.eviction_policy.name()),
            "\r\nevicted_keys:"@,
        ),
        shows(
            info_text(v, facts),
            "\r\nevicted_keys:"@,
            decimal(v.evicted_keys as int),
            "\r\n\r\n# Stats\r\ntotal_connections_received:"@,
        ),
        shows(
            info_text(v, facts),
            "\r\n\r\n# Stats\r\ntotal_connections_received:"@,
            decimal(facts.stats.total_connections as int),
            "\r\ntotal_commands_processed:"@,
        ),
        shows(
            info_text(v, facts),
            "\r\ntotal_commands_processed:"@,
            decimal(facts.stats.total_commands as int),
            "\r\nrejected_connections:"@,
        ),
        shows(
            info_text(v, facts),
            "\r\nrejected_connections:"@,
            decimal(facts.stats.rejected_connections as int),
            "\r\n\r\n# Keyspace\r\ndb0:keys="@,
        ),
        v.contents.dom().len() <= usize::MAX ==> shows(
            info_text(v, facts),
            "\r\n\r\n# Keyspace\r\ndb0:keys="@,
            decimal(v.contents.dom().len() as int),
            ",expires=0,avg_ttl=0\r\n"@,
        ),
{
    lemma_info_is_labels_and_values(v, facts);
    lemma_shown(v, facts, 0, 13);
    lemma_shown(v, facts, 1, 13);
    lemma_shown(v, facts, 2, 13);
    lemma_shown(v, facts, 3, 13);
    lemma_shown(v, facts, 4, 13);
    lemma_shown(v, facts, 5, 13);
    lemma_shown(v, facts, 6, 13);
    lemma_shown(v, facts, 7, 13);
    lemma_shown(v, facts, 8, 13);
    lemma_shown(v, facts, 9, 13);
    lemma_shown(v, facts, 10, 13);
    lemma_shown(v, facts, 11, 13);
    lemma_shown(v, facts, 12, 13);
}

/// A request without words, and one whose name spells no command, are refused.
pub proof fn law_other_requests_are_refused(s: Situation, o: Outcome)
    requires
        executes(s, o),
    ensures
        s.words.len() == 0 ==> refused(s, o, "empty command"@),
        s.authenticated && s.words.len() > 0 && (forall|command: Command, name: Seq<char>| #[trigger]
            names(command, name) ==> !spells(s.words[0], name)) ==> refused(
            s,
            o,
            "unknown command"@,
        ),
{
    if s.words.len() > 0 {
        law_other_names_are_unknown(s.words[0]);
    }
}

/// Who has not given the password, where there is one, can do nothing but give it and say PING.
/// Giving it lets a client in for good; another word does not, and does not shut a client out.
pub proof fn law_password(s: Situation, o: Outcome)
    requires
        executes(s, o),
    ensures
        s.words.len() > 0 && !s.authenticated && !spells(s.words[0], "auth"@) && !spells(
            s.words[0],
            "ping"@,
        ) ==> refused(s, o, "NOAUTH Authentication required"@),
        s.words.len() > 0 && spells(s.words[0], "auth"@) ==> {
            let right = s.password.len() > 0 && s.words.len() >= 2 && s.words[1] == s.password;
            &&& o.store == s.store
            &&& o.action == Action::Done
            &&& o.authenticated <==> s.authenticated || right
            &&& right ==> o.reply == Some(Reply::Status("OK"@))
            &&& !right ==> (o.reply matches Some(reply) && reply is Error)
            &&& s.password.len() == 0 ==> o.reply == Some(
                Reply::Error("ERR Client sent AUTH, but no password is set"@),
            )
            &&& s.password.len() > 0 && s.words.len() < 2 ==> o.reply == Some(
                Reply::Error("ERR wrong number of arguments for 'auth' command"@),
            )
            &&& s.password.len() > 0 && s.words.len() >= 2 && !right ==> o.reply == Some(
                Reply::Error("ERR invalid password"@),
            )
        },
        s.words.len() == 0 || !spells(s.words[0], "auth"@) ==> o.authenticated == s.authenticated,
{
    if s.words.len() > 0 {
        law_names_stand_for_commands(s.words[0], Command::Auth, "auth"@);
        law_names_stand_for_commands(s.words[0], Command::Ping, "ping"@);
    }
}

} // verus!
