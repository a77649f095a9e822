//! What a client sees of the store, in plain terms: what it asks for, what a key holds for it, and
//! what stays as it was.
use vstd::prelude::*;
use vstd::utf8::{
    encode_utf8, encode_utf8_decode_utf8, is_ascii_chars, is_ascii_chars_encode_utf8,
};

use crate::command::{command_of, folded, same_word, Command, CASE_BIT};
use crate::dispatch::{Action, Outcome, Situation};
use crate::entry::ValueView;
use crate::model::StoreView;
use crate::resp::Reply;

verus! {

/// The bytes spell the word, each letter in either case.
pub open spec fn spells(bytes: Seq<u8>, word: Seq<char>) -> bool {
    &&& bytes.len() == word.len()
    &&& forall|i: int|
        0 <= i < bytes.len() ==> (#[trigger] bytes[i]) as int == word[i] as int || bytes[i] + 32
            == word[i] as int
}

/// The word is made of lower-case letters and dashes.
pub open spec fn plain(word: Seq<char>) -> bool {
    forall|i: int| 0 <= i < word.len() ==> 'a' <= #[trigger] word[i] <= 'z' || word[i] == '-'
}

/// A client that may do so asks for the command of a name.
pub open spec fn asks(s: Situation, name: Seq<char>) -> bool {
    s.authenticated && s.words.len() > 0 && spells(s.words[0], name)
}

/// The request is answered, nothing is left to do for it, and the client is who it was.
pub open spec fn answered(s: Situation, o: Outcome, reply: Reply) -> bool {
    o.reply == Some(reply) && o.action == Action::Done && o.authenticated == s.authenticated
}

/// The request is answered with an error and changes nothing.
pub open spec fn refused(s: Situation, o: Outcome, message: Seq<char>) -> bool {
    answered(s, o, Reply::Error(message)) && o.store == s.store
}

/// A store as there can be one: it holds finitely many keys, and each of them has an access time.
pub open spec fn sound(v: StoreView) -> bool {
    v.contents.dom().finite() && v.access_times.dom() == v.contents.dom()
}

/// The key is there, and its time has not come.
pub open spec fn there(v: StoreView, key: Seq<u8>, now: u64) -> bool {
    v.contents.contains_key(key) && match v.contents[key].expiry {
        Some(time) => now < time,
        None => true,
    }
}

/// The key is there and holds the byte string.
pub open spec fn holds(v: StoreView, key: Seq<u8>, now: u64, text: Seq<u8>) -> bool {
    there(v, key, now) && v.contents[key].value == ValueView::Text(text)
}

/// The answer that gives the byte string under a key: nothing where the key is not there, or holds
/// none.
pub open spec fn gives_text(v: StoreView, key: Seq<u8>, now: u64, reply: Reply) -> bool {
    &&& forall|text: Seq<u8>| #[trigger] holds(v, key, now, text) ==> reply == Reply::Bulk(text)
    &&& (forall|text: Seq<u8>| !#[trigger] holds(v, key, now, text)) ==> reply == Reply::Null
}

/// The store was set up alike and has evicted as many keys.
pub open spec fn same_setup(v: StoreView, w: StoreView) -> bool {
    &&& w.limits == v.limits
    &&& w.num_shards == v.num_shards
    &&& w.seed == v.seed
    &&& w.start_time == v.start_time
    &&& w.evicted_keys == v.evicted_keys
}

/// The key holds in both what it held, if anything, and counts as last accessed at the same time.
pub open spec fn same_at(v: StoreView, w: StoreView, key: Seq<u8>) -> bool {
    &&& w.contents.contains_key(key) == v.contents.contains_key(key)
    &&& v.contents.contains_key(key) ==> w.contents[key] == v.contents[key]
    &&& w.access_times.contains_key(key) == v.access_times.contains_key(key)
    &&& v.access_times.contains_key(key) ==> w.access_times[key] == v.access_times[key]
}

/// Nothing but what one key holds has changed, and what memory is used.
pub open spec fn same_but_at(v: StoreView, w: StoreView, key: Seq<u8>) -> bool {
    &&& same_setup(v, w)
    &&& forall|other: Seq<u8>| other != key ==> #[trigger] same_at(v, w, other)
}

/// A word in lower case is spelled by bytes just where folding their case makes them its letters.
pub proof fn lemma_spells(bytes: Seq<u8>, word: Seq<char>)
    requires
        plain(word),
    ensures
        spells(bytes, word) == same_word(bytes, word),
{
    assert(is_ascii_chars(word)) by {
        assert forall|i: int| 0 <= i < word.len() implies '\0' <= #[trigger] word[i] <= '\u{7f}' by {
            assert('a' <= word[i] <= 'z' || word[i] == '-');
        }
    }
    is_ascii_chars_encode_utf8(word);
    let letters = encode_utf8(word);
    assert forall|i: int| 0 <= i < bytes.len() && bytes.len() == word.len() implies (folded(bytes)[i]
        == letters[i]) == (#[trigger] bytes[i] as int == word[i] as int || bytes[i] + 32
        == word[i] as int) by {
        let (b, c) = (bytes[i], word[i] as u8);
        assert('a' <= word[i] <= 'z' || word[i] == '-');
        assert(letters[i] == c && c as int == word[i] as int);
        assert(folded(bytes)[i] == b | CASE_BIT);
        assert((b | 0x20u8) == c <==> b == c || b + 32 == c) by (bit_vector)
            requires
                97 <= c <= 122 || c == 45,
        ;
    }
    if spells(bytes, word) {
        assert(folded(bytes) =~= letters);
    }
    if same_word(bytes, word) {
        assert(bytes.len() == word.len());
        assert forall|i: int| 0 <= i < bytes.len() implies (#[trigger] bytes[i]) as int
            == word[i] as int || bytes[i] + 32 == word[i] as int by {
            assert(folded(bytes)[i] == letters[i]);
        }
    }
}

/// The words that name commands, each with its command.
pub open spec fn names(command: Command, name: Seq<char>) -> bool {
    match command {
        Command::SetValue => name == "set"@,
        Command::Setex => name == "setex"@,
        Command::Get => name == "get"@,
        Command::Del => name == "del"@,
        Command::Exists => name == "exists"@,
        Command::Ttl => name == "ttl"@,
        Command::Pttl => name == "pttl"@,
        Command::Expire => name == "expire"@,
        Command::Persist => name == "persist"@,
        Command::Incr => name == "incr"@,
        Command::Decr => name == "decr"@,
        Command::Incrby => name == "incrby"@,
        Command::Decrby => name == "decrby"@,
        Command::Mget => name == "mget"@,
        Command::Mset => name == "mset"@,
        Command::Hset => name == "hset"@,
        Command::Hget => name == "hget"@,
        Command::Hgetall => name == "hgetall"@,
        Command::Keys => name == "keys"@,
        Command::Scan => name == "scan"@,
        Command::Dbsize => name == "dbsize"@,
        Command::Flushdb => name == "flushdb"@,
        Command::Flushall => name == "flushall"@,
        Command::Save => name == "save"@,
        Command::Bgsave => name == "bgsave"@,
        Command::Lastsave => name == "lastsave"@,
        Command::Auth => name == "auth"@,
        Command::Ping => name == "ping"@,
        Command::Info => name == "info"@,
        Command::Config => name == "config"@,
        Command::Catalogue => name == "command"@,
        Command::Unknown => false,
    }
}

/// The name of a command.
spec fn name_of(command: Command) -> Seq<char> {
    match command {
        Command::SetValue => "set"@,
        Command::Setex => "setex"@,
        Command::Get => "get"@,
        Command::Del => "del"@,
        Command::Exists => "exists"@,
        Command::Ttl => "ttl"@,
        Command::Pttl => "pttl"@,
        Command::Expire => "expire"@,
        Command::Persist => "persist"@,
        Command::Incr => "incr"@,
        Command::Decr => "decr"@,
        Command::Incrby => "incrby"@,
        Command::Decrby => "decrby"@,
        Command::Mget => "mget"@,
        Command::Mset => "mset"@,
        Command::Hset => "hset"@,
        Command::Hget => "hget"@,
        Command::Hgetall => "hgetall"@,
        Command::Keys => "keys"@,
        Command::Scan => "scan"@,
        Command::Dbsize => "dbsize"@,
        Command::Flushdb => "flushdb"@,
        Command::Flushall => "flushall"@,
        Command::Save => "save"@,
        Command::Bgsave => "bgsave"@,
        Command::Lastsave => "lastsave"@,
        Command::Auth => "auth"@,
        Command::Ping => "ping"@,
        Command::Info => "info"@,
        Command::Config => "config"@,
        Command::Catalogue => "command"@,
        Command::Unknown => Seq::empty(),
    }
}

/// The names of the commands are words in lower case, and no two are the same.
proof fn lemma_names()
    ensures
        forall|command: Command, name: Seq<char>| #[trigger] names(command, name) ==> plain(name),
        forall|a: Command, b: Command, name: Seq<char>|
            #[trigger] names(a, name) && #[trigger] names(b, name) ==> a == b,
{
    reveal_strlit("set");
    reveal_strlit("setex");
    reveal_strlit("get");
    reveal_strlit("del");
    reveal_strlit("exists");
    reveal_strlit("ttl");
    reveal_strlit("pttl");
    reveal_strlit("expire");
    reveal_strlit("persist");
    reveal_strlit("incr");
    reveal_strlit("decr");
    reveal_strlit("incrby");
    reveal_strlit("decrby");
    reveal_strlit("mget");
    reveal_strlit("mset");
    reveal_strlit("hset");
    reveal_strlit("hget");
    reveal_strlit("hgetall");
    reveal_strlit("keys");
    reveal_strlit("scan");
    reveal_strlit("dbsize");
    reveal_strlit("flushdb");
    reveal_strlit("flushall");
    reveal_strlit("save");
    reveal_strlit("bgsave");
    reveal_strlit("lastsave");
    reveal_strlit("auth");
    reveal_strlit("ping");
    reveal_strlit("info");
    reveal_strlit("config");
    reveal_strlit("command");
    assert forall|a: Command, b: Command, name: Seq<char>|
        #[trigger] names(a, name) && #[trigger] names(b, name) implies a == b by {
        assert("set"@ =~= seq!['s', 'e', 't']);
        assert("setex"@ =~= seq!['s', 'e', 't', 'e', 'x']);
        assert("get"@ =~= seq!['g', 'e', 't']);
        assert("del"@ =~= seq!['d', 'e', 'l']);
        assert("exists"@ =~= seq!['e', 'x', 'i', 's', 't', 's']);
        assert("ttl"@ =~= seq!['t', 't', 'l']);
        assert("pttl"@ =~= seq!['p', 't', 't', 'l']);
        assert("expire"@ =~= seq!['e', 'x', 'p', 'i', 'r', 'e']);
        assert("persist"@ =~= seq!['p', 'e', 'r', 's', 'i', 's', 't']);
        assert("incr"@ =~= seq!['i', 'n', 'c', 'r']);
        assert("decr"@ =~= seq!['d', 'e', 'c', 'r']);
        assert("incrby"@ =~= seq!['i', 'n', 'c', 'r', 'b', 'y']);
        assert("decrby"@ =~= seq!['d', 'e', 'c', 'r', 'b', 'y']);
        assert("mget"@ =~= seq!['m', 'g', 'e', 't']);
        assert("mset"@ =~= seq!['m', 's', 'e', 't']);
        assert("hset"@ =~= seq!['h', 's', 'e', 't']);
        assert("hget"@ =~= seq!['h', 'g', 'e', 't']);
        assert("hgetall"@ =~= seq!['h', 'g', 'e', 't', 'a', 'l', 'l']);
        assert("keys"@ =~= seq!['k', 'e', 'y', 's']);
        assert("scan"@ =~= seq!['s', 'c', 'a', 'n']);
        assert("dbsize"@ =~= seq!['d', 'b', 's', 'i', 'z', 'e']);
        assert("flushdb"@ =~= seq!['f', 'l', 'u', 's', 'h', 'd', 'b']);
        assert("flushall"@ =~= seq!['f', 'l', 'u', 's', 'h', 'a', 'l', 'l']);
        assert("save"@ =~= seq!['s', 'a', 'v', 'e']);
        assert("bgsave"@ =~= seq!['b', 'g', 's', 'a', 'v', 'e']);
        assert("lastsave"@ =~= seq!['l', 'a', 's', 't', 's', 'a', 'v', 'e']);
        assert("auth"@ =~= seq!['a', 'u', 't', 'h']);
        assert("ping"@ =~= seq!['p', 'i', 'n', 'g']);
        assert("info"@ =~= seq!['i', 'n', 'f', 'o']);
        assert("config"@ =~= seq!['c', 'o', 'n', 'f', 'i', 'g']);
        assert("command"@ =~= seq!['c', 'o', 'm', 'm', 'a', 'n', 'd']);
    }
}

/// Bytes are one word at most.
pub proof fn lemma_one_word(bytes: Seq<u8>, a: Seq<char>, b: Seq<char>)
    requires
        same_word(bytes, a),
        same_word(bytes, b),
    ensures
        a == b,
{
    encode_utf8_decode_utf8(a);
    encode_utf8_decode_utf8(b);
}

/// A name stands for the command that it spells, in either case, and for no other.
pub proof fn law_names_stand_for_commands(bytes: Seq<u8>, command: Command, name: Seq<char>)
    requires
        names(command, name),
    ensures
        spells(bytes, name) <==> command_of(bytes) == command,
{
    lemma_names();
    lemma_spells(bytes, name);
    let found = command_of(bytes);
    lemma_command_is_named(bytes);
    if found != Command::Unknown {
        let other = choose|other: Seq<char>| names(found, other) && same_word(bytes, other);
        if same_word(bytes, name) {
            lemma_one_word(bytes, name, other);
        }
        if found == command {
            assert(other == name);
        }
    }
}

proof fn lemma_command_is_named(bytes: Seq<u8>)
    ensures
        command_of(bytes) != Command::Unknown ==> exists|name: Seq<char>|
            names(command_of(bytes), name) && same_word(bytes, name),
        command_of(bytes) == Command::Unknown ==> forall|command: Command, name: Seq<char>| #[trigger]
            names(command, name) ==> !same_word(bytes, name),
{
    let found = command_of(bytes);
    if same_word(bytes, "set"@) {
        assert(found != Command::Unknown);
    }
    if same_word(bytes, "setex"@) {
        assert(found != Command::Unknown);
    }
    if same_word(bytes, "get"@) {
        assert(found != Command::Unknown);
    }
    if same_word(bytes, "del"@) {
        assert(found != Command::Unknown);
    }
    if same_word(bytes, "exists"@) {
        assert(found != Command::Unknown);
    }
    if same_word(bytes, "ttl"@) {
        assert(found != Command::Unknown);
    }
    if same_word(bytes, "pttl"@) {
        assert(found != Command::Unknown);
    }
    if same_word(bytes, "expire"@) {
        assert(found != Command::Unknown);
    }
    if same_word(bytes, "persist"@) {
        assert(found != Command::Unknown);
    }
    if same_word(bytes, "incr"@) {
        assert(found != Command::Unknown);
    }
    if same_word(bytes, "decr"@) {
        assert(found != Command::Unknown);
    }
    if same_word(bytes, "incrby"@) {
        assert(found != Command::Unknown);
    }
    if same_word(bytes, "decrby"@) {
        assert(found != Command::Unknown);
    }
    if same_word(bytes, "mget"@) {
        assert(found != Command::Unknown);
    }
    if same_word(bytes, "mset"@) {
        assert(found != Command::Unknown);
    }
    if same_word(bytes, "hset"@) {
        assert(found != Command::Unknown);
    }
    if same_word(bytes, "hget"@) {
        assert(found != Command::Unknown);
    }
    if same_word(bytes, "hgetall"@) {
        assert(found != Command::Unknown);
    }
    if same_word(bytes, "keys"@) {
        assert(found != Command::Unknown);
    }
    if same_word(bytes, "scan"@) {
        assert(found != Command::Unknown);
    }
    if same_word(bytes, "dbsize"@) {
        assert(found != Command::Unknown);
    }
    if same_word(bytes, "flushdb"@) {
        assert(found != Command::Unknown);
    }
    if same_word(bytes, "flushall"@) {
        assert(found != Command::Unknown);
    }
    if same_word(bytes, "save"@) {
        assert(found != Command::Unknown);
    }
    if same_word(bytes, "bgsave"@) {
        assert(found != Command::Unknown);
    }
    if same_word(bytes, "lastsave"@) {
        assert(found != Command::Unknown);
    }
    if same_word(bytes, "auth"@) {
        assert(found != Command::Unknown);
    }
    if same_word(bytes, "ping"@) {
        assert(found != Command::Unknown);
    }
    if same_word(bytes, "info"@) {
        assert(found != Command::Unknown);
    }
    if same_word(bytes, "config"@) {
        assert(found != Command::Unknown);
    }
    if same_word(bytes, "command"@) {
        assert(found != Command::Unknown);
    }
    if found != Command::Unknown {
        let name = name_of(found);
        assert(names(found, name) && same_word(bytes, name));
    }
}

/// A name that spells no command stands for none.
pub proof fn law_other_names_are_unknown(bytes: Seq<u8>)
    ensures
        command_of(bytes) == Command::Unknown <==> forall|command: Command, name: Seq<char>| #[trigger]
            names(command, name) ==> !spells(bytes, name),
{
    lemma_names();
    lemma_command_is_named(bytes);
    assert forall|command: Command, name: Seq<char>| #[trigger] names(command, name) implies spells(
        bytes,
        name,
    ) == same_word(bytes, name) by {
        lemma_spells(bytes, name);
    }
    if command_of(bytes) != Command::Unknown {
        let name = choose|name: Seq<char>|
            names(command_of(bytes), name) && same_word(bytes, name);
        assert(names(command_of(bytes), name));
    }
}

/// A request for a command, in the terms of the server.
pub proof fn lemma_asks(s: Situation, command: Command, name: Seq<char>)
    requires
        asks(s, name),
        names(command, name),
    ensures
        command_of(s.words[0]) == command,
{
    law_names_stand_for_commands(s.words[0], command, name);
}

} // verus!
