//! The commands on the server and on the store as a whole.
use bytes::Bytes;
use vstd::prelude::*;
use vstd::utf8::encode_utf8;

use crate::command::{parse_scan_options, scan_options, ScanOptionsView};
use crate::model::StoreView;
use crate::number::{decimal, format_u64, parse_u64, unsigned_of};
use crate::octets::{octets_all, slice_of};
use crate::resp::{
    bulk_list, encoded, encoded_all, lemma_encoded_push, list_header, Reply, RespWriter,
};
use crate::scan::{page_count, pattern_view, scanned};
use crate::secret::same_secret;
use crate::size::clamped;
use crate::stats::ServerStats;
use crate::store::ShardedStore;

verus! {

/// What is known of a connection.
#[derive(Clone, Copy, PartialEq, Eq, Structural, Debug)]
pub struct ConnectionState {
    pub authenticated: bool,
}

/// A new connection need not authenticate where there is no password.
pub open spec fn trusted_at_first(password: Seq<u8>) -> bool {
    password.len() == 0
}

impl ConnectionState {
    /// A new connection.
    pub fn new(password: &[u8]) -> (state: ConnectionState)
        ensures
            state.authenticated == trusted_at_first(password@),
    {
        ConnectionState { authenticated: password.len() == 0 }
    }
}

/// The answer to AUTH where there is no password.
pub const NO_PASSWORD: &'static str = "ERR Client sent AUTH, but no password is set";

/// The answer to AUTH without a password.
pub const AUTH_ARGUMENTS: &'static str = "ERR wrong number of arguments for 'auth' command";

/// The answer to AUTH with another password.
pub const INVALID_PASSWORD: &'static str = "ERR invalid password";

/// What AUTH answers.
pub open spec fn auth_reply(password: Seq<u8>, words: Seq<Seq<u8>>) -> Reply {
    if password.len() == 0 {
        Reply::Error(NO_PASSWORD@)
    } else if words.len() < 2 {
        Reply::Error(AUTH_ARGUMENTS@)
    } else if words[1] == password {
        Reply::Status("OK"@)
    } else {
        Reply::Error(INVALID_PASSWORD@)
    }
}

/// Whether a connection is authenticated after AUTH: it is once it has given the password, and
/// stays so.
pub open spec fn auth_leaves(
    authenticated: bool,
    password: Seq<u8>,
    words: Seq<Seq<u8>>,
) -> bool {
    authenticated || (password.len() > 0 && words.len() >= 2 && words[1] == password)
}

/// `AUTH password`: authenticates a connection.
pub fn handle_auth(
    command: &[Bytes],
    password: &[u8],
    writer: &mut RespWriter,
    state: &mut ConnectionState,
)
    ensures
        final(state).authenticated == auth_leaves(
            old(state).authenticated,
            password@,
            octets_all(command@),
        ),
        final(writer)@ == old(writer)@ + encoded(auth_reply(password@, octets_all(command@))),
{
    if password.len() == 0 {
        writer.write_error(NO_PASSWORD);
        return;
    }
    if command.len() < 2 {
        writer.write_error(AUTH_ARGUMENTS);
        return;
    }
    if same_secret(slice_of(&command[1]), password) {
        state.authenticated = true;
        writer.write_simple_string("OK");
    } else {
        writer.write_error(INVALID_PASSWORD);
    }
}

/// What INFO tells beside what the store knows of itself.
pub struct InfoFacts<'a> {
    pub process_id: u32,
    pub uptime_seconds: u64,
    pub stats: ServerStats,
    /// The memory in use, in words.
    pub used_memory_human: &'a str,
    /// The memory limit, in words.
    pub max_memory_human: &'a str,
}

/// The memory limit in words.
pub open spec fn limit_in_words(max_memory: u64, words: Seq<char>) -> Seq<char> {
    if max_memory > 0 {
        words
    } else {
        "unlimited"@
    }
}

/// The text that INFO answers.
pub open spec fn info_text(v: StoreView, facts: InfoFacts<'_>) -> Seq<u8> {
    encode_utf8("# Server\r\nredis_version:7.0.0\r\nredis_mode:standalone\r\nos:Redistill\r\narch_bits:64\r\nprocess_id:"@)
        + decimal(facts.process_id as int)
        + encode_utf8("\r\nuptime_in_seconds:"@)
        + decimal(facts.uptime_seconds as int)
        + encode_utf8("\r\n\r\n# Clients\r\nconnected_clients:"@)
        + decimal(facts.stats.active_connections as int)
        + encode_utf8("\r\n\r\n# Memory\r\nused_memory:"@)
        + decimal(v.memory_used as int)
        + encode_utf8("\r\nused_memory_human:"@)
        + encode_utf8(facts.used_memory_human@)
        + encode_utf8("\r\nmaxmemory:"@)
        + decimal(v.limits.max_memory as int)
        + encode_utf8("\r\nmaxmemory_human:"@)
        + encode_utf8(limit_in_words(v.limits.max_memory, facts.max_memory_human@))
        + encode_utf8("\r\nmaxmemory_policy:"@)
        + encode_utf8(v.limits.eviction_policy.name())
        + encode_utf8("\r\nevicted_keys:"@)
        + decimal(v.evicted_keys as int)
        + encode_utf8("\r\n\r\n# Stats\r\ntotal_connections_received:"@)
        + decimal(facts.stats.total_connections as int)
        + encode_utf8("\r\ntotal_commands_processed:"@)
        + decimal(facts.stats.total_commands as int)
        + encode_utf8("\r\nrejected_connections:"@)
        + decimal(facts.stats.rejected_connections as int)
        + encode_utf8("\r\n\r\n# Keyspace\r\ndb0:keys="@)
        + decimal(clamped(v.contents.dom().len()) as int)
        + encode_utf8(",expires=0,avg_ttl=0\r\n"@)
}

fn push_text(text: &mut Vec<u8>, piece: &str)
    ensures
        final(text)@ == old(text)@ + encode_utf8(piece@),
{
    text.extend_from_slice(piece.as_bytes());
    assert(text@ =~= old(text)@ + encode_utf8(piece@));
}

fn push_number(text: &mut Vec<u8>, n: u64)
    ensures
        final(text)@ == old(text)@ + decimal(n as int),
{
    let mut digits = format_u64(n);
    text.append(&mut digits);
}

/// `INFO`: tells how the server is doing.
pub fn handle_info(store: &ShardedStore, facts: &InfoFacts<'_>, writer: &mut RespWriter)
    requires
        store.wf(),
    ensures
        final(writer)@ == old(writer)@ + encoded(Reply::Bulk(info_text(store@, *facts))),
{
    let limits = store.limits();
    let mut text: Vec<u8> = Vec::new();
    push_text(&mut text, "# Server\r\nredis_version:7.0.0\r\nredis_mode:standalone\r\nos:Redistill\r\narch_bits:64\r\nprocess_id:");
    assert(text@ =~= encode_utf8("# Server\r\nredis_version:7.0.0\r\nredis_mode:standalone\r\nos:Redistill\r\narch_bits:64\r\nprocess_id:"@));
    push_number(&mut text, facts.process_id as u64);
    push_text(&mut text, "\r\nuptime_in_seconds:");
    push_number(&mut text, facts.uptime_seconds);
    push_text(&mut text, "\r\n\r\n# Clients\r\nconnected_clients:");
    push_number(&mut text, facts.stats.active_connections as u64);
    push_text(&mut text, "\r\n\r\n# Memory\r\nused_memory:");
    push_number(&mut text, store.memory_used());
    push_text(&mut text, "\r\nused_memory_human:");
    push_text(&mut text, facts.used_memory_human);
    push_text(&mut text, "\r\nmaxmemory:");
    push_number(&mut text, limits.max_memory);
    push_text(&mut text, "\r\nmaxmemory_human:");
    push_text(
        &mut text,
        if limits.max_memory > 0 {
            facts.max_memory_human
        } else {
            "unlimited"
        },
    );
    push_text(&mut text, "\r\nmaxmemory_policy:");
    push_text(&mut text, limits.eviction_policy.as_str());
    push_text(&mut text, "\r\nevicted_keys:");
    push_number(&mut text, store.evicted_keys());
    push_text(&mut text, "\r\n\r\n# Stats\r\ntotal_connections_received:");
    push_number(&mut text, facts.stats.total_connections);
    push_text(&mut text, "\r\ntotal_commands_processed:");
    push_number(&mut text, facts.stats.total_commands);
    push_text(&mut text, "\r\nrejected_connections:");
    push_number(&mut text, facts.stats.rejected_connections);
    push_text(&mut text, "\r\n\r\n# Keyspace\r\ndb0:keys=");
    push_number(&mut text, store.len() as u64);
    push_text(&mut text, ",expires=0,avg_ttl=0\r\n");
    writer.write_bulk_string(text.as_slice());
}

/// The answer to SCAN without a cursor.
pub const SCAN_ARGUMENTS: &'static str = "wrong number of arguments for 'scan' command";

/// The answer to SCAN with a cursor that is no number.
pub const INVALID_CURSOR: &'static str = "invalid cursor";

/// What a scan with its options read answers.
pub open spec fn page_answers(
    v: StoreView,
    cursor: u64,
    options: ScanOptionsView,
    now: u64,
    reply: Reply,
) -> bool {
    exists|next: u64, keys: Seq<Seq<u8>>|
        {
            &&& #[trigger] scanned(
                v.walk_order(),
                cursor,
                page_count(options.count),
                options.pattern,
                now,
                next,
                keys,
            )
            &&& reply == Reply::List(seq![Reply::Bulk(decimal(next as int)), bulk_list(keys)])
        }
}

/// What `SCAN cursor option ..` answers: the next cursor, and the keys of the page.
pub open spec fn scan_answers(v: StoreView, words: Seq<Seq<u8>>, now: u64, reply: Reply) -> bool {
    if words.len() < 2 {
        reply == Reply::Error(SCAN_ARGUMENTS@)
    } else {
        match unsigned_of(words[1]) {
            None => reply == Reply::Error(INVALID_CURSOR@),
            Some(cursor) => match scan_options(words.skip(2), ScanOptionsView::none()) {
                Err(message) => reply == Reply::Error(message),
                Ok(options) => page_answers(v, cursor, options, now, reply),
            },
        }
    }
}

/// `SCAN cursor option ..`: one page of a walk over the keys.
pub fn handle_scan(store: &ShardedStore, command: &[Bytes], writer: &mut RespWriter, now: u64)
    requires
        store.wf(),
    ensures
        exists|reply: Reply|
            {
                &&& #[trigger] scan_answers(store@, octets_all(command@), now, reply)
                &&& final(writer)@ == old(writer)@ + encoded(reply)
            },
{
    let ghost words = octets_all(command@);
    if command.len() < 2 {
        writer.write_error(SCAN_ARGUMENTS);
        assert(scan_answers(store@, words, now, Reply::Error(SCAN_ARGUMENTS@)));
        return;
    }
    let cursor: u64 = match parse_u64(slice_of(&command[1])) {
        Some(cursor) => cursor,
        None => {
            writer.write_error(INVALID_CURSOR);
            assert(scan_answers(store@, words, now, Reply::Error(INVALID_CURSOR@)));
            return;
        },
    };
    let options = match parse_scan_options(command, 2) {
        Ok(options) => options,
        Err(message) => {
            writer.write_error(message);
            assert(scan_answers(store@, words, now, Reply::Error(message@)));
            return;
        },
    };
    let pattern = match &options.pattern {
        Some(pattern) => Some(slice_of(pattern)),
        None => None,
    };
    let (next, keys) = store.scan(cursor, options.count, pattern, now);
    let ghost start = writer@;
    writer.write_array_header(2);
    let digits = format_u64(next);
    writer.write_bulk_string(digits.as_slice());
    writer.write_array(keys.as_slice());
    proof {
        assert(pattern_view(pattern) == options@.pattern);
        let first = Reply::Bulk(decimal(next as int));
        let second = bulk_list(octets_all(keys@));
        let items = seq![first, second];
        assert(items =~= Seq::<Reply>::empty().push(first).push(second));
        lemma_encoded_push(Seq::empty(), first);
        lemma_encoded_push(Seq::<Reply>::empty().push(first), second);
        assert(encoded_all(Seq::<Reply>::empty()) =~= Seq::empty());
        assert(writer@ =~= start + (list_header(2) + encoded_all(items)));
        assert(scanned(
            store@.walk_order(),
            cursor,
            page_count(options@.count),
            options@.pattern,
            now,
            next,
            octets_all(keys@),
        ));
        assert(page_answers(store@, cursor, options@, now, Reply::List(items)));
        assert(scan_answers(store@, words, now, Reply::List(items)));
    }
}

/// What KEYS answers: the live keys, each once, in some order.
pub open spec fn keys_answers(v: StoreView, now: u64, reply: Reply) -> bool {
    exists|keys: Seq<Seq<u8>>|
        {
            &&& keys.no_duplicates()
            &&& keys.to_set() == v.contents.dom().filter(|key: Seq<u8>| v.live(key, now))
            &&& reply == #[trigger] bulk_list(keys)
        }
}

/// `KEYS`: the live keys.
pub fn handle_keys(store: &ShardedStore, writer: &mut RespWriter, now: u64)
    requires
        store.wf(),
    ensures
        exists|reply: Reply|
            {
                &&& #[trigger] keys_answers(store@, now, reply)
                &&& final(writer)@ == old(writer)@ + encoded(reply)
            },
{
    let keys = store.keys(now);
    writer.write_array(keys.as_slice());
    assert(keys_answers(store@, now, bulk_list(octets_all(keys@))));
}

} // verus!
