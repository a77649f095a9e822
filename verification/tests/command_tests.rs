use bytes::Bytes;
use redistill::eviction::evict_lru;
use redistill::dispatch::{execute_command, finish_save, Action, SaveStatus, Settings};
use redistill::limits::{EvictionPolicy, MemoryLimits};
use redistill::resp::RespWriter;
use redistill::server_commands::{handle_info, ConnectionState, InfoFacts};
use redistill::stats::{LocalCount, ServerStats};
use redistill::store::ShardedStore;

struct Server {
    store: ShardedStore,
    state: ConnectionState,
    count: LocalCount,
    stats: ServerStats,
    settings: Settings,
    saves: SaveStatus,
    now: u64,
    action: Action,
}

impl Server {
    fn new() -> Server {
        Server::with_limits(MemoryLimits::unlimited())
    }

    fn with_limits(limits: MemoryLimits) -> Server {
        Server {
            store: ShardedStore::with_limits(4, limits),
            state: ConnectionState::new(b""),
            count: LocalCount::new(),
            stats: ServerStats::new(),
            settings: Settings { password: vec![], persistence_enabled: false },
            saves: SaveStatus { in_progress: false, last_save_time: 77 },
            now: 1000,
            action: Action::Done,
        }
    }

    fn limited(policy: EvictionPolicy, max_memory: u64) -> Server {
        Server::with_limits(MemoryLimits {
            max_memory,
            eviction_policy: policy,
            eviction_sample_size: 5,
        })
    }

    fn locked(password: &str) -> Server {
        let mut server = Server::new();
        server.settings.password = password.as_bytes().to_vec();
        server.state = ConnectionState::new(password.as_bytes());
        server
    }

    fn run(&mut self, request: &str) -> String {
        let words: Vec<Bytes> = request
            .split(' ')
            .filter(|word| !word.is_empty())
            .map(|word| Bytes::copy_from_slice(word.as_bytes()))
            .collect();
        let mut writer = RespWriter::new();
        self.action = execute_command(
            &mut self.store,
            &words,
            &mut writer,
            &mut self.state,
            &mut self.count,
            &mut self.stats,
            &self.settings,
            self.saves,
            self.now,
        );
        String::from_utf8(writer.into_buffer()).unwrap()
    }
}

const OOM: &str = "-OOM command not allowed when used memory > 'maxmemory'\r\n";
const NOT_A_NUMBER: &str = "-value is not an integer or out of range\r\n";
const FEW: &str = "-wrong number of arguments\r\n";
const WRONG_TYPE: &str =
    "-WRONGTYPE Operation against a key holding the wrong kind of value\r\n";

#[test]
fn set_and_get() {
    let mut s = Server::new();
    assert_eq!(s.run("SET foo bar"), "+OK\r\n");
    assert_eq!(s.run("get foo"), "$3\r\nbar\r\n");
    assert_eq!(s.run("GET none"), "$-1\r\n");
    assert_eq!(s.run("SET foo"), FEW);
    assert_eq!(s.run("GET"), FEW);
}

#[test]
fn smoke_test_of_times_to_live() {
    let mut s = Server::new();
    assert_eq!(s.run("PING"), "+PONG\r\n");
    assert_eq!(s.run("SET test value EX 5"), "+OK\r\n");
    assert_eq!(s.run("TTL test"), ":5\r\n");
    assert_eq!(s.run("PTTL test"), ":5000\r\n");
    s.now += 5;
    assert_eq!(s.run("TTL test"), ":-2\r\n");
    assert_eq!(s.run("PTTL test"), ":-2\r\n");
    assert_eq!(s.run("DBSIZE"), ":0\r\n");
}

#[test]
fn set_options_are_obeyed() {
    let mut s = Server::new();
    assert_eq!(s.run("SET k 1 XX"), "$-1\r\n");
    assert_eq!(s.run("SET k 1 NX"), "+OK\r\n");
    assert_eq!(s.run("SET k 2 NX"), "$-1\r\n");
    assert_eq!(s.run("SET k 2 nx get"), "$1\r\n1\r\n");
    assert_eq!(s.run("SET k 2 XX GET"), "$1\r\n1\r\n");
    assert_eq!(s.run("GET k"), "$1\r\n2\r\n");
    assert_eq!(s.run("SET new v GET"), "$-1\r\n");
    assert_eq!(s.run("SET k v PX 1001"), "+OK\r\n");
    assert_eq!(s.run("TTL k"), ":2\r\n");
    assert_eq!(s.run("SET k v EX 1 PX 1000 EX 9"), "+OK\r\n");
    assert_eq!(s.run("TTL k"), ":9\r\n");
    assert_eq!(s.run("SET k v"), "+OK\r\n");
    assert_eq!(s.run("TTL k"), ":-1\r\n");
}

#[test]
fn set_options_that_cannot_be_read_are_refused() {
    let mut s = Server::new();
    assert_eq!(s.run("SET k v EX"), "-syntax error\r\n");
    assert_eq!(s.run("SET k v PX"), "-syntax error\r\n");
    assert_eq!(s.run("SET k v EX 0"), NOT_A_NUMBER);
    assert_eq!(s.run("SET k v PX -1"), NOT_A_NUMBER);
    assert_eq!(s.run("SET k v EX abc"), NOT_A_NUMBER);
    assert_eq!(s.run("SET k v KEEPTTL"), "-syntax error\r\n");
    assert_eq!(s.run("SET k v zz"), "-syntax error\r\n");
    assert_eq!(
        s.run("SET k v NX XX"),
        "-XX and NX options at the same time are not compatible\r\n"
    );
    assert_eq!(s.run("GET k"), "$-1\r\n");
}

#[test]
fn an_expired_key_counts_as_absent_for_options() {
    let mut s = Server::new();
    s.run("SET k 1 EX 5");
    s.now += 5;
    assert_eq!(s.run("SET k 2 XX"), "$-1\r\n");
    assert_eq!(s.run("SET k 2 NX GET"), "$-1\r\n");
    assert_eq!(s.run("GET k"), "$1\r\n2\r\n");
}

#[test]
fn setex_sets_with_a_time_to_live() {
    let mut s = Server::new();
    assert_eq!(s.run("SETEX k 300 v"), "+OK\r\n");
    assert_eq!(s.run("TTL k"), ":300\r\n");
    assert_eq!(s.run("GET k"), "$1\r\nv\r\n");
    assert_eq!(s.run("SETEX k 0 v"), NOT_A_NUMBER);
    assert_eq!(s.run("SETEX k x v"), NOT_A_NUMBER);
    assert_eq!(s.run("SETEX k 300"), FEW);
}

#[test]
fn keys_are_deleted_and_counted() {
    let mut s = Server::new();
    s.run("MSET a 1 b 2 c 3");
    assert_eq!(s.run("EXISTS a a b none"), ":3\r\n");
    assert_eq!(s.run("DEL a a none"), ":1\r\n");
    assert_eq!(s.run("EXISTS a b"), ":1\r\n");
    assert_eq!(s.run("DBSIZE"), ":2\r\n");
    assert_eq!(s.run("DEL"), FEW);
    assert_eq!(s.run("EXISTS"), FEW);
}

#[test]
fn numbers_are_counted_up_and_down() {
    let mut s = Server::new();
    assert_eq!(s.run("INCR n"), ":1\r\n");
    assert_eq!(s.run("INCR n"), ":2\r\n");
    assert_eq!(s.run("DECR n"), ":1\r\n");
    assert_eq!(s.run("INCRBY n 41"), ":42\r\n");
    assert_eq!(s.run("DECRBY n 50"), ":-8\r\n");
    assert_eq!(s.run("INCRBY n -2"), ":-10\r\n");
    assert_eq!(s.run("GET n"), "$3\r\n-10\r\n");
}

#[test]
fn subtracting_what_was_added_gives_the_number_back() {
    let mut s = Server::new();
    s.run("SET n 007");
    assert_eq!(s.run("INCRBY n 100"), ":107\r\n");
    assert_eq!(s.run("DECRBY n 100"), ":7\r\n");
    assert_eq!(s.run("GET n"), "$1\r\n7\r\n");
}

#[test]
fn subtracting_a_number_adds_its_opposite() {
    for n in ["0", "5", "-5", "9223372036854775807", "-9223372036854775807"] {
        let opposite = n.parse::<i64>().unwrap().checked_neg().unwrap();
        let (mut s, mut t) = (Server::new(), Server::new());
        s.run("SET n -1");
        t.run("SET n -1");
        assert_eq!(
            s.run(&format!("DECRBY n {}", n)),
            t.run(&format!("INCRBY n {}", opposite)),
        );
        assert_eq!(s.run("GET n"), t.run("GET n"));
    }
    let mut s = Server::new();
    s.run("SET n 3");
    assert_eq!(s.run("DECRBY n -9223372036854775808"), NOT_A_NUMBER);
    assert_eq!(s.run("GET n"), "$1\r\n3\r\n");
}

#[test]
fn the_case_of_a_name_does_not_matter() {
    for name in ["INCRBY", "incrby", "IncrBy", "iNCRbY"] {
        let mut s = Server::new();
        s.run("Set n 2");
        assert_eq!(s.run(&format!("{} n 40", name)), ":42\r\n");
        assert_eq!(s.run("gEt n"), "$2\r\n42\r\n");
        assert_eq!(s.run("hSeT h F 1"), ":1\r\n");
        assert_eq!(s.run("hget h f"), "$-1\r\n");
    }
}

#[test]
fn telling_and_changing_times_to_live_is_no_access() {
    let mut s = Server::with_limits(MemoryLimits {
        max_memory: 1 << 20,
        eviction_policy: EvictionPolicy::AllKeysLru,
        eviction_sample_size: 500,
    });
    for (key, accessed) in [(&b"a"[..], 10), (&b"b"[..], 20), (&b"c"[..], 30)] {
        let key = Bytes::copy_from_slice(key);
        s.store.set_accessed(key.clone(), key, None, s.now, Some(accessed));
    }
    assert_eq!(s.run("EXPIRE a 50"), ":1\r\n");
    assert_eq!(s.run("TTL a"), ":50\r\n");
    assert_eq!(s.run("PERSIST a"), ":1\r\n");
    assert_eq!(s.run("EXISTS a"), ":1\r\n");
    assert_eq!(s.run("GETX a"), s.run("NONE b"));
    assert!(evict_lru(&mut s.store) > 0);
    assert_eq!(s.run("EXISTS a"), ":0\r\n");
    assert!(evict_lru(&mut s.store) > 0);
    assert_eq!(s.run("EXISTS b"), ":0\r\n");
    assert_eq!(s.run("EXISTS c"), ":1\r\n");
}

#[test]
fn counting_keeps_the_time_to_live() {
    let mut s = Server::new();
    s.run("SET n 5 EX 100");
    s.now += 40;
    assert_eq!(s.run("INCR n"), ":6\r\n");
    assert_eq!(s.run("TTL n"), ":60\r\n");
    s.now += 60;
    assert_eq!(s.run("INCR n"), ":1\r\n");
    assert_eq!(s.run("TTL n"), ":-1\r\n");
}

#[test]
fn counting_refuses_what_is_no_number() {
    let mut s = Server::new();
    s.run("SET t text");
    assert_eq!(s.run("INCR t"), NOT_A_NUMBER);
    s.run("SET big 9223372036854775807");
    assert_eq!(s.run("INCR big"), "-increment would produce overflow\r\n");
    s.run("SET small -9223372036854775808");
    assert_eq!(s.run("DECR small"), "-decrement would produce overflow\r\n");
    assert_eq!(s.run("INCRBY n x"), NOT_A_NUMBER);
    assert_eq!(s.run("DECRBY n x"), NOT_A_NUMBER);
    assert_eq!(s.run("DECRBY n -9223372036854775808"), NOT_A_NUMBER);
    assert_eq!(s.run("INCRBY n -9223372036854775808"), ":-9223372036854775808\r\n");
    assert_eq!(s.run("INCR"), FEW);
    assert_eq!(s.run("INCRBY n"), FEW);
    assert_eq!(s.run("DECRBY n"), FEW);
    s.run("HSET h f 1");
    assert_eq!(s.run("INCR h"), WRONG_TYPE);
}

#[test]
fn many_keys_are_set_and_read() {
    let mut s = Server::new();
    assert_eq!(s.run("MSET a 1 b 2 a 3"), "+OK\r\n");
    assert_eq!(s.run("MGET a b none"), "*3\r\n$1\r\n3\r\n$1\r\n2\r\n$-1\r\n");
    assert_eq!(s.run("MGET"), FEW);
    assert_eq!(s.run("MSET a"), "-wrong number of arguments for MSET\r\n");
    assert_eq!(s.run("MSET a 1 b"), "-wrong number of arguments for MSET\r\n");
}

#[test]
fn hash_commands_answer() {
    let mut s = Server::new();
    assert_eq!(s.run("HSET user:1001 name John age 30"), ":2\r\n");
    assert_eq!(s.run("HSET user:1001 age 31"), ":0\r\n");
    assert_eq!(s.run("HGET user:1001 age"), "$2\r\n31\r\n");
    assert_eq!(s.run("HGET user:1001 none"), "$-1\r\n");
    assert_eq!(s.run("HGETALL none"), "*0\r\n");
    s.run("HSET one f v");
    assert_eq!(s.run("HGETALL one"), "*2\r\n$1\r\nf\r\n$1\r\nv\r\n");
    s.run("SET t text");
    assert_eq!(s.run("HSET t f v"), WRONG_TYPE);
    assert_eq!(s.run("HGET t f"), WRONG_TYPE);
    assert_eq!(s.run("HGETALL t"), WRONG_TYPE);
    assert_eq!(s.run("HSET h f"), FEW);
    assert_eq!(s.run("HSET h f v g"), FEW);
    assert_eq!(s.run("HGET h"), FEW);
    assert_eq!(s.run("HGETALL"), FEW);
}

#[test]
fn setting_fields_keeps_the_time_to_live() {
    let mut s = Server::new();
    s.run("HSET h f 1");
    s.run("EXPIRE h 10");
    assert_eq!(s.run("HSET h g 2"), ":1\r\n");
    assert_eq!(s.run("TTL h"), ":10\r\n");
    s.now += 10;
    assert_eq!(s.run("HSET h g 2"), ":1\r\n");
    assert_eq!(s.run("TTL h"), ":-1\r\n");
    assert_eq!(s.run("HGET h f"), "$-1\r\n");
}

#[test]
fn times_to_live_are_set_and_lifted() {
    let mut s = Server::new();
    assert_eq!(s.run("EXPIRE none 10"), ":0\r\n");
    s.run("SET k v");
    assert_eq!(s.run("TTL k"), ":-1\r\n");
    assert_eq!(s.run("PTTL k"), ":-1\r\n");
    assert_eq!(s.run("EXPIRE k 10"), ":1\r\n");
    s.now += 4;
    assert_eq!(s.run("TTL k"), ":6\r\n");
    assert_eq!(s.run("PERSIST k"), ":1\r\n");
    assert_eq!(s.run("PERSIST k"), ":0\r\n");
    assert_eq!(s.run("PERSIST none"), ":0\r\n");
    assert_eq!(s.run("TTL k"), ":-1\r\n");
    assert_eq!(s.run("EXPIRE k 0"), ":1\r\n");
    assert_eq!(s.run("GET k"), "$-1\r\n");
    assert_eq!(s.run("EXPIRE k -1"), ":0\r\n");
    assert_eq!(s.run("EXPIRE k x"), NOT_A_NUMBER);
    assert_eq!(s.run("EXPIRE k"), FEW);
    assert_eq!(s.run("TTL"), FEW);
    assert_eq!(s.run("PTTL"), FEW);
    assert_eq!(s.run("PERSIST"), FEW);
}

#[test]
fn expired_keys_are_removed_when_looked_at() {
    let mut s = Server::limited(EvictionPolicy::NoEviction, 1 << 20);
    for request in ["TTL k", "PTTL k", "EXPIRE k 5", "EXPIRE k 0", "PERSIST k", "GET k", "MGET k"] {
        s.run("SET k v EX 1");
        assert_eq!(s.store.memory_used(), 66);
        s.now += 1;
        s.run(request);
        assert_eq!(s.store.len(), 0);
        assert_eq!(s.store.memory_used(), 0);
    }
}

#[test]
fn very_large_times_are_written() {
    let mut s = Server::new();
    s.run("SET k v EX 9223372036854775807");
    assert_eq!(s.run("TTL k"), ":9223372036854775807\r\n");
    assert_eq!(s.run("PTTL k"), ":9223372036854775807\r\n");
    s.run("SET k v EX 18446744073709551615");
    assert_eq!(s.run("PTTL k"), ":9223372036854775807\r\n");
    assert_eq!(s.run("TTL k"), ":9223372036854775807\r\n");
    s.run("SET k v");
    assert_eq!(s.run("EXPIRE k 9223372036854775807"), ":1\r\n");
    assert_eq!(s.run("TTL k"), ":9223372036854775807\r\n");
}

#[test]
fn a_time_that_cannot_be_written_is_no_missing_key() {
    let mut s = Server::new();
    s.now = 1;
    s.run("SET k v EX 18446744073709551615");
    assert_eq!(s.run("TTL k"), ":9223372036854775807\r\n");
    s.now = 0;
    assert_eq!(s.run("TTL k"), ":9223372036854775807\r\n");
    assert_eq!(s.run("TTL none"), ":-2\r\n");
    s.run("PERSIST k");
    assert_eq!(s.run("TTL k"), ":-1\r\n");
    assert_eq!(s.run("PTTL k"), ":-1\r\n");
}

#[test]
fn keys_are_listed() {
    let mut s = Server::new();
    assert_eq!(s.run("KEYS *"), "*0\r\n");
    s.run("SET k v");
    s.run("SET old v EX 1");
    s.now += 1;
    assert_eq!(s.run("KEYS"), "*1\r\n$1\r\nk\r\n");
}

#[test]
fn scanning_answers_cursor_and_keys() {
    let mut s = Server::new();
    assert_eq!(s.run("SCAN 0"), "*2\r\n$1\r\n0\r\n*0\r\n");
    s.run("SET user:1 v");
    s.run("SET api:1 v");
    assert_eq!(
        s.run("SCAN 0 MATCH user:* COUNT 100"),
        "*2\r\n$1\r\n0\r\n*1\r\n$6\r\nuser:1\r\n"
    );
    assert_eq!(s.run("scan 0 count 100 match api:?"), "*2\r\n$1\r\n0\r\n*1\r\n$5\r\napi:1\r\n");
    assert_eq!(s.run("SCAN"), "-wrong number of arguments for 'scan' command\r\n");
    assert_eq!(s.run("SCAN x"), "-invalid cursor\r\n");
    assert_eq!(s.run("SCAN 0 MATCH"), "-syntax error\r\n");
    assert_eq!(s.run("SCAN 0 TYPE string"), "-syntax error\r\n");
    assert_eq!(s.run("SCAN 0 COUNT x"), NOT_A_NUMBER);
}

#[test]
fn scanning_goes_on_at_the_cursor() {
    let mut s = Server::with_limits(MemoryLimits::unlimited());
    s.store = ShardedStore::new(1);
    for i in 0..12 {
        s.run(&format!("SET key{} v", i));
    }
    let first = s.run("SCAN 0");
    assert!(first.starts_with("*2\r\n$2\r\n10\r\n*10\r\n"));
    let second = s.run("SCAN 10");
    assert!(second.starts_with("*2\r\n$1\r\n0\r\n*2\r\n"));
}

#[test]
fn writes_without_room_are_refused() {
    let mut s = Server::limited(EvictionPolicy::NoEviction, 70);
    assert_eq!(s.run("SET k 12345"), "+OK\r\n");
    assert_eq!(s.store.memory_used(), 70);
    assert_eq!(s.run("SET k 1"), OOM);
    assert_eq!(s.run("SETEX k 5 1"), OOM);
    assert_eq!(s.run("MSET j 1"), OOM);
    assert_eq!(s.run("INCR n"), OOM);
    assert_eq!(s.run("HSET h f v"), OOM);
    assert_eq!(s.run("INCR k"), ":12346\r\n");
    assert_eq!(s.run("MSET k 1234"), "+OK\r\n");
    assert_eq!(s.run("GET k"), "$4\r\n1234\r\n");
    assert_eq!(s.store.memory_used(), 69);
}

#[test]
fn room_is_made_before_options_are_read() {
    let mut s = Server::limited(EvictionPolicy::NoEviction, 70);
    assert_eq!(s.run("SET k 123456 BAD"), OOM);
    assert_eq!(s.run("SET k 12345 BAD"), "-syntax error\r\n");
}

#[test]
fn the_memory_counter_stays_in_step() {
    let mut s = Server::limited(EvictionPolicy::NoEviction, 1 << 20);
    s.run("SET key value");
    assert_eq!(s.store.memory_used(), 3 + 5 + 64);
    s.run("SET key v");
    assert_eq!(s.store.memory_used(), 3 + 1 + 64);
    s.run("MSET a 1 key xyz");
    assert_eq!(s.store.memory_used(), 66 + 70);
    s.run("INCRBY a 99");
    assert_eq!(s.store.memory_used(), 68 + 70);
    s.run("HSET h f v");
    assert_eq!(s.store.memory_used(), 68 + 70 + 195);
    s.run("DEL key h");
    assert_eq!(s.store.memory_used(), 68);
    s.run("EXPIRE a -1");
    assert_eq!(s.store.memory_used(), 0);
}

#[test]
fn a_set_that_is_granted_room_stays_within_the_limit() {
    let mut s = Server::limited(EvictionPolicy::AllKeysLru, 1000);
    s.store = ShardedStore::with_limits(1, s.store.limits());
    for i in 0..200 {
        assert_eq!(s.run(&format!("SET key:{} 0123456789", i)), "+OK\r\n");
        assert!(s.store.memory_used() <= 1000);
    }
    assert!(s.store.evicted_keys() > 0);
}

#[test]
fn flushing_answers_ok() {
    let mut s = Server::limited(EvictionPolicy::NoEviction, 1 << 20);
    s.run("MSET a 1 b 2");
    assert_eq!(s.run("FLUSHDB"), "+OK\r\n");
    assert_eq!(s.run("DBSIZE"), ":0\r\n");
    assert_eq!(s.store.memory_used(), 0);
    s.run("MSET a 1 b 2");
    assert_eq!(s.run("flushall"), "+OK\r\n");
    assert_eq!(s.run("DBSIZE"), ":0\r\n");
}

#[test]
fn flushing_leaves_what_expired_keys_counted_for() {
    let mut s = Server::limited(EvictionPolicy::NoEviction, 1 << 20);
    s.run("SET old v EX 1");
    s.run("SET k v");
    s.run("FLUSHDB");
    assert_eq!(s.store.memory_used(), 68);
}

#[test]
fn clients_have_to_authenticate() {
    let mut s = Server::locked("secret");
    assert_eq!(s.run("GET k"), "-NOAUTH Authentication required\r\n");
    assert_eq!(s.run("SET k v"), "-NOAUTH Authentication required\r\n");
    assert_eq!(s.run("nonsense"), "-NOAUTH Authentication required\r\n");
    assert_eq!(s.run("PING"), "+PONG\r\n");
    assert_eq!(s.run("AUTH"), "-ERR wrong number of arguments for 'auth' command\r\n");
    assert_eq!(s.run("AUTH wrong"), "-ERR invalid password\r\n");
    assert_eq!(s.run("AUTH secre"), "-ERR invalid password\r\n");
    assert_eq!(s.run("GET k"), "-NOAUTH Authentication required\r\n");
    assert_eq!(s.run("AUTH secret"), "+OK\r\n");
    assert_eq!(s.run("GET k"), "$-1\r\n");
    assert_eq!(s.run("AUTH wrong"), "-ERR invalid password\r\n");
    assert_eq!(s.run("GET k"), "$-1\r\n");
}

#[test]
fn authentication_needs_a_password() {
    let mut s = Server::new();
    assert_eq!(s.run("AUTH x"), "-ERR Client sent AUTH, but no password is set\r\n");
}

#[test]
fn other_requests_are_answered() {
    let mut s = Server::new();
    assert_eq!(s.run(""), "-empty command\r\n");
    assert_eq!(s.run("NONSENSE"), "-unknown command\r\n");
    assert_eq!(s.run("CONFIG GET save"), "*0\r\n");
    assert_eq!(s.run("COMMAND"), "*0\r\n");
    assert_eq!(s.run("LASTSAVE"), ":77\r\n");
    assert_eq!(s.action, Action::Done);
}

#[test]
fn every_request_is_counted() {
    let mut s = Server::new();
    for _ in 0..300 {
        s.run("PING");
    }
    assert_eq!(s.stats.total_commands, 256);
    assert_eq!(s.count.commands, 44);
    s.run("");
    assert_eq!(s.count.commands, 45);
}

#[test]
fn saving_is_left_to_the_caller() {
    let mut s = Server::new();
    assert_eq!(s.run("SAVE"), "-persistence is disabled\r\n");
    assert_eq!(s.action, Action::Done);
    assert_eq!(s.run("BGSAVE"), "-persistence is disabled\r\n");
    s.settings.persistence_enabled = true;
    assert_eq!(s.run("SAVE"), "");
    assert_eq!(s.action, Action::Save);
    assert_eq!(s.run("BGSAVE"), "+Background saving started\r\n");
    assert_eq!(s.action, Action::BackgroundSave);
    s.saves.in_progress = true;
    assert_eq!(s.run("BGSAVE"), "-Background save already in progress\r\n");
    assert_eq!(s.action, Action::Done);
    let mut writer = RespWriter::new();
    finish_save(Ok(3), &mut writer);
    finish_save(Err("disk full"), &mut writer);
    assert_eq!(writer.as_slice(), b"+OK\r\n-disk full\r\n" as &[u8]);
}

#[test]
fn info_tells_how_the_server_is_doing() {
    let mut s = Server::limited(EvictionPolicy::AllKeysLru, 1 << 20);
    s.run("SET k v");
    assert_eq!(s.run("INFO"), "");
    assert_eq!(s.action, Action::Info);
    let mut stats = s.stats;
    stats.total_connections = 9;
    stats.active_connections = 4;
    stats.total_commands = 512;
    stats.rejected_connections = 2;
    let facts = InfoFacts {
        process_id: 4711,
        uptime_seconds: 60,
        stats,
        used_memory_human: "66B",
        max_memory_human: "1.00MB",
    };
    let mut writer = RespWriter::new();
    handle_info(&s.store, &facts, &mut writer);
    let text = "# Server\r\nredis_version:7.0.0\r\nredis_mode:standalone\r\nos:Redistill\r\narch_bits:64\r\nprocess_id:4711\r\nuptime_in_seconds:60\r\n\r\n# Clients\r\nconnected_clients:4\r\n\r\n# Memory\r\nused_memory:66\r\nused_memory_human:66B\r\nmaxmemory:1048576\r\nmaxmemory_human:1.00MB\r\nmaxmemory_policy:allkeys-lru\r\nevicted_keys:0\r\n\r\n# Stats\r\ntotal_connections_received:9\r\ntotal_commands_processed:512\r\nrejected_connections:2\r\n\r\n# Keyspace\r\ndb0:keys=1,expires=0,avg_ttl=0\r\n";
    assert_eq!(
        String::from_utf8(writer.into_buffer()).unwrap(),
        format!("${}\r\n{}\r\n", text.len(), text)
    );
}

#[test]
fn info_tells_of_no_limit() {
    let s = Server::new();
    let facts = InfoFacts {
        process_id: 1,
        uptime_seconds: 0,
        stats: s.stats,
        used_memory_human: "0B",
        max_memory_human: "0B",
    };
    let mut writer = RespWriter::new();
    handle_info(&s.store, &facts, &mut writer);
    let text = String::from_utf8(writer.into_buffer()).unwrap();
    assert!(text.contains("maxmemory:0\r\nmaxmemory_human:unlimited\r\nmaxmemory_policy:noeviction\r\n"));
}
