use bytes::Bytes;
use redistill::command::{classify, is_word, Command};
use redistill::request::{parse_request, Request};
use redistill::resp::RespWriter;

fn b(text: &str) -> Bytes {
    Bytes::copy_from_slice(text.as_bytes())
}

fn words(buf: &[u8]) -> (Vec<Bytes>, usize) {
    match parse_request(buf) {
        Request::Complete(words, used) => (words, used),
        Request::Partial => panic!("partial"),
        Request::Malformed => panic!("malformed"),
    }
}

#[test]
fn replies_are_written() {
    let mut writer = RespWriter::new();
    writer.write_simple_string("OK");
    writer.write_error("syntax error");
    writer.write_integer(7);
    writer.write_signed_integer(-2);
    writer.write_bulk_string(b"hello");
    writer.write_null();
    writer.write_array_header(1);
    writer.write_array(&[b("a"), b("")]);
    assert_eq!(
        writer.as_slice(),
        b"+OK\r\n-syntax error\r\n:7\r\n:-2\r\n$5\r\nhello\r\n$-1\r\n*1\r\n*2\r\n$1\r\na\r\n$0\r\n\r\n"
            as &[u8]
    );
    writer.clear();
    assert_eq!(writer.as_slice(), b"" as &[u8]);
}

#[test]
fn writers_continue_buffers() {
    let mut writer = RespWriter::with_buffer(b"x".to_vec());
    writer.write_optional(&Some(b("y")));
    writer.write_optional(&None);
    assert_eq!(writer.into_buffer(), b"x$1\r\ny\r\n$-1\r\n".to_vec());
}

#[test]
fn requests_are_read() {
    let (list, used) = words(b"*3\r\n$3\r\nSET\r\n$3\r\nfoo\r\n$3\r\nbar\r\n");
    assert_eq!(list, vec![b("SET"), b("foo"), b("bar")]);
    assert_eq!(used, 31);
}

#[test]
fn requests_may_hold_any_bytes() {
    let (list, _) = words(b"*2\r\n$4\r\n\r\n\x00\xff\r\n$0\r\n\r\n");
    assert_eq!(list, vec![Bytes::from_static(b"\r\n\x00\xff"), b("")]);
}

#[test]
fn empty_requests_are_read() {
    assert_eq!(words(b"*0\r\nrest"), (vec![], 4));
}

#[test]
fn what_follows_a_request_is_left() {
    let buf = b"*1\r\n$4\r\nPING\r\n*1\r\n$4\r\nPING\r\n";
    let (list, used) = words(buf);
    assert_eq!(list, vec![b("PING")]);
    assert_eq!(used, 14);
    assert_eq!(words(&buf[used..]).0, vec![b("PING")]);
}

#[test]
fn parts_of_a_request_wait_for_the_rest() {
    let buf = b"*2\r\n$3\r\nGET\r\n$3\r\nkey\r\n";
    for arrived in 0..buf.len() {
        assert!(matches!(parse_request(&buf[..arrived]), Request::Partial));
    }
    assert_eq!(words(buf).1, buf.len());
}

#[test]
fn other_bytes_are_refused() {
    for buf in [
        b"PING\r\n" as &[u8],
        b"*x\r\n",
        b"*-1\r\n",
        b"*1\r\n:1\r\n",
        b"*1\r\n$x\r\n",
        b"*1\r\n$3\r\nabcde",
        b"*99999999999999999999999\r\n",
    ] {
        assert!(matches!(parse_request(buf), Request::Malformed));
    }
}

#[test]
fn what_is_written_is_read() {
    let sent = vec![b("MSET"), b("a"), b("1"), b(""), b("two words")];
    let mut writer = RespWriter::new();
    writer.write_array(&sent);
    let (list, used) = words(writer.as_slice());
    assert_eq!(list, sent);
    assert_eq!(used, writer.as_slice().len());
}

#[test]
fn commands_are_told_apart_whatever_their_case() {
    for (name, command) in [
        ("set", Command::SetValue),
        ("SETEX", Command::Setex),
        ("Get", Command::Get),
        ("DEL", Command::Del),
        ("exists", Command::Exists),
        ("TTL", Command::Ttl),
        ("PtTl", Command::Pttl),
        ("expire", Command::Expire),
        ("PERSIST", Command::Persist),
        ("incr", Command::Incr),
        ("DECR", Command::Decr),
        ("incrby", Command::Incrby),
        ("DECRBY", Command::Decrby),
        ("mget", Command::Mget),
        ("MSET", Command::Mset),
        ("hset", Command::Hset),
        ("HGET", Command::Hget),
        ("hgetall", Command::Hgetall),
        ("KEYS", Command::Keys),
        ("scan", Command::Scan),
        ("DBSIZE", Command::Dbsize),
        ("flushdb", Command::Flushdb),
        ("FLUSHALL", Command::Flushall),
        ("save", Command::Save),
        ("BGSAVE", Command::Bgsave),
        ("lastsave", Command::Lastsave),
        ("AUTH", Command::Auth),
        ("ping", Command::Ping),
        ("INFO", Command::Info),
        ("config", Command::Config),
        ("COMMAND", Command::Catalogue),
        ("subscribe", Command::Unknown),
        ("", Command::Unknown),
        ("sett", Command::Unknown),
    ] {
        assert_eq!(classify(name.as_bytes()), command, "{}", name);
    }
}

#[test]
fn words_are_compared_by_their_letters() {
    assert!(is_word(b"MaTcH", "match"));
    assert!(!is_word(b"matc", "match"));
    assert!(!is_word(b"natch", "match"));
}
