//! Commands: their names and their options.
use bytes::Bytes;
use vstd::prelude::*;
use vstd::utf8::encode_utf8;

use crate::number::{parse_u64, unsigned_of};
use crate::octets::{octets, octets_all, octets_opt, slice_of};
use crate::size::clamped;

verus! {

/// The bit in which a lower-case letter differs from the upper-case one.
pub const CASE_BIT: u8 = 0x20;

/// What a client can ask for.
#[derive(Clone, Copy, PartialEq, Eq, Structural, Debug)]
pub enum Command {
    SetValue,
    Setex,
    Get,
    Del,
    Exists,
    Ttl,
    Pttl,
    Expire,
    Persist,
    Incr,
    Decr,
    Incrby,
    Decrby,
    Mget,
    Mset,
    Hset,
    Hget,
    Hgetall,
    Keys,
    Scan,
    Dbsize,
    Flushdb,
    Flushall,
    Save,
    Bgsave,
    Lastsave,
    Auth,
    Ping,
    Info,
    Config,
    Catalogue,
    Unknown,
}

/// The bytes with the case bit of each set.
pub open spec fn folded(bytes: Seq<u8>) -> Seq<u8> {
    bytes.map_values(|b: u8| b | CASE_BIT)
}

/// The bytes are the word, whatever their case. The word is in lower case.
pub open spec fn same_word(bytes: Seq<u8>, word: Seq<char>) -> bool {
    folded(bytes) == encode_utf8(word)
}

/// The command that a name stands for.
pub open spec fn command_of(name: Seq<u8>) -> Command {
    if same_word(name, "set"@) {
        Command::SetValue
    } else if same_word(name, "ttl"@) {
        Command::Ttl
    } else if same_word(name, "get"@) {
        Command::Get
    } else if same_word(name, "del"@) {
        Command::Del
    } else if same_word(name, "ping"@) {
        Command::Ping
    } else if same_word(name, "keys"@) {
        Command::Keys
    } else if same_word(name, "save"@) {
        Command::Save
    } else if same_word(name, "incr"@) {
        Command::Incr
    } else if same_word(name, "decr"@) {
        Command::Decr
    } else if same_word(name, "pttl"@) {
        Command::Pttl
    } else if same_word(name, "mget"@) {
        Command::Mget
    } else if same_word(name, "mset"@) {
        Command::Mset
    } else if same_word(name, "auth"@) {
        Command::Auth
    } else if same_word(name, "info"@) {
        Command::Info
    } else if same_word(name, "scan"@) {
        Command::Scan
    } else if same_word(name, "hset"@) {
        Command::Hset
    } else if same_word(name, "hget"@) {
        Command::Hget
    } else if same_word(name, "setex"@) {
        Command::Setex
    } else if same_word(name, "exists"@) {
        Command::Exists
    } else if same_word(name, "bgsave"@) {
        Command::Bgsave
    } else if same_word(name, "dbsize"@) {
        Command::Dbsize
    } else if same_word(name, "config"@) {
        Command::Config
    } else if same_word(name, "incrby"@) {
        Command::Incrby
    } else if same_word(name, "decrby"@) {
        Command::Decrby
    } else if same_word(name, "expire"@) {
        Command::Expire
    } else if same_word(name, "flushdb"@) {
        Command::Flushdb
    } else if same_word(name, "command"@) {
        Command::Catalogue
    } else if same_word(name, "persist"@) {
        Command::Persist
    } else if same_word(name, "hgetall"@) {
        Command::Hgetall
    } else if same_word(name, "lastsave"@) {
        Command::Lastsave
    } else if same_word(name, "flushall"@) {
        Command::Flushall
    } else {
        Command::Unknown
    }
}

/// A letter counts as a lower-case one just where it is that letter in either case.
pub proof fn law_case_does_not_matter(b: u8, letter: u8)
    requires
        97 <= letter <= 122,
    ensures
        (b | CASE_BIT) == letter <==> b == letter || b + 32 == letter,
{
    assert((b | 0x20u8) == letter <==> b == letter || b + 32 == letter) by (bit_vector)
        requires
            97 <= letter <= 122,
    ;
}

/// Whether the bytes are the word, whatever their case.
pub fn is_word(bytes: &[u8], word: &str) -> (same: bool)
    ensures
        same == same_word(bytes@, word@),
{
    let letters: &[u8] = word.as_bytes();
    if bytes.len() != letters.len() {
        assert(folded(bytes@).len() != encode_utf8(word@).len());
        return false;
    }
    let mut i: usize = 0;
    while i < bytes.len()
        invariant
            i <= bytes@.len(),
            bytes@.len() == letters@.len(),
            letters@ == encode_utf8(word@),
            forall|j: int| 0 <= j < i ==> folded(bytes@)[j] == #[trigger] letters@[j],
        decreases bytes@.len() - i,
    {
        if bytes[i] | CASE_BIT != letters[i] {
            assert(folded(bytes@)[i as int] != letters@[i as int]);
            return false;
        }
        i += 1;
    }
    assert(folded(bytes@) =~= letters@);
    true
}

/// The command that a name stands for.
pub fn classify(name: &[u8]) -> (command: Command)
    ensures
        command == command_of(name@),
{
    if is_word(name, "set") {
        Command::SetValue
    } else if is_word(name, "ttl") {
        Command::Ttl
    } else if is_word(name, "get") {
        Command::Get
    } else if is_word(name, "del") {
        Command::Del
    } else if is_word(name, "ping") {
        Command::Ping
    } else if is_word(name, "keys") {
        Command::Keys
    } else if is_word(name, "save") {
        Command::Save
    } else if is_word(name, "incr") {
        Command::Incr
    } else if is_word(name, "decr") {
        Command::Decr
    } else if is_word(name, "pttl") {
        Command::Pttl
    } else if is_word(name, "mget") {
        Command::Mget
    } else if is_word(name, "mset") {
        Command::Mset
    } else if is_word(name, "auth") {
        Command::Auth
    } else if is_word(name, "info") {
        Command::Info
    } else if is_word(name, "scan") {
        Command::Scan
    } else if is_word(name, "hset") {
        Command::Hset
    } else if is_word(name, "hget") {
        Command::Hget
    } else if is_word(name, "setex") {
        Command::Setex
    } else if is_word(name, "exists") {
        Command::Exists
    } else if is_word(name, "bgsave") {
        Command::Bgsave
    } else if is_word(name, "dbsize") {
        Command::Dbsize
    } else if is_word(name, "config") {
        Command::Config
    } else if is_word(name, "incrby") {
        Command::Incrby
    } else if is_word(name, "decrby") {
        Command::Decrby
    } else if is_word(name, "expire") {
        Command::Expire
    } else if is_word(name, "flushdb") {
        Command::Flushdb
    } else if is_word(name, "command") {
        Command::Catalogue
    } else if is_word(name, "persist") {
        Command::Persist
    } else if is_word(name, "hgetall") {
        Command::Hgetall
    } else if is_word(name, "lastsave") {
        Command::Lastsave
    } else if is_word(name, "flushall") {
        Command::Flushall
    } else {
        Command::Unknown
    }
}

/// The answer to options that cannot be read.
pub const SYNTAX_ERROR: &'static str = "syntax error";

/// The answer to a word that is no number, or none in range.
pub const NOT_A_NUMBER: &'static str = "value is not an integer or out of range";

/// The options of SET.
#[derive(Clone, Copy, PartialEq, Eq, Structural, Debug)]
pub struct SetOptions {
    /// The time to live in seconds.
    pub ttl: Option<u64>,
    /// Set only where the key is not live.
    pub nx: bool,
    /// Set only where the key is live.
    pub xx: bool,
    /// Answer with what the key held before.
    pub get: bool,
}

/// The whole seconds that `millis` milliseconds are rounded up to.
pub open spec fn seconds_up(millis: u64) -> u64 {
    ((millis + 999) / 1000) as u64
}

/// What the words after `SET key value` ask for, on top of `options`.
pub open spec fn set_options(words: Seq<Seq<u8>>, options: SetOptions) -> Result<
    SetOptions,
    Seq<char>,
>
    decreases words.len(),
{
    if words.len() == 0 {
        Ok(options)
    } else if same_word(words[0], "ex"@) || same_word(words[0], "px"@) {
        if words.len() == 1 {
            Err(SYNTAX_ERROR@)
        } else {
            match unsigned_of(words[1]) {
                Some(n) if n > 0 => set_options(
                    words.skip(2),
                    SetOptions {
                        ttl: Some(
                            if same_word(words[0], "ex"@) {
                                n
                            } else {
                                seconds_up(n)
                            },
                        ),
                        ..options
                    },
                ),
                _ => Err(NOT_A_NUMBER@),
            }
        }
    } else if same_word(words[0], "nx"@) {
        set_options(words.skip(1), SetOptions { nx: true, ..options })
    } else if same_word(words[0], "xx"@) {
        set_options(words.skip(1), SetOptions { xx: true, ..options })
    } else if same_word(words[0], "get"@) {
        set_options(words.skip(1), SetOptions { get: true, ..options })
    } else {
        Err(SYNTAX_ERROR@)
    }
}

impl SetOptions {
    /// No option.
    pub open spec fn none() -> SetOptions {
        SetOptions { ttl: None, nx: false, xx: false, get: false }
    }
}

/// A result whose error is a text.
pub open spec fn with_text<T>(result: Result<T, &'static str>) -> Result<T, Seq<char>> {
    match result {
        Ok(value) => Ok(value),
        Err(message) => Err(message@),
    }
}

/// Reads the options of SET, from the word number `first` of a command on.
pub fn parse_set_options(command: &[Bytes], first: usize) -> (options: Result<
    SetOptions,
    &'static str,
>)
    requires
        first <= command@.len(),
    ensures
        with_text(options) == set_options(octets_all(command@).skip(first as int), SetOptions::none()),
{
    let ghost words = octets_all(command@);
    let mut options = SetOptions { ttl: None, nx: false, xx: false, get: false };
    let mut i: usize = first;
    while i < command.len()
        invariant
            i <= command@.len(),
            words == octets_all(command@),
            set_options(words.skip(first as int), SetOptions::none()) == set_options(
                words.skip(i as int),
                options,
            ),
        decreases command@.len() - i,
    {
        let word = slice_of(&command[i]);
        let ghost rest = words.skip(i as int);
        proof {
            assert(rest[0] == word@);
            assert(rest.skip(1) =~= words.skip(i + 1));
        }
        let seconds = is_word(word, "ex");
        if seconds || is_word(word, "px") {
            if i + 1 >= command.len() {
                return Err(SYNTAX_ERROR);
            }
            i += 1;
            proof {
                assert(rest[1] == octets(command@[i as int]));
                assert(rest.skip(2) =~= words.skip(i + 1));
            }
            match parse_u64(slice_of(&command[i])) {
                Some(n) => {
                    if n == 0 {
                        return Err(NOT_A_NUMBER);
                    }
                    options.ttl = Some(
                        if seconds {
                            n
                        } else {
                            n / 1000 + (if n % 1000 == 0 {
                                0
                            } else {
                                1
                            })
                        },
                    );
                },
                None => {
                    return Err(NOT_A_NUMBER);
                },
            }
        } else if is_word(word, "nx") {
            options.nx = true;
        } else if is_word(word, "xx") {
            options.xx = true;
        } else if is_word(word, "get") {
            options.get = true;
        } else {
            return Err(SYNTAX_ERROR);
        }
        i += 1;
    }
    Ok(options)
}

/// The options of SCAN.
pub struct ScanOptions {
    /// How many keys are asked for.
    pub count: usize,
    /// The pattern that the keys are to match.
    pub pattern: Option<Bytes>,
}

/// The options of SCAN, by their bytes.
pub ghost struct ScanOptionsView {
    pub count: usize,
    pub pattern: Option<Seq<u8>>,
}

impl View for ScanOptions {
    type V = ScanOptionsView;

    open spec fn view(&self) -> ScanOptionsView {
        ScanOptionsView { count: self.count, pattern: octets_opt(self.pattern) }
    }
}

/// How many keys are asked for where nothing is said.
pub const DEFAULT_COUNT: usize = 10;

impl ScanOptionsView {
    /// No option.
    pub open spec fn none() -> ScanOptionsView {
        ScanOptionsView { count: DEFAULT_COUNT, pattern: None }
    }
}

/// What the words after `SCAN cursor` ask for, on top of `options`.
pub open spec fn scan_options(words: Seq<Seq<u8>>, options: ScanOptionsView) -> Result<
    ScanOptionsView,
    Seq<char>,
>
    decreases words.len(),
{
    if words.len() == 0 {
        Ok(options)
    } else if words.len() == 1 {
        Err(SYNTAX_ERROR@)
    } else if same_word(words[0], "match"@) {
        scan_options(words.skip(2), ScanOptionsView { pattern: Some(words[1]), ..options })
    } else if same_word(words[0], "count"@) {
        match unsigned_of(words[1]) {
            Some(n) => scan_options(
                words.skip(2),
                ScanOptionsView { count: clamped(n as nat) as usize, ..options },
            ),
            None => Err(NOT_A_NUMBER@),
        }
    } else {
        Err(SYNTAX_ERROR@)
    }
}

/// The view of the options, or the text of the error.
pub open spec fn scan_options_view(options: Result<ScanOptions, &'static str>) -> Result<
    ScanOptionsView,
    Seq<char>,
> {
    match options {
        Ok(options) => Ok(options@),
        Err(message) => Err(message@),
    }
}

/// Reads the options of SCAN, from the word number `first` of a command on.
pub fn parse_scan_options(command: &[Bytes], first: usize) -> (options: Result<
    ScanOptions,
    &'static str,
>)
    requires
        first <= command@.len(),
    ensures
        scan_options_view(options) == scan_options(
            octets_all(command@).skip(first as int),
            ScanOptionsView::none(),
        ),
{
    let ghost words = octets_all(command@);
    let mut count: usize = DEFAULT_COUNT;
    let mut pattern: Option<Bytes> = None;
    let mut i: usize = first;
    while i < command.len()
        invariant
            i <= command@.len(),
            words == octets_all(command@),
            scan_options(words.skip(first as int), ScanOptionsView::none()) == scan_options(
                words.skip(i as int),
                (ScanOptionsView { count, pattern: octets_opt(pattern) }),
            ),
        decreases command@.len() - i,
    {
        let word = slice_of(&command[i]);
        let ghost rest = words.skip(i as int);
        proof {
            assert(rest[0] == word@);
        }
        if i + 1 >= command.len() {
            return Err(SYNTAX_ERROR);
        }
        proof {
            assert(rest[1] == octets(command@[i + 1]));
            assert(rest.skip(2) =~= words.skip(i + 2));
        }
        if is_word(word, "match") {
            pattern = Some(command[i + 1].clone());
        } else if is_word(word, "count") {
            match parse_u64(slice_of(&command[i + 1])) {
                Some(n) => {
                    count = if n > usize::MAX as u64 {
                        usize::MAX
                    } else {
                        n as usize
                    };
                },
                None => {
                    return Err(NOT_A_NUMBER);
                },
            }
        } else {
            return Err(SYNTAX_ERROR);
        }
        i += 2;
    }
    Ok(ScanOptions { count, pattern })
}

} // verus!
