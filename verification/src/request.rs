//! Requests, and how they are read from the wire.
use bytes::Bytes;
use vstd::prelude::*;
use vstd::slice::{slice_subrange, slice_to_vec};

use crate::number::{
    decimal, is_digit, is_digits, law_unsigned_round_trip, parse_u64, unsigned_of,
};
use crate::octets::{bytes_from, octets_all};
use crate::resp::{
    bulk, bulk_list, encoded, encoded_all, line, line_end, list_header, Reply, BULK_MARK, CR, LF,
    LIST_MARK,
};

verus! {

/// What the bytes that have arrived so far amount to.
pub ghost enum Parsed<T> {
    /// A value, and where what comes after it starts.
    Done(T, int),
    /// The start of something.
    More,
    /// Nothing that can become a request.
    Bad,
}

/// Where the line that starts at `from` ends, if its end has arrived.
pub open spec fn line_stop(buf: Seq<u8>, from: int) -> Option<int>
    decreases buf.len() - from,
{
    if from < 0 || from + 1 >= buf.len() {
        None
    } else if buf[from] == CR && buf[from + 1] == LF {
        Some(from)
    } else {
        line_stop(buf, from + 1)
    }
}

/// A line with a mark and a number.
pub open spec fn number_at(buf: Seq<u8>, from: int, mark: u8) -> Parsed<u64> {
    if from >= buf.len() {
        Parsed::More
    } else if buf[from] != mark {
        Parsed::Bad
    } else {
        match line_stop(buf, from + 1) {
            None => Parsed::More,
            Some(stop) => match unsigned_of(buf.subrange(from + 1, stop)) {
                Some(n) => Parsed::Done(n, stop + 2),
                None => Parsed::Bad,
            },
        }
    }
}

/// A word: a line with its length, its bytes, and the end of a line.
pub open spec fn word_at(buf: Seq<u8>, from: int) -> Parsed<Seq<u8>> {
    match number_at(buf, from, BULK_MARK) {
        Parsed::More => Parsed::More,
        Parsed::Bad => Parsed::Bad,
        Parsed::Done(len, start) => if start + len + 2 > buf.len() {
            Parsed::More
        } else if buf.subrange(start + len, start + len + 2) == line_end() {
            Parsed::Done(buf.subrange(start, start + len), start + len + 2)
        } else {
            Parsed::Bad
        },
    }
}

/// A number of words, one after the other.
pub open spec fn words_at(buf: Seq<u8>, from: int, count: nat) -> Parsed<Seq<Seq<u8>>>
    decreases count,
{
    if count == 0 {
        Parsed::Done(Seq::empty(), from)
    } else {
        match words_at(buf, from, (count - 1) as nat) {
            Parsed::More => Parsed::More,
            Parsed::Bad => Parsed::Bad,
            Parsed::Done(words, start) => match word_at(buf, start) {
                Parsed::More => Parsed::More,
                Parsed::Bad => Parsed::Bad,
                Parsed::Done(word, next) => Parsed::Done(words.push(word), next),
            },
        }
    }
}

/// A request: a line with the number of its words, and the words.
pub open spec fn request_in(buf: Seq<u8>) -> Parsed<Seq<Seq<u8>>> {
    match number_at(buf, 0, LIST_MARK) {
        Parsed::More => Parsed::More,
        Parsed::Bad => Parsed::Bad,
        Parsed::Done(count, start) => words_at(buf, start, count as nat),
    }
}

/// What the bytes that have arrived so far amount to.
pub enum Request {
    /// The words of a request, and how many bytes it took.
    Complete(Vec<Bytes>, usize),
    /// The start of a request.
    Partial,
    /// Nothing that can become a request.
    Malformed,
}

impl View for Request {
    type V = Parsed<Seq<Seq<u8>>>;

    open spec fn view(&self) -> Parsed<Seq<Seq<u8>>> {
        match self {
            Request::Complete(words, used) => Parsed::Done(octets_all(words@), *used as int),
            Request::Partial => Parsed::More,
            Request::Malformed => Parsed::Bad,
        }
    }
}

/// A line with a mark and a number, or what there is of it.
enum Number {
    Done(u64, usize),
    More,
    Bad,
}

impl View for Number {
    type V = Parsed<u64>;

    closed spec fn view(&self) -> Parsed<u64> {
        match self {
            Number::Done(n, next) => Parsed::Done(*n, *next as int),
            Number::More => Parsed::More,
            Number::Bad => Parsed::Bad,
        }
    }
}

/// Reads a line with a mark and a number.
fn read_number(buf: &[u8], from: usize, mark: u8) -> (number: Number)
    requires
        from <= buf@.len(),
    ensures
        number@ == number_at(buf@, from as int, mark),
        number matches Number::Done(_, next) ==> next <= buf@.len(),
{
    if from >= buf.len() {
        return Number::More;
    }
    if buf[from] != mark {
        return Number::Bad;
    }
    let mut stop: usize = from + 1;
    while stop < buf.len() && buf.len() - stop > 1
        invariant
            from < stop <= buf@.len(),
            buf@[from as int] == mark,
            line_stop(buf@, from + 1) == line_stop(buf@, stop as int),
        decreases buf@.len() - stop,
    {
        if buf[stop] == CR && buf[stop + 1] == LF {
            return match parse_u64(slice_subrange(buf, from + 1, stop)) {
                Some(n) => Number::Done(n, stop + 2),
                None => Number::Bad,
            };
        }
        stop += 1;
    }
    Number::More
}

/// Reads a request from the start of the bytes that have arrived so far.
pub fn parse_request(buf: &[u8]) -> (request: Request)
    ensures
        request@ == request_in(buf@),
{
    let (count, first): (u64, usize) = match read_number(buf, 0, LIST_MARK) {
        Number::Done(count, first) => (count, first),
        Number::More => return Request::Partial,
        Number::Bad => return Request::Malformed,
    };
    let mut words: Vec<Bytes> = Vec::new();
    let mut at: usize = first;
    let mut i: u64 = 0;
    proof {
        assert(octets_all(words@) =~= Seq::empty());
    }
    while i < count
        invariant
            i <= count,
            at <= buf@.len(),
            number_at(buf@, 0, LIST_MARK) == Parsed::Done(count, first as int),
            words_at(buf@, first as int, i as nat) == Parsed::Done(octets_all(words@), at as int),
        decreases count - i,
    {
        let ghost before = octets_all(words@);
        proof {
            lemma_words_bad(buf@, first as int, (i + 1) as nat, count as nat);
        }
        let (len, start): (u64, usize) = match read_number(buf, at, BULK_MARK) {
            Number::Done(len, start) => (len, start),
            Number::More => return Request::Partial,
            Number::Bad => return Request::Malformed,
        };
        let arrived: u64 = (buf.len() - start) as u64;
        if arrived < len || arrived - len < 2 {
            return Request::Partial;
        }
        let len: usize = len as usize;
        let end: usize = start + len;
        proof {
            let tail = buf@.subrange(end as int, end + 2);
            assert(tail.len() == 2 && tail[0] == buf@[end as int] && tail[1] == buf@[end + 1]);
            assert(tail == line_end() <==> tail[0] == CR && tail[1] == LF) by {
                if tail[0] == CR && tail[1] == LF {
                    assert(tail =~= line_end());
                }
            }
        }
        if buf[end] != CR || buf[end + 1] != LF {
            return Request::Malformed;
        }
        words.push(bytes_from(slice_to_vec(slice_subrange(buf, start, end))));
        proof {
            assert(octets_all(words@) =~= before.push(buf@.subrange(start as int, end as int)));
        }
        at = end + 2;
        i += 1;
    }
    Request::Complete(words, at)
}

/// Where the first words cannot be read, no more of them can.
proof fn lemma_words_bad(buf: Seq<u8>, from: int, few: nat, many: nat)
    requires
        few <= many,
    ensures
        words_at(buf, from, few) is More ==> words_at(buf, from, many) is More,
        words_at(buf, from, few) is Bad ==> words_at(buf, from, many) is Bad,
    decreases many,
{
    if few < many {
        lemma_words_bad(buf, from, few, (many - 1) as nat);
    }
}

/// A request on the wire.
pub open spec fn wire(words: Seq<Seq<u8>>) -> Seq<u8> {
    list_header(words.len()) + wire_words(words)
}

/// Words on the wire, one after the other.
pub open spec fn wire_words(words: Seq<Seq<u8>>) -> Seq<u8>
    decreases words.len(),
{
    if words.len() == 0 {
        Seq::empty()
    } else {
        wire_words(words.drop_last()) + bulk(words.last())
    }
}

/// The numbers in the request can be written.
pub open spec fn sendable(words: Seq<Seq<u8>>) -> bool {
    &&& words.len() <= u64::MAX
    &&& forall|i: int| 0 <= i < words.len() ==> (#[trigger] words[i]).len() <= u64::MAX
}

pub(crate) proof fn lemma_line_stop(buf: Seq<u8>, from: int, stop: int)
    requires
        0 <= from <= stop,
        stop + 1 < buf.len(),
        buf[stop] == CR,
        buf[stop + 1] == LF,
        forall|i: int| from <= i < stop ==> #[trigger] buf[i] != CR,
    ensures
        line_stop(buf, from) == Some(stop),
    decreases stop - from,
{
    if from < stop {
        assert(buf[from] != CR);
        lemma_line_stop(buf, from + 1, stop);
    }
}

/// A line with a number is read as that number.
proof fn lemma_number_line(before: Seq<u8>, mark: u8, n: u64, after: Seq<u8>)
    ensures
        number_at(before + line(mark, decimal(n as int)) + after, before.len() as int, mark)
            == Parsed::Done(n, (before.len() + line(mark, decimal(n as int)).len()) as int),
{
    let body = decimal(n as int);
    let buf = before + line(mark, body) + after;
    let (from, stop) = (before.len() + 1, before.len() + 1 + body.len());
    law_unsigned_round_trip(n);
    assert(is_digits(body));
    assert(buf.subrange(from as int, stop as int) =~= body);
    assert forall|i: int| from <= i < stop implies #[trigger] buf[i] != CR by {
        assert(buf[i] == body[i - from]);
        assert(is_digit(body[i - from]));
    }
    lemma_line_stop(buf, from as int, stop as int);
}

proof fn lemma_words(before: Seq<u8>, words: Seq<Seq<u8>>, after: Seq<u8>)
    requires
        sendable(words),
    ensures
        words_at(before + wire_words(words) + after, before.len() as int, words.len())
            == Parsed::Done(words, (before.len() + wire_words(words).len()) as int),
    decreases words.len(),
{
    if words.len() == 0 {
        assert(words =~= Seq::empty());
    } else {
        let (rest, word) = (words.drop_last(), words.last());
        let head = line(BULK_MARK, decimal(word.len() as int));
        let whole = before + wire_words(words) + after;
        assert forall|i: int| 0 <= i < rest.len() implies (#[trigger] rest[i]).len()
            <= u64::MAX by {
            assert(words[i] == rest[i]);
        }
        assert(words[words.len() - 1].len() <= u64::MAX);
        lemma_words(before, rest, bulk(word) + after);
        assert(before + wire_words(rest) + (bulk(word) + after) =~= whole);
        let start = before + wire_words(rest);
        lemma_number_line(start, BULK_MARK, word.len() as u64, word + line_end() + after);
        assert(start + head + (word + line_end() + after) =~= whole);
        let at = (start.len() + head.len()) as int;
        assert(whole.subrange(at, at + word.len()) =~= word);
        assert(whole.subrange(at + word.len(), at + word.len() + 2) =~= line_end());
        assert(rest.push(word) =~= words);
    }
}

/// What a client sends is what is read, whatever comes after it.
pub proof fn law_request_round_trip(words: Seq<Seq<u8>>, after: Seq<u8>)
    requires
        sendable(words),
    ensures
        request_in(wire(words) + after) == Parsed::Done(words, wire(words).len() as int),
{
    let head = list_header(words.len());
    lemma_number_line(Seq::empty(), LIST_MARK, words.len() as u64, wire_words(words) + after);
    assert(Seq::<u8>::empty() + head + (wire_words(words) + after) =~= wire(words) + after);
    lemma_words(head, words, after);
    assert(head + wire_words(words) + after =~= wire(words) + after);
}

pub(crate) proof fn lemma_line_stop_stable(buf: Seq<u8>, more: Seq<u8>, from: int)
    requires
        line_stop(buf, from) is Some,
    ensures
        line_stop(buf + more, from) == line_stop(buf, from),
        from <= line_stop(buf, from).unwrap() < buf.len() - 1,
    decreases buf.len() - from,
{
    if !(buf[from] == CR && buf[from + 1] == LF) {
        lemma_line_stop_stable(buf, more, from + 1);
    }
}

proof fn lemma_number_stable(buf: Seq<u8>, more: Seq<u8>, from: int, mark: u8)
    requires
        0 <= from,
        !(number_at(buf, from, mark) is More),
    ensures
        number_at(buf + more, from, mark) == number_at(buf, from, mark),
        number_at(buf, from, mark) matches Parsed::Done(_, next) ==> from < next <= buf.len(),
{
    if buf[from] == mark {
        lemma_line_stop_stable(buf, more, from + 1);
        let stop = line_stop(buf, from + 1).unwrap();
        assert((buf + more).subrange(from + 1, stop) =~= buf.subrange(from + 1, stop));
    }
}

proof fn lemma_word_stable(buf: Seq<u8>, more: Seq<u8>, from: int)
    requires
        0 <= from,
        !(word_at(buf, from) is More),
    ensures
        word_at(buf + more, from) == word_at(buf, from),
        word_at(buf, from) matches Parsed::Done(_, next) ==> from < next <= buf.len(),
{
    lemma_number_stable(buf, more, from, BULK_MARK);
    if let Parsed::Done(len, start) = number_at(buf, from, BULK_MARK) {
        let end = start + len;
        assert((buf + more).subrange(end, end + 2) =~= buf.subrange(end, end + 2));
        assert((buf + more).subrange(start, end) =~= buf.subrange(start, end));
    }
}

proof fn lemma_words_stable(buf: Seq<u8>, more: Seq<u8>, from: int, count: nat)
    requires
        0 <= from <= buf.len(),
        !(words_at(buf, from, count) is More),
    ensures
        words_at(buf + more, from, count) == words_at(buf, from, count),
        words_at(buf, from, count) matches Parsed::Done(_, next) ==> from <= next <= buf.len(),
    decreases count,
{
    if count > 0 {
        lemma_words_stable(buf, more, from, (count - 1) as nat);
        if let Parsed::Done(_, start) = words_at(buf, from, (count - 1) as nat) {
            lemma_word_stable(buf, more, start);
        }
    }
}

/// A request takes some of the bytes that have arrived, and no others.
pub proof fn lemma_request_extent(buf: Seq<u8>)
    ensures
        request_in(buf) matches Parsed::Done(_, used) ==> 0 < used <= buf.len(),
{
    if request_in(buf) is Done {
        lemma_number_stable(buf, Seq::empty(), 0, LIST_MARK);
        if let Parsed::Done(count, start) = number_at(buf, 0, LIST_MARK) {
            lemma_words_stable(buf, Seq::empty(), start, count as nat);
        }
    }
}

/// A request on the wire is a list of byte strings.
pub proof fn lemma_wire_is_bulk_list(words: Seq<Seq<u8>>)
    ensures
        wire(words) == encoded(bulk_list(words)),
{
    lemma_wire_words(words);
}

proof fn lemma_wire_words(words: Seq<Seq<u8>>)
    ensures
        wire_words(words) == encoded_all(words.map_values(|word: Seq<u8>| Reply::Bulk(word))),
    decreases words.len(),
{
    let items = words.map_values(|word: Seq<u8>| Reply::Bulk(word));
    if words.len() > 0 {
        let rest = words.drop_last();
        lemma_wire_words(rest);
        assert(items.drop_last() =~= rest.map_values(|word: Seq<u8>| Reply::Bulk(word)));
        assert(items.last() == Reply::Bulk(words.last()));
        assert(encoded(items.last()) == bulk(words.last()));
        assert(encoded_all(items) == encoded_all(items.drop_last()) + encoded(items.last()));
    }
}

/// However a request is cut up on its way: once the bytes that have arrived are read as a request,
/// or refused, what arrives later does not change that.
pub proof fn law_verdict_is_stable(buf: Seq<u8>, more: Seq<u8>)
    requires
        !(request_in(buf) is More),
    ensures
        request_in(buf + more) == request_in(buf),
{
    lemma_number_stable(buf, more, 0, LIST_MARK);
    if let Parsed::Done(count, start) = number_at(buf, 0, LIST_MARK) {
        lemma_words_stable(buf, more, start, count as nat);
    }
}

/// A request that has arrived in part is neither refused nor taken for another one.
pub proof fn law_partial_request_waits(words: Seq<Seq<u8>>, arrived: int)
    requires
        sendable(words),
        0 <= arrived < wire(words).len(),
    ensures
        request_in(wire(words).take(arrived)) is More,
{
    let (buf, more) = (wire(words).take(arrived), wire(words).skip(arrived));
    if !(request_in(buf) is More) {
        law_verdict_is_stable(buf, more);
        assert(buf + more =~= wire(words) + Seq::<u8>::empty());
        law_request_round_trip(words, Seq::empty());
        lemma_number_stable(buf, more, 0, LIST_MARK);
        if let Parsed::Done(count, start) = number_at(buf, 0, LIST_MARK) {
            lemma_words_stable(buf, more, start, count as nat);
        }
    }
}

} // verus!
