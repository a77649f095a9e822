//! What stands on the wire, byte by byte.
use vstd::prelude::*;
use vstd::utf8::encode_utf8;

use crate::number::{decimal, is_digit, unsigned_of};
use crate::request::{
    lemma_line_stop, lemma_line_stop_stable, line_stop, number_at, request_in, word_at, words_at,
    Parsed,
};
use crate::resp::{encoded, encoded_all, lemma_encoded_push, Reply, BULK_MARK, LIST_MARK};

verus! {

/// A status starts with `+`, an error with `-`, and an integer with `:`; each is one line.
pub proof fn law_lines_on_the_wire(text: Seq<char>, n: int)
    ensures
        encoded(Reply::Status(text)) == seq!['+' as u8] + encode_utf8(text) + seq![13u8, 10u8],
        encoded(Reply::Error(text)) == seq!['-' as u8] + encode_utf8(text) + seq![13u8, 10u8],
        encoded(Reply::Integer(n)) == seq![':' as u8] + decimal(n) + seq![13u8, 10u8],
{
}

/// A byte string is announced by `$` and its length, and ends with a line end; where there is none,
/// `$-1` stands alone.
pub proof fn law_byte_strings_on_the_wire(data: Seq<u8>)
    ensures
        encoded(Reply::Bulk(data)) == seq!['$' as u8] + decimal(data.len() as int) + seq![
            13u8,
            10u8,
        ] + data + seq![13u8, 10u8],
        encoded(Reply::Null) == seq!['$' as u8, '-' as u8, '1' as u8, 13u8, 10u8],
{
    assert(decimal(-1) =~= seq![45u8, 49u8]);
    assert(encoded(Reply::Null) =~= seq![36u8, 45u8, 49u8, 13u8, 10u8]);
}

/// A list is announced by `*` and its length; its replies follow one after the other.
pub proof fn law_lists_on_the_wire(items: Seq<Reply>, item: Reply)
    ensures
        encoded(Reply::List(Seq::empty())) == seq!['*' as u8, '0' as u8, 13u8, 10u8],
        encoded(Reply::List(items)) == seq!['*' as u8] + decimal(items.len() as int) + seq![
            13u8,
            10u8,
        ] + encoded_all(items),
        encoded_all(Seq::empty()) == Seq::<u8>::empty(),
        encoded_all(items.push(item)) == encoded_all(items) + encoded(item),
{
    lemma_encoded_push(items, item);
    assert(decimal(0) =~= seq![48u8]);
    assert(encoded_all(Seq::<Reply>::empty()) =~= Seq::<u8>::empty());
    assert(encoded(Reply::List(Seq::empty())) =~= seq![42u8, 48u8, 13u8, 10u8]);
    assert(encoded(Reply::List(items)) =~= seq![42u8] + decimal(items.len() as int) + seq![
        13u8,
        10u8,
    ] + encoded_all(items));
}

/// A line that starts with the mark and tells the number, with whatever zeros before it.
pub open spec fn tells_number(line: Seq<u8>, mark: char, n: int) -> bool {
    &&& line.len() >= 3
    &&& line[0] as int == mark as int
    &&& line[line.len() - 2] == 13
    &&& line[line.len() - 1] == 10
    &&& unsigned_of(line.subrange(1, line.len() - 2)) == Some(n as u64)
    &&& 0 <= n <= u64::MAX
}

/// The bytes are a word as it is sent: a line with its length, its bytes, and the end of a line.
pub open spec fn sends_word(bytes: Seq<u8>, word: Seq<u8>) -> bool {
    exists|n: int|
        {
            &&& 0 <= n <= bytes.len()
            &&& #[trigger] tells_number(bytes.take(n), '$', word.len() as int)
            &&& bytes.skip(n) == word + seq![13u8, 10u8]
        }
}

/// The bytes are these words, one after the other.
pub open spec fn sends_words(bytes: Seq<u8>, words: Seq<Seq<u8>>) -> bool
    decreases words.len(),
{
    if words.len() == 0 {
        bytes.len() == 0
    } else {
        exists|n: int|
            {
                &&& 0 <= n <= bytes.len()
                &&& sends_words(bytes.take(n), words.drop_last())
                &&& #[trigger] sends_word(bytes.skip(n), words.last())
            }
    }
}

/// The bytes are a request as it is sent: a line with the number of its words, and the words.
pub open spec fn sends(bytes: Seq<u8>, words: Seq<Seq<u8>>) -> bool {
    exists|n: int|
        {
            &&& 0 <= n <= bytes.len()
            &&& #[trigger] tells_number(bytes.take(n), '*', words.len() as int)
            &&& sends_words(bytes.skip(n), words)
        }
}

proof fn lemma_line_read(buf: Seq<u8>, from: int, mark: char)
    requires
        0 <= from,
        mark == '$' || mark == '*',
        number_at(buf, from, mark as u8) is Done,
    ensures
        ({
            let n = number_at(buf, from, mark as u8)->Done_0;
            let next = number_at(buf, from, mark as u8)->Done_1;
            from < next <= buf.len() && tells_number(buf.subrange(from, next), mark, n as int)
        }),
{
    let stop = line_stop(buf, from + 1).unwrap();
    lemma_line_stop_stable(buf, Seq::empty(), from + 1);
    lemma_stop_is_line_end(buf, from + 1);
    let line = buf.subrange(from, stop + 2);
    assert(line.subrange(1, line.len() - 2) =~= buf.subrange(from + 1, stop));
}

proof fn lemma_stop_is_line_end(buf: Seq<u8>, from: int)
    requires
        0 <= from,
        line_stop(buf, from) is Some,
    ensures
        ({
            let stop = line_stop(buf, from).unwrap();
            from <= stop && stop + 1 < buf.len() && buf[stop] == 13 && buf[stop + 1] == 10
        }),
    decreases buf.len() - from,
{
    if !(buf[from] == 13 && buf[from + 1] == 10) {
        lemma_stop_is_line_end(buf, from + 1);
    }
}

proof fn lemma_word_read(buf: Seq<u8>, from: int)
    requires
        0 <= from,
        word_at(buf, from) is Done,
    ensures
        ({
            let next = word_at(buf, from)->Done_1;
            from < next <= buf.len() && sends_word(
                buf.subrange(from, next),
                word_at(buf, from)->Done_0,
            )
        }),
{
    lemma_line_read(buf, from, '$');
    let start = number_at(buf, from, BULK_MARK)->Done_1;
    let (word, next) = (word_at(buf, from)->Done_0, word_at(buf, from)->Done_1);
    let bytes = buf.subrange(from, next);
    assert(bytes.take(start - from) =~= buf.subrange(from, start));
    let tail = buf.subrange(next - 2, next);
    assert(tail == seq![13u8, 10u8]);
    assert(bytes.skip(start - from) =~= word + tail);
    assert(tells_number(bytes.take(start - from), '$', word.len() as int));
}

proof fn lemma_words_read(buf: Seq<u8>, from: int, count: nat)
    requires
        0 <= from <= buf.len(),
        words_at(buf, from, count) is Done,
    ensures
        ({
            let (words, next) = (
                words_at(buf, from, count)->Done_0,
                words_at(buf, from, count)->Done_1,
            );
            &&& from <= next <= buf.len()
            &&& words.len() == count
            &&& sends_words(buf.subrange(from, next), words)
        }),
    decreases count,
{
    if count > 0 {
        lemma_words_read(buf, from, (count - 1) as nat);
        let (rest, start) = (
            words_at(buf, from, (count - 1) as nat)->Done_0,
            words_at(buf, from, (count - 1) as nat)->Done_1,
        );
        lemma_word_read(buf, start);
        let (words, next) = (
            words_at(buf, from, count)->Done_0,
            words_at(buf, from, count)->Done_1,
        );
        let bytes = buf.subrange(from, next);
        assert(words.drop_last() =~= rest);
        assert(bytes.take(start - from) =~= buf.subrange(from, start));
        assert(bytes.skip(start - from) =~= buf.subrange(start, next));
        assert(sends_word(bytes.skip(start - from), words.last()));
    }
}

/// What is read as a request was sent as one, word for word, in just the bytes that it took.
pub proof fn law_what_is_read_was_sent(buf: Seq<u8>, words: Seq<Seq<u8>>, used: int)
    requires
        request_in(buf) == Parsed::Done(words, used),
    ensures
        0 < used <= buf.len(),
        sends(buf.take(used), words),
{
    lemma_line_read(buf, 0, '*');
    let (count, start) = (
        number_at(buf, 0, LIST_MARK)->Done_0,
        number_at(buf, 0, LIST_MARK)->Done_1,
    );
    lemma_words_read(buf, start, count as nat);
    let bytes = buf.take(used);
    assert(bytes.take(start) =~= buf.subrange(0, start));
    assert(bytes.skip(start) =~= buf.subrange(start, used));
    assert(tells_number(bytes.take(start), '*', words.len() as int));
}

proof fn lemma_digits_hold_no_end(text: Seq<u8>, i: int)
    requires
        unsigned_of(text) is Some,
        0 <= i < text.len(),
    ensures
        text[i] != 13,
{
    assert(is_digit(text[i]));
}

proof fn lemma_line_told(buf: Seq<u8>, from: int, next: int, mark: char, n: int)
    requires
        0 <= from <= next <= buf.len(),
        mark == '$' || mark == '*',
        tells_number(buf.subrange(from, next), mark, n),
    ensures
        number_at(buf, from, mark as u8) == Parsed::Done(n as u64, next),
{
    let line = buf.subrange(from, next);
    let text = line.subrange(1, line.len() - 2);
    assert(text =~= buf.subrange(from + 1, next - 2));
    assert(line[0] == buf[from] && line[line.len() - 2] == buf[next - 2] && line[line.len() - 1]
        == buf[next - 1]);
    assert forall|i: int| from + 1 <= i < next - 2 implies #[trigger] buf[i] != 13 by {
        lemma_digits_hold_no_end(text, i - from - 1);
    }
    lemma_line_stop(buf, from + 1, next - 2);
}

proof fn lemma_word_told(buf: Seq<u8>, from: int, next: int, word: Seq<u8>)
    requires
        0 <= from <= next <= buf.len(),
        sends_word(buf.subrange(from, next), word),
    ensures
        word_at(buf, from) == Parsed::Done(word, next),
{
    let bytes = buf.subrange(from, next);
    let n = choose|n: int|
        {
            &&& 0 <= n <= bytes.len()
            &&& #[trigger] tells_number(bytes.take(n), '$', word.len() as int)
            &&& bytes.skip(n) == word + seq![13u8, 10u8]
        };
    assert(bytes.take(n) =~= buf.subrange(from, from + n));
    lemma_line_told(buf, from, from + n, '$', word.len() as int);
    let tail = bytes.skip(n);
    assert(tail.len() == word.len() + 2);
    let start = from + n;
    assert(buf.subrange(start, start + word.len()) =~= word) by {
        assert(tail.take(word.len() as int) =~= word);
        assert(buf.subrange(start, start + word.len()) =~= tail.take(word.len() as int));
    }
    assert(buf.subrange(start + word.len(), start + word.len() + 2) =~= seq![13u8, 10u8]) by {
        assert(tail.skip(word.len() as int) =~= seq![13u8, 10u8]);
        assert(buf.subrange(start + word.len(), start + word.len() + 2) =~= tail.skip(
            word.len() as int,
        ));
    }
}

proof fn lemma_words_told(buf: Seq<u8>, from: int, next: int, words: Seq<Seq<u8>>)
    requires
        0 <= from <= next <= buf.len(),
        sends_words(buf.subrange(from, next), words),
    ensures
        words_at(buf, from, words.len()) == Parsed::Done(words, next),
    decreases words.len(),
{
    let bytes = buf.subrange(from, next);
    if words.len() == 0 {
        assert(words =~= Seq::empty());
    } else {
        let n = choose|n: int|
            {
                &&& 0 <= n <= bytes.len()
                &&& sends_words(bytes.take(n), words.drop_last())
                &&& #[trigger] sends_word(bytes.skip(n), words.last())
            };
        assert(bytes.take(n) =~= buf.subrange(from, from + n));
        assert(bytes.skip(n) =~= buf.subrange(from + n, next));
        lemma_words_told(buf, from, from + n, words.drop_last());
        lemma_word_told(buf, from + n, next, words.last());
        assert(words.drop_last().push(words.last()) =~= words);
    }
}

/// What is sent as a request is read as that request, whatever comes after it.
pub proof fn law_what_is_sent_is_read(bytes: Seq<u8>, words: Seq<Seq<u8>>, after: Seq<u8>)
    requires
        sends(bytes, words),
    ensures
        request_in(bytes + after) == Parsed::Done(words, bytes.len() as int),
{
    let buf = bytes + after;
    let n = choose|n: int|
        {
            &&& 0 <= n <= bytes.len()
            &&& #[trigger] tells_number(bytes.take(n), '*', words.len() as int)
            &&& sends_words(bytes.skip(n), words)
        };
    assert(bytes.take(n) =~= buf.subrange(0, n));
    assert(bytes.skip(n) =~= buf.subrange(n, bytes.len() as int));
    lemma_line_told(buf, 0, n, '*', words.len() as int);
    lemma_words_told(buf, n, bytes.len() as int, words);
}

} // verus!
