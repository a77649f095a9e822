//! Replies, and how they are written on the wire.
use bytes::Bytes;
use vstd::prelude::*;
use vstd::utf8::encode_utf8;

use crate::number::{decimal, format_i64, format_u64};
use crate::octets::{octets, octets_all, octets_opt, slice_of};

verus! {

/// What a client is answered.
pub ghost enum Reply {
    /// A short text that tells of success.
    Status(Seq<char>),
    /// A short text that tells of failure.
    Error(Seq<char>),
    Integer(int),
    /// A byte string.
    Bulk(Seq<u8>),
    /// Nothing, where a byte string could have been.
    Null,
    List(Seq<Reply>),
}

/// The first of the two bytes that end a line, the carriage return.
pub const CR: u8 = 13;

/// The second of them, the line feed.
pub const LF: u8 = 10;

/// The byte `+`, with which a status starts.
pub const STATUS_MARK: u8 = 43;

/// The byte `-`, with which an error starts.
pub const ERROR_MARK: u8 = 45;

/// The byte `:`, with which an integer starts.
pub const INTEGER_MARK: u8 = 58;

/// The byte `$`, with which a byte string starts.
pub const BULK_MARK: u8 = 36;

/// The byte `*`, with which a list starts.
pub const LIST_MARK: u8 = 42;

/// The end of a line.
pub open spec fn line_end() -> Seq<u8> {
    seq![CR, LF]
}

/// A line with a mark of its kind at its start.
pub open spec fn line(mark: u8, body: Seq<u8>) -> Seq<u8> {
    seq![mark] + body + line_end()
}

/// The line that announces a list of `len` replies.
pub open spec fn list_header(len: nat) -> Seq<u8> {
    line(LIST_MARK, decimal(len as int))
}

/// A byte string on the wire: its length, then its bytes.
pub open spec fn bulk(data: Seq<u8>) -> Seq<u8> {
    line(BULK_MARK, decimal(data.len() as int)) + data + line_end()
}

/// A reply on the wire.
pub open spec fn encoded(reply: Reply) -> Seq<u8>
    decreases reply,
{
    match reply {
        Reply::Status(text) => line(STATUS_MARK, encode_utf8(text)),
        Reply::Error(text) => line(ERROR_MARK, encode_utf8(text)),
        Reply::Integer(n) => line(INTEGER_MARK, decimal(n)),
        Reply::Bulk(data) => bulk(data),
        Reply::Null => line(BULK_MARK, decimal(-1)),
        Reply::List(items) => list_header(items.len()) + encoded_all(items),
    }
}

/// Replies on the wire, one after the other.
pub open spec fn encoded_all(items: Seq<Reply>) -> Seq<u8>
    decreases items,
{
    if items.len() == 0 {
        Seq::empty()
    } else {
        encoded_all(items.drop_last()) + encoded(items.last())
    }
}

/// A byte string, or nothing.
pub open spec fn bulk_or_null(data: Option<Seq<u8>>) -> Reply {
    match data {
        Some(data) => Reply::Bulk(data),
        None => Reply::Null,
    }
}

/// A list of byte strings.
pub open spec fn bulk_list(items: Seq<Seq<u8>>) -> Reply {
    Reply::List(items.map_values(|item: Seq<u8>| Reply::Bulk(item)))
}

/// One more reply after the others.
pub proof fn lemma_encoded_push(items: Seq<Reply>, item: Reply)
    ensures
        encoded_all(items.push(item)) == encoded_all(items) + encoded(item),
{
    assert(items.push(item).drop_last() =~= items);
}

/// Replies that wait to be sent.
pub struct RespWriter {
    buffer: Vec<u8>,
}

impl View for RespWriter {
    type V = Seq<u8>;

    closed spec fn view(&self) -> Seq<u8> {
        self.buffer@
    }
}

impl RespWriter {
    /// A writer that holds nothing.
    pub fn new() -> (writer: RespWriter)
        ensures
            writer@ == Seq::<u8>::empty(),
    {
        RespWriter { buffer: Vec::new() }
    }

    /// A writer that continues what a buffer holds.
    pub fn with_buffer(buffer: Vec<u8>) -> (writer: RespWriter)
        ensures
            writer@ == buffer@,
    {
        RespWriter { buffer }
    }

    /// The bytes that wait to be sent.
    pub fn as_slice(&self) -> (bytes: &[u8])
        ensures
            bytes@ == self@,
    {
        self.buffer.as_slice()
    }

    /// The buffer behind the writer.
    pub fn into_buffer(self) -> (buffer: Vec<u8>)
        ensures
            buffer@ == self@,
    {
        self.buffer
    }

    /// Forgets what was sent.
    pub fn clear(&mut self)
        ensures
            final(self)@ == Seq::<u8>::empty(),
    {
        self.buffer.clear();
    }

    fn push_bytes(&mut self, data: &[u8])
        ensures
            final(self)@ == old(self)@ + data@,
    {
        self.buffer.extend_from_slice(data);
        assert(self@ =~= old(self)@ + data@);
    }

    fn push_line(&mut self, mark: u8, body: &[u8])
        ensures
            final(self)@ == old(self)@ + line(mark, body@),
    {
        self.buffer.push(mark);
        self.push_bytes(body);
        self.push_line_end();
        assert(self@ =~= old(self)@ + line(mark, body@));
    }

    fn push_line_end(&mut self)
        ensures
            final(self)@ == old(self)@ + line_end(),
    {
        self.buffer.push(CR);
        self.buffer.push(LF);
        assert(self@ =~= old(self)@ + line_end());
    }

    pub fn write_simple_string(&mut self, text: &str)
        ensures
            final(self)@ == old(self)@ + encoded(Reply::Status(text@)),
    {
        self.push_line(STATUS_MARK, text.as_bytes());
    }

    pub fn write_error(&mut self, text: &str)
        ensures
            final(self)@ == old(self)@ + encoded(Reply::Error(text@)),
    {
        self.push_line(ERROR_MARK, text.as_bytes());
    }

    pub fn write_integer(&mut self, n: usize)
        ensures
            final(self)@ == old(self)@ + encoded(Reply::Integer(n as int)),
    {
        let digits = format_u64(n as u64);
        self.push_line(INTEGER_MARK, digits.as_slice());
    }

    pub fn write_signed_integer(&mut self, n: i64)
        ensures
            final(self)@ == old(self)@ + encoded(Reply::Integer(n as int)),
    {
        let digits = format_i64(n);
        self.push_line(INTEGER_MARK, digits.as_slice());
    }

    pub fn write_bulk_string(&mut self, data: &[u8])
        ensures
            final(self)@ == old(self)@ + encoded(Reply::Bulk(data@)),
    {
        let digits = format_u64(data.len() as u64);
        self.push_line(BULK_MARK, digits.as_slice());
        self.push_bytes(data);
        self.push_line_end();
        assert(self@ =~= old(self)@ + bulk(data@));
    }

    pub fn write_null(&mut self)
        ensures
            final(self)@ == old(self)@ + encoded(Reply::Null),
    {
        let digits = format_i64(-1);
        self.push_line(BULK_MARK, digits.as_slice());
    }

    /// Writes a byte string, or nothing.
    pub fn write_optional(&mut self, data: &Option<Bytes>)
        ensures
            final(self)@ == old(self)@ + encoded(bulk_or_null(octets_opt(*data))),
    {
        match data {
            Some(data) => self.write_bulk_string(slice_of(data)),
            None => self.write_null(),
        }
    }

    /// Announces a list of `len` replies, which are to follow.
    pub fn write_array_header(&mut self, len: usize)
        ensures
            final(self)@ == old(self)@ + list_header(len as nat),
    {
        let digits = format_u64(len as u64);
        self.push_line(LIST_MARK, digits.as_slice());
    }

    /// Writes a list of byte strings.
    pub fn write_array(&mut self, items: &[Bytes])
        ensures
            final(self)@ == old(self)@ + encoded(bulk_list(octets_all(items@))),
    {
        let ghost all = octets_all(items@).map_values(|item: Seq<u8>| Reply::Bulk(item));
        let ghost start = self@;
        self.write_array_header(items.len());
        let mut i: usize = 0;
        proof {
            assert(all.take(0) =~= Seq::empty());
            assert(self@ =~= start + (list_header(all.len()) + encoded_all(all.take(0))));
        }
        while i < items.len()
            invariant
                i <= items@.len(),
                all == octets_all(items@).map_values(|item: Seq<u8>| Reply::Bulk(item)),
                self@ == start + (list_header(all.len()) + encoded_all(all.take(i as int))),
            decreases items@.len() - i,
        {
            self.write_bulk_string(slice_of(&items[i]));
            proof {
                let item = Reply::Bulk(octets(items@[i as int]));
                assert(all.take(i + 1) =~= all.take(i as int).push(item));
                lemma_encoded_push(all.take(i as int), item);
                assert(self@ =~= start + (list_header(all.len()) + encoded_all(all.take(i + 1))));
            }
            i += 1;
        }
        proof {
            assert(all.take(items@.len() as int) =~= all);
        }
    }
}

} // verus!
