//! What a key holds.
use bytes::Bytes;
use dashmap::DashMap;
use std::sync::Arc;
use vstd::prelude::*;

use crate::fields::fields_of;
use crate::octets::octets;

verus! {

/// A stored value: a byte string, or a hash of fields. A hash is never changed once it is
/// stored; a new one takes its place.
pub enum EntryValue {
    String(Bytes),
    Hash(Arc<DashMap<Bytes, Bytes>>),
}

/// A stored value with the time from which it counts as expired and the time of its last
/// recorded access.
pub struct Entry {
    pub value: EntryValue,
    pub expiry: Option<u64>,
    pub last_accessed: u32,
}

/// A stored value, by its bytes.
pub ghost enum ValueView {
    Text(Seq<u8>),
    Hash(Map<Seq<u8>, Seq<u8>>),
}

/// What a key holds, as far as a client can tell.
pub ghost struct Record {
    pub value: ValueView,
    pub expiry: Option<u64>,
}

/// A record with the time of its last recorded access.
pub ghost struct EntryView {
    pub record: Record,
    pub last_accessed: u32,
}

impl View for EntryValue {
    type V = ValueView;

    open spec fn view(&self) -> ValueView {
        match self {
            EntryValue::String(text) => ValueView::Text(octets(*text)),
            EntryValue::Hash(hash) => ValueView::Hash(fields_of(**hash)),
        }
    }
}

impl View for Entry {
    type V = EntryView;

    open spec fn view(&self) -> EntryView {
        EntryView {
            record: Record { value: self.value@, expiry: self.expiry },
            last_accessed: self.last_accessed,
        }
    }
}

impl Record {
    /// Whether the record counts as expired at the time `now`.
    pub open spec fn expired(self, now: u64) -> bool {
        match self.expiry {
            Some(expiry) => now >= expiry,
            None => false,
        }
    }
}

impl Clone for EntryValue {
    fn clone(&self) -> (copy: Self)
        ensures
            copy@ == self@,
    {
        match self {
            EntryValue::String(text) => EntryValue::String(text.clone()),
            EntryValue::Hash(hash) => EntryValue::Hash(hash.clone()),
        }
    }
}

impl Clone for Entry {
    fn clone(&self) -> (copy: Self)
        ensures
            copy@ == self@,
    {
        Entry {
            value: self.value.clone(),
            expiry: self.expiry,
            last_accessed: self.last_accessed,
        }
    }
}

impl Entry {
    /// Whether the entry counts as expired at the time `now`.
    pub fn is_expired(&self, now: u64) -> (expired: bool)
        ensures
            expired == self@.record.expired(now),
    {
        match self.expiry {
            Some(expiry) => now >= expiry,
            None => false,
        }
    }
}

} // verus!
