//! One shard of a store: what the library relies on of `dashmap::DashMap` from keys to entries.
//!
//! A shard is changed through an exclusive reference only, so no other thread can be inside it
//! while one of these functions runs.
use bytes::Bytes;
use dashmap::DashMap;
use vstd::prelude::*;

use crate::entry::{Entry, EntryView};
use crate::octets::octets;
use crate::sums::lists;

verus! {

/// The entries that a shard holds, by key.
pub uninterp spec fn entries_of(m: DashMap<Bytes, Entry>) -> Map<Seq<u8>, EntryView>;

/// The view of an optional entry.
pub open spec fn entry_opt(entry: Option<Entry>) -> Option<EntryView> {
    match entry {
        Some(entry) => Some(entry@),
        None => None,
    }
}

/// The keys and views of a list of entries.
pub open spec fn listing_of(list: Seq<(Bytes, Entry)>) -> Seq<(Seq<u8>, EntryView)> {
    Seq::new(list.len(), |i: int| (octets(list[i].0), list[i].1@))
}

/// Trusted: `DashMap::with_capacity` makes an empty map. A capacity near the machine's limit
/// would overflow or exhaust the memory.
#[verifier::external_body]
pub(crate) fn new_shard(capacity: usize) -> (m: DashMap<Bytes, Entry>)
    requires
        capacity <= 0x1_0000,
    ensures
        (entries_of(m) == Map::<Seq<u8>, EntryView>::empty()),
{
    DashMap::with_capacity(capacity)
}

/// Trusted: `DashMap::insert` puts an entry under a key and returns the one it replaces, if any.
#[verifier::external_body]
pub(crate) fn put_entry(m: &mut DashMap<Bytes, Entry>, key: Bytes, entry: Entry) -> (before: Option<
    Entry,
>)
    ensures
        entries_of(*final(m)) == entries_of(*old(m)).insert(octets(key), entry@),
        entry_opt(before) == entries_of(*old(m)).get(octets(key)),
{
    m.insert(key, entry)
}

/// Trusted: `DashMap::get` finds the entry under a key, if there is one.
#[verifier::external_body]
pub(crate) fn get_entry(m: &DashMap<Bytes, Entry>, key: &[u8]) -> (found: Option<Entry>)
    ensures
        entry_opt(found) == entries_of(*m).get(key@),
{
    m.get(key).map(|entry| entry.value().clone())
}

/// Trusted: `DashMap::get_mut` gives access to the entry under a key, if there is one; here the
/// entry is overwritten.
#[verifier::external_body]
pub(crate) fn overwrite_entry(m: &mut DashMap<Bytes, Entry>, key: &[u8], entry: Entry) -> (found:
    bool)
    ensures
        found == entries_of(*old(m)).contains_key(key@),
        found ==> entries_of(*final(m)) == entries_of(*old(m)).insert(key@, entry@),
        !found ==> entries_of(*final(m)) == entries_of(*old(m)),
{
    match m.get_mut(key) {
        Some(mut slot) => {
            *slot = entry;
            true
        },
        None => false,
    }
}

/// Trusted: `DashMap::remove` takes out the entry under a key and returns it, if there was one.
#[verifier::external_body]
pub(crate) fn take_entry(m: &mut DashMap<Bytes, Entry>, key: &[u8]) -> (taken: Option<Entry>)
    ensures
        entries_of(*final(m)) == entries_of(*old(m)).remove(key@),
        entry_opt(taken) == entries_of(*old(m)).get(key@),
{
    m.remove(key).map(|pair| pair.1)
}

/// Trusted: `DashMap::iter` yields each key with its entry once, in an order of which nothing is
/// said.
#[verifier::external_body]
pub(crate) fn list_entries(m: &DashMap<Bytes, Entry>) -> (list: Vec<(Bytes, Entry)>)
    ensures
        lists(listing_of(list@), entries_of(*m)),
{
    m.iter().map(|entry| (entry.key().clone(), entry.value().clone())).collect()
}

/// Trusted: `nth` on what `DashMap::iter` yields is one of the entries with its key, as long as
/// there are more than `n`. Nothing is said of which.
#[verifier::external_body]
pub(crate) fn nth_entry(m: &DashMap<Bytes, Entry>, n: usize) -> (picked: Option<(Bytes, Entry)>)
    ensures
        picked is Some <==> n < entries_of(*m).dom().len(),
        picked is Some ==> entries_of(*m).contains_pair(
            octets(picked.unwrap().0),
            picked.unwrap().1@,
        ),
{
    m.iter().nth(n).map(|entry| (entry.key().clone(), entry.value().clone()))
}

/// Trusted: `DashMap::len` is the number of entries.
#[verifier::external_body]
pub(crate) fn count_entries(m: &DashMap<Bytes, Entry>) -> (n: usize)
    ensures
        n == entries_of(*m).dom().len(),
{
    m.len()
}

/// Trusted: `DashMap::is_empty` tells whether there is no entry.
#[verifier::external_body]
pub(crate) fn has_no_entries(m: &DashMap<Bytes, Entry>) -> (empty: bool)
    ensures
        empty == (entries_of(*m).dom() =~= Set::<Seq<u8>>::empty()),
{
    m.is_empty()
}

/// Trusted: `DashMap::clear` removes all entries.
#[verifier::external_body]
pub(crate) fn clear_entries(m: &mut DashMap<Bytes, Entry>)
    ensures
        (entries_of(*final(m)) == Map::<Seq<u8>, EntryView>::empty()),
{
    m.clear()
}

} // verus!
