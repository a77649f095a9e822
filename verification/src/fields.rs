//! The fields of a hash: what the library relies on of `dashmap::DashMap` from byte strings to
//! byte strings.
//!
//! A map is changed through an exclusive reference only, so no other thread can be inside it
//! while one of these functions runs.
use bytes::Bytes;
use dashmap::DashMap;
use vstd::prelude::*;

use crate::octets::{octets, octets_all, octets_opt};
use crate::sums::lists;

verus! {

/// The sharded hash map of the `dashmap` crate.
#[verifier::external_type_specification]
#[verifier::external_body]
#[verifier::reject_recursive_types(K)]
#[verifier::reject_recursive_types(V)]
#[verifier::reject_recursive_types(S)]
pub struct ExDashMap<K, V, S>(DashMap<K, V, S>);

/// The fields that a map holds, each with its value.
pub uninterp spec fn fields_of(m: DashMap<Bytes, Bytes>) -> Map<Seq<u8>, Seq<u8>>;

/// The bytes of a list of fields with their values.
pub open spec fn pairs_of(list: Seq<(Bytes, Bytes)>) -> Seq<(Seq<u8>, Seq<u8>)> {
    Seq::new(list.len(), |i: int| (octets(list[i].0), octets(list[i].1)))
}

/// `base` with the fields of a list set one after the other.
pub open spec fn merged(base: Map<Seq<u8>, Seq<u8>>, fields: Seq<(Seq<u8>, Seq<u8>)>) -> Map<
    Seq<u8>,
    Seq<u8>,
>
    decreases fields.len(),
{
    if fields.len() == 0 {
        base
    } else {
        merged(base, fields.drop_last()).insert(fields.last().0, fields.last().1)
    }
}

/// `flat` holds the pairs of `m` one after the other, each once, in some order.
pub open spec fn lists_flat(flat: Seq<Seq<u8>>, m: Map<Seq<u8>, Seq<u8>>) -> bool {
    &&& flat.len() % 2 == 0
    &&& lists(Seq::new((flat.len() / 2) as nat, |i: int| (flat[2 * i], flat[2 * i + 1])), m)
}

/// Trusted: `DashMap::new` makes a map without fields.
#[verifier::external_body]
pub(crate) fn no_fields() -> (m: DashMap<Bytes, Bytes>)
    ensures
        (fields_of(m) == Map::<Seq<u8>, Seq<u8>>::empty()),
{
    DashMap::new()
}

/// Trusted: `DashMap::insert` sets a field and returns the value that it had before, if any.
#[verifier::external_body]
pub(crate) fn set_field(m: &mut DashMap<Bytes, Bytes>, field: Bytes, value: Bytes) -> (before:
    Option<Bytes>)
    ensures
        fields_of(*final(m)) == fields_of(*old(m)).insert(octets(field), octets(value)),
        octets_opt(before) == fields_of(*old(m)).get(octets(field)),
{
    m.insert(field, value)
}

/// Trusted: `DashMap::get` finds the value of a field, if the map holds the field.
#[verifier::external_body]
pub(crate) fn get_field(m: &DashMap<Bytes, Bytes>, field: &[u8]) -> (value: Option<Bytes>)
    ensures
        octets_opt(value) == fields_of(*m).get(field@),
{
    m.get(field).map(|entry| entry.value().clone())
}

/// Trusted: `DashMap::iter` yields each field with its value once, in an order of which nothing
/// is said.
#[verifier::external_body]
pub(crate) fn list_fields(m: &DashMap<Bytes, Bytes>) -> (list: Vec<(Bytes, Bytes)>)
    ensures
        lists(pairs_of(list@), fields_of(*m)),
{
    m.iter().map(|entry| (entry.key().clone(), entry.value().clone())).collect()
}

/// Setting the fields of a listing on an empty map makes the map that it lists.
pub(crate) proof fn lemma_merged_listing(pairs: Seq<(Seq<u8>, Seq<u8>)>, m: Map<Seq<u8>, Seq<u8>>)
    requires
        lists(pairs, m),
    ensures
        merged(Map::empty(), pairs) == m,
    decreases pairs.len(),
{
    if pairs.len() == 0 {
        assert forall|k: Seq<u8>| !m.contains_key(k) by {
            if m.contains_key(k) {
                let i = choose|i: int| 0 <= i < pairs.len() && (#[trigger] pairs[i]).0 == k;
            }
        }
        assert(m =~= Map::<Seq<u8>, Seq<u8>>::empty());
    } else {
        let (k, rest) = (pairs.last().0, pairs.drop_last());
        let less = m.remove(k);
        assert(pairs[pairs.len() - 1].0 == k);
        assert(lists(rest, less)) by {
            assert forall|x: Seq<u8>| #[trigger] less.contains_key(x) implies exists|i: int|
                0 <= i < rest.len() && (#[trigger] rest[i]).0 == x by {
                assert(m.contains_key(x));
                let i = choose|i: int| 0 <= i < pairs.len() && (#[trigger] pairs[i]).0 == x;
                assert(rest[i].0 == x);
            }
            assert forall|i: int| 0 <= i < rest.len() implies less.contains_key(#[trigger] rest[i].0)
                && less[rest[i].0] == rest[i].1 by {
                assert(rest[i] == pairs[i]);
                assert(m.contains_key(pairs[i].0));
            }
        }
        lemma_merged_listing(rest, less);
        assert(m =~= less.insert(k, pairs.last().1));
    }
}

/// A map is set only at the fields of the list.
proof fn lemma_merged_dom(base: Map<Seq<u8>, Seq<u8>>, fields: Seq<(Seq<u8>, Seq<u8>)>)
    ensures
        merged(base, fields).dom().difference(base.dom()).finite(),
        merged(base, fields).dom().difference(base.dom()).len() <= fields.len(),
    decreases fields.len(),
{
    if fields.len() == 0 {
        assert(base.dom().difference(base.dom()) =~= Set::empty());
    } else {
        let before = merged(base, fields.drop_last());
        let key = fields.last().0;
        lemma_merged_dom(base, fields.drop_last());
        let fresh = before.dom().difference(base.dom());
        if base.contains_key(key) {
            assert(merged(base, fields).dom().difference(base.dom()) =~= fresh);
        } else {
            assert(merged(base, fields).dom().difference(base.dom()) =~= fresh.insert(key));
        }
    }
}

/// A map with the same fields.
pub(crate) fn copy_fields(m: &DashMap<Bytes, Bytes>) -> (copy: DashMap<Bytes, Bytes>)
    ensures
        fields_of(copy) == fields_of(*m),
{
    let list = list_fields(m);
    let mut copy = no_fields();
    let ghost pairs = pairs_of(list@);
    let mut i: usize = 0;
    proof {
        assert(pairs.take(0) =~= Seq::empty());
    }
    while i < list.len()
        invariant
            i <= list.len(),
            pairs == pairs_of(list@),
            fields_of(copy) == merged(Map::empty(), pairs.take(i as int)),
        decreases list.len() - i,
    {
        proof {
            assert(pairs.take(i + 1).drop_last() =~= pairs.take(i as int));
        }
        let (field, value) = &list[i];
        let _before = set_field(&mut copy, field.clone(), value.clone());
        i += 1;
    }
    proof {
        assert(pairs.take(list.len() as int) =~= pairs);
        lemma_merged_listing(pairs, fields_of(*m));
    }
    copy
}

/// Sets fields one after the other. Returns how many of them the map did not have before.
pub(crate) fn set_fields(m: &mut DashMap<Bytes, Bytes>, fields: &[(Bytes, Bytes)]) -> (added: usize)
    ensures
        fields_of(*final(m)) == merged(fields_of(*old(m)), pairs_of(fields@)),
        added == fields_of(*final(m)).dom().difference(fields_of(*old(m)).dom()).len(),
{
    let ghost base = fields_of(*m);
    let ghost pairs = pairs_of(fields@);
    let mut added: usize = 0;
    let mut i: usize = 0;
    proof {
        assert(pairs.take(0) =~= Seq::empty());
        assert(base.dom().difference(base.dom()) =~= Set::empty());
    }
    while i < fields.len()
        invariant
            i <= fields@.len(),
            pairs == pairs_of(fields@),
            fields_of(*m) == merged(base, pairs.take(i as int)),
            added == fields_of(*m).dom().difference(base.dom()).len(),
            forall|k: Seq<u8>| base.contains_key(k) ==> #[trigger] fields_of(*m).contains_key(k),
            added <= i,
        decreases fields@.len() - i,
    {
        let (field, value) = &fields[i];
        let ghost k = octets(*field);
        let ghost before = fields_of(*m);
        proof {
            assert(pairs.take(i + 1).drop_last() =~= pairs.take(i as int));
            lemma_merged_dom(base, pairs.take(i as int));
        }
        if set_field(m, field.clone(), value.clone()).is_none() {
            added += 1;
            assert(fields_of(*m).dom().difference(base.dom()) =~= before.dom().difference(
                base.dom(),
            ).insert(k));
        } else {
            assert(fields_of(*m).dom() =~= before.dom());
        }
        i += 1;
    }
    proof {
        assert(pairs.take(fields@.len() as int) =~= pairs);
    }
    added
}

/// The fields with their values, one after the other, in some order.
pub(crate) fn flatten(m: &DashMap<Bytes, Bytes>) -> (flat: Vec<Bytes>)
    ensures
        lists_flat(octets_all(flat@), fields_of(*m)),
{
    let list = list_fields(m);
    let mut flat: Vec<Bytes> = Vec::new();
    let mut i: usize = 0;
    while i < list.len()
        invariant
            i <= list.len(),
            flat@.len() == 2 * i,
            forall|j: int|
                0 <= j < i ==> octets(#[trigger] flat@[2 * j]) == octets(list@[j].0) && octets(
                    flat@[2 * j + 1],
                ) == octets(list@[j].1),
        decreases list.len() - i,
    {
        let (field, value) = &list[i];
        flat.push(field.clone());
        flat.push(value.clone());
        i += 1;
    }
    proof {
        let all = octets_all(flat@);
        assert(Seq::new((all.len() / 2) as nat, |j: int| (all[2 * j], all[2 * j + 1]))
            =~= pairs_of(list@));
    }
    flat
}

} // verus!
