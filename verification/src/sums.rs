//! Sums over finite maps, and the listings by which a map is walked.
use vstd::prelude::*;

verus! {

/// The sum of `weight` over all pairs of a finite map.
pub open spec fn map_sum<K, V>(m: Map<K, V>, weight: spec_fn(K, V) -> nat) -> nat
    decreases m.dom().len(),
{
    if m.dom().finite() && m.dom().len() > 0 {
        let k = m.dom().choose();
        weight(k, m[k]) + map_sum(m.remove(k), weight)
    } else {
        0
    }
}

/// The sum of `weight` over the pairs of a sequence.
pub open spec fn seq_sum<K, V>(s: Seq<(K, V)>, weight: spec_fn(K, V) -> nat) -> nat
    decreases s.len(),
{
    if s.len() == 0 {
        0
    } else {
        seq_sum(s.drop_last(), weight) + weight(s.last().0, s.last().1)
    }
}

/// `s` lists the pairs of `m`, each once, in some order.
pub open spec fn lists<K, V>(s: Seq<(K, V)>, m: Map<K, V>) -> bool {
    &&& forall|i: int|
        0 <= i < s.len() ==> m.contains_key(#[trigger] s[i].0) && m[s[i].0] == s[i].1
    &&& forall|i: int, j: int| 0 <= i < j < s.len() ==> (#[trigger] s[i]).0 != (#[trigger] s[j]).0
    &&& forall|k: K| #[trigger] m.contains_key(k) ==> exists|i: int| 0 <= i < s.len() && (#[trigger] s[i]).0 == k
}

/// What can be listed is finite.
pub proof fn lemma_listing_finite<K, V>(s: Seq<(K, V)>, m: Map<K, V>)
    requires
        lists(s, m),
    ensures
        m.dom().finite(),
        m.dom() =~= s.map_values(|p: (K, V)| p.0).to_set(),
{
    let keys = s.map_values(|p: (K, V)| p.0);
    assert forall|k: K| m.dom().contains(k) == keys.to_set().contains(k) by {
        if m.contains_key(k) {
            let i = choose|i: int| 0 <= i < s.len() && (#[trigger] s[i]).0 == k;
            assert(keys[i] == k);
        }
        if keys.contains(k) {
            let i = choose|i: int| 0 <= i < keys.len() && keys[i] == k;
            assert(s[i].0 == k);
        }
    }
    assert(m.dom() =~= keys.to_set());
}

/// Any one pair can be split off a sum.
pub proof fn lemma_map_sum_remove<K, V>(m: Map<K, V>, weight: spec_fn(K, V) -> nat, k: K)
    requires
        m.dom().finite(),
        m.contains_key(k),
    ensures
        map_sum(m, weight) == weight(k, m[k]) + map_sum(m.remove(k), weight),
    decreases m.dom().len(),
{
    let c = m.dom().choose();
    assert(m.dom().contains(c));
    if c != k {
        lemma_map_sum_remove(m.remove(c), weight, k);
        lemma_map_sum_remove(m.remove(k), weight, c);
        assert(m.remove(c).remove(k) =~= m.remove(k).remove(c));
    }
}

/// Inserting a new key adds its weight.
pub proof fn lemma_map_sum_insert<K, V>(m: Map<K, V>, weight: spec_fn(K, V) -> nat, k: K, v: V)
    requires
        m.dom().finite(),
        !m.contains_key(k),
    ensures
        map_sum(m.insert(k, v), weight) == map_sum(m, weight) + weight(k, v),
{
    lemma_map_sum_remove(m.insert(k, v), weight, k);
    assert(m.insert(k, v).remove(k) =~= m);
}

/// The sum over the empty map is zero.
pub proof fn lemma_map_sum_empty<K, V>(m: Map<K, V>, weight: spec_fn(K, V) -> nat)
    requires
        m.dom() =~= Set::<K>::empty(),
    ensures
        map_sum(m, weight) == 0,
{
}

/// The sum over two maps without a common key is the sum of their sums.
pub proof fn lemma_map_sum_union<K, V>(a: Map<K, V>, b: Map<K, V>, weight: spec_fn(K, V) -> nat)
    requires
        a.dom().finite(),
        b.dom().finite(),
        a.dom().disjoint(b.dom()),
    ensures
        map_sum(a.union_prefer_right(b), weight) == map_sum(a, weight) + map_sum(b, weight),
    decreases b.dom().len(),
{
    if b.dom().len() == 0 {
        assert(b.dom() =~= Set::<K>::empty());
        assert(a.union_prefer_right(b) =~= a);
    } else {
        let k = b.dom().choose();
        assert(b.dom().contains(k));
        let u = a.union_prefer_right(b);
        lemma_map_sum_union(a, b.remove(k), weight);
        assert(u.remove(k) =~= a.union_prefer_right(b.remove(k)));
        assert(u.dom() =~= a.dom().union(b.dom()));
        lemma_map_sum_remove(u, weight, k);
        lemma_map_sum_remove(b, weight, k);
    }
}

/// Walking a listing sums up the map that it lists.
pub proof fn lemma_listing_sum<K, V>(s: Seq<(K, V)>, m: Map<K, V>, weight: spec_fn(K, V) -> nat)
    requires
        lists(s, m),
    ensures
        m.dom().finite(),
        seq_sum(s, weight) == map_sum(m, weight),
        s.len() == m.dom().len(),
    decreases s.len(),
{
    lemma_listing_finite(s, m);
    if s.len() == 0 {
        assert forall|k: K| !m.dom().contains(k) by {
            if m.contains_key(k) {
                let i = choose|i: int| 0 <= i < s.len() && (#[trigger] s[i]).0 == k;
            }
        }
        assert(m.dom() =~= Set::<K>::empty());
    } else {
        let k = s.last().0;
        let rest = s.drop_last();
        let less = m.remove(k);
        assert(s[s.len() - 1].0 == k);
        assert(lists(rest, less)) by {
            assert forall|x: K| #[trigger] less.contains_key(x) implies exists|i: int|
                0 <= i < rest.len() && (#[trigger] rest[i]).0 == x by {
                assert(m.contains_key(x));
                let i = choose|i: int| 0 <= i < s.len() && (#[trigger] s[i]).0 == x;
                assert(rest[i].0 == x);
            }
            assert forall|i: int| 0 <= i < rest.len() implies less.contains_key(#[trigger] rest[i].0)
                && less[rest[i].0] == rest[i].1 by {
                assert(rest[i] == s[i]);
                assert(m.contains_key(s[i].0));
            }
        }
        lemma_listing_sum(rest, less, weight);
        lemma_map_sum_remove(m, weight, k);
    }
}

/// One more pair adds its weight to the sum of a sequence.
pub proof fn lemma_seq_sum_take<K, V>(s: Seq<(K, V)>, i: int, weight: spec_fn(K, V) -> nat)
    requires
        0 <= i < s.len(),
    ensures
        seq_sum(s.take(i + 1), weight) == seq_sum(s.take(i), weight) + weight(s[i].0, s[i].1),
{
    assert(s.take(i + 1).drop_last() =~= s.take(i));
}

} // verus!
