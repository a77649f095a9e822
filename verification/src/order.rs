//! The order of keys, byte by byte, and listings in that order. A hash map may be walked in another
//! order each time; sorted, its keys have their places.
use bytes::Bytes;
use vstd::multiset::Multiset;
use vstd::prelude::*;

use crate::entry::{Entry, Record};
use crate::octets::slice_of;
use crate::store::record_listing;
use crate::sums::lists;

verus! {

/// The keys of a shard with their records, in the order in which they are walked.
pub type Listing = Seq<(Seq<u8>, Record)>;

/// One key comes before another: at the first byte in which they differ it has the smaller one, or
/// the other key goes on where it ends.
pub open spec fn precedes(a: Seq<u8>, b: Seq<u8>) -> bool
    decreases a.len(),
{
    if b.len() == 0 {
        false
    } else if a.len() == 0 {
        true
    } else if a[0] != b[0] {
        a[0] < b[0]
    } else {
        precedes(a.skip(1), b.skip(1))
    }
}

/// Every key of the listing comes before those behind it.
pub open spec fn ascending(s: Listing) -> bool {
    forall|i: int, j: int|
        0 <= i < j < s.len() ==> precedes((#[trigger] s[i]).0, (#[trigger] s[j]).0)
}

/// No key of the listing comes before one that is ahead of it.
pub open spec fn in_order(s: Listing) -> bool {
    forall|i: int, j: int|
        0 <= i < j < s.len() ==> !precedes((#[trigger] s[j]).0, (#[trigger] s[i]).0)
}

/// The one listing of some records that is ascending.
pub open spec fn sorted_listing(m: Map<Seq<u8>, Record>) -> Listing {
    choose|s: Listing| lists(s, m) && ascending(s)
}

/// The keys have their first `n` bytes in common, and it is there that the one is smaller: it ends,
/// or has the smaller byte.
pub open spec fn smaller_from(a: Seq<u8>, b: Seq<u8>, n: int) -> bool {
    &&& 0 <= n <= a.len()
    &&& n < b.len()
    &&& forall|i: int| 0 <= i < n ==> #[trigger] a[i] == b[i]
    &&& n == a.len() || a[n] < b[n]
}

/// A key comes before another just where it is the smaller one at the first byte that tells them
/// apart.
pub proof fn law_first_difference_decides(a: Seq<u8>, b: Seq<u8>)
    ensures
        precedes(a, b) <==> exists|n: int| smaller_from(a, b, n),
    decreases a.len(),
{
    if b.len() > 0 && a.len() == 0 {
        assert(smaller_from(a, b, 0));
    } else if a.len() > 0 && b.len() > 0 {
        let (x, y) = (a.skip(1), b.skip(1));
        law_first_difference_decides(x, y);
        if a[0] < b[0] {
            assert(smaller_from(a, b, 0));
        } else if a[0] == b[0] {
            if precedes(x, y) {
                let n = choose|n: int| smaller_from(x, y, n);
                assert forall|i: int| 0 <= i < n + 1 implies #[trigger] a[i] == b[i] by {
                    if i > 0 {
                        assert(x[i - 1] == y[i - 1]);
                    }
                }
                assert(smaller_from(a, b, n + 1));
            }
            if exists|n: int| smaller_from(a, b, n) {
                let n = choose|n: int| smaller_from(a, b, n);
                assert forall|i: int| 0 <= i < n - 1 implies #[trigger] x[i] == y[i] by {
                    assert(a[i + 1] == b[i + 1]);
                }
                assert(smaller_from(x, y, n - 1));
            }
        } else if exists|n: int| smaller_from(a, b, n) {
            let n = choose|n: int| smaller_from(a, b, n);
            assert(n > 0 ==> a[0] == b[0]);
        }
    }
}

/// Of two keys one comes before the other, unless they are the same, and then neither does.
pub proof fn law_order_is_total(a: Seq<u8>, b: Seq<u8>)
    ensures
        a == b ==> !precedes(a, b),
        a != b ==> precedes(a, b) != precedes(b, a),
    decreases a.len(),
{
    if a.len() > 0 && b.len() > 0 {
        law_order_is_total(a.skip(1), b.skip(1));
        if a[0] == b[0] && a.skip(1) == b.skip(1) {
            assert forall|i: int| 0 <= i < a.len() implies a[i] == b[i] by {
                if i > 0 {
                    assert(a.skip(1)[i - 1] == b.skip(1)[i - 1]);
                }
            }
            assert(a.len() == a.skip(1).len() + 1 && b.len() == b.skip(1).len() + 1);
            assert(a =~= b);
        }
    } else if a.len() == 0 && b.len() == 0 {
        assert(a =~= b);
    }
}

/// What comes before a key comes before all that the key comes before.
pub proof fn law_order_is_transitive(a: Seq<u8>, b: Seq<u8>, c: Seq<u8>)
    requires
        precedes(a, b),
        precedes(b, c),
    ensures
        precedes(a, c),
    decreases a.len(),
{
    if a.len() > 0 && a[0] == b[0] && b[0] == c[0] {
        law_order_is_transitive(a.skip(1), b.skip(1), c.skip(1));
    }
}

/// What does not come after a key does not come after what the key does not come after.
proof fn lemma_not_after(a: Seq<u8>, b: Seq<u8>, c: Seq<u8>)
    requires
        !precedes(b, a),
        !precedes(c, b),
    ensures
        !precedes(c, a),
{
    law_order_is_total(a, b);
    law_order_is_total(b, c);
    law_order_is_total(a, c);
    if a != b && b != c {
        law_order_is_transitive(a, b, c);
    }
}

/// A listing without its last pair lists the other records.
proof fn lemma_drop_last_lists(s: Listing, m: Map<Seq<u8>, Record>)
    requires
        s.len() > 0,
        lists(s, m),
    ensures
        lists(s.drop_last(), m.remove(s.last().0)),
{
    let (t, less) = (s.drop_last(), m.remove(s.last().0));
    let last = s.len() - 1;
    assert forall|i: int| 0 <= i < t.len() implies less.contains_key(#[trigger] t[i].0)
        && less[t[i].0] == t[i].1 by {
        assert(t[i] == s[i]);
        assert(s[i].0 != s[last].0);
    }
    assert forall|i: int, j: int| 0 <= i < j < t.len() implies (#[trigger] t[i]).0 != (
    #[trigger] t[j]).0 by {
        assert(s[i].0 != s[j].0);
    }
    assert forall|k: Seq<u8>| #[trigger] less.contains_key(k) implies exists|i: int|
        0 <= i < t.len() && (#[trigger] t[i]).0 == k by {
        assert(m.contains_key(k));
        let i = choose|i: int| 0 <= i < s.len() && (#[trigger] s[i]).0 == k;
        assert(t[i].0 == k);
    }
}

/// Records have one ascending listing.
pub proof fn law_sorted_listing_is_unique(s: Listing, t: Listing, m: Map<Seq<u8>, Record>)
    requires
        lists(s, m),
        ascending(s),
        lists(t, m),
        ascending(t),
    ensures
        s == t,
    decreases s.len(),
{
    if s.len() == 0 {
        if t.len() > 0 {
            assert(m.contains_key(t[0].0));
        }
        assert(s =~= t);
    } else {
        let k = s.last().0;
        assert(m.contains_key(s[s.len() - 1].0));
        let j = choose|j: int| 0 <= j < t.len() && (#[trigger] t[j]).0 == k;
        let last = t.len() - 1;
        if j < last {
            let other = t[last].0;
            assert(precedes(t[j].0, t[last].0));
            assert(m.contains_key(t[last].0));
            let i = choose|i: int| 0 <= i < s.len() && (#[trigger] s[i]).0 == other;
            law_order_is_total(k, other);
            if i < s.len() - 1 {
                assert(precedes(s[i].0, s[s.len() - 1].0));
            }
        }
        assert(t.last() == s.last());
        lemma_drop_last_lists(s, m);
        lemma_drop_last_lists(t, m);
        law_sorted_listing_is_unique(s.drop_last(), t.drop_last(), m.remove(k));
        assert(s =~= s.drop_last().push(s.last()));
        assert(t =~= t.drop_last().push(t.last()));
    }
}

/// Of finitely many keys one comes after all others.
proof fn lemma_last_key(m: Map<Seq<u8>, Record>) -> (last: Seq<u8>)
    requires
        m.dom().finite(),
        m.dom().len() > 0,
    ensures
        m.contains_key(last),
        forall|k: Seq<u8>| #[trigger] m.contains_key(k) && k != last ==> precedes(k, last),
    decreases m.dom().len(),
{
    let first = m.dom().choose();
    assert(m.contains_key(first));
    let less = m.remove(first);
    if less.dom().len() == 0 {
        assert(less.dom() =~= Set::<Seq<u8>>::empty());
        assert forall|k: Seq<u8>| #[trigger] m.contains_key(k) && k != first implies precedes(
            k,
            first,
        ) by {
            assert(less.dom().contains(k));
        }
        first
    } else {
        let second = lemma_last_key(less);
        law_order_is_total(first, second);
        let last = if precedes(first, second) {
            second
        } else {
            first
        };
        assert forall|k: Seq<u8>| #[trigger] m.contains_key(k) && k != last implies precedes(
            k,
            last,
        ) by {
            if k != first {
                assert(less.contains_key(k));
                if last == first && k != second {
                    law_order_is_transitive(k, second, first);
                }
            }
        }
        last
    }
}

/// Finitely many records have an ascending listing.
pub proof fn lemma_sorted_listing(m: Map<Seq<u8>, Record>)
    requires
        m.dom().finite(),
    ensures
        lists(sorted_listing(m), m),
        ascending(sorted_listing(m)),
    decreases m.dom().len(),
{
    if m.dom().len() == 0 {
        assert(m.dom() =~= Set::<Seq<u8>>::empty());
        let s: Listing = Seq::empty();
        assert(lists(s, m) && ascending(s));
    } else {
        let last = lemma_last_key(m);
        let less = m.remove(last);
        lemma_sorted_listing(less);
        let rest = sorted_listing(less);
        let s = rest.push((last, m[last]));
        assert forall|i: int| 0 <= i < s.len() implies m.contains_key(#[trigger] s[i].0)
            && m[s[i].0] == s[i].1 by {
            if i < rest.len() {
                assert(s[i] == rest[i]);
                assert(less.contains_key(rest[i].0));
            }
        }
        assert forall|i: int, j: int| 0 <= i < j < s.len() implies precedes(
            (#[trigger] s[i]).0,
            (#[trigger] s[j]).0,
        ) by {
            assert(s[i] == rest[i]);
            assert(less.contains_key(rest[i].0));
            assert(m.contains_key(rest[i].0));
            if j < rest.len() {
                assert(s[j] == rest[j]);
            }
        }
        assert forall|i: int, j: int| 0 <= i < j < s.len() implies (#[trigger] s[i]).0 != (
        #[trigger] s[j]).0 by {
            law_order_is_total(s[i].0, s[j].0);
        }
        assert forall|k: Seq<u8>| #[trigger] m.contains_key(k) implies exists|i: int|
            0 <= i < s.len() && (#[trigger] s[i]).0 == k by {
            if k == last {
                assert(s[rest.len() as int].0 == k);
            } else {
                assert(less.contains_key(k));
                let i = choose|i: int| 0 <= i < rest.len() && (#[trigger] rest[i]).0 == k;
                assert(s[i].0 == k);
            }
        }
        assert(lists(s, m) && ascending(s));
    }
}

/// The same entries in another order list the same records.
proof fn lemma_reordered_lists(
    s: Seq<(Bytes, Entry)>,
    t: Seq<(Bytes, Entry)>,
    m: Map<Seq<u8>, Record>,
)
    requires
        lists(record_listing(s), m),
        s.to_multiset() == t.to_multiset(),
    ensures
        lists(record_listing(t), m),
{
    let (from, to) = (record_listing(s), record_listing(t));
    s.to_multiset_ensures();
    t.to_multiset_ensures();
    assert forall|i: int, j: int| 0 <= i < s.len() && 0 <= j < s.len() && i != j implies s[i]
        != s[j] by {
        if i < j {
            assert(from[i].0 != from[j].0);
        } else {
            assert(from[j].0 != from[i].0);
        }
    }
    s.lemma_multiset_has_no_duplicates();
    t.lemma_multiset_has_no_duplicates_conv();
    assert forall|i: int| 0 <= i < t.len() implies s.contains(#[trigger] t[i]) by {
        assert(t.contains(t[i]) && t.to_multiset().count(t[i]) > 0);
        assert(s.to_multiset().count(t[i]) > 0);
    }
    assert forall|i: int| 0 <= i < to.len() implies m.contains_key(#[trigger] to[i].0)
        && m[to[i].0] == to[i].1 by {
        let j = choose|j: int| 0 <= j < s.len() && s[j] == t[i];
        assert(m.contains_key(from[j].0));
    }
    assert forall|i: int, j: int| 0 <= i < j < to.len() implies (#[trigger] to[i]).0 != (
    #[trigger] to[j]).0 by {
        let a = choose|a: int| 0 <= a < s.len() && s[a] == t[i];
        let b = choose|b: int| 0 <= b < s.len() && s[b] == t[j];
        assert(t[i] != t[j]);
        if a < b {
            assert(from[a].0 != from[b].0);
        } else {
            assert(from[b].0 != from[a].0);
        }
    }
    assert forall|k: Seq<u8>| #[trigger] m.contains_key(k) implies exists|i: int|
        0 <= i < to.len() && (#[trigger] to[i]).0 == k by {
        let j = choose|j: int| 0 <= j < from.len() && (#[trigger] from[j]).0 == k;
        assert(s.contains(s[j]) && s.to_multiset().count(s[j]) > 0);
        assert(t.to_multiset().count(s[j]) > 0 && t.contains(s[j]));
        let i = choose|i: int| 0 <= i < t.len() && t[i] == s[j];
        assert(to[i].0 == k);
    }
}

/// Entries that list some records and are in order are walked as the ascending listing has them.
pub proof fn lemma_sorting_lists(
    s: Seq<(Bytes, Entry)>,
    t: Seq<(Bytes, Entry)>,
    m: Map<Seq<u8>, Record>,
)
    requires
        lists(record_listing(s), m),
        s.to_multiset() == t.to_multiset(),
        in_order(record_listing(t)),
        m.dom().finite(),
    ensures
        record_listing(t) == sorted_listing(m),
{
    let to = record_listing(t);
    lemma_sorted_listing(m);
    lemma_reordered_lists(s, t, m);
    assert forall|i: int, j: int| 0 <= i < j < to.len() implies precedes(
        (#[trigger] to[i]).0,
        (#[trigger] to[j]).0,
    ) by {
        assert(to[i].0 != to[j].0);
        law_order_is_total(to[i].0, to[j].0);
    }
    law_sorted_listing_is_unique(to, sorted_listing(m), m);
}

/// Whether one key comes before another.
pub fn comes_before(a: &[u8], b: &[u8]) -> (before: bool)
    ensures
        before == precedes(a@, b@),
{
    let mut i: usize = 0;
    proof {
        assert(a@.skip(0) =~= a@);
        assert(b@.skip(0) =~= b@);
    }
    while i < a.len() && i < b.len()
        invariant
            i <= a@.len(),
            i <= b@.len(),
            precedes(a@, b@) == precedes(a@.skip(i as int), b@.skip(i as int)),
        decreases a@.len() - i,
    {
        if a[i] != b[i] {
            return a[i] < b[i];
        }
        proof {
            assert(a@.skip(i as int).skip(1) =~= a@.skip(i + 1));
            assert(b@.skip(i as int).skip(1) =~= b@.skip(i + 1));
        }
        i += 1;
    }
    i < b.len()
}

/// The last entry of a list is taken off its listing.
proof fn lemma_popped(list: Seq<(Bytes, Entry)>)
    requires
        list.len() > 0,
    ensures
        record_listing(list).drop_last() == record_listing(list.drop_last()),
        list.to_multiset() == list.drop_last().to_multiset().insert(list.last()),
{
    assert(record_listing(list).drop_last() =~= record_listing(list.drop_last()));
    assert(list =~= list.drop_last().push(list.last()));
    list.drop_last().to_multiset_ensures();
}

/// An entry is put behind the listing of a list.
proof fn lemma_pushed(list: Seq<(Bytes, Entry)>, last: (Bytes, Entry))
    ensures
        record_listing(list.push(last)) == record_listing(list).push(
            record_listing(list.push(last)).last(),
        ),
        list.push(last).to_multiset() == list.to_multiset().insert(last),
{
    assert(record_listing(list.push(last)) =~= record_listing(list).push(
        record_listing(list.push(last)).last(),
    ));
    list.to_multiset_ensures();
}

/// The entries of a list from the last to the first.
fn turn_round(list: Vec<(Bytes, Entry)>) -> (turned: Vec<(Bytes, Entry)>)
    ensures
        turned@ == list@.reverse(),
{
    let ghost all = list@;
    let mut list = list;
    let mut turned: Vec<(Bytes, Entry)> = Vec::new();
    proof {
        assert(all =~= all.take(list@.len() as int));
        assert(turned@ =~= all.skip(list@.len() as int).reverse());
    }
    while list.len() > 0
        invariant
            list@.len() <= all.len(),
            list@ == all.take(list@.len() as int),
            turned@ == all.skip(list@.len() as int).reverse(),
        decreases list@.len(),
    {
        let ghost n = list@.len();
        if let Some(last) = list.pop() {
            turned.push(last);
            proof {
                assert(list@ =~= all.take(n - 1));
                assert(turned@ =~= all.skip(n - 1).reverse());
            }
        }
    }
    proof {
        assert(all.skip(0) =~= all);
    }
    turned
}

/// Two lists in order make one.
fn merge(left: Vec<(Bytes, Entry)>, right: Vec<(Bytes, Entry)>) -> (merged: Vec<(Bytes, Entry)>)
    requires
        in_order(record_listing(left@)),
        in_order(record_listing(right@)),
    ensures
        in_order(record_listing(merged@)),
        merged@.to_multiset() == left@.to_multiset().add(right@.to_multiset()),
{
    let ghost total = left@.to_multiset().add(right@.to_multiset());
    let mut left = left;
    let mut right = right;
    let mut out: Vec<(Bytes, Entry)> = Vec::new();
    proof {
        out@.to_multiset_ensures();
        assert(out@.to_multiset() =~= Multiset::empty());
        assert(total =~= out@.to_multiset().add(left@.to_multiset()).add(right@.to_multiset()));
    }
    while left.len() > 0 || right.len() > 0
        invariant
            in_order(record_listing(left@)),
            in_order(record_listing(right@)),
            in_order(record_listing(out@).reverse()),
            all_at_most(record_listing(left@), record_listing(out@)),
            all_at_most(record_listing(right@), record_listing(out@)),
            total == out@.to_multiset().add(left@.to_multiset()).add(right@.to_multiset()),
        decreases left@.len() + right@.len(),
    {
        let take_left = if right.len() == 0 {
            true
        } else if left.len() == 0 {
            false
        } else {
            !comes_before(
                slice_of(&left[left.len() - 1].0),
                slice_of(&right[right.len() - 1].0),
            )
        };
        let ghost (l, r, o) = (left@, right@, out@);
        let next = if take_left {
            left.pop()
        } else {
            right.pop()
        };
        if let Some(last) = next {
            out.push(last);
            proof {
                lemma_pushed(o, last);
                if take_left {
                    lemma_popped(l);
                    lemma_moved(record_listing(l), record_listing(r), record_listing(o));
                } else {
                    lemma_popped(r);
                    if l.len() > 0 {
                        law_order_is_total(
                            record_listing(l).last().0,
                            record_listing(r).last().0,
                        );
                    }
                    lemma_moved(record_listing(r), record_listing(l), record_listing(o));
                }
                assert(total =~= out@.to_multiset().add(left@.to_multiset()).add(
                    right@.to_multiset(),
                ));
            }
        }
    }
    proof {
        left@.to_multiset_ensures();
        right@.to_multiset_ensures();
        assert(left@.to_multiset() =~= Multiset::empty());
        assert(right@.to_multiset() =~= Multiset::empty());
        assert(total =~= out@.to_multiset());
        out@.lemma_reverse_to_multiset();
        assert(record_listing(out@.reverse()) =~= record_listing(out@).reverse());
    }
    turn_round(out)
}

/// No key of one listing comes after a key of the other.
spec fn all_at_most(s: Listing, t: Listing) -> bool {
    forall|i: int, j: int|
        0 <= i < s.len() && 0 <= j < t.len() ==> !precedes(
            (#[trigger] t[j]).0,
            (#[trigger] s[i]).0,
        )
}

/// The last of a listing, which does not come before the last of another, is moved behind what was
/// taken off the two before.
proof fn lemma_moved(from: Listing, other: Listing, out: Listing)
    requires
        from.len() > 0,
        in_order(from),
        in_order(other),
        in_order(out.reverse()),
        all_at_most(from, out),
        all_at_most(other, out),
        other.len() > 0 ==> !precedes(from.last().0, other.last().0),
    ensures
        in_order(from.drop_last()),
        in_order(out.push(from.last()).reverse()),
        all_at_most(from.drop_last(), out.push(from.last())),
        all_at_most(other, out.push(from.last())),
{
    let moved = from.last();
    let more = out.push(moved);
    let (turned, before) = (more.reverse(), out.reverse());
    assert forall|i: int, j: int| 0 <= i < j < turned.len() implies !precedes(
        (#[trigger] turned[j]).0,
        (#[trigger] turned[i]).0,
    ) by {
        assert(turned[j] == before[j - 1]);
        if i == 0 {
            assert(turned[i] == from[from.len() - 1]);
            assert(turned[j] == out[out.len() - j]);
        } else {
            assert(turned[i] == before[i - 1]);
        }
    }
    assert forall|i: int, j: int|
        0 <= i < other.len() && 0 <= j < more.len() implies !precedes(
        (#[trigger] more[j]).0,
        (#[trigger] other[i]).0,
    ) by {
        if j < out.len() {
            assert(more[j] == out[j]);
        } else {
            let last = other[other.len() - 1];
            if i < other.len() - 1 {
                assert(!precedes(last.0, other[i].0));
                lemma_not_after(other[i].0, last.0, moved.0);
            }
        }
    }
    let rest = from.drop_last();
    assert forall|i: int, j: int|
        0 <= i < rest.len() && 0 <= j < more.len() implies !precedes(
        (#[trigger] more[j]).0,
        (#[trigger] rest[i]).0,
    ) by {
        assert(rest[i] == from[i]);
        if j < out.len() {
            assert(more[j] == out[j]);
        } else {
            assert(more[j] == from[from.len() - 1]);
        }
    }
    assert forall|i: int, j: int| 0 <= i < j < rest.len() implies !precedes(
        (#[trigger] rest[j]).0,
        (#[trigger] rest[i]).0,
    ) by {
        assert(rest[i] == from[i] && rest[j] == from[j]);
    }
}

/// The entries of a list in the order of their keys.
pub fn sort_by_key(list: Vec<(Bytes, Entry)>) -> (sorted: Vec<(Bytes, Entry)>)
    ensures
        in_order(record_listing(sorted@)),
        sorted@.to_multiset() == list@.to_multiset(),
    decreases list@.len(),
{
    if list.len() < 2 {
        return list;
    }
    let ghost all = list@;
    let mut left = list;
    let mid: usize = left.len() / 2;
    let right = left.split_off(mid);
    proof {
        assert(all =~= left@ + right@);
        vstd::seq_lib::lemma_multiset_commutative(left@, right@);
    }
    merge(sort_by_key(left), sort_by_key(right))
}

} // verus!
