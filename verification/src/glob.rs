//! Glob patterns over byte strings.
use vstd::prelude::*;

verus! {

/// The byte `*`, which stands for any run of bytes.
pub const STAR: u8 = 42;

/// The byte `?`, which stands for any one byte.
pub const ANY: u8 = 63;

/// Whether `key` matches `pattern`: `*` matches any run of bytes, the empty one included, `?`
/// matches any single byte, and every other byte matches itself.
pub open spec fn glob(key: Seq<u8>, pattern: Seq<u8>) -> bool
    decreases pattern.len(), key.len(),
{
    if pattern.len() == 0 {
        key.len() == 0
    } else if pattern[0] == STAR {
        ||| glob(key, pattern.skip(1))
        ||| key.len() > 0 && glob(key.skip(1), pattern)
    } else {
        &&& key.len() > 0
        &&& pattern[0] == ANY || pattern[0] == key[0]
        &&& glob(key.skip(1), pattern.skip(1))
    }
}

/// `segment` holds no star and matches `key` byte by byte.
spec fn aligned(key: Seq<u8>, segment: Seq<u8>) -> bool {
    &&& key.len() == segment.len()
    &&& forall|i: int|
        0 <= i < segment.len() ==> #[trigger] segment[i] != STAR && (segment[i] == ANY || segment[i]
            == key[i])
}

/// A leading star swallows any prefix of the key.
proof fn lemma_star_swallows(key: Seq<u8>, i: int, j: int, pattern: Seq<u8>)
    requires
        0 <= i <= j <= key.len(),
        pattern.len() > 0,
        pattern[0] == STAR,
        glob(key.skip(j), pattern),
    ensures
        glob(key.skip(i), pattern),
    decreases j - i,
{
    if i < j {
        lemma_star_swallows(key, i + 1, j, pattern);
        assert(key.skip(i).skip(1) =~= key.skip(i + 1));
    }
}

/// Behind a leading star the rest of the pattern matches from some position on.
proof fn lemma_star_splits(key: Seq<u8>, pattern: Seq<u8>) -> (at: int)
    requires
        pattern.len() > 0,
        pattern[0] == STAR,
        glob(key, pattern),
    ensures
        0 <= at <= key.len(),
        glob(key.skip(at), pattern.skip(1)),
    decreases key.len(),
{
    if glob(key, pattern.skip(1)) {
        assert(key.skip(0) =~= key);
        0
    } else {
        let at = lemma_star_splits(key.skip(1), pattern);
        assert(key.skip(1).skip(at) =~= key.skip(at + 1));
        at + 1
    }
}

/// A star-free segment that is aligned with the key can be taken off both.
proof fn lemma_segment_peels(key: Seq<u8>, pattern: Seq<u8>, n: int)
    requires
        0 <= n <= key.len(),
        n <= pattern.len(),
        aligned(key.take(n), pattern.take(n)),
    ensures
        glob(key, pattern) == glob(key.skip(n), pattern.skip(n)),
    decreases n,
{
    if n > 0 {
        assert(pattern.take(n)[0] == pattern[0]);
        assert(key.take(n)[0] == key[0]);
        assert(pattern[0] != STAR);
        let (k, p) = (key.skip(1), pattern.skip(1));
        assert(aligned(k.take(n - 1), p.take(n - 1))) by {
            assert forall|i: int| 0 <= i < n - 1 implies {
                &&& #[trigger] p.take(n - 1)[i] != STAR
                &&& p.take(n - 1)[i] == ANY || p.take(n - 1)[i] == k.take(n - 1)[i]
            } by {
                assert(pattern.take(n)[i + 1] == p.take(n - 1)[i]);
                assert(key.take(n)[i + 1] == k.take(n - 1)[i]);
            }
        }
        lemma_segment_peels(k, p, n - 1);
        assert(k.skip(n - 1) =~= key.skip(n));
        assert(p.skip(n - 1) =~= pattern.skip(n));
    } else {
        assert(key.skip(0) =~= key);
        assert(pattern.skip(0) =~= pattern);
    }
}

/// A match of a star-free segment followed by anything aligns the segment with the key.
proof fn lemma_segment_aligns(key: Seq<u8>, pattern: Seq<u8>, n: int)
    requires
        0 <= n <= pattern.len(),
        forall|i: int| 0 <= i < n ==> #[trigger] pattern[i] != STAR,
        glob(key, pattern),
    ensures
        n <= key.len(),
        glob(key.skip(n), pattern.skip(n)),
    decreases n,
{
    if n > 0 {
        assert(pattern[0] != STAR);
        let (k, p) = (key.skip(1), pattern.skip(1));
        assert forall|i: int| 0 <= i < n - 1 implies #[trigger] p[i] != STAR by {
            assert(p[i] == pattern[i + 1]);
        }
        lemma_segment_aligns(k, p, n - 1);
        assert(k.skip(n - 1) =~= key.skip(n));
        assert(p.skip(n - 1) =~= pattern.skip(n));
    } else {
        assert(key.skip(0) =~= key);
        assert(pattern.skip(0) =~= pattern);
    }
}

/// Once the segment behind a star has been aligned at the earliest place and another star
/// follows, nothing is lost by keeping that place.
proof fn lemma_earliest_place_suffices(key: Seq<u8>, pattern: Seq<u8>, star: int, n: int, at: int)
    requires
        0 <= star,
        n >= 0,
        star + 1 + n < pattern.len(),
        pattern[star] == STAR,
        pattern[star + 1 + n] == STAR,
        0 <= at,
        at + n <= key.len(),
        aligned(key.subrange(at, at + n), pattern.subrange(star + 1, star + 1 + n)),
    ensures
        glob(key.skip(at), pattern.skip(star)) == glob(key.skip(at + n), pattern.skip(star + 1 + n)),
{
    let (k, p) = (key.skip(at), pattern.skip(star));
    let rest = p.skip(1);
    assert(rest =~= pattern.skip(star + 1));
    assert(rest.skip(n) =~= pattern.skip(star + 1 + n));
    assert(k.skip(n) =~= key.skip(at + n));
    assert(k.take(n) =~= key.subrange(at, at + n));
    assert(rest.take(n) =~= pattern.subrange(star + 1, star + 1 + n));
    lemma_segment_peels(k, rest, n);
    if glob(k.skip(n), rest.skip(n)) {
        assert(glob(k, rest));
        assert(glob(k, p));
    }
    if glob(k, p) {
        let j = lemma_star_splits(k, p);
        assert forall|i: int| 0 <= i < n implies #[trigger] rest[i] != STAR by {
            assert(rest[i] == pattern.subrange(star + 1, star + 1 + n)[i]);
        }
        lemma_segment_aligns(k.skip(j), rest, n);
        assert(k.skip(j).skip(n) =~= k.skip(j + n));
        assert(rest.skip(n)[0] == STAR);
        lemma_star_swallows(k, n, j + n, rest.skip(n));
    }
}

/// What is left of a pattern matches the empty key only if it is all stars.
proof fn lemma_empty_key(pattern: Seq<u8>)
    ensures
        glob(Seq::empty(), pattern) == (forall|i: int|
            0 <= i < pattern.len() ==> #[trigger] pattern[i] == STAR),
    decreases pattern.len(),
{
    if pattern.len() > 0 {
        let rest = pattern.skip(1);
        lemma_empty_key(rest);
        if forall|i: int| 0 <= i < rest.len() ==> #[trigger] rest[i] == STAR {
            assert forall|i: int| 0 <= i < pattern.len() && pattern[0] == STAR implies
                #[trigger] pattern[i] == STAR by {
                if i > 0 {
                    assert(rest[i - 1] == pattern[i]);
                }
            }
        } else {
            let i = choose|i: int| 0 <= i < rest.len() && #[trigger] rest[i] != STAR;
            assert(pattern[i + 1] != STAR);
        }
    }
}

/// Whether a key matches a pattern in which `*` stands for any run of bytes and `?` for any
/// one byte.
pub fn matches_pattern(key: &[u8], pattern: &[u8]) -> (matched: bool)
    ensures
        matched == glob(key@, pattern@),
{
    let key_len = key.len();
    let pat_len = pattern.len();
    let mut key_idx: usize = 0;
    let mut pat_idx: usize = 0;
    let mut star_pos: Option<usize> = None;
    let mut key_backup: usize = 0;
    proof {
        assert(key@.skip(0) =~= key@);
        assert(pattern@.skip(0) =~= pattern@);
    }
    while key_idx < key_len
        invariant
            key_len == key@.len(),
            pat_len == pattern@.len(),
            key_idx <= key_len,
            pat_idx <= pat_len,
            match star_pos {
                None => {
                    &&& key_idx == pat_idx
                    &&& aligned(key@.take(key_idx as int), pattern@.take(pat_idx as int))
                },
                Some(star) => {
                    &&& star < pat_idx
                    &&& pattern@[star as int] == STAR
                    &&& key_backup <= key_idx
                    &&& pat_idx - (star + 1) == key_idx - key_backup
                    &&& aligned(
                        key@.subrange(key_backup as int, key_idx as int),
                        pattern@.subrange(star + 1, pat_idx as int),
                    )
                    &&& glob(key@, pattern@) == glob(
                        key@.skip(key_backup as int),
                        pattern@.skip(star as int),
                    )
                },
            },
        decreases
                pat_len - (match star_pos {
                    None => -1int,
                    Some(star) => star as int,
                }),
                key_len - (match star_pos {
                    None => 0int,
                    Some(_) => key_backup as int,
                }),
                key_len - key_idx,
    {
        if pat_idx < pat_len && pattern[pat_idx] == STAR {
            proof {
                match star_pos {
                    None => {
                        lemma_segment_peels(key@, pattern@, key_idx as int);
                    },
                    Some(star) => {
                        lemma_earliest_place_suffices(
                            key@,
                            pattern@,
                            star as int,
                            key_idx - key_backup,
                            key_backup as int,
                        );
                    },
                }
            }
            star_pos = Some(pat_idx);
            key_backup = key_idx;
            pat_idx += 1;
        } else if pat_idx < pat_len && (pattern[pat_idx] == ANY || pattern[pat_idx]
            == key[key_idx]) {
            proof {
                match star_pos {
                    None => {
                        let (k, p) = (key@.take(key_idx + 1), pattern@.take(pat_idx + 1));
                        assert forall|i: int| 0 <= i < p.len() implies {
                            &&& #[trigger] p[i] != STAR
                            &&& p[i] == ANY || p[i] == k[i]
                        } by {
                            if i < pat_idx {
                                assert(pattern@.take(pat_idx as int)[i] == p[i]);
                                assert(key@.take(key_idx as int)[i] == k[i]);
                            }
                        }
                    },
                    Some(star) => {
                        let k0 = key@.subrange(key_backup as int, key_idx as int);
                        let p0 = pattern@.subrange(star + 1, pat_idx as int);
                        let k = key@.subrange(key_backup as int, key_idx + 1);
                        let p = pattern@.subrange(star + 1, pat_idx + 1);
                        assert forall|i: int| 0 <= i < p.len() implies {
                            &&& #[trigger] p[i] != STAR
                            &&& p[i] == ANY || p[i] == k[i]
                        } by {
                            if i < p0.len() {
                                assert(p0[i] == p[i]);
                                assert(k0[i] == k[i]);
                            }
                        }
                    },
                }
            }
            key_idx += 1;
            pat_idx += 1;
        } else if let Some(star) = star_pos {
            proof {
                // The segment cannot be placed here, so the star takes one more byte.
                let k = key@.skip(key_backup as int);
                let p = pattern@.skip(star as int);
                let n = key_idx - key_backup;
                assert(p.skip(1) =~= pattern@.skip(star + 1));
                assert(k.take(n) =~= key@.subrange(key_backup as int, key_idx as int));
                assert(p.skip(1).take(n) =~= pattern@.subrange(star + 1, pat_idx as int));
                lemma_segment_peels(k, p.skip(1), n);
                assert(k.skip(n) =~= key@.skip(key_idx as int));
                assert(p.skip(1).skip(n) =~= pattern@.skip(pat_idx as int));
                assert(!glob(k, p.skip(1)));
                assert(k.skip(1) =~= key@.skip(key_backup + 1));
            }
            pat_idx = star + 1;
            key_backup += 1;
            key_idx = key_backup;
            proof {
                assert(key@.subrange(key_backup as int, key_idx as int) =~= Seq::<u8>::empty());
                assert(pattern@.subrange(star + 1, pat_idx as int) =~= Seq::<u8>::empty());
            }
        } else {
            proof {
                lemma_segment_peels(key@, pattern@, key_idx as int);
            }
            return false;
        }
    }

    let ghost tail = pat_idx as int;
    proof {
        // The whole key is used up: what is left of the pattern has to match nothing.
        let k = key@.skip(key_len as int);
        assert(k =~= Seq::empty());
        match star_pos {
            None => {
                lemma_segment_peels(key@, pattern@, key_idx as int);
            },
            Some(star) => {
                let kb = key@.skip(key_backup as int);
                let p = pattern@.skip(star as int);
                let n = key_idx - key_backup;
                assert(p.skip(1) =~= pattern@.skip(star + 1));
                assert(kb.take(n) =~= key@.subrange(key_backup as int, key_idx as int));
                assert(p.skip(1).take(n) =~= pattern@.subrange(star + 1, pat_idx as int));
                lemma_segment_peels(kb, p.skip(1), n);
                assert(kb.skip(n) =~= k);
                assert(p.skip(1).skip(n) =~= pattern@.skip(tail));
                if glob(kb, p) {
                    let j = lemma_star_splits(kb, p);
                    assert forall|i: int| 0 <= i < n implies #[trigger] p.skip(1)[i] != STAR by {
                        assert(p.skip(1)[i] == pattern@.subrange(star + 1, pat_idx as int)[i]);
                    }
                    lemma_segment_aligns(kb.skip(j), p.skip(1), n);
                    assert(j == 0);
                    assert(kb.skip(0) =~= kb);
                }
            },
        }
        lemma_empty_key(pattern@.skip(tail));
        assert(glob(key@, pattern@) == glob(Seq::empty(), pattern@.skip(tail)));
    }
    while pat_idx < pat_len && pattern[pat_idx] == STAR
        invariant
            pat_len == pattern@.len(),
            tail <= pat_idx <= pat_len,
            forall|i: int| tail <= i < pat_idx ==> #[trigger] pattern@[i] == STAR,
        decreases pat_len - pat_idx,
    {
        pat_idx += 1;
    }
    proof {
        let left = pattern@.skip(tail);
        if pat_idx == pat_len {
            assert forall|i: int| 0 <= i < left.len() implies #[trigger] left[i] == STAR by {
                assert(left[i] == pattern@[tail + i]);
            }
        } else {
            assert(left[pat_idx - tail] != STAR);
        }
    }
    pat_idx == pat_len
}

/// A byte of a pattern stands for one byte of a key: a question mark for any, and any other byte but
/// the star for itself. A star stands for every run of bytes, and no pattern for no bytes.
pub proof fn law_one_byte_of_a_pattern(key: Seq<u8>, b: u8)
    ensures
        glob(key, Seq::empty()) <==> key.len() == 0,
        glob(key, seq![42u8]),
        glob(key, seq![63u8]) <==> key.len() == 1,
        b != 42 && b != 63 ==> (glob(key, seq![b]) <==> key == seq![b]),
{
    reveal_with_fuel(glob, 2);
    lemma_star_takes_all(key);
    assert(seq![ANY].skip(1) =~= Seq::empty());
    assert(seq![b].skip(1) =~= Seq::empty());
    if key.len() > 0 {
        if b != STAR && b != ANY && glob(key, seq![b]) {
            assert(key =~= seq![b]);
        }
    }
    if key == seq![b] {
        assert(key.skip(1) =~= Seq::empty());
    }
}

proof fn lemma_star_takes_all(key: Seq<u8>)
    ensures
        glob(key, seq![STAR]),
    decreases key.len(),
{
    reveal_with_fuel(glob, 2);
    assert(seq![STAR].skip(1) =~= Seq::empty());
    if key.len() > 0 {
        lemma_star_takes_all(key.skip(1));
    }
}

/// Two patterns, one behind the other, match just the keys of which a first part matches the one and
/// the rest matches the other.
pub proof fn law_patterns_in_a_row(key: Seq<u8>, first: Seq<u8>, second: Seq<u8>)
    ensures
        glob(key, first + second) <==> exists|at: int|
            0 <= at <= key.len() && glob(#[trigger] key.take(at), first) && glob(
                key.skip(at),
                second,
            ),
    decreases first.len(), key.len(),
{
    let both = first + second;
    if first.len() == 0 {
        assert(both =~= second);
        assert(key.take(0) =~= Seq::empty());
        assert(key.skip(0) =~= key);
        if glob(key, both) {
            assert(glob(key.take(0), first) && glob(key.skip(0), second));
        }
    } else {
        assert(both[0] == first[0]);
        assert(both.skip(1) =~= first.skip(1) + second);
        if first[0] == STAR {
            law_patterns_in_a_row(key, first.skip(1), second);
            if key.len() > 0 {
                law_patterns_in_a_row(key.skip(1), first, second);
            }
            if glob(key, both) {
                if glob(key, first.skip(1) + second) {
                    let at = choose|at: int|
                        0 <= at <= key.len() && glob(#[trigger] key.take(at), first.skip(1)) && glob(
                            key.skip(at),
                            second,
                        );
                    assert(glob(key.take(at), first));
                } else {
                    let k = key.skip(1);
                    let at = choose|at: int|
                        0 <= at <= k.len() && glob(#[trigger] k.take(at), first) && glob(
                            k.skip(at),
                            second,
                        );
                    assert(key.take(at + 1).skip(1) =~= k.take(at));
                    assert(key.skip(at + 1) =~= k.skip(at));
                    assert(glob(key.take(at + 1), first));
                }
            }
            if exists|at: int|
                0 <= at <= key.len() && glob(#[trigger] key.take(at), first) && glob(
                    key.skip(at),
                    second,
                ) {
                let at = choose|at: int|
                    0 <= at <= key.len() && glob(#[trigger] key.take(at), first) && glob(
                        key.skip(at),
                        second,
                    );
                if !glob(key.take(at), first.skip(1)) {
                    let k = key.skip(1);
                    assert(key.take(at).skip(1) =~= k.take(at - 1));
                    assert(key.skip(at) =~= k.skip(at - 1));
                    assert(glob(k.take(at - 1), first));
                }
            }
        } else {
            if key.len() > 0 {
                let k = key.skip(1);
                law_patterns_in_a_row(k, first.skip(1), second);
                if glob(key, both) {
                    let at = choose|at: int|
                        0 <= at <= k.len() && glob(#[trigger] k.take(at), first.skip(1)) && glob(
                            k.skip(at),
                            second,
                        );
                    assert(key.take(at + 1).skip(1) =~= k.take(at));
                    assert(key.skip(at + 1) =~= k.skip(at));
                    assert(key.take(at + 1)[0] == key[0]);
                    assert(glob(key.take(at + 1), first));
                }
            }
            if exists|at: int|
                0 <= at <= key.len() && glob(#[trigger] key.take(at), first) && glob(
                    key.skip(at),
                    second,
                ) {
                let at = choose|at: int|
                    0 <= at <= key.len() && glob(#[trigger] key.take(at), first) && glob(
                        key.skip(at),
                        second,
                    );
                let k = key.skip(1);
                assert(at > 0);
                assert(key.take(at)[0] == key[0]);
                assert(key.take(at).skip(1) =~= k.take(at - 1));
                assert(key.skip(at) =~= k.skip(at - 1));
                assert(glob(k.take(at - 1), first.skip(1)));
            }
        }
    }
}

} // verus!
