//! What the words after `SET key value` and after `SCAN cursor` stand for.
use vstd::prelude::*;

use crate::client::{lemma_spells, spells};
use crate::command::{same_word, set_options, SetOptions};
use crate::number::unsigned_of;

verus! {

/// What a client can wish for with a SET.
pub ghost enum Wish {
    /// The key is to live for so many seconds.
    Seconds(u64),
    /// The key is to live for so many milliseconds.
    Millis(u64),
    /// Nothing is to be set where the key is there.
    IfAbsent,
    /// Nothing is to be set where the key is not there.
    IfPresent,
    /// The answer is to be what the key held.
    GiveOld,
}

/// The last `n` of the words say the wish.
pub open spec fn says_one(words: Seq<Seq<u8>>, n: int, wish: Wish) -> bool {
    &&& 0 < n <= words.len()
    &&& match wish {
        Wish::IfAbsent => n == 1 && spells(words.last(), "nx"@),
        Wish::IfPresent => n == 1 && spells(words.last(), "xx"@),
        Wish::GiveOld => n == 1 && spells(words.last(), "get"@),
        Wish::Seconds(time) => {
            &&& n == 2
            &&& spells(words[words.len() - 2], "ex"@)
            &&& unsigned_of(words.last()) == Some(time)
            &&& time > 0
        },
        Wish::Millis(time) => {
            &&& n == 2
            &&& spells(words[words.len() - 2], "px"@)
            &&& unsigned_of(words.last()) == Some(time)
            &&& time > 0
        },
    }
}

/// How many words say a wish.
pub open spec fn words_of(wish: Wish) -> int {
    match wish {
        Wish::Seconds(_) | Wish::Millis(_) => 2,
        _ => 1,
    }
}

/// The words say the wishes, one after the other, and nothing else.
pub open spec fn says(words: Seq<Seq<u8>>, wishes: Seq<Wish>) -> bool
    decreases wishes.len(),
{
    if wishes.len() == 0 {
        words.len() == 0
    } else {
        let n = words_of(wishes.last());
        says_one(words, n, wishes.last()) && says(words.take(words.len() - n), wishes.drop_last())
    }
}

/// The wish for a time to live that counts is the last one: `seconds` is the fewest whole seconds
/// that are as long. Without one there is none.
pub open spec fn lives_for(wishes: Seq<Wish>, seconds: Option<u64>) -> bool {
    match seconds {
        None => forall|i: int|
            0 <= i < wishes.len() ==> !(#[trigger] wishes[i] is Seconds) && !(wishes[i] is Millis),
        Some(seconds) => exists|at: int|
            {
                &&& 0 <= at < wishes.len()
                &&& match #[trigger] wishes[at] {
                    Wish::Seconds(n) => seconds == n,
                    Wish::Millis(n) => seconds * 1000 >= n && (seconds - 1) * 1000 < n,
                    _ => false,
                }
                &&& forall|i: int|
                    at < i < wishes.len() ==> !(#[trigger] wishes[i] is Seconds) && !(
                    wishes[i] is Millis)
            },
    }
}

/// The wish is among them.
pub open spec fn wished(wishes: Seq<Wish>, wish: Wish) -> bool {
    exists|i: int| 0 <= i < wishes.len() && #[trigger] wishes[i] == wish
}

spec fn granted(options: SetOptions, wish: Wish) -> SetOptions {
    match wish {
        Wish::Seconds(n) => SetOptions { ttl: Some(n), ..options },
        Wish::Millis(n) => SetOptions { ttl: Some(((n + 999) / 1000) as u64), ..options },
        Wish::IfAbsent => SetOptions { nx: true, ..options },
        Wish::IfPresent => SetOptions { xx: true, ..options },
        Wish::GiveOld => SetOptions { get: true, ..options },
    }
}

spec fn all_granted(wishes: Seq<Wish>) -> SetOptions
    decreases wishes.len(),
{
    if wishes.len() == 0 {
        SetOptions { ttl: None, nx: false, xx: false, get: false }
    } else {
        granted(all_granted(wishes.drop_last()), wishes.last())
    }
}

/// A word is one option at most.
proof fn lemma_option_words(word: Seq<u8>)
    ensures
        spells(word, "ex"@) == same_word(word, "ex"@),
        spells(word, "px"@) == same_word(word, "px"@),
        spells(word, "nx"@) == same_word(word, "nx"@),
        spells(word, "xx"@) == same_word(word, "xx"@),
        spells(word, "get"@) == same_word(word, "get"@),
        spells(word, "ex"@) ==> !spells(word, "px"@) && !spells(word, "nx"@) && !spells(word, "xx"@)
            && !spells(word, "get"@),
        spells(word, "px"@) ==> !spells(word, "nx"@) && !spells(word, "xx"@) && !spells(
            word,
            "get"@,
        ),
        spells(word, "nx"@) ==> !spells(word, "xx"@) && !spells(word, "get"@),
        spells(word, "xx"@) ==> !spells(word, "get"@),
{
    reveal_strlit("ex");
    reveal_strlit("px");
    reveal_strlit("nx");
    reveal_strlit("xx");
    reveal_strlit("get");
    lemma_spells(word, "ex"@);
    lemma_spells(word, "px"@);
    lemma_spells(word, "nx"@);
    lemma_spells(word, "xx"@);
    lemma_spells(word, "get"@);
    if word.len() == 2 {
        assert(word[0] == word[0] && word[1] == word[1]);
        let (a, b) = (word[0] as int, word[1] as int);
        assert(spells(word, "ex"@) ==> a == 'e' as int || a + 32 == 'e' as int);
        assert(spells(word, "px"@) ==> a == 'p' as int || a + 32 == 'p' as int);
        assert(spells(word, "nx"@) ==> a == 'n' as int || a + 32 == 'n' as int);
        assert(spells(word, "xx"@) ==> a == 'x' as int || a + 32 == 'x' as int);
    }
}

/// Words that say wishes can be read, and what comes after them is read on top.
proof fn lemma_read(words: Seq<Seq<u8>>, i: int, wishes: Seq<Wish>)
    requires
        0 <= i <= words.len(),
        says(words.take(i), wishes),
    ensures
        set_options(words, SetOptions::none()) == set_options(words.skip(i), all_granted(wishes)),
    decreases wishes.len(),
{
    let head = words.take(i);
    if wishes.len() == 0 {
        assert(words.skip(0) =~= words);
    } else {
        let wish = wishes.last();
        let n = words_of(wish);
        let j = i - n;
        assert(head.take(head.len() - n) =~= words.take(j));
        lemma_read(words, j, wishes.drop_last());
        let rest = words.skip(j);
        assert(rest[0] == head[j]);
        lemma_option_words(rest[0]);
        assert(rest.skip(n) =~= words.skip(i));
        if n == 2 {
            assert(rest[1] == head[j + 1]);
        }
    }
}

proof fn lemma_all_granted(wishes: Seq<Wish>)
    ensures
        all_granted(wishes).nx == wished(wishes, Wish::IfAbsent),
        all_granted(wishes).xx == wished(wishes, Wish::IfPresent),
        all_granted(wishes).get == wished(wishes, Wish::GiveOld),
        (forall|i: int| 0 <= i < wishes.len() ==> (match #[trigger] wishes[i] {
            Wish::Seconds(n) => n > 0,
            Wish::Millis(n) => n > 0,
            _ => true,
        })) ==> lives_for(wishes, all_granted(wishes).ttl),
    decreases wishes.len(),
{
    if wishes.len() > 0 {
        let (rest, last) = (wishes.drop_last(), wishes.last());
        let end = wishes.len() - 1;
        lemma_all_granted(rest);
        assert forall|wish: Wish| #[trigger] wished(wishes, wish) == (wished(rest, wish) || last
            == wish) by {
            if wished(wishes, wish) && last != wish {
                let i = choose|i: int| 0 <= i < wishes.len() && #[trigger] wishes[i] == wish;
                assert(rest[i] == wish);
            }
            if wished(rest, wish) {
                let i = choose|i: int| 0 <= i < rest.len() && #[trigger] rest[i] == wish;
                assert(wishes[i] == wish);
            }
            assert(wishes[end] == last);
        }
        if forall|i: int| 0 <= i < wishes.len() ==> (match #[trigger] wishes[i] {
            Wish::Seconds(n) => n > 0,
            Wish::Millis(n) => n > 0,
            _ => true,
        }) {
            assert forall|i: int| 0 <= i < rest.len() implies (match #[trigger] rest[i] {
                Wish::Seconds(n) => n > 0,
                Wish::Millis(n) => n > 0,
                _ => true,
            }) by {
                assert(wishes[i] == rest[i]);
            }
            assert(wishes[end] == last);
            if last is Seconds || last is Millis {
                assert(lives_for(wishes, all_granted(wishes).ttl));
            } else {
                let ttl = all_granted(rest).ttl;
                match ttl {
                    None => {
                        assert forall|i: int| 0 <= i < wishes.len() implies !(
                        #[trigger] wishes[i] is Seconds) && !(wishes[i] is Millis) by {
                            if i < end {
                                assert(rest[i] == wishes[i]);
                            }
                        }
                    },
                    Some(seconds) => {
                        let at = choose|at: int|
                            {
                                &&& 0 <= at < rest.len()
                                &&& match #[trigger] rest[at] {
                                    Wish::Seconds(n) => seconds == n,
                                    Wish::Millis(n) => seconds * 1000 >= n && (seconds - 1) * 1000
                                        < n,
                                    _ => false,
                                }
                                &&& forall|i: int|
                                    at < i < rest.len() ==> !(#[trigger] rest[i] is Seconds) && !(
                                    rest[i] is Millis)
                            };
                        assert(wishes[at] == rest[at]);
                        assert forall|i: int| at < i < wishes.len() implies !(
                        #[trigger] wishes[i] is Seconds) && !(wishes[i] is Millis) by {
                            if i < end {
                                assert(rest[i] == wishes[i]);
                            }
                        }
                    },
                }
            }
        }
    }
}

proof fn lemma_times_are_positive(words: Seq<Seq<u8>>, wishes: Seq<Wish>)
    requires
        says(words, wishes),
    ensures
        forall|i: int| 0 <= i < wishes.len() ==> (match #[trigger] wishes[i] {
            Wish::Seconds(n) => n > 0,
            Wish::Millis(n) => n > 0,
            _ => true,
        }),
    decreases wishes.len(),
{
    if wishes.len() > 0 {
        let rest = wishes.drop_last();
        lemma_times_are_positive(words.take(words.len() - words_of(wishes.last())), rest);
        assert forall|i: int| 0 <= i < wishes.len() implies (match #[trigger] wishes[i] {
            Wish::Seconds(n) => n > 0,
            Wish::Millis(n) => n > 0,
            _ => true,
        }) by {
            if i < rest.len() {
                assert(wishes[i] == rest[i]);
            }
        }
    }
}

/// The options grant what the client wished for, in whatever order it said so, and nothing else.
pub open spec fn grants(options: SetOptions, wishes: Seq<Wish>) -> bool {
    &&& options.nx <==> wished(wishes, Wish::IfAbsent)
    &&& options.xx <==> wished(wishes, Wish::IfPresent)
    &&& options.get <==> wished(wishes, Wish::GiveOld)
    &&& lives_for(wishes, options.ttl)
}

/// Words that say wishes are read as options that grant them.
pub proof fn law_options_grant_wishes(words: Seq<Seq<u8>>, wishes: Seq<Wish>)
    requires
        says(words, wishes),
    ensures
        set_options(words, SetOptions::none()) is Ok,
        grants(set_options(words, SetOptions::none())->Ok_0, wishes),
{
    let n = words.len() as int;
    assert(words.take(n) =~= words);
    lemma_read(words, n, wishes);
    lemma_times_are_positive(words, wishes);
    lemma_all_granted(wishes);
}

/// Words that say wishes up to a word which is no option, or an option of time without a number
/// behind it, are refused: as no options, or for the number.
pub proof fn law_other_options_are_refused(words: Seq<Seq<u8>>, i: int, wishes: Seq<Wish>)
    requires
        0 <= i < words.len(),
        says(words.take(i), wishes),
    ensures
        ({
            let timed = spells(words[i], "ex"@) || spells(words[i], "px"@);
            let flag = spells(words[i], "nx"@) || spells(words[i], "xx"@) || spells(
                words[i],
                "get"@,
            );
            let options = set_options(words, SetOptions::none());
            &&& !timed && !flag ==> options == Err::<SetOptions, Seq<char>>("syntax error"@)
            &&& timed && i + 1 == words.len() ==> options == Err::<SetOptions, Seq<char>>(
                "syntax error"@,
            )
            &&& timed && i + 1 < words.len() && (unsigned_of(words[i + 1]) is None || unsigned_of(
                words[i + 1],
            ) == Some(0u64)) ==> options == Err::<SetOptions, Seq<char>>(
                "value is not an integer or out of range"@,
            )
        }),
{
    lemma_read(words, i, wishes);
    let rest = words.skip(i);
    assert(rest[0] == words[i]);
    lemma_option_words(words[i]);
    if i + 1 < words.len() {
        assert(rest[1] == words[i + 1]);
    }
}

/// Words can be read as options only where they say wishes.
pub proof fn law_options_are_wishes(words: Seq<Seq<u8>>)
    requires
        set_options(words, SetOptions::none()) is Ok,
    ensures
        exists|wishes: Seq<Wish>| #[trigger] says(words, wishes),
{
    assert(words.take(0) =~= Seq::empty());
    assert(says(words.take(0), Seq::<Wish>::empty()));
    lemma_options_are_wishes(words, 0, Seq::empty());
}

proof fn lemma_options_are_wishes(words: Seq<Seq<u8>>, i: int, wishes: Seq<Wish>)
    requires
        0 <= i <= words.len(),
        says(words.take(i), wishes),
        set_options(words, SetOptions::none()) is Ok,
    ensures
        exists|wishes: Seq<Wish>| #[trigger] says(words, wishes),
    decreases words.len() - i,
{
    if i == words.len() {
        assert(words.take(i) =~= words);
    } else {
        law_other_options_are_refused(words, i, wishes);
        lemma_option_words(words[i]);
        let wish = if spells(words[i], "nx"@) {
            Wish::IfAbsent
        } else if spells(words[i], "xx"@) {
            Wish::IfPresent
        } else if spells(words[i], "get"@) {
            Wish::GiveOld
        } else if spells(words[i], "ex"@) {
            Wish::Seconds(unsigned_of(words[i + 1]).unwrap())
        } else {
            Wish::Millis(unsigned_of(words[i + 1]).unwrap())
        };
        let n = words_of(wish);
        let (more, longer) = (wishes.push(wish), words.take(i + n));
        assert(more.drop_last() =~= wishes);
        assert(longer.take(longer.len() - n) =~= words.take(i));
        assert(longer[i] == words[i]);
        assert(says(longer, more));
        lemma_options_are_wishes(words, i + n, more);
    }
}

} // verus!
