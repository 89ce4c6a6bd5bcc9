//! Searching a text that is put together from pieces.

use crate::text::{ascii_lowered, find_from, find_word, has_at};
use vstd::prelude::*;

verus! {

/// `word` does not stand at `k`, and the characters up to the end of `s` show it.
pub open spec fn differs(s: Seq<char>, k: int, word: Seq<char>) -> bool {
    exists|j: int| 0 <= j < word.len() && k + j < s.len() && s[k + j] != #[trigger] word[j]
}

/// `word` begins nowhere in `s`, whatever comes after.
pub open spec fn avoids(s: Seq<char>, word: Seq<char>) -> bool {
    forall|k: int| 0 <= k < s.len() ==> #[trigger] differs(s, k, word)
}

/// `c` does not occur.
pub open spec fn lacks(s: Seq<char>, c: char) -> bool {
    forall|i: int| 0 <= i < s.len() ==> s[i] != c
}

pub(crate) proof fn lemma_differs(s: Seq<char>, k: int, word: Seq<char>)
    requires
        0 <= k,
        differs(s, k, word),
    ensures
        !has_at(s, k, word),
        forall|t: Seq<char>| differs(#[trigger] (s + t), k, word),
        forall|t: Seq<char>| differs(#[trigger] (t + s), t.len() + k, word),
{
    let j = choose|j: int| 0 <= j < word.len() && k + j < s.len() && s[k + j] != #[trigger] word[j];
    if has_at(s, k, word) {
        assert(s.subrange(k, k + word.len())[j] == word[j]);
    }
    assert forall|t: Seq<char>| differs(#[trigger] (s + t), k, word) by {
        assert((s + t)[k + j] != word[j]);
    }
    assert forall|t: Seq<char>| differs(#[trigger] (t + s), t.len() + k, word) by {
        assert((t + s)[t.len() + k + j] != word[j]);
    }
}

pub(crate) proof fn lemma_avoids_joined(a: Seq<char>, b: Seq<char>, word: Seq<char>)
    requires
        avoids(a, word),
        avoids(b, word),
    ensures
        avoids(a + b, word),
{
    assert forall|k: int| 0 <= k < (a + b).len() implies #[trigger] differs(a + b, k, word) by {
        if k < a.len() {
            lemma_differs(a, k, word);
        } else {
            assert(differs(b, k - a.len(), word));
            lemma_differs(b, k - a.len(), word);
        }
    }
}

/// Nothing that begins with another character than `s` holds begins in `s`.
pub(crate) proof fn lemma_avoids_lacking(s: Seq<char>, word: Seq<char>)
    requires
        word.len() > 0,
        lacks(s, word[0]),
    ensures
        avoids(s, word),
{
    assert forall|k: int| 0 <= k < s.len() implies #[trigger] differs(s, k, word) by {
        assert(s[k + 0] != word[0]);
    }
}

/// What [`find_word`] finds.
pub(crate) proof fn lemma_find_word(s: Seq<char>, word: Seq<char>, i: int)
    requires
        0 <= i <= s.len(),
    ensures
        i <= find_word(s, word, i) <= s.len(),
        find_word(s, word, i) < s.len() ==> has_at(s, find_word(s, word, i), word),
        forall|k: int| i <= k < find_word(s, word, i) ==> !#[trigger] has_at(s, k, word),
    decreases s.len() - i,
{
    if i < s.len() && !has_at(s, i, word) {
        lemma_find_word(s, word, i + 1);
    }
}

pub(crate) proof fn lemma_word_shift(a: Seq<char>, b: Seq<char>, word: Seq<char>, k: int)
    requires
        0 <= k <= b.len(),
    ensures
        find_word(a + b, word, a.len() + k) == a.len() + find_word(b, word, k),
    decreases b.len() - k,
{
    if k < b.len() {
        let s = a + b;
        let n = word.len();
        if k + n <= b.len() {
            assert(s.subrange(a.len() + k, a.len() + k + n) =~= b.subrange(k, k + n));
        }
        assert(has_at(s, a.len() + k, word) == has_at(b, k, word));
        if !has_at(b, k, word) {
            lemma_word_shift(a, b, word, k + 1);
        }
    }
}

/// A search goes past what avoids the word.
pub(crate) proof fn lemma_word_past(a: Seq<char>, b: Seq<char>, word: Seq<char>, i: int)
    requires
        0 <= i <= a.len(),
        avoids(a, word),
    ensures
        find_word(a + b, word, i) == a.len() + find_word(b, word, 0),
    decreases a.len() - i,
{
    if i < a.len() {
        assert(differs(a, i, word));
        lemma_differs(a, i, word);
        assert(differs(a + b, i, word));
        lemma_differs(a + b, i, word);
        lemma_word_past(a, b, word, i + 1);
    } else {
        lemma_word_shift(a, b, word, 0);
    }
}

pub(crate) proof fn lemma_word_absent(a: Seq<char>, word: Seq<char>, i: int)
    requires
        0 <= i <= a.len(),
        avoids(a, word),
    ensures
        find_word(a, word, i) == a.len(),
{
    lemma_word_past(a, Seq::empty(), word, i);
    assert(a + Seq::<char>::empty() =~= a);
}

/// A search ends where the word stands first.
pub(crate) proof fn lemma_word_found(a: Seq<char>, b: Seq<char>, word: Seq<char>, i: int)
    requires
        0 <= i <= a.len(),
        avoids(a, word),
        b.len() > 0,
        has_at(b, 0, word),
    ensures
        find_word(a + b, word, i) == a.len(),
{
    lemma_word_past(a, b, word, i);
}

pub(crate) proof fn lemma_char_shift(a: Seq<char>, b: Seq<char>, c: char, k: int)
    requires
        0 <= k <= b.len(),
    ensures
        find_from(a + b, c, a.len() + k) == a.len() + find_from(b, c, k),
    decreases b.len() - k,
{
    if k < b.len() && b[k] != c {
        lemma_char_shift(a, b, c, k + 1);
    }
}

/// A search for a character ends at the first one after what lacks it.
pub(crate) proof fn lemma_char_found(a: Seq<char>, b: Seq<char>, c: char, i: int)
    requires
        0 <= i <= a.len(),
        forall|k: int| i <= k < a.len() ==> a[k] != c,
        b.len() > 0,
        b[0] == c,
    ensures
        find_from(a + b, c, i) == a.len(),
    decreases a.len() - i,
{
    if i < a.len() {
        lemma_char_found(a, b, c, i + 1);
    }
}

pub(crate) proof fn lemma_lowered_joined(a: Seq<char>, b: Seq<char>)
    ensures
        ascii_lowered(a + b) == ascii_lowered(a) + ascii_lowered(b),
{
    assert(ascii_lowered(a + b) =~= ascii_lowered(a) + ascii_lowered(b));
}

/// What has no capitals stays as it is.
pub(crate) proof fn lemma_lowered_same(s: Seq<char>)
    requires
        forall|i: int| 0 <= i < s.len() ==> !('A' <= #[trigger] s[i] <= 'Z'),
    ensures
        ascii_lowered(s) == s,
{
    assert(ascii_lowered(s) =~= s);
}

} // verus!
