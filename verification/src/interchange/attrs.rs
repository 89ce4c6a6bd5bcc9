//! Attributes of a tag that is put together from pieces.

use crate::interchange::escapes::lemma_attr_inert;
use crate::interchange::scan::{
    differs, lacks, lemma_char_found, lemma_differs, lemma_find_word, lemma_lowered_joined,
};
use crate::markup::{attr_escaped, attr_from, attr_value, value_at};
use crate::text::{ascii_lowered, find_word, has_at, whitespace};
use vstd::prelude::*;

verus! {

/// The attribute `needle`, an `=` at its end, is spelled nowhere in `s` behind
/// whitespace, whatever comes after.
#[verifier::opaque]
pub open spec fn calm(s: Seq<char>, needle: Seq<char>) -> bool {
    forall|k: int|
        0 <= k < s.len() && whitespace(#[trigger] s[k]) ==> differs(
            ascii_lowered(s),
            k + 1,
            needle,
        )
}

pub(crate) proof fn lemma_calm_joined(a: Seq<char>, b: Seq<char>, needle: Seq<char>)
    requires
        calm(a, needle),
        calm(b, needle),
    ensures
        calm(a + b, needle),
{
    reveal(calm);
    lemma_lowered_joined(a, b);
    let la = ascii_lowered(a);
    let lb = ascii_lowered(b);
    assert forall|k: int| 0 <= k < (a + b).len() && whitespace(#[trigger] (a + b)[k]) implies differs(
        ascii_lowered(a + b),
        k + 1,
        needle,
    ) by {
        if k < a.len() {
            assert(whitespace(a[k]));
            lemma_differs(la, k + 1, needle);
            assert(differs(la + lb, k + 1, needle));
        } else {
            assert(whitespace(b[k - a.len()]));
            lemma_differs(lb, k - a.len() + 1, needle);
            assert(differs(la + lb, la.len() + (k - a.len() + 1), needle));
        }
    }
}

/// What has no whitespace spells no attribute behind it.
pub(crate) proof fn lemma_calm_solid(s: Seq<char>, needle: Seq<char>)
    requires
        forall|i: int| 0 <= i < s.len() ==> !whitespace(#[trigger] s[i]),
    ensures
        calm(s, needle),
{
    reveal(calm);
}

/// Whitespace is only ever followed by an `l`.
pub open spec fn mild(s: Seq<char>) -> bool {
    forall|k: int|
        0 <= k < s.len() && whitespace(#[trigger] s[k]) ==> k + 1 < s.len() && s[k + 1] == 'l'
}

pub(crate) proof fn lemma_calm_mild(s: Seq<char>, needle: Seq<char>)
    requires
        mild(s),
        needle.len() > 0,
        needle[0] != 'l',
    ensures
        calm(s, needle),
{
    reveal(calm);
    let low = ascii_lowered(s);
    assert forall|k: int| 0 <= k < s.len() && whitespace(#[trigger] s[k]) implies differs(
        low,
        k + 1,
        needle,
    ) by {
        assert(low[k + 1 + 0] != needle[0]);
    }
}

/// An attribute's name as it is written: neither capitals nor markup, and an `=` only
/// at its end.
pub open spec fn spelling(needle: Seq<char>) -> bool {
    &&& needle.len() > 1
    &&& needle.last() == '='
    &&& forall|i: int|
        0 <= i < needle.len() ==> {
            let c = #[trigger] needle[i];
            &&& !('A' <= c <= 'Z')
            &&& c != '&' && c != '<' && c != '>' && c != '"' && c != '\''
            &&& !whitespace(c)
        }
    &&& forall|i: int| 0 <= i < needle.len() - 1 ==> #[trigger] needle[i] != '='
}

/// An escaped and quoted field spells no attribute.
pub(crate) proof fn lemma_field_calm(field: Seq<char>, needle: Seq<char>, quote: char)
    requires
        quote == '"' || quote == '\'',
    ensures
        calm(attr_escaped(field).push(quote), needle),
{
    let e = attr_escaped(field).push(quote);
    lemma_attr_inert(field);
    assert forall|i: int| 0 <= i < e.len() implies !whitespace(#[trigger] e[i]) by {
        if i < e.len() - 1 {
            assert(e[i] == attr_escaped(field)[i]);
        }
    }
    lemma_calm_solid(e, needle);
}

// ---------------------------------------------------------------- reading --

/// An attribute that a tag nowhere spells is not there.
pub(crate) proof fn lemma_no_attr(tag: Seq<char>, needle: Seq<char>, from: int)
    requires
        needle.len() > 0,
        tag.len() > 0 ==> tag[0] == '<',
        needle[0] != '<',
        calm(tag, needle),
        0 <= from <= tag.len(),
    ensures
        attr_from(tag, needle, from) is None,
    decreases tag.len() - from,
{
    reveal(calm);
    let low = ascii_lowered(tag);
    let at = find_word(low, needle, from);
    lemma_find_word(low, needle, from);
    if at < tag.len() {
        assert(low.subrange(at, at + needle.len())[0] == needle[0]);
        assert(at != 0);
        if whitespace(tag[at - 1]) {
            lemma_differs(low, at - 1 + 1, needle);
        }
        if at + needle.len() <= tag.len() {
            lemma_no_attr(tag, needle, at + needle.len());
        }
    }
}

/// The first place where a tag spells an attribute gives its value.
proof fn lemma_attr_at(tag: Seq<char>, needle: Seq<char>, p: int, from: int)
    requires
        spelling(needle),
        0 <= from <= p,
        0 < p < tag.len(),
        tag[0] == '<',
        whitespace(tag[p - 1]),
        has_at(ascii_lowered(tag), p, needle),
        forall|k: int|
            0 <= k < p - 1 && whitespace(#[trigger] tag[k]) ==> differs(
                ascii_lowered(tag),
                k + 1,
                needle,
            ),
    ensures
        attr_from(tag, needle, from) == Some(value_at(tag, p + needle.len())),
    decreases tag.len() - from,
{
    let low = ascii_lowered(tag);
    let n = needle.len() as int;
    let at = find_word(low, needle, from);
    lemma_find_word(low, needle, from);
    assert(at <= p);
    if at < p {
        assert(low.subrange(at, at + n)[0] == needle[0]);
        assert(at != 0);
        if whitespace(tag[at - 1]) {
            lemma_differs(low, at - 1 + 1, needle);
        }
        if at + n > p {
            // Both would hold the same `=`.
            assert(low.subrange(at, at + n)[n - 1] == needle[n - 1]);
            assert(low.subrange(p, p + n)[at + n - 1 - p] == needle[at + n - 1 - p]);
            assert(false);
        }
        lemma_attr_at(tag, needle, p, at + n);
    }
}

/// A quoted attribute reads back.
pub(crate) proof fn lemma_read_attr(
    pre: Seq<char>,
    name: Seq<char>,
    val: Seq<char>,
    post: Seq<char>,
)
    requires
        pre.len() > 0,
        pre[0] == '<',
        spelling(name.push('=')),
        calm(pre, name.push('=')),
        lacks(val, '"'),
    ensures
        attr_value(pre + seq![' '] + name + seq!['=', '"'] + val + seq!['"'] + post, name) == Some(
            val,
        ),
{
    reveal(calm);
    let needle = name.push('=');
    let tag = pre + seq![' '] + name + seq!['=', '"'] + val + seq!['"'] + post;
    let low = ascii_lowered(tag);
    let p = pre.len() as int + 1;
    let n = needle.len() as int;
    assert(low.subrange(p, p + n) =~= needle) by {
        assert forall|i: int| 0 <= i < n implies low.subrange(p, p + n)[i] == needle[i] by {
            assert(tag[p + i] == needle[i]);
        }
    }
    let lp = ascii_lowered(pre);
    let rest = seq![' '] + name + seq!['=', '"'] + val + seq!['"'] + post;
    assert(tag =~= pre + rest);
    lemma_lowered_joined(pre, rest);
    assert forall|k: int| 0 <= k < p - 1 && whitespace(#[trigger] tag[k]) implies differs(
        low,
        k + 1,
        needle,
    ) by {
        assert(whitespace(pre[k]));
        lemma_differs(lp, k + 1, needle);
        assert(differs(lp + ascii_lowered(rest), k + 1, needle));
    }
    lemma_attr_at(tag, needle, p, 0);
    let v = p + n;
    assert(tag[v] == '"');
    let front = pre + seq![' '] + name + seq!['=', '"'] + val;
    let back = seq!['"'] + post;
    assert(tag =~= front + back);
    assert forall|k: int| v + 1 <= k < front.len() implies front[k] != '"' by {
        assert(front[k] == val[k - (v + 1)]);
    }
    lemma_char_found(front, back, '"', v + 1);
    assert(tag.subrange(v + 1, front.len() as int) =~= val);
}

} // verus!
