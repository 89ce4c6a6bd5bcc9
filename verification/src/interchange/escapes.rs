//! Escaped text is inert, and reading it gives the text back.

use crate::interchange::scan::{avoids, differs, lacks, lemma_char_found};
use crate::markup::{
    all_hex, attr_escape, attr_escaped, breaks_line, end_written, entity, entity_end, hex_number,
    hex_run_value, inner_text, reference, scalar, text_escape, text_escaped, text_written, unescaped,
    untagged,
};
use crate::table::{hex_char, hex_value};
use crate::text::{
    all_digits, ascii_lowered, decimal, digit, digit_char, digits_value, trim_end, trim_start,
    trimmed, whitespace, whole_number,
};
use vstd::prelude::*;

verus! {

// --------------------------------------------------------------- entities --

/// `e` is `c` itself or an entity for it.
spec fn decodes(e: Seq<char>, c: char) -> bool {
    ||| e == seq![c] && c != '&'
    ||| {
        &&& 2 < e.len() <= 12
        &&& e[0] == '&'
        &&& e.last() == ';'
        &&& forall|i: int| 0 <= i < e.len() - 1 ==> e[i] != ';'
        &&& entity(e.subrange(1, e.len() - 1)) == Some(c)
    }
}

proof fn lemma_decoded(e: Seq<char>, c: char, rest: Seq<char>)
    requires
        decodes(e, c),
    ensures
        unescaped(e + rest) == seq![c] + unescaped(rest),
{
    let s = e + rest;
    if e == seq![c] && c != '&' {
        assert(s.subrange(1, s.len() as int) =~= rest);
    } else {
        let n = e.len() as int;
        let front = e.subrange(0, n - 1);
        let back = seq![';'] + rest;
        assert(s =~= front + back);
        lemma_char_found(front, back, ';', 1);
        assert(entity_end(s) == n - 1);
        assert(s.subrange(1, n - 1) =~= e.subrange(1, n - 1));
        assert(s.subrange(n, s.len() as int) =~= rest);
    }
}

/// The four entities that escaping writes.
proof fn lemma_entities()
    ensures
        decodes("&amp;"@, '&'),
        decodes("&lt;"@, '<'),
        decodes("&gt;"@, '>'),
        decodes("&quot;"@, '"'),
{
    reveal_strlit("&amp;");
    reveal_strlit("&lt;");
    reveal_strlit("&gt;");
    reveal_strlit("&quot;");
    reveal_strlit("amp");
    reveal_strlit("lt");
    reveal_strlit("gt");
    reveal_strlit("quot");
    assert("&amp;"@.subrange(1, 4) =~= "amp"@);
    assert("&lt;"@.subrange(1, 3) =~= "lt"@);
    assert("&gt;"@.subrange(1, 3) =~= "gt"@);
    assert("&quot;"@.subrange(1, 5) =~= "quot"@);
    assert("amp"@.len() != "lt"@.len());
    assert("lt"@[0] != "gt"@[0]);
    assert("quot"@.len() != "amp"@.len());
    assert("quot"@.len() != "lt"@.len());
    assert("quot"@.len() != "gt"@.len());
    assert("gt"@.len() != "amp"@.len());
}

/// Digits read back.
pub(crate) proof fn lemma_decimal(n: nat)
    ensures
        decimal(n).len() > 0,
        all_digits(decimal(n)),
        digits_value(decimal(n)) == n,
    decreases n,
{
    let s = decimal(n);
    if n < 10 {
        assert(s.drop_last() =~= Seq::<char>::empty());
        assert(digits_value(s.drop_last()) == 0);
        assert(s.last() == digit_char(n as int));
    } else {
        lemma_decimal(n / 10);
        assert(s.drop_last() =~= decimal(n / 10));
        assert(s.last() == digit_char((n % 10) as int));
        assert forall|i: int| 0 <= i < s.len() implies digit(s[i]) by {
            if i < s.len() - 1 {
                assert(s[i] == decimal(n / 10)[i]);
            }
        }
    }
}

/// The number of a character is short.
proof fn lemma_short(n: nat)
    requires
        n < 10000000,
    ensures
        decimal(n).len() <= 7,
{
    reveal_with_fuel(decimal, 8);
}

/// Neither markup nor quotes nor whitespace.
spec fn harmless(s: Seq<char>) -> bool {
    &&& inert(s)
    &&& lacks(s, '\'')
    &&& forall|i: int| 0 <= i < s.len() ==> !whitespace(#[trigger] s[i])
}

/// A character by its number reads back as itself.
proof fn lemma_reference(c: char)
    ensures
        decodes(reference(c), c),
        harmless(reference(c)),
        reference(c).len() > 0,
        !whitespace(reference(c)[0]),
        !whitespace(reference(c).last()),
{
    let n = c as nat;
    let d = decimal(n);
    let e = reference(c);
    reveal_strlit("&#");
    reveal_strlit(";");
    reveal_strlit("amp");
    reveal_strlit("lt");
    reveal_strlit("gt");
    reveal_strlit("quot");
    reveal_strlit("apos");
    reveal_strlit("#39");
    reveal_strlit("nbsp");
    lemma_decimal(n);
    lemma_short(n);
    let name = e.subrange(1, e.len() - 1);
    assert(name =~= seq!['#'] + d);
    assert(name.subrange(1, name.len() as int) =~= d);
    assert(digit(d[0]));
    assert forall|i: int| 0 <= i < e.len() implies #[trigger] e[i] == '&' || e[i] == '#' || e[i]
        == ';' || digit(e[i]) by {
        if 2 <= i < e.len() - 1 {
            assert(e[i] == d[i - 2]);
        }
    }
    assert forall|i: int| 0 <= i < e.len() - 1 implies e[i] != ';' by {
        if i >= 2 {
            assert(e[i] == d[i - 2]);
        }
    }
    assert(name[0] == '#');
    assert(name != "amp"@ && name != "lt"@ && name != "gt"@ && name != "quot"@ && name != "apos"@
        && name != "nbsp"@);
    if name == "#39"@ {
        assert(d =~= seq!['3', '9']);
        assert(d.drop_last() =~= seq!['3']);
        assert(seq!['3'].drop_last() =~= Seq::<char>::empty());
        assert(digits_value(seq!['3'].drop_last()) == 0);
        assert(digits_value(seq!['3']) == 3);
        assert(digits_value(d) == 39);
    }
    assert(whole_number(d, u32::MAX as nat) == Some(n));
    assert(scalar(n) == Some(c));
}

/// An escaped attribute reads back as itself.
pub proof fn an_escaped_attribute_reads_back(s: Seq<char>)
    ensures
        unescaped(attr_escaped(s)) == s,
    decreases s.len(),
{
    if s.len() > 0 {
        let rest = s.subrange(1, s.len() as int);
        an_escaped_attribute_reads_back(rest);
        lemma_entities();
        lemma_reference(s[0]);
        lemma_decoded(attr_escape(s[0]), s[0], attr_escaped(rest));
        assert(seq![s[0]] + rest =~= s);
    }
}

/// Text without an ampersand holds no entity.
pub(crate) proof fn lemma_no_entity(s: Seq<char>)
    requires
        lacks(s, '&'),
    ensures
        unescaped(s) == s,
    decreases s.len(),
{
    if s.len() > 0 {
        let rest = s.subrange(1, s.len() as int);
        lemma_no_entity(rest);
        lemma_decoded(seq![s[0]], s[0], rest);
        assert(seq![s[0]] + rest =~= s);
    }
}

// ------------------------------------------------------------------- text --

/// Text with its markup characters as entities and its line breaks as they are.
spec fn entity_escape(c: char) -> Seq<char> {
    if c == '\n' {
        seq![c]
    } else {
        text_escape(c)
    }
}

spec fn entity_escaped(s: Seq<char>) -> Seq<char>
    decreases s.len(),
{
    if s.len() == 0 {
        Seq::empty()
    } else {
        entity_escape(s[0]) + entity_escaped(s.subrange(1, s.len() as int))
    }
}

/// Text outside a tag passes through.
proof fn lemma_passes(e: Seq<char>, rest: Seq<char>)
    requires
        lacks(e, '<'),
        lacks(e, '>'),
    ensures
        untagged(e + rest, false, Seq::empty()) == e + untagged(rest, false, Seq::empty()),
    decreases e.len(),
{
    let s = e + rest;
    if e.len() == 0 {
        assert(s =~= rest);
        assert(e + untagged(rest, false, Seq::empty()) =~= untagged(rest, false, Seq::empty()));
    } else {
        let tail = e.subrange(1, e.len() as int);
        lemma_passes(tail, rest);
        assert(s.subrange(1, s.len() as int) =~= tail + rest);
        assert(s[0] == e[0]);
        assert(seq![e[0]] + (tail + untagged(rest, false, Seq::empty())) =~= e + untagged(
            rest,
            false,
            Seq::empty(),
        ));
    }
}

/// A `<br>` is a line break.
proof fn lemma_break(rest: Seq<char>)
    ensures
        untagged("<br>"@ + rest, false, Seq::empty()) == seq!['\n'] + untagged(
            rest,
            false,
            Seq::empty(),
        ),
{
    reveal_strlit("<br>");
    reveal_strlit("br");
    let none = Seq::<char>::empty();
    let s0 = "<br>"@ + rest;
    let s1 = seq!['b', 'r', '>'] + rest;
    let s2 = seq!['r', '>'] + rest;
    let s3 = seq!['>'] + rest;
    assert(s0.subrange(1, s0.len() as int) =~= s1);
    assert(s1.subrange(1, s1.len() as int) =~= s2);
    assert(s2.subrange(1, s2.len() as int) =~= s3);
    assert(s3.subrange(1, s3.len() as int) =~= rest);
    let tag = none.push('b').push('r');
    assert(tag =~= "br"@);
    assert(trim_start(tag) == tag);
    assert(trim_end(tag) == tag);
    assert(ascii_lowered(tag) =~= "br"@);
    assert("br"@.subrange(0, 2) =~= "br"@);
    assert(breaks_line(tag));
    assert(untagged(s3, true, tag) == seq!['\n'] + untagged(rest, false, none));
    assert(untagged(s2, true, none.push('b')) == untagged(s3, true, tag));
    assert(untagged(s1, true, none) == untagged(s2, true, none.push('b')));
    assert(untagged(s0, false, none) == untagged(s1, true, none));
}

/// A text between tags, with `rest` behind it.
proof fn lemma_untagged(s: Seq<char>, rest: Seq<char>)
    ensures
        untagged(text_escaped(s) + rest, false, Seq::empty()) == entity_escaped(s) + untagged(
            rest,
            false,
            Seq::empty(),
        ),
    decreases s.len(),
{
    let none = Seq::<char>::empty();
    let after = untagged(rest, false, none);
    if s.len() == 0 {
        assert(text_escaped(s) + rest =~= rest);
        assert(entity_escaped(s) + after =~= after);
    } else {
        let tail = s.subrange(1, s.len() as int);
        let more = text_escaped(tail) + rest;
        lemma_untagged(tail, rest);
        assert(text_escaped(s) + rest =~= text_escape(s[0]) + more);
        if s[0] == '\n' {
            lemma_break(more);
        } else {
            reveal_strlit("&amp;");
            reveal_strlit("&lt;");
            reveal_strlit("&gt;");
            lemma_passes(text_escape(s[0]), more);
        }
        assert(entity_escape(s[0]) + (entity_escaped(tail) + after) =~= entity_escaped(s) + after);
    }
}

proof fn lemma_entities_decoded(s: Seq<char>, rest: Seq<char>)
    ensures
        unescaped(entity_escaped(s) + rest) == s + unescaped(rest),
    decreases s.len(),
{
    if s.len() == 0 {
        assert(entity_escaped(s) + rest =~= rest);
        assert(s + unescaped(rest) =~= unescaped(rest));
    } else {
        let tail = s.subrange(1, s.len() as int);
        lemma_entities_decoded(tail, rest);
        lemma_entities();
        lemma_decoded(entity_escape(s[0]), s[0], entity_escaped(tail) + rest);
        assert(entity_escaped(s) + rest =~= entity_escape(s[0]) + (entity_escaped(tail) + rest));
        assert(seq![s[0]] + (tail + unescaped(rest)) =~= s + unescaped(rest));
    }
}

proof fn lemma_escaped_last(s: Seq<char>)
    requires
        s.len() > 0,
    ensures
        entity_escaped(s) == entity_escaped(s.drop_last()) + entity_escape(s.last()),
    decreases s.len(),
{
    let rest = s.subrange(1, s.len() as int);
    if s.len() == 1 {
        assert(rest =~= Seq::<char>::empty());
        assert(s.drop_last() =~= Seq::<char>::empty());
        assert(entity_escaped(rest) == Seq::<char>::empty());
        assert(entity_escaped(s) =~= entity_escape(s[0]));
        assert(entity_escaped(s.drop_last()) + entity_escape(s.last()) =~= entity_escape(s[0]));
    } else {
        lemma_escaped_last(rest);
        assert(s.drop_last().subrange(1, s.len() - 1) =~= rest.drop_last());
        assert(entity_escaped(s) =~= entity_escaped(s.drop_last()) + entity_escape(s.last()));
    }
}

/// What is no whitespace is written without any at its ends.
proof fn lemma_escape_ends(c: char)
    requires
        !whitespace(c),
    ensures
        entity_escape(c).len() > 0,
        !whitespace(entity_escape(c)[0]),
        !whitespace(entity_escape(c).last()),
{
    reveal_strlit("&amp;");
    reveal_strlit("&lt;");
    reveal_strlit("&gt;");
}

/// Without its tags `w` is `u`, whatever comes behind it.
#[verifier::opaque]
spec fn strips(w: Seq<char>, u: Seq<char>) -> bool {
    forall|rest: Seq<char>|
        #![trigger untagged(w + rest, false, Seq::empty())]
        untagged(w + rest, false, Seq::empty()) == u + untagged(rest, false, Seq::empty())
}

/// `u` reads as `s`, whatever comes behind it.
#[verifier::opaque]
spec fn reads(u: Seq<char>, s: Seq<char>) -> bool {
    forall|rest: Seq<char>| #![trigger unescaped(u + rest)] unescaped(u + rest) == s + unescaped(rest)
}

/// `w` shows `u`, which has no whitespace at its end and reads as `s`.
spec fn shows(w: Seq<char>, u: Seq<char>, s: Seq<char>) -> bool {
    &&& strips(w, u)
    &&& reads(u, s)
    &&& u.len() > 0 ==> !whitespace(u.last())
}

proof fn lemma_shows_reference(c: char)
    ensures
        shows(reference(c), reference(c), seq![c]),
{
    reveal(strips);
    reveal(reads);
    let e = reference(c);
    lemma_reference(c);
    assert forall|rest: Seq<char>|
        #![trigger untagged(e + rest, false, Seq::empty())]
        untagged(e + rest, false, Seq::empty()) == e + untagged(rest, false, Seq::empty()) by {
        lemma_passes(e, rest);
    }
    assert forall|rest: Seq<char>|
        #![trigger unescaped(e + rest)]
        unescaped(e + rest) == seq![c] + unescaped(rest) by {
        lemma_decoded(e, c, rest);
    }
}

proof fn lemma_strips_joined(w: Seq<char>, u: Seq<char>, w1: Seq<char>, u1: Seq<char>)
    requires
        strips(w, u),
        strips(w1, u1),
    ensures
        strips(w + w1, u + u1),
{
    reveal(strips);
    let none = Seq::<char>::empty();
    assert forall|rest: Seq<char>|
        #![trigger untagged(w + w1 + rest, false, none)]
        untagged(w + w1 + rest, false, none) == u + u1 + untagged(rest, false, none) by {
        let more = w1 + rest;
        assert(w + w1 + rest =~= w + more);
        assert(untagged(w + more, false, none) == u + untagged(more, false, none));
        assert(u + (u1 + untagged(rest, false, none)) =~= u + u1 + untagged(rest, false, none));
    }
}

proof fn lemma_reads_joined(u: Seq<char>, s: Seq<char>, u1: Seq<char>, s1: Seq<char>)
    requires
        reads(u, s),
        reads(u1, s1),
    ensures
        reads(u + u1, s + s1),
{
    reveal(reads);
    assert forall|rest: Seq<char>|
        #![trigger unescaped(u + u1 + rest)]
        unescaped(u + u1 + rest) == s + s1 + unescaped(rest) by {
        let more = u1 + rest;
        assert(u + u1 + rest =~= u + more);
        assert(unescaped(u + more) == s + unescaped(more));
        assert(s + (s1 + unescaped(rest)) =~= s + s1 + unescaped(rest));
    }
}

proof fn lemma_shows_joined(
    w: Seq<char>,
    u: Seq<char>,
    s: Seq<char>,
    w1: Seq<char>,
    u1: Seq<char>,
    s1: Seq<char>,
)
    requires
        shows(w, u, s),
        shows(w1, u1, s1),
    ensures
        shows(w + w1, u + u1, s + s1),
{
    lemma_strips_joined(w, u, w1, u1);
    lemma_reads_joined(u, s, u1, s1);
    if (u + u1).len() > 0 {
        if u1.len() > 0 {
            assert((u + u1).last() == u1.last());
        } else {
            assert((u + u1).last() == u.last());
        }
    }
}

/// What the end of a text is written as, without its tags.
spec fn end_shown(s: Seq<char>) -> Seq<char>
    decreases s.len(),
{
    if s.len() > 0 && whitespace(s.last()) {
        end_shown(s.drop_last()) + reference(s.last())
    } else {
        entity_escaped(s)
    }
}

spec fn text_shown(s: Seq<char>) -> Seq<char>
    decreases s.len(),
{
    if s.len() > 0 && whitespace(s[0]) {
        reference(s[0]) + text_shown(s.subrange(1, s.len() as int))
    } else {
        end_shown(s)
    }
}

proof fn lemma_end_shown(s: Seq<char>)
    requires
        s.len() > 0 ==> !whitespace(s[0]),
    ensures
        shows(end_written(s), end_shown(s), s),
        end_shown(s).len() > 0 ==> !whitespace(end_shown(s)[0]),
    decreases s.len(),
{
    if s.len() > 0 && whitespace(s.last()) {
        let t = s.drop_last();
        let c = s.last();
        assert(t.len() > 0);
        assert(t[0] == s[0]);
        lemma_end_shown(t);
        lemma_shows_reference(c);
        lemma_reference(c);
        lemma_shows_joined(end_written(t), end_shown(t), t, reference(c), reference(c), seq![c]);
        assert(t + seq![c] =~= s);
        if end_shown(t).len() > 0 {
            assert(end_shown(s)[0] == end_shown(t)[0]);
        } else {
            assert(end_shown(s)[0] == reference(c)[0]);
        }
    } else {
        reveal(strips);
        reveal(reads);
        let none = Seq::<char>::empty();
        assert forall|rest: Seq<char>|
            #![trigger untagged(text_escaped(s) + rest, false, none)]
            untagged(text_escaped(s) + rest, false, none) == entity_escaped(s) + untagged(
                rest,
                false,
                none,
            ) by {
            lemma_untagged(s, rest);
        }
        assert forall|rest: Seq<char>|
            #![trigger unescaped(entity_escaped(s) + rest)]
            unescaped(entity_escaped(s) + rest) == s + unescaped(rest) by {
            lemma_entities_decoded(s, rest);
        }
        if s.len() > 0 {
            lemma_escape_ends(s[0]);
            lemma_escape_ends(s.last());
            lemma_escaped_last(s);
            assert(entity_escaped(s)[0] == entity_escape(s[0])[0]);
            assert(entity_escaped(s).last() == entity_escape(s.last()).last());
        }
    }
}

proof fn lemma_text_shown(s: Seq<char>)
    ensures
        shows(text_written(s), text_shown(s), s),
        text_shown(s).len() > 0 ==> !whitespace(text_shown(s)[0]),
    decreases s.len(),
{
    if s.len() > 0 && whitespace(s[0]) {
        let t = s.subrange(1, s.len() as int);
        let c = s[0];
        lemma_text_shown(t);
        lemma_shows_reference(c);
        lemma_reference(c);
        lemma_shows_joined(reference(c), reference(c), seq![c], text_written(t), text_shown(t), t);
        assert(seq![c] + t =~= s);
        assert(text_shown(s)[0] == reference(c)[0]);
    } else {
        lemma_end_shown(s);
    }
}

/// A cell's text reads back as itself, the whitespace at its ends too.
pub proof fn written_text_reads_back(s: Seq<char>)
    ensures
        inner_text(text_written(s)) == s,
{
    let none = Seq::<char>::empty();
    let u = text_shown(s);
    lemma_text_shown(s);
    reveal(strips);
    reveal(reads);
    assert(text_written(s) + none =~= text_written(s));
    assert(untagged(none, false, none) == none);
    assert(untagged(text_written(s) + none, false, none) == u + none);
    assert(u + none =~= u);
    assert(trimmed(u) == u);
    assert(unescaped(u + none) == s + unescaped(none));
    assert(unescaped(none) == none);
    assert(s + none =~= s);
}

// ------------------------------------------------------------------ inert --

/// No tag begins in `s` but line breaks.
pub open spec fn only_breaks(s: Seq<char>) -> bool {
    forall|k: int| 0 <= k < s.len() && #[trigger] s[k] == '<' ==> k + 1 < s.len() && s[k + 1] == 'b'
}

proof fn lemma_breaks_joined(a: Seq<char>, b: Seq<char>)
    requires
        only_breaks(a),
        only_breaks(b),
    ensures
        only_breaks(a + b),
{
    assert forall|k: int| 0 <= k < (a + b).len() && #[trigger] (a + b)[k] == '<' implies k + 1
        < (a + b).len() && (a + b)[k + 1] == 'b' by {
        if k < a.len() {
            assert(a[k] == '<');
            assert(a[k + 1] == 'b');
        } else {
            assert(b[k - a.len()] == '<');
            assert(b[k - a.len() + 1] == 'b');
        }
    }
}

proof fn lemma_end_only_breaks(s: Seq<char>)
    ensures
        only_breaks(end_written(s)),
    decreases s.len(),
{
    if s.len() > 0 && whitespace(s.last()) {
        lemma_end_only_breaks(s.drop_last());
        lemma_reference(s.last());
        lemma_breaks_joined(end_written(s.drop_last()), reference(s.last()));
    } else {
        lemma_escaped_only_breaks(s);
    }
}

pub(crate) proof fn lemma_text_only_breaks(s: Seq<char>)
    ensures
        only_breaks(text_written(s)),
    decreases s.len(),
{
    if s.len() > 0 && whitespace(s[0]) {
        lemma_text_only_breaks(s.subrange(1, s.len() as int));
        lemma_reference(s[0]);
        lemma_breaks_joined(reference(s[0]), text_written(s.subrange(1, s.len() as int)));
    } else {
        lemma_end_only_breaks(s);
    }
}

proof fn lemma_escaped_only_breaks(s: Seq<char>)
    ensures
        only_breaks(text_escaped(s)),
    decreases s.len(),
{
    if s.len() > 0 {
        let rest = s.subrange(1, s.len() as int);
        lemma_escaped_only_breaks(rest);
        reveal_strlit("&amp;");
        reveal_strlit("&lt;");
        reveal_strlit("&gt;");
        reveal_strlit("<br>");
        let a = text_escape(s[0]);
        let b = text_escaped(rest);
        assert forall|k: int| 0 <= k < (a + b).len() && #[trigger] (a + b)[k] == '<' implies k + 1
            < (a + b).len() && (a + b)[k + 1] == 'b' by {
            if k >= a.len() {
                assert(b[k - a.len()] == '<');
                assert(b[k - a.len() + 1] == 'b');
            }
        }
    }
}

/// Where no tag begins but line breaks, no other does.
pub(crate) proof fn lemma_only_breaks(s: Seq<char>, word: Seq<char>)
    requires
        only_breaks(s),
        word.len() >= 2,
        word[0] == '<',
        word[1] != 'b',
    ensures
        avoids(ascii_lowered(s), word),
{
    let low = ascii_lowered(s);
    assert forall|k: int| 0 <= k < low.len() implies #[trigger] differs(low, k, word) by {
        if s[k] == '<' {
            assert(low[k + 1] != word[1]);
        } else {
            assert(low[k + 0] != word[0]);
        }
    }
}

/// Nothing of `s` opens or closes a tag or ends a quoted attribute.
pub open spec fn inert(s: Seq<char>) -> bool {
    lacks(s, '<') && lacks(s, '>') && lacks(s, '"')
}

pub(crate) proof fn lemma_attr_inert(s: Seq<char>)
    ensures
        inert(attr_escaped(s)),
        lacks(attr_escaped(s), '\''),
        forall|i: int| 0 <= i < attr_escaped(s).len() ==> !whitespace(#[trigger] attr_escaped(s)[i]),
    decreases s.len(),
{
    if s.len() > 0 {
        let rest = attr_escaped(s.subrange(1, s.len() as int));
        lemma_attr_inert(s.subrange(1, s.len() as int));
        lemma_reference(s[0]);
        reveal_strlit("&amp;");
        reveal_strlit("&lt;");
        reveal_strlit("&gt;");
        reveal_strlit("&quot;");
        let e = attr_escape(s[0]);
        assert(harmless(e));
        assert forall|i: int| 0 <= i < (e + rest).len() implies !whitespace(
            #[trigger] (e + rest)[i],
        ) by {
            if i < e.len() {
                assert(!whitespace(e[i]));
            } else {
                assert(!whitespace(rest[i - e.len()]));
            }
        }
    }
}

/// An entity reads as the character that it names, wherever it stands: the named ones,
/// a character by its number, and one by two hexadecimal digits. A no-break space reads
/// as a space.
pub proof fn an_entity_reads_as_its_character(c: char, a: int, b: int, rest: Seq<char>)
    requires
        0 <= a < 16,
        0 <= b < 16,
    ensures
        unescaped("&amp;"@ + rest) == seq!['&'] + unescaped(rest),
        unescaped("&lt;"@ + rest) == seq!['<'] + unescaped(rest),
        unescaped("&gt;"@ + rest) == seq!['>'] + unescaped(rest),
        unescaped("&quot;"@ + rest) == seq!['"'] + unescaped(rest),
        unescaped("&apos;"@ + rest) == seq!['\''] + unescaped(rest),
        unescaped("&nbsp;"@ + rest) == seq![' '] + unescaped(rest),
        unescaped("&#"@ + decimal(c as nat) + ";"@ + rest) == seq![c] + unescaped(rest),
        unescaped(seq!['&', '#', 'x', hex_char(a), hex_char(b), ';'] + rest) == seq![(16 * a
            + b) as char] + unescaped(rest),
{
    lemma_entities();
    lemma_more_entities();
    lemma_decoded("&amp;"@, '&', rest);
    lemma_decoded("&lt;"@, '<', rest);
    lemma_decoded("&gt;"@, '>', rest);
    lemma_decoded("&quot;"@, '"', rest);
    lemma_decoded("&apos;"@, '\'', rest);
    lemma_decoded("&nbsp;"@, ' ', rest);
    lemma_reference(c);
    lemma_decoded(reference(c), c, rest);
    lemma_hex_entity(a, b);
    lemma_decoded(seq!['&', '#', 'x', hex_char(a), hex_char(b), ';'], (16 * a + b) as char, rest);
}

proof fn lemma_more_entities()
    ensures
        decodes("&apos;"@, '\''),
        decodes("&nbsp;"@, ' '),
{
    reveal_strlit("&apos;");
    reveal_strlit("&nbsp;");
    reveal_strlit("amp");
    reveal_strlit("lt");
    reveal_strlit("gt");
    reveal_strlit("quot");
    reveal_strlit("apos");
    reveal_strlit("#39");
    reveal_strlit("nbsp");
    assert("&apos;"@.subrange(1, 5) =~= "apos"@);
    assert("&nbsp;"@.subrange(1, 5) =~= "nbsp"@);
    assert("apos"@[0] != "quot"@[0]);
    assert("nbsp"@[0] != "quot"@[0]);
    assert("nbsp"@[0] != "apos"@[0]);
    assert("apos"@.len() == 4 && "nbsp"@.len() == 4);
    assert("#39"@.len() == 3 && "amp"@.len() == 3 && "lt"@.len() == 2 && "gt"@.len() == 2);
}

proof fn lemma_hex_entity(a: int, b: int)
    requires
        0 <= a < 16,
        0 <= b < 16,
    ensures
        decodes(seq!['&', '#', 'x', hex_char(a), hex_char(b), ';'], (16 * a + b) as char),
{
    let e = seq!['&', '#', 'x', hex_char(a), hex_char(b), ';'];
    let name = e.subrange(1, 5);
    let body = seq![hex_char(a), hex_char(b)];
    reveal_strlit("amp");
    reveal_strlit("lt");
    reveal_strlit("gt");
    reveal_strlit("quot");
    reveal_strlit("apos");
    reveal_strlit("#39");
    reveal_strlit("nbsp");
    assert(name[0] == '#');
    assert(name.len() == 4);
    let d = name.subrange(1, 4);
    assert(d[0] == 'x');
    assert(d.subrange(1, 3) =~= body);
    assert(hex_value(hex_char(a)) == Some(a as u8));
    assert(hex_value(hex_char(b)) == Some(b as u8));
    assert(body.drop_last() =~= seq![hex_char(a)]);
    assert(seq![hex_char(a)].drop_last() =~= Seq::<char>::empty());
    assert(hex_run_value(Seq::<char>::empty()) == 0);
    assert(seq![hex_char(a)].last() == hex_char(a));
    assert(hex_run_value(seq![hex_char(a)]) == a);
    assert(body.last() == hex_char(b));
    assert(hex_run_value(body) == 16 * a + b);
    assert(all_hex(body));
    assert(body[0] != '+');
    assert(hex_number(body) == Some((16 * a + b) as nat));
}

proof fn lemma_inside(tag: Seq<char>, rest: Seq<char>, had: Seq<char>)
    requires
        forall|i: int| 0 <= i < tag.len() ==> #[trigger] tag[i] != '<' && tag[i] != '>',
    ensures
        untagged(tag + seq!['>'] + rest, true, had) == untagged(
            seq!['>'] + rest,
            true,
            had + tag,
        ),
    decreases tag.len(),
{
    let s = tag + seq!['>'] + rest;
    if tag.len() == 0 {
        assert(s =~= seq!['>'] + rest);
        assert(had + tag =~= had);
    } else {
        let t = tag.subrange(1, tag.len() as int);
        assert(s.subrange(1, s.len() as int) =~= t + seq!['>'] + rest);
        assert(s[0] == tag[0]);
        lemma_inside(t, rest, had.push(tag[0]));
        assert(had.push(tag[0]) + t =~= had + tag);
    }
}

/// Text is kept and a tag behind it dropped, leaving a line break where it is one that
/// ends a line; what follows is dealt with in turn.
pub proof fn a_tag_is_dropped_and_text_kept(text: Seq<char>, tag: Seq<char>, rest: Seq<char>)
    requires
        forall|i: int| 0 <= i < text.len() ==> #[trigger] text[i] != '<',
        forall|i: int| 0 <= i < tag.len() ==> #[trigger] tag[i] != '<' && tag[i] != '>',
    ensures
        untagged(text + seq!['<'] + tag + seq!['>'] + rest, false, Seq::empty()) == text + (
        if breaks_line(tag) {
            seq!['\n']
        } else {
            Seq::empty()
        }) + untagged(rest, false, Seq::empty()),
    decreases text.len(),
{
    let none = Seq::<char>::empty();
    let s = text + seq!['<'] + tag + seq!['>'] + rest;
    let after = untagged(rest, false, none);
    let gap = if breaks_line(tag) {
        seq!['\n']
    } else {
        none
    };
    if text.len() == 0 {
        let inside = tag + seq!['>'] + rest;
        assert(s.subrange(1, s.len() as int) =~= inside);
        lemma_inside(tag, rest, none);
        assert(none + tag =~= tag);
        let close = seq!['>'] + rest;
        assert(close.subrange(1, close.len() as int) =~= rest);
        assert(text + gap + after =~= gap + after);
        assert(none + after =~= after);
    } else {
        let t = text.subrange(1, text.len() as int);
        assert(s.subrange(1, s.len() as int) =~= t + seq!['<'] + tag + seq!['>'] + rest);
        assert(s[0] == text[0]);
        a_tag_is_dropped_and_text_kept(t, tag, rest);
        assert(seq![text[0]] + (t + gap + after) =~= text + gap + after);
    }
}

/// The tags that end a line are a break and the end of a paragraph or a division.
pub proof fn three_tags_end_a_line(tag: Seq<char>)
    requires
        trimmed(tag) == tag,
    ensures
        ascii_lowered(tag) == "br"@ || ascii_lowered(tag) == "/p"@ || ascii_lowered(tag)
            == "/div"@ ==> breaks_line(tag),
        ascii_lowered(tag) == "b"@ || ascii_lowered(tag) == "p"@ || ascii_lowered(tag) == "div"@
            || ascii_lowered(tag) == "td"@ || ascii_lowered(tag) == "/td"@ || ascii_lowered(tag)
            == "span"@ ==> !breaks_line(tag),
{
    reveal_strlit("br");
    reveal_strlit("/p");
    reveal_strlit("/div");
    reveal_strlit("b");
    reveal_strlit("p");
    reveal_strlit("div");
    reveal_strlit("td");
    reveal_strlit("/td");
    reveal_strlit("span");
    let t = ascii_lowered(tag);
    assert(t.subrange(0, t.len() as int) =~= t);
    if t.len() >= 2 {
        assert(t.subrange(0, 2)[0] == t[0] && t.subrange(0, 2)[1] == t[1]);
    }
}

} // verus!
