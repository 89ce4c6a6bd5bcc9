//! Style declarations that are put together from pieces.

use crate::interchange::escapes::{lemma_attr_inert, lemma_no_entity};
use crate::interchange::scan::{lacks, lemma_char_found, lemma_lowered_same};
use crate::markup::{attr_escaped, declarations_from, declared, unescaped};
use crate::spelled::{lemma_rules_join, rules_text};
use crate::text::{trimmed, whitespace};
use vstd::prelude::*;

verus! {

// -------------------------------------------------------------- splitting --

/// The quote that is open after `c`.
pub open spec fn quote_after(quote: Option<char>, c: char) -> Option<char> {
    if (c == '\'' || c == '"') && quote == Some(c) {
        None
    } else if (c == '\'' || c == '"') && quote is None {
        Some(c)
    } else {
        quote
    }
}

/// The quote that is open after `s`, or nothing if `s` ends a declaration.
pub open spec fn settled(s: Seq<char>, quote: Option<char>) -> Option<Option<char>>
    decreases s.len(),
{
    if s.len() == 0 {
        Some(quote)
    } else if s[0] == ';' && quote is None {
        None
    } else {
        settled(s.subrange(1, s.len() as int), quote_after(quote, s[0]))
    }
}

/// What ends no declaration stays in one.
proof fn lemma_run(a: Seq<char>, rest: Seq<char>, quote: Option<char>, cur: Seq<char>)
    requires
        settled(a, quote) is Some,
    ensures
        declarations_from(a + rest, quote, cur) == declarations_from(
            rest,
            settled(a, quote)->0,
            cur + a,
        ),
    decreases a.len(),
{
    if a.len() == 0 {
        assert(a + rest =~= rest);
        assert(cur + a =~= cur);
    } else {
        let s = a + rest;
        let tail = a.subrange(1, a.len() as int);
        assert(s.subrange(1, s.len() as int) =~= tail + rest);
        lemma_run(tail, rest, quote_after(quote, a[0]), cur.push(a[0]));
        assert(cur.push(a[0]) + tail =~= cur + a);
    }
}

proof fn lemma_settled_joined(a: Seq<char>, b: Seq<char>, quote: Option<char>)
    requires
        settled(a, quote) is Some,
    ensures
        settled(a + b, quote) == settled(b, settled(a, quote)->0),
    decreases a.len(),
{
    if a.len() == 0 {
        assert(a + b =~= b);
    } else {
        let s = a + b;
        let tail = a.subrange(1, a.len() as int);
        assert(s.subrange(1, s.len() as int) =~= tail + b);
        lemma_settled_joined(tail, b, quote_after(quote, a[0]));
    }
}

/// Neither a quote nor the end of a declaration.
pub open spec fn one_piece(s: Seq<char>) -> bool {
    lacks(s, ';') && lacks(s, '\'') && lacks(s, '"')
}

proof fn lemma_settled_piece(s: Seq<char>)
    requires
        one_piece(s),
    ensures
        settled(s, None) == Some(None::<char>),
    decreases s.len(),
{
    if s.len() > 0 {
        lemma_settled_piece(s.subrange(1, s.len() as int));
    }
}

proof fn lemma_settled_quoted(s: Seq<char>)
    requires
        lacks(s, '\''),
    ensures
        settled(s, Some('\'')) == Some(Some('\'')),
    decreases s.len(),
{
    if s.len() > 0 {
        lemma_settled_quoted(s.subrange(1, s.len() as int));
    }
}

/// A number format code in apostrophes stays in one declaration, however many
/// sections and apostrophes it has.
pub proof fn a_code_is_one_declaration(code: Seq<char>)
    ensures
        settled(seq!['\''] + attr_escaped(code) + seq!['\''], None) == Some(None::<char>),
{
    let e = attr_escaped(code);
    let open = seq!['\''];
    lemma_attr_inert(code);
    lemma_settled_quoted(e);
    assert(open.subrange(1, 1) =~= Seq::<char>::empty());
    assert(settled(open.subrange(1, 1), Some('\'')) == Some(Some('\'')));
    assert(settled(open, None) == Some(Some('\'')));
    lemma_settled_joined(open, e, None);
    lemma_settled_joined(open + e, open, None);
    assert(settled(open.subrange(1, 1), None) == Some(None::<char>));
    assert(settled(open, Some('\'')) == Some(None::<char>));
}

/// Rules behind a separator each are declarations of their own.
proof fn lemma_split(rules: Seq<Seq<char>>, cur: Seq<char>)
    requires
        forall|i: int| 0 <= i < rules.len() ==> one_piece(#[trigger] rules[i]),
    ensures
        declarations_from(rules_text(rules, true), None, cur) == seq![cur] + rules,
    decreases rules.len(),
{
    if rules.len() == 0 {
        assert(seq![cur] + rules =~= seq![cur]);
    } else {
        let r = rules[0];
        let one = seq![r];
        let more = rules.subrange(1, rules.len() as int);
        assert(one + more =~= rules);
        lemma_rules_join(one, more, true);
        assert(one.drop_last() =~= Seq::<Seq<char>>::empty());
        assert(rules_text(one.drop_last(), true) == Seq::<char>::empty());
        assert(rules_text(one, true) =~= seq![';'] + r);
        let tail = rules_text(more, true);
        let s = rules_text(rules, true);
        assert(s =~= seq![';'] + (r + tail));
        assert(s.subrange(1, s.len() as int) =~= r + tail);
        lemma_settled_piece(r);
        lemma_run(r, tail, None, Seq::empty());
        assert(Seq::<char>::empty() + r =~= r);
        assert forall|i: int| 0 <= i < more.len() implies one_piece(#[trigger] more[i]) by {
            assert(more[i] == rules[i + 1]);
        }
        lemma_split(more, r);
        assert(seq![cur] + (seq![r] + more) =~= seq![cur] + rules);
    }
}

/// A style that begins with a declaration that stays in one piece.
pub(crate) proof fn lemma_split_after(first: Seq<char>, rules: Seq<Seq<char>>)
    requires
        settled(first, None) == Some(None::<char>),
        forall|i: int| 0 <= i < rules.len() ==> one_piece(#[trigger] rules[i]),
    ensures
        declarations_from(first + rules_text(rules, true), None, Seq::empty()) == seq![first]
            + rules,
{
    lemma_run(first, rules_text(rules, true), None, Seq::empty());
    assert(Seq::<char>::empty() + first =~= first);
    lemma_split(rules, first);
}

/// A style that is made of rules alone.
pub(crate) proof fn lemma_split_rules(rules: Seq<Seq<char>>)
    requires
        rules.len() > 0,
        forall|i: int| 0 <= i < rules.len() ==> one_piece(#[trigger] rules[i]),
    ensures
        declarations_from(rules_text(rules, false), None, Seq::empty()) == rules,
{
    let r = rules[0];
    let one = seq![r];
    let more = rules.subrange(1, rules.len() as int);
    assert(one + more =~= rules);
    lemma_rules_join(one, more, false);
    assert(one.drop_last() =~= Seq::<Seq<char>>::empty());
    assert(rules_text(one.drop_last(), false) == Seq::<char>::empty());
    assert(rules_text(one, false) =~= r);
    assert forall|i: int| 0 <= i < more.len() implies one_piece(#[trigger] more[i]) by {
        assert(more[i] == rules[i + 1]);
    }
    lemma_settled_piece(r);
    lemma_split_after(r, more);
}

// ---------------------------------------------------------------- reading --

pub open spec fn first_of(a: Option<Seq<char>>, b: Option<Seq<char>>) -> Option<Seq<char>> {
    match a {
        Some(_) => a,
        None => b,
    }
}

pub(crate) proof fn lemma_declared_joined(a: Seq<Seq<char>>, b: Seq<Seq<char>>, prop: Seq<char>)
    ensures
        declared(a + b, prop) == first_of(declared(a, prop), declared(b, prop)),
    decreases a.len(),
{
    if a.len() == 0 {
        assert(a + b =~= b);
    } else {
        let tail = a.subrange(1, a.len() as int);
        assert((a + b).subrange(1, (a + b).len() as int) =~= tail + b);
        lemma_declared_joined(tail, b, prop);
    }
}

/// Neither end is whitespace.
pub open spec fn snug(s: Seq<char>) -> bool {
    s.len() > 0 ==> !whitespace(s[0]) && !whitespace(s.last())
}

pub(crate) proof fn lemma_snug(s: Seq<char>)
    requires
        snug(s),
    ensures
        trimmed(s) == s,
{
}

/// A property name as it is written.
pub open spec fn property(name: Seq<char>) -> bool {
    &&& snug(name)
    &&& lacks(name, ':')
    &&& forall|i: int| 0 <= i < name.len() ==> !('A' <= #[trigger] name[i] <= 'Z')
}

/// What one declaration says of a property.
pub(crate) proof fn lemma_one_declared(name: Seq<char>, value: Seq<char>, prop: Seq<char>)
    requires
        property(name),
    ensures
        declared(seq![name + seq![':'] + value], prop) == if name == prop {
            Some(unescaped(trimmed(value)))
        } else {
            None
        },
{
    let d = name + seq![':'] + value;
    let ds = seq![d];
    let back = seq![':'] + value;
    assert(d =~= name + back);
    lemma_char_found(name, back, ':', 0);
    assert(d.subrange(0, name.len() as int) =~= name);
    assert(d.subrange(name.len() as int + 1, d.len() as int) =~= value);
    lemma_snug(name);
    lemma_lowered_same(name);
    assert(ds.subrange(1, 1) =~= Seq::<Seq<char>>::empty());
    assert(declared(ds.subrange(1, 1), prop) is None);
}

/// A rule with a plain value says that value.
pub(crate) proof fn lemma_rule_declared(name: Seq<char>, value: Seq<char>, prop: Seq<char>)
    requires
        property(name),
        snug(value),
        lacks(value, '&'),
    ensures
        declared(seq![name + seq![':'] + value], prop) == if name == prop {
            Some(value)
        } else {
            None
        },
{
    lemma_one_declared(name, value, prop);
    lemma_snug(value);
    lemma_no_entity(value);
}

} // verus!
