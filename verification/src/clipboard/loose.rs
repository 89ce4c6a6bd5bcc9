//! How a number that looks like one in a spreadsheet is read.
//!
//! Percent signs, parentheses, currency signs and separators each add one thing to the
//! number they stand at. These laws say which, whatever the number is.

use crate::clipboard::{
    bare_number, html_like, loose_number, LengthReader, LooseView, SNIFF_CHARS,
};
use crate::format::clamped_pt;
use crate::interchange::scan::lemma_find_word;
use crate::interchange::styles::{lemma_snug, snug};
use crate::spelled::{LengthView, WidthText};
use crate::text::{
    ascii_lower, ascii_lowered, digit, find_word, float_literal, has_at, trim_end, trim_start, trimmed,
    whitespace,
};
use crate::value::F32;
use vstd::prelude::*;

verus! {

/// Stands in parentheses.
pub open spec fn enclosed(t: Seq<char>) -> bool {
    t.len() >= 2 && t[0] == '(' && t.last() == ')'
}

/// A percent sign behind a number makes a percentage of it and changes nothing else.
pub proof fn a_percent_sign_makes_a_percentage(t: Seq<char>)
    requires
        snug(t) && t.len() > 0,
        t[0] != '(',
        t.last() != '%',
    ensures
        loose_number(t.push('%')) == match loose_number(t) {
            Some(n) => Some(LooseView { percent: true, ..n }),
            None => None,
        },
        loose_number(t) is Some ==> !loose_number(t)->0.percent,
{
    let p = t.push('%');
    lemma_snug(t);
    assert(snug(p));
    lemma_snug(p);
    assert(p.drop_last() =~= t);
}

/// Parentheses round a number make it negative and change nothing else.
pub proof fn parentheses_make_a_number_negative(t: Seq<char>)
    requires
        snug(t) && t.len() > 0,
        !enclosed(t),
    ensures
        loose_number(seq!['('] + t + seq![')']) == match loose_number(t) {
            Some(n) => Some(LooseView { negative: true, ..n }),
            None => None,
        },
        loose_number(t) is Some ==> !loose_number(t)->0.negative,
{
    let p = seq!['('] + t + seq![')'];
    lemma_snug(t);
    assert(snug(p));
    lemma_snug(p);
    assert(p.subrange(1, p.len() - 1) =~= t);
}

/// A sign that means nothing to a number, a currency's for one, may stand in front.
pub proof fn a_currency_sign_in_front_is_passed_over(c: char, t: Seq<char>)
    requires
        snug(t) && t.len() > 0,
        t[0] != '(',
        snug(seq![c]),
        !digit(c) && c != '.' && c != '-' && c != '+' && c != ',' && c != '(',
    ensures
        loose_number(seq![c] + t) == loose_number(t),
{
    let p = seq![c] + t;
    lemma_snug(t);
    assert(snug(p));
    lemma_snug(p);
    if t.last() == '%' {
        let u = t.drop_last();
        let q = p.drop_last();
        assert(q =~= seq![c] + u);
        lemma_front(c, u);
    } else {
        assert(p.subrange(1, p.len() as int) =~= t);
        assert(bare_number(p, Seq::empty()) == bare_number(t, Seq::empty()));
    }
}

/// What stands behind the sign in front is read the same when space is trimmed.
proof fn lemma_front(c: char, u: Seq<char>)
    requires
        u.len() > 0 ==> !whitespace(u[0]),
        snug(seq![c]),
        !digit(c) && c != '.' && c != '-' && c != '+' && c != ',',
    ensures
        bare_number(trimmed(seq![c] + u), Seq::empty()) == bare_number(
            trimmed(u),
            Seq::empty(),
        ),
{
    let e = trim_end(u);
    lemma_trim_end(c, u);
    assert(trim_start(u) == u);
    let q = seq![c] + u;
    assert(q[0] == c && seq![c][0] == c);
    assert(trim_start(q) == q);
    let p = seq![c] + e;
    assert(p.subrange(1, p.len() as int) =~= e);
}

proof fn lemma_trim_end(c: char, u: Seq<char>)
    requires
        snug(seq![c]),
    ensures
        trim_end(seq![c] + u) == seq![c] + trim_end(u),
    decreases u.len(),
{
    let p = seq![c] + u;
    assert(seq![c][0] == c);
    if u.len() > 0 {
        assert(p.last() == u.last());
        assert(p.drop_last() =~= seq![c] + u.drop_last());
        lemma_trim_end(c, u.drop_last());
    } else {
        assert(p =~= seq![c]);
        assert(seq![c] + trim_end(u) =~= seq![c]);
    }
}

/// What separates groups of digits.
pub open spec fn separator(c: char) -> bool {
    c == ',' || c == ' ' || c == '\u{a0}' || c == '\u{2009}'
}

proof fn lemma_separated(a: Seq<char>, c: char, b: Seq<char>, kept: Seq<char>)
    requires
        separator(c),
    ensures
        bare_number(a + seq![c] + b, kept) == bare_number(a + b, kept),
    decreases a.len(),
{
    let s = a + seq![c] + b;
    let t = a + b;
    if a.len() == 0 {
        assert(s.subrange(1, s.len() as int) =~= b);
        assert(t =~= b);
    } else {
        let d = a.subrange(1, a.len() as int);
        assert(s.subrange(1, s.len() as int) =~= d + seq![c] + b);
        assert(t.subrange(1, t.len() as int) =~= d + b);
        lemma_separated(d, c, b, kept.push(a[0]));
        lemma_separated(d, c, b, kept);
    }
}

/// A separator between two parts of a number is as good as none.
pub proof fn separators_are_passed_over(a: Seq<char>, c: char, b: Seq<char>)
    requires
        snug(a) && a.len() > 0,
        snug(b) && b.len() > 0,
        separator(c),
        a[0] != '(',
        b.last() != '%',
    ensures
        loose_number(a + seq![c] + b) == loose_number(a + b),
{
    let s = a + seq![c] + b;
    let t = a + b;
    assert(snug(s) && snug(t));
    lemma_snug(s);
    lemma_snug(t);
    lemma_separated(a, c, b, Seq::empty());
}

proof fn lemma_kept(t: Seq<char>, kept: Seq<char>)
    requires
        forall|i: int| 0 <= i < t.len() ==> digit(#[trigger] t[i]) || t[i] == '.',
    ensures
        bare_number(t, kept) == Some(kept + t),
    decreases t.len(),
{
    if t.len() == 0 {
        assert(kept + t =~= kept);
    } else {
        let rest = t.subrange(1, t.len() as int);
        lemma_kept(rest, kept.push(t[0]));
        assert(kept.push(t[0]) + rest =~= kept + t);
    }
}

/// A number of digits and a point, with or without a sign in front, is read as it
/// stands, where it is a number at all.
pub proof fn a_plain_number_is_read_as_it_stands(sign: Seq<char>, t: Seq<char>)
    requires
        sign.len() == 0 || sign == seq!['-'] || sign == seq!['+'],
        t.len() > 0,
        forall|i: int| 0 <= i < t.len() ==> digit(#[trigger] t[i]) || t[i] == '.',
    ensures
        loose_number(sign + t) == if float_literal(sign + t) {
            Some(LooseView { digits: sign + t, percent: false, negative: false })
        } else {
            None
        },
{
    let s = sign + t;
    assert(digit(t[0]) || t[0] == '.');
    assert(digit(t[t.len() - 1]) || t[t.len() - 1] == '.');
    assert(s.last() == t[t.len() - 1]);
    assert(snug(s));
    lemma_snug(s);
    if sign.len() == 0 {
        assert(s =~= t);
        lemma_kept(t, Seq::empty());
        assert(Seq::<char>::empty() + t =~= s);
    } else {
        let none = Seq::<char>::empty();
        assert(s.subrange(1, s.len() as int) =~= t);
        lemma_kept(t, none.push(s[0]));
        assert(none.push(s[0]) + t =~= s);
    }
}

/// Text behind the digits makes no number of them.
pub proof fn text_behind_the_digits_is_no_number(a: Seq<char>, c: char, b: Seq<char>)
    requires
        a.len() > 0,
        forall|i: int| 0 <= i < a.len() ==> digit(#[trigger] a[i]),
        'a' <= c <= 'z',
        snug(b) && b.len() > 0,
        b.last() != '%',
    ensures
        loose_number(a + seq![c] + b) is None,
{
    let s = a + seq![c] + b;
    assert(digit(a[0]));
    assert(snug(s));
    lemma_snug(s);
    lemma_stops(a, c, b, Seq::empty());
}

proof fn lemma_stops(a: Seq<char>, c: char, b: Seq<char>, kept: Seq<char>)
    requires
        a.len() > 0 || kept.len() > 0,
        forall|i: int| 0 <= i < a.len() ==> digit(#[trigger] a[i]),
        'a' <= c <= 'z',
    ensures
        bare_number(a + seq![c] + b, kept) is None,
    decreases a.len(),
{
    let s = a + seq![c] + b;
    if a.len() > 0 {
        let d = a.subrange(1, a.len() as int);
        assert(s.subrange(1, s.len() as int) =~= d + seq![c] + b);
        assert(digit(a[0]));
        lemma_stops(d, c, b, kept.push(a[0]));
    } else {
        assert(s[0] == c);
    }
}

/// A table's opening tag within the first four thousand and ninety-six characters gives
/// markup away, in letters of either case; text without a tag does not pass for it.
pub proof fn a_table_tag_gives_markup_away(before: Seq<char>, tag: Seq<char>, after: Seq<char>)
    requires
        tag.len() == 6,
        ascii_lowered(tag) == "<table"@,
    ensures
        before.len() + 6 <= 4096 ==> html_like(before + tag + after),
        forall|s: Seq<char>|
            (forall|i: int| 0 <= i < s.len() ==> #[trigger] s[i] != '<') ==> !#[trigger] html_like(
                s,
            ),
{
    reveal_strlit("<table");
    let word = "<table"@;
    let s = before + tag + after;
    let n = if s.len() < SNIFF_CHARS {
        s.len() as int
    } else {
        SNIFF_CHARS as int
    };
    let low = ascii_lowered(s.subrange(0, n));
    if before.len() + 6 <= 4096 {
        let at = before.len() as int;
        assert forall|i: int| 0 <= i < 6 implies low.subrange(at, at + 6)[i] == word[i] by {
            assert(s[at + i] == tag[i]);
            assert(ascii_lowered(tag)[i] == ascii_lower(tag[i]));
        }
        assert(low.subrange(at, at + 6) =~= word);
        assert(has_at(low, at, word));
        lemma_find_word(low, word, 0);
        assert(find_word(low, word, 0) <= at);
    }
    assert forall|s: Seq<char>|
        (forall|i: int| 0 <= i < s.len() ==> #[trigger] s[i] != '<') implies !#[trigger] html_like(
        s,
    ) by {
        let n = if s.len() < SNIFF_CHARS {
            s.len() as int
        } else {
            SNIFF_CHARS as int
        };
        let low = ascii_lowered(s.subrange(0, n));
        lemma_find_word(low, word, 0);
        let at = find_word(low, word, 0);
        if at < low.len() {
            assert(low.subrange(at, at + 6)[0] == low[at]);
            assert(s[at] != '<');
        }
    }
}

/// A length in points is its number; any other is converted from pixels; one that is
/// not above zero is none.
pub proof fn a_length_in_points_is_its_number<N: Fn(&str) -> Option<F32>, P: Fn(F32) -> F32>(
    reader: LengthReader<N, P>,
    l: LengthView,
    x: F32,
    y: F32,
    r: Option<F32>,
)
    requires
        reader.reads(l, r),
        forall|s: &str, got: Option<F32>| #[trigger]
            reader.number.ensures((s,), got) && s@ == l.amount ==> got == Some(x),
        forall|pt: F32| #[trigger] reader.points.ensures((x,), pt) ==> pt == y,
        !x.nan_spec(),
    ensures
        x.rank() <= 0 ==> r is None,
        x.rank() > 0 && l.unit is Point ==> r == Some(x),
        x.rank() > 0 && !(l.unit is Point) ==> r == Some(y),
{
}

/// A font is no smaller than six points and no larger than seventy-two, and a size in
/// between is kept.
pub proof fn a_font_is_kept_within_six_and_seventy_two_points(pt: F32)
    requires
        !pt.nan_spec(),
    ensures
        F32(0x40c0_0000).rank() <= clamped_pt(pt).rank() <= F32(0x4290_0000).rank(),
        F32(0x40c0_0000).rank() <= pt.rank() <= F32(0x4290_0000).rank() ==> clamped_pt(pt) == pt,
        pt.rank() < F32(0x40c0_0000).rank() ==> clamped_pt(pt) == F32(0x40c0_0000),
        pt.rank() > F32(0x4290_0000).rank() ==> clamped_pt(pt) == F32(0x4290_0000),
{
}

/// A column's width in its style goes before the bare attribute, which counts where the
/// style says nothing.
pub proof fn a_width_in_the_style_goes_first<N: Fn(&str) -> Option<F32>, P: Fn(F32) -> F32>(
    reader: LengthReader<N, P>,
    w: WidthText,
    x: F32,
    r: Option<F32>,
)
    requires
        reader.widens(w, r),
        w.css is Some && w.css->0.unit is Point ==> !x.nan_spec() && x.rank() > 0 && forall|
            s: &str,
            got: Option<F32>,
        | #[trigger]
            reader.number.ensures((s,), got) && s@ == w.css->0.amount ==> got == Some(x),
    ensures
        w.css is Some && w.css->0.unit is Point ==> r == Some(x),
        w.css is None ==> reader.measures(w.attr, r),
        w.css is None && w.attr is None ==> r is None,
{
}

} // verus!
