//! Column widths, written and read again.

use crate::interchange::attrs::{
    calm, lemma_calm_joined, lemma_calm_solid, lemma_no_attr, lemma_read_attr, spelling,
};
use crate::interchange::grid::lemma_piece_avoids;
use crate::interchange::looks::{legible, lemma_length};
use crate::interchange::scan::{
    avoids, differs, lacks, lemma_avoids_joined, lemma_avoids_lacking, lemma_char_found, lemma_char_shift, lemma_find_word,
    lemma_lowered_joined, lemma_lowered_same, lemma_word_absent, lemma_word_found, lemma_word_shift,
};
use crate::interchange::styles::{lemma_rule_declared, lemma_split_rules, one_piece};
use crate::markup::{attr_value, declarations_from, declared};
use crate::paste::{width_of, widths_from};
use crate::spelled::{rules_text, width_html, widths_html, LengthView, WidthText};
use crate::text::{ascii_lowered, find_from, find_word, has_at, whitespace};
use vstd::prelude::*;

verus! {

/// A width that reads back.
pub open spec fn legible_width(w: WidthText) -> bool {
    &&& w.attr matches Some(l) ==> legible(l)
    &&& w.css matches Some(l) ==> legible(l)
}

spec fn bare_attr(w: WidthText) -> Seq<char> {
    match w.attr {
        Some(l) => seq![' '] + "width"@ + seq!['=', '"'] + l.written() + seq!['"'],
        None => Seq::empty(),
    }
}

spec fn css_text(l: LengthView) -> Seq<char> {
    "width"@ + seq![':'] + l.written()
}

spec fn css_attr(w: WidthText) -> Seq<char> {
    match w.css {
        Some(l) => seq![' '] + "style"@ + seq!['=', '"'] + css_text(l) + seq!['"'],
        None => Seq::empty(),
    }
}

/// A column's tag up to its `>`.
spec fn width_tag(w: WidthText) -> Seq<char> {
    "<col"@ + bare_attr(w) + css_attr(w)
}

proof fn lemma_width_form(w: WidthText)
    ensures
        width_html(w) == width_tag(w) + seq!['>'],
{
    reveal_strlit(" width=\"");
    reveal_strlit("width");
    reveal_strlit("\"");
    reveal_strlit(" style=\"width:");
    reveal_strlit("style");
    reveal_strlit(">");
    assert(" width=\""@ =~= seq![' '] + "width"@ + seq!['=', '"']);
    assert(" style=\"width:"@ =~= seq![' '] + "style"@ + seq!['=', '"'] + ("width"@ + seq![':']));
    assert("\""@ =~= seq!['"']);
    assert(">"@ =~= seq!['>']);
    assert(width_html(w) =~= width_tag(w) + seq!['>']);
}

/// Neither attribute is taken for the other.
proof fn lemma_width_calm(w: WidthText)
    requires
        legible_width(w),
    ensures
        spelling("width"@.push('=')),
        spelling("style"@.push('=')),
        calm("<col"@, "width"@.push('=')),
        calm("<col"@ + bare_attr(w), "style"@.push('=')),
        calm("<col"@ + css_attr(w), "width"@.push('=')),
        "<col"@.len() == 4,
        "<col"@[0] == '<',
{
    reveal_strlit("<col");
    reveal_strlit("width");
    reveal_strlit("style");
    reveal(calm);
    let wide = "width"@.push('=');
    let styled = "style"@.push('=');
    lemma_calm_solid("<col"@, wide);
    lemma_calm_solid("<col"@, styled);
    let a = bare_attr(w);
    let la = ascii_lowered(a);
    assert forall|k: int| 0 <= k < a.len() && whitespace(#[trigger] a[k]) implies differs(
        la,
        k + 1,
        styled,
    ) by {
        let l = w.attr->0;
        lemma_length(l);
        if k > 0 {
            if 8 <= k < 8 + l.written().len() {
                assert(a[k] == l.written()[k - 8]);
            }
            assert(false);
        }
        assert(la[k + 1 + 0] != styled[0]);
    }
    let c = css_attr(w);
    let lc = ascii_lowered(c);
    assert forall|k: int| 0 <= k < c.len() && whitespace(#[trigger] c[k]) implies differs(
        lc,
        k + 1,
        wide,
    ) by {
        let l = w.css->0;
        lemma_length(l);
        if k > 0 {
            if 14 <= k < 14 + l.written().len() {
                assert(c[k] == l.written()[k - 14]);
            }
            assert(false);
        }
        assert(lc[k + 1 + 0] != wide[0]);
    }
    lemma_calm_joined("<col"@, a, styled);
    lemma_calm_joined("<col"@, c, wide);
}

proof fn lemma_bare_read(w: WidthText)
    requires
        legible_width(w),
    ensures
        attr_value(width_tag(w), "width"@) == match w.attr {
            Some(l) => Some(l.written()),
            None => None,
        },
{
    let tag = width_tag(w);
    lemma_width_calm(w);
    match w.attr {
        Some(l) => {
            lemma_length(l);
            lemma_read_attr("<col"@, "width"@, l.written(), css_attr(w));
            assert(tag =~= "<col"@ + seq![' '] + "width"@ + seq!['=', '"'] + l.written() + seq!['"']
                + css_attr(w));
        },
        None => {
            assert(tag =~= "<col"@ + css_attr(w));
            reveal_strlit("width");
            lemma_no_attr(tag, "width"@.push('='), 0);
        },
    }
}

proof fn lemma_css_read(w: WidthText)
    requires
        legible_width(w),
    ensures
        attr_value(width_tag(w), "style"@) == match w.css {
            Some(l) => Some(css_text(l)),
            None => None,
        },
{
    let tag = width_tag(w);
    let none = Seq::<char>::empty();
    lemma_width_calm(w);
    let pre = "<col"@ + bare_attr(w);
    match w.css {
        Some(l) => {
            lemma_css_text(l);
            lemma_read_attr(pre, "style"@, css_text(l), none);
            assert(tag =~= pre + seq![' '] + "style"@ + seq!['=', '"'] + css_text(l) + seq!['"']
                + none);
        },
        None => {
            assert(tag =~= pre);
            reveal_strlit("style");
            lemma_no_attr(tag, "style"@.push('='), 0);
        },
    }
}

/// A style that declares a width and nothing else.
proof fn lemma_css_text(l: LengthView)
    requires
        legible(l),
    ensures
        lacks(css_text(l), '"'),
        declared(declarations_from(css_text(l), None, Seq::empty()), "width"@) == Some(
            l.written(),
        ),
{
    let v = css_text(l);
    lemma_length(l);
    reveal_strlit("width");
    let rules = seq![v];
    assert(one_piece(v));
    assert(rules.drop_last() =~= Seq::<Seq<char>>::empty());
    assert(rules_text(rules.drop_last(), false) == Seq::<char>::empty());
    assert(rules_text(rules, false) =~= v);
    lemma_split_rules(rules);
    lemma_rule_declared("width"@, l.written(), "width"@);
}

/// A column's tag, read again, is its width.
proof fn lemma_width_read(w: WidthText)
    requires
        legible_width(w),
    ensures
        width_of(width_tag(w)) == w,
{
    lemma_bare_read(w);
    lemma_css_read(w);
    match w.attr {
        Some(l) => lemma_length(l),
        None => {},
    }
    match w.css {
        Some(l) => {
            lemma_length(l);
            lemma_css_text(l);
        },
        None => {},
    }
}

/// Nothing in a column's tag but its first character opens a tag, and nothing
/// closes it.
proof fn lemma_width_plain(w: WidthText)
    requires
        legible_width(w),
    ensures
        width_tag(w).len() >= 4,
        width_tag(w).subrange(0, 4) == "<col"@,
        width_tag(w).len() > 4 ==> width_tag(w)[4] == ' ',
        lacks(width_tag(w), '>'),
        forall|i: int| 1 <= i < width_tag(w).len() ==> #[trigger] width_tag(w)[i] != '<',
{
    reveal_strlit("<col");
    reveal_strlit("width");
    reveal_strlit("style");
    match w.attr {
        Some(l) => lemma_length(l),
        None => {},
    }
    match w.css {
        Some(l) => lemma_length(l),
        None => {},
    }
    assert(lacks(bare_attr(w), '<') && lacks(bare_attr(w), '>'));
    assert(lacks(css_attr(w), '<') && lacks(css_attr(w), '>'));
    assert(width_tag(w).subrange(0, 4) =~= "<col"@);
}

// ---------------------------------------------------------------- columns --

/// Reading widths does not look back.
proof fn lemma_widths_shift(a: Seq<char>, t: Seq<char>, k: int)
    requires
        0 <= k <= t.len(),
    ensures
        widths_from(a + t, a.len() + k) == widths_from(t, k),
    decreases t.len() - k,
{
    let s = a + t;
    let la = ascii_lowered(a);
    let lt = ascii_lowered(t);
    let low = ascii_lowered(s);
    lemma_lowered_joined(a, t);
    lemma_word_shift(la, lt, "<col"@, k);
    lemma_find_word(lt, "<col"@, k);
    let start = find_word(lt, "<col"@, k);
    lemma_char_shift(la, lt, '>', start);
    let gt = find_from(lt, '>', start);
    reveal_strlit("<colgroup");
    if start + 9 <= t.len() {
        assert(low.subrange(a.len() + start, a.len() + start + 9) =~= lt.subrange(start, start + 9));
    }
    assert(has_at(low, a.len() + start, "<colgroup"@) == has_at(lt, start, "<colgroup"@));
    if start < t.len() {
        if has_at(lt, start, "<colgroup"@) {
            lemma_widths_shift(a, t, start + 4);
        } else if start < gt < t.len() {
            assert(s.subrange(a.len() + start, a.len() + gt) =~= t.subrange(start, gt));
            lemma_widths_shift(a, t, gt);
        }
    }
}

/// The first column, and what is left.
proof fn lemma_first_width(pre: Seq<char>, w: WidthText, after: Seq<char>)
    requires
        avoids(ascii_lowered(pre), "<col"@),
        legible_width(w),
    ensures
        widths_from(pre + (width_html(w) + after), 0) == seq![w] + widths_from(
            seq!['>'] + after,
            0,
        ),
{
    reveal_strlit("<col");
    reveal_strlit("<colgroup");
    let tag = width_tag(w);
    lemma_width_form(w);
    lemma_width_plain(w);
    lemma_width_read(w);
    let s = pre + (width_html(w) + after);
    let low = ascii_lowered(s);
    let lp = ascii_lowered(pre);
    let body = width_html(w) + after;
    let lb = ascii_lowered(body);
    let start = pre.len() as int;
    lemma_lowered_joined(pre, body);
    assert(lb.subrange(0, 4) =~= "<col"@) by {
        assert forall|i: int| 0 <= i < 4 implies lb.subrange(0, 4)[i] == "<col"@[i] by {
            assert(body[i] == tag.subrange(0, 4)[i]);
        }
    }
    lemma_word_found(lp, lb, "<col"@, 0);
    let front = pre + tag;
    let back = seq!['>'] + after;
    assert(s =~= front + back);
    lemma_lowered_joined(front, back);
    let lf = ascii_lowered(front);
    assert forall|k: int| start <= k < lf.len() implies lf[k] != '>' by {
        assert(front[k] == tag[k - start]);
    }
    assert(ascii_lowered(back)[0] == '>');
    lemma_char_found(lf, ascii_lowered(back), '>', start);
    let gt = front.len() as int;
    if has_at(low, start, "<colgroup"@) {
        assert(low.subrange(start, start + 9)[4] == "<colgroup"@[4]);
        assert(low[start + 4] == 'g');
        assert(s[start + 4] == body[4]);
        assert(false);
    }
    assert(s.subrange(start, gt) =~= tag);
    lemma_widths_shift(front, back, 0);
    assert(find_word(low, "<col"@, 0) == start);
    assert(find_from(low, '>', start) == gt);
}

proof fn lemma_widths_first(widths: Seq<WidthText>)
    requires
        widths.len() > 0,
    ensures
        widths_html(widths) == width_html(widths[0]) + widths_html(
            widths.subrange(1, widths.len() as int),
        ),
    decreases widths.len(),
{
    let rest = widths.subrange(1, widths.len() as int);
    if widths.len() == 1 {
        assert(widths.drop_last() =~= Seq::<WidthText>::empty());
        assert(rest =~= Seq::<WidthText>::empty());
        assert(widths_html(widths.drop_last()) == Seq::<char>::empty());
        assert(widths_html(rest) == Seq::<char>::empty());
        assert(widths_html(widths) =~= width_html(widths[0]));
        assert(width_html(widths[0]) + widths_html(rest) =~= width_html(widths[0]));
    } else {
        lemma_widths_first(widths.drop_last());
        assert(widths.drop_last().subrange(1, widths.len() - 1) =~= rest.drop_last());
        assert(rest.last() == widths.last());
        assert(widths_html(widths) =~= width_html(widths[0]) + widths_html(rest));
    }
}

/// Widths read again, between what holds none.
pub(crate) proof fn lemma_widths_kept(pre: Seq<char>, widths: Seq<WidthText>, post: Seq<char>)
    requires
        forall|i: int| 0 <= i < widths.len() ==> legible_width(#[trigger] widths[i]),
        avoids(ascii_lowered(pre), "<col"@),
        avoids(ascii_lowered(post), "<col"@),
    ensures
        widths_from(pre + widths_html(widths) + post, 0) == widths,
    decreases widths.len(),
{
    let s = pre + widths_html(widths) + post;
    if widths.len() == 0 {
        assert(s =~= pre + post);
        lemma_lowered_joined(pre, post);
        lemma_avoids_joined(ascii_lowered(pre), ascii_lowered(post), "<col"@);
        lemma_word_absent(ascii_lowered(s), "<col"@, 0);
        assert(widths_from(s, 0) =~= widths);
    } else {
        let rest = widths.subrange(1, widths.len() as int);
        let after = widths_html(rest) + post;
        lemma_widths_first(widths);
        assert(s =~= pre + (width_html(widths[0]) + after));
        lemma_first_width(pre, widths[0], after);
        assert forall|i: int| 0 <= i < rest.len() implies legible_width(#[trigger] rest[i]) by {
            assert(rest[i] == widths[i + 1]);
        }
        let mark = seq!['>'];
        reveal_strlit("<col");
        lemma_lowered_same(mark);
        lemma_avoids_lacking(mark, "<col"@);
        lemma_widths_kept(mark, rest, post);
        assert(mark + after =~= mark + widths_html(rest) + post);
        assert(seq![widths[0]] + rest =~= widths);
    }
}

/// A word that no column's markup holds is not in theirs.
pub(crate) proof fn lemma_widths_avoid(widths: Seq<WidthText>, word: Seq<char>)
    requires
        forall|i: int| 0 <= i < widths.len() ==> legible_width(#[trigger] widths[i]),
        word.len() > 0,
        word[0] == '<',
        differs("<col"@, 0, word),
    ensures
        avoids(ascii_lowered(widths_html(widths)), word),
    decreases widths.len(),
{
    if widths.len() == 0 {
        assert(ascii_lowered(widths_html(widths)) =~= Seq::<char>::empty());
    } else {
        let front = widths.drop_last();
        assert forall|i: int| 0 <= i < front.len() implies legible_width(#[trigger] front[i]) by {
            assert(front[i] == widths[i]);
        }
        lemma_widths_avoid(front, word);
        let w = widths.last();
        assert(legible_width(widths[widths.len() - 1]));
        lemma_width_form(w);
        lemma_width_plain(w);
        reveal_strlit("<col");
        let tag = width_tag(w);
        let one = ascii_lowered(width_html(w));
        assert forall|i: int| 1 <= i < one.len() implies #[trigger] one[i] != '<' by {
            if i < tag.len() {
                assert(tag[i] != '<');
            }
        }
        assert(one.subrange(0, 4) =~= "<col"@) by {
            assert forall|i: int| 0 <= i < 4 implies one.subrange(0, 4)[i] == "<col"@[i] by {
                assert(width_html(w)[i] == tag.subrange(0, 4)[i]);
            }
        }
        lemma_piece_avoids(one, "<col"@, word);
        lemma_lowered_joined(widths_html(front), width_html(w));
        lemma_avoids_joined(ascii_lowered(widths_html(front)), one, word);
    }
}

/// Widths read again behind the `<colgroup>` that holds them.
pub(crate) proof fn lemma_colgroup_kept(pre: Seq<char>, widths: Seq<WidthText>, post: Seq<char>)
    requires
        forall|i: int| 0 <= i < widths.len() ==> legible_width(#[trigger] widths[i]),
        avoids(ascii_lowered(pre), "<col"@),
        avoids(ascii_lowered(post), "<col"@),
    ensures
        widths_from(pre + ("<colgroup>"@ + widths_html(widths) + post), 0) == widths,
{
    reveal_strlit("<colgroup>");
    reveal_strlit("<colgroup");
    reveal_strlit("<col");
    let s = pre + ("<colgroup>"@ + widths_html(widths) + post);
    let body = "<colgroup>"@ + widths_html(widths) + post;
    let low = ascii_lowered(s);
    let lp = ascii_lowered(pre);
    let lb = ascii_lowered(body);
    let start = pre.len() as int;
    lemma_lowered_joined(pre, body);
    assert(lb.subrange(0, 4) =~= "<col"@);
    lemma_word_found(lp, lb, "<col"@, 0);
    assert(low.subrange(start, start + 9) =~= "<colgroup"@) by {
        assert forall|i: int| 0 <= i < 9 implies low.subrange(start, start + 9)[i]
            == "<colgroup"@[i] by {
            assert(s[start + i] == "<colgroup>"@[i]);
        }
    }
    let rest = seq!['g', 'r', 'o', 'u', 'p', '>'];
    let back = rest + widths_html(widths) + post;
    let front = pre + "<col"@;
    assert(s =~= front + back);
    lemma_widths_shift(front, back, 0);
    lemma_lowered_same(rest);
    lemma_avoids_lacking(rest, "<col"@);
    lemma_widths_kept(rest, widths, post);
}

} // verus!
