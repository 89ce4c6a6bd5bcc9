//! What a cell's style declares, and how it reads.

use crate::format::FontFamily;
use crate::interchange::attrs::mild;
use crate::interchange::escapes::inert;
use crate::interchange::scan::{lacks, lemma_find_word, lemma_lowered_same};
use crate::interchange::styles::{
    first_of, lemma_declared_joined, lemma_rule_declared, lemma_snug, one_piece, property, snug,
};
use crate::markup::{css_color, declared, style_value};
use crate::paste::{is_bold, is_header, is_mono, only_says, style_of};
use crate::spelled::{
    decoration, family_rule, family_word, fill_rule, lines_rule, rule, rules_text, size_rule,
    slant_rule, slant_word, style_rules, text_rule, weight_rule, weight_word, LengthUnit, LengthView,
    StyleText,
};
use crate::table::{hex_char, Rgb};
use crate::text::{
    ascii_lower, ascii_lowered, decimal_from, digit, digit_run, find_word, float_literal,
    has_at, has_word, trimmed, whitespace,
};
use vstd::prelude::*;

verus! {

// ---------------------------------------------------------------- lengths --

/// A character that a number can be written with.
pub open spec fn numeric(c: char) -> bool {
    ||| digit(c)
    ||| c == '.' || c == '+' || c == '-'
    ||| ascii_lower(c) == 'e' || ascii_lower(c) == 'i' || ascii_lower(c) == 'n'
    ||| ascii_lower(c) == 'f' || ascii_lower(c) == 't' || ascii_lower(c) == 'y'
    ||| ascii_lower(c) == 'a'
}

proof fn lemma_digit_run(s: Seq<char>, i: int)
    requires
        0 <= i <= s.len(),
    ensures
        i <= digit_run(s, i) <= s.len(),
        forall|k: int| i <= k < digit_run(s, i) ==> digit(#[trigger] s[k]),
    decreases s.len() - i,
{
    if i < s.len() && digit(s[i]) {
        lemma_digit_run(s, i + 1);
    }
}

proof fn lemma_decimal_chars(t: Seq<char>, i: int)
    requires
        0 <= i <= t.len(),
        decimal_from(t, i),
    ensures
        i < t.len(),
        forall|k: int| i <= k < t.len() ==> numeric(#[trigger] t[k]),
{
    let a = digit_run(t, i);
    lemma_digit_run(t, i);
    let b = if a < t.len() && t[a] == '.' {
        digit_run(t, a + 1)
    } else {
        a
    };
    if a < t.len() && t[a] == '.' {
        lemma_digit_run(t, a + 1);
    }
    if b < t.len() && t[b] == 'e' {
        let k = if b + 1 < t.len() && (t[b + 1] == '+' || t[b + 1] == '-') {
            b + 2
        } else {
            b + 1
        };
        lemma_digit_run(t, k);
    }
}

/// What reads as a number is written with few characters.
pub(crate) proof fn lemma_literal(s: Seq<char>)
    requires
        float_literal(s),
    ensures
        s.len() > 0,
        forall|k: int| 0 <= k < s.len() ==> numeric(#[trigger] s[k]),
{
    let t = ascii_lowered(s);
    let i: int = if t.len() > 0 && (t[0] == '+' || t[0] == '-') {
        1
    } else {
        0
    };
    let body = t.subrange(i, t.len() as int);
    reveal_strlit("inf");
    reveal_strlit("infinity");
    reveal_strlit("nan");
    if decimal_from(t, i) {
        lemma_decimal_chars(t, i);
    }
    let long = "infinity"@;
    assert forall|m: int| 0 <= m < 8 implies numeric(#[trigger] long[m]) by {
        assert(m == 0 || m == 1 || m == 2 || m == 3 || m == 4 || m == 5 || m == 6 || m == 7);
    }
    let short = "inf"@;
    let none = "nan"@;
    assert forall|m: int| 0 <= m < 3 implies numeric(#[trigger] short[m]) by {
        assert(m == 0 || m == 1 || m == 2);
    }
    assert forall|m: int| 0 <= m < 3 implies numeric(#[trigger] none[m]) by {
        assert(m == 0 || m == 1 || m == 2);
    }
    assert(t.len() == s.len());
    assert(body.len() == t.len() - i);
    assert forall|k: int| 0 <= k < s.len() implies numeric(#[trigger] s[k]) by {
        if k >= i {
            assert(t[k] == body[k - i]);
            if body == short {
                assert(numeric(short[k - i]));
            } else if body == long {
                assert(numeric(long[k - i]));
            } else if body == none {
                assert(numeric(none[k - i]));
            } else {
                assert(numeric(t[k]));
            }
        }
        assert(t[k] == ascii_lower(s[k]));
    }
    if s.len() == 0 {
        assert(body.len() == 0);
    }
}

/// A length that reads back: its amount is a number.
pub open spec fn legible(l: LengthView) -> bool {
    float_literal(l.amount)
}

/// Neither markup nor quotes nor separators nor whitespace.
pub open spec fn solid(s: Seq<char>) -> bool {
    &&& inert(s)
    &&& one_piece(s)
    &&& lacks(s, '&')
    &&& forall|i: int| 0 <= i < s.len() ==> !whitespace(#[trigger] s[i])
}

/// A written length is in one piece and reads back.
pub(crate) proof fn lemma_length(l: LengthView)
    requires
        legible(l),
    ensures
        solid(l.written()),
        LengthView::read(l.written()) == Some(l),
{
    let w = l.written();
    let n = w.len() as int;
    lemma_literal(l.amount);
    reveal_strlit("px");
    reveal_strlit("pt");
    assert forall|i: int| 0 <= i < w.len() implies numeric(#[trigger] w[i]) || w[i] == 'p' || w[i]
        == 'x' || w[i] == 't' by {
        if i < l.amount.len() {
            assert(w[i] == l.amount[i]);
        }
    }
    assert(solid(w));
    lemma_snug(w);
    lemma_snug(l.amount);
    match l.unit {
        LengthUnit::Bare => {
            assert(w =~= l.amount);
            if n >= 2 {
                assert(numeric(w[n - 2]));
                assert(w.subrange(n - 2, n)[0] == w[n - 2]);
            }
        },
        LengthUnit::Pixel => {
            assert(w.subrange(n - 2, n) =~= "px"@);
            assert("px"@[1] != "pt"@[1]);
            assert(w.subrange(0, n - 2) =~= l.amount);
        },
        LengthUnit::Point => {
            assert(w.subrange(n - 2, n) =~= "pt"@);
            assert(w.subrange(0, n - 2) =~= l.amount);
        },
    }
}

// ------------------------------------------------------------------ rules --

/// A declaration that stays in one piece and in its attribute.
pub open spec fn tidy(r: Seq<char>) -> bool {
    one_piece(r) && inert(r) && mild(r)
}

pub open spec fn all_tidy(rules: Seq<Seq<char>>) -> bool {
    forall|i: int| 0 <= i < rules.len() ==> tidy(#[trigger] rules[i])
}

/// What a rule says of a property.
pub open spec fn said(
    set: bool,
    name: Seq<char>,
    value: Seq<char>,
    prop: Seq<char>,
) -> Option<Seq<char>> {
    if set && name == prop {
        Some(value)
    } else {
        None
    }
}

proof fn lemma_rule(
    set: bool,
    head: Seq<char>,
    name: Seq<char>,
    value: Seq<char>,
    rest: Seq<char>,
    prop: Seq<char>,
)
    requires
        property(name),
        solid(name),
        set ==> snug(value) && lacks(value, '&') && tidy(value),
        set ==> head + rest == name + seq![':'] + value,
    ensures
        declared(rule(set, head + rest), prop) == said(set, name, value, prop),
        all_tidy(rule(set, head + rest)),
{
    if set {
        lemma_rule_declared(name, value, prop);
        let d = name + seq![':'] + value;
        assert forall|k: int| 0 <= k < d.len() && whitespace(#[trigger] d[k]) implies k + 1 < d.len()
            && d[k + 1] == 'l' by {
            let m = k - name.len() - 1;
            assert(k > name.len());
            assert(value[m] == d[k]);
            assert(value[m + 1] == d[k + 1]);
        }
        assert(tidy(d));
    }
}

pub(crate) proof fn lemma_hex(c: Rgb)
    ensures
        solid(seq!['#'] + c.hex()),
        css_color(seq!['#'] + c.hex()) == Some(c),
{
    let h = c.hex();
    let v = seq!['#'] + h;
    assert(h.len() == 6);
    assert forall|i: int| 0 <= i < 6 implies '0' <= #[trigger] h[i] <= '9' || 'A' <= h[i] <= 'F' by {
        assert(i == 0 || i == 1 || i == 2 || i == 3 || i == 4 || i == 5);
        assert(h[0] == hex_char(c.0 as int / 16) && h[1] == hex_char(c.0 as int % 16));
        assert(h[2] == hex_char(c.1 as int / 16) && h[3] == hex_char(c.1 as int % 16));
        assert(h[4] == hex_char(c.2 as int / 16) && h[5] == hex_char(c.2 as int % 16));
    }
    assert forall|i: int| 0 <= i < v.len() implies #[trigger] v[i] == '#' || '0' <= v[i] <= '9'
        || 'A' <= v[i] <= 'F' by {
        if i > 0 {
            assert(v[i] == h[i - 1]);
        }
    }
    lemma_snug(v);
    assert(v.subrange(1, 7) =~= h);
    c.hex_round_trips();
}

proof fn lemma_fill(s: StyleText, prop: Seq<char>)
    ensures
        declared(fill_rule(s), prop) == said(
            s.fill is Some,
            "background-color"@,
            seq!['#'] + s.fill->0.hex(),
            prop,
        ),
        all_tidy(fill_rule(s)),
{
    reveal_strlit("background-color:#");
    reveal_strlit("background-color");
    let h = s.fill->0.hex();
    lemma_hex(s.fill->0);
    assert("background-color:#"@ + h =~= "background-color"@ + seq![':'] + (seq!['#'] + h));
    lemma_rule(
        s.fill is Some,
        "background-color:#"@,
        "background-color"@,
        seq!['#'] + h,
        h,
        prop,
    );
}

proof fn lemma_text(s: StyleText, prop: Seq<char>)
    ensures
        declared(text_rule(s), prop) == said(
            s.text is Some,
            "color"@,
            seq!['#'] + s.text->0.hex(),
            prop,
        ),
        all_tidy(text_rule(s)),
{
    reveal_strlit("color:#");
    reveal_strlit("color");
    let h = s.text->0.hex();
    lemma_hex(s.text->0);
    assert("color:#"@ + h =~= "color"@ + seq![':'] + (seq!['#'] + h));
    lemma_rule(s.text is Some, "color:#"@, "color"@, seq!['#'] + h, h, prop);
}

proof fn lemma_weight(s: StyleText, prop: Seq<char>)
    ensures
        declared(weight_rule(s), prop) == said(
            s.bold is Some,
            "font-weight"@,
            weight_word(s.bold == Some(true)),
            prop,
        ),
        all_tidy(weight_rule(s)),
{
    reveal_strlit("font-weight:");
    reveal_strlit("font-weight");
    reveal_strlit("bold");
    reveal_strlit("normal");
    let w = weight_word(s.bold == Some(true));
    assert(solid(w));
    assert("font-weight:"@ + w =~= "font-weight"@ + seq![':'] + w);
    lemma_rule(s.bold is Some, "font-weight:"@, "font-weight"@, w, w, prop);
}

proof fn lemma_slant(s: StyleText, prop: Seq<char>)
    ensures
        declared(slant_rule(s), prop) == said(
            s.italic is Some,
            "font-style"@,
            slant_word(s.italic == Some(true)),
            prop,
        ),
        all_tidy(slant_rule(s)),
{
    reveal_strlit("font-style:");
    reveal_strlit("font-style");
    reveal_strlit("italic");
    reveal_strlit("normal");
    let w = slant_word(s.italic == Some(true));
    assert(solid(w));
    assert("font-style:"@ + w =~= "font-style"@ + seq![':'] + w);
    lemma_rule(s.italic is Some, "font-style:"@, "font-style"@, w, w, prop);
}

proof fn lemma_lines(s: StyleText, prop: Seq<char>)
    ensures
        declared(lines_rule(s), prop) == said(
            s.underline is Some || s.strikethrough is Some,
            "text-decoration"@,
            decoration(s.underline == Some(true), s.strikethrough == Some(true)),
            prop,
        ),
        all_tidy(lines_rule(s)),
{
    reveal_strlit("text-decoration:");
    reveal_strlit("text-decoration");
    reveal_strlit("underline line-through");
    reveal_strlit("underline");
    reveal_strlit("line-through");
    reveal_strlit("none");
    let w = decoration(s.underline == Some(true), s.strikethrough == Some(true));
    assert(tidy(w));
    assert("text-decoration:"@ + w =~= "text-decoration"@ + seq![':'] + w);
    lemma_rule(
        s.underline is Some || s.strikethrough is Some,
        "text-decoration:"@,
        "text-decoration"@,
        w,
        w,
        prop,
    );
}

proof fn lemma_family(s: StyleText, prop: Seq<char>)
    ensures
        declared(family_rule(s), prop) == said(
            s.family is Some,
            "font-family"@,
            family_word(s.family == Some(FontFamily::Monospace)),
            prop,
        ),
        all_tidy(family_rule(s)),
{
    reveal_strlit("font-family:");
    reveal_strlit("font-family");
    reveal_strlit("monospace");
    reveal_strlit("sans-serif");
    let w = family_word(s.family == Some(FontFamily::Monospace));
    assert(solid(w));
    assert("font-family:"@ + w =~= "font-family"@ + seq![':'] + w);
    lemma_rule(s.family is Some, "font-family:"@, "font-family"@, w, w, prop);
}

proof fn lemma_size(s: StyleText, prop: Seq<char>)
    requires
        s.size matches Some(l) ==> legible(l),
    ensures
        declared(size_rule(s), prop) == said(
            s.size is Some,
            "font-size"@,
            s.size->0.written(),
            prop,
        ),
        all_tidy(size_rule(s)),
{
    reveal_strlit("font-size:");
    reveal_strlit("font-size");
    let w = s.size->0.written();
    if s.size is Some {
        lemma_length(s.size->0);
    }
    assert("font-size:"@ + w =~= "font-size"@ + seq![':'] + w);
    lemma_rule(s.size is Some, "font-size:"@, "font-size"@, w, w, prop);
}

/// What the rules of a style say of a property.
spec fn style_said(s: StyleText, prop: Seq<char>) -> Option<Seq<char>> {
    let fill = said(
        s.fill is Some,
        "background-color"@,
        seq!['#'] + s.fill->0.hex(),
        prop,
    );
    let text = said(s.text is Some, "color"@, seq!['#'] + s.text->0.hex(), prop);
    let weight = said(s.bold is Some, "font-weight"@, weight_word(s.bold == Some(true)), prop);
    let slant = said(s.italic is Some, "font-style"@, slant_word(s.italic == Some(true)), prop);
    let lines = said(
        s.underline is Some || s.strikethrough is Some,
        "text-decoration"@,
        decoration(s.underline == Some(true), s.strikethrough == Some(true)),
        prop,
    );
    let family = said(
        s.family is Some,
        "font-family"@,
        family_word(s.family == Some(FontFamily::Monospace)),
        prop,
    );
    let size = said(s.size is Some, "font-size"@, s.size->0.written(), prop);
    first_of(
        first_of(
            first_of(first_of(first_of(first_of(fill, text), weight), slant), lines),
            family,
        ),
        size,
    )
}

proof fn lemma_tidy_joined(a: Seq<Seq<char>>, b: Seq<Seq<char>>)
    requires
        all_tidy(a),
        all_tidy(b),
    ensures
        all_tidy(a + b),
{
}

proof fn lemma_style_said(s: StyleText, prop: Seq<char>)
    requires
        s.size matches Some(l) ==> legible(l),
    ensures
        declared(style_rules(s), prop) == style_said(s, prop),
        all_tidy(style_rules(s)),
{
    lemma_fill(s, prop);
    lemma_text(s, prop);
    lemma_weight(s, prop);
    lemma_slant(s, prop);
    lemma_lines(s, prop);
    lemma_family(s, prop);
    lemma_size(s, prop);
    let r1 = Seq::<Seq<char>>::empty() + fill_rule(s);
    let r2 = r1 + text_rule(s);
    let r3 = r2 + weight_rule(s);
    let r4 = r3 + slant_rule(s);
    let r5 = r4 + lines_rule(s);
    let r6 = r5 + family_rule(s);
    let r7 = r6 + size_rule(s);
    assert(r1 =~= fill_rule(s));
    lemma_declared_joined(r1, text_rule(s), prop);
    lemma_declared_joined(r2, weight_rule(s), prop);
    lemma_declared_joined(r3, slant_rule(s), prop);
    lemma_declared_joined(r4, lines_rule(s), prop);
    lemma_declared_joined(r5, family_rule(s), prop);
    lemma_declared_joined(r6, size_rule(s), prop);
    lemma_tidy_joined(r1, text_rule(s));
    lemma_tidy_joined(r2, weight_rule(s));
    lemma_tidy_joined(r3, slant_rule(s));
    lemma_tidy_joined(r4, lines_rule(s));
    lemma_tidy_joined(r5, family_rule(s));
    lemma_tidy_joined(r6, size_rule(s));
}

pub(crate) proof fn lemma_style_tidy(s: StyleText)
    requires
        s.size matches Some(l) ==> legible(l),
    ensures
        all_tidy(style_rules(s)),
{
    lemma_style_said(s, Seq::empty());
}

/// Tidy rules make a tidy style.
pub(crate) proof fn lemma_rules_inert(rules: Seq<Seq<char>>, sep: bool)
    requires
        all_tidy(rules),
    ensures
        inert(rules_text(rules, sep)),
        mild(rules_text(rules, sep)),
    decreases rules.len(),
{
    if rules.len() > 0 {
        let before = rules_text(rules.drop_last(), sep);
        assert forall|i: int| 0 <= i < rules.drop_last().len() implies tidy(
            #[trigger] rules.drop_last()[i],
        ) by {
            assert(rules.drop_last()[i] == rules[i]);
        }
        lemma_rules_inert(rules.drop_last(), sep);
        let mark = if sep || rules.len() > 1 {
            seq![';']
        } else {
            Seq::<char>::empty()
        };
        let last = rules.last();
        assert(tidy(rules[rules.len() - 1]));
        let all = before + mark + last;
        assert forall|k: int| 0 <= k < all.len() && whitespace(#[trigger] all[k]) implies k + 1
            < all.len() && all[k + 1] == 'l' by {
            if k < before.len() {
                assert(before[k] == all[k]);
                assert(before[k + 1] == all[k + 1]);
            } else if k >= before.len() + mark.len() {
                let m = k - before.len() - mark.len();
                assert(last[m] == all[k]);
                assert(last[m + 1] == all[k + 1]);
            }
        }
    }
}

/// No two of the properties are spelled alike.
proof fn lemma_property_names()
    ensures
        "background-color"@ != "background"@,
        "background-color"@ != "color"@,
        "background-color"@ != "font-weight"@,
        "background-color"@ != "font-style"@,
        "background-color"@ != "text-decoration"@,
        "background-color"@ != "font-family"@,
        "background-color"@ != "font-size"@,
        "background-color"@ != "mso-number-format"@,
        "background"@ != "color"@,
        "background"@ != "font-weight"@,
        "background"@ != "font-style"@,
        "background"@ != "text-decoration"@,
        "background"@ != "font-family"@,
        "background"@ != "font-size"@,
        "background"@ != "mso-number-format"@,
        "color"@ != "font-weight"@,
        "color"@ != "font-style"@,
        "color"@ != "text-decoration"@,
        "color"@ != "font-family"@,
        "color"@ != "font-size"@,
        "color"@ != "mso-number-format"@,
        "font-weight"@ != "font-style"@,
        "font-weight"@ != "text-decoration"@,
        "font-weight"@ != "font-family"@,
        "font-weight"@ != "font-size"@,
        "font-weight"@ != "mso-number-format"@,
        "font-style"@ != "text-decoration"@,
        "font-style"@ != "font-family"@,
        "font-style"@ != "font-size"@,
        "font-style"@ != "mso-number-format"@,
        "text-decoration"@ != "font-family"@,
        "text-decoration"@ != "font-size"@,
        "text-decoration"@ != "mso-number-format"@,
        "font-family"@ != "font-size"@,
        "font-family"@ != "mso-number-format"@,
        "font-size"@ != "mso-number-format"@,
{
    reveal_strlit("background-color");
    reveal_strlit("background");
    reveal_strlit("color");
    reveal_strlit("font-weight");
    reveal_strlit("font-style");
    reveal_strlit("text-decoration");
    reveal_strlit("font-family");
    reveal_strlit("font-size");
    reveal_strlit("mso-number-format");
    assert("background-color"@.len() == 16);
    assert("background"@.len() == 10);
    assert("color"@.len() == 5);
    assert("font-weight"@.len() == 11);
    assert("font-style"@.len() == 10);
    assert("text-decoration"@.len() == 15);
    assert("font-family"@.len() == 11);
    assert("font-size"@.len() == 9);
    assert("mso-number-format"@.len() == 17);
    assert("font-weight"@[5] != "font-family"@[5]);
    assert("background"@[0] != "font-style"@[0]);
}

/// What the rules of a style say of each property that is read.
proof fn lemma_style_values(s: StyleText)
    requires
        s.size matches Some(l) ==> legible(l),
    ensures
        declared(style_rules(s), "background-color"@) == if s.fill is Some {
            Some(seq!['#'] + s.fill->0.hex())
        } else {
            None
        },
        declared(style_rules(s), "background"@) is None,
        declared(style_rules(s), "color"@) == if s.text is Some {
            Some(seq!['#'] + s.text->0.hex())
        } else {
            None
        },
        declared(style_rules(s), "font-weight"@) == if s.bold is Some {
            Some(weight_word(s.bold == Some(true)))
        } else {
            None
        },
        declared(style_rules(s), "font-style"@) == if s.italic is Some {
            Some(slant_word(s.italic == Some(true)))
        } else {
            None
        },
        declared(style_rules(s), "text-decoration"@) == if s.underline is Some || s.strikethrough
            is Some {
            Some(decoration(s.underline == Some(true), s.strikethrough == Some(true)))
        } else {
            None
        },
        declared(style_rules(s), "font-family"@) == if s.family is Some {
            Some(family_word(s.family == Some(FontFamily::Monospace)))
        } else {
            None
        },
        declared(style_rules(s), "font-size"@) == if s.size is Some {
            Some(s.size->0.written())
        } else {
            None
        },
        declared(style_rules(s), "mso-number-format"@) is None,
{
    lemma_property_names();
    lemma_style_said(s, "background-color"@);
    lemma_style_said(s, "background"@);
    lemma_style_said(s, "color"@);
    lemma_style_said(s, "font-weight"@);
    lemma_style_said(s, "font-style"@);
    lemma_style_said(s, "text-decoration"@);
    lemma_style_said(s, "font-family"@);
    lemma_style_said(s, "font-size"@);
    lemma_style_said(s, "mso-number-format"@);
}

// ---------------------------------------------------------------- reading --

proof fn lemma_bold(bold: bool)
    ensures
        is_bold(weight_word(bold)) == bold,
{
    reveal_strlit("bold");
    reveal_strlit("bolder");
    reveal_strlit("normal");
    let w = weight_word(bold);
    lemma_snug(w);
    lemma_lowered_same(w);
    assert("normal"@[0] != "bolder"@[0]);
    assert(!digit("normal"@[0]));
}

proof fn lemma_italic(italic: bool)
    ensures
        (ascii_lowered(trimmed(slant_word(italic))) == "italic"@) == italic,
{
    reveal_strlit("italic");
    reveal_strlit("normal");
    let w = slant_word(italic);
    lemma_snug(w);
    lemma_lowered_same(w);
    assert("normal"@[0] != "italic"@[0]);
}

/// A word that stands somewhere is found.
proof fn lemma_has_word(s: Seq<char>, word: Seq<char>, k: int)
    requires
        0 <= k < s.len(),
        has_at(s, k, word),
    ensures
        has_word(s, word),
{
    lemma_find_word(s, word, 0);
}

/// A word that begins like no part of `s` is not found.
proof fn lemma_no_word(s: Seq<char>, word: Seq<char>)
    requires
        word.len() > 0,
        forall|k: int| 0 <= k && k + word.len() <= s.len() ==> #[trigger] s[k] != word[0],
    ensures
        !has_word(s, word),
{
    lemma_find_word(s, word, 0);
    let at = find_word(s, word, 0);
    if at < s.len() {
        assert(s.subrange(at, at + word.len())[0] == s[at]);
    }
}

proof fn lemma_lined(under: bool, strike: bool)
    ensures
        has_word(ascii_lowered(decoration(under, strike)), "underline"@) == under,
        has_word(ascii_lowered(decoration(under, strike)), "line-through"@) == strike,
{
    reveal_strlit("underline line-through");
    reveal_strlit("underline");
    reveal_strlit("line-through");
    reveal_strlit("none");
    let w = decoration(under, strike);
    lemma_lowered_same(w);
    if under && strike {
        assert(w.subrange(0, 9) =~= "underline"@);
        assert(w.subrange(10, 22) =~= "line-through"@);
        lemma_has_word(w, "underline"@, 0);
        lemma_has_word(w, "line-through"@, 10);
    } else if under {
        assert(w.subrange(0, 9) =~= "underline"@);
        lemma_has_word(w, "underline"@, 0);
        lemma_no_word(w, "line-through"@);
    } else if strike {
        assert(w.subrange(0, 12) =~= "line-through"@);
        lemma_has_word(w, "line-through"@, 0);
        assert forall|k: int| 0 <= k && k + 9 <= w.len() implies #[trigger] w[k] != 'u' by {
            assert(k == 0 || k == 1 || k == 2 || k == 3);
        }
        lemma_no_word(w, "underline"@);
    } else {
        lemma_no_word(w, "underline"@);
        lemma_no_word(w, "line-through"@);
    }
}

proof fn lemma_mono(mono: bool)
    ensures
        is_mono(family_word(mono)) == mono,
{
    reveal_strlit("monospace");
    reveal_strlit("sans-serif");
    reveal_strlit("courier");
    reveal_strlit("consolas");
    reveal_strlit("mono");
    let w = family_word(mono);
    lemma_lowered_same(w);
    if mono {
        assert(w.subrange(0, 9) =~= "monospace"@);
        lemma_has_word(w, "monospace"@, 0);
    } else {
        assert forall|k: int| 0 <= k < w.len() implies #[trigger] w[k] != 'm' && w[k] != 'c' by {
            assert(k == 0 || k == 1 || k == 2 || k == 3 || k == 4 || k == 5 || k == 6 || k == 7 || k
                == 8 || k == 9);
        }
        lemma_no_word(w, "monospace"@);
        lemma_no_word(w, "courier"@);
        lemma_no_word(w, "consolas"@);
        lemma_no_word(w, "mono"@);
    }
}

/// A tag that declares what a style's rules do, and tells which lines are said where
/// only one is, has that style.
pub(crate) proof fn lemma_style_of(tag: Seq<char>, s: StyleText)
    requires
        s.size matches Some(l) ==> legible(l),
        !is_header(tag),
        forall|prop: Seq<char>|
            prop != "mso-number-format"@ ==> #[trigger] style_value(tag, prop) == declared(
                style_rules(s),
                prop,
            ),
        only_says(tag, "underline"@) <==> s.underline is Some && s.strikethrough is None,
        only_says(tag, "line-through"@) <==> s.underline is None && s.strikethrough is Some,
    ensures
        style_of(tag) == s,
{
    lemma_property_names();
    lemma_style_values(s);
    if s.fill is Some {
        lemma_hex(s.fill->0);
    }
    if s.text is Some {
        lemma_hex(s.text->0);
    }
    lemma_bold(s.bold == Some(true));
    lemma_italic(s.italic == Some(true));
    lemma_lined(s.underline == Some(true), s.strikethrough == Some(true));
    lemma_mono(s.family == Some(FontFamily::Monospace));
    if s.size is Some {
        lemma_length(s.size->0);
    }
}

/// The rules of a style say nothing of the number format.
pub(crate) proof fn lemma_no_format_rule(s: StyleText)
    requires
        s.size matches Some(l) ==> legible(l),
    ensures
        declared(style_rules(s), "mso-number-format"@) is None,
{
    lemma_style_values(s);
}

} // verus!
