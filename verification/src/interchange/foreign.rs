//! Markup from elsewhere: what a browser or another spreadsheet says of a cell.
//!
//! Each law takes a tag as it is written and says what the cell that it opens looks
//! like.

use crate::format::FontFamily;
use crate::interchange::attrs::{
    calm, lemma_calm_joined, lemma_calm_solid, lemma_no_attr, lemma_read_attr, spelling,
};
use crate::interchange::escapes::{lemma_decimal, lemma_no_entity};
use crate::interchange::looks::{lemma_hex, lemma_length, lemma_literal, numeric};
use crate::interchange::scan::{
    differs, lacks, lemma_char_found, lemma_find_word, lemma_lowered_same,
};
use crate::interchange::styles::{
    lemma_rule_declared, lemma_snug, lemma_split_rules, one_piece, property, snug,
};
use crate::markup::{attr_value, bytes_in, css_color, style_value};
use crate::paste::{cell_of, format_of, plain_points, span_of};
use crate::spelled::{rules_text, LengthUnit, LengthView};
use crate::table::{hex_char, Rgb};
use crate::text::{
    ascii_lowered, decimal, digit, find_from, find_word, float_literal, has_at, has_word, trimmed,
    whitespace,
};
use vstd::prelude::*;

verus! {

/// A tag that begins with `open` and has one attribute.
pub open spec fn tag_with(open: Seq<char>, name: Seq<char>, value: Seq<char>) -> Seq<char> {
    open + seq![' '] + name + seq!['=', '"'] + value + seq!['"']
}

/// A tag whose style makes one declaration.
pub open spec fn tag_saying(open: Seq<char>, prop: Seq<char>, value: Seq<char>) -> Seq<char> {
    tag_with(open, "style"@, prop + seq![':'] + value)
}

/// A value that a declaration holds as it is: nothing in it ends the declaration, the
/// attribute or the tag, nothing stands for something else, and no whitespace is at
/// its ends.
pub open spec fn plain_value(v: Seq<char>) -> bool {
    &&& snug(v)
    &&& one_piece(v)
    &&& lacks(v, '&')
    &&& lacks(v, '=')
}

/// How a cell's tag begins.
pub open spec fn cell_open(open: Seq<char>) -> bool {
    open == "<td"@ || open == "<th"@
}

proof fn lemma_open(open: Seq<char>, needle: Seq<char>)
    requires
        cell_open(open),
    ensures
        open.len() == 3,
        open[0] == '<',
        calm(open, needle),
{
    reveal_strlit("<td");
    reveal_strlit("<th");
    lemma_calm_solid(open, needle);
}

proof fn lemma_style_spelling()
    ensures
        spelling("style"@.push('=')),
{
    reveal_strlit("style");
}

/// What the only attribute of a tag holds.
proof fn lemma_only_attr(open: Seq<char>, name: Seq<char>, value: Seq<char>)
    requires
        cell_open(open),
        spelling(name.push('=')),
        lacks(value, '"'),
    ensures
        attr_value(tag_with(open, name, value), name) == Some(value),
{
    lemma_open(open, name.push('='));
    lemma_read_attr(open, name, value, Seq::empty());
    assert(tag_with(open, name, value) + Seq::<char>::empty() =~= tag_with(open, name, value));
}

/// A tag with one attribute has no other.
proof fn lemma_other_attr(open: Seq<char>, name: Seq<char>, value: Seq<char>, other: Seq<char>)
    requires
        cell_open(open),
        spelling(name.push('=')),
        spelling(other.push('=')),
        name != other,
        name.len() > 0,
        other[0] != '<',
        lacks(value, '='),
        lacks(value, '"'),
    ensures
        attr_value(tag_with(open, name, value), other) is None,
{
    let needle = other.push('=');
    let tag = tag_with(open, name, value);
    lemma_open(open, needle);
    let tail = seq![' '] + name + seq!['=', '"'] + value + seq!['"'];
    assert(tag =~= open + tail);
    assert(calm(tail, needle)) by {
        reveal(calm);
        let low = ascii_lowered(tail);
        let at = name.len() as int + 1;
        let end = tail.len() - 1;
        assert(tail[at] == '=' && tail[at + 1] == '"' && tail[end] == '"');
        assert forall|i: int| at < i < tail.len() implies tail[i] != '=' by {
            if at + 1 < i < end {
                assert(tail[i] == value[i - at - 2]);
            }
        }
        assert forall|k: int| 0 <= k < tail.len() && whitespace(#[trigger] tail[k]) implies differs(
            low,
            k + 1,
            needle,
        ) by {
            let m = needle.len() as int;
            assert forall|j: int| 0 <= j < name.len() implies tail[1 + j] == name.push('=')[j] by {}
            if k == 0 {
                // The names differ somewhere, or one is longer.
                if forall|j: int|
                    0 <= j < m && 1 + j < tail.len() ==> low[1 + j] == #[trigger] needle[j] {
                    if m - 1 > name.len() as int {
                        assert(low[1 + name.len() as int] == needle[name.len() as int]);
                        assert(needle[name.len() as int] == other[name.len() as int]);
                        assert(other.push('=')[name.len() as int] != '=');
                        assert(false);
                    } else if m - 1 < name.len() as int {
                        assert(low[1 + (m - 1)] == needle[m - 1]);
                        assert(name.push('=')[m - 1] != '=');
                        assert(tail[1 + (m - 1)] == name.push('=')[m - 1]);
                        assert(false);
                    } else {
                        assert forall|j: int| 0 <= j < name.len() implies name[j] == other[j] by {
                            assert(low[1 + j] == needle[j]);
                            assert(tail[1 + j] == name.push('=')[j]);
                        }
                        assert(name =~= other);
                        assert(false);
                    }
                }
                let j = choose|j: int|
                    0 <= j < m && 1 + j < tail.len() && low[1 + j] != #[trigger] needle[j];
                assert(low[k + 1 + j] != needle[j]);
            } else if k <= name.len() {
                assert(tail[k] == name.push('=')[k - 1]);
                assert(false);
            } else {
                if k + m <= end {
                    assert(low[k + 1 + (m - 1)] != needle[m - 1]);
                } else {
                    let j = end - (k + 1);
                    assert(k < end);
                    assert(low[k + 1 + j] == '"');
                    assert(other.push('=')[j] != '"');
                }
            }
        }
    }
    lemma_calm_joined(open, tail, needle);
    lemma_no_attr(tag, needle, 0);
}

/// What a tag whose style makes one declaration says of a property.
proof fn lemma_said(open: Seq<char>, prop: Seq<char>, value: Seq<char>, asked: Seq<char>)
    requires
        cell_open(open),
        property(prop),
        one_piece(prop),
        plain_value(value),
    ensures
        style_value(tag_saying(open, prop, value), asked) == if prop == asked {
            Some(value)
        } else {
            None
        },
{
    let d = prop + seq![':'] + value;
    lemma_style_spelling();
    assert(lacks(d, '"'));
    assert(one_piece(d));
    lemma_only_attr(open, "style"@, d);
    let rules = seq![d];
    lemma_split_rules(rules);
    assert(rules.drop_last() =~= Seq::<Seq<char>>::empty());
    assert(rules_text(rules.drop_last(), false) == Seq::<char>::empty());
    assert(rules_text(rules, false) =~= d);
    lemma_rule_declared(prop, value, asked);
}

proof fn lemma_properties()
    ensures
        property("font-weight"@) && one_piece("font-weight"@),
        property("font-style"@) && one_piece("font-style"@),
        property("text-decoration"@) && one_piece("text-decoration"@),
        property("font-family"@) && one_piece("font-family"@),
        property("font-size"@) && one_piece("font-size"@),
        property("color"@) && one_piece("color"@),
        property("background-color"@) && one_piece("background-color"@),
        property("background"@) && one_piece("background"@),
        property("mso-number-format"@) && one_piece("mso-number-format"@),
        "font-weight"@.len() == 11,
        "font-style"@.len() == 10,
        "text-decoration"@.len() == 15,
        "font-family"@.len() == 11,
        "font-size"@.len() == 9,
        "color"@.len() == 5,
        "background-color"@.len() == 16,
        "background"@.len() == 10,
        "mso-number-format"@.len() == 17,
        "font-weight"@ != "font-family"@,
        "font-style"@ != "background"@,
{
    reveal_strlit("font-weight");
    reveal_strlit("font-style");
    reveal_strlit("text-decoration");
    reveal_strlit("font-family");
    reveal_strlit("font-size");
    reveal_strlit("color");
    reveal_strlit("background-color");
    reveal_strlit("background");
    reveal_strlit("mso-number-format");
    assert("font-weight"@[5] != "font-family"@[5]);
    assert("font-style"@[0] != "background"@[0]);
}

/// A whole number as it is written spells no word and holds nothing but digits.
proof fn lemma_number_value(n: nat)
    ensures
        plain_value(decimal(n)),
        trimmed(decimal(n)) == decimal(n),
        ascii_lowered(decimal(n)) == decimal(n),
        decimal(n).len() > 0,
        digit(decimal(n)[0]),
        decimal(n)[0] != '+',
{
    lemma_decimal(n);
    let d = decimal(n);
    assert forall|i: int| 0 <= i < d.len() implies digit(#[trigger] d[i]) by {}
    assert(digit(d[0]) && digit(d[d.len() - 1]));
    lemma_snug(d);
    lemma_lowered_same(d);
}

// ------------------------------------------------------------------- laws --

/// A cell that declares a numeric weight is bold exactly from 600 up, as style sheets
/// have it; so 600, 700, 800 and 900 are bold, and 400 and 500 are not.
pub proof fn a_weight_of_600_and_up_is_bold(open: Seq<char>, n: nat, content: Seq<char>)
    requires
        cell_open(open),
        n <= u32::MAX,
    ensures
        cell_of(tag_saying(open, "font-weight"@, decimal(n)), content).style.bold == Some(n >= 600),
{
    lemma_properties();
    lemma_number_value(n);
    lemma_decimal(n);
    lemma_said(open, "font-weight"@, decimal(n), "font-weight"@);
    reveal_strlit("bold");
    reveal_strlit("bolder");
}

/// A cell that declares a weight by a word is bold for `bold` and `bolder`, whatever the
/// case of the letters, and for no other word.
pub proof fn a_weight_by_name_is_bold_for_two_names(
    open: Seq<char>,
    word: Seq<char>,
    content: Seq<char>,
)
    requires
        cell_open(open),
        plain_value(word),
        word.len() > 0,
        'a' <= ascii_lowered(word)[0] <= 'z',
    ensures
        cell_of(tag_saying(open, "font-weight"@, word), content).style.bold == Some(
            ascii_lowered(word) == "bold"@ || ascii_lowered(word) == "bolder"@,
        ),
{
    lemma_properties();
    lemma_said(open, "font-weight"@, word, "font-weight"@);
    lemma_snug(word);
    let t = ascii_lowered(word);
    assert(!digit(t[0]) && t[0] != '+');
}

/// A header cell without a style is bold, and an ordinary one says nothing of it. Both
/// say nothing of anything else.
pub proof fn only_a_header_is_bold_by_itself(content: Seq<char>)
    ensures
        cell_of("<th"@, content).style.bold == Some(true),
        cell_of("<td"@, content).style.bold is None,
        cell_of("<td"@, content).style.fill is None,
        cell_of("<td"@, content).style.italic is None,
        cell_of("<td"@, content).style.size is None,
        cell_of("<td"@, content).formula is None,
        cell_of("<td"@, content).format is None,
        cell_of("<td"@, content).origin is None,
{
    reveal_strlit("<td");
    reveal_strlit("<th");
    lemma_bare("<td"@);
    lemma_bare("<th"@);
    lemma_lowered_same("<td"@);
    lemma_lowered_same("<th"@);
    assert("<th"@.subrange(0, 3) =~= "<th"@);
    assert("<td"@.subrange(0, 3)[2] != "<th"@[2]);
}

proof fn lemma_bare(open: Seq<char>)
    requires
        cell_open(open),
    ensures
        forall|prop: Seq<char>| #[trigger] style_value(open, prop) is None,
        attr_value(open, "data-ferrix-formula"@) is None,
        attr_value(open, "x:fmla"@) is None,
        attr_value(open, "data-ferrix-numfmt"@) is None,
        attr_value(open, "data-ferrix-origin"@) is None,
{
    reveal_strlit("style");
    reveal_strlit("data-ferrix-formula");
    reveal_strlit("x:fmla");
    reveal_strlit("data-ferrix-numfmt");
    reveal_strlit("data-ferrix-origin");
    lemma_open(open, "style"@.push('='));
    lemma_no_attr(open, "style"@.push('='), 0);
    lemma_open(open, "data-ferrix-formula"@.push('='));
    lemma_no_attr(open, "data-ferrix-formula"@.push('='), 0);
    lemma_open(open, "x:fmla"@.push('='));
    lemma_no_attr(open, "x:fmla"@.push('='), 0);
    lemma_open(open, "data-ferrix-numfmt"@.push('='));
    lemma_no_attr(open, "data-ferrix-numfmt"@.push('='), 0);
    lemma_open(open, "data-ferrix-origin"@.push('='));
    lemma_no_attr(open, "data-ferrix-origin"@.push('='), 0);
}

/// A cell is italic when its style says `italic`, in any case, and not for any other
/// slant that it says.
pub proof fn only_italic_is_italic(open: Seq<char>, word: Seq<char>, content: Seq<char>)
    requires
        cell_open(open),
        plain_value(word),
    ensures
        cell_of(tag_saying(open, "font-style"@, word), content).style.italic == Some(
            ascii_lowered(word) == "italic"@,
        ),
{
    lemma_properties();
    lemma_said(open, "font-style"@, word, "font-style"@);
    lemma_snug(word);
}

/// Underline and strikethrough are each said by their own word in the one property that
/// they share, wherever it stands there.
pub proof fn lines_are_said_by_their_words(open: Seq<char>, word: Seq<char>, content: Seq<char>)
    requires
        cell_open(open),
        plain_value(word),
    ensures
        cell_of(tag_saying(open, "text-decoration"@, word), content).style.underline == Some(
            has_word(ascii_lowered(word), "underline"@),
        ),
        cell_of(tag_saying(open, "text-decoration"@, word), content).style.strikethrough == Some(
            has_word(ascii_lowered(word), "line-through"@),
        ),
{
    lemma_properties();
    lemma_said(open, "text-decoration"@, word, "text-decoration"@);
    lemma_style_spelling();
    reveal_strlit("style");
    reveal_strlit("data-ferrix-lines");
    let d = "text-decoration"@ + seq![':'] + word;
    reveal_strlit("text-decoration");
    assert(lacks(d, '=') && lacks(d, '"'));
    assert("style"@.len() != "data-ferrix-lines"@.len());
    lemma_other_attr(open, "style"@, d, "data-ferrix-lines"@);
}

/// A font whose name holds `mono`, `courier` or `consolas` is a monospaced one, and every
/// other is proportional.
pub proof fn a_monospaced_font_is_told_by_its_name(
    open: Seq<char>,
    word: Seq<char>,
    content: Seq<char>,
)
    requires
        cell_open(open),
        plain_value(word),
    ensures
        cell_of(tag_saying(open, "font-family"@, word), content).style.family == Some(
            if has_word(ascii_lowered(word), "mono"@) || has_word(
                ascii_lowered(word),
                "courier"@,
            ) || has_word(ascii_lowered(word), "consolas"@) {
                FontFamily::Monospace
            } else {
                FontFamily::Proportional
            },
        ),
{
    lemma_properties();
    lemma_said(open, "font-family"@, word, "font-family"@);
    let t = ascii_lowered(word);
    if has_word(t, "monospace"@) {
        reveal_strlit("monospace");
        reveal_strlit("mono");
        lemma_find_word(t, "monospace"@, 0);
        let at = find_word(t, "monospace"@, 0);
        assert(t.subrange(at, at + 9) == "monospace"@);
        assert(t.subrange(at, at + 4) =~= "mono"@) by {
            assert forall|i: int| 0 <= i < 4 implies t.subrange(at, at + 4)[i] == "mono"@[i] by {
                assert(t.subrange(at, at + 9)[i] == "monospace"@[i]);
            }
        }
        assert(has_at(t, at, "mono"@));
        lemma_find_word(t, "mono"@, 0);
    }
}

/// A colour that six digits behind a `#` spell is read as that colour: the text's, or the
/// ground's under either of its two names.
pub proof fn a_colour_in_digits_is_read(open: Seq<char>, c: Rgb, content: Seq<char>)
    requires
        cell_open(open),
    ensures
        cell_of(tag_saying(open, "color"@, seq!['#'] + c.hex()), content).style.text == Some(c),
        cell_of(tag_saying(open, "color"@, seq!['#'] + c.hex()), content).style.fill is None,
        cell_of(tag_saying(open, "background-color"@, seq!['#'] + c.hex()), content).style.fill
            == Some(c),
        cell_of(tag_saying(open, "background-color"@, seq!['#'] + c.hex()), content).style.text
            is None,
        cell_of(tag_saying(open, "background"@, seq!['#'] + c.hex()), content).style.fill == Some(c),
{
    let v = seq!['#'] + c.hex();
    lemma_properties();
    lemma_hex(c);
    assert(plain_value(v)) by {
        lemma_hex_plain(c);
    }
    lemma_said(open, "color"@, v, "color"@);
    lemma_said(open, "color"@, v, "background-color"@);
    lemma_said(open, "color"@, v, "background"@);
    lemma_said(open, "background-color"@, v, "background-color"@);
    lemma_said(open, "background-color"@, v, "color"@);
    lemma_said(open, "background"@, v, "background-color"@);
    lemma_said(open, "background"@, v, "background"@);
}

proof fn lemma_hex_plain(c: Rgb)
    ensures
        plain_value(seq!['#'] + c.hex()),
{
    let v = seq!['#'] + c.hex();
    let h = c.hex();
    assert forall|i: int| 0 <= i < 6 implies '0' <= #[trigger] h[i] <= '9' || 'A' <= h[i] <= 'F' by {
        lemma_hex_digit_chars(c, i);
    }
    assert forall|i: int| 0 <= i < v.len() implies #[trigger] v[i] == '#' || '0' <= v[i] <= '9'
        || 'A' <= v[i] <= 'F' by {
        if i > 0 {
            assert(v[i] == h[i - 1]);
        }
    }
    assert(v[v.len() - 1] == v.last());
}

/// A font size is read with its amount and its unit: points, pixels, or none written.
pub proof fn a_size_is_read_with_its_unit(open: Seq<char>, amount: Seq<char>, content: Seq<char>)
    requires
        cell_open(open),
        float_literal(amount),
    ensures
        cell_of(tag_saying(open, "font-size"@, amount + "pt"@), content).style.size == Some(
            LengthView { amount, unit: LengthUnit::Point },
        ),
        cell_of(tag_saying(open, "font-size"@, amount + "px"@), content).style.size == Some(
            LengthView { amount, unit: LengthUnit::Pixel },
        ),
        cell_of(tag_saying(open, "font-size"@, amount), content).style.size == Some(
            LengthView { amount, unit: LengthUnit::Bare },
        ),
{
    lemma_properties();
    let pt = LengthView { amount, unit: LengthUnit::Point };
    let px = LengthView { amount, unit: LengthUnit::Pixel };
    let bare = LengthView { amount, unit: LengthUnit::Bare };
    lemma_length(pt);
    lemma_length(px);
    lemma_length(bare);
    lemma_literal(amount);
    assert(bare.written() =~= amount);
    assert(plain_value(amount + "pt"@)) by {
        lemma_length_plain(amount, "pt"@);
    }
    assert(plain_value(amount + "px"@)) by {
        lemma_length_plain(amount, "px"@);
    }
    assert(plain_value(amount)) by {
        lemma_length_plain(amount, Seq::empty());
        assert(amount + Seq::<char>::empty() =~= amount);
    }
    lemma_said(open, "font-size"@, amount + "pt"@, "font-size"@);
    lemma_said(open, "font-size"@, amount + "px"@, "font-size"@);
    lemma_said(open, "font-size"@, amount, "font-size"@);
}

proof fn lemma_length_plain(amount: Seq<char>, unit: Seq<char>)
    requires
        float_literal(amount),
        unit == "pt"@ || unit == "px"@ || unit.len() == 0,
    ensures
        plain_value(amount + unit),
{
    lemma_literal(amount);
    reveal_strlit("pt");
    reveal_strlit("px");
    let v = amount + unit;
    assert forall|i: int| 0 <= i < v.len() implies numeric(
        #[trigger] v[i],
    ) || v[i] == 'p' || v[i] == 't' || v[i] == 'x' by {
        if i < amount.len() {
            assert(v[i] == amount[i]);
        } else {
            assert(v[i] == unit[i - amount.len()]);
        }
    }
    assert(v[v.len() - 1] == v.last());
}

/// A cell spans as many columns as it says, at least one and at most 4096.
pub proof fn a_span_is_what_is_said_within_bounds(open: Seq<char>, n: nat)
    requires
        cell_open(open),
        n <= usize::MAX,
    ensures
        span_of(tag_with(open, "colspan"@, decimal(n))) == if n == 0 {
            1
        } else if n <= 4096 {
            n
        } else {
            4096
        },
        span_of(open) == 1,
{
    reveal_strlit("colspan");
    lemma_number_value(n);
    lemma_decimal(n);
    lemma_only_attr(open, "colspan"@, decimal(n));
    lemma_open(open, "colspan"@.push('='));
    lemma_no_attr(open, "colspan"@.push('='), 0);
}

/// A formula that another spreadsheet puts beside the value is taken when it begins with
/// `=`, and anything else there is not.
pub proof fn a_formula_from_elsewhere_is_taken(
    open: Seq<char>,
    f: Seq<char>,
    content: Seq<char>,
)
    requires
        cell_open(open),
        lacks(f, '"'),
        lacks(f, '&'),
        f.len() > 0,
        forall|i: int| 0 <= i < f.len() ==> !whitespace(#[trigger] f[i]),
    ensures
        cell_of(tag_with(open, "x:fmla"@, f), content).formula == if f[0] == '=' {
            Some(f)
        } else {
            None
        },
{
    reveal_strlit("x:fmla");
    reveal_strlit("data-ferrix-formula");
    lemma_only_attr(open, "x:fmla"@, f);
    lemma_no_entity(f);
    let needle = "data-ferrix-formula"@.push('=');
    let tail = "x:fmla"@ + seq!['=', '"'] + f + seq!['"'];
    let lead = seq![' '] + tail;
    let tag = tag_with(open, "x:fmla"@, f);
    assert(tag =~= open + lead);
    lemma_open(open, needle);
    assert(calm(lead, needle)) by {
        reveal(calm);
        let low = ascii_lowered(lead);
        assert forall|k: int| 0 <= k < lead.len() && whitespace(#[trigger] lead[k]) implies differs(
            low,
            k + 1,
            needle,
        ) by {
            if k > 0 {
                if 9 <= k < 9 + f.len() {
                    assert(lead[k] == f[k - 9]);
                }
                assert(false);
            }
            assert(low[k + 1 + 0] == 'x');
            assert(needle[0] == 'd');
        }
    }
    lemma_calm_joined(open, lead, needle);
    lemma_no_attr(tag, needle, 0);
}

/// A number format out of a style is the code that stands in its apostrophes; the general
/// format is none.
pub proof fn a_number_format_from_elsewhere_is_taken(
    open: Seq<char>,
    code: Seq<char>,
    content: Seq<char>,
)
    requires
        cell_open(open),
        plain_value(code),
        lacks(code, '\\'),
        code.len() > 0,
        code != "General"@,
    ensures
        cell_of(tag_saying(open, "mso-number-format"@, code), content).format == Some(code),
        cell_of(tag_saying(open, "mso-number-format"@, "General"@), content).format is None,
{
    lemma_properties();
    reveal_strlit("style");
    reveal_strlit("data-ferrix-numfmt");
    reveal_strlit("General");
    reveal_strlit("mso-number-format");
    assert("style"@.len() != "data-ferrix-numfmt"@.len());
    lemma_format_value(open, code);
    lemma_format_value(open, "General"@);
}

proof fn lemma_no_slash(s: Seq<char>)
    requires
        lacks(s, '\\'),
    ensures
        plain_points(s) == s,
    decreases s.len(),
{
    if s.len() > 0 {
        let rest = s.subrange(1, s.len() as int);
        lemma_no_slash(rest);
        assert(seq![s[0]] + rest =~= s);
    }
}

proof fn lemma_format_value(open: Seq<char>, code: Seq<char>)
    requires
        cell_open(open),
        plain_value(code),
        lacks(code, '\\'),
        code.len() > 0,
    ensures
        format_of(tag_saying(open, "mso-number-format"@, code)) == if code
            == "General"@ {
            None
        } else {
            Some(code)
        },
{
    lemma_properties();
    lemma_said(open, "mso-number-format"@, code, "mso-number-format"@);
    lemma_style_spelling();
    reveal_strlit("style");
    reveal_strlit("data-ferrix-numfmt");
    reveal_strlit("mso-number-format");
    let d = "mso-number-format"@ + seq![':'] + code;
    assert(lacks(d, '=') && lacks(d, '"'));
    assert("style"@.len() != "data-ferrix-numfmt"@.len());
    lemma_other_attr(open, "style"@, d, "data-ferrix-numfmt"@);
    lemma_snug(code);
    lemma_no_slash(code);
    lemma_no_entity(code);
    assert(code[0] != '\'');
}

/// Three numbers with commas between, a blank behind each comma where `spaced` says so.
pub open spec fn rgb_call(r: u8, g: u8, b: u8, spaced: bool) -> Seq<char> {
    let comma = if spaced {
        seq![',', ' ']
    } else {
        seq![',']
    };
    "rgb("@ + (decimal(r as nat) + comma + decimal(g as nat) + comma + decimal(b as nat)) + seq![')']
}

proof fn lemma_char_absent(s: Seq<char>, c: char, i: int)
    requires
        0 <= i <= s.len(),
        forall|k: int| i <= k < s.len() ==> s[k] != c,
    ensures
        find_from(s, c, i) == s.len(),
    decreases s.len() - i,
{
    if i < s.len() {
        lemma_char_absent(s, c, i + 1);
    }
}

proof fn lemma_first_byte(lead: Seq<char>, x: u8, rest: Seq<char>)
    requires
        lead.len() == 0 || lead == seq![' '],
    ensures
        bytes_in(lead + decimal(x as nat) + seq![','] + rest) == seq![x] + bytes_in(rest),
        bytes_in(lead + decimal(x as nat)) == seq![x],
{
    let d = decimal(x as nat);
    lemma_number_value(x as nat);
    lemma_decimal(x as nat);
    let a = lead + d;
    assert forall|i: int| 0 <= i < d.len() implies digit(#[trigger] d[i]) by {}
    assert forall|i: int| 0 <= i < a.len() implies a[i] != ',' by {
        if i >= lead.len() {
            assert(a[i] == d[i - lead.len()]);
        }
    }
    assert(trimmed(a) == d) by {
        if lead.len() == 0 {
            assert(a =~= d);
        } else {
            assert(a.subrange(1, a.len() as int) =~= d);
            assert(whitespace(a[0]));
            lemma_snug(d);
        }
    }
    let back = seq![','] + rest;
    let s = a + seq![','] + rest;
    assert(s =~= a + back);
    lemma_char_found(a, back, ',', 0);
    assert(s.subrange(0, a.len() as int) =~= a);
    assert(s.subrange(a.len() as int + 1, s.len() as int) =~= rest);
    lemma_char_absent(a, ',', 0);
    assert(a.subrange(0, a.len() as int) =~= a);
    assert(seq![x] + Seq::<u8>::empty() =~= seq![x]);
}

/// What stands between the brackets of the `rgb` notation.
spec fn rgb_inner(r: u8, g: u8, b: u8, spaced: bool) -> Seq<char> {
    let blank = if spaced {
        seq![' ']
    } else {
        Seq::empty()
    };
    Seq::<char>::empty() + decimal(r as nat) + seq![','] + (blank + decimal(g as nat) + seq![',']
        + (blank + decimal(b as nat)))
}

proof fn lemma_rgb_inner(r: u8, g: u8, b: u8, spaced: bool)
    ensures
        rgb_call(r, g, b, spaced) == "rgb("@ + rgb_inner(r, g, b, spaced) + seq![')'],
        bytes_in(rgb_inner(r, g, b, spaced)) == seq![r, g, b],
{
    let blank = if spaced {
        seq![' ']
    } else {
        Seq::empty()
    };
    let third = blank + decimal(b as nat);
    let second = blank + decimal(g as nat) + seq![','] + third;
    let inner = rgb_inner(r, g, b, spaced);
    assert(rgb_call(r, g, b, spaced) =~= "rgb("@ + inner + seq![')']);
    lemma_first_byte(blank, b, Seq::empty());
    lemma_first_byte(blank, g, third);
    lemma_first_byte(Seq::empty(), r, second);
    assert(seq![r] + (seq![g] + seq![b]) =~= seq![r, g, b]);
}

/// Digits, commas and blanks.
spec fn listing(s: Seq<char>) -> bool {
    forall|i: int| 0 <= i < s.len() ==> digit(#[trigger] s[i]) || s[i] == ',' || s[i] == ' '
}

proof fn lemma_listing_joined(a: Seq<char>, b: Seq<char>)
    requires
        listing(a),
        listing(b),
    ensures
        listing(a + b),
{
}

proof fn lemma_listing(r: u8, g: u8, b: u8, spaced: bool)
    ensures
        listing(rgb_inner(r, g, b, spaced)),
{
    lemma_decimal(r as nat);
    lemma_decimal(g as nat);
    lemma_decimal(b as nat);
    let blank = if spaced {
        seq![' ']
    } else {
        Seq::empty()
    };
    let (dr, dg, db) = (decimal(r as nat), decimal(g as nat), decimal(b as nat));
    assert(listing(dr) && listing(dg) && listing(db));
    assert(listing(seq![',']) && listing(blank));
    lemma_listing_joined(blank, db);
    lemma_listing_joined(blank, dg);
    lemma_listing_joined(blank + dg, seq![',']);
    lemma_listing_joined(blank + dg + seq![','], blank + db);
    assert(Seq::<char>::empty() + dr =~= dr);
    lemma_listing_joined(dr, seq![',']);
    lemma_listing_joined(dr + seq![','], blank + dg + seq![','] + (blank + db));
}

proof fn lemma_rgb_value(r: u8, g: u8, b: u8, spaced: bool)
    ensures
        plain_value(rgb_call(r, g, b, spaced)),
        css_color(rgb_call(r, g, b, spaced)) == Some(Rgb(r, g, b)),
{
    let v = rgb_call(r, g, b, spaced);
    let n = v.len() as int;
    let inner = rgb_inner(r, g, b, spaced);
    reveal_strlit("rgb(");
    lemma_rgb_inner(r, g, b, spaced);
    lemma_listing(r, g, b, spaced);
    assert forall|i: int| 0 <= i < n implies (digit(#[trigger] v[i]) || v[i] == ',' || v[i] == ' '
        || v[i] == 'r' || v[i] == 'g' || v[i] == 'b' || v[i] == '(' || v[i] == ')') by {
        if 4 <= i < n - 1 {
            assert(v[i] == inner[i - 4]);
        }
    }
    assert(v[0] == 'r' && v[n - 1] == ')' && v.last() == v[n - 1]);
    assert(v.subrange(4, n - 1) =~= inner);
    assert(v.subrange(0, 4) =~= "rgb("@);
    lemma_snug(v);
    assert(inner.len() > 0) by {
        if inner.len() == 0 {
            assert(bytes_in(inner).len() == 3);
        }
    }
}

/// What a colour that is said comes to.
proof fn lemma_colour_said(open: Seq<char>, v: Seq<char>, c: Rgb, content: Seq<char>)
    requires
        cell_open(open),
        plain_value(v),
        css_color(v) == Some(c),
    ensures
        cell_of(tag_saying(open, "color"@, v), content).style.text == Some(c),
        cell_of(tag_saying(open, "background-color"@, v), content).style.fill == Some(c),
{
    lemma_properties();
    lemma_said(open, "color"@, v, "color"@);
    lemma_said(open, "background-color"@, v, "background-color"@);
}

/// A colour in the `rgb` notation is read as the colour with these three parts.
pub proof fn a_colour_in_numbers_is_read(
    open: Seq<char>,
    r: u8,
    g: u8,
    b: u8,
    spaced: bool,
    content: Seq<char>,
)
    requires
        cell_open(open),
    ensures
        cell_of(tag_saying(open, "color"@, rgb_call(r, g, b, spaced)), content).style.text == Some(
            Rgb(r, g, b),
        ),
        cell_of(
            tag_saying(open, "background-color"@, rgb_call(r, g, b, spaced)),
            content,
        ).style.fill == Some(Rgb(r, g, b)),
{
    lemma_rgb_value(r, g, b, spaced);
    lemma_colour_said(open, rgb_call(r, g, b, spaced), Rgb(r, g, b), content);
}

/// Three digits behind a `#` stand for six, each of them twice.
pub proof fn a_short_colour_doubles_its_digits(open: Seq<char>, c: Rgb, content: Seq<char>)
    requires
        cell_open(open),
        c.0 % 17 == 0,
        c.1 % 17 == 0,
        c.2 % 17 == 0,
    ensures
        cell_of(
            tag_saying(open, "color"@, seq!['#', c.hex()[0], c.hex()[2], c.hex()[4]]),
            content,
        ).style.text == Some(c),
{
    lemma_short_value(c);
    lemma_colour_said(open, seq!['#', c.hex()[0], c.hex()[2], c.hex()[4]], c, content);
}

proof fn lemma_twice(c: Rgb)
    requires
        c.0 % 17 == 0,
        c.1 % 17 == 0,
        c.2 % 17 == 0,
    ensures
        c.hex().len() == 6,
        c.hex()[0] == c.hex()[1],
        c.hex()[2] == c.hex()[3],
        c.hex()[4] == c.hex()[5],
{
    let h = c.hex();
    let (x, y, z) = (c.0, c.1, c.2);
    assert(x % 17 == 0 ==> x / 16 == x % 16) by (bit_vector);
    assert(y % 17 == 0 ==> y / 16 == y % 16) by (bit_vector);
    assert(z % 17 == 0 ==> z / 16 == z % 16) by (bit_vector);
    assert(h[0] == hex_char(x as int / 16) && h[1] == hex_char(x as int % 16));
    assert(h[2] == hex_char(y as int / 16) && h[3] == hex_char(y as int % 16));
    assert(h[4] == hex_char(z as int / 16) && h[5] == hex_char(z as int % 16));
}

proof fn lemma_short_value(c: Rgb)
    requires
        c.0 % 17 == 0,
        c.1 % 17 == 0,
        c.2 % 17 == 0,
    ensures
        plain_value(seq!['#', c.hex()[0], c.hex()[2], c.hex()[4]]),
        css_color(seq!['#', c.hex()[0], c.hex()[2], c.hex()[4]]) == Some(c),
{
    let h = c.hex();
    let v = seq!['#', h[0], h[2], h[4]];
    lemma_hex_digit_chars(c, 0);
    lemma_hex_digit_chars(c, 2);
    lemma_hex_digit_chars(c, 4);
    lemma_twice(c);
    assert(seq![v[1], v[1], v[2], v[2], v[3], v[3]] =~= h);
    assert(v[0] == '#' && v[1] == h[0] && v[2] == h[2] && v[3] == h[4]);
    assert forall|i: int| 0 <= i < v.len() implies #[trigger] v[i] == '#' || '0' <= v[i] <= '9' || 'A'
        <= v[i] <= 'F' by {
        assert(i == 0 || i == 1 || i == 2 || i == 3);
    }
    lemma_snug(v);
    c.hex_round_trips();
}

proof fn lemma_hex_digit_chars(c: Rgb, i: int)
    requires
        0 <= i < 6,
    ensures
        '0' <= c.hex()[i] <= '9' || 'A' <= c.hex()[i] <= 'F',
{
    let h = c.hex();
    assert(i == 0 || i == 1 || i == 2 || i == 3 || i == 4 || i == 5);
    assert(h[0] == hex_char(c.0 as int / 16) && h[1] == hex_char(
        c.0 as int % 16,
    ));
    assert(h[2] == hex_char(c.1 as int / 16) && h[3] == hex_char(
        c.1 as int % 16,
    ));
    assert(h[4] == hex_char(c.2 as int / 16) && h[5] == hex_char(
        c.2 as int % 16,
    ));
}

} // verus!
