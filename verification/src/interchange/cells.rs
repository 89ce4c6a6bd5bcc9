//! A cell's tag and text, written and read again.

use crate::interchange::attrs::{
    calm, lemma_calm_joined, lemma_calm_mild, lemma_calm_solid, lemma_field_calm, lemma_no_attr,
    lemma_read_attr, spelling,
};
use crate::interchange::escapes::{
    an_escaped_attribute_reads_back, inert, lemma_attr_inert, lemma_decimal,
    written_text_reads_back,
};
use crate::interchange::looks::{
    legible, lemma_no_format_rule, lemma_rules_inert, lemma_style_of, lemma_style_tidy, tidy,
};
use crate::interchange::scan::{differs, lacks, lemma_char_found};
use crate::interchange::styles::{
    a_code_is_one_declaration, lemma_declared_joined, lemma_one_declared, lemma_snug,
    lemma_split_after, lemma_split_rules, one_piece, settled,
};
use crate::markup::{attr_escaped, attr_value, declared, style_value, text_written};
use crate::paste::{cell_of, format_of, formula_of, is_header, origin_of, span_of, style_of};
use crate::spelled::{
    format_attrs, formula_attrs, lines_attr, rules_text, style_rules, CellText, StyleText,
};
use crate::table::CellRef;
use crate::text::{ascii_lowered, decimal, digit, whitespace};
use vstd::prelude::*;

verus! {

/// A cell that the markup can carry: its font size is a number.
pub open spec fn carriable(c: CellText) -> bool {
    c.style.size matches Some(l) ==> legible(l)
}

// -------------------------------------------------------------- the names --

/// An attribute in double quotes.
#[verifier::opaque]
spec fn quoted(name: Seq<char>, val: Seq<char>) -> Seq<char> {
    seq![' '] + name + seq!['=', '"'] + val + seq!['"']
}

/// A name that is not the beginning of another attribute's.
#[verifier::opaque]
spec fn apart(name: Seq<char>, needle: Seq<char>) -> bool {
    differs(ascii_lowered(name + seq!['=', '"']), 0, needle)
}

/// What is needed of a name to search for it in a cell's tag.
#[verifier::opaque]
spec fn sought(needle: Seq<char>) -> bool {
    spelling(needle) && needle[0] != 'l' && needle[0] != '<'
}

proof fn lemma_names()
    ensures
        sought("style"@.push('=')),
        sought("data-ferrix-numfmt"@.push('=')),
        sought("data-ferrix-lines"@.push('=')),
        sought("data-ferrix-formula"@.push('=')),
        sought("data-ferrix-origin"@.push('=')),
        sought("x:fmla"@.push('=')),
        sought("colspan"@.push('=')),
{
    reveal(sought);
    reveal_strlit("style");
    reveal_strlit("data-ferrix-numfmt");
    reveal_strlit("data-ferrix-lines");
    reveal_strlit("data-ferrix-formula");
    reveal_strlit("data-ferrix-origin");
    reveal_strlit("x:fmla");
    reveal_strlit("colspan");
}

proof fn lemma_apart_at(name: Seq<char>, needle: Seq<char>, j: int)
    requires
        0 <= j < needle.len(),
        j < name.len() + 1,
        !('A' <= (name + seq!['=', '"'])[j] <= 'Z'),
        (name + seq!['=', '"'])[j] != needle[j],
    ensures
        apart(name, needle),
{
    reveal(apart);
    let low = ascii_lowered(name + seq!['=', '"']);
    assert(low[0 + j] != needle[j]);
}

proof fn lemma_apart()
    ensures
        apart("style"@, "data-ferrix-numfmt"@.push('=')),
        apart("style"@, "data-ferrix-lines"@.push('=')),
        apart("style"@, "data-ferrix-formula"@.push('=')),
        apart("style"@, "data-ferrix-origin"@.push('=')),
        apart("style"@, "x:fmla"@.push('=')),
        apart("style"@, "colspan"@.push('=')),
        apart("data-ferrix-numfmt"@, "style"@.push('=')),
        apart("data-ferrix-numfmt"@, "data-ferrix-lines"@.push('=')),
        apart("data-ferrix-numfmt"@, "data-ferrix-formula"@.push('=')),
        apart("data-ferrix-numfmt"@, "data-ferrix-origin"@.push('=')),
        apart("data-ferrix-numfmt"@, "x:fmla"@.push('=')),
        apart("data-ferrix-numfmt"@, "colspan"@.push('=')),
        apart("data-ferrix-lines"@, "style"@.push('=')),
        apart("data-ferrix-lines"@, "data-ferrix-numfmt"@.push('=')),
        apart("data-ferrix-lines"@, "data-ferrix-formula"@.push('=')),
        apart("data-ferrix-lines"@, "data-ferrix-origin"@.push('=')),
        apart("data-ferrix-lines"@, "x:fmla"@.push('=')),
        apart("data-ferrix-lines"@, "colspan"@.push('=')),
        apart("data-ferrix-formula"@, "style"@.push('=')),
        apart("data-ferrix-formula"@, "data-ferrix-numfmt"@.push('=')),
        apart("data-ferrix-formula"@, "data-ferrix-lines"@.push('=')),
        apart("data-ferrix-formula"@, "data-ferrix-origin"@.push('=')),
        apart("data-ferrix-formula"@, "x:fmla"@.push('=')),
        apart("data-ferrix-formula"@, "colspan"@.push('=')),
        apart("data-ferrix-origin"@, "style"@.push('=')),
        apart("data-ferrix-origin"@, "data-ferrix-numfmt"@.push('=')),
        apart("data-ferrix-origin"@, "data-ferrix-lines"@.push('=')),
        apart("data-ferrix-origin"@, "data-ferrix-formula"@.push('=')),
        apart("data-ferrix-origin"@, "x:fmla"@.push('=')),
        apart("data-ferrix-origin"@, "colspan"@.push('=')),
{
    reveal_strlit("style");
    reveal_strlit("data-ferrix-numfmt");
    reveal_strlit("data-ferrix-lines");
    reveal_strlit("data-ferrix-formula");
    reveal_strlit("data-ferrix-origin");
    reveal_strlit("x:fmla");
    reveal_strlit("colspan");
    lemma_apart_at("style"@, "data-ferrix-numfmt"@.push('='), 0);
    lemma_apart_at("style"@, "data-ferrix-lines"@.push('='), 0);
    lemma_apart_at("style"@, "data-ferrix-formula"@.push('='), 0);
    lemma_apart_at("style"@, "data-ferrix-origin"@.push('='), 0);
    lemma_apart_at("style"@, "x:fmla"@.push('='), 0);
    lemma_apart_at("style"@, "colspan"@.push('='), 0);
    lemma_apart_at("data-ferrix-numfmt"@, "style"@.push('='), 0);
    lemma_apart_at("data-ferrix-numfmt"@, "data-ferrix-lines"@.push('='), 12);
    lemma_apart_at("data-ferrix-numfmt"@, "data-ferrix-formula"@.push('='), 12);
    lemma_apart_at("data-ferrix-numfmt"@, "data-ferrix-origin"@.push('='), 12);
    lemma_apart_at("data-ferrix-numfmt"@, "x:fmla"@.push('='), 0);
    lemma_apart_at("data-ferrix-numfmt"@, "colspan"@.push('='), 0);
    lemma_apart_at("data-ferrix-lines"@, "style"@.push('='), 0);
    lemma_apart_at("data-ferrix-lines"@, "data-ferrix-numfmt"@.push('='), 12);
    lemma_apart_at("data-ferrix-lines"@, "data-ferrix-formula"@.push('='), 12);
    lemma_apart_at("data-ferrix-lines"@, "data-ferrix-origin"@.push('='), 12);
    lemma_apart_at("data-ferrix-lines"@, "x:fmla"@.push('='), 0);
    lemma_apart_at("data-ferrix-lines"@, "colspan"@.push('='), 0);
    lemma_apart_at("data-ferrix-formula"@, "style"@.push('='), 0);
    lemma_apart_at("data-ferrix-formula"@, "data-ferrix-numfmt"@.push('='), 12);
    lemma_apart_at("data-ferrix-formula"@, "data-ferrix-lines"@.push('='), 12);
    lemma_apart_at("data-ferrix-formula"@, "data-ferrix-origin"@.push('='), 12);
    lemma_apart_at("data-ferrix-formula"@, "x:fmla"@.push('='), 0);
    lemma_apart_at("data-ferrix-formula"@, "colspan"@.push('='), 0);
    lemma_apart_at("data-ferrix-origin"@, "style"@.push('='), 0);
    lemma_apart_at("data-ferrix-origin"@, "data-ferrix-numfmt"@.push('='), 12);
    lemma_apart_at("data-ferrix-origin"@, "data-ferrix-lines"@.push('='), 12);
    lemma_apart_at("data-ferrix-origin"@, "data-ferrix-formula"@.push('='), 12);
    lemma_apart_at("data-ferrix-origin"@, "x:fmla"@.push('='), 0);
    lemma_apart_at("data-ferrix-origin"@, "colspan"@.push('='), 0);
}

/// An attribute with another name and a harmless value spells no attribute.
proof fn lemma_quoted_calm(name: Seq<char>, val: Seq<char>, needle: Seq<char>)
    requires
        sought(name.push('=')),
        apart(name, needle),
        calm(val.push('"'), needle),
    ensures
        calm(quoted(name, val), needle),
{
    reveal(calm);
    reveal(apart);
    reveal(sought);
    reveal(quoted);
    let q = quoted(name, val);
    let head = name + seq!['=', '"'];
    let lead = seq![' '] + head;
    let tail = val.push('"');
    assert(q =~= lead + tail);
    let low = ascii_lowered(lead);
    let lh = ascii_lowered(head);
    assert forall|k: int| 0 <= k < lead.len() && whitespace(#[trigger] lead[k]) implies differs(
        low,
        k + 1,
        needle,
    ) by {
        if k > 0 {
            if k - 1 < name.len() {
                assert(lead[k] == name.push('=')[k - 1]);
            }
            assert(false);
        }
        let j = choose|j: int|
            0 <= j < needle.len() && 0 + j < lh.len() && lh[0 + j] != #[trigger] needle[j];
        assert(low[k + 1 + j] == lh[0 + j]);
        assert(low[k + 1 + j] != needle[j]);
    }
    lemma_calm_joined(lead, tail, needle);
}

// ------------------------------------------------------------- the pieces --

/// What a cell's `style` attribute holds.
spec fn style_text(c: CellText) -> Seq<char> {
    match c.format {
        Some(f) => "mso-number-format:'"@ + attr_escaped(f) + "'"@ + rules_text(
            style_rules(c.style),
            true,
        ),
        None => rules_text(style_rules(c.style), false),
    }
}

/// Whether a cell has a `style` attribute.
spec fn styled(c: CellText) -> bool {
    c.format is Some || c.style != StyleText::plain()
}

spec fn style_attr(c: CellText) -> Seq<char> {
    if styled(c) {
        quoted("style"@, style_text(c))
    } else {
        Seq::empty()
    }
}

spec fn code_attr(c: CellText) -> Seq<char> {
    match c.format {
        Some(f) => quoted("data-ferrix-numfmt"@, attr_escaped(f)),
        None => Seq::empty(),
    }
}

/// Which of underline and strikethrough is said, where only one is.
spec fn line_said(s: StyleText) -> Option<Seq<char>> {
    if s.underline is Some && s.strikethrough is None {
        Some("underline"@)
    } else if s.underline is None && s.strikethrough is Some {
        Some("line-through"@)
    } else {
        None
    }
}

spec fn line_attr(c: CellText) -> Seq<char> {
    match line_said(c.style) {
        Some(w) => quoted("data-ferrix-lines"@, w),
        None => Seq::empty(),
    }
}

spec fn source_attr(c: CellText) -> Seq<char> {
    match c.formula {
        Some(f) => quoted("data-ferrix-formula"@, attr_escaped(f)),
        None => Seq::empty(),
    }
}

spec fn place_text(o: CellRef) -> Seq<char> {
    decimal(o.row as nat) + seq![','] + decimal(o.col as nat)
}

spec fn place_attr(c: CellText) -> Seq<char> {
    match (c.formula, c.origin) {
        (Some(_), Some(o)) => quoted("data-ferrix-origin"@, place_text(o)),
        _ => Seq::empty(),
    }
}

/// A cell's tag up to its `>`.
pub open spec fn cell_tag(c: CellText) -> Seq<char> {
    "<td"@ + format_attrs(c) + lines_attr(c.style) + formula_attrs(c)
}

proof fn lemma_tag_form(c: CellText)
    ensures
        cell_tag(c) == "<td"@ + style_attr(c) + code_attr(c) + line_attr(c) + source_attr(c)
            + place_attr(c),
{
    reveal(quoted);
    reveal_strlit(" style=\"mso-number-format:'");
    reveal_strlit("mso-number-format:'");
    reveal_strlit("'");
    reveal_strlit("\" data-ferrix-numfmt=\"");
    reveal_strlit("data-ferrix-numfmt");
    reveal_strlit("\"");
    reveal_strlit(" style=\"");
    reveal_strlit("style");
    reveal_strlit(" data-ferrix-formula=\"");
    reveal_strlit("data-ferrix-formula");
    reveal_strlit(" data-ferrix-origin=\"");
    reveal_strlit("data-ferrix-origin");
    reveal_strlit(",");
    let rules = style_rules(c.style);
    assert(format_attrs(c) =~= style_attr(c) + code_attr(c)) by {
        match c.format {
            Some(f) => {
                let e = attr_escaped(f);
                let rt = rules_text(rules, true);
                assert(" style=\"mso-number-format:'"@ =~= seq![' '] + "style"@ + seq!['=', '"']
                    + "mso-number-format:'"@);
                assert("\" data-ferrix-numfmt=\""@ =~= seq!['"'] + (seq![' ']
                    + "data-ferrix-numfmt"@ + seq!['=', '"']));
                assert(style_attr(c) =~= " style=\"mso-number-format:'"@ + e + "'"@ + rt + seq!['"']);
                assert("\""@ =~= seq!['"']);
            },
            None => {
                let rt = rules_text(rules, false);
                assert(" style=\""@ =~= seq![' '] + "style"@ + seq!['=', '"']);
                assert("\""@ =~= seq!['"']);
            },
        }
    }
    reveal_strlit(" data-ferrix-lines=\"");
    reveal_strlit("data-ferrix-lines");
    assert(lines_attr(c.style) =~= line_attr(c)) by {
        assert(" data-ferrix-lines=\""@ =~= seq![' '] + "data-ferrix-lines"@ + seq!['=', '"']);
        assert("\""@ =~= seq!['"']);
    }
    assert(formula_attrs(c) =~= source_attr(c) + place_attr(c)) by {
        assert(" data-ferrix-formula=\""@ =~= seq![' '] + "data-ferrix-formula"@ + seq!['=', '"']);
        assert(" data-ferrix-origin=\""@ =~= seq![' '] + "data-ferrix-origin"@ + seq!['=', '"']);
        assert("\""@ =~= seq!['"']);
        assert(","@ =~= seq![',']);
    }
    assert(cell_tag(c) =~= "<td"@ + style_attr(c) + code_attr(c) + line_attr(c) + source_attr(c)
            + place_attr(c));
}

proof fn lemma_place_text(o: CellRef)
    ensures
        inert(place_text(o)),
        forall|i: int| 0 <= i < place_text(o).len() ==> !whitespace(#[trigger] place_text(o)[i]),
{
    let a = decimal(o.row as nat);
    let b = decimal(o.col as nat);
    lemma_decimal(o.row as nat);
    lemma_decimal(o.col as nat);
    let t = place_text(o);
    assert forall|i: int| 0 <= i < t.len() implies digit(#[trigger] t[i]) || t[i] == ',' by {
        if i < a.len() {
            assert(t[i] == a[i]);
        } else if i > a.len() {
            assert(t[i] == b[i - a.len() - 1]);
        }
    }
}

/// A cell's style attribute holds neither markup nor quotes.
proof fn lemma_style_inert(c: CellText)
    requires
        carriable(c),
    ensures
        inert(style_text(c)),
{
    reveal_strlit("mso-number-format:'");
    reveal_strlit("'");
    lemma_style_tidy(c.style);
    lemma_rules_inert(style_rules(c.style), true);
    lemma_rules_inert(style_rules(c.style), false);
    match c.format {
        Some(f) => {
            lemma_attr_inert(f);
        },
        None => {},
    }
}

proof fn lemma_style_attr_calm(c: CellText, needle: Seq<char>)
    requires
        carriable(c),
        sought(needle),
        apart("style"@, needle),
    ensures
        calm(style_attr(c), needle),
{
    reveal(sought);
    lemma_calm_solid(Seq::empty(), needle);
    lemma_names();
    let rules = style_rules(c.style);
    lemma_style_tidy(c.style);
    let end = seq!['"'];
    lemma_calm_solid(end, needle);
    if styled(c) {
        match c.format {
            Some(f) => {
                let head = "mso-number-format:'"@;
                reveal_strlit("mso-number-format:'");
                reveal_strlit("'");
                lemma_calm_solid(head, needle);
                lemma_field_calm(f, needle, '\'');
                let rt = rules_text(rules, true);
                lemma_rules_inert(rules, true);
                lemma_calm_mild(rt, needle);
                let code = attr_escaped(f).push('\'');
                lemma_calm_joined(head, code, needle);
                lemma_calm_joined(head + code, rt, needle);
                lemma_calm_joined(head + code + rt, end, needle);
                assert(style_text(c).push('"') =~= head + code + rt + end);
            },
            None => {
                let rt = rules_text(rules, false);
                lemma_rules_inert(rules, false);
                lemma_calm_mild(rt, needle);
                lemma_calm_joined(rt, end, needle);
                assert(style_text(c).push('"') =~= rt + end);
            },
        }
        lemma_quoted_calm("style"@, style_text(c), needle);
    }
}

proof fn lemma_code_attr_calm(c: CellText, needle: Seq<char>)
    requires
        sought(needle),
        c.format is Some ==> apart("data-ferrix-numfmt"@, needle),
    ensures
        calm(code_attr(c), needle),
{
    reveal(sought);
    lemma_calm_solid(Seq::empty(), needle);
    lemma_names();
    match c.format {
        Some(f) => {
            lemma_field_calm(f, needle, '"');
            lemma_quoted_calm("data-ferrix-numfmt"@, attr_escaped(f), needle);
        },
        None => {},
    }
}

/// The words for the lines hold neither markup nor whitespace.
proof fn lemma_line_words()
    ensures
        inert("underline"@),
        inert("line-through"@),
        forall|i: int| 0 <= i < "underline"@.len() ==> !whitespace(#[trigger] "underline"@[i]),
        forall|i: int| 0 <= i < "line-through"@.len() ==> !whitespace(#[trigger] "line-through"@[i]),
        "underline"@ != "line-through"@,
{
    reveal_strlit("underline");
    reveal_strlit("line-through");
    assert("underline"@.len() != "line-through"@.len());
}

proof fn lemma_line_attr_calm(c: CellText, needle: Seq<char>)
    requires
        sought(needle),
        apart("data-ferrix-lines"@, needle),
    ensures
        calm(line_attr(c), needle),
{
    reveal(sought);
    lemma_calm_solid(Seq::empty(), needle);
    lemma_names();
    lemma_line_words();
    match line_said(c.style) {
        Some(w) => {
            let e = w.push('"');
            assert forall|i: int| 0 <= i < e.len() implies !whitespace(#[trigger] e[i]) by {
                if i < w.len() {
                    assert(e[i] == w[i]);
                }
            }
            lemma_calm_solid(e, needle);
            lemma_quoted_calm("data-ferrix-lines"@, w, needle);
        },
        None => {},
    }
}

proof fn lemma_source_attr_calm(c: CellText, needle: Seq<char>)
    requires
        sought(needle),
        c.formula is Some ==> apart("data-ferrix-formula"@, needle),
    ensures
        calm(source_attr(c), needle),
{
    reveal(sought);
    lemma_calm_solid(Seq::empty(), needle);
    lemma_names();
    match c.formula {
        Some(f) => {
            lemma_field_calm(f, needle, '"');
            lemma_quoted_calm("data-ferrix-formula"@, attr_escaped(f), needle);
        },
        None => {},
    }
}

proof fn lemma_place_attr_calm(c: CellText, needle: Seq<char>)
    requires
        sought(needle),
        c.formula is Some ==> apart("data-ferrix-origin"@, needle),
    ensures
        calm(place_attr(c), needle),
{
    reveal(sought);
    lemma_calm_solid(Seq::empty(), needle);
    lemma_names();
    match (c.formula, c.origin) {
        (Some(_), Some(o)) => {
            lemma_place_text(o);
            lemma_calm_solid(place_text(o).push('"'), needle);
            lemma_quoted_calm("data-ferrix-origin"@, place_text(o), needle);
        },
        _ => {},
    }
}

// ---------------------------------------------------------------- reading --

/// A quoted attribute reads back.
proof fn lemma_read_quoted(pre: Seq<char>, name: Seq<char>, val: Seq<char>, post: Seq<char>)
    requires
        pre.len() > 0,
        pre[0] == '<',
        sought(name.push('=')),
        calm(pre, name.push('=')),
        lacks(val, '"'),
    ensures
        attr_value(pre + quoted(name, val) + post, name) == Some(val),
{
    reveal(sought);
    reveal(quoted);
    lemma_read_attr(pre, name, val, post);
    assert(pre + quoted(name, val) + post =~= pre + seq![' '] + name + seq!['=', '"'] + val
        + seq!['"'] + post);
}

/// An attribute that a tag nowhere spells is not there.
proof fn lemma_unread(tag: Seq<char>, name: Seq<char>)
    requires
        tag.len() > 0,
        tag[0] == '<',
        sought(name.push('=')),
        calm(tag, name.push('=')),
    ensures
        attr_value(tag, name) is None,
{
    reveal(sought);
    lemma_no_attr(tag, name.push('='), 0);
}

/// The tag's opening spells nothing.
proof fn lemma_open_calm(needle: Seq<char>)
    ensures
        calm("<td"@, needle),
        "<td"@.len() == 3,
        "<td"@[0] == '<',
{
    reveal_strlit("<td");
    lemma_calm_solid("<td"@, needle);
}

/// Neither the style's name nor the number format's.
spec fn foreign_to_front(needle: Seq<char>) -> bool {
    apart("style"@, needle) && apart("data-ferrix-numfmt"@, needle)
}

/// The style of a cell's tag spells nothing that it should not.
proof fn lemma_style_calm(c: CellText, needle: Seq<char>)
    requires
        carriable(c),
        sought(needle),
        apart("style"@, needle),
    ensures
        calm("<td"@ + style_attr(c), needle),
{
    lemma_open_calm(needle);
    lemma_style_attr_calm(c, needle);
    lemma_calm_joined("<td"@, style_attr(c), needle);
}

/// Nor do the style and the number format together.
proof fn lemma_front_calm(c: CellText, needle: Seq<char>)
    requires
        carriable(c),
        sought(needle),
        foreign_to_front(needle),
    ensures
        calm("<td"@ + style_attr(c) + code_attr(c), needle),
{
    lemma_style_calm(c, needle);
    lemma_code_attr_calm(c, needle);
    lemma_calm_joined("<td"@ + style_attr(c), code_attr(c), needle);
}

/// Nor does what comes before the formula.
proof fn lemma_looks_calm(c: CellText, needle: Seq<char>)
    requires
        carriable(c),
        sought(needle),
        foreign_to_front(needle),
        apart("data-ferrix-lines"@, needle),
    ensures
        calm("<td"@ + style_attr(c) + code_attr(c) + line_attr(c), needle),
{
    lemma_front_calm(c, needle);
    lemma_line_attr_calm(c, needle);
    lemma_calm_joined("<td"@ + style_attr(c) + code_attr(c), line_attr(c), needle);
}

/// Nor does what comes behind the lines.
proof fn lemma_back_calm(c: CellText, needle: Seq<char>)
    requires
        sought(needle),
        apart("data-ferrix-formula"@, needle),
        apart("data-ferrix-origin"@, needle),
    ensures
        calm(source_attr(c) + place_attr(c), needle),
{
    lemma_source_attr_calm(c, needle);
    lemma_place_attr_calm(c, needle);
    lemma_calm_joined(source_attr(c), place_attr(c), needle);
}

proof fn lemma_style_read(c: CellText)
    requires
        carriable(c),
    ensures
        attr_value(cell_tag(c), "style"@) == if styled(c) {
            Some(style_text(c))
        } else {
            None
        },
{
    lemma_names();
    lemma_apart();
    lemma_tag_form(c);
    let needle = "style"@.push('=');
    let open = "<td"@;
    lemma_open_calm(needle);
    let back = source_attr(c) + place_attr(c);
    if styled(c) {
        let post = code_attr(c) + line_attr(c) + back;
        lemma_style_inert(c);
        lemma_read_quoted(open, "style"@, style_text(c), post);
        assert(cell_tag(c) =~= open + style_attr(c) + post);
    } else {
        lemma_back_calm(c, needle);
        lemma_calm_joined(open, back, needle);
        assert(line_attr(c) =~= Seq::<char>::empty());
        assert(cell_tag(c) =~= open + back);
        lemma_unread(cell_tag(c), "style"@);
    }
}

proof fn lemma_code_read(c: CellText)
    requires
        carriable(c),
    ensures
        attr_value(cell_tag(c), "data-ferrix-numfmt"@) == match c.format {
            Some(f) => Some(attr_escaped(f)),
            None => None,
        },
{
    lemma_names();
    lemma_apart();
    lemma_tag_form(c);
    let needle = "data-ferrix-numfmt"@.push('=');
    let pre = "<td"@ + style_attr(c);
    let back = source_attr(c) + place_attr(c);
    let post = line_attr(c) + back;
    lemma_open_calm(needle);
    lemma_style_calm(c, needle);
    match c.format {
        Some(f) => {
            lemma_attr_inert(f);
            lemma_read_quoted(pre, "data-ferrix-numfmt"@, attr_escaped(f), post);
            assert(cell_tag(c) =~= pre + code_attr(c) + post);
        },
        None => {
            lemma_line_attr_calm(c, needle);
            lemma_back_calm(c, needle);
            lemma_calm_joined(line_attr(c), back, needle);
            lemma_calm_joined(pre, post, needle);
            assert(cell_tag(c) =~= pre + post);
            lemma_unread(cell_tag(c), "data-ferrix-numfmt"@);
        },
    }
}

proof fn lemma_line_read(c: CellText)
    requires
        carriable(c),
    ensures
        attr_value(cell_tag(c), "data-ferrix-lines"@) == line_said(c.style),
{
    lemma_names();
    lemma_apart();
    lemma_tag_form(c);
    lemma_line_words();
    let needle = "data-ferrix-lines"@.push('=');
    let pre = "<td"@ + style_attr(c) + code_attr(c);
    let back = source_attr(c) + place_attr(c);
    lemma_open_calm(needle);
    lemma_front_calm(c, needle);
    match line_said(c.style) {
        Some(w) => {
            lemma_read_quoted(pre, "data-ferrix-lines"@, w, back);
            assert(cell_tag(c) =~= pre + line_attr(c) + back);
        },
        None => {
            lemma_back_calm(c, needle);
            lemma_calm_joined(pre, back, needle);
            assert(cell_tag(c) =~= pre + back);
            lemma_unread(cell_tag(c), "data-ferrix-lines"@);
        },
    }
}

proof fn lemma_source_read(c: CellText)
    requires
        carriable(c),
    ensures
        attr_value(cell_tag(c), "data-ferrix-formula"@) == match c.formula {
            Some(f) => Some(attr_escaped(f)),
            None => None,
        },
        c.formula is None ==> attr_value(cell_tag(c), "x:fmla"@) is None,
{
    lemma_names();
    lemma_apart();
    lemma_tag_form(c);
    let needle = "data-ferrix-formula"@.push('=');
    let pre = "<td"@ + style_attr(c) + code_attr(c) + line_attr(c);
    lemma_open_calm(needle);
    lemma_looks_calm(c, needle);
    match c.formula {
        Some(f) => {
            let post = place_attr(c);
            lemma_attr_inert(f);
            lemma_read_quoted(pre, "data-ferrix-formula"@, attr_escaped(f), post);
            assert(cell_tag(c) =~= pre + source_attr(c) + post);
        },
        None => {
            assert(cell_tag(c) =~= pre);
            lemma_unread(pre, "data-ferrix-formula"@);
            lemma_looks_calm(c, "x:fmla"@.push('='));
            lemma_unread(pre, "x:fmla"@);
        },
    }
}

proof fn lemma_place_read(c: CellText)
    requires
        carriable(c),
    ensures
        attr_value(cell_tag(c), "data-ferrix-origin"@) == match (c.formula, c.origin) {
            (Some(_), Some(o)) => Some(place_text(o)),
            _ => None,
        },
        attr_value(cell_tag(c), "colspan"@) is None,
{
    lemma_names();
    lemma_apart();
    lemma_tag_form(c);
    let needle = "data-ferrix-origin"@.push('=');
    let front = "<td"@ + style_attr(c) + code_attr(c) + line_attr(c);
    lemma_open_calm(needle);
    lemma_looks_calm(c, needle);
    lemma_source_attr_calm(c, needle);
    lemma_calm_joined(front, source_attr(c), needle);
    let pre = front + source_attr(c);
    match (c.formula, c.origin) {
        (Some(_), Some(o)) => {
            lemma_place_text(o);
            let none = Seq::<char>::empty();
            lemma_read_quoted(pre, "data-ferrix-origin"@, place_text(o), none);
            assert(cell_tag(c) =~= pre + place_attr(c) + none);
        },
        _ => {
            assert(cell_tag(c) =~= pre);
            lemma_unread(pre, "data-ferrix-origin"@);
        },
    }
    let span = "colspan"@.push('=');
    lemma_looks_calm(c, span);
    lemma_back_calm(c, span);
    lemma_calm_joined(front, source_attr(c) + place_attr(c), span);
    assert(cell_tag(c) =~= front + (source_attr(c) + place_attr(c)));
    lemma_unread(cell_tag(c), "colspan"@);
}

// ------------------------------------------------------------ what is kept --

/// A formula as it comes back: what does not begin with `=` is none.
pub open spec fn kept_formula(f: Option<Seq<char>>) -> Option<Seq<char>> {
    match f {
        Some(s) => if s.len() > 0 && s[0] == '=' {
            f
        } else {
            None
        },
        None => None,
    }
}

/// A number format as it comes back: the general one is none.
pub open spec fn kept_format(f: Option<Seq<char>>) -> Option<Seq<char>> {
    match f {
        Some(s) => if s.len() == 0 || s == "General"@ {
            None
        } else {
            f
        },
        None => None,
    }
}

/// A cell as it comes back.
pub open spec fn kept_cell(c: CellText) -> CellText {
    CellText {
        text: c.text,
        formula: kept_formula(c.formula),
        format: kept_format(c.format),
        style: c.style,
        origin: if c.formula is Some {
            c.origin
        } else {
            None
        },
    }
}

proof fn lemma_style_kept(c: CellText)
    requires
        carriable(c),
    ensures
        style_of(cell_tag(c)) == c.style,
        c.format is None ==> style_value(cell_tag(c), "mso-number-format"@) is None,
{
    let tag = cell_tag(c);
    let rules = style_rules(c.style);
    lemma_style_read(c);
    lemma_style_tidy(c.style);
    assert forall|i: int| 0 <= i < rules.len() implies one_piece(#[trigger] rules[i]) by {
        assert(tidy(rules[i]));
    }
    reveal_strlit("<td");
    reveal_strlit("<th");
    lemma_tag_form(c);
    if is_header(tag) {
        let low = ascii_lowered(tag);
        assert(low.subrange(0, 3)[2] == "<th"@[2]);
        assert(tag[2] == "<td"@[2]);
        assert(false);
    }
    if !styled(c) {
        assert(rules =~= Seq::<Seq<char>>::empty());
        assert forall|prop: Seq<char>| #[trigger] style_value(tag, prop) == declared(rules, prop) by {}
    } else {
        match c.format {
            Some(f) => {
                let name = "mso-number-format"@;
                reveal_strlit("mso-number-format");
                reveal_strlit("mso-number-format:'");
                reveal_strlit("'");
                let value = seq!['\''] + attr_escaped(f) + seq!['\''];
                let first = name + seq![':'] + value;
                assert(style_text(c) =~= first + rules_text(rules, true));
                a_code_is_one_declaration(f);
                lemma_first_settled(name + seq![':'], value);
                lemma_split_after(first, rules);
                assert forall|prop: Seq<char>|
                    prop != "mso-number-format"@ implies #[trigger] style_value(tag, prop)
                    == declared(rules, prop) by {
                    lemma_declared_joined(seq![first], rules, prop);
                    lemma_one_declared(name, value, prop);
                }
            },
            None => {
                if rules.len() == 0 {
                    lemma_some_rule(c.style);
                }
                lemma_split_rules(rules);
                assert forall|prop: Seq<char>| #[trigger] style_value(tag, prop) == declared(
                    rules,
                    prop,
                ) by {}
            },
        }
    }
    lemma_line_read(c);
    lemma_line_words();
    lemma_style_of(tag, c.style);
    lemma_no_format_rule(c.style);
}

/// A plain beginning does not change what a quoted text settles to.
proof fn lemma_first_settled(a: Seq<char>, b: Seq<char>)
    requires
        one_piece(a),
    ensures
        settled(a + b, None) == settled(b, None),
    decreases a.len(),
{
    if a.len() == 0 {
        assert(a + b =~= b);
    } else {
        let s = a + b;
        let tail = a.subrange(1, a.len() as int);
        assert(s.subrange(1, s.len() as int) =~= tail + b);
        lemma_first_settled(tail, b);
    }
}

/// A style that is not plain has a rule.
proof fn lemma_some_rule(s: StyleText)
    requires
        s != StyleText::plain(),
    ensures
        style_rules(s).len() > 0,
{
}

/// A number with a comma behind it and another reads back.
proof fn lemma_place_kept(c: CellText)
    requires
        carriable(c),
    ensures
        origin_of(cell_tag(c)) == kept_cell(c).origin,
{
    lemma_place_read(c);
    match (c.formula, c.origin) {
        (Some(_), Some(o)) => {
            let a = decimal(o.row as nat);
            let b = decimal(o.col as nat);
            let v = place_text(o);
            lemma_decimal(o.row as nat);
            lemma_decimal(o.col as nat);
            let back = seq![','] + b;
            assert(v =~= a + back);
            assert forall|k: int| 0 <= k < a.len() implies a[k] != ',' by {
                assert(digit(a[k]));
            }
            lemma_char_found(a, back, ',', 0);
            assert(v.subrange(0, a.len() as int) =~= a);
            assert(v.subrange(a.len() as int + 1, v.len() as int) =~= b);
            assert(digit(a[0]) && digit(a.last()) && digit(b[0]) && digit(b.last()));
            lemma_snug(a);
            lemma_snug(b);
        },
        _ => {},
    }
}

/// A cell's tag and text, read again, are the cell.
pub(crate) proof fn lemma_cell_kept(c: CellText)
    requires
        carriable(c),
    ensures
        cell_of(cell_tag(c), text_written(c.text)) == kept_cell(c),
        span_of(cell_tag(c)) == 1,
{
    lemma_style_kept(c);
    lemma_code_read(c);
    lemma_source_read(c);
    lemma_place_read(c);
    lemma_place_kept(c);
    written_text_reads_back(c.text);
    match c.format {
        Some(f) => an_escaped_attribute_reads_back(f),
        None => {},
    }
    match c.formula {
        Some(f) => an_escaped_attribute_reads_back(f),
        None => {},
    }
    assert(format_of(cell_tag(c)) == kept_format(c.format));
    assert(formula_of(cell_tag(c)) == kept_formula(c.formula));
}

/// An attribute without markup in its value has none.
proof fn lemma_quoted_plain(name: Seq<char>, val: Seq<char>)
    requires
        sought(name.push('=')),
        inert(val),
    ensures
        lacks(quoted(name, val), '<'),
        lacks(quoted(name, val), '>'),
{
    reveal(quoted);
    reveal(sought);
    let q = quoted(name, val);
    assert forall|i: int| 0 <= i < q.len() implies q[i] != '<' && q[i] != '>' by {
        if 1 <= i <= name.len() {
            assert(q[i] == name.push('=')[i - 1]);
        } else if name.len() + 3 <= i < q.len() - 1 {
            assert(q[i] == val[i - name.len() - 3]);
        }
    }
}

/// No attribute of a cell's tag opens or closes a tag.
proof fn lemma_attrs_plain(c: CellText)
    requires
        carriable(c),
    ensures
        lacks(style_attr(c), '<') && lacks(style_attr(c), '>'),
        lacks(code_attr(c), '<') && lacks(code_attr(c), '>'),
        lacks(line_attr(c), '<') && lacks(line_attr(c), '>'),
        lacks(source_attr(c), '<') && lacks(source_attr(c), '>'),
        lacks(place_attr(c), '<') && lacks(place_attr(c), '>'),
{
    lemma_names();
    lemma_style_inert(c);
    lemma_quoted_plain("style"@, style_text(c));
    match c.format {
        Some(f) => {
            lemma_attr_inert(f);
            lemma_quoted_plain("data-ferrix-numfmt"@, attr_escaped(f));
        },
        None => {},
    }
    lemma_line_words();
    match line_said(c.style) {
        Some(w) => lemma_quoted_plain("data-ferrix-lines"@, w),
        None => {},
    }
    match c.formula {
        Some(f) => {
            lemma_attr_inert(f);
            lemma_quoted_plain("data-ferrix-formula"@, attr_escaped(f));
        },
        None => {},
    }
    match c.origin {
        Some(o) => {
            lemma_place_text(o);
            lemma_quoted_plain("data-ferrix-origin"@, place_text(o));
        },
        None => {},
    }
}

proof fn lemma_lacks_joined(a: Seq<char>, b: Seq<char>)
    requires
        lacks(a, '<') && lacks(a, '>'),
        lacks(b, '<') && lacks(b, '>'),
    ensures
        lacks(a + b, '<') && lacks(a + b, '>'),
{
}

/// Nothing in a cell's tag but its first character opens a tag, and nothing closes
/// it.
pub(crate) proof fn lemma_tag_plain(c: CellText)
    requires
        carriable(c),
    ensures
        cell_tag(c).len() >= 3,
        cell_tag(c).subrange(0, 3) == "<td"@,
        lacks(cell_tag(c), '>'),
        forall|i: int| 1 <= i < cell_tag(c).len() ==> #[trigger] cell_tag(c)[i] != '<',
{
    reveal_strlit("<td");
    lemma_tag_form(c);
    lemma_attrs_plain(c);
    let a1 = style_attr(c) + code_attr(c);
    let a2 = a1 + line_attr(c);
    let a3 = a2 + source_attr(c);
    let all = a3 + place_attr(c);
    lemma_lacks_joined(style_attr(c), code_attr(c));
    lemma_lacks_joined(a1, line_attr(c));
    lemma_lacks_joined(a2, source_attr(c));
    lemma_lacks_joined(a3, place_attr(c));
    let tag = cell_tag(c);
    assert(tag =~= "<td"@ + all);
    assert forall|i: int| 1 <= i < tag.len() implies #[trigger] tag[i] != '<' by {
        if i >= 3 {
            assert(tag[i] == all[i - 3]);
        }
    }
    assert forall|i: int| 0 <= i < tag.len() implies tag[i] != '>' by {
        if i >= 3 {
            assert(tag[i] == all[i - 3]);
        }
    }
    assert(tag.subrange(0, 3) =~= "<td"@);
}

} // verus!
