//! Reading the HTML flavour of the clipboard back into a block.
//!
//! A deliberately small tolerant scanner: the input is machine-generated table
//! markup. Anything it does not understand degrades to text.

use crate::clipboard::{
    grid_text, grid_view, html_like, looks_like_html, string_view, widest, BlockView, CellView,
    ClipBlock, LengthReader,
};
use crate::format::FontFamily;
use crate::markup::{
    attr, attr_value, css_color, inner_text, parse_css_color, strip_tags, style_prop, style_value,
    unescape, unescaped,
};
use crate::spelled::{
    cell_texts, parse_len_pt, width_texts, BlockText, CellText, LengthView, SpelledBlock,
    SpelledCell, SpelledStyle, SpelledWidth, StyleText, WidthText,
};
use crate::table::CellRef;
use crate::text::{
    ascii_lowered, chars_of, contains_str, find, find_from, find_str, find_word, has_at, has_word,
    is_at, is_word, lower_all, parse_whole, slice_of, string_of, trim_range, trimmed, whole_number,
};
use crate::value::F32;
use vstd::prelude::*;

verus! {

// ----------------------------------------------------------------- cells --

/// `a`, or `b` where `a` is missing.
pub open spec fn either(a: Option<Seq<char>>, b: Option<Seq<char>>) -> Option<Seq<char>> {
    match a {
        Some(_) => a,
        None => b,
    }
}

/// The formula that a tag carries: it starts with `=`.
pub open spec fn formula_of(tag: Seq<char>) -> Option<Seq<char>> {
    match either(attr_value(tag, "data-ferrix-formula"@), attr_value(tag, "x:fmla"@)) {
        Some(f) => if unescaped(f).len() > 0 && unescaped(f)[0] == '=' {
            Some(unescaped(f))
        } else {
            None
        },
        None => None,
    }
}

/// A row and a column with a comma between.
pub open spec fn origin_of(tag: Seq<char>) -> Option<CellRef> {
    match attr_value(tag, "data-ferrix-origin"@) {
        Some(v) => {
            let k = find_from(v, ',', 0);
            if k < v.len() {
                match (
                    whole_number(trimmed(v.subrange(0, k)), u32::MAX as nat),
                    whole_number(trimmed(v.subrange(k + 1, v.len() as int)), u32::MAX as nat),
                ) {
                    (Some(row), Some(col)) => Some(CellRef { row: row as u32, col: col as u32 }),
                    _ => None,
                }
            } else {
                None
            }
        },
        None => None,
    }
}

/// Each `\.` made a plain point.
pub open spec fn plain_points(s: Seq<char>) -> Seq<char>
    decreases s.len(),
{
    if s.len() == 0 {
        Seq::empty()
    } else if s.len() >= 2 && s[0] == '\\' && s[1] == '.' {
        seq!['.'] + plain_points(s.subrange(2, s.len() as int))
    } else {
        seq![s[0]] + plain_points(s.subrange(1, s.len() as int))
    }
}

/// A code out of a style, where it may stand in apostrophes.
pub open spec fn unquoted_code(s: Seq<char>) -> Seq<char> {
    let c = trimmed(s);
    let d = if c.len() >= 2 && c[0] == '\'' && c.last() == '\'' {
        c.subrange(1, c.len() - 1)
    } else {
        c
    };
    unescaped(plain_points(d))
}

/// The number format code that a tag carries; the general format is none.
pub open spec fn format_of(tag: Seq<char>) -> Option<Seq<char>> {
    let code = match attr_value(tag, "data-ferrix-numfmt"@) {
        Some(c) => Some(unescaped(c)),
        None => match style_value(tag, "mso-number-format"@) {
            Some(c) => Some(unquoted_code(c)),
            None => None,
        },
    };
    match code {
        Some(c) => if c.len() == 0 || c == "General"@ {
            None
        } else {
            Some(c)
        },
        None => None,
    }
}

/// Bold by name, or by a weight of 600 and up.
pub open spec fn is_bold(v: Seq<char>) -> bool {
    let t = ascii_lowered(trimmed(v));
    t == "bold"@ || t == "bolder"@ || (whole_number(t, u32::MAX as nat) matches Some(n) && n >= 600)
}

pub open spec fn is_mono(v: Seq<char>) -> bool {
    let t = ascii_lowered(v);
    has_word(t, "monospace"@) || has_word(t, "courier"@) || has_word(t, "consolas"@) || has_word(
        t,
        "mono"@,
    )
}

/// Whether this is a header cell's tag.
pub open spec fn is_header(tag: Seq<char>) -> bool {
    has_at(ascii_lowered(tag), 0, "<th"@)
}

/// Whether a tag tells that of underline and strikethrough only this one is said.
pub open spec fn only_says(tag: Seq<char>, line: Seq<char>) -> bool {
    attr_value(tag, "data-ferrix-lines"@) == Some(line)
}

/// The style that a tag carries. A header cell is bold unless it says otherwise.
pub open spec fn style_of(tag: Seq<char>) -> StyleText {
    StyleText {
        fill: match either(style_value(tag, "background-color"@), style_value(tag, "background"@)) {
            Some(v) => css_color(v),
            None => None,
        },
        text: match style_value(tag, "color"@) {
            Some(v) => css_color(v),
            None => None,
        },
        bold: match style_value(tag, "font-weight"@) {
            Some(v) => Some(is_bold(v)),
            None => if is_header(tag) {
                Some(true)
            } else {
                None
            },
        },
        italic: match style_value(tag, "font-style"@) {
            Some(v) => Some(ascii_lowered(trimmed(v)) == "italic"@),
            None => None,
        },
        underline: match style_value(tag, "text-decoration"@) {
            Some(v) => if only_says(tag, "line-through"@) {
                None
            } else {
                Some(has_word(ascii_lowered(v), "underline"@))
            },
            None => None,
        },
        strikethrough: match style_value(tag, "text-decoration"@) {
            Some(v) => if only_says(tag, "underline"@) {
                None
            } else {
                Some(has_word(ascii_lowered(v), "line-through"@))
            },
            None => None,
        },
        family: match style_value(tag, "font-family"@) {
            Some(v) => Some(
                if is_mono(v) {
                    FontFamily::Monospace
                } else {
                    FontFamily::Proportional
                },
            ),
            None => None,
        },
        size: match style_value(tag, "font-size"@) {
            Some(v) => LengthView::read(v),
            None => None,
        },
    }
}

/// The cell that a tag and what follows it make.
pub open spec fn cell_of(tag: Seq<char>, content: Seq<char>) -> CellText {
    CellText {
        text: inner_text(content),
        formula: formula_of(tag),
        format: format_of(tag),
        style: style_of(tag),
        origin: origin_of(tag),
    }
}

fn read_formula(tag: &Vec<char>) -> (r: Option<String>)
    ensures
        string_view(r) == formula_of(tag@),
{
    let raw = match attr(tag, "data-ferrix-formula") {
        Some(f) => Some(f),
        None => attr(tag, "x:fmla"),
    };
    match raw {
        Some(f) => {
            let text = unescape(&f);
            if text.len() > 0 && text[0] == '=' {
                Some(string_of(&text))
            } else {
                None
            }
        },
        None => None,
    }
}

fn read_origin(tag: &Vec<char>) -> (r: Option<CellRef>)
    ensures
        r == origin_of(tag@),
{
    match attr(tag, "data-ferrix-origin") {
        Some(v) => {
            let k: usize = find(&v, ',', 0);
            if k >= v.len() {
                return None;
            }
            let row = parse_whole(&trim_range(&v, 0, k), u32::MAX as u64);
            let col = parse_whole(&trim_range(&v, k + 1, v.len()), u32::MAX as u64);
            match (row, col) {
                (Some(row), Some(col)) => Some(CellRef { row: row as u32, col: col as u32 }),
                _ => None,
            }
        },
        None => None,
    }
}

fn unslash(cs: &Vec<char>) -> (out: Vec<char>)
    ensures
        out@ == plain_points(cs@),
{
    let n: usize = cs.len();
    let mut out: Vec<char> = Vec::new();
    let mut i: usize = 0;
    assert(cs@.subrange(0, n as int) =~= cs@);
    assert(out@ + plain_points(cs@) =~= plain_points(cs@));
    while i < n
        invariant
            i <= n == cs@.len(),
            out@ + plain_points(cs@.subrange(i as int, n as int)) == plain_points(cs@),
        decreases n - i,
    {
        let ghost so_far = out@;
        let ghost rest = cs@.subrange(i as int, n as int);
        let mut step: usize = 1;
        let mut c = cs[i];
        if n - i >= 2 && c == '\\' && cs[i + 1] == '.' {
            c = '.';
            step = 2;
        }
        out.push(c);
        i = i + step;
        proof {
            assert(rest.subrange(step as int, rest.len() as int) =~= cs@.subrange(
                i as int,
                n as int,
            ));
            assert(plain_points(rest) == seq![c] + plain_points(cs@.subrange(i as int, n as int)));
            assert(out@ + plain_points(cs@.subrange(i as int, n as int)) =~= so_far
                + plain_points(rest));
        }
    }
    assert(out@ + Seq::<char>::empty() =~= out@);
    out
}

fn read_format(tag: &Vec<char>) -> (r: Option<String>)
    ensures
        string_view(r) == format_of(tag@),
{
    let code: Vec<char> = match attr(tag, "data-ferrix-numfmt") {
        Some(c) => unescape(&c),
        None => match style_prop(tag, "mso-number-format") {
            Some(v) => {
                let c = trim_range(&v, 0, v.len());
                assert(v@.subrange(0, v@.len() as int) =~= v@);
                let n: usize = c.len();
                if n >= 2 && c[0] == '\'' && c[n - 1] == '\'' {
                    unescape(&unslash(&slice_of(&c, 1, n - 1)))
                } else {
                    unescape(&unslash(&c))
                }
            },
            None => {
                return None;
            },
        },
    };
    if code.len() == 0 || is_word(&code, "General") {
        None
    } else {
        Some(string_of(&code))
    }
}

fn reads_bold(v: &Vec<char>) -> (b: bool)
    ensures
        b == is_bold(v@),
{
    let t = lower_all(&trim_range(v, 0, v.len()));
    assert(v@.subrange(0, v@.len() as int) =~= v@);
    if is_word(&t, "bold") || is_word(&t, "bolder") {
        return true;
    }
    match parse_whole(&t, u32::MAX as u64) {
        Some(n) => n >= 600,
        None => false,
    }
}

fn reads_italic(v: &Vec<char>) -> (b: bool)
    ensures
        b == (ascii_lowered(trimmed(v@)) == "italic"@),
{
    let t = lower_all(&trim_range(v, 0, v.len()));
    assert(v@.subrange(0, v@.len() as int) =~= v@);
    is_word(&t, "italic")
}

fn reads_mono(v: &Vec<char>) -> (b: bool)
    ensures
        b == is_mono(v@),
{
    let t = lower_all(v);
    contains_str(&t, "monospace") || contains_str(&t, "courier") || contains_str(&t, "consolas")
        || contains_str(&t, "mono")
}

fn reads_only(tag: &Vec<char>, line: &str) -> (b: bool)
    ensures
        b == only_says(tag@, line@),
{
    match attr(tag, "data-ferrix-lines") {
        Some(v) => is_word(&v, line),
        None => false,
    }
}

fn read_style(tag: &Vec<char>) -> (r: SpelledStyle)
    ensures
        r@ == style_of(tag@),
{
    let ground = match style_prop(tag, "background-color") {
        Some(v) => Some(v),
        None => style_prop(tag, "background"),
    };
    let fill = match ground {
        Some(v) => parse_css_color(&v),
        None => None,
    };
    let text = match style_prop(tag, "color") {
        Some(v) => parse_css_color(&v),
        None => None,
    };
    let bold = match style_prop(tag, "font-weight") {
        Some(v) => Some(reads_bold(&v)),
        None => if is_at(&lower_all(tag), 0, "<th") {
            Some(true)
        } else {
            None
        },
    };
    let italic = match style_prop(tag, "font-style") {
        Some(v) => Some(reads_italic(&v)),
        None => None,
    };
    let (underline, strikethrough) = match style_prop(tag, "text-decoration") {
        Some(v) => {
            let t = lower_all(&v);
            let underline = if reads_only(tag, "line-through") {
                None
            } else {
                Some(contains_str(&t, "underline"))
            };
            let strikethrough = if reads_only(tag, "underline") {
                None
            } else {
                Some(contains_str(&t, "line-through"))
            };
            (underline, strikethrough)
        },
        None => (None, None),
    };
    let family = match style_prop(tag, "font-family") {
        Some(v) => Some(
            if reads_mono(&v) {
                FontFamily::Monospace
            } else {
                FontFamily::Proportional
            },
        ),
        None => None,
    };
    let size = match style_prop(tag, "font-size") {
        Some(v) => parse_len_pt(&v),
        None => None,
    };
    SpelledStyle { fill, text, bold, italic, underline, strikethrough, family, size }
}

/// The cell that a tag and what follows it make.
fn parse_cell(tag: &Vec<char>, content: &Vec<char>) -> (r: SpelledCell)
    ensures
        r@ == cell_of(tag@, content@),
{
    SpelledCell {
        text: string_of(&strip_tags(content)),
        formula: read_formula(tag),
        format: read_format(tag),
        style: read_style(tag),
        origin: read_origin(tag),
    }
}

// ------------------------------------------------------------------ rows --

/// How many columns a cell spans: at least one and at most 4096.
pub open spec fn span_of(tag: Seq<char>) -> nat {
    match attr_value(tag, "colspan"@) {
        Some(v) => match whole_number(trimmed(v), usize::MAX as nat) {
            Some(n) => if n < 1 {
                1
            } else if n > 4096 {
                4096
            } else {
                n
            },
            None => 1,
        },
        None => 1,
    }
}

pub open spec fn blanks(n: nat) -> Seq<CellText> {
    Seq::new(n, |i: int| CellText::blank())
}

/// Where the next cell's tag begins.
pub open spec fn next_cell(low: Seq<char>, pos: int) -> int {
    let td = find_word(low, "<td"@, pos);
    let th = find_word(low, "<th"@, pos);
    if td < th {
        td
    } else {
        th
    }
}

/// The word that closes a cell whose tag begins at `start`.
pub open spec fn closing(low: Seq<char>, start: int) -> Seq<char> {
    if has_at(low, start, "<th"@) {
        "</th"@
    } else {
        "</td"@
    }
}

/// The cells of a row from `pos` on. A cell that spans several columns is
/// followed by blank ones, so that later cells stay under their headers.
pub open spec fn cells_from(s: Seq<char>, pos: int) -> Seq<CellText>
    decreases s.len() - pos,
{
    let low = ascii_lowered(s);
    let n = s.len() as int;
    let start = next_cell(low, pos);
    let gt = find_from(low, '>', start);
    let end = find_word(low, closing(low, start), gt + 1);
    if !(0 <= pos <= start && start <= gt < n) {
        Seq::empty()
    } else {
        let tag = s.subrange(start, gt);
        let here = seq![cell_of(tag, s.subrange(gt + 1, end))] + blanks(
            (span_of(tag) - 1) as nat,
        );
        if gt < end < n {
            here + cells_from(s, end)
        } else {
            here
        }
    }
}

/// The rows of a table's markup from `pos` on.
pub open spec fn rows_from(s: Seq<char>, pos: int) -> Seq<Seq<CellText>>
    decreases s.len() - pos,
{
    let low = ascii_lowered(s);
    let n = s.len() as int;
    let start = find_word(low, "<tr"@, pos);
    let gt = find_from(low, '>', start);
    let end = find_word(low, "</tr"@, gt + 1);
    if !(0 <= pos <= start && start <= gt < n) {
        Seq::empty()
    } else {
        let here = seq![cells_from(s.subrange(gt + 1, end), 0)];
        if gt < end < n {
            here + rows_from(s, end)
        } else {
            here
        }
    }
}

fn read_span(tag: &Vec<char>) -> (n: usize)
    ensures
        n == span_of(tag@),
{
    match attr(tag, "colspan") {
        Some(v) => {
            let t = trim_range(&v, 0, v.len());
            assert(v@.subrange(0, v@.len() as int) =~= v@);
            match parse_whole(&t, usize::MAX as u64) {
                Some(n) => if n < 1 {
                    1
                } else if n > 4096 {
                    4096
                } else {
                    n as usize
                },
                None => 1,
            }
        },
        None => 1,
    }
}

fn push_blanks(out: &mut Vec<SpelledCell>, n: usize)
    ensures
        cell_texts(final(out)@) == cell_texts(old(out)@) + blanks(n as nat),
{
    let mut i: usize = 0;
    assert(cell_texts(out@) =~= cell_texts(old(out)@) + blanks(0));
    while i < n
        invariant
            i <= n,
            cell_texts(out@) == cell_texts(old(out)@) + blanks(i as nat),
        decreases n - i,
    {
        let ghost before = out@;
        out.push(SpelledCell::default());
        i = i + 1;
        assert(cell_texts(out@) =~= cell_texts(before).push(CellText::blank()));
        assert(cell_texts(out@) =~= cell_texts(old(out)@) + blanks(i as nat));
    }
}

/// The cells of one row's markup.
fn parse_row(body: &Vec<char>) -> (out: Vec<SpelledCell>)
    ensures
        cell_texts(out@) == cells_from(body@, 0),
{
    let low = lower_all(body);
    let n: usize = body.len();
    let mut out: Vec<SpelledCell> = Vec::new();
    let mut pos: usize = 0;
    let ghost whole = cells_from(body@, 0);
    assert(cell_texts(out@) + whole =~= whole);
    loop
        invariant_except_break
            pos <= n == body@.len(),
            low@ == ascii_lowered(body@),
            cell_texts(out@) + cells_from(body@, pos as int) == whole,
        ensures
            cell_texts(out@) == whole,
        decreases n - pos,
    {
        let td: usize = find_str(&low, "<td", pos);
        let th: usize = find_str(&low, "<th", pos);
        let start: usize = if td < th {
            td
        } else {
            th
        };
        let gt: usize = find(&low, '>', start);
        if gt >= n {
            assert(cell_texts(out@) + Seq::<CellText>::empty() =~= cell_texts(out@));
            break;
        }
        let tag = slice_of(body, start, gt);
        let end: usize = if is_at(&low, start, "<th") {
            find_str(&low, "</th", gt + 1)
        } else {
            find_str(&low, "</td", gt + 1)
        };
        let content = slice_of(body, gt + 1, end);
        let ghost so_far = cell_texts(out@);
        let ghost before = out@;
        let cell = parse_cell(&tag, &content);
        let ghost cell_v = cell@;
        out.push(cell);
        assert(cell_texts(out@) =~= so_far.push(cell_v));
        let span: usize = read_span(&tag);
        push_blanks(&mut out, span - 1);
        let ghost here = seq![cell_v] + blanks((span - 1) as nat);
        assert(cell_texts(out@) =~= so_far + here);
        if end >= n {
            assert(cells_from(body@, pos as int) == here);
            break;
        }
        proof {
            assert(cells_from(body@, pos as int) == here + cells_from(body@, end as int));
            assert(so_far + (here + cells_from(body@, end as int)) =~= (so_far + here)
                + cells_from(body@, end as int));
        }
        pos = end;
    }
    out
}

pub open spec fn row_views(rows: Seq<Vec<SpelledCell>>) -> Seq<Seq<CellText>> {
    Seq::new(rows.len(), |i: int| cell_texts(rows[i]@))
}

/// The rows of a table's markup.
fn parse_rows(body: &Vec<char>) -> (out: Vec<Vec<SpelledCell>>)
    ensures
        row_views(out@) == rows_from(body@, 0),
{
    let low = lower_all(body);
    let n: usize = body.len();
    let mut out: Vec<Vec<SpelledCell>> = Vec::new();
    let mut pos: usize = 0;
    let ghost whole = rows_from(body@, 0);
    assert(row_views(out@) + whole =~= whole);
    loop
        invariant_except_break
            pos <= n == body@.len(),
            low@ == ascii_lowered(body@),
            row_views(out@) + rows_from(body@, pos as int) == whole,
        ensures
            row_views(out@) == whole,
        decreases n - pos,
    {
        let start: usize = find_str(&low, "<tr", pos);
        let gt: usize = find(&low, '>', start);
        if gt >= n {
            assert(row_views(out@) + Seq::<Seq<CellText>>::empty() =~= row_views(out@));
            break;
        }
        let end: usize = find_str(&low, "</tr", gt + 1);
        let inner = slice_of(body, gt + 1, end);
        let ghost so_far = row_views(out@);
        let row = parse_row(&inner);
        let ghost row_v = cell_texts(row@);
        out.push(row);
        assert(row_views(out@) =~= so_far + seq![row_v]);
        if end >= n {
            break;
        }
        proof {
            assert(rows_from(body@, pos as int) == seq![row_v] + rows_from(body@, end as int));
            assert(so_far + (seq![row_v] + rows_from(body@, end as int)) =~= (so_far
                + seq![row_v]) + rows_from(body@, end as int));
        }
        pos = end;
    }
    out
}

// ---------------------------------------------------------------- widths --

/// The widths that the `<col>` tags from `pos` on give, in order.
pub open spec fn widths_from(s: Seq<char>, pos: int) -> Seq<WidthText>
    decreases s.len() - pos,
{
    let low = ascii_lowered(s);
    let n = s.len() as int;
    let start = find_word(low, "<col"@, pos);
    let gt = find_from(low, '>', start);
    if !(0 <= pos <= start < n) {
        Seq::empty()
    } else if has_at(low, start, "<colgroup"@) {
        if start + 4 <= n {
            widths_from(s, start + 4)
        } else {
            Seq::empty()
        }
    } else if !(start < gt < n) {
        Seq::empty()
    } else {
        seq![width_of(s.subrange(start, gt))] + widths_from(s, gt)
    }
}

/// The width that a `<col>` tag gives.
pub open spec fn width_of(tag: Seq<char>) -> WidthText {
    WidthText {
        attr: match attr_value(tag, "width"@) {
            Some(v) => LengthView::read(v),
            None => None,
        },
        css: match style_value(tag, "width"@) {
            Some(v) => LengthView::read(v),
            None => None,
        },
    }
}

fn read_width(tag: &Vec<char>) -> (w: SpelledWidth)
    ensures
        w@ == width_of(tag@),
{
    let in_attr = match attr(tag, "width") {
        Some(v) => parse_len_pt(&v),
        None => None,
    };
    let in_style = match style_prop(tag, "width") {
        Some(v) => parse_len_pt(&v),
        None => None,
    };
    SpelledWidth { attr: in_attr, css: in_style }
}

fn parse_colgroup(body: &Vec<char>) -> (out: Vec<SpelledWidth>)
    ensures
        width_texts(out@) == widths_from(body@, 0),
{
    let low = lower_all(body);
    let n: usize = body.len();
    let mut out: Vec<SpelledWidth> = Vec::new();
    let mut pos: usize = 0;
    let ghost whole = widths_from(body@, 0);
    assert(width_texts(out@) + whole =~= whole);
    proof {
        reveal_strlit("<col");
        reveal_strlit("<colgroup");
    }
    loop
        invariant_except_break
            pos <= n == body@.len(),
            low@ == ascii_lowered(body@),
            width_texts(out@) + widths_from(body@, pos as int) == whole,
            "<col"@.len() == 4,
            "<col"@[0] == '<',
        ensures
            width_texts(out@) == whole,
        decreases n - pos,
    {
        let start: usize = find_str(&low, "<col", pos);
        if start >= n {
            assert(width_texts(out@) + Seq::<WidthText>::empty() =~= width_texts(out@));
            break;
        }
        proof {
            assert(low@.subrange(start as int, start + 4)[0] == '<');
        }
        if is_at(&low, start, "<colgroup") {
            pos = start + 4;
            continue;
        }
        let gt: usize = find(&low, '>', start);
        if gt >= n {
            assert(width_texts(out@) + Seq::<WidthText>::empty() =~= width_texts(out@));
            break;
        }
        let tag = slice_of(body, start, gt);
        let ghost so_far = width_texts(out@);
        let w = read_width(&tag);
        let ghost w_v = w@;
        out.push(w);
        proof {
            assert(width_texts(out@) =~= so_far + seq![w_v]);
            assert(so_far + (seq![w_v] + widths_from(body@, gt as int)) =~= (so_far + seq![w_v])
                + widths_from(body@, gt as int));
        }
        pos = gt;
    }
    out
}

// ---------------------------------------------------------------- blocks --

/// The longest row's length.
pub open spec fn longest(rows: Seq<Seq<CellText>>) -> nat
    decreases rows.len(),
{
    if rows.len() == 0 {
        0
    } else if rows.last().len() > longest(rows.drop_last()) {
        rows.last().len()
    } else {
        longest(rows.drop_last())
    }
}

/// The rows as a rectangle, short ones padded with blank cells, with as many
/// widths as there are columns.
pub open spec fn squared(rows: Seq<Seq<CellText>>, widths: Seq<WidthText>) -> BlockText {
    let cols = longest(rows);
    BlockText {
        rows: rows.len(),
        cols,
        cells: Seq::new(
            rows.len() * cols,
            |i: int|
                {
                    let row = rows[i / cols as int];
                    if (i % cols as int) < row.len() {
                        row[i % cols as int]
                    } else {
                        CellText::blank()
                    }
                },
        ),
        widths: Seq::new(
            cols,
            |i: int|
                if i < widths.len() {
                    widths[i]
                } else {
                    WidthText::unset()
                },
        ),
    }
}

/// The first table in `html`, from its tag to where it closes.
pub open spec fn table_in(html: Seq<char>) -> Option<Seq<char>> {
    let low = ascii_lowered(html);
    let start = find_word(low, "<table"@, 0);
    if start < html.len() {
        Some(html.subrange(start, find_word(low, "</table"@, start)))
    } else {
        None
    }
}

/// The block that `html` holds: none where there is no table, no cell in it,
/// or more cells than can be numbered.
pub open spec fn block_in(html: Seq<char>) -> Option<BlockText> {
    match table_in(html) {
        Some(body) => {
            let rows = rows_from(body, 0);
            if longest(rows) == 0 || rows.len() * longest(rows) > usize::MAX {
                None
            } else {
                Some(squared(rows, widths_from(body, 0)))
            }
        },
        None => None,
    }
}

fn longest_row(rows: &Vec<Vec<SpelledCell>>) -> (n: usize)
    ensures
        n == longest(row_views(rows@)),
{
    let ghost views = row_views(rows@);
    let mut n: usize = 0;
    let mut i: usize = 0;
    while i < rows.len()
        invariant
            i <= rows@.len(),
            views == row_views(rows@),
            n == longest(views.subrange(0, i as int)),
        decreases rows@.len() - i,
    {
        proof {
            let t = views.subrange(0, i + 1);
            assert(t.drop_last() =~= views.subrange(0, i as int));
            assert(t.last().len() == rows@[i as int]@.len());
        }
        if rows[i].len() > n {
            n = rows[i].len();
        }
        i = i + 1;
    }
    assert(views.subrange(0, views.len() as int) =~= views);
    n
}

/// The block that some markup spells. `None` when there is no table to read.
pub fn spelled_in(html: &str) -> (r: Option<SpelledBlock>)
    ensures
        match r {
            Some(b) => b.wf() && block_in(html@) == Some(b@) && b@.widths.len() == b@.cols,
            None => block_in(html@) is None,
        },
{
    let cs = chars_of(html);
    let low = lower_all(&cs);
    let start: usize = find_str(&low, "<table", 0);
    if start >= cs.len() {
        return None;
    }
    let end: usize = find_str(&low, "</table", start);
    let body = slice_of(&cs, start, end);
    let rows = parse_rows(&body);
    let widths = parse_colgroup(&body);
    let cols: usize = longest_row(&rows);
    if cols == 0 {
        return None;
    }
    let ghost views = row_views(rows@);
    assert(views.len() == rows@.len());
    match rows.len().checked_mul(cols) {
        Some(_) => {},
        None => {
            return None;
        },
    }
    let ghost want = squared(views, widths_from(body@, 0));
    let ghost given = rows@;
    let b = SpelledBlock::assemble(rows, cols, widths);
    proof {
        assert forall|i: int| 0 <= i < given.len() * cols implies #[trigger] b@.cells[i]
            == want.cells[i] by {
            assert(0 <= i / cols as int && (i / cols as int) < given.len()) by (nonlinear_arith)
                requires
                    0 <= i < given.len() * cols,
                    cols > 0,
            ;
            assert(views[i / cols as int] == cell_texts(given[i / cols as int]@));
            assert(0 <= i % cols as int) by (nonlinear_arith)
                requires
                    cols > 0,
            ;
        }
        assert(b@.cells =~= want.cells);
        assert(b@.widths =~= want.widths);
    }
    Some(b)
}

/// Parse the HTML clipboard flavour into a block. `None` when there is no
/// table to read, so the caller can fall back to plain text.
pub fn from_html<N: Fn(&str) -> Option<F32>, P: Fn(F32) -> F32>(
    html: &str,
    reader: &LengthReader<N, P>,
) -> (r: Option<ClipBlock>)
    requires
        reader.ready(),
    ensures
        match r {
            Some(b) => b.wf() && block_in(html@) is Some && reader.fills(block_in(html@)->0, b@),
            None => block_in(html@) is None,
        },
{
    match spelled_in(html) {
        Some(t) => Some(reader.read_block(&t)),
        None => None,
    }
}

/// Read whatever arrived on the clipboard, preferring the HTML flavour. `grid`
/// is the same payload read as tab-separated text.
pub fn parse_clipboard<N: Fn(&str) -> Option<F32>, P: Fn(F32) -> F32>(
    text: &str,
    grid: &Vec<Vec<String>>,
    reader: &LengthReader<N, P>,
) -> (b: ClipBlock)
    requires
        reader.ready(),
        grid@.len() * widest(grid_view(grid@)) <= usize::MAX,
    ensures
        b.wf(),
        if html_like(text@) && block_in(text@) is Some {
            reader.fills(block_in(text@)->0, b@)
        } else {
            b@ == BlockView::filled(
                grid@.len(),
                widest(grid_view(grid@)),
                |row: int, col: int| CellView::of_text(grid_text(grid_view(grid@), row, col)),
            )
        },
{
    if looks_like_html(text) {
        match from_html(text, reader) {
            Some(b) => {
                return b;
            },
            None => {},
        }
    }
    ClipBlock::from_text_grid(grid)
}

} // verus!
