//! A clipboard block as its markup spells it: its lengths are text.
//!
//! [`block_html`] is the markup of such a block and [`spelled_html`] writes it;
//! [`crate::paste`] reads one. What a length comes to is told in
//! [`crate::clipboard`], where a block has its lengths in points.

use crate::clipboard::{clone_string, lemma_place, string_view};
use crate::format::FontFamily;
use crate::markup::{attr_escaped, escape_attr, text_written, write_text};
use crate::table::{CellRef, Rgb};
use crate::text::{
    chars_of, decimal, float_literal, has_at, is_at, is_float_literal, push_decimal, push_text,
    string_of, trim_range, trimmed,
};
use vstd::prelude::*;

verus! {

// --------------------------------------------------------------- lengths --

/// The unit a length is written with.
#[derive(Clone, Copy, Debug, PartialEq, Eq, Structural)]
pub enum LengthUnit {
    /// No unit, which on a `<col width>` means pixels.
    Bare,
    Pixel,
    Point,
}

/// A length as it is written.
#[derive(Debug, PartialEq, Eq)]
pub struct Length {
    /// The number in front of the unit.
    pub amount: String,
    pub unit: LengthUnit,
}

/// A length, as contracts speak of it.
#[verifier::ext_equal]
pub struct LengthView {
    pub amount: Seq<char>,
    pub unit: LengthUnit,
}

impl View for Length {
    type V = LengthView;

    open spec fn view(&self) -> LengthView {
        LengthView { amount: self.amount@, unit: self.unit }
    }
}

impl Clone for Length {
    fn clone(&self) -> (r: Length)
        ensures
            r@ == self@,
    {
        Length { amount: self.amount.clone(), unit: self.unit }
    }
}

pub open spec fn length_view(l: Option<Length>) -> Option<LengthView> {
    match l {
        Some(l) => Some(l@),
        None => None,
    }
}

fn clone_length(l: &Option<Length>) -> (r: Option<Length>)
    ensures
        length_view(r) == length_view(*l),
{
    match l {
        Some(l) => Some(l.clone()),
        None => None,
    }
}

impl LengthView {
    /// The amount with its unit behind it.
    pub open spec fn written(self) -> Seq<char> {
        self.amount + match self.unit {
            LengthUnit::Bare => Seq::empty(),
            LengthUnit::Pixel => "px"@,
            LengthUnit::Point => "pt"@,
        }
    }

    /// A length as it is read: a number, with `pt` or `px` or nothing behind.
    pub open spec fn read(s: Seq<char>) -> Option<LengthView> {
        let t = trimmed(s);
        let n = t.len() as int;
        if n >= 2 && has_at(t, n - 2, "pt"@) {
            Self::of(trimmed(t.subrange(0, n - 2)), LengthUnit::Point)
        } else if n >= 2 && has_at(t, n - 2, "px"@) {
            Self::of(trimmed(t.subrange(0, n - 2)), LengthUnit::Pixel)
        } else {
            Self::of(t, LengthUnit::Bare)
        }
    }

    pub open spec fn of(amount: Seq<char>, unit: LengthUnit) -> Option<LengthView> {
        if float_literal(amount) {
            Some(LengthView { amount, unit })
        } else {
            None
        }
    }
}

fn length_of(amount: &Vec<char>, unit: LengthUnit) -> (r: Option<Length>)
    ensures
        length_view(r) == LengthView::of(amount@, unit),
{
    if is_float_literal(amount) {
        Some(Length { amount: string_of(amount), unit })
    } else {
        None
    }
}

/// Read a CSS/HTML length.
pub fn parse_len_pt(s: &Vec<char>) -> (r: Option<Length>)
    ensures
        length_view(r) == LengthView::read(s@),
{
    proof {
        reveal_strlit("pt");
        reveal_strlit("px");
    }
    let t = trim_range(s, 0, s.len());
    assert(s@.subrange(0, s@.len() as int) =~= s@);
    let n: usize = t.len();
    if n >= 2 && is_at(&t, n - 2, "pt") {
        return length_of(&trim_range(&t, 0, n - 2), LengthUnit::Point);
    }
    if n >= 2 && is_at(&t, n - 2, "px") {
        return length_of(&trim_range(&t, 0, n - 2), LengthUnit::Pixel);
    }
    length_of(&t, LengthUnit::Bare)
}

// ----------------------------------------------------------------- cells --

/// Fill, text colour and typography as markup spells them. `None` says nothing.
#[derive(Debug, PartialEq, Eq)]
pub struct SpelledStyle {
    pub fill: Option<Rgb>,
    pub text: Option<Rgb>,
    pub bold: Option<bool>,
    pub italic: Option<bool>,
    pub underline: Option<bool>,
    pub strikethrough: Option<bool>,
    pub family: Option<FontFamily>,
    pub size: Option<Length>,
}

/// A spelled style, as contracts speak of it.
#[verifier::ext_equal]
pub struct StyleText {
    pub fill: Option<Rgb>,
    pub text: Option<Rgb>,
    pub bold: Option<bool>,
    pub italic: Option<bool>,
    pub underline: Option<bool>,
    pub strikethrough: Option<bool>,
    pub family: Option<FontFamily>,
    pub size: Option<LengthView>,
}

impl View for SpelledStyle {
    type V = StyleText;

    open spec fn view(&self) -> StyleText {
        StyleText {
            fill: self.fill,
            text: self.text,
            bold: self.bold,
            italic: self.italic,
            underline: self.underline,
            strikethrough: self.strikethrough,
            family: self.family,
            size: length_view(self.size),
        }
    }
}

impl StyleText {
    pub open spec fn plain() -> StyleText {
        StyleText {
            fill: None,
            text: None,
            bold: None,
            italic: None,
            underline: None,
            strikethrough: None,
            family: None,
            size: None,
        }
    }
}

impl SpelledStyle {
    pub fn is_empty(&self) -> (b: bool)
        ensures
            b == (self@ == StyleText::plain()),
    {
        self.fill.is_none() && self.text.is_none() && self.bold.is_none() && self.italic.is_none()
            && self.underline.is_none() && self.strikethrough.is_none() && self.family.is_none()
            && self.size.is_none()
    }
}

impl Default for SpelledStyle {
    fn default() -> (r: SpelledStyle)
        ensures
            r@ == StyleText::plain(),
    {
        SpelledStyle {
            fill: None,
            text: None,
            bold: None,
            italic: None,
            underline: None,
            strikethrough: None,
            family: None,
            size: None,
        }
    }
}

impl Clone for SpelledStyle {
    fn clone(&self) -> (r: SpelledStyle)
        ensures
            r@ == self@,
    {
        SpelledStyle {
            fill: self.fill,
            text: self.text,
            bold: self.bold,
            italic: self.italic,
            underline: self.underline,
            strikethrough: self.strikethrough,
            family: self.family,
            size: clone_length(&self.size),
        }
    }
}

/// One cell as markup spells it.
#[derive(Debug, PartialEq, Eq)]
pub struct SpelledCell {
    /// Display text — what the user saw in the cell.
    pub text: String,
    /// Formula source, if this cell held one.
    pub formula: Option<String>,
    /// Code of the number format in effect on the cell.
    pub format: Option<String>,
    /// Fill, text colour and typography in effect on the cell.
    pub style: SpelledStyle,
    /// Where this cell was copied from, if it came from a sheet.
    pub origin: Option<CellRef>,
}

/// A spelled cell, as contracts speak of it.
#[verifier::ext_equal]
pub struct CellText {
    pub text: Seq<char>,
    pub formula: Option<Seq<char>>,
    pub format: Option<Seq<char>>,
    pub style: StyleText,
    pub origin: Option<CellRef>,
}

impl View for SpelledCell {
    type V = CellText;

    open spec fn view(&self) -> CellText {
        CellText {
            text: self.text@,
            formula: string_view(self.formula),
            format: string_view(self.format),
            style: self.style@,
            origin: self.origin,
        }
    }
}

impl CellText {
    /// Bare text and nothing else.
    pub open spec fn of_text(text: Seq<char>) -> CellText {
        CellText { text, formula: None, format: None, style: StyleText::plain(), origin: None }
    }

    pub open spec fn blank() -> CellText {
        Self::of_text(Seq::empty())
    }
}

impl Default for SpelledCell {
    fn default() -> (r: SpelledCell)
        ensures
            r@ == CellText::blank(),
    {
        let r = SpelledCell {
            text: String::new(),
            formula: None,
            format: None,
            style: SpelledStyle::default(),
            origin: None,
        };
        assert(r@ =~= CellText::blank());
        r
    }
}

impl Clone for SpelledCell {
    fn clone(&self) -> (r: SpelledCell)
        ensures
            r@ == self@,
    {
        SpelledCell {
            text: self.text.clone(),
            formula: clone_string(&self.formula),
            format: clone_string(&self.format),
            style: self.style.clone(),
            origin: self.origin,
        }
    }
}

// ---------------------------------------------------------------- blocks --

/// A column's width as the markup gives it: in the `width` attribute and in
/// the style, either of which may be missing.
#[derive(Debug, PartialEq, Eq, Clone)]
pub struct SpelledWidth {
    pub attr: Option<Length>,
    pub css: Option<Length>,
}

/// A column's width, as contracts speak of it.
#[verifier::ext_equal]
pub struct WidthText {
    pub attr: Option<LengthView>,
    pub css: Option<LengthView>,
}

impl View for SpelledWidth {
    type V = WidthText;

    open spec fn view(&self) -> WidthText {
        WidthText { attr: length_view(self.attr), css: length_view(self.css) }
    }
}

impl WidthText {
    pub open spec fn unset() -> WidthText {
        WidthText { attr: None, css: None }
    }
}

impl SpelledWidth {
    /// Is the column without an explicit width?
    pub fn is_none(&self) -> (b: bool)
        ensures
            b == (self@ == WidthText::unset()),
    {
        self.attr.is_none() && self.css.is_none()
    }
}

impl Default for SpelledWidth {
    fn default() -> (r: SpelledWidth)
        ensures
            r@ == WidthText::unset(),
    {
        SpelledWidth { attr: None, css: None }
    }
}

pub open spec fn cell_texts(cells: Seq<SpelledCell>) -> Seq<CellText> {
    Seq::new(cells.len(), |i: int| cells[i]@)
}

pub open spec fn width_texts(widths: Seq<SpelledWidth>) -> Seq<WidthText> {
    Seq::new(widths.len(), |i: int| widths[i]@)
}

/// A rectangular block, row-major and dense, as markup spells it.
#[derive(Debug)]
pub struct SpelledBlock {
    pub rows: usize,
    pub cols: usize,
    pub cells: Vec<SpelledCell>,
    /// Column widths.
    pub col_widths: Vec<SpelledWidth>,
}

/// A spelled block, as contracts speak of it.
#[verifier::ext_equal]
pub struct BlockText {
    pub rows: nat,
    pub cols: nat,
    pub cells: Seq<CellText>,
    pub widths: Seq<WidthText>,
}

impl View for SpelledBlock {
    type V = BlockText;

    open spec fn view(&self) -> BlockText {
        BlockText {
            rows: self.rows as nat,
            cols: self.cols as nat,
            cells: cell_texts(self.cells@),
            widths: width_texts(self.col_widths@),
        }
    }
}

impl SpelledBlock {
    /// As many cells as the shape says.
    pub open spec fn wf(&self) -> bool {
        self.cells@.len() == self.rows * self.cols
    }

    fn place(&self, row: usize, col: usize) -> (i: usize)
        requires
            self.wf(),
            row < self.rows,
            col < self.cols,
        ensures
            i == row * self.cols + col,
            i < self.cells@.len(),
    {
        let n: usize = self.cells.len();
        proof {
            lemma_place(row as int, col as int, self.rows as int, self.cols as int);
            assert(0 <= row * self.cols <= row * self.cols + col) by (nonlinear_arith);
        }
        row * self.cols + col
    }

    /// A block of the given rows, short ones padded with blank cells.
    pub fn assemble(rows: Vec<Vec<SpelledCell>>, cols: usize, widths: Vec<SpelledWidth>) -> (b: SpelledBlock)
        requires
            0 < cols,
            rows@.len() * cols <= usize::MAX,
        ensures
            b.wf(),
            b@.rows == rows@.len(),
            b@.cols == cols,
            b@.cells == Seq::new(
                rows@.len() * cols as nat,
                |i: int|
                    {
                        let row = rows@[i / cols as int]@;
                        if (i % cols as int) < row.len() {
                            row[i % cols as int]@
                        } else {
                            CellText::blank()
                        }
                    },
            ),
            b@.widths == Seq::new(
                cols as nat,
                |i: int|
                    if i < widths@.len() {
                        widths@[i]@
                    } else {
                        WidthText::unset()
                    },
            ),
    {
        let height: usize = rows.len();
        let mut cells: Vec<SpelledCell> = Vec::new();
        let mut r: usize = 0;
        while r < height
            invariant
                r <= height == rows@.len(),
                cells@.len() == r * cols,
                0 < cols,
                forall|i: int|
                    0 <= i < cells@.len() ==> (#[trigger] cells@[i])@ == ({
                        let row = rows@[i / cols as int]@;
                        if (i % cols as int) < row.len() {
                            row[i % cols as int]@
                        } else {
                            CellText::blank()
                        }
                    }),
            decreases height - r,
        {
            let mut c: usize = 0;
            while c < cols
                invariant
                    r < height == rows@.len(),
                    c <= cols,
                    cells@.len() == r * cols + c,
                    forall|i: int|
                        0 <= i < cells@.len() ==> (#[trigger] cells@[i])@ == ({
                            let row = rows@[i / cols as int]@;
                            if (i % cols as int) < row.len() {
                                row[i % cols as int]@
                            } else {
                                CellText::blank()
                            }
                        }),
                decreases cols - c,
            {
                proof {
                    lemma_place(r as int, c as int, height as int, cols as int);
                }
                let row = &rows[r];
                if c < row.len() {
                    cells.push(row[c].clone());
                } else {
                    cells.push(SpelledCell::default());
                }
                c = c + 1;
            }
            proof {
                assert((r + 1) * cols == r * cols + cols) by (nonlinear_arith);
            }
            r = r + 1;
        }
        let mut col_widths: Vec<SpelledWidth> = Vec::new();
        let mut j: usize = 0;
        while j < cols
            invariant
                j <= cols,
                col_widths@.len() == j,
                forall|k: int|
                    0 <= k < j ==> (#[trigger] col_widths@[k])@ == if k < widths@.len() {
                        widths@[k]@
                    } else {
                        WidthText::unset()
                    },
            decreases cols - j,
        {
            if j < widths.len() {
                let w = &widths[j];
                col_widths.push(SpelledWidth { attr: clone_length(&w.attr), css: clone_length(&w.css) });
            } else {
                col_widths.push(SpelledWidth::default());
            }
            j = j + 1;
        }
        let b = SpelledBlock { rows: height, cols, cells, col_widths };
        proof {
            assert(b@.cells =~= Seq::new(
                rows@.len() * cols as nat,
                |i: int|
                    {
                        let row = rows@[i / cols as int]@;
                        if (i % cols as int) < row.len() {
                            row[i % cols as int]@
                        } else {
                            CellText::blank()
                        }
                    },
            ));
            assert(b@.widths =~= Seq::new(
                cols as nat,
                |i: int|
                    if i < widths@.len() {
                        widths@[i]@
                    } else {
                        WidthText::unset()
                    },
            ));
        }
        b
    }
}

// -------------------------------------------------------------- markup --

/// The declarations for a style, in the order they are written.
pub open spec fn style_rules(s: StyleText) -> Seq<Seq<char>> {
    Seq::empty() + fill_rule(s) + text_rule(s) + weight_rule(s) + slant_rule(s) + lines_rule(s)
        + family_rule(s) + size_rule(s)
}

pub open spec fn fill_rule(s: StyleText) -> Seq<Seq<char>> {
    rule(s.fill is Some, "background-color:#"@ + s.fill->0.hex())
}

pub open spec fn text_rule(s: StyleText) -> Seq<Seq<char>> {
    rule(s.text is Some, "color:#"@ + s.text->0.hex())
}

pub open spec fn weight_rule(s: StyleText) -> Seq<Seq<char>> {
    rule(s.bold is Some, "font-weight:"@ + weight_word(s.bold == Some(true)))
}

pub open spec fn slant_rule(s: StyleText) -> Seq<Seq<char>> {
    rule(s.italic is Some, "font-style:"@ + slant_word(s.italic == Some(true)))
}

pub open spec fn lines_rule(s: StyleText) -> Seq<Seq<char>> {
    rule(
        s.underline is Some || s.strikethrough is Some,
        "text-decoration:"@ + decoration(s.underline == Some(true), s.strikethrough == Some(true)),
    )
}

pub open spec fn family_rule(s: StyleText) -> Seq<Seq<char>> {
    rule(
        s.family is Some,
        "font-family:"@ + family_word(s.family == Some(FontFamily::Monospace)),
    )
}

pub open spec fn size_rule(s: StyleText) -> Seq<Seq<char>> {
    rule(s.size is Some, "font-size:"@ + s.size->0.written())
}

pub open spec fn weight_word(bold: bool) -> Seq<char> {
    if bold {
        "bold"@
    } else {
        "normal"@
    }
}

pub open spec fn slant_word(italic: bool) -> Seq<char> {
    if italic {
        "italic"@
    } else {
        "normal"@
    }
}

pub open spec fn family_word(mono: bool) -> Seq<char> {
    if mono {
        "monospace"@
    } else {
        "sans-serif"@
    }
}

/// One declaration, if it is called for.
pub open spec fn rule(set: bool, text: Seq<char>) -> Seq<Seq<char>> {
    if set {
        seq![text]
    } else {
        Seq::empty()
    }
}

/// Underline and strikethrough share one property.
pub open spec fn decoration(underline: bool, strike: bool) -> Seq<char> {
    if underline && strike {
        "underline line-through"@
    } else if underline {
        "underline"@
    } else if strike {
        "line-through"@
    } else {
        "none"@
    }
}

/// The rules one after the other, a `;` in front of each but the first, and in
/// front of that one too if `sep` says so.
pub open spec fn rules_text(rules: Seq<Seq<char>>, sep: bool) -> Seq<char>
    decreases rules.len(),
{
    if rules.len() == 0 {
        Seq::empty()
    } else {
        rules_text(rules.drop_last(), sep) + (if sep || rules.len() > 1 {
            seq![';']
        } else {
            Seq::empty()
        }) + rules.last()
    }
}

/// The attributes that carry a cell's number format and style.
pub open spec fn format_attrs(c: CellText) -> Seq<char> {
    match c.format {
        Some(f) => " style=\"mso-number-format:'"@ + attr_escaped(f) + "'"@ + rules_text(
            style_rules(c.style),
            true,
        ) + "\" data-ferrix-numfmt=\""@ + attr_escaped(f) + "\""@,
        None => if c.style == StyleText::plain() {
            Seq::empty()
        } else {
            " style=\""@ + rules_text(style_rules(c.style), false) + "\""@
        },
    }
}

/// The attribute that tells which of underline and strikethrough is said, where only
/// one is: the declaration they share cannot.
pub open spec fn lines_attr(s: StyleText) -> Seq<char> {
    if s.underline is Some && s.strikethrough is None {
        " data-ferrix-lines=\""@ + "underline"@ + "\""@
    } else if s.underline is None && s.strikethrough is Some {
        " data-ferrix-lines=\""@ + "line-through"@ + "\""@
    } else {
        Seq::empty()
    }
}

/// The attribute that carries where a formula was copied from.
pub open spec fn origin_attr(o: Option<CellRef>) -> Seq<char> {
    match o {
        Some(o) => " data-ferrix-origin=\""@ + decimal(o.row as nat) + ","@ + decimal(
            o.col as nat,
        ) + "\""@,
        None => Seq::empty(),
    }
}

/// The attributes that carry a cell's formula and its origin.
pub open spec fn formula_attrs(c: CellText) -> Seq<char> {
    match c.formula {
        Some(f) => " data-ferrix-formula=\""@ + attr_escaped(f) + "\""@ + origin_attr(c.origin),
        None => Seq::empty(),
    }
}

/// A cell between its tags.
pub open spec fn cell_html(c: CellText) -> Seq<char> {
    "<td"@ + format_attrs(c) + lines_attr(c.style) + formula_attrs(c) + ">"@ + text_written(c.text)
        + "</td>"@
}

pub open spec fn cells_html(cells: Seq<CellText>) -> Seq<char>
    decreases cells.len(),
{
    if cells.len() == 0 {
        Seq::empty()
    } else {
        cells_html(cells.drop_last()) + cell_html(cells.last())
    }
}

/// The cells of row `r`.
pub open spec fn row_cells(b: BlockText, r: int) -> Seq<CellText> {
    b.cells.subrange(r * b.cols, r * b.cols + b.cols)
}

/// Row `r` between its tags.
pub open spec fn row_html(b: BlockText, r: int) -> Seq<char> {
    "<tr>"@ + cells_html(row_cells(b, r)) + "</tr>\n"@
}

/// The first `rows` rows of a block.
pub open spec fn rows_html(b: BlockText, rows: int) -> Seq<char>
    decreases rows,
{
    if rows <= 0 {
        Seq::empty()
    } else {
        rows_html(b, rows - 1) + row_html(b, rows - 1)
    }
}

/// A column's tag.
pub open spec fn width_html(w: WidthText) -> Seq<char> {
    "<col"@ + (match w.attr {
        Some(l) => " width=\""@ + l.written() + "\""@,
        None => Seq::empty(),
    }) + (match w.css {
        Some(l) => " style=\"width:"@ + l.written() + "\""@,
        None => Seq::empty(),
    }) + ">"@
}

pub open spec fn widths_html(widths: Seq<WidthText>) -> Seq<char>
    decreases widths.len(),
{
    if widths.len() == 0 {
        Seq::empty()
    } else {
        widths_html(widths.drop_last()) + width_html(widths.last())
    }
}

/// Whether some column has a width.
pub open spec fn any_width(widths: Seq<WidthText>) -> bool {
    exists|i: int| 0 <= i < widths.len() && #[trigger] widths[i] != WidthText::unset()
}

/// A block as markup.
pub open spec fn block_html(b: BlockText) -> Seq<char> {
    "<html><head><meta charset=\"utf-8\"></head><body>\n"@
        + "<table border=\"0\" cellpadding=\"0\" cellspacing=\"0\">\n"@ + (if any_width(b.widths) {
        "<colgroup>"@ + widths_html(b.widths) + "</colgroup>\n"@
    } else {
        Seq::empty()
    }) + rows_html(b, b.rows as int) + "</table>\n</body></html>"@
}

fn push_length(out: &mut Vec<char>, l: &Length)
    ensures
        final(out)@ == old(out)@ + l@.written(),
{
    push_text(out, l.amount.as_str());
    match l.unit {
        LengthUnit::Bare => {},
        LengthUnit::Pixel => push_text(out, "px"),
        LengthUnit::Point => push_text(out, "pt"),
    }
    assert(out@ =~= old(out)@ + l@.written());
}

fn push_number(out: &mut Vec<char>, n: u32)
    ensures
        final(out)@ == old(out)@ + decimal(n as nat),
{
    let mut s = String::new();
    push_decimal(&mut s, n as u64);
    assert(s@ =~= decimal(n as nat));
    push_text(out, s.as_str());
}

pub(crate) proof fn lemma_rules_join(a: Seq<Seq<char>>, b: Seq<Seq<char>>, sep: bool)
    ensures
        rules_text(a + b, sep) == rules_text(a, sep) + rules_text(b, sep || a.len() > 0),
    decreases b.len(),
{
    if b.len() == 0 {
        assert(a + b =~= a);
        assert(rules_text(a, sep) + rules_text(b, sep || a.len() > 0) =~= rules_text(a, sep));
    } else {
        lemma_rules_join(a, b.drop_last(), sep);
        assert((a + b).drop_last() =~= a + b.drop_last());
        assert(rules_text(a + b, sep) =~= rules_text(a, sep) + rules_text(b, sep || a.len() > 0));
    }
}

/// Appends a declaration, if it is called for, and says whether the next one
/// needs a separator. `done` are the declarations since `before`, `lead` says
/// whether the first of them has a separator in front.
fn push_rule(
    out: &mut Vec<char>,
    set: bool,
    sep: bool,
    head: &str,
    tail: &str,
    Ghost(before): Ghost<Seq<char>>,
    Ghost(done): Ghost<Seq<Seq<char>>>,
    Ghost(lead): Ghost<bool>,
) -> (next: bool)
    requires
        old(out)@ == before + rules_text(done, lead),
        sep == (lead || done.len() > 0),
    ensures
        final(out)@ == before + rules_text(done + rule(set, head@ + tail@), lead),
        next == (lead || (done + rule(set, head@ + tail@)).len() > 0),
{
    proof {
        reveal_with_fuel(rules_text, 2);
        assert(rule(true, head@ + tail@).drop_last() =~= Seq::<Seq<char>>::empty());
        lemma_rules_join(done, rule(set, head@ + tail@), lead);
    }
    if set {
        if sep {
            out.push(';');
        }
        push_text(out, head);
        push_text(out, tail);
    }
    assert(out@ =~= old(out)@ + rules_text(rule(set, head@ + tail@), sep));
    assert(out@ =~= before + (rules_text(done, lead) + rules_text(
        rule(set, head@ + tail@),
        sep,
    )));
    sep || set
}

fn length_text(l: &Option<Length>) -> (s: String)
    ensures
        l matches Some(l) ==> s@ == l@.written(),
{
    let mut s = String::new();
    match l {
        Some(l) => {
            s.push_str(l.amount.as_str());
            match l.unit {
                LengthUnit::Bare => {},
                LengthUnit::Pixel => s.push_str("px"),
                LengthUnit::Point => s.push_str("pt"),
            }
            assert(s@ =~= l@.written());
        },
        None => {},
    }
    s
}

fn hex_text(c: &Option<Rgb>) -> (s: String)
    ensures
        c matches Some(c) ==> s@ == c.hex(),
{
    match c {
        Some(c) => c.to_hex(),
        None => String::new(),
    }
}

/// Append the CSS declarations for a style. `first` says whether the
/// declaration list is still empty.
#[verifier::rlimit(40)]
fn push_css_style(out: &mut Vec<char>, style: &SpelledStyle, first: bool)
    ensures
        final(out)@ == old(out)@ + rules_text(style_rules(style@), !first),
{
    let ghost before = out@;
    let ghost v = style@;
    let fill = hex_text(&style.fill);
    let text = hex_text(&style.text);
    let size = length_text(&style.size);
    let bold = style.bold == Some(true);
    let italic = style.italic == Some(true);
    let under = style.underline == Some(true);
    let strike = style.strikethrough == Some(true);
    let mono = match style.family {
        Some(FontFamily::Monospace) => true,
        _ => false,
    };
    let weight = if bold {
        "bold"
    } else {
        "normal"
    };
    let slant = if italic {
        "italic"
    } else {
        "normal"
    };
    // Underline and strikethrough are written together: of two declarations
    // of one property the second would win.
    let lines = if under && strike {
        "underline line-through"
    } else if under {
        "underline"
    } else if strike {
        "line-through"
    } else {
        "none"
    };
    let family = if mono {
        "monospace"
    } else {
        "sans-serif"
    };
    let lined = style.underline.is_some() || style.strikethrough.is_some();
    let ghost lead = !first;
    let ghost d0 = Seq::<Seq<char>>::empty();
    let ghost d1 = d0 + fill_rule(v);
    let ghost d2 = d1 + text_rule(v);
    let ghost d3 = d2 + weight_rule(v);
    let ghost d4 = d3 + slant_rule(v);
    let ghost d5 = d4 + lines_rule(v);
    let ghost d6 = d5 + family_rule(v);
    let ghost d7 = d6 + size_rule(v);
    assert(fill_rule(v) == rule(v.fill is Some, "background-color:#"@ + fill@));
    assert(text_rule(v) == rule(v.text is Some, "color:#"@ + text@));
    assert(size_rule(v) == rule(v.size is Some, "font-size:"@ + size@));
    assert(before + rules_text(d0, lead) =~= before);
    let (b, l) = (Ghost(before), Ghost(lead));
    let s0 = !first;
    let s1 = push_rule(
        out,
        style.fill.is_some(),
        s0,
        "background-color:#",
        fill.as_str(),
        b,
        Ghost(d0),
        l,
    );
    let s2 = push_rule(out, style.text.is_some(), s1, "color:#", text.as_str(), b, Ghost(d1), l);
    let s3 = push_rule(out, style.bold.is_some(), s2, "font-weight:", weight, b, Ghost(d2), l);
    let s4 = push_rule(out, style.italic.is_some(), s3, "font-style:", slant, b, Ghost(d3), l);
    let s5 = push_rule(out, lined, s4, "text-decoration:", lines, b, Ghost(d4), l);
    let s6 = push_rule(out, style.family.is_some(), s5, "font-family:", family, b, Ghost(d5), l);
    let s7 = push_rule(
        out,
        style.size.is_some(),
        s6,
        "font-size:",
        size.as_str(),
        b,
        Ghost(d6),
        l,
    );
    assert(d7 == style_rules(v));
}

fn push_format_attrs(out: &mut Vec<char>, cell: &SpelledCell)
    ensures
        final(out)@ == old(out)@ + format_attrs(cell@),
{
    match &cell.format {
        Some(f) => {
            let code = chars_of(f.as_str());
            push_text(out, " style=\"mso-number-format:'");
            escape_attr(out, &code);
            push_text(out, "'");
            push_css_style(out, &cell.style, false);
            push_text(out, "\" data-ferrix-numfmt=\"");
            escape_attr(out, &code);
            push_text(out, "\"");
        },
        None => {
            if !cell.style.is_empty() {
                push_text(out, " style=\"");
                push_css_style(out, &cell.style, true);
                push_text(out, "\"");
            }
        },
    }
    assert(out@ =~= old(out)@ + format_attrs(cell@));
}

fn push_lines_attr(out: &mut Vec<char>, style: &SpelledStyle)
    ensures
        final(out)@ == old(out)@ + lines_attr(style@),
{
    if style.underline.is_some() && style.strikethrough.is_none() {
        push_text(out, " data-ferrix-lines=\"");
        push_text(out, "underline");
        push_text(out, "\"");
    } else if style.underline.is_none() && style.strikethrough.is_some() {
        push_text(out, " data-ferrix-lines=\"");
        push_text(out, "line-through");
        push_text(out, "\"");
    }
    assert(out@ =~= old(out)@ + lines_attr(style@));
}

fn push_formula_attrs(out: &mut Vec<char>, cell: &SpelledCell)
    ensures
        final(out)@ == old(out)@ + formula_attrs(cell@),
{
    match &cell.formula {
        Some(f) => {
            push_text(out, " data-ferrix-formula=\"");
            escape_attr(out, &chars_of(f.as_str()));
            push_text(out, "\"");
            match &cell.origin {
                Some(o) => {
                    push_text(out, " data-ferrix-origin=\"");
                    push_number(out, o.row);
                    push_text(out, ",");
                    push_number(out, o.col);
                    push_text(out, "\"");
                },
                None => {},
            }
        },
        None => {},
    }
    assert(out@ =~= old(out)@ + formula_attrs(cell@));
}

fn push_cell(out: &mut Vec<char>, cell: &SpelledCell)
    ensures
        final(out)@ == old(out)@ + cell_html(cell@),
{
    push_text(out, "<td");
    push_format_attrs(out, cell);
    push_lines_attr(out, &cell.style);
    push_formula_attrs(out, cell);
    push_text(out, ">");
    write_text(out, &chars_of(cell.text.as_str()));
    push_text(out, "</td>");
    assert(out@ =~= old(out)@ + cell_html(cell@));
}

fn push_width(out: &mut Vec<char>, w: &SpelledWidth)
    ensures
        final(out)@ == old(out)@ + width_html(w@),
{
    push_text(out, "<col");
    match &w.attr {
        Some(l) => {
            push_text(out, " width=\"");
            push_length(out, l);
            push_text(out, "\"");
        },
        None => {},
    }
    match &w.css {
        Some(l) => {
            push_text(out, " style=\"width:");
            push_length(out, l);
            push_text(out, "\"");
        },
        None => {},
    }
    push_text(out, ">");
    assert(out@ =~= old(out)@ + width_html(w@));
}

fn has_width(widths: &Vec<SpelledWidth>) -> (b: bool)
    ensures
        b == any_width(width_texts(widths@)),
{
    let ghost views = width_texts(widths@);
    let mut i: usize = 0;
    while i < widths.len()
        invariant
            i <= widths@.len(),
            views == width_texts(widths@),
            forall|k: int| 0 <= k < i ==> #[trigger] views[k] == WidthText::unset(),
        decreases widths@.len() - i,
    {
        assert(views[i as int] == widths@[i as int]@);
        if !widths[i].is_none() {
            return true;
        }
        i = i + 1;
    }
    false
}

fn push_row(out: &mut Vec<char>, block: &SpelledBlock, r: usize)
    requires
        block.wf(),
        r < block.rows,
    ensures
        final(out)@ == old(out)@ + row_html(block@, r as int),
{
    let ghost v = block@;
    let ghost row = row_cells(v, r as int);
    proof {
        assert(0 <= r * block.cols && r * block.cols + block.cols <= block.rows * block.cols)
            by (nonlinear_arith)
            requires
                r < block.rows,
                0 <= r,
                0 <= block.cols,
        ;
    }
    push_text(out, "<tr>");
    let ghost lead = out@;
    let mut c: usize = 0;
    assert(row.subrange(0, 0) =~= Seq::<CellText>::empty());
    assert(out@ =~= lead + cells_html(row.subrange(0, 0)));
    while c < block.cols
        invariant
            block.wf(),
            v == block@,
            r < block.rows,
            c <= block.cols,
            0 <= r * v.cols && r * v.cols + v.cols <= v.cells.len(),
            row == row_cells(v, r as int),
            out@ == lead + cells_html(row.subrange(0, c as int)),
        decreases block.cols - c,
    {
        let i: usize = block.place(r, c);
        proof {
            let t = row.subrange(0, c + 1);
            assert(t.drop_last() =~= row.subrange(0, c as int));
            assert(t.last() == block.cells@[i as int]@);
        }
        push_cell(out, &block.cells[i]);
        c = c + 1;
        assert(out@ =~= lead + cells_html(row.subrange(0, c as int)));
    }
    assert(row.subrange(0, row.len() as int) =~= row);
    push_text(out, "</tr>\n");
    assert(out@ =~= old(out)@ + row_html(v, r as int));
}

/// Render a block as an HTML `<table>`.
pub fn spelled_html(block: &SpelledBlock) -> (html: String)
    requires
        block.wf(),
    ensures
        html@ == block_html(block@),
{
    let ghost v = block@;
    let mut out: Vec<char> = Vec::new();
    push_text(&mut out, "<html><head><meta charset=\"utf-8\"></head><body>\n");
    push_text(&mut out, "<table border=\"0\" cellpadding=\"0\" cellspacing=\"0\">\n");
    let ghost start = out@;
    if has_width(&block.col_widths) {
        push_text(&mut out, "<colgroup>");
        let ghost lead = out@;
        let ghost views = v.widths;
        let mut i: usize = 0;
        assert(views.subrange(0, 0) =~= Seq::<WidthText>::empty());
        assert(out@ =~= lead + widths_html(views.subrange(0, 0)));
        while i < block.col_widths.len()
            invariant
                i <= block.col_widths@.len(),
                views == width_texts(block.col_widths@),
                out@ == lead + widths_html(views.subrange(0, i as int)),
            decreases block.col_widths@.len() - i,
        {
            proof {
                let t = views.subrange(0, i + 1);
                assert(t.drop_last() =~= views.subrange(0, i as int));
                assert(t.last() == block.col_widths@[i as int]@);
            }
            let ghost so_far = out@;
            push_width(&mut out, &block.col_widths[i]);
            i = i + 1;
            assert(out@ =~= lead + widths_html(views.subrange(0, i as int)));
        }
        assert(views.subrange(0, views.len() as int) =~= views);
        push_text(&mut out, "</colgroup>\n");
    }
    let ghost lead = out@;
    let mut r: usize = 0;
    assert(out@ =~= lead + rows_html(v, 0));
    while r < block.rows
        invariant
            block.wf(),
            v == block@,
            r <= block.rows,
            out@ == lead + rows_html(v, r as int),
        decreases block.rows - r,
    {
        push_row(&mut out, block, r);
        r = r + 1;
        assert(out@ =~= lead + rows_html(v, r as int));
    }
    push_text(&mut out, "</table>\n</body></html>");
    assert(out@ =~= block_html(v));
    string_of(&out)
}

} // verus!
