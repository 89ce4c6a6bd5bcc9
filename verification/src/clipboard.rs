//! Rich clipboard interchange: the HTML `<table>` flavour that spreadsheets
//! speak, plus the Paste Special vocabulary that goes with it.
//!
//! [`to_html`] renders a [`ClipBlock`] as a `<table>` carrying number formats,
//! fills, text colours, typography and column widths; [`from_html`] reads one
//! back, understanding both inline CSS (`mso-number-format`, `<col width>`) and
//! the `data-ferrix-*` attributes, with which a block that was rendered here comes
//! back without loss; [`crate::interchange`] says exactly what that means.
//!
//! A block has its lengths in points. Reading them off the markup and writing them
//! there is floating-point work, which a [`LengthReader`] and a [`LengthWriter`] do;
//! which units, bounds and spellings they meet is settled here.

pub mod loose;

use crate::format::{clamp_font_pt, clamped_pt, ManualStyle, Typography};
use crate::spelled::{
    block_html, length_view, spelled_html, BlockText, CellText, Length, LengthUnit, LengthView,
    SpelledBlock, SpelledCell, SpelledStyle, SpelledWidth, StyleText, WidthText,
};
use crate::table::CellRef;
use crate::text::{
    ascii_lowered, chars_of, contains_str, float_literal, has_word, is_float_literal, lower_all,
    string_of, trim_range, trimmed,
};
use crate::value::{F32, F64};
use vstd::prelude::*;
use vstd::std_specs::iter::IteratorSpec;

verus! {

// ----------------------------------------------------------------- cells --

/// One cell on the clipboard: what it shows, what produced it, how it is
/// formatted. A formula is its source text, never a parsed tree.
#[derive(Debug, PartialEq, Eq)]
pub struct ClipCell {
    /// Display text — what the user saw in the cell.
    pub text: String,
    /// Formula source, if this cell held one.
    pub formula: Option<String>,
    /// Code of the number format in effect on the cell.
    pub format: Option<String>,
    /// Fill, text colour and typography in effect on the cell.
    pub style: ManualStyle,
    /// Where this cell was copied from, if it came from a sheet.
    pub origin: Option<CellRef>,
}

/// A clipboard cell, as contracts speak of it.
#[verifier::ext_equal]
pub struct CellView {
    pub text: Seq<char>,
    pub formula: Option<Seq<char>>,
    pub format: Option<Seq<char>>,
    pub style: ManualStyle,
    pub origin: Option<CellRef>,
}

pub open spec fn string_view(s: Option<String>) -> Option<Seq<char>> {
    match s {
        Some(s) => Some(s@),
        None => None,
    }
}

pub(crate) fn clone_string(s: &Option<String>) -> (r: Option<String>)
    ensures
        string_view(r) == string_view(*s),
{
    match s {
        Some(s) => Some(s.clone()),
        None => None,
    }
}

impl View for ClipCell {
    type V = CellView;

    open spec fn view(&self) -> CellView {
        CellView {
            text: self.text@,
            formula: string_view(self.formula),
            format: string_view(self.format),
            style: self.style,
            origin: self.origin,
        }
    }
}

impl CellView {
    /// Bare text and nothing else.
    pub open spec fn of_text(text: Seq<char>) -> CellView {
        CellView { text, formula: None, format: None, style: ManualStyle::plain(), origin: None }
    }

    pub open spec fn blank() -> CellView {
        Self::of_text(Seq::empty())
    }
}

impl Default for ClipCell {
    fn default() -> (r: ClipCell)
        ensures
            r@ == CellView::blank(),
    {
        let r = ClipCell {
            text: String::new(),
            formula: None,
            format: None,
            style: ManualStyle::default(),
            origin: None,
        };
        assert(r@ =~= CellView::blank());
        r
    }
}

impl Clone for ClipCell {
    fn clone(&self) -> (r: ClipCell)
        ensures
            r@ == self@,
    {
        ClipCell {
            text: self.text.clone(),
            formula: clone_string(&self.formula),
            format: clone_string(&self.format),
            style: self.style,
            origin: self.origin,
        }
    }
}

/// What is left of a number once grouping, currency and blanks are dropped;
/// `None` where something else stands among the digits.
pub open spec fn bare_number(s: Seq<char>, kept: Seq<char>) -> Option<Seq<char>>
    decreases s.len(),
{
    if s.len() == 0 {
        Some(kept)
    } else {
        let c = s[0];
        let rest = s.subrange(1, s.len() as int);
        if '0' <= c <= '9' || c == '.' {
            bare_number(rest, kept.push(c))
        } else if (c == '-' || c == '+') && kept.len() == 0 {
            bare_number(rest, kept.push(c))
        } else if c == ',' || c == ' ' || c == '\u{a0}' || c == '\u{2009}' {
            bare_number(rest, kept)
        } else if kept.len() == 0 {
            bare_number(rest, kept)
        } else {
            None
        }
    }
}

/// A spreadsheet-looking number read apart: its digits, whether they are a
/// percentage, and whether parentheses make it negative.
#[verifier::ext_equal]
pub struct LooseView {
    pub digits: Seq<char>,
    pub percent: bool,
    pub negative: bool,
}

/// A spreadsheet-looking number read apart.
#[derive(Debug, PartialEq, Eq)]
pub struct LooseNumber {
    /// Digits, a sign in front, a point among them.
    pub digits: String,
    /// To be divided by 100.
    pub percent: bool,
    /// To be negated.
    pub negative: bool,
}

impl View for LooseNumber {
    type V = LooseView;

    open spec fn view(&self) -> LooseView {
        LooseView { digits: self.digits@, percent: self.percent, negative: self.negative }
    }
}

pub open spec fn loose_number(s: Seq<char>) -> Option<LooseView> {
    let t = trimmed(s);
    let negative = t.len() >= 2 && t[0] == '(' && t.last() == ')';
    let u = if negative {
        t.subrange(1, t.len() - 1)
    } else {
        t
    };
    let percent = u.len() > 0 && u.last() == '%';
    let v = trimmed(
        if percent {
            u.drop_last()
        } else {
            u
        },
    );
    if t.len() == 0 {
        None
    } else {
        match bare_number(v, Seq::empty()) {
            Some(digits) => if float_literal(digits) {
                Some(LooseView { digits, percent, negative })
            } else {
                None
            },
            None => None,
        }
    }
}

/// Read a spreadsheet-looking number apart: optional currency symbol,
/// thousands separators, trailing percent, parenthesised negatives.
fn parse_loose_number(s: &str) -> (r: Option<LooseNumber>)
    ensures
        match r {
            Some(n) => loose_number(s@) == Some(n@),
            None => loose_number(s@) is None,
        },
{
    let cs = chars_of(s);
    let t = trim_range(&cs, 0, cs.len());
    assert(cs@.subrange(0, cs@.len() as int) =~= cs@);
    let n: usize = t.len();
    if n == 0 {
        return None;
    }
    let negative = n >= 2 && t[0] == '(' && t[n - 1] == ')';
    let from: usize = if negative {
        1
    } else {
        0
    };
    let mut to: usize = if negative {
        n - 1
    } else {
        n
    };
    let ghost u = t@.subrange(from as int, to as int);
    assert(!negative ==> u =~= t@);
    let percent = to > from && t[to - 1] == '%';
    if percent {
        to = to - 1;
        assert(u.drop_last() =~= t@.subrange(from as int, to as int));
    }
    let v = trim_range(&t, from, to);
    let m: usize = v.len();
    let mut kept: Vec<char> = Vec::new();
    let mut i: usize = 0;
    let ghost whole = bare_number(v@, Seq::empty());
    assert(v@.subrange(0, m as int) =~= v@);
    assert(kept@ =~= Seq::<char>::empty());
    while i < m
        invariant_except_break
            i <= m == v@.len(),
            bare_number(v@.subrange(i as int, m as int), kept@) == whole,
        ensures
            i < m ==> whole is None,
            i >= m ==> whole == Some(kept@),
        decreases m - i,
    {
        let c = v[i];
        let ghost rest = v@.subrange(i as int, m as int);
        assert(rest.subrange(1, rest.len() as int) =~= v@.subrange(i + 1, m as int));
        if ('0' <= c && c <= '9') || c == '.' {
            kept.push(c);
        } else if (c == '-' || c == '+') && kept.len() == 0 {
            kept.push(c);
        } else if c == ',' || c == ' ' || c == '\u{a0}' || c == '\u{2009}' {
        } else if kept.len() == 0 {
        } else {
            assert(whole is None);
            break;
        }
        i = i + 1;
    }
    if i < m || !is_float_literal(&kept) {
        return None;
    }
    Some(LooseNumber { digits: string_of(&kept), percent, negative })
}

impl ClipCell {
    /// A cell of bare text.
    pub fn text(s: &str) -> (r: ClipCell)
        ensures
            r@ == CellView::of_text(s@),
    {
        let r = ClipCell {
            text: s.to_owned(),
            formula: None,
            format: None,
            style: ManualStyle::default(),
            origin: None,
        };
        assert(r@ =~= CellView::of_text(s@));
        r
    }

    /// Is there no formula and no formatting to carry?
    pub fn is_plain(&self) -> (b: bool)
        ensures
            b == (self@.formula is None && self@.format is None && self@.style
                == ManualStyle::plain()),
    {
        self.formula.is_none() && self.format.is_none() && self.style.is_empty()
    }

    /// The cell's display text read apart as a number, for the arithmetic paste
    /// operations.
    pub fn as_number(&self) -> (r: Option<LooseNumber>)
        ensures
            match r {
                Some(n) => loose_number(self@.text) == Some(n@),
                None => loose_number(self@.text) is None,
            },
    {
        parse_loose_number(self.text.as_str())
    }
}

// ---------------------------------------------------------------- blocks --

pub open spec fn cell_views(cells: Seq<ClipCell>) -> Seq<CellView> {
    Seq::new(cells.len(), |i: int| cells[i]@)
}

/// A rectangular clipboard payload, row-major and dense.
#[derive(Debug, PartialEq, Eq, Clone)]
pub struct ClipBlock {
    rows: usize,
    cols: usize,
    cells: Vec<ClipCell>,
    /// Source column widths in points, one per column, `None` where the source
    /// column had no explicit width.
    pub col_widths: Vec<Option<F32>>,
}

/// A clipboard payload, as contracts speak of it.
#[verifier::ext_equal]
pub struct BlockView {
    pub rows: nat,
    pub cols: nat,
    pub cells: Seq<CellView>,
    pub widths: Seq<Option<F32>>,
}

impl View for ClipBlock {
    type V = BlockView;

    closed spec fn view(&self) -> BlockView {
        BlockView {
            rows: self.rows as nat,
            cols: self.cols as nat,
            cells: cell_views(self.cells@),
            widths: self.col_widths@,
        }
    }
}

impl BlockView {
    /// The cell at a position.
    pub open spec fn at(self, row: int, col: int) -> CellView {
        self.cells[row * self.cols + col]
    }

    /// A block of a given shape whose cells a function gives, with no widths.
    pub open spec fn filled(rows: nat, cols: nat, cell: spec_fn(int, int) -> CellView) -> BlockView {
        BlockView {
            rows,
            cols,
            cells: Seq::new(rows * cols, |i: int| cell(i / cols as int, i % cols as int)),
            widths: Seq::new(cols, |i: int| None),
        }
    }
}

pub(crate) proof fn lemma_place(row: int, col: int, rows: int, cols: int)
    requires
        0 <= row < rows,
        0 <= col < cols,
    ensures
        0 <= row * cols + col < rows * cols,
        (row * cols + col) / cols == row,
        (row * cols + col) % cols == col,
{
    assert(0 <= row * cols + col < rows * cols) by (nonlinear_arith)
        requires
            0 <= row < rows,
            0 <= col < cols,
    ;
    vstd::arithmetic::div_mod::lemma_fundamental_div_mod_converse(
        row * cols + col,
        cols,
        row,
        col,
    );
}

proof fn lemma_place_back(i: int, rows: int, cols: int)
    requires
        0 <= i < rows * cols,
        0 < cols,
    ensures
        0 <= i / cols < rows,
        0 <= i % cols < cols,
        (i / cols) * cols + i % cols == i,
{
    vstd::arithmetic::div_mod::lemma_fundamental_div_mod(i, cols);
    vstd::arithmetic::mul::lemma_mul_is_commutative(cols, i / cols);
    vstd::arithmetic::mul::lemma_mul_is_commutative(cols, rows);
    assert(i < cols * rows);
    vstd::arithmetic::div_mod::lemma_multiply_divide_lt(i, cols, rows);
    vstd::arithmetic::div_mod::lemma_div_pos_is_pos(i, cols);
    vstd::arithmetic::div_mod::lemma_mod_bound(i, cols);
}

/// The widest row's length.
pub open spec fn widest(grid: Seq<Seq<Seq<char>>>) -> nat
    decreases grid.len(),
{
    if grid.len() == 0 {
        0
    } else if grid.last().len() > widest(grid.drop_last()) {
        grid.last().len()
    } else {
        widest(grid.drop_last())
    }
}

pub open spec fn grid_view(grid: Seq<Vec<String>>) -> Seq<Seq<Seq<char>>> {
    Seq::new(grid.len(), |r: int| Seq::new(grid[r]@.len(), |c: int| grid[r]@[c]@))
}

/// What a grid of strings shows at a position, nothing past the end of a row.
pub open spec fn grid_text(grid: Seq<Seq<Seq<char>>>, row: int, col: int) -> Seq<char> {
    if col < grid[row].len() {
        grid[row][col]
    } else {
        Seq::empty()
    }
}

impl ClipBlock {
    /// As many cells as the shape says.
    pub closed spec fn filled(&self) -> bool {
        &&& self.cells@.len() == self.rows * self.cols
        &&& self.cells@.len() <= usize::MAX
    }

    /// As many cells as the shape says, and a width for every column.
    pub open spec fn wf(&self) -> bool {
        self.filled() && self@.widths.len() == self@.cols
    }

    /// A block has as many cells as its shape says, which can be numbered, and a width
    /// for every column.
    pub proof fn the_shape_is_filled(&self)
        requires
            self.filled(),
        ensures
            self@.cells.len() == self@.rows * self@.cols,
            self@.rows * self@.cols <= usize::MAX,
            self.wf() ==> self@.widths.len() == self@.cols,
    {
    }

    /// A block of blank cells.
    pub fn new(rows: usize, cols: usize) -> (r: ClipBlock)
        requires
            rows * cols <= usize::MAX,
        ensures
            r.wf(),
            r@ == BlockView::filled(rows as nat, cols as nat, |row: int, col: int| CellView::blank()),
    {
        let n: usize = rows * cols;
        let mut cells: Vec<ClipCell> = Vec::new();
        let mut i: usize = 0;
        while i < n
            invariant
                i <= n,
                cells@.len() == i,
                forall|k: int| 0 <= k < i ==> (#[trigger] cells@[k])@ == CellView::blank(),
            decreases n - i,
        {
            cells.push(ClipCell::default());
            i = i + 1;
        }
        let mut col_widths: Vec<Option<F32>> = Vec::new();
        let mut j: usize = 0;
        while j < cols
            invariant
                j <= cols,
                col_widths@.len() == j,
                forall|k: int| 0 <= k < j ==> #[trigger] col_widths@[k] is None,
            decreases cols - j,
        {
            col_widths.push(None);
            j = j + 1;
        }
        let r = ClipBlock { rows, cols, cells, col_widths };
        assert(r@ =~= BlockView::filled(
            rows as nat,
            cols as nat,
            |row: int, col: int| CellView::blank(),
        ));
        r
    }

    pub fn rows(&self) -> (n: usize)
        ensures
            n == self@.rows,
    {
        self.rows
    }

    pub fn cols(&self) -> (n: usize)
        ensures
            n == self@.cols,
    {
        self.cols
    }

    pub fn is_empty(&self) -> (b: bool)
        ensures
            b == (self@.rows == 0 || self@.cols == 0),
    {
        self.rows == 0 || self.cols == 0
    }

    /// Total cells, for the caller's memory cap.
    pub fn cell_count(&self) -> (n: u64)
        requires
            self.filled(),
        ensures
            n == self@.rows * self@.cols,
    {
        self.cells.len() as u64
    }

    /// The cell at a position, or `None` outside the block.
    pub fn get(&self, row: usize, col: usize) -> (r: Option<&ClipCell>)
        requires
            self.filled(),
        ensures
            match r {
                Some(c) => row < self@.rows && col < self@.cols && c@ == self@.at(
                    row as int,
                    col as int,
                ),
                None => row >= self@.rows || col >= self@.cols,
            },
    {
        if row >= self.rows || col >= self.cols {
            return None;
        }
        let i: usize = self.place(row, col);
        Some(&self.cells[i])
    }

    fn place(&self, row: usize, col: usize) -> (i: usize)
        requires
            self.filled(),
            row < self.rows,
            col < self.cols,
        ensures
            i == row * self.cols + col,
            i < self.cells@.len(),
    {
        let n: usize = self.cells.len();
        proof {
            lemma_place(row as int, col as int, self.rows as int, self.cols as int);
            assert(0 <= row * self.cols <= row * self.cols + col) by (nonlinear_arith);
        }
        row * self.cols + col
    }

    /// Put a cell in place; outside the block nothing happens.
    pub fn set(&mut self, row: usize, col: usize, cell: ClipCell)
        requires
            old(self).filled(),
        ensures
            final(self).filled(),
            final(self)@ == if row < old(self)@.rows && col < old(self)@.cols {
                (BlockView {
                    cells: old(self)@.cells.update(row * old(self)@.cols + col, cell@),
                    ..old(self)@
                })
            } else {
                old(self)@
            },
    {
        if row < self.rows && col < self.cols {
            let i: usize = self.place(row, col);
            self.cells.set(i, cell);
            proof {
                assert(cell_views(self.cells@) =~= cell_views(old(self).cells@).update(
                    i as int,
                    cell@,
                ));
            }
        }
    }

    /// Build from plain display strings, short rows padded with blank cells.
    pub fn from_text_grid(grid: &Vec<Vec<String>>) -> (r: ClipBlock)
        requires
            grid@.len() * widest(grid_view(grid@)) <= usize::MAX,
        ensures
            r.wf(),
            r@ == BlockView::filled(
                grid@.len(),
                widest(grid_view(grid@)),
                |row: int, col: int|
                    CellView::of_text(grid_text(grid_view(grid@), row, col)),
            ),
    {
        let rows: usize = grid.len();
        let ghost view = grid_view(grid@);
        let mut cols: usize = 0;
        let mut k: usize = 0;
        while k < rows
            invariant
                k <= rows == grid@.len(),
                view == grid_view(grid@),
                cols == widest(view.subrange(0, k as int)),
            decreases rows - k,
        {
            proof {
                let t = view.subrange(0, k + 1);
                assert(t.drop_last() =~= view.subrange(0, k as int));
                assert(t.last().len() == grid@[k as int]@.len());
            }
            if grid[k].len() > cols {
                cols = grid[k].len();
            }
            k = k + 1;
        }
        proof {
            assert(view.subrange(0, rows as int) =~= view);
        }
        let mut cells: Vec<ClipCell> = Vec::new();
        let mut r: usize = 0;
        while r < rows
            invariant
                r <= rows == grid@.len(),
                view == grid_view(grid@),
                cells@.len() == r * cols,
                forall|i: int|
                    0 <= i < cells@.len() ==> (#[trigger] cells@[i])@ == CellView::of_text(
                        grid_text(view, i / cols as int, i % cols as int),
                    ),
            decreases rows - r,
        {
            let mut c: usize = 0;
            while c < cols
                invariant
                    r < rows == grid@.len(),
                    c <= cols,
                    view == grid_view(grid@),
                    cells@.len() == r * cols + c,
                    forall|i: int|
                        0 <= i < cells@.len() ==> (#[trigger] cells@[i])@ == CellView::of_text(
                            grid_text(view, i / cols as int, i % cols as int),
                        ),
                decreases cols - c,
            {
                proof {
                    lemma_place(r as int, c as int, rows as int, cols as int);
                    assert(view[r as int].len() == grid@[r as int]@.len());
                }
                let row = &grid[r];
                if c < row.len() {
                    cells.push(ClipCell::text(row[c].as_str()));
                } else {
                    cells.push(ClipCell::default());
                    assert(CellView::of_text(Seq::empty()) == CellView::blank());
                }
                c = c + 1;
            }
            proof {
                assert((r + 1) * cols == r * cols + cols) by (nonlinear_arith);
            }
            r = r + 1;
        }
        let mut col_widths: Vec<Option<F32>> = Vec::new();
        let mut j: usize = 0;
        while j < cols
            invariant
                j <= cols,
                col_widths@.len() == j,
                forall|k: int| 0 <= k < j ==> #[trigger] col_widths@[k] is None,
            decreases cols - j,
        {
            col_widths.push(None);
            j = j + 1;
        }
        let b = ClipBlock { rows, cols, cells, col_widths };
        assert(b@ =~= BlockView::filled(
            rows as nat,
            cols as nat,
            |row: int, col: int| CellView::of_text(grid_text(view, row, col)),
        ));
        b
    }

    /// Display strings only.
    pub fn to_text_grid(&self) -> (out: Vec<Vec<String>>)
        requires
            self.filled(),
        ensures
            out@.len() == self@.rows,
            forall|r: int|
                0 <= r < out@.len() ==> (#[trigger] out@[r])@.len() == self@.cols && forall|c: int|
                    0 <= c < self@.cols ==> (#[trigger] out@[r]@[c])@ == self@.at(r, c).text,
    {
        let mut out: Vec<Vec<String>> = Vec::new();
        let mut r: usize = 0;
        while r < self.rows
            invariant
                self.filled(),
                r <= self.rows,
                out@.len() == r,
                forall|k: int|
                    0 <= k < r ==> (#[trigger] out@[k])@.len() == self@.cols && forall|c: int|
                        0 <= c < self@.cols ==> (#[trigger] out@[k]@[c])@ == self@.at(k, c).text,
            decreases self.rows - r,
        {
            let mut row: Vec<String> = Vec::new();
            let mut c: usize = 0;
            while c < self.cols
                invariant
                    self.filled(),
                    r < self.rows,
                    c <= self.cols,
                    row@.len() == c,
                    forall|k: int| 0 <= k < c ==> (#[trigger] row@[k])@ == self@.at(r as int, k).text,
                decreases self.cols - c,
            {
                let i: usize = self.place(r, c);
                assert(self@.at(r as int, c as int) == self.cells@[i as int]@);
                row.push(self.cells[i].text.clone());
                c = c + 1;
            }
            out.push(row);
            r = r + 1;
        }
        out
    }

    /// Swap rows and columns. Column widths describe what are now rows, and are
    /// dropped rather than applied to the wrong axis.
    pub fn transposed(&self) -> (t: ClipBlock)
        requires
            self.filled(),
        ensures
            t.wf(),
            t@ == BlockView::filled(
                self@.cols,
                self@.rows,
                |row: int, col: int| self@.at(col, row),
            ),
    {
        let rows: usize = self.rows;
        let cols: usize = self.cols;
        let mut cells: Vec<ClipCell> = Vec::new();
        let mut r: usize = 0;
        while r < cols
            invariant
                self.filled(),
                rows == self.rows,
                r <= cols == self.cols,
                cells@.len() == r * rows,
                forall|i: int|
                    0 <= i < cells@.len() ==> (#[trigger] cells@[i])@ == self@.at(
                        i % rows as int,
                        i / rows as int,
                    ),
            decreases cols - r,
        {
            let mut c: usize = 0;
            while c < rows
                invariant
                    self.filled(),
                    rows == self.rows,
                    r < cols == self.cols,
                    c <= rows,
                    cells@.len() == r * rows + c,
                    forall|i: int|
                        0 <= i < cells@.len() ==> (#[trigger] cells@[i])@ == self@.at(
                            i % rows as int,
                            i / rows as int,
                        ),
                decreases rows - c,
            {
                let i: usize = self.place(c, r);
                proof {
                    lemma_place(r as int, c as int, cols as int, rows as int);
                    assert(self@.at(c as int, r as int) == self.cells@[i as int]@);
                }
                cells.push(self.cells[i].clone());
                c = c + 1;
            }
            proof {
                assert((r + 1) * rows == r * rows + rows) by (nonlinear_arith);
            }
            r = r + 1;
        }
        let mut col_widths: Vec<Option<F32>> = Vec::new();
        let mut j: usize = 0;
        while j < rows
            invariant
                j <= rows,
                col_widths@.len() == j,
                forall|k: int| 0 <= k < j ==> #[trigger] col_widths@[k] is None,
            decreases rows - j,
        {
            col_widths.push(None);
            j = j + 1;
        }
        let t = ClipBlock { rows: cols, cols: rows, cells, col_widths };
        assert(cols * rows == rows * cols) by (nonlinear_arith);
        assert(t@ =~= BlockView::filled(
            self@.cols,
            self@.rows,
            |row: int, col: int| self@.at(col, row),
        ));
        t
    }
}

/// Transposing twice gives a block back, but for the widths it drops.
pub proof fn transposing_twice_restores(b: BlockView)
    requires
        b.cells.len() == b.rows * b.cols,
    ensures
        ({
            let once = BlockView::filled(b.cols, b.rows, |row: int, col: int| b.at(col, row));
            let twice = BlockView::filled(
                once.cols,
                once.rows,
                |row: int, col: int| once.at(col, row),
            );
            twice.rows == b.rows && twice.cols == b.cols && twice.cells == b.cells
        }),
{
    let once = BlockView::filled(b.cols, b.rows, |row: int, col: int| b.at(col, row));
    let twice = BlockView::filled(once.cols, once.rows, |row: int, col: int| once.at(col, row));
    assert forall|i: int| 0 <= i < b.cells.len() implies twice.cells[i] == b.cells[i] by {
        let rows = b.rows as int;
        let cols = b.cols as int;
        if cols > 0 {
            lemma_place_back(i, rows, cols);
            let row = i / cols;
            let col = i % cols;
            lemma_place(col, row, cols, rows);
            assert(twice.cells[i] == once.at(col, row));
        } else {
            assert(rows * cols == 0) by (nonlinear_arith)
                requires
                    cols == 0,
            ;
        }
    }
    assert(twice.cells =~= b.cells);
}

// --------------------------------------------------------------- options --

/// Which aspects of the clipboard a paste applies.
#[derive(Clone, Copy, Debug, PartialEq, Eq, Structural)]
pub enum PasteWhat {
    /// Everything: values or formulas as copied, plus formats.
    All,
    /// Values only — a formula lands as the number it evaluated to.
    Values,
    /// Formula source where there was one, values elsewhere.
    Formulas,
    /// Number formats and styling only; cell contents untouched.
    Formats,
    /// Source column widths only; contents and formats untouched.
    ColumnWidths,
}

impl Default for PasteWhat {
    fn default() -> (r: PasteWhat)
        ensures
            r == PasteWhat::All,
    {
        PasteWhat::All
    }
}

impl PasteWhat {
    /// Does this mode write cell contents?
    pub fn writes_contents(self) -> (b: bool)
        ensures
            b == (self is All || self is Values || self is Formulas),
    {
        match self {
            PasteWhat::All | PasteWhat::Values | PasteWhat::Formulas => true,
            _ => false,
        }
    }

    /// Does this mode write formats or styling?
    pub fn writes_formats(self) -> (b: bool)
        ensures
            b == (self is All || self is Formats),
    {
        match self {
            PasteWhat::All | PasteWhat::Formats => true,
            _ => false,
        }
    }

    /// Does this mode write column widths?
    pub fn writes_widths(self) -> (b: bool)
        ensures
            b == (self is ColumnWidths),
    {
        match self {
            PasteWhat::ColumnWidths => true,
            _ => false,
        }
    }

    pub open spec fn name(self) -> Seq<char> {
        match self {
            PasteWhat::All => "All"@,
            PasteWhat::Values => "Values"@,
            PasteWhat::Formulas => "Formulas"@,
            PasteWhat::Formats => "Formats"@,
            PasteWhat::ColumnWidths => "Column Widths"@,
        }
    }

    /// Stable identifier for status text and command ids.
    pub fn label(self) -> (s: &'static str)
        ensures
            s@ == self.name(),
    {
        match self {
            PasteWhat::All => "All",
            PasteWhat::Values => "Values",
            PasteWhat::Formulas => "Formulas",
            PasteWhat::Formats => "Formats",
            PasteWhat::ColumnWidths => "Column Widths",
        }
    }
}

/// The arithmetic combination applied between the clipboard and what is
/// already in the destination.
#[derive(Clone, Copy, Debug, PartialEq, Eq, Structural)]
pub enum PasteOp {
    Nothing,
    Add,
    Subtract,
    Multiply,
    Divide,
}

impl Default for PasteOp {
    fn default() -> (r: PasteOp)
        ensures
            r == PasteOp::Nothing,
    {
        PasteOp::Nothing
    }
}

impl PasteOp {
    pub open spec fn name(self) -> Seq<char> {
        match self {
            PasteOp::Nothing => "None"@,
            PasteOp::Add => "Add"@,
            PasteOp::Subtract => "Subtract"@,
            PasteOp::Multiply => "Multiply"@,
            PasteOp::Divide => "Divide"@,
        }
    }

    pub fn label(self) -> (s: &'static str)
        ensures
            s@ == self.name(),
    {
        match self {
            PasteOp::Nothing => "None",
            PasteOp::Add => "Add",
            PasteOp::Subtract => "Subtract",
            PasteOp::Multiply => "Multiply",
            PasteOp::Divide => "Divide",
        }
    }
}

/// The four operations an arithmetic paste can call for.
pub struct FourOps<P, M, T, D> {
    pub plus: P,
    pub minus: M,
    pub times: T,
    pub over: D,
}

impl<
    P: Fn(F64, F64) -> F64,
    M: Fn(F64, F64) -> F64,
    T: Fn(F64, F64) -> F64,
    D: Fn(F64, F64) -> F64,
> FourOps<P, M, T, D> {
    /// The operations can be applied to every number; division to every
    /// divisor but zero.
    pub open spec fn ready(&self) -> bool {
        &&& forall|x: F64, y: F64| #[trigger] self.plus.requires((x, y))
        &&& forall|x: F64, y: F64| #[trigger] self.minus.requires((x, y))
        &&& forall|x: F64, y: F64| #[trigger] self.times.requires((x, y))
        &&& forall|x: F64, y: F64| y.magnitude_spec() != 0 ==> #[trigger] self.over.requires((x, y))
    }
}

/// The number in a destination, an empty one counting as zero.
pub open spec fn dest_number(dest: Option<F64>) -> F64 {
    match dest {
        Some(d) => d,
        None => F64(0),
    }
}

impl PasteOp {
    /// Combine a destination with a clipboard number, the destination on the
    /// left. An empty destination counts as zero. `None` when the clipboard cell
    /// is no number, or would divide by zero: the destination is then left alone.
    pub fn apply<
        P: Fn(F64, F64) -> F64,
        M: Fn(F64, F64) -> F64,
        T: Fn(F64, F64) -> F64,
        D: Fn(F64, F64) -> F64,
    >(self, dest: Option<F64>, src: Option<F64>, ops: &FourOps<P, M, T, D>) -> (r: Option<F64>)
        requires
            ops.ready(),
        ensures
            r is None <==> src is None || (self == PasteOp::Divide && src->0.magnitude_spec() == 0),
            r matches Some(n) ==> {
                let d = dest_number(dest);
                let s = src->0;
                match self {
                    PasteOp::Nothing => n == s,
                    PasteOp::Add => ops.plus.ensures((d, s), n),
                    PasteOp::Subtract => ops.minus.ensures((d, s), n),
                    PasteOp::Multiply => ops.times.ensures((d, s), n),
                    PasteOp::Divide => ops.over.ensures((d, s), n),
                }
            },
    {
        let d: F64 = match dest {
            Some(d) => d,
            None => F64(0),
        };
        let s: F64 = match src {
            Some(s) => s,
            None => {
                return None;
            },
        };
        match self {
            PasteOp::Nothing => Some(s),
            PasteOp::Add => Some((ops.plus)(d, s)),
            PasteOp::Subtract => Some((ops.minus)(d, s)),
            PasteOp::Multiply => Some((ops.times)(d, s)),
            PasteOp::Divide => if s.is_zero() {
                None
            } else {
                Some((ops.over)(d, s))
            },
        }
    }
}

/// Warning attached to a transposing paste.
pub const TRANSPOSE_NOTE: &'static str =
    "transposed — formulas were offset along the axes they moved, check their references";

/// The full Paste Special request.
#[derive(Clone, Copy, Debug, PartialEq, Eq, Structural)]
pub struct PasteOptions {
    pub what: PasteWhat,
    pub op: PasteOp,
    /// Swap rows and columns.
    pub transpose: bool,
    /// Leave the destination alone wherever the clipboard cell is blank,
    /// instead of clearing it.
    pub skip_blanks: bool,
}

impl PasteOptions {
    /// The plain paste request.
    pub fn plain() -> (r: PasteOptions)
        ensures
            r == (PasteOptions {
                what: PasteWhat::All,
                op: PasteOp::Nothing,
                transpose: false,
                skip_blanks: false,
            }),
    {
        PasteOptions {
            what: PasteWhat::All,
            op: PasteOp::Nothing,
            transpose: false,
            skip_blanks: false,
        }
    }

    pub fn values() -> (r: PasteOptions)
        ensures
            r == (PasteOptions {
                what: PasteWhat::Values,
                op: PasteOp::Nothing,
                transpose: false,
                skip_blanks: false,
            }),
    {
        PasteOptions {
            what: PasteWhat::Values,
            op: PasteOp::Nothing,
            transpose: false,
            skip_blanks: false,
        }
    }

    /// Does this request differ from a plain paste in a way worth naming in
    /// the status line?
    pub fn is_special(&self) -> (b: bool)
        ensures
            b == (*self != (PasteOptions {
                what: PasteWhat::All,
                op: PasteOp::Nothing,
                transpose: false,
                skip_blanks: false,
            })),
    {
        self.what != PasteWhat::All || self.op != PasteOp::Nothing || self.transpose
            || self.skip_blanks
    }

    /// What is pasted, and then whatever else is asked for, with dots between.
    pub open spec fn description(self) -> Seq<char> {
        self.what.name() + (if self.op is Nothing {
            Seq::empty()
        } else {
            " · "@ + self.op.name()
        }) + (if self.transpose {
            " · Transpose"@
        } else {
            Seq::empty()
        }) + (if self.skip_blanks {
            " · Skip Blanks"@
        } else {
            Seq::empty()
        })
    }

    /// A short human description, for the status line.
    pub fn describe(&self) -> (s: String)
        ensures
            s@ == self.description(),
    {
        let mut s = String::new();
        s.push_str(self.what.label());
        if self.op != PasteOp::Nothing {
            s.push_str(" · ");
            s.push_str(self.op.label());
        }
        if self.transpose {
            s.push_str(" · Transpose");
        }
        if self.skip_blanks {
            s.push_str(" · Skip Blanks");
        }
        assert(s@ =~= self.description());
        s
    }
}

impl Default for PasteOptions {
    fn default() -> (r: PasteOptions)
        ensures
            r == (PasteOptions {
                what: PasteWhat::All,
                op: PasteOp::Nothing,
                transpose: false,
                skip_blanks: false,
            }),
    {
        PasteOptions::plain()
    }
}

impl Default for ClipBlock {
    fn default() -> (r: ClipBlock)
        ensures
            r.wf(),
            r@ == (BlockView { rows: 0, cols: 0, cells: Seq::empty(), widths: Seq::empty() }),
    {
        let r = ClipBlock { rows: 0, cols: 0, cells: Vec::new(), col_widths: Vec::new() };
        assert(r@ =~= (BlockView { rows: 0, cols: 0, cells: Seq::empty(), widths: Seq::empty() }));
        r
    }
}

// -------------------------------------------------------------- sniffing --

/// How much of a payload is sniffed.
pub const SNIFF_CHARS: usize = 4096;

/// Whether the head of a payload holds a `<table`, in either case.
pub open spec fn html_like(s: Seq<char>) -> bool {
    has_word(
        ascii_lowered(
            s.subrange(
                0,
                if s.len() < SNIFF_CHARS {
                    s.len() as int
                } else {
                    SNIFF_CHARS as int
                },
            ),
        ),
        "<table"@,
    )
}

/// Does this clipboard payload look like the HTML flavour? Only the head of a
/// large paste is inspected.
pub fn looks_like_html(text: &str) -> (b: bool)
    ensures
        b == html_like(text@),
{
    let head = head_of(text, SNIFF_CHARS);
    contains_str(&lower_all(&head), "<table")
}

/// The first `n` characters of `s`, or all of them.
fn head_of(s: &str, n: usize) -> (out: Vec<char>)
    ensures
        out@ == s@.subrange(
            0,
            if s@.len() < n {
                s@.len() as int
            } else {
                n as int
            },
        ),
{
    let mut out: Vec<char> = Vec::new();
    let mut it = s.chars();
    assert(out@ + it.remaining() =~= s@);
    while out.len() < n
        invariant_except_break
            out@.len() <= n,
            out@ + it.remaining() == s@,
        ensures
            out@ == s@.subrange(
                0,
                if s@.len() < n {
                    s@.len() as int
                } else {
                    n as int
                },
            ),
        decreases n - out@.len(),
    {
        let ghost so_far = out@;
        let ghost rest = it.remaining();
        match it.next() {
            Some(c) => {
                out.push(c);
                assert(out@ + it.remaining() =~= so_far + rest);
            },
            None => {
                assert(out@ =~= s@);
                break;
            },
        }
    }
    out
}

// --------------------------------------------------------------- lengths --

/// A number that was read, if it is positive.
pub open spec fn positive(read: Option<F32>) -> Option<F32> {
    match read {
        Some(x) => if F32(0).lt_spec(x) {
            Some(x)
        } else {
            None
        },
        None => None,
    }
}

/// What turns the text of a length into points.
pub struct LengthReader<N: Fn(&str) -> Option<F32>, P: Fn(F32) -> F32> {
    /// The number that a text spells.
    pub number: N,
    /// Pixels in points.
    pub points: P,
}

impl<N: Fn(&str) -> Option<F32>, P: Fn(F32) -> F32> LengthReader<N, P> {
    /// Every text and every number can be asked about.
    pub open spec fn ready(self) -> bool {
        &&& forall|s: &str| self.number.requires((s,))
        &&& forall|x: F32| self.points.requires((x,))
    }

    /// `r` is the positive number that the text spells, if it does.
    pub open spec fn amount(self, text: Seq<char>, r: Option<F32>) -> bool {
        exists|s: &str, got: Option<F32>| #[trigger]
            self.number.ensures((s,), got) && s@ == text && r == positive(got)
    }

    /// So many pixels are so many points.
    pub open spec fn converts(self, px: F32, pt: F32) -> bool {
        self.points.ensures((px,), pt)
    }

    /// The text spells a positive number of pixels, and they are so many points.
    pub open spec fn in_pixels(self, text: Seq<char>, pt: F32) -> bool {
        exists|px: F32| #[trigger] self.converts(px, pt) && self.amount(text, Some(px))
    }

    /// `r` is what a written length comes to in points: `pt` is taken at face value,
    /// and anything else is pixels. A length that is not positive is none.
    pub open spec fn reads(self, l: LengthView, r: Option<F32>) -> bool {
        match l.unit {
            LengthUnit::Point => self.amount(l.amount, r),
            _ => if r is Some {
                self.in_pixels(l.amount, r->0)
            } else {
                self.amount(l.amount, None)
            },
        }
    }

    pub open spec fn measures(self, l: Option<LengthView>, r: Option<F32>) -> bool {
        match l {
            Some(l) => self.reads(l, r),
            None => r is None,
        }
    }

    /// `r` is the font size: clamped, so that no paste can make a sheet that draws
    /// over itself.
    pub open spec fn sizes(self, l: Option<LengthView>, r: Option<F32>) -> bool {
        exists|pt: Option<F32>| #[trigger]
            self.measures(l, pt) && r == match pt {
                Some(x) => Some(clamped_pt(x)),
                None => None,
            }
    }

    /// `r` is the column's width: an explicit unit wins over the bare attribute.
    pub open spec fn widens(self, w: WidthText, r: Option<F32>) -> bool {
        ||| r is Some && self.measures(w.css, r)
        ||| self.measures(w.css, None) && self.measures(w.attr, r)
    }

    pub open spec fn styles(self, t: StyleText, s: ManualStyle) -> bool {
        &&& s.fill == t.fill
        &&& s.text == t.text
        &&& s.typography.bold == t.bold
        &&& s.typography.italic == t.italic
        &&& s.typography.underline == t.underline
        &&& s.typography.strikethrough == t.strikethrough
        &&& s.typography.family == t.family
        &&& self.sizes(t.size, s.typography.size)
    }

    pub open spec fn makes(self, t: CellText, c: CellView) -> bool {
        &&& c.text == t.text
        &&& c.formula == t.formula
        &&& c.format == t.format
        &&& c.origin == t.origin
        &&& self.styles(t.style, c.style)
    }

    /// `b` is the block that a spelled one stands for.
    pub open spec fn fills(self, t: BlockText, b: BlockView) -> bool {
        &&& b.rows == t.rows
        &&& b.cols == t.cols
        &&& b.cells.len() == t.cells.len()
        &&& forall|i: int| 0 <= i < t.cells.len() ==> self.makes(#[trigger] t.cells[i], b.cells[i])
        &&& b.widths.len() == t.widths.len()
        &&& forall|i: int|
            0 <= i < t.widths.len() ==> self.widens(#[trigger] t.widths[i], b.widths[i])
    }

    fn read_amount(&self, text: &str) -> (r: Option<F32>)
        requires
            self.ready(),
        ensures
            self.amount(text@, r),
    {
        let got = (self.number)(text);
        match got {
            Some(x) => if F32(0).less_than(x) {
                Some(x)
            } else {
                None
            },
            None => None,
        }
    }

    fn read_length(&self, l: &Option<Length>) -> (r: Option<F32>)
        requires
            self.ready(),
        ensures
            self.measures(length_view(*l), r),
    {
        match l {
            Some(len) => {
                let got = self.read_amount(len.amount.as_str());
                let r = match len.unit {
                    LengthUnit::Point => got,
                    LengthUnit::Pixel | LengthUnit::Bare => match got {
                        Some(px) => {
                            let pt = (self.points)(px);
                            assert(self.converts(px, pt) && self.amount(len@.amount, Some(px)));
                            assert(self.in_pixels(len@.amount, pt));
                            Some(pt)
                        },
                        None => None,
                    },
                };
                assert(self.reads(len@, r));
                r
            },
            None => None,
        }
    }

    /// A spelled style, its font size in points.
    fn read_style(&self, s: &SpelledStyle) -> (r: ManualStyle)
        requires
            self.ready(),
        ensures
            self.styles(s@, r),
    {
        let pt = self.read_length(&s.size);
        let size = match pt {
            Some(x) => Some(clamp_font_pt(x)),
            None => None,
        };
        assert(self.sizes(s@.size, size));
        ManualStyle {
            fill: s.fill,
            text: s.text,
            typography: Typography {
                family: s.family,
                size,
                bold: s.bold,
                italic: s.italic,
                underline: s.underline,
                strikethrough: s.strikethrough,
            },
        }
    }

    fn read_width(&self, w: &SpelledWidth) -> (r: Option<F32>)
        requires
            self.ready(),
        ensures
            self.widens(w@, r),
    {
        match self.read_length(&w.css) {
            Some(x) => Some(x),
            None => self.read_length(&w.attr),
        }
    }

    /// The block that a spelled one stands for.
    pub fn read_block(&self, t: &SpelledBlock) -> (b: ClipBlock)
        requires
            self.ready(),
            t.wf(),
            t@.widths.len() == t@.cols,
        ensures
            b.wf(),
            self.fills(t@, b@),
    {
        let mut cells: Vec<ClipCell> = Vec::new();
        let mut i: usize = 0;
        while i < t.cells.len()
            invariant
                self.ready(),
                i <= t.cells@.len(),
                cells@.len() == i,
                forall|k: int| 0 <= k < i ==> self.makes(t.cells@[k]@, (#[trigger] cells@[k])@),
            decreases t.cells@.len() - i,
        {
            let c = &t.cells[i];
            cells.push(
                ClipCell {
                    text: c.text.clone(),
                    formula: clone_string(&c.formula),
                    format: clone_string(&c.format),
                    style: self.read_style(&c.style),
                    origin: c.origin,
                },
            );
            i = i + 1;
        }
        let mut col_widths: Vec<Option<F32>> = Vec::new();
        let mut j: usize = 0;
        while j < t.col_widths.len()
            invariant
                self.ready(),
                j <= t.col_widths@.len(),
                col_widths@.len() == j,
                forall|k: int| 0 <= k < j ==> self.widens(t.col_widths@[k]@, #[trigger] col_widths@[k]),
            decreases t.col_widths@.len() - j,
        {
            col_widths.push(self.read_width(&t.col_widths[j]));
            j = j + 1;
        }
        let b = ClipBlock { rows: t.rows, cols: t.cols, cells, col_widths };
        proof {
            assert forall|k: int| 0 <= k < t@.cells.len() implies self.makes(
                #[trigger] t@.cells[k],
                b@.cells[k],
            ) by {
                assert(self.makes(t.cells@[k]@, cells@[k]@));
            }
            assert forall|k: int| 0 <= k < t@.widths.len() implies self.widens(
                #[trigger] t@.widths[k],
                b@.widths[k],
            ) by {
                assert(self.widens(t.col_widths@[k]@, col_widths@[k]));
            }
        }
        b
    }
}

/// What turns a length in points into text.
pub struct LengthWriter<N: Fn(F32) -> String, P: Fn(F32) -> F32> {
    /// A number's text, rounded to two places.
    pub number: N,
    /// Points in pixels.
    pub pixels: P,
}

impl<N: Fn(F32) -> String, P: Fn(F32) -> F32> LengthWriter<N, P> {
    /// Every number can be written.
    pub open spec fn ready(self) -> bool {
        &&& forall|x: F32| self.number.requires((x,))
        &&& forall|x: F32| self.pixels.requires((x,))
    }

    /// The number is written so.
    pub open spec fn writes(self, x: F32, text: Seq<char>) -> bool {
        exists|s: String| #[trigger] self.number.ensures((x,), s) && s@ == text
    }

    /// A font size is written in points.
    pub open spec fn sizes(self, pt: Option<F32>, l: Option<LengthView>) -> bool {
        match (pt, l) {
            (Some(x), Some(l)) => l.unit is Point && self.writes(x, l.amount),
            (None, None) => true,
            _ => false,
        }
    }

    /// A width is written twice: bare, which is pixels, and in points.
    pub open spec fn widens(self, pt: Option<F32>, w: WidthText) -> bool {
        match (pt, w.attr, w.css) {
            (Some(x), Some(a), Some(c)) => {
                &&& c.unit is Point && self.writes(x, c.amount)
                &&& a.unit is Bare && exists|px: F32| #[trigger]
                    self.pixels.ensures((x,), px) && self.writes(px, a.amount)
            },
            (None, None, None) => true,
            _ => false,
        }
    }

    pub open spec fn styles(self, s: ManualStyle, t: StyleText) -> bool {
        &&& t.fill == s.fill
        &&& t.text == s.text
        &&& t.bold == s.typography.bold
        &&& t.italic == s.typography.italic
        &&& t.underline == s.typography.underline
        &&& t.strikethrough == s.typography.strikethrough
        &&& t.family == s.typography.family
        &&& self.sizes(s.typography.size, t.size)
    }

    pub open spec fn makes(self, c: CellView, t: CellText) -> bool {
        &&& t.text == c.text
        &&& t.formula == c.formula
        &&& t.format == c.format
        &&& t.origin == c.origin
        &&& self.styles(c.style, t.style)
    }

    /// `t` is how a block is spelled.
    pub open spec fn spells(self, b: BlockView, t: BlockText) -> bool {
        &&& t.rows == b.rows
        &&& t.cols == b.cols
        &&& t.cells.len() == b.cells.len()
        &&& forall|i: int| 0 <= i < b.cells.len() ==> self.makes(#[trigger] b.cells[i], t.cells[i])
        &&& t.widths.len() == b.widths.len()
        &&& forall|i: int|
            0 <= i < b.widths.len() ==> self.widens(#[trigger] b.widths[i], t.widths[i])
    }

    fn write_style(&self, s: &ManualStyle) -> (t: SpelledStyle)
        requires
            self.ready(),
        ensures
            self.styles(*s, t@),
    {
        let ty = &s.typography;
        let size = match ty.size {
            Some(x) => Some(Length { amount: (self.number)(x), unit: LengthUnit::Point }),
            None => None,
        };
        SpelledStyle {
            fill: s.fill,
            text: s.text,
            bold: ty.bold,
            italic: ty.italic,
            underline: ty.underline,
            strikethrough: ty.strikethrough,
            family: ty.family,
            size,
        }
    }

    fn write_width(&self, w: &Option<F32>) -> (t: SpelledWidth)
        requires
            self.ready(),
        ensures
            self.widens(*w, t@),
    {
        match w {
            Some(pt) => {
                let px = (self.pixels)(*pt);
                let bare = (self.number)(px);
                let full = (self.number)(*pt);
                assert(self.writes(px, bare@));
                SpelledWidth {
                    attr: Some(Length { amount: bare, unit: LengthUnit::Bare }),
                    css: Some(Length { amount: full, unit: LengthUnit::Point }),
                }
            },
            None => SpelledWidth { attr: None, css: None },
        }
    }

    /// How a block is spelled.
    pub fn write_block(&self, b: &ClipBlock) -> (t: SpelledBlock)
        requires
            self.ready(),
            b.filled(),
        ensures
            t.wf(),
            self.spells(b@, t@),
    {
        let mut cells: Vec<SpelledCell> = Vec::new();
        let mut i: usize = 0;
        while i < b.cells.len()
            invariant
                self.ready(),
                i <= b.cells@.len(),
                cells@.len() == i,
                forall|k: int| 0 <= k < i ==> self.makes(b.cells@[k]@, (#[trigger] cells@[k])@),
            decreases b.cells@.len() - i,
        {
            let c = &b.cells[i];
            cells.push(
                SpelledCell {
                    text: c.text.clone(),
                    formula: clone_string(&c.formula),
                    format: clone_string(&c.format),
                    style: self.write_style(&c.style),
                    origin: c.origin,
                },
            );
            i = i + 1;
        }
        let mut col_widths: Vec<SpelledWidth> = Vec::new();
        let mut j: usize = 0;
        while j < b.col_widths.len()
            invariant
                self.ready(),
                j <= b.col_widths@.len(),
                col_widths@.len() == j,
                forall|k: int|
                    0 <= k < j ==> self.widens(b.col_widths@[k], (#[trigger] col_widths@[k])@),
            decreases b.col_widths@.len() - j,
        {
            col_widths.push(self.write_width(&b.col_widths[j]));
            j = j + 1;
        }
        let t = SpelledBlock { rows: b.rows, cols: b.cols, cells, col_widths };
        proof {
            assert forall|k: int| 0 <= k < b@.cells.len() implies self.makes(
                #[trigger] b@.cells[k],
                t@.cells[k],
            ) by {
                assert(self.makes(b.cells@[k]@, cells@[k]@));
            }
            assert forall|k: int| 0 <= k < b@.widths.len() implies self.widens(
                #[trigger] b@.widths[k],
                t@.widths[k],
            ) by {
                assert(self.widens(b.col_widths@[k], col_widths@[k]@));
            }
        }
        t
    }
}

/// Render a block as an HTML `<table>`.
pub fn to_html<N: Fn(F32) -> String, P: Fn(F32) -> F32>(
    block: &ClipBlock,
    writer: &LengthWriter<N, P>,
) -> (html: String)
    requires
        block.filled(),
        writer.ready(),
    ensures
        exists|t: BlockText| #[trigger] writer.spells(block@, t) && html@ == block_html(t),
{
    let t = writer.write_block(block);
    spelled_html(&t)
}

} // verus!
