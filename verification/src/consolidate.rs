//! Consolidate: aggregate matching ranges from several sheets by row and
//! column key.
//!
//! Each source range is read as a small header grid: the first column holds row
//! keys, the first row holds column keys, and the interior is data. The union of
//! the keys, in first-seen order, becomes the result's shape.
//!
//! Missing keys are explicit, never zeroed. Every cell of the result carries the
//! number of sources that contributed to it and the names of those that did not.
//!
//! A cell's aggregate says what is to be added or averaged, and
//! [`Combined::number`] computes it with the caller's floating-point operations.
//! Counting and picking the smallest or largest number need none.

use crate::chart::{folded, running};
use crate::text::{
    decimal, distinct, distinct_lists_each_text_once, find_key, find_last_key, first_at, last_at,
    lemma_first_at, push_decimal, texts,
};
use crate::value::{
    largest, largest_of, smallest, smallest_of, the_largest_is_among_them,
    the_smallest_is_among_them, F64,
};
use vstd::prelude::*;

verus! {

/// How the values landing on one key pair are combined.
#[derive(Clone, Copy, Debug, PartialEq, Eq, Structural)]
pub enum ConsolidateFn {
    Sum,
    Count,
    Average,
    Min,
    Max,
}

/// One source block: a sheet plus a labelled rectangle in it, bounds inclusive.
/// The first row holds the column keys and the first column the row keys.
#[derive(Debug, PartialEq, Eq, Clone)]
pub struct Source {
    pub sheet: String,
    pub first_row: u32,
    pub last_row: u32,
    pub first_col: u32,
    pub last_col: u32,
}

#[verifier::ext_equal]
pub ghost struct SourceView {
    pub sheet: String,
    pub first_row: u32,
    pub last_row: u32,
    pub first_col: u32,
    pub last_col: u32,
}

impl View for Source {
    type V = SourceView;

    open spec fn view(&self) -> SourceView {
        SourceView {
            sheet: self.sheet,
            first_row: self.first_row,
            last_row: self.last_row,
            first_col: self.first_col,
            last_col: self.last_col,
        }
    }
}

pub open spec fn source_views(v: Seq<Source>) -> Seq<SourceView> {
    Seq::new(v.len(), |i: int| v[i]@)
}

/// Read access to the sheets being consolidated. What a cell shows is a
/// function of where it is.
pub trait RangeSource {
    /// What a cell shows.
    spec fn label(&self, sheet: String, row: u32, col: u32) -> String;

    /// What a cell holds as a number.
    spec fn number(&self, sheet: String, row: u32, col: u32) -> Option<F64>;

    /// Display text of a cell, used for keys. Empty for a blank cell.
    fn label_at(&self, sheet: &String, row: u32, col: u32) -> (r: String)
        ensures
            r@ == self.label(*sheet, row, col)@,
    ;

    /// Numeric value of a cell, or `None` when it holds no number.
    fn number_at(&self, sheet: &String, row: u32, col: u32) -> (r: Option<F64>)
        ensures
            r == self.number(*sheet, row, col),
    ;
}

/// What to consolidate.
#[derive(Debug, Clone)]
pub struct ConsolidateRequest {
    pub sources: Vec<Source>,
    pub func: ConsolidateFn,
    /// Cap on the cells of the result.
    pub max_cells: usize,
}

/// Default cap on consolidated cells: a 1000x1000 result.
pub const MAX_OUTPUT_CELLS: usize = 1_000_000;

/// An aggregate: a count or a number where comparing is enough, else the numbers
/// to add up or to average, in source order.
#[derive(Debug, PartialEq, Clone)]
pub enum Combined {
    Total(Vec<F64>),
    Mean(Vec<F64>),
    Count(usize),
    Number(F64),
}

#[verifier::ext_equal]
pub ghost enum CombinedView {
    Total(Seq<F64>),
    Mean(Seq<F64>),
    Count(nat),
    Number(F64),
}

impl View for Combined {
    type V = CombinedView;

    open spec fn view(&self) -> CombinedView {
        match self {
            Combined::Total(v) => CombinedView::Total(v@),
            Combined::Mean(v) => CombinedView::Mean(v@),
            Combined::Count(n) => CombinedView::Count(*n as nat),
            Combined::Number(x) => CombinedView::Number(*x),
        }
    }
}

impl Combined {
    /// The number an aggregate comes to. `plus`, `share` and `number` are the
    /// arithmetic: the sum of two numbers, a sum divided by a count, and a count as
    /// a number.
    pub fn number<A: Fn(F64, F64) -> F64, M: Fn(F64, u64) -> F64, C: Fn(u64) -> F64>(
        &self,
        plus: &A,
        share: &M,
        number: &C,
    ) -> (r: F64)
        requires
            forall|x: F64, y: F64| #[trigger] plus.requires((x, y)),
            forall|x: F64, n: u64| #[trigger] share.requires((x, n)),
            forall|n: u64| #[trigger] number.requires((n,)),
        ensures
            match self {
                Combined::Total(v) => folded(*plus, v@, r),
                Combined::Mean(v) => exists|total: F64| #[trigger]
                    folded(*plus, v@, total) && share.ensures((total, v@.len() as u64), r),
                Combined::Count(n) => number.ensures((*n as u64,), r),
                Combined::Number(x) => r == *x,
            },
    {
        match self {
            Combined::Total(v) => total_of(v, plus),
            Combined::Mean(v) => {
                let total = total_of(v, plus);
                let mean = share(total, v.len() as u64);
                assert(folded(*plus, v@, total) && share.ensures((total, v@.len() as u64), mean));
                mean
            },
            Combined::Count(n) => number(*n as u64),
            Combined::Number(x) => *x,
        }
    }
}

/// The numbers added up in their order.
fn total_of<A: Fn(F64, F64) -> F64>(v: &Vec<F64>, plus: &A) -> (total: F64)
    requires
        forall|x: F64, y: F64| #[trigger] plus.requires((x, y)),
    ensures
        folded(*plus, v@, total),
{
    let mut total: F64 = F64(0);
    let ghost mut parts: Seq<F64> = seq![total];
    let mut i: usize = 0;
    while i < v.len()
        invariant
            i <= v@.len(),
            forall|x: F64, y: F64| #[trigger] plus.requires((x, y)),
            parts.len() == i + 1,
            parts[0] == F64(0),
            parts[i as int] == total,
            forall|k: int| 0 <= k < i ==> plus.ensures((parts[k], #[trigger] v@[k]), parts[k + 1]),
        decreases v@.len() - i,
    {
        total = plus(total, v[i]);
        proof {
            parts = parts.push(total);
        }
        i = i + 1;
    }
    assert(running(*plus, v@, parts));
    total
}

/// One consolidated cell.
#[derive(Debug, PartialEq, Clone)]
pub struct Cell {
    /// The aggregate, or `None` when no source contributed a number here. `None`
    /// is not zero.
    pub value: Option<Combined>,
    /// How many sources supplied a number for this key pair.
    pub contributors: usize,
    /// The sheets of the sources that did not.
    pub missing_from: Vec<String>,
}

#[verifier::ext_equal]
pub ghost struct CellView {
    pub value: Option<CombinedView>,
    pub contributors: nat,
    pub missing_from: Seq<Seq<char>>,
}

impl View for Cell {
    type V = CellView;

    open spec fn view(&self) -> CellView {
        CellView {
            value: match self.value {
                Some(c) => Some(c@),
                None => None,
            },
            contributors: self.contributors as nat,
            missing_from: texts(self.missing_from@),
        }
    }
}

impl Cell {
    /// True when at least one source did not contribute.
    pub fn is_partial(&self) -> (b: bool)
        ensures
            b == (self.missing_from@.len() > 0),
    {
        self.missing_from.len() > 0
    }
}

pub open spec fn cells_view(v: Seq<Cell>) -> Seq<CellView> {
    Seq::new(v.len(), |i: int| v[i]@)
}

/// Counts a status line can state without lying.
#[derive(Debug, PartialEq, Eq, Clone)]
pub struct ConsolidateReport {
    pub sources: usize,
    pub row_keys: usize,
    pub col_keys: usize,
    /// Cells where at least one source contributed nothing.
    pub partial_cells: usize,
    /// Cells where no source contributed a number.
    pub empty_cells: usize,
    /// `(sheet, row_key)` pairs absent from that sheet entirely.
    pub missing: Vec<(String, String)>,
}

impl Default for ConsolidateReport {
    fn default() -> (r: ConsolidateReport)
        ensures
            r@ == (ReportView {
                sources: 0,
                row_keys: 0,
                col_keys: 0,
                partial_cells: 0,
                empty_cells: 0,
                missing: Seq::empty(),
            }),
    {
        let r = ConsolidateReport {
            sources: 0,
            row_keys: 0,
            col_keys: 0,
            partial_cells: 0,
            empty_cells: 0,
            missing: Vec::new(),
        };
        assert(r@.missing =~= Seq::empty());
        r
    }
}

#[verifier::ext_equal]
pub ghost struct ReportView {
    pub sources: nat,
    pub row_keys: nat,
    pub col_keys: nat,
    pub partial_cells: nat,
    pub empty_cells: nat,
    pub missing: Seq<(Seq<char>, Seq<char>)>,
}

pub open spec fn pair_views(v: Seq<(String, String)>) -> Seq<(Seq<char>, Seq<char>)> {
    Seq::new(v.len(), |i: int| (v[i].0@, v[i].1@))
}

impl View for ConsolidateReport {
    type V = ReportView;

    open spec fn view(&self) -> ReportView {
        ReportView {
            sources: self.sources as nat,
            row_keys: self.row_keys as nat,
            col_keys: self.col_keys as nat,
            partial_cells: self.partial_cells as nat,
            empty_cells: self.empty_cells as nat,
            missing: pair_views(self.missing@),
        }
    }
}

/// The consolidated result: a small labelled grid plus a report.
#[derive(Debug, PartialEq, Clone)]
pub struct Consolidated {
    /// Row keys, in first-seen order across the sources.
    pub row_keys: Vec<String>,
    /// Column keys, in first-seen order across the sources.
    pub col_keys: Vec<String>,
    /// `cells[r * col_keys.len() + c]`.
    pub cells: Vec<Cell>,
    pub report: ConsolidateReport,
}

#[verifier::ext_equal]
pub ghost struct ConsolidatedView {
    pub row_keys: Seq<Seq<char>>,
    pub col_keys: Seq<Seq<char>>,
    pub cells: Seq<CellView>,
    pub report: ReportView,
}

impl View for Consolidated {
    type V = ConsolidatedView;

    open spec fn view(&self) -> ConsolidatedView {
        ConsolidatedView {
            row_keys: texts(self.row_keys@),
            col_keys: texts(self.col_keys@),
            cells: cells_view(self.cells@),
            report: self.report@,
        }
    }
}

impl ConsolidatedView {
    pub open spec fn at(self, row: int, col: int) -> Option<CellView> {
        let i = row * self.col_keys.len() + col;
        if col < self.col_keys.len() && i < self.cells.len() {
            Some(self.cells[i])
        } else {
            None
        }
    }

    pub open spec fn get(self, row_key: Seq<char>, col_key: Seq<char>) -> Option<CellView> {
        let r = first_at(self.row_keys, row_key);
        let c = first_at(self.col_keys, col_key);
        if r < self.row_keys.len() && c < self.col_keys.len() {
            self.at(r, c)
        } else {
            None
        }
    }
}

impl Consolidated {
    pub fn at(&self, row: usize, col: usize) -> (r: Option<&Cell>)
        ensures
            match r {
                Some(c) => self@.at(row as int, col as int) == Some(c@),
                None => self@.at(row as int, col as int) is None,
            },
    {
        let cols: usize = self.col_keys.len();
        if col >= cols {
            return None;
        }
        let n: usize = self.cells.len();
        match row.checked_mul(cols) {
            Some(start) => match start.checked_add(col) {
                Some(i) => if i < n {
                    assert(cells_view(self.cells@)[i as int] == self.cells@[i as int]@);
                    Some(&self.cells[i])
                } else {
                    None
                },
                None => None,
            },
            None => None,
        }
    }

    /// The aggregate at a key pair, by name.
    pub fn get(&self, row_key: &str, col_key: &str) -> (r: Option<&Cell>)
        ensures
            match r {
                Some(c) => self@.get(row_key@, col_key@) == Some(c@),
                None => self@.get(row_key@, col_key@) is None,
            },
    {
        let r: usize = find_key(&self.row_keys, row_key);
        if r >= self.row_keys.len() {
            return None;
        }
        let c: usize = find_key(&self.col_keys, col_key);
        if c >= self.col_keys.len() {
            return None;
        }
        self.at(r, c)
    }
}

/// Why a consolidation could not run.
#[derive(Debug, PartialEq, Eq, Clone)]
pub enum ConsolidateError {
    NoSources,
    /// A source rectangle has no data area once its headers are peeled off.
    EmptySource(String),
    TooLarge { cells: usize, max: usize },
}

#[verifier::ext_equal]
pub ghost enum ErrorView {
    NoSources,
    EmptySource(Seq<char>),
    TooLarge { cells: nat, max: nat },
}

impl View for ConsolidateError {
    type V = ErrorView;

    open spec fn view(&self) -> ErrorView {
        match self {
            ConsolidateError::NoSources => ErrorView::NoSources,
            ConsolidateError::EmptySource(s) => ErrorView::EmptySource(s@),
            ConsolidateError::TooLarge { cells, max } => ErrorView::TooLarge {
                cells: *cells as nat,
                max: *max as nat,
            },
        }
    }
}

impl ErrorView {
    pub open spec fn message(self) -> Seq<char> {
        match self {
            ErrorView::NoSources => "no source ranges to consolidate"@,
            ErrorView::EmptySource(s) => "the range on "@ + s
                + " has no data once its header row and key column are excluded"@,
            ErrorView::TooLarge { cells, max } => "consolidating would produce "@ + decimal(cells)
                + " cells (limit "@ + decimal(max)
                + ") — select the labelled block, not whole columns"@,
        }
    }
}

impl ConsolidateError {
    pub fn message(&self) -> (s: String)
        ensures
            s@ == self@.message(),
    {
        let mut out = String::new();
        match self {
            ConsolidateError::NoSources => {
                out.push_str("no source ranges to consolidate");
                assert(out@ =~= self@.message());
            },
            ConsolidateError::EmptySource(s) => {
                out.push_str("the range on ");
                out.push_str(s.as_str());
                out.push_str(" has no data once its header row and key column are excluded");
                assert(out@ =~= self@.message());
            },
            ConsolidateError::TooLarge { cells, max } => {
                out.push_str("consolidating would produce ");
                push_decimal(&mut out, *cells as u64);
                out.push_str(" cells (limit ");
                push_decimal(&mut out, *max as u64);
                out.push_str(") — select the labelled block, not whole columns");
                assert(out@ =~= self@.message());
            },
        }
        out
    }
}

// ----------------------------------------------------------------- model --

impl SourceView {
    /// There is data once the header row and key column are peeled off.
    pub open spec fn has_data(self) -> bool {
        self.first_row < self.last_row && self.first_col < self.last_col
    }
}

pub open spec fn row_keys_of<S: RangeSource>(src: S, s: SourceView) -> Seq<Seq<char>> {
    Seq::new(
        (s.last_row - s.first_row) as nat,
        |i: int| src.label(s.sheet, (s.first_row + 1 + i) as u32, s.first_col)@,
    )
}

pub open spec fn col_keys_of<S: RangeSource>(src: S, s: SourceView) -> Seq<Seq<char>> {
    Seq::new(
        (s.last_col - s.first_col) as nat,
        |i: int| src.label(s.sheet, s.first_row, (s.first_col + 1 + i) as u32)@,
    )
}

/// The row keys of all sources, one source after the other.
pub open spec fn all_row_keys<S: RangeSource>(src: S, ss: Seq<SourceView>) -> Seq<Seq<char>>
    decreases ss.len(),
{
    if ss.len() == 0 {
        Seq::empty()
    } else {
        all_row_keys(src, ss.drop_last()) + row_keys_of(src, ss.last())
    }
}

pub open spec fn all_col_keys<S: RangeSource>(src: S, ss: Seq<SourceView>) -> Seq<Seq<char>>
    decreases ss.len(),
{
    if ss.len() == 0 {
        Seq::empty()
    } else {
        all_col_keys(src, ss.drop_last()) + col_keys_of(src, ss.last())
    }
}

/// The number that a source has at a key pair. Where a key occurs twice in one
/// source, its last occurrence counts.
pub open spec fn contribution<S: RangeSource>(
    src: S,
    s: SourceView,
    rk: Seq<char>,
    ck: Seq<char>,
) -> Option<F64> {
    let r = last_at(row_keys_of(src, s), rk);
    let c = last_at(col_keys_of(src, s), ck);
    if r >= 0 && c >= 0 {
        src.number(s.sheet, (s.first_row + 1 + r) as u32, (s.first_col + 1 + c) as u32)
    } else {
        None
    }
}

/// The numbers contributed at a key pair, in source order.
pub open spec fn contributed<S: RangeSource>(
    src: S,
    ss: Seq<SourceView>,
    rk: Seq<char>,
    ck: Seq<char>,
) -> Seq<F64>
    decreases ss.len(),
{
    if ss.len() == 0 {
        Seq::empty()
    } else {
        let before = contributed(src, ss.drop_last(), rk, ck);
        match contribution(src, ss.last(), rk, ck) {
            Some(x) => before.push(x),
            None => before,
        }
    }
}

/// The sheets of the sources that have no number at a key pair.
pub open spec fn lacking<S: RangeSource>(
    src: S,
    ss: Seq<SourceView>,
    rk: Seq<char>,
    ck: Seq<char>,
) -> Seq<Seq<char>>
    decreases ss.len(),
{
    if ss.len() == 0 {
        Seq::empty()
    } else {
        let before = lacking(src, ss.drop_last(), rk, ck);
        match contribution(src, ss.last(), rk, ck) {
            Some(_) => before,
            None => before.push(ss.last().sheet@),
        }
    }
}

/// What a list of contributed numbers amounts to: nothing, where there is none.
pub open spec fn combined(f: ConsolidateFn, v: Seq<F64>) -> Option<CombinedView> {
    if v.len() == 0 {
        None
    } else {
        Some(
            match f {
                ConsolidateFn::Sum => CombinedView::Total(v),
                ConsolidateFn::Count => CombinedView::Count(v.len()),
                ConsolidateFn::Average => CombinedView::Mean(v),
                ConsolidateFn::Min => CombinedView::Number(smallest(v)),
                ConsolidateFn::Max => CombinedView::Number(largest(v)),
            },
        )
    }
}

pub open spec fn cell_at<S: RangeSource>(
    src: S,
    ss: Seq<SourceView>,
    f: ConsolidateFn,
    rk: Seq<char>,
    ck: Seq<char>,
) -> CellView {
    let v = contributed(src, ss, rk, ck);
    CellView {
        value: combined(f, v),
        contributors: v.len(),
        missing_from: lacking(src, ss, rk, ck),
    }
}

/// How many cells have a source that contributed nothing.
pub open spec fn partial_count(cells: Seq<CellView>) -> nat
    decreases cells.len(),
{
    if cells.len() == 0 {
        0
    } else {
        let c = cells.last();
        let here: nat = if c.missing_from.len() > 0 {
            1
        } else {
            0
        };
        partial_count(cells.drop_last()) + here
    }
}

/// How many cells have no contributor.
pub open spec fn empty_count(cells: Seq<CellView>) -> nat
    decreases cells.len(),
{
    if cells.len() == 0 {
        0
    } else {
        let here: nat = if cells.last().contributors == 0 {
            1
        } else {
            0
        };
        empty_count(cells.drop_last()) + here
    }
}

/// The keys that a source lacks, each with the source's sheet.
pub open spec fn absent(
    sheet: Seq<char>,
    have: Seq<Seq<char>>,
    keys: Seq<Seq<char>>,
) -> Seq<(Seq<char>, Seq<char>)>
    decreases keys.len(),
{
    if keys.len() == 0 {
        Seq::empty()
    } else {
        let before = absent(sheet, have, keys.drop_last());
        if have.contains(keys.last()) {
            before
        } else {
            before.push((sheet, keys.last()))
        }
    }
}

pub open spec fn all_absent<S: RangeSource>(
    src: S,
    ss: Seq<SourceView>,
    keys: Seq<Seq<char>>,
) -> Seq<(Seq<char>, Seq<char>)>
    decreases ss.len(),
{
    if ss.len() == 0 {
        Seq::empty()
    } else {
        all_absent(src, ss.drop_last(), keys) + absent(
            ss.last().sheet@,
            row_keys_of(src, ss.last()),
            keys,
        )
    }
}

/// The grid of cells, row by row.
pub open spec fn grid<S: RangeSource>(
    src: S,
    ss: Seq<SourceView>,
    f: ConsolidateFn,
    rows: Seq<Seq<char>>,
    cols: Seq<Seq<char>>,
) -> Seq<CellView> {
    Seq::new(
        rows.len() * cols.len(),
        |i: int| cell_at(src, ss, f, rows[i / cols.len() as int], cols[i % cols.len() as int]),
    )
}

/// The first source without data, or their number.
pub open spec fn first_without_data(ss: Seq<SourceView>, i: int) -> int
    decreases ss.len() - i,
{
    if 0 <= i < ss.len() && ss[i].has_data() {
        first_without_data(ss, i + 1)
    } else {
        i
    }
}

pub open spec fn saturated(n: nat) -> nat {
    if n > usize::MAX {
        usize::MAX as nat
    } else {
        n
    }
}

/// What consolidating comes to.
pub open spec fn outcome<S: RangeSource>(
    src: S,
    ss: Seq<SourceView>,
    f: ConsolidateFn,
    max: nat,
) -> Result<ConsolidatedView, ErrorView> {
    let bad = first_without_data(ss, 0);
    let rows = distinct(all_row_keys(src, ss));
    let cols = distinct(all_col_keys(src, ss));
    if ss.len() == 0 {
        Err(ErrorView::NoSources)
    } else if bad < ss.len() {
        Err(ErrorView::EmptySource(ss[bad].sheet@))
    } else if rows.len() * cols.len() > max {
        Err(ErrorView::TooLarge { cells: saturated(rows.len() * cols.len()), max })
    } else {
        let cells = grid(src, ss, f, rows, cols);
        Ok(
            ConsolidatedView {
                row_keys: rows,
                col_keys: cols,
                cells,
                report: ReportView {
                    sources: ss.len(),
                    row_keys: rows.len(),
                    col_keys: cols.len(),
                    partial_cells: partial_count(cells),
                    empty_cells: empty_count(cells),
                    missing: all_absent(src, ss, rows),
                },
            },
        )
    }
}

// ------------------------------------------------------------- executing --

fn read_row_keys<S: RangeSource>(s: &Source, src: &S) -> (keys: Vec<String>)
    requires
        s@.has_data(),
    ensures
        texts(keys@) == row_keys_of(*src, s@),
{
    let mut keys: Vec<String> = Vec::new();
    let mut r: u32 = s.first_row;
    while r < s.last_row
        invariant
            s.first_row <= r <= s.last_row,
            keys@.len() == r - s.first_row,
            forall|i: int|
                0 <= i < keys@.len() ==> (#[trigger] keys@[i])@ == row_keys_of(*src, s@)[i],
        decreases s.last_row - r,
    {
        r = r + 1;
        keys.push(src.label_at(&s.sheet, r, s.first_col));
    }
    assert(texts(keys@) =~= row_keys_of(*src, s@));
    keys
}

fn read_col_keys<S: RangeSource>(s: &Source, src: &S) -> (keys: Vec<String>)
    requires
        s@.has_data(),
    ensures
        texts(keys@) == col_keys_of(*src, s@),
{
    let mut keys: Vec<String> = Vec::new();
    let mut c: u32 = s.first_col;
    while c < s.last_col
        invariant
            s.first_col <= c <= s.last_col,
            keys@.len() == c - s.first_col,
            forall|i: int|
                0 <= i < keys@.len() ==> (#[trigger] keys@[i])@ == col_keys_of(*src, s@)[i],
        decreases s.last_col - c,
    {
        c = c + 1;
        keys.push(src.label_at(&s.sheet, s.first_row, c));
    }
    assert(texts(keys@) =~= col_keys_of(*src, s@));
    keys
}

/// Adds the keys that are not listed yet.
fn merge_keys(out: &mut Vec<String>, keys: &Vec<String>, Ghost(before): Ghost<Seq<Seq<char>>>)
    requires
        texts(old(out)@) == distinct(before),
    ensures
        texts(final(out)@) == distinct(before + texts(keys@)),
{
    let ghost all = texts(keys@);
    let mut i: usize = 0;
    assert(before + all.subrange(0, 0) =~= before);
    while i < keys.len()
        invariant
            i <= keys@.len(),
            all == texts(keys@),
            texts(out@) == distinct(before + all.subrange(0, i as int)),
        decreases keys@.len() - i,
    {
        let ghost so_far = before + all.subrange(0, i as int);
        let ghost next = before + all.subrange(0, i + 1);
        proof {
            assert(next.drop_last() =~= so_far);
            assert(next.last() == keys@[i as int]@);
            lemma_first_at(texts(out@), keys@[i as int]@);
        }
        let at: usize = find_key(out, keys[i].as_str());
        if at >= out.len() {
            let ghost had = texts(out@);
            out.push(keys[i].clone());
            assert(texts(out@) =~= had.push(keys@[i as int]@));
        }
        i = i + 1;
    }
    assert(all.subrange(0, all.len() as int) =~= all);
}

/// Fold a list of contributed numbers with `f`.
fn combine(f: ConsolidateFn, vals: Vec<F64>) -> (r: Option<Combined>)
    ensures
        match r {
            Some(c) => combined(f, vals@) == Some(c@),
            None => combined(f, vals@) is None,
        },
{
    if vals.len() == 0 {
        return None;
    }
    Some(
        match f {
            ConsolidateFn::Sum => Combined::Total(vals),
            ConsolidateFn::Count => Combined::Count(vals.len()),
            ConsolidateFn::Average => Combined::Mean(vals),
            ConsolidateFn::Min => Combined::Number(smallest_of(&vals)),
            ConsolidateFn::Max => Combined::Number(largest_of(&vals)),
        },
    )
}

/// One cell: asks every source for its number at the key pair.
fn fill_cell<S: RangeSource>(
    sources: &Vec<Source>,
    src: &S,
    f: ConsolidateFn,
    rows: &Vec<Vec<String>>,
    cols: &Vec<Vec<String>>,
    rk: &String,
    ck: &String,
) -> (cell: Cell)
    requires
        rows@.len() == sources@.len() == cols@.len(),
        forall|i: int| 0 <= i < sources@.len() ==> (#[trigger] sources@[i])@.has_data(),
        forall|i: int|
            0 <= i < sources@.len() ==> texts((#[trigger] rows@[i])@) == row_keys_of(
                *src,
                sources@[i]@,
            ),
        forall|i: int|
            0 <= i < sources@.len() ==> texts((#[trigger] cols@[i])@) == col_keys_of(
                *src,
                sources@[i]@,
            ),
    ensures
        cell@ == cell_at(*src, source_views(sources@), f, rk@, ck@),
{
    let ghost ss = source_views(sources@);
    let mut vals: Vec<F64> = Vec::new();
    let mut missing: Vec<String> = Vec::new();
    let mut i: usize = 0;
    assert(texts(missing@) =~= Seq::empty());
    while i < sources.len()
        invariant
            i <= sources@.len(),
            ss == source_views(sources@),
            rows@.len() == sources@.len() == cols@.len(),
            forall|i: int| 0 <= i < sources@.len() ==> (#[trigger] sources@[i])@.has_data(),
            forall|i: int|
                0 <= i < sources@.len() ==> texts((#[trigger] rows@[i])@) == row_keys_of(
                    *src,
                    sources@[i]@,
                ),
            forall|i: int|
                0 <= i < sources@.len() ==> texts((#[trigger] cols@[i])@) == col_keys_of(
                    *src,
                    sources@[i]@,
                ),
            vals@ == contributed(*src, ss.subrange(0, i as int), rk@, ck@),
            texts(missing@) == lacking(*src, ss.subrange(0, i as int), rk@, ck@),
        decreases sources@.len() - i,
    {
        let s = &sources[i];
        assert(sources@[i as int]@.has_data());
        proof {
            let t = ss.subrange(0, i + 1);
            assert(t.drop_last() =~= ss.subrange(0, i as int));
            assert(t.last() == s@);
        }
        let mut found: Option<F64> = None;
        match find_last_key(&rows[i], rk) {
            Some(r) => match find_last_key(&cols[i], ck) {
                Some(c) => {
                    assert(rows@[i as int]@.len() == texts(rows@[i as int]@).len());
                    assert(cols@[i as int]@.len() == texts(cols@[i as int]@).len());
                    found =
                    src.number_at(
                        &s.sheet,
                        s.first_row + 1 + r as u32,
                        s.first_col + 1 + c as u32,
                    );
                },
                None => {},
            },
            None => {},
        }
        assert(found == contribution(*src, s@, rk@, ck@));
        match found {
            Some(x) => {
                vals.push(x);
            },
            None => {
                let ghost had = texts(missing@);
                missing.push(s.sheet.clone());
                assert(texts(missing@) =~= had.push(s@.sheet@));
            },
        }
        i = i + 1;
    }
    assert(ss.subrange(0, ss.len() as int) =~= ss);
    let contributors: usize = vals.len();
    let value = combine(f, vals);
    Cell { value, contributors, missing_from: missing }
}

/// The keys that one source lacks.
fn push_absent(
    out: &mut Vec<(String, String)>,
    sheet: &String,
    have: &Vec<String>,
    keys: &Vec<String>,
)
    ensures
        pair_views(final(out)@) == pair_views(old(out)@) + absent(
            sheet@,
            texts(have@),
            texts(keys@),
        ),
{
    let ghost all = texts(keys@);
    let mut i: usize = 0;
    assert(pair_views(out@) =~= pair_views(old(out)@) + absent(
        sheet@,
        texts(have@),
        all.subrange(0, 0),
    ));
    while i < keys.len()
        invariant
            i <= keys@.len(),
            all == texts(keys@),
            pair_views(out@) == pair_views(old(out)@) + absent(
                sheet@,
                texts(have@),
                all.subrange(0, i as int),
            ),
        decreases keys@.len() - i,
    {
        proof {
            let t = all.subrange(0, i + 1);
            assert(t.drop_last() =~= all.subrange(0, i as int));
            assert(t.last() == keys@[i as int]@);
            lemma_first_at(texts(have@), keys@[i as int]@);
        }
        let at: usize = find_key(have, keys[i].as_str());
        let ghost had = pair_views(out@);
        if at >= have.len() {
            out.push((sheet.clone(), keys[i].clone()));
            assert(pair_views(out@) =~= had.push((sheet@, keys@[i as int]@)));
        }
        i = i + 1;
        assert(pair_views(out@) =~= pair_views(old(out)@) + absent(
            sheet@,
            texts(have@),
            all.subrange(0, i as int),
        ));
    }
    assert(all.subrange(0, all.len() as int) =~= all);
}

proof fn lemma_with_data(ss: Seq<SourceView>, i: int, n: int)
    requires
        0 <= i <= n <= ss.len(),
        forall|k: int| i <= k < n ==> (#[trigger] ss[k]).has_data(),
        n == ss.len() || !ss[n].has_data(),
    ensures
        first_without_data(ss, i) == n,
    decreases n - i,
{
    if i < n {
        assert(ss[i].has_data());
        lemma_with_data(ss, i + 1, n);
    }
}

proof fn lemma_counts(cells: Seq<CellView>)
    ensures
        partial_count(cells) <= cells.len(),
        empty_count(cells) <= cells.len(),
    decreases cells.len(),
{
    if cells.len() > 0 {
        lemma_counts(cells.drop_last());
    }
}

/// The counts of the report.
fn count_cells(cells: &Vec<Cell>) -> (r: (usize, usize))
    ensures
        r.0 == partial_count(cells_view(cells@)),
        r.1 == empty_count(cells_view(cells@)),
{
    let ghost all = cells_view(cells@);
    let n: usize = cells.len();
    let mut partial: usize = 0;
    let mut empty: usize = 0;
    let mut i: usize = 0;
    while i < n
        invariant
            i <= n == cells@.len(),
            all == cells_view(cells@),
            partial == partial_count(all.subrange(0, i as int)),
            empty == empty_count(all.subrange(0, i as int)),
        decreases n - i,
    {
        proof {
            let t = all.subrange(0, i + 1);
            assert(t.drop_last() =~= all.subrange(0, i as int));
            assert(t.last() == cells@[i as int]@);
            lemma_counts(all.subrange(0, i as int));
        }
        if cells[i].contributors == 0 {
            empty = empty + 1;
        }
        if cells[i].is_partial() {
            partial = partial + 1;
        }
        i = i + 1;
    }
    assert(all.subrange(0, all.len() as int) =~= all);
    (partial, empty)
}

/// All cells, row by row.
fn fill<S: RangeSource>(
    sources: &Vec<Source>,
    src: &S,
    f: ConsolidateFn,
    rows: &Vec<Vec<String>>,
    cols: &Vec<Vec<String>>,
    row_keys: &Vec<String>,
    col_keys: &Vec<String>,
) -> (out: Vec<Cell>)
    requires
        rows@.len() == sources@.len() == cols@.len(),
        forall|i: int| 0 <= i < sources@.len() ==> (#[trigger] sources@[i])@.has_data(),
        forall|i: int|
            0 <= i < sources@.len() ==> texts((#[trigger] rows@[i])@) == row_keys_of(
                *src,
                sources@[i]@,
            ),
        forall|i: int|
            0 <= i < sources@.len() ==> texts((#[trigger] cols@[i])@) == col_keys_of(
                *src,
                sources@[i]@,
            ),
    ensures
        cells_view(out@) == grid(
            *src,
            source_views(sources@),
            f,
            texts(row_keys@),
            texts(col_keys@),
        ),
{
    let ghost ss = source_views(sources@);
    let ghost rks = texts(row_keys@);
    let ghost cks = texts(col_keys@);
    let ghost want = grid(*src, ss, f, rks, cks);
    let width: usize = col_keys.len();
    let mut out: Vec<Cell> = Vec::new();
    let mut r: usize = 0;
    while r < row_keys.len()
        invariant
            r <= row_keys@.len(),
            width == col_keys@.len(),
            rks == texts(row_keys@),
            cks == texts(col_keys@),
            ss == source_views(sources@),
            want == grid(*src, ss, f, rks, cks),
            rows@.len() == sources@.len() == cols@.len(),
            forall|i: int| 0 <= i < sources@.len() ==> (#[trigger] sources@[i])@.has_data(),
            forall|i: int|
                0 <= i < sources@.len() ==> texts((#[trigger] rows@[i])@) == row_keys_of(
                    *src,
                    sources@[i]@,
                ),
            forall|i: int|
                0 <= i < sources@.len() ==> texts((#[trigger] cols@[i])@) == col_keys_of(
                    *src,
                    sources@[i]@,
                ),
            out@.len() == r * width,
            forall|i: int| 0 <= i < out@.len() ==> (#[trigger] out@[i])@ == want[i],
        decreases row_keys@.len() - r,
    {
        let mut c: usize = 0;
        while c < width
            invariant
                c <= width,
                r < row_keys@.len(),
                width == col_keys@.len(),
                rks == texts(row_keys@),
                cks == texts(col_keys@),
                ss == source_views(sources@),
                want == grid(*src, ss, f, rks, cks),
                rows@.len() == sources@.len() == cols@.len(),
                forall|i: int| 0 <= i < sources@.len() ==> (#[trigger] sources@[i])@.has_data(),
                forall|i: int|
                    0 <= i < sources@.len() ==> texts((#[trigger] rows@[i])@) == row_keys_of(
                        *src,
                        sources@[i]@,
                    ),
                forall|i: int|
                    0 <= i < sources@.len() ==> texts((#[trigger] cols@[i])@) == col_keys_of(
                        *src,
                        sources@[i]@,
                    ),
                out@.len() == r * width + c,
                forall|i: int| 0 <= i < out@.len() ==> (#[trigger] out@[i])@ == want[i],
            decreases width - c,
        {
            let cell = fill_cell(sources, src, f, rows, cols, &row_keys[r], &col_keys[c]);
            proof {
                let i = r * width + c;
                let w = width as int;
                let h = row_keys@.len() as int;
                assert(i / w == r && i % w == c && 0 <= i < h * w) by (nonlinear_arith)
                    requires
                        i == r * w + c,
                        0 <= c < w,
                        0 <= r < h,
                ;
                assert(cell@ == want[i]);
            }
            out.push(cell);
            c = c + 1;
        }
        proof {
            assert((r + 1) * width == r * width + width) by (nonlinear_arith);
        }
        r = r + 1;
    }
    assert(cells_view(out@) =~= want);
    out
}

/// Consolidate `req.sources` into one labelled grid.
pub fn consolidate<S: RangeSource>(req: &ConsolidateRequest, src: &S) -> (r: Result<
    Consolidated,
    ConsolidateError,
>)
    ensures
        match r {
            Ok(c) => outcome(*src, source_views(req.sources@), req.func, req.max_cells as nat)
                == Ok::<ConsolidatedView, ErrorView>(c@),
            Err(e) => outcome(*src, source_views(req.sources@), req.func, req.max_cells as nat)
                == Err::<ConsolidatedView, ErrorView>(e@),
        },
{
    let sources = &req.sources;
    let ghost ss = source_views(sources@);
    if sources.len() == 0 {
        return Err(ConsolidateError::NoSources);
    }
    let mut rows: Vec<Vec<String>> = Vec::new();
    let mut cols: Vec<Vec<String>> = Vec::new();
    let mut row_keys: Vec<String> = Vec::new();
    let mut col_keys: Vec<String> = Vec::new();
    let mut i: usize = 0;
    assert(texts(row_keys@) =~= Seq::empty());
    assert(texts(col_keys@) =~= Seq::empty());
    while i < sources.len()
        invariant
            i <= sources@.len(),
            sources == req.sources,
            0 < sources@.len(),
            ss == source_views(sources@),
            rows@.len() == i,
            cols@.len() == i,
            forall|k: int| 0 <= k < i ==> (#[trigger] sources@[k])@.has_data(),
            forall|k: int|
                0 <= k < i ==> texts((#[trigger] rows@[k])@) == row_keys_of(*src, sources@[k]@),
            forall|k: int|
                0 <= k < i ==> texts((#[trigger] cols@[k])@) == col_keys_of(*src, sources@[k]@),
            texts(row_keys@) == distinct(all_row_keys(*src, ss.subrange(0, i as int))),
            texts(col_keys@) == distinct(all_col_keys(*src, ss.subrange(0, i as int))),
        decreases sources@.len() - i,
    {
        let s = &sources[i];
        assert(ss[i as int] == s@);
        if s.last_row <= s.first_row || s.last_col <= s.first_col {
            proof {
                assert forall|k: int| 0 <= k < i implies (#[trigger] ss[k]).has_data() by {
                    assert(sources@[k]@.has_data());
                }
                lemma_with_data(ss, 0, i as int);
            }
            return Err(ConsolidateError::EmptySource(s.sheet.clone()));
        }
        proof {
            let t = ss.subrange(0, i + 1);
            assert(t.drop_last() =~= ss.subrange(0, i as int));
            assert(t.last() == s@);
        }
        let rk = read_row_keys(s, src);
        let ck = read_col_keys(s, src);
        merge_keys(&mut row_keys, &rk, Ghost(all_row_keys(*src, ss.subrange(0, i as int))));
        merge_keys(&mut col_keys, &ck, Ghost(all_col_keys(*src, ss.subrange(0, i as int))));
        rows.push(rk);
        cols.push(ck);
        i = i + 1;
    }
    proof {
        assert(ss.subrange(0, ss.len() as int) =~= ss);
        assert forall|k: int| 0 <= k < ss.len() implies (#[trigger] ss[k]).has_data() by {
            assert(sources@[k]@.has_data());
        }
        lemma_with_data(ss, 0, ss.len() as int);
    }
    let height: usize = row_keys.len();
    let width: usize = col_keys.len();
    assert(height == texts(row_keys@).len() && width == texts(col_keys@).len());
    match height.checked_mul(width) {
        Some(cells) => {
            if cells > req.max_cells {
                return Err(ConsolidateError::TooLarge { cells, max: req.max_cells });
            }
        },
        None => {
            return Err(ConsolidateError::TooLarge { cells: usize::MAX, max: req.max_cells });
        },
    }
    let cells = fill(sources, src, req.func, &rows, &cols, &row_keys, &col_keys);
    let (partial_cells, empty_cells) = count_cells(&cells);
    let mut missing: Vec<(String, String)> = Vec::new();
    let mut j: usize = 0;
    assert(pair_views(missing@) =~= Seq::empty());
    while j < sources.len()
        invariant
            j <= sources@.len(),
            ss == source_views(sources@),
            rows@.len() == sources@.len(),
            forall|k: int|
                0 <= k < sources@.len() ==> texts((#[trigger] rows@[k])@) == row_keys_of(
                    *src,
                    sources@[k]@,
                ),
            pair_views(missing@) == all_absent(*src, ss.subrange(0, j as int), texts(row_keys@)),
        decreases sources@.len() - j,
    {
        proof {
            let t = ss.subrange(0, j + 1);
            assert(t.drop_last() =~= ss.subrange(0, j as int));
            assert(t.last() == sources@[j as int]@);
        }
        push_absent(&mut missing, &sources[j].sheet, &rows[j], &row_keys);
        j = j + 1;
    }
    let report = ConsolidateReport {
        sources: sources.len(),
        row_keys: height,
        col_keys: width,
        partial_cells,
        empty_cells,
        missing,
    };
    Ok(Consolidated { row_keys, col_keys, cells, report })
}

// ------------------------------------------------------------------ laws --

/// No source is passed over in silence: at every key pair each source either
/// contributes a number or is named as missing.
pub proof fn every_source_contributes_or_is_named<S: RangeSource>(
    src: S,
    ss: Seq<SourceView>,
    rk: Seq<char>,
    ck: Seq<char>,
)
    ensures
        contributed(src, ss, rk, ck).len() + lacking(src, ss, rk, ck).len() == ss.len(),
    decreases ss.len(),
{
    if ss.len() > 0 {
        every_source_contributes_or_is_named(src, ss.drop_last(), rk, ck);
    }
}

/// A source that lacks a key is never counted as a zero: the aggregate does not
/// change when it is left out, and it is named.
pub proof fn an_absent_key_is_named_and_not_zeroed<S: RangeSource>(
    src: S,
    ss: Seq<SourceView>,
    f: ConsolidateFn,
    rk: Seq<char>,
    ck: Seq<char>,
)
    requires
        ss.len() > 0,
        contribution(src, ss.last(), rk, ck) is None,
    ensures
        cell_at(src, ss, f, rk, ck).value == cell_at(src, ss.drop_last(), f, rk, ck).value,
        cell_at(src, ss, f, rk, ck).contributors == cell_at(
            src,
            ss.drop_last(),
            f,
            rk,
            ck,
        ).contributors,
        cell_at(src, ss, f, rk, ck).missing_from.last() == ss.last().sheet@,
{
}

/// A cell has an aggregate exactly when some source contributed to it.
pub proof fn no_contribution_is_no_value<S: RangeSource>(
    src: S,
    ss: Seq<SourceView>,
    f: ConsolidateFn,
    rk: Seq<char>,
    ck: Seq<char>,
)
    ensures
        cell_at(src, ss, f, rk, ck).value is None <==> cell_at(src, ss, f, rk, ck).contributors
            == 0,
{
}

proof fn lemma_all_row_keys<S: RangeSource>(src: S, ss: Seq<SourceView>, i: int, k: Seq<char>)
    requires
        0 <= i < ss.len(),
        row_keys_of(src, ss[i]).contains(k),
    ensures
        all_row_keys(src, ss).contains(k),
    decreases ss.len(),
{
    let before = all_row_keys(src, ss.drop_last());
    let last = row_keys_of(src, ss.last());
    if i < ss.len() - 1 {
        assert(ss.drop_last()[i] == ss[i]);
        lemma_all_row_keys(src, ss.drop_last(), i, k);
        let j = choose|j: int| 0 <= j < before.len() && before[j] == k;
        assert((before + last)[j] == k);
    } else {
        let j = choose|j: int| 0 <= j < last.len() && last[j] == k;
        assert((before + last)[before.len() + j] == k);
    }
}

/// The result lists every row key of every source, and lists none twice.
pub proof fn every_row_key_is_listed_once<S: RangeSource>(src: S, ss: Seq<SourceView>)
    ensures
        distinct(all_row_keys(src, ss)).no_duplicates(),
        forall|i: int, k: Seq<char>|
            0 <= i < ss.len() && (#[trigger] row_keys_of(src, ss[i]).contains(k)) ==> distinct(
                all_row_keys(src, ss),
            ).contains(k),
{
    distinct_lists_each_text_once(all_row_keys(src, ss));
    assert forall|i: int, k: Seq<char>|
        0 <= i < ss.len() && (#[trigger] row_keys_of(src, ss[i]).contains(k)) implies distinct(
        all_row_keys(src, ss),
    ).contains(k) by {
        lemma_all_row_keys(src, ss, i, k);
    }
}

proof fn lemma_all_col_keys<S: RangeSource>(src: S, ss: Seq<SourceView>, i: int, k: Seq<char>)
    requires
        0 <= i < ss.len(),
        col_keys_of(src, ss[i]).contains(k),
    ensures
        all_col_keys(src, ss).contains(k),
    decreases ss.len(),
{
    let before = all_col_keys(src, ss.drop_last());
    let last = col_keys_of(src, ss.last());
    if i < ss.len() - 1 {
        assert(ss.drop_last()[i] == ss[i]);
        lemma_all_col_keys(src, ss.drop_last(), i, k);
        let j = choose|j: int| 0 <= j < before.len() && before[j] == k;
        assert((before + last)[j] == k);
    } else {
        let j = choose|j: int| 0 <= j < last.len() && last[j] == k;
        assert((before + last)[before.len() + j] == k);
    }
}

/// The result lists every column key of every source, and lists none twice.
pub proof fn every_col_key_is_listed_once<S: RangeSource>(src: S, ss: Seq<SourceView>)
    ensures
        distinct(all_col_keys(src, ss)).no_duplicates(),
        forall|i: int, k: Seq<char>|
            0 <= i < ss.len() && (#[trigger] col_keys_of(src, ss[i]).contains(k)) ==> distinct(
                all_col_keys(src, ss),
            ).contains(k),
{
    distinct_lists_each_text_once(all_col_keys(src, ss));
    assert forall|i: int, k: Seq<char>|
        0 <= i < ss.len() && (#[trigger] col_keys_of(src, ss[i]).contains(k)) implies distinct(
        all_col_keys(src, ss),
    ).contains(k) by {
        lemma_all_col_keys(src, ss, i, k);
    }
}

proof fn lemma_last_at(keys: Seq<Seq<char>>, key: Seq<char>, i: int)
    requires
        0 <= i < keys.len(),
        keys[i] == key,
        forall|j: int| i < j < keys.len() ==> keys[j] != key,
    ensures
        last_at(keys, key) == i,
    decreases keys.len(),
{
    if i < keys.len() - 1 {
        assert(keys[keys.len() - 1] != key);
        lemma_last_at(keys.drop_last(), key, i);
    }
}

proof fn lemma_nowhere(keys: Seq<Seq<char>>, key: Seq<char>)
    requires
        forall|j: int| 0 <= j < keys.len() ==> keys[j] != key,
    ensures
        last_at(keys, key) == -1,
    decreases keys.len(),
{
    if keys.len() > 0 {
        assert(keys[keys.len() - 1] != key);
        lemma_nowhere(keys.drop_last(), key);
    }
}

/// A source contributes the number of the row whose label is the one key, in its first
/// column, and of the column whose label is the other, in its first row; of labels that
/// are there twice the last.
pub proof fn a_source_contributes_what_stands_at_both_keys<S: RangeSource>(
    src: S,
    s: SourceView,
    row: u32,
    col: u32,
)
    requires
        s.first_row < row <= s.last_row,
        s.first_col < col <= s.last_col,
        forall|r: u32|
            row < r <= s.last_row ==> #[trigger] src.label(s.sheet, r, s.first_col)@ != src.label(
                s.sheet,
                row,
                s.first_col,
            )@,
        forall|c: u32|
            col < c <= s.last_col ==> #[trigger] src.label(s.sheet, s.first_row, c)@ != src.label(
                s.sheet,
                s.first_row,
                col,
            )@,
    ensures
        contribution(
            src,
            s,
            src.label(s.sheet, row, s.first_col)@,
            src.label(s.sheet, s.first_row, col)@,
        ) == src.number(s.sheet, row, col),
{
    let rk = src.label(s.sheet, row, s.first_col)@;
    let ck = src.label(s.sheet, s.first_row, col)@;
    let rows = row_keys_of(src, s);
    let cols = col_keys_of(src, s);
    let i = row - s.first_row - 1;
    let j = col - s.first_col - 1;
    assert((s.first_row + 1 + i) as u32 == row);
    assert((s.first_col + 1 + j) as u32 == col);
    assert forall|k: int| i < k < rows.len() implies rows[k] != rk by {
        let r = (s.first_row + 1 + k) as u32;
        assert(src.label(s.sheet, r, s.first_col)@ != rk);
    }
    assert forall|k: int| j < k < cols.len() implies cols[k] != ck by {
        let c = (s.first_col + 1 + k) as u32;
        assert(src.label(s.sheet, s.first_row, c)@ != ck);
    }
    lemma_last_at(rows, rk, i);
    lemma_last_at(cols, ck, j);
}

/// A source none of whose rows has the one key, or none of whose columns has the other,
/// contributes nothing.
pub proof fn a_source_without_a_key_contributes_nothing<S: RangeSource>(
    src: S,
    s: SourceView,
    rk: Seq<char>,
    ck: Seq<char>,
)
    requires
        s.has_data(),
        (forall|r: u32|
            s.first_row < r <= s.last_row ==> #[trigger] src.label(s.sheet, r, s.first_col)@ != rk)
            || (forall|c: u32|
            s.first_col < c <= s.last_col ==> #[trigger] src.label(s.sheet, s.first_row, c)@ != ck),
    ensures
        contribution(src, s, rk, ck) is None,
{
    let rows = row_keys_of(src, s);
    let cols = col_keys_of(src, s);
    if forall|r: u32|
        s.first_row < r <= s.last_row ==> #[trigger] src.label(s.sheet, r, s.first_col)@ != rk {
        assert forall|k: int| 0 <= k < rows.len() implies rows[k] != rk by {
            let r = (s.first_row + 1 + k) as u32;
            assert(src.label(s.sheet, r, s.first_col)@ != rk);
        }
        lemma_nowhere(rows, rk);
    } else {
        assert forall|k: int| 0 <= k < cols.len() implies cols[k] != ck by {
            let c = (s.first_col + 1 + k) as u32;
            assert(src.label(s.sheet, s.first_row, c)@ != ck);
        }
        lemma_nowhere(cols, ck);
    }
}

/// What a cell comes to. Least and greatest are one of the contributed numbers, with none
/// below or above; a count is how many there are; a sum and a mean are those of all of
/// them.
pub proof fn a_cell_combines_every_contribution<S: RangeSource>(
    src: S,
    ss: Seq<SourceView>,
    f: ConsolidateFn,
    rk: Seq<char>,
    ck: Seq<char>,
)
    requires
        contributed(src, ss, rk, ck).len() > 0,
        forall|i: int|
            0 <= i < contributed(src, ss, rk, ck).len() ==> (#[trigger] contributed(
                src,
                ss,
                rk,
                ck,
            )[i]).finite_spec(),
    ensures
        ({
            let v = contributed(src, ss, rk, ck);
            match cell_at(src, ss, f, rk, ck).value {
                Some(CombinedView::Number(x)) => {
                    &&& f is Min || f is Max
                    &&& v.contains(x)
                    &&& f is Min ==> forall|i: int|
                        0 <= i < v.len() ==> !(#[trigger] v[i]).lt_spec(x)
                    &&& f is Max ==> forall|i: int|
                        0 <= i < v.len() ==> !x.lt_spec(#[trigger] v[i])
                },
                Some(CombinedView::Count(n)) => f is Count && n + lacking(src, ss, rk, ck).len()
                    == ss.len(),
                Some(CombinedView::Total(w)) => f is Sum && w == v,
                Some(CombinedView::Mean(w)) => f is Average && w == v,
                None => false,
            }
        }),
{
    let v = contributed(src, ss, rk, ck);
    the_smallest_is_among_them(v);
    the_largest_is_among_them(v);
    every_source_contributes_or_is_named(src, ss, rk, ck);
}

/// The cell of a row key and a column key stands in their row and column.
pub proof fn a_cell_stands_at_its_keys<S: RangeSource>(
    src: S,
    ss: Seq<SourceView>,
    f: ConsolidateFn,
    max: nat,
    i: int,
    j: int,
)
    requires
        outcome(src, ss, f, max) is Ok,
        0 <= i < outcome(src, ss, f, max)->Ok_0.row_keys.len(),
        0 <= j < outcome(src, ss, f, max)->Ok_0.col_keys.len(),
    ensures
        ({
            let t = outcome(src, ss, f, max)->Ok_0;
            &&& t.cells.len() == t.row_keys.len() * t.col_keys.len()
            &&& t.cells[i * t.col_keys.len() + j] == cell_at(
                src,
                ss,
                f,
                t.row_keys[i],
                t.col_keys[j],
            )
        }),
{
    let t = outcome(src, ss, f, max)->Ok_0;
    let n = t.col_keys.len() as int;
    let m = t.row_keys.len() as int;
    assert(0 <= i * n + j < m * n && (i * n + j) / n == i && (i * n + j) % n == j)
        by (nonlinear_arith)
        requires
            0 <= i < m,
            0 <= j < n,
    ;
}

/// A result is refused exactly when there is no source, one has no data, or there are more
/// cells than allowed.
pub proof fn a_consolidation_is_refused_for_three_reasons<S: RangeSource>(
    src: S,
    ss: Seq<SourceView>,
    f: ConsolidateFn,
    max: nat,
)
    ensures
        outcome(src, ss, f, max) is Ok <==> {
            &&& ss.len() > 0
            &&& forall|i: int|
                0 <= i < ss.len() ==> (#[trigger] ss[i]).first_row < ss[i].last_row
                    && ss[i].first_col < ss[i].last_col
            &&& distinct(all_row_keys(src, ss)).len() * distinct(all_col_keys(src, ss)).len() <= max
        },
{
    lemma_first_bad(ss, 0);
}

proof fn lemma_first_bad(ss: Seq<SourceView>, i: int)
    requires
        0 <= i <= ss.len(),
    ensures
        i <= first_without_data(ss, i) <= ss.len(),
        forall|k: int| i <= k < first_without_data(ss, i) ==> (#[trigger] ss[k]).has_data(),
        first_without_data(ss, i) < ss.len() ==> !ss[first_without_data(ss, i)].has_data(),
    decreases ss.len() - i,
{
    if i < ss.len() && ss[i].has_data() {
        lemma_first_bad(ss, i + 1);
    }
}

/// A cell is looked up by its row and its column, and by their keys.
pub proof fn a_cell_is_found_where_it_stands<S: RangeSource>(
    src: S,
    ss: Seq<SourceView>,
    f: ConsolidateFn,
    max: nat,
    i: int,
    j: int,
)
    requires
        outcome(src, ss, f, max) is Ok,
        0 <= i < outcome(src, ss, f, max)->Ok_0.row_keys.len(),
        0 <= j < outcome(src, ss, f, max)->Ok_0.col_keys.len(),
    ensures
        ({
            let t = outcome(src, ss, f, max)->Ok_0;
            t.at(i, j) == Some(cell_at(src, ss, f, t.row_keys[i], t.col_keys[j]))
        }),
        outcome(src, ss, f, max)->Ok_0.at(
            i,
            outcome(src, ss, f, max)->Ok_0.col_keys.len() as int,
        ) is None,
{
    let t = outcome(src, ss, f, max)->Ok_0;
    a_cell_stands_at_its_keys(src, ss, f, max, i, j);
    let n = t.col_keys.len() as int;
    let m = t.row_keys.len() as int;
    assert(0 <= i * n + j < m * n) by (nonlinear_arith)
        requires
            0 <= i < m,
            0 <= j < n,
    ;
}

/// A cell counts as partial when a source is missing from it, and as empty when none
/// contributed; the cells of two parts are counted together.
pub proof fn partial_and_empty_cells_are_counted(a: Seq<CellView>, b: Seq<CellView>, c: CellView)
    ensures
        partial_count(a + b) == partial_count(a) + partial_count(b),
        empty_count(a + b) == empty_count(a) + empty_count(b),
        partial_count(seq![c]) == if c.missing_from.len() == 0 {
            0nat
        } else {
            1nat
        },
        empty_count(seq![c]) == if c.contributors == 0 {
            1nat
        } else {
            0nat
        },
    decreases b.len(),
{
    let one = seq![c];
    assert(one.drop_last() =~= Seq::<CellView>::empty());
    assert(partial_count(one.drop_last()) == 0 && empty_count(one.drop_last()) == 0);
    assert(one.last() == c);
    if b.len() == 0 {
        assert(a + b =~= a);
    } else {
        partial_and_empty_cells_are_counted(a, b.drop_last(), c);
        assert((a + b).drop_last() =~= a + b.drop_last());
        assert((a + b).last() == b.last());
    }
}

} // verus!
