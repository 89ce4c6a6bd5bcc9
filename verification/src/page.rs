//! Page setup and pagination for printing.
//!
//! Pagination is arithmetic over uniform runs and not a walk over rows. The rows
//! that [`RowSizes`] does not mention all have the default height, so a sheet is a
//! short sequence of runs of rows of one height, and within a run the number of
//! rows that fit a page is one division. The cost grows with the runs and the
//! pages, and never with the rows.
//!
//! A row that does not fit in the space left moves whole to the next page. A row
//! taller than a page is the one exception: it gets a page to itself.
//!
//! Lengths are in points. The arithmetic on them comes from the caller, as a
//! [`Lengths`].

use crate::page::bands::{
    band_cols, band_rows, in_a_row, in_band, lemma_bands_ascend, lemma_in_a_row, prints, runs_in,
    runs_of, Lengths, Run,
};
use crate::sizing::{height_at, ordered, ColSizes, ColSizesView, RowSizes, RowSpan};
use crate::text::{chars_of, decimal, push_decimal};
use crate::value::F32;
use vstd::prelude::*;

pub mod bands;
pub mod exact;

verus! {

/// A length in points, 1/72 inch each.
pub type Points = F32;

/// The default row height, 15 points, as the bits of a length.
pub const DEFAULT_ROW_HEIGHT: u32 = 0x4170_0000;

/// The default column width, 48 points, as the bits of a length.
pub const DEFAULT_COL_WIDTH: u32 = 0x4240_0000;

/// Above this many pages callers should confirm before rendering.
pub const LARGE_JOB_PAGES: u64 = 1000;

/// Standard paper sizes.
#[derive(Clone, Copy, PartialEq, Eq, Debug, Structural)]
pub enum PaperSize {
    Letter,
    Legal,
    Tabloid,
    A3,
    A4,
    A5,
}

impl Default for PaperSize {
    fn default() -> (p: PaperSize)
        ensures
            p == PaperSize::Letter,
    {
        PaperSize::Letter
    }
}

impl PaperSize {
    pub open spec fn dimensions_spec(self) -> (Points, Points) {
        match self {
            PaperSize::Letter => (F32(0x4419_0000), F32(0x4446_0000)),
            PaperSize::Legal => (F32(0x4419_0000), F32(0x447c_0000)),
            PaperSize::Tabloid => (F32(0x4446_0000), F32(0x4499_0000)),
            PaperSize::A3 => (F32(0x4452_78f6), F32(0x4494_d19a)),
            PaperSize::A4 => (F32(0x4414_d1ec), F32(0x4452_78f6)),
            PaperSize::A5 => (F32(0x43d1_c3d7), F32(0x4414_d1ec)),
        }
    }

    /// Portrait width and height in points.
    pub fn dimensions(self) -> (d: (Points, Points))
        ensures
            d == self.dimensions_spec(),
    {
        match self {
            // 612 x 792
            PaperSize::Letter => (F32(0x4419_0000), F32(0x4446_0000)),
            // 612 x 1008
            PaperSize::Legal => (F32(0x4419_0000), F32(0x447c_0000)),
            // 792 x 1224
            PaperSize::Tabloid => (F32(0x4446_0000), F32(0x4499_0000)),
            // 841.89 x 1190.55
            PaperSize::A3 => (F32(0x4452_78f6), F32(0x4494_d19a)),
            // 595.28 x 841.89
            PaperSize::A4 => (F32(0x4414_d1ec), F32(0x4452_78f6)),
            // 419.53 x 595.28
            PaperSize::A5 => (F32(0x43d1_c3d7), F32(0x4414_d1ec)),
        }
    }

    pub open spec fn label_spec(self) -> Seq<char> {
        match self {
            PaperSize::Letter => "Letter"@,
            PaperSize::Legal => "Legal"@,
            PaperSize::Tabloid => "Tabloid"@,
            PaperSize::A3 => "A3"@,
            PaperSize::A4 => "A4"@,
            PaperSize::A5 => "A5"@,
        }
    }

    /// Name for the page-setup list.
    pub fn label(self) -> (s: &'static str)
        ensures
            s@ == self.label_spec(),
    {
        match self {
            PaperSize::Letter => "Letter",
            PaperSize::Legal => "Legal",
            PaperSize::Tabloid => "Tabloid",
            PaperSize::A3 => "A3",
            PaperSize::A4 => "A4",
            PaperSize::A5 => "A5",
        }
    }

    /// Every size, in the order of the list.
    pub fn all() -> (v: [PaperSize; 6])
        ensures
            v@ == seq![
                PaperSize::Letter,
                PaperSize::Legal,
                PaperSize::Tabloid,
                PaperSize::A3,
                PaperSize::A4,
                PaperSize::A5,
            ],
    {
        [
            PaperSize::Letter,
            PaperSize::Legal,
            PaperSize::Tabloid,
            PaperSize::A3,
            PaperSize::A4,
            PaperSize::A5,
        ]
    }
}

/// Every paper is defined portrait: it is taller than it is wide.
pub proof fn papers_are_portrait(p: PaperSize)
    ensures
        p.dimensions_spec().0.lt_spec(p.dimensions_spec().1),
        F32(0).lt_spec(p.dimensions_spec().0),
{
}

#[derive(Clone, Copy, PartialEq, Eq, Debug, Structural)]
pub enum Orientation {
    Portrait,
    Landscape,
}

impl Default for Orientation {
    fn default() -> (o: Orientation)
        ensures
            o == Orientation::Portrait,
    {
        Orientation::Portrait
    }
}

/// Page margins in points.
#[derive(Clone, Copy, PartialEq, Eq, Debug, Structural)]
pub struct Margins {
    pub left: Points,
    pub right: Points,
    pub top: Points,
    pub bottom: Points,
    /// Space for the header, inside `top`.
    pub header: Points,
    /// Space for the footer, inside `bottom`.
    pub footer: Points,
}

impl Margins {
    /// 0.7 inch at the sides, 0.75 at top and bottom, 0.3 for header and footer.
    pub open spec fn normal() -> Margins {
        Margins {
            left: F32(0x4249_999a),
            right: F32(0x4249_999a),
            top: F32(0x4258_0000),
            bottom: F32(0x4258_0000),
            header: F32(0x41ac_cccd),
            footer: F32(0x41ac_cccd),
        }
    }

    /// The "narrow" preset: 0.25, 0.5 and 0.2 inch.
    pub fn narrow() -> (m: Margins)
        ensures
            m == (Margins {
                left: F32(0x4190_0000),
                right: F32(0x4190_0000),
                top: F32(0x4210_0000),
                bottom: F32(0x4210_0000),
                header: F32(0x4166_6666),
                footer: F32(0x4166_6666),
            }),
    {
        Margins {
            left: F32(0x4190_0000),
            right: F32(0x4190_0000),
            top: F32(0x4210_0000),
            bottom: F32(0x4210_0000),
            header: F32(0x4166_6666),
            footer: F32(0x4166_6666),
        }
    }

    /// The "wide" preset: 1, 1 and 0.5 inch.
    pub fn wide() -> (m: Margins)
        ensures
            m == (Margins {
                left: F32(0x4290_0000),
                right: F32(0x4290_0000),
                top: F32(0x4290_0000),
                bottom: F32(0x4290_0000),
                header: F32(0x4210_0000),
                footer: F32(0x4210_0000),
            }),
    {
        Margins {
            left: F32(0x4290_0000),
            right: F32(0x4290_0000),
            top: F32(0x4290_0000),
            bottom: F32(0x4290_0000),
            header: F32(0x4210_0000),
            footer: F32(0x4210_0000),
        }
    }
}

impl Default for Margins {
    fn default() -> (m: Margins)
        ensures
            m == Margins::normal(),
    {
        Margins {
            left: F32(0x4249_999a),
            right: F32(0x4249_999a),
            top: F32(0x4258_0000),
            bottom: F32(0x4258_0000),
            header: F32(0x41ac_cccd),
            footer: F32(0x41ac_cccd),
        }
    }
}

/// How content is scaled to the page.
#[derive(Clone, Copy, PartialEq, Eq, Debug, Structural)]
pub enum Scaling {
    /// A fixed percentage. 100 means no scaling.
    Percent(u16),
    /// Shrink until the content fits `wide` pages across and `tall` pages down.
    /// Either may be left unconstrained.
    FitTo { wide: Option<u16>, tall: Option<u16> },
}

impl Default for Scaling {
    fn default() -> (s: Scaling)
        ensures
            s == Scaling::Percent(100),
    {
        Scaling::Percent(100)
    }
}

/// Which direction pages are numbered in when the sheet is wider and taller than
/// one page.
#[derive(Clone, Copy, PartialEq, Eq, Debug, Structural)]
pub enum PageOrder {
    /// All the pages of the first column band, then the next band.
    DownThenOver,
    /// All the pages of the first row band, then the next band.
    OverThenDown,
}

impl Default for PageOrder {
    fn default() -> (o: PageOrder)
        ensures
            o == PageOrder::DownThenOver,
    {
        PageOrder::DownThenOver
    }
}

// ------------------------------------------------------- header and footer --

/// A header or footer in three parts. The texts may hold field codes; see
/// [`substitute_fields`].
#[derive(Clone, PartialEq, Eq, Debug)]
pub struct HeaderFooter {
    pub left: String,
    pub center: String,
    pub right: String,
}

impl Default for HeaderFooter {
    fn default() -> (h: HeaderFooter)
        ensures
            h.left@.len() == 0 && h.center@.len() == 0 && h.right@.len() == 0,
    {
        HeaderFooter { left: String::new(), center: String::new(), right: String::new() }
    }
}

/// The values that field codes stand for.
#[derive(Clone, Debug)]
pub struct FieldContext {
    /// Page number, counted from one.
    pub page: u64,
    /// Total pages in the job.
    pub pages: u64,
    /// Date, formatted for display.
    pub date: String,
    /// Time, formatted for display.
    pub time: String,
    /// Workbook file name.
    pub file: String,
    /// Sheet name.
    pub sheet: String,
}

impl Default for FieldContext {
    fn default() -> (c: FieldContext)
        ensures
            c.page == 0 && c.pages == 0,
            c.date@.len() == 0 && c.time@.len() == 0 && c.file@.len() == 0 && c.sheet@.len() == 0,
    {
        FieldContext {
            page: 0,
            pages: 0,
            date: String::new(),
            time: String::new(),
            file: String::new(),
            sheet: String::new(),
        }
    }
}

/// What the code with the letter `c` stands for.
pub open spec fn field(ctx: FieldContext, c: char) -> Option<Seq<char>> {
    if c == 'P' {
        Some(decimal(ctx.page as nat))
    } else if c == 'N' {
        Some(decimal(ctx.pages as nat))
    } else if c == 'D' {
        Some(ctx.date@)
    } else if c == 'T' {
        Some(ctx.time@)
    } else if c == 'F' {
        Some(ctx.file@)
    } else if c == 'A' {
        Some(ctx.sheet@)
    } else if c == '&' {
        Some(seq!['&'])
    } else {
        None
    }
}

/// `s` from position `i` on with its codes replaced. A code that is not known stays
/// as written.
pub open spec fn substituted(s: Seq<char>, ctx: FieldContext, i: int) -> Seq<char>
    decreases s.len() - i,
{
    if i < 0 || i >= s.len() {
        Seq::empty()
    } else if s[i] == '&' && i + 1 < s.len() && field(ctx, s[i + 1]) is Some {
        field(ctx, s[i + 1])->0 + substituted(s, ctx, i + 2)
    } else {
        seq![s[i]] + substituted(s, ctx, i + 1)
    }
}

/// Replace the `&` codes by their values: `&P` page, `&N` total pages, `&D` date,
/// `&T` time, `&F` file, `&A` sheet, `&&` an ampersand.
pub fn substitute_fields(src: &str, ctx: &FieldContext) -> (r: String)
    ensures
        r@ == substituted(src@, *ctx, 0),
{
    let cs = chars_of(src);
    let n: usize = cs.len();
    let mut out = String::new();
    let mut i: usize = 0;
    assert(out@ + substituted(cs@, *ctx, 0) =~= substituted(cs@, *ctx, 0));
    while i < n
        invariant
            cs@ == src@,
            i <= n == cs@.len(),
            out@ + substituted(cs@, *ctx, i as int) == substituted(cs@, *ctx, 0),
        decreases n - i,
    {
        let c = cs[i];
        let ghost had = out@;
        let ghost rest = substituted(cs@, *ctx, i as int);
        if c == '&' && i + 1 < n {
            let code = cs[i + 1];
            let mut known = true;
            if code == 'P' {
                push_decimal(&mut out, ctx.page);
            } else if code == 'N' {
                push_decimal(&mut out, ctx.pages);
            } else if code == 'D' {
                out.push_str(ctx.date.as_str());
            } else if code == 'T' {
                out.push_str(ctx.time.as_str());
            } else if code == 'F' {
                out.push_str(ctx.file.as_str());
            } else if code == 'A' {
                out.push_str(ctx.sheet.as_str());
            } else if code == '&' {
                out.push('&');
                assert(out@ =~= had + seq!['&']);
            } else {
                out.push('&');
                known = false;
                assert(out@ =~= had + seq!['&']);
            }
            if known {
                proof {
                    let v = field(*ctx, code)->0;
                    assert(out@ == had + v);
                    assert(out@ + substituted(cs@, *ctx, i + 2) =~= had + rest);
                }
                i = i + 2;
            } else {
                assert(out@ + substituted(cs@, *ctx, i + 1) =~= had + rest);
                i = i + 1;
            }
        } else {
            out.push(c);
            assert(out@ + substituted(cs@, *ctx, i + 1) =~= had + rest);
            i = i + 1;
        }
    }
    assert(out@ =~= out@ + substituted(cs@, *ctx, n as int));
    out
}

impl HeaderFooter {
    pub fn is_empty(&self) -> (b: bool)
        ensures
            b == (self.left@.len() == 0 && self.center@.len() == 0 && self.right@.len() == 0),
    {
        chars_of(self.left.as_str()).len() == 0 && chars_of(self.center.as_str()).len() == 0
            && chars_of(self.right.as_str()).len() == 0
    }

    /// The three parts with field codes replaced.
    pub fn render(&self, ctx: &FieldContext) -> (r: [String; 3])
        ensures
            r@[0]@ == substituted(self.left@, *ctx, 0),
            r@[1]@ == substituted(self.center@, *ctx, 0),
            r@[2]@ == substituted(self.right@, *ctx, 0),
    {
        [
            substitute_fields(self.left.as_str(), ctx),
            substitute_fields(self.center.as_str(), ctx),
            substitute_fields(self.right.as_str(), ctx),
        ]
    }
}

/// Text without an ampersand prints as it is written.
pub proof fn plain_text_is_kept(s: Seq<char>, ctx: FieldContext)
    requires
        !s.contains('&'),
    ensures
        substituted(s, ctx, 0) == s,
{
    lemma_plain(s, ctx, 0);
    assert(s.subrange(0, s.len() as int) =~= s);
}

proof fn lemma_plain(s: Seq<char>, ctx: FieldContext, i: int)
    requires
        !s.contains('&'),
        0 <= i <= s.len(),
    ensures
        substituted(s, ctx, i) == s.subrange(i, s.len() as int),
    decreases s.len() - i,
{
    if i < s.len() {
        lemma_plain(s, ctx, i + 1);
        assert(s.contains(s[i]));
        assert(s.subrange(i, s.len() as int) =~= seq![s[i]] + s.subrange(i + 1, s.len() as int));
    } else {
        assert(s.subrange(i, s.len() as int) =~= Seq::empty());
    }
}

/// A code that is not known stays visible, and so does an ampersand at the end.
pub proof fn unknown_codes_are_kept(s: Seq<char>, ctx: FieldContext, i: int)
    requires
        0 <= i < s.len(),
        s[i] == '&',
        i + 1 < s.len() ==> field(ctx, s[i + 1]) is None,
    ensures
        substituted(s, ctx, i) == seq!['&'] + substituted(s, ctx, i + 1),
{
}

// -------------------------------------------------------------- page setup --

/// Everything that decides how a sheet lands on paper.
#[derive(Clone, PartialEq, Debug)]
pub struct PageSetup {
    pub paper: PaperSize,
    pub orientation: Orientation,
    pub margins: Margins,
    pub scaling: Scaling,
    /// Rows repeated at the top of every page, both ends counted.
    pub repeat_rows: Option<(u32, u32)>,
    /// Columns repeated at the left of every page, both ends counted.
    pub repeat_cols: Option<(u32, u32)>,
    pub gridlines: bool,
    /// Print the row and column headings.
    pub headings: bool,
    pub header: HeaderFooter,
    pub footer: HeaderFooter,
    pub order: PageOrder,
    /// Manual page breaks before these rows, ascending.
    pub row_breaks: Vec<u32>,
    /// Manual page breaks before these columns, ascending.
    pub col_breaks: Vec<u32>,
}

impl Default for PageSetup {
    fn default() -> (s: PageSetup)
        ensures
            s.paper == PaperSize::Letter,
            s.orientation == Orientation::Portrait,
            s.margins == Margins::normal(),
            s.scaling == Scaling::Percent(100),
            s.repeat_rows is None && s.repeat_cols is None,
            !s.gridlines && !s.headings,
            s.order == PageOrder::DownThenOver,
            s.row_breaks@.len() == 0 && s.col_breaks@.len() == 0,
    {
        PageSetup {
            paper: PaperSize::default(),
            orientation: Orientation::default(),
            margins: Margins::default(),
            scaling: Scaling::default(),
            repeat_rows: None,
            repeat_cols: None,
            gridlines: false,
            headings: false,
            header: HeaderFooter::default(),
            footer: HeaderFooter::default(),
            order: PageOrder::default(),
            row_breaks: Vec::new(),
            col_breaks: Vec::new(),
        }
    }
}

/// Breaks are kept ascending and free of duplicates.
pub open spec fn ascending(v: Seq<u32>) -> bool {
    forall|i: int, j: int| 0 <= i < j < v.len() ==> v[i] < v[j]
}

/// Where `x` stands in an ascending list, or where it would.
fn search(v: &Vec<u32>, x: u32) -> (r: Result<usize, usize>)
    requires
        ascending(v@),
    ensures
        match r {
            Ok(i) => i < v@.len() && v@[i as int] == x,
            Err(i) => i <= v@.len() && (forall|k: int| 0 <= k < i ==> v@[k] < x) && (forall|k: int|
                i <= k < v@.len() ==> v@[k] > x),
        },
{
    let mut lo: usize = 0;
    let mut hi: usize = v.len();
    while lo < hi
        invariant
            ascending(v@),
            lo <= hi <= v@.len(),
            forall|k: int| 0 <= k < lo ==> v@[k] < x,
            forall|k: int| hi <= k < v@.len() ==> v@[k] > x,
        decreases hi - lo,
    {
        let mid: usize = lo + (hi - lo) / 2;
        if v[mid] == x {
            return Ok(mid);
        }
        if v[mid] < x {
            lo = mid + 1;
        } else {
            hi = mid;
        }
    }
    Err(lo)
}

fn add_break(v: &mut Vec<u32>, x: u32)
    requires
        ascending(old(v)@),
    ensures
        ascending(final(v)@),
        forall|y: u32| #[trigger] final(v)@.contains(y) == (y == x || old(v)@.contains(y)),
{
    match search(v, x) {
        Ok(i) => {
            assert(v@[i as int] == x);
        },
        Err(at) => {
            let ghost was = v@;
            v.insert(at, x);
            proof {
                assert forall|y: u32| #[trigger] v@.contains(y) == (y == x || was.contains(y)) by {
                    if was.contains(y) {
                        let k = choose|k: int| 0 <= k < was.len() && was[k] == y;
                        if k < at {
                            assert(v@[k] == y);
                        } else {
                            assert(v@[k + 1] == y);
                        }
                    }
                    assert(v@[at as int] == x);
                    if v@.contains(y) && y != x {
                        let k = choose|k: int| 0 <= k < v@.len() && v@[k] == y;
                        if k < at {
                            assert(was[k] == y);
                        } else {
                            assert(was[k - 1] == y);
                        }
                    }
                }
            }
        },
    }
}

fn remove_break(v: &mut Vec<u32>, x: u32) -> (found: bool)
    requires
        ascending(old(v)@),
    ensures
        ascending(final(v)@),
        found == old(v)@.contains(x),
        forall|y: u32| #[trigger] final(v)@.contains(y) == (y != x && old(v)@.contains(y)),
{
    match search(v, x) {
        Ok(at) => {
            let ghost was = v@;
            let gone = v.remove(at);
            proof {
                assert(was[at as int] == x);
                assert forall|y: u32| #[trigger] v@.contains(y) == (y != x && was.contains(y)) by {
                    if was.contains(y) && y != x {
                        let k = choose|k: int| 0 <= k < was.len() && was[k] == y;
                        if k < at {
                            assert(v@[k] == y);
                        } else {
                            assert(v@[k - 1] == y);
                        }
                    }
                    if v@.contains(y) {
                        let k = choose|k: int| 0 <= k < v@.len() && v@[k] == y;
                        if k < at {
                            assert(was[k] == y);
                        } else {
                            assert(was[k + 1] == y);
                        }
                    }
                }
            }
            true
        },
        Err(at) => false,
    }
}

/// Two ascending lists with the same entries are the same list.
pub proof fn breaks_are_told_by_their_entries(a: Seq<u32>, b: Seq<u32>)
    requires
        ascending(a),
        ascending(b),
        forall|y: u32| #[trigger] a.contains(y) == b.contains(y),
    ensures
        a == b,
    decreases a.len(),
{
    if a.len() == 0 {
        if b.len() > 0 {
            assert(b.contains(b[0]));
            assert(a.contains(b[0]));
        }
        assert(a =~= b);
    } else {
        assert(a.contains(a.last()));
        assert(b.contains(a.last()));
        let k = choose|k: int| 0 <= k < b.len() && b[k] == a.last();
        assert(b.contains(b.last()));
        assert(a.contains(b.last()));
        let m = choose|m: int| 0 <= m < a.len() && a[m] == b.last();
        assert(a.last() == b.last()) by {
            if k < b.len() - 1 {
                assert(b[k] < b[b.len() - 1]);
            }
            if m < a.len() - 1 {
                assert(a[m] < a[a.len() - 1]);
            }
        }
        let a1 = a.drop_last();
        let b1 = b.drop_last();
        assert forall|y: u32| #[trigger] a1.contains(y) == b1.contains(y) by {
            if a1.contains(y) {
                let i = choose|i: int| 0 <= i < a1.len() && a1[i] == y;
                assert(a[i] < a[a.len() - 1]);
                assert(a.contains(y));
                assert(b.contains(y));
                let j = choose|j: int| 0 <= j < b.len() && b[j] == y;
                assert(b1[j] == y);
            }
            if b1.contains(y) {
                let i = choose|i: int| 0 <= i < b1.len() && b1[i] == y;
                assert(b[i] < b[b.len() - 1]);
                assert(b.contains(y));
                assert(a.contains(y));
                let j = choose|j: int| 0 <= j < a.len() && a[j] == y;
                assert(a1[j] == y);
            }
        }
        breaks_are_told_by_their_entries(a1, b1);
        assert(a =~= a1.push(a.last()));
        assert(b =~= b1.push(b.last()));
    }
}

impl PageSetup {
    pub open spec fn paper_size_spec(self) -> (Points, Points) {
        let d = self.paper.dimensions_spec();
        match self.orientation {
            Orientation::Portrait => d,
            Orientation::Landscape => (d.1, d.0),
        }
    }

    /// The whole sheet of paper, as it is turned.
    pub fn paper_size(&self) -> (d: (Points, Points))
        ensures
            d == self.paper_size_spec(),
    {
        let (w, h) = self.paper.dimensions();
        match self.orientation {
            Orientation::Portrait => (w, h),
            Orientation::Landscape => (h, w),
        }
    }

    /// Add a manual page break before `row`, the list staying ascending and free of
    /// duplicates.
    pub fn add_row_break(&mut self, row: u32)
        requires
            ascending(old(self).row_breaks@),
        ensures
            ascending(final(self).row_breaks@),
            forall|y: u32| #[trigger]
                final(self).row_breaks@.contains(y) == (y == row || old(self).row_breaks@.contains(
                    y,
                )),
            *final(self) == (PageSetup { row_breaks: final(self).row_breaks, ..*old(self) }),
    {
        add_break(&mut self.row_breaks, row);
    }

    /// Add a manual page break before `col`.
    pub fn add_col_break(&mut self, col: u32)
        requires
            ascending(old(self).col_breaks@),
        ensures
            ascending(final(self).col_breaks@),
            forall|y: u32| #[trigger]
                final(self).col_breaks@.contains(y) == (y == col || old(self).col_breaks@.contains(
                    y,
                )),
            *final(self) == (PageSetup { col_breaks: final(self).col_breaks, ..*old(self) }),
    {
        add_break(&mut self.col_breaks, col);
    }

    /// Remove a manual page break; whether there was one.
    pub fn remove_row_break(&mut self, row: u32) -> (found: bool)
        requires
            ascending(old(self).row_breaks@),
        ensures
            ascending(final(self).row_breaks@),
            found == old(self).row_breaks@.contains(row),
            forall|y: u32| #[trigger]
                final(self).row_breaks@.contains(y) == (y != row && old(self).row_breaks@.contains(
                    y,
                )),
            *final(self) == (PageSetup { row_breaks: final(self).row_breaks, ..*old(self) }),
    {
        remove_break(&mut self.row_breaks, row)
    }

    pub fn remove_col_break(&mut self, col: u32) -> (found: bool)
        requires
            ascending(old(self).col_breaks@),
        ensures
            ascending(final(self).col_breaks@),
            found == old(self).col_breaks@.contains(col),
            forall|y: u32| #[trigger]
                final(self).col_breaks@.contains(y) == (y != col && old(self).col_breaks@.contains(
                    y,
                )),
            *final(self) == (PageSetup { col_breaks: final(self).col_breaks, ..*old(self) }),
    {
        remove_break(&mut self.col_breaks, col)
    }
}

// --------------------------------------------------------------- measuring --

/// The larger of a length and a bound; the bound where the length is no number.
pub open spec fn at_least(x: Points, bound: Points) -> Points {
    if x.nan_spec() || x.lt_spec(bound) {
        bound
    } else {
        x
    }
}

fn raise(x: Points, bound: Points) -> (r: Points)
    ensures
        r == at_least(x, bound),
{
    if x.is_nan() || x.less_than(bound) {
        bound
    } else {
        x
    }
}

/// One hundredth, the least scale.
pub const LEAST_SCALE: u32 = 0x3c23_d70a;

/// One: the scale that leaves lengths as they are, and the least room of a page.
pub const ONE: u32 = 0x3f80_0000;

/// One hundred.
pub const HUNDRED: u32 = 0x42c8_0000;

impl<
    P: Fn(F32, F32) -> F32,
    M: Fn(F32, F32) -> F32,
    T: Fn(F32, u64) -> F32,
    D: Fn(F32, F32) -> F32,
    W: Fn(F32, F32) -> u64,
    N: Fn(u64) -> F32,
> Lengths<P, M, T, D, W, N> {
    /// The scale `f`, made smaller where so many pages of `page` each do not hold
    /// `content`.
    pub open spec fn shrunk(
        &self,
        f: Points,
        page: Points,
        pages: Option<u16>,
        content: Points,
        r: Points,
    ) -> bool {
        match pages {
            Some(n) => if n > 0 && F32(0).lt_spec(content) {
                exists|room: F32, q: F32|
                    {
                        &&& #[trigger] self.times.ensures((page, n as u64), room)
                        &&& #[trigger] self.divide.ensures((room, content), q)
                        &&& r == if q.lt_spec(f) {
                            q
                        } else {
                            f
                        }
                    }
            } else {
                r == f
            },
            None => r == f,
        }
    }

    /// `r` is the scale factor for content of an extent on pages of a printable area.
    pub open spec fn scaled(
        &self,
        s: Scaling,
        content: (Points, Points),
        area: (Points, Points),
        r: Points,
    ) -> bool {
        match s {
            Scaling::Percent(p) => exists|x: F32, q: F32|
                {
                    &&& #[trigger] self.number.ensures((p as u64,), x)
                    &&& #[trigger] self.divide.ensures((x, F32(HUNDRED)), q)
                    &&& r == at_least(q, F32(LEAST_SCALE))
                },
            Scaling::FitTo { wide, tall } => exists|f: F32, g: F32|
                {
                    &&& #[trigger] self.shrunk(F32(ONE), area.0, wide, content.0, f)
                    &&& #[trigger] self.shrunk(f, area.1, tall, content.1, g)
                    &&& r == if g.lt_spec(F32(LEAST_SCALE)) {
                        F32(LEAST_SCALE)
                    } else {
                        g
                    }
                },
        }
    }

    fn shrink(&self, f: Points, page: Points, pages: Option<u16>, content: Points) -> (r: Points)
        requires
            self.ready(),
        ensures
            self.shrunk(f, page, pages, content, r),
    {
        match pages {
            Some(n) => if n > 0 && F32(0).less_than(content) {
                let room = (self.times)(page, n as u64);
                let q = (self.divide)(room, content);
                assert(self.times.ensures((page, n as u64), room));
                if q.less_than(f) {
                    q
                } else {
                    f
                }
            } else {
                f
            },
            None => f,
        }
    }

    /// `area` is what is left of a paper inside the margins.
    pub open spec fn within_margins(
        &self,
        paper: (Points, Points),
        m: Margins,
        area: (Points, Points),
    ) -> bool {
        exists|a: F32, b: F32, c: F32, d: F32|
            {
                &&& #[trigger] self.minus.ensures((paper.0, m.left), a)
                &&& #[trigger] self.minus.ensures((a, m.right), b)
                &&& #[trigger] self.minus.ensures((paper.1, m.top), c)
                &&& #[trigger] self.minus.ensures((c, m.bottom), d)
                &&& area == (at_least(b, F32(0)), at_least(d, F32(0)))
            }
    }

    /// `r` is the height of the rows `first..=last` together: that of the runs added
    /// up one after the other.
    pub open spec fn rows_measured(
        &self,
        spans: Seq<RowSpan>,
        first: u32,
        last: u32,
        r: Points,
    ) -> bool {
        if first > last {
            r == F32(0)
        } else {
            exists|runs: Seq<Run>, totals: Seq<F32>, parts: Seq<F32>|
                {
                    &&& #[trigger] runs_of(
                        spans,
                        first as int,
                        last + 1,
                        F32(DEFAULT_ROW_HEIGHT),
                        runs,
                    )
                    &&& #[trigger] self.runs_added(runs, totals, parts)
                    &&& r == totals.last()
                }
        }
    }

    pub open spec fn runs_added(&self, runs: Seq<Run>, totals: Seq<F32>, parts: Seq<F32>) -> bool {
        &&& totals.len() == runs.len() + 1
        &&& parts.len() == runs.len()
        &&& totals[0] == F32(0)
        &&& forall|i: int|
            0 <= i < runs.len() ==> self.times.ensures(
                ((#[trigger] runs[i]).height, (runs[i].last - runs[i].first + 1) as u64),
                parts[i],
            ) && self.plus.ensures((totals[i], parts[i]), totals[i + 1])
    }

    /// `r` is the width of the columns `first..=last` together, hidden ones left out.
    pub open spec fn cols_measured(
        &self,
        sizes: ColSizesView,
        first: u32,
        last: u32,
        r: Points,
    ) -> bool {
        if first > last {
            r == F32(0)
        } else {
            exists|totals: Seq<F32>|
                {
                    &&& totals.len() == last - first + 2
                    &&& #[trigger] self.cols_added(sizes, first, totals)
                    &&& r == totals.last()
                }
        }
    }

    pub open spec fn cols_added(&self, sizes: ColSizesView, first: u32, totals: Seq<F32>) -> bool {
        &&& totals[0] == F32(0)
        &&& forall|i: int|
            0 <= i < totals.len() - 1 ==> {
                let c = (first + i) as u32;
                if sizes.hidden.contains(c) {
                    totals[i + 1] == #[trigger] totals[i]
                } else {
                    self.plus.ensures(
                        (totals[i], sizes.width_at(c, F32(DEFAULT_COL_WIDTH))),
                        totals[i + 1],
                    )
                }
            }
    }
}

impl Scaling {
    /// The scale factor for content of an extent on pages of a printable area.
    /// Fitting never scales up.
    pub fn factor<
        P: Fn(F32, F32) -> F32,
        M: Fn(F32, F32) -> F32,
        T: Fn(F32, u64) -> F32,
        D: Fn(F32, F32) -> F32,
        W: Fn(F32, F32) -> u64,
        N: Fn(u64) -> F32,
    >(
        self,
        content: (Points, Points),
        printable: (Points, Points),
        ops: &Lengths<P, M, T, D, W, N>,
    ) -> (r: Points)
        requires
            ops.ready(),
        ensures
            ops.scaled(self, content, printable, r),
    {
        match self {
            Scaling::Percent(p) => {
                let x = (ops.number)(p as u64);
                let q = (ops.divide)(x, F32(HUNDRED));
                assert(ops.number.ensures((p as u64,), x));
                raise(q, F32(LEAST_SCALE))
            },
            Scaling::FitTo { wide, tall } => {
                let f = ops.shrink(F32(ONE), printable.0, wide, content.0);
                let g = ops.shrink(f, printable.1, tall, content.1);
                assert(ops.shrunk(F32(ONE), printable.0, wide, content.0, f));
                if g.less_than(F32(LEAST_SCALE)) {
                    F32(LEAST_SCALE)
                } else {
                    g
                }
            },
        }
    }
}

impl PageSetup {
    /// The area that content may occupy, inside the margins. Absurd margins leave an
    /// empty area.
    pub fn printable<
        P: Fn(F32, F32) -> F32,
        M: Fn(F32, F32) -> F32,
        T: Fn(F32, u64) -> F32,
        D: Fn(F32, F32) -> F32,
        W: Fn(F32, F32) -> u64,
        N: Fn(u64) -> F32,
    >(&self, ops: &Lengths<P, M, T, D, W, N>) -> (area: (Points, Points))
        requires
            ops.ready(),
        ensures
            ops.within_margins(self.paper_size_spec(), self.margins, area),
    {
        let (pw, ph) = self.paper_size();
        let a = (ops.minus)(pw, self.margins.left);
        let b = (ops.minus)(a, self.margins.right);
        let c = (ops.minus)(ph, self.margins.top);
        let d = (ops.minus)(c, self.margins.bottom);
        proof {
            assert(ops.minus.ensures((pw, self.margins.left), a));
            assert(ops.minus.ensures((a, self.margins.right), b));
            assert(ops.minus.ensures((ph, self.margins.top), c));
            assert(ops.minus.ensures((c, self.margins.bottom), d));
        }
        (raise(b, F32(0)), raise(d, F32(0)))
    }
}

/// Total height of the rows `first..=last`, in unscaled points.
pub fn measure_rows<
    P: Fn(F32, F32) -> F32,
    M: Fn(F32, F32) -> F32,
    T: Fn(F32, u64) -> F32,
    D: Fn(F32, F32) -> F32,
    W: Fn(F32, F32) -> u64,
    N: Fn(u64) -> F32,
>(sizes: &RowSizes, first: u32, last: u32, ops: &Lengths<P, M, T, D, W, N>) -> (r: Points)
    requires
        ops.ready(),
        ordered(sizes@),
    ensures
        ops.rows_measured(sizes@, first, last, r),
{
    if first > last {
        return F32(0);
    }
    let runs = runs_in(sizes, first, last, F32(DEFAULT_ROW_HEIGHT));
    let n: usize = runs.len();
    let mut total = F32(0);
    let ghost mut totals: Seq<F32> = seq![F32(0)];
    let ghost mut parts: Seq<F32> = Seq::empty();
    let mut i: usize = 0;
    while i < n
        invariant
            ops.ready(),
            i <= n == runs@.len(),
            forall|k: int| 0 <= k < runs@.len() ==> (#[trigger] runs@[k]).first <= runs@[k].last,
            totals.len() == i + 1,
            parts.len() == i,
            totals[0] == F32(0),
            totals.last() == total,
            forall|k: int|
                0 <= k < i ==> ops.times.ensures(
                    ((#[trigger] runs@[k]).height, (runs@[k].last - runs@[k].first + 1) as u64),
                    parts[k],
                ) && ops.plus.ensures((totals[k], parts[k]), totals[k + 1]),
        decreases n - i,
    {
        let run = runs[i];
        let part = (ops.times)(run.height, run.len());
        total = (ops.plus)(total, part);
        proof {
            totals = totals.push(total);
            parts = parts.push(part);
        }
        i = i + 1;
    }
    assert(ops.runs_added(runs@, totals, parts));
    total
}

/// Total width of the columns `first..=last`, in unscaled points.
pub fn measure_cols<
    P: Fn(F32, F32) -> F32,
    M: Fn(F32, F32) -> F32,
    T: Fn(F32, u64) -> F32,
    D: Fn(F32, F32) -> F32,
    W: Fn(F32, F32) -> u64,
    N: Fn(u64) -> F32,
>(sizes: &ColSizes, first: u32, last: u32, ops: &Lengths<P, M, T, D, W, N>) -> (r: Points)
    requires
        ops.ready(),
    ensures
        ops.cols_measured(sizes@, first, last, r),
{
    if first > last {
        return F32(0);
    }
    let mut total = F32(0);
    let ghost mut totals: Seq<F32> = seq![F32(0)];
    let mut c: u32 = first;
    let mut more = true;
    while more
        invariant
            ops.ready(),
            first <= last,
            more ==> first <= c <= last && totals.len() == c - first + 1,
            !more ==> totals.len() == last - first + 2,
            totals.last() == total,
            totals.len() > 0,
            ops.cols_added(sizes@, first, totals),
        decreases last - c, (if more { 1int } else { 0 }),
    {
        let ghost before = totals;
        if !sizes.is_hidden(c) {
            let w = match sizes.width_of(c) {
                Some(x) => x,
                None => F32(DEFAULT_COL_WIDTH),
            };
            total = (ops.plus)(total, w);
        }
        proof {
            totals = totals.push(total);
            assert forall|i: int| 0 <= i < totals.len() - 1 implies {
                let c = (first + i) as u32;
                if sizes@.hidden.contains(c) {
                    totals[i + 1] == #[trigger] totals[i]
                } else {
                    ops.plus.ensures(
                        (totals[i], sizes@.width_at(c, F32(DEFAULT_COL_WIDTH))),
                        totals[i + 1],
                    )
                }
            } by {
                if i < before.len() - 1 {
                    assert(before[i] == totals[i]);
                }
            }
        }
        if c == last {
            more = false;
        } else {
            c = c + 1;
        }
    }
    total
}

// --------------------------------------------------------------- paginator --

/// One page's worth of the sheet: a row band crossed with a column band, both ends
/// counted.
#[derive(Clone, Copy, PartialEq, Eq, Debug, Structural)]
pub struct Page {
    /// Page number in the job, counted from one.
    pub number: u64,
    pub first_row: u32,
    pub last_row: u32,
    pub first_col: u32,
    pub last_col: u32,
}

impl Page {
    pub fn rows(&self) -> (n: u64)
        requires
            self.first_row <= self.last_row,
        ensures
            n == self.last_row - self.first_row + 1,
    {
        self.last_row as u64 - self.first_row as u64 + 1
    }

    pub fn cols(&self) -> (n: u64)
        requires
            self.first_col <= self.last_col,
        ensures
            n == self.last_col - self.first_col + 1,
    {
        self.last_col as u64 - self.first_col as u64 + 1
    }
}

/// Splits a sheet into pages without building them.
pub struct Paginator {
    setup: PageSetup,
    row_bands: Vec<(u32, u32)>,
    col_bands: Vec<(u32, u32)>,
}

pub ghost struct PaginatorView {
    pub setup: PageSetup,
    pub rows: Seq<(u32, u32)>,
    pub cols: Seq<(u32, u32)>,
}

impl View for Paginator {
    type V = PaginatorView;

    closed spec fn view(&self) -> PaginatorView {
        PaginatorView { setup: self.setup, rows: self.row_bands@, cols: self.col_bands@ }
    }
}

/// Bands that follow one another without a gap.
pub open spec fn gapless(bands: Seq<(u32, u32)>) -> bool {
    bands.len() > 0 && in_a_row(bands, bands[0].0 as int, bands.last().1 + 1)
}

impl PaginatorView {
    /// There is a page, and the bands have no gaps.
    pub open spec fn sound(self) -> bool {
        &&& gapless(self.rows)
        &&& gapless(self.cols)
        &&& self.rows.len() <= u32::MAX
        &&& self.cols.len() <= u32::MAX + 1
    }

    pub open spec fn count(self) -> nat {
        self.rows.len() * self.cols.len()
    }

    /// The page where row band `r` and column band `c` cross.
    pub open spec fn crossing(self, r: int, c: int) -> Page {
        let index = match self.setup.order {
            PageOrder::DownThenOver => c * self.rows.len() + r,
            PageOrder::OverThenDown => r * self.cols.len() + c,
        };
        Page {
            number: (index + 1) as u64,
            first_row: self.rows[r].0,
            last_row: self.rows[r].1,
            first_col: self.cols[c].0,
            last_col: self.cols[c].1,
        }
    }

    /// The page with index `i`, counted from zero, in the chosen order.
    pub open spec fn page(self, i: int) -> Page {
        match self.setup.order {
            PageOrder::DownThenOver => self.crossing(
                i % (self.rows.len() as int),
                i / (self.rows.len() as int),
            ),
            PageOrder::OverThenDown => self.crossing(
                i / (self.cols.len() as int),
                i % (self.cols.len() as int),
            ),
        }
    }
}

proof fn lemma_few_bands(bands: Seq<(u32, u32)>, from: int, to: int)
    requires
        in_a_row(bands, from, to),
    ensures
        bands.len() <= to - from,
    decreases bands.len(),
{
    if bands.len() > 0 {
        let rest = bands.drop_last();
        let end = bands.last().0 as int;
        assert forall|i: int| 0 <= i < rest.len() - 1 implies (#[trigger] rest[i]).1 + 1 == rest[i
            + 1].0 by {
            assert(bands[i].1 + 1 == bands[i + 1].0);
        }
        if rest.len() > 0 {
            assert(bands[bands.len() - 2].1 + 1 == bands[bands.len() - 1].0);
        }
        assert(in_a_row(rest, from, end));
        lemma_few_bands(rest, from, end);
        assert(bands[bands.len() - 1].0 <= bands[bands.len() - 1].1);
    }
}

/// Where an index falls in a grid, and back.
proof fn lemma_grid(i: int, rows: int, cols: int)
    requires
        rows > 0,
        cols > 0,
        0 <= i < rows * cols,
    ensures
        0 <= i % rows < rows,
        0 <= i / rows < cols,
        (i / rows) * rows + i % rows == i,
{
    assert(0 <= i % rows < rows && (i / rows) * rows + i % rows == i) by (nonlinear_arith)
        requires
            rows > 0,
    ;
    assert(0 <= i / rows < cols) by (nonlinear_arith)
        requires
            rows > 0,
            0 <= i < rows * cols,
    ;
}

/// What the paginator measures before it cuts: the printable area, the lengths of
/// the repeated rows and columns and of the content, the scale, and the capacities.
pub ghost struct Measures {
    pub area: (Points, Points),
    pub repeat_h: Points,
    pub repeat_w: Points,
    pub content_h: Points,
    pub content_w: Points,
    pub scale: Points,
    pub full_h: Points,
    pub full_w: Points,
    pub net_h: Points,
    pub net_w: Points,
}

impl<
    P: Fn(F32, F32) -> F32,
    M: Fn(F32, F32) -> F32,
    T: Fn(F32, u64) -> F32,
    D: Fn(F32, F32) -> F32,
    W: Fn(F32, F32) -> u64,
    N: Fn(u64) -> F32,
> Lengths<P, M, T, D, W, N> {
    pub open spec fn measured(
        &self,
        setup: PageSetup,
        rows: (u32, u32),
        cols: (u32, u32),
        spans: Seq<RowSpan>,
        widths: ColSizesView,
        m: Measures,
    ) -> bool {
        &&& self.within_margins(setup.paper_size_spec(), setup.margins, m.area)
        &&& match setup.repeat_rows {
            Some((a, b)) => self.rows_measured(spans, a, b, m.repeat_h),
            None => m.repeat_h == F32(0),
        }
        &&& match setup.repeat_cols {
            Some((a, b)) => self.cols_measured(widths, a, b, m.repeat_w),
            None => m.repeat_w == F32(0),
        }
        &&& self.rows_measured(spans, rows.0, rows.1, m.content_h)
        &&& self.cols_measured(widths, cols.0, cols.1, m.content_w)
        &&& self.scaled(setup.scaling, (m.content_w, m.content_h), m.area, m.scale)
        &&& self.divide.ensures((m.area.1, m.scale), m.full_h)
        &&& self.divide.ensures((m.area.0, m.scale), m.full_w)
        &&& self.minus.ensures((m.full_h, m.repeat_h), m.net_h)
        &&& self.minus.ensures((m.full_w, m.repeat_w), m.net_w)
    }

    /// The pages of a sheet.
    pub open spec fn paginated(
        &self,
        setup: PageSetup,
        rows: (u32, u32),
        cols: (u32, u32),
        spans: Seq<RowSpan>,
        widths: ColSizesView,
        p: PaginatorView,
    ) -> bool {
        &&& p.setup == setup
        &&& exists|m: Measures|
            {
                &&& #[trigger] self.measured(setup, rows, cols, spans, widths, m)
                &&& self.rows_banded(
                    spans,
                    rows,
                    at_least(m.net_h, F32(ONE)),
                    setup.row_breaks@,
                    p.rows,
                )
                &&& self.cols_banded(
                    widths,
                    cols,
                    at_least(m.net_w, F32(ONE)),
                    setup.col_breaks@,
                    p.cols,
                )
            }
    }
}

impl Paginator {
    /// Compute the bands of a sheet. `rows` and `cols` are the ends of the content,
    /// both counted. The number of rows does not enter the cost but through the
    /// pages.
    pub fn new<
        P: Fn(F32, F32) -> F32,
        M: Fn(F32, F32) -> F32,
        T: Fn(F32, u64) -> F32,
        D: Fn(F32, F32) -> F32,
        W: Fn(F32, F32) -> u64,
        N: Fn(u64) -> F32,
    >(
        setup: PageSetup,
        rows: (u32, u32),
        cols: (u32, u32),
        row_sizes: &RowSizes,
        col_sizes: &ColSizes,
        ops: &Lengths<P, M, T, D, W, N>,
    ) -> (p: Paginator)
        requires
            ops.ready(),
            ordered(row_sizes@),
            rows.1 < u32::MAX,
        ensures
            ops.paginated(setup, rows, cols, row_sizes@, col_sizes@, p@),
            p@.sound(),
            forall|row: int|
                rows.0 <= row <= rows.1 && prints(
                    #[trigger] height_at(row_sizes@, row, F32(DEFAULT_ROW_HEIGHT)),
                ) ==> in_band(p@.rows, row),
            forall|c: int| cols.0 <= c <= cols.1 ==> #[trigger] in_band(p@.cols, c),
    {
        let area = setup.printable(ops);
        let repeat_h = match setup.repeat_rows {
            Some((a, b)) => measure_rows(row_sizes, a, b, ops),
            None => F32(0),
        };
        let repeat_w = match setup.repeat_cols {
            Some((a, b)) => measure_cols(col_sizes, a, b, ops),
            None => F32(0),
        };
        let content_w = measure_cols(col_sizes, cols.0, cols.1, ops);
        let content_h = measure_rows(row_sizes, rows.0, rows.1, ops);
        let scale = setup.scaling.factor((content_w, content_h), area, ops);
        // Dividing the capacity by the scale once is as good as scaling every row,
        // and no rounding adds up over the rows.
        let full_h = (ops.divide)(area.1, scale);
        let full_w = (ops.divide)(area.0, scale);
        let net_h = (ops.minus)(full_h, repeat_h);
        let net_w = (ops.minus)(full_w, repeat_w);
        let row_bands = band_rows(
            row_sizes,
            rows,
            raise(net_h, F32(ONE)),
            &setup.row_breaks,
            ops,
        );
        let col_bands = band_cols(
            col_sizes,
            cols,
            raise(net_w, F32(ONE)),
            &setup.col_breaks,
            ops,
        );
        proof {
            let m = Measures {
                area,
                repeat_h,
                repeat_w,
                content_h,
                content_w,
                scale,
                full_h,
                full_w,
                net_h,
                net_w,
            };
            assert(ops.measured(setup, rows, cols, row_sizes@, col_sizes@, m));
            let (from, to): (int, int) = choose|from: int, to: int| #[trigger]
                in_a_row(row_bands@, from, to) && rows.0 <= from && (rows.0 <= rows.1 ==> to
                    <= rows.1 + 1);
            assert(gapless(row_bands@));
            assert(gapless(col_bands@));
            lemma_few_bands(col_bands@, col_bands@[0].0 as int, col_bands@.last().1 + 1);
            if rows.0 <= rows.1 {
                lemma_few_bands(row_bands@, from, to);
            } else {
                assert(row_bands@ == seq![(rows.0, rows.0)]);
            }
            assert forall|c: int| cols.0 <= c <= cols.1 implies #[trigger] in_band(
                col_bands@,
                c,
            ) by {
                lemma_in_a_row(col_bands@, cols.0 as int, cols.1 + 1, c);
            }
        }
        Paginator { setup, row_bands, col_bands }
    }

    /// Total pages, without building any.
    pub fn page_count(&self) -> (n: u64)
        requires
            self@.sound(),
        ensures
            n == self@.count(),
    {
        let r: u64 = self.row_bands.len() as u64;
        let c: u64 = self.col_bands.len() as u64;
        assert(r * c <= u64::MAX) by (nonlinear_arith)
            requires
                r <= 0xffff_ffff,
                c <= 0x1_0000_0000,
        ;
        r * c
    }

    /// Whether a caller should confirm before rendering this job.
    pub fn is_large(&self) -> (b: bool)
        requires
            self@.sound(),
        ensures
            b == (self@.count() > LARGE_JOB_PAGES),
    {
        self.page_count() > LARGE_JOB_PAGES
    }

    pub fn row_band_count(&self) -> (n: usize)
        ensures
            n == self@.rows.len(),
    {
        self.row_bands.len()
    }

    pub fn col_band_count(&self) -> (n: usize)
        ensures
            n == self@.cols.len(),
    {
        self.col_bands.len()
    }

    pub fn setup(&self) -> (s: &PageSetup)
        ensures
            *s == self@.setup,
    {
        &self.setup
    }

    /// The rows at which a page break falls.
    pub fn row_break_rows(&self) -> (v: Vec<u32>)
        requires
            self@.sound(),
        ensures
            v@ == Seq::new((self@.rows.len() - 1) as nat, |i: int| self@.rows[i + 1].0),
    {
        starts_of(&self.row_bands)
    }

    /// The columns at which a page break falls.
    pub fn col_break_cols(&self) -> (v: Vec<u32>)
        requires
            self@.sound(),
        ensures
            v@ == Seq::new((self@.cols.len() - 1) as nat, |i: int| self@.cols[i + 1].0),
    {
        starts_of(&self.col_bands)
    }

    /// The page with index `i`, counted from zero, in the configured order.
    pub fn page(&self, i: u64) -> (p: Page)
        requires
            self@.sound(),
            i < self@.count(),
        ensures
            p == self@.page(i as int),
            p.number == i + 1,
    {
        let r: u64 = self.row_bands.len() as u64;
        let c: u64 = self.col_bands.len() as u64;
        proof {
            lemma_grid(i as int, r as int, c as int);
            assert(r * c == c * r) by (nonlinear_arith);
            lemma_grid(i as int, c as int, r as int);
            assert(r * c <= u64::MAX) by (nonlinear_arith)
                requires
                    r <= 0xffff_ffff,
                    c <= 0x1_0000_0000,
            ;
        }
        let (ri, ci): (u64, u64) = match self.setup.order {
            PageOrder::DownThenOver => (i % r, i / r),
            PageOrder::OverThenDown => (i / c, i % c),
        };
        let rows = self.row_bands[ri as usize];
        let cols = self.col_bands[ci as usize];
        Page {
            number: i + 1,
            first_row: rows.0,
            last_row: rows.1,
            first_col: cols.0,
            last_col: cols.1,
        }
    }

    /// Every page, one at a time, in the configured order.
    pub fn pages(&self) -> (p: Pages)
        requires
            self@.sound(),
        ensures
            p.of() == self@,
            p.at() == 0,
            p.wf(),
    {
        Pages { paginator: self, next: 0 }
    }

    /// The page that holds a cell, if one does.
    pub fn page_at(&self, row: u32, col: u32) -> (p: Option<Page>)
        requires
            self@.sound(),
        ensures
            match p {
                Some(page) => exists|r: int, c: int|
                    {
                        &&& 0 <= r < self@.rows.len()
                        &&& 0 <= c < self@.cols.len()
                        &&& (#[trigger] self@.rows[r]).0 <= row <= self@.rows[r].1
                        &&& (#[trigger] self@.cols[c]).0 <= col <= self@.cols[c].1
                        &&& page == self@.crossing(r, c)
                    },
                None => !in_band(self@.rows, row as int) || !in_band(self@.cols, col as int),
            },
    {
        let ri: usize = match band_with(&self.row_bands, row) {
            Some(i) => i,
            None => {
                return None;
            },
        };
        let ci: usize = match band_with(&self.col_bands, col) {
            Some(i) => i,
            None => {
                return None;
            },
        };
        let r: u64 = self.row_bands.len() as u64;
        let c: u64 = self.col_bands.len() as u64;
        let a: u64 = ri as u64;
        let b: u64 = ci as u64;
        proof {
            assert(b * r + a < u64::MAX && a * c + b < u64::MAX && b * r >= 0 && a * c >= 0)
                by (nonlinear_arith)
                requires
                    a < r,
                    b < c,
                    r <= 0xffff_ffff,
                    c <= 0x1_0000_0000,
            ;
        }
        let index: u64 = match self.setup.order {
            PageOrder::DownThenOver => b * r + a,
            PageOrder::OverThenDown => a * c + b,
        };
        let rows = self.row_bands[ri];
        let cols = self.col_bands[ci];
        let page = Page {
            number: index + 1,
            first_row: rows.0,
            last_row: rows.1,
            first_col: cols.0,
            last_col: cols.1,
        };
        proof {
            assert(self@.rows[ri as int] == rows && self@.cols[ci as int] == cols);
            assert(page == self@.crossing(ri as int, ci as int));
        }
        Some(page)
    }
}

fn starts_of(bands: &Vec<(u32, u32)>) -> (v: Vec<u32>)
    requires
        bands@.len() > 0,
    ensures
        v@ == Seq::new((bands@.len() - 1) as nat, |i: int| bands@[i + 1].0),
{
    let n: usize = bands.len();
    let mut v: Vec<u32> = Vec::new();
    let mut i: usize = 1;
    while i < n
        invariant
            1 <= i <= n == bands@.len(),
            v@.len() == i - 1,
            forall|k: int| 0 <= k < v@.len() ==> v@[k] == bands@[k + 1].0,
        decreases n - i,
    {
        v.push(bands[i].0);
        i = i + 1;
    }
    assert(v@ =~= Seq::new((bands@.len() - 1) as nat, |i: int| bands@[i + 1].0));
    v
}

fn band_with(bands: &Vec<(u32, u32)>, x: u32) -> (at: Option<usize>)
    ensures
        match at {
            Some(i) => i < bands@.len() && bands@[i as int].0 <= x <= bands@[i as int].1,
            None => !in_band(bands@, x as int),
        },
{
    let n: usize = bands.len();
    let mut i: usize = 0;
    while i < n
        invariant
            i <= n == bands@.len(),
            forall|k: int| 0 <= k < i ==> !((#[trigger] bands@[k]).0 <= x <= bands@[k].1),
        decreases n - i,
    {
        if bands[i].0 <= x && x <= bands[i].1 {
            return Some(i);
        }
        i = i + 1;
    }
    None
}

/// The pages of a job, handed out one at a time: a caller renders one and drops it.
pub struct Pages<'a> {
    paginator: &'a Paginator,
    next: u64,
}

impl<'a> Pages<'a> {
    pub closed spec fn of(self) -> PaginatorView {
        self.paginator@
    }

    /// The index of the page that comes next.
    pub closed spec fn at(self) -> int {
        self.next as int
    }

    pub open spec fn wf(self) -> bool {
        self.of().sound() && 0 <= self.at() <= self.of().count()
    }

    /// The next page.
    pub fn next(&mut self) -> (p: Option<Page>)
        requires
            old(self).wf(),
        ensures
            final(self).wf(),
            final(self).of() == old(self).of(),
            if old(self).at() < old(self).of().count() {
                p == Some(old(self).of().page(old(self).at())) && final(self).at() == old(self).at()
                    + 1
            } else {
                p is None && final(self).at() == old(self).at()
            },
    {
        if self.next < self.paginator.page_count() {
            let page = self.paginator.page(self.next);
            self.next = self.next + 1;
            Some(page)
        } else {
            None
        }
    }
}

// ------------------------------------------------------------------- laws --

/// Fitting content to pages never magnifies it, and never makes it vanish.
pub proof fn fitting_never_magnifies<
    P: Fn(F32, F32) -> F32,
    M: Fn(F32, F32) -> F32,
    T: Fn(F32, u64) -> F32,
    D: Fn(F32, F32) -> F32,
    W: Fn(F32, F32) -> u64,
    N: Fn(u64) -> F32,
>(
    ops: Lengths<P, M, T, D, W, N>,
    wide: Option<u16>,
    tall: Option<u16>,
    content: (Points, Points),
    area: (Points, Points),
    r: Points,
)
    requires
        ops.scaled(Scaling::FitTo { wide, tall }, content, area, r),
    ensures
        !r.nan_spec(),
        F32(LEAST_SCALE).rank() <= r.rank() <= F32(ONE).rank(),
{
}

/// Page numbers run from one to the number of pages without a gap.
pub proof fn pages_are_numbered_in_order(p: PaginatorView, i: int)
    requires
        p.sound(),
        0 <= i < p.count(),
    ensures
        p.page(i).number == i + 1,
{
    let r = p.rows.len() as int;
    let c = p.cols.len() as int;
    lemma_grid(i, r, c);
    assert(r * c == c * r) by (nonlinear_arith);
    lemma_grid(i, c, r);
    assert(r * c <= u64::MAX) by (nonlinear_arith)
        requires
            0 <= r <= 0xffff_ffff,
            0 <= c <= 0x1_0000_0000,
    ;
}

/// A cell is on one page only: whatever bands hold its row and its column, they
/// are the same ones.
pub proof fn a_cell_is_on_one_page(bands: Seq<(u32, u32)>, x: int, i: int, j: int)
    requires
        gapless(bands),
        0 <= i < bands.len(),
        0 <= j < bands.len(),
        bands[i].0 <= x <= bands[i].1,
        bands[j].0 <= x <= bands[j].1,
    ensures
        i == j,
{
    if i < j {
        lemma_bands_ascend(bands, bands[0].0 as int, bands.last().1 + 1, i, j);
    }
    if j < i {
        lemma_bands_ascend(bands, bands[0].0 as int, bands.last().1 + 1, j, i);
    }
}

/// The page that holds a page's own corner is that page: looking a page up agrees
/// with going through the pages.
pub proof fn looking_up_agrees_with_the_order(p: PaginatorView, i: int, r: int, c: int)
    requires
        p.sound(),
        0 <= i < p.count(),
        0 <= r < p.rows.len(),
        0 <= c < p.cols.len(),
        p.rows[r].0 <= p.page(i).first_row <= p.rows[r].1,
        p.cols[c].0 <= p.page(i).first_col <= p.cols[c].1,
    ensures
        p.crossing(r, c) == p.page(i),
{
    let rows = p.rows.len() as int;
    let cols = p.cols.len() as int;
    lemma_grid(i, rows, cols);
    assert(rows * cols == cols * rows) by (nonlinear_arith);
    lemma_grid(i, cols, rows);
    let (ri, ci) = match p.setup.order {
        PageOrder::DownThenOver => (i % rows, i / rows),
        PageOrder::OverThenDown => (i / cols, i % cols),
    };
    assert(p.rows[ri].0 <= p.rows[ri].1);
    assert(p.cols[ci].0 <= p.cols[ci].1);
    a_cell_is_on_one_page(p.rows, p.page(i).first_row as int, r, ri);
    a_cell_is_on_one_page(p.cols, p.page(i).first_col as int, c, ci);
}

/// The two orders number the same pages: the page of one order is a page of the
/// other, with the same rows and columns.
pub proof fn both_orders_cover_the_same_pages(p: PaginatorView, q: PaginatorView, i: int)
    requires
        p.sound(),
        p.rows == q.rows,
        p.cols == q.cols,
        p.setup.order == PageOrder::DownThenOver,
        q.setup.order == PageOrder::OverThenDown,
        0 <= i < p.count(),
    ensures
        ({
            let rows = p.rows.len() as int;
            let cols = p.cols.len() as int;
            let j = (i % rows) * cols + i / rows;
            &&& 0 <= j < q.count()
            &&& q.page(j) == (Page { number: (j + 1) as u64, ..p.page(i) })
        }),
{
    let rows = p.rows.len() as int;
    let cols = p.cols.len() as int;
    lemma_grid(i, rows, cols);
    let r = i % rows;
    let c = i / rows;
    let j = r * cols + c;
    assert(0 <= j < rows * cols && j / cols == r && j % cols == c) by (nonlinear_arith)
        requires
            j == r * cols + c,
            0 <= r < rows,
            0 <= c < cols,
    ;
}

proof fn lemma_from(a: Seq<char>, b: Seq<char>, ctx: FieldContext, i: int)
    requires
        0 <= i <= b.len(),
    ensures
        substituted(a + b, ctx, a.len() + i) == substituted(b, ctx, i),
    decreases b.len() - i,
{
    let s = a + b;
    let n = a.len() as int;
    if i < b.len() {
        assert(s[n + i] == b[i]);
        if i + 1 < b.len() {
            assert(s[n + i + 1] == b[i + 1]);
            if b[i] == '&' && field(ctx, b[i + 1]) is Some {
                lemma_from(a, b, ctx, i + 2);
            } else {
                lemma_from(a, b, ctx, i + 1);
            }
        } else {
            lemma_from(a, b, ctx, i + 1);
        }
    }
}

proof fn lemma_before(a: Seq<char>, b: Seq<char>, ctx: FieldContext, i: int)
    requires
        0 <= i <= a.len(),
        !a.contains('&'),
    ensures
        substituted(a + b, ctx, i) == a.subrange(i, a.len() as int) + substituted(b, ctx, 0),
    decreases a.len() - i,
{
    let s = a + b;
    let end = a.len() as int;
    if i < a.len() {
        assert(s[i] == a[i]);
        assert(a.contains(a[i]));
        lemma_before(a, b, ctx, i + 1);
        assert(a.subrange(i, end) =~= seq![a[i]] + a.subrange(i + 1, end));
        assert(seq![a[i]] + (a.subrange(i + 1, end) + substituted(b, ctx, 0)) =~= (seq![a[i]]
            + a.subrange(i + 1, end)) + substituted(b, ctx, 0));
    } else {
        lemma_from(a, b, ctx, 0);
        assert(a.subrange(end, end) + substituted(b, ctx, 0) =~= substituted(b, ctx, 0));
    }
}

/// Where a code stands behind plain text, the text is kept, what the code names is put
/// in its place, and what follows is dealt with in turn: the page's number, the number
/// of pages, the date, the time, the file, the sheet, or an ampersand.
pub proof fn a_code_is_replaced_by_what_it_names(
    before: Seq<char>,
    after: Seq<char>,
    ctx: FieldContext,
)
    requires
        !before.contains('&'),
    ensures
        substituted(before + seq!['&', 'P'] + after, ctx, 0) == before + decimal(ctx.page as nat)
            + substituted(after, ctx, 0),
        substituted(before + seq!['&', 'N'] + after, ctx, 0) == before + decimal(ctx.pages as nat)
            + substituted(after, ctx, 0),
        substituted(before + seq!['&', 'D'] + after, ctx, 0) == before + ctx.date@ + substituted(
            after,
            ctx,
            0,
        ),
        substituted(before + seq!['&', 'T'] + after, ctx, 0) == before + ctx.time@ + substituted(
            after,
            ctx,
            0,
        ),
        substituted(before + seq!['&', 'F'] + after, ctx, 0) == before + ctx.file@ + substituted(
            after,
            ctx,
            0,
        ),
        substituted(before + seq!['&', 'A'] + after, ctx, 0) == before + ctx.sheet@ + substituted(
            after,
            ctx,
            0,
        ),
        substituted(before + seq!['&', '&'] + after, ctx, 0) == before + seq!['&'] + substituted(
            after,
            ctx,
            0,
        ),
{
    lemma_code(before, 'P', after, ctx, decimal(ctx.page as nat));
    lemma_code(before, 'N', after, ctx, decimal(ctx.pages as nat));
    lemma_code(before, 'D', after, ctx, ctx.date@);
    lemma_code(before, 'T', after, ctx, ctx.time@);
    lemma_code(before, 'F', after, ctx, ctx.file@);
    lemma_code(before, 'A', after, ctx, ctx.sheet@);
    lemma_code(before, '&', after, ctx, seq!['&']);
}

proof fn lemma_code(
    before: Seq<char>,
    c: char,
    after: Seq<char>,
    ctx: FieldContext,
    named: Seq<char>,
)
    requires
        !before.contains('&'),
        field(ctx, c) == Some(named),
    ensures
        substituted(before + seq!['&', c] + after, ctx, 0) == before + named + substituted(
            after,
            ctx,
            0,
        ),
{
    let code = seq!['&', c];
    let b = code + after;
    assert(before + code + after =~= before + b);
    lemma_before(before, b, ctx, 0);
    assert(before.subrange(0, before.len() as int) =~= before);
    assert(b[0] == '&' && b[1] == c);
    lemma_from(code, after, ctx, 0);
    assert(substituted(b, ctx, 0) == named + substituted(after, ctx, 0));
    assert(before + (named + substituted(after, ctx, 0)) =~= before + named + substituted(
        after,
        ctx,
        0,
    ));
}

/// Going down first, a page is followed by the one below it, and the last of a column
/// of pages by the first of the next one; going over first, by the one beside it, and
/// the last of a row of pages by the first of the next one.
pub proof fn pages_follow_in_the_chosen_order(p: PaginatorView, r: int, c: int)
    requires
        p.sound(),
        0 <= r < p.rows.len(),
        0 <= c < p.cols.len(),
    ensures
        p.setup.order is DownThenOver && r + 1 < p.rows.len() ==> p.crossing(r + 1, c).number
            == p.crossing(r, c).number + 1,
        p.setup.order is DownThenOver && r + 1 == p.rows.len() && c + 1 < p.cols.len()
            ==> p.crossing(0, c + 1).number == p.crossing(r, c).number + 1,
        p.setup.order is OverThenDown && c + 1 < p.cols.len() ==> p.crossing(r, c + 1).number
            == p.crossing(r, c).number + 1,
        p.setup.order is OverThenDown && c + 1 == p.cols.len() && r + 1 < p.rows.len()
            ==> p.crossing(r + 1, 0).number == p.crossing(r, c).number + 1,
        p.crossing(0, 0).number == 1,
        p.crossing(r, c).first_row == p.rows[r].0 && p.crossing(r, c).last_row == p.rows[r].1,
        p.crossing(r, c).first_col == p.cols[c].0 && p.crossing(r, c).last_col == p.cols[c].1,
{
    let n = p.rows.len() as int;
    let m = p.cols.len() as int;
    lemma_index(c, r, m, n);
    lemma_index(r, c, n, m);
    assert((c + 1) * n == c * n + n) by (nonlinear_arith);
    assert((r + 1) * m == r * m + m) by (nonlinear_arith);
    assert(0 * n == 0 && 0 * m == 0) by (nonlinear_arith);
    if c + 1 < m {
        lemma_index(c + 1, 0, m, n);
    }
    if r + 1 < n {
        lemma_index(r + 1, 0, n, m);
        lemma_index(c, r + 1, m, n);
    }
    if c + 1 < m {
        lemma_index(r, c + 1, n, m);
    }
}

proof fn lemma_index(a: int, b: int, n: int, m: int)
    requires
        0 <= a < n,
        0 <= b < m,
        n <= 0x1_0000_0000,
        m <= 0x1_0000_0000,
        n < 0x1_0000_0000 || m < 0x1_0000_0000,
    ensures
        0 <= a * m + b,
        a * m + b + 1 <= u64::MAX,
{
    assert(0 <= a * m && a * m + m <= n * m) by (nonlinear_arith)
        requires
            0 <= a < n,
            0 < m,
    ;
    assert(n * m <= u64::MAX) by (nonlinear_arith)
        requires
            0 < n <= 0x1_0000_0000,
            0 < m <= 0x1_0000_0000,
            n < 0x1_0000_0000 || m < 0x1_0000_0000,
    ;
}

/// Each paper of the A series folds into the next, legal paper is as wide as letter
/// paper and longer, and a tabloid is two letters side by side; turning the paper swaps
/// its sides.
pub proof fn papers_fit_together(s: PageSetup, t: PageSetup)
    requires
        s.paper == t.paper,
        s.orientation is Portrait,
        t.orientation is Landscape,
    ensures
        PaperSize::A3.dimensions_spec().0 == PaperSize::A4.dimensions_spec().1,
        PaperSize::A4.dimensions_spec().0 == PaperSize::A5.dimensions_spec().1,
        PaperSize::Legal.dimensions_spec().0 == PaperSize::Letter.dimensions_spec().0,
        PaperSize::Letter.dimensions_spec().1.lt_spec(PaperSize::Legal.dimensions_spec().1),
        PaperSize::Tabloid.dimensions_spec().0 == PaperSize::Letter.dimensions_spec().1,
        // 1224 is twice 612: the same digits and one more in the exponent.
        PaperSize::Tabloid.dimensions_spec().1.0 == PaperSize::Letter.dimensions_spec().0.0
            + 0x80_0000,
        s.paper_size_spec() == s.paper.dimensions_spec(),
        t.paper_size_spec().0 == s.paper_size_spec().1,
        t.paper_size_spec().1 == s.paper_size_spec().0,
{
}

} // verus!
