//! What pagination comes to where the arithmetic on lengths is exact.
//!
//! Lengths that are so many whole units, and not too many, are added, multiplied and
//! compared without rounding. For them a page is what one would cut by hand: row upon
//! row until the next one does not fit.

use crate::page::bands::{
    cut_of, in_run, in_segment, prints, runs_of, Filling, Fit, Lengths, Run, Segment, Spread, Width,
};
use crate::page::{at_least, Margins, Measures, PageSetup, Points, Scaling};
use crate::sizing::{height_at, ColSizesView, RowSpan};
use crate::value::F32;
use vstd::prelude::*;

verus! {

/// A height of 15 points, which a row without one of its own has.
pub open spec fn usual_height() -> Points {
    F32(0x4170_0000)
}

/// A width of 48 points, which a column without one of its own has.
pub open spec fn usual_width() -> Points {
    F32(0x4240_0000)
}

/// A ruler: which lengths are so many whole units, and up to how many of them the
/// arithmetic is exact.
pub ghost struct Ruler {
    pub marks: spec_fn(F32) -> Option<int>,
    pub limit: int,
}

impl Ruler {
    /// The length is `n` units.
    pub open spec fn reads(self, x: F32, n: int) -> bool {
        (self.marks)(x) == Some(n)
    }

    /// Zero is no units, and of two lengths the one of fewer units is the less.
    pub open spec fn straight(self) -> bool {
        &&& self.reads(F32(0), 0)
        &&& forall|x: F32, y: F32, a: int, b: int| #[trigger]
            self.reads(x, a) && #[trigger] self.reads(y, b) ==> (x.lt_spec(y) <==> a < b)
        &&& forall|x: F32, a: int| #[trigger] self.reads(x, a) ==> !x.nan_spec() && (x.rank() == 0
            <==> a == 0)
    }
}

impl<
    P: Fn(F32, F32) -> F32,
    M: Fn(F32, F32) -> F32,
    T: Fn(F32, u64) -> F32,
    D: Fn(F32, F32) -> F32,
    W: Fn(F32, F32) -> u64,
    N: Fn(u64) -> F32,
> Lengths<P, M, T, D, W, N> {
    /// On whole units up to the limit the arithmetic is exact, and a division that is
    /// rounded down is right.
    pub open spec fn exact(&self, ruler: Ruler) -> bool {
        &&& ruler.straight()
        &&& forall|x: F32, y: F32, r: F32, a: int, b: int| #[trigger]
            self.plus.ensures((x, y), r) && #[trigger] ruler.reads(x, a) && #[trigger] ruler.reads(
                y,
                b,
            ) && -ruler.limit <= a + b <= ruler.limit ==> ruler.reads(r, a + b)
        &&& forall|x: F32, y: F32, r: F32, a: int, b: int| #[trigger]
            self.minus.ensures((x, y), r) && #[trigger] ruler.reads(x, a) && #[trigger] ruler.reads(
                y,
                b,
            ) && -ruler.limit <= a - b <= ruler.limit ==> ruler.reads(r, a - b)
        &&& forall|x: F32, n: u64, r: F32, a: int| #[trigger]
            self.times.ensures((x, n), r) && #[trigger] ruler.reads(x, a) && -ruler.limit <= a * n
                <= ruler.limit ==> ruler.reads(r, a * n)
        &&& forall|x: F32, y: F32, n: u64, a: int, b: int| #[trigger]
            self.whole.ensures((x, y), n) && #[trigger] ruler.reads(x, a) && #[trigger] ruler.reads(
                y,
                b,
            ) && 0 <= a <= ruler.limit && 0 < b ==> n * b <= a < (n + 1) * b
    }
}

// ---------------------------------------------------------------- measuring --

/// The units of a row: none where it does not print.
pub open spec fn row_units(ruler: Ruler, spans: Seq<RowSpan>, row: int) -> int {
    let h = height_at(spans, row, usual_height());
    if prints(h) {
        (ruler.marks)(h)->0
    } else {
        0
    }
}

/// The units of the rows from `a` up to, not counting, `b`.
pub open spec fn rows_units(ruler: Ruler, spans: Seq<RowSpan>, a: int, b: int) -> int
    decreases b - a,
{
    if b <= a {
        0
    } else {
        rows_units(ruler, spans, a, b - 1) + row_units(ruler, spans, b - 1)
    }
}

/// Every row from `a` up to, not counting, `b` that prints is whole units high.
pub open spec fn rows_marked(ruler: Ruler, spans: Seq<RowSpan>, a: int, b: int) -> bool {
    forall|row: int|
        a <= row < b && prints(#[trigger] height_at(spans, row, usual_height())) ==> (ruler.marks)(
            height_at(spans, row, usual_height()),
        ) is Some && (ruler.marks)(height_at(spans, row, usual_height()))->0 > 0
}

proof fn lemma_units_split(ruler: Ruler, spans: Seq<RowSpan>, a: int, b: int, c: int)
    requires
        a <= b <= c,
    ensures
        rows_units(ruler, spans, a, c) == rows_units(ruler, spans, a, b) + rows_units(
            ruler,
            spans,
            b,
            c,
        ),
    decreases c - b,
{
    if b < c {
        lemma_units_split(ruler, spans, a, b, c - 1);
    }
}

proof fn lemma_units_grow(ruler: Ruler, spans: Seq<RowSpan>, a: int, b: int)
    requires
        rows_marked(ruler, spans, a, b),
    ensures
        rows_units(ruler, spans, a, b) >= 0,
    decreases b - a,
{
    if a < b {
        assert(rows_marked(ruler, spans, a, b - 1));
        lemma_units_grow(ruler, spans, a, b - 1);
    }
}

/// Rows that all print with one height.
proof fn lemma_units_even(ruler: Ruler, spans: Seq<RowSpan>, a: int, b: int, h: Points, m: int)
    requires
        a <= b,
        prints(h),
        ruler.reads(h, m),
        forall|row: int| a <= row < b ==> #[trigger] height_at(spans, row, usual_height()) == h,
    ensures
        rows_units(ruler, spans, a, b) == m * (b - a),
    decreases b - a,
{
    if a < b {
        lemma_units_even(ruler, spans, a, b - 1, h, m);
        assert(height_at(spans, b - 1, usual_height()) == h);
        assert(m * (b - a) == m * (b - 1 - a) + m) by (nonlinear_arith);
    } else {
        assert(m * (b - a) == 0) by (nonlinear_arith)
            requires
                b == a,
        ;
    }
}

/// Rows none of which prints.
proof fn lemma_units_none(ruler: Ruler, spans: Seq<RowSpan>, a: int, b: int)
    requires
        forall|row: int| a <= row < b ==> !prints(#[trigger] height_at(spans, row, usual_height())),
    ensures
        rows_units(ruler, spans, a, b) == 0,
    decreases b - a,
{
    if a < b {
        lemma_units_none(ruler, spans, a, b - 1);
        assert(!prints(height_at(spans, b - 1, usual_height())));
    }
}

proof fn lemma_runs_units<
    P: Fn(F32, F32) -> F32,
    M: Fn(F32, F32) -> F32,
    T: Fn(F32, u64) -> F32,
    D: Fn(F32, F32) -> F32,
    W: Fn(F32, F32) -> u64,
    N: Fn(u64) -> F32,
>(
    ops: Lengths<P, M, T, D, W, N>,
    ruler: Ruler,
    spans: Seq<RowSpan>,
    first: int,
    end: int,
    runs: Seq<Run>,
    totals: Seq<F32>,
    parts: Seq<F32>,
    k: int,
)
    requires
        ops.exact(ruler),
        runs_of(spans, first, end, usual_height(), runs),
        ops.runs_added(runs, totals, parts),
        0 <= first <= end <= 0x1_0000_0000,
        rows_marked(ruler, spans, first, end),
        rows_units(ruler, spans, first, end) <= ruler.limit,
        0 <= k <= runs.len(),
    ensures
        ({
            let to = if k < runs.len() {
                runs[k].first as int
            } else {
                end
            };
            ruler.reads(totals[k], rows_units(ruler, spans, first, to))
        }),
    decreases k,
{
    let to = if k < runs.len() {
        runs[k].first as int
    } else {
        end
    };
    if k == 0 {
        assert forall|row: int| first <= row < to implies !prints(
            #[trigger] height_at(spans, row, usual_height()),
        ) by {
            if prints(height_at(spans, row, usual_height())) {
                let i = choose|i: int| 0 <= i < runs.len() && (#[trigger] runs[i]).has(row);
                assert(runs[i].has(row));
                if 0 < i {
                    assert(runs[0].last < runs[i].first);
                }
            }
        }
        lemma_units_none(ruler, spans, first, to);
    } else {
        lemma_runs_units(ops, ruler, spans, first, end, runs, totals, parts, k - 1);
        let run = runs[k - 1];
        let from = run.first as int;
        let past = run.last + 1;
        let n = (run.last - run.first + 1) as u64;
        assert forall|row: int| from <= row < past implies #[trigger] height_at(
            spans,
            row,
            usual_height(),
        ) == run.height by {
            assert(runs[k - 1].has(row));
        }
        let m = (ruler.marks)(run.height)->0;
        assert(prints(height_at(spans, from, usual_height())));
        lemma_units_even(ruler, spans, from, past, run.height, m);
        assert forall|row: int| past <= row < to implies !prints(
            #[trigger] height_at(spans, row, usual_height()),
        ) by {
            if prints(height_at(spans, row, usual_height())) {
                let i = choose|i: int| 0 <= i < runs.len() && (#[trigger] runs[i]).has(row);
                assert(runs[i].has(row));
                if i < k - 1 {
                    assert(runs[i].last < runs[k - 1].first);
                } else if i > k - 1 {
                    if i > k {
                        assert(runs[k].last < runs[i].first);
                    }
                    assert(k < runs.len());
                }
            }
        }
        if k < runs.len() {
            assert(runs[k - 1].last < runs[k].first);
            assert(runs[k].first < end);
        }
        lemma_units_none(ruler, spans, past, to);
        lemma_units_split(ruler, spans, first, from, past);
        lemma_units_split(ruler, spans, first, past, to);
        lemma_units_split(ruler, spans, first, past, end);
        lemma_units_split(ruler, spans, first, from, end);
        assert(rows_marked(ruler, spans, past, end));
        assert(rows_marked(ruler, spans, first, from));
        lemma_units_grow(ruler, spans, past, end);
        lemma_units_grow(ruler, spans, first, from);
        let so_far = rows_units(ruler, spans, first, from);
        assert(m * n >= 0) by (nonlinear_arith)
            requires
                m > 0,
        ;
        assert(ruler.reads(run.height, m));
        assert(ops.times.ensures(
            (runs[k - 1].height, (runs[k - 1].last - runs[k - 1].first + 1) as u64),
            parts[k - 1],
        ));
        assert(ruler.reads(parts[k - 1], m * n));
        assert(ruler.reads(totals[k - 1], so_far));
        assert(ops.plus.ensures((totals[k - 1], parts[k - 1]), totals[k - 1 + 1]));
    }
}

/// The measured height of some rows is that of every row that prints, added up: hidden
/// rows take none, and a row that says nothing has the usual height.
pub proof fn rows_measure_what_they_add_up_to<
    P: Fn(F32, F32) -> F32,
    M: Fn(F32, F32) -> F32,
    T: Fn(F32, u64) -> F32,
    D: Fn(F32, F32) -> F32,
    W: Fn(F32, F32) -> u64,
    N: Fn(u64) -> F32,
>(
    ops: Lengths<P, M, T, D, W, N>,
    ruler: Ruler,
    spans: Seq<RowSpan>,
    first: u32,
    last: u32,
    r: Points,
)
    requires
        ops.exact(ruler),
        first <= last,
        rows_marked(ruler, spans, first as int, last + 1),
        rows_units(ruler, spans, first as int, last + 1) <= ruler.limit,
        ops.rows_measured(spans, first, last, r),
    ensures
        ruler.reads(r, rows_units(ruler, spans, first as int, last + 1)),
{
    let (runs, totals, parts) = choose|runs: Seq<Run>, totals: Seq<F32>, parts: Seq<F32>|
        {
            &&& #[trigger] runs_of(spans, first as int, last + 1, usual_height(), runs)
            &&& #[trigger] ops.runs_added(runs, totals, parts)
            &&& r == totals.last()
        };
    lemma_runs_units(
        ops,
        ruler,
        spans,
        first as int,
        last + 1,
        runs,
        totals,
        parts,
        runs.len() as int,
    );
}

// ------------------------------------------------------------------ banding --

/// What a page that is closed is like: its rows fit, or it is one row that is too tall
/// for any page; and what comes next is a row that was asked to begin a page, or one
/// that would not have fitted any more.
pub open spec fn well_cut(
    ruler: Ruler,
    spans: Seq<RowSpan>,
    cap: int,
    breaks: Seq<u32>,
    band: (u32, u32),
) -> bool {
    let units = rows_units(ruler, spans, band.0 as int, band.1 + 1);
    let next = band.1 + 1;
    ||| units > cap && units == row_units(ruler, spans, band.1 as int)
    ||| {
        &&& units <= cap
        &&& prints(height_at(spans, next, usual_height()))
        &&& breaks.contains(next as u32) || units + row_units(ruler, spans, next) > cap
    }
}

/// The rows of a page fit it, or it is one row that is too tall for any page.
pub open spec fn holds_its_rows(
    ruler: Ruler,
    spans: Seq<RowSpan>,
    cap: int,
    band: (u32, u32),
) -> bool {
    let units = rows_units(ruler, spans, band.0 as int, band.1 + 1);
    units <= cap || units == row_units(ruler, spans, band.1 as int)
}

/// What stays true while rows are laid out.
spec fn on_course(
    ruler: Ruler,
    spans: Seq<RowSpan>,
    cap: int,
    breaks: Seq<u32>,
    segs: Seq<Segment>,
    f: Filling,
) -> bool {
    &&& 0 <= f.seg < segs.len()
    &&& segs[f.seg].first <= f.cursor <= segs[f.seg].last + 1
    &&& segs[0].first <= f.start <= f.cursor
    &&& ruler.reads(f.used, rows_units(ruler, spans, f.start, f.cursor))
    &&& rows_units(ruler, spans, f.start, f.cursor) <= cap
    &&& forall|i: int|
        0 <= i < f.bands.len() ==> well_cut(ruler, spans, cap, breaks, #[trigger] f.bands[i])
}

/// Segments are the rows that print.
proof fn lemma_segments(
    spans: Seq<RowSpan>,
    first: int,
    end: int,
    runs: Seq<Run>,
    breaks: Seq<u32>,
    segs: Seq<Segment>,
)
    requires
        runs_of(spans, first, end, usual_height(), runs),
        cut_of(runs, breaks, segs),
    ensures
        forall|k: int, row: int|
            0 <= k < segs.len() && (#[trigger] segs[k]).first <= row <= segs[k].last
                ==> #[trigger] height_at(spans, row, usual_height()) == segs[k].height,
        forall|k: int|
            0 <= k < segs.len() ==> prints((#[trigger] segs[k]).height) && first <= segs[k].first
                && segs[k].last < end,
        forall|row: int|
            first <= row < end && prints(#[trigger] height_at(spans, row, usual_height()))
                ==> in_segment(segs, row),
{
    assert forall|k: int| 0 <= k < segs.len() implies prints((#[trigger] segs[k]).height) && first
        <= segs[k].first && segs[k].last < end && (forall|row: int|
        segs[k].first <= row <= segs[k].last ==> #[trigger] height_at(spans, row, usual_height())
            == segs[k].height) by {
        let s = segs[k];
        let i = choose|i: int|
            0 <= i < runs.len() && (#[trigger] runs[i]).first <= s.first && s.last <= runs[i].last
                && s.height == runs[i].height;
        assert forall|row: int| s.first <= row <= s.last implies #[trigger] height_at(
            spans,
            row,
            usual_height(),
        ) == s.height by {
            assert(runs[i].has(row));
        }
    }
    assert forall|row: int|
        first <= row < end && prints(#[trigger] height_at(spans, row, usual_height())) implies in_segment(
        segs,
        row,
    ) by {
        assert(in_run(runs, row));
        let i = choose|i: int| 0 <= i < runs.len() && (#[trigger] runs[i]).has(row);
        assert(runs[i].has(row));
    }
}

/// Nothing prints between two segments that follow one another.
proof fn lemma_gap(ruler: Ruler, spans: Seq<RowSpan>, segs: Seq<Segment>, end: int, k: int)
    requires
        forall|i: int| 0 <= i < segs.len() ==> (#[trigger] segs[i]).first <= segs[i].last < end,
        forall|i: int, j: int|
            0 <= i < j < segs.len() ==> (#[trigger] segs[i]).last < (#[trigger] segs[j]).first,
        forall|row: int|
            segs[0].first <= row < end && prints(#[trigger] height_at(spans, row, usual_height()))
                ==> in_segment(segs, row),
        0 <= k < segs.len() - 1,
    ensures
        rows_units(ruler, spans, segs[k].last + 1, segs[k + 1].first as int) == 0,
{
    assert(segs[k].last < segs[k + 1].first);
    assert forall|row: int| segs[k].last + 1 <= row < segs[k + 1].first implies !prints(
        #[trigger] height_at(spans, row, usual_height()),
    ) by {
        if 0 < k {
            assert(segs[0].last < segs[k].first);
        }
        if prints(height_at(spans, row, usual_height())) {
            assert(segs[k + 1].first <= segs[k + 1].last < end);
            assert(in_segment(segs, row));
            let j = choose|j: int|
                0 <= j < segs.len() && (#[trigger] segs[j]).first <= row <= segs[j].last;
            if j < k {
                assert(segs[j].last < segs[k].first);
            } else if j > k + 1 {
                assert(segs[k + 1].last < segs[j].first);
            }
        }
    }
    lemma_units_none(ruler, spans, segs[k].last + 1, segs[k + 1].first as int);
}

proof fn lemma_stays_on_course<
    P: Fn(F32, F32) -> F32,
    M: Fn(F32, F32) -> F32,
    T: Fn(F32, u64) -> F32,
    D: Fn(F32, F32) -> F32,
    W: Fn(F32, F32) -> u64,
    N: Fn(u64) -> F32,
>(
    ops: Lengths<P, M, T, D, W, N>,
    ruler: Ruler,
    spans: Seq<RowSpan>,
    cap: Points,
    units: int,
    breaks: Seq<u32>,
    segs: Seq<Segment>,
    end: int,
    a: Filling,
    w: Fit,
    b: Filling,
)
    requires
        ops.exact(ruler),
        ruler.reads(cap, units),
        0 < units <= ruler.limit,
        end <= 0x1_0000_0000,
        segs.len() > 0,
        forall|i: int| 0 <= i < segs.len() ==> (#[trigger] segs[i]).first <= segs[i].last < end,
        forall|i: int, j: int|
            0 <= i < j < segs.len() ==> (#[trigger] segs[i]).last < (#[trigger] segs[j]).first,
        forall|k: int, row: int|
            0 <= k < segs.len() && (#[trigger] segs[k]).first <= row <= segs[k].last
                ==> #[trigger] height_at(spans, row, usual_height()) == segs[k].height,
        forall|k: int| 0 <= k < segs.len() ==> prints((#[trigger] segs[k]).height),
        forall|row: int|
            segs[0].first <= row < end && prints(#[trigger] height_at(spans, row, usual_height()))
                ==> in_segment(segs, row),
        forall|k: int|
            0 <= k < segs.len() && (#[trigger] segs[k]).forced ==> breaks.contains(segs[k].first),
        rows_marked(ruler, spans, segs[0].first as int, end),
        on_course(ruler, spans, units, breaks, segs, a),
        ops.fills(cap, segs, a, w, b),
    ensures
        on_course(ruler, spans, units, breaks, segs, b),
{
    let s = segs[a.seg];
    assert(segs[0].first <= s.first) by {
        if a.seg > 0 {
            assert(segs[0].last < segs[a.seg].first);
        }
    }
    let used = rows_units(ruler, spans, a.start, a.cursor);
    assert(s.last < end);
    if a.cursor <= s.last {
        let h = s.height;
        assert(height_at(spans, a.cursor, usual_height()) == h);
        let m = (ruler.marks)(h)->0;
        assert(ruler.reads(h, m) && m > 0);
        assert(rows_marked(ruler, spans, a.start, a.cursor));
        lemma_units_grow(ruler, spans, a.start, a.cursor);
        assert(ruler.reads(a.used, used));
        assert(ops.minus.ensures((cap, a.used), w.remaining));
        assert(ruler.reads(w.remaining, units - used));
        assert(rows_units(ruler, spans, a.start, a.cursor + 1) == used + m);
        if w.fits == 0 {
            assert(units - used < m) by {
                if !w.remaining.lt_spec(h) {
                    assert(ops.whole.ensures((w.remaining, h), w.fits));
                    assert(units - used < (w.fits + 1) * m);
                }
            }
            if a.used.rank() == 0 {
                assert(used == 0);
                assert(b.bands[b.bands.len() - 1] == (a.start as u32, a.cursor as u32));
                assert(rows_units(ruler, spans, b.start, b.cursor) == 0);
            } else {
                assert(a.start < a.cursor) by {
                    if a.start == a.cursor {
                        assert(used == 0);
                    }
                }
                assert(b.bands[b.bands.len() - 1] == (a.start as u32, (a.cursor - 1) as u32));
                assert(rows_units(ruler, spans, b.start, b.cursor) == 0);
            }
            assert forall|i: int| 0 <= i < b.bands.len() implies well_cut(
                ruler,
                spans,
                units,
                breaks,
                #[trigger] b.bands[i],
            ) by {
                if i < a.bands.len() {
                    assert(b.bands[i] == a.bands[i]);
                }
            }
        } else {
            let left = s.last - a.cursor + 1;
            let take = if w.fits < left {
                w.fits as int
            } else {
                left
            };
            let next = a.cursor + take;
            assert(!w.remaining.lt_spec(h));
            assert(ops.whole.ensures((w.remaining, h), w.fits));
            assert(w.fits * m <= units - used < (w.fits + 1) * m);
            assert(m * take <= w.fits * m && 0 <= m * take) by (nonlinear_arith)
                requires
                    0 <= take <= w.fits,
                    m > 0,
            ;
            assert forall|row: int| a.cursor <= row < next implies #[trigger] height_at(
                spans,
                row,
                usual_height(),
            ) == h by {
                assert(segs[a.seg].first <= row <= segs[a.seg].last);
            }
            lemma_units_even(ruler, spans, a.cursor, next, h, m);
            lemma_units_split(ruler, spans, a.start, a.cursor, next);
            assert(m * (next - a.cursor) == m * take);
            assert(take as u64 == take);
            assert(ruler.reads(w.length, m * take));
            assert(ruler.reads(w.used, used + m * take));
            if take == w.fits && next <= s.last {
                assert(height_at(spans, next, usual_height()) == h);
                assert((w.fits + 1) * m == m * take + m) by (nonlinear_arith)
                    requires
                        take == w.fits,
                ;
                assert(b.bands[b.bands.len() - 1] == (a.start as u32, (next - 1) as u32));
                assert(well_cut(ruler, spans, units, breaks, b.bands[b.bands.len() - 1]));
                assert forall|i: int| 0 <= i < b.bands.len() implies well_cut(
                    ruler,
                    spans,
                    units,
                    breaks,
                    #[trigger] b.bands[i],
                ) by {
                    if i < a.bands.len() {
                        assert(b.bands[i] == a.bands[i]);
                    }
                }
                assert(rows_units(ruler, spans, b.start, b.cursor) == 0);
            }
        }
    } else {
        let t = segs[a.seg + 1];
        lemma_gap(ruler, spans, segs, end, a.seg);
        assert(segs[a.seg].last < segs[a.seg + 1].first);
        assert(t.first <= t.last < end);
        lemma_units_split(ruler, spans, a.start, a.cursor, t.first as int);
        assert(rows_marked(ruler, spans, a.start, a.cursor));
        if t.forced && a.start < t.first {
            assert(b.bands[b.bands.len() - 1] == (a.start as u32, (t.first - 1) as u32));
            assert(height_at(spans, t.first as int, usual_height()) == t.height);
            assert(segs[a.seg + 1].forced);
            assert(breaks.contains(t.first));
            assert forall|i: int| 0 <= i < b.bands.len() implies well_cut(
                ruler,
                spans,
                units,
                breaks,
                #[trigger] b.bands[i],
            ) by {
                if i < a.bands.len() {
                    assert(b.bands[i] == a.bands[i]);
                }
            }
            assert(rows_units(ruler, spans, b.start, b.cursor) == 0);
        }
    }
}

proof fn lemma_on_course<
    P: Fn(F32, F32) -> F32,
    M: Fn(F32, F32) -> F32,
    T: Fn(F32, u64) -> F32,
    D: Fn(F32, F32) -> F32,
    W: Fn(F32, F32) -> u64,
    N: Fn(u64) -> F32,
>(
    ops: Lengths<P, M, T, D, W, N>,
    ruler: Ruler,
    spans: Seq<RowSpan>,
    cap: Points,
    units: int,
    breaks: Seq<u32>,
    segs: Seq<Segment>,
    end: int,
    states: Seq<Filling>,
    ways: Seq<Fit>,
    i: int,
)
    requires
        ops.exact(ruler),
        ruler.reads(cap, units),
        0 < units <= ruler.limit,
        end <= 0x1_0000_0000,
        segs.len() > 0,
        forall|i: int| 0 <= i < segs.len() ==> (#[trigger] segs[i]).first <= segs[i].last < end,
        forall|i: int, j: int|
            0 <= i < j < segs.len() ==> (#[trigger] segs[i]).last < (#[trigger] segs[j]).first,
        forall|k: int, row: int|
            0 <= k < segs.len() && (#[trigger] segs[k]).first <= row <= segs[k].last
                ==> #[trigger] height_at(spans, row, usual_height()) == segs[k].height,
        forall|k: int| 0 <= k < segs.len() ==> prints((#[trigger] segs[k]).height),
        forall|row: int|
            segs[0].first <= row < end && prints(#[trigger] height_at(spans, row, usual_height()))
                ==> in_segment(segs, row),
        forall|k: int|
            0 <= k < segs.len() && (#[trigger] segs[k]).forced ==> breaks.contains(segs[k].first),
        rows_marked(ruler, spans, segs[0].first as int, end),
        ops.laid_out(cap, segs, states, ways),
        0 <= i < states.len(),
    ensures
        on_course(ruler, spans, units, breaks, segs, states[i]),
    decreases i,
{
    if i == 0 {
        assert(rows_units(ruler, spans, states[0].start, states[0].cursor) == 0);
    } else {
        lemma_on_course(
            ops,
            ruler,
            spans,
            cap,
            units,
            breaks,
            segs,
            end,
            states,
            ways,
            i - 1,
        );
        assert(ops.fills(cap, segs, states[i - 1], ways[i - 1], states[i - 1 + 1]));
        lemma_stays_on_course(
            ops,
            ruler,
            spans,
            cap,
            units,
            breaks,
            segs,
            end,
            states[i - 1],
            ways[i - 1],
            states[i],
        );
    }
}

/// Rows are cut into pages as by hand. The rows of every page fit it, but for a row that
/// is taller than a page, which has one to itself. And no page is closed early: what
/// follows it is a row before which a break was asked for, or one that would not have
/// fitted.
pub proof fn rows_are_cut_as_by_hand<
    P: Fn(F32, F32) -> F32,
    M: Fn(F32, F32) -> F32,
    T: Fn(F32, u64) -> F32,
    D: Fn(F32, F32) -> F32,
    W: Fn(F32, F32) -> u64,
    N: Fn(u64) -> F32,
>(
    ops: Lengths<P, M, T, D, W, N>,
    ruler: Ruler,
    spans: Seq<RowSpan>,
    rows: (u32, u32),
    cap: Points,
    units: int,
    breaks: Seq<u32>,
    bands: Seq<(u32, u32)>,
    i: int,
)
    requires
        ops.exact(ruler),
        rows.0 <= rows.1,
        rows_marked(ruler, spans, rows.0 as int, rows.1 + 1),
        ruler.reads(cap, units),
        0 < units <= ruler.limit,
        ops.rows_banded(spans, rows, cap, breaks, bands),
        0 <= i < bands.len(),
    ensures
        holds_its_rows(ruler, spans, units, bands[i]),
        i < bands.len() - 1 ==> well_cut(ruler, spans, units, breaks, bands[i]),
{
    let first = rows.0 as int;
    let end = rows.1 + 1;
    let (runs, segs) = choose|runs: Seq<Run>, segs: Seq<Segment>|
        {
            &&& #[trigger] runs_of(spans, first, end, usual_height(), runs)
            &&& #[trigger] cut_of(runs, breaks, segs)
            &&& if runs.len() == 0 {
                bands == seq![(rows.0, rows.1)]
            } else {
                ops.filled(cap, segs, bands)
            }
        };
    lemma_segments(spans, first, end, runs, breaks, segs);
    if runs.len() == 0 {
        assert forall|row: int| first <= row < end implies !prints(
            #[trigger] height_at(spans, row, usual_height()),
        ) by {
            if prints(height_at(spans, row, usual_height())) {
                assert(in_run(runs, row));
            }
        }
        lemma_units_none(ruler, spans, first, end);
    } else {
        let (states, ways) = choose|states: Seq<Filling>, ways: Seq<Fit>|
            {
                let f = states.last();
                &&& #[trigger] ops.laid_out(cap, segs, states, ways)
                &&& f.seg == segs.len() - 1
                &&& f.cursor > segs.last().last
                &&& bands == if f.start <= segs.last().last {
                    f.bands.push((f.start as u32, segs.last().last))
                } else {
                    f.bands
                }
            };
        assert(runs[0].first >= first);
        assert(rows_marked(ruler, spans, segs[0].first as int, end));
        lemma_on_course(
            ops,
            ruler,
            spans,
            cap,
            units,
            breaks,
            segs,
            end,
            states,
            ways,
            states.len() - 1,
        );
        let f = states.last();
        assert(segs[segs.len() - 1] == segs.last());
        if i < f.bands.len() {
            assert(bands[i] == f.bands[i]);
            assert(well_cut(ruler, spans, units, breaks, f.bands[i]));
        } else {
            assert(f.cursor == segs.last().last + 1);
            assert(bands[i] == (f.start as u32, segs.last().last));
        }
    }
}

// ------------------------------------------------------------------ columns --

/// The units of a column: none where it is hidden.
pub open spec fn col_units(ruler: Ruler, sizes: ColSizesView, col: int) -> int {
    if sizes.hidden.contains(col as u32) {
        0
    } else {
        (ruler.marks)(sizes.width_at(col as u32, usual_width()))->0
    }
}

/// The units of the columns from `a` up to, not counting, `b`.
pub open spec fn cols_units(ruler: Ruler, sizes: ColSizesView, a: int, b: int) -> int
    decreases b - a,
{
    if b <= a {
        0
    } else {
        cols_units(ruler, sizes, a, b - 1) + col_units(ruler, sizes, b - 1)
    }
}

/// Every column from `a` up to, not counting, `b` that is not hidden is whole units wide.
pub open spec fn cols_marked(ruler: Ruler, sizes: ColSizesView, a: int, b: int) -> bool {
    forall|c: u32|
        a <= c < b && !#[trigger] sizes.hidden.contains(c) ==> (ruler.marks)(
            sizes.width_at(c, usual_width()),
        ) is Some && (ruler.marks)(sizes.width_at(c, usual_width()))->0 > 0
}

proof fn lemma_cols_grow(ruler: Ruler, sizes: ColSizesView, a: int, b: int)
    requires
        0 <= a,
        b <= 0x1_0000_0000,
        cols_marked(ruler, sizes, a, b),
    ensures
        cols_units(ruler, sizes, a, b) >= 0,
    decreases b - a,
{
    if a < b {
        assert(cols_marked(ruler, sizes, a, b - 1));
        lemma_cols_grow(ruler, sizes, a, b - 1);
        if !sizes.hidden.contains((b - 1) as u32) {
            assert(col_units(ruler, sizes, b - 1) > 0);
        }
    }
}

proof fn lemma_cols_split(ruler: Ruler, sizes: ColSizesView, a: int, b: int, c: int)
    requires
        a <= b <= c,
    ensures
        cols_units(ruler, sizes, a, c) == cols_units(ruler, sizes, a, b) + cols_units(
            ruler,
            sizes,
            b,
            c,
        ),
    decreases c - b,
{
    if b < c {
        lemma_cols_split(ruler, sizes, a, b, c - 1);
    }
}

proof fn lemma_cols_added<
    P: Fn(F32, F32) -> F32,
    M: Fn(F32, F32) -> F32,
    T: Fn(F32, u64) -> F32,
    D: Fn(F32, F32) -> F32,
    W: Fn(F32, F32) -> u64,
    N: Fn(u64) -> F32,
>(
    ops: Lengths<P, M, T, D, W, N>,
    ruler: Ruler,
    sizes: ColSizesView,
    first: u32,
    totals: Seq<F32>,
    k: int,
)
    requires
        ops.exact(ruler),
        ops.cols_added(sizes, first, totals),
        0 <= k < totals.len(),
        first + totals.len() - 1 <= 0x1_0000_0000,
        cols_marked(ruler, sizes, first as int, first + totals.len() - 1),
        cols_units(ruler, sizes, first as int, first + totals.len() - 1) <= ruler.limit,
    ensures
        ruler.reads(totals[k], cols_units(ruler, sizes, first as int, first + k)),
    decreases k,
{
    if k > 0 {
        lemma_cols_added(ops, ruler, sizes, first, totals, k - 1);
        let c = (first + (k - 1)) as u32;
        let n = first + totals.len() - 1;
        lemma_cols_split(ruler, sizes, first as int, first + k, n);
        assert(cols_marked(ruler, sizes, first + k, n));
        assert(cols_marked(ruler, sizes, first as int, first + k));
        lemma_cols_grow(ruler, sizes, first + k, n);
        lemma_cols_grow(ruler, sizes, first as int, first + k);
        assert(totals[k - 1] == totals[k - 1]);
        if !sizes.hidden.contains(c) {
            let w = sizes.width_at(c, usual_width());
            assert(ops.plus.ensures((totals[k - 1], w), totals[k - 1 + 1]));
            assert(ruler.reads(w, (ruler.marks)(w)->0));
        }
    }
}

/// The measured width of some columns is that of every column that is not hidden, added
/// up, one that says nothing having the usual width.
pub proof fn columns_measure_what_they_add_up_to<
    P: Fn(F32, F32) -> F32,
    M: Fn(F32, F32) -> F32,
    T: Fn(F32, u64) -> F32,
    D: Fn(F32, F32) -> F32,
    W: Fn(F32, F32) -> u64,
    N: Fn(u64) -> F32,
>(
    ops: Lengths<P, M, T, D, W, N>,
    ruler: Ruler,
    sizes: ColSizesView,
    first: u32,
    last: u32,
    r: Points,
)
    requires
        ops.exact(ruler),
        first <= last,
        cols_marked(ruler, sizes, first as int, last + 1),
        cols_units(ruler, sizes, first as int, last + 1) <= ruler.limit,
        ops.cols_measured(sizes, first, last, r),
    ensures
        ruler.reads(r, cols_units(ruler, sizes, first as int, last + 1)),
{
    let totals = choose|totals: Seq<F32>|
        {
            &&& totals.len() == last - first + 2
            &&& #[trigger] ops.cols_added(sizes, first, totals)
            &&& r == totals.last()
        };
    lemma_cols_added(ops, ruler, sizes, first, totals, totals.len() - 1);
}

/// What a page of columns is like that is closed: its columns fit, or it begins with one
/// that alone is too wide; and what comes next is a column that was asked to begin a
/// page, or one that would not have fitted any more.
pub open spec fn cols_well_cut(
    ruler: Ruler,
    sizes: ColSizesView,
    cap: int,
    breaks: Seq<u32>,
    band: (u32, u32),
) -> bool {
    let units = cols_units(ruler, sizes, band.0 as int, band.1 + 1);
    let next = band.1 + 1;
    &&& cols_hold(ruler, sizes, cap, band)
    &&& !sizes.hidden.contains(next as u32)
    &&& breaks.contains(next as u32) || units + col_units(ruler, sizes, next) > cap
}

/// The columns of a page fit it, or it is one column that is too wide for any page.
pub open spec fn cols_hold(ruler: Ruler, sizes: ColSizesView, cap: int, band: (u32, u32)) -> bool {
    let units = cols_units(ruler, sizes, band.0 as int, band.1 + 1);
    units <= cap || exists|c: int|
        band.0 <= c <= band.1 && units == #[trigger] col_units(ruler, sizes, c)
}

spec fn cols_on_course(
    ruler: Ruler,
    sizes: ColSizesView,
    cap: int,
    breaks: Seq<u32>,
    first: u32,
    c: int,
    f: Spread,
) -> bool {
    let units = cols_units(ruler, sizes, f.start as int, c);
    &&& first <= f.start <= c
    &&& ruler.reads(f.used, units)
    &&& units > 0 ==> f.some
    &&& f.some ==> f.start < c
    &&& units <= cap || exists|k: int|
        f.start <= k < c && units == #[trigger] col_units(ruler, sizes, k)
    &&& forall|i: int|
        0 <= i < f.bands.len() ==> cols_well_cut(ruler, sizes, cap, breaks, #[trigger] f.bands[i])
}

proof fn lemma_cols_on_course<
    P: Fn(F32, F32) -> F32,
    M: Fn(F32, F32) -> F32,
    T: Fn(F32, u64) -> F32,
    D: Fn(F32, F32) -> F32,
    W: Fn(F32, F32) -> u64,
    N: Fn(u64) -> F32,
>(
    ops: Lengths<P, M, T, D, W, N>,
    ruler: Ruler,
    sizes: ColSizesView,
    cap: Points,
    units: int,
    breaks: Seq<u32>,
    first: u32,
    states: Seq<Spread>,
    ways: Seq<Width>,
    i: int,
)
    requires
        ops.exact(ruler),
        ruler.reads(cap, units),
        0 < units <= ruler.limit,
        ops.spread_out(sizes, cap, breaks, first, states, ways),
        first + ways.len() <= 0x1_0000_0000,
        cols_marked(ruler, sizes, first as int, first + ways.len()),
        cols_units(ruler, sizes, first as int, first + ways.len()) <= ruler.limit,
        0 <= i < states.len(),
    ensures
        cols_on_course(ruler, sizes, units, breaks, first, first + i, states[i]),
    decreases i,
{
    if i == 0 {
        assert(cols_units(ruler, sizes, first as int, first as int) == 0);
    } else {
        lemma_cols_on_course(
            ops,
            ruler,
            sizes,
            cap,
            units,
            breaks,
            first,
            states,
            ways,
            i - 1,
        );
        let a = states[i - 1];
        let b = states[i];
        let w = ways[i - 1];
        let at = first + (i - 1);
        let c = at as u32;
        let n = first + ways.len();
        assert(ops.places(sizes, cap, breaks, (first + (i - 1)) as u32, a, w, states[i - 1 + 1]));
        let used = cols_units(ruler, sizes, a.start as int, at);
        assert(cols_units(ruler, sizes, a.start as int, at + 1) == used + col_units(
            ruler,
            sizes,
            at,
        ));
        lemma_cols_split(ruler, sizes, first as int, a.start as int, n);
        lemma_cols_split(ruler, sizes, a.start as int, at + 1, n);
        assert(cols_marked(ruler, sizes, first as int, a.start as int));
        assert(cols_marked(ruler, sizes, at + 1, n));
        assert(cols_marked(ruler, sizes, a.start as int, at));
        lemma_cols_grow(ruler, sizes, first as int, a.start as int);
        lemma_cols_grow(ruler, sizes, at + 1, n);
        lemma_cols_grow(ruler, sizes, a.start as int, at);
        if sizes.hidden.contains(c) {
            if used > units {
                let k = choose|k: int|
                    a.start <= k < at && used == #[trigger] col_units(ruler, sizes, k);
                assert(a.start <= k < at + 1);
            }
        } else {
            let width = sizes.width_at(c, usual_width());
            let m = (ruler.marks)(width)->0;
            assert(ruler.reads(width, m) && m > 0);
            assert(col_units(ruler, sizes, at) == m);
            assert(ops.plus.ensures((a.used, width), w.sum));
            assert(ruler.reads(w.sum, used + m));
            assert(ops.plus.ensures((F32(0), width), w.alone));
            assert(ruler.reads(w.alone, 0 + m));
            if (breaks.contains(c) && c > a.start) || (a.some && cap.lt_spec(w.sum)) {
                let band = (a.start, (c - 1) as u32);
                assert(a.start < c);
                assert(band.1 + 1 == at);
                assert(cols_hold(ruler, sizes, units, band)) by {
                    if used > units {
                        let k = choose|k: int|
                            a.start <= k < at && used == #[trigger] col_units(ruler, sizes, k);
                        assert(band.0 <= k <= band.1);
                    }
                }
                assert(cols_well_cut(ruler, sizes, units, breaks, band));
                assert forall|j: int| 0 <= j < b.bands.len() implies cols_well_cut(
                    ruler,
                    sizes,
                    units,
                    breaks,
                    #[trigger] b.bands[j],
                ) by {
                    if j < a.bands.len() {
                        assert(b.bands[j] == a.bands[j]);
                    } else {
                        assert(b.bands[j] == band);
                    }
                }
                assert(cols_units(ruler, sizes, at, at) == 0);
                assert(cols_units(ruler, sizes, at, at + 1) == col_units(ruler, sizes, at));
            } else {
                if used + m > units {
                    assert(!a.some);
                    assert(used == 0);
                    assert(used + m == col_units(ruler, sizes, at));
                }
            }
        }
    }
}

/// Columns are cut into pages as by hand: those of every page fit it, but for one that is
/// wider than a page, and no page is closed early.
pub proof fn columns_are_cut_as_by_hand<
    P: Fn(F32, F32) -> F32,
    M: Fn(F32, F32) -> F32,
    T: Fn(F32, u64) -> F32,
    D: Fn(F32, F32) -> F32,
    W: Fn(F32, F32) -> u64,
    N: Fn(u64) -> F32,
>(
    ops: Lengths<P, M, T, D, W, N>,
    ruler: Ruler,
    sizes: ColSizesView,
    cols: (u32, u32),
    cap: Points,
    units: int,
    breaks: Seq<u32>,
    bands: Seq<(u32, u32)>,
    i: int,
)
    requires
        ops.exact(ruler),
        cols.0 <= cols.1,
        cols_marked(ruler, sizes, cols.0 as int, cols.1 + 1),
        cols_units(ruler, sizes, cols.0 as int, cols.1 + 1) <= ruler.limit,
        ruler.reads(cap, units),
        0 < units <= ruler.limit,
        ops.cols_banded(sizes, cols, cap, breaks, bands),
        0 <= i < bands.len(),
    ensures
        cols_hold(ruler, sizes, units, bands[i]),
        i < bands.len() - 1 ==> cols_well_cut(ruler, sizes, units, breaks, bands[i]),
{
    let (states, ways) = choose|states: Seq<Spread>, ways: Seq<Width>|
        {
            &&& #[trigger] ops.spread_out(sizes, cap, breaks, cols.0, states, ways)
            &&& ways.len() == cols.1 - cols.0 + 1
            &&& bands == states.last().bands.push((states.last().start, cols.1))
        };
    lemma_cols_on_course(
        ops,
        ruler,
        sizes,
        cap,
        units,
        breaks,
        cols.0,
        states,
        ways,
        states.len() - 1,
    );
    let f = states.last();
    if i < f.bands.len() {
        assert(bands[i] == f.bands[i]);
        assert(cols_well_cut(ruler, sizes, units, breaks, f.bands[i]));
    } else {
        let total = cols_units(ruler, sizes, f.start as int, cols.1 + 1);
        if total > units {
            let k = choose|k: int|
                f.start <= k < cols.1 + 1 && total == #[trigger] col_units(ruler, sizes, k);
            assert(f.start <= k <= cols.1);
        }
    }
}

// ------------------------------------------------------------------ scaling --

/// A scale of one.
pub open spec fn one() -> Points {
    F32(0x3f80_0000)
}

/// One hundredth, below which no scale goes.
pub open spec fn least() -> Points {
    F32(0x3c23_d70a)
}

/// So many pages of a length are computed without rounding, and so is what they are in
/// proportion to the content.
pub open spec fn fair_fit<
    P: Fn(F32, F32) -> F32,
    M: Fn(F32, F32) -> F32,
    T: Fn(F32, u64) -> F32,
    D: Fn(F32, F32) -> F32,
    W: Fn(F32, F32) -> u64,
    N: Fn(u64) -> F32,
>(
    ops: Lengths<P, M, T, D, W, N>,
    val: spec_fn(F32) -> int,
    page: Points,
    pages: u16,
    content: Points,
) -> bool {
    forall|room: F32, q: F32| #[trigger]
        ops.times.ensures((page, pages as u64), room) && #[trigger] ops.divide.ensures(
            (room, content),
            q,
        ) ==> !q.nan_spec() && val(q) * val(content) == val(page) * pages * val(one())
}

/// Content of that size fits so many pages at that scale.
pub open spec fn fits_at(
    val: spec_fn(F32) -> int,
    page: Points,
    pages: Option<u16>,
    content: Points,
    scale: Points,
) -> bool {
    pages matches Some(n) ==> n > 0 ==> val(scale) * val(content) <= val(page) * n * val(one())
}

/// Content of that size just fits so many pages at that scale.
pub open spec fn just_fits_at(
    val: spec_fn(F32) -> int,
    page: Points,
    pages: Option<u16>,
    content: Points,
    scale: Points,
) -> bool {
    pages matches Some(n) && n > 0 && val(scale) * val(content) == val(page) * n * val(one())
}

/// Fitting takes the largest scale up to one at which the content fits the pages that
/// were asked for, so many across and so many down: at that scale it fits both ways, and
/// the scale is one or fills one of the two ways exactly. No scale is below a hundredth.
pub proof fn fitting_uses_the_pages_that_were_asked_for<
    P: Fn(F32, F32) -> F32,
    M: Fn(F32, F32) -> F32,
    T: Fn(F32, u64) -> F32,
    D: Fn(F32, F32) -> F32,
    W: Fn(F32, F32) -> u64,
    N: Fn(u64) -> F32,
>(
    ops: Lengths<P, M, T, D, W, N>,
    val: spec_fn(F32) -> int,
    wide: Option<u16>,
    tall: Option<u16>,
    content: (Points, Points),
    area: (Points, Points),
    r: Points,
)
    requires
        forall|x: F32, y: F32|
            !x.nan_spec() && !y.nan_spec() ==> (#[trigger] x.lt_spec(y) <==> val(x) < val(y)),
        F32(0).lt_spec(content.0),
        F32(0).lt_spec(content.1),
        val(F32(0)) == 0,
        wide matches Some(n) ==> fair_fit(ops, val, area.0, n, content.0),
        tall matches Some(n) ==> fair_fit(ops, val, area.1, n, content.1),
        ops.scaled(Scaling::FitTo { wide, tall }, content, area, r),
    ensures
        val(least()) <= val(r) <= val(one()),
        val(r) > val(least()) ==> fits_at(val, area.0, wide, content.0, r) && fits_at(
            val,
            area.1,
            tall,
            content.1,
            r,
        ),
        val(r) == val(one()) || val(r) == val(least()) || just_fits_at(
            val,
            area.0,
            wide,
            content.0,
            r,
        ) || just_fits_at(val, area.1, tall, content.1, r),
        val(r) == val(least()) ==> {
            ||| exists|q: int| #[trigger] limits(val, area.0, wide, content.0, q) && q <= val(r)
            ||| exists|q: int| #[trigger] limits(val, area.1, tall, content.1, q) && q <= val(r)
        },
{
    let (f, g) = choose|f: F32, g: F32|
        {
            &&& #[trigger] ops.shrunk(one(), area.0, wide, content.0, f)
            &&& #[trigger] ops.shrunk(f, area.1, tall, content.1, g)
            &&& r == if g.lt_spec(least()) {
                least()
            } else {
                g
            }
        };
    lemma_shrunk(ops, val, one(), area.0, wide, content.0, f);
    lemma_shrunk(ops, val, f, area.1, tall, content.1, g);
    let (c0, c1) = (val(content.0), val(content.1));
    assert(c0 > 0 && c1 > 0);
    assert(least().lt_spec(one()));
    assert(val(g) * c0 <= val(f) * c0) by (nonlinear_arith)
        requires
            val(g) <= val(f),
            c0 > 0,
    ;
    if val(r) == val(least()) {
        if val(g) != val(f) {
            assert(limits(val, area.1, tall, content.1, val(g)));
        } else {
            assert(val(f) != val(one()));
            assert(limits(val, area.0, wide, content.0, val(f)));
        }
    }
}

/// At the scale `q` the content just fits so many pages.
pub open spec fn limits(
    val: spec_fn(F32) -> int,
    page: Points,
    pages: Option<u16>,
    content: Points,
    q: int,
) -> bool {
    pages matches Some(n) && n > 0 && q * val(content) == val(page) * n * val(one())
}

proof fn lemma_shrunk<
    P: Fn(F32, F32) -> F32,
    M: Fn(F32, F32) -> F32,
    T: Fn(F32, u64) -> F32,
    D: Fn(F32, F32) -> F32,
    W: Fn(F32, F32) -> u64,
    N: Fn(u64) -> F32,
>(
    ops: Lengths<P, M, T, D, W, N>,
    val: spec_fn(F32) -> int,
    f: Points,
    page: Points,
    pages: Option<u16>,
    content: Points,
    r: Points,
)
    requires
        forall|x: F32, y: F32|
            !x.nan_spec() && !y.nan_spec() ==> (#[trigger] x.lt_spec(y) <==> val(x) < val(y)),
        val(F32(0)) == 0,
        F32(0).lt_spec(content),
        !f.nan_spec(),
        pages matches Some(n) ==> fair_fit(ops, val, page, n, content),
        ops.shrunk(f, page, pages, content, r),
    ensures
        !r.nan_spec(),
        val(r) <= val(f),
        fits_at(val, page, pages, content, r),
        r == f || just_fits_at(val, page, pages, content, r),
{
    if let Some(n) = pages {
        if n > 0 {
            let (room, q) = choose|room: F32, q: F32|
                {
                    &&& #[trigger] ops.times.ensures((page, n as u64), room)
                    &&& #[trigger] ops.divide.ensures((room, content), q)
                    &&& r == if q.lt_spec(f) {
                        q
                    } else {
                        f
                    }
                };
            assert(val(q) * val(content) == val(page) * n * val(one()));
            let c = val(content);
            assert(F32(0).lt_spec(content));
            assert(val(f) * c <= val(q) * c || val(q) < val(f)) by (nonlinear_arith)
                requires
                    c > 0,
            ;
        }
    }
}

/// A percentage scales by that many hundredths, and by one hundredth at the least.
pub proof fn a_percentage_is_so_many_hundredths<
    P: Fn(F32, F32) -> F32,
    M: Fn(F32, F32) -> F32,
    T: Fn(F32, u64) -> F32,
    D: Fn(F32, F32) -> F32,
    W: Fn(F32, F32) -> u64,
    N: Fn(u64) -> F32,
>(
    ops: Lengths<P, M, T, D, W, N>,
    val: spec_fn(F32) -> int,
    p: u16,
    content: (Points, Points),
    area: (Points, Points),
    r: Points,
)
    requires
        forall|x: F32, y: F32|
            !x.nan_spec() && !y.nan_spec() ==> (#[trigger] x.lt_spec(y) <==> val(x) < val(y)),
        // The bits of one hundred.
        forall|x: F32, q: F32| #[trigger]
            ops.number.ensures((p as u64,), x) && #[trigger] ops.divide.ensures(
                (x, F32(0x42c8_0000)),
                q,
            ) ==> !q.nan_spec() && val(q) * 100 == p * val(one()),
        ops.scaled(Scaling::Percent(p), content, area, r),
    ensures
        val(r) >= val(least()),
        val(r) == val(least()) || val(r) * 100 == p * val(one()),
        p * val(one()) >= 100 * val(least()) ==> val(r) * 100 == p * val(one()),
{
    let (x, q) = choose|x: F32, q: F32|
        {
            &&& #[trigger] ops.number.ensures((p as u64,), x)
            &&& #[trigger] ops.divide.ensures((x, F32(0x42c8_0000)), q)
            &&& r == at_least(q, least())
        };
    assert(val(q) * 100 == p * val(one()));
    assert(q.lt_spec(least()) <==> val(q) < val(least()));
}

/// The printable area is the paper less both margins each way, and never less than
/// nothing.
pub proof fn margins_are_taken_off_both_sides<
    P: Fn(F32, F32) -> F32,
    M: Fn(F32, F32) -> F32,
    T: Fn(F32, u64) -> F32,
    D: Fn(F32, F32) -> F32,
    W: Fn(F32, F32) -> u64,
    N: Fn(u64) -> F32,
>(
    ops: Lengths<P, M, T, D, W, N>,
    ruler: Ruler,
    paper: (Points, Points),
    m: Margins,
    area: (Points, Points),
    size: (int, int),
    left: int,
    right: int,
    top: int,
    bottom: int,
)
    requires
        ops.exact(ruler),
        ruler.reads(paper.0, size.0) && ruler.reads(paper.1, size.1),
        ruler.reads(m.left, left) && ruler.reads(m.right, right),
        ruler.reads(m.top, top) && ruler.reads(m.bottom, bottom),
        0 <= left && 0 <= right && 0 <= top && 0 <= bottom,
        0 <= size.0 <= ruler.limit && 0 <= size.1 <= ruler.limit,
        left + right <= ruler.limit && top + bottom <= ruler.limit,
        ops.within_margins(paper, m, area),
    ensures
        ruler.reads(
            area.0,
            if size.0 > left + right {
                size.0 - left - right
            } else {
                0
            },
        ),
        ruler.reads(
            area.1,
            if size.1 > top + bottom {
                size.1 - top - bottom
            } else {
                0
            },
        ),
{
    let (a, b, c, d) = choose|a: F32, b: F32, c: F32, d: F32|
        {
            &&& #[trigger] ops.minus.ensures((paper.0, m.left), a)
            &&& #[trigger] ops.minus.ensures((a, m.right), b)
            &&& #[trigger] ops.minus.ensures((paper.1, m.top), c)
            &&& #[trigger] ops.minus.ensures((c, m.bottom), d)
            &&& area == (at_least(b, F32(0)), at_least(d, F32(0)))
        };
    assert(ruler.reads(a, size.0 - left));
    assert(ruler.reads(b, size.0 - left - right));
    assert(ruler.reads(c, size.1 - top));
    assert(ruler.reads(d, size.1 - top - bottom));
}

/// Rows and columns that repeat on every page take their room off each page: what is
/// left is the page less what they add up to.
pub proof fn what_repeats_takes_room_on_every_page<
    P: Fn(F32, F32) -> F32,
    M: Fn(F32, F32) -> F32,
    T: Fn(F32, u64) -> F32,
    D: Fn(F32, F32) -> F32,
    W: Fn(F32, F32) -> u64,
    N: Fn(u64) -> F32,
>(
    ops: Lengths<P, M, T, D, W, N>,
    ruler: Ruler,
    setup: PageSetup,
    rows: (u32, u32),
    cols: (u32, u32),
    spans: Seq<RowSpan>,
    widths: ColSizesView,
    m: Measures,
    tall: int,
    wide: int,
)
    requires
        ops.exact(ruler),
        ops.measured(setup, rows, cols, spans, widths, m),
        ruler.reads(m.full_h, tall) && ruler.reads(m.full_w, wide),
        0 <= tall <= ruler.limit && 0 <= wide <= ruler.limit,
        match setup.repeat_rows {
            Some((a, b)) => a <= b && rows_marked(ruler, spans, a as int, b + 1) && rows_units(
                ruler,
                spans,
                a as int,
                b + 1,
            ) <= ruler.limit,
            None => true,
        },
        match setup.repeat_cols {
            Some((a, b)) => a <= b && cols_marked(ruler, widths, a as int, b + 1) && 0
                <= cols_units(ruler, widths, a as int, b + 1) <= ruler.limit,
            None => true,
        },
    ensures
        ruler.reads(
            m.net_h,
            match setup.repeat_rows {
                Some((a, b)) => tall - rows_units(ruler, spans, a as int, b + 1),
                None => tall,
            },
        ),
        ruler.reads(
            m.net_w,
            match setup.repeat_cols {
                Some((a, b)) => wide - cols_units(ruler, widths, a as int, b + 1),
                None => wide,
            },
        ),
{
    match setup.repeat_rows {
        Some((a, b)) => {
            rows_measure_what_they_add_up_to(ops, ruler, spans, a, b, m.repeat_h);
            lemma_units_grow(ruler, spans, a as int, b + 1);
        },
        None => {
            assert(ruler.reads(m.repeat_h, 0));
        },
    }
    match setup.repeat_cols {
        Some((a, b)) => {
            columns_measure_what_they_add_up_to(ops, ruler, widths, a, b, m.repeat_w);
        },
        None => {
            assert(ruler.reads(m.repeat_w, 0));
        },
    }
}

} // verus!
