//! Chart aggregation: drawing more data than there are pixels.
//!
//! Aggregation happens before any geometry exists, and what comes out is bounded
//! by the canvas and never by the input. Min/max decimation emits both extremes
//! of every pixel column, so that a spike one row wide is always drawn; sampling
//! would delete it.
//!
//! Comparing is done here on the numbers' bits. Where a sum, a mean or the bin of
//! a number is wanted, the caller hands in the arithmetic.

use crate::index::TextIndex;
use crate::sorting::{in_order, sorted, Ordered};
use crate::text::{
    distinct, distinct_lists_each_text_once, is_text_before, text_before, text_order_is_total,
    texts,
};
use crate::value::{
    all_marked, largest, lemma_units_bound, smallest, the_largest_is_among_them,
    the_smallest_is_among_them, units_of, Ruler, Value, F64, INF64, NEG_INF64,
};
use vstd::prelude::*;

pub mod scale;

verus! {

/// A point in data space.
#[derive(Clone, Copy, Debug, PartialEq, Eq, Structural)]
pub struct DataPoint {
    pub x: F64,
    pub y: F64,
}

impl DataPoint {
    pub fn new(x: F64, y: F64) -> (p: DataPoint)
        ensures
            p == (DataPoint { x, y }),
    {
        DataPoint { x, y }
    }
}

/// Inclusive numeric bounds.
#[derive(Clone, Copy, Debug, PartialEq, Eq, Structural)]
pub struct Bounds {
    pub min: F64,
    pub max: F64,
}

impl Bounds {
    /// Widened to hold `v`, which changes nothing where `v` is not finite.
    pub open spec fn with(self, v: F64) -> Bounds {
        if !v.finite_spec() {
            self
        } else {
            Bounds {
                min: if v.lt_spec(self.min) {
                    v
                } else {
                    self.min
                },
                max: if self.max.lt_spec(v) {
                    v
                } else {
                    self.max
                },
            }
        }
    }

    /// Nothing lies in the range.
    pub open spec fn empty_spec(self) -> bool {
        !self.min.finite_spec() || !self.max.finite_spec() || self.max.lt_spec(self.min)
    }

    /// `v` is a finite number neither below nor above the range.
    pub open spec fn has(self, v: F64) -> bool {
        v.finite_spec() && !v.lt_spec(self.min) && !self.max.lt_spec(v)
    }

    pub fn new(min: F64, max: F64) -> (b: Bounds)
        ensures
            b == (Bounds { min, max }),
    {
        Bounds { min, max }
    }

    /// Widen to include `v`, ignoring non-finite values.
    pub fn include_value(&mut self, v: F64)
        ensures
            *final(self) == old(self).with(v),
    {
        if !v.is_finite() {
            return;
        }
        if v.less_than(self.min) {
            self.min = v;
        }
        if self.max.less_than(v) {
            self.max = v;
        }
    }

    pub fn is_empty(&self) -> (b: bool)
        ensures
            b == self.empty_spec(),
    {
        !self.min.is_finite() || !self.max.is_finite() || self.max.less_than(self.min)
    }

    pub fn contains(&self, v: F64) -> (b: bool)
        ensures
            b == self.has(v),
    {
        v.is_finite() && !v.less_than(self.min) && !self.max.less_than(v)
    }

    pub open spec fn nowhere() -> Bounds {
        Bounds { min: F64(INF64), max: F64(NEG_INF64) }
    }

    /// An empty range that any finite value will fill.
    pub fn unbounded() -> (b: Bounds)
        ensures
            b == Bounds::nowhere(),
    {
        Bounds { min: F64(INF64), max: F64(NEG_INF64) }
    }
}

/// The bits of one and of a tenth, and of the gap between one and the next number.
pub const ONE64: u64 = 0x3ff0_0000_0000_0000;

pub const TENTH64: u64 = 0x3fb9_9999_9999_999a;

pub const EPSILON64: u64 = 0x3cb0_0000_0000_0000;

/// The arithmetic of an axis: sum, difference, product and quotient of two numbers,
/// a count as a number, and a number cut down to a position, a negative one to the
/// first.
pub struct AxisOps<P, M, T, D, N, W> {
    pub plus: P,
    pub minus: M,
    pub times: T,
    pub over: D,
    pub number: N,
    pub whole: W,
}

/// The number without its sign.
pub open spec fn unsigned(x: F64) -> F64 {
    F64(x.magnitude_spec() as u64)
}

/// Too close to zero to tell from it beside one.
pub open spec fn negligible(x: F64) -> bool {
    unsigned(x).lt_spec(F64(EPSILON64))
}

impl<
    P: Fn(F64, F64) -> F64,
    M: Fn(F64, F64) -> F64,
    T: Fn(F64, F64) -> F64,
    D: Fn(F64, F64) -> F64,
    N: Fn(u64) -> F64,
    W: Fn(F64) -> usize,
> AxisOps<P, M, T, D, N, W> {
    /// The operations can be applied to every number.
    pub open spec fn ready(&self) -> bool {
        &&& forall|x: F64, y: F64| #[trigger] self.plus.requires((x, y))
        &&& forall|x: F64, y: F64| #[trigger] self.minus.requires((x, y))
        &&& forall|x: F64, y: F64| #[trigger] self.times.requires((x, y))
        &&& forall|x: F64, y: F64| #[trigger] self.over.requires((x, y))
        &&& forall|n: u64| #[trigger] self.number.requires((n,))
        &&& forall|x: F64| #[trigger] self.whole.requires((x,))
    }

    /// `pad` is what a range that is all `at` is padded with on either side.
    pub open spec fn pads(&self, at: F64, pad: F64) -> bool {
        if negligible(at) {
            pad == F64(ONE64)
        } else {
            self.times.ensures((unsigned(at), F64(TENTH64)), pad)
        }
    }

    /// `r` is `b` padded by `pad` if its `span` calls for that.
    pub open spec fn padded(&self, b: Bounds, span: F64, pad: F64, r: Bounds) -> bool {
        if b.empty_spec() {
            r == (Bounds { min: F64(0), max: F64(ONE64) })
        } else {
            &&& self.minus.ensures((b.max, b.min), span)
            &&& if negligible(span) {
                &&& self.pads(b.min, pad)
                &&& self.minus.ensures((b.min, pad), r.min)
                &&& self.plus.ensures((b.max, pad), r.max)
            } else {
                r == b
            }
        }
    }

    /// `p` is computed as the position of `v` among `bins` bins over `span` from
    /// `min` on.
    pub open spec fn places(&self, min: F64, span: F64, bins: usize, v: F64, p: usize) -> bool {
        exists|off: F64, part: F64, n: F64, at: F64|
            {
                &&& #[trigger] self.minus.ensures((v, min), off)
                &&& #[trigger] self.over.ensures((off, span), part)
                &&& #[trigger] self.number.ensures((bins as u64,), n)
                &&& #[trigger] self.times.ensures((part, n), at)
                &&& self.whole.ensures((at,), p)
            }
    }

    /// `e` is the edge `i` bins of `width` from `min` on.
    pub open spec fn edges(&self, min: F64, width: F64, i: u64, e: F64) -> bool {
        exists|n: F64, off: F64|
            {
                &&& #[trigger] self.number.ensures((i,), n)
                &&& #[trigger] self.times.ensures((width, n), off)
                &&& self.plus.ensures((min, off), e)
            }
    }

    fn place(&self, min: F64, span: F64, bins: usize, v: F64) -> (p: usize)
        requires
            self.ready(),
        ensures
            self.places(min, span, bins, v, p),
    {
        let off = (self.minus)(v, min);
        let part = (self.over)(off, span);
        let n = (self.number)(bins as u64);
        let at = (self.times)(part, n);
        (self.whole)(at)
    }

    fn edge(&self, min: F64, width: F64, i: u64) -> (e: F64)
        requires
            self.ready(),
        ensures
            self.edges(min, width, i, e),
    {
        let n = (self.number)(i);
        let off = (self.times)(width, n);
        (self.plus)(min, off)
    }
}

fn is_negligible(x: F64) -> (b: bool)
    ensures
        b == negligible(x),
{
    F64(x.magnitude()).less_than(F64(EPSILON64))
}

impl Bounds {
    /// How far the range reaches.
    pub fn span<M: Fn(F64, F64) -> F64>(&self, minus: &M) -> (span: F64)
        requires
            minus.requires((self.max, self.min)),
        ensures
            minus.ensures((self.max, self.min), span),
    {
        minus(self.max, self.min)
    }

    /// Pad a degenerate range, so that a chart of constant data still has a visible
    /// axis.
    pub fn padded<
        P: Fn(F64, F64) -> F64,
        M: Fn(F64, F64) -> F64,
        T: Fn(F64, F64) -> F64,
        D: Fn(F64, F64) -> F64,
        N: Fn(u64) -> F64,
        W: Fn(F64) -> usize,
    >(&self, ops: &AxisOps<P, M, T, D, N, W>) -> (r: Bounds)
        requires
            ops.ready(),
        ensures
            exists|span: F64, pad: F64| #[trigger] ops.padded(*self, span, pad, r),
    {
        if self.is_empty() {
            let r = Bounds::new(F64(0), F64(ONE64));
            assert(ops.padded(*self, F64(0), F64(0), r));
            return r;
        }
        let span = self.span(&ops.minus);
        if is_negligible(span) {
            let pad = if is_negligible(self.min) {
                F64(ONE64)
            } else {
                (ops.times)(F64(self.min.magnitude()), F64(TENTH64))
            };
            let r = Bounds::new((ops.minus)(self.min, pad), (ops.plus)(self.max, pad));
            assert(ops.padded(*self, span, pad, r));
            return r;
        }
        assert(ops.padded(*self, span, F64(0), *self));
        *self
    }
}

/// A point of a series: a row and the number there.
#[derive(Clone, Copy, Debug, PartialEq, Eq, Structural)]
pub struct SeriesPoint {
    pub row: usize,
    pub y: F64,
}

/// Result of reducing a series to something drawable.
#[derive(Debug, Clone)]
pub struct Series {
    /// Points to draw, in row order.
    pub points: Vec<SeriesPoint>,
    /// How many input rows were considered.
    pub source_rows: usize,
    /// True when aggregation reduced the data.
    pub aggregated: bool,
}

impl Default for Series {
    fn default() -> (s: Series)
        ensures
            s.points@.len() == 0,
            s.source_rows == 0,
            !s.aggregated,
    {
        Series { points: Vec::new(), source_rows: 0, aggregated: false }
    }
}

// ----------------------------------------------------------- decimation --

/// A cell holds a number that can be drawn.
pub open spec fn drawable(v: Option<F64>) -> bool {
    match v {
        Some(y) => y.finite_spec(),
        None => false,
    }
}

/// The first row in `s..e` with the smallest finite number.
pub open spec fn lowest(v: Seq<Option<F64>>, s: int, e: int) -> Option<int>
    decreases e - s,
{
    if e <= s {
        None
    } else {
        let before = lowest(v, s, e - 1);
        if !drawable(v[e - 1]) {
            before
        } else {
            match before {
                Some(i) => if v[e - 1]->0.lt_spec(v[i]->0) {
                    Some(e - 1)
                } else {
                    before
                },
                None => Some(e - 1),
            }
        }
    }
}

/// The first row in `s..e` with the largest finite number.
pub open spec fn highest(v: Seq<Option<F64>>, s: int, e: int) -> Option<int>
    decreases e - s,
{
    if e <= s {
        None
    } else {
        let before = highest(v, s, e - 1);
        if !drawable(v[e - 1]) {
            before
        } else {
            match before {
                Some(i) => if v[i]->0.lt_spec(v[e - 1]->0) {
                    Some(e - 1)
                } else {
                    before
                },
                None => Some(e - 1),
            }
        }
    }
}

pub open spec fn point_at(v: Seq<Option<F64>>, i: int) -> SeriesPoint {
    SeriesPoint { row: i as usize, y: v[i]->0 }
}

/// What a bucket of rows contributes: its lowest and its highest number, in row
/// order, once where they are in one row, and nothing where there is no number.
pub open spec fn extremes(v: Seq<Option<F64>>, s: int, e: int) -> Seq<SeriesPoint> {
    match (lowest(v, s, e), highest(v, s, e)) {
        (Some(l), Some(h)) => if l == h {
            seq![point_at(v, l)]
        } else if l < h {
            seq![point_at(v, l), point_at(v, h)]
        } else {
            seq![point_at(v, h), point_at(v, l)]
        },
        _ => Seq::empty(),
    }
}

/// The extremes of all buckets of `per` rows from row `s` on.
pub open spec fn bucketed(v: Seq<Option<F64>>, s: int, per: int) -> Seq<SeriesPoint>
    decreases v.len() - s,
{
    if per <= 0 || s < 0 || s >= v.len() {
        Seq::empty()
    } else {
        let e = if s + per < v.len() {
            s + per
        } else {
            v.len() as int
        };
        extremes(v, s, e) + bucketed(v, e, per)
    }
}

/// Every number of the first `n` rows, in row order.
pub open spec fn all_points(v: Seq<Option<F64>>, n: int) -> Seq<SeriesPoint>
    decreases n,
{
    if n <= 0 {
        Seq::empty()
    } else {
        match v[n - 1] {
            Some(_) => all_points(v, n - 1).push(point_at(v, n - 1)),
            None => all_points(v, n - 1),
        }
    }
}

/// `n / d`, rounded up.
pub open spec fn ceil_div(n: int, d: int) -> int {
    if n % d == 0 {
        n / d
    } else {
        n / d + 1
    }
}

/// The points that a series of `v` in `buckets` buckets shows.
pub open spec fn decimated(v: Seq<Option<F64>>, buckets: int) -> Seq<SeriesPoint> {
    if v.len() == 0 || buckets == 0 {
        Seq::empty()
    } else if v.len() <= buckets {
        all_points(v, v.len() as int)
    } else {
        bucketed(v, 0, ceil_div(v.len() as int, buckets))
    }
}

proof fn lemma_lowest(v: Seq<Option<F64>>, s: int, e: int)
    requires
        0 <= s <= e <= v.len(),
    ensures
        match lowest(v, s, e) {
            Some(l) => {
                &&& s <= l < e
                &&& drawable(v[l])
                &&& forall|i: int|
                    s <= i < e && drawable(#[trigger] v[i]) ==> !v[i]->0.lt_spec(v[l]->0)
            },
            None => forall|i: int| s <= i < e ==> !drawable(#[trigger] v[i]),
        },
    decreases e - s,
{
    if s < e {
        lemma_lowest(v, s, e - 1);
    }
}

proof fn lemma_highest(v: Seq<Option<F64>>, s: int, e: int)
    requires
        0 <= s <= e <= v.len(),
    ensures
        match highest(v, s, e) {
            Some(h) => {
                &&& s <= h < e
                &&& drawable(v[h])
                &&& forall|i: int|
                    s <= i < e && drawable(#[trigger] v[i]) ==> !v[h]->0.lt_spec(v[i]->0)
            },
            None => forall|i: int| s <= i < e ==> !drawable(#[trigger] v[i]),
        },
    decreases e - s,
{
    if s < e {
        lemma_highest(v, s, e - 1);
    }
}

/// Appends one bucket's extremes.
fn push_extremes(out: &mut Vec<SeriesPoint>, values: &Vec<Option<F64>>, s: usize, e: usize)
    requires
        s <= e <= values@.len(),
    ensures
        final(out)@ == old(out)@ + extremes(values@, s as int, e as int),
{
    let mut lo: Option<(usize, F64)> = None;
    let mut hi: Option<(usize, F64)> = None;
    let mut i: usize = s;
    while i < e
        invariant
            s <= i <= e <= values@.len(),
            match lo {
                Some(t) => s <= t.0 < i && lowest(values@, s as int, i as int) == Some(t.0 as int)
                    && values@[t.0 as int] == Some(t.1),
                None => lowest(values@, s as int, i as int) is None,
            },
            match hi {
                Some(t) => s <= t.0 < i && highest(values@, s as int, i as int) == Some(t.0 as int)
                    && values@[t.0 as int] == Some(t.1),
                None => highest(values@, s as int, i as int) is None,
            },
        decreases e - i,
    {
        match values[i] {
            Some(y) => {
                if y.is_finite() {
                    let lower = match lo {
                        Some(t) => y.less_than(t.1),
                        None => true,
                    };
                    if lower {
                        lo = Some((i, y));
                    }
                    let higher = match hi {
                        Some(t) => t.1.less_than(y),
                        None => true,
                    };
                    if higher {
                        hi = Some((i, y));
                    }
                }
            },
            None => {},
        }
        i = i + 1;
    }
    let ghost had = out@;
    match (lo, hi) {
        (Some(l), Some(h)) => {
            let low = SeriesPoint { row: l.0, y: l.1 };
            let high = SeriesPoint { row: h.0, y: h.1 };
            if l.0 == h.0 {
                out.push(low);
            } else if l.0 < h.0 {
                out.push(low);
                out.push(high);
            } else {
                out.push(high);
                out.push(low);
            }
        },
        _ => {},
    }
    assert(out@ =~= had + extremes(values@, s as int, e as int));
}

/// Min/max decimation: reduce `values` to at most `2 * buckets` points while
/// preserving every local extreme.
///
/// `None` entries are gaps and are skipped rather than treated as zero.
pub fn decimate_min_max(values: &Vec<Option<F64>>, buckets: usize) -> (s: Series)
    ensures
        s.points@ == decimated(values@, buckets as int),
        s.source_rows == if buckets == 0 {
            0
        } else {
            values@.len() as int
        },
        s.aggregated == (0 < buckets < values@.len()),
{
    let n: usize = values.len();
    if n == 0 || buckets == 0 {
        let s = Series::default();
        assert(s.points@ =~= Seq::empty());
        return s;
    }
    let mut points: Vec<SeriesPoint> = Vec::new();
    if n <= buckets {
        let mut i: usize = 0;
        while i < n
            invariant
                i <= n == values@.len(),
                points@ == all_points(values@, i as int),
            decreases n - i,
        {
            match values[i] {
                Some(y) => {
                    points.push(SeriesPoint { row: i, y });
                },
                None => {},
            }
            i = i + 1;
        }
        return Series { points, source_rows: n, aggregated: false };
    }
    proof {
        assert(n % buckets != 0 ==> n / buckets < n) by (nonlinear_arith)
            requires
                n > buckets > 0,
        ;
    }
    let per: usize = if n % buckets == 0 {
        n / buckets
    } else {
        n / buckets + 1
    };
    proof {
        assert(n / buckets >= 1) by (nonlinear_arith)
            requires
                n > buckets > 0,
        ;
        assert(per == ceil_div(n as int, buckets as int));
    }
    let ghost whole = bucketed(values@, 0, per as int);
    let mut start: usize = 0;
    assert(points@ + whole =~= whole);
    while start < n
        invariant
            start <= n == values@.len(),
            0 < per,
            points@ + bucketed(values@, start as int, per as int) == whole,
        decreases n - start,
    {
        let end: usize = if per < n - start {
            start + per
        } else {
            n
        };
        let ghost had = points@;
        push_extremes(&mut points, values, start, end);
        proof {
            let here = extremes(values@, start as int, end as int);
            let rest = bucketed(values@, end as int, per as int);
            assert(bucketed(values@, start as int, per as int) == here + rest);
            assert(had + (here + rest) =~= (had + here) + rest);
        }
        start = end;
    }
    assert(points@ + Seq::<SeriesPoint>::empty() =~= points@);
    Series { points, source_rows: n, aggregated: true }
}

// ----------------------------------------------------------------- bounds --

/// The bounds of the finite numbers.
pub open spec fn bounds_of(v: Seq<Option<F64>>) -> Bounds
    decreases v.len(),
{
    if v.len() == 0 {
        Bounds { min: F64(INF64), max: F64(NEG_INF64) }
    } else {
        match v.last() {
            Some(y) => bounds_of(v.drop_last()).with(y),
            None => bounds_of(v.drop_last()),
        }
    }
}

/// The range that a histogram without a given one covers.
pub fn data_bounds(values: &Vec<Option<F64>>) -> (b: Bounds)
    ensures
        b == bounds_of(values@),
{
    let mut b = Bounds::unbounded();
    let mut i: usize = 0;
    while i < values.len()
        invariant
            i <= values@.len(),
            b == bounds_of(values@.subrange(0, i as int)),
        decreases values@.len() - i,
    {
        assert(values@.subrange(0, i + 1).drop_last() =~= values@.subrange(0, i as int));
        match values[i] {
            Some(y) => {
                b.include_value(y);
            },
            None => {},
        }
        i = i + 1;
    }
    assert(values@.subrange(0, values@.len() as int) =~= values@);
    b
}

/// Both coordinates of row `i` can be drawn.
pub open spec fn pair_drawable(xs: Seq<Option<F64>>, ys: Seq<Option<F64>>, i: int) -> bool {
    drawable(xs[i]) && drawable(ys[i])
}

/// The bounds of the first `n` rows that have both coordinates.
pub open spec fn pair_bounds_of(xs: Seq<Option<F64>>, ys: Seq<Option<F64>>, n: int) -> (
    Bounds,
    Bounds,
)
    decreases n,
{
    if n <= 0 {
        (
            Bounds { min: F64(INF64), max: F64(NEG_INF64) },
            Bounds { min: F64(INF64), max: F64(NEG_INF64) },
        )
    } else {
        let (xb, yb) = pair_bounds_of(xs, ys, n - 1);
        if pair_drawable(xs, ys, n - 1) {
            (xb.with(xs[n - 1]->0), yb.with(ys[n - 1]->0))
        } else {
            (xb, yb)
        }
    }
}

pub open spec fn shorter(a: nat, b: nat) -> nat {
    if a < b {
        a
    } else {
        b
    }
}

/// The ranges that a density grid covers.
pub fn pair_bounds(xs: &Vec<Option<F64>>, ys: &Vec<Option<F64>>) -> (r: (Bounds, Bounds))
    ensures
        r == pair_bounds_of(xs@, ys@, shorter(xs@.len(), ys@.len()) as int),
{
    let n: usize = if xs.len() < ys.len() {
        xs.len()
    } else {
        ys.len()
    };
    let mut xb = Bounds::unbounded();
    let mut yb = Bounds::unbounded();
    let mut i: usize = 0;
    while i < n
        invariant
            i <= n <= xs@.len(),
            n <= ys@.len(),
            (xb, yb) == pair_bounds_of(xs@, ys@, i as int),
        decreases n - i,
    {
        match (xs[i], ys[i]) {
            (Some(x), Some(y)) => {
                if x.is_finite() && y.is_finite() {
                    xb.include_value(x);
                    yb.include_value(y);
                }
            },
            _ => {},
        }
        i = i + 1;
    }
    (xb, yb)
}

// --------------------------------------------------------------- counting --

/// The bin that a computed position falls into: one past the last is the last.
pub open spec fn clamped(place: usize, bins: int) -> int {
    if place < bins {
        place as int
    } else {
        bins - 1
    }
}

/// How many of the rows that count fall into bin `k`.
pub open spec fn tallied(counts: Seq<bool>, places: Seq<usize>, bins: int, k: int) -> nat
    decreases counts.len(),
{
    if counts.len() == 0 {
        0
    } else {
        let before = tallied(counts.drop_last(), places.drop_last(), bins, k);
        if counts.last() && clamped(places.last(), bins) == k {
            before + 1
        } else {
            before
        }
    }
}

/// Which cells of a column a histogram over `range` counts.
pub open spec fn counted_cells(v: Seq<Option<F64>>, range: Bounds) -> Seq<bool> {
    Seq::new(
        v.len(),
        |i: int|
            match v[i] {
                Some(y) => range.has(y),
                None => false,
            },
    )
}

proof fn lemma_tallied_bound(counts: Seq<bool>, places: Seq<usize>, bins: int, k: int)
    ensures
        tallied(counts, places, bins, k) <= counts.len(),
    decreases counts.len(),
{
    if counts.len() > 0 {
        lemma_tallied_bound(counts.drop_last(), places.drop_last(), bins, k);
    }
}

fn zeros(n: usize) -> (v: Vec<u64>)
    ensures
        v@.len() == n,
        forall|k: int| 0 <= k < n ==> v@[k] == 0,
{
    let mut v: Vec<u64> = Vec::new();
    let mut i: usize = 0;
    while i < n
        invariant
            i <= n,
            v@.len() == i,
            forall|k: int| 0 <= k < i ==> v@[k] == 0,
        decreases n - i,
    {
        v.push(0);
        i = i + 1;
    }
    v
}

/// Counts one more row.
fn bump(counts: &mut Vec<u64>, place: usize) -> (at: usize)
    requires
        old(counts)@.len() > 0,
        forall|k: int| 0 <= k < old(counts)@.len() ==> old(counts)@[k] < u64::MAX,
    ensures
        at == clamped(place, old(counts)@.len() as int),
        final(counts)@ == old(counts)@.update(at as int, (old(counts)@[at as int] + 1) as u64),
{
    let bins: usize = counts.len();
    let at: usize = if place < bins {
        place
    } else {
        bins - 1
    };
    let n: u64 = counts[at];
    counts.set(at, n + 1);
    at
}

/// `counts` is the histogram of the cells in range, where `places` are their
/// positions as `placed` allows them.
pub open spec fn binned(
    v: Seq<Option<F64>>,
    range: Bounds,
    bins: int,
    placed: spec_fn(F64, usize) -> bool,
    places: Seq<usize>,
    counts: Seq<u64>,
) -> bool {
    &&& places.len() == v.len()
    &&& forall|i: int|
        0 <= i < v.len() && counted_cells(v, range)[i] ==> placed(
            v[i]->0,
            #[trigger] places[i],
        )
    &&& counts.len() == bins
    &&& forall|k: int|
        0 <= k < bins ==> #[trigger] counts[k] == tallied(
            counted_cells(v, range),
            places,
            bins,
            k,
        )
}

/// The positions that `place` may compute.
spec fn placed_by<P: Fn(F64) -> usize>(place: P) -> spec_fn(F64, usize) -> bool {
    |v: F64, p: usize| place.ensures((v,), p)
}

/// Counts the numbers of a range by bin. `place` computes the bin of a number; one
/// at the very end of the range may land one past the last bin and is counted in it.
fn bin_counts<P: Fn(F64) -> usize>(
    values: &Vec<Option<F64>>,
    bins: usize,
    range: Bounds,
    place: P,
) -> (counts: Vec<u64>)
    requires
        bins > 0,
        forall|v: F64| #[trigger] place.requires((v,)),
    ensures
        exists|places: Seq<usize>| #[trigger]
            binned(
                values@,
                range,
                bins as int,
                placed_by(place),
                places,
                counts@,
            ),
{
    let n: usize = values.len();
    let mut counts = zeros(bins);
    let ghost mut places: Seq<usize> = Seq::empty();
    let ghost all = counted_cells(values@, range);
    let mut i: usize = 0;
    while i < n
        invariant
            i <= n == values@.len(),
            0 < bins,
            counts@.len() == bins,
            all == counted_cells(values@, range),
            forall|v: F64| #[trigger] place.requires((v,)),
            places.len() == i,
            forall|k: int|
                0 <= k < i && all[k] ==> place.ensures((values@[k]->0,), #[trigger] places[k]),
            forall|k: int|
                0 <= k < bins ==> #[trigger] counts@[k] == tallied(
                    all.subrange(0, i as int),
                    places,
                    bins as int,
                    k,
                ),
        decreases n - i,
    {
        let ghost old_places = places;
        let ghost old_counts = counts@;
        proof {
            assert(all.subrange(0, i + 1).drop_last() =~= all.subrange(0, i as int));
            assert forall|k: int| 0 <= k < bins implies #[trigger] counts@[k] < u64::MAX by {
                lemma_tallied_bound(all.subrange(0, i as int), places, bins as int, k);
            }
        }
        let ghost mut here: usize = 0;
        match values[i] {
            Some(y) => {
                if range.contains(y) {
                    let p: usize = place(y);
                    bump(&mut counts, p);
                    proof {
                        here = p;
                    }
                }
            },
            None => {},
        }
        proof {
            places = places.push(here);
            assert(places.drop_last() =~= old_places);
            assert forall|k: int| 0 <= k < bins implies #[trigger] counts@[k] == tallied(
                all.subrange(0, i + 1),
                places,
                bins as int,
                k,
            ) by {
                assert(old_counts[k] == tallied(
                    all.subrange(0, i as int),
                    old_places,
                    bins as int,
                    k,
                ));
            }
        }
        i = i + 1;
    }
    assert(all.subrange(0, n as int) =~= all);
    assert(binned(
        values@,
        range,
        bins as int,
        placed_by(place),
        places,
        counts@,
    ));
    counts
}

/// One bar of a histogram.
#[derive(Clone, Copy, Debug, PartialEq, Eq, Structural)]
pub struct Bin {
    pub lo: F64,
    pub hi: F64,
    pub count: u64,
}

pub open spec fn bin_totals(bars: Seq<Bin>) -> Seq<u64> {
    Seq::new(bars.len(), |i: int| bars[i].count)
}

/// The range a histogram is asked to cover: the one given, else that of the data.
pub open spec fn asked_range(values: Seq<Option<F64>>, range: Option<Bounds>) -> Bounds {
    match range {
        Some(r) => r,
        None => bounds_of(values),
    }
}

impl<
    P: Fn(F64, F64) -> F64,
    M: Fn(F64, F64) -> F64,
    T: Fn(F64, F64) -> F64,
    D: Fn(F64, F64) -> F64,
    N: Fn(u64) -> F64,
    W: Fn(F64) -> usize,
> AxisOps<P, M, T, D, N, W> {
    /// The positions that a number may get among `bins` bins over `span` from `min`
    /// on.
    pub open spec fn placing(&self, min: F64, span: F64, bins: usize) -> spec_fn(F64, usize) -> bool {
        |v: F64, p: usize| self.places(min, span, bins, v, p)
    }

    /// `bars` are the bins of `width` from `min` on.
    pub open spec fn barred(&self, min: F64, width: F64, bars: Seq<Bin>) -> bool {
        forall|i: int|
            0 <= i < bars.len() ==> {
                &&& self.edges(min, width, i as u64, (#[trigger] bars[i]).lo)
                &&& self.edges(min, width, (i + 1) as u64, bars[i].hi)
            }
    }

    /// `bars` is the histogram of the numbers over `range` padded, whose span is
    /// `span`: equal bins, and in each the numbers placed there.
    pub open spec fn charted(
        &self,
        values: Seq<Option<F64>>,
        bins: usize,
        range: Bounds,
        span: F64,
        bars: Seq<Bin>,
    ) -> bool {
        &&& self.minus.ensures((range.max, range.min), span)
        &&& bars.len() == bins
        &&& exists|n: F64, width: F64|
            {
                &&& #[trigger] self.number.ensures((bins as u64,), n)
                &&& #[trigger] self.over.ensures((span, n), width)
                &&& self.barred(range.min, width, bars)
            }
        &&& exists|places: Seq<usize>| #[trigger]
            binned(
                values,
                range,
                bins as int,
                self.placing(range.min, span, bins),
                places,
                bin_totals(bars),
            )
    }
}

/// Bin numeric values into a histogram in one streaming pass, over `range` or else
/// over what the values cover. A number at the very end of the range is counted in
/// the last bin.
///
/// What comes back has `bins` bars, whatever the number of values; none where there
/// is no range to cover.
pub fn histogram<
    P: Fn(F64, F64) -> F64,
    M: Fn(F64, F64) -> F64,
    T: Fn(F64, F64) -> F64,
    D: Fn(F64, F64) -> F64,
    N: Fn(u64) -> F64,
    W: Fn(F64) -> usize,
>(
    values: &Vec<Option<F64>>,
    bins: usize,
    range: Option<Bounds>,
    ops: &AxisOps<P, M, T, D, N, W>,
) -> (bars: Vec<Bin>)
    requires
        ops.ready(),
    ensures
        bins == 0 || asked_range(values@, range).empty_spec() ==> bars@.len() == 0,
        bins > 0 && !asked_range(values@, range).empty_spec() ==> exists|
            reach: F64,
            pad: F64,
            padded: Bounds,
            span: F64,
        |
            {
                &&& #[trigger] ops.padded(asked_range(values@, range), reach, pad, padded)
                &&& #[trigger] ops.charted(values@, bins, padded, span, bars@)
            },
{
    if bins == 0 {
        return Vec::new();
    }
    let asked = match range {
        Some(r) => r,
        None => data_bounds(values),
    };
    if asked.is_empty() {
        return Vec::new();
    }
    let padded = asked.padded(ops);
    let span = padded.span(&ops.minus);
    let place = |v: F64| -> (p: usize)
        requires
            ops.ready(),
        ensures
            ops.places(padded.min, span, bins, v, p),
        { ops.place(padded.min, span, bins, v) };
    let counts = bin_counts(values, bins, padded, place);
    let n = (ops.number)(bins as u64);
    let width = (ops.over)(span, n);
    let mut bars: Vec<Bin> = Vec::new();
    let mut i: usize = 0;
    while i < bins
        invariant
            ops.ready(),
            i <= bins == counts@.len(),
            bars@.len() == i,
            ops.barred(padded.min, width, bars@),
            forall|k: int| 0 <= k < i ==> (#[trigger] bars@[k]).count == counts@[k],
        decreases bins - i,
    {
        let lo = ops.edge(padded.min, width, i as u64);
        let hi = ops.edge(padded.min, width, (i + 1) as u64);
        bars.push(Bin { lo, hi, count: counts[i] });
        i = i + 1;
    }
    proof {
        let places = choose|places: Seq<usize>| #[trigger]
            binned(
                values@,
                padded,
                bins as int,
                placed_by(place),
                places,
                counts@,
            );
        assert(bin_totals(bars@) =~= counts@);
        assert(binned(
            values@,
            padded,
            bins as int,
            ops.placing(padded.min, span, bins),
            places,
            bin_totals(bars@),
        ));
        assert(ops.charted(values@, bins, padded, span, bars@));
    }
    bars
}

/// A cell in a 2-D density grid, for scatter plots too dense to draw as points.
#[derive(Clone, Copy, Debug, PartialEq, Eq, Structural)]
pub struct DensityCell {
    pub x_bin: usize,
    pub y_bin: usize,
    pub count: u64,
}

/// The cells that some row falls into, in grid order.
pub open spec fn occupied(counts: Seq<u64>, x_bins: int, n: int) -> Seq<DensityCell>
    decreases n,
{
    if n <= 0 {
        Seq::empty()
    } else {
        let before = occupied(counts, x_bins, n - 1);
        if counts[n - 1] > 0 {
            before.push(
                DensityCell {
                    x_bin: ((n - 1) % x_bins) as usize,
                    y_bin: ((n - 1) / x_bins) as usize,
                    count: counts[n - 1],
                },
            )
        } else {
            before
        }
    }
}

/// Which rows of two columns a density grid counts.
pub open spec fn counted_pairs(xs: Seq<Option<F64>>, ys: Seq<Option<F64>>) -> Seq<bool> {
    Seq::new(shorter(xs.len(), ys.len()), |i: int| pair_drawable(xs, ys, i))
}

/// The grid cell of a computed pair of positions.
pub open spec fn grid_place(p: (usize, usize), x_bins: int, y_bins: int) -> int {
    clamped(p.1, y_bins) * x_bins + clamped(p.0, x_bins)
}

/// `counts` is the grid of the rows with both coordinates, where `places` are their
/// positions as `across` and `up` allow them.
pub open spec fn gridded(
    xs: Seq<Option<F64>>,
    ys: Seq<Option<F64>>,
    x_bins: int,
    y_bins: int,
    across: spec_fn(F64, usize) -> bool,
    up: spec_fn(F64, usize) -> bool,
    places: Seq<(usize, usize)>,
    counts: Seq<u64>,
) -> bool {
    &&& places.len() == counted_pairs(xs, ys).len()
    &&& forall|i: int|
        0 <= i < places.len() && counted_pairs(xs, ys)[i] ==> across(
            xs[i]->0,
            (#[trigger] places[i]).0,
        ) && up(ys[i]->0, places[i].1)
    &&& counts.len() == x_bins * y_bins
    &&& forall|k: int|
        0 <= k < counts.len() ==> #[trigger] counts[k] == tallied(
            counted_pairs(xs, ys),
            grid_places(places, x_bins, y_bins),
            x_bins * y_bins,
            k,
        )
}

/// The occupied cells of a density grid. `across` and `up` compute the column and
/// the row of a pair.
fn grid_cells<A: Fn(F64) -> usize, U: Fn(F64) -> usize>(
    xs: &Vec<Option<F64>>,
    ys: &Vec<Option<F64>>,
    x_bins: usize,
    y_bins: usize,
    across: A,
    up: U,
) -> (cells: Vec<DensityCell>)
    requires
        0 < x_bins,
        0 < y_bins,
        x_bins * y_bins <= usize::MAX,
        forall|x: F64| #[trigger] across.requires((x,)),
        forall|y: F64| #[trigger] up.requires((y,)),
    ensures
        exists|places: Seq<(usize, usize)>, counts: Seq<u64>|
            {
                &&& #[trigger] gridded(
                    xs@,
                    ys@,
                    x_bins as int,
                    y_bins as int,
                    placed_by(across),
                    placed_by(up),
                    places,
                    counts,
                )
                &&& cells@ == occupied(counts, x_bins as int, x_bins * y_bins)
            },
{
    let size: usize = x_bins * y_bins;
    let n: usize = if xs.len() < ys.len() {
        xs.len()
    } else {
        ys.len()
    };
    proof {
        assert(x_bins * y_bins > 0) by (nonlinear_arith)
            requires
                x_bins > 0,
                y_bins > 0,
        ;
    }
    let mut counts = zeros(size);
    let ghost mut places: Seq<(usize, usize)> = Seq::empty();
    let ghost all = counted_pairs(xs@, ys@);
    let ghost w = x_bins as int;
    let ghost h = y_bins as int;
    let mut i: usize = 0;
    while i < n
        invariant
            i <= n <= xs@.len(),
            n <= ys@.len(),
            n == all.len(),
            0 < x_bins,
            0 < y_bins,
            w == x_bins,
            h == y_bins,
            size == w * h,
            0 < size,
            counts@.len() == size,
            all == counted_pairs(xs@, ys@),
            forall|x: F64| #[trigger] across.requires((x,)),
            forall|y: F64| #[trigger] up.requires((y,)),
            places.len() == i,
            forall|k: int|
                0 <= k < i && all[k] ==> across.ensures((xs@[k]->0,), (#[trigger] places[k]).0)
                    && up.ensures((ys@[k]->0,), places[k].1),
            forall|k: int|
                0 <= k < size ==> #[trigger] counts@[k] == tallied(
                    all.subrange(0, i as int),
                    grid_places(places, w, h),
                    size as int,
                    k,
                ),
        decreases n - i,
    {
        let ghost old_places = places;
        let ghost old_counts = counts@;
        proof {
            assert(all.subrange(0, i + 1).drop_last() =~= all.subrange(0, i as int));
            assert forall|k: int| 0 <= k < size implies #[trigger] counts@[k] < u64::MAX by {
                lemma_tallied_bound(
                    all.subrange(0, i as int),
                    grid_places(places, w, h),
                    size as int,
                    k,
                );
            }
        }
        let ghost mut here: (usize, usize) = (0, 0);
        match (xs[i], ys[i]) {
            (Some(x), Some(y)) => {
                if x.is_finite() && y.is_finite() {
                    let p: (usize, usize) = (across(x), up(y));
                    let xi: usize = if p.0 < x_bins {
                        p.0
                    } else {
                        x_bins - 1
                    };
                    let yi: usize = if p.1 < y_bins {
                        p.1
                    } else {
                        y_bins - 1
                    };
                    proof {
                        lemma_grid_place(xi as int, yi as int, w, h);
                    }
                    let at: usize = yi * x_bins + xi;
                    bump(&mut counts, at);
                    proof {
                        here = p;
                    }
                }
            },
            _ => {},
        }
        proof {
            places = places.push(here);
            let gp = grid_places(places, w, h);
            assert(gp.drop_last() =~= grid_places(old_places, w, h));
            lemma_grid_place(clamped(here.0, w), clamped(here.1, h), w, h);
            assert(gp.last() == grid_place(here, w, h));
            assert forall|k: int| 0 <= k < size implies #[trigger] counts@[k] == tallied(
                all.subrange(0, i + 1),
                gp,
                size as int,
                k,
            ) by {
                assert(old_counts[k] == tallied(
                    all.subrange(0, i as int),
                    grid_places(old_places, w, h),
                    size as int,
                    k,
                ));
            }
        }
        i = i + 1;
    }
    assert(all.subrange(0, n as int) =~= all);
    assert(gridded(xs@, ys@, w, h, placed_by(across), placed_by(up), places, counts@));
    let mut cells: Vec<DensityCell> = Vec::new();
    let mut j: usize = 0;
    while j < size
        invariant
            j <= size == counts@.len(),
            0 < x_bins,
            cells@ == occupied(counts@, x_bins as int, j as int),
        decreases size - j,
    {
        if counts[j] > 0 {
            cells.push(DensityCell { x_bin: j % x_bins, y_bin: j / x_bins, count: counts[j] });
        }
        j = j + 1;
    }
    cells
}

/// `cells` is the density grid over two ranges.
pub open spec fn covered<
    P: Fn(F64, F64) -> F64,
    M: Fn(F64, F64) -> F64,
    T: Fn(F64, F64) -> F64,
    D: Fn(F64, F64) -> F64,
    N: Fn(u64) -> F64,
    W: Fn(F64) -> usize,
>(
    ops: AxisOps<P, M, T, D, N, W>,
    xs: Seq<Option<F64>>,
    ys: Seq<Option<F64>>,
    x_bins: usize,
    y_bins: usize,
    cells: Seq<DensityCell>,
    xb: Bounds,
    yb: Bounds,
) -> bool {
    exists|x_span: F64, y_span: F64, places: Seq<(usize, usize)>, counts: Seq<u64>|
        {
            &&& #[trigger] ops.minus.ensures((xb.max, xb.min), x_span)
            &&& #[trigger] ops.minus.ensures((yb.max, yb.min), y_span)
            &&& #[trigger] gridded(
                xs,
                ys,
                x_bins as int,
                y_bins as int,
                ops.placing(xb.min, x_span, x_bins),
                ops.placing(yb.min, y_span, y_bins),
                places,
                counts,
            )
            &&& cells == occupied(counts, x_bins as int, x_bins * y_bins)
        }
}

/// Bin (x, y) pairs into a density grid over what they cover, and say what that is.
/// Only occupied cells are returned, so an empty region costs nothing.
pub fn density_grid<
    P: Fn(F64, F64) -> F64,
    M: Fn(F64, F64) -> F64,
    T: Fn(F64, F64) -> F64,
    D: Fn(F64, F64) -> F64,
    N: Fn(u64) -> F64,
    W: Fn(F64) -> usize,
>(
    xs: &Vec<Option<F64>>,
    ys: &Vec<Option<F64>>,
    x_bins: usize,
    y_bins: usize,
    ops: &AxisOps<P, M, T, D, N, W>,
) -> (r: (Vec<DensityCell>, Bounds, Bounds))
    requires
        ops.ready(),
        x_bins * y_bins <= usize::MAX,
    ensures
        ({
            let data = pair_bounds_of(xs@, ys@, shorter(xs@.len(), ys@.len()) as int);
            if x_bins == 0 || y_bins == 0 {
                &&& r.0@.len() == 0
                &&& r.1 == Bounds::nowhere()
                &&& r.2 == Bounds::nowhere()
            } else if data.0.empty_spec() || data.1.empty_spec() {
                r.0@.len() == 0 && r.1 == data.0 && r.2 == data.1
            } else {
                &&& exists|span: F64, pad: F64| #[trigger] ops.padded(data.0, span, pad, r.1)
                &&& exists|span: F64, pad: F64| #[trigger] ops.padded(data.1, span, pad, r.2)
                &&& covered(*ops, xs@, ys@, x_bins, y_bins, r.0@, r.1, r.2)
            }
        }),
{
    if x_bins == 0 || y_bins == 0 {
        return (Vec::new(), Bounds::unbounded(), Bounds::unbounded());
    }
    let data = pair_bounds(xs, ys);
    if data.0.is_empty() || data.1.is_empty() {
        return (Vec::new(), data.0, data.1);
    }
    let xb = data.0.padded(ops);
    let yb = data.1.padded(ops);
    let x_span = xb.span(&ops.minus);
    let y_span = yb.span(&ops.minus);
    let across = |v: F64| -> (p: usize)
        requires
            ops.ready(),
        ensures
            ops.places(xb.min, x_span, x_bins, v, p),
        { ops.place(xb.min, x_span, x_bins, v) };
    let up = |v: F64| -> (p: usize)
        requires
            ops.ready(),
        ensures
            ops.places(yb.min, y_span, y_bins, v, p),
        { ops.place(yb.min, y_span, y_bins, v) };
    let cells = grid_cells(xs, ys, x_bins, y_bins, across, up);
    proof {
        let (places, counts) = choose|places: Seq<(usize, usize)>, counts: Seq<u64>|
            {
                &&& #[trigger] gridded(
                    xs@,
                    ys@,
                    x_bins as int,
                    y_bins as int,
                    placed_by(across),
                    placed_by(up),
                    places,
                    counts,
                )
                &&& cells@ == occupied(counts, x_bins as int, x_bins * y_bins)
            };
        assert(gridded(
            xs@,
            ys@,
            x_bins as int,
            y_bins as int,
            ops.placing(xb.min, x_span, x_bins),
            ops.placing(yb.min, y_span, y_bins),
            places,
            counts,
        ));
        assert(ops.minus.ensures((xb.max, xb.min), x_span));
        assert(ops.minus.ensures((yb.max, yb.min), y_span));
        assert(covered(*ops, xs@, ys@, x_bins, y_bins, cells@, xb, yb));
    }
    (cells, xb, yb)
}

pub open spec fn grid_places(places: Seq<(usize, usize)>, x_bins: int, y_bins: int) -> Seq<usize> {
    Seq::new(places.len(), |i: int| grid_place(places[i], x_bins, y_bins) as usize)
}

proof fn lemma_grid_place(x: int, y: int, w: int, h: int)
    requires
        0 <= x < w,
        0 <= y < h,
    ensures
        0 <= y * w + x < w * h,
{
    assert(0 <= y * w + x < w * h) by (nonlinear_arith)
        requires
            0 <= x < w,
            0 <= y < h,
    ;
}

// --------------------------------------------------------------- grouping --

/// How each group of rows is reduced to one number.
#[derive(Clone, Copy, Debug, PartialEq, Eq, Structural)]
pub enum Aggregate {
    Sum,
    Count,
    Mean,
    Min,
    Max,
}

/// One bar of a categorical chart.
#[derive(Debug, PartialEq, Clone)]
pub struct Category {
    pub label: String,
    pub value: F64,
    pub count: u64,
}

/// Where a value stands among values sorted from the largest to the smallest: a
/// NaN stands behind every number.
pub open spec fn standing(v: F64) -> int {
    if v.nan_spec() {
        -0x8000_0000_0000_0000
    } else {
        v.rank()
    }
}

impl Ordered for Category {
    /// The larger value first, and of equal values the earlier label.
    open spec fn precedes(self, other: Category) -> bool {
        if standing(self.value) != standing(other.value) {
            standing(self.value) > standing(other.value)
        } else {
            text_before(self.label@, other.label@)
        }
    }

    proof fn asymmetric(a: Category, b: Category) {
        text_order_is_total(a.label@, b.label@, a.label@);
    }

    proof fn transitive(a: Category, b: Category, c: Category) {
        text_order_is_total(a.label@, b.label@, c.label@);
        text_order_is_total(b.label@, c.label@, a.label@);
        text_order_is_total(c.label@, a.label@, b.label@);
        text_order_is_total(c.label@, b.label@, a.label@);
        text_order_is_total(b.label@, a.label@, c.label@);
        text_order_is_total(a.label@, c.label@, b.label@);
    }

    fn is_before(&self, other: &Category) -> (b: bool) {
        if other.value.less_than(self.value) {
            return true;
        }
        if self.value.less_than(other.value) {
            return false;
        }
        if self.value.is_nan() != other.value.is_nan() {
            return other.value.is_nan();
        }
        is_text_before(self.label.as_str(), other.label.as_str())
    }
}

/// How many of the first `n` rows have the label.
pub open spec fn label_count(labels: Seq<Seq<char>>, label: Seq<char>, n: int) -> nat
    decreases n,
{
    if n <= 0 {
        0
    } else if labels[n - 1] == label {
        label_count(labels, label, n - 1) + 1
    } else {
        label_count(labels, label, n - 1)
    }
}

/// The finite numbers beside the label in the first `n` rows.
pub open spec fn label_numbers(
    labels: Seq<Seq<char>>,
    values: Seq<Option<F64>>,
    label: Seq<char>,
    n: int,
) -> Seq<F64>
    decreases n,
{
    if n <= 0 {
        Seq::empty()
    } else {
        let before = label_numbers(labels, values, label, n - 1);
        if labels[n - 1] == label && n - 1 < values.len() && drawable(values[n - 1]) {
            before.push(values[n - 1]->0)
        } else {
            before
        }
    }
}

/// `parts` are the running totals of the numbers, from zero on.
pub open spec fn running<A: Fn(F64, F64) -> F64>(plus: A, v: Seq<F64>, parts: Seq<F64>) -> bool {
    &&& parts.len() == v.len() + 1
    &&& parts[0] == F64(0)
    &&& forall|i: int|
        0 <= i < v.len() ==> plus.ensures((parts[i], #[trigger] v[i]), parts[i + 1])
}

/// `total` is what `plus` makes of the numbers, from zero on and in their order.
pub open spec fn folded<A: Fn(F64, F64) -> F64>(plus: A, v: Seq<F64>, total: F64) -> bool {
    exists|parts: Seq<F64>| #[trigger] running(plus, v, parts) && parts.last() == total
}

/// `value` is a group's aggregate.
pub open spec fn reduced<
    A: Fn(F64, F64) -> F64,
    M: Fn(F64, u64) -> F64,
    C: Fn(u64) -> F64,
>(agg: Aggregate, plus: A, mean: M, number: C, v: Seq<F64>, count: u64, value: F64) -> bool {
    match agg {
        Aggregate::Sum => folded(plus, v, value),
        Aggregate::Count => number.ensures((count,), value),
        Aggregate::Mean => exists|total: F64| #[trigger]
            folded(plus, v, total) && mean.ensures((total, count), value),
        Aggregate::Min => value == if v.len() > 0 {
            smallest(v)
        } else {
            F64(0)
        },
        Aggregate::Max => value == if v.len() > 0 {
            largest(v)
        } else {
            F64(0)
        },
    }
}

/// What is known of a group while the rows go by.
struct Acc {
    sum: F64,
    count: u64,
    min: F64,
    max: F64,
}

impl Acc {
    spec fn holds<A: Fn(F64, F64) -> F64>(
        self,
        plus: A,
        labels: Seq<Seq<char>>,
        values: Seq<Option<F64>>,
        label: Seq<char>,
        n: int,
    ) -> bool {
        let v = label_numbers(labels, values, label, n);
        &&& self.count == label_count(labels, label, n)
        &&& folded(plus, v, self.sum)
        &&& self.min == smallest(v)
        &&& self.max == largest(v)
    }
}

proof fn lemma_label_count(labels: Seq<Seq<char>>, label: Seq<char>, n: int)
    requires
        0 <= n,
    ensures
        label_count(labels, label, n) <= n,
    decreases n,
{
    if n > 0 {
        lemma_label_count(labels, label, n - 1);
    }
}

/// A label that has not occurred has no rows and no numbers.
proof fn lemma_fresh_label(
    labels: Seq<Seq<char>>,
    values: Seq<Option<F64>>,
    label: Seq<char>,
    n: int,
)
    requires
        0 <= n <= labels.len(),
        forall|i: int| 0 <= i < n ==> #[trigger] labels[i] != label,
    ensures
        label_count(labels, label, n) == 0,
        label_numbers(labels, values, label, n) == Seq::<F64>::empty(),
    decreases n,
{
    if n > 0 {
        lemma_fresh_label(labels, values, label, n - 1);
    }
}

/// The smallest and the largest of some finite numbers are finite.
proof fn lemma_extremes_finite(v: Seq<F64>)
    requires
        forall|i: int| 0 <= i < v.len() ==> (#[trigger] v[i]).finite_spec(),
    ensures
        smallest(v).finite_spec() <==> v.len() > 0,
        largest(v).finite_spec() <==> v.len() > 0,
        !smallest(v).nan_spec() && !largest(v).nan_spec(),
        v.len() == 0 || smallest(v).rank() < INF64,
    decreases v.len(),
{
    if v.len() > 0 {
        assert(v.last().finite_spec());
        lemma_extremes_finite(v.drop_last());
        if v.len() == 1 {
            assert(v.drop_last().len() == 0);
        }
    }
}

proof fn lemma_label_numbers_finite(
    labels: Seq<Seq<char>>,
    values: Seq<Option<F64>>,
    label: Seq<char>,
    n: int,
)
    ensures
        forall|i: int|
            0 <= i < label_numbers(labels, values, label, n).len() ==> (
            #[trigger] label_numbers(labels, values, label, n)[i]).finite_spec(),
    decreases n,
{
    if n > 0 {
        lemma_label_numbers_finite(labels, values, label, n - 1);
        let before = label_numbers(labels, values, label, n - 1);
        let all = label_numbers(labels, values, label, n);
        assert forall|i: int| 0 <= i < all.len() implies (#[trigger] all[i]).finite_spec() by {
            if i < before.len() {
                assert(all[i] == before[i]);
            }
        }
    }
}

/// Counts one more row of a group.
fn note_row<A: Fn(F64, F64) -> F64>(
    acc: &Acc,
    plus: &A,
    v: Option<F64>,
    Ghost(labels): Ghost<Seq<Seq<char>>>,
    Ghost(values): Ghost<Seq<Option<F64>>>,
    Ghost(n): Ghost<int>,
) -> (r: Acc)
    requires
        0 <= n < labels.len() <= usize::MAX,
        v == if n < values.len() {
            values[n]
        } else {
            None
        },
        forall|x: F64, y: F64| #[trigger] plus.requires((x, y)),
        acc.holds(*plus, labels, values, labels[n], n),
    ensures
        r.holds(*plus, labels, values, labels[n], n + 1),
{
    let ghost before = label_numbers(labels, values, labels[n], n);
    let ghost after = label_numbers(labels, values, labels[n], n + 1);
    proof {
        lemma_label_count(labels, labels[n], n);
    }
    let mut r = Acc { sum: acc.sum, count: acc.count + 1, min: acc.min, max: acc.max };
    match v {
        Some(y) => {
            if y.is_finite() {
                r.sum = plus(acc.sum, y);
                proof {
                    let parts = choose|parts: Seq<F64>| #[trigger]
                        running(*plus, before, parts) && parts.last() == acc.sum;
                    let more = parts.push(r.sum);
                    assert(after.drop_last() =~= before);
                    assert forall|i: int| 0 <= i < after.len() implies plus.ensures(
                        (more[i], #[trigger] after[i]),
                        more[i + 1],
                    ) by {
                        if i < before.len() {
                            assert(before[i] == after[i]);
                        }
                    }
                    assert(running(*plus, after, more));
                }
                if y.less_than(r.min) {
                    r.min = y;
                }
                if r.max.less_than(y) {
                    r.max = y;
                }
            }
        },
        None => {},
    }
    r
}

/// The groups, one for each label in first-seen order.
fn gather<A: Fn(F64, F64) -> F64>(
    labels: &Vec<String>,
    values: &Vec<Option<F64>>,
    plus: &A,
) -> (r: (TextIndex, Vec<Acc>))
    requires
        forall|x: F64, y: F64| #[trigger] plus.requires((x, y)),
    ensures
        r.0.wf(),
        r.0@ == distinct(texts(labels@)),
        r.1@.len() == r.0@.len(),
        forall|g: int|
            0 <= g < r.1@.len() ==> (#[trigger] r.1@[g]).holds(
                *plus,
                texts(labels@),
                values@,
                r.0@[g],
                labels@.len() as int,
            ),
{
    let ghost all = texts(labels@);
    let n: usize = labels.len();
    let mut keys = TextIndex::new();
    let mut accs: Vec<Acc> = Vec::new();
    let mut i: usize = 0;
    assert(all.subrange(0, 0) =~= Seq::empty());
    while i < n
        invariant
            i <= n == labels@.len(),
            all == texts(labels@),
            forall|x: F64, y: F64| #[trigger] plus.requires((x, y)),
            keys.wf(),
            keys@ == distinct(all.subrange(0, i as int)),
            accs@.len() == keys@.len(),
            forall|g: int|
                0 <= g < accs@.len() ==> (#[trigger] accs@[g]).holds(
                    *plus,
                    all,
                    values@,
                    keys@[g],
                    i as int,
                ),
        decreases n - i,
    {
        let label = &labels[i];
        let ghost had = keys@;
        let ghost prefix = all.subrange(0, i as int);
        let v = if i < values.len() {
            values[i]
        } else {
            None
        };
        proof {
            assert(all.subrange(0, i + 1).drop_last() =~= prefix);
            assert(all.subrange(0, i + 1).last() == label@);
            distinct_lists_each_text_once(prefix);
            keys.lemma_distinct();
        }
        let at = match keys.find(label) {
            Some(g) => {
                assert(keys@.contains(label@));
                g
            },
            None => {
                proof {
                    assert(!prefix.contains(label@));
                    assert forall|k: int| 0 <= k < i implies #[trigger] all[k] != label@ by {
                        assert(prefix[k] == all[k]);
                        assert(prefix.contains(prefix[k]));
                    }
                    lemma_fresh_label(all, values@, label@, i as int);
                }
                keys.add(label.clone());
                proof {
                    assert(running(*plus, Seq::<F64>::empty(), seq![F64(0)]));
                }
                accs.push(Acc { sum: F64(0), count: 0, min: F64(INF64), max: F64(NEG_INF64) });
                keys.len() - 1
            },
        };
        proof {
            assert(keys@[at as int] == label@);
            assert(keys@ == distinct(all.subrange(0, i + 1)));
            keys.lemma_distinct();
            assert forall|g: int| 0 <= g < accs@.len() implies (#[trigger] accs@[g]).holds(
                *plus,
                all,
                values@,
                keys@[g],
                i as int,
            ) by {
                if g < had.len() {
                    assert(keys@[g] == had[g]);
                }
            }
        }
        let ghost before = accs@;
        let next = note_row(
            &accs[at],
            plus,
            v,
            Ghost(all),
            Ghost(values@),
            Ghost(i as int),
        );
        accs.set(at, next);
        proof {
            assert forall|g: int| 0 <= g < accs@.len() implies (#[trigger] accs@[g]).holds(
                *plus,
                all,
                values@,
                keys@[g],
                i + 1,
            ) by {
                assert(before[g].holds(*plus, all, values@, keys@[g], i as int));
                if g != at {
                    assert(keys@[g] != keys@[at as int]);
                }
            }
        }
        i = i + 1;
    }
    assert(all.subrange(0, n as int) =~= all);
    (keys, accs)
}

/// A bar is the aggregate of the rows with its label.
pub open spec fn bar_of<
    A: Fn(F64, F64) -> F64,
    M: Fn(F64, u64) -> F64,
    C: Fn(u64) -> F64,
>(
    bar: Category,
    labels: Seq<Seq<char>>,
    values: Seq<Option<F64>>,
    agg: Aggregate,
    plus: A,
    mean: M,
    number: C,
) -> bool {
    &&& distinct(labels).contains(bar.label@)
    &&& bar.count == label_count(labels, bar.label@, labels.len() as int)
    &&& reduced(
        agg,
        plus,
        mean,
        number,
        label_numbers(labels, values, bar.label@, labels.len() as int),
        bar.count,
        bar.value,
    )
}

/// One of the bars has the label.
pub open spec fn has_bar(bars: Seq<Category>, label: Seq<char>) -> bool {
    exists|i: int| 0 <= i < bars.len() && (#[trigger] bars[i]).label@ == label
}

/// A group's aggregate.
fn reduce<A: Fn(F64, F64) -> F64, M: Fn(F64, u64) -> F64, C: Fn(u64) -> F64>(
    acc: &Acc,
    agg: Aggregate,
    plus: &A,
    mean: &M,
    number: &C,
    Ghost(v): Ghost<Seq<F64>>,
) -> (value: F64)
    requires
        forall|x: F64, n: u64| #[trigger] mean.requires((x, n)),
        forall|n: u64| #[trigger] number.requires((n,)),
        folded(*plus, v, acc.sum),
        acc.min == smallest(v),
        acc.max == largest(v),
        forall|i: int| 0 <= i < v.len() ==> (#[trigger] v[i]).finite_spec(),
    ensures
        reduced(agg, *plus, *mean, *number, v, acc.count, value),
{
    proof {
        lemma_extremes_finite(v);
    }
    match agg {
        Aggregate::Sum => acc.sum,
        Aggregate::Count => number(acc.count),
        Aggregate::Mean => {
            let value = mean(acc.sum, acc.count);
            assert(folded(*plus, v, acc.sum) && mean.ensures((acc.sum, acc.count), value));
            value
        },
        Aggregate::Min => if acc.min.is_finite() {
            acc.min
        } else {
            F64(0)
        },
        Aggregate::Max => if acc.max.is_finite() {
            acc.max
        } else {
            F64(0)
        },
    }
}

/// Group `labels` by value and aggregate the matching `values`. `plus`, `mean`
/// and `number` are the arithmetic: the sum of two numbers, a sum divided by a
/// count, and a count as a number.
///
/// What comes back is bounded by the number of distinct labels. It is sorted by
/// descending value and then by label.
pub fn group_by<A: Fn(F64, F64) -> F64, M: Fn(F64, u64) -> F64, C: Fn(u64) -> F64>(
    labels: &Vec<String>,
    values: &Vec<Option<F64>>,
    agg: Aggregate,
    plus: A,
    mean: M,
    number: C,
) -> (r: Vec<Category>)
    requires
        forall|x: F64, y: F64| #[trigger] plus.requires((x, y)),
        forall|x: F64, n: u64| #[trigger] mean.requires((x, n)),
        forall|n: u64| #[trigger] number.requires((n,)),
    ensures
        in_order(r@),
        r@.len() == distinct(texts(labels@)).len(),
        forall|g: int|
            0 <= g < distinct(texts(labels@)).len() ==> has_bar(
                r@,
                #[trigger] distinct(texts(labels@))[g],
            ),
        forall|i: int|
            0 <= i < r@.len() ==> bar_of(
                #[trigger] r@[i],
                texts(labels@),
                values@,
                agg,
                plus,
                mean,
                number,
            ),
{
    let ghost all = texts(labels@);
    let ghost keys_v = distinct(all);
    let (keys, accs) = gather(labels, values, &plus);
    let mut bars: Vec<Category> = Vec::new();
    let mut g: usize = 0;
    while g < accs.len()
        invariant
            g <= accs@.len(),
            all == texts(labels@),
            keys_v == distinct(all),
            keys@ == keys_v,
            accs@.len() == keys@.len(),
            forall|k: int|
                0 <= k < accs@.len() ==> (#[trigger] accs@[k]).holds(
                    plus,
                    all,
                    values@,
                    keys@[k],
                    all.len() as int,
                ),
            forall|x: F64, n: u64| #[trigger] mean.requires((x, n)),
            forall|n: u64| #[trigger] number.requires((n,)),
            bars@.len() == g,
            forall|k: int| 0 <= k < g ==> (#[trigger] bars@[k]).label@ == keys_v[k],
            forall|k: int|
                0 <= k < g ==> bar_of(
                    #[trigger] bars@[k],
                    all,
                    values@,
                    agg,
                    plus,
                    mean,
                    number,
                ),
        decreases accs@.len() - g,
    {
        let ghost label = keys_v[g as int];
        let ghost v = label_numbers(all, values@, label, all.len() as int);
        proof {
            lemma_label_numbers_finite(all, values@, label, all.len() as int);
            assert(accs@[g as int].holds(plus, all, values@, label, all.len() as int));
            assert(keys_v.contains(label));
        }
        let value = reduce(&accs[g], agg, &plus, &mean, &number, Ghost(v));
        bars.push(Category { label: keys.get(g).clone(), value, count: accs[g].count });
        g = g + 1;
    }
    let ghost before = bars@;
    let r = sorted(bars);
    proof {
        broadcast use vstd::seq_lib::group_to_multiset_ensures;

        assert(r@.to_multiset().len() == before.to_multiset().len());
        assert forall|k: int| 0 <= k < keys_v.len() implies has_bar(
            r@,
            #[trigger] keys_v[k],
        ) by {
            assert(before.contains(before[k]));
            assert(r@.to_multiset().count(before[k]) > 0);
            assert(r@.contains(before[k]));
            let i = choose|i: int| 0 <= i < r@.len() && r@[i] == before[k];
            assert(r@[i].label@ == keys_v[k]);
        }
        assert forall|i: int| 0 <= i < r@.len() implies bar_of(
            #[trigger] r@[i],
            all,
            values@,
            agg,
            plus,
            mean,
            number,
        ) by {
            assert(r@.contains(r@[i]));
            assert(before.to_multiset().count(r@[i]) > 0);
            assert(before.contains(r@[i]));
            let k = choose|k: int| 0 <= k < before.len() && before[k] == r@[i];
            assert(bar_of(before[k], all, values@, agg, plus, mean, number));
        }
    }
    r
}

/// What a value contributes to a numeric column. Text and errors are gaps, not
/// zeros.
pub open spec fn numeric(v: Value) -> Option<F64> {
    match v {
        Value::Number(n) => if n.finite_spec() {
            Some(n)
        } else {
            None
        },
        Value::Bool(b) => Some(
            if b {
                F64(0x3ff0_0000_0000_0000)
            } else {
                F64(0)
            },
        ),
        _ => None,
    }
}

/// Extract a numeric column, treating text and errors as gaps.
pub fn numeric_column(values: &Vec<Value>) -> (out: Vec<Option<F64>>)
    ensures
        out@ == values@.map_values(|v: Value| numeric(v)),
{
    let mut out: Vec<Option<F64>> = Vec::new();
    let mut i: usize = 0;
    while i < values.len()
        invariant
            i <= values@.len(),
            out@.len() == i,
            forall|k: int| 0 <= k < i ==> #[trigger] out@[k] == numeric(values@[k]),
        decreases values@.len() - i,
    {
        let one = F64(0x3ff0_0000_0000_0000);
        out.push(
            match values[i] {
                Value::Number(n) => if n.is_finite() {
                    Some(n)
                } else {
                    None
                },
                Value::Bool(b) => if b {
                    Some(one)
                } else {
                    Some(F64(0))
                },
                _ => None,
            },
        );
        i = i + 1;
    }
    assert(out@ =~= values@.map_values(|v: Value| numeric(v)));
    out
}

// ------------------------------------------------------------------- laws --

/// What is drawn is bounded by the canvas: two points for each bucket.
pub proof fn a_series_is_bounded_by_its_buckets(v: Seq<Option<F64>>, buckets: int)
    requires
        buckets >= 0,
    ensures
        decimated(v, buckets).len() <= 2 * buckets,
{
    let n = v.len() as int;
    if n == 0 || buckets == 0 {
    } else if n <= buckets {
        lemma_all_points(v, n);
    } else {
        let per = ceil_div(n, buckets);
        assert(per >= 1 && n <= per * buckets && per * buckets < n + buckets) by (nonlinear_arith)
            requires
                n > buckets > 0,
                per == if n % buckets == 0 {
                    n / buckets
                } else {
                    n / buckets + 1
                },
        ;
        lemma_bucket_count(v, 0, per, buckets);
    }
}

proof fn lemma_all_points(v: Seq<Option<F64>>, n: int)
    requires
        0 <= n <= v.len(),
    ensures
        all_points(v, n).len() <= n,
        forall|i: int| 0 <= i < all_points(v, n).len() ==> (#[trigger] all_points(v, n)[i]).row < n
            || v.len() > usize::MAX,
        v.len() <= usize::MAX ==> forall|i: int, j: int|
            0 <= i < j < all_points(v, n).len() ==> (#[trigger] all_points(v, n)[i]).row < (
            #[trigger] all_points(v, n)[j]).row,
    decreases n,
{
    if n > 0 {
        lemma_all_points(v, n - 1);
    }
}

/// `k` buckets that reach the end hold at most two points each.
proof fn lemma_bucket_count(v: Seq<Option<F64>>, s: int, per: int, k: int)
    requires
        0 <= s <= v.len(),
        per > 0,
        k >= 0,
        v.len() - s <= per * k,
    ensures
        bucketed(v, s, per).len() <= 2 * k,
    decreases v.len() - s,
{
    if s < v.len() {
        let e = if s + per < v.len() {
            s + per
        } else {
            v.len() as int
        };
        assert(k >= 1) by (nonlinear_arith)
            requires
                v.len() - s <= per * k,
                s < v.len(),
                per > 0,
                k >= 0,
        ;
        assert(per * (k - 1) == per * k - per) by (nonlinear_arith);
        assert(per * (k - 1) >= 0) by (nonlinear_arith)
            requires
                per > 0,
                k >= 1,
        ;
        lemma_bucket_count(v, e, per, k - 1);
    }
}

/// The points of the buckets from row `s` on are in row order, and none is before
/// row `s`.
proof fn lemma_bucketed_order(v: Seq<Option<F64>>, s: int, per: int)
    requires
        0 <= s <= v.len() <= usize::MAX,
        per > 0,
    ensures
        forall|i: int|
            0 <= i < bucketed(v, s, per).len() ==> (#[trigger] bucketed(v, s, per)[i]).row >= s,
        forall|i: int, j: int|
            0 <= i < j < bucketed(v, s, per).len() ==> (#[trigger] bucketed(v, s, per)[i]).row < (
            #[trigger] bucketed(v, s, per)[j]).row,
    decreases v.len() - s,
{
    if s < v.len() {
        let e = if s + per < v.len() {
            s + per
        } else {
            v.len() as int
        };
        lemma_bucketed_order(v, e, per);
        lemma_lowest(v, s, e);
        lemma_highest(v, s, e);
        let here = extremes(v, s, e);
        let rest = bucketed(v, e, per);
        let all = bucketed(v, s, per);
        assert(all == here + rest);
        assert forall|i: int| 0 <= i < all.len() implies (#[trigger] all[i]).row >= s by {
            if i >= here.len() {
                assert(all[i] == rest[i - here.len()]);
            }
        }
        assert forall|i: int, j: int| 0 <= i < j < all.len() implies (#[trigger] all[i]).row < (
        #[trigger] all[j]).row by {
            if i >= here.len() {
                assert(all[i] == rest[i - here.len()]);
            }
            if j >= here.len() {
                assert(all[j] == rest[j - here.len()]);
            }
        }
    }
}

/// A drawn line never runs backwards: the points are in row order.
pub proof fn a_series_is_in_row_order(v: Seq<Option<F64>>, buckets: int)
    requires
        buckets >= 0,
        v.len() <= usize::MAX,
    ensures
        forall|i: int, j: int|
            0 <= i < j < decimated(v, buckets).len() ==> (#[trigger] decimated(v, buckets)[i]).row
                < (#[trigger] decimated(v, buckets)[j]).row,
{
    let n = v.len() as int;
    if n == 0 || buckets == 0 {
    } else if n <= buckets {
        lemma_all_points(v, n);
    } else {
        assert(n / buckets >= 1) by (nonlinear_arith)
            requires
                n > buckets > 0,
        ;
        lemma_bucketed_order(v, 0, ceil_div(n, buckets));
    }
}

proof fn lemma_all_points_has(v: Seq<Option<F64>>, n: int, i: int)
    requires
        0 <= i < n <= v.len(),
        v[i] is Some,
    ensures
        all_points(v, n).contains(point_at(v, i)),
    decreases n,
{
    let before = all_points(v, n - 1);
    if i == n - 1 {
        assert(all_points(v, n)[before.len() as int] == point_at(v, i));
    } else {
        lemma_all_points_has(v, n - 1, i);
        let k = choose|k: int| 0 <= k < before.len() && before[k] == point_at(v, i);
        assert(all_points(v, n)[k] == point_at(v, i));
    }
}

/// A row whose number no other row of the data reaches, up or down.
pub open spec fn sticks_out(v: Seq<Option<F64>>, i: int) -> bool {
    &&& 0 <= i < v.len()
    &&& drawable(v[i])
    &&& {
        ||| forall|k: int|
            0 <= k < v.len() && k != i && drawable(#[trigger] v[k]) ==> v[k]->0.lt_spec(v[i]->0)
        ||| forall|k: int|
            0 <= k < v.len() && k != i && drawable(#[trigger] v[k]) ==> v[i]->0.lt_spec(v[k]->0)
    }
}

proof fn lemma_bucketed_has(v: Seq<Option<F64>>, s: int, per: int, i: int)
    requires
        0 <= s <= i,
        per > 0,
        sticks_out(v, i),
    ensures
        bucketed(v, s, per).contains(point_at(v, i)),
    decreases v.len() - s,
{
    let e = if s + per < v.len() {
        s + per
    } else {
        v.len() as int
    };
    let here = extremes(v, s, e);
    let rest = bucketed(v, e, per);
    let all = bucketed(v, s, per);
    assert(all == here + rest);
    if i < e {
        lemma_lowest(v, s, e);
        lemma_highest(v, s, e);
        let l = lowest(v, s, e)->0;
        let h = highest(v, s, e)->0;
        assert(drawable(v[i]));
        assert(l == i || h == i);
        if here[0] == point_at(v, i) {
            assert(all[0] == point_at(v, i));
        } else {
            assert(here[1] == point_at(v, i));
            assert(all[1] == point_at(v, i));
        }
    } else {
        lemma_bucketed_has(v, e, per, i);
        let k = choose|k: int| 0 <= k < rest.len() && rest[k] == point_at(v, i);
        assert(all[here.len() + k] == point_at(v, i));
    }
}

/// A spike is always drawn, however many rows there are and however narrow the
/// canvas is: up or down, in its own row.
pub proof fn a_spike_is_always_drawn(v: Seq<Option<F64>>, buckets: int, i: int)
    requires
        buckets > 0,
        sticks_out(v, i),
    ensures
        decimated(v, buckets).contains(point_at(v, i)),
{
    let n = v.len() as int;
    if n <= buckets {
        lemma_all_points_has(v, n, i);
    } else {
        assert(n / buckets >= 1) by (nonlinear_arith)
            requires
                n > buckets > 0,
        ;
        lemma_bucketed_has(v, 0, ceil_div(n, buckets), i);
    }
}

/// Some point of row `from` up to `to` is drawn at or below `y`.
pub open spec fn drawn_below(points: Seq<SeriesPoint>, from: int, to: int, y: F64) -> bool {
    exists|k: int|
        0 <= k < points.len() && from <= (#[trigger] points[k]).row < to
            && points[k].y.finite_spec() && points[k].y.rank() <= y.rank()
}

/// Some point of row `from` up to `to` is drawn at or above `y`.
pub open spec fn drawn_above(points: Seq<SeriesPoint>, from: int, to: int, y: F64) -> bool {
    exists|k: int|
        0 <= k < points.len() && from <= (#[trigger] points[k]).row < to
            && points[k].y.finite_spec() && points[k].y.rank() >= y.rank()
}

/// How many rows share a bucket.
pub open spec fn rows_per_bucket(n: int, buckets: int) -> int {
    if n <= buckets {
        1
    } else {
        ceil_div(n, buckets)
    }
}

proof fn lemma_bucket_encloses(v: Seq<Option<F64>>, s: int, per: int, i: int)
    requires
        per > 0,
        0 <= s <= i < v.len() <= usize::MAX,
        drawable(v[i]),
    ensures
        ({
            let from = s + (i - s) / per * per;
            &&& drawn_below(bucketed(v, s, per), from, from + per, v[i]->0)
            &&& drawn_above(bucketed(v, s, per), from, from + per, v[i]->0)
        }),
    decreases v.len() - s,
{
    let e = if s + per < v.len() {
        s + per
    } else {
        v.len() as int
    };
    let here = extremes(v, s, e);
    let rest = bucketed(v, e, per);
    let all = bucketed(v, s, per);
    let y = v[i]->0;
    if i < e {
        assert((i - s) / per == 0) by (nonlinear_arith)
            requires
                0 <= i - s < per,
        ;
        lemma_lowest(v, s, e);
        lemma_highest(v, s, e);
        let l = lowest(v, s, e)->0;
        let h = highest(v, s, e)->0;
        assert(!drawable(v[i]) || lowest(v, s, e) is Some);
        let a = if l <= h {
            0int
        } else {
            1
        };
        let b = if l < h {
            1int
        } else {
            0
        };
        assert(here[a] == point_at(v, l) && here[b] == point_at(v, h));
        assert(all[a] == here[a] && all[b] == here[b]);
        assert(drawn_below(all, s, s + per, y));
        assert(drawn_above(all, s, s + per, y));
    } else {
        assert((i - s) / per == (i - e) / per + 1) by (nonlinear_arith)
            requires
                per > 0,
                e == s + per,
                i >= e,
        ;
        let from = s + (i - s) / per * per;
        assert(from == e + (i - e) / per * per) by (nonlinear_arith)
            requires
                from == s + (i - s) / per * per,
                (i - s) / per == (i - e) / per + 1,
                e == s + per,
        ;
        lemma_bucket_encloses(v, e, per, i);
        let a = choose|k: int|
            0 <= k < rest.len() && from <= (#[trigger] rest[k]).row < from + per
                && rest[k].y.finite_spec() && rest[k].y.rank() <= y.rank();
        let b = choose|k: int|
            0 <= k < rest.len() && from <= (#[trigger] rest[k]).row < from + per
                && rest[k].y.finite_spec() && rest[k].y.rank() >= y.rank();
        assert(all[here.len() + a] == rest[a]);
        assert(all[here.len() + b] == rest[b]);
    }
}

/// Decimation keeps every local extreme: for every number in the data a point of
/// the same bucket is drawn that is no greater, and one that is no smaller.
pub proof fn every_local_extreme_is_drawn(v: Seq<Option<F64>>, buckets: int, i: int)
    requires
        buckets > 0,
        0 <= i < v.len() <= usize::MAX,
        drawable(v[i]),
    ensures
        ({
            let per = rows_per_bucket(v.len() as int, buckets);
            let from = i / per * per;
            &&& drawn_below(decimated(v, buckets), from, from + per, v[i]->0)
            &&& drawn_above(decimated(v, buckets), from, from + per, v[i]->0)
        }),
{
    let n = v.len() as int;
    if n <= buckets {
        lemma_all_points_has(v, n, i);
        let points = decimated(v, buckets);
        let k = choose|k: int| 0 <= k < points.len() && points[k] == point_at(v, i);
        assert(points[k].row == i);
    } else {
        assert(n / buckets >= 1) by (nonlinear_arith)
            requires
                n > buckets > 0,
        ;
        lemma_bucket_encloses(v, 0, ceil_div(n, buckets), i);
    }
}

/// The bounds of some data hold every finite number in it.
pub proof fn bounds_hold_every_finite_number(v: Seq<Option<F64>>, i: int)
    requires
        0 <= i < v.len(),
        drawable(v[i]),
    ensures
        bounds_of(v).has(v[i]->0),
        !bounds_of(v).empty_spec(),
    decreases v.len(),
{
    lemma_bounds_not_nan(v.drop_last());
    if i < v.len() - 1 {
        assert(v.drop_last()[i] == v[i]);
        bounds_hold_every_finite_number(v.drop_last(), i);
    }
}

proof fn lemma_bounds_not_nan(v: Seq<Option<F64>>)
    ensures
        !bounds_of(v).min.nan_spec(),
        !bounds_of(v).max.nan_spec(),
        bounds_of(v).min.rank() == INF64 || bounds_of(v).min.finite_spec(),
        bounds_of(v).max.rank() == -INF64 || bounds_of(v).max.finite_spec(),
        bounds_of(v).min.finite_spec() <==> bounds_of(v).max.finite_spec(),
        bounds_of(v).min.finite_spec() ==> bounds_of(v).min.rank() <= bounds_of(v).max.rank(),
    decreases v.len(),
{
    if v.len() > 0 {
        lemma_bounds_not_nan(v.drop_last());
    }
}

/// The sum of the first `k` counts.
pub open spec fn total(counts: Seq<u64>, k: int) -> nat
    decreases k,
{
    if k <= 0 {
        0
    } else {
        total(counts, k - 1) + counts[k - 1] as nat
    }
}

/// How many cells count.
pub open spec fn how_many(counts: Seq<bool>) -> nat
    decreases counts.len(),
{
    if counts.len() == 0 {
        0
    } else if counts.last() {
        how_many(counts.drop_last()) + 1
    } else {
        how_many(counts.drop_last())
    }
}

spec fn tally_total(counts: Seq<bool>, places: Seq<usize>, bins: int, k: int) -> nat
    decreases k,
{
    if k <= 0 {
        0
    } else {
        tally_total(counts, places, bins, k - 1) + tallied(counts, places, bins, k - 1)
    }
}

proof fn lemma_tally_step(counts: Seq<bool>, places: Seq<usize>, bins: int, k: int)
    requires
        counts.len() > 0,
        counts.len() == places.len(),
        0 < bins,
        0 <= k <= bins,
    ensures
        tally_total(counts, places, bins, k) == tally_total(
            counts.drop_last(),
            places.drop_last(),
            bins,
            k,
        ) + if counts.last() && clamped(places.last(), bins) < k {
            1nat
        } else {
            0nat
        },
    decreases k,
{
    if k > 0 {
        lemma_tally_step(counts, places, bins, k - 1);
    }
}

proof fn lemma_tally_total(counts: Seq<bool>, places: Seq<usize>, bins: int)
    requires
        counts.len() == places.len(),
        bins > 0,
    ensures
        tally_total(counts, places, bins, bins) == how_many(counts),
    decreases counts.len(),
{
    if counts.len() > 0 {
        lemma_tally_total(counts.drop_last(), places.drop_last(), bins);
        lemma_tally_step(counts, places, bins, bins);
    } else {
        lemma_tally_empty(counts, places, bins, bins);
    }
}

proof fn lemma_tally_empty(counts: Seq<bool>, places: Seq<usize>, bins: int, k: int)
    requires
        counts.len() == 0,
    ensures
        tally_total(counts, places, bins, k) == 0,
    decreases k,
{
    if k > 0 {
        lemma_tally_empty(counts, places, bins, k - 1);
    }
}

proof fn lemma_same_total(
    counts: Seq<u64>,
    cells: Seq<bool>,
    places: Seq<usize>,
    bins: int,
    k: int,
)
    requires
        0 <= k <= bins == counts.len(),
        forall|j: int| 0 <= j < bins ==> #[trigger] counts[j] == tallied(cells, places, bins, j),
    ensures
        total(counts, k) == tally_total(cells, places, bins, k),
    decreases k,
{
    if k > 0 {
        lemma_same_total(counts, cells, places, bins, k - 1);
    }
}

/// A histogram counts every number in its range exactly once.
pub proof fn a_histogram_counts_every_number_once(
    v: Seq<Option<F64>>,
    range: Bounds,
    bins: int,
    placed: spec_fn(F64, usize) -> bool,
    places: Seq<usize>,
    counts: Seq<u64>,
)
    requires
        bins > 0,
        binned(v, range, bins, placed, places, counts),
    ensures
        total(counts, bins) == how_many(counted_cells(v, range)),
{
    lemma_same_total(counts, counted_cells(v, range), places, bins, bins);
    lemma_tally_total(counted_cells(v, range), places, bins);
}

/// A density grid counts every row with both coordinates exactly once.
pub proof fn a_density_grid_counts_every_pair_once(
    xs: Seq<Option<F64>>,
    ys: Seq<Option<F64>>,
    x_bins: int,
    y_bins: int,
    across: spec_fn(F64, usize) -> bool,
    up: spec_fn(F64, usize) -> bool,
    places: Seq<(usize, usize)>,
    counts: Seq<u64>,
)
    requires
        x_bins > 0,
        y_bins > 0,
        gridded(xs, ys, x_bins, y_bins, across, up, places, counts),
    ensures
        total(counts, x_bins * y_bins) == how_many(counted_pairs(xs, ys)),
{
    let gp = grid_places(places, x_bins, y_bins);
    assert(x_bins * y_bins > 0) by (nonlinear_arith)
        requires
            x_bins > 0,
            y_bins > 0,
    ;
    lemma_same_total(counts, counted_pairs(xs, ys), gp, x_bins * y_bins, x_bins * y_bins);
    lemma_tally_total(counted_pairs(xs, ys), gp, x_bins * y_bins);
}

proof fn lemma_label_number(
    labels: Seq<Seq<char>>,
    values: Seq<Option<F64>>,
    label: Seq<char>,
    n: int,
    i: int,
)
    requires
        0 <= i < n <= labels.len(),
        labels[i] == label,
        i < values.len(),
        values[i] is Some,
        values[i]->0.finite_spec(),
    ensures
        label_numbers(labels, values, label, n).contains(values[i]->0),
    decreases n,
{
    let all = label_numbers(labels, values, label, n);
    let before = label_numbers(labels, values, label, n - 1);
    if i == n - 1 {
        assert(all.last() == values[i]->0);
        assert(all[all.len() - 1] == values[i]->0);
    } else {
        lemma_label_number(labels, values, label, n - 1, i);
        let k = choose|k: int| 0 <= k < before.len() && before[k] == values[i]->0;
        assert(all[k] == before[k]);
    }
}

proof fn lemma_number_of_label(
    labels: Seq<Seq<char>>,
    values: Seq<Option<F64>>,
    label: Seq<char>,
    n: int,
    k: int,
) -> (i: int)
    requires
        0 <= n <= labels.len(),
        0 <= k < label_numbers(labels, values, label, n).len(),
    ensures
        0 <= i < n,
        labels[i] == label,
        i < values.len(),
        values[i] == Some(label_numbers(labels, values, label, n)[k]),
        values[i]->0.finite_spec(),
    decreases n,
{
    let before = label_numbers(labels, values, label, n - 1);
    if k < before.len() {
        lemma_number_of_label(labels, values, label, n - 1, k)
    } else {
        n - 1
    }
}

/// Row `i` has a finite number beside the label.
pub open spec fn beside(
    labels: Seq<Seq<char>>,
    values: Seq<Option<F64>>,
    label: Seq<char>,
    i: int,
) -> bool {
    0 <= i < labels.len() && i < values.len() && labels[i] == label && values[i] is Some
        && values[i]->0.finite_spec()
}

/// A bar of least numbers shows one of the finite numbers beside its label, and none of
/// these is less. A bar of greatest numbers shows one, and none is greater. With no such
/// number either shows zero.
pub proof fn an_extreme_bar_shows_an_extreme_number<
    A: Fn(F64, F64) -> F64,
    M: Fn(F64, u64) -> F64,
    C: Fn(u64) -> F64,
>(
    bar: Category,
    labels: Seq<Seq<char>>,
    values: Seq<Option<F64>>,
    agg: Aggregate,
    plus: A,
    mean: M,
    number: C,
)
    requires
        agg is Min || agg is Max,
        bar_of(bar, labels, values, agg, plus, mean, number),
    ensures
        forall|i: int| #[trigger]
            beside(labels, values, bar.label@, i) ==> if agg is Min {
                !values[i]->0.lt_spec(bar.value)
            } else {
                !bar.value.lt_spec(values[i]->0)
            },
        (exists|i: int| #[trigger] beside(labels, values, bar.label@, i)) ==> exists|i: int|
            #[trigger] beside(labels, values, bar.label@, i) && values[i] == Some(bar.value),
        (forall|i: int| !#[trigger] beside(labels, values, bar.label@, i)) ==> bar.value.rank()
            == 0,
{
    let n = labels.len() as int;
    let v = label_numbers(labels, values, bar.label@, n);
    assert forall|k: int| 0 <= k < v.len() implies (#[trigger] v[k]).finite_spec() by {
        let i = lemma_number_of_label(labels, values, bar.label@, n, k);
    }
    if v.len() > 0 {
        the_smallest_is_among_them(v);
        the_largest_is_among_them(v);
        let k = choose|k: int| 0 <= k < v.len() && v[k] == bar.value;
        let i = lemma_number_of_label(labels, values, bar.label@, n, k);
        assert(beside(labels, values, bar.label@, i));
    }
    assert forall|i: int| #[trigger] beside(labels, values, bar.label@, i) implies if agg is Min {
        !values[i]->0.lt_spec(bar.value)
    } else {
        !bar.value.lt_spec(values[i]->0)
    } by {
        lemma_label_number(labels, values, bar.label@, n, i);
        let k = choose|k: int| 0 <= k < v.len() && v[k] == values[i]->0;
        assert(v.contains(v[k]));
    }
    if exists|i: int| #[trigger] beside(labels, values, bar.label@, i) {
        let i = choose|i: int| #[trigger] beside(labels, values, bar.label@, i);
        lemma_label_number(labels, values, bar.label@, n, i);
    }
}

/// What numbers add up to, where sums are exact.
pub proof fn a_running_total_is_the_sum<A: Fn(F64, F64) -> F64>(
    ruler: Ruler,
    plus: A,
    v: Seq<F64>,
    most: int,
    total: F64,
)
    requires
        ruler.straight(),
        ruler.adds(plus),
        most >= 0,
        all_marked(ruler, v, most),
        most * v.len() <= ruler.limit,
        folded(plus, v, total),
    ensures
        ruler.reads(total, units_of(ruler, v)),
{
    let parts = choose|parts: Seq<F64>| #[trigger]
        running(plus, v, parts) && parts.last() == total;
    lemma_running(ruler, plus, v, most, parts, v.len() as int);
    assert(v.subrange(0, v.len() as int) =~= v);
}

proof fn lemma_running<A: Fn(F64, F64) -> F64>(
    ruler: Ruler,
    plus: A,
    v: Seq<F64>,
    most: int,
    parts: Seq<F64>,
    k: int,
)
    requires
        ruler.straight(),
        ruler.adds(plus),
        most >= 0,
        all_marked(ruler, v, most),
        most * v.len() <= ruler.limit,
        running(plus, v, parts),
        0 <= k <= v.len(),
    ensures
        ruler.reads(parts[k], units_of(ruler, v.subrange(0, k))),
    decreases k,
{
    let s = v.subrange(0, k);
    if k > 0 {
        lemma_running(ruler, plus, v, most, parts, k - 1);
        assert(s.drop_last() =~= v.subrange(0, k - 1));
        assert forall|i: int| 0 <= i < s.len() implies (ruler.marks)(#[trigger] s[i]) is Some
            && -most <= (ruler.marks)(s[i])->0 <= most by {
            assert(s[i] == v[i]);
        }
        lemma_units_bound(ruler, s, most);
        assert(most * k <= most * v.len()) by (nonlinear_arith)
            requires
                k <= v.len(),
                most >= 0,
        ;
        assert(plus.ensures((parts[k - 1], v[k - 1]), parts[k - 1 + 1]));
        assert((ruler.marks)(v[k - 1]) is Some);
        assert(ruler.reads(v[k - 1], (ruler.marks)(v[k - 1])->0));
    }
}

/// Those of the labels that are this one.
pub open spec fn labels_like(labels: Seq<Seq<char>>, label: Seq<char>) -> Seq<Seq<char>> {
    labels.filter(|l: Seq<char>| l == label)
}

/// The rows with the label, counted.
proof fn lemma_label_count_is(labels: Seq<Seq<char>>, label: Seq<char>, n: int)
    requires
        0 <= n <= labels.len(),
    ensures
        label_count(labels, label, n) == labels_like(labels.subrange(0, n), label).len(),
    decreases n,
{
    let f = |l: Seq<char>| l == label;
    let s = labels.subrange(0, n);
    reveal(Seq::filter);
    if n > 0 {
        lemma_label_count_is(labels, label, n - 1);
        assert(s.drop_last() =~= labels.subrange(0, n - 1));
    }
}

/// A bar counts the rows with its label. A bar of counts shows that count; one of sums
/// shows what the numbers beside the label add up to; one of means shows that sum shared
/// out among the rows. All where the arithmetic is exact.
pub proof fn a_bar_adds_up_what_stands_beside_its_label<
    A: Fn(F64, F64) -> F64,
    M: Fn(F64, u64) -> F64,
    C: Fn(u64) -> F64,
>(
    ruler: Ruler,
    bar: Category,
    labels: Seq<Seq<char>>,
    values: Seq<Option<F64>>,
    agg: Aggregate,
    plus: A,
    mean: M,
    number: C,
    most: int,
    share: int,
)
    requires
        ruler.straight(),
        ruler.adds(plus),
        ruler.shares(mean),
        ruler.counts(number),
        most >= 0,
        most * labels.len() <= ruler.limit,
        labels.len() <= ruler.limit,
        forall|i: int| #[trigger]
            beside(labels, values, bar.label@, i) ==> (ruler.marks)(values[i]->0) is Some && -most
                <= (ruler.marks)(values[i]->0)->0 <= most,
        bar_of(bar, labels, values, agg, plus, mean, number),
        agg is Mean ==> share * bar.count == units_beside(
            ruler,
            labels,
            values,
            bar.label@,
            labels.len() as int,
        ),
    ensures
        bar.count == labels_like(labels, bar.label@).len(),
        agg is Count ==> ruler.reads(bar.value, bar.count as int),
        agg is Sum ==> ruler.reads(
            bar.value,
            units_beside(ruler, labels, values, bar.label@, labels.len() as int),
        ),
        agg is Mean ==> ruler.reads(bar.value, share),
{
    let n = labels.len() as int;
    let v = label_numbers(labels, values, bar.label@, n);
    lemma_label_count_is(labels, bar.label@, n);
    assert(labels.subrange(0, n) =~= labels);
    lemma_units_beside(ruler, labels, values, bar.label@, n);
    assert forall|k: int| 0 <= k < v.len() implies (ruler.marks)(#[trigger] v[k]) is Some && -most
        <= (ruler.marks)(v[k])->0 <= most by {
        let i = lemma_number_of_label(labels, values, bar.label@, n, k);
        assert(beside(labels, values, bar.label@, i));
    }
    lemma_label_lengths(labels, values, bar.label@, n);
    assert(most * v.len() <= most * n) by (nonlinear_arith)
        requires
            v.len() <= n,
            most >= 0,
    ;
    match agg {
        Aggregate::Sum => {
            a_running_total_is_the_sum(ruler, plus, v, most, bar.value);
        },
        Aggregate::Mean => {
            let total = choose|total: F64| #[trigger]
                folded(plus, v, total) && mean.ensures((total, bar.count), bar.value);
            a_running_total_is_the_sum(ruler, plus, v, most, total);
            lemma_units_bound(ruler, v, most);
            assert(distinct(labels).contains(bar.label@));
            lemma_label_occurs(labels, bar.label@);
            assert(ruler.reads(total, share * bar.count));
        },
        _ => {},
    }
}

/// A label that is listed occurs.
proof fn lemma_label_occurs(labels: Seq<Seq<char>>, label: Seq<char>)
    requires
        distinct(labels).contains(label),
    ensures
        label_count(labels, label, labels.len() as int) > 0,
    decreases labels.len(),
{
    distinct_lists_each_text_once(labels);
    assert(labels.contains(label));
    let i = choose|i: int| 0 <= i < labels.len() && labels[i] == label;
    lemma_count_positive(labels, label, labels.len() as int, i);
}

proof fn lemma_count_positive(labels: Seq<Seq<char>>, label: Seq<char>, n: int, i: int)
    requires
        0 <= i < n <= labels.len(),
        labels[i] == label,
    ensures
        label_count(labels, label, n) > 0,
    decreases n,
{
    if i < n - 1 {
        lemma_count_positive(labels, label, n - 1, i);
    }
}

proof fn lemma_label_lengths(
    labels: Seq<Seq<char>>,
    values: Seq<Option<F64>>,
    label: Seq<char>,
    n: int,
)
    requires
        0 <= n,
    ensures
        label_numbers(labels, values, label, n).len() <= n,
    decreases n,
{
    if n > 0 {
        lemma_label_lengths(labels, values, label, n - 1);
    }
}

/// The units beside the label in the first `n` rows, a row without a number having none.
pub open spec fn units_beside(
    ruler: Ruler,
    labels: Seq<Seq<char>>,
    values: Seq<Option<F64>>,
    label: Seq<char>,
    n: int,
) -> int
    decreases n,
{
    if n <= 0 {
        0
    } else {
        units_beside(ruler, labels, values, label, n - 1) + if beside(labels, values, label, n - 1) {
            (ruler.marks)(values[n - 1]->0)->0
        } else {
            0
        }
    }
}

proof fn lemma_units_beside(
    ruler: Ruler,
    labels: Seq<Seq<char>>,
    values: Seq<Option<F64>>,
    label: Seq<char>,
    n: int,
)
    requires
        0 <= n <= labels.len(),
    ensures
        units_of(ruler, label_numbers(labels, values, label, n)) == units_beside(
            ruler,
            labels,
            values,
            label,
            n,
        ),
    decreases n,
{
    if n > 0 {
        lemma_units_beside(ruler, labels, values, label, n - 1);
        let before = label_numbers(labels, values, label, n - 1);
        if beside(labels, values, label, n - 1) {
            assert(before.push(values[n - 1]->0).drop_last() =~= before);
        }
    }
}

/// Bars stand from the largest value down, a value that is no number behind all that are,
/// and bars of equal value by their labels.
pub proof fn bars_stand_from_the_largest_down(bars: Seq<Category>, i: int, j: int)
    requires
        in_order(bars),
        0 <= i < j < bars.len(),
    ensures
        !bars[i].value.lt_spec(bars[j].value),
        bars[i].value.nan_spec() ==> bars[j].value.nan_spec(),
        bars[i].value.eq_num_spec(bars[j].value) ==> !text_before(
            bars[j].label@,
            bars[i].label@,
        ),
{
    let (a, b) = (bars[i], bars[j]);
    assert(!b.precedes(a));
}

/// The bounds of some numbers hold each of them and are two of them.
pub proof fn bounds_are_two_of_the_numbers(v: Seq<Option<F64>>, k: int)
    requires
        0 <= k < v.len(),
        drawable(v[k]),
    ensures
        exists|i: int| 0 <= i < v.len() && #[trigger] v[i] == Some(bounds_of(v).min) && drawable(v[i]),
        exists|i: int| 0 <= i < v.len() && #[trigger] v[i] == Some(bounds_of(v).max) && drawable(v[i]),
        !v[k]->0.lt_spec(bounds_of(v).min),
        !bounds_of(v).max.lt_spec(v[k]->0),
    decreases v.len(),
{
    let rest = v.drop_last();
    let b = bounds_of(rest);
    bounds_hold_every_finite_number(v, k);
    if exists|i: int| 0 <= i < rest.len() && drawable(#[trigger] rest[i]) {
        let i = choose|i: int| 0 <= i < rest.len() && drawable(#[trigger] rest[i]);
        bounds_are_two_of_the_numbers(rest, i);
        let lo = choose|i: int| 0 <= i < rest.len() && #[trigger] rest[i] == Some(b.min) && drawable(rest[i]);
        let hi = choose|i: int| 0 <= i < rest.len() && #[trigger] rest[i] == Some(b.max) && drawable(rest[i]);
        assert(v[lo] == rest[lo] && v[hi] == rest[hi]);
        if drawable(v.last()) {
            assert(v[v.len() - 1] == v.last());
        }
    } else {
        assert(k == v.len() - 1) by {
            if k < rest.len() {
                assert(rest[k] == v[k]);
            }
        }
        lemma_no_bounds(rest);
        assert(v[v.len() - 1] == v.last());
        let y = v.last()->0;
        assert(b.with(y).min == y && b.with(y).max == y);
    }
}

proof fn lemma_no_bounds(v: Seq<Option<F64>>)
    requires
        forall|i: int| 0 <= i < v.len() ==> !drawable(#[trigger] v[i]),
    ensures
        bounds_of(v) == Bounds::nowhere(),
    decreases v.len(),
{
    if v.len() > 0 {
        let rest = v.drop_last();
        assert forall|i: int| 0 <= i < rest.len() implies !drawable(#[trigger] rest[i]) by {
            assert(rest[i] == v[i]);
        }
        lemma_no_bounds(rest);
        assert(v.last() == v[v.len() - 1]);
    }
}

/// A chart shows finite numbers, truth as one and falsehood as zero; everything else is
/// a gap.
pub proof fn what_is_no_number_is_a_gap(v: Value)
    ensures
        v is Text || v is Error || v is Empty ==> numeric(v) is None,
        match v {
            Value::Number(x) => numeric(v) == if x.finite_spec() {
                Some(x)
            } else {
                None
            },
            _ => true,
        },
        // The bits of one.
        numeric(Value::Bool(true)) == Some(F64(0x3ff0_0000_0000_0000)),
        numeric(Value::Bool(false)) == Some(F64(0)),
{
}

/// The ranges of pairs hold both numbers of every row that has both, and each end of a
/// range is one of its own numbers.
pub proof fn the_ranges_of_pairs_hold_both_numbers(
    xs: Seq<Option<F64>>,
    ys: Seq<Option<F64>>,
    n: int,
    i: int,
)
    requires
        0 <= i < n,
        n <= xs.len() && n <= ys.len(),
        xs[i] is Some && xs[i]->0.finite_spec(),
        ys[i] is Some && ys[i]->0.finite_spec(),
    ensures
        pair_bounds_of(xs, ys, n).0.has(xs[i]->0),
        pair_bounds_of(xs, ys, n).1.has(ys[i]->0),
        exists|k: int|
            0 <= k < n && pair_drawable(xs, ys, k) && #[trigger] xs[k]->0 == pair_bounds_of(
                xs,
                ys,
                n,
            ).0.min,
        exists|k: int|
            0 <= k < n && pair_drawable(xs, ys, k) && #[trigger] xs[k]->0 == pair_bounds_of(
                xs,
                ys,
                n,
            ).0.max,
        exists|k: int|
            0 <= k < n && pair_drawable(xs, ys, k) && #[trigger] ys[k]->0 == pair_bounds_of(
                xs,
                ys,
                n,
            ).1.min,
        exists|k: int|
            0 <= k < n && pair_drawable(xs, ys, k) && #[trigger] ys[k]->0 == pair_bounds_of(
                xs,
                ys,
                n,
            ).1.max,
    decreases n,
{
    let b = pair_bounds_of(xs, ys, n);
    let was = pair_bounds_of(xs, ys, n - 1);
    if exists|j: int| 0 <= j < n - 1 && #[trigger] pair_drawable(xs, ys, j) {
        let j = choose|j: int| 0 <= j < n - 1 && #[trigger] pair_drawable(xs, ys, j);
        if i < n - 1 {
            the_ranges_of_pairs_hold_both_numbers(xs, ys, n - 1, i);
        }
        the_ranges_of_pairs_hold_both_numbers(xs, ys, n - 1, j);
        assert(xs[n - 1]->0 == xs[n - 1]->0 && ys[n - 1]->0 == ys[n - 1]->0);
    } else {
        assert(pair_drawable(xs, ys, i));
        assert(i == n - 1);
        lemma_no_pairs(xs, ys, n - 1);
        assert(b.0.min == xs[i]->0 && b.0.max == xs[i]->0);
        assert(b.1.min == ys[i]->0 && b.1.max == ys[i]->0);
    }
}

proof fn lemma_no_pairs(xs: Seq<Option<F64>>, ys: Seq<Option<F64>>, n: int)
    requires
        forall|j: int| 0 <= j < n ==> !#[trigger] pair_drawable(xs, ys, j),
    ensures
        pair_bounds_of(xs, ys, n) == (Bounds::nowhere(), Bounds::nowhere()),
    decreases n,
{
    if n > 0 {
        assert(!pair_drawable(xs, ys, n - 1));
        lemma_no_pairs(xs, ys, n - 1);
    }
}

} // verus!
