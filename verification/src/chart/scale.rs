//! What an axis comes to where its arithmetic is exact.
//!
//! A scale says what each number is worth in whole parts. Where the operations that an
//! axis needs give the worth that they should, bins are of one width and a number falls
//! into the bin that holds it.

use crate::chart::{clamped, grid_place, AxisOps, Bin, Bounds};
use crate::value::F64;
use vstd::prelude::*;

verus! {

/// One, and a tenth of it.
pub open spec fn one() -> F64 {
    F64(0x3ff0_0000_0000_0000)
}

pub open spec fn tenth() -> F64 {
    F64(0x3fb9_9999_9999_999a)
}

/// A worth without its sign.
pub open spec fn size(n: int) -> int {
    if n < 0 {
        -n
    } else {
        n
    }
}

/// A number is placed in the bin that holds it: so many bins of one width begin at or
/// before it, and the next one begins after it.
pub proof fn a_number_is_placed_in_the_bin_that_holds_it<
    P: Fn(F64, F64) -> F64,
    M: Fn(F64, F64) -> F64,
    T: Fn(F64, F64) -> F64,
    D: Fn(F64, F64) -> F64,
    N: Fn(u64) -> F64,
    W: Fn(F64) -> usize,
>(
    ops: AxisOps<P, M, T, D, N, W>,
    worth: spec_fn(F64) -> int,
    min: F64,
    span: F64,
    bins: usize,
    v: F64,
    p: usize,
)
    requires
        ops.places(min, span, bins, v, p),
        worth(one()) > 0,
        worth(span) > 0,
        forall|off: F64| #[trigger]
            ops.minus.ensures((v, min), off) ==> worth(off) == worth(v) - worth(min),
        forall|off: F64, part: F64| #[trigger]
            ops.over.ensures((off, span), part) ==> worth(part) * worth(span) == worth(off) * worth(
                one(),
            ),
        forall|part: F64, n: F64, at: F64|
            #![trigger ops.number.ensures((bins as u64,), n), ops.times.ensures((part, n), at)]
            ops.number.ensures((bins as u64,), n) && ops.times.ensures((part, n), at) ==> worth(at)
                == worth(part) * bins,
        forall|at: F64, p: usize| #[trigger]
            ops.whole.ensures((at,), p) && worth(at) >= 0 ==> p * worth(one()) <= worth(at) < (p
                + 1) * worth(one()),
        worth(v) >= worth(min),
    ensures
        p * worth(span) <= (worth(v) - worth(min)) * bins < (p + 1) * worth(span),
{
    let (off, part, n, at) = choose|off: F64, part: F64, n: F64, at: F64|
        {
            &&& #[trigger] ops.minus.ensures((v, min), off)
            &&& #[trigger] ops.over.ensures((off, span), part)
            &&& #[trigger] ops.number.ensures((bins as u64,), n)
            &&& #[trigger] ops.times.ensures((part, n), at)
            &&& ops.whole.ensures((at,), p)
        };
    let u = worth(one());
    let s = worth(span);
    let o = worth(off);
    let q = worth(part);
    let b = bins as int;
    assert(q * s == o * u);
    assert(worth(at) == q * b);
    assert(q >= 0) by (nonlinear_arith)
        requires
            q * s == o * u,
            s > 0,
            u > 0,
            o >= 0,
    ;
    assert(q * b >= 0) by (nonlinear_arith)
        requires
            q >= 0,
            b >= 0,
    ;
    assert(p * u <= q * b < (p + 1) * u);
    lemma_bin(p as int, u, q, b, s, o);
}

proof fn lemma_bin(p: int, u: int, q: int, b: int, s: int, o: int)
    requires
        u > 0,
        s > 0,
        q * s == o * u,
        p * u <= q * b < (p + 1) * u,
    ensures
        p * s <= o * b < (p + 1) * s,
{
    assert((q * b) * s == (o * b) * u) by (nonlinear_arith)
        requires
            q * s == o * u,
    ;
    assert((p * u) * s <= (q * b) * s) by (nonlinear_arith)
        requires
            p * u <= q * b,
            s > 0,
    ;
    assert((q * b) * s < ((p + 1) * u) * s) by (nonlinear_arith)
        requires
            q * b < (p + 1) * u,
            s > 0,
    ;
    assert((p * s) * u == (p * u) * s) by (nonlinear_arith);
    assert(((p + 1) * s) * u == ((p + 1) * u) * s) by (nonlinear_arith);
    assert(p * s <= o * b) by (nonlinear_arith)
        requires
            (p * s) * u <= (o * b) * u,
            u > 0,
    ;
    assert(o * b < (p + 1) * s) by (nonlinear_arith)
        requires
            (o * b) * u < ((p + 1) * s) * u,
            u > 0,
    ;
}

/// The bins stand side by side, each one width further on than the one before.
pub proof fn bins_are_of_one_width<
    P: Fn(F64, F64) -> F64,
    M: Fn(F64, F64) -> F64,
    T: Fn(F64, F64) -> F64,
    D: Fn(F64, F64) -> F64,
    N: Fn(u64) -> F64,
    W: Fn(F64) -> usize,
>(
    ops: AxisOps<P, M, T, D, N, W>,
    worth: spec_fn(F64) -> int,
    min: F64,
    width: F64,
    bars: Seq<Bin>,
    k: int,
)
    requires
        ops.barred(min, width, bars),
        0 <= k < bars.len() <= u64::MAX,
        forall|i: u64, n: F64, off: F64|
            #![trigger ops.number.ensures((i,), n), ops.times.ensures((width, n), off)]
            ops.number.ensures((i,), n) && ops.times.ensures((width, n), off) ==> worth(off)
                == worth(width) * i,
        forall|off: F64, e: F64| #[trigger]
            ops.plus.ensures((min, off), e) ==> worth(e) == worth(min) + worth(off),
    ensures
        worth(bars[k].lo) == worth(min) + k * worth(width),
        worth(bars[k].hi) == worth(min) + (k + 1) * worth(width),
        k + 1 < bars.len() ==> worth(bars[k + 1].lo) == worth(bars[k].hi),
{
    lemma_edge(ops, worth, min, width, k as u64, bars[k].lo);
    assert(ops.edges(min, width, (k + 1) as u64, bars[k].hi));
    lemma_edge(ops, worth, min, width, (k + 1) as u64, bars[k].hi);
    if k + 1 < bars.len() {
        assert(ops.edges(min, width, (k + 1) as u64, bars[k + 1].lo));
        lemma_edge(ops, worth, min, width, (k + 1) as u64, bars[k + 1].lo);
    }
}

proof fn lemma_edge<
    P: Fn(F64, F64) -> F64,
    M: Fn(F64, F64) -> F64,
    T: Fn(F64, F64) -> F64,
    D: Fn(F64, F64) -> F64,
    N: Fn(u64) -> F64,
    W: Fn(F64) -> usize,
>(
    ops: AxisOps<P, M, T, D, N, W>,
    worth: spec_fn(F64) -> int,
    min: F64,
    width: F64,
    i: u64,
    e: F64,
)
    requires
        ops.edges(min, width, i, e),
        forall|i: u64, n: F64, off: F64|
            #![trigger ops.number.ensures((i,), n), ops.times.ensures((width, n), off)]
            ops.number.ensures((i,), n) && ops.times.ensures((width, n), off) ==> worth(off)
                == worth(width) * i,
        forall|off: F64, e: F64| #[trigger]
            ops.plus.ensures((min, off), e) ==> worth(e) == worth(min) + worth(off),
    ensures
        worth(e) == worth(min) + i * worth(width),
{
    assert(worth(width) * i == i * worth(width)) by (nonlinear_arith);
}

/// A range is as wide as its numbers lie apart; one that is all one number reaches a
/// tenth of its size to either side of it, and one to either side of zero; where there
/// is nothing to show it runs from zero to one.
pub proof fn a_range_of_one_number_is_widened<
    P: Fn(F64, F64) -> F64,
    M: Fn(F64, F64) -> F64,
    T: Fn(F64, F64) -> F64,
    D: Fn(F64, F64) -> F64,
    N: Fn(u64) -> F64,
    W: Fn(F64) -> usize,
>(
    ops: AxisOps<P, M, T, D, N, W>,
    worth: spec_fn(F64) -> int,
    b: Bounds,
    span: F64,
    pad: F64,
    r: Bounds,
)
    requires
        ops.padded(b, span, pad, r),
        forall|d: F64| #[trigger]
            ops.minus.ensures((b.max, b.min), d) ==> worth(d) == worth(b.max) - worth(b.min)
                && d.finite_spec() && (worth(d) == 0 ==> d.rank() == 0) && (worth(d) >= worth(one())
                ==> d.rank() >= one().rank()),
        forall|d: F64| #[trigger]
            ops.minus.ensures((b.min, pad), d) ==> worth(d) == worth(b.min) - worth(pad),
        forall|d: F64| #[trigger]
            ops.plus.ensures((b.max, pad), d) ==> worth(d) == worth(b.max) + worth(pad),
        forall|d: F64| #[trigger]
            ops.times.ensures((F64(b.min.magnitude_spec() as u64), tenth()), d) ==> worth(d) * 10
                == size(worth(b.min)),
    ensures
        b.empty_spec() ==> r.min == F64(0) && r.max == one(),
        !b.empty_spec() && worth(b.max) - worth(b.min) >= worth(one()) > 0 ==> r == b,
        !b.empty_spec() && worth(b.max) == worth(b.min) && b.min.rank() == 0 ==> worth(r.min)
            == worth(b.min) - worth(one()) && worth(r.max) == worth(b.max) + worth(one()),
        !b.empty_spec() && worth(b.max) == worth(b.min) && (b.min.rank() >= one().rank()
            || b.min.rank() <= -one().rank()) ==> 10 * (worth(b.min) - worth(r.min)) == size(
            worth(b.min),
        ) && 10 * (worth(r.max) - worth(b.max)) == size(worth(b.min)),
{
    if !b.empty_spec() {
        assert(ops.minus.ensures((b.max, b.min), span));
        let u = F64(b.min.magnitude_spec() as u64);
        assert(u.finite_spec());
        assert(one().finite_spec());
    }
}

/// A pair is counted in the cell of its column and its row.
pub proof fn a_pair_is_counted_at_its_column_and_row(p: (usize, usize), x_bins: int, y_bins: int)
    requires
        0 < x_bins,
        0 < y_bins,
    ensures
        grid_place(p, x_bins, y_bins) % x_bins == if p.0 < x_bins {
            p.0 as int
        } else {
            x_bins - 1
        },
        grid_place(p, x_bins, y_bins) / x_bins == if p.1 < y_bins {
            p.1 as int
        } else {
            y_bins - 1
        },
{
    let x = clamped(p.0, x_bins);
    let y = clamped(p.1, y_bins);
    assert(y * x_bins + x == x_bins * y + x) by (nonlinear_arith);
    vstd::arithmetic::div_mod::lemma_fundamental_div_mod_converse(y * x_bins + x, x_bins, y, x);
}

} // verus!
