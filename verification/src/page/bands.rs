//! Cutting rows and columns into the bands that pages are made of.

use crate::page::{Points, DEFAULT_COL_WIDTH, DEFAULT_ROW_HEIGHT};
use crate::sizing::{
    height_at, lemma_covered, lemma_uncovered, ordered, ColSizes, ColSizesView, RowSizes, RowSpan,
};
use crate::value::F32;
use vstd::prelude::*;

verus! {

/// The arithmetic on lengths: sum, difference and quotient of two lengths, a length
/// so many times, how many whole times one length goes into another, a count as a
/// number.
pub struct Lengths<P, M, T, D, W, N> {
    pub plus: P,
    pub minus: M,
    pub times: T,
    pub divide: D,
    pub whole: W,
    pub number: N,
}

impl<
    P: Fn(F32, F32) -> F32,
    M: Fn(F32, F32) -> F32,
    T: Fn(F32, u64) -> F32,
    D: Fn(F32, F32) -> F32,
    W: Fn(F32, F32) -> u64,
    N: Fn(u64) -> F32,
> Lengths<P, M, T, D, W, N> {
    /// The operations can be applied to every length.
    pub open spec fn ready(&self) -> bool {
        &&& forall|x: F32, y: F32| #[trigger] self.plus.requires((x, y))
        &&& forall|x: F32, y: F32| #[trigger] self.minus.requires((x, y))
        &&& forall|x: F32, n: u64| #[trigger] self.times.requires((x, n))
        &&& forall|x: F32, y: F32| #[trigger] self.divide.requires((x, y))
        &&& forall|x: F32, y: F32| #[trigger] self.whole.requires((x, y))
        &&& forall|n: u64| #[trigger] self.number.requires((n,))
    }
}

// ------------------------------------------------------------------- runs --

/// A row of this height takes up space. Hidden rows have height zero.
pub open spec fn prints(h: Points) -> bool {
    h.nan_spec() || h.rank() > 0
}

fn has_height(h: Points) -> (b: bool)
    ensures
        b == prints(h),
{
    h.is_nan() || F32(0).less_than(h)
}

/// Consecutive rows that all have the same height.
#[derive(Clone, Copy, PartialEq, Eq, Debug, Structural)]
pub struct Run {
    pub first: u32,
    pub last: u32,
    pub height: Points,
}

impl Run {
    pub open spec fn has(self, row: int) -> bool {
        self.first <= row <= self.last
    }

    pub fn len(&self) -> (n: u64)
        requires
            self.first <= self.last,
        ensures
            n == self.last - self.first + 1,
    {
        self.last as u64 - self.first as u64 + 1
    }
}

pub open spec fn in_run(runs: Seq<Run>, row: int) -> bool {
    exists|i: int| 0 <= i < runs.len() && (#[trigger] runs[i]).has(row)
}

/// The rows from `first` up to, not counting, `end`, as runs: the rows that print,
/// each with its height, in runs as long as can be.
pub open spec fn runs_of(
    spans: Seq<RowSpan>,
    first: int,
    end: int,
    default: Points,
    runs: Seq<Run>,
) -> bool {
    &&& forall|i: int|
        0 <= i < runs.len() ==> first <= (#[trigger] runs[i]).first <= runs[i].last < end
    &&& forall|i: int, j: int|
        0 <= i < j < runs.len() ==> (#[trigger] runs[i]).last < (#[trigger] runs[j]).first
    &&& forall|i: int| 0 <= i < runs.len() ==> prints((#[trigger] runs[i]).height)
    &&& forall|i: int, row: int|
        0 <= i < runs.len() && (#[trigger] runs[i]).has(row) ==> (#[trigger] height_at(
            spans,
            row,
            default,
        )) == runs[i].height
    &&& forall|row: int|
        first <= row < end && prints(#[trigger] height_at(spans, row, default)) ==> in_run(runs, row)
    &&& forall|i: int|
        0 <= i < runs.len() - 1 ==> !((#[trigger] runs[i]).last + 1 == runs[i + 1].first
            && runs[i].height.eq_num_spec(runs[i + 1].height))
}

/// Add the rows `a..=b`, which all have the height `h`.
fn push_run(
    runs: &mut Vec<Run>,
    a: u32,
    b: u32,
    h: Points,
    Ghost(spans): Ghost<Seq<RowSpan>>,
    Ghost(first): Ghost<int>,
    Ghost(default): Ghost<Points>,
)
    requires
        runs_of(spans, first, a as int, default, old(runs)@),
        first <= a <= b,
        forall|row: int| a <= row <= b ==> #[trigger] height_at(spans, row, default) == h,
    ensures
        runs_of(spans, first, b + 1, default, final(runs)@),
{
    let ghost was = runs@;
    if !has_height(h) {
        return;
    }
    let n: usize = runs.len();
    let mut joined = false;
    if n > 0 {
        let prev = runs[n - 1];
        assert(prev.last < a);
        if prev.height.num_eq(h) && prev.last + 1 == a {
            assert(prev.height == h);
            runs.set(n - 1, Run { first: prev.first, last: b, height: prev.height });
            joined = true;
        }
    }
    if !joined {
        runs.push(Run { first: a, last: b, height: h });
    }
    proof {
        let now = runs@;
        assert forall|row: int|
            first <= row < b + 1 && prints(#[trigger] height_at(spans, row, default)) implies in_run(
            now,
            row,
        ) by {
            if row < a {
                assert(in_run(was, row));
                let i = choose|i: int| 0 <= i < was.len() && (#[trigger] was[i]).has(row);
                assert(now[i].has(row));
            } else {
                assert(now[now.len() - 1].has(row));
            }
        }
        assert forall|i: int| 0 <= i < now.len() - 1 implies !((#[trigger] now[i]).last + 1
            == now[i + 1].first && now[i].height.eq_num_spec(now[i + 1].height)) by {
            if i < was.len() - 1 {
                assert(!(was[i].last + 1 == was[i + 1].first && was[i].height.eq_num_spec(
                    was[i + 1].height,
                )));
            }
        }
    }
}

/// Walk `first..=last` as runs of one height. The number of runs grows with the
/// sized spans and not with the rows.
pub fn runs_in(sizes: &RowSizes, first: u32, last: u32, default: Points) -> (runs: Vec<Run>)
    requires
        ordered(sizes@),
        first <= last,
    ensures
        runs_of(sizes@, first as int, last + 1, default, runs@),
{
    let mut runs: Vec<Run> = Vec::new();
    let spans = sizes.spans();
    let n: usize = spans.len();
    let ghost sp = spans@;
    let mut cursor: u32 = first;
    let mut i: usize = 0;
    let mut stop = false;
    while i < n && !stop
        invariant
            sp == spans@,
            sp == sizes@,
            ordered(sp),
            i <= n == sp.len(),
            first <= last,
            first <= cursor,
            cursor <= last,
            cursor == first || (i > 0 && cursor == sp[i - 1].last + 1),
            runs_of(sp, first as int, cursor as int, default, runs@),
            forall|k: int| 0 <= k < i && !stop ==> (#[trigger] sp[k]).last < cursor,
            stop ==> forall|k: int| 0 <= k < n ==> (#[trigger] sp[k]).last < cursor || sp[k].first > last,
        decreases n - i, (if stop { 0int } else { 1 }),
    {
        let s = spans[i];
        assert(s.first <= s.last);
        if s.last < first {
            i = i + 1;
        } else if s.first > last {
            proof {
                assert forall|k: int| 0 <= k < n implies (#[trigger] sp[k]).last < cursor
                    || sp[k].first > last by {
                    if k > i {
                        assert(sp[i as int].last < sp[k].first);
                    }
                }
            }
            stop = true;
        } else {
            let a: u32 = if s.first > first {
                s.first
            } else {
                first
            };
            let b: u32 = if s.last < last {
                s.last
            } else {
                last
            };
            proof {
                if i > 0 {
                    assert(sp[i - 1].last < sp[i as int].first);
                }
            }
            if cursor < a {
                proof {
                    assert forall|row: int| cursor <= row <= a - 1 implies #[trigger] height_at(
                        sp,
                        row,
                        default,
                    ) == default by {
                        assert forall|k: int| 0 <= k < sp.len() implies !(#[trigger] sp[k]).covers(
                            row,
                        ) by {
                            if k > i {
                                assert(sp[i as int].last < sp[k].first);
                            }
                        }
                        lemma_uncovered(sp, row);
                    }
                }
                push_run(
                    &mut runs,
                    cursor,
                    a - 1,
                    default,
                    Ghost(sp),
                    Ghost(first as int),
                    Ghost(default),
                );
            }
            proof {
                assert forall|row: int| a <= row <= b implies #[trigger] height_at(sp, row, default)
                    == s.height by {
                    lemma_covered(sp, i as int, row);
                }
                assert(runs_of(sp, first as int, a as int, default, runs@));
            }
            push_run(
                &mut runs,
                a,
                b,
                s.height,
                Ghost(sp),
                Ghost(first as int),
                Ghost(default),
            );
            if b == last {
                return runs;
            }
            cursor = b + 1;
            i = i + 1;
        }
    }
    proof {
        assert forall|row: int| cursor <= row <= last implies #[trigger] height_at(
            sp,
            row,
            default,
        ) == default by {
            assert forall|k: int| 0 <= k < sp.len() implies !(#[trigger] sp[k]).covers(row) by {}
            lemma_uncovered(sp, row);
        }
    }
    push_run(&mut runs, cursor, last, default, Ghost(sp), Ghost(first as int), Ghost(default));
    runs
}

// --------------------------------------------------------------- segments --

/// Part of a run that holds no manual break but, maybe, before its first row.
#[derive(Clone, Copy, PartialEq, Eq, Debug, Structural)]
pub struct Segment {
    pub first: u32,
    pub last: u32,
    pub height: Points,
    /// A manual break falls before the first row.
    pub forced: bool,
}

pub open spec fn in_segment(segs: Seq<Segment>, row: int) -> bool {
    exists|k: int| 0 <= k < segs.len() && (#[trigger] segs[k]).first <= row <= segs[k].last
}

/// The segment is part of a run.
pub open spec fn part_of(runs: Seq<Run>, s: Segment) -> bool {
    exists|i: int|
        0 <= i < runs.len() && (#[trigger] runs[i]).first <= s.first && s.last <= runs[i].last
            && s.height == runs[i].height
}

pub open spec fn begins_run(runs: Seq<Run>, row: int) -> bool {
    exists|i: int| 0 <= i < runs.len() && (#[trigger] runs[i]).first == row
}

/// The runs cut before every manual break, and nowhere else.
pub open spec fn cut_of(runs: Seq<Run>, breaks: Seq<u32>, segs: Seq<Segment>) -> bool {
    &&& forall|k: int| 0 <= k < segs.len() ==> (#[trigger] segs[k]).first <= segs[k].last
    &&& forall|j: int, k: int|
        0 <= j < k < segs.len() ==> (#[trigger] segs[j]).last < (#[trigger] segs[k]).first
    &&& forall|k: int| 0 <= k < segs.len() ==> part_of(runs, #[trigger] segs[k])
    &&& forall|k: int, b: u32|
        0 <= k < segs.len() && #[trigger] breaks.contains(b) ==> !((#[trigger] segs[k]).first < b
            <= segs[k].last)
    &&& forall|k: int|
        0 <= k < segs.len() ==> (#[trigger] segs[k]).forced == (k > 0 && breaks.contains(
            segs[k].first,
        ))
    &&& forall|k: int|
        0 <= k < segs.len() ==> (#[trigger] segs[k]).forced || begins_run(
            runs,
            segs[k].first as int,
        )
    &&& forall|i: int, row: int|
        0 <= i < runs.len() && #[trigger] runs[i].has(row) ==> in_segment(segs, row)
    &&& runs.len() > 0 ==> segs.len() > 0 && segs[0].first == runs[0].first && segs.last().last
        == runs.last().last
}

/// The first manual break behind `row` and no later than `last`.
fn next_break(breaks: &Vec<u32>, row: u32, last: u32) -> (r: Option<u32>)
    ensures
        match r {
            Some(b) => row < b <= last && breaks@.contains(b) && forall|c: u32| #[trigger]
                breaks@.contains(c) && row < c ==> b <= c,
            None => forall|c: u32| #[trigger] breaks@.contains(c) ==> !(row < c <= last),
        },
{
    let mut best: Option<u32> = None;
    let n: usize = breaks.len();
    let mut i: usize = 0;
    while i < n
        invariant
            i <= n == breaks@.len(),
            match best {
                Some(b) => row < b <= last && breaks@.contains(b) && forall|k: int|
                    0 <= k < i && row < #[trigger] breaks@[k] ==> b <= breaks@[k],
                None => forall|k: int| 0 <= k < i ==> !(row < #[trigger] breaks@[k] <= last),
            },
        decreases n - i,
    {
        let b: u32 = breaks[i];
        assert(breaks@.contains(breaks@[i as int]));
        if row < b && b <= last {
            match best {
                Some(c) => {
                    if b < c {
                        best = Some(b);
                    }
                },
                None => {
                    best = Some(b);
                },
            }
        }
        i = i + 1;
    }
    proof {
        assert forall|c: u32| #[trigger] breaks@.contains(c) && row < c && best is Some implies best->0
            <= c by {
            let k = choose|k: int| 0 <= k < breaks@.len() && breaks@[k] == c;
            assert(breaks@[k] == c);
        }
    }
    best
}

fn is_break(breaks: &Vec<u32>, row: u32) -> (b: bool)
    ensures
        b == breaks@.contains(row),
{
    let n: usize = breaks.len();
    let mut i: usize = 0;
    while i < n
        invariant
            i <= n == breaks@.len(),
            forall|k: int| 0 <= k < i ==> breaks@[k] != row,
        decreases n - i,
    {
        if breaks[i] == row {
            return true;
        }
        i = i + 1;
    }
    false
}

/// What holds of the segments of the first runs, up to but not counting row `end`.
spec fn cut_upto(runs: Seq<Run>, breaks: Seq<u32>, segs: Seq<Segment>, end: int) -> bool {
    &&& forall|k: int| 0 <= k < segs.len() ==> (#[trigger] segs[k]).first <= segs[k].last < end
    &&& forall|j: int, k: int|
        0 <= j < k < segs.len() ==> (#[trigger] segs[j]).last < (#[trigger] segs[k]).first
    &&& forall|k: int| 0 <= k < segs.len() ==> part_of(runs, #[trigger] segs[k])
    &&& forall|k: int, b: u32|
        0 <= k < segs.len() && #[trigger] breaks.contains(b) ==> !((#[trigger] segs[k]).first < b
            <= segs[k].last)
    &&& forall|k: int|
        0 <= k < segs.len() ==> (#[trigger] segs[k]).forced == (k > 0 && breaks.contains(
            segs[k].first,
        ))
    &&& forall|k: int|
        0 <= k < segs.len() ==> (#[trigger] segs[k]).forced || begins_run(
            runs,
            segs[k].first as int,
        )
    &&& forall|i: int, row: int|
        0 <= i < runs.len() && row < end && #[trigger] runs[i].has(row) ==> in_segment(segs, row)
}

/// One segment more keeps what holds of the segments.
proof fn lemma_one_segment(
    runs: Seq<Run>,
    breaks: Seq<u32>,
    segs: Seq<Segment>,
    end: int,
    s: Segment,
)
    requires
        cut_upto(runs, breaks, segs, end),
        end <= s.first <= s.last,
        part_of(runs, s),
        forall|b: u32| #[trigger] breaks.contains(b) ==> !(s.first < b <= s.last),
        s.forced == (segs.len() > 0 && breaks.contains(s.first)),
        s.forced || begins_run(runs, s.first as int),
        forall|i: int, row: int|
            0 <= i < runs.len() && end <= row < s.first ==> !(#[trigger] runs[i].has(row)),
    ensures
        cut_upto(runs, breaks, segs.push(s), s.last + 1),
{
    let now = segs.push(s);
    assert forall|i: int, row: int|
        0 <= i < runs.len() && row < s.last + 1 && #[trigger] runs[i].has(row) implies in_segment(
        now,
        row,
    ) by {
        if row < end {
            assert(in_segment(segs, row));
            let k = choose|k: int|
                0 <= k < segs.len() && (#[trigger] segs[k]).first <= row <= segs[k].last;
            assert(now[k].first <= row <= now[k].last);
        } else {
            assert(now[now.len() - 1] == s);
            assert(row >= s.first) by {
                if row < s.first {
                    assert(!runs[i].has(row));
                }
            }
        }
    }
    assert forall|k: int| 0 <= k < now.len() implies part_of(runs, #[trigger] now[k]) by {
        if k < segs.len() {
            assert(part_of(runs, segs[k]));
        }
    }
    assert forall|k: int| 0 <= k < now.len() implies (#[trigger] now[k]).forced || begins_run(
        runs,
        now[k].first as int,
    ) by {
        if k < segs.len() {
            assert(segs[k].forced || begins_run(runs, segs[k].first as int));
        }
    }
}

/// Cut the runs before every manual break.
fn cut_runs(runs: &Vec<Run>, breaks: &Vec<u32>) -> (segs: Vec<Segment>)
    requires
        forall|i: int| 0 <= i < runs@.len() ==> (#[trigger] runs@[i]).first <= runs@[i].last,
        forall|i: int, j: int|
            0 <= i < j < runs@.len() ==> (#[trigger] runs@[i]).last < (#[trigger] runs@[j]).first,
    ensures
        cut_of(runs@, breaks@, segs@),
{
    let mut segs: Vec<Segment> = Vec::new();
    let n: usize = runs.len();
    let ghost mut end: int = 0;
    let mut i: usize = 0;
    while i < n
        invariant
            i <= n == runs@.len(),
            forall|i: int| 0 <= i < runs@.len() ==> (#[trigger] runs@[i]).first <= runs@[i].last,
            forall|i: int, j: int|
                0 <= i < j < runs@.len() ==> (#[trigger] runs@[i]).last < (
                #[trigger] runs@[j]).first,
            cut_upto(runs@, breaks@, segs@, end),
            i == 0 ==> end == 0 && segs@.len() == 0,
            i > 0 ==> end == runs@[i - 1].last + 1 && segs@.len() > 0 && segs@[0].first
                == runs@[0].first && segs@.last().last == runs@[i - 1].last,
        decreases n - i,
    {
        let run = runs[i];
        let mut row: u32 = run.first;
        let mut forced = segs.len() > 0 && is_break(breaks, row);
        let mut open = true;
        proof {
            if i > 0 {
                assert(runs@[i - 1].last < runs@[i as int].first);
            }
            assert forall|j: int, r: int|
                0 <= j < runs@.len() && end <= r < run.first implies !(#[trigger] runs@[j].has(
                r,
            )) by {
                if j < i {
                    if j < i - 1 {
                        assert(runs@[j].last < runs@[i - 1].first);
                    }
                } else if j > i {
                    assert(runs@[i as int].last < runs@[j].first);
                }
            }
        }
        while open
            invariant
                i < n == runs@.len(),
                run == runs@[i as int],
                run.first <= row <= run.last || !open,
                cut_upto(runs@, breaks@, segs@, end),
                open ==> end <= row,
                forced == (segs@.len() > 0 && breaks@.contains(row)) || !open,
                forced || row == run.first || !open,
                forall|j: int, r: int|
                    0 <= j < runs@.len() && open && end <= r < row ==> !(#[trigger] runs@[j].has(r)),
                !open ==> end == run.last + 1 && segs@.len() > 0 && segs@.last().last == run.last,
                segs@.len() > 0 ==> segs@[0].first == runs@[0].first,
                segs@.len() == 0 ==> i == 0 && row == run.first,
            decreases run.last - row + if open { 1int } else { 0 },
        {
            let stop = next_break(breaks, row, run.last);
            let last: u32 = match stop {
                Some(b) => b - 1,
                None => run.last,
            };
            let s = Segment { first: row, last, height: run.height, forced };
            proof {
                assert(runs@[i as int].first <= s.first && s.last <= runs@[i as int].last);
                assert(part_of(runs@, s));
                if !forced {
                    assert(runs@[i as int].first == s.first);
                    assert(begins_run(runs@, s.first as int));
                }
                lemma_one_segment(runs@, breaks@, segs@, end, s);
                end = s.last + 1;
            }
            segs.push(s);
            match stop {
                Some(b) => {
                    row = b;
                    forced = true;
                },
                None => {
                    open = false;
                },
            }
        }
        i = i + 1;
    }
    segs
}

// -------------------------------------------------------------- row bands --

/// How far the rows have been laid out: the row `cursor` of the segment `seg` comes
/// next, the open page began with the row `start` and is filled up to `used`.
#[verifier::ext_equal]
pub ghost struct Filling {
    pub seg: int,
    pub cursor: int,
    pub bands: Seq<(u32, u32)>,
    pub start: int,
    pub used: Points,
}

impl Filling {
    pub open spec fn at_first(segs: Seq<Segment>) -> Filling {
        Filling {
            seg: 0,
            cursor: segs[0].first as int,
            bands: Seq::empty(),
            start: segs[0].first as int,
            used: F32(0),
        }
    }

    /// The page closed behind row `last`.
    pub open spec fn closed(self, last: int) -> Filling {
        Filling {
            bands: self.bands.push((self.start as u32, last as u32)),
            start: last + 1,
            used: F32(0),
            ..self
        }
    }
}

/// The numbers met in one step: the space left, the rows that fit it, the length of
/// those taken and the space then used.
pub ghost struct Fit {
    pub remaining: Points,
    pub fits: u64,
    pub length: Points,
    pub used: Points,
}

impl<
    P: Fn(F32, F32) -> F32,
    M: Fn(F32, F32) -> F32,
    T: Fn(F32, u64) -> F32,
    D: Fn(F32, F32) -> F32,
    W: Fn(F32, F32) -> u64,
    N: Fn(u64) -> F32,
> Lengths<P, M, T, D, W, N> {
    /// One step: as many rows of the segment as fit the page, or a page closed, or
    /// the next segment begun.
    pub open spec fn fills(
        &self,
        cap: Points,
        segs: Seq<Segment>,
        a: Filling,
        w: Fit,
        b: Filling,
    ) -> bool {
        let s = segs[a.seg];
        if a.cursor <= s.last {
            &&& self.minus.ensures((cap, a.used), w.remaining)
            &&& if w.remaining.lt_spec(s.height) {
                w.fits == 0
            } else {
                self.whole.ensures((w.remaining, s.height), w.fits)
            }
            &&& if w.fits == 0 {
                if a.used.rank() == 0 {
                    // Taller than a whole page: a page of its own.
                    b == Filling { cursor: a.cursor + 1, used: a.used, ..a.closed(a.cursor) }
                } else {
                    b == a.closed(a.cursor - 1)
                }
            } else {
                let left = s.last - a.cursor + 1;
                let take = if w.fits < left {
                    w.fits as int
                } else {
                    left
                };
                let next = a.cursor + take;
                &&& self.times.ensures((s.height, take as u64), w.length)
                &&& self.plus.ensures((a.used, w.length), w.used)
                &&& b == if take == w.fits && next <= s.last {
                    Filling { cursor: next, ..a.closed(next - 1) }
                } else {
                    Filling { cursor: next, used: w.used, ..a }
                }
            }
        } else {
            &&& a.seg + 1 < segs.len()
            &&& {
                let t = segs[a.seg + 1];
                b == if t.forced && a.start < t.first {
                    Filling { seg: a.seg + 1, cursor: t.first as int, ..a.closed(t.first - 1) }
                } else {
                    Filling { seg: a.seg + 1, cursor: t.first as int, ..a }
                }
            }
        }
    }

    /// `states` lead from the first row on, step by step.
    pub open spec fn laid_out(
        &self,
        cap: Points,
        segs: Seq<Segment>,
        states: Seq<Filling>,
        ways: Seq<Fit>,
    ) -> bool {
        &&& states.len() == ways.len() + 1
        &&& states[0] == Filling::at_first(segs)
        &&& forall|i: int|
            0 <= i < ways.len() ==> self.fills(
                cap,
                segs,
                states[i],
                #[trigger] ways[i],
                states[i + 1],
            )
    }

    /// `bands` are what laying out the segments gives.
    pub open spec fn filled(&self, cap: Points, segs: Seq<Segment>, bands: Seq<(u32, u32)>) -> bool {
        exists|states: Seq<Filling>, ways: Seq<Fit>|
            {
                let end = states.last();
                &&& #[trigger] self.laid_out(cap, segs, states, ways)
                &&& end.seg == segs.len() - 1
                &&& end.cursor > segs.last().last
                &&& bands == if end.start <= segs.last().last {
                    end.bands.push((end.start as u32, segs.last().last))
                } else {
                    end.bands
                }
            }
    }

    /// The rows `rows.0..=rows.1` in bands that each fit `cap`.
    pub open spec fn rows_banded(
        &self,
        spans: Seq<RowSpan>,
        rows: (u32, u32),
        cap: Points,
        breaks: Seq<u32>,
        bands: Seq<(u32, u32)>,
    ) -> bool {
        if rows.0 > rows.1 {
            bands == seq![(rows.0, rows.0)]
        } else {
            exists|runs: Seq<Run>, segs: Seq<Segment>|
                {
                    &&& #[trigger] runs_of(
                        spans,
                        rows.0 as int,
                        rows.1 + 1,
                        F32(DEFAULT_ROW_HEIGHT),
                        runs,
                    )
                    &&& #[trigger] cut_of(runs, breaks, segs)
                    &&& if runs.len() == 0 {
                        bands == seq![(rows.0, rows.1)]
                    } else {
                        self.filled(cap, segs, bands)
                    }
                }
        }
    }
}

/// Bands that follow one another without a gap, from `from` up to, not counting, `to`.
pub open spec fn in_a_row(bands: Seq<(u32, u32)>, from: int, to: int) -> bool {
    &&& forall|i: int| 0 <= i < bands.len() ==> (#[trigger] bands[i]).0 <= bands[i].1
    &&& forall|i: int| 0 <= i < bands.len() - 1 ==> (#[trigger] bands[i]).1 + 1 == bands[i + 1].0
    &&& if bands.len() == 0 {
        from == to
    } else {
        bands[0].0 == from && bands.last().1 + 1 == to
    }
}

pub open spec fn in_band(bands: Seq<(u32, u32)>, row: int) -> bool {
    exists|i: int| 0 <= i < bands.len() && (#[trigger] bands[i]).0 <= row <= bands[i].1
}

pub open spec fn begins_band(bands: Seq<(u32, u32)>, row: int) -> bool {
    exists|i: int| 0 <= i < bands.len() && (#[trigger] bands[i]).0 == row
}

/// Bands without a gap hold every row between their ends, once.
pub proof fn lemma_in_a_row(bands: Seq<(u32, u32)>, from: int, to: int, row: int)
    requires
        in_a_row(bands, from, to),
        from <= row < to,
    ensures
        in_band(bands, row),
    decreases bands.len(),
{
    let last = bands.len() - 1;
    if bands[last].0 <= row {
        assert(bands[last].0 <= row <= bands[last].1);
    } else {
        let rest = bands.drop_last();
        assert(bands[last - 1].1 + 1 == bands[last].0) by {
            if last == 0 {
                assert(bands[0].0 == from);
            }
        }
        assert forall|i: int| 0 <= i < rest.len() - 1 implies (#[trigger] rest[i]).1 + 1 == rest[i
            + 1].0 by {
            assert(bands[i].1 + 1 == bands[i + 1].0);
        }
        lemma_in_a_row(rest, from, bands[last].0 as int, row);
        let i = choose|i: int| 0 <= i < rest.len() && (#[trigger] rest[i]).0 <= row <= rest[i].1;
        assert(bands[i].0 <= row <= bands[i].1);
    }
}

/// Bands without a gap are in ascending order.
pub proof fn lemma_bands_ascend(bands: Seq<(u32, u32)>, from: int, to: int, i: int, j: int)
    requires
        in_a_row(bands, from, to),
        0 <= i < j < bands.len(),
    ensures
        bands[i].1 < bands[j].0,
    decreases j - i,
{
    if i + 1 < j {
        lemma_bands_ascend(bands, from, to, i + 1, j);
        assert(bands[i].1 + 1 == bands[i + 1].0);
        assert(bands[i + 1].0 <= bands[i + 1].1);
    } else {
        assert(bands[i].1 + 1 == bands[i + 1].0);
    }
}

proof fn lemma_close(bands: Seq<(u32, u32)>, from: int, start: int, last: int)
    requires
        in_a_row(bands, from, start),
        0 <= start <= last <= u32::MAX,
    ensures
        in_a_row(bands.push((start as u32, last as u32)), from, last + 1),
        forall|row: int|
            begins_band(bands, row) || row == start ==> #[trigger] begins_band(
                bands.push((start as u32, last as u32)),
                row,
            ),
{
    let now = bands.push((start as u32, last as u32));
    assert forall|row: int| begins_band(bands, row) || row == start implies #[trigger] begins_band(
        now,
        row,
    ) by {
        if begins_band(bands, row) {
            let i = choose|i: int| 0 <= i < bands.len() && (#[trigger] bands[i]).0 == row;
            assert(now[i].0 == row);
        } else {
            assert(now[bands.len() as int].0 == row);
        }
    }
    assert forall|i: int| 0 <= i < now.len() - 1 implies (#[trigger] now[i]).1 + 1 == now[i
        + 1].0 by {
        if i < bands.len() - 1 {
            assert(bands[i].1 + 1 == bands[i + 1].0);
        }
    }
}

proof fn lemma_fills_more<
    P: Fn(F32, F32) -> F32,
    M: Fn(F32, F32) -> F32,
    T: Fn(F32, u64) -> F32,
    D: Fn(F32, F32) -> F32,
    W: Fn(F32, F32) -> u64,
    N: Fn(u64) -> F32,
>(
    ops: Lengths<P, M, T, D, W, N>,
    cap: Points,
    segs: Seq<Segment>,
    states: Seq<Filling>,
    ways: Seq<Fit>,
    w: Fit,
    b: Filling,
)
    requires
        ops.laid_out(cap, segs, states, ways),
        ops.fills(cap, segs, states.last(), w, b),
    ensures
        ops.laid_out(cap, segs, states.push(b), ways.push(w)),
{
    let more = states.push(b);
    let further = ways.push(w);
    assert forall|i: int| 0 <= i < further.len() implies ops.fills(
        cap,
        segs,
        more[i],
        #[trigger] further[i],
        more[i + 1],
    ) by {
        if i < ways.len() {
            assert(ops.fills(cap, segs, states[i], ways[i], states[i + 1]));
        }
    }
}

/// Lay out segments: fill the open page, close it when the next row does not fit,
/// and jump over as many rows as one division says.
fn fill_pages<
    P: Fn(F32, F32) -> F32,
    M: Fn(F32, F32) -> F32,
    T: Fn(F32, u64) -> F32,
    D: Fn(F32, F32) -> F32,
    W: Fn(F32, F32) -> u64,
    N: Fn(u64) -> F32,
>(segs: &Vec<Segment>, cap: Points, ops: &Lengths<P, M, T, D, W, N>) -> (bands: Vec<(u32, u32)>)
    requires
        ops.ready(),
        segs@.len() > 0,
        forall|k: int|
            0 <= k < segs@.len() ==> (#[trigger] segs@[k]).first <= segs@[k].last < u32::MAX,
        forall|j: int, k: int|
            0 <= j < k < segs@.len() ==> (#[trigger] segs@[j]).last < (#[trigger] segs@[k]).first,
    ensures
        ops.filled(cap, segs@, bands@),
        in_a_row(bands@, segs@[0].first as int, segs@.last().last + 1),
        forall|k: int|
            0 <= k < segs@.len() && (#[trigger] segs@[k]).forced ==> begins_band(
                bands@,
                segs@[k].first as int,
            ),
{
    let n: usize = segs.len();
    let mut bands: Vec<(u32, u32)> = Vec::new();
    let mut band_start: u32 = segs[0].first;
    let mut used: Points = F32(0);
    let ghost sg = segs@;
    let ghost from = segs@[0].first as int;
    let ghost mut states: Seq<Filling> = seq![Filling::at_first(sg)];
    let ghost mut ways: Seq<Fit> = Seq::empty();
    let mut cursor: u32 = segs[0].first;
    let mut k: usize = 0;
    let mut more = true;
    while more
        invariant
            ops.ready(),
            sg == segs@,
            k < n == sg.len(),
            from == sg[0].first,
            forall|k: int|
                0 <= k < sg.len() ==> (#[trigger] sg[k]).first <= sg[k].last < u32::MAX,
            forall|j: int, k: int|
                0 <= j < k < sg.len() ==> (#[trigger] sg[j]).last < (#[trigger] sg[k]).first,
            ops.laid_out(cap, sg, states, ways),
            states.last() == (Filling {
                seg: k as int,
                cursor: cursor as int,
                bands: bands@,
                start: band_start as int,
                used,
            }),
            in_a_row(bands@, from, band_start as int),
            band_start <= cursor,
            sg[k as int].first <= cursor,
            used.rank() != 0 ==> band_start < cursor,
            forall|j: int|
                0 <= j <= k && (#[trigger] sg[j]).forced ==> begins_band(
                    bands@,
                    sg[j].first as int,
                ) || sg[j].first == band_start,
            more ==> cursor <= sg[k as int].last,
            !more ==> k == n - 1 && cursor == sg[k as int].last + 1,
        decreases n - k, (if more { 1int } else { 0 }),
    {
        let seg = segs[k];
        while cursor <= seg.last
            invariant
                ops.ready(),
                sg == segs@,
                k < n == sg.len(),
                from == sg[0].first,
                seg == sg[k as int],
                seg.last < u32::MAX,
                ops.laid_out(cap, sg, states, ways),
                states.last() == (Filling {
                    seg: k as int,
                    cursor: cursor as int,
                    bands: bands@,
                    start: band_start as int,
                    used,
                }),
                in_a_row(bands@, from, band_start as int),
                band_start <= cursor,
                seg.first <= cursor <= seg.last + 1,
                used.rank() != 0 ==> band_start < cursor,
                forall|j: int|
                    0 <= j <= k && (#[trigger] sg[j]).forced ==> begins_band(
                        bands@,
                        sg[j].first as int,
                    ) || sg[j].first == band_start,
            decreases seg.last - cursor + 1, (if used.rank() == 0 { 0int } else { 1 }),
        {
            let ghost a = states.last();
            let remaining = (ops.minus)(cap, used);
            let fits: u64 = if remaining.less_than(seg.height) {
                0
            } else {
                (ops.whole)(remaining, seg.height)
            };
            if fits == 0 {
                if used.is_zero() {
                    proof {
                        lemma_close(bands@, from, band_start as int, cursor as int);
                        let w = Fit { remaining, fits, length: used, used };
                        let b = Filling { cursor: a.cursor + 1, used: a.used, ..a.closed(a.cursor) };
                        lemma_fills_more(*ops, cap, sg, states, ways, w, b);
                        states = states.push(b);
                        ways = ways.push(w);
                    }
                    bands.push((band_start, cursor));
                    cursor = cursor + 1;
                    band_start = cursor;
                } else {
                    proof {
                        lemma_close(bands@, from, band_start as int, cursor - 1);
                        let w = Fit { remaining, fits, length: used, used };
                        let b = a.closed(a.cursor - 1);
                        lemma_fills_more(*ops, cap, sg, states, ways, w, b);
                        states = states.push(b);
                        ways = ways.push(w);
                    }
                    bands.push((band_start, cursor - 1));
                    band_start = cursor;
                    used = F32(0);
                }
            } else {
                let left: u64 = seg.last as u64 - cursor as u64 + 1;
                let take: u64 = if fits < left {
                    fits
                } else {
                    left
                };
                let next: u32 = (cursor as u64 + take) as u32;
                let length = (ops.times)(seg.height, take);
                let filled = (ops.plus)(used, length);
                let ghost w = Fit { remaining, fits, length, used: filled };
                if take == fits && next <= seg.last {
                    proof {
                        lemma_close(bands@, from, band_start as int, next - 1);
                        let b = Filling { cursor: next as int, ..a.closed(next - 1) };
                        lemma_fills_more(*ops, cap, sg, states, ways, w, b);
                        states = states.push(b);
                        ways = ways.push(w);
                    }
                    bands.push((band_start, next - 1));
                    band_start = next;
                    used = F32(0);
                } else {
                    proof {
                        let b = Filling { cursor: next as int, used: filled, ..a };
                        lemma_fills_more(*ops, cap, sg, states, ways, w, b);
                        states = states.push(b);
                        ways = ways.push(w);
                    }
                    used = filled;
                }
                cursor = next;
            }
        }
        if k + 1 < n {
            let t = segs[k + 1];
            let ghost a = states.last();
            let ghost w = Fit { remaining: used, fits: 0, length: used, used };
            assert(sg[k as int].last < sg[k + 1].first);
            if t.forced && band_start < t.first {
                proof {
                    lemma_close(bands@, from, band_start as int, t.first - 1);
                    let b = Filling {
                        seg: k + 1,
                        cursor: t.first as int,
                        ..a.closed(t.first - 1)
                    };
                    lemma_fills_more(*ops, cap, sg, states, ways, w, b);
                    states = states.push(b);
                    ways = ways.push(w);
                }
                bands.push((band_start, t.first - 1));
                band_start = t.first;
                used = F32(0);
            } else {
                proof {
                    let b = Filling { seg: k + 1, cursor: t.first as int, ..a };
                    lemma_fills_more(*ops, cap, sg, states, ways, w, b);
                    states = states.push(b);
                    ways = ways.push(w);
                }
            }
            cursor = t.first;
            k = k + 1;
        } else {
            more = false;
        }
    }
    let last: u32 = segs[n - 1].last;
    let ghost end = states.last();
    if band_start <= last {
        proof {
            lemma_close(bands@, from, band_start as int, last as int);
        }
        bands.push((band_start, last));
    }
    assert(ops.laid_out(cap, sg, states, ways));
    bands
}

/// Cut `rows.0..=rows.1` into bands that each fit `cap` points. Every row that
/// prints is in a band, the bands follow one another without a gap, and a manual
/// break before a row that prints begins a band there.
pub fn band_rows<
    P: Fn(F32, F32) -> F32,
    M: Fn(F32, F32) -> F32,
    T: Fn(F32, u64) -> F32,
    D: Fn(F32, F32) -> F32,
    W: Fn(F32, F32) -> u64,
    N: Fn(u64) -> F32,
>(
    sizes: &RowSizes,
    rows: (u32, u32),
    cap: Points,
    breaks: &Vec<u32>,
    ops: &Lengths<P, M, T, D, W, N>,
) -> (bands: Vec<(u32, u32)>)
    requires
        ops.ready(),
        ordered(sizes@),
        rows.1 < u32::MAX,
    ensures
        ops.rows_banded(sizes@, rows, cap, breaks@, bands@),
        bands@.len() > 0,
        exists|from: int, to: int| #[trigger]
            in_a_row(bands@, from, to) && rows.0 <= from && (rows.0 <= rows.1 ==> to <= rows.1
                + 1),
        forall|row: int|
            rows.0 <= row <= rows.1 && prints(
                #[trigger] height_at(sizes@, row, F32(DEFAULT_ROW_HEIGHT)),
            ) ==> in_band(bands@, row),
        forall|b: u32| #[trigger]
            breaks@.contains(b) && break_counts(sizes@, rows, b) ==> begins_band(bands@, b as int),
{
    let (first, last) = rows;
    if first > last {
        let mut bands: Vec<(u32, u32)> = Vec::new();
        bands.push((first, first));
        proof {
            assert(bands@ =~= seq![(first, first)]);
            assert(in_a_row(bands@, first as int, first + 1));
        }
        return bands;
    }
    let default = F32(DEFAULT_ROW_HEIGHT);
    let runs = runs_in(sizes, first, last, default);
    let segs = cut_runs(&runs, breaks);
    if runs.len() == 0 {
        // Everything is hidden. One page still, for header and footer.
        let mut bands: Vec<(u32, u32)> = Vec::new();
        bands.push((first, last));
        proof {
            assert(bands@ =~= seq![(first, last)]);
            assert(runs_of(sizes@, first as int, last + 1, default, runs@));
            assert(cut_of(runs@, breaks@, segs@));
            assert(in_a_row(bands@, first as int, last + 1));
            assert forall|row: int|
                rows.0 <= row <= rows.1 && prints(
                    #[trigger] height_at(sizes@, row, default),
                ) implies in_band(bands@, row) by {
                assert(in_run(runs@, row));
            }
            assert forall|b: u32| #[trigger]
                breaks@.contains(b) && break_counts(sizes@, rows, b) implies begins_band(
                bands@,
                b as int,
            ) by {
                assert(prints(height_at(sizes@, b as int, default)));
                assert(in_run(runs@, b as int));
            }
        }
        return bands;
    }
    proof {
        assert forall|k: int| 0 <= k < segs@.len() implies (#[trigger] segs@[k]).first
            <= segs@[k].last < u32::MAX && first <= segs@[k].first && segs@[k].last <= last by {
            assert(part_of(runs@, segs@[k]));
        }
    }
    let bands = fill_pages(&segs, cap, ops);
    proof {
        let from = segs@[0].first as int;
        let to = segs@.last().last + 1;
        assert(in_a_row(bands@, from, to));
        assert forall|row: int|
            rows.0 <= row <= rows.1 && prints(
                #[trigger] height_at(sizes@, row, default),
            ) implies in_band(bands@, row) by {
            lemma_segment_of(runs@, breaks@, segs@, row);
            let k = choose|k: int|
                0 <= k < segs@.len() && (#[trigger] segs@[k]).first <= row <= segs@[k].last;
            if k > 0 {
                assert(segs@[0].last < segs@[k].first);
            }
            if k < segs@.len() - 1 {
                assert(segs@[k].last < segs@[segs@.len() - 1].first);
            }
            lemma_in_a_row(bands@, from, to, row);
        }
        assert forall|b: u32| #[trigger]
            breaks@.contains(b) && break_counts(sizes@, rows, b) implies begins_band(
            bands@,
            b as int,
        ) by {
            assert(prints(height_at(sizes@, b as int, default)));
            lemma_segment_of(runs@, breaks@, segs@, b as int);
            let k = choose|k: int|
                0 <= k < segs@.len() && (#[trigger] segs@[k]).first <= b as int <= segs@[k].last;
            assert(!(segs@[k].first < b <= segs@[k].last));
            assert(segs@[k].first == b);
            if k == 0 {
                let row = choose|row: int|
                    rows.0 <= row < b && prints(#[trigger] height_at(sizes@, row, default));
                assert(prints(height_at(sizes@, row, default)));
                lemma_segment_of(runs@, breaks@, segs@, row);
                let j = choose|j: int|
                    0 <= j < segs@.len() && (#[trigger] segs@[j]).first <= row <= segs@[j].last;
                if j > 0 {
                    assert(segs@[0].last < segs@[j].first);
                }
            }
            assert(segs@[k].forced);
        }
    }
    bands
}

proof fn lemma_segment_of(runs: Seq<Run>, breaks: Seq<u32>, segs: Seq<Segment>, row: int)
    requires
        cut_of(runs, breaks, segs),
        in_run(runs, row),
    ensures
        in_segment(segs, row),
{
    let i = choose|i: int| 0 <= i < runs.len() && (#[trigger] runs[i]).has(row);
    assert(runs[i].has(row));
}

/// A manual break before row `b` cuts the rows: the row prints, and so does one
/// before it.
pub open spec fn break_counts(spans: Seq<RowSpan>, rows: (u32, u32), b: u32) -> bool {
    &&& rows.0 < b <= rows.1
    &&& prints(height_at(spans, b as int, F32(DEFAULT_ROW_HEIGHT)))
    &&& exists|row: int|
        rows.0 <= row < b && prints(#[trigger] height_at(spans, row, F32(DEFAULT_ROW_HEIGHT)))
}

// ------------------------------------------------------------ column bands --

/// How far the columns have been laid out.
#[verifier::ext_equal]
pub ghost struct Spread {
    pub bands: Seq<(u32, u32)>,
    pub start: u32,
    pub used: Points,
    /// A column has been placed.
    pub some: bool,
}

/// The widths met at one column: with what is used already, and alone.
pub ghost struct Width {
    pub sum: Points,
    pub alone: Points,
}

impl<
    P: Fn(F32, F32) -> F32,
    M: Fn(F32, F32) -> F32,
    T: Fn(F32, u64) -> F32,
    D: Fn(F32, F32) -> F32,
    W: Fn(F32, F32) -> u64,
    N: Fn(u64) -> F32,
> Lengths<P, M, T, D, W, N> {
    /// Column `c` placed: on the open page, or on a new one where a break is forced
    /// or it does not fit. Hidden columns take no space.
    pub open spec fn places(
        &self,
        sizes: ColSizesView,
        cap: Points,
        breaks: Seq<u32>,
        c: u32,
        a: Spread,
        w: Width,
        b: Spread,
    ) -> bool {
        if sizes.hidden.contains(c) {
            b == a
        } else {
            let width = sizes.width_at(c, F32(DEFAULT_COL_WIDTH));
            &&& self.plus.ensures((a.used, width), w.sum)
            &&& self.plus.ensures((F32(0), width), w.alone)
            &&& b == if (breaks.contains(c) && c > a.start) || (a.some && cap.lt_spec(w.sum)) {
                Spread {
                    bands: a.bands.push((a.start, (c - 1) as u32)),
                    start: c,
                    used: w.alone,
                    some: true,
                }
            } else {
                Spread { used: w.sum, some: true, ..a }
            }
        }
    }

    /// `states` lead over the columns from `first` on.
    pub open spec fn spread_out(
        &self,
        sizes: ColSizesView,
        cap: Points,
        breaks: Seq<u32>,
        first: u32,
        states: Seq<Spread>,
        ways: Seq<Width>,
    ) -> bool {
        &&& states.len() == ways.len() + 1
        &&& states[0] == (Spread { bands: Seq::empty(), start: first, used: F32(0), some: false })
        &&& forall|i: int|
            0 <= i < ways.len() ==> self.places(
                sizes,
                cap,
                breaks,
                (first + i) as u32,
                states[i],
                #[trigger] ways[i],
                states[i + 1],
            )
    }

    /// The columns `cols.0..=cols.1` in bands that each fit `cap`.
    pub open spec fn cols_banded(
        &self,
        sizes: ColSizesView,
        cols: (u32, u32),
        cap: Points,
        breaks: Seq<u32>,
        bands: Seq<(u32, u32)>,
    ) -> bool {
        if cols.0 > cols.1 {
            bands == seq![(cols.0, cols.0)]
        } else {
            exists|states: Seq<Spread>, ways: Seq<Width>|
                {
                    &&& #[trigger] self.spread_out(sizes, cap, breaks, cols.0, states, ways)
                    &&& ways.len() == cols.1 - cols.0 + 1
                    &&& bands == states.last().bands.push((states.last().start, cols.1))
                }
        }
    }
}

/// Cut `cols.0..=cols.1` into bands that each fit `cap` points. The bands follow one
/// another without a gap, from the first column to the last.
pub fn band_cols<
    P: Fn(F32, F32) -> F32,
    M: Fn(F32, F32) -> F32,
    T: Fn(F32, u64) -> F32,
    D: Fn(F32, F32) -> F32,
    W: Fn(F32, F32) -> u64,
    N: Fn(u64) -> F32,
>(
    sizes: &ColSizes,
    cols: (u32, u32),
    cap: Points,
    breaks: &Vec<u32>,
    ops: &Lengths<P, M, T, D, W, N>,
) -> (bands: Vec<(u32, u32)>)
    requires
        ops.ready(),
    ensures
        ops.cols_banded(sizes@, cols, cap, breaks@, bands@),
        bands@.len() > 0,
        cols.0 <= cols.1 ==> in_a_row(bands@, cols.0 as int, cols.1 + 1),
        cols.0 > cols.1 ==> in_a_row(bands@, cols.0 as int, cols.0 + 1),
{
    let (first, last) = cols;
    let mut bands: Vec<(u32, u32)> = Vec::new();
    if first > last {
        bands.push((first, first));
        assert(bands@ =~= seq![(first, first)]);
        return bands;
    }
    let mut start: u32 = first;
    let mut used: Points = F32(0);
    let mut some = false;
    let ghost mut states: Seq<Spread> = seq![
        Spread { bands: Seq::empty(), start: first, used: F32(0), some: false },
    ];
    let ghost mut ways: Seq<Width> = Seq::empty();
    let mut c: u32 = first;
    let mut more = true;
    assert(bands@ =~= states.last().bands);
    while more
        invariant
            ops.ready(),
            first <= last,
            first <= start,
            more ==> first <= c <= last && ways.len() == c - first && start <= c && (some ==> first
                < c && start < c),
            !more ==> ways.len() == last - first + 1 && start <= last,
            ops.spread_out(sizes@, cap, breaks@, first, states, ways),
            states.last() == (Spread { bands: bands@, start, used, some }),
            in_a_row(bands@, first as int, start as int),
            !some ==> start == first,
        decreases last - c, (if more { 1int } else { 0 }),
    {
        let ghost a = states.last();
        let ghost mut w = Width { sum: used, alone: used };
        if !sizes.is_hidden(c) {
            let width = match sizes.width_of(c) {
                Some(x) => x,
                None => F32(DEFAULT_COL_WIDTH),
            };
            let sum = (ops.plus)(used, width);
            let alone = (ops.plus)(F32(0), width);
            let forced = is_break(breaks, c) && c > start;
            proof {
                w = Width { sum, alone };
            }
            if forced || (some && cap.less_than(sum)) {
                proof {
                    lemma_close(bands@, first as int, start as int, c - 1);
                }
                bands.push((start, c - 1));
                start = c;
                used = alone;
            } else {
                used = sum;
            }
            some = true;
        }
        proof {
            let b = Spread { bands: bands@, start, used, some };
            let index = ways.len() as int;
            assert((first + index) as u32 == c);
            assert(ops.places(sizes@, cap, breaks@, c, a, w, b));
            let further = states.push(b);
            let on = ways.push(w);
            assert forall|i: int| 0 <= i < on.len() implies ops.places(
                sizes@,
                cap,
                breaks@,
                (first + i) as u32,
                further[i],
                #[trigger] on[i],
                further[i + 1],
            ) by {
                if i < ways.len() {
                    assert(ops.places(
                        sizes@,
                        cap,
                        breaks@,
                        (first + i) as u32,
                        states[i],
                        ways[i],
                        states[i + 1],
                    ));
                }
            }
            states = further;
            ways = on;
        }
        if c == last {
            more = false;
        } else {
            c = c + 1;
        }
    }
    proof {
        lemma_close(bands@, first as int, start as int, last as int);
    }
    bands.push((start, last));
    assert(ops.spread_out(sizes@, cap, breaks@, first, states, ways));
    bands
}

} // verus!
