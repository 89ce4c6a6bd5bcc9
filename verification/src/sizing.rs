//! Row heights and column widths that differ from the default.
//!
//! Heights are kept as spans: rows that nothing is said of have the default
//! height, and a resized selection is one entry however many rows it has. Columns
//! are few, so widths are kept per column.

use crate::value::F32;
use std::collections::{HashMap, HashSet};
use vstd::prelude::*;

verus! {

broadcast use vstd::std_specs::hash::group_hash_axioms;

/// Consecutive rows of one height, both ends counted. Hidden rows have height zero.
#[derive(Clone, Copy, Debug, PartialEq, Eq, Structural)]
pub struct RowSpan {
    pub first: u32,
    pub last: u32,
    pub height: F32,
}

impl RowSpan {
    pub open spec fn covers(self, row: int) -> bool {
        self.first <= row <= self.last
    }
}

/// The spans come in the order of their rows and share none.
pub open spec fn ordered(spans: Seq<RowSpan>) -> bool {
    &&& forall|i: int| 0 <= i < spans.len() ==> (#[trigger] spans[i]).first <= spans[i].last
    &&& forall|i: int, j: int|
        0 <= i < j < spans.len() ==> (#[trigger] spans[i]).last < (#[trigger] spans[j]).first
}

/// The height that the spans give a row, if they say anything of it.
pub open spec fn height_in(spans: Seq<RowSpan>, row: int) -> Option<F32>
    decreases spans.len(),
{
    if spans.len() == 0 {
        None
    } else if spans.last().covers(row) {
        Some(spans.last().height)
    } else {
        height_in(spans.drop_last(), row)
    }
}

pub open spec fn height_at(spans: Seq<RowSpan>, row: int, default: F32) -> F32 {
    match height_in(spans, row) {
        Some(h) => h,
        None => default,
    }
}

proof fn lemma_push(spans: Seq<RowSpan>, s: RowSpan)
    ensures
        ordered(spans) && s.first <= s.last && (forall|k: int|
            0 <= k < spans.len() ==> (#[trigger] spans[k]).last < s.first) ==> ordered(
            spans.push(s),
        ),
        forall|row: int| #[trigger]
            height_in(spans.push(s), row) == if s.covers(row) {
                Some(s.height)
            } else {
                height_in(spans, row)
            },
{
    assert(spans.push(s).drop_last() =~= spans);
}

/// The span that covers a row gives its height.
pub proof fn lemma_covered(spans: Seq<RowSpan>, i: int, row: int)
    requires
        ordered(spans),
        0 <= i < spans.len(),
        spans[i].covers(row),
    ensures
        height_in(spans, row) == Some(spans[i].height),
    decreases spans.len(),
{
    if i < spans.len() - 1 {
        assert(spans[i].last < spans[spans.len() - 1].first);
        assert(ordered(spans.drop_last()));
        assert(spans.drop_last()[i] == spans[i]);
        lemma_covered(spans.drop_last(), i, row);
    }
}

/// A row that no span covers has no height of its own.
pub proof fn lemma_uncovered(spans: Seq<RowSpan>, row: int)
    requires
        forall|i: int| 0 <= i < spans.len() ==> !(#[trigger] spans[i]).covers(row),
    ensures
        height_in(spans, row) is None,
    decreases spans.len(),
{
    if spans.len() > 0 {
        assert(!spans[spans.len() - 1].covers(row));
        assert forall|i: int| 0 <= i < spans.drop_last().len() implies !(
        #[trigger] spans.drop_last()[i]).covers(row) by {
            assert(!spans[i].covers(row));
        }
        lemma_uncovered(spans.drop_last(), row);
    }
}

/// Row heights, as spans.
#[derive(Debug)]
pub struct RowSizes {
    spans: Vec<RowSpan>,
}

impl View for RowSizes {
    type V = Seq<RowSpan>;

    closed spec fn view(&self) -> Seq<RowSpan> {
        self.spans@
    }
}

impl Default for RowSizes {
    fn default() -> (r: RowSizes)
        ensures
            r@ == Seq::<RowSpan>::empty(),
    {
        RowSizes::new()
    }
}

impl RowSizes {
    pub fn new() -> (r: RowSizes)
        ensures
            r@ == Seq::<RowSpan>::empty(),
            ordered(r@),
    {
        RowSizes { spans: Vec::new() }
    }

    pub fn spans(&self) -> (v: &Vec<RowSpan>)
        ensures
            v@ == self@,
    {
        &self.spans
    }

    /// A row's height, `default` where none was set.
    pub fn height_or(&self, row: u32, default: F32) -> (h: F32)
        ensures
            h == height_at(self@, row as int, default),
    {
        let mut i: usize = self.spans.len();
        assert(self.spans@.subrange(0, i as int) =~= self.spans@);
        while i > 0
            invariant
                i <= self.spans@.len(),
                height_in(self.spans@, row as int) == height_in(
                    self.spans@.subrange(0, i as int),
                    row as int,
                ),
            decreases i,
        {
            let s = self.spans[i - 1];
            let ghost part = self.spans@.subrange(0, i as int);
            assert(part.last() == s);
            assert(part.drop_last() =~= self.spans@.subrange(0, i - 1));
            if s.first <= row && row <= s.last {
                return s.height;
            }
            i = i - 1;
        }
        default
    }

    /// Give the rows `first..=last` a height.
    pub fn set_range(&mut self, first: u32, last: u32, height: F32)
        requires
            ordered(old(self)@),
            first <= last,
        ensures
            ordered(final(self)@),
            forall|row: int| #[trigger]
                height_in(final(self)@, row) == if first <= row <= last {
                    Some(height)
                } else {
                    height_in(old(self)@, row)
                },
    {
        let fresh = RowSpan { first, last, height };
        let mut out: Vec<RowSpan> = Vec::new();
        let mut placed = false;
        let n: usize = self.spans.len();
        let ghost was = self.spans@;
        let mut i: usize = 0;
        while i < n
            invariant
                self.spans@ == was,
                i <= n == was.len(),
                ordered(was),
                ordered(out@),
                first <= last,
                fresh == (RowSpan { first, last, height }),
                forall|k: int|
                    0 <= k < out@.len() ==> (#[trigger] out@[k]).last < first || (placed && (
                    out@[k].last <= last || (i > 0 && out@[k].last <= was[i - 1].last))),
                !placed ==> out@ == was.subrange(0, i as int),
                forall|k: int| 0 <= k < i && !placed ==> (#[trigger] was[k]).last < first,
                placed ==> i > 0 && was[i - 1].last >= first,
                forall|row: int| #[trigger]
                    height_in(out@, row) == if first <= row <= last {
                        if placed {
                            Some(height)
                        } else {
                            None
                        }
                    } else {
                        height_in(was.subrange(0, i as int), row)
                    },
            decreases n - i,
        {
            let s = self.spans[i];
            assert(was.subrange(0, i + 1) =~= was.subrange(0, i as int).push(s));
            proof {
                lemma_push(was.subrange(0, i as int), s);
                if i > 0 {
                    assert(was[i - 1].last < was[i as int].first);
                }
            }
            if s.last < first {
                proof {
                    lemma_push(out@, s);
                }
                out.push(s);
                assert(ordered(out@));
            } else {
                if s.first < first {
                    let left = RowSpan { first: s.first, last: (first - 1) as u32, height: s.height };
                    proof {
                        lemma_push(out@, left);
                    }
                    out.push(left);
                    assert(ordered(out@));
                }
                if !placed {
                    proof {
                        lemma_push(out@, fresh);
                    }
                    out.push(fresh);
                    assert(ordered(out@));
                    placed = true;
                }
                if s.first > last {
                    proof {
                        lemma_push(out@, s);
                    }
                    out.push(s);
                } else if s.last > last {
                    let right = RowSpan { first: (last + 1) as u32, last: s.last, height: s.height };
                    proof {
                        lemma_push(out@, right);
                    }
                    out.push(right);
                    assert(ordered(out@));
                }
            }
            i = i + 1;
        }
        if !placed {
            proof {
                lemma_push(out@, fresh);
            }
            out.push(fresh);
        }
        assert(was.subrange(0, n as int) =~= was);
        self.spans = out;
    }

    /// Give one row a height.
    pub fn set(&mut self, row: u32, height: F32)
        requires
            ordered(old(self)@),
        ensures
            ordered(final(self)@),
            forall|r: int| #[trigger]
                height_in(final(self)@, r) == if r == row {
                    Some(height)
                } else {
                    height_in(old(self)@, r)
                },
    {
        self.set_range(row, row, height);
    }

    /// Hide the rows `first..=last`.
    pub fn hide_rows(&mut self, first: u32, last: u32)
        requires
            ordered(old(self)@),
            first <= last,
        ensures
            ordered(final(self)@),
            forall|row: int| #[trigger]
                height_in(final(self)@, row) == if first <= row <= last {
                    Some(F32(0))
                } else {
                    height_in(old(self)@, row)
                },
    {
        self.set_range(first, last, F32(0));
    }
}

/// Column widths, and which columns are hidden.
#[derive(Debug)]
pub struct ColSizes {
    widths: HashMap<u32, F32>,
    hidden: HashSet<u32>,
}

#[verifier::ext_equal]
pub ghost struct ColSizesView {
    pub widths: Map<u32, F32>,
    pub hidden: Set<u32>,
}

impl View for ColSizes {
    type V = ColSizesView;

    closed spec fn view(&self) -> ColSizesView {
        ColSizesView { widths: self.widths@, hidden: self.hidden@ }
    }
}

impl ColSizesView {
    pub open spec fn width_at(self, col: u32, default: F32) -> F32 {
        if self.widths.contains_key(col) {
            self.widths[col]
        } else {
            default
        }
    }
}

impl ColSizes {
    pub fn new() -> (r: ColSizes)
        ensures
            r@ == (ColSizesView { widths: Map::empty(), hidden: Set::empty() }),
    {
        ColSizes { widths: HashMap::new(), hidden: HashSet::new() }
    }

    pub fn set_width(&mut self, col: u32, width: F32)
        ensures
            final(self)@ == (ColSizesView {
                widths: old(self)@.widths.insert(col, width),
                hidden: old(self)@.hidden,
            }),
    {
        self.widths.insert(col, width);
    }

    pub fn hide_col(&mut self, col: u32)
        ensures
            final(self)@ == (ColSizesView {
                widths: old(self)@.widths,
                hidden: old(self)@.hidden.insert(col),
            }),
    {
        self.hidden.insert(col);
    }

    pub fn is_hidden(&self, col: u32) -> (b: bool)
        ensures
            b == self@.hidden.contains(col),
    {
        self.hidden.contains(&col)
    }

    /// The width set for a column, if one was.
    pub fn width_of(&self, col: u32) -> (w: Option<F32>)
        ensures
            w == if self@.widths.contains_key(col) {
                Some(self@.widths[col])
            } else {
                None
            },
    {
        match self.widths.get(&col) {
            Some(w) => Some(*w),
            None => None,
        }
    }
}

/// A row that a span covers has that span's height, first and last row of it too; a row
/// that none covers has the usual one.
pub proof fn a_row_has_the_height_of_its_span(
    spans: Seq<RowSpan>,
    row: int,
    usual: F32,
    k: int,
)
    requires
        ordered(spans),
    ensures
        0 <= k < spans.len() && spans[k].first <= row <= spans[k].last ==> height_at(
            spans,
            row,
            usual,
        ) == spans[k].height,
        (forall|i: int|
            0 <= i < spans.len() ==> row < (#[trigger] spans[i]).first || row > spans[i].last)
            ==> height_at(spans, row, usual) == usual,
    decreases spans.len(),
{
    if spans.len() > 0 {
        let rest = spans.drop_last();
        let n = spans.len() - 1;
        assert(spans[n] == spans.last());
        assert forall|i: int| 0 <= i < rest.len() implies rest[i] == spans[i] by {}
        a_row_has_the_height_of_its_span(rest, row, usual, k);
    }
}

} // verus!
