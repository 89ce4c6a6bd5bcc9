//! Filter mode: rendering the grid over a subset of rows.
//!
//! A [`RowFilter`] lists the rows that contain at least one match, ascending and
//! each once. Position `i` in the list is visible row `i`; its value is the
//! underlying row. The list is built once per search and never per frame.
//!
//! A filter made from a capped search shows a prefix of the matching rows, so the
//! flag rides along with the mapping.

use crate::table::CellRef;
use vstd::prelude::*;
use vstd::slice::slice_subrange;

verus! {

/// What a search found: some of the matching cells in row-major order, and how
/// many there are in all.
#[derive(Debug)]
pub struct SearchResults {
    pub matches: Vec<CellRef>,
    /// Matching cells, those beyond the cap among them.
    pub total: usize,
    /// The search stopped listing at its cap.
    pub truncated: bool,
}

impl Default for SearchResults {
    fn default() -> (r: SearchResults)
        ensures
            r.matches@ == Seq::<CellRef>::empty(),
            r.total == 0,
            !r.truncated,
    {
        SearchResults { matches: Vec::new(), total: 0, truncated: false }
    }
}

/// The rows of the matches, each run of equal ones once.
pub open spec fn row_runs(m: Seq<CellRef>) -> Seq<u32>
    decreases m.len(),
{
    if m.len() == 0 {
        Seq::empty()
    } else {
        let before = row_runs(m.drop_last());
        if before.len() > 0 && before.last() == m.last().row {
            before
        } else {
            before.push(m.last().row)
        }
    }
}

/// The matches are in row order.
pub open spec fn by_row(m: Seq<CellRef>) -> bool {
    forall|i: int, j: int| 0 <= i <= j < m.len() ==> (#[trigger] m[i]).row <= (#[trigger] m[j]).row
}

/// Strictly ascending, and so without duplicates.
pub open spec fn ascending(v: Seq<u32>) -> bool {
    forall|i: int, j: int| 0 <= i < j < v.len() ==> #[trigger] v[i] < #[trigger] v[j]
}

/// A visible-row to underlying-row mapping derived from a sorted match list.
#[derive(Debug, Clone)]
pub struct RowFilter {
    rows: Vec<u32>,
    truncated: bool,
    total_matches: usize,
}

#[verifier::ext_equal]
pub ghost struct FilterView {
    /// Underlying row of each visible row.
    pub rows: Seq<u32>,
    pub truncated: bool,
    pub total_matches: nat,
}

impl View for RowFilter {
    type V = FilterView;

    closed spec fn view(&self) -> FilterView {
        FilterView {
            rows: self.rows@,
            truncated: self.truncated,
            total_matches: self.total_matches as nat,
        }
    }
}

impl FilterView {
    pub open spec fn wf(self) -> bool {
        ascending(self.rows)
    }

    /// Where an underlying row is visible.
    pub open spec fn shows(self, underlying: u32, visible: int) -> bool {
        0 <= visible < self.rows.len() && self.rows[visible] == underlying
    }
}

impl Default for RowFilter {
    fn default() -> (f: RowFilter)
        ensures
            f@ == (FilterView { rows: Seq::empty(), truncated: false, total_matches: 0 }),
    {
        let f = RowFilter { rows: Vec::new(), truncated: false, total_matches: 0 };
        assert(f@.rows =~= Seq::empty());
        f
    }
}

impl RowFilter {
    /// Build the mapping from a row-major-sorted match list, in one linear pass.
    pub fn from_matches(matches: &[CellRef], truncated: bool, total_matches: usize) -> (f:
        RowFilter)
        ensures
            f@ == (FilterView {
                rows: row_runs(matches@),
                truncated,
                total_matches: total_matches as nat,
            }),
            by_row(matches@) ==> f@.wf(),
    {
        let n: usize = matches.len();
        let mut rows: Vec<u32> = Vec::new();
        let mut i: usize = 0;
        while i < n
            invariant
                i <= n == matches@.len(),
                rows@ == row_runs(matches@.subrange(0, i as int)),
            decreases n - i,
        {
            assert(matches@.subrange(0, i + 1).drop_last() =~= matches@.subrange(0, i as int));
            let row: u32 = matches[i].row;
            let k: usize = rows.len();
            if k == 0 || rows[k - 1] != row {
                rows.push(row);
            }
            i = i + 1;
        }
        proof {
            assert(matches@.subrange(0, n as int) =~= matches@);
            if by_row(matches@) {
                matching_rows_are_listed_once(matches@);
            }
        }
        RowFilter { rows, truncated, total_matches }
    }

    /// Build directly from a search result, carrying its cap flag across.
    pub fn from_results(results: &SearchResults) -> (f: RowFilter)
        ensures
            f@ == (FilterView {
                rows: row_runs(results.matches@),
                truncated: results.truncated,
                total_matches: results.total as nat,
            }),
            by_row(results.matches@) ==> f@.wf(),
    {
        RowFilter::from_matches(results.matches.as_slice(), results.truncated, results.total)
    }

    /// Number of visible rows.
    pub fn len(&self) -> (n: usize)
        ensures
            n == self@.rows.len(),
    {
        self.rows.len()
    }

    pub fn is_empty(&self) -> (b: bool)
        ensures
            b == (self@.rows.len() == 0),
    {
        self.rows.len() == 0
    }

    /// True when the underlying result set was capped, so that this mapping omits
    /// matching rows that exist in the sheet.
    pub fn truncated(&self) -> (b: bool)
        ensures
            b == self@.truncated,
    {
        self.truncated
    }

    pub fn total_matches(&self) -> (n: usize)
        ensures
            n == self@.total_matches,
    {
        self.total_matches
    }

    /// Visible row to underlying row. `None` past the end.
    pub fn underlying(&self, visible: usize) -> (r: Option<u32>)
        ensures
            r == if visible < self@.rows.len() {
                Some(self@.rows[visible as int])
            } else {
                None
            },
    {
        if visible < self.rows.len() {
            Some(self.rows[visible])
        } else {
            None
        }
    }

    /// Underlying row to visible row, or `None` when that row is filtered out.
    pub fn visible_of(&self, underlying: u32) -> (r: Option<usize>)
        requires
            self@.wf(),
        ensures
            match r {
                Some(v) => self@.shows(underlying, v as int),
                None => !self@.rows.contains(underlying),
            },
    {
        let at: usize = self.visible_at_or_after(underlying);
        if at < self.rows.len() && self.rows[at] == underlying {
            Some(at)
        } else {
            proof {
                if self@.rows.contains(underlying) {
                    let k = choose|k: int|
                        0 <= k < self@.rows.len() && self@.rows[k] == underlying;
                    assert(self@.rows[k] == underlying);
                }
            }
            None
        }
    }

    /// Visible position of the first kept row at or after `underlying`, or the
    /// number of rows when there is none.
    pub fn visible_at_or_after(&self, underlying: u32) -> (at: usize)
        requires
            self@.wf(),
        ensures
            at <= self@.rows.len(),
            forall|i: int| 0 <= i < at ==> #[trigger] self@.rows[i] < underlying,
            forall|i: int| at <= i < self@.rows.len() ==> #[trigger] self@.rows[i] >= underlying,
    {
        let mut lo: usize = 0;
        let mut hi: usize = self.rows.len();
        while lo < hi
            invariant
                self@.wf(),
                self@.rows == self.rows@,
                lo <= hi <= self.rows@.len(),
                forall|i: int| 0 <= i < lo ==> #[trigger] self.rows@[i] < underlying,
                forall|i: int| hi <= i < self.rows@.len() ==> #[trigger] self.rows@[i]
                    >= underlying,
            decreases hi - lo,
        {
            let mid: usize = lo + (hi - lo) / 2;
            if self.rows[mid] < underlying {
                lo = mid + 1;
            } else {
                hi = mid;
            }
        }
        lo
    }

    /// The underlying rows for a half-open range of visible rows, borrowed.
    /// Ends out of range are clamped.
    pub fn window(&self, first_visible: usize, last_visible: usize) -> (r: &[u32])
        ensures
            ({
                let n = self@.rows.len();
                let lo = if first_visible < n {
                    first_visible as int
                } else {
                    n as int
                };
                let hi = if last_visible < lo {
                    lo
                } else if last_visible < n {
                    last_visible as int
                } else {
                    n as int
                };
                r@ == self@.rows.subrange(lo, hi)
            }),
    {
        let n: usize = self.rows.len();
        let lo: usize = if first_visible < n {
            first_visible
        } else {
            n
        };
        let hi: usize = if last_visible < lo {
            lo
        } else if last_visible < n {
            last_visible
        } else {
            n
        };
        slice_subrange(self.rows.as_slice(), lo, hi)
    }

    /// All underlying rows, ascending.
    pub fn rows(&self) -> (r: &[u32])
        ensures
            r@ == self@.rows,
    {
        self.rows.as_slice()
    }
}

// ------------------------------------------------------------------- laws --

/// The rows of a sorted match list are ascending, each once, and exactly the rows
/// that have a match.
pub proof fn matching_rows_are_listed_once(m: Seq<CellRef>)
    requires
        by_row(m),
    ensures
        ascending(row_runs(m)),
        forall|r: u32| #[trigger]
            row_runs(m).contains(r) <==> exists|i: int|
                0 <= i < m.len() && (#[trigger] m[i]).row == r,
        m.len() > 0 ==> row_runs(m).len() > 0 && row_runs(m).last() == m.last().row,
    decreases m.len(),
{
    if m.len() > 0 {
        let head = m.drop_last();
        let before = row_runs(head);
        let now = row_runs(m);
        assert forall|i: int, j: int| 0 <= i <= j < head.len() implies (#[trigger] head[i]).row <= (
        #[trigger] head[j]).row by {
            assert(m[i].row <= m[j].row);
        }
        matching_rows_are_listed_once(head);
        if before.len() > 0 {
            assert(before.contains(before.last()));
            assert(m[head.len() - 1].row <= m[m.len() - 1].row);
        }
        assert forall|i: int, j: int| 0 <= i < j < now.len() implies #[trigger] now[i]
            < #[trigger] now[j] by {
            if j < before.len() {
                assert(before[i] < before[j]);
            } else {
                assert(head.len() > 0);
                if i < before.len() - 1 {
                    assert(before[i] < before[before.len() - 1]);
                }
                assert(before.last() <= m.last().row);
            }
        }
        assert forall|r: u32| #[trigger]
            now.contains(r) <==> exists|i: int| 0 <= i < m.len() && (#[trigger] m[i]).row == r by {
            if now.contains(r) {
                let k = choose|k: int| 0 <= k < now.len() && now[k] == r;
                if k < before.len() {
                    assert(before[k] == r);
                    assert(before.contains(r));
                    let i = choose|i: int| 0 <= i < head.len() && (#[trigger] head[i]).row == r;
                    assert(m[i].row == r);
                } else {
                    assert(m[m.len() - 1].row == r);
                }
            }
            if exists|i: int| 0 <= i < m.len() && (#[trigger] m[i]).row == r {
                let i = choose|i: int| 0 <= i < m.len() && (#[trigger] m[i]).row == r;
                if i < head.len() {
                    assert(head[i].row == r);
                    assert(before.contains(r));
                    let k = choose|k: int| 0 <= k < before.len() && before[k] == r;
                    assert(now[k] == r);
                } else {
                    assert(now[now.len() - 1] == r);
                }
            }
        }
    }
}

/// A visible row maps to an underlying row and back to itself, and to no other.
pub proof fn visible_and_underlying_are_inverse(f: FilterView, visible: int, other: int)
    requires
        f.wf(),
        0 <= visible < f.rows.len(),
    ensures
        f.shows(f.rows[visible], visible),
        f.shows(f.rows[visible], other) ==> other == visible,
{
    if f.shows(f.rows[visible], other) && other != visible {
        if other < visible {
            assert(f.rows[other] < f.rows[visible]);
        } else {
            assert(f.rows[visible] < f.rows[other]);
        }
    }
}

} // verus!
