//! Rectangles of a sheet, found by the cells they hold.
//!
//! Rectangles are kept in the order of their first rows, together with how far
//! down the tallest reaches. Whatever holds a given row starts no further up than
//! that, so a lookup looks at a bounded window instead of at every rectangle.

use crate::capacity::{at_most_max, capacity_of, capped_mul, lemma_capped_factor};
use crate::table::TableRange;
use vstd::layout::size_of;
use vstd::prelude::*;

verus! {

/// No two of the rectangles share a cell.
pub open spec fn apart(v: Seq<TableRange>) -> bool {
    forall|i: int, j: int| 0 <= i < j < v.len() ==> !(#[trigger] v[i]).meets(#[trigger] v[j])
}

/// `v` with `r` put in somewhere.
pub open spec fn with_one_more(v: Seq<TableRange>, r: TableRange, w: Seq<TableRange>) -> bool {
    exists|k: int| 0 <= k <= v.len() && w == #[trigger] v.insert(k, r)
}

/// The rows in which the rectangles start.
pub open spec fn first_rows(v: Set<TableRange>) -> Set<u32> {
    v.map(|r: TableRange| r.first_row)
}

/// What a row in which rectangles start takes besides them.
pub open spec fn row_bytes() -> int {
    (size_of::<u32>() + size_of::<Vec<TableRange>>()) as int
}

/// With room for `slots` of the rectangles, they take `n`: each its own bytes, and
/// each row in which some start its share.
pub open spec fn room_takes(v: Set<TableRange>, slots: usize, n: usize) -> bool {
    slots >= v.len() && n == at_most_max(
        slots * size_of::<TableRange>() + first_rows(v).len() * row_bytes(),
    )
}

/// What rectangles take: the bytes of what there is room for.
pub open spec fn regions_take(v: Set<TableRange>, n: usize) -> bool {
    exists|slots: usize| #[trigger] room_takes(v, slots, n)
}

/// What rectangles take that start in `rows` rows, with room for `slots` of them.
pub fn region_bytes(slots: usize, rows: usize) -> (n: usize)
    ensures
        n == at_most_max(slots * size_of::<TableRange>() + rows * row_bytes()),
{
    let each: usize = std::mem::size_of::<TableRange>();
    let row: usize = std::mem::size_of::<u32>().saturating_add(
        std::mem::size_of::<Vec<TableRange>>(),
    );
    proof {
        lemma_capped_factor(rows as int, row_bytes());
        assert(slots * each >= 0 && rows * row_bytes() >= 0) by (nonlinear_arith)
            requires
                row_bytes() >= 0,
        ;
    }
    capped_mul(slots, each).saturating_add(capped_mul(rows, row))
}

/// Rectangles in the order of their first rows.
#[derive(Debug, PartialEq, Clone)]
pub struct RegionIndex {
    items: Vec<TableRange>,
    /// The most rows that a rectangle reaches below its first.
    reach: u32,
}

impl View for RegionIndex {
    type V = Seq<TableRange>;

    closed spec fn view(&self) -> Seq<TableRange> {
        self.items@
    }
}

impl RegionIndex {
    pub closed spec fn wf(self) -> bool {
        &&& forall|i: int| 0 <= i < self@.len() ==> (#[trigger] self@[i]).proper()
        &&& forall|i: int|
            0 <= i < self@.len() ==> (#[trigger] self@[i]).last_row - self@[i].first_row
                <= self.reach
        &&& forall|i: int, j: int|
            0 <= i <= j < self@.len() ==> (#[trigger] self@[i]).first_row <= (
            #[trigger] self@[j]).first_row
    }

    pub proof fn lemma_proper(self, i: int)
        requires
            self.wf(),
            0 <= i < self@.len(),
        ensures
            self@[i].proper(),
    {
    }

    pub fn new() -> (r: RegionIndex)
        ensures
            r.wf(),
            r@ == Seq::<TableRange>::empty(),
    {
        RegionIndex { items: Vec::new(), reach: 0 }
    }

    pub fn len(&self) -> (n: usize)
        ensures
            n == self@.len(),
    {
        self.items.len()
    }

    pub fn get(&self, i: usize) -> (r: &TableRange)
        requires
            i < self@.len(),
        ensures
            *r == self@[i as int],
    {
        &self.items[i]
    }

    pub fn as_slice(&self) -> (r: &[TableRange])
        ensures
            r@ == self@,
    {
        self.items.as_slice()
    }

    /// In how many rows rectangles start.
    fn row_count(&self) -> (n: usize)
        requires
            self.wf(),
        ensures
            n == first_rows(self@.to_set()).len(),
    {
        let mut n: usize = 0;
        let mut i: usize = 0;
        assert(first_rows(self@.subrange(0, 0).to_set()) =~= Set::<u32>::empty());
        while i < self.items.len()
            invariant
                self.wf(),
                self@ == self.items@,
                n <= i <= self@.len(),
                first_rows(self@.subrange(0, i as int).to_set()).finite(),
                n == first_rows(self@.subrange(0, i as int).to_set()).len(),
            decreases self@.len() - i,
        {
            let row: u32 = self.items[i].first_row;
            let fresh = i == 0 || self.items[i - 1].first_row != row;
            proof {
                let part = self@.subrange(0, i as int);
                let more = self@.subrange(0, i + 1);
                let rows = first_rows(part.to_set());
                assert(rows.contains(row) == !fresh) by {
                    if !fresh {
                        assert(part[i - 1] == self@[i - 1]);
                        assert(part.to_set().contains(part[i - 1]));
                    } else if rows.contains(row) {
                        let r = choose|r: TableRange| part.to_set().contains(r) && r.first_row == row;
                        let k = choose|k: int| 0 <= k < part.len() && part[k] == r;
                        assert(self@[k].first_row <= self@[i - 1].first_row);
                        assert(self@[i - 1].first_row <= self@[i as int].first_row);
                    }
                }
                assert(first_rows(more.to_set()) =~= rows.insert(row)) by {
                    assert forall|x: u32| rows.insert(row).contains(x) implies first_rows(
                        more.to_set(),
                    ).contains(x) by {
                        if x == row {
                            assert(more[i as int].first_row == x);
                            assert(more.to_set().contains(more[i as int]));
                        } else {
                            let r = choose|r: TableRange|
                                part.to_set().contains(r) && r.first_row == x;
                            let k = choose|k: int| 0 <= k < part.len() && part[k] == r;
                            assert(more[k] == r);
                            assert(more.to_set().contains(r));
                        }
                    }
                    assert forall|x: u32| first_rows(more.to_set()).contains(x) implies rows.insert(
                        row,
                    ).contains(x) by {
                        let r = choose|r: TableRange| more.to_set().contains(r) && r.first_row == x;
                        let k = choose|k: int| 0 <= k < more.len() && more[k] == r;
                        if k < i {
                            assert(part[k] == r);
                            assert(part.to_set().contains(r));
                        }
                    }
                }
            }
            if fresh {
                n = n + 1;
            }
            i = i + 1;
        }
        assert(self@.subrange(0, self@.len() as int) =~= self@);
        n
    }

    /// The heap bytes behind the rectangles.
    pub fn heap_bytes(&self) -> (n: usize)
        requires
            self.wf(),
        ensures
            regions_take(self@.to_set(), n),
    {
        let slots: usize = capacity_of(&self.items);
        let n: usize = region_bytes(slots, self.row_count());
        proof {
            self@.lemma_cardinality_of_set();
            assert(room_takes(self@.to_set(), slots, n));
        }
        n
    }

    /// The first rectangle that starts at or below `row`.
    fn first_from(&self, row: u32) -> (at: usize)
        requires
            self.wf(),
        ensures
            at <= self@.len(),
            forall|i: int| 0 <= i < at ==> (#[trigger] self@[i]).first_row < row,
            forall|i: int| at <= i < self@.len() ==> (#[trigger] self@[i]).first_row >= row,
    {
        let mut lo: usize = 0;
        let mut hi: usize = self.items.len();
        while lo < hi
            invariant
                self.wf(),
                lo <= hi <= self@.len(),
                self@ == self.items@,
                forall|i: int| 0 <= i < lo ==> (#[trigger] self@[i]).first_row < row,
                forall|i: int| hi <= i < self@.len() ==> (#[trigger] self@[i]).first_row >= row,
            decreases hi - lo,
        {
            let mid: usize = lo + (hi - lo) / 2;
            if self.items[mid].first_row < row {
                lo = mid + 1;
            } else {
                hi = mid;
            }
        }
        lo
    }

    /// The first rectangle that shares a cell with `r`.
    pub fn find_meeting(&self, r: TableRange) -> (at: Option<usize>)
        requires
            self.wf(),
        ensures
            match at {
                Some(i) => i < self@.len() && self@[i as int].meets(r),
                None => forall|i: int| 0 <= i < self@.len() ==> !(#[trigger] self@[i]).meets(r),
            },
    {
        let top: u32 = if r.first_row > self.reach {
            r.first_row - self.reach
        } else {
            0
        };
        let start: usize = self.first_from(top);
        let n: usize = self.items.len();
        let mut i: usize = start;
        proof {
            assert forall|k: int| 0 <= k < start implies !(#[trigger] self@[k]).meets(r) by {
                assert(self@[k].first_row < top);
                assert(self@[k].last_row - self@[k].first_row <= self.reach);
            }
        }
        while i < n
            invariant
                self.wf(),
                start <= i <= n == self@.len(),
                self@ == self.items@,
                forall|k: int| 0 <= k < i ==> !(#[trigger] self@[k]).meets(r),
            decreases n - i,
        {
            let here = self.items[i];
            if here.first_row > r.last_row {
                proof {
                    assert forall|k: int| i <= k < self@.len() implies !(
                    #[trigger] self@[k]).meets(r) by {
                        assert(self@[i as int].first_row <= self@[k].first_row);
                    }
                }
                return None;
            }
            if here.overlaps(&r) {
                return Some(i);
            }
            i = i + 1;
        }
        None
    }

    /// The first rectangle that holds the cell.
    pub fn find_cell(&self, row: u32, col: u32) -> (at: Option<usize>)
        requires
            self.wf(),
        ensures
            match at {
                Some(i) => i < self@.len() && self@[i as int].has(row, col),
                None => forall|i: int|
                    0 <= i < self@.len() ==> !(#[trigger] self@[i]).has(row, col),
            },
    {
        let cell = TableRange::new(row, col, row, col);
        let at = self.find_meeting(cell);
        assert(forall|r: TableRange| r.meets(cell) <==> #[trigger] r.has(row, col));
        at
    }

    /// Puts a rectangle in.
    pub fn add(&mut self, r: TableRange)
        requires
            old(self).wf(),
            r.proper(),
        ensures
            final(self).wf(),
            with_one_more(old(self)@, r, final(self)@),
    {
        let at: usize = if r.first_row == u32::MAX {
            self.items.len()
        } else {
            self.first_from(r.first_row + 1)
        };
        let ghost was = self@;
        let ghost reach = self.reach;
        self.items.insert(at, r);
        if r.last_row - r.first_row > self.reach {
            self.reach = r.last_row - r.first_row;
        }
        proof {
            assert(self@ == was.insert(at as int, r));
            assert forall|i: int| 0 <= i < self@.len() implies (#[trigger] self@[i]).proper()
                && self@[i].last_row - self@[i].first_row <= self.reach by {
                if i < at {
                    assert(self@[i] == was[i]);
                } else if i > at {
                    assert(self@[i] == was[i - 1]);
                }
            }
            assert forall|i: int, j: int| 0 <= i <= j < self@.len() implies (
            #[trigger] self@[i]).first_row <= (#[trigger] self@[j]).first_row by {
                let a = if i < at {
                    i
                } else {
                    i - 1
                };
                let b = if j < at {
                    j
                } else {
                    j - 1
                };
                if i != at {
                    assert(self@[i] == was[a]);
                }
                if j != at {
                    assert(self@[j] == was[b]);
                }
            }
        }
    }

    /// Takes a rectangle out.
    pub fn remove_at(&mut self, i: usize) -> (r: TableRange)
        requires
            old(self).wf(),
            i < old(self)@.len(),
        ensures
            final(self).wf(),
            r == old(self)@[i as int],
            final(self)@ == old(self)@.remove(i as int),
    {
        let ghost was = self@;
        let r = self.items.remove(i);
        proof {
            assert forall|k: int| 0 <= k < self@.len() implies #[trigger] self@[k] == was[if k < i {
                k
            } else {
                k + 1
            }] by {}
        }
        r
    }

    /// Keeps the rectangles that share no cell with `r`.
    pub fn drop_meeting(&mut self, r: TableRange)
        requires
            old(self).wf(),
        ensures
            final(self).wf(),
            final(self)@ == old(self)@.filter(|x: TableRange| !x.meets(r)),
    {
        let ghost was = self@;
        let ghost keep = |x: TableRange| !x.meets(r);
        let n: usize = self.items.len();
        let mut kept: Vec<TableRange> = Vec::new();
        let mut i: usize = 0;
        proof {
            reveal(Seq::filter);
        }
        while i < n
            invariant
                i <= n == was.len(),
                self.items@ == was,
                self.wf(),
                keep == (|x: TableRange| !x.meets(r)),
                kept@ == was.subrange(0, i as int).filter(keep),
                forall|k: int| 0 <= k < kept@.len() ==> (#[trigger] kept@[k]).proper(),
                forall|k: int|
                    0 <= k < kept@.len() ==> (#[trigger] kept@[k]).last_row - kept@[k].first_row
                        <= self.reach,
                forall|k: int, l: int|
                    0 <= k <= l < kept@.len() ==> (#[trigger] kept@[k]).first_row <= (
                    #[trigger] kept@[l]).first_row,
                forall|k: int, l: int|
                    0 <= k < kept@.len() && i <= l < was.len() ==> (#[trigger] kept@[k]).first_row
                        <= (#[trigger] was[l]).first_row,
            decreases n - i,
        {
            proof {
                reveal(Seq::filter);
                assert(was.subrange(0, i + 1).drop_last() =~= was.subrange(0, i as int));
                assert(self@[i as int].proper());
            }
            let x = self.items[i];
            if !x.overlaps(&r) {
                kept.push(x);
            }
            i = i + 1;
        }
        assert(was.subrange(0, n as int) =~= was);
        self.items = kept;
    }
}

/// Where a rectangle that was put in stands, and what else there is.
pub proof fn lemma_with_one_more(v: Seq<TableRange>, r: TableRange, w: Seq<TableRange>)
    requires
        with_one_more(v, r, w),
    ensures
        w.len() == v.len() + 1,
        forall|x: TableRange| #[trigger] w.contains(x) <==> v.contains(x) || x == r,
        apart(v) && (forall|i: int| 0 <= i < v.len() ==> !(#[trigger] v[i]).meets(r)) ==> apart(w),
{
    let k = choose|k: int| 0 <= k <= v.len() && w == #[trigger] v.insert(k, r);
    assert forall|x: TableRange| #[trigger] w.contains(x) <==> v.contains(x) || x == r by {
        if w.contains(x) {
            let i = choose|i: int| 0 <= i < w.len() && w[i] == x;
            if i < k {
                assert(v[i] == x);
            } else if i > k {
                assert(v[i - 1] == x);
            }
        }
        if v.contains(x) {
            let i = choose|i: int| 0 <= i < v.len() && v[i] == x;
            if i < k {
                assert(w[i] == x);
            } else {
                assert(w[i + 1] == x);
            }
        }
        assert(w[k] == r);
    }
    if apart(v) && (forall|i: int| 0 <= i < v.len() ==> !(#[trigger] v[i]).meets(r)) {
        assert forall|i: int, j: int| 0 <= i < j < w.len() implies !(#[trigger] w[i]).meets(
            #[trigger] w[j],
        ) by {
            let a = if i < k {
                i
            } else {
                i - 1
            };
            let b = if j < k {
                j
            } else {
                j - 1
            };
            if i != k {
                assert(w[i] == v[a]);
            }
            if j != k {
                assert(w[j] == v[b]);
            }
        }
    }
}

} // verus!
