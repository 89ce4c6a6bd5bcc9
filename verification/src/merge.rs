//! Merged cell regions.
//!
//! A merge is a rectangle that displays as one cell: the top-left ("anchor") holds
//! the value, and every other cell in the rectangle reads as empty and refuses
//! direct edits. Merges are stored as rectangles, never as a per-cell flag.

use crate::regions::{apart, lemma_with_one_more, regions_take, RegionIndex};
use crate::table::{CellRef, TableRange};
use vstd::prelude::*;

verus! {

/// Why a merge was refused.
#[derive(Clone, Copy, Debug, PartialEq, Eq, Structural)]
pub enum MergeError {
    /// The rectangle is a single cell; merging it would mean nothing.
    Degenerate,
    /// The rectangle overlaps an existing merge. The older merge is not absorbed:
    /// that would change what a click selects with nothing to show for it.
    Overlaps,
}

impl MergeError {
    pub open spec fn message_spec(self) -> Seq<char> {
        match self {
            MergeError::Degenerate => "a merge needs more than one cell"@,
            MergeError::Overlaps => "that range overlaps a merged region"@,
        }
    }

    pub fn message(&self) -> (s: &'static str)
        ensures
            s@ == self.message_spec(),
    {
        match self {
            MergeError::Degenerate => "a merge needs more than one cell",
            MergeError::Overlaps => "that range overlaps a merged region",
        }
    }
}

/// The merged regions of one sheet.
#[derive(Debug, PartialEq, Clone)]
pub struct MergeMap {
    regions: RegionIndex,
}

impl View for MergeMap {
    type V = Set<TableRange>;

    closed spec fn view(&self) -> Set<TableRange> {
        self.regions@.to_set()
    }
}

/// The rectangle is a single cell.
pub open spec fn single(r: TableRange) -> bool {
    r.first_row == r.last_row && r.first_col == r.last_col
}

/// `r` is the region of the cell.
pub open spec fn region_of(m: Set<TableRange>, cell: CellRef, r: TableRange) -> bool {
    m.contains(r) && r.has(cell.row, cell.col)
}

/// Some region holds the cell.
pub open spec fn merged(m: Set<TableRange>, cell: CellRef) -> bool {
    exists|r: TableRange| #[trigger] region_of(m, cell, r)
}

pub open spec fn anchor_of(r: TableRange) -> CellRef {
    CellRef { row: r.first_row, col: r.first_col }
}

/// Some region has the cell as its top-left.
pub open spec fn anchored(m: Set<TableRange>, cell: CellRef) -> bool {
    exists|r: TableRange| #[trigger] region_of(m, cell, r) && anchor_of(r) == cell
}

/// What every set of merged regions is: proper rectangles of more than one cell,
/// no two of which share one.
pub open spec fn valid(m: Set<TableRange>) -> bool {
    &&& m.finite()
    &&& forall|r: TableRange| #[trigger] m.contains(r) ==> r.proper() && !single(r)
    &&& forall|r: TableRange, s: TableRange| #[trigger]
        m.contains(r) && #[trigger] m.contains(s) && r != s ==> !r.meets(s)
}

impl Default for MergeMap {
    fn default() -> (m: MergeMap)
        ensures
            m.wf(),
            m@ == Set::<TableRange>::empty(),
    {
        MergeMap::new()
    }
}

impl MergeMap {
    pub closed spec fn wf(self) -> bool {
        &&& self.regions.wf()
        &&& apart(self.regions@)
        &&& forall|i: int| 0 <= i < self.regions@.len() ==> !single(#[trigger] self.regions@[i])
    }

    proof fn lemma_valid(self)
        requires
            self.wf(),
        ensures
            valid(self@),
            self@.len() == self.regions@.len(),
            self.regions@.no_duplicates(),
    {
        let v = self.regions@;
        assert forall|r: TableRange| #[trigger] self@.contains(r) implies r.proper() && !single(
            r,
        ) by {
            let i = choose|i: int| 0 <= i < v.len() && v[i] == r;
            self.regions.lemma_proper(i);
        }
        assert forall|r: TableRange, s: TableRange| #[trigger]
            self@.contains(r) && #[trigger] self@.contains(s) && r != s implies !r.meets(s) by {
            let i = choose|i: int| 0 <= i < v.len() && v[i] == r;
            let j = choose|j: int| 0 <= j < v.len() && v[j] == s;
            if i < j {
                assert(!v[i].meets(v[j]));
            } else {
                assert(!v[j].meets(v[i]));
            }
        }
        assert forall|i: int, j: int| 0 <= i < v.len() && 0 <= j < v.len() && i != j implies v[i]
            != v[j] by {
            self.regions.lemma_proper(i);
            if i < j {
                assert(!v[i].meets(v[j]));
            } else {
                assert(!v[j].meets(v[i]));
            }
        }
        v.unique_seq_to_set();
    }

    /// The merged regions of a sheet are valid at all times.
    pub proof fn regions_are_valid(self)
        requires
            self.wf(),
        ensures
            valid(self@),
    {
        self.lemma_valid();
    }

    pub fn new() -> (m: MergeMap)
        ensures
            m.wf(),
            m@ == Set::<TableRange>::empty(),
    {
        let m = MergeMap { regions: RegionIndex::new() };
        assert(m@ =~= Set::<TableRange>::empty());
        m
    }

    pub fn is_empty(&self) -> (b: bool)
        requires
            self.wf(),
        ensures
            b == (self@ == Set::<TableRange>::empty()),
    {
        proof {
            if self.regions@.len() > 0 {
                assert(self@.contains(self.regions@[0]));
            } else {
                assert(self@ =~= Set::<TableRange>::empty());
            }
        }
        self.regions.len() == 0
    }

    pub fn len(&self) -> (n: usize)
        requires
            self.wf(),
        ensures
            n == self@.len(),
    {
        proof {
            self.lemma_valid();
        }
        self.regions.len()
    }

    /// Bytes held on the heap, for the resource guard: they grow with the regions
    /// and not with the cells in them.
    pub fn heap_bytes(&self) -> (n: usize)
        requires
            self.wf(),
        ensures
            regions_take(self@, n),
    {
        proof {
            self.lemma_valid();
        }
        self.regions.heap_bytes()
    }

    /// Every region once.
    pub fn regions(&self) -> (r: &[TableRange])
        requires
            self.wf(),
        ensures
            r@.to_set() == self@,
            r@.no_duplicates(),
    {
        proof {
            self.lemma_valid();
        }
        self.regions.as_slice()
    }

    /// Add a region. Rejects single cells and anything overlapping an existing
    /// merge.
    pub fn merge(&mut self, range: TableRange) -> (r: Result<(), MergeError>)
        requires
            old(self).wf(),
            range.proper(),
        ensures
            final(self).wf(),
            match r {
                Ok(_) => !single(range) && final(self)@ == old(self)@.insert(range) && forall|
                    s: TableRange,
                | #[trigger]
                    old(self)@.contains(s) ==> !s.meets(range),
                Err(MergeError::Degenerate) => single(range) && final(self)@ == old(self)@,
                Err(MergeError::Overlaps) => !single(range) && final(self)@ == old(self)@
                    && exists|s: TableRange| #[trigger]
                    old(self)@.contains(s) && s.meets(range),
            },
    {
        if range.first_row == range.last_row && range.first_col == range.last_col {
            return Err(MergeError::Degenerate);
        }
        let ghost was = self.regions@;
        match self.regions.find_meeting(range) {
            Some(i) => {
                assert(self@.contains(was[i as int]));
                return Err(MergeError::Overlaps);
            },
            None => {},
        }
        self.regions.add(range);
        proof {
            lemma_with_one_more(was, range, self.regions@);
            assert(self@ =~= old(self)@.insert(range)) by {
                assert forall|x: TableRange| self@.contains(x) <==> old(self)@.insert(
                    range,
                ).contains(x) by {
                    assert(self.regions@.contains(x) <==> was.contains(x) || x == range);
                }
            }
            assert forall|s: TableRange| #[trigger] old(self)@.contains(s) implies !s.meets(
                range,
            ) by {
                let i = choose|i: int| 0 <= i < was.len() && was[i] == s;
                assert(!was[i].meets(range));
            }
            assert forall|i: int| 0 <= i < self.regions@.len() implies !single(
                #[trigger] self.regions@[i],
            ) by {
                assert(self.regions@.contains(self.regions@[i]));
                if self.regions@[i] != range {
                    let j = choose|j: int| 0 <= j < was.len() && was[j] == self.regions@[i];
                    assert(!single(was[j]));
                }
            }
        }
        Ok(())
    }

    /// Remove the region containing `cell`, returning it.
    pub fn unmerge_at(&mut self, cell: CellRef) -> (r: Option<TableRange>)
        requires
            old(self).wf(),
        ensures
            final(self).wf(),
            match r {
                Some(found) => region_of(old(self)@, cell, found) && final(self)@
                    == old(self)@.remove(found),
                None => !merged(old(self)@, cell) && final(self)@ == old(self)@,
            },
    {
        let ghost was = self.regions@;
        match self.regions.find_cell(cell.row, cell.col) {
            Some(i) => {
                proof {
                    self.lemma_valid();
                    assert(self@.contains(was[i as int]));
                }
                let found = self.regions.remove_at(i);
                proof {
                    let now = self.regions@;
                    assert forall|k: int| 0 <= k < now.len() implies #[trigger] now[k] == was[if k
                        < i {
                        k
                    } else {
                        k + 1
                    }] by {}
                    assert(self@ =~= old(self)@.remove(found)) by {
                        assert forall|x: TableRange| self@.contains(x) <==> old(self)@.remove(
                            found,
                        ).contains(x) by {
                            if now.contains(x) {
                                let k = choose|k: int| 0 <= k < now.len() && now[k] == x;
                                let j = if k < i {
                                    k
                                } else {
                                    k + 1
                                };
                                assert(was[j] == x);
                                assert(was[j] != was[i as int]);
                            }
                            if was.contains(x) && x != found {
                                let j = choose|j: int| 0 <= j < was.len() && was[j] == x;
                                let k = if j < i {
                                    j
                                } else {
                                    j - 1
                                };
                                assert(now[k] == x);
                            }
                        }
                    }
                }
                Some(found)
            },
            None => {
                proof {
                    assert forall|r: TableRange| !(#[trigger] region_of(self@, cell, r)) by {
                        if self@.contains(r) {
                            let k = choose|k: int| 0 <= k < was.len() && was[k] == r;
                            assert(!was[k].has(cell.row, cell.col));
                        }
                    }
                }
                None
            },
        }
    }

    /// Drop every region intersecting `range`, and tell how many there were.
    pub fn unmerge_range(&mut self, range: TableRange) -> (n: usize)
        requires
            old(self).wf(),
        ensures
            final(self).wf(),
            forall|r: TableRange| #[trigger]
                final(self)@.contains(r) <==> old(self)@.contains(r) && !r.meets(range),
            n + final(self)@.len() == old(self)@.len(),
    {
        let ghost was = self.regions@;
        let ghost keep = |x: TableRange| !x.meets(range);
        proof {
            self.lemma_valid();
            broadcast use vstd::seq_lib::group_filter_ensures;

            lemma_filter_positions(was, keep);
        }
        let before: usize = self.regions.len();
        self.regions.drop_meeting(range);
        proof {
            broadcast use vstd::seq_lib::group_filter_ensures;

            let now = self.regions@;
            assert(now == was.filter(keep));
            assert forall|r: TableRange| #[trigger] self@.contains(r) <==> old(self)@.contains(r)
                && !r.meets(range) by {
                if now.contains(r) {
                    let i = choose|i: int| 0 <= i < now.len() && now[i] == r;
                    assert(keep(now[i]));
                    assert(was.contains(now[i]));
                }
                if was.contains(r) && keep(r) {
                    let i = choose|i: int| 0 <= i < was.len() && was[i] == r;
                    assert(now.contains(was[i]));
                }
            }
            assert(self.wf());
            self.lemma_valid();
        }
        before - self.regions.len()
    }

    /// The region containing `cell`, if any.
    pub fn region_at(&self, cell: CellRef) -> (r: Option<&TableRange>)
        requires
            self.wf(),
        ensures
            match r {
                Some(found) => region_of(self@, cell, *found),
                None => !merged(self@, cell),
            },
    {
        let ghost v = self.regions@;
        match self.regions.find_cell(cell.row, cell.col) {
            Some(i) => {
                assert(self@.contains(v[i as int]));
                Some(self.regions.get(i))
            },
            None => {
                proof {
                    assert forall|r: TableRange| !(#[trigger] region_of(self@, cell, r)) by {
                        if self@.contains(r) {
                            let k = choose|k: int| 0 <= k < v.len() && v[k] == r;
                            assert(!v[k].has(cell.row, cell.col));
                        }
                    }
                }
                None
            },
        }
    }

    /// Is this cell a merge's top-left?
    pub fn is_anchor(&self, cell: CellRef) -> (b: bool)
        requires
            self.wf(),
        ensures
            b == anchored(self@, cell),
    {
        match self.region_at(cell) {
            Some(r) => {
                proof {
                    self.lemma_valid();
                    the_region_of_a_cell_is_unique(self@, cell);
                }
                r.first_row == cell.row && r.first_col == cell.col
            },
            None => false,
        }
    }

    /// Is this cell covered by a merge but not its anchor? These are the cells
    /// that read as empty and refuse edits.
    pub fn is_covered(&self, cell: CellRef) -> (b: bool)
        requires
            self.wf(),
        ensures
            b == (merged(self@, cell) && !anchored(self@, cell)),
    {
        match self.region_at(cell) {
            Some(r) => {
                proof {
                    self.lemma_valid();
                    the_region_of_a_cell_is_unique(self@, cell);
                }
                !(r.first_row == cell.row && r.first_col == cell.col)
            },
            None => false,
        }
    }

    /// The cell that actually holds `cell`'s value: its merge anchor, or the cell
    /// itself.
    pub fn resolve(&self, cell: CellRef) -> (r: CellRef)
        requires
            self.wf(),
        ensures
            !merged(self@, cell) ==> r == cell,
            merged(self@, cell) ==> exists|g: TableRange| #[trigger]
                region_of(self@, cell, g) && r == anchor_of(g),
    {
        match self.region_at(cell) {
            Some(g) => {
                assert(region_of(self@, cell, *g));
                CellRef::new(g.first_row, g.first_col)
            },
            None => cell,
        }
    }
}

/// Filtering keeps the order, so what is apart stays apart.
proof fn lemma_filter_positions(v: Seq<TableRange>, keep: spec_fn(TableRange) -> bool)
    requires
        apart(v),
    ensures
        apart(v.filter(keep)),
        forall|i: int|
            0 <= i < v.filter(keep).len() ==> v.contains(#[trigger] v.filter(keep)[i]),
        forall|i: int| 0 <= i < v.len() && keep(v[i]) ==> v.filter(keep).contains(#[trigger] v[i]),
    decreases v.len(),
{
    reveal(Seq::filter);
    if v.len() > 0 {
        let head = v.drop_last();
        let sub = head.filter(keep);
        assert(apart(head)) by {
            assert forall|i: int, j: int| 0 <= i < j < head.len() implies !(
            #[trigger] head[i]).meets(#[trigger] head[j]) by {
                assert(!v[i].meets(v[j]));
            }
        }
        lemma_filter_positions(head, keep);
        let all = v.filter(keep);
        assert forall|i: int| 0 <= i < all.len() implies v.contains(#[trigger] all[i]) by {
            if i < sub.len() {
                assert(head.contains(sub[i]));
                let k = choose|k: int| 0 <= k < head.len() && head[k] == sub[i];
                assert(v[k] == all[i]);
            } else {
                assert(v[v.len() - 1] == all[i]);
            }
        }
        assert forall|i: int| 0 <= i < v.len() && keep(v[i]) implies all.contains(
            #[trigger] v[i],
        ) by {
            if i < head.len() {
                assert(sub.contains(head[i]));
                let k = choose|k: int| 0 <= k < sub.len() && sub[k] == head[i];
                assert(all[k] == v[i]);
            } else {
                assert(all[sub.len() as int] == v[i]);
            }
        }
        assert forall|i: int, j: int| 0 <= i < j < all.len() implies !(#[trigger] all[i]).meets(
            #[trigger] all[j],
        ) by {
            if j < sub.len() {
                assert(!sub[i].meets(sub[j]));
            } else {
                assert(head.contains(sub[i]));
                let k = choose|k: int| 0 <= k < head.len() && head[k] == sub[i];
                assert(!v[k].meets(v[v.len() - 1]));
            }
        }
    }
}

// ------------------------------------------------------------------- laws --

/// A cell belongs to at most one region.
pub proof fn the_region_of_a_cell_is_unique(m: Set<TableRange>, cell: CellRef)
    requires
        valid(m),
    ensures
        forall|r: TableRange, s: TableRange| #[trigger]
            region_of(m, cell, r) && #[trigger] region_of(m, cell, s) ==> r == s,
{
}

/// What was merged can be unmerged: the regions are as they were before.
pub proof fn unmerging_undoes_a_merge(m: Set<TableRange>, range: TableRange, cell: CellRef)
    requires
        valid(m),
        range.proper(),
        !single(range),
        forall|s: TableRange| #[trigger] m.contains(s) ==> !s.meets(range),
        range.has(cell.row, cell.col),
    ensures
        valid(m.insert(range)),
        region_of(m.insert(range), cell, range),
        m.insert(range).remove(range) == m,
{
    assert(!m.contains(range));
    assert(m.insert(range).remove(range) =~= m);
    let now = m.insert(range);
    assert forall|r: TableRange, s: TableRange| #[trigger]
        now.contains(r) && #[trigger] now.contains(s) && r != s implies !r.meets(s) by {
        if r == range {
            assert(!s.meets(range));
        }
    }
}

/// The anchor holds the value: it lies in its own region and is never covered.
pub proof fn an_anchor_resolves_to_itself(m: Set<TableRange>, cell: CellRef)
    requires
        valid(m),
        merged(m, cell),
    ensures
        exists|g: TableRange| #[trigger]
            region_of(m, cell, g) && region_of(m, anchor_of(g), g) && anchored(m, anchor_of(g)),
{
    let g = choose|g: TableRange| #[trigger] region_of(m, cell, g);
    assert(region_of(m, anchor_of(g), g));
}

/// The anchor of a region is its cell that is furthest up and furthest left.
pub proof fn an_anchor_is_the_top_left_cell(r: TableRange, row: u32, col: u32)
    requires
        r.proper(),
        r.first_row <= row <= r.last_row,
        r.first_col <= col <= r.last_col,
    ensures
        r.has(anchor_of(r).row, anchor_of(r).col),
        anchor_of(r).row <= row,
        anchor_of(r).col <= col,
{
}

} // verus!
