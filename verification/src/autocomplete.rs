//! In-cell autocomplete over a column's distinct values.
//!
//! A column may hold hundreds of millions of rows, so suggesting values from it is
//! never a function of that number: a scan reads at most [`SCAN_LIMIT`] rows, from
//! a window around where the user is typing, and says how many it really read.
//! The distinct set is capped separately, at [`MAX_DISTINCT`]: the scan limit
//! bounds the time, the cap bounds the memory.
//!
//! Text is told apart by its arena id, so a distinct set is a list of ids. Which
//! ids belong to a column only a scan of that column can say: the arena is shared
//! by the whole workbook.

use crate::arena::{ArenaView, FormulaText, StringArena};
use crate::capacity::{backs, heap_of};
use crate::column::Column;
use crate::interchange::scan::lemma_find_word;
use crate::text::{
    chars_of, contains_str, find_word, has_at, has_word, is_at, lowercase, same_text, string_of, texts,
    to_lowercase, trim_range, trimmed,
};
use crate::value::{StrId, Value};
use std::collections::HashSet;
use vstd::prelude::*;

verus! {

broadcast use vstd::std_specs::hash::group_hash_axioms;

/// Hard cap on rows read by one scan. A constant: the scan costs the same on a
/// short sheet and on the longest.
pub const SCAN_LIMIT: usize = 20_000;

/// Cap on distinct values remembered.
pub const MAX_DISTINCT: usize = 10_000;

/// Cap on suggestions handed out. The rest are reachable by typing one more
/// character.
pub const MAX_SUGGESTIONS: usize = 8;

/// Shortest prefix that brings a suggestion. With none a list would open over the
/// value the instant a cell is entered.
pub const MIN_PREFIX: usize = 1;

/// How much work a scan was allowed, and how much it did.
#[derive(Clone, Copy, Debug, PartialEq, Eq, Structural)]
pub struct ScanBudget {
    pub limit: usize,
    pub rows_examined: usize,
    /// The column had more rows than the scan was allowed to read, so the distinct
    /// set is a sample and no census.
    pub truncated: bool,
    /// [`MAX_DISTINCT`] was reached and further distinct values were dropped.
    pub distinct_capped: bool,
}

impl Default for ScanBudget {
    fn default() -> (b: ScanBudget)
        ensures
            b == (ScanBudget {
                limit: SCAN_LIMIT,
                rows_examined: 0,
                truncated: false,
                distinct_capped: false,
            }),
    {
        ScanBudget { limit: SCAN_LIMIT, rows_examined: 0, truncated: false, distinct_capped: false }
    }
}

impl ScanBudget {
    pub fn with_limit(limit: usize) -> (b: ScanBudget)
        ensures
            b == (ScanBudget { limit, rows_examined: 0, truncated: false, distinct_capped: false }),
    {
        ScanBudget { limit, rows_examined: 0, truncated: false, distinct_capped: false }
    }
}

// ------------------------------------------------------------ distinct set --

/// Distinct text values seen in the scanned window of one column, as arena ids.
///
/// Numbers are left out: to complete a figure while someone types it does harm,
/// and the distinct set of a numeric column is the one that grows with its rows.
#[derive(Debug)]
pub struct DistinctValues {
    ids: Vec<StrId>,
    pub budget: ScanBudget,
}

#[verifier::ext_equal]
pub ghost struct DistinctView {
    pub ids: Seq<StrId>,
    pub budget: ScanBudget,
}

impl View for DistinctValues {
    type V = DistinctView;

    closed spec fn view(&self) -> DistinctView {
        DistinctView { ids: self.ids@, budget: self.budget }
    }
}

pub open spec fn smaller(a: int, b: int) -> int {
    if a < b {
        a
    } else {
        b
    }
}

/// Where a scan for the row `around` begins: a little before it, so that a value
/// typed into the row above is offered on the row below.
pub open spec fn window_start(rows: int, around: int, limit: int) -> int {
    let back = if around >= limit / 4 {
        around - limit / 4
    } else {
        0
    };
    smaller(back, rows - 1)
}

/// The row that step `k` of a scan reads: forward from the start, wrapping once.
pub open spec fn row_of_step(rows: int, start: int, k: int) -> int {
    (start + k) % rows
}

/// The distinct text ids of the first `steps` rows read, in the order they were met.
pub open spec fn met(cells: Seq<Value>, start: int, steps: int) -> Seq<StrId>
    decreases steps,
{
    if steps <= 0 {
        Seq::empty()
    } else {
        let before = met(cells, start, steps - 1);
        match cells[row_of_step(cells.len() as int, start, steps - 1)] {
            Value::Text(id) => if before.len() < MAX_DISTINCT && !before.contains(id) {
                before.push(id)
            } else {
                before
            },
            _ => before,
        }
    }
}

/// Step `k` read a text that the full distinct set did not hold.
pub open spec fn drops(cells: Seq<Value>, start: int, k: int) -> bool {
    match cells[row_of_step(cells.len() as int, start, k)] {
        Value::Text(id) => met(cells, start, k).len() >= MAX_DISTINCT && !met(
            cells,
            start,
            k,
        ).contains(id),
        _ => false,
    }
}

/// Whether a distinct value was dropped because the set was full.
pub open spec fn overfull(cells: Seq<Value>, start: int, steps: int) -> bool {
    exists|k: int| 0 <= k < steps && #[trigger] drops(cells, start, k)
}

/// What a scan of a column finds.
pub open spec fn scan_of(cells: Seq<Value>, around: int, budget: ScanBudget) -> DistinctView {
    let rows = cells.len() as int;
    if rows == 0 || budget.limit == 0 {
        DistinctView {
            ids: Seq::empty(),
            budget: ScanBudget { truncated: rows > 0, ..budget },
        }
    } else {
        let start = window_start(rows, around, budget.limit as int);
        let steps = smaller(budget.limit as int, rows);
        DistinctView {
            ids: met(cells, start, steps),
            budget: ScanBudget {
                limit: budget.limit,
                rows_examined: (budget.rows_examined + steps) as usize,
                truncated: rows > budget.limit,
                distinct_capped: budget.distinct_capped || overfull(cells, start, steps),
            },
        }
    }
}

fn step_row(rows: usize, start: usize, k: usize) -> (row: usize)
    requires
        start < rows,
        k < rows,
    ensures
        row == row_of_step(rows as int, start as int, k as int),
        row < rows,
{
    if k < rows - start {
        assert((start + k) % rows as int == start + k) by (nonlinear_arith)
            requires
                0 <= start + k < rows,
        ;
        start + k
    } else {
        assert((start + k) % rows as int == start + k - rows) by (nonlinear_arith)
            requires
                rows <= start + k < 2 * rows,
        ;
        k - (rows - start)
    }
}

impl Default for DistinctValues {
    fn default() -> (d: DistinctValues)
        ensures
            d@.ids == Seq::<StrId>::empty(),
            d@.budget.limit == SCAN_LIMIT && d@.budget.rows_examined == 0 && !d@.budget.truncated
                && !d@.budget.distinct_capped,
    {
        DistinctValues { ids: Vec::new(), budget: ScanBudget::default() }
    }
}

impl Clone for DistinctValues {
    fn clone(&self) -> (d: DistinctValues)
        ensures
            d@ == self@,
    {
        let mut ids: Vec<StrId> = Vec::with_capacity(self.ids.len());
        let mut i: usize = 0;
        while i < self.ids.len()
            invariant
                i <= self.ids@.len(),
                ids@ == self.ids@.subrange(0, i as int),
            decreases self.ids@.len() - i,
        {
            ids.push(self.ids[i]);
            assert(ids@ =~= self.ids@.subrange(0, i + 1));
            i = i + 1;
        }
        assert(ids@ =~= self.ids@);
        DistinctValues { ids, budget: self.budget }
    }
}

impl DistinctValues {
    pub fn len(&self) -> (n: usize)
        ensures
            n == self@.ids.len(),
    {
        self.ids.len()
    }

    pub fn is_empty(&self) -> (b: bool)
        ensures
            b == (self@.ids.len() == 0),
    {
        self.ids.len() == 0
    }

    pub fn ids(&self) -> (v: &[StrId])
        ensures
            v@ == self@.ids,
    {
        self.ids.as_slice()
    }

    pub fn heap_bytes(&self) -> (n: usize)
        ensures
            backs(n, self@.ids.len() as int, 4),
    {
        heap_of(&self.ids, 4)
    }

    /// Scan a bounded window of `column` for distinct text ids.
    ///
    /// The window begins just before `around`, the row being edited, and runs
    /// forward, wrapping to the start of the column once: the values nearest the
    /// cursor are found first. At most `budget.limit` rows are read;
    /// `budget.rows_examined` tells how many were.
    pub fn scan(column: &Column, around: usize, budget: ScanBudget) -> (d: DistinctValues)
        requires
            column.wf(),
            budget.rows_examined + smaller(budget.limit as int, column@.cells.len() as int)
                <= usize::MAX,
        ensures
            d@ == scan_of(column@.cells, around as int, budget),
    {
        let rows: usize = column.len();
        let ghost cells = column@.cells;
        let mut ids: Vec<StrId> = Vec::new();
        if rows == 0 || budget.limit == 0 {
            let found = DistinctValues {
                ids,
                budget: ScanBudget {
                    limit: budget.limit,
                    rows_examined: budget.rows_examined,
                    truncated: rows > 0,
                    distinct_capped: budget.distinct_capped,
                },
            };
            assert(found@.ids =~= Seq::<StrId>::empty());
            return found;
        }
        let back: usize = around.saturating_sub(budget.limit / 4);
        let start: usize = if back < rows - 1 {
            back
        } else {
            rows - 1
        };
        let steps: usize = if budget.limit < rows {
            budget.limit
        } else {
            rows
        };
        let mut examined: usize = budget.rows_examined;
        let mut capped: bool = false;
        let mut seen: HashSet<u32> = HashSet::new();
        let mut k: usize = 0;
        assert(ids@ =~= met(cells, start as int, 0));
        while k < steps
            invariant
                column.wf(),
                cells == column@.cells,
                rows == cells.len(),
                start < rows,
                k <= steps <= rows,
                budget.rows_examined + steps <= usize::MAX,
                examined == budget.rows_examined + k,
                ids@ == met(cells, start as int, k as int),
                capped == overfull(cells, start as int, k as int),
                forall|x: u32| #[trigger] seen@.contains(x) == ids@.contains(StrId(x)),
            decreases steps - k,
        {
            let row: usize = step_row(rows, start, k);
            examined = examined + 1;
            let ghost had = ids@;
            let ghost was = capped;
            match column.get(row) {
                Value::Text(id) => {
                    if ids.len() >= MAX_DISTINCT {
                        assert(seen@.contains(id.0) == ids@.contains(StrId(id.0)));
                        assert(id == StrId(id.0));
                        if !seen.contains(&id.0) {
                            capped = true;
                        }
                    } else {
                        let fresh = seen.insert(id.0);
                        if fresh {
                            ids.push(id);
                        }
                        proof {
                            assert(id == StrId(id.0));
                            assert(fresh == !had.contains(id));
                            assert forall|x: u32| #[trigger] seen@.contains(x) == ids@.contains(
                                StrId(x),
                            ) by {
                                if fresh {
                                    assert(ids@ == had.push(id));
                                    if had.contains(StrId(x)) {
                                        let i = choose|i: int|
                                            0 <= i < had.len() && had[i] == StrId(x);
                                        assert(ids@[i] == StrId(x));
                                    }
                                    assert(ids@.last() == id);
                                    if ids@.contains(StrId(x)) && x != id.0 {
                                        let i = choose|i: int|
                                            0 <= i < ids@.len() && ids@[i] == StrId(x);
                                        assert(had[i] == StrId(x));
                                    }
                                }
                            }
                        }
                    }
                },
                _ => {},
            }
            proof {
                assert(cells[row_of_step(rows as int, start as int, k as int)] == cells[row as int]);
                if capped && !was {
                    assert(drops(cells, start as int, k as int));
                }
                if was {
                    let j = choose|j: int| 0 <= j < k && #[trigger] drops(cells, start as int, j);
                    assert(0 <= j < k + 1 && drops(cells, start as int, j));
                }
                if !capped && overfull(cells, start as int, k + 1) {
                    let j = choose|j: int|
                        0 <= j < k + 1 && #[trigger] drops(cells, start as int, j);
                    assert(j < k || drops(cells, start as int, k as int));
                }
            }
            k = k + 1;
        }
        DistinctValues {
            ids,
            budget: ScanBudget {
                limit: budget.limit,
                rows_examined: examined,
                truncated: rows > budget.limit,
                distinct_capped: budget.distinct_capped || capped,
            },
        }
    }
}

// ------------------------------------------------------------- suggestions --

/// What to offer for a partly typed cell.
#[derive(Debug, PartialEq, Eq)]
pub struct Suggestions {
    /// The values offered, at most [`MAX_SUGGESTIONS`].
    pub items: Vec<String>,
    /// More matched than are listed.
    pub truncated: bool,
}

#[verifier::ext_equal]
pub ghost struct SuggestionsView {
    pub items: Seq<Seq<char>>,
    pub truncated: bool,
}

impl View for Suggestions {
    type V = SuggestionsView;

    open spec fn view(&self) -> SuggestionsView {
        SuggestionsView { items: texts(self.items@), truncated: self.truncated }
    }
}

/// The values whose lowercase form begins with `p` and is not `p` itself.
pub open spec fn beginning(
    values: Seq<Seq<char>>,
    lowered: Seq<Seq<char>>,
    p: Seq<char>,
) -> Seq<Seq<char>>
    decreases values.len(),
{
    if values.len() == 0 {
        Seq::empty()
    } else {
        let before = beginning(values.drop_last(), lowered.drop_last(), p);
        if lowered.last() != p && has_at(lowered.last(), 0, p) {
            before.push(values.last())
        } else {
            before
        }
    }
}

/// The values whose lowercase form holds `p` further on, but does not begin with it.
pub open spec fn holding(
    values: Seq<Seq<char>>,
    lowered: Seq<Seq<char>>,
    p: Seq<char>,
) -> Seq<Seq<char>>
    decreases values.len(),
{
    if values.len() == 0 {
        Seq::empty()
    } else {
        let before = holding(values.drop_last(), lowered.drop_last(), p);
        if lowered.last() != p && !has_at(lowered.last(), 0, p) && has_word(lowered.last(), p) {
            before.push(values.last())
        } else {
            before
        }
    }
}

/// The first few of the values, and whether there were more.
pub open spec fn shortened(values: Seq<Seq<char>>) -> SuggestionsView {
    SuggestionsView {
        items: if values.len() > MAX_SUGGESTIONS {
            values.subrange(0, MAX_SUGGESTIONS as int)
        } else {
            values
        },
        truncated: values.len() > MAX_SUGGESTIONS,
    }
}

/// Values that begin with the prefix first, in the order given, then those that
/// merely hold it.
pub open spec fn ranking(
    values: Seq<Seq<char>>,
    lowered: Seq<Seq<char>>,
    p: Seq<char>,
) -> SuggestionsView {
    shortened(beginning(values, lowered, p) + holding(values, lowered, p))
}

/// The values of a list that are offered: those that hold `p`, but not `p` itself;
/// all of them where nothing has been typed.
pub open spec fn listed(
    values: Seq<Seq<char>>,
    lowered: Seq<Seq<char>>,
    p: Seq<char>,
) -> Seq<Seq<char>>
    decreases values.len(),
{
    if values.len() == 0 {
        Seq::empty()
    } else {
        let before = listed(values.drop_last(), lowered.drop_last(), p);
        if p.len() == 0 || (lowered.last() != p && has_word(lowered.last(), p)) {
            before.push(values.last())
        } else {
            before
        }
    }
}

/// The texts behind `ids`, tagged ones among the formula results; unknown and empty
/// ones left out.
pub open spec fn readable(
    arena: ArenaView,
    formulas: Seq<Seq<char>>,
    ids: Seq<StrId>,
) -> Seq<Seq<char>>
    decreases ids.len(),
{
    if ids.len() == 0 {
        Seq::empty()
    } else {
        let before = readable(arena, formulas, ids.drop_last());
        match arena.resolved_with(ids.last(), formulas) {
            Some(s) => if s.len() > 0 {
                before.push(s)
            } else {
                before
            },
            None => before,
        }
    }
}

/// What is offered of `values` for a typed prefix.
pub open spec fn offered(values: Seq<Seq<char>>, prefix: Seq<char>) -> SuggestionsView {
    if trimmed(prefix).len() < MIN_PREFIX {
        SuggestionsView { items: Seq::empty(), truncated: false }
    } else {
        ranking(values, all_lowercase(values), lowercase(trimmed(prefix)))
    }
}

pub open spec fn all_lowercase(values: Seq<Seq<char>>) -> Seq<Seq<char>> {
    values.map_values(|s: Seq<char>| lowercase(s))
}

fn lower_each(values: &Vec<String>) -> (r: Vec<String>)
    ensures
        texts(r@) == all_lowercase(texts(values@)),
        r@.len() == values@.len(),
{
    let mut r: Vec<String> = Vec::new();
    let mut i: usize = 0;
    while i < values.len()
        invariant
            i <= values@.len(),
            r@.len() == i,
            forall|k: int| 0 <= k < i ==> (#[trigger] r@[k])@ == lowercase(values@[k]@),
        decreases values@.len() - i,
    {
        r.push(to_lowercase(values[i].as_str()));
        i = i + 1;
    }
    assert(texts(r@) =~= all_lowercase(texts(values@)));
    r
}

fn trimmed_text(s: &str) -> (r: String)
    ensures
        r@ == trimmed(s@),
{
    let cs = chars_of(s);
    let n: usize = cs.len();
    assert(cs@.subrange(0, n as int) =~= cs@);
    string_of(&trim_range(&cs, 0, n))
}

impl Default for Suggestions {
    fn default() -> (s: Suggestions)
        ensures
            s@ == (SuggestionsView { items: Seq::empty(), truncated: false }),
    {
        let s = Suggestions { items: Vec::new(), truncated: false };
        assert(s@.items =~= Seq::<Seq<char>>::empty());
        s
    }
}

impl Clone for Suggestions {
    fn clone(&self) -> (s: Suggestions)
        ensures
            s@ == self@,
    {
        let mut items: Vec<String> = Vec::new();
        let mut i: usize = 0;
        while i < self.items.len()
            invariant
                i <= self.items@.len(),
                items@.len() == i,
                forall|k: int| 0 <= k < i ==> (#[trigger] items@[k])@ == self.items@[k]@,
            decreases self.items@.len() - i,
        {
            items.push(self.items[i].as_str().to_owned());
            i = i + 1;
        }
        let s = Suggestions { items, truncated: self.truncated };
        assert(s@.items =~= self@.items);
        s
    }
}

impl Suggestions {
    pub fn is_empty(&self) -> (b: bool)
        ensures
            b == (self@.items.len() == 0),
    {
        self.items.len() == 0
    }

    pub fn len(&self) -> (n: usize)
        ensures
            n == self@.items.len(),
    {
        self.items.len()
    }

    /// Rank `values` against a prefix, both known by their lowercase forms.
    pub fn rank_lowered(
        values: &Vec<String>,
        lowered: &Vec<String>,
        prefix: &str,
    ) -> (s: Suggestions)
        requires
            values@.len() == lowered@.len(),
        ensures
            s@ == ranking(texts(values@), texts(lowered@), prefix@),
    {
        let mut starts: Vec<String> = Vec::new();
        let mut contains: Vec<String> = Vec::new();
        let ghost vs = texts(values@);
        let ghost ls = texts(lowered@);
        let n: usize = values.len();
        let mut i: usize = 0;
        proof {
            assert(texts(starts@) =~= beginning(vs.subrange(0, 0), ls.subrange(0, 0), prefix@));
            assert(texts(contains@) =~= holding(vs.subrange(0, 0), ls.subrange(0, 0), prefix@));
        }
        while i < n
            invariant
                i <= n == values@.len(),
                lowered@.len() == n,
                vs == texts(values@),
                ls == texts(lowered@),
                texts(starts@) == beginning(
                    vs.subrange(0, i as int),
                    ls.subrange(0, i as int),
                    prefix@,
                ),
                texts(contains@) == holding(
                    vs.subrange(0, i as int),
                    ls.subrange(0, i as int),
                    prefix@,
                ),
            decreases n - i,
        {
            proof {
                let v = vs.subrange(0, i + 1);
                let l = ls.subrange(0, i + 1);
                assert(v.drop_last() =~= vs.subrange(0, i as int));
                assert(l.drop_last() =~= ls.subrange(0, i as int));
                assert(v.last() == values@[i as int]@);
                assert(l.last() == lowered@[i as int]@);
            }
            let ghost had = starts@;
            let ghost held = contains@;
            if !same_text(lowered[i].as_str(), prefix) {
                let low = chars_of(lowered[i].as_str());
                if is_at(&low, 0, prefix) {
                    starts.push(values[i].as_str().to_owned());
                    assert(texts(starts@) =~= texts(had).push(values@[i as int]@));
                } else if contains_str(&low, prefix) {
                    contains.push(values[i].as_str().to_owned());
                    assert(texts(contains@) =~= texts(held).push(values@[i as int]@));
                }
            }
            i = i + 1;
        }
        assert(vs.subrange(0, n as int) =~= vs);
        assert(ls.subrange(0, n as int) =~= ls);
        let ghost first = starts@;
        let ghost second = contains@;
        starts.append(&mut contains);
        assert(texts(starts@) =~= texts(first) + texts(second));
        shorten(starts)
    }

    /// Rank `distinct` against what the user has typed, ignoring case. Ids of text
    /// that formulas produced are read there. A value identical to what was typed is
    /// not offered: it would only make Enter ambiguous.
    pub fn rank(
        distinct: &DistinctValues,
        arena: &StringArena,
        formulas: &FormulaText,
        prefix: &str,
    ) -> (s: Suggestions)
        requires
            arena@.sound(),
        ensures
            s@ == offered(readable(arena@, formulas@, distinct@.ids), prefix@),
    {
        let p = trimmed_text(prefix);
        if chars_of(p.as_str()).len() < MIN_PREFIX {
            return Suggestions::default();
        }
        let lower = to_lowercase(p.as_str());
        let mut values: Vec<String> = Vec::new();
        let n: usize = distinct.ids.len();
        let ghost ids = distinct.ids@;
        let mut i: usize = 0;
        assert(texts(values@) =~= readable(arena@, formulas@, ids.subrange(0, 0)));
        while i < n
            invariant
                arena@.sound(),
                i <= n == ids.len(),
                ids == distinct.ids@,
                texts(values@) == readable(arena@, formulas@, ids.subrange(0, i as int)),
            decreases n - i,
        {
            proof {
                let v = ids.subrange(0, i + 1);
                assert(v.drop_last() =~= ids.subrange(0, i as int));
                assert(v.last() == ids[i as int]);
            }
            let ghost had = values@;
            let s = arena.resolve_or_empty(distinct.ids[i], formulas);
            if chars_of(s).len() > 0 {
                values.push(s.to_owned());
                assert(texts(values@) =~= texts(had).push(s@));
            }
            i = i + 1;
        }
        assert(ids.subrange(0, n as int) =~= ids);
        let lowered = lower_each(&values);
        Suggestions::rank_lowered(&values, &lowered, lower.as_str())
    }

    /// The values of a list that match a prefix, both known by their lowercase forms.
    pub fn from_list_lowered(
        values: &Vec<String>,
        lowered: &Vec<String>,
        prefix: &str,
    ) -> (s: Suggestions)
        requires
            values@.len() == lowered@.len(),
        ensures
            s@ == shortened(listed(texts(values@), texts(lowered@), prefix@)),
    {
        let all = chars_of(prefix).len() == 0;
        let mut items: Vec<String> = Vec::new();
        let mut total: usize = 0;
        let ghost vs = texts(values@);
        let ghost ls = texts(lowered@);
        let n: usize = values.len();
        let mut i: usize = 0;
        proof {
            assert(listed(vs.subrange(0, 0), ls.subrange(0, 0), prefix@).len() == 0);
            assert(texts(items@) =~= shortened(
                listed(vs.subrange(0, 0), ls.subrange(0, 0), prefix@),
            ).items);
        }
        while i < n
            invariant
                i <= n == values@.len(),
                lowered@.len() == n,
                all == (prefix@.len() == 0),
                vs == texts(values@),
                ls == texts(lowered@),
                total <= i,
                total == listed(vs.subrange(0, i as int), ls.subrange(0, i as int), prefix@).len(),
                texts(items@) == shortened(
                    listed(vs.subrange(0, i as int), ls.subrange(0, i as int), prefix@),
                ).items,
            decreases n - i,
        {
            let ghost before = listed(
                vs.subrange(0, i as int),
                ls.subrange(0, i as int),
                prefix@,
            );
            proof {
                let v = vs.subrange(0, i + 1);
                let l = ls.subrange(0, i + 1);
                assert(v.drop_last() =~= vs.subrange(0, i as int));
                assert(l.drop_last() =~= ls.subrange(0, i as int));
                assert(v.last() == values@[i as int]@);
                assert(l.last() == lowered@[i as int]@);
            }
            let ghost had = items@;
            let hit = if all {
                true
            } else if same_text(lowered[i].as_str(), prefix) {
                false
            } else {
                let low = chars_of(lowered[i].as_str());
                contains_str(&low, prefix)
            };
            if hit {
                total = total + 1;
                if items.len() < MAX_SUGGESTIONS {
                    items.push(values[i].as_str().to_owned());
                    assert(texts(items@) =~= texts(had).push(values@[i as int]@));
                }
                proof {
                    let after = before.push(values@[i as int]@);
                    assert(texts(items@).len() == items@.len());
                    assert(texts(had).len() == had.len());
                    assert(texts(items@) =~= shortened(after).items);
                }
            }
            i = i + 1;
        }
        assert(vs.subrange(0, n as int) =~= vs);
        assert(ls.subrange(0, n as int) =~= ls);
        Suggestions { items, truncated: total > MAX_SUGGESTIONS }
    }

    /// Suggestions out of an explicit list, such as a validation rule's: a cell with
    /// such a rule has an authoritative set of values, so those are offered and not
    /// whatever is in the column. With nothing typed the whole list is offered.
    pub fn from_list(values: &Vec<String>, prefix: &str) -> (s: Suggestions)
        ensures
            s@ == shortened(
                listed(
                    texts(values@),
                    all_lowercase(texts(values@)),
                    lowercase(trimmed(prefix@)),
                ),
            ),
    {
        let p = trimmed_text(prefix);
        let lower = to_lowercase(p.as_str());
        let lowered = lower_each(values);
        Suggestions::from_list_lowered(values, &lowered, lower.as_str())
    }
}

fn shorten(values: Vec<String>) -> (s: Suggestions)
    ensures
        s@ == shortened(texts(values@)),
{
    let mut items = values;
    let truncated = items.len() > MAX_SUGGESTIONS;
    if truncated {
        items.truncate(MAX_SUGGESTIONS);
    }
    let s = Suggestions { items, truncated };
    assert(s@.items =~= shortened(texts(values@)).items);
    s
}

// ------------------------------------------------------------------- laws --

/// A scan reads no more rows than it was allowed, and remembers no more values
/// than [`MAX_DISTINCT`], however long the column is.
pub proof fn a_scan_is_bounded(cells: Seq<Value>, around: int, budget: ScanBudget)
    requires
        budget.rows_examined == 0,
    ensures
        scan_of(cells, around, budget).budget.rows_examined <= budget.limit,
        scan_of(cells, around, budget).ids.len() <= MAX_DISTINCT,
{
    let rows = cells.len() as int;
    if rows > 0 && budget.limit > 0 {
        lemma_met_bounded(
            cells,
            window_start(rows, around, budget.limit as int),
            smaller(budget.limit as int, rows),
        );
    }
}

proof fn lemma_met_bounded(cells: Seq<Value>, start: int, steps: int)
    ensures
        met(cells, start, steps).len() <= MAX_DISTINCT,
    decreases steps,
{
    if steps > 0 {
        lemma_met_bounded(cells, start, steps - 1);
    }
}

/// A scan lists no value twice.
pub proof fn a_scan_lists_each_text_once(cells: Seq<Value>, around: int, budget: ScanBudget)
    ensures
        scan_of(cells, around, budget).ids.no_duplicates(),
{
    let rows = cells.len() as int;
    if rows > 0 && budget.limit > 0 {
        lemma_met_once(
            cells,
            window_start(rows, around, budget.limit as int),
            smaller(budget.limit as int, rows),
        );
    }
}

proof fn lemma_met_once(cells: Seq<Value>, start: int, steps: int)
    ensures
        met(cells, start, steps).no_duplicates(),
    decreases steps,
{
    if steps > 0 {
        lemma_met_once(cells, start, steps - 1);
        let before = met(cells, start, steps - 1);
        let after = met(cells, start, steps);
        assert forall|i: int, j: int|
            0 <= i < after.len() && 0 <= j < after.len() && i != j implies after[i] != after[j] by {
            if i < before.len() {
                assert(before.contains(before[i]));
            }
            if j < before.len() {
                assert(before.contains(before[j]));
            }
        }
    }
}

/// Every text in the column is listed once the scan was allowed to read all of it
/// and dropped nothing; what is listed is always a text of the column.
pub proof fn a_full_scan_lists_every_text(
    cells: Seq<Value>,
    around: int,
    budget: ScanBudget,
    id: StrId,
)
    requires
        cells.len() <= usize::MAX,
        around >= 0,
    ensures
        ({
            let d = scan_of(cells, around, budget);
            &&& d.ids.contains(id) ==> cells.contains(Value::Text(id))
            &&& cells.contains(Value::Text(id)) && !d.budget.truncated && !d.budget.distinct_capped
                ==> d.ids.contains(id)
        }),
{
    let rows = cells.len() as int;
    if rows > 0 && budget.limit > 0 {
        let start = window_start(rows, around, budget.limit as int);
        let steps = smaller(budget.limit as int, rows);
        let d = scan_of(cells, around, budget);
        if d.ids.contains(id) {
            lemma_met_is_read(cells, start, steps, id);
        }
        if cells.contains(Value::Text(id)) && !d.budget.truncated && !d.budget.distinct_capped {
            let row = choose|row: int| 0 <= row < rows && cells[row] == Value::Text(id);
            let k = if row >= start {
                row - start
            } else {
                row - start + rows
            };
            assert(row_of_step(rows, start, k) == row) by {
                if row >= start {
                    assert((start + k) % rows == row) by (nonlinear_arith)
                        requires
                            start + k == row,
                            0 <= row < rows,
                    ;
                } else {
                    assert((start + k) % rows == row) by (nonlinear_arith)
                        requires
                            start + k == row + rows,
                            0 <= row < rows,
                    ;
                }
            }
            lemma_read_is_met(cells, start, steps, k, id);
        }
    }
}

proof fn lemma_met_is_read(cells: Seq<Value>, start: int, steps: int, id: StrId)
    requires
        cells.len() > 0,
        met(cells, start, steps).contains(id),
    ensures
        cells.contains(Value::Text(id)),
    decreases steps,
{
    if steps > 0 {
        let before = met(cells, start, steps - 1);
        let row = row_of_step(cells.len() as int, start, steps - 1);
        assert(0 <= row < cells.len()) by (nonlinear_arith)
            requires
                row == (start + steps - 1) % cells.len() as int,
                cells.len() > 0,
        ;
        if before.contains(id) {
            lemma_met_is_read(cells, start, steps - 1, id);
        } else {
            let after = met(cells, start, steps);
            let i = choose|i: int| 0 <= i < after.len() && after[i] == id;
            if i < before.len() {
                assert(before[i] == id);
            }
            assert(cells[row] == Value::Text(id));
        }
    }
}

proof fn lemma_read_is_met(cells: Seq<Value>, start: int, steps: int, k: int, id: StrId)
    requires
        0 <= k < steps,
        cells[row_of_step(cells.len() as int, start, k)] == Value::Text(id),
        !overfull(cells, start, steps),
    ensures
        met(cells, start, steps).contains(id),
    decreases steps,
{
    let before = met(cells, start, steps - 1);
    let after = met(cells, start, steps);
    if k == steps - 1 {
        assert(!drops(cells, start, k));
        if !before.contains(id) {
            assert(after.last() == id);
        }
    } else {
        assert(!overfull(cells, start, steps - 1)) by {
            if overfull(cells, start, steps - 1) {
                let j = choose|j: int| 0 <= j < steps - 1 && #[trigger] drops(cells, start, j);
                assert(0 <= j < steps && drops(cells, start, j));
            }
        }
        lemma_read_is_met(cells, start, steps - 1, k, id);
        let i = choose|i: int| 0 <= i < before.len() && before[i] == id;
        assert(after[i] == id);
    }
}

/// No more than [`MAX_SUGGESTIONS`] are ever handed out, and the list says so when
/// there were more.
pub proof fn suggestions_are_few(values: Seq<Seq<char>>)
    ensures
        shortened(values).items.len() <= MAX_SUGGESTIONS,
        !shortened(values).truncated ==> shortened(values).items == values,
{
}

/// What was typed is never offered back, neither out of the column nor out of a
/// list.
pub proof fn the_typed_text_is_not_offered(
    values: Seq<Seq<char>>,
    p: Seq<char>,
    value: Seq<char>,
)
    requires
        p.len() > 0,
        lowercase(value) == p,
    ensures
        !ranking(values, all_lowercase(values), p).items.contains(value),
        !shortened(listed(values, all_lowercase(values), p)).items.contains(value),
{
    lemma_not_offered(values, p, value);
    let ranked = beginning(values, all_lowercase(values), p) + holding(
        values,
        all_lowercase(values),
        p,
    );
    let list = listed(values, all_lowercase(values), p);
    if ranked.contains(value) {
        let i = choose|i: int| 0 <= i < ranked.len() && ranked[i] == value;
        let b = beginning(values, all_lowercase(values), p);
        if i < b.len() {
            assert(b[i] == value);
        } else {
            assert(holding(values, all_lowercase(values), p)[i - b.len()] == value);
        }
    }
    lemma_shortened(ranked, value);
    lemma_shortened(list, value);
}

proof fn lemma_shortened(values: Seq<Seq<char>>, value: Seq<char>)
    ensures
        shortened(values).items.contains(value) ==> values.contains(value),
{
    let items = shortened(values).items;
    if items.contains(value) {
        let i = choose|i: int| 0 <= i < items.len() && items[i] == value;
        assert(values[i] == value);
    }
}

proof fn lemma_not_offered(values: Seq<Seq<char>>, p: Seq<char>, value: Seq<char>)
    requires
        p.len() > 0,
        lowercase(value) == p,
    ensures
        !beginning(values, all_lowercase(values), p).contains(value),
        !holding(values, all_lowercase(values), p).contains(value),
        !listed(values, all_lowercase(values), p).contains(value),
    decreases values.len(),
{
    if values.len() > 0 {
        let v = values.drop_last();
        let l = all_lowercase(values);
        assert(l.drop_last() =~= all_lowercase(v));
        assert(l.last() == lowercase(values.last()));
        lemma_not_offered(v, p, value);
        lemma_push(beginning(v, all_lowercase(v), p), values.last(), value);
        lemma_push(holding(v, all_lowercase(v), p), values.last(), value);
        lemma_push(listed(v, all_lowercase(v), p), values.last(), value);
    }
}

proof fn lemma_push(s: Seq<Seq<char>>, x: Seq<char>, value: Seq<char>)
    requires
        !s.contains(value),
    ensures
        s.push(x).contains(value) ==> x == value,
{
    if s.push(x).contains(value) {
        let i = choose|i: int| 0 <= i < s.push(x).len() && s.push(x)[i] == value;
        if i < s.len() {
            assert(s[i] == value);
        }
    }
}

/// `low` holds `p` somewhere.
pub open spec fn holds(low: Seq<char>, p: Seq<char>) -> bool {
    exists|k: int|
        0 <= k && k + p.len() <= low.len() && #[trigger] low.subrange(k, k + p.len()) == p
}

/// `low` starts with `p`.
pub open spec fn starts(low: Seq<char>, p: Seq<char>) -> bool {
    p.len() <= low.len() && low.subrange(0, p.len() as int) == p
}

proof fn lemma_holds(low: Seq<char>, p: Seq<char>)
    requires
        p.len() > 0,
    ensures
        has_word(low, p) == holds(low, p),
{
    lemma_find_word(low, p, 0);
    if has_word(low, p) {
        let k = find_word(low, p, 0);
        assert(low.subrange(k, k + p.len()) == p);
    }
    if holds(low, p) {
        let k = choose|k: int|
            0 <= k && k + p.len() <= low.len() && #[trigger] low.subrange(k, k + p.len()) == p;
        assert(has_at(low, k, p));
    }
}

proof fn lemma_sorted_out(values: Seq<Seq<char>>, p: Seq<char>)
    requires
        p.len() > 0,
    ensures
        forall|j: int|
            0 <= j < beginning(values, all_lowercase(values), p).len() ==> {
                let v = #[trigger] beginning(values, all_lowercase(values), p)[j];
                values.contains(v) && lowercase(v) != p && starts(lowercase(v), p)
            },
        forall|j: int|
            0 <= j < holding(values, all_lowercase(values), p).len() ==> {
                let v = #[trigger] holding(values, all_lowercase(values), p)[j];
                values.contains(v) && lowercase(v) != p && !starts(lowercase(v), p) && holds(
                    lowercase(v),
                    p,
                )
            },
        forall|i: int|
            0 <= i < values.len() && lowercase(#[trigger] values[i]) != p && holds(
                lowercase(values[i]),
                p,
            ) ==> if starts(lowercase(values[i]), p) {
                beginning(values, all_lowercase(values), p).contains(values[i])
            } else {
                holding(values, all_lowercase(values), p).contains(values[i])
            },
    decreases values.len(),
{
    if values.len() > 0 {
        let v = values.drop_last();
        let l = all_lowercase(values);
        assert(l.drop_last() =~= all_lowercase(v));
        assert(l.last() == lowercase(values.last()));
        lemma_sorted_out(v, p);
        lemma_holds(l.last(), p);
        let b = beginning(values, l, p);
        let h = holding(values, l, p);
        let b0 = beginning(v, all_lowercase(v), p);
        let h0 = holding(v, all_lowercase(v), p);
        assert(values[values.len() - 1] == values.last());
        assert forall|j: int| 0 <= j < b.len() implies {
            let w = #[trigger] b[j];
            values.contains(w) && lowercase(w) != p && starts(lowercase(w), p)
        } by {
            if j < b0.len() {
                assert(b[j] == b0[j]);
                let i = choose|i: int| 0 <= i < v.len() && v[i] == b0[j];
                assert(values[i] == b[j]);
            }
        }
        assert forall|j: int| 0 <= j < h.len() implies {
            let w = #[trigger] h[j];
            values.contains(w) && lowercase(w) != p && !starts(lowercase(w), p) && holds(
                lowercase(w),
                p,
            )
        } by {
            if j < h0.len() {
                assert(h[j] == h0[j]);
                let i = choose|i: int| 0 <= i < v.len() && v[i] == h0[j];
                assert(values[i] == h[j]);
            }
        }
        assert forall|i: int|
            0 <= i < values.len() && lowercase(#[trigger] values[i]) != p && holds(
                lowercase(values[i]),
                p,
            ) implies if starts(lowercase(values[i]), p) {
            b.contains(values[i])
        } else {
            h.contains(values[i])
        } by {
            if i < v.len() {
                assert(v[i] == values[i]);
                if starts(lowercase(values[i]), p) {
                    let j = choose|j: int| 0 <= j < b0.len() && b0[j] == v[i];
                    assert(b[j] == values[i]);
                } else {
                    let j = choose|j: int| 0 <= j < h0.len() && h0[j] == v[i];
                    assert(h[j] == values[i]);
                }
            } else if starts(l.last(), p) {
                assert(b[b.len() - 1] == values[i]);
            } else {
                assert(h[h.len() - 1] == values[i]);
            }
        }
    }
}

/// Every value that holds what was typed, in any case of letters and without being it,
/// is offered where there is room; nothing else is; and those that start with it come
/// before those that merely hold it. There is room for eight, and one character brings
/// the list up.
pub proof fn what_holds_the_typed_text_is_offered(
    values: Seq<Seq<char>>,
    prefix: Seq<char>,
    i: int,
    a: int,
    b: int,
)
    requires
        trimmed(prefix).len() >= 1,
        lowercase(trimmed(prefix)).len() > 0,
        0 <= i < values.len(),
    ensures
        ({
            let o = offered(values, prefix);
            let p = lowercase(trimmed(prefix));
            &&& o.items.len() <= 8
            &&& o.truncated ==> o.items.len() == 8
            &&& lowercase(values[i]) != p && holds(lowercase(values[i]), p) ==> o.truncated
                || o.items.contains(values[i])
            &&& 0 <= a < o.items.len() ==> values.contains(o.items[a]) && lowercase(o.items[a])
                != p && holds(lowercase(o.items[a]), p)
            &&& 0 <= a < b < o.items.len() && starts(lowercase(o.items[b]), p) ==> starts(
                lowercase(o.items[a]),
                p,
            )
        }),
{
    let p = lowercase(trimmed(prefix));
    let l = all_lowercase(values);
    lemma_sorted_out(values, p);
    let first = beginning(values, l, p);
    let rest = holding(values, l, p);
    let all = first + rest;
    let o = offered(values, prefix);
    if lowercase(values[i]) != p && holds(lowercase(values[i]), p) {
        if starts(lowercase(values[i]), p) {
            let j = choose|j: int| 0 <= j < first.len() && first[j] == values[i];
            assert(all[j] == values[i]);
        } else {
            let j = choose|j: int| 0 <= j < rest.len() && rest[j] == values[i];
            assert(all[first.len() + j] == values[i]);
        }
    }
    assert forall|k: int| 0 <= k < o.items.len() implies #[trigger] o.items[k] == all[k] by {}
    if 0 <= a < o.items.len() {
        assert(o.items[a] == all[a]);
        if a < first.len() {
            assert(all[a] == first[a]);
            let low = lowercase(first[a]);
            assert(low.subrange(0int, 0int + p.len()) == p);
        } else {
            assert(all[a] == rest[a - first.len()]);
        }
    }
    if 0 <= a < b < o.items.len() {
        assert(o.items[b] == all[b]);
        if b >= first.len() {
            assert(all[b] == rest[b - first.len()]);
        }
    }
}

/// A scan reads a quarter of its rows before the row that is typed into and the rest
/// from there on: a text that stands there is listed, unless the list was full.
pub proof fn the_rows_around_are_read(
    cells: Seq<Value>,
    around: int,
    budget: ScanBudget,
    row: int,
    id: StrId,
)
    requires
        0 <= around < cells.len(),
        0 <= row < cells.len(),
        around - budget.limit / 4 <= row < around - budget.limit / 4 + budget.limit,
        budget.limit > 0,
        cells[row] == Value::Text(id),
    ensures
        scan_of(cells, around, budget).ids.contains(id) || scan_of(
            cells,
            around,
            budget,
        ).budget.distinct_capped,
{
    let rows = cells.len() as int;
    let limit = budget.limit as int;
    let start = window_start(rows, around, limit);
    let steps = smaller(limit, rows);
    let k = row - start;
    assert(0 <= k < steps);
    assert(row_of_step(rows, start, k) == row) by {
        vstd::arithmetic::div_mod::lemma_small_mod(row as nat, rows as nat);
    }
    if !overfull(cells, start, steps) {
        lemma_read_is_met(cells, start, steps, k, id);
    }
}

/// A scan says that it was cut short exactly when the column is longer than its limit.
pub proof fn a_short_scan_says_so(cells: Seq<Value>, around: int, budget: ScanBudget)
    requires
        budget.rows_examined == 0,
    ensures
        scan_of(cells, around, budget).budget.truncated <==> cells.len() > budget.limit,
        !scan_of(cells, around, budget).budget.truncated ==> scan_of(
            cells,
            around,
            budget,
        ).budget.rows_examined == cells.len(),
        scan_of(cells, around, budget).budget.truncated ==> scan_of(
            cells,
            around,
            budget,
        ).budget.rows_examined == budget.limit,
{
}

/// Out of a list every entry that holds what was typed is offered, in any case of
/// letters and without being it; nothing else is, and before anything is typed they all
/// are.
pub proof fn a_list_offers_what_holds_the_typed_text(
    values: Seq<Seq<char>>,
    p: Seq<char>,
    value: Seq<char>,
)
    ensures
        p.len() > 0 ==> (listed(values, all_lowercase(values), p).contains(value)
            <==> values.contains(value) && lowercase(value) != p && holds(lowercase(value), p)),
        p.len() == 0 ==> listed(values, all_lowercase(values), p) == values,
    decreases values.len(),
{
    if values.len() > 0 {
        let v = values.drop_last();
        let l = all_lowercase(values);
        assert(l.drop_last() =~= all_lowercase(v));
        assert(l.last() == lowercase(values.last()));
        a_list_offers_what_holds_the_typed_text(v, p, value);
        let before = listed(v, all_lowercase(v), p);
        let all = listed(values, l, p);
        if p.len() > 0 {
            lemma_holds(l.last(), p);
            if before.contains(value) {
                let i = choose|i: int| 0 <= i < before.len() && before[i] == value;
                assert(all[i] == value);
            }
            if v.contains(value) {
                let i = choose|i: int| 0 <= i < v.len() && v[i] == value;
                assert(values[i] == value);
            }
            if all.contains(value) && !before.contains(value) {
                lemma_push(before, values.last(), value);
                assert(values[values.len() - 1] == value);
            }
            if values.contains(value) && !v.contains(value) {
                let i = choose|i: int| 0 <= i < values.len() && values[i] == value;
                if i < v.len() {
                    assert(v[i] == value);
                }
                assert(values.last() == value);
                if lowercase(value) != p && holds(lowercase(value), p) {
                    assert(all[all.len() - 1] == value);
                }
            }
        } else {
            assert(all =~= values);
        }
    } else {
        assert(listed(values, all_lowercase(values), p) =~= values);
    }
}

/// Every id that stands for a text of at least one character is read, and nothing else.
pub proof fn every_text_behind_an_id_is_read(
    arena: ArenaView,
    formulas: Seq<Seq<char>>,
    ids: Seq<StrId>,
    s: Seq<char>,
)
    ensures
        readable(arena, formulas, ids).contains(s) <==> s.len() > 0 && exists|i: int|
            0 <= i < ids.len() && arena.resolved_with(#[trigger] ids[i], formulas) == Some(s),
    decreases ids.len(),
{
    if ids.len() > 0 {
        let d = ids.drop_last();
        let n = ids.len() - 1;
        every_text_behind_an_id_is_read(arena, formulas, d, s);
        let before = readable(arena, formulas, d);
        let all = readable(arena, formulas, ids);
        assert(ids[n] == ids.last());
        if before.contains(s) {
            let i = choose|i: int| 0 <= i < before.len() && before[i] == s;
            assert(all[i] == s);
            let k = choose|k: int|
                0 <= k < d.len() && arena.resolved_with(#[trigger] d[k], formulas) == Some(s);
            assert(ids[k] == d[k]);
        }
        if all.contains(s) && !before.contains(s) {
            let i = choose|i: int| 0 <= i < all.len() && all[i] == s;
            if i < before.len() {
                assert(before[i] == s);
            }
            assert(arena.resolved_with(ids[n], formulas) == Some(s));
        }
        if s.len() > 0 && (exists|i: int|
            0 <= i < ids.len() && arena.resolved_with(#[trigger] ids[i], formulas) == Some(s)) {
            let i = choose|i: int|
                0 <= i < ids.len() && arena.resolved_with(#[trigger] ids[i], formulas) == Some(s);
            if i < n {
                assert(d[i] == ids[i]);
                assert(before.contains(s));
            } else {
                assert(all[all.len() - 1] == s);
            }
        }
    }
}

} // verus!
