//! All formatting attached to one sheet.

use crate::capacity::{
    at_most_max, capped_mul, capped_total, lemma_capped_factor, lemma_total, text_capacity, texts_fit,
    total,
};
use crate::cellmap::{cell_of, lemma_slots, slot, slot_of, to_cell};
use crate::format::{
    is_general, plan_steps, CellOverride, ColumnFormat, ColumnFormatView, ManualStyle, PlanEntry,
    PlanStep, RangeFormat, RangeFormatView,
};
use crate::keyed::KeyedList;
use crate::rules::{CellStyle, ConditionalRule, NumberFormat, Painter, RuleEval};
use crate::table::{CellRef, Rgb, TableRange};
use crate::value::{Value, F64};
use vstd::layout::size_of;
use vstd::prelude::*;

verus! {

/// Formatting by column, by rectangle and, sparsely, by cell.
#[derive(Clone, Debug, PartialEq)]
pub struct SheetFormat {
    columns: KeyedList<ColumnFormat>,
    /// Later entries win.
    ranges: Vec<RangeFormat>,
    overrides: KeyedList<CellOverride>,
}

#[verifier::ext_equal]
pub ghost struct SheetFormatView {
    pub columns: Map<u32, ColumnFormatView>,
    pub ranges: Seq<RangeFormatView>,
    pub overrides: Map<CellRef, CellOverride>,
}

pub open spec fn columns_of(m: Map<u64, ColumnFormat>) -> Map<u32, ColumnFormatView> {
    Map::new(|c: u32| m.contains_key(c as u64), |c: u32| m[c as u64]@)
}

pub open spec fn overrides_of(m: Map<u64, CellOverride>) -> Map<CellRef, CellOverride> {
    Map::new(|c: CellRef| m.contains_key(slot(c)), |c: CellRef| m[slot(c)])
}

pub open spec fn ranges_of(v: Seq<RangeFormat>) -> Seq<RangeFormatView> {
    v.map_values(|r: RangeFormat| r@)
}

impl View for SheetFormat {
    type V = SheetFormatView;

    closed spec fn view(&self) -> SheetFormatView {
        SheetFormatView {
            columns: columns_of(self.columns@),
            ranges: ranges_of(self.ranges@),
            overrides: overrides_of(self.overrides@),
        }
    }
}

proof fn lemma_column_insert(m: Map<u64, ColumnFormat>, c: u32)
    ensures
        forall|v: ColumnFormat| #[trigger]
            columns_of(m.insert(c as u64, v)) == columns_of(m).insert(c, v@),
{
    assert forall|v: ColumnFormat| #[trigger] columns_of(m.insert(c as u64, v)) == columns_of(
        m,
    ).insert(c, v@) by {
        assert(columns_of(m.insert(c as u64, v)) =~= columns_of(m).insert(c, v@));
    }
}

/// The columns as they are looked up; one that was never formatted has the fresh
/// format.
pub open spec fn column_at(columns: Map<u32, ColumnFormatView>, c: u32) -> ColumnFormatView {
    if columns.contains_key(c) {
        columns[c]
    } else {
        ColumnFormatView::fresh()
    }
}

/// The entries that say something.
pub open spec fn live_columns(columns: Map<u32, ColumnFormatView>) -> Map<u32, ColumnFormatView> {
    columns.restrict(
        Set::new(|c: u32| columns.contains_key(c) && !columns[c].inert()),
    )
}

pub open spec fn live_ranges(ranges: Seq<RangeFormatView>) -> Seq<RangeFormatView>
    decreases ranges.len(),
{
    if ranges.len() == 0 {
        Seq::empty()
    } else {
        let before = live_ranges(ranges.drop_last());
        if ranges.last().inert() {
            before
        } else {
            before.push(ranges.last())
        }
    }
}

/// The rules that are not hand-picked colours.
pub open spec fn without_manual(rules: Seq<ConditionalRule>) -> Seq<ConditionalRule>
    decreases rules.len(),
{
    if rules.len() == 0 {
        Seq::empty()
    } else {
        let before = without_manual(rules.drop_last());
        if rules.last() is Manual {
            before
        } else {
            before.push(rules.last())
        }
    }
}

/// The number of rules in the ranges.
pub open spec fn range_rules(ranges: Seq<RangeFormatView>) -> nat
    decreases ranges.len(),
{
    if ranges.len() == 0 {
        0
    } else {
        range_rules(ranges.drop_last()) + ranges.last().rules.len()
    }
}

/// The number of rules in the columns, taken in an order.
pub open spec fn column_rule_count(columns: Map<u32, ColumnFormatView>, order: Seq<u32>) -> nat
    decreases order.len(),
{
    if order.len() == 0 {
        0
    } else {
        column_rule_count(columns, order.drop_last()) + columns[order.last()].rules.len()
    }
}

impl SheetFormatView {
    pub open spec fn fresh() -> SheetFormatView {
        SheetFormatView { columns: Map::empty(), ranges: Seq::empty(), overrides: Map::empty() }
    }

    pub open spec fn pruned(self) -> SheetFormatView {
        SheetFormatView {
            columns: live_columns(self.columns),
            ranges: live_ranges(self.ranges),
            overrides: self.overrides,
        }
    }

    pub open spec fn with_column(self, c: u32, f: ColumnFormatView) -> SheetFormatView {
        SheetFormatView { columns: self.columns.insert(c, f), ..self }
    }

    pub open spec fn with_range(self, i: int, r: RangeFormatView) -> SheetFormatView {
        SheetFormatView { ranges: self.ranges.update(i, r), ..self }
    }

    /// With a column's number format set. The general format adds no entry.
    pub open spec fn with_format(self, c: u32, format: NumberFormat) -> SheetFormatView {
        if format is General && !self.columns.contains_key(c) {
            self
        } else {
            self.with_column(c, ColumnFormatView { format, ..column_at(self.columns, c) })
        }
    }

    /// With a column painted by hand. The hand-picked rule comes first, so that a
    /// rule driven by values still wins where it matches.
    pub open spec fn with_manual(self, c: u32, manual: ManualStyle) -> SheetFormatView {
        let was = column_at(self.columns, c);
        let rest = without_manual(was.rules);
        self.with_column(
            c,
            ColumnFormatView {
                rules: if manual.blank() {
                    rest
                } else {
                    seq![manual.rule()] + rest
                },
                ..was
            },
        )
    }

    /// The first entry for exactly this rectangle.
    pub open spec fn index_of_range(self, range: TableRange, i: int) -> bool {
        &&& 0 <= i < self.ranges.len()
        &&& self.ranges[i].range == range
        &&& forall|k: int| 0 <= k < i ==> (#[trigger] self.ranges[k]).range != range
    }

    pub open spec fn has_range(self, range: TableRange) -> bool {
        exists|i: int| 0 <= i < self.ranges.len() && (#[trigger] self.ranges[i]).range == range
    }
}

// ----------------------------------------------------------------- moving --

/// Where an entry ends up when it is moved by `delta`, not beyond the ends.
pub open spec fn target(len: int, i: int, delta: int) -> int {
    if i + delta < 0 {
        0
    } else if i + delta >= len {
        len - 1
    } else {
        i + delta
    }
}

/// `v` with its entry `i` taken out and put back at `t`.
pub open spec fn moved<T>(v: Seq<T>, i: int, t: int) -> Seq<T> {
    v.remove(i).insert(t, v[i])
}

fn move_within<T>(v: &mut Vec<T>, i: usize, delta: isize) -> (b: bool)
    ensures
        b == (i < old(v)@.len() && target(old(v)@.len() as int, i as int, delta as int) != i),
        final(v)@ == if b {
            moved(old(v)@, i as int, target(old(v)@.len() as int, i as int, delta as int))
        } else {
            old(v)@
        },
{
    let n: usize = v.len();
    if i >= n {
        return false;
    }
    let to: usize = if delta >= 0 {
        let step: usize = delta as usize;
        if step >= n - 1 - i {
            n - 1
        } else {
            i + step
        }
    } else {
        let step: usize = (-(delta + 1)) as usize;
        if step >= i {
            0
        } else {
            i - step - 1
        }
    };
    if to == i {
        return false;
    }
    let x = v.remove(i);
    v.insert(to, x);
    true
}

// ------------------------------------------------------------------- plan --

/// A column's own rules, for every row.
pub open spec fn column_steps(rules: Seq<ConditionalRule>) -> Seq<PlanStep> {
    rules.map_values(|r: ConditionalRule| PlanStep { rule: r, rows: None })
}

/// A range's rules, for its rows.
pub open spec fn range_steps(r: RangeFormatView) -> Seq<PlanStep> {
    r.rules.map_values(
        |x: ConditionalRule|
            PlanStep { rule: x, rows: Some((r.range.first_row, r.range.last_row)) },
    )
}

/// The rules of the ranges that hold column `c`, in order.
pub open spec fn ranges_plan(ranges: Seq<RangeFormatView>, c: u32) -> Seq<PlanStep>
    decreases ranges.len(),
{
    if ranges.len() == 0 {
        Seq::empty()
    } else {
        let before = ranges_plan(ranges.drop_last(), c);
        let r = ranges.last();
        if r.range.first_col <= c <= r.range.last_col {
            before + range_steps(r)
        } else {
            before
        }
    }
}

/// The rules that can touch column `c`, in the order in which they win.
pub open spec fn plan_of(f: SheetFormatView, c: u32) -> Seq<PlanStep> {
    column_steps(column_at(f.columns, c).rules) + ranges_plan(f.ranges, c)
}

/// The format that the ranges give a cell: that of the last one that holds it and
/// has one.
pub open spec fn range_format(ranges: Seq<RangeFormatView>, cell: CellRef) -> Option<NumberFormat>
    decreases ranges.len(),
{
    if ranges.len() == 0 {
        None
    } else {
        let r = ranges.last();
        if r.range.has(cell.row, cell.col) && r.format is Some {
            r.format
        } else {
            range_format(ranges.drop_last(), cell)
        }
    }
}

/// The number format of a cell: its own where it has one, else that of a range,
/// else that of the column; the general format is none.
pub open spec fn format_of(f: SheetFormatView, cell: CellRef) -> Option<NumberFormat> {
    if f.overrides.contains_key(cell) && f.overrides[cell].format is Some {
        f.overrides[cell].format
    } else {
        let found = match range_format(f.ranges, cell) {
            Some(x) => Some(x),
            None => if f.columns.contains_key(cell.col) {
                Some(f.columns[cell.col].format)
            } else {
                None
            },
        };
        match found {
            Some(x) => if x is General {
                None
            } else {
                Some(x)
            },
            None => None,
        }
    }
}

pub open spec fn eval_at(evals: Seq<RuleEval>, i: int) -> RuleEval {
    if i < evals.len() {
        evals[i]
    } else {
        RuleEval::nothing()
    }
}

impl<C: Fn(Rgb, Rgb, F64, F64, F64) -> Rgb, B: Fn(F64, F64, F64) -> F64> Painter<C, B> {
    /// `states` are the styles while the rules of a plan see a cell one after the
    /// other.
    pub open spec fn walked(
        &self,
        plan: Seq<PlanStep>,
        evals: Seq<RuleEval>,
        row: u32,
        value: Value,
        display: Seq<char>,
        states: Seq<CellStyle>,
    ) -> bool {
        &&& states.len() == plan.len() + 1
        &&& states[0] == CellStyle::plain()
        &&& forall|i: int|
            0 <= i < plan.len() ==> if (#[trigger] plan[i]).reaches(row) {
                self.applied(
                    plan[i].rule,
                    value,
                    display,
                    eval_at(evals, i),
                    states[i],
                    states[i + 1],
                )
            } else {
                states[i + 1] == states[i]
            }
    }

    /// `style` is how a cell looks: the plan's rules, then what was picked by hand
    /// for the cell.
    pub open spec fn resolved(
        &self,
        f: SheetFormatView,
        cell: CellRef,
        value: Value,
        display: Seq<char>,
        plan: Seq<PlanStep>,
        evals: Seq<RuleEval>,
        style: CellStyle,
    ) -> bool {
        exists|states: Seq<CellStyle>|
            {
                &&& #[trigger] self.walked(plan, evals, cell.row, value, display, states)
                &&& style == if f.overrides.contains_key(cell) {
                    let m = f.overrides[cell].manual;
                    states.last().under(m.fill, m.text, m.typography)
                } else {
                    states.last()
                }
            }
    }
}

impl Default for SheetFormat {
    fn default() -> (f: SheetFormat)
        ensures
            f.wf(),
            f@ == SheetFormatView::fresh(),
    {
        SheetFormat::new()
    }
}

impl SheetFormat {
    pub closed spec fn wf(self) -> bool {
        &&& self.columns.wf()
        &&& self.overrides.wf()
        &&& forall|k: u64| #[trigger] self.columns@.contains_key(k) ==> k <= u32::MAX
    }

    /// The formatted columns in order.
    pub closed spec fn column_order(self) -> Seq<u32> {
        self.columns.order().map_values(|k: u64| k as u32)
    }

    /// The order lists every formatted column once, in ascending order.
    pub proof fn columns_are_in_order(self)
        requires
            self.wf(),
        ensures
            forall|i: int, j: int|
                0 <= i < j < self.column_order().len() ==> self.column_order()[i]
                    < self.column_order()[j],
            forall|c: u32| #[trigger]
                self@.columns.contains_key(c) == self.column_order().contains(c),
    {
        self.columns.lemma_order();
        let order = self.columns.order();
        let ours = self.column_order();
        assert forall|i: int| 0 <= i < order.len() implies order[i] <= u32::MAX by {
            assert(order.contains(order[i]));
            assert(self.columns@.contains_key(order[i]));
        }
        assert forall|c: u32| #[trigger] self@.columns.contains_key(c) == ours.contains(c) by {
            if order.contains(c as u64) {
                let i = choose|i: int| 0 <= i < order.len() && order[i] == c as u64;
                assert(ours[i] == c);
            }
            if ours.contains(c) {
                let i = choose|i: int| 0 <= i < ours.len() && ours[i] == c;
                assert(order[i] == c as u64);
                assert(order.contains(c as u64));
                assert(self.columns@.contains_key(c as u64));
            }
        }
    }

    pub fn new() -> (f: SheetFormat)
        ensures
            f.wf(),
            f@ == SheetFormatView::fresh(),
    {
        let f = SheetFormat {
            columns: KeyedList::new(),
            ranges: Vec::new(),
            overrides: KeyedList::new(),
        };
        assert(f@ =~= SheetFormatView::fresh());
        f
    }

    pub fn is_empty(&self) -> (b: bool)
        requires
            self.wf(),
        ensures
            b == (self@ == SheetFormatView::fresh()),
    {
        let b = self.columns.len() == 0 && self.ranges.len() == 0 && self.overrides.len() == 0;
        proof {
            self.columns.lemma_order();
            self.overrides.lemma_order();
            lemma_slots();
            if b {
                assert(self@.columns =~= SheetFormatView::fresh().columns);
                assert(self@.ranges =~= SheetFormatView::fresh().ranges);
                assert(self@.overrides =~= SheetFormatView::fresh().overrides);
                assert(self@ =~= SheetFormatView::fresh());
            } else {
                assert(self@.ranges.len() == self.ranges@.len());
                let fresh = SheetFormatView::fresh();
                if self.columns.order().len() > 0 {
                    let k = self.columns.order()[0];
                    assert(self.columns.order().contains(k));
                    assert(self.columns@.contains_key(k));
                    assert(self@.columns.contains_key(k as u32));
                    assert(!fresh.columns.contains_key(k as u32));
                }
                if self.overrides.order().len() > 0 {
                    let k = self.overrides.order()[0];
                    assert(self.overrides.order().contains(k));
                    assert(self.overrides@.contains_key(k));
                    assert(slot(cell_of(k)) == k);
                    assert(self@.overrides.contains_key(cell_of(k)));
                    assert(!fresh.overrides.contains_key(cell_of(k)));
                }
            }
        }
        b
    }

    /// How many rules there are, in all scopes.
    pub fn rule_count(&self) -> (n: usize)
        requires
            self.wf(),
        ensures
            n == at_most_max(
                (column_rule_count(self@.columns, self.column_order()) + range_rules(
                    self@.ranges,
                )) as int,
            ),
    {
        let mut total: usize = 0;
        let n: usize = self.columns.len();
        let ghost order = self.column_order();
        let mut i: usize = 0;
        while i < n
            invariant
                self.wf(),
                i <= n == self.columns.order().len(),
                order == self.column_order(),
                order.len() == n,
                total == at_most_max(
                    column_rule_count(self@.columns, order.subrange(0, i as int)) as int,
                ),
            decreases n - i,
        {
            let c = self.columns.value(i);
            proof {
                let part = order.subrange(0, i + 1);
                assert(part.drop_last() =~= order.subrange(0, i as int));
                let k = self.columns.order()[i as int];
                assert(self.columns@.contains_key(k));
                assert(part.last() == k as u32);
                assert((k as u32) as u64 == k);
                assert(self@.columns[k as u32] == c@);
            }
            total = total.saturating_add(c.rules.len());
            i = i + 1;
        }
        assert(order.subrange(0, n as int) =~= order);
        let m: usize = self.ranges.len();
        let ghost in_columns = column_rule_count(self@.columns, order);
        let ghost ranges = self@.ranges;
        let mut i: usize = 0;
        assert(ranges.subrange(0, 0) =~= Seq::empty());
        while i < m
            invariant
                i <= m == self.ranges@.len(),
                ranges == ranges_of(self.ranges@),
                total == at_most_max(
                    (in_columns + range_rules(ranges.subrange(0, i as int))) as int,
                ),
            decreases m - i,
        {
            proof {
                let part = ranges.subrange(0, i + 1);
                assert(part.drop_last() =~= ranges.subrange(0, i as int));
                assert(part.last() == self.ranges@[i as int]@);
            }
            total = total.saturating_add(self.ranges[i].rules.len());
            i = i + 1;
        }
        assert(ranges.subrange(0, m as int) =~= ranges);
        total
    }

    pub fn override_count(&self) -> (n: usize)
        requires
            self.wf(),
        ensures
            n == self@.overrides.dom().len(),
            self@.overrides.dom().finite(),
    {
        proof {
            self.overrides.lemma_order();
            lemma_slots();
            let f = |k: u64| cell_of(k);
            let from = self.overrides@.dom();
            let to = self@.overrides.dom();
            assert(from.map(f) =~= to) by {
                assert forall|c: CellRef| to.contains(c) implies from.map(f).contains(c) by {
                    assert(from.contains(slot(c)));
                    assert(f(slot(c)) == c);
                }
                assert forall|c: CellRef| from.map(f).contains(c) implies to.contains(c) by {
                    let k = choose|k: u64| from.contains(k) && f(k) == c;
                    assert(slot(c) == k);
                }
            }
            assert(vstd::relations::injective_on(f, from)) by {
                assert forall|a: u64, b: u64|
                    from.contains(a) && from.contains(b) && #[trigger] f(a) == #[trigger] f(
                        b,
                    ) implies a == b by {
                    assert(slot(cell_of(a)) == a);
                    assert(slot(cell_of(b)) == b);
                }
            }
            vstd::set_lib::lemma_map_size(from, to, f);
        }
        self.overrides.len()
    }

    /// Drop entries that no longer say anything.
    fn prune(&mut self)
        requires
            old(self).wf(),
        ensures
            final(self).wf(),
            final(self)@ == old(self)@.pruned(),
    {
        let ghost was = self.columns@;
        let mut i: usize = 0;
        while i < self.columns.len()
            invariant
                self.columns.wf(),
                self.overrides.wf(),
                i <= self.columns.order().len(),
                forall|k: u64| #[trigger] was.contains_key(k) ==> k <= u32::MAX,
                forall|k: u64| #[trigger]
                    self.columns@.contains_key(k) ==> was.contains_key(k) && self.columns@[k]
                        == was[k],
                forall|k: u64| #[trigger]
                    was.contains_key(k) && !self.columns@.contains_key(k) ==> was[k]@.inert(),
                forall|j: int|
                    0 <= j < i ==> !self.columns@[#[trigger] self.columns.order()[j]]@.inert(),
                self.ranges == old(self).ranges,
                self.overrides == old(self).overrides,
            decreases self.columns.order().len() - i,
        {
            if self.columns.value(i).is_empty() {
                let ghost order = self.columns.order();
                let ghost m = self.columns@;
                proof {
                    self.columns.lemma_order();
                }
                let gone = self.columns.remove_at(i);
                proof {
                    assert forall|j: int| 0 <= j < i implies !self.columns@[
                    #[trigger] self.columns.order()[j]]@.inert() by {
                        assert(self.columns.order()[j] == order[j]);
                        assert(order[j] < order[i as int]);
                    }
                }
            } else {
                i = i + 1;
            }
        }
        proof {
            self.columns.lemma_order();
            assert forall|k: u64| #[trigger] self.columns@.contains_key(
                k,
            ) implies !self.columns@[k]@.inert() by {
                assert(self.columns.order().contains(k));
                let j = choose|j: int|
                    0 <= j < self.columns.order().len() && self.columns.order()[j] == k;
                assert(!self.columns@[self.columns.order()[j]]@.inert());
            }
            assert(columns_of(self.columns@) =~= live_columns(columns_of(was)));
        }
        prune_ranges(&mut self.ranges);
        assert(self@ =~= old(self)@.pruned());
    }

    // --- column scope ---

    pub fn column(&self, col: u32) -> (r: Option<&ColumnFormat>)
        requires
            self.wf(),
        ensures
            match r {
                Some(c) => self@.columns.contains_key(col) && c@ == self@.columns[col],
                None => !self@.columns.contains_key(col),
            },
    {
        self.columns.get(col as u64)
    }

    /// A column's format, to change in place; made where there is none.
    pub fn column_mut(&mut self, col: u32) -> (r: &mut ColumnFormat)
        requires
            old(self).wf(),
        ensures
            final(self).wf(),
            r@ == column_at(old(self)@.columns, col),
            final(self)@ == old(self)@.with_column(col, final(r)@),
    {
        proof {
            lemma_column_insert(self.columns@, col);
        }
        self.columns.entry(col as u64, ColumnFormat::default())
    }

    /// The formatted columns with their formats, in order.
    pub fn columns(&self) -> (v: Vec<(u32, &ColumnFormat)>)
        requires
            self.wf(),
        ensures
            v@.len() == self.column_order().len(),
            forall|i: int|
                0 <= i < v@.len() ==> (#[trigger] v@[i]).0 == self.column_order()[i] && v@[i].1@
                    == self@.columns[v@[i].0],
    {
        let n: usize = self.columns.len();
        let mut v: Vec<(u32, &ColumnFormat)> = Vec::with_capacity(n);
        let mut i: usize = 0;
        while i < n
            invariant
                self.wf(),
                i <= n == self.columns.order().len(),
                v@.len() == i,
                forall|k: int|
                    0 <= k < i ==> (#[trigger] v@[k]).0 == self.column_order()[k] && v@[k].1@
                        == self@.columns[v@[k].0],
            decreases n - i,
        {
            let k: u64 = self.columns.key(i);
            let c = self.columns.value(i);
            assert((k as u32) as u64 == k);
            v.push((k as u32, c));
            i = i + 1;
        }
        v
    }

    /// Set a column's number format. The general format removes it.
    pub fn set_column_format(&mut self, col: u32, format: NumberFormat)
        requires
            old(self).wf(),
        ensures
            final(self).wf(),
            final(self)@ == old(self)@.with_format(col, format).pruned(),
    {
        if is_general(&format) {
            if self.column(col).is_some() {
                let c = self.column_mut(col);
                c.format = format;
            }
        } else {
            let c = self.column_mut(col);
            c.format = format;
        }
        assert(self@ =~= old(self)@.with_format(col, format));
        self.prune();
    }

    /// Paint a whole column: one rule without a condition, whatever the rows. An
    /// empty style clears it.
    pub fn set_column_manual(&mut self, col: u32, manual: ManualStyle)
        requires
            old(self).wf(),
        ensures
            final(self).wf(),
            final(self)@ == old(self)@.with_manual(col, manual).pruned(),
    {
        let blank = manual.is_empty();
        let c = self.column_mut(col);
        drop_manual(&mut c.rules);
        if !blank {
            let ghost rest = c.rules@;
            c.rules.insert(
                0,
                ConditionalRule::Manual {
                    fill: manual.fill,
                    text: manual.text,
                    typography: manual.typography,
                },
            );
            assert(c.rules@ =~= seq![manual.rule()] + rest);
        }
        assert(self@ =~= old(self)@.with_manual(col, manual));
        self.prune();
    }

    /// Append a rule to a column; its index among the column's rules.
    pub fn push_column_rule(&mut self, col: u32, rule: ConditionalRule) -> (i: usize)
        requires
            old(self).wf(),
        ensures
            final(self).wf(),
            ({
                let was = column_at(old(self)@.columns, col);
                &&& i == was.rules.len()
                &&& final(self)@ == old(self)@.with_column(
                    col,
                    ColumnFormatView { rules: was.rules.push(rule), ..was },
                )
            }),
    {
        let c = self.column_mut(col);
        let n: usize = c.rules.len();
        c.rules.push(rule);
        n
    }

    /// A column's rules, in the order in which they win. Asking makes no entry.
    pub fn column_rules(&self, col: u32) -> (v: &[ConditionalRule])
        requires
            self.wf(),
        ensures
            v@ == column_at(self@.columns, col).rules,
    {
        match self.column(col) {
            Some(c) => c.rules.as_slice(),
            None => {
                let none: &[ConditionalRule] = &[];
                assert(none@ =~= Seq::<ConditionalRule>::empty());
                none
            },
        }
    }

    /// Replace one rule of a column, keeping its place in the order; whether there
    /// was one.
    pub fn set_column_rule(&mut self, col: u32, i: usize, rule: ConditionalRule) -> (b: bool)
        requires
            old(self).wf(),
        ensures
            final(self).wf(),
            b == (i < column_at(old(self)@.columns, col).rules.len()),
            final(self)@ == if b {
                let was = old(self)@.columns[col];
                old(self)@.with_column(
                    col,
                    ColumnFormatView { rules: was.rules.update(i as int, rule), ..was },
                )
            } else {
                old(self)@
            },
    {
        match self.column(col) {
            Some(c) => {
                if i >= c.rules.len() {
                    return false;
                }
            },
            None => {
                return false;
            },
        }
        let c = self.column_mut(col);
        c.rules.set(i, rule);
        true
    }

    // --- range scope ---

    pub fn ranges(&self) -> (v: &[RangeFormat])
        ensures
            ranges_of(v@) == self@.ranges,
    {
        self.ranges.as_slice()
    }

    pub fn range_mut(&mut self, i: usize) -> (r: Option<&mut RangeFormat>)
        requires
            old(self).wf(),
        ensures
            final(self).wf(),
            match r {
                Some(f) => i < old(self)@.ranges.len() && f@ == old(self)@.ranges[i as int]
                    && final(self)@ == old(self)@.with_range(i as int, final(f)@),
                None => i >= old(self)@.ranges.len() && final(self)@ == old(self)@,
            },
    {
        if i < self.ranges.len() {
            proof {
                lemma_range_set(self.ranges@, i as int);
            }
            let f = &mut self.ranges[i];
            Some(f)
        } else {
            None
        }
    }

    pub fn push_range(&mut self, rf: RangeFormat) -> (i: usize)
        requires
            old(self).wf(),
        ensures
            final(self).wf(),
            i == old(self)@.ranges.len(),
            final(self)@ == (SheetFormatView { ranges: old(self)@.ranges.push(rf@), ..old(self)@ }),
    {
        let n: usize = self.ranges.len();
        self.ranges.push(rf);
        assert(self@.ranges =~= old(self)@.ranges.push(rf@));
        n
    }

    /// Colour a rectangle: one entry, whatever its size.
    pub fn set_range_manual(&mut self, range: TableRange, manual: ManualStyle) -> (i: usize)
        requires
            old(self).wf(),
        ensures
            final(self).wf(),
            i == old(self)@.ranges.len(),
            final(self)@ == (SheetFormatView {
                ranges: old(self)@.ranges.push(
                    RangeFormatView { range, format: None, rules: seq![manual.rule()] },
                ),
                ..old(self)@
            }),
    {
        let rule = ConditionalRule::Manual {
            fill: manual.fill,
            text: manual.text,
            typography: manual.typography,
        };
        let rf = RangeFormat::new(range).with_rule(rule);
        assert(rf@.rules =~= seq![manual.rule()]);
        self.push_range(rf)
    }

    pub fn remove_range(&mut self, i: usize) -> (r: Option<RangeFormat>)
        requires
            old(self).wf(),
        ensures
            final(self).wf(),
            match r {
                Some(f) => i < old(self)@.ranges.len() && f@ == old(self)@.ranges[i as int]
                    && final(self)@ == (SheetFormatView {
                    ranges: old(self)@.ranges.remove(i as int),
                    ..old(self)@
                }),
                None => i >= old(self)@.ranges.len() && final(self)@ == old(self)@,
            },
    {
        if i < self.ranges.len() {
            let f = self.ranges.remove(i);
            assert(self@.ranges =~= old(self)@.ranges.remove(i as int));
            Some(f)
        } else {
            None
        }
    }

    /// The entry for exactly `range`, if there is one. Two selections that overlap
    /// are two lists of rules.
    pub fn range_index_of(&self, range: TableRange) -> (r: Option<usize>)
        ensures
            match r {
                Some(i) => self@.index_of_range(range, i as int),
                None => !self@.has_range(range),
            },
    {
        let n: usize = self.ranges.len();
        let mut i: usize = 0;
        while i < n
            invariant
                i <= n == self.ranges@.len(),
                forall|k: int| 0 <= k < i ==> (#[trigger] self@.ranges[k]).range != range,
            decreases n - i,
        {
            assert(self@.ranges[i as int] == self.ranges@[i as int]@);
            if self.ranges[i].range == range {
                return Some(i);
            }
            i = i + 1;
        }
        None
    }

    /// The rules on exactly `range`, in the order in which they win.
    pub fn rules_for_range(&self, range: TableRange) -> (v: &[ConditionalRule])
        ensures
            if self@.has_range(range) {
                exists|i: int| #[trigger]
                    self@.index_of_range(range, i) && v@ == self@.ranges[i].rules
            } else {
                v@.len() == 0
            },
    {
        match self.range_index_of(range) {
            Some(i) => {
                assert(self@.ranges[i as int] == self.ranges@[i as int]@);
                self.ranges[i].rules.as_slice()
            },
            None => {
                let none: &[ConditionalRule] = &[];
                none
            },
        }
    }

    /// Append a rule to the entry for `range`, made where there is none; the indices
    /// of the entry and of the rule in it.
    pub fn push_rule_for_range(
        &mut self,
        range: TableRange,
        rule: ConditionalRule,
    ) -> (r: (usize, usize))
        requires
            old(self).wf(),
        ensures
            final(self).wf(),
            if old(self)@.has_range(range) {
                let was = old(self)@.ranges[r.0 as int];
                &&& old(self)@.index_of_range(range, r.0 as int)
                &&& r.1 == was.rules.len()
                &&& final(self)@ == old(self)@.with_range(
                    r.0 as int,
                    RangeFormatView { rules: was.rules.push(rule), ..was },
                )
            } else {
                &&& r == (old(self)@.ranges.len() as usize, 0usize)
                &&& final(self)@ == (SheetFormatView {
                    ranges: old(self)@.ranges.push(
                        RangeFormatView { range, format: None, rules: seq![rule] },
                    ),
                    ..old(self)@
                })
            },
    {
        match self.range_index_of(range) {
            Some(i) => {
                proof {
                    lemma_range_set(self.ranges@, i as int);
                }
                let f = &mut self.ranges[i];
                let n: usize = f.rules.len();
                f.rules.push(rule);
                (i, n)
            },
            None => {
                let rf = RangeFormat::new(range).with_rule(rule);
                assert(rf@.rules =~= seq![rule]);
                let i: usize = self.push_range(rf);
                (i, 0)
            },
        }
    }

    /// Replace one rule of a range, keeping its place in the order; whether there
    /// was one.
    pub fn set_range_rule(
        &mut self,
        range_index: usize,
        i: usize,
        rule: ConditionalRule,
    ) -> (b: bool)
        requires
            old(self).wf(),
        ensures
            final(self).wf(),
            b == (range_index < old(self)@.ranges.len() && i
                < old(self)@.ranges[range_index as int].rules.len()),
            final(self)@ == if b {
                let was = old(self)@.ranges[range_index as int];
                old(self)@.with_range(
                    range_index as int,
                    RangeFormatView { rules: was.rules.update(i as int, rule), ..was },
                )
            } else {
                old(self)@
            },
    {
        if range_index >= self.ranges.len() {
            return false;
        }
        assert(self@.ranges[range_index as int] == self.ranges@[range_index as int]@);
        if i >= self.ranges[range_index].rules.len() {
            return false;
        }
        proof {
            lemma_range_set(self.ranges@, range_index as int);
        }
        let f = &mut self.ranges[range_index];
        f.rules.set(i, rule);
        true
    }

    // --- single cells ---

    pub fn cell_override(&self, cell: CellRef) -> (r: Option<&CellOverride>)
        requires
            self.wf(),
        ensures
            match r {
                Some(o) => self@.overrides.contains_key(cell) && *o == self@.overrides[cell],
                None => !self@.overrides.contains_key(cell),
            },
    {
        self.overrides.get(slot_of(cell))
    }

    /// Set what is picked by hand for one cell. An empty one removes the entry.
    pub fn set_cell_override(&mut self, cell: CellRef, ov: CellOverride)
        requires
            old(self).wf(),
        ensures
            final(self).wf(),
            final(self)@ == (SheetFormatView {
                overrides: if ov.inert() {
                    old(self)@.overrides.remove(cell)
                } else {
                    old(self)@.overrides.insert(cell, ov)
                },
                ..old(self)@
            }),
    {
        proof {
            lemma_slots();
        }
        let k: u64 = slot_of(cell);
        let ghost m = self.overrides@;
        if ov.is_empty() {
            let gone = self.overrides.remove(k);
            assert(overrides_of(m.remove(k)) =~= overrides_of(m).remove(cell));
        } else {
            let gone = self.overrides.insert(k, ov);
            assert(overrides_of(m.insert(k, ov)) =~= overrides_of(m).insert(cell, ov));
        }
    }

    /// The cells with an entry of their own, row by row.
    pub fn overrides(&self) -> (v: Vec<(CellRef, &CellOverride)>)
        requires
            self.wf(),
        ensures
            forall|i: int|
                0 <= i < v@.len() ==> self@.overrides.contains_key((#[trigger] v@[i]).0)
                    && *v@[i].1 == self@.overrides[v@[i].0],
            forall|i: int, j: int|
                0 <= i < j < v@.len() ==> slot((#[trigger] v@[i]).0) < slot((#[trigger] v@[j]).0),
            forall|c: CellRef| #[trigger]
                self@.overrides.contains_key(c) ==> exists|i: int|
                    0 <= i < v@.len() && (#[trigger] v@[i]).0 == c,
    {
        proof {
            self.overrides.lemma_order();
            lemma_slots();
        }
        let n: usize = self.overrides.len();
        let ghost order = self.overrides.order();
        let mut v: Vec<(CellRef, &CellOverride)> = Vec::with_capacity(n);
        let mut i: usize = 0;
        while i < n
            invariant
                self.wf(),
                order == self.overrides.order(),
                i <= n == order.len(),
                v@.len() == i,
                forall|k: int|
                    0 <= k < i ==> slot((#[trigger] v@[k]).0) == order[k] && *v@[k].1
                        == self.overrides@[order[k]] && self.overrides@.contains_key(order[k]),
            decreases n - i,
        {
            proof {
                lemma_slots();
            }
            let k: u64 = self.overrides.key(i);
            let o = self.overrides.value(i);
            let c = to_cell(k);
            assert(slot(cell_of(k)) == k);
            v.push((c, o));
            i = i + 1;
        }
        proof {
            assert forall|c: CellRef| #[trigger] self@.overrides.contains_key(c) implies exists|
                i: int,
            |
                0 <= i < v@.len() && (#[trigger] v@[i]).0 == c by {
                assert(order.contains(slot(c)));
                let k = choose|k: int| 0 <= k < order.len() && order[k] == slot(c);
                assert(slot(v@[k].0) == slot(c));
                assert(cell_of(slot(v@[k].0)) == v@[k].0 && cell_of(slot(c)) == c);
                assert(v@[k].0 == c);
            }
        }
        v
    }

    // --- reordering ---

    /// Move a column's rule later, towards winning, or earlier; whether it moved.
    pub fn move_column_rule(&mut self, col: u32, i: usize, delta: isize) -> (b: bool)
        requires
            old(self).wf(),
        ensures
            final(self).wf(),
            ({
                let was = column_at(old(self)@.columns, col);
                let to = target(was.rules.len() as int, i as int, delta as int);
                &&& b == (i < was.rules.len() && to != i)
                &&& final(self)@ == if b {
                    old(self)@.with_column(
                        col,
                        ColumnFormatView { rules: moved(was.rules, i as int, to), ..was },
                    )
                } else {
                    old(self)@
                }
            }),
    {
        if self.column(col).is_none() {
            return false;
        }
        let c = self.column_mut(col);
        let ghost had = *c;
        let b = move_within(&mut c.rules, i, delta);
        assert(self@.columns =~= if b {
            self@.columns
        } else {
            old(self)@.columns
        });
        b
    }

    pub fn move_range_rule(&mut self, range_index: usize, i: usize, delta: isize) -> (b: bool)
        requires
            old(self).wf(),
        ensures
            final(self).wf(),
            range_index >= old(self)@.ranges.len() ==> !b && final(self)@ == old(self)@,
            range_index < old(self)@.ranges.len() ==> {
                let was = old(self)@.ranges[range_index as int];
                let to = target(was.rules.len() as int, i as int, delta as int);
                &&& b == (i < was.rules.len() && to != i)
                &&& final(self)@ == if b {
                    old(self)@.with_range(
                        range_index as int,
                        RangeFormatView { rules: moved(was.rules, i as int, to), ..was },
                    )
                } else {
                    old(self)@
                }
            },
    {
        if range_index >= self.ranges.len() {
            return false;
        }
        proof {
            lemma_range_set(self.ranges@, range_index as int);
        }
        let f = &mut self.ranges[range_index];
        let b = move_within(&mut f.rules, i, delta);
        assert(self@.ranges =~= if b {
            self@.ranges
        } else {
            old(self)@.ranges
        });
        b
    }

    /// Move a whole range entry in the order in which the entries win.
    pub fn move_range(&mut self, i: usize, delta: isize) -> (b: bool)
        requires
            old(self).wf(),
        ensures
            final(self).wf(),
            ({
                let was = old(self)@.ranges;
                let to = target(was.len() as int, i as int, delta as int);
                &&& b == (i < was.len() && to != i)
                &&& final(self)@ == (SheetFormatView {
                    ranges: if b {
                        moved(was, i as int, to)
                    } else {
                        was
                    },
                    ..old(self)@
                })
            }),
    {
        let b = move_within(&mut self.ranges, i, delta);
        proof {
            let was = old(self)@.ranges;
            if b {
                let to = target(was.len() as int, i as int, delta as int);
                assert(self@.ranges =~= moved(was, i as int, to));
            }
        }
        b
    }

    /// Take one rule of a column out.
    pub fn remove_column_rule(&mut self, col: u32, i: usize) -> (r: Option<ConditionalRule>)
        requires
            old(self).wf(),
        ensures
            final(self).wf(),
            ({
                let was = column_at(old(self)@.columns, col);
                match r {
                    Some(rule) => i < was.rules.len() && rule == was.rules[i as int] && final(self)@
                        == old(self)@.with_column(
                        col,
                        ColumnFormatView { rules: was.rules.remove(i as int), ..was },
                    ).pruned(),
                    None => i >= was.rules.len() && final(self)@ == old(self)@,
                }
            }),
    {
        match self.column(col) {
            Some(c) => {
                if i >= c.rules.len() {
                    return None;
                }
            },
            None => {
                return None;
            },
        }
        let c = self.column_mut(col);
        let rule = c.rules.remove(i);
        self.prune();
        Some(rule)
    }

    /// Take one rule of a range out.
    pub fn remove_range_rule(&mut self, range_index: usize, i: usize) -> (r: Option<
        ConditionalRule,
    >)
        requires
            old(self).wf(),
        ensures
            final(self).wf(),
            ({
                let had = range_index < old(self)@.ranges.len() && i
                    < old(self)@.ranges[range_index as int].rules.len();
                match r {
                    Some(rule) => {
                        let was = old(self)@.ranges[range_index as int];
                        had && rule == was.rules[i as int] && final(self)@ == old(self)@.with_range(
                            range_index as int,
                            RangeFormatView { rules: was.rules.remove(i as int), ..was },
                        ).pruned()
                    },
                    None => !had && final(self)@ == old(self)@,
                }
            }),
    {
        if range_index >= self.ranges.len() {
            return None;
        }
        assert(self@.ranges[range_index as int] == self.ranges@[range_index as int]@);
        if i >= self.ranges[range_index].rules.len() {
            return None;
        }
        proof {
            lemma_range_set(self.ranges@, range_index as int);
        }
        let f = &mut self.ranges[range_index];
        let rule = f.rules.remove(i);
        self.prune();
        Some(rule)
    }

    // --- resolution ---

    /// Collect the rules that can touch `col` into `out`, in the order in which they
    /// win: the column's, then those of the ranges that hold it.
    pub fn plan<'a>(&'a self, col: u32, out: &mut Vec<PlanEntry<'a>>)
        requires
            self.wf(),
        ensures
            plan_steps(final(out)@) == plan_of(self@, col),
    {
        out.clear();
        if let Some(c) = self.column(col) {
            let n: usize = c.rules.len();
            let mut i: usize = 0;
            while i < n
                invariant
                    i <= n == c.rules@.len(),
                    out@.len() == i,
                    forall|k: int|
                        0 <= k < i ==> (#[trigger] out@[k])@ == (PlanStep {
                            rule: c.rules@[k],
                            rows: None,
                        }),
                decreases n - i,
            {
                out.push(PlanEntry { rule: &c.rules[i], rows: None });
                i = i + 1;
            }
        }
        let ghost head = column_steps(column_at(self@.columns, col).rules);
        let ghost ranges = self@.ranges;
        let n: usize = self.ranges.len();
        let mut i: usize = 0;
        proof {
            assert(plan_steps(out@) =~= head);
            assert(ranges.subrange(0, 0) =~= Seq::empty());
            assert(head + ranges_plan(ranges.subrange(0, 0), col) =~= head);
        }
        while i < n
            invariant
                i <= n == self.ranges@.len(),
                ranges == ranges_of(self.ranges@),
                plan_steps(out@) == head + ranges_plan(ranges.subrange(0, i as int), col),
            decreases n - i,
        {
            let rf = &self.ranges[i];
            let ghost before = out@;
            let ghost part = ranges.subrange(0, i + 1);
            proof {
                assert(part.drop_last() =~= ranges.subrange(0, i as int));
                assert(part.last() == rf@);
            }
            if rf.range.first_col <= col && col <= rf.range.last_col {
                let m: usize = rf.rules.len();
                let mut j: usize = 0;
                while j < m
                    invariant
                        j <= m == rf.rules@.len(),
                        out@.len() == before.len() + j,
                        forall|k: int| 0 <= k < before.len() ==> out@[k] == before[k],
                        forall|k: int|
                            before.len() <= k < out@.len() ==> (#[trigger] out@[k])@ == (PlanStep {
                                rule: rf.rules@[k - before.len()],
                                rows: Some((rf.range.first_row, rf.range.last_row)),
                            }),
                    decreases m - j,
                {
                    out.push(
                        PlanEntry {
                            rule: &rf.rules[j],
                            rows: Some((rf.range.first_row, rf.range.last_row)),
                        },
                    );
                    j = j + 1;
                }
                proof {
                    assert(plan_steps(out@) =~= plan_steps(before) + range_steps(rf@));
                    assert(plan_steps(out@) =~= head + ranges_plan(part, col));
                }
            }
            i = i + 1;
        }
        assert(ranges.subrange(0, n as int) =~= ranges);
    }

    /// Whether a rule of the plan needs the cell's display text.
    pub fn plan_needs_text(plan: &Vec<PlanEntry<'_>>) -> (b: bool)
        ensures
            b == exists|i: int|
                0 <= i < plan@.len() && (#[trigger] plan_steps(plan@)[i]).rule is TextContains,
    {
        let n: usize = plan.len();
        let mut i: usize = 0;
        while i < n
            invariant
                i <= n == plan@.len(),
                forall|k: int|
                    0 <= k < i ==> !((#[trigger] plan_steps(plan@)[k]).rule is TextContains),
            decreases n - i,
        {
            assert(plan_steps(plan@)[i as int] == plan@[i as int]@);
            if plan[i].rule.needs_text() {
                return true;
            }
            i = i + 1;
        }
        false
    }

    /// Whether a rule of the plan needs to see a window of the column.
    pub fn plan_needs_window(plan: &Vec<PlanEntry<'_>>) -> (b: bool)
        ensures
            b == exists|i: int|
                {
                    &&& 0 <= i < plan@.len()
                    &&& ((#[trigger] plan_steps(plan@)[i]).rule.scales() || plan_steps(
                        plan@,
                    )[i].rule is TopBottom)
                },
    {
        let n: usize = plan.len();
        let mut i: usize = 0;
        while i < n
            invariant
                i <= n == plan@.len(),
                forall|k: int|
                    0 <= k < i ==> !((#[trigger] plan_steps(plan@)[k]).rule.scales() || plan_steps(
                        plan@,
                    )[k].rule is TopBottom),
            decreases n - i,
        {
            assert(plan_steps(plan@)[i as int] == plan@[i as int]@);
            if plan[i].rule.needs_window() {
                return true;
            }
            i = i + 1;
        }
        false
    }

    /// The number format of a cell.
    pub fn number_format(&self, cell: CellRef) -> (r: Option<&NumberFormat>)
        requires
            self.wf(),
        ensures
            match r {
                Some(f) => format_of(self@, cell) == Some(*f),
                None => format_of(self@, cell) is None,
            },
    {
        if let Some(o) = self.cell_override(cell) {
            if let Some(f) = &o.format {
                return Some(f);
            }
        }
        let mut out: Option<&NumberFormat> = match self.column(cell.col) {
            Some(c) => Some(&c.format),
            None => None,
        };
        let ghost ranges = self@.ranges;
        let ghost first = out;
        let n: usize = self.ranges.len();
        let mut i: usize = 0;
        assert(ranges.subrange(0, 0) =~= Seq::empty());
        while i < n
            invariant
                i <= n == self.ranges@.len(),
                ranges == ranges_of(self.ranges@),
                match range_format(ranges.subrange(0, i as int), cell) {
                    Some(x) => out is Some && *out->0 == x,
                    None => out == first,
                },
            decreases n - i,
        {
            let rf = &self.ranges[i];
            proof {
                let part = ranges.subrange(0, i + 1);
                assert(part.drop_last() =~= ranges.subrange(0, i as int));
                assert(part.last() == rf@);
            }
            if rf.range.contains(cell.row, cell.col) {
                if let Some(f) = &rf.format {
                    out = Some(f);
                }
            }
            i = i + 1;
        }
        assert(ranges.subrange(0, n as int) =~= ranges);
        match out {
            Some(f) => if is_general(f) {
                None
            } else {
                Some(f)
            },
            None => None,
        }
    }

    /// How one cell looks: the rules of the plan one after the other, then what was
    /// picked by hand for the cell. `evals` goes with `plan` entry by entry; where it
    /// is shorter, rules that need a window do nothing.
    pub fn resolve<C: Fn(Rgb, Rgb, F64, F64, F64) -> Rgb, B: Fn(F64, F64, F64) -> F64>(
        &self,
        cell: CellRef,
        value: &Value,
        text: &str,
        plan: &Vec<PlanEntry<'_>>,
        evals: &Vec<RuleEval>,
        painter: &Painter<C, B>,
    ) -> (style: CellStyle)
        requires
            self.wf(),
            painter.ready(),
        ensures
            painter.resolved(self@, cell, *value, text@, plan_steps(plan@), evals@, style),
    {
        let mut style = CellStyle::default();
        let ghost mut states: Seq<CellStyle> = seq![CellStyle::plain()];
        let ghost steps = plan_steps(plan@);
        let n: usize = plan.len();
        let mut i: usize = 0;
        while i < n
            invariant
                painter.ready(),
                i <= n == plan@.len(),
                steps == plan_steps(plan@),
                states.len() == i + 1,
                states[0] == CellStyle::plain(),
                states.last() == style,
                forall|k: int|
                    0 <= k < i ==> if (#[trigger] steps[k]).reaches(cell.row) {
                        painter.applied(
                            steps[k].rule,
                            *value,
                            text@,
                            eval_at(evals@, k),
                            states[k],
                            states[k + 1],
                        )
                    } else {
                        states[k + 1] == states[k]
                    },
            decreases n - i,
        {
            assert(steps[i as int] == plan@[i as int]@);
            if plan[i].covers(cell.row) {
                let eval = if i < evals.len() {
                    evals[i]
                } else {
                    RuleEval::default()
                };
                painter.apply_cell(plan[i].rule, value, text, eval, &mut style);
            }
            proof {
                states = states.push(style);
            }
            i = i + 1;
        }
        assert(painter.walked(steps, evals@, cell.row, *value, text@, states));
        if let Some(o) = self.cell_override(cell) {
            o.manual.apply_to(&mut style);
        }
        style
    }
}

proof fn lemma_range_set(v: Seq<RangeFormat>, i: int)
    requires
        0 <= i < v.len(),
    ensures
        forall|r: RangeFormat| #[trigger]
            ranges_of(v.update(i, r)) == ranges_of(v).update(i, r@),
{
    assert forall|r: RangeFormat| #[trigger] ranges_of(v.update(i, r)) == ranges_of(v).update(
        i,
        r@,
    ) by {
        assert(ranges_of(v.update(i, r)) =~= ranges_of(v).update(i, r@));
    }
}

proof fn lemma_live_removed(v: Seq<RangeFormatView>, i: int)
    requires
        0 <= i < v.len(),
        v[i].inert(),
    ensures
        live_ranges(v.remove(i)) == live_ranges(v),
    decreases v.len(),
{
    let n = v.len() - 1;
    if i == n {
        assert(v.remove(i) =~= v.drop_last());
    } else {
        lemma_live_removed(v.drop_last(), i);
        assert(v.remove(i).drop_last() =~= v.drop_last().remove(i));
        assert(v.remove(i).last() == v.last());
    }
}

proof fn lemma_all_live(v: Seq<RangeFormatView>)
    requires
        forall|i: int| 0 <= i < v.len() ==> !(#[trigger] v[i]).inert(),
    ensures
        live_ranges(v) == v,
    decreases v.len(),
{
    if v.len() > 0 {
        assert forall|i: int| 0 <= i < v.drop_last().len() implies !(
        #[trigger] v.drop_last()[i]).inert() by {
            assert(!v[i].inert());
        }
        lemma_all_live(v.drop_last());
        assert(!v[v.len() - 1].inert());
        assert(v =~= v.drop_last().push(v.last()));
    } else {
        assert(live_ranges(v) =~= v);
    }
}

fn prune_ranges(v: &mut Vec<RangeFormat>)
    ensures
        ranges_of(final(v)@) == live_ranges(ranges_of(old(v)@)),
{
    let mut i: usize = 0;
    while i < v.len()
        invariant
            i <= v@.len(),
            live_ranges(ranges_of(v@)) == live_ranges(ranges_of(old(v)@)),
            forall|k: int| 0 <= k < i ==> !(#[trigger] v@[k])@.inert(),
        decreases v@.len() - i,
    {
        if v[i].is_empty() {
            proof {
                lemma_live_removed(ranges_of(v@), i as int);
                assert(ranges_of(v@.remove(i as int)) =~= ranges_of(v@).remove(i as int));
            }
            let gone = v.remove(i);
        } else {
            i = i + 1;
        }
    }
    proof {
        let r = ranges_of(v@);
        assert forall|k: int| 0 <= k < r.len() implies !(#[trigger] r[k]).inert() by {
            assert(!v@[k]@.inert());
        }
        lemma_all_live(r);
    }
}

proof fn lemma_manual_removed(v: Seq<ConditionalRule>, i: int)
    requires
        0 <= i < v.len(),
        v[i] is Manual,
    ensures
        without_manual(v.remove(i)) == without_manual(v),
    decreases v.len(),
{
    let n = v.len() - 1;
    if i == n {
        assert(v.remove(i) =~= v.drop_last());
    } else {
        lemma_manual_removed(v.drop_last(), i);
        assert(v.remove(i).drop_last() =~= v.drop_last().remove(i));
        assert(v.remove(i).last() == v.last());
    }
}

proof fn lemma_no_manual(v: Seq<ConditionalRule>)
    requires
        forall|i: int| 0 <= i < v.len() ==> !(#[trigger] v[i] is Manual),
    ensures
        without_manual(v) == v,
    decreases v.len(),
{
    if v.len() > 0 {
        assert forall|i: int| 0 <= i < v.drop_last().len() implies !(
        #[trigger] v.drop_last()[i] is Manual) by {
            assert(!(v[i] is Manual));
        }
        lemma_no_manual(v.drop_last());
        assert(!(v[v.len() - 1] is Manual));
        assert(v =~= v.drop_last().push(v.last()));
    } else {
        assert(without_manual(v) =~= v);
    }
}

fn is_manual(r: &ConditionalRule) -> (b: bool)
    ensures
        b == (*r is Manual),
{
    match r {
        ConditionalRule::Manual { .. } => true,
        _ => false,
    }
}

fn drop_manual(v: &mut Vec<ConditionalRule>)
    ensures
        final(v)@ == without_manual(old(v)@),
{
    let mut i: usize = 0;
    while i < v.len()
        invariant
            i <= v@.len(),
            without_manual(v@) == without_manual(old(v)@),
            forall|k: int| 0 <= k < i ==> !(#[trigger] v@[k] is Manual),
        decreases v@.len() - i,
    {
        if is_manual(&v[i]) {
            proof {
                lemma_manual_removed(v@, i as int);
            }
            let gone = v.remove(i);
        } else {
            i = i + 1;
        }
    }
    proof {
        lemma_no_manual(v@);
    }
}

// ------------------------------------------------------------------- heap --

/// The texts that a format holds.
pub open spec fn format_texts(f: NumberFormat) -> Seq<Seq<char>> {
    match f {
        NumberFormat::Currency { symbol, .. } => seq![symbol@],
        NumberFormat::Custom(s) => seq![s@],
        _ => Seq::empty(),
    }
}

/// The texts that some rules hold.
pub open spec fn rule_texts(rules: Seq<ConditionalRule>) -> Seq<Seq<char>>
    decreases rules.len(),
{
    if rules.len() == 0 {
        Seq::empty()
    } else {
        rule_texts(rules.drop_last()) + match rules.last() {
            ConditionalRule::TextContains { needle, .. } => seq![needle@],
            _ => Seq::empty(),
        }
    }
}

/// The texts that the columns hold, from the first column to the last.
pub open spec fn column_texts(
    columns: Map<u32, ColumnFormatView>,
    order: Seq<u32>,
) -> Seq<Seq<char>>
    decreases order.len(),
{
    if order.len() == 0 {
        Seq::empty()
    } else {
        let c = columns[order.last()];
        column_texts(columns, order.drop_last()) + rule_texts(c.rules) + format_texts(c.format)
    }
}

/// The texts that the ranges hold. The rectangles do not enter.
pub open spec fn range_texts(ranges: Seq<RangeFormatView>) -> Seq<Seq<char>>
    decreases ranges.len(),
{
    if ranges.len() == 0 {
        Seq::empty()
    } else {
        let r = ranges.last();
        range_texts(ranges.drop_last()) + rule_texts(r.rules) + match r.format {
            Some(f) => format_texts(f),
            None => Seq::empty(),
        }
    }
}

/// What entries and rules take besides their texts.
pub open spec fn entry_bytes(columns: int, ranges: int, overrides: int, rules: int) -> int {
    columns * size_of::<(u32, ColumnFormat)>() + ranges * size_of::<RangeFormat>() + overrides
        * size_of::<((u32, u32), CellOverride)>() + rules * size_of::<ConditionalRule>()
}

/// With `texts` as the room that the texts have, the formatting takes `n`.
pub open spec fn room_takes(
    f: SheetFormatView,
    order: Seq<u32>,
    texts: Seq<usize>,
    n: usize,
) -> bool {
    &&& texts_fit(texts, column_texts(f.columns, order) + range_texts(f.ranges))
    &&& n == at_most_max(
        entry_bytes(
            order.len() as int,
            f.ranges.len() as int,
            f.overrides.dom().len() as int,
            (column_rule_count(f.columns, order) + range_rules(f.ranges)) as int,
        ) + total(texts),
    )
}

/// What a sheet's formatting takes, its columns being those of `order`.
pub open spec fn formatting_takes(f: SheetFormatView, order: Seq<u32>, n: usize) -> bool {
    exists|texts: Seq<usize>| #[trigger] room_takes(f, order, texts, n)
}

proof fn lemma_product(a: int, b: int)
    requires
        a >= 0,
        b >= 0,
    ensures
        a * b >= 0,
        a * b == b * a,
        at_most_max(at_most_max(a) * b) == at_most_max(a * b),
{
    lemma_capped_factor(b, a);
    assert(a * b >= 0 && a * b == b * a) by (nonlinear_arith)
        requires
            a >= 0,
            b >= 0,
    ;
    assert(at_most_max(a) * b == b * at_most_max(a)) by (nonlinear_arith);
}

/// What entries, rules and texts take, given how many there are and the room that
/// each text has.
pub fn formatting_bytes(
    columns: usize,
    ranges: usize,
    overrides: usize,
    rules: usize,
    texts: &Vec<usize>,
) -> (n: usize)
    ensures
        n == at_most_max(
            entry_bytes(columns as int, ranges as int, overrides as int, rules as int) + total(
                texts@,
            ),
        ),
{
    let c: usize = std::mem::size_of::<(u32, ColumnFormat)>();
    let r: usize = std::mem::size_of::<RangeFormat>();
    let o: usize = std::mem::size_of::<((u32, u32), CellOverride)>();
    let s: usize = std::mem::size_of::<ConditionalRule>();
    proof {
        lemma_product(columns as int, c as int);
        lemma_product(ranges as int, r as int);
        lemma_product(overrides as int, o as int);
        lemma_product(rules as int, s as int);
    }
    capped_mul(columns, c).saturating_add(capped_mul(ranges, r)).saturating_add(
        capped_mul(overrides, o),
    ).saturating_add(capped_mul(rules, s)).saturating_add(capped_total(texts))
}

fn push_format(room: &mut Vec<usize>, f: &NumberFormat, Ghost(held): Ghost<Seq<Seq<char>>>)
    requires
        texts_fit(old(room)@, held),
    ensures
        texts_fit(final(room)@, held + format_texts(*f)),
{
    match f {
        NumberFormat::Currency { symbol, .. } => room.push(text_capacity(symbol)),
        NumberFormat::Custom(s) => room.push(text_capacity(s)),
        _ => {},
    }
}

fn push_rules(
    room: &mut Vec<usize>,
    rules: &Vec<ConditionalRule>,
    Ghost(held): Ghost<Seq<Seq<char>>>,
)
    requires
        texts_fit(old(room)@, held),
    ensures
        texts_fit(final(room)@, held + rule_texts(rules@)),
{
    let m: usize = rules.len();
    let mut i: usize = 0;
    assert(held + rule_texts(rules@.subrange(0, 0)) =~= held);
    while i < m
        invariant
            i <= m == rules@.len(),
            texts_fit(room@, held + rule_texts(rules@.subrange(0, i as int))),
        decreases m - i,
    {
        proof {
            let part = rules@.subrange(0, i + 1);
            assert(part.drop_last() =~= rules@.subrange(0, i as int));
            assert(part.last() == rules@[i as int]);
            assert(held + rule_texts(part) =~= held + rule_texts(part.drop_last()) + match part.last() {
                ConditionalRule::TextContains { needle, .. } => seq![needle@],
                _ => Seq::empty(),
            });
        }
        if let ConditionalRule::TextContains { needle, .. } = &rules[i] {
            room.push(text_capacity(needle));
        }
        i = i + 1;
    }
    assert(rules@.subrange(0, m as int) =~= rules@);
}

impl SheetFormat {
    /// Heap bytes: a function of what was configured and never of how many rows it
    /// covers.
    pub fn heap_bytes(&self) -> (n: usize)
        requires
            self.wf(),
        ensures
            formatting_takes(self@, self.column_order(), n),
    {
        let mut room: Vec<usize> = Vec::new();
        let n: usize = self.columns.len();
        let ghost order = self.column_order();
        let mut i: usize = 0;
        while i < n
            invariant
                self.wf(),
                i <= n == self.columns.order().len(),
                order == self.column_order(),
                order.len() == n,
                texts_fit(room@, column_texts(self@.columns, order.subrange(0, i as int))),
            decreases n - i,
        {
            let c = self.columns.value(i);
            let ghost held = column_texts(self@.columns, order.subrange(0, i as int));
            proof {
                let part = order.subrange(0, i + 1);
                assert(part.drop_last() =~= order.subrange(0, i as int));
                let k = self.columns.order()[i as int];
                assert(self.columns@.contains_key(k));
                assert(part.last() == k as u32);
                assert((k as u32) as u64 == k);
                assert(self@.columns[k as u32] == c@);
            }
            push_rules(&mut room, &c.rules, Ghost(held));
            push_format(&mut room, &c.format, Ghost(held + rule_texts(c.rules@)));
            i = i + 1;
        }
        assert(order.subrange(0, n as int) =~= order);
        let m: usize = self.ranges.len();
        let ghost in_columns = column_texts(self@.columns, order);
        let ghost ranges = self@.ranges;
        let mut i: usize = 0;
        assert(in_columns + range_texts(ranges.subrange(0, 0)) =~= in_columns);
        while i < m
            invariant
                i <= m == self.ranges@.len(),
                ranges == ranges_of(self.ranges@),
                texts_fit(room@, in_columns + range_texts(ranges.subrange(0, i as int))),
            decreases m - i,
        {
            let r = &self.ranges[i];
            let ghost before = range_texts(ranges.subrange(0, i as int));
            push_rules(&mut room, &r.rules, Ghost(in_columns + before));
            if let Some(f) = &r.format {
                push_format(&mut room, f, Ghost(in_columns + before + rule_texts(r.rules@)));
            }
            proof {
                let part = ranges.subrange(0, i + 1);
                assert(part.drop_last() =~= ranges.subrange(0, i as int));
                assert(part.last() == self.ranges@[i as int]@);
                let more = match part.last().format {
                    Some(f) => format_texts(f),
                    None => Seq::empty(),
                };
                assert(in_columns + range_texts(part) =~= in_columns + before + rule_texts(r.rules@)
                    + more);
                assert(in_columns + before + rule_texts(r.rules@) + Seq::empty() =~= in_columns
                    + before + rule_texts(r.rules@));
            }
            i = i + 1;
        }
        assert(ranges.subrange(0, m as int) =~= ranges);
        let rules: usize = self.rule_count();
        let bytes: usize = formatting_bytes(n, m, self.override_count(), rules, &room);
        proof {
            let count = (column_rule_count(self@.columns, order) + range_rules(self@.ranges)) as int;
            lemma_product(count, size_of::<ConditionalRule>() as int);
            lemma_product(n as int, size_of::<(u32, ColumnFormat)>() as int);
            lemma_product(m as int, size_of::<RangeFormat>() as int);
            lemma_product(
                self@.overrides.dom().len() as int,
                size_of::<((u32, u32), CellOverride)>() as int,
            );
            lemma_total(room@);
            lemma_product(rules as int, size_of::<ConditionalRule>() as int);
            assert(room_takes(self@, order, room@, bytes));
        }
        bytes
    }
}

// ------------------------------------------------------------------- laws --

proof fn lemma_moved_range(ranges: Seq<RangeFormatView>, k: int, range: TableRange)
    requires
        0 <= k < ranges.len(),
    ensures
        range_texts(ranges.update(k, RangeFormatView { range, ..ranges[k] })) == range_texts(ranges),
        range_rules(ranges.update(k, RangeFormatView { range, ..ranges[k] })) == range_rules(ranges),
    decreases ranges.len(),
{
    let to = RangeFormatView { range, ..ranges[k] };
    let rest = ranges.drop_last();
    if k < rest.len() {
        lemma_moved_range(rest, k, range);
        assert(ranges.update(k, to).drop_last() =~= rest.update(k, to));
    } else {
        assert(ranges.update(k, to).drop_last() =~= rest);
    }
}

/// What formatting takes does not depend on how many rows or columns its ranges cover.
pub proof fn a_range_costs_the_same_whatever_its_size(
    f: SheetFormatView,
    order: Seq<u32>,
    k: int,
    range: TableRange,
    n: usize,
)
    requires
        0 <= k < f.ranges.len(),
    ensures
        formatting_takes(
            SheetFormatView {
                ranges: f.ranges.update(k, RangeFormatView { range, ..f.ranges[k] }),
                ..f
            },
            order,
            n,
        ) == formatting_takes(f, order, n),
{
    lemma_moved_range(f.ranges, k, range);
    let g = SheetFormatView {
        ranges: f.ranges.update(k, RangeFormatView { range, ..f.ranges[k] }),
        ..f
    };
    if formatting_takes(f, order, n) {
        let texts = choose|texts: Seq<usize>| #[trigger] room_takes(f, order, texts, n);
        assert(room_takes(g, order, texts, n));
    }
    if formatting_takes(g, order, n) {
        let texts = choose|texts: Seq<usize>| #[trigger] room_takes(g, order, texts, n);
        assert(room_takes(f, order, texts, n));
    }
}

/// Every rule that a range adds to a column's plan comes from a range that holds
/// the column, and reaches exactly the range's rows.
pub proof fn a_plan_gathers_only_what_can_touch_the_column(
    ranges: Seq<RangeFormatView>,
    c: u32,
    k: int,
)
    requires
        0 <= k < ranges_plan(ranges, c).len(),
    ensures
        exists|i: int|
            {
                &&& 0 <= i < ranges.len()
                &&& (#[trigger] ranges[i]).range.first_col <= c <= ranges[i].range.last_col
                &&& ranges[i].rules.contains(ranges_plan(ranges, c)[k].rule)
                &&& forall|row: u32|
                    ranges_plan(ranges, c)[k].reaches(row) == ranges[i].range.has(row, c)
            },
    decreases ranges.len(),
{
    let rest = ranges.drop_last();
    let before = ranges_plan(rest, c);
    let last = ranges.len() - 1;
    if k < before.len() {
        a_plan_gathers_only_what_can_touch_the_column(rest, c, k);
        let i = choose|i: int|
            {
                &&& 0 <= i < rest.len()
                &&& (#[trigger] rest[i]).range.first_col <= c <= rest[i].range.last_col
                &&& rest[i].rules.contains(before[k].rule)
                &&& forall|row: u32| before[k].reaches(row) == rest[i].range.has(row, c)
            };
        assert(ranges[i] == rest[i]);
    } else {
        let r = ranges[last];
        let step = range_steps(r)[k - before.len()];
        assert(r.rules[k - before.len()] == step.rule);
        assert(r.range.first_col <= c <= r.range.last_col);
    }
}

/// A cell that no rule reaches and nobody picked out looks plain.
pub proof fn an_unformatted_cell_is_plain<
    C: Fn(Rgb, Rgb, F64, F64, F64) -> Rgb,
    B: Fn(F64, F64, F64) -> F64,
>(
    painter: Painter<C, B>,
    f: SheetFormatView,
    cell: CellRef,
    value: Value,
    display: Seq<char>,
    plan: Seq<PlanStep>,
    evals: Seq<RuleEval>,
    style: CellStyle,
)
    requires
        painter.resolved(f, cell, value, display, plan, evals, style),
        forall|i: int| 0 <= i < plan.len() ==> !(#[trigger] plan[i]).reaches(cell.row),
        !f.overrides.contains_key(cell),
    ensures
        style == CellStyle::plain(),
{
    let states = choose|states: Seq<CellStyle>| #[trigger]
        painter.walked(plan, evals, cell.row, value, display, states) && style == states.last();
    lemma_unchanged(painter, cell.row, value, display, plan, evals, states, plan.len() as int);
}

proof fn lemma_unchanged<
    C: Fn(Rgb, Rgb, F64, F64, F64) -> Rgb,
    B: Fn(F64, F64, F64) -> F64,
>(
    painter: Painter<C, B>,
    row: u32,
    value: Value,
    display: Seq<char>,
    plan: Seq<PlanStep>,
    evals: Seq<RuleEval>,
    states: Seq<CellStyle>,
    k: int,
)
    requires
        painter.walked(plan, evals, row, value, display, states),
        forall|i: int| 0 <= i < plan.len() ==> !(#[trigger] plan[i]).reaches(row),
        0 <= k <= plan.len(),
    ensures
        states[k] == CellStyle::plain(),
    decreases k,
{
    if k > 0 {
        lemma_unchanged(painter, row, value, display, plan, evals, states, k - 1);
        assert(!plan[k - 1].reaches(row));
    }
}

/// What was picked by hand for a cell wins over every rule: where it sets a fill
/// or a text colour, that is what the cell has.
pub proof fn an_override_beats_every_rule<
    C: Fn(Rgb, Rgb, F64, F64, F64) -> Rgb,
    B: Fn(F64, F64, F64) -> F64,
>(
    painter: Painter<C, B>,
    f: SheetFormatView,
    cell: CellRef,
    value: Value,
    display: Seq<char>,
    plan: Seq<PlanStep>,
    evals: Seq<RuleEval>,
    style: CellStyle,
)
    requires
        painter.resolved(f, cell, value, display, plan, evals, style),
        f.overrides.contains_key(cell),
    ensures
        f.overrides[cell].manual.fill is Some ==> style.fill == f.overrides[cell].manual.fill,
        f.overrides[cell].manual.text is Some ==> style.text == f.overrides[cell].manual.text,
{
}

/// Moving an entry loses none and adds none.
pub proof fn moving_keeps_every_entry<T>(v: Seq<T>, i: int, t: int)
    requires
        0 <= i < v.len(),
        0 <= t < v.len(),
    ensures
        moved(v, i, t).to_multiset() == v.to_multiset(),
        moved(v, i, t).len() == v.len(),
        moved(v, i, t)[t] == v[i],
{
    let w = moved(v, i, t);
    v.to_multiset_ensures();
    w.to_multiset_ensures();
    assert(w.remove(t) =~= v.remove(i));
    assert(v.contains(v[i]) && w.contains(w[t]));
    assert(w.remove(t).to_multiset() =~= w.to_multiset().remove(w[t]));
    assert(v.remove(i).to_multiset() =~= v.to_multiset().remove(v[i]));
    assert(v.to_multiset().remove(v[i]).insert(v[i]) =~= v.to_multiset());
    assert(w.to_multiset().remove(v[i]).insert(v[i]) =~= w.to_multiset());
}

/// Clearing the hand-picked colour of a column that has nothing else leaves no
/// entry behind.
pub proof fn clearing_a_colour_leaves_no_entry(f: SheetFormatView, c: u32, manual: ManualStyle)
    requires
        manual.blank(),
        column_at(f.columns, c).format is General,
        without_manual(column_at(f.columns, c).rules).len() == 0,
    ensures
        !f.with_manual(c, manual).pruned().columns.contains_key(c),
{
}

/// The general format is no format: a column set to it, in no range that says
/// otherwise, has none.
pub proof fn general_means_no_format(f: SheetFormatView, cell: CellRef, format: NumberFormat)
    requires
        format is General,
        !f.overrides.contains_key(cell),
        range_format(f.ranges, cell) is None,
    ensures
        format_of(f.with_format(cell.col, format), cell) is None,
{
}

} // verus!
