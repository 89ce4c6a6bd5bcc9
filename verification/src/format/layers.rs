//! Which layer of formatting has the last word.
//!
//! Column, rectangle and cell each add a layer. What a cell shows in the end is said
//! here layer by layer, without the plan that gets there.

use crate::format::sheet::{
    column_at, format_of, moved, plan_of, range_format, range_steps, ranges_plan, target,
    without_manual, SheetFormatView,
};
use crate::format::{CellOverride, ManualStyle, PlanStep, RangeFormatView, Typography};
use crate::rules::{CellStyle, ConditionalRule, NumberFormat, Painter, RuleEval};
use crate::table::{CellRef, Rgb};
use crate::value::{Value, F64};
use vstd::prelude::*;

verus! {

/// `x` as it is told: the general format is none.
pub open spec fn told(x: NumberFormat) -> Option<NumberFormat> {
    if x is General {
        None
    } else {
        Some(x)
    }
}

/// Rectangle `i` holds the cell and has a number format.
pub open spec fn speaks(f: SheetFormatView, i: int, cell: CellRef) -> bool {
    let r = f.ranges[i];
    &&& r.format is Some
    &&& r.range.first_row <= cell.row <= r.range.last_row
    &&& r.range.first_col <= cell.col <= r.range.last_col
}

proof fn lemma_range_format(ranges: Seq<RangeFormatView>, cell: CellRef)
    ensures
        match range_format(ranges, cell) {
            Some(x) => exists|i: int|
                {
                    &&& 0 <= i < ranges.len()
                    &&& (#[trigger] ranges[i]).format == Some(x)
                    &&& ranges[i].range.has(cell.row, cell.col)
                    &&& forall|j: int|
                        i < j < ranges.len() ==> (#[trigger] ranges[j]).format is None
                            || !ranges[j].range.has(cell.row, cell.col)
                },
            None => forall|j: int|
                0 <= j < ranges.len() ==> (#[trigger] ranges[j]).format is None
                    || !ranges[j].range.has(cell.row, cell.col),
        },
    decreases ranges.len(),
{
    if ranges.len() > 0 {
        let rest = ranges.drop_last();
        let n = ranges.len() - 1;
        lemma_range_format(rest, cell);
        let r = ranges.last();
        assert(ranges[n] == r);
        if r.range.has(cell.row, cell.col) && r.format is Some {
            assert(ranges[n].format == Some(r.format->0));
        } else {
            assert forall|j: int| 0 <= j < n implies ranges[j] == rest[j] by {}
            match range_format(rest, cell) {
                Some(x) => {
                    let i = choose|i: int|
                        {
                            &&& 0 <= i < rest.len()
                            &&& (#[trigger] rest[i]).format == Some(x)
                            &&& rest[i].range.has(cell.row, cell.col)
                            &&& forall|j: int|
                                i < j < rest.len() ==> (#[trigger] rest[j]).format is None
                                    || !rest[j].range.has(cell.row, cell.col)
                        };
                    assert(ranges[i].format == Some(x));
                },
                None => {},
            }
        }
    }
}

/// A cell's number format is its own where it has one; else that of the last rectangle
/// that holds it and has one; else that of its column.
pub proof fn the_nearest_layer_gives_the_number_format(f: SheetFormatView, cell: CellRef, i: int)
    ensures
        f.overrides.contains_key(cell) && f.overrides[cell].format is Some ==> format_of(f, cell)
            == f.overrides[cell].format,
        (!f.overrides.contains_key(cell) || f.overrides[cell].format is None) && 0 <= i
            < f.ranges.len() && speaks(f, i, cell) && (forall|j: int|
            i < j < f.ranges.len() ==> !#[trigger] speaks(f, j, cell)) ==> format_of(f, cell)
            == told(f.ranges[i].format->0),
        (!f.overrides.contains_key(cell) || f.overrides[cell].format is None) && (forall|j: int|
            0 <= j < f.ranges.len() ==> !#[trigger] speaks(f, j, cell)) ==> format_of(f, cell)
            == if f.columns.contains_key(cell.col) {
            told(f.columns[cell.col].format)
        } else {
            None
        },
{
    lemma_range_format(f.ranges, cell);
    match range_format(f.ranges, cell) {
        Some(x) => {
            let k = choose|k: int|
                {
                    &&& 0 <= k < f.ranges.len()
                    &&& (#[trigger] f.ranges[k]).format == Some(x)
                    &&& f.ranges[k].range.has(cell.row, cell.col)
                    &&& forall|j: int|
                        k < j < f.ranges.len() ==> (#[trigger] f.ranges[j]).format is None
                            || !f.ranges[j].range.has(cell.row, cell.col)
                };
            assert(speaks(f, k, cell));
            if 0 <= i < f.ranges.len() && speaks(f, i, cell) {
                assert(i <= k);
            }
        },
        None => {
            assert forall|j: int| 0 <= j < f.ranges.len() implies !#[trigger] speaks(
                f,
                j,
                cell,
            ) by {
                assert(f.ranges[j].format is None || !f.ranges[j].range.has(cell.row, cell.col));
            }
        },
    }
}

/// A column's own rules come first in its plan and reach every row.
pub proof fn a_columns_rules_come_first(f: SheetFormatView, c: u32, k: int, row: u32)
    requires
        0 <= k < column_at(f.columns, c).rules.len(),
    ensures
        k < plan_of(f, c).len(),
        plan_of(f, c)[k].rule == column_at(f.columns, c).rules[k],
        plan_of(f, c)[k].reaches(row),
{
}

/// A rectangle that is added last has the last word in the columns it holds, and is
/// not heard in the others.
pub proof fn a_later_rectangle_comes_after(
    f: SheetFormatView,
    g: SheetFormatView,
    r: RangeFormatView,
    c: u32,
)
    requires
        g == (SheetFormatView { ranges: f.ranges.push(r), ..f }),
    ensures
        r.range.first_col <= c <= r.range.last_col ==> plan_of(g, c).len() == plan_of(f, c).len()
            + r.rules.len() && (forall|k: int|
            0 <= k < plan_of(f, c).len() ==> #[trigger] plan_of(g, c)[k] == plan_of(f, c)[k]) && (
        forall|k: int, row: u32|
            0 <= k < r.rules.len() ==> (#[trigger] plan_of(g, c)[plan_of(f, c).len() + k]).rule
                == r.rules[k] && ((#[trigger] plan_of(g, c)[plan_of(f, c).len() + k].reaches(row))
                <==> r.range.first_row <= row <= r.range.last_row)),
        !(r.range.first_col <= c <= r.range.last_col) ==> plan_of(g, c) == plan_of(f, c),
{
    assert(g.ranges.drop_last() =~= f.ranges);
    assert(g.ranges.last() == r);
    let steps = range_steps(r);
    if r.range.first_col <= c <= r.range.last_col {
        assert(plan_of(g, c) =~= plan_of(f, c) + steps);
        let n = plan_of(f, c).len();
        assert forall|k: int, row: u32|
            #![trigger plan_of(g, c)[n + k].reaches(row)]
            0 <= k < r.rules.len() implies plan_of(g, c)[n + k].rule == r.rules[k] && (plan_of(
            g,
            c,
        )[n + k].reaches(row) <==> r.range.first_row <= row <= r.range.last_row) by {
            assert(plan_of(g, c)[n + k] == steps[k]);
        }
        assert forall|k: int| 0 <= k < r.rules.len() implies (#[trigger] plan_of(g, c)[n
            + k]).rule == r.rules[k] by {
            assert(plan_of(g, c)[n + k] == steps[k]);
        }
    }
}

/// A step that leaves the fill alone.
pub open spec fn spares_the_fill(step: PlanStep, row: u32) -> bool {
    ||| !step.reaches(row)
    ||| step.rule is Sign
    ||| step.rule is DataBar
}

/// The last rule of a plan that fires has the last word on the fill, where nothing was
/// picked by hand for the cell.
pub proof fn the_last_rule_that_fires_paints_the_cell<
    C: Fn(Rgb, Rgb, F64, F64, F64) -> Rgb,
    B: Fn(F64, F64, F64) -> F64,
>(
    painter: Painter<C, B>,
    f: SheetFormatView,
    cell: CellRef,
    value: Value,
    display: Seq<char>,
    plan: Seq<PlanStep>,
    evals: Seq<RuleEval>,
    style: CellStyle,
    k: int,
    fill: Rgb,
)
    requires
        painter.resolved(f, cell, value, display, plan, evals, style),
        !f.overrides.contains_key(cell) || f.overrides[cell].manual.fill is None,
        0 <= k < plan.len(),
        plan[k].reaches(cell.row),
        match plan[k].rule {
            ConditionalRule::Manual { fill: own, .. } => own == Some(fill),
            ConditionalRule::Threshold { op, value: limit, fill: own, .. } => own == fill
                && match value {
                Value::Number(x) => op.holds_spec(x, limit),
                _ => false,
            },
            _ => false,
        },
        forall|j: int| k < j < plan.len() ==> #[trigger] spares_the_fill(plan[j], cell.row),
    ensures
        style.fill == Some(fill),
{
    let states = choose|states: Seq<CellStyle>|
        {
            &&& #[trigger] painter.walked(plan, evals, cell.row, value, display, states)
            &&& style == if f.overrides.contains_key(cell) {
                let m = f.overrides[cell].manual;
                states.last().under(m.fill, m.text, m.typography)
            } else {
                states.last()
            }
        };
    assert(plan[k].reaches(cell.row));
    assert(states[k + 1].fill == Some(fill));
    lemma_fill_stays(painter, cell.row, value, display, plan, evals, states, k + 1, fill);
}

proof fn lemma_fill_stays<
    C: Fn(Rgb, Rgb, F64, F64, F64) -> Rgb,
    B: Fn(F64, F64, F64) -> F64,
>(
    painter: Painter<C, B>,
    row: u32,
    value: Value,
    display: Seq<char>,
    plan: Seq<PlanStep>,
    evals: Seq<RuleEval>,
    states: Seq<CellStyle>,
    k: int,
    fill: Rgb,
)
    requires
        painter.walked(plan, evals, row, value, display, states),
        0 <= k <= plan.len(),
        states[k].fill == Some(fill),
        forall|j: int| k <= j < plan.len() ==> #[trigger] spares_the_fill(plan[j], row),
    ensures
        states.last().fill == Some(fill),
    decreases plan.len() - k,
{
    if k < plan.len() {
        assert(spares_the_fill(plan[k], row));
        assert(states[k + 1].fill == Some(fill));
        lemma_fill_stays(painter, row, value, display, plan, evals, states, k + 1, fill);
    }
}

/// Painting a column by hand puts the hand-picked rule first, once, and keeps every
/// rule that is driven by values.
pub proof fn a_painted_column_keeps_its_rules(
    f: SheetFormatView,
    c: u32,
    manual: ManualStyle,
    rule: ConditionalRule,
)
    requires
        !(rule is Manual),
    ensures
        ({
            let was = column_at(f.columns, c);
            let now = column_at(f.with_manual(c, manual).columns, c);
            &&& now.format == was.format
            &&& now.rules.contains(rule) == was.rules.contains(rule)
            &&& manual.blank() ==> forall|i: int|
                0 <= i < now.rules.len() ==> !(#[trigger] now.rules[i] is Manual)
            &&& !manual.blank() ==> now.rules.len() > 0 && now.rules[0] is Manual && forall|i: int|
                0 < i < now.rules.len() ==> !(#[trigger] now.rules[i] is Manual)
        }),
{
    let was = column_at(f.columns, c);
    let rest = without_manual(was.rules);
    lemma_without(was.rules, rule);
    let now = column_at(f.with_manual(c, manual).columns, c);
    if !manual.blank() {
        assert(now.rules == seq![manual.rule()] + rest);
        assert forall|i: int| 0 < i < now.rules.len() implies !(#[trigger] now.rules[i] is Manual) by {
            assert(now.rules[i] == rest[i - 1]);
        }
        if rest.contains(rule) {
            let i = choose|i: int| 0 <= i < rest.len() && rest[i] == rule;
            assert(now.rules[i + 1] == rule);
        }
        if now.rules.contains(rule) {
            let i = choose|i: int| 0 <= i < now.rules.len() && now.rules[i] == rule;
            assert(i > 0);
            assert(rest[i - 1] == rule);
        }
    }
}

proof fn lemma_without(rules: Seq<ConditionalRule>, rule: ConditionalRule)
    ensures
        !(rule is Manual) ==> without_manual(rules).contains(rule) == rules.contains(rule),
        forall|i: int|
            0 <= i < without_manual(rules).len() ==> !(#[trigger] without_manual(rules)[i] is Manual),
    decreases rules.len(),
{
    if rules.len() > 0 {
        let d = rules.drop_last();
        let before = without_manual(d);
        let all = without_manual(rules);
        lemma_without(d, rule);
        if before.contains(rule) {
            let i = choose|i: int| 0 <= i < before.len() && before[i] == rule;
            assert(all[i] == rule);
        }
        if d.contains(rule) {
            let i = choose|i: int| 0 <= i < d.len() && d[i] == rule;
            assert(rules[i] == rule);
        }
        if rules.last() == rule && !(rule is Manual) {
            assert(rules[rules.len() - 1] == rule);
            assert(all[all.len() - 1] == rule);
        }
        if all.contains(rule) && !(rule is Manual) {
            let i = choose|i: int| 0 <= i < all.len() && all[i] == rule;
            if i < before.len() {
                assert(before[i] == rule);
            }
        }
        if rules.contains(rule) && !(rule is Manual) {
            let i = choose|i: int| 0 <= i < rules.len() && rules[i] == rule;
            if i < d.len() {
                assert(d[i] == rule);
            }
        }
        assert forall|i: int| 0 <= i < all.len() implies !(#[trigger] all[i] is Manual) by {
            if i < before.len() {
                assert(all[i] == before[i]);
            }
        }
    }
}

/// An entry is moved by so many places, not beyond either end, and those it passes
/// step aside by one.
pub proof fn an_entry_moves_by_so_many_places<T>(v: Seq<T>, i: int, delta: int, k: int)
    requires
        0 <= i < v.len(),
        0 <= k < v.len(),
    ensures
        ({
            let t = target(v.len() as int, i, delta);
            let w = moved(v, i, t);
            &&& 0 <= i + delta < v.len() ==> t == i + delta
            &&& i + delta < 0 ==> t == 0
            &&& i + delta >= v.len() ==> t == v.len() - 1
            &&& w.len() == v.len()
            &&& w[t] == v[i]
            &&& k < i && k < t ==> w[k] == v[k]
            &&& k > i && k > t ==> w[k] == v[k]
            &&& i < k <= t ==> w[k - 1] == v[k]
            &&& t <= k < i ==> w[k + 1] == v[k]
        }),
{
}

/// Of two layers of typography each attribute is the upper one's where it sets it, else
/// the lower one's.
pub proof fn the_upper_layer_wins_where_it_is_set(upper: Typography, lower: Typography)
    ensures
        upper.family is Some ==> upper.over(lower).family == upper.family,
        upper.family is None ==> upper.over(lower).family == lower.family,
        upper.size is Some ==> upper.over(lower).size == upper.size,
        upper.size is None ==> upper.over(lower).size == lower.size,
        upper.bold is Some ==> upper.over(lower).bold == upper.bold,
        upper.bold is None ==> upper.over(lower).bold == lower.bold,
        upper.italic is Some ==> upper.over(lower).italic == upper.italic,
        upper.italic is None ==> upper.over(lower).italic == lower.italic,
        upper.underline is Some ==> upper.over(lower).underline == upper.underline,
        upper.underline is None ==> upper.over(lower).underline == lower.underline,
        upper.strikethrough is Some ==> upper.over(lower).strikethrough == upper.strikethrough,
        upper.strikethrough is None ==> upper.over(lower).strikethrough == lower.strikethrough,
{
}

/// An entry that is inert says nothing: a column with one has no rules and no format of
/// its own, a rectangle with one adds nothing, and a cell with one keeps the look that
/// it has. One that is not says something.
pub proof fn an_inert_entry_says_nothing(
    f: SheetFormatView,
    cell: CellRef,
    r: RangeFormatView,
    o: CellOverride,
    s: CellStyle,
)
    requires
        f.columns.contains_key(cell.col),
        f.ranges.len() == 0,
        !f.overrides.contains_key(cell),
    ensures
        f.columns[cell.col].inert() <==> plan_of(f, cell.col).len() == 0 && format_of(f, cell)
            is None,
        r.inert() ==> range_steps(r).len() == 0 && r.format is None,
        !r.inert() ==> range_steps(r).len() > 0 || r.format is Some,
        o.inert() ==> s.under(o.manual.fill, o.manual.text, o.manual.typography) == s && o.format
            is None,
        !o.inert() ==> o.format is Some || o.manual.fill is Some || o.manual.text is Some
            || o.manual.typography != Typography::inherit(),
{
    assert(ranges_plan(f.ranges, cell.col).len() == 0);
    if o.inert() {
        assert(Typography::inherit().over(s.typography) == s.typography);
    }
}

} // verus!
