use ferrix_core::format::presets;
use ferrix_core::format::sheet::formatting_bytes;
use ferrix_core::format::{
    clamp_font_pt, CellOverride, ColumnFormat, ManualStyle, PlanEntry, RangeFormat, SheetFormat, Typography,
};
use ferrix_core::numfmt::CmpOp;
use ferrix_core::rules::{CellStyle, ConditionalRule, NumberFormat, Painter, RuleEval};
use ferrix_core::table::{CellRef, Rgb, TableRange};
use ferrix_core::value::{StrId, Value, F32, F64};

fn bits(x: f64) -> F64 {
    F64(x.to_bits())
}

fn num(x: f64) -> Value {
    Value::Number(bits(x))
}

fn part(x: F64, lo: F64, hi: F64) -> f64 {
    let (x, lo, hi) = (f64::from_bits(x.0), f64::from_bits(lo.0), f64::from_bits(hi.0));
    if hi > lo {
        ((x - lo) / (hi - lo)).clamp(0.0, 1.0)
    } else {
        0.5
    }
}

fn painter() -> Painter<impl Fn(Rgb, Rgb, F64, F64, F64) -> Rgb, impl Fn(F64, F64, F64) -> F64> {
    Painter {
        scale: |a: Rgb, b: Rgb, x: F64, lo: F64, hi: F64| {
            let t = part(x, lo, hi);
            let mix = |p: u8, q: u8| (p as f64 + (q as f64 - p as f64) * t).round() as u8;
            Rgb(mix(a.0, b.0), mix(a.1, b.1), mix(a.2, b.2))
        },
        bar: |x: F64, lo: F64, hi: F64| bits(part(x, lo, hi)),
    }
}

fn label(rule: &ConditionalRule) -> String {
    match rule {
        ConditionalRule::Threshold { op: CmpOp::Gt, value, .. } => {
            format!("Value > {}", f64::from_bits(value.0))
        }
        other => format!("{other:?}"),
    }
}

fn cell(row: u32, col: u32) -> CellRef {
    CellRef::new(row, col)
}

fn plan_of(f: &SheetFormat, col: u32) -> Vec<PlanEntry<'_>> {
    let mut p = Vec::new();
    f.plan(col, &mut p);
    p
}

fn style_at(f: &SheetFormat, c: CellRef, v: &Value) -> CellStyle {
    let plan = plan_of(f, c.col);
    f.resolve(c, v, "", &plan, &vec![], &painter())
}

fn style_text(f: &SheetFormat, c: CellRef, s: &str) -> CellStyle {
    let plan = plan_of(f, c.col);
    f.resolve(c, &Value::Empty, s, &plan, &vec![], &painter())
}

#[test]
fn a_manual_column_colour_applies_to_every_row_including_unwritten_ones() {
    let mut f = SheetFormat::new();
    f.set_column_manual(
        3,
        ManualStyle {
            fill: Some(Rgb(10, 20, 30)),
            text: None,
            typography: Default::default(),
        },
    );
    for row in [0u32, 5, 199_999_999] {
        let s = style_at(&f, cell(row, 3), &num(1.0));
        assert_eq!(s.fill, Some(Rgb(10, 20, 30)), "row {row} missed the fill");
    }
    assert!(
        style_at(&f, cell(0, 4), &num(1.0)).is_plain(),
        "a neighbouring column must be untouched"
    );
}

#[test]
fn a_manual_colour_covers_non_numeric_cells_too() {
    let mut f = SheetFormat::new();
    f.set_column_manual(
        0,
        ManualStyle {
            fill: Some(Rgb(1, 2, 3)),
            text: Some(Rgb(4, 5, 6)),
            typography: Default::default(),
        },
    );
    for v in [
        Value::Empty,
        Value::Bool(true),
        Value::Text(StrId(0)),
    ] {
        let s = style_at(&f, cell(1, 0), &v);
        assert_eq!(s.fill, Some(Rgb(1, 2, 3)), "value {v:?} was skipped");
        assert_eq!(s.text, Some(Rgb(4, 5, 6)));
    }
}

#[test]
fn a_manual_selection_colour_is_one_entry_whatever_the_selection_size() {
    let mut f = SheetFormat::new();
    f.set_range_manual(
        TableRange::new(0, 1, 199_999_999, 1),
        ManualStyle {
            fill: Some(Rgb(9, 9, 9)),
            text: None,
            typography: Default::default(),
        },
    );
    assert_eq!(f.ranges().len(), 1);
    assert_eq!(
        style_at(&f, cell(100_000_000, 1), &num(0.0)).fill,
        Some(Rgb(9, 9, 9))
    );
}

#[test]
fn a_range_rule_stops_at_the_range_edges() {
    let mut f = SheetFormat::new();
    f.set_range_manual(
        TableRange::new(10, 2, 20, 4),
        ManualStyle {
            fill: Some(Rgb(7, 7, 7)),
            text: None,
            typography: Default::default(),
        },
    );
    let n = num(1.0);
    assert!(style_at(&f, cell(9, 3), &n).is_plain(), "row above");
    assert_eq!(style_at(&f, cell(10, 3), &n).fill, Some(Rgb(7, 7, 7)));
    assert_eq!(style_at(&f, cell(20, 3), &n).fill, Some(Rgb(7, 7, 7)));
    assert!(style_at(&f, cell(21, 3), &n).is_plain(), "row below");
    assert!(style_at(&f, cell(15, 5), &n).is_plain(), "column right");
}

#[test]
fn clearing_a_manual_colour_removes_the_entry_rather_than_leaving_an_inert_one() {
    let mut f = SheetFormat::new();
    f.set_column_manual(
        0,
        ManualStyle {
            fill: Some(Rgb(1, 1, 1)),
            text: None,
            typography: Default::default(),
        },
    );
    assert_eq!(f.rule_count(), 1);
    f.set_column_manual(0, ManualStyle::default());
    assert_eq!(f.rule_count(), 0);
    assert!(f.is_empty(), "an emptied column must not keep a live key");
}

#[test]
fn negative_red_positive_green_needs_no_per_cell_storage() {
    let mut f = SheetFormat::new();
    f.push_column_rule(0, presets::sign_colors());

    let red = Rgb(0xC0, 0x28, 0x28);
    let green = Rgb(0x1E, 0x88, 0x3C);
    assert_eq!(
        style_at(&f, cell(0, 0), &num(-1.0)).text,
        Some(red)
    );
    assert_eq!(
        style_at(&f, cell(1, 0), &num(12.5)).text,
        Some(green)
    );
    assert_eq!(
        style_at(&f, cell(2, 0), &num(0.0)).text,
        None,
        "zero is neither, and gets no colour unless one is configured"
    );
    assert_eq!(f.override_count(), 0);
    assert_eq!(f.rule_count(), 1);
}

#[test]
fn sign_colouring_sets_text_not_fill() {
    let mut f = SheetFormat::new();
    f.push_column_rule(0, presets::negative_red());
    let s = style_at(&f, cell(0, 0), &num(-3.0));
    assert!(s.text.is_some());
    assert!(
        s.fill.is_none(),
        "sign colouring is typographic; filling every negative cell would \
         drown the sheet"
    );
}

#[test]
fn a_user_threshold_fires_only_on_the_matching_side() {
    let mut f = SheetFormat::new();
    f.push_column_rule(2, presets::above(bits(100.0)));
    assert!(style_at(&f, cell(0, 2), &num(99.0)).is_plain());
    assert!(
        style_at(&f, cell(0, 2), &num(100.0)).is_plain(),
        "Gt is strict"
    );
    assert!(!style_at(&f, cell(0, 2), &num(101.0)).is_plain());
}

#[test]
fn thresholds_take_any_comparison_the_user_picks() {
    let mut f = SheetFormat::new();
    f.push_column_rule(
        0,
        ConditionalRule::Threshold {
            op: CmpOp::Le,
            value: bits(-5.0),
            fill: Rgb(1, 2, 3),
            text: Rgb(4, 5, 6),
        },
    );
    assert_eq!(
        style_at(&f, cell(0, 0), &num(-5.0)).fill,
        Some(Rgb(1, 2, 3)),
        "Le includes the bound"
    );
    assert!(style_at(&f, cell(0, 0), &num(-4.9)).is_plain());
}

#[test]
fn text_contains_matches_case_insensitively_and_ignores_numbers() {
    let mut f = SheetFormat::new();
    f.push_column_rule(0, presets::contains("err".to_string()));
    let plan = plan_of(&f, 0);
    assert!(
        SheetFormat::plan_needs_text(&plan),
        "the caller must be told to resolve text"
    );
    assert!(!style_text(&f, cell(0, 0), "Server ERROR 500").is_plain());
    assert!(style_text(&f, cell(0, 0), "fine").is_plain());
    assert!(style_at(&f, cell(0, 0), &num(1.0)).is_plain());
}

#[test]
fn colour_scales_and_bars_need_a_window_and_say_nothing_without_one() {
    let mut f = SheetFormat::new();
    f.push_column_rule(0, presets::color_scale());
    f.push_column_rule(0, presets::data_bar());
    let plan = plan_of(&f, 0);
    assert!(SheetFormat::plan_needs_window(&plan));

    assert!(f
        .resolve(cell(0, 0), &num(5.0), "", &plan, &vec![], &painter())
        .is_plain());

    let evals = vec![
        RuleEval {
            extent: Some((bits(0.0), bits(10.0))),
            cut: None,
        },
        RuleEval {
            extent: Some((bits(0.0), bits(10.0))),
            cut: None,
        },
    ];
    let s = f.resolve(cell(0, 0), &num(10.0), "", &plan, &evals, &painter());
    assert_eq!(s.fill, Some(Rgb(0x53, 0x8D, 0xD5)), "top of the scale");
    assert_eq!(s.bar.map(|(t, _)| f64::from_bits(t.0)), Some(1.0));
}

#[test]
fn top_n_uses_a_rank_cut_over_the_window() {
    let values: Vec<F64> = [5.0, 1.0, 9.0, 3.0, 7.0].iter().map(|x: &f64| bits(*x)).collect();
    let rule = presets::top_n(2);
    let eval = RuleEval::for_rule(&rule, &values);
    assert_eq!(eval.cut, Some(bits(7.0)));

    let mut f = SheetFormat::new();
    f.push_column_rule(0, rule);
    let plan = plan_of(&f, 0);
    let evals = vec![eval];
    assert!(!f
        .resolve(cell(0, 0), &num(9.0), "", &plan, &evals, &painter())
        .is_plain());
    assert!(f
        .resolve(cell(0, 0), &num(5.0), "", &plan, &evals, &painter())
        .is_plain());
}

#[test]
fn bottom_n_cuts_from_the_other_end() {
    let values: Vec<F64> = [5.0, 1.0, 9.0, 3.0, 7.0].iter().map(|x: &f64| bits(*x)).collect();
    let rule = presets::bottom_n(2);
    let eval = RuleEval::for_rule(&rule, &values);
    assert_eq!(eval.cut, Some(bits(3.0)), "the 2 smallest are 1 and 3");
}

#[test]
fn a_rank_request_larger_than_the_window_is_clamped_not_a_panic() {
    let values: Vec<F64> = [4.0, 2.0].iter().map(|x: &f64| bits(*x)).collect();
    let eval = RuleEval::for_rule(&presets::top_n(500), &values);
    assert_eq!(eval.cut, Some(bits(2.0)), "every value qualifies");
    assert_eq!(RuleEval::for_rule(&presets::top_n(3), &vec![]).cut, None);
}

#[test]
fn a_later_rule_overrides_an_earlier_one() {
    let mut f = SheetFormat::new();
    f.push_column_rule(0, presets::below(bits(0.0)));
    f.push_column_rule(
        0,
        ConditionalRule::Threshold {
            op: CmpOp::Lt,
            value: bits(-100.0),
            fill: Rgb(0, 0, 0),
            text: Rgb(255, 255, 255),
        },
    );
    assert_eq!(
        style_at(&f, cell(0, 0), &num(-500.0)).fill,
        Some(Rgb(0, 0, 0))
    );
    assert_eq!(
        style_at(&f, cell(0, 0), &num(-5.0)).fill,
        Some(Rgb(0xFF, 0xC7, 0xCE))
    );
}

#[test]
fn reordering_changes_which_rule_wins() {
    let mut f = SheetFormat::new();
    f.push_column_rule(0, presets::below(bits(0.0)));
    f.push_column_rule(
        0,
        ConditionalRule::Threshold {
            op: CmpOp::Lt,
            value: bits(-100.0),
            fill: Rgb(0, 0, 0),
            text: Rgb(255, 255, 255),
        },
    );
    assert!(f.move_column_rule(0, 1, -1), "move the specific rule first");
    assert_eq!(
        style_at(&f, cell(0, 0), &num(-500.0)).fill,
        Some(Rgb(0xFF, 0xC7, 0xCE))
    );
}

#[test]
fn reordering_at_the_edges_is_a_no_op_rather_than_an_error() {
    let mut f = SheetFormat::new();
    f.push_column_rule(0, presets::negative_red());
    f.push_column_rule(0, presets::above(bits(1.0)));
    assert!(!f.move_column_rule(0, 0, -1), "already first");
    assert!(!f.move_column_rule(0, 1, 1), "already last");
    assert!(!f.move_column_rule(0, 9, 1), "out of range");
    assert!(!f.move_column_rule(7, 0, 1), "no such column");
    assert_eq!(f.rule_count(), 2, "nothing was lost");
}

#[test]
fn moving_a_rule_several_places_lands_where_asked() {
    let mut f = SheetFormat::new();
    for v in [1.0, 2.0, 3.0, 4.0] {
        f.push_column_rule(0, presets::above(bits(v)));
    }
    assert!(f.move_column_rule(0, 0, 2));
    let labels: Vec<String> = f
        .column(0)
        .unwrap()
        .rules
        .iter()
        .map(label)
        .collect();
    assert_eq!(
        labels,
        vec![
            "Value > 2".to_string(),
            "Value > 3".into(),
            "Value > 1".into(),
            "Value > 4".into()
        ]
    );
}

#[test]
fn deleting_a_rule_leaves_the_rest_in_order() {
    let mut f = SheetFormat::new();
    for v in [1.0, 2.0, 3.0] {
        f.push_column_rule(0, presets::above(bits(v)));
    }
    let removed = f.remove_column_rule(0, 1).expect("rule 1 exists");
    assert_eq!(label(&removed), "Value > 2");
    let labels: Vec<String> = f
        .column(0)
        .unwrap()
        .rules
        .iter()
        .map(label)
        .collect();
    assert_eq!(labels, vec!["Value > 1".to_string(), "Value > 3".into()]);
    assert!(f.remove_column_rule(0, 9).is_none(), "out of range");
}

#[test]
fn range_rules_are_evaluated_after_column_rules() {
    let mut f = SheetFormat::new();
    f.set_column_manual(
        0,
        ManualStyle {
            fill: Some(Rgb(1, 1, 1)),
            text: None,
            typography: Default::default(),
        },
    );
    f.set_range_manual(
        TableRange::new(5, 0, 6, 0),
        ManualStyle {
            fill: Some(Rgb(2, 2, 2)),
            text: None,
            typography: Default::default(),
        },
    );
    let n = num(0.0);
    assert_eq!(style_at(&f, cell(4, 0), &n).fill, Some(Rgb(1, 1, 1)));
    assert_eq!(
        style_at(&f, cell(5, 0), &n).fill,
        Some(Rgb(2, 2, 2)),
        "a range is more specific than a column and comes later in the plan"
    );
}

#[test]
fn a_per_cell_override_beats_every_rule_and_is_the_only_per_cell_storage() {
    let mut f = SheetFormat::new();
    f.push_column_rule(0, presets::sign_colors());
    f.set_cell_override(
        cell(7, 0),
        CellOverride {
            manual: ManualStyle {
                fill: Some(Rgb(255, 255, 0)),
                text: Some(Rgb(0, 0, 0)),
                typography: Default::default(),
            },
            format: None,
        },
    );
    let s = style_at(&f, cell(7, 0), &num(-1.0));
    assert_eq!(s.fill, Some(Rgb(255, 255, 0)));
    assert_eq!(
        s.text,
        Some(Rgb(0, 0, 0)),
        "the override wins over the rule"
    );
    assert_eq!(
        style_at(&f, cell(8, 0), &num(-1.0)).text,
        Some(Rgb(0xC0, 0x28, 0x28))
    );
    assert_eq!(f.override_count(), 1, "exactly one cell was singled out");
}

#[test]
fn clearing_an_override_removes_its_entry() {
    let mut f = SheetFormat::new();
    f.set_cell_override(
        cell(1, 1),
        CellOverride {
            manual: ManualStyle {
                fill: Some(Rgb(1, 2, 3)),
                text: None,
                typography: Default::default(),
            },
            format: None,
        },
    );
    assert_eq!(f.override_count(), 1);
    f.set_cell_override(cell(1, 1), CellOverride::default());
    assert_eq!(
        f.override_count(),
        0,
        "the map must not accumulate inert rows"
    );
}

#[test]
fn a_column_number_format_applies_down_the_whole_column() {
    let mut f = SheetFormat::new();
    f.set_column_format(
        1,
        NumberFormat::Currency {
            symbol: "$".into(),
            places: 2,
        },
    );
    let fmt = f
        .number_format(cell(199_999_999, 1))
        .expect("format resolves");
    assert_eq!(fmt, &NumberFormat::Currency { symbol: "$".into(), places: 2 });
    assert!(
        f.number_format(cell(0, 0)).is_none(),
        "other columns unaffected"
    );
}

#[test]
fn a_range_format_overrides_the_column_format_and_a_cell_override_beats_both() {
    let mut f = SheetFormat::new();
    f.set_column_format(0, NumberFormat::Decimal { places: 0 });
    let i = f.push_range(RangeFormat::new(TableRange::new(0, 0, 10, 0)));
    f.range_mut(i).unwrap().format = Some(NumberFormat::Percent { places: 1 });

    assert_eq!(
        f.number_format(cell(50, 0)),
        Some(&NumberFormat::Decimal { places: 0 })
    );
    assert_eq!(
        f.number_format(cell(5, 0)),
        Some(&NumberFormat::Percent { places: 1 })
    );

    f.set_cell_override(
        cell(5, 0),
        CellOverride {
            manual: ManualStyle::default(),
            format: Some(NumberFormat::Thousands { places: 2 }),
        },
    );
    assert_eq!(
        f.number_format(cell(5, 0)),
        Some(&NumberFormat::Thousands { places: 2 })
    );
}

#[test]
fn setting_general_clears_a_column_format() {
    let mut f = SheetFormat::new();
    f.set_column_format(0, NumberFormat::Percent { places: 0 });
    assert!(f.number_format(cell(0, 0)).is_some());
    f.set_column_format(0, NumberFormat::General);
    assert!(
        f.number_format(cell(0, 0)).is_none(),
        "General means 'no format', not 'a format called General'"
    );
    assert!(f.is_empty());
}

#[test]
fn a_plan_only_gathers_rules_that_can_touch_the_column() {
    let mut f = SheetFormat::new();
    f.push_column_rule(0, presets::negative_red());
    f.push_column_rule(1, presets::above(bits(5.0)));
    f.push_range(RangeFormat::new(TableRange::new(0, 0, 9, 0)).with_rule(presets::data_bar()));

    assert_eq!(plan_of(&f, 0).len(), 2, "column 0's rule plus the range's");
    assert_eq!(plan_of(&f, 1).len(), 1);
    assert_eq!(plan_of(&f, 9).len(), 0);
}

#[test]
fn a_plan_reports_whether_the_expensive_inputs_are_needed() {
    let mut f = SheetFormat::new();
    f.push_column_rule(0, presets::negative_red());
    let plan = plan_of(&f, 0);
    assert!(
        !SheetFormat::plan_needs_text(&plan) && !SheetFormat::plan_needs_window(&plan),
        "a sign rule needs neither a string nor a scan"
    );
}

#[test]
fn heap_cost_tracks_rule_count_not_row_count() {
    let mut a = SheetFormat::new();
    a.set_range_manual(
        TableRange::new(0, 0, 9, 0),
        ManualStyle {
            fill: Some(Rgb(1, 2, 3)),
            text: None,
            typography: Default::default(),
        },
    );
    let mut b = SheetFormat::new();
    b.set_range_manual(
        TableRange::new(0, 0, 199_999_999, 0),
        ManualStyle {
            fill: Some(Rgb(1, 2, 3)),
            text: None,
            typography: Default::default(),
        },
    );
    assert_eq!(
        a.heap_bytes(),
        b.heap_bytes(),
        "a 200M-row range must cost exactly what a 10-row one does"
    );
}


#[test]
fn columns_and_overrides_are_listed_in_order() {
    let mut f = SheetFormat::new();
    f.push_column_rule(9, presets::negative_red());
    f.push_column_rule(2, presets::data_bar());
    f.set_cell_override(
        cell(3, 1),
        CellOverride { manual: ManualStyle::default(), format: Some(NumberFormat::Percent { places: 1 }) },
    );
    let cols: Vec<u32> = f.columns().iter().map(|(c, _)| *c).collect();
    assert_eq!(cols, vec![2, 9]);
    assert_eq!(f.overrides().len(), 1);
    assert_eq!(f.overrides()[0].0, cell(3, 1));
}

#[test]
fn range_rules_can_be_changed_moved_and_removed() {
    let mut f = SheetFormat::new();
    let r = TableRange::new(0, 0, 9, 0);
    assert_eq!(f.push_rule_for_range(r, presets::above(bits(1.0))), (0, 0));
    assert_eq!(f.push_rule_for_range(r, presets::above(bits(2.0))), (0, 1));
    assert_eq!(f.range_index_of(r), Some(0));
    assert!(f.move_range_rule(0, 0, 1));
    let labels: Vec<String> = f.rules_for_range(r).iter().map(label).collect();
    assert_eq!(labels, vec!["Value > 2".to_string(), "Value > 1".into()]);
    assert!(f.set_range_rule(0, 0, presets::above(bits(7.0))));
    assert!(!f.set_range_rule(0, 5, presets::above(bits(7.0))));
    assert_eq!(label(&f.remove_range_rule(0, 0).unwrap()), "Value > 7");
    assert!(f.remove_range_rule(0, 9).is_none());
    assert!(f.remove_range(0).is_some());
    assert!(f.is_empty());
}

#[test]
fn typography_layers_field_by_field() {
    let under = Typography::default().with_bold(true).with_size(F32(14.0f32.to_bits()));
    let over = Typography::default().with_italic(true).with_bold(false);
    let mut out = under;
    over.apply_to(&mut out);
    assert_eq!(out.bold, Some(false));
    assert_eq!(out.italic, Some(true));
    assert_eq!(out.size, Some(F32(14.0f32.to_bits())));
    let r = out.resolved(F32(11.0f32.to_bits()));
    assert!(!r.bold && r.italic && !r.underline);
    assert_eq!(f32::from_bits(clamp_font_pt(F32(1.0f32.to_bits())).0), 6.0);
    assert_eq!(f32::from_bits(clamp_font_pt(F32(400.0f32.to_bits())).0), 72.0);
}

#[test]
fn heap_cost_counts_entries_rules_and_texts() {
    let rule = std::mem::size_of::<ConditionalRule>();
    let column = std::mem::size_of::<(u32, ColumnFormat)>();
    assert_eq!(formatting_bytes(1, 0, 0, 2, &vec![5, 7]), column + 2 * rule + 12);
    assert_eq!(SheetFormat::new().heap_bytes(), 0);
    let mut f = SheetFormat::new();
    f.push_column_rule(3, presets::contains("needle".to_string()));
    assert!(f.heap_bytes() >= column + rule + 6);
}
