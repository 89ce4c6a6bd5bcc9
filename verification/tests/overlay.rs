use ferrix_core::arena::FormulaText;
use ferrix_core::overlay::{CellInput, EditOverlay};
use ferrix_core::table::CellRef;
use ferrix_core::value::{Value, F64};

fn num(x: f64) -> Value {
    Value::Number(F64(x.to_bits()))
}

#[test]
fn empty_overlay_defers_everything() {
    let o = EditOverlay::new();
    assert!(o.is_empty());
    assert_eq!(o.get(CellRef::new(0, 0)), None);
    assert_eq!(o.value(CellRef::new(5, 5)), None);
}

#[test]
fn overlay_set_and_get_roundtrip() {
    let mut o = EditOverlay::new();
    let c = CellRef::new(3, 4);
    o.set(c, CellInput::Literal(num(42.0)));
    assert_eq!(o.value(c), Some(num(42.0)));
    assert_eq!(o.len(), 1);
}

#[test]
fn set_returns_previous_for_undo() {
    let mut o = EditOverlay::new();
    let c = CellRef::new(0, 0);
    assert_eq!(o.set(c, CellInput::Literal(num(1.0))), None);
    let prev = o.set(c, CellInput::Literal(num(2.0)));
    assert_eq!(prev, Some(CellInput::Literal(num(1.0))));
    assert_eq!(o.value(c), Some(num(2.0)));
}

#[test]
fn restore_undoes_an_edit() {
    let mut o = EditOverlay::new();
    let c = CellRef::new(1, 1);
    let prev = o.set(c, CellInput::Literal(num(9.0)));
    assert_eq!(o.value(c), Some(num(9.0)));
    o.restore(c, prev);
    assert_eq!(o.get(c), None);
    assert!(o.is_empty());
}

#[test]
fn formula_keeps_source_and_cached_value() {
    let mut o = EditOverlay::new();
    let c = CellRef::new(0, 0);
    o.set(
        c,
        CellInput::Formula {
            src: "=SUM(A1:A3)".into(),
            cached: num(6.0),
        },
    );
    assert!(o.has_formula(c));
    assert_eq!(o.get(c).unwrap().formula_src(), Some("=SUM(A1:A3)"));
    assert_eq!(o.value(c), Some(num(6.0)));

    o.update_cached(c, num(10.0));
    assert_eq!(o.value(c), Some(num(10.0)));
    assert_eq!(o.get(c).unwrap().formula_src(), Some("=SUM(A1:A3)"));
}

#[test]
fn update_cached_ignores_literals() {
    let mut o = EditOverlay::new();
    let c = CellRef::new(0, 0);
    o.set(c, CellInput::Literal(num(1.0)));
    o.update_cached(c, num(99.0));
    assert_eq!(o.value(c), Some(num(1.0)));
}

#[test]
fn tracks_extent_past_base() {
    let mut o = EditOverlay::new();
    o.set(CellRef::new(999, 5), CellInput::Literal(num(1.0)));
    assert_eq!(o.extent(), (1000, 6));
}

#[test]
fn apply_batch_records_before_and_after_for_every_cell() {
    let mut o = EditOverlay::new();
    o.set(CellRef::new(0, 0), CellInput::Literal(num(1.0)));

    let mut changes = Vec::new();
    let n = o.apply_batch(
        vec![
            (
                CellRef::new(0, 0),
                Some(CellInput::Literal(num(2.0))),
            ),
            (
                CellRef::new(1, 0),
                Some(CellInput::Literal(num(3.0))),
            ),
        ]
            .into_iter(),
        &mut changes,
    );

    assert_eq!(n, 2);
    assert_eq!(
        changes[0].before,
        Some(CellInput::Literal(num(1.0)))
    );
    assert_eq!(
        changes[1].before, None,
        "an unedited cell defers to the base"
    );
    assert_eq!(o.value(CellRef::new(0, 0)), Some(num(2.0)));
    assert_eq!(o.value(CellRef::new(1, 0)), Some(num(3.0)));
}

#[test]
fn revert_batch_restores_every_cell_exactly() {
    let mut o = EditOverlay::new();
    o.set(CellRef::new(0, 0), CellInput::Literal(num(1.0)));

    let mut changes = Vec::new();
    o.apply_batch(
        (0..50u32).map(|r| {
            (
                CellRef::new(r, 0),
                Some(CellInput::Literal(num(99.0))),
            )
        }),
        &mut changes,
    );
    assert_eq!(o.len(), 50);

    o.revert_batch(&changes);
    assert_eq!(o.value(CellRef::new(0, 0)), Some(num(1.0)));
    assert_eq!(o.len(), 1, "reverting must not leave 49 phantom entries");
    for r in 1..50u32 {
        assert_eq!(o.get(CellRef::new(r, 0)), None);
    }
}

#[test]
fn revert_batch_unwinds_overlapping_writes_in_order() {
    let mut o = EditOverlay::new();
    let c = CellRef::new(4, 4);
    o.set(c, CellInput::Literal(num(0.0)));
    let mut changes = Vec::new();
    o.apply_batch(
        vec![
            (c, Some(CellInput::Literal(num(1.0)))),
            (c, Some(CellInput::Literal(num(2.0)))),
        ]
            .into_iter(),
        &mut changes,
    );
    assert_eq!(o.value(c), Some(num(2.0)));
    o.revert_batch(&changes);
    assert_eq!(o.value(c), Some(num(0.0)));
}
#[test]
fn formula_cells_enumerates_only_formulas() {
    let mut o = EditOverlay::new();
    o.set(CellRef::new(0, 0), CellInput::Literal(num(1.0)));
    o.set(
        CellRef::new(1, 0),
        CellInput::Formula {
            src: "=A1*2".into(),
            cached: num(2.0),
        },
    );
    let found: Vec<_> = o.formula_cells();
    assert_eq!(found.len(), 1);
    assert_eq!(found[0].0, CellRef::new(1, 0));
}

#[test]
fn editing_huge_sheet_stays_cheap() {
    let mut o = EditOverlay::new();
    for i in 0..1000u32 {
        o.set(
            CellRef::new(i * 200_000, 0),
            CellInput::Literal(num(i as f64)),
        );
    }
    assert_eq!(o.len(), 1000);
    assert!(
        o.heap_bytes() < 500_000,
        "1000 edits over a 200M-row sheet cost {} bytes",
        o.heap_bytes()
    );
    assert_eq!(
        o.value(CellRef::new(999 * 200_000, 0)),
        Some(num(999.0))
    );
}

#[test]
fn overlay_text_ids_are_told_from_the_base_ids() {
    let mut o = EditOverlay::new();
    let id = o.intern("typed");
    assert_eq!(o.resolve(id, &FormulaText::new()), Some("typed"));
    assert!(id.0 >= ferrix_core::overlay::OVERLAY_TEXT_TAG);
    assert_eq!(o.resolve(ferrix_core::value::StrId(0), &FormulaText::new()), None);
}

#[test]
fn a_new_string_makes_a_new_revision_and_a_known_one_does_not() {
    let mut o = EditOverlay::new();
    let before = o.revision();
    let id = o.intern("north");
    assert_eq!(o.revision(), before + 1);
    assert_eq!(o.intern("north"), id);
    assert_eq!(o.revision(), before + 1);
}

#[test]
fn every_edit_makes_a_new_revision() {
    let mut o = EditOverlay::new();
    let before = o.revision();
    o.set(CellRef::new(0, 0), CellInput::Literal(num(1.0)));
    assert_ne!(o.revision(), before);
    let all = o.edited_cells();
    assert_eq!(all.len(), 1);
    assert_eq!(o.clear(CellRef::new(0, 0)), Some(CellInput::Literal(num(1.0))));
}

#[test]
fn interned_text_goes_on_resolving_and_base_ids_never_do() {
    let mut formulas = FormulaText::new();
    let produced = formulas.intern_formula_text("PRODUCED").unwrap();
    let mut o = EditOverlay::new();
    let first = o.intern("first");
    o.intern("second");
    o.set(CellRef::new(0, 0), CellInput::Literal(Value::Text(first)));
    o.intern("third");
    assert_eq!(o.resolve(first, &formulas), Some("first"));
    assert_eq!(o.resolve(produced, &formulas), Some("PRODUCED"));
    let raw = ferrix_core::value::StrId(first.0 - ferrix_core::overlay::OVERLAY_TEXT_TAG);
    assert_eq!(o.resolve(raw, &formulas), None);
}
