use ferrix_core::arena::{FormulaText, StringArena};
use ferrix_core::autocomplete::{
    DistinctValues, ScanBudget, Suggestions, MAX_DISTINCT, MAX_SUGGESTIONS, SCAN_LIMIT,
};
use ferrix_core::column::Column;
use ferrix_core::value::{StrId, Value, F64};

fn text_column(arena: &mut StringArena, rows: usize, vals: &[&str]) -> Column {
    let ids: Vec<_> = vals.iter().map(|v| arena.intern(v)).collect();
    let mut c = Column::with_capacity(rows);
    for r in 0..rows {
        c.push(Value::Text(ids[r % ids.len()]));
    }
    c
}

#[test]
fn distinct_values_are_the_columns_text_values() {
    let mut arena = StringArena::new();
    let col = text_column(&mut arena, 300, &["apple", "banana", "cherry"]);
    let d = DistinctValues::scan(&col, 0, ScanBudget::default());
    assert_eq!(d.len(), 3, "three distinct strings cycled 100 times each");
    let none = FormulaText::new();
    let mut got: Vec<&str> = d.ids().iter().map(|i| arena.resolve_or_empty(*i, &none)).collect();
    got.sort_unstable();
    assert_eq!(got, vec!["apple", "banana", "cherry"]);
}

#[test]
fn scan_never_walks_more_rows_than_the_budget() {
    let mut arena = StringArena::new();
    let rows = 250_000;
    let col = text_column(&mut arena, rows, &["a", "b", "c", "d"]);
    let budget = ScanBudget::with_limit(SCAN_LIMIT);
    let d = DistinctValues::scan(&col, 0, budget);
    assert_eq!(
        d.budget.rows_examined, SCAN_LIMIT,
        "the scan must stop at the budget, not at the end of a {rows}-row column"
    );
    assert!(
        d.budget.rows_examined < rows,
        "examined {} of {rows} rows — this is the invariant that keeps a \
         200M-row column from being walked",
        d.budget.rows_examined
    );
    assert!(
        d.budget.truncated,
        "a column longer than the budget is a sample"
    );
}

#[test]
fn scan_cost_is_constant_in_the_row_count() {
    let mut arena = StringArena::new();
    let small = text_column(&mut arena, 30_000, &["x", "y"]);
    let large = text_column(&mut arena, 400_000, &["x", "y"]);
    let a = DistinctValues::scan(&small, 0, ScanBudget::default());
    let b = DistinctValues::scan(&large, 0, ScanBudget::default());
    assert_eq!(
        a.budget.rows_examined, b.budget.rows_examined,
        "a 13x longer column must cost exactly the same to scan"
    );
    assert_eq!(a.budget.rows_examined, SCAN_LIMIT);
}

#[test]
fn scan_of_a_short_column_stops_at_its_end() {
    let mut arena = StringArena::new();
    let col = text_column(&mut arena, 12, &["p", "q"]);
    let d = DistinctValues::scan(&col, 0, ScanBudget::default());
    assert_eq!(d.budget.rows_examined, 12, "never read past the column");
    assert!(!d.budget.truncated);
}

#[test]
fn scan_window_follows_the_cursor() {
    let mut arena = StringArena::new();
    let common = arena.intern("common");
    let rare = arena.intern("deepvalue");
    let rows = 200_000;
    let mut col = Column::with_capacity(rows);
    for r in 0..rows {
        col.push(Value::Text(if r == 150_000 { rare } else { common }));
    }
    let top = DistinctValues::scan(&col, 0, ScanBudget::default());
    let near = DistinctValues::scan(&col, 150_000, ScanBudget::default());
    let has = |d: &DistinctValues| d.ids().iter().any(|i| *i == rare);
    assert!(!has(&top), "row 150k is outside a 20k window starting at 0");
    assert!(has(&near), "the window must follow the edited row");
}

#[test]
fn distinct_set_is_capped() {
    let mut arena = StringArena::new();
    let mut col = Column::with_capacity(MAX_DISTINCT + 500);
    for r in 0..(MAX_DISTINCT + 500) {
        let id = arena.intern(&format!("v{r}"));
        col.push(Value::Text(id));
    }
    let d = DistinctValues::scan(&col, 0, ScanBudget::default());
    assert_eq!(d.len(), MAX_DISTINCT, "capped at ~10k distinct values");
    assert!(d.budget.distinct_capped);
    assert!(
        d.heap_bytes() < 128 * 1024,
        "the distinct set has a hard memory ceiling; got {} bytes",
        d.heap_bytes()
    );
}

#[test]
fn numbers_are_not_suggested() {
    let mut col = Column::with_capacity(100);
    for r in 0..100 {
        col.push(Value::Number(F64((r as f64).to_bits())));
    }
    let d = DistinctValues::scan(&col, 0, ScanBudget::default());
    assert!(
        d.is_empty(),
        "autocompleting a number is harmful, never do it"
    );
}

#[test]
fn prefix_matches_come_before_containment_matches() {
    let mut arena = StringArena::new();
    let col = text_column(&mut arena, 60, &["Canada", "Chad", "Vatican", "Chile"]);
    let d = DistinctValues::scan(&col, 0, ScanBudget::default());
    let s = Suggestions::rank(&d, &arena, &FormulaText::new(), "can");
    assert_eq!(
        s.items,
        vec!["Canada".to_string(), "Vatican".to_string()],
        "prefix match first, containment second"
    );
}

#[test]
fn suggestions_are_case_insensitive_and_skip_the_exact_prefix() {
    let mut arena = StringArena::new();
    let col = text_column(&mut arena, 30, &["Alpha", "alphabet", "beta"]);
    let d = DistinctValues::scan(&col, 0, ScanBudget::default());
    let s = Suggestions::rank(&d, &arena, &FormulaText::new(), "ALPHA");
    assert_eq!(
        s.items,
        vec!["alphabet".to_string()],
        "`Alpha` equals the typed text and is not worth offering; \
         `alphabet` is"
    );
}

#[test]
fn an_empty_prefix_suggests_nothing() {
    let mut arena = StringArena::new();
    let col = text_column(&mut arena, 30, &["one", "two"]);
    let d = DistinctValues::scan(&col, 0, ScanBudget::default());
    assert!(Suggestions::rank(&d, &arena, &FormulaText::new(), "").is_empty());
    assert!(Suggestions::rank(&d, &arena, &FormulaText::new(), "   ").is_empty());
}

#[test]
fn suggestions_are_capped() {
    let mut arena = StringArena::new();
    let vals: Vec<String> = (0..40).map(|i| format!("prefix{i:02}")).collect();
    let refs: Vec<&str> = vals.iter().map(String::as_str).collect();
    let col = text_column(&mut arena, 400, &refs);
    let d = DistinctValues::scan(&col, 0, ScanBudget::default());
    let s = Suggestions::rank(&d, &arena, &FormulaText::new(), "prefix");
    assert_eq!(s.len(), MAX_SUGGESTIONS);
    assert!(s.truncated);
}

#[test]
fn a_list_rule_supplies_the_suggestions_directly() {
    let vals: Vec<String> = ["North", "South", "East", "West"]
        .iter()
        .map(|s| s.to_string())
        .collect();
    let all = Suggestions::from_list(&vals, "");
    assert_eq!(all.len(), 4, "an empty prefix opens the whole dropdown");
    let one = Suggestions::from_list(&vals, "sou");
    assert_eq!(one.items, vec!["South".to_string()]);
}

#[test]
fn a_list_longer_than_the_cap_says_it_was_cut() {
    let vals: Vec<String> = (0..12).map(|i| format!("\u{c9}t\u{e9} {i}")).collect();
    let s = Suggestions::from_list(&vals, "\u{e9}T\u{c9}");
    assert_eq!(s.len(), MAX_SUGGESTIONS);
    assert!(s.truncated);
    assert_eq!(s.items[0], "\u{c9}t\u{e9} 0");
    let exact = Suggestions::from_list(&vals, "\u{e9}t\u{e9} 3");
    assert!(exact.is_empty());
}

#[test]
fn a_repeat_past_the_cap_drops_nothing() {
    let mut c = Column::with_capacity(10_002);
    for r in 0..10_001u32 {
        c.push(Value::Text(StrId(r % 10_000)));
    }
    let d = DistinctValues::scan(&c, 0, ScanBudget::default());
    assert_eq!(d.len(), 10_000);
    assert_eq!(d.budget.rows_examined, 10_001);
    assert!(!d.budget.truncated);
    assert!(!d.budget.distinct_capped, "the one row past the cap repeats a value");
    c.push(Value::Text(StrId(10_000)));
    let d = DistinctValues::scan(&c, 0, ScanBudget::default());
    assert_eq!(d.len(), 10_000);
    assert!(d.budget.distinct_capped);
}

#[test]
fn text_that_formulas_produced_is_offered() {
    let mut arena = StringArena::new();
    let mut formulas = FormulaText::new();
    let apple = arena.intern("apple");
    let apricot = formulas.intern_formula_text("apricot").unwrap();
    let mut c = Column::with_capacity(2);
    c.push(Value::Text(apple));
    c.push(Value::Text(apricot));
    let d = DistinctValues::scan(&c, 0, ScanBudget::default());
    let s = Suggestions::rank(&d, &arena, &formulas, "ap");
    assert_eq!(s.items, vec!["apple", "apricot"]);
    assert_eq!(Suggestions::rank(&d, &arena, &FormulaText::new(), "ap").items, vec!["apple"]);
    assert_eq!(arena.resolve_or_empty(apricot, &formulas), "apricot");
    assert_eq!(arena.resolve_or_empty(apricot, &FormulaText::new()), "");
}
