use ferrix_core::consolidate::{
    consolidate, Cell, ConsolidateError, ConsolidateFn, ConsolidateRequest, Consolidated,
    RangeSource, Source, MAX_OUTPUT_CELLS,
};
use ferrix_core::value::F64;
use std::collections::HashMap;

fn value(cell: &Cell) -> Option<f64> {
    let bits = |x: f64| F64(x.to_bits());
    let float = |x: F64| f64::from_bits(x.0);
    let plus = |a: F64, b: F64| bits(float(a) + float(b));
    let share = |a: F64, n: u64| bits(float(a) / n as f64);
    let number = |n: u64| bits(n as f64);
    cell.value.as_ref().map(|c| float(c.number(&plus, &share, &number)))
}

struct Sheets {
    grids: HashMap<String, Vec<Vec<&'static str>>>,
}

impl Sheets {
    fn new(pairs: &[(&str, &[&[&'static str]])]) -> Self {
        let mut grids = HashMap::new();
        for (name, rows) in pairs {
            grids.insert(
                name.to_string(),
                rows.iter().map(|r| r.to_vec()).collect::<Vec<_>>(),
            );
        }
        Self { grids }
    }
    fn raw(&self, sheet: &str, row: u32, col: u32) -> &'static str {
        self.grids
            .get(sheet)
            .and_then(|g| g.get(row as usize))
            .and_then(|r| r.get(col as usize))
            .copied()
            .unwrap_or("")
    }
}

impl RangeSource for Sheets {
    fn label(&self, sheet: String, row: u32, col: u32) -> String {
        self.label_at(&sheet, row, col)
    }
    fn number(&self, sheet: String, row: u32, col: u32) -> Option<F64> {
        self.number_at(&sheet, row, col)
    }
    fn label_at(&self, sheet: &String, row: u32, col: u32) -> String {
        self.raw(sheet, row, col).to_string()
    }
    fn number_at(&self, sheet: &String, row: u32, col: u32) -> Option<F64> {
        let x: Option<f64> = self.raw(sheet, row, col).parse().ok();
        x.map(|x| F64(x.to_bits()))
    }
}

fn src_of(sheet: &str, rows: u32, cols: u32) -> Source {
    Source {
        sheet: sheet.to_string(),
        first_row: 0,
        last_row: rows - 1,
        first_col: 0,
        last_col: cols - 1,
    }
}

fn q_sheets() -> Sheets {
    Sheets::new(&[
        (
            "Q1",
            &[
                &["", "Widgets", "Gadgets"],
                &["East", "10", "1"],
                &["West", "20", "2"],
            ],
        ),
        (
            "Q2",
            &[
                &["", "Widgets", "Gadgets"],
                &["East", "100", "5"],
                &["West", "200", "6"],
            ],
        ),
        ("Q3", &[&["", "Widgets", "Gadgets"], &["East", "1000", "7"]]),
    ])
}

fn run(func: ConsolidateFn) -> Consolidated {
    let s = q_sheets();
    let req = ConsolidateRequest {
        sources: vec![src_of("Q1", 3, 3), src_of("Q2", 3, 3), src_of("Q3", 2, 3)],
        func,
        max_cells: MAX_OUTPUT_CELLS,
    };
    consolidate(&req, &s).expect("valid request")
}

#[test]
fn matching_keys_aggregate_across_sheets() {
    let c = run(ConsolidateFn::Sum);
    assert_eq!(c.row_keys, vec!["East", "West"]);
    assert_eq!(c.col_keys, vec!["Widgets", "Gadgets"]);
    let east = c.get("East", "Widgets").unwrap();
    assert_eq!(value(east), Some(1110.0));
    assert_eq!(east.contributors, 3);
    assert!(
        !east.is_partial(),
        "East is on every sheet, so nothing is missing"
    );
    assert_eq!(value(c.get("East", "Gadgets").unwrap()), Some(13.0));
}

#[test]
fn a_key_missing_from_one_sheet_is_reported_not_zeroed() {
    let c = run(ConsolidateFn::Sum);
    let west = c.get("West", "Widgets").unwrap();
    assert_eq!(
        value(west),
        Some(220.0),
        "the total is the two sheets that HAVE West"
    );
    assert_eq!(west.contributors, 2, "not 3");
    assert_eq!(
        west.missing_from,
        vec!["Q3".to_string()],
        "the user must be able to see WHICH sheet is short — a silent \
         zero would produce the same 220 with no warning at all"
    );
    assert!(
        c.report
            .missing
            .contains(&("Q3".to_string(), "West".to_string())),
        "report.missing must name the sheet/key pair; got {:?}",
        c.report.missing
    );
    assert_eq!(c.report.partial_cells, 2, "both West columns are partial");
}

#[test]
fn average_divides_by_contributors_not_by_source_count() {
    let c = run(ConsolidateFn::Average);
    assert_eq!(
        value(c.get("West", "Widgets").unwrap()),
        Some(110.0),
        "averaging over the sheets that HAVE the key; treating Q3 as 0 \
         would give 73.33 and look plausible"
    );
    assert_eq!(value(c.get("East", "Widgets").unwrap()), Some(1110.0 / 3.0));
}

#[test]
fn count_counts_contributing_sheets() {
    let c = run(ConsolidateFn::Count);
    assert_eq!(value(c.get("East", "Widgets").unwrap()), Some(3.0));
    assert_eq!(value(c.get("West", "Widgets").unwrap()), Some(2.0));
}

#[test]
fn min_and_max_ignore_absent_sheets() {
    let mn = run(ConsolidateFn::Min);
    assert_eq!(value(mn.get("West", "Widgets").unwrap()), Some(20.0));
    let mx = run(ConsolidateFn::Max);
    assert_eq!(value(mx.get("West", "Widgets").unwrap()), Some(200.0));
    assert_eq!(
        value(mn.get("East", "Widgets").unwrap()),
        Some(10.0),
        "a zero-filled absent sheet would make every MIN 0"
    );
}

#[test]
fn a_cell_no_source_has_is_none_rather_than_zero() {
    let s = Sheets::new(&[
        ("A", &[&["", "X"], &["r1", "5"]]),
        ("B", &[&["", "Y"], &["r2", "6"]]),
    ]);
    let req = ConsolidateRequest {
        sources: vec![src_of("A", 2, 2), src_of("B", 2, 2)],
        func: ConsolidateFn::Sum,
        max_cells: MAX_OUTPUT_CELLS,
    };
    let c = consolidate(&req, &s).unwrap();
    assert_eq!(c.row_keys, vec!["r1", "r2"]);
    assert_eq!(c.col_keys, vec!["X", "Y"]);
    let hole = c.get("r1", "Y").unwrap();
    assert_eq!(
        value(hole), None,
        "no source has (r1, Y); reporting 0 would invent a data point"
    );
    assert_eq!(hole.contributors, 0);
    assert_eq!(c.report.empty_cells, 2, "(r1,Y) and (r2,X)");
}

#[test]
fn keys_keep_first_seen_order_across_sheets() {
    let s = Sheets::new(&[
        ("A", &[&["", "c1"], &["zeta", "1"], &["alpha", "2"]]),
        ("B", &[&["", "c1"], &["mid", "3"]]),
    ]);
    let req = ConsolidateRequest {
        sources: vec![src_of("A", 3, 2), src_of("B", 2, 2)],
        func: ConsolidateFn::Sum,
        max_cells: MAX_OUTPUT_CELLS,
    };
    let c = consolidate(&req, &s).unwrap();
    assert_eq!(
        c.row_keys,
        vec!["zeta", "alpha", "mid"],
        "the first sheet's layout survives; sorting would scramble the \
         order the user is looking at"
    );
}

#[test]
fn non_numeric_cells_are_missing_contributions_not_zeros() {
    let s = Sheets::new(&[
        ("A", &[&["", "X"], &["r1", "5"]]),
        ("B", &[&["", "X"], &["r1", "n/a"]]),
    ]);
    let req = ConsolidateRequest {
        sources: vec![src_of("A", 2, 2), src_of("B", 2, 2)],
        func: ConsolidateFn::Sum,
        max_cells: MAX_OUTPUT_CELLS,
    };
    let c = consolidate(&req, &s).unwrap();
    let cell = c.get("r1", "X").unwrap();
    assert_eq!(value(cell), Some(5.0));
    assert_eq!(cell.contributors, 1);
    assert_eq!(cell.missing_from, vec!["B".to_string()]);
}

#[test]
fn an_oversized_selection_is_refused_with_the_numbers() {
    let s = Sheets::new(&[("A", &[&["", "X"], &["r1", "1"]])]);
    let req = ConsolidateRequest {
        sources: vec![src_of("A", 2, 2)],
        func: ConsolidateFn::Sum,
        max_cells: 0,
    };
    let err = consolidate(&req, &s).unwrap_err();
    assert_eq!(err, ConsolidateError::TooLarge { cells: 1, max: 0 });
    assert!(err.message().contains("limit 0"));
}

#[test]
fn a_headerless_range_is_refused_rather_than_read_as_data() {
    let s = Sheets::new(&[("A", &[&["1"]])]);
    let req = ConsolidateRequest {
        sources: vec![src_of("A", 1, 1)],
        func: ConsolidateFn::Sum,
        max_cells: MAX_OUTPUT_CELLS,
    };
    assert_eq!(
        consolidate(&req, &s).unwrap_err(),
        ConsolidateError::EmptySource("A".to_string())
    );
}

#[test]
fn no_sources_is_an_error_not_an_empty_success() {
    let s = Sheets::new(&[]);
    let req = ConsolidateRequest {
        sources: Vec::new(),
        func: ConsolidateFn::Sum,
        max_cells: MAX_OUTPUT_CELLS,
    };
    assert_eq!(
        consolidate(&req, &s).unwrap_err(),
        ConsolidateError::NoSources
    );
}

#[test]
fn a_cell_with_no_contributor_is_partial_and_empty() {
    let s = Sheets::new(&[
        ("A", &[&["", "X"], &["r1", "5"]]),
        ("B", &[&["", "Y"], &["r2", "6"]]),
    ]);
    let req = ConsolidateRequest {
        sources: vec![src_of("A", 2, 2), src_of("B", 2, 2)],
        func: ConsolidateFn::Sum,
        max_cells: MAX_OUTPUT_CELLS,
    };
    let c = consolidate(&req, &s).unwrap();
    assert_eq!(c.report.partial_cells, 4, "in every cell some source contributed nothing");
    assert_eq!(c.report.empty_cells, 2);
    assert_eq!(value(c.get("r1", "Y").unwrap()), None);
    assert_eq!(value(c.get("r1", "X").unwrap()), Some(5.0));
}
