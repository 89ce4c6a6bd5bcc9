use ferrix_core::bitmap::Bitmap;
use ferrix_core::column::{column_bytes, Column, ScanQuery};
use ferrix_core::value::{ErrorKind, StrId, Value, F64};

fn num(x: f64) -> Value {
    Value::Number(F64(x.to_bits()))
}

fn bits(v: &[f64]) -> Vec<F64> {
    v.iter().map(|x| F64(x.to_bits())).collect()
}

fn sum(c: &Column, start: usize, end: usize) -> f64 {
    let plus = |a: F64, b: F64| F64((f64::from_bits(a.0) + f64::from_bits(b.0)).to_bits());
    let minus = |a: F64, b: F64| F64((f64::from_bits(a.0) - f64::from_bits(b.0)).to_bits());
    f64::from_bits(c.sum_range(start, end, plus, minus).0)
}

#[test]
fn set_get_all_variants() {
    let mut c = Column::new();
    c.set(0, num(1.5));
    c.set(1, Value::Bool(true));
    c.set(2, Value::Text(StrId(7)));
    c.set(3, Value::Error(ErrorKind::DivZero));
    c.set(4, Value::Empty);

    assert_eq!(c.get(0), num(1.5));
    assert_eq!(c.get(1), Value::Bool(true));
    assert_eq!(c.get(2), Value::Text(StrId(7)));
    assert_eq!(c.get(3), Value::Error(ErrorKind::DivZero));
    assert_eq!(c.get(4), Value::Empty);
}

#[test]
fn all_error_kinds_roundtrip() {
    let kinds = [
        ErrorKind::DivZero,
        ErrorKind::Value,
        ErrorKind::Ref,
        ErrorKind::Name,
        ErrorKind::Num,
        ErrorKind::NotAvailable,
        ErrorKind::Null,
        ErrorKind::Circular,
    ];
    let mut c = Column::new();
    for (i, &k) in kinds.iter().enumerate() {
        c.set(i, Value::Error(k));
    }
    for (i, &k) in kinds.iter().enumerate() {
        assert_eq!(c.get(i), Value::Error(k), "kind {k:?}");
    }
}

#[test]
fn sparse_write_fills_gaps_with_empty() {
    let mut c = Column::new();
    c.set(1000, num(42.0));
    assert_eq!(c.len(), 1001);
    assert_eq!(c.get(0), Value::Empty);
    assert_eq!(c.get(999), Value::Empty);
    assert_eq!(c.get(1000), num(42.0));
    assert_eq!(c.populated(), 1);
}

#[test]
fn out_of_range_reads_are_empty() {
    let c = Column::new();
    assert_eq!(c.get(0), Value::Empty);
    assert_eq!(c.get(999_999), Value::Empty);
}

#[test]
fn clearing_a_cell_updates_presence() {
    let mut c = Column::new();
    c.set(5, num(1.0));
    assert_eq!(c.populated(), 1);
    c.set(5, Value::Empty);
    assert_eq!(c.populated(), 0);
    assert!(c.is_range_empty(0, 10));
}

#[test]
fn bulk_number_append() {
    let mut c = Column::new();
    let vals: Vec<f64> = (0..1000).map(|i| i as f64).collect();
    c.extend_numbers(&bits(&vals));
    assert_eq!(c.len(), 1000);
    assert_eq!(c.get(0), num(0.0));
    assert_eq!(c.get(999), num(999.0));
    assert_eq!(c.populated(), 1000);
    assert_eq!(sum(&c, 0, 1000), 499_500.0);
}

#[test]
fn aggregates_skip_non_numeric() {
    let mut c = Column::new();
    c.set(0, num(10.0));
    c.set(1, Value::Text(StrId(0)));
    c.set(2, num(20.0));
    c.set(3, Value::Empty);
    c.set(4, num(-5.0));

    assert_eq!(sum(&c, 0, 5), 25.0);
    assert_eq!(c.count_numeric(0, 5), 3);
    assert_eq!(c.min_max_range(0, 5), Some((F64((-5.0f64).to_bits()), F64(20.0f64.to_bits()))));
}

#[test]
fn aggregates_on_empty_column() {
    let c = Column::new();
    assert_eq!(sum(&c, 0, 100), 0.0);
    assert_eq!(c.count_numeric(0, 100), 0);
    assert_eq!(c.min_max_range(0, 100), None);
}

#[test]
fn text_column_allocates_no_number_array() {
    let mut c = Column::new();
    for i in 0..100 {
        c.push(Value::Text(StrId(i)));
    }
    assert!(
        !c.has_numbers(),
        "text-only column should not allocate f64 storage"
    );
    assert_eq!(c.get(50), Value::Text(StrId(50)));
}

#[test]
fn numeric_column_memory_is_within_budget() {
    let n = 100_000;
    let mut c = Column::with_capacity(n);
    c.extend_numbers(&bits(&vec![1.0; n]));
    let per_cell = c.heap_bytes() as f64 / n as f64;
    assert!(
        per_cell < 12.0,
        "numeric column costs {per_cell:.2} bytes/cell; 10M rows would need {:.0} MB",
        per_cell * 10_000_000.0 / 1_048_576.0
    );
}

#[test]
fn sum_is_exact_past_2_to_the_53() {
    const BASE: f64 = 9_007_199_254_740_992.0;
    let n = 200_000usize;
    let vals: Vec<f64> = (0..n).map(|i| BASE + i as f64).collect();
    let mut c = Column::new();
    c.extend_numbers(&bits(&vals));

    let exact = BASE * n as f64 + (n as f64 - 1.0) * n as f64 / 2.0;
    let got = sum(&c, 0, n);
    assert_eq!(
        got,
        exact,
        "sum drifted by {} — compensated summation is not working",
        exact - got
    );
}

#[test]
fn sum_of_large_integer_sequence_is_exact() {
    let n = 500_000usize;
    let vals: Vec<f64> = (0..n).map(|i| i as f64).collect();
    let mut c = Column::new();
    c.extend_numbers(&bits(&vals));
    let exact = (n as f64 - 1.0) * n as f64 / 2.0;
    assert_eq!(sum(&c, 0, n), exact);
}

#[test]
fn sum_handles_mixed_magnitudes() {
    let mut c = Column::new();
    let mut vals = vec![1e16];
    vals.extend(std::iter::repeat_n(1.0, 10_000));
    c.extend_numbers(&bits(&vals));
    assert_eq!(sum(&c, 0, vals.len()), 1e16 + 10_000.0);
}

#[test]
fn a_scan_finds_exactly_the_matching_rows() {
    let mut c = Column::new();
    c.set(0, num(1.0));
    c.set(1, Value::Text(StrId(3)));
    c.set(2, Value::Bool(true));
    c.set(3, Value::Bool(false));
    c.set(4, Value::Error(ErrorKind::Name));
    c.set(5, Value::Text(StrId(4)));
    c.set(6, num(7.0));
    let mut ids = Bitmap::zeros(8);
    ids.set(4, true);
    let query = ScanQuery {
        ids,
        numbers: true,
        when_true: true,
        when_false: false,
        errors: vec![ErrorKind::Name],
    };
    let mut out = vec![99];
    c.scan_matches(0, 100, &query, |x: F64| f64::from_bits(x.0) > 5.0, &mut out);
    assert_eq!(out, vec![99, 2, 4, 5, 6]);
    let mut part = Vec::new();
    c.scan_matches(3, 6, &query, |_: F64| true, &mut part);
    assert_eq!(part, vec![4, 5]);
}

#[test]
fn shrinking_keeps_the_cells() {
    let mut c = Column::with_capacity(1000);
    c.push(num(2.5));
    c.push(Value::Text(StrId(1)));
    c.shrink_to_fit();
    assert_eq!(c.get(0), num(2.5));
    assert_eq!(c.get(1), Value::Text(StrId(1)));
    assert_eq!(c.len(), 2);
}

#[test]
fn heap_cost_adds_up_the_arrays() {
    assert_eq!(column_bytes(10, 0, 10, 1), 10 + 40 + 8);
    assert_eq!(column_bytes(100, 100, 0, 2), 100 + 800 + 16);
    assert_eq!(column_bytes(1, usize::MAX, 1, 1), usize::MAX);
}
