use ferrix_core::arena::StringArena;
use ferrix_core::dedupe::{
    scan_bytes, scan_duplicates, DupeKeys, DupeReport, DupeScan, KeyCell, RowKey,
};
use ferrix_core::value::{Value, F64};

fn num(x: f64) -> Value {
    Value::Number(F64(x.to_bits()))
}

struct Gen<F: Fn(u32, u32) -> Value> {
    f: F,
}

impl<F: Fn(u32, u32) -> Value> DupeKeys for Gen<F> {
    fn key_value(&self, row: u32, col: u32) -> Value {
        (self.f)(row, col)
    }

    fn value_at(&self, row: u32, col: u32) -> Value {
        (self.f)(row, col)
    }
}

fn dupes_of<S: DupeKeys>(rows: u32, key_cols: Vec<u32>, src: &S) -> (Vec<u32>, DupeReport) {
    scan_duplicates(0..rows, key_cols, src)
}

#[test]
fn keeps_the_first_occurrence_like_excel() {
    let src = Gen {
        f: |r, _| num((r % 3) as f64),
    };
    let (dupes, rep) = dupes_of(9, vec![0], &src);
    assert_eq!(dupes, vec![3, 4, 5, 6, 7, 8]);
    assert_eq!(rep.unique, 3);
    assert_eq!(rep.duplicates, 6);
    assert_eq!(rep.scanned, 9);
}

#[test]
fn only_the_chosen_columns_form_the_key() {
    let src = Gen {
        f: |r, c| match c {
            0 => num((r % 2) as f64),
            _ => num(r as f64),
        },
    };
    let (on_col0, _) = dupes_of(6, vec![0], &src);
    assert_eq!(on_col0, vec![2, 3, 4, 5], "keyed on the repeating column");
    let (on_both, rep) = dupes_of(6, vec![0, 1], &src);
    assert!(on_both.is_empty(), "got {on_both:?}");
    assert_eq!(rep.unique, 6);
}

#[test]
fn text_keys_compare_by_arena_id_not_by_copy() {
    let mut arena = StringArena::new();
    let a = arena.intern("EMEA");
    let b = arena.intern("APAC");
    assert_eq!(arena.intern("EMEA"), a, "arena must intern to one id");
    let src = Gen {
        f: move |r, _| Value::Text(if r % 2 == 0 { a } else { b }),
    };
    let (dupes, rep) = dupes_of(6, vec![0], &src);
    assert_eq!(dupes, vec![2, 3, 4, 5]);
    assert_eq!(rep.unique, 2);
}

#[test]
fn minus_zero_and_nan_do_not_explode_the_key_space() {
    let src = Gen {
        f: |r, _| match r % 3 {
            0 => num(0.0),
            1 => num(-0.0),
            _ => num(f64::from_bits(0x7ff8_0000_0000_0000 | u64::from(r))),
        },
    };
    let (_, rep) = dupes_of(30, vec![0], &src);
    assert_eq!(rep.unique, 2);
}

#[test]
fn empty_cells_are_a_key_value_not_a_skip() {
    let src = Gen {
        f: |r, _| {
            if r < 4 {
                Value::Empty
            } else {
                num(1.0)
            }
        },
    };
    let (dupes, rep) = dupes_of(6, vec![0], &src);
    assert_eq!(dupes, vec![1, 2, 3, 5]);
    assert_eq!(rep.unique, 2);
}

#[test]
fn types_do_not_collide() {
    let mut arena = StringArena::new();
    let one = arena.intern("1");
    let src = Gen {
        f: move |r, _| match r {
            0 => num(1.0),
            1 => Value::Text(one),
            2 => Value::Bool(true),
            _ => num(1.0),
        },
    };
    let (dupes, rep) = dupes_of(4, vec![0], &src);
    assert_eq!(dupes, vec![3], "only the repeated NUMBER 1 is a duplicate");
    assert_eq!(rep.unique, 3);
}

#[test]
fn dedupe_holds_keys_not_rows() {
    const ROWS: u32 = 10_000_000;
    const KEYS: u32 = 1_000;

    let narrow = Gen {
        f: |r, _| num((r % KEYS) as f64),
    };
    let mut scan = DupeScan::new(vec![0]);
    for r in 0..ROWS {
        scan.observe(r, &narrow);
    }
    let rep = scan.report();
    assert_eq!(rep.scanned, u64::from(ROWS));
    assert_eq!(rep.unique, u64::from(KEYS));
    assert_eq!(rep.duplicates, u64::from(ROWS - KEYS));

    let per_key = std::mem::size_of::<KeyCell>();
    let bound = KEYS as usize * (per_key + 4 * std::mem::size_of::<RowKey>());
    assert!(
        rep.key_heap_bytes <= bound,
        "key set held {} bytes for {KEYS} keys over {ROWS} rows (bound {bound})",
        rep.key_heap_bytes
    );
    let one_u32_per_row = ROWS as usize * 4;
    assert!(rep.key_heap_bytes * 100 < one_u32_per_row);

    let wide = Gen {
        f: |r, c| {
            if c == 0 {
                num((r % KEYS) as f64)
            } else {
                num(f64::from(r) * f64::from(c))
            }
        },
    };
    let mut wide_scan = DupeScan::new(vec![0]);
    for r in 0..ROWS {
        wide_scan.observe(r, &wide);
    }
    assert_eq!(wide_scan.key_heap_bytes(), rep.key_heap_bytes);
}

#[test]
fn a_run_of_duplicates_allocates_nothing_new() {
    let src = Gen { f: |_, _| num(7.0) };
    let mut scan = DupeScan::new(vec![0]);
    scan.observe(0, &src);
    let after_first = scan.key_heap_bytes();
    for r in 1..100_000 {
        assert!(scan.observe(r, &src), "row {r} must be a duplicate");
    }
    assert_eq!(scan.key_heap_bytes(), after_first);
}

#[test]
fn scanning_no_rows_reports_nothing() {
    let src = Gen {
        f: |_, _| Value::Empty,
    };
    let (dupes, rep) = dupes_of(0, vec![0], &src);
    assert!(dupes.is_empty());
    assert_eq!(rep, DupeReport::default());
}

#[test]
fn every_row_counts_once_in_a_report() {
    let src = Gen {
        f: |r, _| num((r % 7) as f64),
    };
    let (dupes, rep) = dupes_of(100, vec![0], &src);
    assert_eq!(rep.unique + rep.duplicates, rep.scanned);
    assert_eq!(dupes.len() as u64, rep.duplicates);
    assert_eq!(KeyCell::of(num(-0.0)), KeyCell::Number(0));
}

#[test]
fn the_key_set_costs_its_table_and_its_cells() {
    let (key, cell) = (std::mem::size_of::<RowKey>(), std::mem::size_of::<KeyCell>());
    assert_eq!(scan_bytes(4, 3, 2), 4 * key + 3 * 2 * cell);
    assert_eq!(scan_bytes(0, usize::MAX, 2), usize::MAX);
    let src = Gen { f: |r, _| num(f64::from(r)) };
    let (_, rep) = dupes_of(3, vec![0, 1], &src);
    assert!(rep.key_heap_bytes >= 3 * key + 3 * 2 * cell);
}
