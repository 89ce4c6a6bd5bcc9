use ferrix_core::pivot::{
    compute, Agg, Arithmetic, Cell, ColIdx, Moments, PivotGroup, PivotResult, PivotSource,
};
use ferrix_core::value::{StrId, F64};
use std::collections::HashMap as StdMap;

fn table<S: PivotSource>(src: &S, by: &[ColIdx], values: &[(ColIdx, Agg)]) -> PivotResult {
    let bits = |x: f64| F64(x.to_bits());
    let float = |x: F64| f64::from_bits(x.0);
    let ops = Arithmetic {
        plus: |a: F64, b: F64| bits(float(a) + float(b)),
        minus: |a: F64, b: F64| bits(float(a) - float(b)),
        times: |a: F64, b: F64| bits(float(a) * float(b)),
        share: |a: F64, n: u64| bits(float(a) / n as f64),
        number: |n: u64| bits(n as f64),
        root: |a: F64| bits(float(a).sqrt()),
    };
    compute(src, &by.to_vec(), &values.to_vec(), &ops)
}

fn agg(group: &PivotGroup, i: usize) -> Option<f64> {
    group.aggregates[i].map(|x| f64::from_bits(x.0))
}

struct Cols {
    cols: Vec<Vec<Cell>>,
    rows: usize,
}

impl Cols {
    fn new(cols: Vec<Vec<Cell>>) -> Self {
        let rows = cols.iter().map(|c| c.len()).max().unwrap_or(0);
        Self { cols, rows }
    }
}

impl PivotSource for Cols {
    fn row_count(&self) -> usize {
        self.rows
    }
    fn cell(&self, col: ColIdx, row: usize) -> Cell {
        self.cols
            .get(col.0 as usize)
            .and_then(|c| c.get(row))
            .copied()
            .unwrap_or(Cell::Blank)
    }
    fn rows(&self) -> usize {
        self.rows
    }
    fn at(&self, col: ColIdx, row: usize) -> Cell {
        self.cell(col, row)
    }
}

fn num(n: f64) -> Cell {
    Cell::Number(F64(n.to_bits()))
}
fn txt(id: u32) -> Cell {
    Cell::Text(StrId(id))
}

#[test]
fn groups_by_a_single_text_column_and_sums() {
    let src = Cols::new(vec![
        vec![txt(1), txt(2), txt(1), txt(2), txt(1)],
        vec![num(10.0), num(5.0), num(20.0), num(7.0), num(3.0)],
    ]);
    let out = table(&src, &[ColIdx(0)], &[(ColIdx(1), Agg::Sum)]);
    assert_eq!(out.accumulator_count(), 2, "two distinct regions");

    let g1 = out.group(&[txt(1)]).expect("region 1 present");
    let g2 = out.group(&[txt(2)]).expect("region 2 present");
    assert_eq!(agg(g1, 0), Some(33.0), "10+20+3");
    assert_eq!(agg(g2, 0), Some(12.0), "5+7");
}

#[test]
fn every_aggregate_reports_its_own_answer() {
    let src = Cols::new(vec![
        vec![txt(1), txt(1), txt(1)],
        vec![num(2.0), num(8.0), num(5.0)],
    ]);
    let aggs = [
        Agg::Sum,
        Agg::Count,
        Agg::Avg,
        Agg::Min,
        Agg::Max,
        Agg::StdDev,
    ];
    let req: Vec<_> = aggs.iter().map(|&a| (ColIdx(1), a)).collect();
    let out = table(&src, &[ColIdx(0)], &req);
    let g = &out.groups[0];
    assert_eq!(agg(g, 0), Some(15.0), "sum");
    assert_eq!(agg(g, 1), Some(3.0), "count");
    assert_eq!(agg(g, 2), Some(5.0), "avg");
    assert_eq!(agg(g, 3), Some(2.0), "min");
    assert_eq!(agg(g, 4), Some(8.0), "max");
    let stddev = agg(g, 5).expect("stddev present");
    assert!(
        (stddev - 6.0_f64.sqrt()).abs() < 1e-12,
        "population stddev should be sqrt(6), got {stddev}"
    );
}

#[test]
fn count_includes_non_numeric_but_numeric_aggregates_ignore_them() {
    let src = Cols::new(vec![
        vec![txt(1), txt(1), txt(1), txt(1)],
        vec![num(4.0), Cell::Blank, num(6.0), Cell::Blank],
    ]);
    let out = table(
        &src,
        &[ColIdx(0)],
        &[(ColIdx(1), Agg::Count), (ColIdx(1), Agg::Avg)],
    );
    let g = &out.groups[0];
    assert_eq!(agg(g, 0), Some(4.0), "count counts all 4 rows");
    assert_eq!(agg(g, 1), Some(5.0), "avg over the 2 numbers only");
}

#[test]
fn a_group_with_no_numbers_reports_none_not_zero() {
    let src = Cols::new(vec![vec![txt(1), txt(1)], vec![Cell::Blank, Cell::Blank]]);
    let out = table(
        &src,
        &[ColIdx(0)],
        &[
            (ColIdx(1), Agg::Sum),
            (ColIdx(1), Agg::Avg),
            (ColIdx(1), Agg::Min),
            (ColIdx(1), Agg::StdDev),
            (ColIdx(1), Agg::Count),
        ],
    );
    let g = &out.groups[0];
    assert_eq!(agg(g, 0), None, "sum of no numbers is None, not 0");
    assert_eq!(agg(g, 1), None, "avg of no numbers is None");
    assert_eq!(agg(g, 2), None, "min of no numbers is None");
    assert_eq!(agg(g, 3), None, "stddev of no numbers is None");
    assert_eq!(
        agg(g, 4),
        Some(2.0),
        "but count still counts the rows"
    );
}

#[test]
fn multi_column_group_key() {
    let src = Cols::new(vec![
        vec![txt(1), txt(1), txt(1), txt(2)],
        vec![num(10.0), num(10.0), num(11.0), num(10.0)],
        vec![num(100.0), num(50.0), num(7.0), num(9.0)],
    ]);
    let out = table(&src, &[ColIdx(0), ColIdx(1)], &[(ColIdx(2), Agg::Sum)]);
    assert_eq!(
        out.accumulator_count(),
        3,
        "three distinct (region,quarter)"
    );
    assert_eq!(
        agg(out.group(&[txt(1), num(10.0)]).unwrap(), 0),
        Some(150.0),
        "100+50 for (region 1, Q10)"
    );
    assert_eq!(
        agg(out.group(&[txt(1), num(11.0)]).unwrap(), 0),
        Some(7.0)
    );
    assert_eq!(
        agg(out.group(&[txt(2), num(10.0)]).unwrap(), 0),
        Some(9.0)
    );
}

#[test]
fn empty_group_by_is_a_grand_total() {
    let src = Cols::new(vec![vec![num(1.0), num(2.0), num(3.0)]]);
    let out = table(&src, &[], &[(ColIdx(0), Agg::Sum), (ColIdx(0), Agg::Count)]);
    assert_eq!(out.accumulator_count(), 1, "one grand-total group");
    assert_eq!(out.groups[0].key, Vec::<Cell>::new(), "empty key");
    assert_eq!(agg(&out.groups[0], 0), Some(6.0));
    assert_eq!(agg(&out.groups[0], 1), Some(3.0));
}

#[test]
fn sum_uses_kahan_and_stays_exact_past_2_to_the_53() {
    const BASE: f64 = 9_007_199_254_740_992.0;
    let n = 200_000usize;
    let group: Vec<Cell> = vec![txt(1); n];
    let vals: Vec<Cell> = (0..n).map(|i| num(BASE + i as f64)).collect();
    let src = Cols::new(vec![group, vals]);

    let out = table(&src, &[ColIdx(0)], &[(ColIdx(1), Agg::Sum)]);
    let exact = BASE * n as f64 + (n as f64 - 1.0) * n as f64 / 2.0;
    let got = agg(&out.groups[0], 0).unwrap();
    assert_eq!(
        got,
        exact,
        "pivot sum drifted by {} — Kahan compensation is not working",
        exact - got
    );
}

#[test]
fn correctness_against_independent_truth_on_100k_rows() {
    let n = 100_000usize;
    let mut group = Vec::with_capacity(n);
    let mut vals = Vec::with_capacity(n);
    let mut x: u64 = 0x9E3779B97F4A7C15;
    for _ in 0..n {
        x ^= x << 13;
        x ^= x >> 7;
        x ^= x << 17;
        let g = (x % 137) as u32;
        let v = ((x >> 20) % 100_000) as f64 * 0.5 - 25_000.0;
        group.push(txt(g));
        vals.push(num(v));
    }
    let src = Cols::new(vec![group.clone(), vals.clone()]);

    let mut truth: StdMap<u32, Vec<f64>> = StdMap::new();
    for i in 0..n {
        if let (Cell::Text(id), Cell::Number(v)) = (group[i], vals[i]) {
            truth.entry(id.0).or_default().push(f64::from_bits(v.0));
        }
    }

    let out = table(
        &src,
        &[ColIdx(0)],
        &[
            (ColIdx(1), Agg::Sum),
            (ColIdx(1), Agg::Count),
            (ColIdx(1), Agg::Avg),
            (ColIdx(1), Agg::Min),
            (ColIdx(1), Agg::Max),
            (ColIdx(1), Agg::StdDev),
        ],
    );

    assert_eq!(
        out.accumulator_count(),
        truth.len(),
        "group count must match the independent truth"
    );

    for g in &out.groups {
        let Cell::Text(id) = g.key[0] else {
            panic!("group key should be text")
        };
        let vs = &truth[&id.0];
        let naive_sum: f64 = vs.iter().copied().sum();
        let count = vs.len() as f64;
        let mean = naive_sum / count;
        let naive_min = vs.iter().copied().fold(f64::INFINITY, f64::min);
        let naive_max = vs.iter().copied().fold(f64::NEG_INFINITY, f64::max);
        let var = vs.iter().map(|v| (v - mean).powi(2)).sum::<f64>() / count;
        let naive_std = var.sqrt();

        let rel = |a: f64, b: f64| (a - b).abs() <= 1e-6 * a.abs().max(1.0);
        assert!(
            rel(agg(g, 0).unwrap(), naive_sum),
            "sum mismatch for group {}: {:?} vs {naive_sum}",
            id.0,
            agg(g, 0)
        );
        assert_eq!(agg(g, 1).unwrap(), count, "count for {}", id.0);
        assert!(rel(agg(g, 2).unwrap(), mean), "avg for {}", id.0);
        assert_eq!(agg(g, 3).unwrap(), naive_min, "min for {}", id.0);
        assert_eq!(agg(g, 4).unwrap(), naive_max, "max for {}", id.0);
        assert!(
            rel(agg(g, 5).unwrap(), naive_std),
            "stddev for {}: {:?} vs {naive_std}",
            id.0,
            agg(g, 5)
        );
    }
}

#[test]
fn memory_scales_with_groups_not_rows() {
    let rows = 10_000_000usize;
    const GROUPS: u32 = 1000;

    struct Synthetic {
        rows: usize,
        groups: u32,
    }
    impl PivotSource for Synthetic {
        fn row_count(&self) -> usize {
            self.rows
        }
        fn cell(&self, col: ColIdx, row: usize) -> Cell {
            match col.0 {
                0 => Cell::Text(StrId((row as u32) % self.groups)),
                _ => num(row as f64),
            }
        }
        fn rows(&self) -> usize {
            self.rows
        }
        fn at(&self, col: ColIdx, row: usize) -> Cell {
            self.cell(col, row)
        }
    }

    let src = Synthetic {
        rows,
        groups: GROUPS,
    };
    let out = table(
        &src,
        &[ColIdx(0)],
        &[(ColIdx(1), Agg::Sum), (ColIdx(1), Agg::Count)],
    );

    assert_eq!(
        out.accumulator_count(),
        GROUPS as usize,
        "held {} accumulators for {rows} rows into {GROUPS} groups — memory \
         must scale with groups, not rows",
        out.accumulator_count()
    );

    let per_group = std::mem::size_of::<PivotGroup>()
        + std::mem::size_of::<Cell>()
        + 2 * std::mem::size_of::<Moments>()
        + 2 * std::mem::size_of::<Option<F64>>();
    let bytes_held = out.accumulator_count() * per_group;
    assert!(
        bytes_held < 2 * 1024 * 1024,
        "pivot held ~{bytes_held} bytes for {GROUPS} groups; must be KB, not \
         proportional to {rows} rows"
    );

    let total_count: f64 = out.groups.iter().map(|g| agg(g, 1).unwrap()).sum();
    assert_eq!(total_count, rows as f64, "counts must cover every row");
}

#[test]
fn groups_come_out_in_key_order() {
    let src = Cols::new(vec![vec![
        txt(2),
        num(f64::NAN),
        num(5.0),
        Cell::Blank,
        num(-1.0),
        txt(1),
        num(0.0),
    ]]);
    let out = table(&src, &[ColIdx(0)], &[(ColIdx(0), Agg::Count)]);
    let keys: Vec<Cell> = out.groups.iter().map(|g| g.key[0]).collect();
    let at = |c: Cell| keys.iter().position(|k| *k == c).unwrap();
    assert_eq!(keys.len(), 7);
    assert!(at(num(-1.0)) < at(num(0.0)));
    assert!(at(num(0.0)) < at(num(5.0)));
    assert!(at(num(5.0)) < at(num(f64::NAN)));
    assert!(at(txt(1)) < at(txt(2)));
    assert!(out.group(&[txt(9)]).is_none());
}
