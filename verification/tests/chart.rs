use ferrix_core::chart::{
    decimate_min_max, density_grid, group_by, histogram, numeric_column, Aggregate, AxisOps, Bounds,
    Category, DensityCell, SeriesPoint,
};
use ferrix_core::value::{ErrorKind, StrId, Value, F64};

fn bits(x: f64) -> F64 {
    F64(x.to_bits())
}

fn float(x: F64) -> f64 {
    f64::from_bits(x.0)
}

fn nums(v: &[f64]) -> Vec<Option<F64>> {
    v.iter().map(|x| Some(bits(*x))).collect()
}

fn axis() -> AxisOps<
    impl Fn(F64, F64) -> F64,
    impl Fn(F64, F64) -> F64,
    impl Fn(F64, F64) -> F64,
    impl Fn(F64, F64) -> F64,
    impl Fn(u64) -> F64,
    impl Fn(F64) -> usize,
> {
    AxisOps {
        plus: |a: F64, b: F64| bits(float(a) + float(b)),
        minus: |a: F64, b: F64| bits(float(a) - float(b)),
        times: |a: F64, b: F64| bits(float(a) * float(b)),
        over: |a: F64, b: F64| bits(float(a) / float(b)),
        number: |n: u64| bits(n as f64),
        whole: |x: F64| float(x) as usize,
    }
}

fn grouped(labels: &Vec<String>, values: &Vec<Option<F64>>, agg: Aggregate) -> Vec<Category> {
    group_by(
        labels,
        values,
        agg,
        |a: F64, b: F64| bits(float(a) + float(b)),
        |a: F64, n: u64| bits(float(a) / n as f64),
        |n: u64| bits(n as f64),
    )
}

#[test]
fn small_series_is_not_aggregated() {
    let s = decimate_min_max(&nums(&[1.0, 2.0, 3.0]), 100);
    assert!(
        !s.aggregated,
        "fewer points than buckets needs no reduction"
    );
    assert_eq!(s.points.len(), 3);
    assert_eq!(s.points[0], SeriesPoint { row: 0, y: bits(1.0) });
}

#[test]
fn decimation_bounds_output_by_buckets_not_input() {
    let data: Vec<Option<F64>> = (0..1_000_000).map(|i| Some(bits(i as f64))).collect();
    let s = decimate_min_max(&data, 500);
    assert!(s.aggregated);
    assert!(
        s.points.len() <= 1000,
        "500 buckets must yield <= 1000 points, got {}",
        s.points.len()
    );
    assert_eq!(s.source_rows, 1_000_000);
}

#[test]
fn decimation_preserves_a_single_spike() {
    let mut data: Vec<Option<F64>> = (0..1_000_000).map(|_| Some(bits(1.0))).collect();
    data[777_777] = Some(bits(9999.0));

    let s = decimate_min_max(&data, 500);
    let peak = s
        .points
        .iter()
        .map(|p| float(p.y))
        .fold(f64::NEG_INFINITY, f64::max);
    assert_eq!(peak, 9999.0, "the spike must survive decimation");

    let spike = s.points.iter().find(|p| float(p.y) == 9999.0).unwrap();
    assert!(
        (spike.row as f64 - 777_777.0).abs() < 2100.0,
        "spike moved to x={}",
        spike.row
    );
}

#[test]
fn decimation_preserves_a_downward_spike_too() {
    let mut data: Vec<Option<F64>> = (0..100_000).map(|_| Some(bits(50.0))).collect();
    data[42_000] = Some(bits(-500.0));
    let s = decimate_min_max(&data, 200);
    let trough = s.points.iter().map(|p| float(p.y)).fold(f64::INFINITY, f64::min);
    assert_eq!(trough, -500.0, "min must be preserved as well as max");
}

#[test]
fn decimated_points_stay_in_x_order() {
    let data: Vec<Option<F64>> = (0..10_000)
        .map(|i| Some(bits(((i as f64) * 0.01).sin())))
        .collect();
    let s = decimate_min_max(&data, 100);
    for w in s.points.windows(2) {
        assert!(w[0].row <= w[1].row, "out of order: {:?} then {:?}", w[0], w[1]);
    }
}

#[test]
fn gaps_are_skipped_not_zeroed() {
    let data = vec![Some(bits(5.0)), None, Some(bits(7.0)), None];
    let s = decimate_min_max(&data, 100);
    assert_eq!(s.points.len(), 2);
    assert!(s.points.iter().all(|p| float(p.y) != 0.0));
}

#[test]
fn all_gaps_yields_nothing() {
    let data: Vec<Option<F64>> = vec![None; 1000];
    let s = decimate_min_max(&data, 50);
    assert!(s.points.is_empty());
}

#[test]
fn histogram_counts_every_value_once() {
    let data = nums(&[1.0, 2.0, 3.0, 4.0, 5.0, 6.0, 7.0, 8.0, 9.0, 10.0]);
    let bins = histogram(&data, 5, None, &axis());
    assert_eq!(bins.len(), 5);
    let total: u64 = bins.iter().map(|b| b.count).sum();
    assert_eq!(total, 10, "no value may be lost or double-counted");
}

#[test]
fn histogram_includes_the_maximum_value() {
    let data = nums(&[0.0, 10.0]);
    let bins = histogram(&data, 4, Some(Bounds::new(bits(0.0), bits(10.0))), &axis());
    let total: u64 = bins.iter().map(|b| b.count).sum();
    assert_eq!(total, 2, "the maximum must land in the last bin");
    assert_eq!(bins[3].count, 1);
}

#[test]
fn histogram_of_constant_data_does_not_divide_by_zero() {
    let data = nums(&[7.0; 100]);
    let bins = histogram(&data, 10, None, &axis());
    assert_eq!(bins.len(), 10);
    let total: u64 = bins.iter().map(|b| b.count).sum();
    assert_eq!(total, 100);
}

#[test]
fn histogram_output_is_bounded_by_bin_count() {
    let data: Vec<Option<F64>> = (0..2_000_000).map(|i| Some(bits((i % 1000) as f64))).collect();
    let bins = histogram(&data, 64, None, &axis());
    assert_eq!(bins.len(), 64, "output tracks bins, not 2M rows");
    let total: u64 = bins.iter().map(|b| b.count).sum();
    assert_eq!(total, 2_000_000);
}

#[test]
fn density_grid_bins_pairs() {
    let xs = nums(&[0.0, 1.0, 0.0, 1.0]);
    let ys = nums(&[0.0, 1.0, 0.0, 1.0]);
    let (cells, _, _) = density_grid(&xs, &ys, 2, 2, &axis());
    let total: u64 = cells.iter().map(|c| c.count).sum();
    assert_eq!(total, 4);
    assert!(cells.len() <= 4);
}

#[test]
fn density_grid_output_is_bounded() {
    let xs: Vec<Option<F64>> = (0..500_000).map(|i| Some(bits((i % 997) as f64))).collect();
    let ys: Vec<Option<F64>> = (0..500_000).map(|i| Some(bits((i % 991) as f64))).collect();
    let (cells, _, _) = density_grid(&xs, &ys, 64, 64, &axis());
    assert!(
        cells.len() <= 64 * 64,
        "cells must not exceed the grid, got {}",
        cells.len()
    );
    let total: u64 = cells.iter().map(|c| c.count).sum();
    assert_eq!(total, 500_000, "every point must be counted exactly once");
}

#[test]
fn group_by_aggregates_and_sorts_stably() {
    let labels: Vec<String> = ["north", "south", "north", "east", "south", "north"]
        .iter()
        .map(|s| s.to_string())
        .collect();
    let values = nums(&[10.0, 5.0, 20.0, 1.0, 5.0, 30.0]);

    let sums = grouped(&labels, &values, Aggregate::Sum);
    assert_eq!(sums[0].label, "north");
    assert_eq!(float(sums[0].value), 60.0);
    assert_eq!(sums[0].count, 3);
    assert_eq!(sums[1].label, "south");
    assert_eq!(float(sums[1].value), 10.0);

    for w in sums.windows(2) {
        assert!(float(w[0].value) >= float(w[1].value));
    }

    let counts = grouped(&labels, &values, Aggregate::Count);
    assert_eq!(float(counts[0].value), 3.0);

    let means = grouped(&labels, &values, Aggregate::Mean);
    let north = means.iter().find(|c| c.label == "north").unwrap();
    assert_eq!(float(north.value), 20.0, "60 / 3");
}

#[test]
fn group_by_output_tracks_cardinality_not_rows() {
    let labels: Vec<String> = (0..200_000)
        .map(|i| ["a", "b", "c", "d"][i % 4].to_string())
        .collect();
    let values: Vec<Option<F64>> = (0..200_000).map(|i| Some(bits(i as f64))).collect();
    let out = grouped(&labels, &values, Aggregate::Count);
    assert_eq!(out.len(), 4, "four distinct labels, four bars");
    let total: f64 = out.iter().map(|c| float(c.value)).sum();
    assert_eq!(total, 200_000.0);
}

#[test]
fn bounds_pad_degenerate_ranges() {
    let b = Bounds::new(bits(5.0), bits(5.0)).padded(&axis());
    assert!(float(b.span(&axis().minus)) > 0.0, "constant data still needs a visible axis");
    assert!(float(b.min) < 5.0 && float(b.max) > 5.0);

    let zero = Bounds::new(bits(0.0), bits(0.0)).padded(&axis());
    assert!(float(zero.span(&axis().minus)) > 0.0);

    let empty = Bounds::unbounded().padded(&axis());
    assert_eq!(empty, Bounds::new(bits(0.0), bits(1.0)));
}

#[test]
fn bounds_ignore_non_finite_values() {
    let mut b = Bounds::unbounded();
    b.include_value(bits(1.0));
    b.include_value(bits(f64::NAN));
    b.include_value(bits(f64::INFINITY));
    b.include_value(bits(3.0));
    assert_eq!(b, Bounds::new(bits(1.0), bits(3.0)), "NaN/inf must not poison bounds");
}

#[test]
fn numeric_column_maps_types_sensibly() {
    let vals = vec![
        Value::Number(bits(1.5)),
        Value::Bool(true),
        Value::Bool(false),
        Value::Empty,
        Value::Text(StrId(0)),
        Value::Error(ErrorKind::DivZero),
        Value::Number(bits(f64::NAN)),
    ];
    let got = numeric_column(&vals);
    assert_eq!(
        got,
        vec![
            Some(bits(1.5)),
            Some(bits(1.0)),
            Some(bits(0.0)),
            None,
            None,
            None,
            None // NaN is a gap, not a point
        ]
    );
}

#[test]
fn bars_share_their_edges() {
    let data = nums(&[0.0, 1.0, 2.0, 3.0, 4.0]);
    let bins = histogram(&data, 4, None, &axis());
    assert_eq!(float(bins[0].lo), 0.0);
    assert_eq!(float(bins[0].hi), 1.0);
    assert_eq!(float(bins[3].hi), 4.0);
    let counts: Vec<u64> = bins.iter().map(|b| b.count).collect();
    assert_eq!(counts, vec![1, 1, 1, 2]);
    assert!(histogram(&data, 0, None, &axis()).is_empty());
    assert!(histogram(&vec![None], 3, None, &axis()).is_empty());
}

#[test]
fn a_grid_says_what_it_covers() {
    let (cells, xb, yb) = density_grid(&nums(&[1.0, 3.0]), &nums(&[5.0, 5.0]), 2, 1, &axis());
    assert_eq!(xb, Bounds::new(bits(1.0), bits(3.0)));
    assert_eq!(yb, Bounds::new(bits(4.5), bits(5.5)));
    assert_eq!(
        cells,
        vec![
            DensityCell { x_bin: 0, y_bin: 0, count: 1 },
            DensityCell { x_bin: 1, y_bin: 0, count: 1 },
        ]
    );
}

#[test]
fn decimation_encloses_every_number() {
    let data: Vec<Option<F64>> =
        (0..97u64).map(|i| Some(F64(((i * 37 % 101) as f64).to_bits()))).collect();
    let s = decimate_min_max(&data, 10);
    assert_eq!(s.source_rows, 97);
    for (i, v) in data.iter().enumerate() {
        let y = f64::from_bits(v.unwrap().0);
        let bucket = s.points.iter().filter(|p| p.row / 10 == i / 10);
        let ys: Vec<f64> = bucket.map(|p| f64::from_bits(p.y.0)).collect();
        assert!(ys.iter().any(|d| *d <= y) && ys.iter().any(|d| *d >= y));
    }
}
