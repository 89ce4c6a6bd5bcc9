use ferrix_core::filter::{RowFilter, SearchResults};
use ferrix_core::table::CellRef;

fn cells(pairs: &[(u32, u32)]) -> Vec<CellRef> {
    pairs.iter().map(|&(r, c)| CellRef::new(r, c)).collect()
}

#[test]
fn maps_visible_positions_to_original_rows() {
    let f = RowFilter::from_matches(&cells(&[(3, 0), (3, 2), (9, 1), (40, 0)]), false, 4);
    assert_eq!(f.len(), 3, "duplicate row 3 collapses to one visible row");
    assert_eq!(f.underlying(0), Some(3));
    assert_eq!(f.underlying(1), Some(9));
    assert_eq!(f.underlying(2), Some(40));
    assert_eq!(f.underlying(3), None);
}

#[test]
fn row_headers_show_original_numbers() {
    let f = RowFilter::from_matches(&cells(&[(3, 0), (100, 0)]), false, 2);
    let header_for = |v: usize| f.underlying(v).map(|r| r + 1);
    assert_eq!(header_for(0), Some(4));
    assert_eq!(header_for(1), Some(101));
}

#[test]
fn round_trips_both_directions() {
    let f = RowFilter::from_matches(&cells(&[(0, 0), (7, 0), (7, 1), (12, 3)]), false, 4);
    for v in 0..f.len() {
        let u = f.underlying(v).unwrap();
        assert_eq!(f.visible_of(u), Some(v), "visible {v} did not round-trip");
    }
    assert_eq!(f.visible_of(1), None, "row 1 has no match and is hidden");
    assert_eq!(f.visible_of(99), None);
}

#[test]
fn edit_write_through_targets_the_underlying_row() {
    let f = RowFilter::from_matches(&cells(&[(5, 0), (11, 0), (900, 0)]), false, 3);
    let clicked_visible = 2usize;
    let target = CellRef::new(f.underlying(clicked_visible).unwrap(), 4);
    assert_eq!(target.row, 900, "edit would have hit the wrong row");
    assert_eq!(target.col, 4);
}

#[test]
fn window_is_a_borrowed_slice_not_a_copy() {
    let f = RowFilter::from_matches(&cells(&[(1, 0), (2, 0), (3, 0), (4, 0), (5, 0)]), false, 5);
    let w = f.window(1, 4);
    assert_eq!(w, &[2u32, 3, 4]);
    assert!(std::ptr::eq(&w[0], &f.rows()[1]));
}

#[test]
fn window_clamps_out_of_range_ends() {
    let f = RowFilter::from_matches(&cells(&[(1, 0), (2, 0)]), false, 2);
    assert_eq!(f.window(0, 999), &[1u32, 2]);
    assert_eq!(f.window(5, 999), &[] as &[u32]);
    assert_eq!(f.window(2, 1), &[] as &[u32], "reversed range is empty");
}

#[test]
fn visible_at_or_after_finds_the_next_kept_row() {
    let f = RowFilter::from_matches(&cells(&[(10, 0), (20, 0), (30, 0)]), false, 3);
    assert_eq!(f.visible_at_or_after(0), 0);
    assert_eq!(f.visible_at_or_after(10), 0);
    assert_eq!(f.visible_at_or_after(11), 1);
    assert_eq!(f.visible_at_or_after(30), 2);
    assert_eq!(f.visible_at_or_after(31), 3, "past the end");
}

#[test]
fn empty_matches_produce_an_empty_filter() {
    let f = RowFilter::from_matches(&[], false, 0);
    assert!(f.is_empty());
    assert_eq!(f.underlying(0), None);
    assert_eq!(f.window(0, 10), &[] as &[u32]);
    assert_eq!(f.visible_at_or_after(5), 0);
}

#[test]
fn truncation_flag_survives_into_the_mapping() {
    let results = SearchResults {
        matches: cells(&[(1, 0), (2, 0)]),
        total: 5_000_000,
        truncated: true,
    };
    let f = RowFilter::from_results(&results);
    assert!(f.truncated(), "UI must be able to warn about this");
    assert_eq!(f.total_matches(), 5_000_000);
    assert_eq!(f.len(), 2, "only the capped prefix is mappable");
}

#[test]
fn untruncated_results_do_not_warn() {
    let results = SearchResults {
        matches: cells(&[(1, 0)]),
        total: 1,
        truncated: false,
    };
    assert!(!RowFilter::from_results(&results).truncated());
}

#[test]
fn addressing_stays_exact_at_200m_rows() {
    let deep = cells(&[(0, 0), (199_999_998, 0), (199_999_999, 3)]);
    let f = RowFilter::from_matches(&deep, false, 3);
    assert_eq!(f.len(), 3);
    for v in 0..f.len() {
        let u = f.underlying(v).unwrap();
        let as_scroll = u as f64;
        assert_eq!(
            as_scroll.floor() as u32,
            u,
            "row {u} lost precision through the f64 scroll index"
        );
        assert_eq!(f.visible_of(u), Some(v));
    }
    assert_ne!(f.underlying(1), f.underlying(2));
    assert!(199_999_998u32 as f32 as u32 == 199_999_999u32 as f32 as u32);
}

#[test]
fn mapping_cost_is_independent_of_sheet_size() {
    let matches: Vec<CellRef> = (0..100_000u32)
        .map(|i| CellRef::new(i.saturating_mul(2000), 0))
        .collect();
    let f = RowFilter::from_matches(&matches, true, 100_000);
    assert_eq!(f.len(), 100_000);
    let w = f.window(50_000, 50_060);
    assert_eq!(w.len(), 60, "a frame reads ~60 rows, not 100k");
}
