use ferrix_core::order::{order_bytes, AxisOrder, AxisShift, OrderError, SheetOrder};

fn expand(o: &AxisOrder) -> Vec<u32> {
    (0..o.len()).map(|d| o.data_of(d).unwrap()).collect()
}

#[test]
fn identity_is_one_run_at_any_size() {
    for len in [0u64, 1, 8, 200_000_000] {
        let o = AxisOrder::identity(len);
        assert_eq!(o.len(), len);
        assert!(o.is_identity());
        assert!(o.run_count() <= 1, "identity must never need two runs");
        assert!(
            o.heap_bytes() < 256,
            "identity over {len} cost {} bytes",
            o.heap_bytes()
        );
    }
}

#[test]
fn identity_maps_display_straight_to_data() {
    let o = AxisOrder::identity(200_000_000);
    assert_eq!(o.data_of(0), Some(0));
    assert_eq!(o.data_of(199_999_999), Some(199_999_999));
    assert_eq!(o.data_of(200_000_000), None, "past the end");
    assert_eq!(o.display_of(199_999_999), Some(199_999_999));
}

#[test]
fn moving_a_column_permutes_the_index() {
    let mut o = AxisOrder::identity(8);
    o.move_span(1, 1, 4).unwrap();
    assert_eq!(expand(&o), vec![0, 2, 3, 1, 4, 5, 6, 7]);
    assert_eq!(o.display_of(1), Some(3));
    assert_eq!(o.data_of(3), Some(1));
}

#[test]
fn moving_backwards_works_too() {
    let mut o = AxisOrder::identity(6);
    o.move_span(4, 1, 1).unwrap();
    assert_eq!(expand(&o), vec![0, 4, 1, 2, 3, 5]);
}

#[test]
fn moving_a_multi_column_block_keeps_its_internal_order() {
    let mut o = AxisOrder::identity(8);
    o.move_span(1, 3, 6).unwrap();
    assert_eq!(expand(&o), vec![0, 4, 5, 1, 2, 3, 6, 7]);
}

#[test]
fn a_move_and_its_inverse_restore_identity_and_the_memory() {
    let mut o = AxisOrder::identity(200_000_000);
    o.move_span(5, 1, 100).unwrap();
    assert!(!o.is_identity());
    assert!(o.run_count() > 1);

    assert_eq!(o.data_of(99), Some(5));
    o.move_span(99, 1, 5).unwrap();

    assert!(o.is_identity(), "inverse move did not restore identity");
    assert_eq!(o.run_count(), 1, "runs must coalesce back to one");
    assert_eq!(o.len(), 200_000_000);
    assert_eq!(o.data_of(5), Some(5));
}

#[test]
fn reordering_a_200m_row_axis_does_no_per_row_work() {
    let mut o = AxisOrder::identity(200_000_000);
    let before = o.heap_bytes();
    o.move_span(0, 1, 100_000_000).unwrap();
    assert_eq!(o.len(), 200_000_000, "no entries lost");
    assert!(
        o.run_count() <= 4,
        "a single move needed {} runs",
        o.run_count()
    );
    assert!(
        o.heap_bytes() < before + 512,
        "a move over 200M rows allocated {} bytes",
        o.heap_bytes() - before
    );
    assert_eq!(o.data_of(199_999_999), Some(199_999_999));
    assert_eq!(o.data_of(99_999_999), Some(0));
    assert_eq!(o.display_of(0), Some(99_999_999));
    assert_eq!(o.data_of(0), Some(1));
    assert_eq!(o.data_of(100_000_000), Some(100_000_000));
}

#[test]
fn many_moves_stay_bounded_by_edits_not_by_rows() {
    let mut o = AxisOrder::identity(200_000_000);
    for i in 0..1_000u64 {
        o.move_span(i, 1, 1_000_000 + i * 1_000).unwrap();
    }
    assert!(
        o.run_count() < 4_000,
        "1000 moves produced {} runs",
        o.run_count()
    );
    assert!(
        o.heap_bytes() < 200_000,
        "1000 moves over 200M rows cost {} bytes (a Vec<u32> would be 800MB)",
        o.heap_bytes()
    );
    assert_eq!(o.len(), 200_000_000);
}

#[test]
fn insert_allocates_a_fresh_index_and_shifts_nothing() {
    let mut o = AxisOrder::identity(4);
    let fresh = o.insert_fresh(1, 1).unwrap();
    assert_eq!(fresh, 4, "fresh index comes from past the base extent");
    assert_eq!(expand(&o), vec![0, 4, 1, 2, 3]);
    assert_eq!(o.data_of(2), Some(1));
    assert_eq!(o.len(), 5);
}

#[test]
fn successive_inserts_never_reuse_an_index() {
    let mut o = AxisOrder::identity(3);
    let a = o.insert_fresh(0, 1).unwrap();
    let b = o.insert_fresh(0, 1).unwrap();
    assert_ne!(a, b);
    assert_eq!(expand(&o), vec![b, a, 0, 1, 2]);
}

#[test]
fn remove_cuts_the_display_order_without_erasing_data() {
    let mut o = AxisOrder::identity(5);
    o.remove(1, 2).unwrap();
    assert_eq!(expand(&o), vec![0, 3, 4]);
    assert_eq!(o.len(), 3);
    assert_eq!(o.display_of(1), None);
    assert_eq!(o.display_of(2), None);
}

#[test]
fn removing_a_span_of_a_200m_axis_is_still_cheap() {
    let mut o = AxisOrder::identity(200_000_000);
    o.remove(50_000_000, 1).unwrap();
    assert_eq!(o.len(), 199_999_999);
    assert!(o.run_count() <= 2);
    assert_eq!(o.data_of(50_000_000), Some(50_000_001));
}

#[test]
fn out_of_range_operations_are_refused_not_clamped() {
    let mut o = AxisOrder::identity(4);
    assert!(matches!(
        o.move_span(3, 4, 0),
        Err(OrderError::OutOfRange { .. })
    ));
    assert!(matches!(o.remove(3, 9), Err(OrderError::OutOfRange { .. })));
    assert!(matches!(
        o.insert_fresh(99, 1),
        Err(OrderError::OutOfRange { .. })
    ));
    assert_eq!(expand(&o), vec![0, 1, 2, 3]);
}

#[test]
fn a_move_into_its_own_span_is_refused() {
    let mut o = AxisOrder::identity(8);
    assert_eq!(o.move_span(2, 3, 3), Err(OrderError::DestinationInsideSpan));
    assert_eq!(expand(&o), vec![0, 1, 2, 3, 4, 5, 6, 7]);
}

#[test]
fn a_no_op_move_is_accepted_and_changes_nothing() {
    let mut o = AxisOrder::identity(5);
    o.move_span(2, 0, 4).unwrap();
    o.move_span(2, 1, 2).unwrap();
    assert!(o.is_identity());
}

#[test]
fn fragmentation_is_refused_with_a_message_not_absorbed() {
    let mut o = AxisOrder::fragmented_for_test(AxisOrder::MAX_RUNS);
    assert_eq!(o.run_count(), AxisOrder::MAX_RUNS);

    let e = o
        .move_span(0, 1, 100)
        .expect_err("at the cap, a move must be refused");
    assert!(matches!(e, OrderError::TooFragmented { .. }));
    let msg = e.message();
    assert!(msg.contains("too many"), "unhelpful message: {msg}");
    assert!(msg.contains("save and reopen"), "no remedy offered: {msg}");
    assert!(matches!(
        o.insert_fresh(0, 1),
        Err(OrderError::TooFragmented { .. })
    ));
    assert!(matches!(
        o.remove(0, 1),
        Err(OrderError::TooFragmented { .. })
    ));
    assert_eq!(o.run_count(), AxisOrder::MAX_RUNS);
}

#[test]
fn fragmentation_grows_only_with_edits() {
    for len in [100_000u64, 200_000_000] {
        let mut o = AxisOrder::identity(len);
        for i in 0..200u64 {
            o.move_span(i * 2, 1, len - 1).unwrap();
        }
        assert!(
            o.run_count() <= 200 * 3,
            "200 moves over {len} rows produced {} runs",
            o.run_count()
        );
    }
}

#[test]
fn data_spans_are_one_block_when_unreordered() {
    let o = AxisOrder::identity(200_000_000);
    assert_eq!(o.data_spans(0, 200_000_000), vec![(0, 200_000_000)]);
    assert_eq!(o.data_spans(10, 5), vec![(10, 5)]);
    assert_eq!(o.data_spans(5, 0), Vec::new());
}

#[test]
fn data_spans_split_a_reordered_range() {
    let mut o = AxisOrder::identity(8);
    o.move_span(1, 1, 6).unwrap();
    assert_eq!(expand(&o), vec![0, 2, 3, 4, 5, 1, 6, 7]);
    assert_eq!(o.data_spans(0, 3), vec![(0, 1), (2, 2)]);
    assert_eq!(o.data_spans(1, 3), vec![(2, 3)]);
}

#[test]
fn data_spans_cover_exactly_the_requested_count() {
    let mut o = AxisOrder::identity(20);
    o.move_span(3, 2, 15).unwrap();
    o.move_span(0, 1, 9).unwrap();
    for at in 0..o.len() {
        for count in 1..=(o.len() - at) {
            let spans = o.data_spans(at, count);
            let total: u64 = spans.iter().map(|&(_, n)| u64::from(n)).sum();
            assert_eq!(total, count, "spans lost entries at {at}+{count}");
            let flat: Vec<u32> = spans.iter().flat_map(|&(d, n)| d..d + n).collect();
            let expect: Vec<u32> = (at..at + count).map(|d| o.data_of(d).unwrap()).collect();
            assert_eq!(flat, expect);
        }
    }
}

#[test]
fn ensure_len_grows_without_disturbing_the_order() {
    let mut o = AxisOrder::identity(3);
    o.ensure_len(6);
    assert_eq!(o.len(), 6);
    assert!(o.is_identity(), "growing an untouched axis stays identity");

    let mut o = AxisOrder::identity(4);
    o.move_span(0, 1, 4).unwrap();
    let before = expand(&o);
    o.ensure_len(6);
    assert_eq!(o.len(), 6);
    assert_eq!(&expand(&o)[..4], &before[..], "existing positions moved");
    let all = expand(&o);
    let mut sorted = all.clone();
    sorted.sort_unstable();
    sorted.dedup();
    assert_eq!(sorted.len(), all.len(), "duplicate data index after growth");
}

#[test]
fn ensure_len_never_shrinks() {
    let mut o = AxisOrder::identity(10);
    o.ensure_len(4);
    assert_eq!(o.len(), 10);
}

#[test]
fn every_position_maps_to_a_distinct_data_index() {
    let mut o = AxisOrder::identity(12);
    o.move_span(2, 3, 9).unwrap();
    o.insert_fresh(0, 2).unwrap();
    o.remove(7, 1).unwrap();
    o.move_span(0, 1, 5).unwrap();
    let all = expand(&o);
    let mut sorted = all.clone();
    sorted.sort_unstable();
    sorted.dedup();
    assert_eq!(sorted.len(), all.len(), "{all:?} repeats a data index");
    for (d, &data) in all.iter().enumerate() {
        assert_eq!(o.display_of(data), Some(d as u64));
    }
}

#[test]
fn an_insert_shifts_everything_at_or_after_it() {
    let s = AxisShift::Insert { at: 2, count: 1 };
    assert_eq!(s.map(0), Some(0));
    assert_eq!(s.map(1), Some(1));
    assert_eq!(s.map(2), Some(3));
    assert_eq!(s.map(9), Some(10));
}

#[test]
fn a_delete_drops_its_own_span_and_pulls_the_rest_back() {
    let s = AxisShift::Delete { at: 2, count: 2 };
    assert_eq!(s.map(1), Some(1));
    assert_eq!(s.map(2), None);
    assert_eq!(s.map(3), None);
    assert_eq!(s.map(4), Some(2));
    assert_eq!(s.map(10), Some(8));
}

#[test]
fn an_insert_inside_a_span_grows_it() {
    let s = AxisShift::Insert { at: 3, count: 1 };
    assert_eq!(s.map_span(2, 5), Some((2, 6)));
    assert_eq!(s.map_span(4, 6), Some((5, 7)));
    assert_eq!(
        AxisShift::Insert { at: 9, count: 1 }.map_span(2, 5),
        Some((2, 5))
    );
    assert_eq!(
        AxisShift::Insert { at: 2, count: 1 }.map_span(2, 5),
        Some((3, 6))
    );
}

#[test]
fn a_delete_shrinks_a_span_to_its_survivors() {
    assert_eq!(
        AxisShift::Delete { at: 4, count: 2 }.map_span(2, 5),
        Some((2, 3))
    );
    assert_eq!(
        AxisShift::Delete { at: 1, count: 2 }.map_span(2, 5),
        Some((1, 3))
    );
    assert_eq!(
        AxisShift::Delete { at: 3, count: 1 }.map_span(2, 5),
        Some((2, 4))
    );
    assert_eq!(
        AxisShift::Delete { at: 8, count: 2 }.map_span(2, 5),
        Some((2, 5))
    );
    assert_eq!(
        AxisShift::Delete { at: 0, count: 1 }.map_span(2, 5),
        Some((1, 4))
    );
}

#[test]
fn a_delete_that_eats_a_whole_span_removes_it() {
    assert_eq!(AxisShift::Delete { at: 2, count: 4 }.map_span(2, 5), None);
    assert_eq!(AxisShift::Delete { at: 0, count: 9 }.map_span(2, 5), None);
    assert_eq!(AxisShift::Delete { at: 0, count: 1 }.map_span(0, 0), None);
}

#[test]
fn insert_then_its_matching_delete_is_the_identity_map() {
    let ins = AxisShift::Insert { at: 3, count: 2 };
    let del = AxisShift::Delete { at: 3, count: 2 };
    for old in 0..20u32 {
        let there = ins.map(old).unwrap();
        assert_eq!(
            del.map(there),
            Some(old),
            "position {old} did not round trip"
        );
    }
}

#[test]
fn a_row_move_over_200m_rows_stays_a_handful_of_runs() {
    let mut o = AxisOrder::identity(200_000_000);
    let before = o.heap_bytes();

    o.move_span(5, 1, 150_000_000).unwrap();

    assert_eq!(o.len(), 200_000_000, "no rows lost");
    assert!(
        o.run_count() <= 4,
        "one row move needed {} runs",
        o.run_count()
    );
    assert!(
        o.heap_bytes() < before + 512,
        "a row move over 200M rows allocated {} bytes; a Vec<u32> \
         permutation would be 800MB",
        o.heap_bytes() - before
    );
    assert_eq!(o.data_of(149_999_999), Some(5));
    assert_eq!(o.data_of(5), Some(6));
    assert_eq!(o.data_of(199_999_999), Some(199_999_999));
}

#[test]
fn a_sheet_order_maps_both_axes() {
    let mut s = SheetOrder::new();
    assert!(s.is_identity());
    assert_eq!(s.to_data(3, 4), Some((3, 4)));
    s.cols_mut(8).move_span(1, 1, 4).unwrap();
    assert!(!s.is_identity());
    assert_eq!(s.to_data(3, 3), Some((3, 1)));
    s.rows_mut(10).remove(0, 1).unwrap();
    assert_eq!(s.to_data(0, 0), Some((1, 0)));
    assert_eq!(s.to_data(9, 0), None);
}

#[test]
fn heap_cost_adds_up_runs_and_starts() {
    assert_eq!(order_bytes(3, 5), 64);
    assert_eq!(order_bytes(usize::MAX, 1), usize::MAX);
    assert_eq!(SheetOrder::default().heap_bytes(), 0);
}
