use ferrix_core::bench::{edit_place, fmt_int, Rng};
use ferrix_core::table::CellRef;

#[test]
fn counts_are_grouped_by_three() {
    assert_eq!(fmt_int(0), "0");
    assert_eq!(fmt_int(999), "999");
    assert_eq!(fmt_int(1000), "1,000");
    assert_eq!(fmt_int(12_345_678), "12,345,678");
}

#[test]
fn a_generator_is_reproducible_and_never_zero() {
    let mut a = Rng(0x2545_F491_4F6C_DD1D);
    let mut b = Rng(0x2545_F491_4F6C_DD1D);
    for _ in 0..1000 {
        let x = a.next_u64();
        assert_eq!(x, b.next_u64());
        assert_ne!(x, 0);
        assert!(a.below(7) < 7);
        b.below(7);
    }
    let mut one = Rng(1);
    let x = 1u64 ^ (1 << 13);
    let x = x ^ (x >> 7);
    assert_eq!(one.next_u64(), x ^ (x << 17));
}

#[test]
fn sample_edits_are_spread_over_the_rows() {
    assert_eq!(edit_place(3, 1000, 4), CellRef { row: 30, col: 3 });
    assert_eq!(edit_place(7, 5, 3), CellRef { row: 2, col: 1 });
}
