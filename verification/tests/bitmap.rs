use ferrix_core::bitmap::Bitmap;

#[test]
fn push_get_roundtrip() {
    let mut b = Bitmap::new();
    let pattern: Vec<bool> = (0..200).map(|i| i % 3 == 0).collect();
    for &v in &pattern {
        b.push(v);
    }
    assert_eq!(b.len(), 200);
    for (i, &v) in pattern.iter().enumerate() {
        assert_eq!(b.get(i), v, "bit {i}");
    }
    assert_eq!(b.count_set(), pattern.iter().filter(|v| **v).count());
}

#[test]
fn set_maintains_count() {
    let mut b = Bitmap::zeros(100);
    assert_eq!(b.count_set(), 0);
    b.set(5, true);
    b.set(5, true);
    assert_eq!(b.count_set(), 1);
    b.set(5, false);
    assert_eq!(b.count_set(), 0);
    assert_eq!(b.count_unset(), 100);
}

#[test]
fn ones_masks_tail() {
    let b = Bitmap::ones(70);
    assert_eq!(b.count_set(), 70);
    assert!(b.get(69));
    assert!(!b.get(70));
}

#[test]
fn range_empty_detection() {
    let mut b = Bitmap::zeros(500);
    assert!(b.is_range_empty(0, 500));
    b.set(300, true);
    assert!(b.is_range_empty(0, 300));
    assert!(!b.is_range_empty(0, 301));
    assert!(!b.is_range_empty(300, 301));
    assert!(b.is_range_empty(301, 500));
}

#[test]
fn extend_aligned_and_unaligned() {
    for prefix in [64usize, 65] {
        let mut a = Bitmap::zeros(prefix);
        a.set(1, true);
        let mut other = Bitmap::new();
        for i in 0..100 {
            other.push(i % 2 == 0);
        }
        let expected_set = a.count_set() + other.count_set();
        a.extend_from(&other);
        assert_eq!(a.len(), prefix + 100);
        assert_eq!(a.count_set(), expected_set, "prefix {prefix}");
        for i in 0..100 {
            assert_eq!(a.get(prefix + i), i % 2 == 0, "prefix {prefix} bit {i}");
        }
    }
}

#[test]
fn resize_grows_and_shrinks() {
    let mut b = Bitmap::zeros(10);
    b.resize(200, true);
    assert_eq!(b.len(), 200);
    assert_eq!(b.count_set(), 190);
    b.truncate(12);
    assert_eq!(b.len(), 12);
    assert_eq!(b.count_set(), 2);
}

#[test]
fn iter_set_matches_get() {
    let mut b = Bitmap::zeros(300);
    for i in [0usize, 63, 64, 130, 299] {
        b.set(i, true);
    }
    let got: Vec<usize> = b.iter_set();
    assert_eq!(got, vec![0, 63, 64, 130, 299]);
}

#[test]
fn ranges_are_counted_across_words() {
    let mut b = Bitmap::zeros(300);
    for i in [0usize, 63, 64, 130, 299] {
        b.set(i, true);
    }
    assert_eq!(b.count_range(0, 300), 5);
    assert_eq!(b.count_range(1, 64), 1);
    assert_eq!(b.count_range(64, 131), 2);
    assert_eq!(b.count_range(131, 299), 0);
    assert!(b.heap_bytes() >= 300 / 8);
    b.clear();
    assert!(b.is_empty());
}

#[test]
fn a_truncated_bitmap_equals_one_built_anew() {
    for len in [0usize, 1, 63, 64, 65, 130, 200, 500] {
        let mut b = Bitmap::ones(200);
        b.set(7, false);
        b.truncate(len);
        let mut anew = Bitmap::new();
        for i in 0..len.min(200) {
            anew.push(i != 7);
        }
        assert_eq!(b, anew, "cut to {len}");
        assert_eq!(b.count_set(), anew.count_set());
        if len > 0 {
            anew.set(0, false);
            assert_ne!(b, anew);
        }
    }
}
