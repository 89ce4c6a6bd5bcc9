use ferrix_core::keyed::KeyedList;
use ferrix_core::sizing::{ColSizes, RowSizes};
use ferrix_core::value::F32;

fn pt(x: f32) -> F32 {
    F32(x.to_bits())
}

#[test]
fn a_later_height_covers_only_its_rows() {
    let mut s = RowSizes::new();
    s.set_range(10, 20, pt(30.0));
    s.set(15, pt(5.0));
    s.hide_rows(18, 30);
    let h = |r: u32| s.height_or(r, pt(15.0));
    assert_eq!(h(9), pt(15.0));
    assert_eq!(h(10), pt(30.0));
    assert_eq!(h(15), pt(5.0));
    assert_eq!(h(16), pt(30.0));
    assert_eq!(h(18), pt(0.0));
    assert_eq!(h(30), pt(0.0));
    assert_eq!(h(31), pt(15.0));
    for w in s.spans().windows(2) {
        assert!(w[0].last < w[1].first, "spans stay in order and apart");
    }
}

#[test]
fn a_column_width_survives_hiding_elsewhere() {
    let mut c = ColSizes::new();
    c.set_width(4, pt(80.0));
    c.hide_col(5);
    assert_eq!(c.width_of(4), Some(pt(80.0)));
    assert_eq!(c.width_of(6), None);
    assert!(c.is_hidden(5) && !c.is_hidden(4));
}

#[test]
fn a_keyed_list_is_a_map_in_key_order() {
    let mut m: KeyedList<&str> = KeyedList::new();
    assert_eq!(m.insert(5, "five"), None);
    assert_eq!(m.insert(2, "two"), None);
    assert_eq!(m.insert(5, "FIVE"), Some("five"));
    assert_eq!(m.len(), 2);
    assert_eq!((m.key(0), m.key(1)), (2, 5));
    assert_eq!(m.get(5), Some(&"FIVE"));
    *m.entry(9, "nine") = "NINE";
    assert_eq!(m.get(9), Some(&"NINE"));
    if let Some(v) = m.get_mut(2) {
        *v = "TWO";
    }
    assert_eq!(m.remove(2), Some("TWO"));
    assert_eq!(m.remove(2), None);
    assert_eq!(m.remove_at(0), "FIVE");
    assert_eq!(*m.value(0), "NINE");
}
