use ferrix_core::arena::{arena_bytes, FormulaText, StringArena, FORMULA_TEXT_TAG};
use ferrix_core::value::StrId;

fn none() -> FormulaText {
    FormulaText::new()
}

#[test]
fn interning_dedups() {
    let mut a = StringArena::new();
    let x = a.intern("hello");
    let y = a.intern("world");
    let z = a.intern("hello");
    assert_eq!(x, z);
    assert_ne!(x, y);
    assert_eq!(a.len(), 2);
    assert_eq!(a.resolve(x, &none()), Some("hello"));
    assert_eq!(a.resolve(y, &none()), Some("world"));
}

#[test]
fn handles_empty_and_unicode() {
    let mut a = StringArena::new();
    let e = a.intern("");
    let u = a.intern("héllo → 世界");
    assert_eq!(a.resolve(e, &none()), Some(""));
    assert_eq!(a.resolve(u, &none()), Some("héllo → 世界"));
}

#[test]
fn unknown_id_resolves_to_none() {
    let a = StringArena::new();
    assert_eq!(a.resolve(StrId(42), &none()), None);
    assert_eq!(a.resolve_or_empty(StrId(42), &none()), "");
}

#[test]
fn low_cardinality_is_cheap() {
    let mut a = StringArena::new();
    for i in 0..10_000 {
        a.intern(["alpha", "beta", "gamma"][i % 3]);
    }
    assert_eq!(a.len(), 3);
    assert_eq!(a.data_bytes(), "alpha".len() + "beta".len() + "gamma".len());
}

#[test]
fn formula_text_ids_are_tagged_deduped_and_resolve_through_any_arena() {
    let mut formulas = FormulaText::new();
    let mut a = StringArena::new();
    let sheet_id = a.intern("hello");
    let f1 = formulas.intern_formula_text("HELLO").expect("budget");
    let f2 = formulas.intern_formula_text("HELLO").expect("budget");

    assert_eq!(f1, f2, "formula text must dedup, not allocate per call");
    assert_ne!(f1, sheet_id);
    assert_eq!(f1.0 & FORMULA_TEXT_TAG, FORMULA_TEXT_TAG);
    assert_eq!(sheet_id.0 & FORMULA_TEXT_TAG, 0);

    assert_eq!(a.resolve(f1, &formulas), Some("HELLO"));
    assert_eq!(StringArena::new().resolve(f1, &formulas), Some("HELLO"));
    assert_eq!(a.resolve(sheet_id, &none()), Some("hello"));
    assert_eq!(formulas.resolve_formula_text(sheet_id), None);
}

#[test]
fn formula_text_counts_distinct_strings_and_bytes() {
    let mut formulas = FormulaText::new();
    formulas.intern_formula_text("ab").unwrap();
    formulas.intern_formula_text("ab").unwrap();
    formulas.intern_formula_text("c").unwrap();
    assert_eq!(formulas.formula_text_stats(), (2, 3));
}

#[test]
fn raw_parts_make_the_arena_again() {
    let mut a = StringArena::new();
    let x = a.intern("one");
    let y = a.intern("two");
    let (buf, spans) = a.raw_parts();
    let b = StringArena::from_raw_parts(buf.to_vec(), spans.to_vec());
    assert_eq!(b.resolve(x, &none()), Some("one"));
    assert_eq!(b.resolve(y, &none()), Some("two"));
    assert_eq!(b.len(), 2);
    assert!(!b.is_empty());
}

#[test]
fn a_read_only_arena_still_resolves() {
    let mut a = StringArena::with_capacity(100, 10);
    let x = a.intern("kept");
    a.shrink_for_readonly();
    assert_eq!(a.resolve(x, &none()), Some("kept"));
    assert!(a.heap_bytes() >= 4 + 8);
    let c = a.clone();
    assert_eq!(c.resolve(x, &none()), Some("kept"));
}

#[test]
fn bytes_that_are_no_text_resolve_to_none() {
    let a = StringArena::from_raw_parts(vec![0xff, 0xfe], vec![(0, 2)]);
    assert_eq!(a.resolve(StrId(0), &none()), None);
    assert_eq!(a.resolve_or_empty(StrId(0), &none()), "");
}

#[test]
fn heap_cost_adds_up_text_spans_and_index() {
    let entry = std::mem::size_of::<(Box<str>, StrId)>() + 16;
    assert_eq!(arena_bytes(100, 4, 3, 90), 100 + 32 + 3 * entry + 90);
    assert_eq!(arena_bytes(1, usize::MAX, 0, 0), usize::MAX);
    let mut a = StringArena::new();
    a.intern("abc");
    let before = a.heap_bytes();
    a.shrink_for_readonly();
    assert!(a.heap_bytes() < before, "the index is given back");
    assert!(a.heap_bytes() >= 3 + 8 + 3);
}

#[test]
fn a_rebuilt_arena_reads_the_same_and_interns_anew() {
    let mut a = StringArena::new();
    let ids = [a.intern("x"), a.intern("y"), a.intern("")];
    let (buf, spans) = a.raw_parts();
    let mut c = StringArena::from_raw_parts(buf.to_vec(), spans.to_vec());
    assert_eq!((c.len(), c.data_bytes()), (a.len(), a.data_bytes()));
    for id in ids {
        assert_eq!(c.resolve(id, &none()), a.resolve(id, &none()));
    }
    assert_eq!(c.intern("y"), StrId(3), "the index was not rebuilt");
    assert_eq!(c.resolve(StrId(3), &none()), Some("y"));
}
