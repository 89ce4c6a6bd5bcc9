use ferrix_core::comment::{comments_bytes, Comment, CommentMap, MAX_COMMENT_CHARS};
use ferrix_core::table::CellRef;

fn c(row: u32, col: u32) -> CellRef {
    CellRef::new(row, col)
}

#[test]
fn empty_map_answers_nothing_and_probes_nothing() {
    let m = CommentMap::new();
    assert!(m.is_empty());
    assert_eq!(m.get(c(0, 0)), None);
    assert_eq!(m.row_comments(0), None);
    assert_eq!(
        m.probes(),
        0,
        "an empty comment map must cost zero map probes"
    );
}

#[test]
fn tests_set_and_get_roundtrip() {
    let mut m = CommentMap::new();
    assert_eq!(m.set(c(3, 4), Comment::new("ana", "check this")), None);
    assert_eq!(m.len(), 1);
    let got = m.get(c(3, 4)).expect("comment is there");
    assert_eq!(got.author, "ana");
    assert_eq!(got.text, "check this");
}

#[test]
fn setting_the_same_cell_edits_rather_than_duplicates() {
    let mut m = CommentMap::new();
    m.set(c(1, 1), Comment::new("ana", "first"));
    let prev = m.set(c(1, 1), Comment::new("bo", "second"));
    assert_eq!(prev, Some(Comment::new("ana", "first")));
    assert_eq!(
        m.len(),
        1,
        "an edit must not leave two comments on one cell"
    );
    assert_eq!(m.get(c(1, 1)).unwrap().text, "second");
}

#[test]
fn remove_deletes_the_comment_and_the_row_entry() {
    let mut m = CommentMap::new();
    m.set(c(9, 2), Comment::new("ana", "note"));
    let gone = m.remove(c(9, 2));
    assert_eq!(gone, Some(Comment::new("ana", "note")));
    assert!(m.is_empty());
    assert_eq!(m.get(c(9, 2)), None);
    assert_eq!(m.row_comments(9), None, "an emptied row must not linger");
    assert_eq!(m.remove(c(9, 2)), None, "removing twice is not an error");
}

#[test]
fn restore_is_a_faithful_undo_in_both_directions() {
    let mut m = CommentMap::new();
    let prev = m.set(c(0, 0), Comment::new("ana", "v1"));
    m.restore(c(0, 0), prev);
    assert!(m.is_empty(), "undoing an insert must remove it entirely");

    m.set(c(0, 0), Comment::new("ana", "v1"));
    let prev = m.set(c(0, 0), Comment::new("ana", "v2"));
    m.restore(c(0, 0), prev);
    assert_eq!(m.get(c(0, 0)).unwrap().text, "v1");
}

#[test]
fn several_comments_share_one_row_in_column_order() {
    let mut m = CommentMap::new();
    m.set(c(5, 7), Comment::new("a", "seven"));
    m.set(c(5, 2), Comment::new("a", "two"));
    m.set(c(5, 4), Comment::new("a", "four"));
    let row = m.row_comments(5).expect("row 5 has comments");
    assert_eq!(
        row.iter().map(|(c, _)| *c).collect::<Vec<_>>(),
        vec![2, 4, 7],
        "a row's comments must stay sorted so lookup can binary search"
    );
    assert_eq!(m.get(c(5, 4)).unwrap().text, "four");
}

#[test]
fn iteration_is_in_row_then_column_order_for_reproducible_saves() {
    let mut m = CommentMap::new();
    for (r, c_) in [(4u32, 1u32), (0, 3), (4, 0), (0, 1)] {
        m.set(c(r, c_), Comment::new("a", &format!("{r},{c_}")));
    }
    let seen: Vec<(u32, u32)> = m.iter().iter().map(|(cell, _)| (cell.row, cell.col)).collect();
    assert_eq!(seen, vec![(0, 1), (0, 3), (4, 0), (4, 1)]);
}

#[test]
fn a_200m_row_sheet_with_three_comments_stores_exactly_three_entries() {
    let mut m = CommentMap::new();
    m.set(c(0, 0), Comment::new("ana", "first row"));
    m.set(c(99_999_999, 3), Comment::new("bo", "halfway"));
    m.set(c(199_999_999, 7), Comment::new("cy", "last row"));

    assert_eq!(m.len(), 3, "three comments must cost three entries");
    assert!(
        m.heap_bytes() < 2_000,
        "three comments over a 200M-row sheet cost {} bytes",
        m.heap_bytes()
    );
    assert_eq!(m.get(c(199_999_999, 7)).unwrap().author, "cy");
    assert_eq!(m.get(c(199_999_998, 7)), None);
}

#[test]
fn a_cell_with_no_comment_costs_no_lookup_work_on_the_paint_path() {
    let empty = CommentMap::new();
    for row in 0..40u32 {
        for col in 0..40u32 {
            if !empty.is_empty() {
                let _ = empty.get(c(row, col));
            }
        }
    }
    assert_eq!(
        empty.probes(),
        0,
        "1,600 painted cells on an uncommented sheet must cost zero probes"
    );

    let mut m = CommentMap::new();
    m.set(c(3, 3), Comment::new("ana", "hi"));
    m.reset_probes();
    let mut found = 0;
    for row in 0..40u32 {
        let row_notes = m.row_comments(row);
        for col in 0..40u32 {
            if let Some(notes) = row_notes {
                if notes.binary_search_by_key(&col, |(c, _)| *c).is_ok() {
                    found += 1;
                }
            }
        }
    }
    assert_eq!(found, 1);
    assert_eq!(
        m.probes(),
        40,
        "the paint path must probe once per visible ROW, not once per cell"
    );
}

#[test]
fn remap_columns_moves_comments_without_colliding() {
    let mut m = CommentMap::new();
    m.set(c(0, 0), Comment::new("a", "was col 0"));
    m.set(c(0, 1), Comment::new("a", "was col 1"));
    m.set(c(0, 2), Comment::new("a", "was col 2"));

    let map = std::collections::HashMap::from([(0u32, 1u32), (1, 2), (2, 0)]);
    m.remap_columns(&map);

    assert_eq!(
        m.len(),
        3,
        "a permutation must not lose or duplicate a note"
    );
    assert_eq!(m.get(c(0, 1)).unwrap().text, "was col 0");
    assert_eq!(m.get(c(0, 2)).unwrap().text, "was col 1");
    assert_eq!(m.get(c(0, 0)).unwrap().text, "was col 2");
}

#[test]
fn remap_leaves_untouched_columns_alone() {
    let mut m = CommentMap::new();
    m.set(c(2, 5), Comment::new("a", "stay"));
    m.set(c(2, 0), Comment::new("a", "move"));
    let map = std::collections::HashMap::from([(0u32, 3u32)]);
    m.remap_columns(&map);
    assert_eq!(m.get(c(2, 5)).unwrap().text, "stay");
    assert_eq!(m.get(c(2, 3)).unwrap().text, "move");
    assert_eq!(m.get(c(2, 0)), None);
}

#[test]
fn overlong_text_is_clamped_at_the_door() {
    let mut m = CommentMap::new();
    let huge = "x".repeat(MAX_COMMENT_CHARS + 500);
    m.set(c(0, 0), Comment::new("a", &huge));
    assert_eq!(
        m.get(c(0, 0)).unwrap().text.chars().count(),
        MAX_COMMENT_CHARS
    );
}

#[test]
fn clamping_respects_character_boundaries() {
    let mut m = CommentMap::new();
    let huge: String = std::iter::repeat_n('é', MAX_COMMENT_CHARS + 10).collect();
    m.set(c(1, 1), Comment::new("a", &huge));
    assert_eq!(
        m.get(c(1, 1)).unwrap().text.chars().count(),
        MAX_COMMENT_CHARS
    );
}

#[test]
fn equality_ignores_the_probe_counter() {
    let mut a = CommentMap::new();
    a.set(c(0, 0), Comment::new("x", "y"));
    let b = a.clone();
    let _ = a.get(c(0, 0));
    let _ = a.get(c(9, 9));
    assert_eq!(a, b, "reading a map must not change what it equals");
}

#[test]
fn a_map_is_built_from_cells() {
    let m = CommentMap::from_iter_cells(
        vec![
            (c(1, 1), Comment::new("a", "one")),
            (c(1, 1), Comment::new("a", "two")),
        ]
        .into_iter(),
    );
    assert_eq!(m.len(), 1);
    assert!(m.contains(c(1, 1)));
    assert_eq!(m.get(c(1, 1)).unwrap().text, "two");
}

#[test]
fn heap_cost_counts_entries_rows_and_text() {
    assert!(Comment::new("ann", "caf\u{e9}").heap_bytes() >= 8);
    let mut m = CommentMap::new();
    assert_eq!(m.heap_bytes(), 0);
    m.set(CellRef::new(4, 1), Comment::new("ann", "first"));
    m.set(CellRef::new(4, 2), Comment::new("", "second"));
    m.set(CellRef::new(9, 0), Comment::new("bo", ""));
    assert!(m.heap_bytes() >= 3 * 52 + 2 * 28 + 3 + 5 + 6 + 2);
    let mut one = CommentMap::new();
    one.set(CellRef::new(1_000_000, 3), Comment::new("ann", "first"));
    assert!(one.heap_bytes() < m.heap_bytes());
}

#[test]
fn comment_cost_adds_up_rows_entries_and_strings() {
    assert_eq!(comments_bytes(&vec![], &vec![]), 0);
    assert_eq!(comments_bytes(&vec![4, 1], &vec![8, 3, 0]), 5 * 52 + 2 * 28 + 11);
}

#[test]
fn undoing_an_insert_or_a_removal_gives_back_an_equal_map() {
    let mut m = CommentMap::new();
    m.set(c(1, 1), Comment::new("a", "kept"));
    let before = m.clone();
    let prev = m.set(c(7, 2), Comment::new("b", "new"));
    assert!(m != before);
    m.restore(c(7, 2), prev);
    assert!(m == before);
    assert_eq!(m.len(), before.len());
    assert_eq!(m.row_comments(7), None);
    let prev = m.remove(c(1, 1));
    m.restore(c(1, 1), prev);
    assert!(m == before);
}
