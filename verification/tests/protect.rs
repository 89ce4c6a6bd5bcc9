use ferrix_core::protect::{
    Action, Allowances, CellLockState, Denied, LockMap, PasswordHash, SheetProtection, StructureOp,
    WorkbookProtection,
};
use ferrix_core::table::{CellRef, TableRange};

fn cell(row: u32, col: u32) -> CellRef {
    CellRef::new(row, col)
}

#[test]
fn the_hash_of_a_known_password() {
    assert_eq!(PasswordHash::of("password").to_hex(), "83AF");
    assert_eq!(PasswordHash::of(""), PasswordHash::none());
    assert!(PasswordHash::of("").is_none());
    assert!(PasswordHash::of("password").verify("password"));
    assert!(!PasswordHash::of("password").verify("Password"));
}

#[test]
fn a_hash_is_taken_over_the_bytes_of_the_text() {
    assert_ne!(PasswordHash::of("\u{e9}"), PasswordHash::of("e"));
    assert!(PasswordHash::of("\u{e9}\u{20ac}").verify("\u{e9}\u{20ac}"));
}

#[test]
fn a_hash_reads_back_from_hex() {
    for raw in [0u16, 1, 0x00ff, 0x83af, 0xffff] {
        let h = PasswordHash::from_raw(raw);
        assert_eq!(h.raw(), raw);
        assert_eq!(PasswordHash::from_hex(&h.to_hex()), Some(h));
    }
    assert_eq!(PasswordHash::from_hex(" 83af "), Some(PasswordHash::from_raw(0x83af)));
    assert_eq!(PasswordHash::from_hex("12345"), None);
    assert_eq!(PasswordHash::from_hex("xyz"), None);
    assert_eq!(PasswordHash::from_hex(""), None);
}

#[test]
fn a_stored_hash_can_be_written_by_a_writer_that_takes_text() {
    for text in ["a", "password", "a much longer pass phrase", "\u{fc}ber"] {
        let h = PasswordHash::of(text);
        let other = h.matching_secret().expect("the hash of a text has a match");
        assert_eq!(PasswordHash::of(&other), h);
    }
    assert_eq!(PasswordHash::none().matching_secret(), None);
    assert_eq!(PasswordHash::from_raw(0x0001).matching_secret(), None);
}

#[test]
fn locking_inside_an_unlocked_block_leaves_the_rest_unlocked() {
    let mut m = LockMap::new();
    m.unlock(TableRange::new(0, 0, 9, 9));
    m.lock(TableRange::new(3, 3, 5, 5));
    for row in 0..12 {
        for col in 0..12 {
            let inside = row < 10 && col < 10;
            let hole = (3..=5).contains(&row) && (3..=5).contains(&col);
            assert_eq!(m.is_unlocked(cell(row, col)), inside && !hole, "({row},{col})");
        }
    }
    for (i, a) in m.ranges().iter().enumerate() {
        for b in &m.ranges()[i + 1..] {
            assert!(!a.overlaps(b), "{a:?} and {b:?}");
        }
    }
}

#[test]
fn unlocking_what_is_unlocked_changes_nothing() {
    let mut m = LockMap::new();
    m.unlock(TableRange::new(0, 0, 199_999_999, 3));
    let before = m.ranges().to_vec();
    m.unlock(TableRange::new(5, 1, 9, 2));
    assert_eq!(m.ranges().to_vec(), before);
    assert_eq!(m.len(), 1);
    m.clear();
    assert!(m.is_empty());
}

#[test]
fn a_lock_bites_only_on_a_protected_sheet() {
    let mut p = SheetProtection::new();
    assert!(p.is_locked(cell(0, 0)));
    assert_eq!(p.deny_edit(cell(0, 0)), None);
    assert_eq!(p.state_of(cell(0, 0)), CellLockState::LockedButSheetUnprotected);
    p.unlock_range(TableRange::new(1, 1, 1, 1));
    p.protect(Allowances::default(), PasswordHash::of("x"));
    assert!(p.is_enabled());
    assert_eq!(p.deny_edit(cell(0, 0)), Some(Denied::LockedCell(cell(0, 0))));
    assert_eq!(p.deny_edit(cell(1, 1)), None);
    assert_eq!(p.state_of(cell(1, 1)), CellLockState::Unlocked);
    assert_eq!(p.state_of(cell(0, 0)), CellLockState::LockedAndEnforced);
    p.lock_range(TableRange::new(0, 0, 5, 5));
    assert_eq!(p.deny_edit(cell(1, 1)), Some(Denied::LockedCell(cell(1, 1))));
    p.unprotect();
    assert_eq!(p.deny_edit(cell(1, 1)), None);
    assert!(p.hash().is_none());
}

#[test]
fn an_action_needs_its_allowance() {
    let mut p = SheetProtection::new();
    assert_eq!(p.deny_action(Action::Sort), None);
    p.protect(Allowances { sort: true, ..Default::default() }, PasswordHash::none());
    assert_eq!(p.deny_action(Action::Sort), None);
    assert_eq!(p.deny_action(Action::SelectLocked), None);
    for action in [
        Action::FormatCells,
        Action::InsertRows,
        Action::InsertColumns,
        Action::DeleteRows,
        Action::DeleteColumns,
        Action::Filter,
    ] {
        assert_eq!(p.deny_action(action), Some(Denied::SheetAction(action)));
    }
}

#[test]
fn a_protected_structure_refuses_every_change() {
    let mut w = WorkbookProtection::new();
    assert_eq!(w.deny(StructureOp::AddSheet), None);
    assert!(!w.is_active());
    w.protect_structure(PasswordHash::of("x"));
    for op in [
        StructureOp::AddSheet,
        StructureOp::DeleteSheet,
        StructureOp::RenameSheet,
        StructureOp::ReorderSheet,
    ] {
        assert_eq!(w.deny(op), Some(Denied::Structure(op)));
    }
    w.unprotect();
    assert_eq!(w, WorkbookProtection::new());
}

#[test]
fn a_refusal_says_what_was_refused() {
    assert!(Denied::LockedCell(cell(4, 27)).message().starts_with("AB5 is locked"));
    assert_eq!(
        Denied::SheetAction(Action::Sort).message(),
        "this sheet is protected and sorting is not among the actions it allows"
    );
    assert_eq!(
        Denied::Structure(StructureOp::AddSheet).message(),
        "the workbook's structure is protected, so adding a sheet is not allowed"
    );
}
