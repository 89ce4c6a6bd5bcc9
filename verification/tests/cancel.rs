use ferrix_core::cancel::CancelToken;

#[test]
fn starts_uncancelled() {
    assert!(!CancelToken::new().is_cancelled());
}

#[test]
fn cancellation_is_visible_through_a_clone() {
    let ui = CancelToken::new();
    let worker = ui.clone();
    assert!(!worker.is_cancelled());
    ui.cancel();
    assert!(worker.is_cancelled());
}

#[test]
fn checker_closure_tracks_the_token() {
    let t = CancelToken::new();
    let check = t.checker();
    assert!(!check());
    t.cancel();
    assert!(check(), "checker must see cancellation after it is issued");
}

#[test]
fn reset_allows_reuse() {
    let t = CancelToken::new();
    t.cancel();
    assert!(t.is_cancelled());
    t.reset();
    assert!(!t.is_cancelled(), "a reset token must be usable again");
}
