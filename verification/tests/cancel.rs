use oderom::cancel::check_cancelled;

#[test]
fn an_unarmed_scope_never_cancels() {
    assert!(check_cancelled(None).is_ok());
    assert!(check_cancelled(None).is_ok());
}

#[test]
fn an_armed_token_cancels_only_once_cancelled() {
    assert!(check_cancelled(Some(false)).is_ok());
    assert!(check_cancelled(Some(true)).is_err());
}
