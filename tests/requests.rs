use apiserver::error::{Error, ErrorKind};
use apiserver::query::{comma_separated, transaction_name};

fn s(x: &str) -> String {
    x.to_string()
}

fn sorted(mut v: Vec<String>) -> Vec<String> {
    v.sort();
    v
}

#[test]
fn comma_separated_splits_and_dedups() {
    assert_eq!(sorted(comma_separated("keys", "b,a,b").unwrap()), vec![s("a"), s("b")]);
    assert_eq!(comma_separated("keys", "one").unwrap(), vec![s("one")]);
    assert_eq!(sorted(comma_separated("keys", "a,,b").unwrap()), vec![s(""), s("a"), s("b")]);
    assert_eq!(sorted(comma_separated("keys", "a,").unwrap()), vec![s(""), s("a")]);
}

#[test]
fn comma_separated_refuses_empty_input() {
    let err = comma_separated("names", "").unwrap_err();
    assert_eq!(err, Error::EmptyInput { input: s("names") });
    assert_eq!(err.status_code(), 400);
}

#[test]
fn transaction_name_defaults() {
    assert_eq!(transaction_name(None), "default");
    assert_eq!(transaction_name(Some("t1")), "t1");
}

#[test]
fn status_codes_by_kind() {
    let cases: Vec<(Error, ErrorKind, u16)> = vec![
        (Error::MissingInput { input: s("keys") }, ErrorKind::InvalidInput, 400),
        (Error::NewKey { key: s("settings.x") }, ErrorKind::InvalidInput, 400),
        (Error::MissingData { key: s("k") }, ErrorKind::NotFound, 404),
        (Error::UninitializedUpdateStatus, ErrorKind::NotFound, 404),
        (Error::ListedKeyNotPresent { key: s("k") }, ErrorKind::NotFound, 404),
        (Error::CommitWithNoPending, ErrorKind::Conflict, 422),
        (Error::DisallowCommand, ErrorKind::Conflict, 409),
        (Error::UpdateShareLock, ErrorKind::Locked, 423),
        (Error::UpdateLockHeld, ErrorKind::Locked, 423),
        (Error::DataStoreLock, ErrorKind::Unavailable, 500),
        (Error::ConfigApplierWait { exit_code: 3 }, ErrorKind::Internal, 500),
        (Error::Reboot { exit_code: 1, stderr: s("no") }, ErrorKind::Internal, 500),
    ];
    for (e, kind, code) in cases {
        assert_eq!(e.kind(), kind);
        assert_eq!(e.status_code(), code);
    }
}
