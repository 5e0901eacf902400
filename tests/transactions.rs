use apiserver::controller::{
    commit_transaction, commit_transaction_and_apply, delete_transaction, get_settings,
    load_platform_settings,
    get_transaction, get_transaction_list, patch_settings,
};
use apiserver::error::{Error, ErrorKind};
use apiserver::store::{Committed, DataStore, Setting};

fn s(x: &str) -> String {
    x.to_string()
}

fn setting(k: &str, v: &str) -> Setting {
    Setting { key: s(k), value: s(v) }
}

fn schema_store() -> DataStore {
    DataStore::new(vec![
        s("settings.motd"),
        s("settings.hostname"),
        s("settings.ntp.servers"),
    ])
}

fn sorted(mut v: Vec<String>) -> Vec<String> {
    v.sort();
    v
}

fn sorted_settings(mut v: Vec<Setting>) -> Vec<(String, String)> {
    v.sort_by(|a, b| a.key.cmp(&b.key));
    v.into_iter().map(|e| (e.key, e.value)).collect()
}

#[test]
fn write_read_commit_motd() {
    let mut ds = schema_store();
    patch_settings(&mut ds, &vec![setting("settings.motd", "\"hello\"")], Some("t1")).unwrap();
    let pending = get_transaction(&ds, Some("t1"));
    assert_eq!(sorted_settings(pending), vec![(s("settings.motd"), s("\"hello\""))]);
    let changed = commit_transaction(&mut ds, Some("t1")).unwrap();
    assert_eq!(changed, vec![s("settings.motd")]);
    let live = get_settings(&ds, None, None).unwrap();
    assert_eq!(sorted_settings(live), vec![(s("settings.motd"), s("\"hello\""))]);
}

#[test]
fn commit_default_with_nothing_pending_conflicts() {
    let mut ds = schema_store();
    let err = commit_transaction(&mut ds, None).unwrap_err();
    assert_eq!(err, Error::CommitWithNoPending);
    assert_eq!(err.kind(), ErrorKind::Conflict);
    assert_eq!(err.status_code(), 422);
    assert!(get_transaction(&ds, None).is_empty());
}

#[test]
fn commit_merges_pending_over_live() {
    let mut ds = schema_store();
    ds.set(s("settings.motd"), s("\"old\""), &Committed::Live, true).unwrap();
    ds.set(s("settings.hostname"), s("\"box\""), &Committed::Live, true).unwrap();
    patch_settings(
        &mut ds,
        &vec![setting("settings.motd", "\"new\""), setting("settings.ntp.servers", "[\"a\"]")],
        Some("t"),
    )
    .unwrap();
    let changed = commit_transaction(&mut ds, Some("t")).unwrap();
    assert_eq!(sorted(changed), vec![s("settings.motd"), s("settings.ntp.servers")]);
    let live = get_settings(&ds, None, None).unwrap();
    assert_eq!(
        sorted_settings(live),
        vec![
            (s("settings.hostname"), s("\"box\"")),
            (s("settings.motd"), s("\"new\"")),
            (s("settings.ntp.servers"), s("[\"a\"]")),
        ]
    );
    assert!(!get_transaction_list(&ds).contains(&s("t")));
}

#[test]
fn commit_leaves_unchanged_values_out_of_changed_keys() {
    let mut ds = schema_store();
    ds.set(s("settings.motd"), s("\"same\""), &Committed::Live, true).unwrap();
    patch_settings(&mut ds, &vec![setting("settings.motd", "\"same\"")], Some("t")).unwrap();
    let changed = commit_transaction(&mut ds, Some("t")).unwrap();
    assert!(changed.is_empty());
    assert!(get_transaction_list(&ds).is_empty());
}

#[test]
fn commit_of_empty_named_transaction_conflicts() {
    let mut ds = schema_store();
    patch_settings(&mut ds, &vec![setting("settings.motd", "\"x\"")], Some("other")).unwrap();
    assert_eq!(commit_transaction(&mut ds, Some("empty")), Err(Error::CommitWithNoPending));
    assert_eq!(get_transaction(&ds, Some("other")).len(), 1);
}

#[test]
fn delete_transaction_twice() {
    let mut ds = schema_store();
    patch_settings(
        &mut ds,
        &vec![setting("settings.motd", "\"a\""), setting("settings.hostname", "\"h\"")],
        Some("t"),
    )
    .unwrap();
    let first = delete_transaction(&mut ds, Some("t"));
    assert_eq!(sorted(first), vec![s("settings.hostname"), s("settings.motd")]);
    let second = delete_transaction(&mut ds, Some("t"));
    assert!(second.is_empty());
    assert!(get_transaction(&ds, Some("t")).is_empty());
}

#[test]
fn delete_never_touches_live() {
    let mut ds = schema_store();
    ds.set(s("settings.motd"), s("\"live\""), &Committed::Live, true).unwrap();
    patch_settings(&mut ds, &vec![setting("settings.motd", "\"p\"")], None).unwrap();
    delete_transaction(&mut ds, None);
    assert_eq!(ds.get(&s("settings.motd"), &Committed::Live), Some(s("\"live\"")));
}

#[test]
fn unknown_field_is_rejected_without_writing() {
    for tx in [None, Some("t1"), Some("t2")] {
        let mut ds = schema_store();
        patch_settings(&mut ds, &vec![setting("settings.motd", "\"keep\"")], tx).unwrap();
        let err = patch_settings(
            &mut ds,
            &vec![setting("settings.motd", "\"lost\""), setting("settings.bogus", "1")],
            tx,
        )
        .unwrap_err();
        assert_eq!(err, Error::NewKey { key: s("settings.bogus") });
        assert_eq!(err.kind(), ErrorKind::InvalidInput);
        assert_eq!(err.status_code(), 400);
        assert_eq!(
            sorted_settings(get_transaction(&ds, tx)),
            vec![(s("settings.motd"), s("\"keep\""))]
        );
    }
}

#[test]
fn writers_to_two_transactions_stay_apart() {
    let mut ds = schema_store();
    patch_settings(&mut ds, &vec![setting("settings.motd", "\"one\"")], Some("a")).unwrap();
    patch_settings(&mut ds, &vec![setting("settings.hostname", "\"two\"")], Some("b")).unwrap();
    assert_eq!(sorted(get_transaction_list(&ds)), vec![s("a"), s("b")]);
    assert_eq!(sorted_settings(get_transaction(&ds, Some("a"))), vec![(s("settings.motd"), s("\"one\""))]);
    assert_eq!(
        sorted_settings(get_transaction(&ds, Some("b"))),
        vec![(s("settings.hostname"), s("\"two\""))]
    );
    assert_eq!(commit_transaction(&mut ds, Some("a")).unwrap(), vec![s("settings.motd")]);
    assert_eq!(
        sorted_settings(get_transaction(&ds, Some("b"))),
        vec![(s("settings.hostname"), s("\"two\""))]
    );
    assert_eq!(commit_transaction(&mut ds, Some("b")).unwrap(), vec![s("settings.hostname")]);
    assert!(get_transaction_list(&ds).is_empty());
}

#[test]
fn later_write_of_a_key_wins() {
    let mut ds = schema_store();
    patch_settings(
        &mut ds,
        &vec![setting("settings.motd", "\"first\""), setting("settings.motd", "\"second\"")],
        None,
    )
    .unwrap();
    assert_eq!(
        sorted_settings(get_transaction(&ds, Some("default"))),
        vec![(s("settings.motd"), s("\"second\""))]
    );
}

#[test]
fn default_listed_only_with_pending_writes() {
    let mut ds = schema_store();
    assert!(get_transaction_list(&ds).is_empty());
    patch_settings(&mut ds, &vec![setting("settings.motd", "\"m\"")], None).unwrap();
    assert_eq!(get_transaction_list(&ds), vec![s("default")]);
}

#[test]
fn set_refuses_new_live_key_unless_allowed() {
    let mut ds = schema_store();
    let err = ds.set(s("settings.motd"), s("1"), &Committed::Live, false).unwrap_err();
    assert_eq!(err, Error::NewKeyRejected { key: s("settings.motd") });
    assert_eq!(ds.get(&s("settings.motd"), &Committed::Live), None);
    ds.set(s("settings.motd"), s("1"), &Committed::Live, true).unwrap();
    ds.set(s("settings.motd"), s("2"), &Committed::Live, false).unwrap();
    ds.set(s("settings.motd"), s("3"), &Committed::Pending { tx: s("t") }, false).unwrap();
    assert_eq!(ds.get(&s("settings.motd"), &Committed::Live), Some(s("2")));
    assert_eq!(ds.get(&s("settings.motd"), &Committed::Pending { tx: s("t") }), Some(s("3")));
}

#[test]
fn get_settings_filters() {
    let mut ds = schema_store();
    ds.set(s("settings.motd"), s("\"m\""), &Committed::Live, true).unwrap();
    ds.set(s("settings.ntp.servers"), s("[]"), &Committed::Live, true).unwrap();
    ds.set(s("services.ntp"), s("{}"), &Committed::Live, true).unwrap();
    assert_eq!(
        sorted_settings(get_settings(&ds, None, None).unwrap()),
        vec![(s("settings.motd"), s("\"m\"")), (s("settings.ntp.servers"), s("[]"))]
    );
    assert_eq!(
        sorted_settings(get_settings(&ds, None, Some("ntp")).unwrap()),
        vec![(s("settings.ntp.servers"), s("[]"))]
    );
    assert_eq!(
        sorted_settings(get_settings(&ds, Some("settings.motd,settings.absent"), None).unwrap()),
        vec![(s("settings.motd"), s("\"m\""))]
    );
    assert_eq!(
        get_settings(&ds, None, Some("")).unwrap_err(),
        Error::EmptyInput { input: s("prefix") }
    );
    assert_eq!(
        get_settings(&ds, Some(""), None).unwrap_err(),
        Error::EmptyInput { input: s("keys") }
    );
}

#[test]
fn commit_and_apply_resolves_changed_keys() {
    let mut ds = schema_store();
    ds.set_metadata(s("settings.motd"), s("affected-services"), s("motd"));
    patch_settings(&mut ds, &vec![setting("settings.motd", "\"hi\"")], None).unwrap();
    let done = commit_transaction_and_apply(&mut ds, None).unwrap();
    assert_eq!(done.changed, vec![s("settings.motd")]);
    assert_eq!(done.services, vec![s("motd")]);
    assert!(matches!(commit_transaction_and_apply(&mut ds, None), Err(Error::CommitWithNoPending)));
}

#[test]
fn commit_and_apply_reports_unresolvable_key_after_commit() {
    let mut ds = schema_store();
    patch_settings(&mut ds, &vec![setting("settings.hostname", "\"h\"")], None).unwrap();
    let err = commit_transaction_and_apply(&mut ds, None).unwrap_err();
    assert_eq!(err, Error::ListedKeyNotPresent { key: s("settings.hostname") });
    assert_eq!(ds.get(&s("settings.hostname"), &Committed::Live), Some(s("\"h\"")));
}

#[test]
fn platform_documents_load_in_order() {
    let mut ds = schema_store();
    let docs = vec![
        vec![setting("settings.motd", "\"first\""), setting("settings.hostname", "\"h\"")],
        vec![],
        vec![setting("settings.motd", "\"second\"")],
    ];
    load_platform_settings(&mut ds, &docs, "boot").unwrap();
    assert_eq!(
        sorted_settings(get_settings(&ds, None, None).unwrap()),
        vec![(s("settings.hostname"), s("\"h\"")), (s("settings.motd"), s("\"second\""))]
    );
    assert!(get_transaction_list(&ds).is_empty());
}

#[test]
fn platform_document_with_unknown_field_is_fatal() {
    let mut ds = schema_store();
    let docs = vec![
        vec![setting("settings.motd", "\"ok\"")],
        vec![setting("settings.nope", "1")],
        vec![setting("settings.hostname", "\"never\"")],
    ];
    let err = load_platform_settings(&mut ds, &docs, "boot").unwrap_err();
    assert_eq!(err, Error::NewKey { key: s("settings.nope") });
    assert_eq!(ds.get(&s("settings.motd"), &Committed::Live), Some(s("\"ok\"")));
    assert_eq!(ds.get(&s("settings.hostname"), &Committed::Live), None);
}

#[test]
fn snapshot_accessors_cover_every_tier() {
    let mut ds = schema_store();
    ds.set(s("settings.motd"), s("\"l\""), &Committed::Live, true).unwrap();
    patch_settings(&mut ds, &vec![setting("settings.hostname", "\"p\"")], Some("t")).unwrap();
    ds.set_metadata(s("settings.motd"), s("template"), s("/etc/motd"));
    assert_eq!(sorted_settings(ds.live_entries()), vec![(s("settings.motd"), s("\"l\""))]);
    let pending: Vec<(String, String, String)> =
        ds.pending_entries().into_iter().map(|p| (p.tx, p.key, p.value)).collect();
    assert_eq!(pending, vec![(s("t"), s("settings.hostname"), s("\"p\""))]);
    let meta: Vec<(String, String, String)> =
        ds.metadata_entries().into_iter().map(|m| (m.key, m.kind, m.value)).collect();
    assert_eq!(meta, vec![(s("settings.motd"), s("template"), s("/etc/motd"))]);
    assert_eq!(
        sorted(ds.schema_keys()),
        vec![s("settings.hostname"), s("settings.motd"), s("settings.ntp.servers")]
    );
}

#[test]
fn list_keys_by_prefix_and_tier() {
    let mut ds = schema_store();
    ds.set(s("settings.motd"), s("1"), &Committed::Live, true).unwrap();
    ds.set(s("settings.ntp.servers"), s("[]"), &Committed::Live, true).unwrap();
    ds.set(s("services.ntp"), s("{}"), &Committed::Live, true).unwrap();
    ds.set(s("settings.hostname"), s("\"h\""), &Committed::Pending { tx: s("t") }, true).unwrap();
    assert_eq!(
        sorted(ds.list_keys(&s("settings."), &Committed::Live)),
        vec![s("settings.motd"), s("settings.ntp.servers")]
    );
    assert_eq!(
        ds.list_keys(&s("settings."), &Committed::Pending { tx: s("t") }),
        vec![s("settings.hostname")]
    );
    assert_eq!(sorted(ds.live_keys()).len(), 3);
    assert!(ds.list_keys(&s("settings."), &Committed::Pending { tx: s("u") }).is_empty());
}
