use apiserver::apply::apply_changes as resolve;
use apiserver::controller::{apply_changes, get_affected_services, get_setting_generators, get_templates};
use apiserver::error::{Error, ErrorKind};
use apiserver::store::{Committed, DataStore, Setting};

fn s(x: &str) -> String {
    x.to_string()
}

fn store() -> DataStore {
    let mut ds = DataStore::new(vec![s("settings.motd"), s("settings.ntp.servers")]);
    ds.set(s("settings.motd"), s("\"m\""), &Committed::Live, true).unwrap();
    ds.set(s("settings.ntp.servers"), s("[]"), &Committed::Live, true).unwrap();
    ds.set(s("settings.hostname"), s("\"h\""), &Committed::Live, true).unwrap();
    ds.set_metadata(s("settings.motd"), s("affected-services"), s("motd-writer"));
    ds.set_metadata(s("settings.ntp.servers"), s("affected-services"), s("chronyd"));
    ds.set_metadata(s("settings.ntp.servers"), s("affected-services"), s("motd-writer"));
    ds.set_metadata(s("settings.motd"), s("template"), s("/etc/motd"));
    ds.set_metadata(s("settings.hostname"), s("setting-generator"), s("netdog hostname"));
    ds
}

fn sorted(mut v: Vec<String>) -> Vec<String> {
    v.sort();
    v
}

fn pairs(mut v: Vec<Setting>) -> Vec<(String, String)> {
    v.sort_by(|a, b| (a.key.clone(), a.value.clone()).cmp(&(b.key.clone(), b.value.clone())));
    v.into_iter().map(|e| (e.key, e.value)).collect()
}

#[test]
fn apply_motd_runs_one_applier_for_motd_writer() {
    let ds = store();
    assert_eq!(apply_changes(&ds, Some("settings.motd")).unwrap(), vec![s("motd-writer")]);
}

#[test]
fn apply_resolves_only_reachable_services_once() {
    let ds = store();
    let services = apply_changes(&ds, Some("settings.motd,settings.ntp.servers")).unwrap();
    assert_eq!(sorted(services), vec![s("chronyd"), s("motd-writer")]);
    let only_ntp = resolve(&ds, Some(&vec![s("settings.ntp.servers")])).unwrap();
    assert_eq!(sorted(only_ntp), vec![s("chronyd"), s("motd-writer")]);
}

#[test]
fn apply_unknown_key_fails_not_found() {
    let ds = store();
    let err = apply_changes(&ds, Some("settings.motd,settings.nope")).unwrap_err();
    assert_eq!(err, Error::ListedKeyNotPresent { key: s("settings.nope") });
    assert_eq!(err.kind(), ErrorKind::NotFound);
    assert_eq!(err.status_code(), 404);
}

#[test]
fn apply_without_keys_covers_every_live_key() {
    let ds = store();
    assert_eq!(sorted(apply_changes(&ds, None).unwrap()), vec![s("chronyd"), s("motd-writer")]);
}

#[test]
fn apply_with_empty_keys_is_invalid() {
    let ds = store();
    let err = apply_changes(&ds, Some("")).unwrap_err();
    assert_eq!(err, Error::EmptyInput { input: s("keys") });
    assert_eq!(err.kind(), ErrorKind::InvalidInput);
}

#[test]
fn affected_services_metadata_for_keys() {
    let ds = store();
    let got = get_affected_services(&ds, Some("settings.ntp.servers,settings.hostname")).unwrap();
    assert_eq!(
        pairs(got),
        vec![
            (s("settings.ntp.servers"), s("chronyd")),
            (s("settings.ntp.servers"), s("motd-writer")),
        ]
    );
    assert_eq!(
        get_affected_services(&ds, None).unwrap_err(),
        Error::MissingInput { input: s("keys") }
    );
}

#[test]
fn template_metadata_for_keys() {
    let ds = store();
    assert_eq!(
        pairs(get_templates(&ds, Some("settings.motd")).unwrap()),
        vec![(s("settings.motd"), s("/etc/motd"))]
    );
    assert_eq!(get_templates(&ds, Some("")).unwrap_err(), Error::EmptyInput { input: s("keys") });
}

#[test]
fn setting_generators_for_all_keys() {
    let ds = store();
    assert_eq!(
        pairs(get_setting_generators(&ds)),
        vec![(s("settings.hostname"), s("netdog hostname"))]
    );
}

#[test]
fn metadata_lookup_by_key_and_kind() {
    let ds = store();
    assert_eq!(
        sorted(ds.get_metadata(&s("settings.ntp.servers"), &s("affected-services"))),
        vec![s("chronyd"), s("motd-writer")]
    );
    assert!(ds.get_metadata(&s("settings.ntp.servers"), &s("template")).is_empty());
}
