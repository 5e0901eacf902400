use apiserver::controller::{get_configuration_files, get_model, get_services, reboot_result};
use apiserver::error::Error;
use apiserver::store::{Committed, DataStore, Setting};

fn s(x: &str) -> String {
    x.to_string()
}

fn pairs(mut v: Vec<Setting>) -> Vec<(String, String)> {
    v.sort_by(|a, b| a.key.cmp(&b.key));
    v.into_iter().map(|e| (e.key, e.value)).collect()
}

fn store() -> DataStore {
    let mut ds = DataStore::new(vec![]);
    for (k, v) in [
        ("settings.motd", "\"m\""),
        ("services.ntp.restart-commands", "[\"restart chronyd\"]"),
        ("services.ntp.configuration-files", "[\"chrony-conf\"]"),
        ("services.ntpx.restart-commands", "[]"),
        ("services.motd.restart-commands", "[]"),
        ("configuration-files.chrony-conf.path", "\"/etc/chrony.conf\""),
        ("configuration-files.motd.path", "\"/etc/motd\""),
    ] {
        ds.set(s(k), s(v), &Committed::Live, true).unwrap();
    }
    ds
}

#[test]
fn services_by_name_match_whole_names() {
    let ds = store();
    assert_eq!(
        pairs(get_services(&ds, Some("ntp")).unwrap()),
        vec![
            (s("services.ntp.configuration-files"), s("[\"chrony-conf\"]")),
            (s("services.ntp.restart-commands"), s("[\"restart chronyd\"]")),
        ]
    );
    assert_eq!(pairs(get_services(&ds, None).unwrap()).len(), 4);
    assert_eq!(get_services(&ds, Some("")).unwrap_err(), Error::EmptyInput { input: s("names") });
}

#[test]
fn configuration_files_by_name() {
    let ds = store();
    assert_eq!(
        pairs(get_configuration_files(&ds, Some("motd,absent")).unwrap()),
        vec![(s("configuration-files.motd.path"), s("\"/etc/motd\""))]
    );
    assert_eq!(pairs(get_configuration_files(&ds, None).unwrap()).len(), 2);
}

#[test]
fn model_splits_live_by_namespace() {
    let ds = store();
    let m = get_model(&ds);
    assert_eq!(pairs(m.settings), vec![(s("settings.motd"), s("\"m\""))]);
    assert_eq!(m.services.len(), 4);
    assert_eq!(m.configuration_files.len(), 2);
}

#[test]
fn reboot_outcomes() {
    assert_eq!(reboot_result(true, Some(0), None, s("")), Ok(()));
    assert_eq!(
        reboot_result(false, Some(2), None, s("denied")),
        Err(Error::Reboot { exit_code: 2, stderr: s("denied") })
    );
    assert_eq!(
        reboot_result(false, None, Some(9), s("")),
        Err(Error::Reboot { exit_code: 9, stderr: s("") })
    );
    assert_eq!(
        reboot_result(false, None, None, s("")),
        Err(Error::Reboot { exit_code: 1, stderr: s("") })
    );
}
