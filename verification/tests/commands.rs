//! What the frontends ask of the inventory.

use modern_ip_scanner::commands::{
    config, device_history, export_csv, export_format, get_settings, history_title,
    label_network, last_diff, name_device_at, network_diff, rename_device, rename_device_at,
    set_network_label, set_setting, store_err, ConfigOutcome, ExportFormat,
};
use modern_ip_scanner::model::{PartialReason, TransitionKind};
use modern_ip_scanner::store::{Store, StoreError};

fn store() -> Store {
    let mut s = Store::new();
    s.upsert_network_at("net1aaaaaaaa", Some("10.0.0.0/24"), None, 5).unwrap();
    s.upsert_network_at("net2bbbbbbbb", None, None, 9).unwrap();
    s.upsert_device_at("dev1cccccccc", Some("nas"), None, None, "net1aaaaaaaa", 1).unwrap();
    s
}

fn scanned(s: &mut Store, network: &str, partial: bool) -> i64 {
    let reasons = vec![PartialReason { strategy: "scan".into(), reason: "why".into() }];
    let mut tx = s.begin().unwrap();
    let id =
        Store::insert_scan(&mut tx, 50, 60, network, partial, "{}", "[\"mdns\"]", &reasons, "{}")
            .unwrap();
    Store::insert_transition(
        &mut tx,
        id,
        60,
        "dev1cccccccc",
        network,
        TransitionKind::New,
        &vec![],
    )
    .unwrap();
    s.commit(tx).unwrap();
    id
}

#[test]
fn renaming_sets_trims_and_clears() {
    let mut s = store();
    rename_device_at(&mut s, "1", Some("  My NAS "), Some("attic"), 7).unwrap();
    assert_eq!(
        s.get_user_name("dev1cccccccc").unwrap(),
        Some(("My NAS".to_string(), Some("attic".to_string())))
    );
    rename_device(&mut s, "dev1", Some("   "), None).unwrap();
    assert_eq!(s.get_user_name("dev1cccccccc").unwrap(), None);
    assert_eq!(
        rename_device(&mut s, "nobody", Some("x"), None),
        Err("no device matches 'nobody'".to_string())
    );
}

#[test]
fn naming_on_the_command_line_clears_only_on_request() {
    let mut s = store();
    assert_eq!(
        name_device_at(&mut s, "dev1", Some("NAS"), None, false, 7),
        Ok("named device dev1cccc → \"NAS\"".to_string())
    );
    assert_eq!(
        name_device_at(&mut s, "dev1", None, None, false, 8),
        Err("no name given; pass a name, or --clear to remove the existing one".to_string())
    );
    assert_eq!(s.get_user_name("dev1cccccccc").unwrap().unwrap().0, "NAS");
    assert_eq!(
        name_device_at(&mut s, "dev1", None, None, true, 9),
        Ok("cleared name for device dev1cccc".to_string())
    );
    assert_eq!(s.get_user_name("dev1cccccccc").unwrap(), None);
    assert!(name_device_at(&mut s, "x", Some("y"), None, false, 9).is_err());
}

#[test]
fn a_network_is_labelled_by_key_or_by_prefix() {
    let mut s = store();
    assert_eq!(
        label_network(&mut s, "NET1", " Home "),
        Ok("labelled network net1aaaa → \"Home\"".to_string())
    );
    assert_eq!(s.get_network_label("net1aaaaaaaa").as_deref(), Some("Home"));
    assert_eq!(label_network(&mut s, "net", "x"), Err("no network matches 'net'".to_string()));
    assert_eq!(set_network_label(&mut s, "net1", "x"), Err("unknown network".to_string()));
    set_network_label(&mut s, "net2bbbbbbbb", "Office 3F").unwrap();
    assert_eq!(s.get_network_label("net2bbbbbbbb").as_deref(), Some("Office 3F"));
}

#[test]
fn the_last_diff_is_that_of_the_network_seen_last() {
    let mut s = store();
    assert!(last_diff(&s, None).unwrap().is_none());
    assert_eq!(
        network_diff(&s, None).map(|d| d.scan_id),
        Err("no scan recorded for that network".to_string())
    );
    assert_eq!(
        network_diff(&Store::new(), None).map(|d| d.scan_id),
        Err("no scans recorded yet — run `mipscan scan` first".to_string())
    );
    scanned(&mut s, "net1aaaaaaaa", true);
    assert!(last_diff(&s, None).unwrap().is_none(), "the other network was seen later");
    let d = last_diff(&s, Some("net1aaaaaaaa")).unwrap().unwrap();
    assert_eq!((d.scan_id, d.finished_at), (1, 60));
    let summary = d.summary.as_ref().unwrap();
    assert!(summary.partial);
    assert_eq!(summary.strategies, vec!["mdns"]);
    assert_eq!(d.transitions.len(), 1);
    assert_eq!(
        d.lines(),
        vec![
            "Diff for network net1aaaaaaaa (scan #1 at 1970-01-01 00:01 UTC)",
            "  ⚠ PARTIAL SCAN — \"gone\" transitions suppressed:",
            "    · scan: why",
            "  + nas [new]",
        ]
    );
    scanned(&mut s, "net2bbbbbbbb", false);
    let d = network_diff(&s, None).unwrap();
    assert_eq!((d.scan_id, d.network.as_str()), (2, "net2bbbbbbbb"));
    assert_eq!(d.lines().len(), 2, "a complete scan has no reasons to tell");
}

#[test]
fn a_history_needs_a_device_and_has_a_title() {
    let mut s = store();
    scanned(&mut s, "net1aaaaaaaa", false);
    assert_eq!(device_history(&s, "dev1", None).unwrap().len(), 1);
    assert_eq!(device_history(&s, "dev1", Some(0)).unwrap().len(), 0);
    assert!(device_history(&s, "nobody", None).is_err());
    assert_eq!(
        history_title(&s, "1"),
        Ok("history for nas (dev1cccc) — times in UTC".to_string())
    );
    assert!(history_title(&s, "nobody").is_err());
}

#[test]
fn only_the_named_settings_can_be_written() {
    let mut s = store();
    set_setting(&mut s, "grace_scans", "5").unwrap();
    assert_eq!(
        set_setting(&mut s, "version", "5"),
        Err("setting not writable from the UI".to_string())
    );
    let shown = get_settings(&s);
    assert_eq!(shown.grace_scans, 5);
    assert_eq!(shown.retention_days, "90");
    assert!(shown.enabled_strategies.contains("arp-ping"));
}

#[test]
fn config_changes_reads_and_lists() {
    let mut s = store();
    match config(&mut s, Some("grace_scans"), Some("4")).unwrap() {
        ConfigOutcome::Changed(line) => assert_eq!(line, "grace_scans = 4"),
        other => panic!("{other:?}"),
    }
    match config(&mut s, Some("grace_scans"), None).unwrap() {
        ConfigOutcome::Shown(lines) => assert_eq!(lines, vec!["4"]),
        other => panic!("{other:?}"),
    }
    match config(&mut s, None, Some("ignored")).unwrap() {
        ConfigOutcome::Shown(lines) => {
            assert_eq!(lines[0], "grace_scans = 4");
            assert_eq!(lines[1], "observations_retention_days = 90");
            assert_eq!(lines.len(), 3);
        }
        other => panic!("{other:?}"),
    }
    assert_eq!(
        config(&mut s, Some("x"), Some("y")).unwrap_err(),
        "'x' is not a writable setting (try: grace_scans, observations_retention_days, enabled_strategies)"
    );
    assert_eq!(config(&mut s, Some("x"), None).unwrap_err(), "'x' is not set");
}

#[test]
fn an_export_has_one_of_two_formats() {
    let s = store();
    assert_eq!(export_format("csv"), Ok(ExportFormat::Csv));
    assert_eq!(export_format("json"), Ok(ExportFormat::Json));
    assert_eq!(
        export_format("xml"),
        Err("unknown export format 'xml' (csv|json)".to_string())
    );
    let csv = export_csv(&s, None).unwrap();
    assert!(csv.starts_with("key,name,status,"));
    assert_eq!(csv.lines().count(), 2);
    assert_eq!(export_csv(&s, Some("net1aaaaaaaa")).unwrap().lines().count(), 1);
}

#[test]
fn a_failure_of_the_store_is_told_as_one() {
    assert_eq!(
        store_err(StoreError::NoRow),
        "database error: database error: no such row"
    );
}

#[test]
fn a_kind_reads_back_as_it_was_recorded() {
    for kind in [
        TransitionKind::New,
        TransitionKind::Changed,
        TransitionKind::Gone,
        TransitionKind::Returned,
    ] {
        assert_eq!(TransitionKind::of_text(kind.as_str()), kind);
    }
    assert_eq!(TransitionKind::of_text("unheard of"), TransitionKind::Returned);
}
