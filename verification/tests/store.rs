//! The inventory store.

use modern_ip_scanner::model::{
    DeviceStatus, FieldChange, HistoryEvent, PartialReason, TransitionKind,
};
use modern_ip_scanner::store::rows::{ObservationRow, SettingRow};
use modern_ip_scanner::store::schema::{migrations, pending};
use modern_ip_scanner::store::{Store, StoreError};

fn tmp_store() -> Store {
    Store::new()
}

#[test]
fn migrations_apply_and_version_set() {
    let conn = rusqlite::Connection::open_in_memory().unwrap();
    for (version, sql) in pending(0) {
        conn.execute_batch(sql).unwrap();
        conn.pragma_update(None, "user_version", version).unwrap();
    }
    let v: i64 = conn
        .query_row("PRAGMA user_version", [], |r| r.get(0))
        .unwrap();
    assert_eq!(v as usize, migrations().len());
}

#[test]
fn alias_moves_history_and_names() {
    let mut store = tmp_store();
    store
        .upsert_network("net1", Some("192.168.1.0/24"), None)
        .unwrap();
    store
        .upsert_device(
            "oldkey",
            Some("printer"),
            Some("aa:bb:cc:dd:ee:ff"),
            None,
            "net1",
        )
        .unwrap();
    store
        .set_user_name("oldkey", "Office Printer", None)
        .unwrap();
    store
        .upsert_presence("oldkey", "net1", Some("192.168.1.50"))
        .unwrap();
    let mut tx = store.begin().unwrap();
    let scan_id = Store::insert_scan(&mut tx, 1, 2, "net1", false, "{}", "[]", &vec![], "{}").unwrap();
    Store::insert_observation(
        &mut tx,
        scan_id,
        2,
        "oldkey",
        "192.168.1.50",
        Some("aa:bb:cc:dd:ee:ff"),
        Some("printer"),
        "arp-cache",
        100,
    )
    .unwrap();
    store.commit(tx).unwrap();

    store.add_alias("oldkey", "newkey").unwrap();
    assert_eq!(store.resolve_alias("oldkey").unwrap(), "newkey");
    let dev = store.get_device("oldkey").unwrap().unwrap();
    assert_eq!(dev.key, "newkey");
    assert_eq!(dev.primary_name.as_deref(), Some("printer"));
    let name = store.get_user_name("oldkey").unwrap().unwrap();
    assert_eq!(name.0, "Office Printer");
    let presence = store.presence_for_network("net1").unwrap();
    assert_eq!(presence.len(), 1);
    assert_eq!(presence[0].device_key, "newkey");
    let hist = store.device_history("oldkey", 10).unwrap();
    // one observation + one "named" event
    assert_eq!(hist.len(), 2);
}

#[test]
fn mac_lookup_prefers_named() {
    let mut store = tmp_store();
    store
        .upsert_device("k1", None, Some("aa:bb:cc:00:00:01"), None, "n")
        .unwrap();
    store
        .upsert_device("k2", Some("named"), Some("aa:bb:cc:00:00:01"), None, "n")
        .unwrap();
    store.add_alias("k2", "k1").unwrap(); // k2 superseded by k1
    let found = store
        .find_device_by_mac("aa:bb:cc:00:00:01")
        .unwrap()
        .unwrap();
    assert_eq!(found.key, "k1");
}

#[test]
fn name_lookup_scoped_to_network() {
    let mut store = tmp_store();
    store
        .upsert_device(
            "k1",
            Some("laptop"),
            Some("aa:bb:cc:00:00:01"),
            None,
            "netA",
        )
        .unwrap();
    store
        .upsert_presence("k1", "netA", Some("10.0.0.5"))
        .unwrap();
    assert!(store
        .find_device_by_name_on_network("LAPTOP", "netA")
        .unwrap()
        .is_some());
    assert!(store
        .find_device_by_name_on_network("laptop", "netB")
        .unwrap()
        .is_none());
}

#[test]
fn grace_setting_roundtrip() {
    let mut store = tmp_store();
    assert_eq!(store.grace_scans(), 2);
    store.set_setting("grace_scans", "3").unwrap();
    assert_eq!(store.grace_scans(), 3);
}

#[test]
fn migrating_goes_forward_only() {
    let steps: Vec<i64> = pending(0).iter().map(|p| p.0).collect();
    assert_eq!(steps, vec![1, 2]);
    assert_eq!(pending(1).len(), 1);
    assert_eq!(pending(1)[0].1, migrations()[1]);
    assert!(pending(2).is_empty());
    assert!(pending(99).is_empty());
}

#[test]
fn a_new_inventory_has_the_settings_of_a_new_database() {
    let conn = rusqlite::Connection::open_in_memory().unwrap();
    for (_, sql) in pending(0) {
        conn.execute_batch(sql).unwrap();
    }
    let store = tmp_store();
    assert_eq!(store.settings.len(), 3);
    for row in &store.settings {
        let on_disk: String = conn
            .query_row("SELECT value FROM meta WHERE key = ?1", [&row.key], |r| r.get(0))
            .unwrap();
        assert_eq!(on_disk, row.value);
    }
}

#[test]
fn settings_read_back_and_leave_the_others_alone() {
    let mut store = tmp_store();
    store.set_setting("grace_scans", "many").unwrap();
    assert_eq!(store.grace_scans(), 2, "no number counts as the default");
    store.set_setting("theme", "dark").unwrap();
    assert_eq!(store.get_setting("theme").as_deref(), Some("dark"));
    assert_eq!(store.get_setting("observations_retention_days").as_deref(), Some("90"));
    assert_eq!(store.get_setting("nothing"), None);
    assert!(Store::is_writable_setting("grace_scans"));
    assert!(!Store::is_writable_setting("theme"));
    assert_eq!(
        Store::writable_settings(),
        vec!["grace_scans", "observations_retention_days", "enabled_strategies"]
    );
}

#[test]
fn a_network_keeps_its_label_and_its_beginning() {
    let mut store = tmp_store();
    store.upsert_network_at("abcdef01", Some("10.0.0.0/24"), None, 5).unwrap();
    assert!(store.set_network_label("abcdef01", "Home").unwrap());
    assert!(!store.set_network_label("zzz", "Nowhere").unwrap());
    store.upsert_network_at("abcdef01", Some("other"), Some("aa:bb:cc:dd:ee:ff"), 9).unwrap();
    store.upsert_network_at("abcdff99", None, None, 7).unwrap();
    let list = store.list_networks().unwrap();
    assert_eq!(list.len(), 2);
    assert_eq!(list[0].key, "abcdef01", "the network seen last comes first");
    assert_eq!(list[0].subnet.as_deref(), Some("10.0.0.0/24"));
    assert_eq!((list[0].first_seen, list[0].last_seen), (5, 9));
    assert_eq!(list[0].label.as_deref(), Some("Home"));
    assert_eq!(store.get_network_label("abcdff99"), None);
    assert_eq!(store.get_network_by_ref("ABCDEF").unwrap().unwrap().key, "abcdef01");
    assert!(store.get_network_by_ref("abcd").unwrap().is_none(), "ambiguous");
}

#[test]
fn a_device_is_found_by_id_by_key_and_by_prefix() {
    let mut store = tmp_store();
    store.upsert_device_at("abc1", Some("nas"), None, None, "n", 1).unwrap();
    store.upsert_device_at("abd2", None, None, None, "n", 2).unwrap();
    store.upsert_device_at("abc1", Some("other"), Some("aa:bb:cc:dd:ee:ff"), None, "m", 3).unwrap();
    let d = store.get_device_by_ref("1").unwrap().unwrap();
    assert_eq!(d.key, "abc1");
    assert_eq!(d.primary_name.as_deref(), Some("nas"), "what is known stays");
    assert_eq!(d.mac.as_deref(), Some("aa:bb:cc:dd:ee:ff"), "what was missing is filled in");
    assert_eq!((d.first_seen, d.last_seen), (1, 3));
    assert_eq!(d.origin_network, "n");
    assert_eq!(store.get_device_by_ref("abd2").unwrap().unwrap().id, 2);
    assert_eq!(store.get_device_by_ref("ABC").unwrap().unwrap().id, 1);
    assert!(store.get_device_by_ref("ab").unwrap().is_none());
    store.update_device_fields_at("abc1", Some("new"), None, Some("ACME"), 8).unwrap();
    let d = store.get_device("abc1").unwrap().unwrap();
    assert_eq!(d.primary_name.as_deref(), Some("new"));
    assert_eq!(d.vendor.as_deref(), Some("ACME"));
    assert_eq!(d.last_seen, 8);
}

#[test]
fn one_mac_under_two_identities_prefers_the_named_one() {
    let mut store = tmp_store();
    let mac = Some("aa:bb:cc:00:00:01");
    store.upsert_device_at("k1", None, mac, None, "n", 9).unwrap();
    store.upsert_device_at("k2", Some("named"), mac, None, "n", 1).unwrap();
    assert_eq!(store.find_device_by_mac("aa:bb:cc:00:00:01").unwrap().unwrap().key, "k2");
    assert!(store.find_device_by_mac("aa:bb:cc:00:00:02").unwrap().is_none());
}

#[test]
fn a_name_shared_by_two_devices_identifies_neither() {
    let mut store = tmp_store();
    for key in ["k1", "k2"] {
        store.upsert_device_at(key, Some("laptop"), None, None, "n", 1).unwrap();
        store.upsert_presence_at(key, "n", None, 1).unwrap();
    }
    assert!(store.find_device_by_name_on_network("laptop", "n").unwrap().is_none());
}

#[test]
fn aliases_stay_flat_and_names_follow_them() {
    let mut store = tmp_store();
    store.set_user_name_at("a", "First", Some("note"), 1).unwrap();
    store.add_alias_at("a", "b", 2).unwrap();
    store.add_alias_at("b", "c", 3).unwrap();
    assert_eq!(store.resolve_alias("a").unwrap(), "c");
    assert_eq!(store.resolve_alias("b").unwrap(), "c");
    assert_eq!(store.resolve_alias("other").unwrap(), "other");
    assert_eq!(
        store.get_user_name("a").unwrap(),
        Some(("First".to_string(), Some("note".to_string())))
    );
    store.set_user_name_at("b", "Second", None, 4).unwrap();
    assert_eq!(
        store.get_user_name("c").unwrap(),
        Some(("Second".to_string(), Some("note".to_string()))),
        "notes stay where none are given"
    );
    store.clear_user_name("a").unwrap();
    assert_eq!(store.get_user_name("c").unwrap(), None);
    store.add_alias_at("x", "x", 5).unwrap();
    assert_eq!(store.resolve_alias("x").unwrap(), "x");
}

#[test]
fn streaks_grow_and_are_reset() {
    let mut store = tmp_store();
    store.upsert_presence_at("d", "n", Some("10.0.0.5"), 1).unwrap();
    assert_eq!(store.bump_miss_streak("d", "n").unwrap(), 1);
    assert_eq!(store.bump_miss_streak("d", "n").unwrap(), 2);
    let mut tx = store.begin().unwrap();
    Store::mark_reported_gone_tx(&mut tx, "d", "n").unwrap();
    assert!(!store.presence[0].reported_gone, "not before it is committed");
    store.commit(tx).unwrap();
    assert!(store.presence[0].reported_gone);
    store.upsert_presence_at("d", "n", None, 9).unwrap();
    let p = &store.presence_for_network("n").unwrap()[0];
    assert_eq!((p.miss_streak, p.reported_gone), (0, false));
    assert_eq!(p.last_ip.as_deref(), Some("10.0.0.5"), "an address not seen is kept");
    assert_eq!((p.first_seen, p.last_seen), (1, 9));
}

#[test]
fn each_refusal_has_its_reason() {
    let mut store = tmp_store();
    assert_eq!(store.bump_miss_streak("d", "n"), Err(StoreError::NoRow));
    store.upsert_presence_at("d", "n", None, 1).unwrap();
    store.presence[0].miss_streak = i64::MAX;
    assert_eq!(store.bump_miss_streak("d", "n"), Err(StoreError::Range));

    store.device_seq = i64::MAX;
    assert_eq!(
        store.upsert_device_at("k", None, None, None, "n", 1),
        Err(StoreError::Full)
    );
    store.device_seq = 0;

    store.upsert_presence_at("e", "n", None, 1).unwrap();
    assert_eq!(store.add_alias_at("d", "e", 2), Err(StoreError::Conflict));

    let mut tx = store.begin().unwrap();
    let e = Store::insert_observation(&mut tx, 7, 1, "d", "10.0.0.5", None, None, "x", 50);
    assert_eq!(e, Err(StoreError::NoSuchScan));

    store.set_setting("observations_retention_days", "9223372036854775807").unwrap();
    assert_eq!(store.prune_at(0), Err(StoreError::Range));

    let mut broken = tmp_store();
    broken.settings.push(SettingRow { key: "grace_scans".into(), value: "3".into() });
    assert!(matches!(broken.from_tables(), Err(StoreError::Corrupt)));
    let mut orphan = tmp_store();
    orphan.observations.push(ObservationRow {
        scan_id: 3,
        at: 1,
        device_key: "d".into(),
        ip: "10.0.0.5".into(),
        mac: None,
        hostname: None,
        source: "x".into(),
        confidence: 50,
    });
    assert!(matches!(orphan.from_tables(), Err(StoreError::Corrupt)));
    assert!(tmp_store().from_tables().is_ok());
    assert_eq!(StoreError::NoRow.message(), "database error: no such row");
}

fn with_scan(store: &mut Store, network: &str, at: i64) -> i64 {
    let reasons = vec![PartialReason { strategy: "scan".into(), reason: "why".into() }];
    let mut tx = store.begin().unwrap();
    let id = Store::insert_scan(
        &mut tx,
        at,
        at,
        network,
        true,
        "{}",
        "[\"mdns\",\"a\\\"b\"]",
        &reasons,
        "{}",
    )
    .unwrap();
    store.commit(tx).unwrap();
    id
}

#[test]
fn a_scan_is_summed_up_as_it_was_recorded() {
    let mut store = tmp_store();
    let first = with_scan(&mut store, "n", 10);
    let second = with_scan(&mut store, "m", 20);
    assert_eq!((first, second), (1, 2));
    assert_eq!(store.last_scan_for_network("n").unwrap(), Some((1, 10)));
    assert_eq!(store.last_scan_for_network("x").unwrap(), None);
    let s = store.scan_summary(1).unwrap().unwrap();
    assert!(s.partial);
    assert_eq!(s.finished_at, 10);
    assert_eq!(s.strategies, vec!["mdns", "a\"b"]);
    assert_eq!(s.partial_reasons[0].reason, "why");
    assert!(store.scan_summary(3).unwrap().is_none());
    store.scans[0].strategies_json = "no list".to_string();
    assert!(store.scan_summary(1).unwrap().unwrap().strategies.is_empty());
}

#[test]
fn transitions_are_shown_with_what_is_known_now() {
    let mut store = tmp_store();
    let id = with_scan(&mut store, "n", 10);
    store.upsert_device_at("k1", None, Some("36:93:e6:08:48:d9"), None, "n", 1).unwrap();
    let changes = vec![FieldChange { field: "ip".into(), from: None, to: Some("10.0.0.5".into()) }];
    let mut tx = store.begin().unwrap();
    Store::insert_transition(&mut tx, id, 10, "k1", "n", TransitionKind::Changed, &changes).unwrap();
    Store::insert_transition(&mut tx, id, 10, "k2", "n", TransitionKind::Gone, &vec![]).unwrap();
    store.commit(tx).unwrap();
    let ts = store.transitions_of_scan(id).unwrap();
    assert_eq!(ts.len(), 2);
    assert_eq!(ts[0].device_display, "36:93:e6:08:48:d9");
    assert!(ts[0].unstable_identity);
    assert_eq!(ts[0].changes, changes);
    store.set_user_name_at("k1", "Phone", None, 2).unwrap();
    store.update_device_fields_at("k1", Some("my-phone"), None, None, 3).unwrap();
    let ts = store.transitions_of_scan(id).unwrap();
    assert_eq!(ts[0].device_display, "Phone");
    assert!(!ts[0].unstable_identity, "a name makes it identifiable after the fact");
    assert_eq!(store.gone_transitions_for_scan(id).unwrap(), vec!["k2"]);
    assert!(store.transitions_of_scan(99).unwrap().is_empty());
}

#[test]
fn the_list_says_where_each_device_stands() {
    let mut store = tmp_store();
    let id = with_scan(&mut store, "n", 10);
    store.upsert_device_at("k1", Some("nas"), None, None, "n", 5).unwrap();
    store.upsert_device_at("k2", None, Some("36:93:e6:08:48:d9"), None, "n", 9).unwrap();
    store.upsert_device_at("k3", None, None, None, "n", 1).unwrap();
    store.upsert_presence_at("k1", "n", Some("10.0.0.5"), 5).unwrap();
    store.upsert_presence_at("k1", "m", Some("192.168.0.5"), 7).unwrap();
    store.upsert_presence_at("k2", "n", Some("10.0.0.6"), 9).unwrap();
    let mut tx = store.begin().unwrap();
    Store::insert_transition(&mut tx, id, 10, "k2", "n", TransitionKind::New, &vec![]).unwrap();
    Store::mark_reported_gone_tx(&mut tx, "k1", "n").unwrap();
    store.commit(tx).unwrap();
    let all = store.list_devices(None).unwrap();
    let keys: Vec<&str> = all.iter().map(|d| d.key.as_str()).collect();
    assert_eq!(keys, vec!["k2", "k1", "k3"], "the one seen last comes first");
    assert_eq!(all[0].status, DeviceStatus::New);
    assert!(!all[0].identity_stable);
    assert_eq!(all[1].last_ip.as_deref(), Some("192.168.0.5"), "the latest on any network");
    assert_eq!(all[1].status, DeviceStatus::Known);
    assert_eq!(all[1].networks, vec!["n", "m"]);
    assert_eq!(all[2].display_name, "k3");
    let here = store.list_devices(Some("n")).unwrap();
    assert_eq!(here.len(), 2);
    assert_eq!(here[1].last_ip.as_deref(), Some("10.0.0.5"));
    assert_eq!(here[1].status, DeviceStatus::Gone);
}

#[test]
fn a_history_is_told_backwards_and_within_its_limit() {
    let mut store = tmp_store();
    let id = with_scan(&mut store, "n", 10);
    let mut tx = store.begin().unwrap();
    for at in [3, 1, 2] {
        Store::insert_observation(&mut tx, id, at, "k", "10.0.0.5", None, None, "mdns", 90).unwrap();
    }
    Store::insert_transition(&mut tx, id, 4, "k", "n", TransitionKind::New, &vec![]).unwrap();
    store.commit(tx).unwrap();
    store.set_user_name_at("k", "NAS", None, 2).unwrap();
    let times = |events: Vec<HistoryEvent>| -> Vec<i64> { events.iter().map(|e| e.time()).collect() };
    assert_eq!(times(store.device_history("k", 10).unwrap()), vec![4, 3, 2, 2, 1]);
    assert_eq!(times(store.device_history("k", 2).unwrap()), vec![4, 3]);
    assert!(store.device_history("other", 5).unwrap().is_empty());
}

#[test]
fn old_observations_are_dropped_and_nothing_else() {
    let mut store = tmp_store();
    let id = with_scan(&mut store, "n", 10);
    let day = 86_400;
    let mut tx = store.begin().unwrap();
    for at in [0, 10 * day - 1, 10 * day, 100 * day] {
        Store::insert_observation(&mut tx, id, at, "k", "10.0.0.5", None, None, "mdns", 90).unwrap();
    }
    store.commit(tx).unwrap();
    assert_eq!(store.prune_at(100 * day).unwrap(), 2);
    assert_eq!(store.observations.len(), 2);
    assert_eq!(store.scans.len(), 1);
    store.set_setting("observations_retention_days", "0").unwrap();
    assert_eq!(store.prune_at(100 * day).unwrap(), 1);
}

#[test]
fn a_name_is_looked_up_however_it_is_spelled() {
    let mut store = tmp_store();
    store.upsert_device_at("k1", Some("CAFÉ "), None, None, "n", 1).unwrap();
    store.upsert_presence_at("k1", "n", None, 1).unwrap();
    for name in ["CAFÉ", "café", " Café\t"] {
        let found = store.find_device_by_name_on_network(name, "n").unwrap();
        assert_eq!(found.expect(name).key, "k1");
    }
    assert!(store.find_device_by_name_on_network("cafe", "n").unwrap().is_none());
}

#[test]
fn a_device_that_changes_its_key_keeps_everything() {
    let mut store = tmp_store();
    store.upsert_device_at("old", Some("nas"), Some("aa:bb:cc:00:00:01"), None, "n", 1).unwrap();
    store.upsert_presence_at("old", "n", Some("10.0.0.5"), 2).unwrap();
    store.set_user_name_at("old", "Storage", Some("attic"), 3).unwrap();
    store.add_alias_at("older", "old", 4).unwrap();
    let before = store.get_device("old").unwrap().unwrap();

    store.add_alias_at("old", "new", 5).unwrap();

    for key in ["old", "older", "new"] {
        assert_eq!(store.resolve_alias(key).unwrap(), "new");
        let dev = store.get_device(key).unwrap().unwrap();
        assert_eq!(dev.key, "new");
        assert_eq!(dev.primary_name, before.primary_name);
        assert_eq!(dev.mac, before.mac);
        assert_eq!(dev.first_seen, before.first_seen);
        assert_eq!(
            store.get_user_name(key).unwrap(),
            Some(("Storage".to_string(), Some("attic".to_string())))
        );
    }
    assert_eq!(store.devices.len(), 1);
    assert_eq!(store.presence.len(), 1);
    assert_eq!(store.presence[0].device_key, "new");
    assert_eq!(store.presence[0].last_ip.as_deref(), Some("10.0.0.5"));
}
