//! What the command line prints.

use modern_ip_scanner::model::{
    DeviceStatus, DeviceView, FieldChange, HistoryEvent, NetworkView, PartialReason, ScanReport,
    Transition, TransitionKind,
};
use modern_ip_scanner::report::{
    device_lines, diff_lines, format_event, most_recent_network, name_action, network_lines,
    report_lines, transition_lines, truncate, NameAction,
};

fn transition(kind: TransitionKind, unstable: bool) -> Transition {
    Transition {
        kind,
        device_key: "k".into(),
        device_display: "nas".into(),
        changes: vec![],
        unstable_identity: unstable,
    }
}

#[test]
fn transitions_are_marked_by_kind() {
    assert_eq!(transition_lines(&vec![]), vec!["  no changes since last scan"]);
    let mut changed = transition(TransitionKind::Changed, false);
    changed.changes = vec![
        FieldChange { field: "ip".into(), from: Some("10.0.0.1".into()), to: Some("10.0.0.2".into()) },
        FieldChange { field: "mac".into(), from: None, to: Some("x".into()) },
    ];
    let lines = transition_lines(&vec![
        transition(TransitionKind::New, true),
        changed,
        transition(TransitionKind::Gone, false),
        transition(TransitionKind::Returned, false),
    ]);
    assert_eq!(lines[0], "  + nas [new · randomised identity]");
    assert_eq!(lines[1], "  ~ nas [changed] (ip: 10.0.0.1 → 10.0.0.2, mac: ∅ → x)");
    assert_eq!(lines[2], "  - nas [gone]");
    assert_eq!(lines[3], "  ↩ nas [returned]");
    assert_eq!(lines.len(), 7, "a note explains the randomised identity");
    assert_eq!(lines[5], "        mipscan cannot follow them across rotations, so it never reports");
}

fn report(partial: bool) -> ScanReport {
    ScanReport {
        scan_id: 3,
        network_key: "abc".into(),
        network_label: Some("Home".into()),
        started_at: 0,
        finished_at: 60,
        partial,
        partial_reasons: vec![PartialReason { strategy: "scan".into(), reason: "why".into() }],
        strategies_run: vec!["mdns".into()],
        devices_seen: 4,
        transitions: vec![],
        interface: None,
    }
}

#[test]
fn a_report_says_whether_it_is_complete() {
    assert_eq!(
        report_lines(&report(false)),
        vec![
            "Scan #3 on abc (Home)",
            "  finished 1970-01-01 00:01 UTC · 1 strategies · 4 devices seen",
            "  ✓ complete scan",
            "  no changes since last scan",
        ]
    );
    let mut r = report(true);
    r.network_label = Some("".into());
    assert_eq!(
        report_lines(&r),
        vec![
            "Scan #3 on abc",
            "  finished 1970-01-01 00:01 UTC · 1 strategies · 4 devices seen",
            "  ⚠ PARTIAL SCAN — \"gone\" transitions suppressed:",
            "    · scan: why",
            "  no changes since last scan",
        ]
    );
    let lines = diff_lines("abc", 3, 60, &Some(r.partial_reasons), &vec![]);
    assert_eq!(lines[0], "Diff for network abc (scan #3 at 1970-01-01 00:01 UTC)");
    assert_eq!(lines.len(), 4);
    assert_eq!(diff_lines("abc", 3, 60, &None, &vec![]).len(), 2);
}

fn device(name: &str, stable: bool) -> DeviceView {
    DeviceView {
        id: 7,
        key: "abcdef0123456789".into(),
        user_name: None,
        primary_name: None,
        display_name: name.into(),
        mac: Some("aa:bb:cc:dd:ee:ff".into()),
        vendor: None,
        first_seen: 0,
        last_seen: 0,
        last_ip: None,
        networks: vec!["n".into(), "m".into()],
        notes: None,
        status: DeviceStatus::Known,
        identity_stable: stable,
    }
}

#[test]
fn devices_are_listed_in_columns() {
    assert_eq!(device_lines(&vec![]), vec!["no devices recorded — run `mipscan scan` first"]);
    let lines = device_lines(&vec![device("a name that is much too long", false)]);
    assert_eq!(
        lines[0],
        format!(
            "{:<4} {:<8} {:<20} {:<15} {:<17} {:<14} {:<16} networks",
            "id", "status", "name", "ip", "mac", "vendor", "last seen (UTC)"
        )
    );
    assert_eq!(
        lines[1],
        format!(
            "{:<4} {:<8} {:<20} {:<15} {:<17} {:<14} {:<16} {}",
            7, "known*", "a name that is much…", "-", "aa:bb:cc:dd:ee:ff", "-", "1970-01-01 00:00", 2
        )
    );
    assert_eq!(lines[2], "  * randomised identity: cannot be followed across MAC rotations");
    assert_eq!(device_lines(&vec![device("nas", true)]).len(), 2);
}

fn network(key: &str, last_seen: i64) -> NetworkView {
    NetworkView {
        key: key.into(),
        label: None,
        subnet: Some("10.0.0.0/24".into()),
        gateway_mac: None,
        first_seen: 0,
        last_seen,
        device_count: 5,
    }
}

#[test]
fn networks_are_listed_and_the_latest_found() {
    assert_eq!(
        network_lines(&vec![]),
        vec!["no networks remembered yet — run `mipscan scan` first"]
    );
    let lines = network_lines(&vec![network("abcdef0123456789", 0)]);
    assert_eq!(
        lines[1],
        format!("{:<18} {:<12} {:<18} {:<16} {}", "abcdef01", "-", "10.0.0.0/24", "1970-01-01 00:00", 5)
    );
    let all = vec![network("a", 3), network("b", 9), network("c", 9), network("d", 1)];
    assert_eq!(most_recent_network(&all).as_deref(), Some("c"), "the last of equals");
    assert_eq!(most_recent_network(&vec![]), None);
}

#[test]
fn events_are_told_in_a_line() {
    let seen = HistoryEvent::Observation {
        at: 0,
        network_key: "n".into(),
        ip: "10.0.0.5".into(),
        mac: None,
        hostname: Some("nas".into()),
        source: "mdns".into(),
    };
    assert_eq!(format_event(&seen), "1970-01-01 00:00 seen 10.0.0.5 mac=? host=nas via mdns");
    let changed = HistoryEvent::Transition {
        at: 0,
        network_key: "n".into(),
        kind: TransitionKind::Changed,
        changes: vec![FieldChange { field: "ip".into(), from: None, to: Some("x".into()) }],
    };
    assert_eq!(format_event(&changed), "1970-01-01 00:00 changed ip: ?→x");
    let named = HistoryEvent::Named { at: 0, name: "NAS".into() };
    assert_eq!(format_event(&named), "1970-01-01 00:00 named \"NAS\"");
}

#[test]
fn a_long_text_is_cut_and_marked() {
    assert_eq!(truncate("short", 5), "short");
    assert_eq!(truncate("longer", 5), "long…");
    assert_eq!(truncate("éééé", 3), "éé…");
    assert_eq!(truncate("x", 0), "…");
    assert_eq!(truncate("", 0), "");
}

#[test]
fn a_missing_name_clears_only_on_request() {
    assert!(matches!(name_action(Some("  NAS "), false), NameAction::Give(n) if n == "NAS"));
    assert!(matches!(name_action(Some("  "), true), NameAction::Clear));
    assert!(matches!(name_action(None, true), NameAction::Clear));
    assert!(matches!(name_action(None, false), NameAction::Refuse));
}
