//! The diff engine: what a scan may say of the inventory.

use modern_ip_scanner::diff::{compute_diff, ObservedState, PriorState, ScanIntegrity};
use modern_ip_scanner::keymap::KeyMap;
use modern_ip_scanner::model::TransitionKind;

fn prior(key: &str, ip: &str, mac: Option<&str>, hostname: Option<&str>) -> PriorState {
    PriorState {
        device_key: key.into(),
        display_name: format!("dev-{key}"),
        last_ip: Some(ip.into()),
        last_hostname: hostname.map(|s| s.into()),
        last_mac: mac.map(|s| s.into()),
        miss_streak: 0,
        reported_gone: false,
        identity_stable: true,
    }
}

fn observed(key: &str, ip: &str, mac: Option<&str>, hostname: Option<&str>) -> ObservedState {
    ObservedState {
        device_key: key.into(),
        display_name: format!("dev-{key}"),
        ip: ip.into(),
        hostname: hostname.map(|s| s.into()),
        mac: mac.map(|s| s.into()),
        identity_stable: true,
    }
}

fn map<V>(entries: Vec<(String, V)>) -> KeyMap<V> {
    KeyMap { entries }
}

#[test]
fn a_scan_that_cannot_prove_absence_never_emits_gone() {
    // Every strategy succeeded, but none of them can testify to absence:
    // mDNS hearing nothing means nothing. Observed live: `mipscan scan
    // --strategy mdns` returned zero observations and reported a complete
    // scan, which would have marked the whole inventory gone.
    let prior = map(vec![(
        "a".into(),
        prior("a", "10.0.0.1", Some("aa:aa:aa:aa:aa:aa"), Some("host-a")),
    )]);
    let observed: KeyMap<ObservedState> = KeyMap::new();
    let integrity = ScanIntegrity::uncovered("scan", "no exhaustive strategy ran");
    let out = compute_diff(prior, &observed, &integrity, 2);
    assert!(
        !out.transitions
            .iter()
            .any(|t| t.kind == TransitionKind::Gone),
        "a scan with no coverage must not report anything gone"
    );
    assert!(
        out.streak_updates.is_empty(),
        "nor may it advance a miss streak toward gone"
    );
}

#[test]
fn an_uncovered_scan_still_reports_new_and_changed() {
    // Presence is still evidence: seeing a device proves it is there.
    let prior_map = map(vec![(
        "a".into(),
        prior("a", "10.0.0.1", Some("aa:aa:aa:aa:aa:aa"), Some("host-a")),
    )]);
    let observed = map(vec![
        (
            "a".into(),
            observed("a", "10.0.0.9", Some("aa:aa:aa:aa:aa:aa"), Some("host-a")),
        ),
        (
            "b".into(),
            observed("b", "10.0.0.2", Some("bb:bb:bb:bb:bb:bb"), None),
        ),
    ]);
    let integrity = ScanIntegrity::uncovered("scan", "gateway not seen");
    let out = compute_diff(prior_map, &observed, &integrity, 2);
    assert!(out
        .transitions
        .iter()
        .any(|t| t.kind == TransitionKind::New));
    assert!(out
        .transitions
        .iter()
        .any(|t| t.kind == TransitionKind::Changed));
}

#[test]
fn coverage_and_completeness_are_independent_gates() {
    let complete = ScanIntegrity::complete();
    assert!(complete.may_prove_absence());
    assert!(!ScanIntegrity::partial("s", "r").may_prove_absence());
    assert!(!ScanIntegrity::uncovered("s", "r").may_prove_absence());
}

#[test]
fn an_unstable_identity_is_never_reported_gone() {
    // A phone with a randomised MAC that stops answering may have left,
    // or may have come back wearing a different address. We cannot tell,
    // so we must not claim.
    let p = map(vec![(
        "phone".into(),
        PriorState {
            miss_streak: 1,
            identity_stable: false,
            ..prior("phone", "10.0.0.7", Some("36:93:e6:08:48:d9"), None)
        },
    )]);
    let out = compute_diff(p, &KeyMap::new(), &ScanIntegrity::complete(), 2);
    assert!(
        !out.transitions
            .iter()
            .any(|t| t.kind == TransitionKind::Gone),
        "a randomised identity must never be reported gone"
    );
    assert!(
        out.streak_updates.is_empty(),
        "nor may it accrue a miss streak toward gone"
    );
}

#[test]
fn a_stable_neighbour_is_unaffected_by_an_unstable_one() {
    // Suppression is per device, not per scan.
    let p = map(vec![
        (
            "phone".into(),
            PriorState {
                miss_streak: 1,
                identity_stable: false,
                ..prior("phone", "10.0.0.7", Some("36:93:e6:08:48:d9"), None)
            },
        ),
        (
            "nas".into(),
            PriorState {
                miss_streak: 1,
                ..prior("nas", "10.0.0.8", Some("90:48:46:10:3b:7a"), None)
            },
        ),
    ]);
    let out = compute_diff(p, &KeyMap::new(), &ScanIntegrity::complete(), 2);
    let gone: Vec<&str> = out
        .transitions
        .iter()
        .filter(|t| t.kind == TransitionKind::Gone)
        .map(|t| t.device_key.as_str())
        .collect();
    assert_eq!(gone, vec!["nas"]);
}

#[test]
fn a_new_transition_records_whether_the_identity_will_hold() {
    let observed = map(vec![(
        "phone".into(),
        ObservedState {
            identity_stable: false,
            ..observed("phone", "10.0.0.7", Some("36:93:e6:08:48:d9"), None)
        },
    )]);
    let out = compute_diff(KeyMap::new(), &observed, &ScanIntegrity::complete(), 2);
    let t = out
        .transitions
        .iter()
        .find(|t| t.kind == TransitionKind::New)
        .expect("new transition");
    assert!(
        t.unstable_identity,
        "the UI has to be able to say why this device will keep reappearing"
    );
}

#[test]
fn partial_scan_never_emits_gone() {
    for reason in ["icmp unavailable", "helper refused", "strategy error"] {
        let prior = map(vec![(
            "a".into(),
            prior("a", "10.0.0.1", Some("aa:aa:aa:aa:aa:aa"), Some("host-a")),
        )]);
        let observed: KeyMap<ObservedState> = KeyMap::new();
        let integrity = ScanIntegrity::partial("ping-sweep", reason);
        let out = compute_diff(prior, &observed, &integrity, 2);
        assert!(
            !out.transitions
                .iter()
                .any(|t| t.kind == TransitionKind::Gone),
            "partial scan ({reason}) must not emit gone"
        );
        assert!(
            out.streak_updates.is_empty(),
            "partial scan must not advance streaks"
        );
    }
}

#[test]
fn partial_scan_still_allows_new_and_changed() {
    let prior_map = map(vec![(
        "a".into(),
        prior("a", "10.0.0.1", Some("aa:aa:aa:aa:aa:aa"), Some("host-a")),
    )]);
    let observed = map(vec![
        (
            "a".into(),
            observed("a", "10.0.0.9", Some("aa:aa:aa:aa:aa:aa"), Some("host-a")),
        ),
        (
            "b".into(),
            observed("b", "10.0.0.2", Some("bb:bb:bb:bb:bb:bb"), None),
        ),
    ]);
    let out = compute_diff(prior_map, &observed, &ScanIntegrity::partial("x", "y"), 2);
    assert!(out
        .transitions
        .iter()
        .any(|t| t.kind == TransitionKind::New));
    assert!(out
        .transitions
        .iter()
        .any(|t| t.kind == TransitionKind::Changed));
}

#[test]
fn gone_is_reported_once_per_absence_however_long_it_lasts() {
    let empty: KeyMap<ObservedState> = KeyMap::new();
    let absent = |streak: i64, reported: bool| {
        map(vec![(
            "a".into(),
            PriorState {
                miss_streak: streak,
                reported_gone: reported,
                ..prior("a", "10.0.0.1", None, None)
            },
        )])
    };
    let gones = |p| {
        compute_diff(p, &empty, &ScanIntegrity::complete(), 2)
            .transitions
            .iter()
            .filter(|t| t.kind == TransitionKind::Gone)
            .count()
    };
    assert_eq!(gones(absent(1, false)), 1, "crossing grace reports once");
    for streak in [2, 3, 9] {
        assert_eq!(
            gones(absent(streak, true)),
            0,
            "streak {streak} re-reported an absence already announced"
        );
    }
}

#[test]
fn a_lowered_grace_still_reports_a_device_that_is_already_absent() {
    // Grace was 4 and the device sat at 3, unreported. The user lowers it
    // to 2. Exact-equality would step from 3 to 4 and never fire.
    let empty: KeyMap<ObservedState> = KeyMap::new();
    let p = map(vec![(
        "a".into(),
        PriorState {
            miss_streak: 3,
            reported_gone: false,
            ..prior("a", "10.0.0.1", None, None)
        },
    )]);
    assert!(compute_diff(p, &empty, &ScanIntegrity::complete(), 2)
        .transitions
        .iter()
        .any(|t| t.kind == TransitionKind::Gone));
}

#[test]
fn returning_is_announced_only_if_the_absence_was() {
    let observed = map(vec![("a".into(), observed("a", "10.0.0.1", None, None))]);
    let returned = |reported: bool| {
        let p = map(vec![(
            "a".into(),
            PriorState {
                miss_streak: 5,
                reported_gone: reported,
                ..prior("a", "10.0.0.1", None, None)
            },
        )]);
        compute_diff(p, &observed, &ScanIntegrity::complete(), 2)
            .transitions
            .iter()
            .any(|t| t.kind == TransitionKind::Returned)
    };
    assert!(returned(true), "a device we called gone came back");
    assert!(
        !returned(false),
        "a quiet spell nobody was told about is not a return"
    );
}

#[test]
fn an_announced_absence_is_cleared_when_the_device_returns() {
    let observed = map(vec![("a".into(), observed("a", "10.0.0.1", None, None))]);
    let p = map(vec![(
        "a".into(),
        PriorState {
            miss_streak: 5,
            reported_gone: true,
            ..prior("a", "10.0.0.1", None, None)
        },
    )]);
    let out = compute_diff(p, &observed, &ScanIntegrity::complete(), 2);
    assert!(
        out.streak_resets.contains(&"a".to_string()),
        "the next absence must be announceable again"
    );
}

#[test]
fn gone_requires_grace_on_complete_scans() {
    let empty: KeyMap<ObservedState> = KeyMap::new();
    // First miss: streak 1 < grace 2 → no gone yet.
    let p0 = map(vec![(
        "a".into(),
        PriorState {
            miss_streak: 0,
            ..prior("a", "10.0.0.1", None, None)
        },
    )]);
    let out1 = compute_diff(p0, &empty, &ScanIntegrity::complete(), 2);
    assert!(!out1
        .transitions
        .iter()
        .any(|t| t.kind == TransitionKind::Gone));
    assert_eq!(out1.streak_updates[0].1, 1);
    // Second consecutive miss: streak 2 == grace → gone exactly once.
    let p1 = map(vec![(
        "a".into(),
        PriorState {
            miss_streak: 1,
            ..prior("a", "10.0.0.1", None, None)
        },
    )]);
    let out2 = compute_diff(p1, &empty, &ScanIntegrity::complete(), 2);
    let gones: Vec<_> = out2
        .transitions
        .iter()
        .filter(|t| t.kind == TransitionKind::Gone)
        .collect();
    assert_eq!(gones.len(), 1);
    // Third miss: the absence was already announced, so it stays quiet.
    let p2 = map(vec![(
        "a".into(),
        PriorState {
            miss_streak: 2,
            reported_gone: true,
            ..prior("a", "10.0.0.1", None, None)
        },
    )]);
    let out3 = compute_diff(p2, &empty, &ScanIntegrity::complete(), 2);
    assert!(!out3
        .transitions
        .iter()
        .any(|t| t.kind == TransitionKind::Gone));
}

#[test]
fn partial_miss_does_not_count_toward_grace() {
    // Miss, partial miss, complete miss: only 2 real misses → gone only
    // on the scan *after* that if complete again.
    let empty: KeyMap<ObservedState> = KeyMap::new();
    let p0 = map(vec![(
        "a".into(),
        PriorState {
            miss_streak: 0,
            ..prior("a", "10.0.0.1", None, None)
        },
    )]);
    let after_complete = compute_diff(p0, &empty, &ScanIntegrity::complete(), 2).streak_updates;
    assert_eq!(after_complete[0].1, 1);
    // A partial scan leaves the streak untouched.
    let p1a = map(vec![(
        "a".into(),
        PriorState {
            miss_streak: 1,
            ..prior("a", "10.0.0.1", None, None)
        },
    )]);
    let after_partial = compute_diff(p1a, &empty, &ScanIntegrity::partial("s", "r"), 2);
    assert!(after_partial.streak_updates.is_empty());
    // Next complete miss reaches grace 2.
    let p1b = map(vec![(
        "a".into(),
        PriorState {
            miss_streak: 1,
            ..prior("a", "10.0.0.1", None, None)
        },
    )]);
    let out = compute_diff(p1b, &empty, &ScanIntegrity::complete(), 2);
    assert!(out
        .transitions
        .iter()
        .any(|t| t.kind == TransitionKind::Gone));
}

#[test]
fn field_changes_detected() {
    let p = map(vec![(
        "a".into(),
        prior("a", "10.0.0.1", Some("aa:aa:aa:aa:aa:aa"), Some("old-name")),
    )]);
    let observed = map(vec![(
        "a".into(),
        observed("a", "10.0.0.2", Some("aa:aa:aa:aa:aa:ab"), Some("new-name")),
    )]);
    let out = compute_diff(p, &observed, &ScanIntegrity::complete(), 2);
    let t = out
        .transitions
        .iter()
        .find(|t| t.kind == TransitionKind::Changed)
        .unwrap();
    let fields: Vec<&str> = t.changes.iter().map(|c| c.field.as_str()).collect();
    assert!(fields.contains(&"ip"));
    assert!(fields.contains(&"hostname"));
    assert!(fields.contains(&"mac"));
}

#[test]
fn transitions_come_in_the_order_of_what_was_observed() {
    let prior_map = map(vec![(
        "a".into(),
        PriorState {
            reported_gone: true,
            miss_streak: 4,
            ..prior("a", "10.0.0.1", None, Some("old"))
        },
    )]);
    let observed_map = map(vec![
        ("b".into(), observed("b", "10.0.0.2", None, None)),
        ("a".into(), observed("a", "10.0.0.1", None, Some("new"))),
    ]);
    let out = compute_diff(prior_map, &observed_map, &ScanIntegrity::complete(), 2);
    let kinds: Vec<(&str, TransitionKind)> = out
        .transitions
        .iter()
        .map(|t| (t.device_key.as_str(), t.kind))
        .collect();
    assert_eq!(
        kinds,
        vec![
            ("b", TransitionKind::New),
            ("a", TransitionKind::Changed),
            ("a", TransitionKind::Returned)
        ]
    );
    assert_eq!(out.streak_resets, vec!["b", "a"]);
    assert!(out.gone_marks.is_empty());
}

#[test]
fn gone_marks_are_those_reported() {
    let prior_map = map(vec![
        ("a".into(), PriorState { miss_streak: 1, ..prior("a", "10.0.0.1", None, None) }),
        ("b".into(), prior("b", "10.0.0.2", None, None)),
    ]);
    let out = compute_diff(prior_map, &KeyMap::new(), &ScanIntegrity::complete(), 2);
    assert_eq!(out.gone_marks, vec!["a"]);
    assert_eq!(out.streak_updates, vec![("a".to_string(), 2), ("b".to_string(), 1)]);
    assert_eq!(out.transitions[0].device_display, "dev-a");
}

#[test]
fn a_map_keeps_keys_once_and_in_order() {
    let mut m: KeyMap<String> = KeyMap::new();
    m.insert("x".to_string(), "1".to_string());
    m.insert("y".to_string(), "2".to_string());
    m.insert("x".to_string(), "3".to_string());
    assert_eq!(m.len(), 2);
    assert_eq!(m.get("x").map(|s| s.as_str()), Some("3"));
    assert_eq!(m.entries[0].0, "x");
    assert!(!m.contains_key("z"));
}
