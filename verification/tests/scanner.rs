//! Whole scans: resolving, diffing, judging, recording.

use modern_ip_scanner::diff::ScanIntegrity;
use modern_ip_scanner::discovery::{Strategy, StrategyOutcome};
use modern_ip_scanner::identity::network_key;
use modern_ip_scanner::merge::ObservedDevice;
use modern_ip_scanner::model::{
    Capability, IfKind, Interface, Ipv4Cidr, NameSource, NeighborEntry, Observation,
    PrivilegeState, Transition, TransitionKind,
};
use modern_ip_scanner::privilege::Platform;
use modern_ip_scanner::scanner::gather::{
    absence_evidence_gap, absorb_outcome, enabled_strategies, exhaustive_ran, learn_gateway_mac,
    left_over, native_arp_usable, note_helper, pick_interface, probe_ip, require_ipv4, resolve_mac,
    select_strategies, settle_macs, should_ping_gateway, wants_helper, HelperStart,
};
use modern_ip_scanner::scanner::resolve::{resolve_and_diff, ResolvedScan};
use modern_ip_scanner::scanner::run::{Action, Scan, Stage};
use modern_ip_scanner::scanner::{
    assess, finish_scan, finish_scan_at, gap_message, interface_message, network_message,
    observed_message, Gathered, Moments, ScanError, ScanOptions,
};
use modern_ip_scanner::store::{Store, StoreError};

fn obs(ip: &str) -> Observation {
    Observation {
        ip: ip.into(),
        mac: None,
        name: None,
        vendor: None,
        source: "test".into(),
        confidence: 90,
    }
}

fn ips(list: &[&str]) -> Vec<String> {
    list.iter().map(|s| s.to_string()).collect()
}

fn tmp_store() -> Store {
    Store::new()
}

fn seen(ip: &str, mac: Option<&str>, name: Option<&str>) -> ObservedDevice {
    ObservedDevice {
        ips: vec![ip.to_string()],
        mac: mac.map(|m| m.to_string()),
        name: name.map(|n| n.to_string()),
        name_source: name.map(|_| NameSource::Mdns),
        vendor: None,
        sources: vec!["test".into()],
        confidence: 90,
    }
}

/// Run one scan's worth of resolve+diff and commit presence, the way
/// run_scan does.
fn scan_once(
    store: &mut Store,
    devices: &Vec<ObservedDevice>,
    net: &str,
) -> Vec<Transition> {
    let ResolvedScan {
        observed, outcome, ..
    } = resolve_and_diff(store, devices, net, &ScanIntegrity::complete(), 2).unwrap();
    for key in &outcome.streak_resets {
        let ip = observed.get(key).map(|s| s.ip.clone());
        store.upsert_presence(key, net, ip.as_deref()).unwrap();
    }
    for (key, _) in &outcome.streak_updates {
        store.bump_miss_streak(key, net).unwrap();
    }
    for key in &outcome.gone_marks {
        let mut tx = store.begin().unwrap();
        Store::mark_reported_gone_tx(&mut tx, key, net).unwrap();
        store.commit(tx).unwrap();
    }
    outcome.transitions
}

fn changed_fields(transitions: &[Transition]) -> Vec<(String, Option<String>, Option<String>)> {
    transitions
        .iter()
        .filter(|t| t.kind == TransitionKind::Changed)
        .flat_map(|t| t.changes.iter().cloned())
        .map(|c| (c.field, c.from, c.to))
        .collect()
}

#[test]
fn a_randomised_mac_device_is_never_reported_gone() {
    // A phone with a private Wi-Fi address alongside a NAS with a real
    // vendor OUI. Both stop answering; only one of them can honestly be
    // called gone, because only one of them can be recognised if it
    // comes back.
    let mut store = tmp_store();
    store
        .upsert_network("net1", Some("10.0.0.0/24"), None)
        .unwrap();
    let first = scan_once(
        &mut store,
        &vec![
            seen("10.0.0.7", Some("36:93:e6:08:48:d9"), None),
            seen("10.0.0.8", Some("90:48:46:10:3b:7a"), None),
        ],
        "net1",
    );
    assert_eq!(first.len(), 2, "both are recorded");
    let phone = first
        .iter()
        .find(|t| t.device_display == "36:93:e6:08:48:d9")
        .unwrap();
    assert!(
        phone.unstable_identity,
        "the randomised device must be flagged so the UI can explain it"
    );

    // Two consecutive complete scans with neither present reaches grace.
    scan_once(&mut store, &vec![], "net1");
    let second = scan_once(&mut store, &vec![], "net1");
    let gone: Vec<&str> = second
        .iter()
        .filter(|t| t.kind == TransitionKind::Gone)
        .map(|t| t.device_display.as_str())
        .collect();
    assert_eq!(
        gone,
        vec!["90:48:46:10:3b:7a"],
        "only the device whose identity would survive a return"
    );
}

#[test]
fn a_randomised_device_that_announces_a_name_becomes_trackable() {
    // Naming is the escape hatch: a name is matchable across rotations,
    // so the device stops being ephemeral and can be reported gone.
    let mut store = tmp_store();
    store
        .upsert_network("net1", Some("10.0.0.0/24"), None)
        .unwrap();
    let first = scan_once(
        &mut store,
        &vec![seen(
            "10.0.0.7",
            Some("36:93:e6:08:48:d9"),
            Some("my-phone"),
        )],
        "net1",
    );
    assert!(
        !first[0].unstable_identity,
        "a name outlives the MAC that carried it"
    );
    scan_once(&mut store, &vec![], "net1");
    let second = scan_once(&mut store, &vec![], "net1");
    assert!(second.iter().any(|t| t.kind == TransitionKind::Gone));
}

#[test]
fn a_new_mac_on_a_known_device_is_reported_as_changed() {
    // The scan updates the device row before diffing, so without an
    // explicit pre-scan snapshot this compares the new MAC against itself
    // and reports nothing.
    let mut store = tmp_store();
    store
        .upsert_network("net1", Some("10.0.0.0/24"), None)
        .unwrap();

    let first = scan_once(
        &mut store,
        &vec![seen("10.0.0.5", Some("aa:aa:aa:aa:aa:aa"), Some("printer"))],
        "net1",
    );
    assert!(first.iter().any(|t| t.kind == TransitionKind::New));

    let second = scan_once(
        &mut store,
        &vec![seen("10.0.0.5", Some("bb:bb:bb:bb:bb:bb"), Some("printer"))],
        "net1",
    );
    assert_eq!(
        changed_fields(&second),
        vec![(
            "mac".to_string(),
            Some("aa:aa:aa:aa:aa:aa".to_string()),
            Some("bb:bb:bb:bb:bb:bb".to_string())
        )],
        "a device that changed its MAC must be reported as changed"
    );
}

#[test]
fn a_new_hostname_on_a_known_device_is_reported_as_changed() {
    let mut store = tmp_store();
    store
        .upsert_network("net1", Some("10.0.0.0/24"), None)
        .unwrap();
    scan_once(
        &mut store,
        &vec![seen(
            "10.0.0.5",
            Some("aa:aa:aa:aa:aa:aa"),
            Some("old-name"),
        )],
        "net1",
    );
    let second = scan_once(
        &mut store,
        &vec![seen(
            "10.0.0.5",
            Some("aa:aa:aa:aa:aa:aa"),
            Some("new-name"),
        )],
        "net1",
    );
    assert_eq!(
        changed_fields(&second),
        vec![(
            "hostname".to_string(),
            Some("old-name".to_string()),
            Some("new-name".to_string())
        )]
    );
}

#[test]
fn an_unchanged_device_is_reported_repeatedly_as_nothing() {
    let mut store = tmp_store();
    store
        .upsert_network("net1", Some("10.0.0.0/24"), None)
        .unwrap();
    let d = vec![seen("10.0.0.5", Some("aa:aa:aa:aa:aa:aa"), Some("printer"))];
    scan_once(&mut store, &d, "net1");
    for round in 0..3 {
        let t = scan_once(&mut store, &d, "net1");
        assert!(t.is_empty(), "round {round} produced spurious {t:?}");
    }
}

#[test]
fn a_field_we_did_not_observe_is_not_a_change() {
    // mDNS answers on one scan and not the next. Silence about a name is
    // not the same as the name going away -- the same principle as the
    // integrity rule, applied per field.
    let mut store = tmp_store();
    store
        .upsert_network("net1", Some("10.0.0.0/24"), None)
        .unwrap();
    scan_once(
        &mut store,
        &vec![seen("10.0.0.5", Some("aa:aa:aa:aa:aa:aa"), Some("printer"))],
        "net1",
    );
    let second = scan_once(
        &mut store,
        &vec![seen("10.0.0.5", Some("aa:aa:aa:aa:aa:aa"), None)],
        "net1",
    );
    assert!(
        changed_fields(&second).is_empty(),
        "not hearing a name must not be reported as losing it, got {:?}",
        changed_fields(&second)
    );
}

#[test]
fn absence_needs_a_strategy_that_sweeps_every_address() {
    let gap = absence_evidence_gap(&vec![], Some("192.168.1.254"), &ips(&["192.168.1.254"]));
    assert!(
        gap.is_some(),
        "presence-only strategies cannot prove a device is gone"
    );
}

#[test]
fn absence_needs_the_gateway_to_have_answered() {
    // The classic false-gone: Wi-Fi drops mid-scan, the sweep completes
    // with zero replies, and every device looks gone.
    let gap = absence_evidence_gap(&vec!["arp-ping".into()], Some("192.168.1.254"), &ips(&[]));
    assert!(
        gap.is_some(),
        "a sweep that could not even reach the gateway proves nothing"
    );
}

#[test]
fn a_covered_scan_has_no_evidence_gap() {
    let gap = absence_evidence_gap(
        &vec!["arp-ping".into()],
        Some("192.168.1.254"),
        &ips(&["192.168.1.254", "192.168.1.5"]),
    );
    assert!(gap.is_none());
}

#[test]
fn without_a_gateway_seeing_anything_at_all_is_the_anchor() {
    // An isolated segment has no gateway; fall back to "the sweep saw
    // something", which still rules out a dead link.
    assert!(absence_evidence_gap(&vec!["arp-ping".into()], None, &ips(&[])).is_some());
    assert!(absence_evidence_gap(&vec!["arp-ping".into()], None, &ips(&["10.0.0.9"])).is_none());
}

#[test]
fn a_failing_strategy_still_contributes_what_it_saw() {
    // arp-ping reports "prefix too large" *after* sweeping what it could;
    // throwing that away loses real devices and suppresses `new`.
    let outcome = StrategyOutcome {
        observations: vec![obs("10.0.0.5"), obs("10.0.0.6")],
        problem: Some("prefix too large for exhaustive sweep".into()),
    };
    let mut observations = Vec::new();
    let mut problems = Vec::new();
    absorb_outcome("arp-ping", outcome, &mut observations, &mut problems);

    assert_eq!(
        observations.len(),
        2,
        "evidence must survive; the problem only costs completeness"
    );
    assert_eq!(problems.len(), 1, "the scan must still be marked partial");
    assert_eq!(problems[0].strategy, "arp-ping");
}

#[test]
fn a_clean_strategy_contributes_observations_and_no_problem() {
    let outcome = StrategyOutcome::ok(vec![obs("10.0.0.7")]);
    let mut observations = Vec::new();
    let mut problems = Vec::new();
    absorb_outcome("arp-cache", outcome, &mut observations, &mut problems);
    assert_eq!(observations.len(), 1);
    assert!(problems.is_empty());
}

fn iface() -> Interface {
    Interface {
        name: "eth0".into(),
        description: None,
        mac: None,
        ipv4: vec![Ipv4Cidr { addr: "10.0.0.2".into(), prefix: 24 }],
        ipv6: vec![],
        gateway_v4: Some("10.0.0.1".into()),
        gateway_mac: None,
        index: 1,
        kind: IfKind::Ethernet,
        up: true,
    }
}

fn neighbor(ip: &str, mac: &str) -> NeighborEntry {
    NeighborEntry { ip: ip.into(), mac: mac.into(), interface_index: 1, reachable: true }
}

/// Run the strategies of a scan with given observations for the sweep, and
/// conclude it.
fn whole_scan(
    store: &mut Store,
    ids: Vec<&str>,
    swept: Vec<Observation>,
    at: i64,
) -> modern_ip_scanner::model::ScanReport {
    let options = ScanOptions {
        strategies: Some(ids.iter().map(|s| s.to_string()).collect()),
        use_helper: false,
    };
    let mut scan = Scan::begin_at(store, &options, iface(), at, at).unwrap();
    let neighbors: Vec<NeighborEntry> = vec![];
    let mut swept = Some(swept);
    loop {
        match scan.action(&neighbors) {
            Action::Run { strategies, .. } => {
                let mut outcomes = vec![];
                for s in &strategies {
                    if s.id() == "arp-ping" {
                        outcomes.push(StrategyOutcome::ok(swept.take().unwrap_or_default()));
                    } else {
                        outcomes.push(StrategyOutcome::ok(vec![]));
                    }
                }
                scan.wave_done(outcomes);
            }
            Action::Recheck => scan.rechecked(&neighbors),
            Action::Finish => break,
        }
    }
    let g = scan.into_gathered("{}".to_string());
    let a = assess(&g);
    let moments = Moments { resolved_at: at + 1, finished_at: at + 2, pruned_at: at + 3 };
    finish_scan_at(store, &g, &a, moments).unwrap()
}

fn arp(ip: &str, mac: &str) -> Observation {
    Observation {
        ip: ip.into(),
        mac: Some(mac.into()),
        name: None,
        vendor: None,
        source: "arp-ping".into(),
        confidence: 95,
    }
}

#[test]
fn a_scan_reports_new_then_gone_then_returned() {
    let mut store = tmp_store();
    let gw = || arp("10.0.0.1", "90:48:46:10:3b:01");
    let nas = || arp("10.0.0.8", "90:48:46:10:3b:7a");
    let first = whole_scan(&mut store, vec!["arp-ping"], vec![gw(), nas()], 100);
    assert_eq!(first.scan_id, 1);
    assert!(!first.partial);
    assert_eq!(first.devices_seen, 2);
    assert_eq!(first.transitions.len(), 2);
    assert_eq!(first.strategies_run, vec!["arp-ping"]);
    assert_eq!((first.started_at, first.finished_at), (100, 102));

    let second = whole_scan(&mut store, vec!["arp-ping"], vec![gw()], 200);
    assert!(second.transitions.is_empty(), "one miss is within the grace period");
    let third = whole_scan(&mut store, vec!["arp-ping"], vec![gw()], 300);
    assert_eq!(third.transitions.len(), 1);
    assert_eq!(third.transitions[0].kind, TransitionKind::Gone);
    assert_eq!(store.gone_transitions_for_scan(3).unwrap().len(), 1);
    let fourth = whole_scan(&mut store, vec!["arp-ping"], vec![gw()], 400);
    assert!(fourth.transitions.is_empty(), "an absence is announced once");
    let fifth = whole_scan(&mut store, vec!["arp-ping"], vec![gw(), nas()], 500);
    assert_eq!(fifth.transitions.len(), 1);
    assert_eq!(fifth.transitions[0].kind, TransitionKind::Returned);

    assert_eq!(store.scans.len(), 5);
    assert_eq!(store.scans[0].stats_json, "{\"devices_seen\":2,\"raw_observations\":2}");
    assert_eq!(store.scan_summary(1).unwrap().unwrap().strategies, vec!["arp-ping"]);
    assert_eq!(store.observations.len(), 7);
    assert_eq!(store.observations[0].source, "arp-ping");
    assert_eq!(store.list_networks().unwrap()[0].device_count, 2);
}

#[test]
fn a_scan_that_missed_the_gateway_reports_nothing_gone() {
    let mut store = tmp_store();
    let gw = || arp("10.0.0.1", "90:48:46:10:3b:01");
    let nas = || arp("10.0.0.8", "90:48:46:10:3b:7a");
    whole_scan(&mut store, vec!["arp-ping"], vec![gw(), nas()], 100);
    for round in 0..5 {
        let r = whole_scan(&mut store, vec!["arp-ping"], vec![], 200 + round);
        assert!(r.partial);
        assert!(r.transitions.is_empty());
        assert_eq!(r.partial_reasons.len(), 1);
        assert_eq!(r.partial_reasons[0].strategy, "arp-ping");
        assert_eq!(
            r.partial_reasons[0].reason,
            "the sweep did not see the gateway 10.0.0.1, so the link — not the network — is what changed"
        );
    }
    assert!(store.presence.iter().all(|p| p.miss_streak == 0 && !p.reported_gone));
    let r = whole_scan(&mut store, vec!["mdns"], vec![], 300);
    assert!(r.partial, "presence-only strategies prove nothing");
    assert_eq!(r.partial_reasons[0].strategy, "scan");
}

#[test]
fn a_scan_that_cannot_be_recorded_leaves_no_trace() {
    let mut store = tmp_store();
    store.scan_seq = i64::MAX;
    let g = Gathered {
        started_at: 1,
        iface: iface(),
        network_key: "n".into(),
        strategies: vec![],
        strategies_run: vec![],
        observations: vec![arp("10.0.0.8", "90:48:46:10:3b:7a")],
        problems: vec![],
        privilege_json: "{}".into(),
        grace: 2,
    };
    let a = assess(&g);
    let e = finish_scan(&mut store, &g, &a).unwrap_err();
    assert_eq!(e.message(), "store error: database error: no id is left for another row");
    assert!(store.scans.is_empty());
    assert!(store.observations.is_empty());
    assert!(store.transitions.is_empty());
    assert!(store.presence.is_empty());
}

#[test]
fn a_problem_costs_a_sweep_its_testimony() {
    let strategies = select_strategies(&vec!["arp-ping".to_string(), "mdns".to_string()]);
    let ids: Vec<&str> = strategies.iter().map(|s| s.id()).collect();
    assert_eq!(ids, vec!["mdns", "arp-ping"], "in registration order");
    let run = vec!["mdns".to_string(), "arp-ping".to_string()];
    assert_eq!(exhaustive_ran(&strategies, &run, &vec![]), vec!["arp-ping"]);
    let mut observations = vec![];
    let mut problems = vec![];
    absorb_outcome(
        "arp-ping",
        StrategyOutcome::failed("no".to_string()),
        &mut observations,
        &mut problems,
    );
    assert!(exhaustive_ran(&strategies, &run, &problems).is_empty());
    assert!(exhaustive_ran(&strategies, &vec![], &vec![]).is_empty());
}

#[test]
fn the_strategies_are_those_asked_for_or_those_of_the_setting() {
    let mut store = tmp_store();
    assert_eq!(enabled_strategies(&None, &store).len(), 6);
    assert_eq!(
        enabled_strategies(&Some(vec!["mdns".to_string()]), &store),
        vec!["mdns"]
    );
    store.set_setting("enabled_strategies", "[\"ssdp\", \"nonsense\"]").unwrap();
    let enabled = enabled_strategies(&None, &store);
    assert_eq!(enabled, vec!["ssdp", "nonsense"]);
    assert_eq!(select_strategies(&enabled).len(), 1);
    store.set_setting("enabled_strategies", "broken").unwrap();
    assert!(enabled_strategies(&None, &store).is_empty());
}

#[test]
fn the_waves_follow_each_other() {
    let mut store = tmp_store();
    let options = ScanOptions::default();
    let mut here = iface();
    here.gateway_mac = Some("90:48:46:10:3b:01".to_string());
    let mut scan = Scan::begin_at(&mut store, &options, here, 1, 1).unwrap();
    assert_eq!(
        scan.gathered.network_key,
        network_key(Some("90:48:46:10:3b:01"), "10.0.0.0/24", IfKind::Ethernet)
    );
    assert_eq!(store.networks[0].subnet.as_deref(), Some("10.0.0.0/24"));
    let neighbors = vec![neighbor("10.0.0.7", "90:48:46:10:3b:07")];
    let ids = |a: &Action| -> Vec<&'static str> {
        match a {
            Action::Run { strategies, .. } => strategies.iter().map(|s| s.id()).collect(),
            _ => vec![],
        }
    };
    assert_eq!(ids(&scan.action(&neighbors)), vec!["arp-cache", "mdns", "ssdp"]);
    scan.wave_done(vec![
        StrategyOutcome::ok(vec![obs("10.0.0.9"), obs("172.16.0.1"), obs("10.0.0.10")]),
        StrategyOutcome::failed("no port".to_string()),
        StrategyOutcome::ok(vec![]),
    ]);
    assert_eq!(scan.stage, Stage::Wave(2));
    match scan.action(&neighbors) {
        Action::Run { strategies, candidates } => {
            assert_eq!(strategies.len(), 2);
            assert_eq!(candidates, vec!["10.0.0.10", "10.0.0.9", "10.0.0.7", "10.0.0.1"]);
        }
        other => panic!("{other:?}"),
    }
    scan.wave_done(vec![StrategyOutcome::ok(vec![]), StrategyOutcome::ok(vec![])]);
    assert_eq!(ids(&scan.action(&neighbors)), vec!["arp-ping"]);
    scan.wave_done(vec![StrategyOutcome::ok(vec![])]);
    assert!(matches!(scan.action(&neighbors), Action::Recheck));
    scan.rechecked(&neighbors);
    assert!(matches!(scan.action(&neighbors), Action::Finish));
    let g = scan.into_gathered("{}".to_string());
    assert_eq!(
        g.strategies_run,
        vec!["arp-cache", "mdns", "ssdp", "ping-sweep", "netbios", "arp-ping"]
    );
    assert_eq!(g.problems.len(), 1);
    assert_eq!(g.problems[0].reason, "no port");
    let last = g.observations.last().unwrap();
    assert_eq!(last.source, "neighbor-recheck");
    assert_eq!(last.confidence, 70);
    assert_eq!(last.mac.as_deref(), Some("90:48:46:10:3b:07"));
}

#[test]
fn the_gateway_is_learned_from_the_neighbor_cache() {
    let entries = vec![neighbor("10.0.0.1", "90:48:46:10:3b:01")];
    let known = learn_gateway_mac(iface(), &entries);
    assert_eq!(known.gateway_mac.as_deref(), Some("90:48:46:10:3b:01"));
    assert_eq!(learn_gateway_mac(iface(), &vec![]).gateway_mac, None);
    let mut state = PrivilegeState::default();
    assert!(!should_ping_gateway(&iface(), &vec![], &state));
    state.capabilities.push(Capability::IcmpEcho);
    assert!(should_ping_gateway(&iface(), &vec![], &state));
    assert!(!should_ping_gateway(&iface(), &entries, &state));
}

#[test]
fn the_helper_is_tried_before_it_is_trusted() {
    let mut state = PrivilegeState::default();
    assert!(wants_helper(true, &state));
    assert!(!wants_helper(false, &state));
    assert_eq!(probe_ip(&iface()), "10.0.0.1");
    let mut lonely = iface();
    lonely.gateway_v4 = None;
    assert_eq!(probe_ip(&lonely), "10.0.0.2");
    lonely.ipv4.clear();
    assert_eq!(probe_ip(&lonely), "127.0.0.1");
    note_helper(&mut state, HelperStart::Unavailable("no pkexec".to_string()));
    note_helper(&mut state, HelperStart::Failed("no reply".to_string()));
    assert_eq!(
        state.notes,
        vec!["helper unavailable: no pkexec", "helper launched but failed: no reply"]
    );
    note_helper(&mut state, HelperStart::Answered);
    assert!(state.helper_connected);
    assert!(!wants_helper(true, &state));
    assert!(native_arp_usable(&state, Platform::Windows));
    assert!(!native_arp_usable(&state, Platform::Linux));
}

#[test]
fn a_scan_needs_an_interface_with_an_address() {
    assert_eq!(pick_interface(&[iface()]).unwrap().name, "eth0");
    let e = pick_interface(&[]).unwrap_err();
    assert_eq!(e.message(), "no usable network interface found");
    let mut bare = iface();
    bare.ipv4.clear();
    let e = require_ipv4(&bare).unwrap_err();
    assert_eq!(e.message(), "interface eth0 has no IPv4 address");
    assert!(require_ipv4(&iface()).is_ok());
    assert!(matches!(ScanError::Store(StoreError::NoRow), ScanError::Store(_)));
}

#[test]
fn progress_is_told_in_words() {
    assert_eq!(interface_message(&iface()), "interface: eth0 (ethernet)");
    assert_eq!(network_message("10.0.0.0/24", "abc"), "network: 10.0.0.0/24 (key abc)");
    assert_eq!(observed_message(7, 2), "observed 7 raw facts from 2 strategies");
    let gap = absence_evidence_gap(&vec![], None, &vec![]).unwrap();
    assert!(gap_message(&gap).starts_with("cannot report devices gone: no strategy with full"));
}

#[test]
fn two_identities_that_become_one_are_not_gone() {
    let mut store = tmp_store();
    let mac = Some("90:48:46:10:3b:7a");
    scan_once(&mut store, &vec![seen("10.0.0.5", mac, None)], "net1");
    // The same device announces a name: it moves to a new key.
    let second = scan_once(&mut store, &vec![seen("10.0.0.5", mac, Some("nas"))], "net1");
    let kinds: Vec<TransitionKind> = second.iter().map(|t| t.kind).collect();
    assert_eq!(kinds, vec![TransitionKind::Changed], "neither new nor gone");
    assert_eq!(store.devices.len(), 1);
    assert_eq!(store.presence.len(), 1);
}

#[test]
fn a_mac_comes_from_the_system_then_the_helper_then_the_cache() {
    let cache = vec![neighbor("10.0.0.7", "cc")];
    let some = |s: &str| Some(s.to_string());
    assert_eq!(resolve_mac(some("aa"), some("bb"), &cache, "10.0.0.7"), some("aa"));
    assert_eq!(resolve_mac(None, some("bb"), &cache, "10.0.0.7"), some("bb"));
    assert_eq!(resolve_mac(None, None, &cache, "10.0.0.7"), some("cc"));
    assert_eq!(resolve_mac(None, None, &cache, "10.0.0.8"), None);
}

#[test]
fn a_name_survives_the_scan_in_which_its_device_moves() {
    let mut store = tmp_store();
    let mac = Some("90:48:46:10:3b:7a");
    scan_once(&mut store, &vec![seen("10.0.0.5", mac, None)], "net1");
    let old_key = store.devices[0].key.clone();
    store.set_user_name(&old_key, "My NAS", Some("attic")).unwrap();
    scan_once(&mut store, &vec![seen("10.0.0.5", mac, Some("nas"))], "net1");
    let new_key = store.devices[0].key.clone();
    assert_ne!(old_key, new_key);
    let kept = Some(("My NAS".to_string(), Some("attic".to_string())));
    assert_eq!(store.get_user_name(&old_key).unwrap(), kept);
    assert_eq!(store.get_user_name(&new_key).unwrap(), kept);
}

#[test]
fn the_helpers_answers_go_where_they_were_asked_for() {
    let some = |s: &str| Some(s.to_string());
    let ips: Vec<String> = ["10.0.0.1", "10.0.0.2", "10.0.0.3", "10.0.0.7"]
        .iter()
        .map(|s| s.to_string())
        .collect();
    let native = vec![None, some("n2"), None];
    let left = left_over(&ips, &native);
    assert_eq!(left, vec!["10.0.0.1", "10.0.0.3", "10.0.0.7"]);
    let helped = vec![some("h1"), some("h3"), None];
    let cache = vec![neighbor("10.0.0.7", "c7")];
    assert_eq!(
        settle_macs(&ips, &native, &helped, &cache),
        vec![some("h1"), some("n2"), some("h3"), some("c7")]
    );
    assert_eq!(
        settle_macs(&ips, &vec![], &vec![], &vec![]),
        vec![None, None, None, None]
    );
}
