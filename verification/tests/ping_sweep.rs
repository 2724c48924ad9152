//! Which addresses a ping sweep probes.

use modern_ip_scanner::discovery::ping_sweep::{plan_sweep, SweepPlan};
use modern_ip_scanner::model::{IfKind, Interface, Ipv4Cidr};

fn iface_with_ipv4(addr: &str, prefix: u8) -> Interface {
    Interface {
        name: "test".into(),
        description: None,
        mac: None,
        ipv4: vec![Ipv4Cidr { addr: addr.into(), prefix }],
        ipv6: vec![],
        gateway_v4: None,
        gateway_mac: None,
        index: 1,
        kind: IfKind::Ethernet,
        up: true,
    }
}

fn plan(candidates: &[&str], addr: &str, prefix: u8, gateway: Option<&str>) -> SweepPlan {
    let mut iface = iface_with_ipv4(addr, prefix);
    iface.gateway_v4 = gateway.map(|g| g.to_string());
    let owned: Vec<String> = candidates.iter().map(|c| c.to_string()).collect();
    plan_sweep(&owned, &iface)
}

#[test]
fn broadcast_is_primed_but_never_a_target() {
    let p = plan(&[], "192.168.1.120", 24, Some("192.168.1.254"));
    assert!(
        p.primers.contains(&"192.168.1.255".to_string()),
        "the directed broadcast is what makes silent hosts populate the ARP cache"
    );
    assert!(
        !p.targets.contains(&"192.168.1.255".to_string()),
        "a reply from the broadcast address is not a device"
    );
}

#[test]
fn our_own_address_is_never_probed() {
    let p = plan(&["192.168.1.120"], "192.168.1.120", 24, None);
    assert!(!p.targets.contains(&"192.168.1.120".to_string()));
    assert!(!p.primers.contains(&"192.168.1.120".to_string()));
}

#[test]
fn the_network_address_is_never_probed() {
    let p = plan(&["192.168.1.0"], "192.168.1.120", 24, None);
    assert!(!p.targets.contains(&"192.168.1.0".to_string()));
}

#[test]
fn the_gateway_is_always_a_target() {
    let p = plan(&[], "192.168.1.120", 24, Some("192.168.1.254"));
    assert!(p.targets.contains(&"192.168.1.254".to_string()));
}

#[test]
fn candidates_from_earlier_waves_are_kept() {
    let p = plan(&["192.168.1.77"], "192.168.1.120", 24, None);
    assert!(p.targets.contains(&"192.168.1.77".to_string()));
}

#[test]
fn off_link_candidates_are_dropped() {
    let p = plan(&["10.9.9.9"], "192.168.1.120", 24, None);
    assert!(!p.targets.contains(&"10.9.9.9".to_string()));
}

#[test]
fn conventional_infrastructure_addresses_are_probed() {
    // Without this, a scan of a fresh network with a cold ARP cache has
    // nothing to probe but the gateway.
    let p = plan(&[], "192.168.1.120", 24, None);
    for expected in ["192.168.1.1", "192.168.1.2", "192.168.1.10"] {
        assert!(
            p.targets.contains(&expected.to_string()),
            "{expected} should be probed as an infrastructure heuristic"
        );
    }
    assert!(
        p.targets.contains(&"192.168.1.254".to_string()),
        "the last usable address is a conventional router address"
    );
}

#[test]
fn heuristics_stay_inside_a_small_prefix() {
    // 10.0.0.0/30: usable hosts are .1 and .2 only.
    let p = plan(&[], "10.0.0.1", 30, None);
    assert_eq!(p.targets, vec!["10.0.0.2".to_string()]);
    assert_eq!(p.primers, vec!["10.0.0.3".to_string()]);
}

#[test]
fn targets_are_deduplicated_and_deterministic() {
    let p = plan(
        &["192.168.1.1", "192.168.1.1", "192.168.1.5"],
        "192.168.1.120",
        24,
        Some("192.168.1.1"),
    );
    assert!(!p.targets.is_empty());
    let mut uniq = p.targets.clone();
    uniq.sort();
    uniq.dedup();
    assert_eq!(uniq.len(), p.targets.len(), "no duplicate probes");

    let again = plan(
        &["192.168.1.1", "192.168.1.1", "192.168.1.5"],
        "192.168.1.120",
        24,
        Some("192.168.1.1"),
    );
    assert_eq!(p.targets, again.targets, "order must be stable across runs");
}
