//! The strategies there are.

use modern_ip_scanner::discovery::arp_cache::ArpCache;
use modern_ip_scanner::discovery::arp_ping::ArpPing;
use modern_ip_scanner::discovery::ping::{echo_request, echo_target, is_echo_reply};
use modern_ip_scanner::discovery::ping_sweep::PingSweep;
use modern_ip_scanner::discovery::{
    registry, strategy_ids, Coverage, ScanContext, Strategy,
};
use modern_ip_scanner::model::{Capability, IfKind, Interface, Ipv4Cidr, NeighborEntry};

fn context(addr: &str, prefix: u8, caps: Vec<Capability>, can_resolve: bool) -> ScanContext {
    ScanContext {
        iface: Interface {
            name: "test0".into(),
            description: None,
            mac: None,
            ipv4: vec![Ipv4Cidr { addr: addr.into(), prefix }],
            ipv6: vec![],
            gateway_v4: None,
            gateway_mac: None,
            index: 1,
            kind: IfKind::Ethernet,
            up: true,
        },
        candidates: vec![],
        caps,
        can_resolve,
    }
}

#[test]
fn only_an_exhaustive_sweep_can_testify_to_absence() {
    // A scan built solely from presence-only strategies must never be allowed
    // to conclude a device is gone.
    for s in registry() {
        let expected = match s.id() {
            "arp-ping" => Coverage::Exhaustive,
            _ => Coverage::PresenceOnly,
        };
        assert_eq!(s.coverage(), expected, "strategy {}", s.id());
    }
}

#[test]
fn strategies_are_registered_in_order() {
    assert_eq!(
        strategy_ids(),
        vec!["arp-cache", "mdns", "ssdp", "ping-sweep", "netbios", "arp-ping"]
    );
    let waves: Vec<u8> = registry().iter().map(|s| s.wave()).collect();
    assert_eq!(waves, vec![1, 1, 1, 2, 2, 3]);
}

#[test]
fn the_neighbor_cache_is_observed_as_far_as_it_is_on_the_link() {
    let ctx = context("10.0.0.2", 24, vec![], false);
    let entries = vec![
        NeighborEntry {
            ip: "10.0.0.5".into(),
            mac: "aa:bb:cc:dd:ee:01".into(),
            interface_index: 1,
            reachable: true,
        },
        NeighborEntry {
            ip: "10.0.0.6".into(),
            mac: "aa:bb:cc:dd:ee:02".into(),
            interface_index: 1,
            reachable: false,
        },
        NeighborEntry {
            ip: "172.16.0.1".into(),
            mac: "aa:bb:cc:dd:ee:03".into(),
            interface_index: 1,
            reachable: true,
        },
    ];
    let outcome = ArpCache.observe(&entries, &ctx.iface);
    let got: Vec<(String, u8)> = outcome
        .observations
        .iter()
        .map(|o| (o.ip.clone(), o.confidence))
        .collect();
    assert_eq!(got, vec![("10.0.0.5".to_string(), 90), ("10.0.0.6".to_string(), 50)]);
}

#[test]
fn a_sweep_needs_the_capability_and_a_resolver() {
    let e = ArpPing.plan(&context("10.0.0.2", 24, vec![], true)).unwrap_err();
    assert_eq!(e, "ARP resolution unavailable (launch with the privileged helper)");
    let caps = vec![Capability::ArpResolve];
    let e = ArpPing.plan(&context("10.0.0.2", 24, caps, false)).unwrap_err();
    assert_eq!(e, "no ARP resolver wired up");
    let caps = vec![Capability::ArpResolve];
    let e = ArpPing.plan(&context("10.0.0.2", 8, caps, true)).unwrap_err();
    assert_eq!(e, "on-link prefix larger than /20 not swept");
    let caps = vec![Capability::ArpResolve];
    let e = ArpPing.plan(&context("nowhere", 24, caps, true)).unwrap_err();
    assert_eq!(e, "no on-link prefix to sweep");
}

#[test]
fn a_sweep_covers_the_prefix_but_for_ourselves_and_the_broadcast() {
    let ctx = context("10.0.0.2", 29, vec![Capability::ArpResolve], true);
    let sweep = ArpPing.plan(&ctx).unwrap();
    assert_eq!(sweep.ips, vec!["10.0.0.1", "10.0.0.3", "10.0.0.4", "10.0.0.5", "10.0.0.6"]);
    assert!(!sweep.oversized);
    let macs = vec![None, Some("aa:bb:cc:dd:ee:01".to_string()), None, None, None];
    let outcome = ArpPing.report(&sweep, &macs);
    assert_eq!(outcome.observations.len(), 1);
    assert_eq!(outcome.observations[0].ip, "10.0.0.3");
    assert_eq!(outcome.observations[0].confidence, 95);
    assert!(outcome.problem.is_none());
}

#[test]
fn an_oversized_prefix_costs_the_sweep_its_completeness_only() {
    let mut ctx = context("10.0.0.2", 30, vec![Capability::ArpResolve], true);
    ctx.iface.ipv4.push(Ipv4Cidr { addr: "172.16.0.1".into(), prefix: 12 });
    let sweep = ArpPing.plan(&ctx).unwrap();
    assert_eq!(sweep.ips, vec!["10.0.0.1"]);
    let outcome = ArpPing.report(&sweep, &vec![Some("aa:bb:cc:dd:ee:01".to_string())]);
    assert_eq!(outcome.observations.len(), 1);
    assert_eq!(
        outcome.problem.as_deref(),
        Some("prefix too large for exhaustive sweep")
    );
}

#[test]
fn primers_are_probed_but_never_reported() {
    let e = PingSweep.plan(&context("10.0.0.2", 30, vec![], false)).unwrap_err();
    assert_eq!(e, "ICMP echo unavailable unprivileged on this system (helper enables it)");
    let ctx = context("10.0.0.2", 30, vec![Capability::IcmpEcho], false);
    let probes = PingSweep.plan(&ctx).unwrap();
    let ips: Vec<&str> = probes.iter().map(|p| p.ip.as_str()).collect();
    assert_eq!(ips, vec!["10.0.0.3", "10.0.0.1"]);
    let outcome = PingSweep.report(&probes, &vec![true, true]);
    assert_eq!(outcome.observations.len(), 1);
    assert_eq!(outcome.observations[0].ip, "10.0.0.1");
    assert_eq!(outcome.observations[0].confidence, 85);
}

#[test]
fn an_echo_goes_to_a_plain_address_and_is_answered_by_a_reply() {
    assert_eq!(echo_target("127.0.0.1"), Some(0x7F00_0001));
    assert_eq!(echo_target(" 127.0.0.1"), None);
    assert_eq!(echo_target("::1"), None);
    assert_eq!(echo_request(), vec![8, 0, 0, 0, 0, 0, 0, 0]);
    assert!(is_echo_reply(&[0, 0, 1, 2, 3, 4, 5, 6]));
    assert!(!is_echo_reply(&[8, 0, 1, 2, 3, 4, 5, 6]));
    assert!(!is_echo_reply(&[0, 0, 1]));
}
