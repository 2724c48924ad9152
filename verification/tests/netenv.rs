//! Which interface is scanned, and what the system's tables say.

use modern_ip_scanner::model::{IfKind, Interface, Ipv4Cidr};
use modern_ip_scanner::netenv::linux::{
    assemble, count_ones, format_ipv6, interface_is_up, interface_kind, link_names,
    parse_neighbors, parse_routes, swap_bytes, LinkAddress, LinkEntry,
};
use modern_ip_scanner::netenv::win::{
    if_kind, parse_adapters, row_to_entry, Adapter, NeighborRow, NeighborState, SocketAddress,
    Unicast,
};
use modern_ip_scanner::netenv::{default_interface, lookup_mac, neighbors_for};

fn iface(name: &str, addr: &str, kind: IfKind, gateway: Option<&str>, up: bool) -> Interface {
    Interface {
        name: name.into(),
        description: None,
        mac: None,
        ipv4: vec![Ipv4Cidr {
            addr: addr.into(),
            prefix: 24,
        }],
        ipv6: vec![],
        gateway_v4: gateway.map(|g| g.to_string()),
        gateway_mac: None,
        index: 1,
        kind,
        up,
    }
}

#[test]
fn a_gateway_outranks_a_better_looking_interface_without_one() {
    // The real shape of a dev machine: Wi-Fi carries the gateway while a
    // WSL or Docker bridge presents as plain Ethernet.
    let ifaces = vec![
        iface(
            "vEthernet (WSL)",
            "172.29.64.1",
            IfKind::Ethernet,
            None,
            true,
        ),
        iface(
            "Wi-Fi",
            "192.168.1.120",
            IfKind::Wireless,
            Some("192.168.1.254"),
            true,
        ),
    ];
    assert_eq!(default_interface(&ifaces).unwrap().name, "Wi-Fi");
}

#[test]
fn a_disconnected_adapter_is_not_a_candidate() {
    // A NIC that is down keeps its address and can even keep a stale
    // gateway; scanning it scans nothing.
    let ifaces = vec![
        iface(
            "Ethernet 2",
            "10.0.0.5",
            IfKind::Ethernet,
            Some("10.0.0.1"),
            false,
        ),
        iface(
            "Wi-Fi",
            "192.168.1.120",
            IfKind::Wireless,
            Some("192.168.1.254"),
            true,
        ),
    ];
    assert_eq!(default_interface(&ifaces).unwrap().name, "Wi-Fi");
}

#[test]
fn an_apipa_only_adapter_is_not_a_candidate() {
    // 169.254/16 means no lease. Scanning it would sweep a /16 of nothing.
    let ifaces = vec![
        iface("Bluetooth", "169.254.252.230", IfKind::Ethernet, None, true),
        iface(
            "Wi-Fi",
            "192.168.1.120",
            IfKind::Wireless,
            Some("192.168.1.254"),
            true,
        ),
    ];
    assert_eq!(default_interface(&ifaces).unwrap().name, "Wi-Fi");
}

#[test]
fn loopback_is_never_scanned() {
    let ifaces = vec![iface("lo", "127.0.0.1", IfKind::Loopback, None, true)];
    assert!(default_interface(&ifaces).is_none());
}

#[test]
fn ethernet_wins_over_wireless_when_both_are_really_connected() {
    let ifaces = vec![
        iface(
            "Wi-Fi",
            "192.168.1.120",
            IfKind::Wireless,
            Some("192.168.1.254"),
            true,
        ),
        iface(
            "Ethernet",
            "10.0.0.5",
            IfKind::Ethernet,
            Some("10.0.0.1"),
            true,
        ),
    ];
    assert_eq!(default_interface(&ifaces).unwrap().name, "Ethernet");
}

#[test]
fn nothing_usable_yields_nothing() {
    assert!(default_interface(&[]).is_none());
    let down = vec![iface(
        "eth0",
        "10.0.0.5",
        IfKind::Ethernet,
        Some("10.0.0.1"),
        false,
    )];
    assert!(default_interface(&down).is_none());
}

#[test]
fn the_last_of_equals_is_chosen() {
    let ifaces = vec![
        iface("eth0", "10.0.0.5", IfKind::Ethernet, Some("10.0.0.1"), true),
        iface("eth1", "10.0.1.5", IfKind::Ethernet, Some("10.0.1.1"), true),
    ];
    assert_eq!(default_interface(&ifaces).unwrap().name, "eth1");
}

const ARP: &str = "IP address       HW type     Flags       HW address            Mask     Device\n\
10.0.0.1         0x1         0x2         90:48:46:10:3b:7a     *        eth0\n\
10.0.0.9         0x1         0x0         00:00:00:00:00:00     *        eth0\n\
10.0.0.7         0x1         0x0         AA:BB:CC:DD:EE:01     *        eth0\n\
garbage\n";

#[test]
fn the_neighbor_table_is_read() {
    let link = |name: &str, index: u32| LinkEntry {
        name: name.to_string(),
        index,
        address: LinkAddress::Other,
    };
    let links = vec![link("lo", 1), link("eth0", 4), link("eth0", 9)];
    let entries = parse_neighbors(ARP, &links);
    assert_eq!(entries.len(), 2, "an all-zero address is no identity");
    assert_eq!(entries[0].ip, "10.0.0.1");
    assert_eq!(entries[0].mac, "90:48:46:10:3b:7a");
    assert!(entries[0].reachable);
    assert_eq!(entries[0].interface_index, 4);
    assert_eq!(parse_neighbors(ARP, &vec![link("wlan0", 3)])[0].interface_index, 0);
    assert_eq!(entries[1].mac, "aa:bb:cc:dd:ee:01");
    assert!(!entries[1].reachable, "an incomplete entry");
    assert_eq!(lookup_mac(&entries, "10.0.0.7").as_deref(), Some("aa:bb:cc:dd:ee:01"));
    assert_eq!(lookup_mac(&entries, "10.0.0.8"), None);
    let here = iface("eth0", "10.0.0.5", IfKind::Ethernet, None, true);
    assert_eq!(neighbors_for(entries, &here).len(), 2);
    assert!(parse_neighbors("", &links).is_empty());
}

const ROUTES: &str = "Iface\tDestination\tGateway \tFlags\n\
eth0\t00000000\t0100000A\t0003\n\
eth0\t0000000A\t00000000\t0001\n\
wlan0\t00000000\tzz\t0003\n";

#[test]
fn default_routes_are_read() {
    let routes = parse_routes(ROUTES);
    assert_eq!(routes.len(), 1);
    assert_eq!(routes[0].iface, "eth0");
    assert_eq!(routes[0].gateway, 0x0A00_0001);
    assert_eq!(swap_bytes(0x0102_0304), 0x0403_0201);
}

#[test]
fn interfaces_are_put_together() {
    let entry = |name: &str, address: LinkAddress| LinkEntry {
        name: name.to_string(),
        index: name.len() as u32,
        address,
    };
    let entries = vec![
        entry("wlan0", LinkAddress::Hardware(vec![2, 0, 0, 0, 0, 1])),
        entry("lo", LinkAddress::V4 { addr: 0x7F00_0001, mask: Some(0xFF00_0000) }),
        entry("eth0", LinkAddress::V4 { addr: 0x0A00_0005, mask: Some(0xFFFF_FF00) }),
        entry("eth0", LinkAddress::V6(vec![0xfe, 0x80, 0, 0, 0, 0, 0, 0, 0, 0, 0, 0, 0, 0, 0, 1])),
        entry("eth0", LinkAddress::V4 { addr: 0x0A00_0105, mask: None }),
        entry("dummy0", LinkAddress::Other),
    ];
    assert_eq!(link_names(&entries), vec!["dummy0", "eth0", "lo", "wlan0"]);
    let states = vec![
        None,
        Some("up\n".to_string()),
        Some("down\n".to_string()),
        Some("down\n".to_string()),
    ];
    let ifaces = assemble(&entries, &parse_routes(ROUTES), &states);
    let names: Vec<&str> = ifaces.iter().map(|i| i.name.as_str()).collect();
    assert_eq!(names, vec!["eth0", "lo", "wlan0"], "one with no address at all is left out");
    let eth = &ifaces[0];
    assert_eq!(eth.kind, IfKind::Ethernet);
    assert!(eth.up);
    assert_eq!(eth.gateway_v4.as_deref(), Some("10.0.0.1"));
    assert_eq!(eth.ipv4.len(), 2);
    assert_eq!((eth.ipv4[0].addr.as_str(), eth.ipv4[0].prefix), ("10.0.0.5", 24));
    assert_eq!(eth.ipv4[1].prefix, 0);
    assert_eq!(eth.ipv6, vec!["fe80:0000:0000:0000:0000:0000:0000:0001"]);
    assert_eq!(eth.index, 4);
    assert!(ifaces[1].up, "the loopback interface is always up");
    assert_eq!(ifaces[1].index, 2);
    assert_eq!(ifaces[2].mac.as_deref(), Some("02:00:00:00:00:01"));
    assert!(!ifaces[2].up);
}

#[test]
fn names_and_types_tell_the_kind() {
    let kinds = [
        ("lo", IfKind::Loopback),
        ("wlp3s0", IfKind::Wireless),
        ("eth0", IfKind::Ethernet),
        ("enp3s0", IfKind::Ethernet),
        ("docker0", IfKind::Virtual),
        ("br-12", IfKind::Virtual),
        ("veth1", IfKind::Virtual),
        ("virbr0", IfKind::Virtual),
        ("tun0", IfKind::Virtual),
        ("tap0", IfKind::Virtual),
        ("ppp0", IfKind::Other),
    ];
    for (name, kind) in kinds {
        assert_eq!(interface_kind(name), kind, "{name}");
    }
    assert_eq!(if_kind(6), IfKind::Ethernet);
    assert_eq!(if_kind(71), IfKind::Wireless);
    assert_eq!(if_kind(24), IfKind::Loopback);
    assert_eq!(if_kind(53), IfKind::Virtual);
    assert_eq!(if_kind(1), IfKind::Other);
    assert!(interface_is_up("eth0", Some("unknown\n")));
    assert!(!interface_is_up("eth0", Some("dormant\n")));
    assert!(interface_is_up("eth0", None), "a state that cannot be read counts as up");
    assert!(interface_is_up("lo", Some("down\n")));
    assert_eq!(count_ones(0xFFFF_F000), 20);
    assert_eq!(count_ones(u32::MAX), 32);
    assert_eq!(format_ipv6(&vec![0x20, 0x01, 0x0d, 0xb8]), "2001:0db8");
}

#[test]
fn adapters_become_interfaces() {
    let found = parse_adapters(&vec![Adapter {
        name: "Ethernet".into(),
        description: Some("Intel".into()),
        index: 7,
        physical: vec![0xaa, 0xbb, 0xcc, 0x01, 0x02, 0x03],
        unicast: vec![
            Unicast { address: SocketAddress::V6(vec![0xfe, 0x80, 0, 1]), prefix: 64 },
            Unicast { address: SocketAddress::V4(0x0A00_0005), prefix: 24 },
            Unicast { address: SocketAddress::Other, prefix: 0 },
        ],
        gateways: vec![
            SocketAddress::V6(vec![]),
            SocketAddress::V4(0x0A00_0001),
            SocketAddress::V4(0x0A00_0002),
        ],
        if_type: 6,
        up: true,
    }]);
    assert_eq!(found.len(), 1);
    let i = &found[0];
    assert_eq!(i.name, "Ethernet");
    assert_eq!(i.description.as_deref(), Some("Intel"));
    assert_eq!(i.mac.as_deref(), Some("aa:bb:cc:01:02:03"));
    assert_eq!(i.ipv4.len(), 1);
    assert_eq!((i.ipv4[0].addr.as_str(), i.ipv4[0].prefix), ("10.0.0.5", 24));
    assert_eq!(i.ipv6, vec!["fe80:0001"]);
    assert_eq!(i.gateway_v4.as_deref(), Some("10.0.0.1"), "the first IPv4 gateway");
    assert_eq!((i.index, i.kind, i.up), (7, IfKind::Ethernet, true));
}

#[test]
fn a_neighbor_needs_an_address_and_a_mac() {
    let row = |address, physical: Vec<u8>, state| NeighborRow {
        address,
        physical,
        interface_index: 3,
        state,
    };
    let mac = || vec![0xaa, 0xbb, 0xcc, 0x01, 0x02, 0x03];
    let e = row_to_entry(&row(SocketAddress::V4(0x0A00_0005), mac(), NeighborState::Other)).unwrap();
    assert_eq!((e.ip.as_str(), e.mac.as_str()), ("10.0.0.5", "aa:bb:cc:01:02:03"));
    assert!(e.reachable);
    assert_eq!(e.interface_index, 3);
    for state in [NeighborState::Incomplete, NeighborState::Unreachable] {
        let e = row_to_entry(&row(SocketAddress::V4(1), mac(), state)).unwrap();
        assert!(!e.reachable);
    }
    assert!(row_to_entry(&row(SocketAddress::Other, mac(), NeighborState::Other)).is_none());
    assert!(row_to_entry(&row(SocketAddress::V4(1), vec![1, 2], NeighborState::Other)).is_none());
    assert!(row_to_entry(&row(SocketAddress::V4(1), vec![0; 6], NeighborState::Other)).is_none());
}
