//! The graphical frontend.

use modern_ip_scanner::model::{IfKind, Interface, Ipv4Cidr};
use modern_ip_scanner::window::{
    about, end_event, fallback_notice, window_state, ScanEnd, ScanFlag,
};

fn iface(name: &str, kind: IfKind) -> Interface {
    let cidr = |addr: &str| Ipv4Cidr { addr: addr.into(), prefix: 24 };
    Interface {
        name: name.into(),
        description: None,
        mac: None,
        ipv4: vec![cidr("10.0.0.5"), cidr("10.0.1.5")],
        ipv6: vec![],
        gateway_v4: None,
        gateway_mac: None,
        index: 1,
        kind,
        up: true,
    }
}

#[test]
fn the_interface_that_would_be_scanned_is_shown() {
    let all = [iface("wlan0", IfKind::Wireless), iface("eth0", IfKind::Ethernet)];
    let state = window_state(None, true, vec!["/opt/helper".to_string()], &all);
    assert_eq!(state.startup_error, None);
    assert!(state.helper_available);
    assert_eq!(state.helper_search_paths, vec!["/opt/helper"]);
    let shown = state.interface.unwrap();
    assert_eq!(shown.name, "eth0");
    assert_eq!(shown.kind, "ethernet");
    assert_eq!(shown.ips, vec!["10.0.0.5", "10.0.1.5"]);
    let lo = [iface("lo", IfKind::Loopback)];
    assert!(window_state(Some("why".into()), false, vec![], &lo).interface.is_none());
}

#[test]
fn one_scan_runs_at_a_time() {
    let mut flag = ScanFlag::new();
    assert_eq!(flag.begin(), Ok(()));
    assert_eq!(flag.begin(), Err("a scan is already running".to_string()));
    flag.end();
    assert_eq!(flag.begin(), Ok(()));
}

#[test]
fn the_window_hears_how_a_scan_ended() {
    assert_eq!(end_event(ScanEnd::Done), ("scan:done", None));
    assert_eq!(
        end_event(ScanEnd::Failed("no network".into())),
        ("scan:error", Some("no network".to_string()))
    );
    assert_eq!(
        end_event(ScanEnd::Crashed),
        ("scan:error", Some("the scan crashed; the inventory is unchanged".to_string()))
    );
}

#[test]
fn notices_are_shown() {
    let a = about("1.2.3");
    assert_eq!((a.name.as_str(), a.version.as_str()), ("Modern IP Scanner", "1.2.3"));
    assert_eq!(a.license, "AGPL-3.0-or-later");
    assert_eq!(
        fallback_notice("locked", "/tmp/x"),
        "Could not open the inventory database (locked). Running on a temporary one at /tmp/x — \
         nothing you do here will be kept."
    );
}
