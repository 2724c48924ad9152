//! Addresses, networks and times.

use modern_ip_scanner::util::{
    broadcast_address, civil_from_days, enumerate_network, fmt_time, format_ipv4, has_address,
    insert_address, ipv4_in_network, netmask, now, parse_ipv4, timestamp,
};

#[test]
fn netmask_covers_both_ends_of_the_prefix_range() {
    // The /0 case is the whole reason this is not a one-liner: shifting a
    // u32 by 32 is undefined and panics in debug builds.
    assert_eq!(netmask(0), 0);
    assert_eq!(netmask(8), 0xFF00_0000);
    assert_eq!(netmask(24), 0xFFFF_FF00);
    assert_eq!(netmask(32), u32::MAX);
}

#[test]
fn ipv4_roundtrip() {
    assert_eq!(parse_ipv4("192.168.1.10"), Some(0xC0A8_010A));
    assert_eq!(format_ipv4(0xC0A8_010A), "192.168.1.10");
    assert_eq!(parse_ipv4("192.168.1"), None);
    assert_eq!(parse_ipv4("192.168.1.256"), None);
    assert_eq!(parse_ipv4("192.168.01.10"), None);
    // Rust's integer parser accepts a leading '+', so the hand-rolled
    // octet loop used to read "+1.2.3.4" as 1.2.3.4. Ipv4Addr does not.
    assert_eq!(parse_ipv4("+1.2.3.4"), None);
}

#[test]
fn membership() {
    assert!(ipv4_in_network("192.168.1.77", 0xC0A8_0100, 24));
    assert!(!ipv4_in_network("192.168.2.77", 0xC0A8_0100, 24));
}

#[test]
fn enumeration_excludes_network_address() {
    let addrs = enumerate_network(0xC0A8_0100, 30);
    assert_eq!(addrs, vec![0xC0A8_0101, 0xC0A8_0102, 0xC0A8_0103]);
}

#[test]
fn time_format() {
    assert_eq!(fmt_time(0), "1970-01-01 00:00");
    assert_eq!(fmt_time(1_753_000_000), "2025-07-20 08:26");
}

#[test]
fn own_broadcast_and_membership_edges() {
    assert_eq!(broadcast_address(0xC0A8_0178, 24), 0xC0A8_01FF);
    assert_eq!(broadcast_address(0x0A00_0001, 32), 0x0A00_0001);
    assert_eq!(broadcast_address(0x0A00_0001, 0), u32::MAX);
    assert!(ipv4_in_network("8.8.8.8", 0, 0));
    assert!(!ipv4_in_network("not an address", 0, 0));
    assert!(ipv4_in_network(" 10.0.0.7 ", 0x0A00_0000, 8));
}

#[test]
fn every_address_is_read_back_as_it_was_written() {
    for a in [0u32, 1, 0x0102_0304, 0x7F00_0001, 0xFFFF_FFFF, 0x0A00_00FE] {
        assert_eq!(parse_ipv4(&format_ipv4(a)), Some(a));
    }
}

#[test]
fn times_before_and_far_after_the_epoch() {
    assert_eq!(fmt_time(-1), "1969-12-31 23:59");
    assert_eq!(fmt_time(951_782_400), "2000-02-29 00:00");
    assert_eq!(fmt_time(4_102_444_799), "2099-12-31 23:59");
    assert_eq!(fmt_time(-62_135_596_800), "0001-01-01 00:00");
}

#[test]
fn dates_are_counted_one_by_one() {
    assert_eq!(civil_from_days(0), (1970, 1, 1));
    assert_eq!(civil_from_days(59), (1970, 3, 1));
    assert_eq!(civil_from_days(-1), (1969, 12, 31));
    assert_eq!(civil_from_days(11_016), (2000, 2, 29));
}

#[test]
fn the_clock_is_read_in_seconds() {
    let before = std::time::SystemTime::now()
        .duration_since(std::time::UNIX_EPOCH)
        .unwrap()
        .as_secs() as i64;
    let read = now();
    assert!(before <= read && read <= before + 5);
    assert_eq!(timestamp(Some(17)), 17);
    assert_eq!(timestamp(None), 0);
}

#[test]
fn addresses_are_kept_in_order_and_once() {
    let mut v: Vec<u32> = vec![];
    for a in [9u32, 3, 9, 5, 3, 1] {
        insert_address(&mut v, a);
    }
    assert_eq!(v, vec![1, 3, 5, 9]);
    assert!(has_address(&v, 5));
    assert!(!has_address(&v, 4));
}

#[test]
fn texts_of_times_order_as_the_times_do() {
    let times = [0, 59, 60, 3_599, 3_600, 86_399, 86_400, 951_782_400, 4_102_444_799, 253_402_300_799];
    for pair in times.windows(2) {
        let (a, b) = (fmt_time(pair[0]), fmt_time(pair[1]));
        assert_eq!(a.len(), 16);
        assert!(a <= b, "{a} {b}");
        assert_eq!(a == b, pair[0] / 60 == pair[1] / 60);
    }
    assert_eq!(fmt_time(253_402_300_799), "9999-12-31 23:59");
}
