//! MAC addresses, keys and stable identities.

use modern_ip_scanner::identity::{
    device_key, is_locally_administered, is_stable, looks_like_identifier, mac_from_bytes,
    network_key, normalize_mac, oui,
};
use modern_ip_scanner::model::IfKind;

#[test]
fn bytes_become_a_normalized_mac_or_nothing() {
    assert_eq!(
        mac_from_bytes(&[0xAA, 0xBB, 0xCC, 0xDD, 0xEE, 0xFF]).as_deref(),
        Some("aa:bb:cc:dd:ee:ff")
    );
    // Longer buffers are what the platform APIs hand back; take the first
    // six and ignore the padding.
    assert_eq!(
        mac_from_bytes(&[0x90, 0x48, 0x46, 0x10, 0x3B, 0x7A, 0x00, 0x00]).as_deref(),
        Some("90:48:46:10:3b:7a")
    );
    assert_eq!(mac_from_bytes(&[0xAA, 0xBB, 0xCC]), None, "too short");
    assert_eq!(
        mac_from_bytes(&[0u8; 6]),
        None,
        "all-zero is not an identity"
    );
    assert_eq!(
        mac_from_bytes(&[0xffu8; 6]),
        None,
        "broadcast is not either"
    );
}

#[test]
fn a_uuid_hostname_is_an_identifier_not_a_name() {
    // What a Chromecast-embedded TV publishes over mDNS.
    assert!(looks_like_identifier(
        "705c66d2-019a-264d-4b6d-8e2f1a2b3c4d"
    ));
    assert!(looks_like_identifier("705c66d2019a264d4b6d8e2f1a2b3c4d"));
}

#[test]
fn names_people_chose_are_not_identifiers() {
    for name in [
        "area boys",
        "BT HomeHub6DX",
        "chromecast-hq",
        "DESKTOP-ABC123",
        "printer",
        "deadbeefcafe", // hex, but too short to be an identifier
    ] {
        assert!(!looks_like_identifier(name), "{name} is a name");
    }
}

#[test]
fn the_locally_administered_bit_marks_a_randomised_mac() {
    // Bit 1 of the first octet. 0x36 = 0011_0110 -> set.
    assert!(is_locally_administered("36:93:e6:08:48:d9"));
    assert!(is_locally_administered("02:00:00:00:00:01"));
    // 0xc0 = 1100_0000 -> clear; a real vendor OUI.
    assert!(!is_locally_administered("c0:d7:aa:b4:dc:9b"));
    assert!(!is_locally_administered("90:48:46:10:3b:7a"));
    assert!(!is_locally_administered("nonsense"));
}

#[test]
fn a_name_makes_an_identity_stable_whatever_the_mac_does() {
    // The whole point of the composite key: a device that announces a
    // name can be found again even after its MAC rotates.
    assert!(is_stable(Some("living-room-tv"), Some("36:93:e6:08:48:d9")));
    assert!(is_stable(Some("printer"), None));
}

#[test]
fn a_nameless_device_with_a_vendor_mac_is_stable() {
    assert!(is_stable(None, Some("90:48:46:10:3b:7a")));
}

#[test]
fn a_nameless_device_with_a_randomised_mac_is_unstable() {
    assert!(!is_stable(None, Some("36:93:e6:08:48:d9")));
    assert!(!is_stable(Some("   "), Some("36:93:e6:08:48:d9")));
}

#[test]
fn a_device_that_offered_no_signal_at_all_is_unstable() {
    assert!(!is_stable(None, None));
}

#[test]
fn normalizes_mac_spellings() {
    assert_eq!(
        normalize_mac("AA-BB-CC-DD-EE-FF"),
        Some("aa:bb:cc:dd:ee:ff".into())
    );
    assert_eq!(
        normalize_mac("aabbcc.ddeeff"),
        Some("aa:bb:cc:dd:ee:ff".into())
    );
    assert_eq!(normalize_mac("aa:bb:cc:dd:ee"), None);
    assert_eq!(normalize_mac("hello world"), None);
}

#[test]
fn network_keys_differ_by_gateway_and_subnet() {
    let a = network_key(
        Some("aa:bb:cc:00:00:01"),
        "192.168.1.0/24",
        IfKind::Ethernet,
    );
    let b = network_key(
        Some("aa:bb:cc:00:00:02"),
        "192.168.1.0/24",
        IfKind::Ethernet,
    );
    let c = network_key(None, "192.168.1.0/24", IfKind::Ethernet);
    let d = network_key(
        Some("aa:bb:cc:00:00:01"),
        "192.168.1.0/24",
        IfKind::Wireless,
    );
    assert_ne!(a, b);
    assert_ne!(a, c);
    assert_ne!(a, d);
    // deterministic
    assert_eq!(
        a,
        network_key(
            Some("AA:BB:CC:00:00:01"),
            "192.168.1.0/24",
            IfKind::Ethernet
        )
    );
}

#[test]
fn device_key_name_beats_mac() {
    let net = network_key(
        Some("aa:bb:cc:00:00:01"),
        "192.168.1.0/24",
        IfKind::Ethernet,
    );
    let k1 = device_key(Some("deskprinter"), Some("11:22:33:44:55:66"), &net);
    let k2 = device_key(Some("deskprinter"), Some("99:88:77:44:55:66"), &net);
    // Same name, different MAC (randomisation): OUI differs so keys differ,
    // but identity resolution (mac->name upgrade) keeps them aliased.
    assert_ne!(k1, k2);
    let k3 = device_key(Some("DESKPRINTER "), Some("11:22:33:44:55:66"), &net);
    assert_eq!(k1, k3, "name and MAC are normalized before hashing");
}

#[test]
fn the_mac_fallback_key_does_not_depend_on_spelling() {
    let net = "somenet";
    let canonical = device_key(None, Some("aa:bb:cc:dd:ee:ff"), net);
    for spelling in ["AA-BB-CC-DD-EE-FF", "aabbcc.ddeeff", "AA:BB:CC:DD:EE:FF"] {
        assert_eq!(
            device_key(None, Some(spelling), net),
            canonical,
            "{spelling} is the same device"
        );
    }
}

#[test]
fn device_key_mac_fallback() {
    let net = "somenet";
    let k = device_key(None, Some("11:22:33:44:55:66"), net);
    let k2 = device_key(None, Some("11:22:33:44:55:66"), net);
    assert_eq!(k, k2);
    assert_ne!(k, device_key(None, Some("11:22:33:44:55:67"), net));
}

#[test]
fn a_key_is_the_beginning_of_a_digest_of_its_parts() {
    let digest = blake3::hash(b"laninv-v1\0aa:bb:cc:00:00:01\x00192.168.1.0/24\0ethernet\0");
    let hex = digest.to_hex();
    let key = network_key(Some("AA-BB-CC-00-00-01"), "192.168.1.0/24", IfKind::Ethernet);
    assert_eq!(key, &hex.as_str()[..16]);

    let digest = blake3::hash(b"laninv-v1\0nas\0aa:bb:cc\0home\0");
    let key = device_key(Some(" NAS "), Some("aa:bb:cc:dd:ee:ff"), "home");
    assert_eq!(key, &digest.to_hex().as_str()[..16]);
}

#[test]
fn names_are_compared_without_regard_to_case_in_any_alphabet() {
    assert_eq!(
        device_key(Some("ÄPFEL"), None, "home"),
        device_key(Some("äpfel"), None, "home")
    );
    assert_ne!(
        device_key(Some("ÄPFEL"), None, "home"),
        device_key(Some("apfel"), None, "home")
    );
}

#[test]
fn a_gateway_that_is_no_mac_still_tells_networks_apart() {
    let a = network_key(Some("Modem"), "10.0.0.0/8", IfKind::Other);
    assert_eq!(a, network_key(Some("MODEM"), "10.0.0.0/8", IfKind::Other));
    assert_ne!(a, network_key(None, "10.0.0.0/8", IfKind::Other));
}

#[test]
fn the_oui_is_the_vendors_part_of_a_mac() {
    assert_eq!(oui("aa:bb:cc:dd:ee:ff"), Some("aa:bb:cc".to_string()));
    assert_eq!(oui("nonsense"), None);
}

#[test]
fn keys_are_sixteen_hexadecimal_digits() {
    let keys = [
        network_key(None, "10.0.0.0/8", IfKind::Other),
        device_key(None, None, ""),
        device_key(Some("nas"), Some("aa:bb:cc:dd:ee:ff"), "home"),
    ];
    for key in keys {
        assert_eq!(key.len(), 16);
        assert!(key.chars().all(|c| c.is_ascii_digit() || ('a'..='f').contains(&c)), "{key}");
    }
}

#[test]
fn a_blank_name_is_no_name() {
    let mac = Some("aa:bb:cc:dd:ee:ff");
    assert_eq!(device_key(Some(" \t"), mac, "home"), device_key(None, mac, "home"));
    assert_eq!(device_key(Some(""), None, "home"), device_key(None, None, "home"));
}

#[test]
fn a_named_device_is_known_by_its_name_and_maker() {
    let key = device_key(Some("nas"), Some("aa:bb:cc:00:00:01"), "home");
    assert_eq!(key, device_key(Some(" NAS"), Some("AA-BB-CC-00-00-02"), "home"));
    assert_ne!(key, device_key(Some("nas"), Some("aa:bb:cd:00:00:01"), "home"));
    assert_ne!(
        device_key(None, Some("aa:bb:cc:00:00:01"), "home"),
        device_key(None, Some("aa:bb:cc:00:00:02"), "home")
    );
    assert_eq!(
        network_key(Some("aabbcc000001"), "10.0.0.0/8", IfKind::Other),
        network_key(Some("AA:BB:CC:00:00:01"), "10.0.0.0/8", IfKind::Other)
    );
}
