//! Observations that belong to one device.

use modern_ip_scanner::identity::device_key;
use modern_ip_scanner::merge::{
    maybe_refingerprint, merge_observations, refingerprint_at, resolve_identity, ObservedDevice,
    Resolution,
};
use modern_ip_scanner::model::{NameSource, Observation};
use modern_ip_scanner::store::Store;

fn obs(ip: &str, mac: Option<&str>, name: Option<(&str, &str)>, src: &str) -> Observation {
    Observation {
        ip: ip.into(),
        mac: mac.map(|m| m.into()),
        name: name.map(|(s, n)| match s {
            "mdns" => (NameSource::Mdns, n.to_string()),
            "netbios" => (NameSource::Netbios, n.to_string()),
            _ => (NameSource::Ssdp, n.to_string()),
        }),
        vendor: None,
        source: src.into(),
        confidence: 80,
    }
}

#[test]
fn merges_by_ip_and_mac() {
    let observations = vec![
        obs("10.0.0.1", Some("aa:aa:aa:aa:aa:aa"), None, "arp-cache"),
        obs("10.0.0.1", None, Some(("netbios", "tower")), "netbios"),
        obs("10.0.0.2", Some("aa:aa:aa:aa:aa:aa"), None, "arp-cache"),
        obs("10.0.0.3", Some("bb:bb:bb:bb:bb:bb"), None, "arp-cache"),
    ];
    let merged = merge_observations(&observations);
    assert_eq!(merged.len(), 2);
    let tower = merged
        .iter()
        .find(|d| d.name.as_deref() == Some("tower"))
        .expect("tower merged");
    assert_eq!(tower.mac.as_deref(), Some("aa:aa:aa:aa:aa:aa"));
    assert!(tower.ips.contains(&"10.0.0.1".to_string()));
    assert!(tower.ips.contains(&"10.0.0.2".to_string()));
}

#[test]
fn name_ranking_prefers_mdns() {
    let observations = vec![
        obs(
            "10.0.0.5",
            Some("cc:cc:cc:cc:cc:cc"),
            Some(("ssdp", "Living Room")),
            "ssdp",
        ),
        obs("10.0.0.5", None, Some(("mdns", "chromecast-hq")), "mdns"),
        obs(
            "10.0.0.5",
            None,
            Some(("netbios", "ANDROID-9F2")),
            "netbios",
        ),
    ];
    let merged = merge_observations(&observations);
    assert_eq!(merged.len(), 1);
    assert_eq!(merged[0].name.as_deref(), Some("chromecast-hq"));
    assert_eq!(merged[0].name_source, Some(NameSource::Mdns));
}

#[test]
fn no_address_is_lost_invented_or_shared() {
    let observations = vec![
        obs("10.0.0.9", None, None, "ping-sweep"),
        obs("10.0.0.10", Some("aa:aa:aa:aa:aa:aa"), None, "arp-cache"),
        obs("10.0.0.2", Some("aa:aa:aa:aa:aa:aa"), None, "arp-cache"),
        obs("10.0.0.9", None, Some(("ssdp", "TV")), "ssdp"),
    ];
    let merged = merge_observations(&observations);
    let mut all: Vec<String> = merged.iter().flat_map(|d| d.ips.clone()).collect();
    all.sort();
    assert_eq!(all, vec!["10.0.0.10", "10.0.0.2", "10.0.0.9"]);
    let both = merged.iter().find(|d| d.mac.is_some()).unwrap();
    assert_eq!(both.ips, vec!["10.0.0.10", "10.0.0.2"], "in dictionary order");
    let tv = merged.iter().find(|d| d.mac.is_none()).unwrap();
    assert_eq!(tv.name.as_deref(), Some("TV"));
    assert_eq!(tv.sources, vec!["ping-sweep", "ssdp"]);
}

#[test]
fn a_surer_observation_decides_the_mac() {
    let mut weak = obs("10.0.0.5", Some("aa:aa:aa:aa:aa:aa"), None, "a");
    weak.confidence = 50;
    let mut strong = obs("10.0.0.5", Some("bb:bb:bb:bb:bb:bb"), None, "b");
    strong.confidence = 95;
    let merged = merge_observations(&[weak, strong]);
    assert_eq!(merged[0].mac.as_deref(), Some("bb:bb:bb:bb:bb:bb"));
    assert_eq!(merged[0].confidence, 95);
    let merged = merge_observations(&[
        obs("10.0.0.5", Some("aa:aa:aa:aa:aa:aa"), None, "a"),
        obs("10.0.0.5", Some("bb:bb:bb:bb:bb:bb"), None, "b"),
    ]);
    assert_eq!(merged[0].mac.as_deref(), Some("aa:aa:aa:aa:aa:aa"), "the first keeps a tie");
    assert!(merge_observations(&[]).is_empty());
}

fn seen(mac: Option<&str>, name: Option<&str>) -> ObservedDevice {
    ObservedDevice {
        ips: vec!["10.0.0.5".to_string()],
        mac: mac.map(|m| m.to_string()),
        name: name.map(|n| n.to_string()),
        name_source: None,
        vendor: None,
        sources: vec![],
        confidence: 90,
    }
}

#[test]
fn a_known_mac_decides_then_a_name_on_the_network() {
    let mut store = Store::new();
    store.upsert_device_at("k1", Some("nas"), Some("aa:aa:aa:aa:aa:aa"), None, "n", 1).unwrap();
    store.upsert_device_at("k2", Some("tv"), None, None, "n", 1).unwrap();
    store.upsert_presence_at("k2", "n", None, 1).unwrap();
    let who = |d: &ObservedDevice| match resolve_identity(&store, d, "n").unwrap() {
        Resolution::Existing(e) => e.key,
        Resolution::New(key) => format!("new {key}"),
    };
    assert_eq!(who(&seen(Some("aa:aa:aa:aa:aa:aa"), Some("tv"))), "k1");
    assert_eq!(who(&seen(Some("bb:bb:bb:bb:bb:bb"), Some(" TV "))), "k2");
    assert_eq!(
        who(&seen(Some("bb:bb:bb:bb:bb:bb"), None)),
        format!("new {}", device_key(None, Some("bb:bb:bb:bb:bb:bb"), "n"))
    );
}

#[test]
fn a_device_that_gains_a_name_moves_to_a_new_key() {
    let mut store = Store::new();
    let mac = Some("aa:aa:aa:aa:aa:aa");
    store.upsert_device_at("old", None, mac, None, "n", 1).unwrap();
    store.set_user_name_at("old", "Mine", None, 1).unwrap();
    let existing = store.get_device("old").unwrap().unwrap();
    let key = refingerprint_at(&mut store, &existing, &seen(mac, Some("nas")), 5).unwrap();
    assert_eq!(key, device_key(Some("nas"), mac, "n"));
    assert_eq!(store.resolve_alias("old").unwrap(), key);
    assert_eq!(store.get_user_name("old").unwrap().unwrap().0, "Mine");
    let named = store.get_device(&key).unwrap().unwrap();
    let again = maybe_refingerprint(&mut store, &named, &seen(mac, Some("other"))).unwrap();
    assert_eq!(again, key, "a device that had a name keeps its key");
}

#[test]
fn a_name_heard_twice_counts_for_its_best_source() {
    let merged = merge_observations(&[
        obs("10.0.0.5", None, Some(("ssdp", "x")), "ssdp"),
        obs("10.0.0.5", None, Some(("mdns", "x")), "mdns"),
        obs("10.0.0.5", None, Some(("netbios", "y")), "netbios"),
    ]);
    assert_eq!(merged.len(), 1);
    assert_eq!(merged[0].name.as_deref(), Some("x"));
    assert_eq!(merged[0].name_source, Some(NameSource::Mdns));
    let unnamed = merge_observations(&[obs("10.0.0.5", None, Some(("mdns", "  ")), "mdns")]);
    assert_eq!(unnamed[0].name, None);
    assert_eq!(unnamed[0].name_source, None);
}

#[test]
fn a_sure_observation_without_a_mac_does_not_protect_the_one_held() {
    let sure = |mac: Option<&str>, confidence: u8| {
        let mut o = obs("10.0.0.5", mac, None, "a");
        o.confidence = confidence;
        o
    };
    let merged = merge_observations(&[
        sure(Some("aa:aa:aa:aa:aa:aa"), 50),
        sure(None, 90),
        sure(Some("bb:bb:bb:bb:bb:bb"), 80),
    ]);
    assert_eq!(merged.len(), 1);
    assert_eq!(merged[0].mac.as_deref(), Some("bb:bb:bb:bb:bb:bb"));
    assert_eq!(merged[0].confidence, 90);
}
