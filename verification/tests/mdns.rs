//! mDNS messages.

use modern_ip_scanner::discovery::mdns::{
    build_query, parse_dns_message, parse_txt_model, queries, DnsRecords, Mdns,
};
use modern_ip_scanner::model::{IfKind, Interface, Ipv4Cidr, NameSource};

#[test]
fn builds_valid_query() {
    let q = build_query(7, "_services._dns-sd._udp.local");
    assert_eq!(&q[..2], &[0x00, 0x07]);
    // header 12 + name + root + type/class 4
    assert_eq!(q.len(), 12 + "_services._dns-sd._udp.local".len() + 2 + 4);
    assert_eq!(&q[12..13], &[9]); // first label length "_services"
    assert_eq!(&q[q.len() - 4..], &[0x00, 0x0c, 0x00, 0x01]);
}

#[test]
fn parses_response_with_a_record_and_compression() {
    // Header: 1 answer.
    let mut msg = vec![0x00, 0x01, 0x84, 0x00, 0x00, 0x00, 0x00, 0x01, 0, 0, 0, 0];
    // Name: printer.local
    for label in ["printer", "local"] {
        msg.push(label.len() as u8);
        msg.extend_from_slice(label.as_bytes());
    }
    msg.push(0);
    // Type A, class IN, ttl, rdlen 4, rdata 192.168.1.42
    msg.extend_from_slice(&[0x00, 0x01, 0x00, 0x01]);
    msg.extend_from_slice(&[0x00, 0x00, 0x00, 0x78]);
    msg.extend_from_slice(&[0x00, 0x04]);
    msg.extend_from_slice(&[192, 168, 1, 42]);

    let parsed = parse_dns_message(&msg).unwrap();
    assert_eq!(parsed.answers.len(), 1);
    assert_eq!(parsed.answers[0].name, "printer.local");
    assert_eq!(parsed.answers[0].rtype, 1);

    let mut records = DnsRecords::default();
    records.absorb(&parsed);
    assert_eq!(records.a_records[0].0, "printer.local");
    assert_eq!(records.a_records[0].1, vec!["192.168.1.42".to_string()]);
}

#[test]
fn parses_txt_model() {
    // TXT rdata: one string "model=Deskjet 2600"
    let s = b"model=Deskjet 2600";
    let mut rdata = vec![s.len() as u8];
    rdata.extend_from_slice(s);
    assert_eq!(parse_txt_model(&rdata).as_deref(), Some("Deskjet 2600"));
}

/// A message with one answer of a type, named by labels.
fn answer(labels: &[&[u8]], rtype: u8, rdata: &[u8]) -> Vec<u8> {
    let mut msg = vec![0, 0, 0x84, 0, 0, 0, 0, 1, 0, 0, 0, 0];
    for label in labels {
        msg.push(label.len() as u8);
        msg.extend_from_slice(label);
    }
    msg.push(0);
    msg.extend_from_slice(&[0, rtype, 0, 1, 0, 0, 0, 120, 0, rdata.len() as u8]);
    msg.extend_from_slice(rdata);
    msg
}

#[test]
fn a_compressed_name_is_followed_once() {
    let mut msg = answer(&[b"nas", b"local"], 1, &[10, 0, 0, 9]);
    msg[7] = 2;
    // A second answer whose name points back to the first one's.
    msg.extend_from_slice(&[0xc0, 12, 0, 1, 0, 1, 0, 0, 0, 120, 0, 4, 10, 0, 0, 9]);
    let parsed = parse_dns_message(&msg).unwrap();
    assert_eq!(parsed.answers.len(), 2);
    assert_eq!(parsed.answers[1].name, "nas.local");
    let mut records = DnsRecords::default();
    records.absorb(&parsed);
    assert_eq!(
        records.a_records,
        vec![("nas.local".to_string(), vec!["10.0.0.9".to_string()])],
        "an address is kept once per host"
    );
}

#[test]
fn a_name_that_points_at_itself_is_refused() {
    let mut msg = vec![0, 0, 0x84, 0, 0, 0, 0, 1, 0, 0, 0, 0];
    msg.extend_from_slice(&[0xc0, 12, 0, 1, 0, 1, 0, 0, 0, 120, 0, 4, 10, 0, 0, 9]);
    let parsed = parse_dns_message(&msg);
    assert!(parsed.is_err() || parsed.unwrap().answers.iter().all(|a| a.name.is_empty()));
}

#[test]
fn a_label_that_is_no_text_is_read_with_replacements() {
    let parsed = parse_dns_message(&answer(&[b"t\xffv", b"local"], 1, &[10, 0, 0, 9])).unwrap();
    assert_eq!(parsed.answers[0].name, "t\u{fffd}v.local");
}

#[test]
fn truncated_messages_are_refused() {
    assert!(parse_dns_message(&[]).is_err());
    assert!(parse_dns_message(&[0u8; 11]).is_err());
    let msg = answer(&[b"nas", b"local"], 1, &[10, 0, 0, 9]);
    assert!(parse_dns_message(&msg[..msg.len() - 2]).is_err());
}

#[test]
fn only_addresses_on_the_link_are_reported() {
    let mut records = DnsRecords::default();
    records.absorb(&parse_dns_message(&answer(&[b"nas", b"local"], 1, &[10, 0, 0, 9])).unwrap());
    records.absorb(&parse_dns_message(&answer(&[b"far", b"local"], 1, &[10, 9, 0, 9])).unwrap());
    let outcome = Mdns::default().report(&records, &iface());
    assert!(outcome.problem.is_none());
    assert_eq!(outcome.observations.len(), 1);
    let o = &outcome.observations[0];
    assert_eq!(o.ip, "10.0.0.9");
    assert_eq!(o.name, Some((NameSource::Mdns, "nas".to_string())));
    assert_eq!(o.source, "mdns");
    assert_eq!(o.confidence, 90);
}

#[test]
fn every_service_is_asked_for() {
    let all = queries();
    assert_eq!(all.len(), 4);
    assert_eq!(all[0], build_query(0, "_services._dns-sd._udp.local"));
    assert_eq!(all[3], build_query(3, "_http._tcp.local"));
}

fn iface() -> Interface {
    Interface {
        name: "test0".into(),
        description: None,
        mac: None,
        ipv4: vec![Ipv4Cidr { addr: "10.0.0.2".into(), prefix: 24 }],
        ipv6: vec![],
        gateway_v4: None,
        gateway_mac: None,
        index: 1,
        kind: IfKind::Ethernet,
        up: true,
    }
}

#[test]
fn a_message_heard_again_adds_no_address() {
    let first = parse_dns_message(&answer(&[b"nas", b"local"], 1, &[10, 0, 0, 9])).unwrap();
    let second = parse_dns_message(&answer(&[b"nas", b"local"], 1, &[10, 0, 0, 8])).unwrap();
    let short = parse_dns_message(&answer(&[b"tv", b"local"], 1, &[10, 0, 0])).unwrap();
    let mut records = DnsRecords::default();
    records.absorb(&first);
    records.absorb(&second);
    let known = vec![(
        "nas.local".to_string(),
        vec!["10.0.0.9".to_string(), "10.0.0.8".to_string()],
    )];
    assert_eq!(records.a_records, known);
    let once = format!("{:?}", Mdns::default().report(&records, &iface()).observations);
    records.absorb(&first);
    records.absorb(&second);
    records.absorb(&short);
    assert_eq!(records.a_records, known, "three bytes are no address");
    let twice = format!("{:?}", Mdns::default().report(&records, &iface()).observations);
    assert_eq!(once, twice);
}
