//! NetBIOS node status requests and responses.

use modern_ip_scanner::discovery::netbios::{
    build_node_status_request, judge_reply, parse_node_status_names, transaction_id, Netbios, Reply,
};
use modern_ip_scanner::discovery::ScanContext;
use modern_ip_scanner::model::{IfKind, Interface, Ipv4Cidr, NameSource};

/// First-level encoding of the wildcard name `*`: 32 characters, as it
/// appears on the wire (RFC 1001 §4.1).
const ENCODED_WILDCARD: &[u8] = b"CKAAAAAAAAAAAAAAAAAAAAAAAAAAAAAA";

/// One 18-byte NODE_NAME entry: 15-byte space-padded name, 1-byte suffix,
/// 2-byte NAME_FLAGS (RFC 1002 §4.2.18).
fn name_entry(name: &str, suffix: u8, flags: u16) -> Vec<u8> {
    let mut e = format!("{name:<15}").into_bytes();
    assert_eq!(e.len(), 15, "test name must fit the 15-byte field");
    e.push(suffix);
    e.extend_from_slice(&flags.to_be_bytes());
    e
}

/// A NODE STATUS RESPONSE exactly as RFC 1002 §4.2.18 specifies it:
/// QDCOUNT=0, ANCOUNT=1, and the answer RR carries the *full* encoded
/// name, not a compression pointer.
fn node_status_response(entries: &[Vec<u8>]) -> Vec<u8> {
    let mut p = Vec::new();
    p.extend_from_slice(&0x4242u16.to_be_bytes()); // NAME_TRN_ID
    p.extend_from_slice(&0x8400u16.to_be_bytes()); // response + authoritative
    p.extend_from_slice(&0x0000u16.to_be_bytes()); // QDCOUNT = 0
    p.extend_from_slice(&0x0001u16.to_be_bytes()); // ANCOUNT = 1
    p.extend_from_slice(&0x0000u16.to_be_bytes()); // NSCOUNT
    p.extend_from_slice(&0x0000u16.to_be_bytes()); // ARCOUNT
    p.push(0x20); // RR_NAME: length byte
    p.extend_from_slice(ENCODED_WILDCARD);
    p.push(0x00); // root label
    p.extend_from_slice(&0x0021u16.to_be_bytes()); // NBSTAT
    p.extend_from_slice(&0x0001u16.to_be_bytes()); // IN
    p.extend_from_slice(&0u32.to_be_bytes()); // TTL

    let mut rdata = vec![entries.len() as u8];
    for e in entries {
        rdata.extend_from_slice(e);
    }
    rdata.extend_from_slice(&[0u8; 46]); // STATISTICS
    p.extend_from_slice(&(rdata.len() as u16).to_be_bytes());
    p.extend_from_slice(&rdata);
    p
}

#[test]
fn request_is_a_50_byte_rfc1002_node_status_query() {
    let q = build_node_status_request(0x4242);
    assert_eq!(q.len(), 50, "header 12 + name 34 + type/class 4");
    assert_eq!(&q[0..2], &[0x42, 0x42], "NAME_TRN_ID");
    assert_eq!(&q[2..4], &[0x00, 0x00], "unicast node status: no flags set");
    assert_eq!(&q[4..6], &[0x00, 0x01], "QDCOUNT = 1");
    assert_eq!(&q[6..12], &[0, 0, 0, 0, 0, 0], "AN/NS/AR counts = 0");
    assert_eq!(q[12], 0x20, "encoded name is a 32-byte label");
    assert_eq!(&q[13..45], ENCODED_WILDCARD);
    assert_eq!(q[45], 0x00, "root label terminates the name");
    assert_eq!(&q[46..48], &[0x00, 0x21], "QUESTION_TYPE = NBSTAT");
    assert_eq!(&q[48..50], &[0x00, 0x01], "QUESTION_CLASS = IN");
}

#[test]
fn parses_workstation_name_from_a_spec_shaped_response() {
    let p = node_status_response(&[name_entry("DESKTOP-ABC123", 0x00, 0x0400)]);
    let names = parse_node_status_names(&p);
    assert_eq!(names, vec!["DESKTOP-ABC123".to_string()]);
}

#[test]
fn prefers_the_unique_workstation_name_over_the_workgroup() {
    // The group entry is listed first; the workstation name must still win.
    let p = node_status_response(&[
        name_entry("WORKGROUP", 0x00, 0x8400), // G bit set = group
        name_entry("DESKTOP-ABC123", 0x00, 0x0400),
    ]);
    let names = parse_node_status_names(&p);
    assert_eq!(
        names.first().map(String::as_str),
        Some("DESKTOP-ABC123"),
        "a group name must never be used as a device identity"
    );
    assert!(
        !names.iter().any(|n| n == "WORKGROUP"),
        "group names are shared across hosts and must be discarded"
    );
}

#[test]
fn tolerates_a_response_that_echoes_the_question() {
    // Some stacks echo the question section (QDCOUNT=1) before the answer.
    let mut p = node_status_response(&[name_entry("ECHOED-HOST", 0x00, 0x0400)]);
    let tail = p.split_off(12);
    p[4..6].copy_from_slice(&0x0001u16.to_be_bytes()); // QDCOUNT = 1
    let mut question = vec![0x20];
    question.extend_from_slice(ENCODED_WILDCARD);
    question.push(0x00);
    question.extend_from_slice(&[0x00, 0x21, 0x00, 0x01]);
    p.extend_from_slice(&question);
    p.extend_from_slice(&tail);
    assert_eq!(
        parse_node_status_names(&p),
        vec!["ECHOED-HOST".to_string()],
        "the question section must be skipped, not assumed absent"
    );
}

#[test]
fn ignores_queries() {
    let q = build_node_status_request(1);
    assert!(parse_node_status_names(&q).is_empty());
}

#[test]
fn ignores_truncated_and_malformed_input() {
    assert!(parse_node_status_names(&[]).is_empty());
    assert!(parse_node_status_names(&[0u8; 11]).is_empty());
    let mut p = node_status_response(&[name_entry("TRUNCATED", 0x00, 0x0400)]);
    p.truncate(40);
    assert!(parse_node_status_names(&p).is_empty());
}

#[test]
fn the_transaction_tells_hosts_apart() {
    assert_eq!(transaction_id("10.0.0.7"), 0x4207);
    assert_eq!(transaction_id("10.0.0.255"), 0x42ff);
    assert_eq!(transaction_id("nonsense"), 0x4201);
}

#[test]
fn a_reply_counts_only_from_the_host_that_was_asked() {
    let mut p = node_status_response(&[name_entry("TOWER", 0x20, 0x0400)]);
    p[1] = 0x07;
    assert!(matches!(judge_reply("10.0.0.7", "10.0.0.8", &p), Reply::Stray));
    assert!(matches!(judge_reply("10.0.0.9", "10.0.0.9", &p), Reply::Stray));
    match judge_reply("10.0.0.7", "10.0.0.7", &p) {
        Reply::Answer(name) => assert_eq!(name.as_deref(), Some("TOWER")),
        Reply::Stray => panic!("the answer was taken for a stray"),
    }
}

#[test]
fn names_that_cannot_be_shown_are_left_out() {
    let mut bad = name_entry("X", 0x00, 0x0400);
    bad[0] = 0x01;
    let mut raw = name_entry("Y", 0x00, 0x0400);
    raw[0] = 0xff;
    let p = node_status_response(&[
        bad,
        raw,
        name_entry("FILES", 0x20, 0x0400),
        name_entry("HOST", 0x00, 0x0400),
        name_entry("THIRD", 0x20, 0x0400),
    ]);
    assert_eq!(
        parse_node_status_names(&p),
        vec!["HOST".to_string(), "FILES".to_string()],
        "workstation names first, and no more than two"
    );
}

fn context(candidates: &[&str]) -> ScanContext {
    ScanContext {
        iface: Interface {
            name: "test0".into(),
            description: None,
            mac: None,
            ipv4: vec![Ipv4Cidr { addr: "10.0.0.2".into(), prefix: 24 }],
            ipv6: vec![],
            gateway_v4: None,
            gateway_mac: None,
            index: 1,
            kind: IfKind::Ethernet,
            up: true,
        },
        candidates: candidates.iter().map(|c| c.to_string()).collect(),
        caps: vec![],
        can_resolve: false,
    }
}

#[test]
fn only_so_many_candidates_on_the_link_are_asked() {
    let mut n = Netbios::default();
    n.max_candidates = 2;
    let ctx = context(&["10.9.9.9", "10.0.0.5", "10.0.0.6", "10.0.0.7"]);
    let asked = n.plan(&ctx);
    assert_eq!(asked, vec!["10.0.0.5".to_string(), "10.0.0.6".to_string()]);
    let outcome = n.report(&asked, &vec![None, Some("TOWER".to_string())]);
    assert_eq!(outcome.observations.len(), 1);
    let o = &outcome.observations[0];
    assert_eq!(o.ip, "10.0.0.6");
    assert_eq!(o.name, Some((NameSource::Netbios, "TOWER".to_string())));
    assert_eq!(o.confidence, 85);
}

#[test]
fn what_is_no_response_names_nobody() {
    let good = node_status_response(&[name_entry("HOST", 0x00, 0x0400)]);
    assert_eq!(parse_node_status_names(&good), vec!["HOST".to_string()]);
    assert!(parse_node_status_names(&build_node_status_request(0x4242)).is_empty());
    assert!(parse_node_status_names(&good[..11]).is_empty());
    let mut query = good.clone();
    query[2] &= 0x7f;
    assert!(parse_node_status_names(&query).is_empty(), "not marked as a response");
    let mut unanswered = good.clone();
    unanswered[6] = 0;
    unanswered[7] = 0;
    assert!(parse_node_status_names(&unanswered).is_empty(), "no answers");
}
