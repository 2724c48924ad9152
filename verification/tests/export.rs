//! The inventory as CSV.

use modern_ip_scanner::export::devices_csv;
use modern_ip_scanner::model::{DeviceStatus, DeviceView};

fn device(name: &str, notes: Option<&str>) -> DeviceView {
    DeviceView {
        id: 1,
        key: "abcdef0123456789".into(),
        user_name: Some(name.into()),
        primary_name: None,
        display_name: name.into(),
        mac: Some("aa:bb:cc:dd:ee:ff".into()),
        vendor: None,
        first_seen: 0,
        last_seen: 0,
        last_ip: Some("10.0.0.5".into()),
        networks: vec!["net1".into()],
        notes: notes.map(|n| n.into()),
        status: DeviceStatus::Known,
        identity_stable: true,
    }
}

fn body(csv: &str) -> Vec<&str> {
    csv.lines().skip(1).collect()
}

#[test]
fn a_quote_is_doubled_not_replaced() {
    // Replacing it corrupted the user's own text.
    let csv = devices_csv(&[device(r#"Ben's "big" NAS"#, None)]);
    assert!(
        body(&csv)[0].contains(r#""Ben's ""big"" NAS""#),
        "got {}",
        body(&csv)[0]
    );
}

#[test]
fn commas_and_newlines_survive_a_round_trip() {
    let csv = devices_csv(&[device("Study, upstairs", Some("line one\nline two"))]);
    assert!(csv.contains(r#""Study, upstairs""#));
    assert!(csv.contains("\"line one\nline two\""));
}

#[test]
fn notes_and_status_are_exported() {
    let csv = devices_csv(&[device("nas", Some("in the cupboard"))]);
    let header = csv.lines().next().unwrap();
    assert!(header.contains("notes"), "header was {header}");
    assert!(header.contains("status"), "header was {header}");
    assert!(csv.contains("in the cupboard"));
}

#[test]
fn an_empty_inventory_still_has_a_header() {
    let csv = devices_csv(&[]);
    assert_eq!(csv.lines().count(), 1);
    assert!(csv.starts_with("key,"));
}

#[test]
fn a_row_has_every_value_in_the_order_of_the_header() {
    let csv = devices_csv(&[device("nas \"1\"", Some("a,b"))]);
    assert_eq!(
        csv,
        "key,name,status,ip,mac,vendor,hostname,first_seen,last_seen,networks,notes\n\
         \"abcdef0123456789\",\"nas \"\"1\"\"\",\"known\",\"10.0.0.5\",\"aa:bb:cc:dd:ee:ff\",\"\",\"\",\
         \"1970-01-01 00:00\",\"1970-01-01 00:00\",\"net1\",\"a,b\"\n"
    );
}
