//! SSDP responses and device descriptions.

use modern_ip_scanner::discovery::ssdp::{
    build_get, extract_friendly_name, friendly_name_in, parse_httpu, parse_location, searches,
    ssdp_name, HttpUResponse, Ssdp, SsdpDevice,
};
use modern_ip_scanner::model::{IfKind, Interface, Ipv4Cidr, NameSource};

    const ROOT_DESC: &str = r#"<?xml version="1.0"?>
<root xmlns="urn:schemas-upnp-org:device-1-0">
  <specVersion><major>1</major><minor>0</minor></specVersion>
  <device>
    <deviceType>urn:schemas-upnp-org:device:MediaRenderer:1</deviceType>
    <friendlyName>Living Room Speaker</friendlyName>
    <manufacturer>Sonos, Inc.</manufacturer>
  </device>
</root>"#;

    #[test]
    fn friendly_name_is_extracted_from_a_device_description() {
        assert_eq!(
            extract_friendly_name(ROOT_DESC).as_deref(),
            Some("Living Room Speaker")
        );
    }

    #[test]
    fn friendly_name_tolerates_whitespace_and_newlines() {
        let xml = "<device><friendlyName>
   Office Printer 
</friendlyName></device>";
        assert_eq!(
            extract_friendly_name(xml).as_deref(),
            Some("Office Printer")
        );
    }

    #[test]
    fn missing_or_empty_friendly_name_yields_none() {
        assert_eq!(extract_friendly_name("<device></device>"), None);
        assert_eq!(
            extract_friendly_name("<friendlyName>   </friendlyName>"),
            None
        );
        assert_eq!(extract_friendly_name("<friendlyName>unterminated"), None);
    }

    #[test]
    fn location_splits_into_authority_and_path() {
        assert_eq!(
            parse_location("http://192.168.1.62:8200/rootDesc.xml"),
            Some(("192.168.1.62:8200".into(), "/rootDesc.xml".into()))
        );
        assert_eq!(
            parse_location("http://192.168.1.9/desc"),
            Some(("192.168.1.9:80".into(), "/desc".into())),
            "a missing port means the HTTP default"
        );
        assert_eq!(parse_location("not a url"), None);
    }

    #[test]
    fn a_uuid_is_never_used_as_a_device_name() {
        // The USN UUID is stable but unreadable; showing it in the device list
        // is worse than showing the MAC.
        assert_eq!(ssdp_name(None), None);
    }

    #[test]
    fn a_friendly_name_becomes_the_device_name() {
        assert_eq!(
            ssdp_name(Some("  Living Room Speaker  ".into())),
            Some((NameSource::Ssdp, "Living Room Speaker".into()))
        );
        assert_eq!(ssdp_name(Some("   ".into())), None);
    }

    #[test]
    fn parses_ssdp_response() {
        let resp = b"HTTP/1.1 200 OK\r\nCACHE-CONTROL: max-age=1800\r\nDATE: ...\r\nEXT:\r\nLOCATION: http://192.168.1.62:8200/rootDesc.xml\r\nSERVER: Linux UPnP/1.0 MiniDLNA\r\nST: upnp:rootdevice\r\nUSN: uuid:2fac2343-31f8-11b2-a56c-123456789012::upnp:rootdevice\r\n\r\n";
        let parsed = parse_httpu(resp).unwrap();
        assert_eq!(
            parsed.usn.as_deref(),
            Some("uuid:2fac2343-31f8-11b2-a56c-123456789012::upnp:rootdevice")
        );
        assert_eq!(parsed.server.as_deref(), Some("Linux UPnP/1.0 MiniDLNA"));
        assert_eq!(parsed.location_host().as_deref(), Some("192.168.1.62"));
    }

    #[test]
    fn rejects_non_200() {
        assert!(parse_httpu(b"NOTIFY * HTTP/1.1\r\nNT: blah\r\n\r\n").is_none());
    }

#[test]
fn both_searches_are_sent() {
    let all = searches();
    assert_eq!(
        all[0],
        "M-SEARCH * HTTP/1.1\r\nHOST: 239.255.255.250:1900\r\nMAN: \"ssdp:discover\"\r\nMX: 2\r\nST: ssdp:all\r\nUSER-AGENT: laninv/0.1\r\n\r\n"
    );
    assert!(all[1].contains("MX: 1\r\nST: upnp:rootdevice\r\n"));
    assert_eq!(
        build_get("10.0.0.9:80", "/desc"),
        "GET /desc HTTP/1.1\r\nHost: 10.0.0.9:80\r\nConnection: close\r\nUser-Agent: laninv/0.1\r\n\r\n"
    );
}

#[test]
fn headers_are_found_whatever_their_case_and_the_last_one_counts() {
    let r = parse_httpu(b"HTTP/1.1 200 OK\r\nserver: a\r\nSeRvEr:  b \r\nnt: x\r\nno colon\r\n").unwrap();
    assert_eq!(r.server.as_deref(), Some("b"));
    assert_eq!(r.st.as_deref(), Some("x"));
    assert_eq!(r.usn, None);
    assert_eq!(r.location_host(), None);
    assert!(parse_httpu(b"HTTP/1.1 200 OK\r\nSERVER: \xff\r\n").is_none(), "not text");
    assert!(parse_httpu(b"").is_none());
}

#[test]
fn a_document_that_is_no_text_still_gives_its_name() {
    assert_eq!(
        friendly_name_in(b"\xff<friendlyName>TV</friendlyName>").as_deref(),
        Some("TV")
    );
    assert_eq!(
        friendly_name_in(b"<friendlyName>T\xffV</friendlyName>").as_deref(),
        Some("T\u{fffd}V")
    );
}

fn device(ip: &str, usn: Option<&str>, server: Option<&str>, location: Option<&str>) -> SsdpDevice {
    SsdpDevice {
        ip: ip.to_string(),
        response: HttpUResponse {
            usn: usn.map(|s| s.to_string()),
            server: server.map(|s| s.to_string()),
            location: location.map(|s| s.to_string()),
            st: None,
        },
    }
}

#[test]
fn a_device_is_reported_once_however_often_it_answers() {
    let iface = Interface {
        name: "test0".into(),
        description: None,
        mac: None,
        ipv4: vec![Ipv4Cidr { addr: "10.0.0.2".into(), prefix: 24 }],
        ipv6: vec![],
        gateway_v4: None,
        gateway_mac: None,
        index: 1,
        kind: IfKind::Ethernet,
        up: true,
    };
    let s = Ssdp::default();
    let devices = s.devices(
        vec![
            device("10.0.0.5", Some("uuid:a"), Some("Linux"), None),
            device("10.0.0.5", Some("uuid:a"), Some("other"), None),
            device("10.9.9.9", Some("uuid:far"), None, None),
            device("10.0.0.6", None, None, Some("http://10.0.0.6:80/x")),
            device("10.0.0.6", None, None, None),
        ],
        &iface,
    );
    assert_eq!(devices.len(), 2);
    let outcome = s.report(&devices, &vec![Some(" TV ".to_string()), None]);
    assert_eq!(outcome.observations.len(), 2);
    assert_eq!(outcome.observations[0].name, Some((NameSource::Ssdp, "TV".to_string())));
    assert_eq!(outcome.observations[0].vendor.as_deref(), Some("Linux"));
    assert_eq!(outcome.observations[1].name, None);
    assert_eq!(outcome.observations[1].vendor.as_deref(), Some("10.0.0.6"));
    assert_eq!(outcome.observations[1].confidence, 75);
}
