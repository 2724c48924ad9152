//! What works on this machine, and the helper.

use modern_ip_scanner::model::Capability;
use modern_ip_scanner::privilege::arp::{
    parse_hardware_address, reply_mac, request_frame, route_interface,
};
use modern_ip_scanner::privilege::helper::{
    batch_answer, batch_slots, batch_timeout, batches, join_batches, single_answer, HelperClient,
    HelperReply, LineBuffer, LineStep,
};
use modern_ip_scanner::privilege::pipe::{
    client_accepted, connect_error, connect_step, helper_arguments, helper_mode, launched_helper,
    pipe_access, pipe_name, pipe_path, ConnectStep, HelperMode,
};
use modern_ip_scanner::privilege::serve::{
    closes, decide, reply, valid_ipv4, HelperRequest, Task,
};
use modern_ip_scanner::privilege::{
    database_path, helper_file_name, probe, search_paths_from, Findings, Platform,
};

#[test]
fn an_explicit_override_is_searched_first() {
    let paths = search_paths_from(Some("/opt/app"), Some("/tmp/my-helper"), Platform::Linux);
    assert_eq!(paths.first().unwrap(), "/tmp/my-helper");
}

#[test]
fn the_directory_beside_the_executable_is_searched() {
    let paths = search_paths_from(Some("/opt/app"), None, Platform::Linux);
    assert!(paths.contains(&format!("/opt/app/{}", helper_file_name(Platform::Linux))));
}

#[test]
fn searching_still_works_without_a_known_executable_path() {
    // The current executable's path can be unknown; that must not leave zero
    // candidates on platforms with system locations.
    let paths = search_paths_from(None, None, Platform::Linux);
    assert!(!paths.is_empty());
}

#[test]
fn a_place_is_looked_at_once_however_it_is_spelled() {
    let paths = search_paths_from(
        Some("/opt/app/"),
        Some("/opt//./app/modern-ip-scanner-helper"),
        Platform::Linux,
    );
    assert_eq!(paths.len(), 4);
    assert_eq!(paths[0], "/opt//./app/modern-ip-scanner-helper");
    assert_eq!(paths[1], "/usr/libexec/modern-ip-scanner/modern-ip-scanner-helper");
    let paths = search_paths_from(Some("C:\\app"), None, Platform::Windows);
    assert_eq!(paths, vec!["C:\\app\\modern-ip-scanner-helper.exe"]);
    assert!(search_paths_from(None, None, Platform::Windows).is_empty());
}

fn findings(platform: Platform) -> Findings {
    Findings {
        platform,
        cache_readable: true,
        echo_works: true,
        has_interface: true,
        has_gateway: true,
        gateway_answers: true,
        raw_sockets: true,
    }
}

#[test]
fn permission_is_not_capability() {
    let state = probe(findings(Platform::Linux));
    assert_eq!(
        state.capabilities,
        vec![Capability::NeighborCache, Capability::IcmpEcho],
        "raw sockets alone grant no ARP resolution"
    );
    assert_eq!(state.notes.len(), 1);
    assert!(!state.helper_connected);
    let state = probe(findings(Platform::Windows));
    assert!(state.has(Capability::ArpResolve));
    assert!(state.notes.is_empty());
    let mut f = findings(Platform::Windows);
    f.gateway_answers = false;
    assert_eq!(probe(f).notes, vec!["SendARP failed for gateway"]);
    f.has_gateway = false;
    assert_eq!(probe(f).notes, vec!["no gateway to probe ARP against"]);
    let mut f = findings(Platform::Other);
    f.echo_works = false;
    assert!(probe(f).capabilities.is_empty());
    assert_eq!(probe(f).notes.len(), 2);
}

fn request(op: &str, ip: Option<&str>, ips: Option<Vec<&str>>) -> Option<HelperRequest> {
    Some(HelperRequest {
        op: op.to_string(),
        ip: ip.map(|s| s.to_string()),
        ips: ips.map(|v| v.iter().map(|s| s.to_string()).collect()),
    })
}

/// One exchange with the helper, as both sides see it.
fn ask(req: &Option<HelperRequest>, findings: Vec<Option<String>>) -> HelperReply {
    reply(&decide(req), &findings)
}

#[test]
fn each_request_gets_its_own_whole_reply() {
    // Rejected by the helper without touching the network.
    let first = single_answer(&ask(&request("arp", Some("not-an-ip"), None), vec![]));
    assert_eq!(first, Err("invalid or missing ip".to_string()));
    let second = single_answer(&ask(&request("arp", Some("still-not-an-ip"), None), vec![]));
    assert_eq!(second, Err("invalid or missing ip".to_string()));
}

#[test]
fn a_batch_answers_every_address_and_leaves_the_stream_in_step() {
    let req = request("arp-batch", None, Some(vec!["not-an-ip", "nor-this", "or-this"]));
    let got = batch_answer(ask(&req, vec![None, None, None]), 3).expect("batch round trip");
    assert_eq!(got, vec![None, None, None]);
    assert_eq!(
        single_answer(&ask(&request("arp", Some("not-an-ip"), None), vec![])),
        Err("invalid or missing ip".to_string())
    );
}

#[test]
fn the_helper_does_nothing_but_resolve() {
    let mac = Some("aa:bb:cc:dd:ee:ff".to_string());
    let r = ask(&request("arp", Some("10.0.0.5"), None), vec![mac.clone()]);
    assert_eq!(single_answer(&r), Ok(mac.clone()));
    let r = ask(&request("arp", Some("10.0.0.5"), None), vec![None]);
    assert_eq!(single_answer(&r), Err("no reply".to_string()));
    let r = ask(&request("format-disk", None, None), vec![]);
    assert_eq!(single_answer(&r), Err("unknown op".to_string()));
    assert_eq!(single_answer(&ask(&None, vec![])), Err("bad request".to_string()));
    let r = ask(&request("shutdown", None, None), vec![]);
    assert_eq!(single_answer(&r), Ok(None));
    assert!(matches!(decide(&request("shutdown", None, None)), Task::Stop));
    assert!(closes("{\"op\":\"shutdown\"}"));
    assert!(!closes("{\"op\":\"arp\"}"));
    let r = ask(&request("arp-batch", None, Some(vec!["10.0.0.5", "x"])), vec![mac.clone(), mac.clone()]);
    assert_eq!(batch_answer(r, 2), Ok(vec![mac, None]));
    let many: Vec<&str> = vec!["10.0.0.5"; 129];
    assert!(batch_answer(ask(&request("arp-batch", None, Some(many)), vec![]), 129).is_err());
    assert!(batch_answer(ask(&request("arp-batch", None, None), vec![]), 0).is_err());
}

#[test]
fn an_address_is_four_numbers() {
    assert!(valid_ipv4("10.0.0.5"));
    assert!(valid_ipv4("255.255.255.255"));
    for s in ["+1.2.3.4", "010.0.0.5", " 10.0.0.5", "10.0.0.5 ", "10.0.0.", "a.b.c.d"] {
        assert!(!valid_ipv4(s), "{s:?} is no dotted quad");
    }
    assert!(!valid_ipv4("10.0.0.256"));
    assert!(!valid_ipv4("10.0.0"));
    assert!(!valid_ipv4("10.0.0.5.6"));
    assert!(!valid_ipv4(""));
}

#[test]
fn a_short_batch_is_an_error() {
    let short = HelperReply { ok: true, mac: None, macs: Some(vec![None]), error: None };
    assert_eq!(
        batch_answer(short, 2),
        Err("helper answered 1 of 2 addresses".to_string())
    );
    let none = HelperReply { ok: true, mac: None, macs: None, error: None };
    assert_eq!(
        batch_answer(none, 2),
        Err("helper answered a batch without results".to_string())
    );
    let refused = HelperReply { ok: false, mac: None, macs: None, error: None };
    assert_eq!(batch_answer(refused, 2), Err("helper error".to_string()));
}

#[test]
fn a_whole_subnet_is_asked_in_batches() {
    let ips: Vec<String> = (0..300).map(|i| format!("10.0.{}.{}", i / 256, i % 256)).collect();
    let all = batches(&ips);
    let sizes: Vec<usize> = all.iter().map(|b| b.len()).collect();
    assert_eq!(sizes, vec![128, 128, 44]);
    assert_eq!(all.concat(), ips);
    assert!(batches(&vec![]).is_empty());
    assert_eq!(batch_timeout(0), 5000);
    assert_eq!(batch_timeout(2), 5300);
    assert_eq!(batch_timeout(1000), 24200);
}

#[test]
fn a_helper_that_stopped_answering_is_not_asked_again() {
    let mut client = HelperClient::new();
    assert!(client.ready().is_ok());
    assert_eq!(client.receive(Ok("  {} \r".to_string())), Ok("{}".to_string()));
    assert!(client.ready().is_ok());
    assert_eq!(
        client.receive(Ok("  ".to_string())),
        Err("helper closed the connection".to_string())
    );
    assert_eq!(client.ready(), Err("helper is no longer usable".to_string()));
    let mut client = HelperClient::new();
    let late = client.receive(Err("helper did not answer in time".to_string()));
    assert_eq!(late, Err("helper did not answer in time".to_string()));
    assert!(client.ready().is_err());
}

#[test]
fn a_line_ends_at_the_newline() {
    let mut line = LineBuffer::new();
    for b in "hé".bytes() {
        assert!(matches!(line.push(b), LineStep::More));
    }
    match line.push(b'\n') {
        LineStep::Line(s) => assert_eq!(s, "hé"),
        other => panic!("{other:?}"),
    }
    line.push(0xff);
    assert!(matches!(line.push(b'\n'), LineStep::Garbled(_)));
    assert!(matches!(line.push(b'\n'), LineStep::Line(_)), "a new line begins empty");
}

#[test]
fn a_request_frame_asks_who_has_the_address() {
    let mac = [0x02, 0, 0, 0, 0, 0x01];
    let f = request_frame(&mac, 0x0A00_0002, 0x0A00_0005);
    assert_eq!(f.len(), 42);
    assert_eq!(&f[0..6], &[0xff; 6]);
    assert_eq!(&f[6..12], &mac);
    assert_eq!(&f[12..22], &[8, 6, 0, 1, 8, 0, 6, 4, 0, 1]);
    assert_eq!(&f[22..28], &mac);
    assert_eq!(&f[28..32], &[10, 0, 0, 2]);
    assert_eq!(&f[38..42], &[10, 0, 0, 5]);
    assert_eq!(reply_mac(&f, 0x0A00_0002), None, "a request is no reply");
    let mut answer = request_frame(&[0x90, 0x48, 0x46, 0x10, 0x3b, 0x7a], 0x0A00_0005, 0x0A00_0002);
    answer[21] = 2;
    assert_eq!(reply_mac(&answer, 0x0A00_0005).as_deref(), Some("90:48:46:10:3b:7a"));
    assert_eq!(reply_mac(&answer, 0x0A00_0006), None);
    assert_eq!(reply_mac(&answer[..41], 0x0A00_0005), None);
}

const ROUTES: &str = "Iface\tDestination\tGateway \tFlags\tRefCnt\tUse\tMetric\tMask\t\tMTU\tWindow\tIRTT\n\
eth0\t00000000\t0100000A\t0003\t0\t0\t100\t00000000\t0\t0\t0\n\
eth0\t0000000A\t00000000\t0001\t0\t0\t100\t000000FF\t0\t0\t0\n\
wlan0\t0001000A\t00000000\t0001\t0\t0\t600\t00FFFFFF\t0\t0\t0\n";

#[test]
fn the_most_specific_route_wins() {
    assert_eq!(route_interface(ROUTES, 0x0A00_0105).as_deref(), Some("wlan0"));
    assert_eq!(route_interface(ROUTES, 0x0A05_0105).as_deref(), Some("eth0"));
    assert_eq!(route_interface(ROUTES, 0x0808_0808).as_deref(), Some("eth0"));
    assert_eq!(route_interface("header only\n", 1), None);
}

#[test]
fn a_hardware_address_has_six_bytes() {
    assert_eq!(
        parse_hardware_address("02:00:00:00:00:0a\n"),
        Some(vec![2, 0, 0, 0, 0, 10])
    );
    assert_eq!(parse_hardware_address("02:00:00:00:00"), None);
    assert_eq!(parse_hardware_address("02:00:00:zz:00:00:0a"), Some(vec![2, 0, 0, 0, 0, 10]));
}

#[test]
fn a_failed_batch_leaves_its_slots_empty() {
    assert_eq!(batch_slots(Err("no".to_string()), 3), vec![None, None, None]);
    assert_eq!(batch_slots(Ok(vec![Some("aa".to_string())]), 1), vec![Some("aa".to_string())]);
}

#[test]
fn batches_are_answered_as_one_or_not_at_all() {
    let aa = || Some("aa".to_string());
    assert_eq!(
        join_batches(vec![Ok(vec![aa(), None]), Ok(vec![]), Ok(vec![None, aa()])]),
        Ok(vec![aa(), None, None, aa()])
    );
    assert_eq!(join_batches(vec![]), Ok(vec![]));
    assert_eq!(
        join_batches(vec![Ok(vec![aa()]), Err("first".to_string()), Err("second".to_string())]),
        Err("first".to_string())
    );
}

#[test]
fn only_the_helper_that_was_launched_is_used() {
    assert_eq!(connect_step(true, Some(7), 7, 0), ConnectStep::Use);
    assert_eq!(connect_step(true, Some(7), 7, 60_000), ConnectStep::Use);
    assert_eq!(connect_step(true, Some(8), 7, 0), ConnectStep::Refuse);
    assert_eq!(connect_step(true, None, 7, 0), ConnectStep::Refuse, "unknown is not trusted");
    assert_eq!(connect_step(false, None, 7, 0), ConnectStep::Wait);
    assert_eq!(connect_step(false, None, 7, 44_999), ConnectStep::Wait);
    assert_eq!(connect_step(false, None, 7, 45_000), ConnectStep::GiveUp);
    assert_eq!(connect_error(ConnectStep::Use), None);
    assert_eq!(connect_error(ConnectStep::Wait), None);
    assert_eq!(
        connect_error(ConnectStep::Refuse).as_deref(),
        Some("the helper pipe is served by a different process; refusing to use it")
    );
    assert_eq!(
        connect_error(ConnectStep::GiveUp).as_deref(),
        Some("helper pipe did not appear (UAC declined or helper failed)")
    );
    assert_eq!(launched_helper(7), Ok(7));
    assert_eq!(launched_helper(0), Err("could not identify the helper process".to_string()));
}

#[test]
fn the_pipe_is_for_the_user_who_launched_the_helper() {
    let sid = "S-1-5-21-1-2-3-1001";
    assert_eq!(pipe_access(sid), "D:P(A;;GWGR;;;S-1-5-21-1-2-3-1001)(A;;GA;;;BA)");
    assert!(client_accepted(Some(sid), sid));
    assert!(!client_accepted(Some("S-1-5-21-1-2-3-1002"), sid));
    assert!(!client_accepted(None, sid), "a token that cannot be read");
}

#[test]
fn the_helper_reads_what_it_was_launched_with() {
    let name = pipe_name(12, 345);
    assert_eq!(name, "laninv-12-345");
    assert_eq!(pipe_path(&name), r"\\.\pipe\laninv-12-345");
    let line = helper_arguments(&name, "S-1-5");
    assert_eq!(line, "--pipe laninv-12-345 --owner S-1-5");
    let args = |line: &str| {
        let mut v = vec!["helper.exe".to_string()];
        v.extend(line.split(' ').map(String::from));
        v
    };
    match helper_mode(&args(&line)) {
        HelperMode::Pipe { name, owner } => {
            assert_eq!((name.as_str(), owner.as_str()), ("laninv-12-345", "S-1-5"));
        }
        other => panic!("{other:?}"),
    }
    assert!(matches!(helper_mode(&args("--stdio")), HelperMode::Stdio));
    assert!(matches!(helper_mode(&args("--pipe x")), HelperMode::Usage), "no owner");
    assert!(matches!(helper_mode(&args("--pipe x --owner")), HelperMode::Usage));
    assert!(matches!(helper_mode(&vec![]), HelperMode::Usage));
}

#[test]
fn drive_letters_have_no_case() {
    let paths = |p: &str| search_paths_from(Some(r"C:\app"), Some(p), Platform::Windows).len();
    assert_eq!(paths(r"c:\app\modern-ip-scanner-helper.exe"), 1);
    assert_eq!(paths("c:/app/modern-ip-scanner-helper.exe"), 1);
    assert_eq!(paths(r"d:\app\modern-ip-scanner-helper.exe"), 2);
    assert_eq!(paths(r"c:\App\modern-ip-scanner-helper.exe"), 2, "only the letter");
    assert_eq!(paths(r"c:app\modern-ip-scanner-helper.exe"), 2, "relative to the drive");
}

#[test]
fn the_inventory_lies_in_the_data_directory() {
    assert_eq!(
        database_path(None, Some("/home/u/.local/share"), Platform::Linux),
        "/home/u/.local/share/modern-ip-scanner/modern-ip-scanner.sqlite3"
    );
    assert_eq!(
        database_path(None, Some(r"C:\Users\u\AppData\Roaming"), Platform::Windows),
        r"C:\Users\u\AppData\Roaming\modern-ip-scanner\modern-ip-scanner.sqlite3"
    );
    assert_eq!(
        database_path(None, None, Platform::Linux),
        "./modern-ip-scanner/modern-ip-scanner.sqlite3"
    );
    assert_eq!(database_path(Some("/tmp/x"), Some("/home/u"), Platform::Linux), "/tmp/x");
}
