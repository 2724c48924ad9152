//! `ssdp`: UPnP/SSDP M-SEARCH discovery on 239.255.255.250:1900.
//!
//! M-SEARCH requests go out and HTTPU responses come back. Each responding
//! device is asked for the description document it advertises in LOCATION,
//! which is where its human-readable `friendlyName` lives. SERVER provides a
//! vendor hint.

use vstd::prelude::*;
use vstd::string::*;

use crate::bytes;
use crate::bytes::{lossy, utf8};
use crate::discovery::{Coverage, Strategy, StrategyModel, StrategyOutcome};
use crate::merge;
use crate::model::{Interface, InterfaceModel, NameSource, Observation, ObservationModel};
use crate::num::push_dec;
use crate::text;
use crate::text::{
    chars_of, clone_opt, contains_str, find, find_char, matches_at, slice, split_lines, str_eq,
    string_of, take_before, trim, trim_chars, upper_chars,
};
use crate::util;
use crate::util::ipv4_in_network_of;

verus! {

/// Device descriptions are small; no more than this is read.
pub const DESC_MAX_BYTES: usize = 65536;

#[derive(Debug, Clone, Copy)]
pub struct Ssdp {
    /// How long to listen for answers, in milliseconds.
    pub listen_ms: u64,
}

impl Default for Ssdp {
    fn default() -> (r: Self)
        ensures
            r.listen_ms == 3000,
    {
        Ssdp { listen_ms: 3000 }
    }
}

impl Strategy for Ssdp {
    open spec fn id_text(&self) -> Seq<char> {
        "ssdp"@
    }

    open spec fn covers(&self) -> Coverage {
        Coverage::PresenceOnly
    }

    open spec fn turn(&self) -> u8 {
        1
    }

    fn id(&self) -> (r: &'static str) {
        "ssdp"
    }

    fn coverage(&self) -> (r: Coverage) {
        Coverage::PresenceOnly
    }

    fn wave(&self) -> (r: u8) {
        1
    }
}

// ----- requests -----

/// An M-SEARCH request for a search target.
pub open spec fn search_text(st: Seq<char>, mx: nat) -> Seq<char> {
    "M-SEARCH * HTTP/1.1\r\nHOST: 239.255.255.250:1900\r\nMAN: \"ssdp:discover\"\r\nMX: "@
        + crate::num::dec(mx) + "\r\nST: "@ + st + "\r\nUSER-AGENT: laninv/0.1\r\n\r\n"@
}

/// Build an M-SEARCH request.
pub fn build_search(st: &str, mx: u64) -> (r: String)
    ensures
        r@ == search_text(st@, mx as nat),
{
    let mut out =
        "M-SEARCH * HTTP/1.1\r\nHOST: 239.255.255.250:1900\r\nMAN: \"ssdp:discover\"\r\nMX: ".to_string();
    push_dec(&mut out, mx);
    out.append("\r\nST: ");
    out.append(st);
    out.append("\r\nUSER-AGENT: laninv/0.1\r\n\r\n");
    out
}

/// The requests to send: for everything, and for root devices.
pub fn searches() -> (r: Vec<String>)
    ensures
        r.deep_view() == seq![search_text("ssdp:all"@, 2), search_text("upnp:rootdevice"@, 1)],
{
    let mut v: Vec<String> = Vec::new();
    v.push(build_search("ssdp:all", 2));
    v.push(build_search("upnp:rootdevice", 1));
    assert(v.deep_view() == seq![
        search_text("ssdp:all"@, 2),
        search_text("upnp:rootdevice"@, 1),
    ]);
    v
}

/// The request for a description document.
pub open spec fn get_text(authority: Seq<char>, path: Seq<char>) -> Seq<char> {
    "GET "@ + path + " HTTP/1.1\r\nHost: "@ + authority
        + "\r\nConnection: close\r\nUser-Agent: laninv/0.1\r\n\r\n"@
}

/// Build the request for a description document.
///
/// HTTP/1.1, not 1.0: Chromecast-family device servers (including the TVs
/// that embed it) simply never answer a 1.0 request. `Connection: close`
/// makes the end of the stream the end of the document.
pub fn build_get(authority: &str, path: &str) -> (r: String)
    ensures
        r@ == get_text(authority@, path@),
{
    let mut out = "GET ".to_string();
    out.append(path);
    out.append(" HTTP/1.1\r\nHost: ");
    out.append(authority);
    out.append("\r\nConnection: close\r\nUser-Agent: laninv/0.1\r\n\r\n");
    out
}

// ----- responses -----

/// The headers of a response that matter.
#[derive(Debug)]
pub struct HttpUResponse {
    pub usn: Option<String>,
    pub server: Option<String>,
    pub location: Option<String>,
    pub st: Option<String>,
}

/// What an [`HttpUResponse`] says.
#[verifier::ext_equal]
pub struct ResponseModel {
    pub usn: Option<Seq<char>>,
    pub server: Option<Seq<char>>,
    pub location: Option<Seq<char>>,
    pub st: Option<Seq<char>>,
}

impl DeepView for HttpUResponse {
    type V = ResponseModel;

    open spec fn deep_view(&self) -> ResponseModel {
        ResponseModel {
            usn: self.usn.deep_view(),
            server: self.server.deep_view(),
            location: self.location.deep_view(),
            st: self.st.deep_view(),
        }
    }
}

/// A response without any of the headers.
pub open spec fn no_headers() -> ResponseModel {
    ResponseModel { usn: None, server: None, location: None, st: None }
}

impl Default for HttpUResponse {
    fn default() -> (r: Self)
        ensures
            r.deep_view() == no_headers(),
    {
        HttpUResponse { usn: None, server: None, location: None, st: None }
    }
}

impl Clone for HttpUResponse {
    fn clone(&self) -> (r: Self)
        ensures
            r.deep_view() == self.deep_view(),
    {
        HttpUResponse {
            usn: clone_opt(&self.usn),
            server: clone_opt(&self.server),
            location: clone_opt(&self.location),
            st: clone_opt(&self.st),
        }
    }
}

/// The headers after one more line; a line without a colon is none.
pub open spec fn with_line(h: ResponseModel, line: Seq<char>) -> ResponseModel {
    match text::char_index(line, ':') {
        None => h,
        Some(i) => {
            let key = text::ascii_upper(line.take(i));
            let value = Some(text::trimmed(line.skip(i + 1)));
            if key == "USN"@ {
                ResponseModel { usn: value, ..h }
            } else if key == "SERVER"@ {
                ResponseModel { server: value, ..h }
            } else if key == "LOCATION"@ {
                ResponseModel { location: value, ..h }
            } else if key == "ST"@ || key == "NT"@ {
                ResponseModel { st: value, ..h }
            } else {
                h
            }
        },
    }
}

/// The headers of several lines.
pub open spec fn with_lines(lines: Seq<Seq<char>>) -> ResponseModel
    decreases lines.len(),
{
    if lines.len() == 0 {
        no_headers()
    } else {
        with_line(with_lines(lines.drop_last()), lines.last())
    }
}

/// What a packet says: it is text, and its first line reports success.
pub open spec fn response_of(data: Seq<u8>) -> Option<ResponseModel> {
    if !vstd::utf8::valid_utf8(data) {
        None
    } else {
        let lines = text::lines(vstd::utf8::decode_utf8(data));
        if lines.len() == 0 || !text::begins(lines[0], "HTTP/1.1 200"@) {
            None
        } else {
            Some(with_lines(lines.skip(1)))
        }
    }
}

/// Take in one header line.
fn read_line(h: &mut HttpUResponse, line: &Vec<char>)
    ensures
        final(h).deep_view() == with_line(old(h).deep_view(), line@),
{
    match find_char(line, ':') {
        None => {},
        Some(i) => {
            assert(line@.subrange(0, i as int) == line@.take(i as int));
            assert(line@.subrange(i + 1, line@.len() as int) == line@.skip(i + 1));
            let key = string_of(&upper_chars(&slice(line, 0, i)));
            let value = string_of(&trim_chars(&slice(line, i + 1, line.len())));
            let k = key.as_str();
            if str_eq(k, "USN") {
                h.usn = Some(value);
            } else if str_eq(k, "SERVER") {
                h.server = Some(value);
            } else if str_eq(k, "LOCATION") {
                h.location = Some(value);
            } else if str_eq(k, "ST") || str_eq(k, "NT") {
                h.st = Some(value);
            }
        },
    }
}

/// Parse an HTTPU (SSDP) response: start line + headers.
pub fn parse_httpu(data: &[u8]) -> (r: Option<HttpUResponse>)
    ensures
        r.deep_view() == response_of(data@),
{
    let s = match utf8(data) {
        Some(s) => s,
        None => {
            return None;
        },
    };
    let lines = split_lines(&chars_of(s.as_str()));
    let ghost all = lines.deep_view();
    if lines.len() == 0 {
        return None;
    }
    proof {
        crate::seqs::lemma_chars_deep_view(lines@[0]);
        assert(all[0] == lines@[0]@);
    }
    if !matches_at(&lines[0], &chars_of("HTTP/1.1 200"), 0) {
        return None;
    }
    let mut out = HttpUResponse::default();
    let ghost rest = all.skip(1);
    let mut i: usize = 1;
    assert(rest.take(0) == Seq::<Seq<char>>::empty());
    while i < lines.len()
        invariant
            1 <= i <= lines.len(),
            all == lines.deep_view(),
            rest == all.skip(1),
            out.deep_view() == with_lines(rest.take(i - 1)),
        decreases lines.len() - i,
    {
        proof {
            crate::seqs::lemma_chars_deep_view(lines@[i as int]);
            assert(all[i as int] == lines@[i as int]@);
            assert(rest.take(i as int).drop_last() == rest.take(i - 1));
            assert(rest.take(i as int).last() == all[i as int]);
        }
        read_line(&mut out, &lines[i]);
        i = i + 1;
    }
    assert(rest.take(rest.len() as int) == rest);
    Some(out)
}

/// The host in a URL: what stands after `://`, up to a slash or a colon.
pub open spec fn url_host(url: Seq<char>) -> Option<Seq<char>> {
    match text::find_from(url, "://"@, 0) {
        Some(i) => Some(text::before_char(text::before_char(url.skip(i + 3), '/'), ':')),
        None => None,
    }
}

impl HttpUResponse {
    /// The host in the LOCATION header.
    pub fn location_host(&self) -> (r: Option<String>)
        ensures
            r.deep_view() == (match self.deep_view().location {
                Some(url) => url_host(url),
                None => None,
            }),
    {
        let url = match &self.location {
            Some(l) => chars_of(l.as_str()),
            None => {
                return None;
            },
        };
        let mark = chars_of("://");
        let n: usize = url.len();
        proof {
            reveal_strlit("://");
            assert("://"@.len() == 3);
            lemma_find_range(url@, mark@, 0);
        }
        match find(&url, &mark, 0) {
            Some(i) => {
                assert(url@.subrange(i + 3, url@.len() as int) == url@.skip(i + 3));
                let rest = slice(&url, i + 3, n);
                Some(string_of(&take_before(&take_before(&rest, '/'), ':')))
            },
            None => None,
        }
    }
}

/// What was found lies within the text.
proof fn lemma_find_range(s: Seq<char>, pat: Seq<char>, i: int)
    ensures
        match text::find_from(s, pat, i) {
            Some(k) => i <= k && k + pat.len() <= s.len(),
            None => true,
        },
    decreases s.len() - i,
{
    if !(i < 0 || i + pat.len() > s.len()) && !text::occurs_at(s, pat, i) && i != s.len() {
        lemma_find_range(s, pat, i + 1);
    }
}

// ----- device descriptions -----

/// A LOCATION URL as authority and path: a missing port is the HTTP default
/// and a missing path the root.
pub open spec fn location_parts(url: Seq<char>) -> Option<(Seq<char>, Seq<char>)> {
    let u = text::trimmed(url);
    if !text::begins(u, "http://"@) {
        None
    } else {
        let rest = u.skip("http://"@.len() as int);
        let authority = text::before_char(rest, '/');
        let path = match text::char_index(rest, '/') {
            Some(i) => rest.skip(i),
            None => "/"@,
        };
        if authority.len() == 0 {
            None
        } else if text::char_index(authority, ':') is Some {
            Some((authority, path))
        } else {
            Some((authority + ":80"@, path))
        }
    }
}

/// Split an SSDP `LOCATION` URL into (authority, path).
pub fn parse_location(url: &str) -> (r: Option<(String, String)>)
    ensures
        r.deep_view() == location_parts(url@),
{
    let u = trim_chars(&chars_of(url));
    let scheme = chars_of("http://");
    if !matches_at(&u, &scheme, 0) {
        return None;
    }
    assert(u@.subrange(scheme@.len() as int, u@.len() as int) == u@.skip(scheme@.len() as int));
    let rest = slice(&u, scheme.len(), u.len());
    let host = take_before(&rest, '/');
    let path = match find_char(&rest, '/') {
        Some(i) => {
            assert(rest@.subrange(i as int, rest@.len() as int) == rest@.skip(i as int));
            string_of(&slice(&rest, i, rest.len()))
        },
        None => "/".to_string(),
    };
    if host.len() == 0 {
        return None;
    }
    let mut authority = string_of(&host);
    if find_char(&host, ':').is_none() {
        authority.append(":80");
    }
    Some((authority, path))
}

/// The friendly name in a device description: the text between the first
/// opening tag and the closing tag after it, unless it is blank.
pub open spec fn friendly_name(xml: Seq<char>) -> Option<Seq<char>> {
    match text::find_from(xml, "<friendlyName>"@, 0) {
        Some(i) => {
            let start = i + "<friendlyName>"@.len();
            match text::find_from(xml, "</friendlyName>"@, start) {
                Some(end) => {
                    let name = text::trimmed(xml.subrange(start, end));
                    if name.len() > 0 {
                        Some(name)
                    } else {
                        None
                    }
                },
                None => None,
            }
        },
        None => None,
    }
}

/// Pull `<friendlyName>` out of a UPnP device description document.
pub fn extract_friendly_name(xml: &str) -> (r: Option<String>)
    ensures
        r.deep_view() == friendly_name(xml@),
{
    let v = chars_of(xml);
    let open_tag = chars_of("<friendlyName>");
    let close_tag = chars_of("</friendlyName>");
    let n: usize = v.len();
    proof {
        lemma_find_range(v@, open_tag@, 0);
    }
    let start: usize = match find(&v, &open_tag, 0) {
        Some(i) => {
            assert(i + open_tag@.len() <= n);
            i + open_tag.len()
        },
        None => {
            return None;
        },
    };
    proof {
        lemma_find_range(v@, close_tag@, start as int);
    }
    match find(&v, &close_tag, start) {
        Some(end) => {
            let name = trim_chars(&slice(&v, start, end));
            if name.len() == 0 {
                None
            } else {
                Some(string_of(&name))
            }
        },
        None => None,
    }
}

/// The friendly name in a document as it was received.
pub fn friendly_name_in(body: &[u8]) -> (r: Option<String>)
    ensures
        r.deep_view() == friendly_name(bytes::lossy_text(body@)),
{
    extract_friendly_name(lossy(body).as_str())
}

/// The name signal of an SSDP device.
pub open spec fn name_signal(friendly: Option<Seq<char>>) -> Option<(NameSource, Seq<char>)> {
    match friendly {
        Some(f) => if text::blank(f) {
            None
        } else {
            Some((NameSource::Ssdp, text::trimmed(f)))
        },
        None => None,
    }
}

/// The human name for an SSDP device, if one can be had.
///
/// The USN UUID is stable but meaningless to a person, so it is never used as
/// a name: a device without a `friendlyName` contributes vendor only and is
/// identified by its MAC instead.
pub fn ssdp_name(friendly: Option<String>) -> (r: Option<(NameSource, String)>)
    ensures
        r.deep_view() == name_signal(friendly.deep_view()),
{
    match friendly {
        Some(f) => {
            let t = trim(f.as_str());
            if t.as_str().is_empty() {
                None
            } else {
                Some((NameSource::Ssdp, t))
            }
        },
        None => None,
    }
}

// ----- the strategy -----

/// A response with the address it came from.
#[derive(Debug)]
pub struct SsdpDevice {
    pub ip: String,
    pub response: HttpUResponse,
}

impl DeepView for SsdpDevice {
    type V = (Seq<char>, ResponseModel);

    open spec fn deep_view(&self) -> (Seq<char>, ResponseModel) {
        (self.ip@, self.response.deep_view())
    }
}

/// By what responses of one device are recognised: its USN, or its address
/// where it gives none.
pub open spec fn device_mark(d: (Seq<char>, ResponseModel)) -> Seq<char> {
    match d.1.usn {
        Some(usn) => usn,
        None => "ip:"@ + d.0,
    }
}

/// The marks of devices.
pub open spec fn marks(s: Seq<(Seq<char>, ResponseModel)>) -> Seq<Seq<char>> {
    s.map_values(|d: (Seq<char>, ResponseModel)| device_mark(d))
}

/// The devices among responses: those on the link, the first response of each.
pub open spec fn one_per_device(
    responses: Seq<(Seq<char>, ResponseModel)>,
    iface: InterfaceModel,
) -> Seq<(Seq<char>, ResponseModel)>
    decreases responses.len(),
{
    if responses.len() == 0 {
        Seq::empty()
    } else {
        let rest = one_per_device(responses.drop_last(), iface);
        let d = responses.last();
        if util::on_link(d.0, iface.ipv4) && !marks(rest).contains(device_mark(d)) {
            rest.push(d)
        } else {
            rest
        }
    }
}

/// A device as an observation.
pub open spec fn ssdp_observation(
    d: (Seq<char>, ResponseModel),
    friendly: Option<Seq<char>>,
) -> ObservationModel {
    ObservationModel {
        ip: d.0,
        mac: None,
        name: name_signal(friendly),
        vendor: merge::first_of(
            d.1.server,
            match d.1.location {
                Some(url) => url_host(url),
                None => None,
            },
        ),
        source: "ssdp"@,
        confidence: 75,
    }
}

/// A friendly name that was fetched for a device, if there is one.
pub open spec fn fetched(names: Seq<Option<Seq<char>>>, i: int) -> Option<Seq<char>> {
    if 0 <= i < names.len() {
        names[i]
    } else {
        None
    }
}

/// The mark of a device.
fn mark_of(d: &SsdpDevice) -> (r: String)
    ensures
        r@ == device_mark(d.deep_view()),
{
    match &d.response.usn {
        Some(usn) => usn.clone(),
        None => {
            let mut s = "ip:".to_string();
            s.append(d.ip.as_str());
            s
        },
    }
}

impl Ssdp {
    /// Find the devices among responses.
    pub fn devices(&self, responses: Vec<SsdpDevice>, iface: &Interface) -> (r: Vec<SsdpDevice>)
        requires
            iface.deep_view().wf(),
        ensures
            r.deep_view() == one_per_device(responses.deep_view(), iface.deep_view()),
    {
        let ghost all = responses.deep_view();
        let ghost m = iface.deep_view();
        let mut seen: Vec<String> = Vec::new();
        let mut out: Vec<SsdpDevice> = Vec::new();
        let mut i: usize = 0;
        assert(seen.deep_view() == marks(out.deep_view()));
        while i < responses.len()
            invariant
                i <= responses.len(),
                all == responses.deep_view(),
                m == iface.deep_view(),
                m.wf(),
                out.deep_view() == one_per_device(all.take(i as int), m),
                seen.deep_view() == marks(out.deep_view()),
            decreases responses.len() - i,
        {
            let d = &responses[i];
            assert(all[i as int] == d.deep_view());
            assert(all.take(i + 1).drop_last() == all.take(i as int));
            if ipv4_in_network_of(d.ip.as_str(), iface) {
                let mark = mark_of(d);
                if !contains_str(&seen, mark.as_str()) {
                    let ghost so_far = out.deep_view();
                    let ghost marked = seen.deep_view();
                    let ghost text = mark@;
                    seen.push(mark);
                    assert(seen.deep_view() == marked.push(text));
                    out.push(SsdpDevice { ip: d.ip.clone(), response: d.response.clone() });
                    assert(out.deep_view() == so_far.push(all[i as int]));
                    assert(marks(so_far.push(all[i as int])) == marks(so_far).push(text));
                }
            }
            i = i + 1;
        }
        assert(all.take(all.len() as int) == all);
        out
    }

    /// Report the devices with the friendly names that were fetched, one slot
    /// for each device.
    pub fn report(&self, devices: &Vec<SsdpDevice>, names: &Vec<Option<String>>) -> (r:
        StrategyOutcome)
        ensures
            r.deep_view() == (StrategyModel {
                observations: Seq::new(
                    devices@.len(),
                    |i: int| ssdp_observation(
                        devices.deep_view()[i],
                        fetched(names.deep_view(), i),
                    ),
                ),
                problem: None,
            }),
    {
        let ghost all = devices.deep_view();
        let ghost ns = names.deep_view();
        let mut out: Vec<Observation> = Vec::new();
        let mut i: usize = 0;
        while i < devices.len()
            invariant
                i <= devices.len(),
                all == devices.deep_view(),
                ns == names.deep_view(),
                out.deep_view() == Seq::new(
                    i as nat,
                    |k: int| ssdp_observation(all[k], fetched(ns, k)),
                ),
            decreases devices.len() - i,
        {
            let d = &devices[i];
            assert(all[i as int] == d.deep_view());
            let friendly: Option<String> = if i < names.len() {
                assert(ns[i as int] == names@[i as int].deep_view());
                clone_opt(&names[i])
            } else {
                None
            };
            let vendor = match &d.response.server {
                Some(s) => Some(s.clone()),
                None => d.response.location_host(),
            };
            let ghost so_far = out.deep_view();
            let o = Observation {
                ip: d.ip.clone(),
                mac: None,
                name: ssdp_name(friendly),
                vendor,
                source: self.id().to_string(),
                confidence: 75,
            };
            let ghost model = o.deep_view();
            assert(model == ssdp_observation(all[i as int], fetched(ns, i as int)));
            out.push(o);
            assert(out.deep_view() == so_far.push(model));
            i = i + 1;
        }
        StrategyOutcome::ok(out)
    }
}

/// However often a device answers, it is reported once: no two devices of a
/// report have the same mark.
pub proof fn law_devices_are_reported_once(
    responses: Seq<(Seq<char>, ResponseModel)>,
    iface: InterfaceModel,
    i: int,
    j: int,
)
    requires
        0 <= i < j < one_per_device(responses, iface).len(),
    ensures
        device_mark(one_per_device(responses, iface)[i]) != device_mark(
            one_per_device(responses, iface)[j],
        ),
    decreases responses.len(),
{
    let rest = one_per_device(responses.drop_last(), iface);
    if j < rest.len() {
        law_devices_are_reported_once(responses.drop_last(), iface, i, j);
    } else {
        assert(marks(rest)[i] == device_mark(rest[i]));
    }
}

/// The header that a line names, in whatever case it is written, and nothing
/// where the line has no colon.
pub open spec fn names_header(line: Seq<char>, header: Seq<char>) -> bool {
    line.contains(':') && text::ascii_upper(text::before_char(line, ':')) == header
}

/// What a line names before its first colon.
proof fn lemma_named(line: Seq<char>)
    ensures
        match text::char_index(line, ':') {
            Some(i) => 0 <= i < line.len() && line[i] == ':' && line.contains(':')
                && text::before_char(line, ':') == line.take(i),
            None => !line.contains(':'),
        },
{
    let p = text::is_char(':');
    crate::seqs::lemma_first_found(line, p);
    match text::char_index(line, ':') {
        Some(i) => {
            assert(p(line[i]));
            assert(line.contains(':'));
        },
        None => {
            if line.contains(':') {
                let k = choose|k: int| 0 <= k < line.len() && line[k] == ':';
                assert(!p(line[k]));
            }
        },
    }
}

/// The names of the headers differ.
proof fn lemma_header_names()
    ensures
        "USN"@.len() == 3,
        "SERVER"@.len() == 6,
        "LOCATION"@.len() == 8,
        "ST"@.len() == 2,
        "NT"@.len() == 2,
        "ST"@ != "NT"@,
{
    reveal_strlit("USN");
    reveal_strlit("SERVER");
    reveal_strlit("LOCATION");
    reveal_strlit("ST");
    reveal_strlit("NT");
    assert("ST"@[0] != "NT"@[0]);
}

/// A header line says the value after its colon, without the white space around
/// it, of the header before its colon, in whatever case that is written. Every
/// other header stays as it is.
pub proof fn law_header_line_is_read(h: ResponseModel, name: Seq<char>, value: Seq<char>)
    requires
        !name.contains(':'),
    ensures
        ({
            let n = with_line(h, name + seq![':'] + value);
            let key = text::ascii_upper(name);
            let said = Some(text::trimmed(value));
            &&& n.usn == if key == "USN"@ {
                said
            } else {
                h.usn
            }
            &&& n.server == if key == "SERVER"@ {
                said
            } else {
                h.server
            }
            &&& n.location == if key == "LOCATION"@ {
                said
            } else {
                h.location
            }
            &&& n.st == if key == "ST"@ || key == "NT"@ {
                said
            } else {
                h.st
            }
        }),
        with_line(h, name) == h,
{
    lemma_header_names();
    text::law_first_char(name, value, ':');
    let line = name + seq![':'] + value;
    assert(line.take(name.len() as int) =~= name);
    assert(line.skip(name.len() as int + 1) =~= value);
}

/// A header is named by one of the lines from a place on.
pub open spec fn named_from(lines: Seq<Seq<char>>, i: int, header: Seq<char>) -> bool {
    exists|j: int| i <= j < lines.len() && names_header(#[trigger] lines[j], header)
}

/// A header is named by lines if it is by all but the last or by the last.
proof fn lemma_named_from(lines: Seq<Seq<char>>, i: int, header: Seq<char>)
    requires
        0 <= i < lines.len(),
    ensures
        named_from(lines, i, header) <==> named_from(lines.drop_last(), i, header) || names_header(
            lines.last(),
            header,
        ),
{
    let init = lines.drop_last();
    if named_from(lines, i, header) {
        let j = choose|j: int| i <= j < lines.len() && names_header(#[trigger] lines[j], header);
        if j < init.len() {
            assert(init[j] == lines[j]);
        }
    }
    if named_from(init, i, header) {
        let j = choose|j: int| i <= j < init.len() && names_header(#[trigger] init[j], header);
        assert(lines[j] == init[j]);
    }
    if names_header(lines.last(), header) {
        assert(lines[lines.len() - 1] == lines.last());
    }
}

/// Of several lines for one header the last counts.
pub proof fn law_last_header_counts(lines: Seq<Seq<char>>, i: int)
    requires
        0 <= i < lines.len(),
    ensures
        ({
            let h = with_lines(lines);
            let said = Some(
                text::trimmed(lines[i].skip(1int + text::before_char(lines[i], ':').len())),
            );
            &&& names_header(lines[i], "USN"@) && !named_from(lines, i + 1, "USN"@) ==> h.usn
                == said
            &&& names_header(lines[i], "SERVER"@) && !named_from(lines, i + 1, "SERVER"@)
                ==> h.server == said
            &&& names_header(lines[i], "LOCATION"@) && !named_from(lines, i + 1, "LOCATION"@)
                ==> h.location == said
            &&& (names_header(lines[i], "ST"@) || names_header(lines[i], "NT"@)) && !named_from(
                lines,
                i + 1,
                "ST"@,
            ) && !named_from(lines, i + 1, "NT"@) ==> h.st == said
        }),
    decreases lines.len(),
{
    lemma_header_names();
    let last = lines.last();
    lemma_named(last);
    if i < lines.len() - 1 {
        law_last_header_counts(lines.drop_last(), i);
        lemma_named_from(lines, i + 1, "USN"@);
        lemma_named_from(lines, i + 1, "SERVER"@);
        lemma_named_from(lines, i + 1, "LOCATION"@);
        lemma_named_from(lines, i + 1, "ST"@);
        lemma_named_from(lines, i + 1, "NT"@);
    }
}

/// A header that no line names is not there.
pub proof fn law_missing_header_is_missing(lines: Seq<Seq<char>>)
    ensures
        ({
            let h = with_lines(lines);
            &&& !named_from(lines, 0, "USN"@) ==> h.usn is None
            &&& !named_from(lines, 0, "SERVER"@) ==> h.server is None
            &&& !named_from(lines, 0, "LOCATION"@) ==> h.location is None
            &&& !named_from(lines, 0, "ST"@) && !named_from(lines, 0, "NT"@) ==> h.st is None
        }),
    decreases lines.len(),
{
    lemma_header_names();
    if lines.len() > 0 {
        law_missing_header_is_missing(lines.drop_last());
        lemma_named(lines.last());
        lemma_named_from(lines, 0, "USN"@);
        lemma_named_from(lines, 0, "SERVER"@);
        lemma_named_from(lines, 0, "LOCATION"@);
        lemma_named_from(lines, 0, "ST"@);
        lemma_named_from(lines, 0, "NT"@);
    }
}

/// A packet whose first line reports success is read line by line; any other is
/// nothing.
pub proof fn law_success_is_read(data: Seq<u8>, status: Seq<char>, rest: Seq<char>)
    requires
        vstd::utf8::valid_utf8(data),
        vstd::utf8::decode_utf8(data) == status + seq!['\r', '\n'] + rest,
        !status.contains('\n'),
        status.len() > 0,
        status.last() != '\r',
    ensures
        status.len() >= 12 && status.take(12) == "HTTP/1.1 200"@ ==> response_of(data) == Some(
            with_lines(text::lines(rest)),
        ),
        status.len() < 12 || status.take(12) != "HTTP/1.1 200"@ ==> response_of(data) is None,
{
    reveal_strlit("HTTP/1.1 200");
    text::law_line_then_the_rest(status, rest);
    let all = text::lines(vstd::utf8::decode_utf8(data));
    assert(all[0] == status);
    assert(all.skip(1) =~= text::lines(rest));
    if status.len() >= 12 {
        assert(status.subrange(0, 12) =~= status.take(12));
    }
}

/// The host of an address is what stands between the slashes after the scheme
/// and the next slash or colon.
pub proof fn law_host_of_an_address(scheme: Seq<char>, host: Seq<char>, rest: Seq<char>)
    requires
        !scheme.contains(':'),
        !host.contains('/'),
        !host.contains(':'),
        rest.len() > 0 ==> rest[0] == '/' || rest[0] == ':',
    ensures
        url_host(scheme + "://"@ + host + rest) == Some(host),
{
    reveal_strlit("://");
    let mark = "://"@;
    let url = scheme + mark + host + rest;
    let n = scheme.len() as int;
    assert(url.subrange(n, n + 3) =~= mark);
    assert forall|j: int| 0 <= j < n implies #[trigger] url[j] != mark[0] by {
        assert(url[j] == scheme[j]);
        if scheme[j] == ':' {
            assert(scheme.contains(':'));
        }
    }
    text::law_first_match(url, mark, 0, n);
    let after = url.skip(n + 3);
    assert(after =~= host + rest);
    text::law_first_char(host, rest, '/');
    text::law_first_char(host, rest, ':');
    if rest.len() == 0 {
        assert(after =~= host);
    } else if rest[0] == '/' {
        let more = rest.skip(1);
        assert(after =~= host + seq!['/'] + more);
        text::law_first_char(host, more, '/');
    } else {
        let more = rest.skip(1);
        assert(after =~= host + seq![':'] + more);
        lemma_before_both(host, more);
    }
}

/// What stands before the first slash and then before the first colon, where a
/// colon comes first.
proof fn lemma_before_both(host: Seq<char>, more: Seq<char>)
    requires
        !host.contains('/'),
        !host.contains(':'),
    ensures
        text::before_char(text::before_char(host + seq![':'] + more, '/'), ':') == host,
{
    let s = host + seq![':'] + more;
    let p = text::is_char('/');
    crate::seqs::lemma_first_found(s, p);
    let cut = text::before_char(s, '/');
    match text::char_index(s, '/') {
        Some(i) => {
            assert(p(s[i]));
            if i < host.len() {
                assert(host[i] == '/');
                assert(host.contains('/'));
            }
            assert(s[host.len() as int] == ':');
            assert(cut =~= host + seq![':'] + more.take(i - host.len() - 1));
            text::law_first_char(host, more.take(i - host.len() - 1), ':');
        },
        None => {
            text::law_first_char(host, more, ':');
        },
    }
}

/// An address in a response is the host with its port, eighty where it names
/// none, and the path, the root where it names none.
pub proof fn law_location_is_taken_apart(authority: Seq<char>, path: Seq<char>)
    requires
        authority.len() > 0,
        !authority.contains('/'),
        path.len() > 0 ==> path[0] == '/',
        text::trimmed("http://"@ + authority + path) == "http://"@ + authority + path,
    ensures
        ({
            let parts = location_parts("http://"@ + authority + path);
            &&& parts is Some
            &&& parts.unwrap().0 == if authority.contains(':') {
                authority
            } else {
                authority + ":80"@
            }
            &&& parts.unwrap().1 == if path.len() > 0 {
                path
            } else {
                "/"@
            }
        }),
{
    reveal_strlit("http://");
    let u = "http://"@ + authority + path;
    assert(u.subrange(0, 7) =~= "http://"@);
    let rest = u.skip(7);
    assert(rest =~= authority + path);
    if path.len() > 0 {
        let more = path.skip(1);
        assert(rest =~= authority + seq!['/'] + more);
        text::law_first_char(authority, more, '/');
        assert(rest.skip(authority.len() as int) =~= path);
    } else {
        assert(rest =~= authority);
        text::law_first_char(authority, path, '/');
    }
    lemma_named(authority);
}

/// The friendly name is what stands between its tags, without the white space
/// around it, and nothing where that is blank.
pub proof fn law_friendly_name_is_between_its_tags(
    before: Seq<char>,
    name: Seq<char>,
    after: Seq<char>,
)
    requires
        forall|i: int|
            0 <= i < before.len() ==> #[trigger] before[i] != '<' || (i + 1 < before.len() && before[i
                + 1] != 'f'),
        !name.contains('<'),
    ensures
        friendly_name(before + "<friendlyName>"@ + name + "</friendlyName>"@ + after)
            == if text::trimmed(name).len() > 0 {
            Some(text::trimmed(name))
        } else {
            None
        },
{
    reveal_strlit("<friendlyName>");
    reveal_strlit("</friendlyName>");
    let a = "<friendlyName>"@;
    let b = "</friendlyName>"@;
    let xml = before + a + name + b + after;
    let n = before.len() as int;
    assert(xml.subrange(n, n + a.len()) =~= a);
    assert forall|j: int| 0 <= j < n implies (#[trigger] xml[j] != a[0] || xml.subrange(
        j,
        j + a.len(),
    ) != a) by {
        assert(xml[j] == before[j]);
        if before[j] == '<' {
            assert(xml[j + 1] == before[j + 1]);
            assert(xml.subrange(j, j + a.len())[1] == xml[j + 1]);
        }
    }
    text::law_first_match(xml, a, 0, n);
    let start = n + a.len();
    let end = start + name.len();
    assert(xml.subrange(end, end + b.len()) =~= b);
    assert forall|j: int| start <= j < end implies #[trigger] xml[j] != b[0] by {
        assert(xml[j] == name[j - start]);
        if name[j - start] == '<' {
            assert(name.contains('<'));
        }
    }
    text::law_first_match(xml, b, start, end);
    assert(xml.subrange(start, end) =~= name);
}

/// By what answers are told to be of one device: the USN that they give, or
/// where they give none the address that they come from.
pub open spec fn known_by(d: (Seq<char>, ResponseModel)) -> Seq<char> {
    if d.1.usn is Some {
        d.1.usn.unwrap()
    } else {
        "ip:"@ + d.0
    }
}

/// Every device that answered from the link is reported. Answers are of one
/// device where they give the same USN, or where they give none and come from
/// the same address.
pub proof fn law_every_answer_is_reported(
    responses: Seq<(Seq<char>, ResponseModel)>,
    iface: InterfaceModel,
    i: int,
)
    requires
        0 <= i < responses.len(),
        util::on_link(responses[i].0, iface.ipv4),
    ensures
        exists|k: int|
            0 <= k < one_per_device(responses, iface).len() && known_by(
                #[trigger] one_per_device(responses, iface)[k],
            ) == known_by(responses[i]),
    decreases responses.len(),
{
    let init = responses.drop_last();
    let d = responses.last();
    let rest = one_per_device(init, iface);
    let found = one_per_device(responses, iface);
    if i < init.len() {
        law_every_answer_is_reported(init, iface, i);
        let k = choose|k: int|
            0 <= k < rest.len() && known_by(#[trigger] rest[k]) == known_by(init[i]);
        assert(found[k] == rest[k]);
    } else if marks(rest).contains(device_mark(d)) {
        let k = choose|k: int| 0 <= k < marks(rest).len() && marks(rest)[k] == device_mark(d);
        assert(found[k] == rest[k]);
    } else {
        assert(found[rest.len() as int] == d);
    }
}

/// What is reported of a device is the first answer it gave from the link, as
/// it gave it; and nothing is reported that is no answer from the link.
pub proof fn law_first_answer_is_reported(
    responses: Seq<(Seq<char>, ResponseModel)>,
    iface: InterfaceModel,
    k: int,
) -> (i: int)
    requires
        0 <= k < one_per_device(responses, iface).len(),
    ensures
        0 <= i < responses.len(),
        responses[i] == one_per_device(responses, iface)[k],
        util::on_link(responses[i].0, iface.ipv4),
        forall|j: int|
            0 <= j < i && util::on_link((#[trigger] responses[j]).0, iface.ipv4) ==> known_by(
                responses[j],
            ) != known_by(responses[i]),
    decreases responses.len(),
{
    let init = responses.drop_last();
    let n = init.len() as int;
    let rest = one_per_device(init, iface);
    let found = one_per_device(responses, iface);
    if k < rest.len() {
        let i = law_first_answer_is_reported(init, iface, k);
        assert(found[k] == rest[k]);
        assert(responses[i] == init[i]);
        assert forall|j: int|
            0 <= j < i && util::on_link((#[trigger] responses[j]).0, iface.ipv4) implies known_by(
            responses[j],
        ) != known_by(responses[i]) by {
            assert(init[j] == responses[j]);
        }
        i
    } else {
        assert forall|j: int|
            0 <= j < n && util::on_link((#[trigger] responses[j]).0, iface.ipv4) implies known_by(
            responses[j],
        ) != known_by(responses[n]) by {
            assert(init[j] == responses[j]);
            law_every_answer_is_reported(init, iface, j);
            let q = choose|q: int|
                0 <= q < rest.len() && known_by(#[trigger] rest[q]) == known_by(init[j]);
            assert(marks(rest)[q] == device_mark(rest[q]));
        }
        n
    }
}

/// What is observed of a device: its address, the name that its description
/// gives it, and as its maker what it says its server is, or else the host that
/// its description is at. It tells no MAC.
pub proof fn law_device_is_observed(d: (Seq<char>, ResponseModel), friendly: Option<Seq<char>>)
    ensures
        ({
            let o = ssdp_observation(d, friendly);
            &&& o.ip == d.0
            &&& o.mac is None
            &&& o.source == "ssdp"@
            &&& o.confidence == 75
            &&& d.1.server is Some ==> o.vendor == d.1.server
            &&& d.1.server is None && d.1.location is Some ==> o.vendor == url_host(
                d.1.location.unwrap(),
            )
            &&& d.1.server is None && d.1.location is None ==> o.vendor is None
            &&& friendly is Some && text::trimmed(friendly.unwrap()).len() > 0 ==> o.name == Some(
                (NameSource::Ssdp, text::trimmed(friendly.unwrap())),
            )
            &&& friendly is None || text::trimmed(friendly.unwrap()).len() == 0 ==> o.name is None
        }),
{
}

} // verus!
