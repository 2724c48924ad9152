//! Linux: what `getifaddrs`, `/proc/net/arp`, `/proc/net/route` and sysfs
//! report, in the library's terms.

use vstd::arithmetic::power2::pow2;
use vstd::prelude::*;
use vstd::string::*;

use crate::identity;
use crate::identity::{mac_from_bytes, normalize_mac};
use crate::model::{
    CidrModel, IfKind, Interface, InterfaceModel, Ipv4Cidr, NeighborEntry, NeighborModel,
};
use crate::num;
use crate::num::{parse_unsigned, push_hex2};
use crate::seqs;
use crate::text;
use crate::text::{
    chars_of, slice, sort_once, split_lines, split_words, starts_with, str_eq,
    string_of, trim,
};
use crate::util;
use crate::util::format_ipv4;

verus! {

// ----- routes -----

/// A default route through a gateway.
#[derive(Debug)]
pub struct Route {
    pub iface: String,
    pub gateway: u32,
}

/// What a [`Route`] says.
#[verifier::ext_equal]
pub struct RouteModel {
    pub iface: Seq<char>,
    pub gateway: u32,
}

impl DeepView for Route {
    type V = RouteModel;

    open spec fn deep_view(&self) -> RouteModel {
        RouteModel { iface: self.iface@, gateway: self.gateway }
    }
}

/// A number with its bytes in the other order.
pub open spec fn swapped(x: u32) -> u32 {
    util::quad(
        (x % 256) as nat,
        (x / 256 % 256) as nat,
        (x / 65536 % 256) as nat,
        (x / 16777216) as nat,
    )
}

/// Turn the bytes of a number round.
pub fn swap_bytes(x: u32) -> (r: u32)
    ensures
        r == swapped(x),
{
    (x % 256) * 16777216 + (x / 256 % 256) * 65536 + (x / 65536 % 256) * 256 + x / 16777216
}

/// A 32-bit number in hexadecimal.
pub open spec fn hex32(s: Seq<char>) -> Option<nat> {
    num::unsigned_text(s, 16, u32::MAX as nat)
}

/// Read a 32-bit number in hexadecimal.
pub fn parse_hex32(s: &str) -> (r: Option<u32>)
    ensures
        match r {
            Some(n) => hex32(s@) == Some(n as nat),
            None => hex32(s@) is None,
        },
{
    match parse_unsigned(s, 16, u32::MAX as u64) {
        Some(n) => Some(n as u32),
        None => None,
    }
}

/// The route that the columns of a line describe: a default route (the
/// destination is zero) through a gateway (flag 0x2).
pub open spec fn route_of(cols: Seq<Seq<char>>) -> Option<RouteModel> {
    if cols.len() < 4 {
        None
    } else {
        match (hex32(cols[1]), hex32(cols[2]), hex32(cols[3])) {
            (Some(dest), Some(gateway), Some(flags)) => if flags / 2 % 2 == 1 && dest == 0 {
                Some(RouteModel { iface: cols[0], gateway: swapped(gateway as u32) })
            } else {
                None
            },
            _ => None,
        }
    }
}

/// The routes that lines describe.
pub open spec fn routes_of(lines: Seq<Seq<char>>) -> Seq<RouteModel>
    decreases lines.len(),
{
    if lines.len() == 0 {
        Seq::empty()
    } else {
        let rest = routes_of(lines.drop_last());
        match route_of(text::words(lines.last())) {
            Some(r) => rest.push(r),
            None => rest,
        }
    }
}

/// A text without its first line.
pub open spec fn body_lines(s: Seq<char>) -> Seq<Seq<char>> {
    let all = text::lines(s);
    if all.len() == 0 {
        Seq::empty()
    } else {
        all.skip(1)
    }
}

/// The columns of a line as strings.
fn columns(line: &Vec<char>) -> (r: Vec<String>)
    ensures
        r.deep_view() == text::words(line@),
{
    let words = split_words(line);
    let ghost all = words.deep_view();
    let mut out: Vec<String> = Vec::new();
    let mut i: usize = 0;
    while i < words.len()
        invariant
            i <= words.len(),
            all == words.deep_view(),
            out.deep_view() == all.take(i as int),
        decreases words.len() - i,
    {
        proof {
            seqs::lemma_chars_deep_view(words@[i as int]);
        }
        assert(all[i as int] == words@[i as int]@);
        let ghost so_far = out.deep_view();
        out.push(string_of(&words[i]));
        assert(out.deep_view() == so_far.push(all[i as int]));
        assert(all.take(i + 1) == all.take(i as int).push(all[i as int]));
        i = i + 1;
    }
    assert(all.take(all.len() as int) == all);
    out
}

/// The columns of each line of a table but the first.
pub fn table_columns(s: &str) -> (r: Vec<Vec<String>>)
    ensures
        r.deep_view() == Seq::new(
            body_lines(s@).len(),
            |i: int| text::words(body_lines(s@)[i]),
        ),
{
    let lines = split_lines(&chars_of(s));
    let ghost all = lines.deep_view();
    let ghost body = body_lines(s@);
    let mut out: Vec<Vec<String>> = Vec::new();
    let mut i: usize = 1;
    while i < lines.len()
        invariant
            1 <= i,
            i <= lines.len() || (i == 1 && lines.len() == 0),
            all == lines.deep_view(),
            all == text::lines(s@),
            body == body_lines(s@),
            out.deep_view() == Seq::new((i - 1) as nat, |k: int| text::words(body[k])),
        decreases lines.len() - i,
    {
        proof {
            seqs::lemma_chars_deep_view(lines@[i as int]);
            assert(all[i as int] == lines@[i as int]@);
            assert(body[i - 1] == all[i as int]);
        }
        let ghost so_far = out.deep_view();
        let cols = columns(&lines[i]);
        let ghost model = cols.deep_view();
        out.push(cols);
        assert(out.deep_view() == so_far.push(model));
        i = i + 1;
    }
    out
}

/// Read the route that columns describe.
fn parse_route(cols: &Vec<String>) -> (r: Option<Route>)
    ensures
        r.deep_view() == route_of(cols.deep_view()),
{
    let ghost all = cols.deep_view();
    if cols.len() < 4 {
        return None;
    }
    assert(all[0] == cols@[0]@ && all[1] == cols@[1]@ && all[2] == cols@[2]@ && all[3]
        == cols@[3]@);
    let dest: u32 = match parse_hex32(cols[1].as_str()) {
        Some(n) => n,
        None => {
            return None;
        },
    };
    let gateway: u32 = match parse_hex32(cols[2].as_str()) {
        Some(n) => n,
        None => {
            return None;
        },
    };
    let flags: u32 = match parse_hex32(cols[3].as_str()) {
        Some(n) => n,
        None => {
            return None;
        },
    };
    // RTF_GATEWAY (0x2); destination 0 = default route.
    if flags / 2 % 2 == 1 && dest == 0 {
        Some(Route { iface: cols[0].clone(), gateway: swap_bytes(gateway) })
    } else {
        None
    }
}

/// Parse gateway routes out of `/proc/net/route`.
pub fn parse_routes(s: &str) -> (r: Vec<Route>)
    ensures
        r.deep_view() == routes_of(body_lines(s@)),
{
    let rows = table_columns(s);
    let ghost body = body_lines(s@);
    let mut out: Vec<Route> = Vec::new();
    let mut i: usize = 0;
    assert(rows.deep_view().len() == body.len());
    while i < rows.len()
        invariant
            i <= rows.len(),
            body == body_lines(s@),
            rows.deep_view() == Seq::new(body.len(), |k: int| text::words(body[k])),
            rows@.len() == body.len(),
            out.deep_view() == routes_of(body.take(i as int)),
        decreases rows.len() - i,
    {
        assert(rows.deep_view()[i as int] == rows@[i as int].deep_view());
        assert(body.take(i + 1).drop_last() == body.take(i as int));
        if let Some(route) = parse_route(&rows[i]) {
            let ghost so_far = out.deep_view();
            let ghost model = route.deep_view();
            out.push(route);
            assert(out.deep_view() == so_far.push(model));
        }
        i = i + 1;
    }
    assert(body.take(body.len() as int) == body);
    out
}

// ----- neighbors -----

/// A number in hexadecimal, with or without `0x` before it; zero where it is
/// none.
pub open spec fn flags_of(s: Seq<char>) -> nat {
    match hex32(if text::begins(s, "0x"@) {
        s.skip(2)
    } else {
        s
    }) {
        Some(n) => n,
        None => 0,
    }
}

/// The neighbor that the columns of a line describe. Flag 0x2 marks an entry
/// that is complete.
pub open spec fn neighbor_of(cols: Seq<Seq<char>>, entries: Seq<LinkModel>) -> Option<
    NeighborModel,
> {
    if cols.len() < 6 {
        None
    } else {
        match identity::mac_of(cols[3]) {
            Some(mac) => Some(
                NeighborModel {
                    ip: cols[0],
                    mac,
                    interface_index: index_of(entries, cols[5]),
                    reachable: flags_of(cols[2]) / 2 % 2 == 1,
                },
            ),
            None => None,
        }
    }
}

/// The neighbors that lines describe.
pub open spec fn neighbors_of(lines: Seq<Seq<char>>, entries: Seq<LinkModel>) -> Seq<NeighborModel>
    decreases lines.len(),
{
    if lines.len() == 0 {
        Seq::empty()
    } else {
        let rest = neighbors_of(lines.drop_last(), entries);
        match neighbor_of(text::words(lines.last()), entries) {
            Some(n) => rest.push(n),
            None => rest,
        }
    }
}

/// Read the flags of a neighbor.
fn parse_flags(s: &str) -> (r: u32)
    ensures
        r == flags_of(s@),
{
    let v = chars_of(s);
    let digits: String = if starts_with(s, "0x") {
        proof {
            reveal_strlit("0x");
            assert("0x"@.len() == 2);
            assert(v@.subrange(2, v@.len() as int) == s@.skip(2));
        }
        string_of(&slice(&v, 2, v.len()))
    } else {
        s.to_string()
    };
    match parse_hex32(digits.as_str()) {
        Some(n) => n,
        None => 0,
    }
}

/// Read the neighbor that columns describe.
fn parse_neighbor(cols: &Vec<String>, entries: &Vec<LinkEntry>) -> (r: Option<NeighborEntry>)
    ensures
        r.deep_view() == neighbor_of(cols.deep_view(), entries.deep_view()),
{
    let ghost all = cols.deep_view();
    if cols.len() < 6 {
        return None;
    }
    assert(all[0] == cols@[0]@ && all[2] == cols@[2]@ && all[3] == cols@[3]@ && all[5]
        == cols@[5]@);
    match normalize_mac(cols[3].as_str()) {
        Some(mac) => {
            let flags: u32 = parse_flags(cols[2].as_str());
            Some(
                NeighborEntry {
                    ip: cols[0].clone(),
                    mac,
                    interface_index: find_index(entries, cols[5].as_str()),
                    reachable: flags / 2 % 2 == 1,
                },
            )
        },
        None => None,
    }
}

/// Parse `/proc/net/arp` (IPv4 only). The interface of each neighbor is the
/// one among `entries` that has the name in the last column.
pub fn parse_neighbors(s: &str, entries: &Vec<LinkEntry>) -> (r: Vec<NeighborEntry>)
    ensures
        r.deep_view() == neighbors_of(body_lines(s@), entries.deep_view()),
{
    let rows = table_columns(s);
    let ghost body = body_lines(s@);
    let mut out: Vec<NeighborEntry> = Vec::new();
    let mut i: usize = 0;
    assert(rows.deep_view().len() == body.len());
    while i < rows.len()
        invariant
            i <= rows.len(),
            body == body_lines(s@),
            rows.deep_view() == Seq::new(body.len(), |k: int| text::words(body[k])),
            rows@.len() == body.len(),
            out.deep_view() == neighbors_of(body.take(i as int), entries.deep_view()),
        decreases rows.len() - i,
    {
        assert(rows.deep_view()[i as int] == rows@[i as int].deep_view());
        assert(body.take(i + 1).drop_last() == body.take(i as int));
        if let Some(n) = parse_neighbor(&rows[i], entries) {
            let ghost so_far = out.deep_view();
            let ghost model = n.deep_view();
            out.push(n);
            assert(out.deep_view() == so_far.push(model));
        }
        i = i + 1;
    }
    assert(body.take(body.len() as int) == body);
    out
}

// ----- interfaces -----

/// The kind of an interface by its name.
pub open spec fn kind_of_name(name: Seq<char>) -> IfKind {
    if name == "lo"@ {
        IfKind::Loopback
    } else if text::begins(name, "wl"@) {
        IfKind::Wireless
    } else if text::begins(name, "eth"@) || text::begins(name, "en"@) {
        IfKind::Ethernet
    } else if text::begins(name, "docker"@) || text::begins(name, "br-"@) || text::begins(
        name,
        "veth"@,
    ) || text::begins(name, "virbr"@) || text::begins(name, "tun"@) || text::begins(name, "tap"@) {
        IfKind::Virtual
    } else {
        IfKind::Other
    }
}

/// The kind of an interface by its name.
pub fn interface_kind(name: &str) -> (r: IfKind)
    ensures
        r == kind_of_name(name@),
{
    if str_eq(name, "lo") {
        IfKind::Loopback
    } else if starts_with(name, "wl") {
        IfKind::Wireless
    } else if starts_with(name, "eth") || starts_with(name, "en") {
        IfKind::Ethernet
    } else if starts_with(name, "docker") || starts_with(name, "br-") || starts_with(name, "veth")
        || starts_with(name, "virbr") || starts_with(name, "tun") || starts_with(name, "tap") {
        IfKind::Virtual
    } else {
        IfKind::Other
    }
}

/// The loopback interface is up, and so is one whose operational state says
/// so or cannot be read.
pub open spec fn up_by(name: Seq<char>, state: Option<Seq<char>>) -> bool {
    name == "lo"@ || match state {
        Some(s) => text::trimmed(s) == "up"@ || text::trimmed(s) == "unknown"@,
        None => true,
    }
}

/// Operational state from sysfs. `lo` is always up; anything we cannot read
/// is assumed up so a missing sysfs never hides the only usable interface.
pub fn interface_is_up(name: &str, state: Option<&str>) -> (r: bool)
    ensures
        r == up_by(name@, state.deep_view()),
{
    if str_eq(name, "lo") {
        return true;
    }
    match state {
        Some(s) => {
            let t = trim(s);
            str_eq(t.as_str(), "up") || str_eq(t.as_str(), "unknown")
        },
        None => true,
    }
}

/// How many bits of a number are set.
pub open spec fn ones(x: nat) -> nat
    decreases x,
{
    if x == 0 {
        0
    } else {
        x % 2 + ones(x / 2)
    }
}

/// A number below a power of two has no more bits set than the exponent says.
proof fn lemma_ones_bound(x: nat, k: nat)
    requires
        x < pow2(k),
    ensures
        ones(x) <= k,
    decreases k,
{
    if x > 0 {
        if k == 0 {
            vstd::arithmetic::power2::lemma2_to64();
        } else {
            vstd::arithmetic::power2::lemma_pow2_unfold(k);
            lemma_ones_bound(x / 2, (k - 1) as nat);
        }
    }
}

/// Count the bits that are set.
pub fn count_ones(x: u32) -> (r: u8)
    ensures
        r == ones(x as nat),
        r <= 32,
{
    proof {
        vstd::arithmetic::power2::lemma2_to64();
        lemma_ones_bound(x as nat, 32);
    }
    let mut n: u8 = 0;
    let mut rest: u32 = x;
    while rest > 0
        invariant
            n + ones(rest as nat) == ones(x as nat),
            ones(x as nat) <= 32,
        decreases rest,
    {
        n = n + (rest % 2) as u8;
        rest = rest / 2;
    }
    n
}

/// The first `n` groups of an IPv6 address: two bytes each, in hexadecimal,
/// with colons between them.
pub open spec fn groups_text(b: Seq<u8>, n: int) -> Seq<char>
    decreases n,
{
    if n <= 0 {
        Seq::empty()
    } else {
        let group = num::hex2(b[2 * (n - 1)]) + num::hex2(b[2 * (n - 1) + 1]);
        if n == 1 {
            group
        } else {
            groups_text(b, n - 1) + seq![':'] + group
        }
    }
}

/// Spell an IPv6 address.
pub fn format_ipv6(b: &Vec<u8>) -> (r: String)
    ensures
        r@ == groups_text(b@, (b@.len() / 2) as int),
{
    let len: usize = b.len();
    let n: usize = len / 2;
    let mut out = String::new();
    let mut i: usize = 0;
    while i < n
        invariant
            i <= n,
            n == len / 2,
            len == b@.len(),
            out@ == groups_text(b@, i as int),
        decreases n - i,
    {
        if i > 0 {
            out.push(':');
        }
        push_hex2(&mut out, b[2 * i]);
        push_hex2(&mut out, b[2 * i + 1]);
        assert(out@ == groups_text(b@, i + 1));
        i = i + 1;
    }
    out
}

/// An address that an interface has.
#[derive(Debug)]
pub enum LinkAddress {
    V4 { addr: u32, mask: Option<u32> },
    V6(Vec<u8>),
    Hardware(Vec<u8>),
    Other,
}

/// What a [`LinkAddress`] says.
#[verifier::ext_equal]
pub enum LinkAddressModel {
    V4 { addr: u32, mask: Option<u32> },
    V6(Seq<u8>),
    Hardware(Seq<u8>),
    Other,
}

/// One entry of the list that `getifaddrs` returns, with the index that the
/// system has for the interface.
#[derive(Debug)]
pub struct LinkEntry {
    pub name: String,
    pub index: u32,
    pub address: LinkAddress,
}

/// What a [`LinkEntry`] says.
#[verifier::ext_equal]
pub struct LinkModel {
    pub name: Seq<char>,
    pub index: u32,
    pub address: LinkAddressModel,
}

impl DeepView for LinkEntry {
    type V = LinkModel;

    open spec fn deep_view(&self) -> LinkModel {
        LinkModel {
            name: self.name@,
            index: self.index,
            address: match self.address {
                LinkAddress::V4 { addr, mask } => LinkAddressModel::V4 { addr, mask },
                LinkAddress::V6(b) => LinkAddressModel::V6(b@),
                LinkAddress::Hardware(b) => LinkAddressModel::Hardware(b@),
                LinkAddress::Other => LinkAddressModel::Other,
            },
        }
    }
}

/// The condition of belonging to an interface.
pub open spec fn belongs_to(name: Seq<char>) -> spec_fn(LinkModel) -> bool {
    |e: LinkModel| e.name == name
}

/// The index of an interface: that of its first entry, 0 where it has none.
pub open spec fn index_of(entries: Seq<LinkModel>, name: Seq<char>) -> u32 {
    match seqs::first_where(entries, belongs_to(name)) {
        Some(i) => entries[i].index,
        None => 0,
    }
}

/// The IPv4 addresses of an interface.
pub open spec fn v4_of(entries: Seq<LinkModel>, name: Seq<char>) -> Seq<CidrModel>
    decreases entries.len(),
{
    if entries.len() == 0 {
        Seq::empty()
    } else {
        let rest = v4_of(entries.drop_last(), name);
        let e = entries.last();
        match e.address {
            LinkAddressModel::V4 { addr, mask } => if e.name == name {
                rest.push(
                    CidrModel {
                        addr: util::ipv4_text(addr),
                        prefix: match mask {
                            Some(m) => ones(m as nat) as u8,
                            None => 0,
                        },
                    },
                )
            } else {
                rest
            },
            _ => rest,
        }
    }
}

/// The IPv6 addresses of an interface.
pub open spec fn v6_of(entries: Seq<LinkModel>, name: Seq<char>) -> Seq<Seq<char>>
    decreases entries.len(),
{
    if entries.len() == 0 {
        Seq::empty()
    } else {
        let rest = v6_of(entries.drop_last(), name);
        let e = entries.last();
        match e.address {
            LinkAddressModel::V6(b) => if e.name == name {
                rest.push(groups_text(b, (b.len() / 2) as int))
            } else {
                rest
            },
            _ => rest,
        }
    }
}

/// The hardware address of an interface: the last one of six bytes or more.
pub open spec fn hardware_of(entries: Seq<LinkModel>, name: Seq<char>) -> Option<Seq<char>>
    decreases entries.len(),
{
    if entries.len() == 0 {
        None
    } else {
        let rest = hardware_of(entries.drop_last(), name);
        let e = entries.last();
        match e.address {
            LinkAddressModel::Hardware(b) => if e.name == name && b.len() >= 6 {
                identity::mac_of_bytes(b)
            } else {
                rest
            },
            _ => rest,
        }
    }
}

/// The condition of being an interface's route to a gateway.
pub open spec fn leads_out(name: Seq<char>) -> spec_fn(RouteModel) -> bool {
    |r: RouteModel| r.iface == name && r.gateway != 0
}

/// The gateway of an interface.
pub open spec fn gateway_of(routes: Seq<RouteModel>, name: Seq<char>) -> Option<Seq<char>> {
    match seqs::first_where(routes, leads_out(name)) {
        Some(i) => Some(util::ipv4_text(routes[i].gateway)),
        None => None,
    }
}

/// An interface, unless it has neither an IPv4 address nor a hardware
/// address.
pub open spec fn interface_of(
    entries: Seq<LinkModel>,
    routes: Seq<RouteModel>,
    name: Seq<char>,
    state: Option<Seq<char>>,
) -> Option<InterfaceModel> {
    let ipv4 = v4_of(entries, name);
    let mac = hardware_of(entries, name);
    if ipv4.len() == 0 && mac is None {
        None
    } else {
        Some(
            InterfaceModel {
                name,
                description: None,
                mac,
                ipv4,
                ipv6: v6_of(entries, name),
                gateway_v4: gateway_of(routes, name),
                gateway_mac: None,
                index: index_of(entries, name),
                kind: kind_of_name(name),
                up: up_by(name, state),
            },
        )
    }
}

/// The names that entries have.
pub open spec fn names_of(entries: Seq<LinkModel>) -> Seq<Seq<char>> {
    Seq::new(entries.len(), |i: int| entries[i].name)
}

/// The interfaces with the first `n` of some names, with a state for each
/// name.
pub open spec fn assembled(
    entries: Seq<LinkModel>,
    routes: Seq<RouteModel>,
    names: Seq<Seq<char>>,
    states: Seq<Option<Seq<char>>>,
    n: int,
) -> Seq<InterfaceModel>
    decreases n,
{
    if n <= 0 {
        Seq::empty()
    } else {
        let rest = assembled(entries, routes, names, states, n - 1);
        let state = if n - 1 < states.len() {
            states[n - 1]
        } else {
            None
        };
        match interface_of(entries, routes, names[n - 1], state) {
            Some(i) => rest.push(i),
            None => rest,
        }
    }
}

/// The names of the interfaces there are, in dictionary order, each once.
pub fn link_names(entries: &Vec<LinkEntry>) -> (r: Vec<String>)
    ensures
        r.deep_view() == text::sorted_once(names_of(entries.deep_view())),
{
    let ghost all = entries.deep_view();
    let mut names: Vec<String> = Vec::new();
    let mut i: usize = 0;
    while i < entries.len()
        invariant
            i <= entries.len(),
            all == entries.deep_view(),
            names.deep_view() == names_of(all.take(i as int)),
        decreases entries.len() - i,
    {
        assert(all[i as int].name == entries@[i as int].name@);
        let ghost so_far = names.deep_view();
        names.push(entries[i].name.clone());
        assert(names.deep_view() == so_far.push(all[i as int].name));
        assert(names_of(all.take(i + 1)) == names_of(all.take(i as int)).push(all[i as int].name));
        i = i + 1;
    }
    assert(all.take(all.len() as int) == all);
    sort_once(&names)
}

/// Collect the addresses of an interface.
fn addresses(entries: &Vec<LinkEntry>, name: &str) -> (r: (
    Vec<Ipv4Cidr>,
    Vec<String>,
    Option<String>,
))
    ensures
        r.0.deep_view() == v4_of(entries.deep_view(), name@),
        r.1.deep_view() == v6_of(entries.deep_view(), name@),
        r.2.deep_view() == hardware_of(entries.deep_view(), name@),
        forall|k: int| 0 <= k < r.0.deep_view().len() ==> (#[trigger] r.0.deep_view()[k]).wf(),
{
    let ghost all = entries.deep_view();
    let mut ipv4: Vec<Ipv4Cidr> = Vec::new();
    let mut ipv6: Vec<String> = Vec::new();
    let mut mac: Option<String> = None;
    let mut i: usize = 0;
    while i < entries.len()
        invariant
            i <= entries.len(),
            all == entries.deep_view(),
            ipv4.deep_view() == v4_of(all.take(i as int), name@),
            ipv6.deep_view() == v6_of(all.take(i as int), name@),
            mac.deep_view() == hardware_of(all.take(i as int), name@),
            forall|k: int|
                0 <= k < ipv4.deep_view().len() ==> (#[trigger] ipv4.deep_view()[k]).wf(),
        decreases entries.len() - i,
    {
        let e = &entries[i];
        assert(all[i as int] == e.deep_view());
        assert(all.take(i + 1).drop_last() == all.take(i as int));
        assert(all.take(i + 1).last() == all[i as int]);
        if str_eq(e.name.as_str(), name) {
            match &e.address {
                LinkAddress::V4 { addr, mask } => {
                    let prefix: u8 = match mask {
                        Some(m) => count_ones(*m),
                        None => 0,
                    };
                    let cidr = Ipv4Cidr { addr: format_ipv4(*addr), prefix };
                    let ghost so_far = ipv4.deep_view();
                    let ghost model = cidr.deep_view();
                    ipv4.push(cidr);
                    assert(ipv4.deep_view() == so_far.push(model));
                },
                LinkAddress::V6(b) => {
                    let t = format_ipv6(b);
                    let ghost so_far = ipv6.deep_view();
                    let ghost model = t@;
                    ipv6.push(t);
                    assert(ipv6.deep_view() == so_far.push(model));
                },
                LinkAddress::Hardware(b) => {
                    if b.len() >= 6 {
                        mac = mac_from_bytes(b.as_slice());
                    }
                },
                LinkAddress::Other => {},
            }
        }
        i = i + 1;
    }
    assert(all.take(all.len() as int) == all);
    (ipv4, ipv6, mac)
}

/// Find the index of an interface.
fn find_index(entries: &Vec<LinkEntry>, name: &str) -> (r: u32)
    ensures
        r == index_of(entries.deep_view(), name@),
{
    let ghost all = entries.deep_view();
    let ghost p = belongs_to(name@);
    let mut i: usize = 0;
    while i < entries.len()
        invariant
            i <= entries.len(),
            all == entries.deep_view(),
            p == belongs_to(name@),
            forall|j: int| 0 <= j < i ==> !p(#[trigger] all[j]),
        decreases entries.len() - i,
    {
        assert(all[i as int] == entries@[i as int].deep_view());
        if str_eq(entries[i].name.as_str(), name) {
            proof {
                assert(seqs::is_first(all, p, i as int));
                seqs::lemma_first_is(all, p, i as int);
            }
            return entries[i].index;
        }
        i = i + 1;
    }
    proof {
        seqs::lemma_first_none(all, p);
    }
    0
}

/// Find the gateway of an interface.
fn find_gateway(routes: &Vec<Route>, name: &str) -> (r: Option<String>)
    ensures
        r.deep_view() == gateway_of(routes.deep_view(), name@),
{
    let ghost all = routes.deep_view();
    let ghost p = leads_out(name@);
    let mut i: usize = 0;
    while i < routes.len()
        invariant
            i <= routes.len(),
            all == routes.deep_view(),
            p == leads_out(name@),
            forall|j: int| 0 <= j < i ==> !p(#[trigger] all[j]),
        decreases routes.len() - i,
    {
        assert(all[i as int] == routes@[i as int].deep_view());
        if str_eq(routes[i].iface.as_str(), name) && routes[i].gateway != 0 {
            proof {
                assert(seqs::is_first(all, p, i as int));
                seqs::lemma_first_is(all, p, i as int);
            }
            return Some(format_ipv4(routes[i].gateway));
        }
        i = i + 1;
    }
    proof {
        seqs::lemma_first_none(all, p);
    }
    None
}

/// Put the interfaces together from what the system lists: their addresses
/// and indexes, the routes, and the operational state of each name that [`link_names`]
/// gives.
pub fn assemble(entries: &Vec<LinkEntry>, routes: &Vec<Route>, states: &Vec<Option<String>>) -> (r:
    Vec<Interface>)
    ensures
        r.deep_view() == assembled(
            entries.deep_view(),
            routes.deep_view(),
            text::sorted_once(names_of(entries.deep_view())),
            states.deep_view(),
            text::sorted_once(names_of(entries.deep_view())).len() as int,
        ),
        forall|k: int| 0 <= k < r.deep_view().len() ==> (#[trigger] r.deep_view()[k]).wf(),
{
    let names = link_names(entries);
    let ghost es = entries.deep_view();
    let ghost rs = routes.deep_view();
    let ghost ns = names.deep_view();
    let ghost ss = states.deep_view();
    let mut out: Vec<Interface> = Vec::new();
    let mut i: usize = 0;
    while i < names.len()
        invariant
            i <= names.len(),
            es == entries.deep_view(),
            rs == routes.deep_view(),
            ns == names.deep_view(),
            ss == states.deep_view(),
            out.deep_view() == assembled(es, rs, ns, ss, i as int),
            forall|k: int|
                0 <= k < out.deep_view().len() ==> (#[trigger] out.deep_view()[k]).wf(),
        decreases names.len() - i,
    {
        let name = names[i].as_str();
        assert(ns[i as int] == name@);
        let state: Option<&str> = if i < states.len() {
            assert(ss[i as int] == states@[i as int].deep_view());
            text::as_opt_str(&states[i])
        } else {
            None
        };
        let (ipv4, ipv6, mac) = addresses(entries, name);
        if ipv4.len() > 0 || mac.is_some() {
            let iface = Interface {
                name: names[i].clone(),
                description: None,
                mac,
                ipv4,
                ipv6,
                gateway_v4: find_gateway(routes, name),
                gateway_mac: None,
                index: find_index(entries, name),
                kind: interface_kind(name),
                up: interface_is_up(name, state),
            };
            let ghost so_far = out.deep_view();
            let ghost model = iface.deep_view();
            out.push(iface);
            assert(out.deep_view() == so_far.push(model));
        }
        i = i + 1;
    }
    out
}

/// The bytes of a number change places: the first is the last, and so on.
pub proof fn law_bytes_change_places(a: u8, b: u8, c: u8, d: u8)
    ensures
        swapped((a * 0x100_0000 + b * 0x1_0000 + c * 0x100 + d) as u32) == d * 0x100_0000 + c
            * 0x1_0000 + b * 0x100 + a,
{
    let x = (a * 0x100_0000 + b * 0x1_0000 + c * 0x100 + d) as u32;
    assert(x % 256 == d);
    assert(x / 256 == a * 0x1_0000 + b * 0x100 + c);
    assert(x / 65536 == a * 0x100 + b);
    assert(x / 16777216 == a);
}

/// The routes of a table are those of its lines that lead anywhere through a
/// gateway: the destination in the second column is zero and the flags in the
/// fourth have the second bit set. Each is by the interface in the first column
/// through the gateway in the third, whose bytes stand in the other order.
pub proof fn law_default_routes_are_read(lines: Seq<Seq<char>>, r: RouteModel)
    ensures
        routes_of(lines).contains(r) <==> exists|i: int|
            0 <= i < lines.len() && ({
                let cols = text::words(#[trigger] lines[i]);
                &&& cols.len() >= 4
                &&& hex32(cols[1]) == Some(0nat)
                &&& hex32(cols[2]) is Some
                &&& hex32(cols[3]) is Some
                &&& (hex32(cols[3]).unwrap() / 2) % 2 == 1
                &&& r.iface == cols[0]
                &&& r.gateway == swapped(hex32(cols[2]).unwrap() as u32)
            }),
    decreases lines.len(),
{
    if lines.len() > 0 {
        let init = lines.drop_last();
        law_default_routes_are_read(init, r);
        let rest = routes_of(init);
        let all = routes_of(lines);
        assert(lines[lines.len() - 1] == lines.last());
        assert(forall|i: int| 0 <= i < init.len() ==> #[trigger] lines[i] == init[i]);
        if route_of(text::words(lines.last())) is Some {
            text::lemma_push_contains(rest, all.last());
            assert(all.contains(r) <==> rest.contains(r) || r == all.last());
        }
        if rest.contains(r) {
            let i = choose|i: int|
                0 <= i < init.len() && ({
                    let cols = text::words(#[trigger] init[i]);
                    &&& cols.len() >= 4
                    &&& hex32(cols[1]) == Some(0nat)
                    &&& hex32(cols[2]) is Some
                    &&& hex32(cols[3]) is Some
                    &&& (hex32(cols[3]).unwrap() / 2) % 2 == 1
                    &&& r.iface == cols[0]
                    &&& r.gateway == swapped(hex32(cols[2]).unwrap() as u32)
                });
            assert(lines[i] == init[i]);
        }
    }
}

/// The neighbors of a table are those of its lines that have a MAC in the
/// fourth column: at the address in the first, on the interface in the sixth,
/// and reachable where the flags in the third have the second bit set.
pub proof fn law_neighbors_are_read(
    lines: Seq<Seq<char>>,
    entries: Seq<LinkModel>,
    n: NeighborModel,
)
    ensures
        neighbors_of(lines, entries).contains(n) <==> exists|i: int|
            0 <= i < lines.len() && ({
                let cols = text::words(#[trigger] lines[i]);
                &&& cols.len() >= 6
                &&& identity::mac_of(cols[3]) == Some(n.mac)
                &&& n.ip == cols[0]
                &&& n.interface_index == index_of(entries, cols[5])
                &&& n.reachable == ((flags_of(cols[2]) / 2) % 2 == 1)
            }),
    decreases lines.len(),
{
    if lines.len() > 0 {
        let init = lines.drop_last();
        law_neighbors_are_read(init, entries, n);
        let rest = neighbors_of(init, entries);
        let all = neighbors_of(lines, entries);
        assert(lines[lines.len() - 1] == lines.last());
        assert(forall|i: int| 0 <= i < init.len() ==> #[trigger] lines[i] == init[i]);
        if neighbor_of(text::words(lines.last()), entries) is Some {
            text::lemma_push_contains(rest, all.last());
            assert(all.contains(n) <==> rest.contains(n) || n == all.last());
        }
        if rest.contains(n) {
            let i = choose|i: int|
                0 <= i < init.len() && ({
                    let cols = text::words(#[trigger] init[i]);
                    &&& cols.len() >= 6
                    &&& identity::mac_of(cols[3]) == Some(n.mac)
                    &&& n.ip == cols[0]
                    &&& n.interface_index == index_of(entries, cols[5])
                    &&& n.reachable == ((flags_of(cols[2]) / 2) % 2 == 1)
                });
            assert(lines[i] == init[i]);
        }
    }
}

/// Flags are the hexadecimal number they spell, with or without `0x`.
pub proof fn law_flags_are_hexadecimal(h: Seq<char>, n: nat)
    requires
        hex32(h) == Some(n),
        h.len() >= 2 ==> h[1] != 'x',
    ensures
        flags_of("0x"@ + h) == n,
        flags_of(h) == n,
{
    reveal_strlit("0x");
    let s = "0x"@ + h;
    assert(s.subrange(0, 2) =~= "0x"@);
    assert(s.skip(2) =~= h);
    if text::begins(h, "0x"@) {
        assert(h.subrange(0, 2)[1] == h[1]);
    }
}

/// The index of an interface is that of the first entry with its name.
pub proof fn law_first_entry_tells_the_index(entries: Seq<LinkModel>, i: int)
    requires
        0 <= i < entries.len(),
        forall|j: int| 0 <= j < i ==> (#[trigger] entries[j]).name != entries[i].name,
    ensures
        index_of(entries, entries[i].name) == entries[i].index,
{
    let p = belongs_to(entries[i].name);
    assert(seqs::is_first(entries, p, i));
    seqs::lemma_first_is(entries, p, i);
}

/// The IPv4 addresses of an interface are those of its entries, each with as
/// many prefix bits as its mask has bits set, and none where it has no mask.
pub proof fn law_addresses_of_an_interface(entries: Seq<LinkModel>, name: Seq<char>, c: CidrModel)
    ensures
        v4_of(entries, name).contains(c) <==> exists|i: int|
            0 <= i < entries.len() && (#[trigger] entries[i]).name == name && (
            match entries[i].address {
                LinkAddressModel::V4 { addr, mask } => c.addr == util::ipv4_text(addr) && c.prefix
                    == (if mask is Some {
                    ones(mask.unwrap() as nat) as u8
                } else {
                    0
                }),
                _ => false,
            }),
    decreases entries.len(),
{
    if entries.len() > 0 {
        let init = entries.drop_last();
        law_addresses_of_an_interface(init, name, c);
        let rest = v4_of(init, name);
        let all = v4_of(entries, name);
        let e = entries.last();
        assert(entries[entries.len() - 1] == e);
        assert(forall|i: int| 0 <= i < init.len() ==> #[trigger] entries[i] == init[i]);
        if e.address is V4 && e.name == name {
            text::lemma_push_contains(rest, all.last());
            assert(all.contains(c) <==> rest.contains(c) || c == all.last());
        }
        if rest.contains(c) {
            let i = choose|i: int|
                0 <= i < init.len() && (#[trigger] init[i]).name == name && (
                match init[i].address {
                    LinkAddressModel::V4 { addr, mask } => c.addr == util::ipv4_text(addr)
                        && c.prefix == (if mask is Some {
                        ones(mask.unwrap() as nat) as u8
                    } else {
                        0
                    }),
                    _ => false,
                });
            assert(entries[i] == init[i]);
        }
    }
}

/// The gateway of an interface is that of its first route through one.
pub proof fn law_first_route_tells_the_gateway(routes: Seq<RouteModel>, i: int)
    requires
        0 <= i < routes.len(),
        routes[i].gateway != 0,
        forall|j: int|
            0 <= j < i ==> (#[trigger] routes[j]).iface != routes[i].iface || routes[j].gateway
                == 0,
    ensures
        gateway_of(routes, routes[i].iface) == Some(util::ipv4_text(routes[i].gateway)),
{
    let p = leads_out(routes[i].iface);
    assert(seqs::is_first(routes, p, i));
    seqs::lemma_first_is(routes, p, i);
}

/// The kind of an interface by how its name begins.
pub proof fn law_kind_by_name(x: Seq<char>)
    ensures
        kind_of_name("lo"@) == IfKind::Loopback,
        kind_of_name("wl"@ + x) == IfKind::Wireless,
        kind_of_name("eth"@ + x) == IfKind::Ethernet,
        kind_of_name("en"@ + x) == IfKind::Ethernet,
        kind_of_name("docker"@ + x) == IfKind::Virtual,
        kind_of_name("br-"@ + x) == IfKind::Virtual,
        kind_of_name("veth"@ + x) == IfKind::Virtual,
        kind_of_name("virbr"@ + x) == IfKind::Virtual,
        kind_of_name("tun"@ + x) == IfKind::Virtual,
        kind_of_name("tap"@ + x) == IfKind::Virtual,
{
    reveal_strlit("lo");
    reveal_strlit("wl");
    reveal_strlit("eth");
    reveal_strlit("en");
    reveal_strlit("docker");
    reveal_strlit("br-");
    reveal_strlit("veth");
    reveal_strlit("virbr");
    reveal_strlit("tun");
    reveal_strlit("tap");
    lemma_begins("wl"@, x);
    lemma_begins("eth"@, x);
    lemma_begins("en"@, x);
    lemma_begins("docker"@, x);
    lemma_begins("br-"@, x);
    lemma_begins("veth"@, x);
    lemma_begins("virbr"@, x);
    lemma_begins("tun"@, x);
    lemma_begins("tap"@, x);
}

/// What a text begins with, and what it does not: nothing with another first
/// character.
proof fn lemma_begins(p: Seq<char>, x: Seq<char>)
    requires
        p.len() > 0,
    ensures
        text::begins(p + x, p),
        (p + x)[0] == p[0],
        forall|q: Seq<char>|
            q.len() > 0 && q[0] != p[0] ==> !#[trigger] text::begins(p + x, q) && q != p + x,
{
    assert((p + x).subrange(0, p.len() as int) =~= p);
    assert forall|q: Seq<char>| q.len() > 0 && q[0] != p[0] implies !#[trigger] text::begins(
        p + x,
        q,
    ) && q != p + x by {
        if text::begins(p + x, q) {
            assert((p + x).subrange(0, q.len() as int)[0] == (p + x)[0]);
        }
    }
}

/// An interface is assembled from what belongs to its name, where that is an
/// IPv4 address or a hardware address; its gateway's MAC is not known yet. It
/// is down only where its state says so.
pub proof fn law_interface_is_assembled(
    entries: Seq<LinkModel>,
    routes: Seq<RouteModel>,
    name: Seq<char>,
    state: Option<Seq<char>>,
)
    ensures
        interface_of(entries, routes, name, state) is Some <==> v4_of(entries, name).len() > 0
            || hardware_of(entries, name) is Some,
        interface_of(entries, routes, name, state) is Some ==> ({
            let i = interface_of(entries, routes, name, state).unwrap();
            &&& i.name == name
            &&& i.description is None
            &&& i.mac == hardware_of(entries, name)
            &&& i.ipv4 == v4_of(entries, name)
            &&& i.ipv6 == v6_of(entries, name)
            &&& i.gateway_v4 == gateway_of(routes, name)
            &&& i.gateway_mac is None
            &&& i.index == index_of(entries, name)
            &&& state is None || name == "lo"@ ==> i.up
            &&& state is Some && name != "lo"@ ==> (i.up <==> text::trimmed(state.unwrap()) == "up"@
                || text::trimmed(state.unwrap()) == "unknown"@)
        }),
{
}

/// Every interface that can be assembled is in the list, and nothing else is.
pub proof fn law_every_interface_is_listed(
    entries: Seq<LinkModel>,
    routes: Seq<RouteModel>,
    names: Seq<Seq<char>>,
    states: Seq<Option<Seq<char>>>,
    n: int,
    x: InterfaceModel,
)
    requires
        0 <= n <= names.len(),
        names.len() == states.len(),
    ensures
        assembled(entries, routes, names, states, n).contains(x) <==> exists|i: int|
            0 <= i < n && interface_of(entries, routes, #[trigger] names[i], states[i]) == Some(x),
    decreases n,
{
    if n > 0 {
        law_every_interface_is_listed(entries, routes, names, states, n - 1, x);
        let rest = assembled(entries, routes, names, states, n - 1);
        let all = assembled(entries, routes, names, states, n);
        if interface_of(entries, routes, names[n - 1], states[n - 1]) is Some {
            text::lemma_push_contains(rest, all.last());
            assert(all.contains(x) <==> rest.contains(x) || x == all.last());
        }
    }
}

/// The hardware address of an interface is the last of six bytes or more that
/// its entries have.
pub proof fn law_last_hardware_address_counts(entries: Seq<LinkModel>, name: Seq<char>, i: int)
    requires
        0 <= i < entries.len(),
        entries[i].name == name,
        entries[i].address is Hardware,
        entries[i].address->Hardware_0.len() >= 6,
        forall|j: int|
            i < j < entries.len() && (#[trigger] entries[j]).name == name ==> !(
            entries[j].address is Hardware),
    ensures
        hardware_of(entries, name) == identity::mac_of_bytes(entries[i].address->Hardware_0),
    decreases entries.len(),
{
    if i < entries.len() - 1 {
        let init = entries.drop_last();
        assert(init[i] == entries[i]);
        assert forall|j: int|
            i < j < init.len() && (#[trigger] init[j]).name == name implies !(
        init[j].address is Hardware) by {
            assert(entries[j] == init[j]);
        }
        law_last_hardware_address_counts(init, name, i);
        assert(entries[entries.len() - 1] == entries.last());
    }
}

} // verus!
