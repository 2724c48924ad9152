//! Windows: what the IP Helper API reports, in the library's terms.

use vstd::prelude::*;

use crate::identity;
use crate::identity::mac_from_bytes;
use crate::model::{
    CidrModel, IfKind, Interface, InterfaceModel, Ipv4Cidr, NeighborEntry, NeighborModel,
};
use crate::netenv::linux;
use crate::netenv::linux::format_ipv6;
use crate::text::clone_opt;
use crate::util;
use crate::util::format_ipv4;

verus! {

/// The kind of an interface by its IANA ifType.
pub open spec fn kind_of_type(if_type: u32) -> IfKind {
    if if_type == 6 || if_type == 7 || if_type == 262 {
        IfKind::Ethernet
    } else if if_type == 71 || if_type == 131 {
        IfKind::Wireless
    } else if if_type == 24 {
        IfKind::Loopback
    } else if if_type == 53 {
        IfKind::Virtual
    } else {
        IfKind::Other
    }
}

/// IANA ifType to our coarse kind.
pub fn if_kind(if_type: u32) -> (r: IfKind)
    ensures
        r == kind_of_type(if_type),
{
    match if_type {
        6 | 7 | 262 => IfKind::Ethernet,  // ethernetCsmacd, iso88023, IPoIB
        71 | 131 => IfKind::Wireless,  // IEEE802.11
        24 => IfKind::Loopback,  // softwareLoopback
        53 => IfKind::Virtual,  // propVirtual
        _ => IfKind::Other,
    }
}


/// An address as a socket address holds it.
#[derive(Debug)]
pub enum SocketAddress {
    V4(u32),
    /// The bytes of an IPv6 address.
    V6(Vec<u8>),
    Other,
}

/// What a [`SocketAddress`] says.
pub enum AddressModel {
    V4(u32),
    V6(Seq<u8>),
    Other,
}

impl DeepView for SocketAddress {
    type V = AddressModel;

    open spec fn deep_view(&self) -> AddressModel {
        match self {
            SocketAddress::V4(a) => AddressModel::V4(*a),
            SocketAddress::V6(b) => AddressModel::V6(b@),
            SocketAddress::Other => AddressModel::Other,
        }
    }
}

/// One of the addresses of an adapter, with the length of its on-link prefix.
#[derive(Debug)]
pub struct Unicast {
    pub address: SocketAddress,
    pub prefix: u8,
}

/// What a [`Unicast`] says.
pub struct UnicastModel {
    pub address: AddressModel,
    pub prefix: u8,
}

impl DeepView for Unicast {
    type V = UnicastModel;

    open spec fn deep_view(&self) -> UnicastModel {
        UnicastModel { address: self.address.deep_view(), prefix: self.prefix }
    }
}

/// An adapter as the system lists it.
#[derive(Debug)]
pub struct Adapter {
    pub name: String,
    pub description: Option<String>,
    pub index: u32,
    /// The bytes of its physical address, without padding.
    pub physical: Vec<u8>,
    pub unicast: Vec<Unicast>,
    pub gateways: Vec<SocketAddress>,
    pub if_type: u32,
    pub up: bool,
}

/// What an [`Adapter`] says.
pub struct AdapterModel {
    pub name: Seq<char>,
    pub description: Option<Seq<char>>,
    pub index: u32,
    pub physical: Seq<u8>,
    pub unicast: Seq<UnicastModel>,
    pub gateways: Seq<AddressModel>,
    pub if_type: u32,
    pub up: bool,
}

impl DeepView for Adapter {
    type V = AdapterModel;

    open spec fn deep_view(&self) -> AdapterModel {
        AdapterModel {
            name: self.name@,
            description: self.description.deep_view(),
            index: self.index,
            physical: self.physical@,
            unicast: self.unicast.deep_view(),
            gateways: self.gateways.deep_view(),
            if_type: self.if_type,
            up: self.up,
        }
    }
}

/// The IPv4 addresses among the addresses of an adapter.
pub open spec fn v4_of(s: Seq<UnicastModel>) -> Seq<CidrModel>
    decreases s.len(),
{
    if s.len() == 0 {
        Seq::empty()
    } else {
        let rest = v4_of(s.drop_last());
        match s.last().address {
            AddressModel::V4(a) => rest.push(
                CidrModel { addr: util::ipv4_text(a), prefix: s.last().prefix },
            ),
            _ => rest,
        }
    }
}

/// The IPv6 addresses among the addresses of an adapter.
pub open spec fn v6_of(s: Seq<UnicastModel>) -> Seq<Seq<char>>
    decreases s.len(),
{
    if s.len() == 0 {
        Seq::empty()
    } else {
        let rest = v6_of(s.drop_last());
        match s.last().address {
            AddressModel::V6(b) => rest.push(linux::groups_text(b, (b.len() / 2) as int)),
            _ => rest,
        }
    }
}

/// The first IPv4 address among some gateways.
pub open spec fn gateway_of(s: Seq<AddressModel>) -> Option<Seq<char>>
    decreases s.len(),
{
    if s.len() == 0 {
        None
    } else {
        match gateway_of(s.drop_last()) {
            Some(g) => Some(g),
            None => match s.last() {
                AddressModel::V4(a) => Some(util::ipv4_text(a)),
                _ => None,
            },
        }
    }
}

/// An adapter as an interface.
pub open spec fn interface_of(a: AdapterModel) -> InterfaceModel {
    InterfaceModel {
        name: a.name,
        description: a.description,
        mac: identity::mac_of_bytes(a.physical),
        ipv4: v4_of(a.unicast),
        ipv6: v6_of(a.unicast),
        gateway_v4: gateway_of(a.gateways),
        gateway_mac: None,
        index: a.index,
        kind: kind_of_type(a.if_type),
        up: a.up,
    }
}

/// Every IPv4 address has a prefix that an IPv4 address can have.
pub open spec fn prefixes_fit(s: Seq<UnicastModel>) -> bool {
    forall|i: int| 0 <= i < s.len() && (#[trigger] s[i]).address is V4 ==> s[i].prefix <= 32
}

/// The IPv4 addresses of an adapter have the prefixes that its entries have.
proof fn lemma_prefixes_fit(s: Seq<UnicastModel>)
    requires
        prefixes_fit(s),
    ensures
        forall|k: int| 0 <= k < v4_of(s).len() ==> (#[trigger] v4_of(s)[k]).wf(),
    decreases s.len(),
{
    if s.len() > 0 {
        let init = s.drop_last();
        assert(prefixes_fit(init)) by {
            assert forall|i: int|
                0 <= i < init.len() && (#[trigger] init[i]).address is V4 implies init[i].prefix
                <= 32 by {
                assert(init[i] == s[i]);
            }
        }
        lemma_prefixes_fit(init);
        let rest = v4_of(init);
        assert(s.last() == s[s.len() - 1]);
        assert forall|k: int| 0 <= k < v4_of(s).len() implies (#[trigger] v4_of(s)[k]).wf() by {
            if k < rest.len() {
                assert(v4_of(s)[k] == rest[k]);
            }
        }
    }
}

/// Collect the addresses of an adapter.
fn addresses(unicast: &Vec<Unicast>) -> (r: (Vec<Ipv4Cidr>, Vec<String>))
    ensures
        r.0.deep_view() == v4_of(unicast.deep_view()),
        r.1.deep_view() == v6_of(unicast.deep_view()),
{
    let ghost all = unicast.deep_view();
    let mut ipv4: Vec<Ipv4Cidr> = Vec::new();
    let mut ipv6: Vec<String> = Vec::new();
    let mut i: usize = 0;
    while i < unicast.len()
        invariant
            i <= unicast.len(),
            all == unicast.deep_view(),
            ipv4.deep_view() == v4_of(all.take(i as int)),
            ipv6.deep_view() == v6_of(all.take(i as int)),
        decreases unicast.len() - i,
    {
        let u = &unicast[i];
        assert(all[i as int] == u.deep_view());
        assert(all.take(i + 1).drop_last() == all.take(i as int));
        assert(all.take(i + 1).last() == all[i as int]);
        match &u.address {
            SocketAddress::V4(a) => {
                let cidr = Ipv4Cidr { addr: format_ipv4(*a), prefix: u.prefix };
                let ghost so_far = ipv4.deep_view();
                let ghost model = cidr.deep_view();
                ipv4.push(cidr);
                assert(ipv4.deep_view() == so_far.push(model));
            },
            SocketAddress::V6(b) => {
                let t = format_ipv6(b);
                let ghost so_far = ipv6.deep_view();
                let ghost model = t@;
                ipv6.push(t);
                assert(ipv6.deep_view() == so_far.push(model));
            },
            SocketAddress::Other => {},
        }
        i = i + 1;
    }
    assert(all.take(all.len() as int) == all);
    (ipv4, ipv6)
}

/// Find the IPv4 gateway of an adapter.
fn first_gateway(gateways: &Vec<SocketAddress>) -> (r: Option<String>)
    ensures
        r.deep_view() == gateway_of(gateways.deep_view()),
{
    let ghost all = gateways.deep_view();
    let mut found: Option<String> = None;
    let mut i: usize = 0;
    while i < gateways.len()
        invariant
            i <= gateways.len(),
            all == gateways.deep_view(),
            found.deep_view() == gateway_of(all.take(i as int)),
        decreases gateways.len() - i,
    {
        assert(all[i as int] == gateways@[i as int].deep_view());
        assert(all.take(i + 1).drop_last() == all.take(i as int));
        assert(all.take(i + 1).last() == all[i as int]);
        if found.is_none() {
            if let SocketAddress::V4(a) = &gateways[i] {
                found = Some(format_ipv4(*a));
            }
        }
        i = i + 1;
    }
    assert(all.take(all.len() as int) == all);
    found
}

/// The interfaces among the adapters that the system lists: one for each, in
/// the order listed.
pub fn parse_adapters(adapters: &Vec<Adapter>) -> (r: Vec<Interface>)
    ensures
        r.deep_view() == adapters.deep_view().map_values(|a: AdapterModel| interface_of(a)),
        forall|k: int|
            0 <= k < r.deep_view().len() && prefixes_fit(adapters.deep_view()[k].unicast) ==> (
            #[trigger] r.deep_view()[k]).wf(),
{
    let ghost all = adapters.deep_view();
    let ghost f = |a: AdapterModel| interface_of(a);
    let mut out: Vec<Interface> = Vec::new();
    let mut i: usize = 0;
    while i < adapters.len()
        invariant
            i <= adapters.len(),
            all == adapters.deep_view(),
            f == (|a: AdapterModel| interface_of(a)),
            out.deep_view() == all.take(i as int).map_values(f),
        decreases adapters.len() - i,
    {
        let a = &adapters[i];
        assert(all[i as int] == a.deep_view());
        let (ipv4, ipv6) = addresses(&a.unicast);
        let iface = Interface {
            name: a.name.clone(),
            description: clone_opt(&a.description),
            mac: mac_from_bytes(a.physical.as_slice()),
            ipv4,
            ipv6,
            gateway_v4: first_gateway(&a.gateways),
            gateway_mac: None,
            index: a.index,
            kind: if_kind(a.if_type),
            up: a.up,
        };
        let ghost so_far = out.deep_view();
        let ghost model = iface.deep_view();
        assert(model == f(all[i as int]));
        out.push(iface);
        assert(out.deep_view() == so_far.push(model));
        assert(all.take(i + 1).map_values(f) == all.take(i as int).map_values(f).push(
            f(all[i as int]),
        ));
        i = i + 1;
    }
    assert(all.take(all.len() as int) == all);
    proof {
        assert forall|k: int|
            0 <= k < out.deep_view().len() && prefixes_fit(all[k].unicast) implies (
        #[trigger] out.deep_view()[k]).wf() by {
            lemma_prefixes_fit(all[k].unicast);
        }
    }
    out
}

/// How the system judges a neighbor.
#[derive(Debug, Clone, Copy, PartialEq, Eq, Structural)]
pub enum NeighborState {
    Unreachable,
    Incomplete,
    Other,
}

/// A row of the neighbor table as the system lists it.
#[derive(Debug)]
pub struct NeighborRow {
    pub address: SocketAddress,
    /// The bytes of its physical address, without padding.
    pub physical: Vec<u8>,
    pub interface_index: u32,
    pub state: NeighborState,
}

/// What a [`NeighborRow`] says.
pub struct NeighborRowModel {
    pub address: AddressModel,
    pub physical: Seq<u8>,
    pub interface_index: u32,
    pub state: NeighborState,
}

impl DeepView for NeighborRow {
    type V = NeighborRowModel;

    open spec fn deep_view(&self) -> NeighborRowModel {
        NeighborRowModel {
            address: self.address.deep_view(),
            physical: self.physical@,
            interface_index: self.interface_index,
            state: self.state,
        }
    }
}

/// A row of the neighbor table as a neighbor: an IPv4 address with a MAC, or
/// nothing.
pub open spec fn neighbor_of(row: NeighborRowModel) -> Option<NeighborModel> {
    match (identity::mac_of_bytes(row.physical), row.address) {
        (Some(mac), AddressModel::V4(a)) => Some(
            NeighborModel {
                ip: util::ipv4_text(a),
                mac,
                interface_index: row.interface_index,
                reachable: row.state == NeighborState::Other,
            },
        ),
        _ => None,
    }
}

/// A row of the neighbor table as a neighbor.
pub fn row_to_entry(row: &NeighborRow) -> (r: Option<NeighborEntry>)
    ensures
        r.deep_view() == neighbor_of(row.deep_view()),
{
    match (mac_from_bytes(row.physical.as_slice()), &row.address) {
        (Some(mac), SocketAddress::V4(a)) => Some(
            NeighborEntry {
                ip: format_ipv4(*a),
                mac,
                interface_index: row.interface_index,
                reachable: row.state == NeighborState::Other,
            },
        ),
        _ => None,
    }
}

/// The IPv4 addresses of an adapter are those among its addresses, each with
/// its own prefix length.
pub proof fn law_addresses_of_an_adapter(s: Seq<UnicastModel>, c: CidrModel)
    ensures
        v4_of(s).contains(c) <==> exists|i: int|
            0 <= i < s.len() && (#[trigger] s[i]).address is V4 && c.addr == util::ipv4_text(
                s[i].address->V4_0,
            ) && c.prefix == s[i].prefix,
    decreases s.len(),
{
    if s.len() > 0 {
        let init = s.drop_last();
        law_addresses_of_an_adapter(init, c);
        let rest = v4_of(init);
        let all = v4_of(s);
        assert(s[s.len() - 1] == s.last());
        assert(forall|i: int| 0 <= i < init.len() ==> #[trigger] s[i] == init[i]);
        if s.last().address is V4 {
            crate::text::lemma_push_contains(rest, all.last());
            assert(all.contains(c) <==> rest.contains(c) || c == all.last());
        }
        if rest.contains(c) {
            let i = choose|i: int|
                0 <= i < init.len() && (#[trigger] init[i]).address is V4 && c.addr
                    == util::ipv4_text(init[i].address->V4_0) && c.prefix == init[i].prefix;
            assert(s[i] == init[i]);
        }
    }
}

/// The gateway of an adapter is the first of its gateways that is an IPv4
/// address.
pub proof fn law_first_gateway_counts(s: Seq<AddressModel>)
    ensures
        match gateway_of(s) {
            Some(g) => exists|i: int|
                0 <= i < s.len() && (#[trigger] s[i]) is V4 && g == util::ipv4_text(s[i]->V4_0)
                    && forall|j: int| 0 <= j < i ==> !((#[trigger] s[j]) is V4),
            None => forall|j: int| 0 <= j < s.len() ==> !((#[trigger] s[j]) is V4),
        },
    decreases s.len(),
{
    if s.len() > 0 {
        let init = s.drop_last();
        law_first_gateway_counts(init);
        assert(s[s.len() - 1] == s.last());
        assert(forall|i: int| 0 <= i < init.len() ==> #[trigger] s[i] == init[i]);
        match gateway_of(init) {
            Some(g) => {
                let i = choose|i: int|
                    0 <= i < init.len() && (#[trigger] init[i]) is V4 && g == util::ipv4_text(
                        init[i]->V4_0,
                    ) && forall|j: int| 0 <= j < i ==> !((#[trigger] init[j]) is V4);
                assert(s[i] == init[i]);
            },
            None => {},
        }
    }
}

/// An interface is what its adapter is said to be: its name, description and
/// index, the MAC of its physical address, its addresses, its first gateway,
/// and whether it is up.
pub proof fn law_adapter_is_taken_as_listed(a: AdapterModel)
    ensures
        ({
            let i = interface_of(a);
            &&& i.name == a.name
            &&& i.description == a.description
            &&& i.mac == identity::mac_of_bytes(a.physical)
            &&& i.ipv4 == v4_of(a.unicast)
            &&& i.ipv6 == v6_of(a.unicast)
            &&& i.gateway_v4 == gateway_of(a.gateways)
            &&& i.gateway_mac is None
            &&& i.index == a.index
            &&& i.up == a.up
            &&& i.kind == IfKind::Ethernet <==> a.if_type == 6 || a.if_type == 7 || a.if_type == 262
            &&& i.kind == IfKind::Wireless <==> a.if_type == 71 || a.if_type == 131
            &&& i.kind == IfKind::Loopback <==> a.if_type == 24
            &&& i.kind == IfKind::Virtual <==> a.if_type == 53
        }),
{
}

/// A row of the neighbor table is a neighbor where it has an IPv4 address and a
/// MAC; it is reachable unless the system found it unreachable or has not
/// resolved it.
pub proof fn law_row_is_a_neighbor(row: NeighborRowModel)
    ensures
        neighbor_of(row) is Some <==> row.address is V4 && identity::mac_of_bytes(
            row.physical,
        ) is Some,
        neighbor_of(row) is Some ==> ({
            let n = neighbor_of(row).unwrap();
            &&& n.ip == util::ipv4_text(row.address->V4_0)
            &&& Some(n.mac) == identity::mac_of_bytes(row.physical)
            &&& n.interface_index == row.interface_index
            &&& n.reachable <==> row.state != NeighborState::Unreachable && row.state
                != NeighborState::Incomplete
        }),
{
}

} // verus!
