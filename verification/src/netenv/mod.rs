//! Local network environment: interfaces, gateways, neighbor (ARP) cache.

use vstd::prelude::*;
use vstd::string::*;

use crate::model::{CidrModel, IfKind, Interface, InterfaceModel, NeighborEntry, NeighborModel};
use crate::util;
use crate::util::{ipv4_in_network, ipv4_in_network_of};

pub mod linux;
pub mod win;

verus! {

/// The link-local network 169.254.0.0/16.
pub const LINK_LOCAL: u32 = 0xA9FE_0000;

/// An address that its adapter gave itself.
pub open spec fn is_link_local(addr: Seq<char>) -> bool {
    match util::ipv4_of(addr) {
        Some(a) => util::same_network(a, LINK_LOCAL, 16),
        None => false,
    }
}

/// There are addresses, and each is one that the adapter gave itself.
pub open spec fn all_link_local(ipv4: Seq<CidrModel>) -> bool {
    ipv4.len() > 0 && forall|i: int|
        0 <= i < ipv4.len() ==> is_link_local((#[trigger] ipv4[i]).addr)
}

/// An interface that can be scanned: it has an address that it did not give
/// itself, is up and is not the loopback.
pub open spec fn scannable(i: InterfaceModel) -> bool {
    i.ipv4.len() > 0 && i.up && i.kind != IfKind::Loopback && !all_link_local(i.ipv4)
}

/// How likely an interface is the one the user is on.
pub open spec fn rank(i: InterfaceModel) -> int {
    (match i.kind {
        IfKind::Ethernet => 30int,
        IfKind::Wireless => 25,
        IfKind::Other => 10,
        IfKind::Virtual => 5,
        IfKind::Loopback => 0,
    }) + (if i.gateway_v4 is Some {
        100int
    } else {
        0
    })
}

/// The interface to scan: none that can be scanned outranks it, nor does one
/// of its rank come later.
pub open spec fn is_default(s: Seq<InterfaceModel>, i: int) -> bool {
    &&& 0 <= i < s.len()
    &&& scannable(s[i])
    &&& forall|j: int|
        0 <= j < s.len() && scannable(#[trigger] s[j]) ==> rank(s[j]) <= rank(s[i]) && (j > i
            ==> rank(s[j]) < rank(s[i]))
}

/// True when every IPv4 address on this interface is link-local (169.254/16).
/// APIPA means the adapter never got a lease: it is configured but not on a
/// network anyone else is on.
fn only_link_local(iface: &Interface) -> (r: bool)
    ensures
        r == all_link_local(iface.deep_view().ipv4),
{
    let ghost all = iface.deep_view().ipv4;
    if iface.ipv4.len() == 0 {
        return false;
    }
    let mut i: usize = 0;
    while i < iface.ipv4.len()
        invariant
            i <= iface.ipv4.len(),
            all == iface.deep_view().ipv4,
            forall|j: int| 0 <= j < i ==> is_link_local((#[trigger] all[j]).addr),
        decreases iface.ipv4.len() - i,
    {
        assert(all[i as int].addr == iface.ipv4@[i as int].addr@);
        if !ipv4_in_network(iface.ipv4[i].addr.as_str(), LINK_LOCAL, 16) {
            assert(!is_link_local(all[i as int].addr));
            return false;
        }
        i = i + 1;
    }
    true
}

/// Whether an interface can be scanned.
pub fn usable(iface: &Interface) -> (r: bool)
    ensures
        r == scannable(iface.deep_view()),
{
    iface.ipv4.len() > 0 && iface.up && !iface.kind.is_loopback() && !only_link_local(iface)
}

/// How likely an interface is the one the user is on.
pub fn score(iface: &Interface) -> (r: i32)
    ensures
        r == rank(iface.deep_view()),
{
    let kind: i32 = match iface.kind {
        IfKind::Ethernet => 30,
        IfKind::Wireless => 25,
        IfKind::Other => 10,
        IfKind::Virtual => 5,
        IfKind::Loopback => 0,
    };
    // Dominant, so a gatewayless Ethernet (a Docker or WSL bridge reports as
    // one) can never outrank the Wi-Fi the user is browsing on.
    let gateway: i32 = if iface.gateway_v4.is_some() {
        100
    } else {
        0
    };
    kind + gateway
}

/// Pick the interface to scan.
///
/// A default gateway outranks everything else: it is the strongest evidence
/// that this is the network the user is actually on. Interfaces that are
/// down, loopback, or holding nothing but an APIPA address are not candidates
/// at all: scanning one of those means scanning the wrong network, or a /16 of
/// nothing.
pub fn default_interface(ifaces: &[Interface]) -> (r: Option<Interface>)
    ensures
        match r {
            Some(x) => exists|i: int|
                #[trigger] is_default(ifaces.deep_view(), i) && x.deep_view()
                    == ifaces.deep_view()[i],
            None => forall|j: int|
                0 <= j < ifaces@.len() ==> !scannable(#[trigger] ifaces.deep_view()[j]),
        },
{
    let ghost all = ifaces.deep_view();
    let mut best: Option<usize> = None;
    let mut i: usize = 0;
    while i < ifaces.len()
        invariant
            i <= ifaces@.len(),
            all == ifaces.deep_view(),
            match best {
                Some(b) => b < i && is_default(all.take(i as int), b as int),
                None => forall|j: int| 0 <= j < i ==> !scannable(#[trigger] all[j]),
            },
        decreases ifaces@.len() - i,
    {
        assert(all[i as int] == ifaces@[i as int].deep_view());
        let ghost before = all.take(i as int);
        let ghost after = all.take(i + 1);
        assert(forall|j: int| 0 <= j < i ==> #[trigger] after[j] == before[j]);
        assert(after[i as int] == all[i as int]);
        if usable(&ifaces[i]) {
            let better = match best {
                Some(b) => {
                    assert(before[b as int] == ifaces@[b as int].deep_view());
                    score(&ifaces[i]) >= score(&ifaces[b])
                },
                None => true,
            };
            if better {
                best = Some(i);
            }
        }
        assert(match best {
            Some(b) => is_default(after, b as int),
            None => true,
        });
        i = i + 1;
    }
    assert(all.take(all.len() as int) == all);
    match best {
        Some(b) => {
            assert(is_default(all, b as int));
            Some(ifaces[b].clone())
        },
        None => None,
    }
}

/// The default interface is determined: no two interfaces of a list qualify.
pub proof fn law_one_default(s: Seq<InterfaceModel>, i: int, j: int)
    requires
        is_default(s, i),
        is_default(s, j),
    ensures
        i == j,
{
    assert(scannable(s[i]) && scannable(s[j]));
}

/// A gateway outranks everything: an interface without one is only chosen
/// where none that can be scanned has one.
pub proof fn law_gateway_outranks(s: Seq<InterfaceModel>, i: int, j: int)
    requires
        is_default(s, i),
        0 <= j < s.len(),
        scannable(s[j]),
        s[j].gateway_v4 is Some,
    ensures
        s[i].gateway_v4 is Some,
{
}

/// The neighbors on an interface's networks.
pub open spec fn neighbors_on(all: Seq<NeighborModel>, nets: Seq<CidrModel>) -> Seq<NeighborModel> {
    all.filter(on_networks(nets))
}

/// The condition of being on some networks.
pub open spec fn on_networks(nets: Seq<CidrModel>) -> spec_fn(NeighborModel) -> bool {
    |e: NeighborModel| util::on_link(e.ip, nets)
}

/// The neighbor table filtered to one interface's subnets.
pub fn neighbors_for(entries: Vec<NeighborEntry>, iface: &Interface) -> (r: Vec<NeighborEntry>)
    requires
        iface.deep_view().wf(),
    ensures
        r.deep_view() == neighbors_on(entries.deep_view(), iface.deep_view().ipv4),
{
    let ghost all = entries.deep_view();
    let ghost p = on_networks(iface.deep_view().ipv4);
    let mut out: Vec<NeighborEntry> = Vec::new();
    let mut i: usize = 0;
    proof {
        reveal(Seq::filter);
        assert(all.take(0).filter(p) == Seq::<NeighborModel>::empty());
    }
    while i < entries.len()
        invariant
            i <= entries.len(),
            iface.deep_view().wf(),
            all == entries.deep_view(),
            p == on_networks(iface.deep_view().ipv4),
            out.deep_view() == all.take(i as int).filter(p),
        decreases entries.len() - i,
    {
        assert(all[i as int] == entries@[i as int].deep_view());
        proof {
            assert(all.take(i + 1) == all.take(i as int).push(all[i as int]));
            crate::seqs::lemma_filter_push(all.take(i as int), all[i as int], p);
        }
        if ipv4_in_network_of(entries[i].ip.as_str(), iface) {
            let ghost so_far = out.deep_view();
            out.push(entries[i].clone());
            assert(out.deep_view() == so_far.push(all[i as int]));
        }
        i = i + 1;
    }
    assert(all.take(all.len() as int) == all);
    out
}

/// The condition of being an address's entry.
pub open spec fn at_address(ip: Seq<char>) -> spec_fn(NeighborModel) -> bool {
    |e: NeighborModel| e.ip == ip
}

/// The MAC that the neighbor cache has for an address.
pub open spec fn cached_mac(all: Seq<NeighborModel>, ip: Seq<char>) -> Option<Seq<char>> {
    match crate::seqs::first_where(all, at_address(ip)) {
        Some(i) => Some(all[i].mac),
        None => None,
    }
}

/// Look an address up in the neighbor cache.
pub fn lookup_mac(entries: &Vec<NeighborEntry>, ip: &str) -> (r: Option<String>)
    ensures
        r.deep_view() == cached_mac(entries.deep_view(), ip@),
{
    let ghost all = entries.deep_view();
    let ghost p = at_address(ip@);
    let mut i: usize = 0;
    while i < entries.len()
        invariant
            i <= entries.len(),
            all == entries.deep_view(),
            p == at_address(ip@),
            forall|j: int| 0 <= j < i ==> !p(#[trigger] all[j]),
        decreases entries.len() - i,
    {
        assert(all[i as int] == entries@[i as int].deep_view());
        if crate::text::str_eq(entries[i].ip.as_str(), ip) {
            proof {
                assert(crate::seqs::is_first(all, p, i as int));
                crate::seqs::lemma_first_is(all, p, i as int);
            }
            return Some(entries[i].mac.clone());
        }
        i = i + 1;
    }
    proof {
        crate::seqs::lemma_first_none(all, p);
    }
    None
}

/// Which of two interfaces is preferred, where both or neither has a gateway:
/// a wire over the air, the air over what is unknown, and what is unknown over
/// what is virtual.
pub proof fn law_kinds_are_preferred_in_order(a: InterfaceModel, b: InterfaceModel)
    requires
        a.gateway_v4 is Some <==> b.gateway_v4 is Some,
    ensures
        a.kind == IfKind::Ethernet && b.kind == IfKind::Wireless ==> rank(a) > rank(b),
        a.kind == IfKind::Wireless && b.kind == IfKind::Other ==> rank(a) > rank(b),
        a.kind == IfKind::Other && b.kind == IfKind::Virtual ==> rank(a) > rank(b),
        a.kind == b.kind ==> rank(a) == rank(b),
{
}

/// An interface is scanned only if it is up, is not the loopback, and has an
/// address outside of 169.254/16.
pub proof fn law_scannable_interface(i: InterfaceModel)
    ensures
        scannable(i) <==> i.up && i.kind != IfKind::Loopback && exists|k: int|
            0 <= k < i.ipv4.len() && (match util::ipv4_of((#[trigger] i.ipv4[k]).addr) {
                Some(a) => !(0xA9FE_0000 <= a <= 0xA9FE_FFFF),
                None => true,
            }),
{
    assert forall|k: int| 0 <= k < i.ipv4.len() implies (is_link_local((#[trigger] i.ipv4[k]).addr)
        <==> match util::ipv4_of(i.ipv4[k].addr) {
        Some(a) => 0xA9FE_0000 <= a <= 0xA9FE_FFFF,
        None => false,
    }) by {
        match util::ipv4_of(i.ipv4[k].addr) {
            Some(a) => {
                assert(a >> 16u32 == 0xA9FE_0000u32 >> 16u32 <==> 0xA9FE_0000u32 <= a && a
                    <= 0xA9FE_FFFFu32) by (bit_vector);
            },
            None => {},
        }
    }
}

/// The neighbors of an interface are those of the table that are on one of its
/// networks, in their order, each as it is.
pub proof fn law_neighbors_are_those_on_the_link(all: Seq<NeighborModel>, nets: Seq<CidrModel>)
    ensures
        neighbors_on(all, nets) == all.filter(|e: NeighborModel| util::on_link(e.ip, nets)),
{
    assert(on_networks(nets) =~= (|e: NeighborModel| util::on_link(e.ip, nets)));
}

/// What the neighbor table says of an address: the MAC of the first entry with
/// that address, and nothing where there is none.
pub proof fn law_first_neighbor_answers(all: Seq<NeighborModel>, ip: Seq<char>)
    ensures
        match cached_mac(all, ip) {
            Some(mac) => exists|i: int|
                0 <= i < all.len() && (#[trigger] all[i]).ip == ip && all[i].mac == mac
                    && forall|j: int| 0 <= j < i ==> (#[trigger] all[j]).ip != ip,
            None => forall|j: int| 0 <= j < all.len() ==> (#[trigger] all[j]).ip != ip,
        },
{
    let p = at_address(ip);
    crate::seqs::lemma_first_found(all, p);
    match crate::seqs::first_where(all, p) {
        Some(i) => {
            assert(p(all[i]));
            assert forall|j: int| 0 <= j < i implies (#[trigger] all[j]).ip != ip by {
                assert(!p(all[j]));
            }
            assert(all[i].ip == ip);
        },
        None => {
            assert forall|j: int| 0 <= j < all.len() implies (#[trigger] all[j]).ip != ip by {
                assert(!p(all[j]));
            }
        },
    }
}

} // verus!
