//! `arp-ping`: exhaustive ARP resolution of every address in the interface's
//! prefix. This is the *only* strategy allowed to loop over an address range,
//! because it is the only one that yields definitive up/down answers, and it
//! requires the `ArpResolve` capability (native SendARP on Windows or the
//! privileged helper on Linux). When that capability is missing the strategy
//! reports a problem, which makes the scan partial.

use vstd::prelude::*;
use vstd::string::*;

use crate::discovery::{Coverage, ScanContext, Strategy, StrategyOutcome};
use crate::model::{Capability, CidrModel, Interface, Observation, ObservationModel};
use crate::text::clone_opt;
use crate::util;
use crate::util::{
    broadcast_address, enumerate_network, format_all, has_address, insert_address, own_addresses,
    parse_ipv4,
};

verus! {

/// The shortest prefix that is swept: larger networks make the scan partial
/// instead of silently incomplete.
pub const PREFIX_CAP: u8 = 20;

#[derive(Debug, Clone, Copy)]
pub struct ArpPing;

impl Strategy for ArpPing {
    open spec fn id_text(&self) -> Seq<char> {
        "arp-ping"@
    }

    open spec fn covers(&self) -> Coverage {
        Coverage::Exhaustive
    }

    open spec fn turn(&self) -> u8 {
        3
    }

    fn id(&self) -> (r: &'static str) {
        "arp-ping"
    }

    fn coverage(&self) -> (r: Coverage) {
        Coverage::Exhaustive
    }

    fn wave(&self) -> (r: u8) {
        3
    }
}

/// What an exhaustive sweep resolves.
#[derive(Debug)]
pub struct ArpSweep {
    pub ips: Vec<String>,
    /// Some on-link network was too large to be swept.
    pub oversized: bool,
}

/// An address is the last of one of the networks.
pub open spec fn is_broadcast(nets: Seq<CidrModel>, a: u32) -> bool {
    exists|i: int|
        0 <= i < nets.len() && match util::ipv4_of((#[trigger] nets[i]).addr) {
            Some(b) => a == util::last_address(b, nets[i].prefix),
            None => false,
        }
}

/// An address lies in one of the first `n` networks that are small enough, and
/// is not that network's own address.
pub open spec fn in_swept_network(nets: Seq<CidrModel>, n: int, a: u32) -> bool {
    exists|i: int|
        0 <= i < n && match util::ipv4_of((#[trigger] nets[i]).addr) {
            Some(b) => nets[i].prefix >= PREFIX_CAP && util::same_network(a, b, nets[i].prefix)
                && a != util::network_address(b, nets[i].prefix),
            None => false,
        }
}

/// An address is to be resolved: it lies in a network that is swept, and it is
/// neither a broadcast address nor one of our own, answers for which are
/// artifacts and not devices.
pub open spec fn sweep_target(nets: Seq<CidrModel>) -> spec_fn(u32) -> bool {
    |a: u32|
        in_swept_network(nets, nets.len() as int, a) && !util::is_own(nets, a) && !is_broadcast(
            nets,
            a,
        )
}

/// Some network with a readable address is too large to be swept.
pub open spec fn has_oversized(nets: Seq<CidrModel>) -> bool {
    exists|i: int|
        0 <= i < nets.len() && util::ipv4_of((#[trigger] nets[i]).addr) is Some && nets[i].prefix
            < PREFIX_CAP
}

/// Why a sweep that has nothing to resolve failed.
pub open spec fn nothing_to_sweep(oversized: bool) -> Seq<char> {
    if oversized {
        "on-link prefix larger than /20 not swept"@
    } else {
        "no on-link prefix to sweep"@
    }
}

/// The last addresses of the interface's networks.
fn broadcast_addresses(iface: &Interface) -> (r: Vec<u32>)
    requires
        iface.deep_view().wf(),
    ensures
        forall|a: u32| #[trigger] r@.contains(a) <==> is_broadcast(iface.deep_view().ipv4, a),
{
    let ghost nets = iface.deep_view().ipv4;
    let mut out: Vec<u32> = Vec::new();
    let mut i: usize = 0;
    while i < iface.ipv4.len()
        invariant
            i <= iface.ipv4.len(),
            nets == iface.deep_view().ipv4,
            iface.deep_view().wf(),
            forall|a: u32| #[trigger] out@.contains(a) <==> is_broadcast(nets.take(i as int), a),
        decreases iface.ipv4.len() - i,
    {
        assert(nets[i as int] == iface.ipv4@[i as int].deep_view());
        assert(nets[i as int].wf());
        let ghost before = out@;
        let ghost now = nets.take(i + 1);
        if let Some(b) = parse_ipv4(iface.ipv4[i].addr.as_str()) {
            let last = broadcast_address(b, iface.ipv4[i].prefix);
            out.push(last);
            proof {
                crate::text::lemma_push_contains(before, last);
            }
        }
        assert forall|a: u32| #[trigger] out@.contains(a) <==> is_broadcast(now, a) by {
            if before.contains(a) {
                let k = choose|k: int|
                    0 <= k < i && match util::ipv4_of((#[trigger] nets.take(i as int)[k]).addr) {
                        Some(b) => a == util::last_address(b, nets.take(i as int)[k].prefix),
                        None => false,
                    };
                assert(now[k] == nets.take(i as int)[k]);
            }
            if out@.contains(a) && !before.contains(a) {
                assert(now[i as int] == nets[i as int]);
            }
            if is_broadcast(now, a) {
                let k = choose|k: int|
                    0 <= k < now.len() && match util::ipv4_of((#[trigger] now[k]).addr) {
                        Some(b) => a == util::last_address(b, now[k].prefix),
                        None => false,
                    };
                if k < i {
                    assert(nets.take(i as int)[k] == now[k]);
                    assert(is_broadcast(nets.take(i as int), a));
                }
            }
        }
        i = i + 1;
    }
    assert(nets.take(nets.len() as int) == nets);
    out
}

/// The addresses of one network that are to be resolved, put among others.
fn add_network(
    targets: &mut Vec<u32>,
    addr: u32,
    prefix: u8,
    own: &Vec<u32>,
    broadcast: &Vec<u32>,
)
    requires
        util::ascending(old(targets)@),
        PREFIX_CAP <= prefix <= 32,
    ensures
        util::ascending(final(targets)@),
        forall|a: u32| #[trigger]
            final(targets)@.contains(a) <==> old(targets)@.contains(a) || (util::same_network(
                a,
                addr,
                prefix,
            ) && a != util::network_address(addr, prefix) && !own@.contains(a)
                && !broadcast@.contains(a)),
{
    let ghost before = targets@;
    let all = enumerate_network(addr, prefix);
    let ghost base = util::network_address(addr, prefix);
    let mut i: usize = 0;
    while i < all.len()
        invariant
            i <= all.len(),
            util::ascending(targets@),
            forall|k: int| 0 <= k < all@.len() ==> #[trigger] all@[k] == base + 1 + k,
            forall|a: u32| #[trigger]
                targets@.contains(a) <==> before.contains(a) || (base < a <= base + i
                    && !own@.contains(a) && !broadcast@.contains(a)),
        decreases all.len() - i,
    {
        let a = all[i];
        if !has_address(own, a) && !has_address(broadcast, a) {
            insert_address(targets, a);
        }
        i = i + 1;
    }
    proof {
        assert forall|a: u32| #[trigger] targets@.contains(a) <==> before.contains(a) || (
        util::same_network(a, addr, prefix) && a != base && !own@.contains(a)
            && !broadcast@.contains(a)) by {
            util::lemma_network_range(a, addr, prefix);
        }
    }
}

/// The addresses to resolve, and whether a network was too large.
fn sweep_addresses(iface: &Interface) -> (r: (Vec<u32>, bool))
    requires
        iface.deep_view().wf(),
    ensures
        util::lists(r.0@, sweep_target(iface.deep_view().ipv4)),
        r.1 == has_oversized(iface.deep_view().ipv4),
{
    let ghost nets = iface.deep_view().ipv4;
    let own = own_addresses(iface);
    let broadcast = broadcast_addresses(iface);
    let mut targets: Vec<u32> = Vec::new();
    let mut oversized = false;
    let mut i: usize = 0;
    while i < iface.ipv4.len()
        invariant
            i <= iface.ipv4.len(),
            nets == iface.deep_view().ipv4,
            iface.deep_view().wf(),
            forall|a: u32| #[trigger] own@.contains(a) <==> util::is_own(nets, a),
            forall|a: u32| #[trigger] broadcast@.contains(a) <==> is_broadcast(nets, a),
            util::ascending(targets@),
            forall|a: u32| #[trigger]
                targets@.contains(a) <==> in_swept_network(nets, i as int, a) && !util::is_own(
                    nets,
                    a,
                ) && !is_broadcast(nets, a),
            oversized <==> exists|k: int|
                0 <= k < i && util::ipv4_of((#[trigger] nets[k]).addr) is Some && nets[k].prefix
                    < PREFIX_CAP,
        decreases iface.ipv4.len() - i,
    {
        assert(nets[i as int] == iface.ipv4@[i as int].deep_view());
        assert(nets[i as int].wf());
        let ghost before = targets@;
        let prefix = iface.ipv4[i].prefix;
        if let Some(addr) = parse_ipv4(iface.ipv4[i].addr.as_str()) {
            if prefix < PREFIX_CAP {
                oversized = true;
            } else {
                add_network(&mut targets, addr, prefix, &own, &broadcast);
            }
        }
        assert forall|a: u32| #[trigger] targets@.contains(a) <==> in_swept_network(
            nets,
            i + 1,
            a,
        ) && !util::is_own(nets, a) && !is_broadcast(nets, a) by {
            assert(before.contains(a) == (in_swept_network(nets, i as int, a) && !util::is_own(
                nets,
                a,
            ) && !is_broadcast(nets, a)));
            if in_swept_network(nets, i as int, a) {
                let k = choose|k: int|
                    0 <= k < i && match util::ipv4_of((#[trigger] nets[k]).addr) {
                        Some(b) => nets[k].prefix >= PREFIX_CAP && util::same_network(
                            a,
                            b,
                            nets[k].prefix,
                        ) && a != util::network_address(b, nets[k].prefix),
                        None => false,
                    };
                assert(0 <= k < i + 1);
                assert(in_swept_network(nets, i + 1, a));
            }
            if targets@.contains(a) && !before.contains(a) {
                assert(util::ipv4_of(nets[i as int].addr) is Some);
            }
        }
        i = i + 1;
    }
    (targets, oversized)
}

/// The sweep that an exhaustive scan of an interface makes.
pub open spec fn is_sweep(nets: Seq<CidrModel>, ips: Seq<Seq<char>>, oversized: bool) -> bool {
    oversized == has_oversized(nets) && exists|addrs: Seq<u32>|
        #[trigger] util::lists(addrs, sweep_target(nets)) && addrs.len() > 0 && ips == util::quads(
            addrs,
        )
}

/// There is nothing to sweep.
pub open spec fn empty_sweep(nets: Seq<CidrModel>) -> bool {
    forall|a: u32| !#[trigger] sweep_target(nets)(a)
}

/// One resolved address as an observation.
pub open spec fn arp_observation(ip: Seq<char>, mac: Seq<char>) -> ObservationModel {
    ObservationModel {
        ip,
        mac: Some(mac),
        name: None,
        vendor: None,
        source: "arp-ping"@,
        confidence: 95,
    }
}

/// The observations of the first `n` addresses; those that nothing answered
/// for have none.
pub open spec fn arp_observations(
    ips: Seq<Seq<char>>,
    macs: Seq<Option<Seq<char>>>,
    n: int,
) -> Seq<ObservationModel>
    decreases n,
{
    if n <= 0 {
        Seq::empty()
    } else {
        let rest = arp_observations(ips, macs, n - 1);
        if n - 1 < macs.len() && macs[n - 1] is Some {
            rest.push(arp_observation(ips[n - 1], macs[n - 1].unwrap()))
        } else {
            rest
        }
    }
}

impl ArpPing {
    /// Decide what to resolve, or why the sweep cannot be made.
    pub fn plan(&self, ctx: &ScanContext) -> (r: Result<ArpSweep, String>)
        requires
            ctx.iface.deep_view().wf(),
        ensures
            ({
                let nets = ctx.iface.deep_view().ipv4;
                if !ctx.caps@.contains(Capability::ArpResolve) {
                    r is Err && r->Err_0@
                        == "ARP resolution unavailable (launch with the privileged helper)"@
                } else if !ctx.can_resolve {
                    r is Err && r->Err_0@ == "no ARP resolver wired up"@
                } else if empty_sweep(nets) {
                    r is Err && r->Err_0@ == nothing_to_sweep(has_oversized(nets))
                } else {
                    r is Ok && is_sweep(nets, r->Ok_0.ips.deep_view(), r->Ok_0.oversized)
                }
            }),
    {
        if !ctx.has_cap(Capability::ArpResolve) {
            return Err(
                "ARP resolution unavailable (launch with the privileged helper)".to_string(),
            );
        }
        if !ctx.can_resolve {
            return Err("no ARP resolver wired up".to_string());
        }
        let (targets, oversized) = sweep_addresses(&ctx.iface);
        let ghost nets = ctx.iface.deep_view().ipv4;
        let ghost p = sweep_target(nets);
        if targets.len() == 0 {
            assert forall|a: u32| !#[trigger] p(a) by {
                assert(!targets@.contains(a));
            }
            return Err(
                if oversized {
                    "on-link prefix larger than /20 not swept".to_string()
                } else {
                    "no on-link prefix to sweep".to_string()
                },
            );
        }
        assert(targets@.contains(targets@[0]));
        assert(p(targets@[0]));
        Ok(ArpSweep { ips: format_all(&targets), oversized })
    }

    /// Report what answered: one slot for each address of the sweep.
    pub fn report(&self, sweep: &ArpSweep, macs: &Vec<Option<String>>) -> (r: StrategyOutcome)
        ensures
            r.deep_view().observations == arp_observations(
                sweep.ips.deep_view(),
                macs.deep_view(),
                sweep.ips@.len() as int,
            ),
            r.deep_view().problem == (if sweep.oversized {
                Some("prefix too large for exhaustive sweep"@)
            } else {
                None
            }),
    {
        let ghost ips = sweep.ips.deep_view();
        let ghost all = macs.deep_view();
        let mut observations: Vec<Observation> = Vec::new();
        let mut i: usize = 0;
        while i < sweep.ips.len()
            invariant
                i <= sweep.ips.len(),
                ips == sweep.ips.deep_view(),
                all == macs.deep_view(),
                observations.deep_view() == arp_observations(ips, all, i as int),
            decreases sweep.ips.len() - i,
        {
            assert(ips[i as int] == sweep.ips@[i as int]@);
            if i < macs.len() && macs[i].is_some() {
                assert(all[i as int] == macs@[i as int].deep_view());
                let ghost so_far = observations.deep_view();
                let o = Observation {
                    ip: sweep.ips[i].clone(),
                    mac: clone_opt(&macs[i]),
                    name: None,
                    vendor: None,
                    source: self.id().to_string(),
                    confidence: 95,
                };
                let ghost model = o.deep_view();
                assert(model == arp_observation(ips[i as int], all[i as int].unwrap()));
                observations.push(o);
                assert(observations.deep_view() == so_far.push(model));
            } else {
                assert(i < all.len() ==> all[i as int] == macs@[i as int].deep_view());
            }
            i = i + 1;
        }
        let problem = if sweep.oversized {
            Some("prefix too large for exhaustive sweep".to_string())
        } else {
            None
        };
        StrategyOutcome { observations, problem }
    }
}

/// An exhaustive sweep is exhaustive: every address of an on-link network that
/// is small enough is resolved, but for the network address, the broadcast
/// address and our own.
pub proof fn law_sweep_covers_the_prefix(
    nets: Seq<CidrModel>,
    ips: Seq<Seq<char>>,
    oversized: bool,
    i: int,
    b: u32,
    a: u32,
)
    requires
        is_sweep(nets, ips, oversized),
        0 <= i < nets.len(),
        util::ipv4_of(nets[i].addr) == Some(b),
        PREFIX_CAP <= nets[i].prefix <= 32,
        util::network_address(b, nets[i].prefix) < a,
        a <= util::last_address(b, nets[i].prefix),
        !util::is_own(nets, a),
        !is_broadcast(nets, a),
    ensures
        ips.contains(util::ipv4_text(a)),
{
    let addrs = choose|addrs: Seq<u32>|
        #[trigger] util::lists(addrs, sweep_target(nets)) && addrs.len() > 0 && ips == util::quads(
            addrs,
        );
    util::lemma_network_range(a, b, nets[i].prefix);
    assert(in_swept_network(nets, nets.len() as int, a));
    assert(sweep_target(nets)(a));
    assert(addrs.contains(a));
    let k = choose|k: int| 0 <= k < addrs.len() && addrs[k] == a;
    assert(ips[k] == util::ipv4_text(a));
}

/// Nothing else is resolved: each address of a sweep lies in an on-link network
/// of at least twenty prefix bits, and is neither the network's own address nor
/// a broadcast address nor one of ours. A network with fewer bits makes the
/// sweep incomplete.
pub proof fn law_sweep_stays_on_the_link(
    nets: Seq<CidrModel>,
    ips: Seq<Seq<char>>,
    oversized: bool,
    k: int,
)
    requires
        is_sweep(nets, ips, oversized),
        0 <= k < ips.len(),
    ensures
        oversized <==> exists|i: int|
            0 <= i < nets.len() && util::ipv4_of((#[trigger] nets[i]).addr) is Some
                && nets[i].prefix < 20,
        util::ipv4_of(ips[k]) is Some,
        ({
            let a = util::ipv4_of(ips[k]).unwrap();
            &&& exists|i: int|
                0 <= i < nets.len() && (match util::ipv4_of((#[trigger] nets[i]).addr) {
                    Some(b) => nets[i].prefix >= 20 && util::same_network(a, b, nets[i].prefix)
                        && a != util::network_address(b, nets[i].prefix),
                    None => false,
                })
            &&& forall|i: int|
                0 <= i < nets.len() ==> (match util::ipv4_of((#[trigger] nets[i]).addr) {
                    Some(b) => a != b && a != util::last_address(b, nets[i].prefix),
                    None => true,
                })
        }),
{
    let addrs = choose|addrs: Seq<u32>|
        #[trigger] util::lists(addrs, sweep_target(nets)) && addrs.len() > 0 && ips == util::quads(
            addrs,
        );
    let a = addrs[k];
    assert(addrs.contains(a));
    assert(ips[k] == util::ipv4_text(a));
    util::lemma_ipv4_roundtrip(a);
    assert(sweep_target(nets)(a));
    assert forall|i: int| 0 <= i < nets.len() implies (match util::ipv4_of(
        (#[trigger] nets[i]).addr,
    ) {
        Some(b) => a != b && a != util::last_address(b, nets[i].prefix),
        None => true,
    }) by {
        if util::ipv4_of(nets[i].addr) == Some(a) {
            assert(util::is_own(nets, a));
        }
    }
}

/// What answered is observed at its address with the MAC it answered with; what
/// did not is not observed.
pub proof fn law_answers_are_observed(
    ips: Seq<Seq<char>>,
    macs: Seq<Option<Seq<char>>>,
    n: int,
    o: ObservationModel,
)
    requires
        0 <= n <= ips.len(),
    ensures
        arp_observations(ips, macs, n).contains(o) <==> exists|i: int|
            0 <= i < n && i < macs.len() && (#[trigger] macs[i]) is Some && o == (
            ObservationModel {
                ip: ips[i],
                mac: macs[i],
                name: None,
                vendor: None,
                source: "arp-ping"@,
                confidence: 95,
            }),
    decreases n,
{
    if n > 0 {
        law_answers_are_observed(ips, macs, n - 1, o);
        let rest = arp_observations(ips, macs, n - 1);
        let all = arp_observations(ips, macs, n);
        if n - 1 < macs.len() && macs[n - 1] is Some {
            crate::text::lemma_push_contains(rest, all.last());
            assert(all.contains(o) <==> rest.contains(o) || o == all.last());
        }
    }
}

} // verus!
