//! `ping-sweep`: targeted liveness probes. This is *not* an address-range
//! loop: it probes what wave 1 found (neighbor cache, mDNS, SSDP), the
//! gateway, and a bounded set of conventional infrastructure addresses, plus
//! the subnet-directed broadcast as a cache primer. Pinging devices refreshes
//! their neighbor-cache entries, which the scanner re-reads afterwards to
//! harvest MACs.
//!
//! See [`plan_sweep`] for what is probed and what may be reported: the
//! broadcast address is probed but never reported as a device.

use vstd::prelude::*;
use vstd::string::*;

use crate::discovery::{Coverage, ScanContext, Strategy, StrategyModel, StrategyOutcome};
use crate::model::{Capability, Interface, InterfaceModel, Observation, ObservationModel};
use crate::util;
use crate::util::{
    broadcast_address, format_all, format_ipv4, has_address, insert_address, netmask,
    own_addresses, parse_ipv4,
};

verus! {

/// How many low addresses to probe as infrastructure heuristics. Routers,
/// switches, APs and NAS boxes conventionally sit at the bottom of the
/// prefix; this is a bounded guess, not a range loop.
pub const HEURISTIC_LOW_HOSTS: u32 = 10;

#[derive(Debug, Clone, Copy)]
pub struct PingSweep;

impl Strategy for PingSweep {
    open spec fn id_text(&self) -> Seq<char> {
        "ping-sweep"@
    }

    open spec fn covers(&self) -> Coverage {
        Coverage::PresenceOnly
    }

    open spec fn turn(&self) -> u8 {
        2
    }

    fn id(&self) -> (r: &'static str) {
        "ping-sweep"
    }

    fn coverage(&self) -> (r: Coverage) {
        Coverage::PresenceOnly
    }

    fn wave(&self) -> (r: u8) {
        2
    }
}

/// The addresses ping-sweep will probe.
#[derive(Debug)]
pub struct SweepPlan {
    /// May yield a device observation.
    pub targets: Vec<String>,
    /// Probed only to populate the neighbor cache, which the scanner re-reads
    /// afterwards. Never reported as a device.
    pub primers: Vec<String>,
}

/// One address to probe.
#[derive(Debug)]
pub struct Probe {
    pub ip: String,
    /// Whether an answer is a device.
    pub reportable: bool,
}

/// An address is among texts.
pub open spec fn spelled_among(texts: Seq<Seq<char>>, a: u32) -> bool {
    exists|i: int| 0 <= i < texts.len() && util::ipv4_of(#[trigger] texts[i]) == Some(a)
}

/// An address where infrastructure conventionally sits: one of the first ten
/// of the prefix, or the last usable one.
pub open spec fn conventional(first: u32, last: u32, a: u32) -> bool {
    last > first && ((first < a <= first + HEURISTIC_LOW_HOSTS && a < last) || a == last - 1)
}

/// There is something to learn about an address: an earlier wave saw it, it is
/// the gateway, or infrastructure conventionally sits there.
pub open spec fn worth_probing(
    candidates: Seq<Seq<char>>,
    gateway: Option<Seq<char>>,
    first: u32,
    last: u32,
    a: u32,
) -> bool {
    ||| spelled_among(candidates, a)
    ||| gateway is Some && util::ipv4_of(gateway.unwrap()) == Some(a)
    ||| conventional(first, last, a)
}

/// The prefix length of the interface's first network, no longer than an
/// address.
pub open spec fn first_prefix(iface: InterfaceModel) -> u8 {
    if iface.ipv4[0].prefix < 32 {
        iface.ipv4[0].prefix
    } else {
        32
    }
}

/// The interface has a first network that can be read.
pub open spec fn has_first(iface: InterfaceModel) -> bool {
    iface.ipv4.len() > 0 && util::ipv4_of(iface.ipv4[0].addr) is Some
}

/// The first address of the interface's first network.
pub open spec fn first_of_link(iface: InterfaceModel) -> u32 {
    util::network_address(util::ipv4_of(iface.ipv4[0].addr).unwrap(), first_prefix(iface))
}

/// The last address of the interface's first network.
pub open spec fn last_of_link(iface: InterfaceModel) -> u32 {
    util::last_address(util::ipv4_of(iface.ipv4[0].addr).unwrap(), first_prefix(iface))
}

/// The addresses that a sweep probes as devices.
pub open spec fn probe_target(candidates: Seq<Seq<char>>, iface: InterfaceModel) -> spec_fn(
    u32,
) -> bool {
    |a: u32|
        {
            let first = first_of_link(iface);
            let last = last_of_link(iface);
            &&& worth_probing(candidates, iface.gateway_v4, first, last, a)
            &&& first < a < last
            &&& !util::is_own(iface.ipv4, a)
        }
}

/// What a sweep probes to wake silent hosts.
pub open spec fn primers_of(iface: InterfaceModel) -> Seq<Seq<char>> {
    if last_of_link(iface) > first_of_link(iface) && !util::is_own(iface.ipv4, last_of_link(iface)) {
        seq![util::ipv4_text(last_of_link(iface))]
    } else {
        Seq::empty()
    }
}

/// A plan for a sweep.
pub open spec fn is_plan(
    candidates: Seq<Seq<char>>,
    iface: InterfaceModel,
    targets: Seq<Seq<char>>,
    primers: Seq<Seq<char>>,
) -> bool {
    if has_first(iface) {
        primers == primers_of(iface) && exists|addrs: Seq<u32>|
            #[trigger] util::lists(addrs, probe_target(candidates, iface)) && targets
                == util::quads(addrs)
    } else {
        targets.len() == 0 && primers.len() == 0
    }
}

/// The addresses that texts spell.
fn spelled_addresses(texts: &[String]) -> (r: Vec<u32>)
    ensures
        util::ascending(r@),
        forall|a: u32| #[trigger] r@.contains(a) <==> spelled_among(texts.deep_view(), a),
{
    let ghost all = texts.deep_view();
    let mut out: Vec<u32> = Vec::new();
    let mut i: usize = 0;
    while i < texts.len()
        invariant
            i <= texts@.len(),
            all == texts.deep_view(),
            util::ascending(out@),
            forall|a: u32| #[trigger] out@.contains(a) <==> spelled_among(all.take(i as int), a),
        decreases texts@.len() - i,
    {
        assert(all[i as int] == texts@[i as int]@);
        let ghost before = out@;
        let ghost now = all.take(i + 1);
        if let Some(a) = parse_ipv4(texts[i].as_str()) {
            insert_address(&mut out, a);
        }
        assert forall|a: u32| #[trigger] out@.contains(a) <==> spelled_among(now, a) by {
            if before.contains(a) {
                let k = choose|k: int|
                    0 <= k < i && util::ipv4_of(#[trigger] all.take(i as int)[k]) == Some(a);
                assert(now[k] == all.take(i as int)[k]);
            }
            if util::ipv4_of(all[i as int]) == Some(a) {
                assert(now[i as int] == all[i as int]);
            }
            if spelled_among(now, a) {
                let k = choose|k: int|
                    0 <= k < now.len() && util::ipv4_of(#[trigger] now[k]) == Some(a);
                if k < i {
                    assert(all.take(i as int)[k] == now[k]);
                    assert(spelled_among(all.take(i as int), a));
                }
            }
        }
        i = i + 1;
    }
    assert(all.take(all.len() as int) == all);
    out
}

/// Decide what to probe: the candidates wave 1 found, the gateway, a bounded
/// set of conventional infrastructure addresses, and the subnet-directed
/// broadcast (as a primer). Our own addresses, the network address and the
/// broadcast address are never targets.
pub fn plan_sweep(candidates: &[String], iface: &Interface) -> (r: SweepPlan)
    ensures
        is_plan(
            candidates.deep_view(),
            iface.deep_view(),
            r.targets.deep_view(),
            r.primers.deep_view(),
        ),
{
    let ghost m = iface.deep_view();
    if iface.ipv4.len() == 0 {
        return SweepPlan { targets: Vec::new(), primers: Vec::new() };
    }
    assert(m.ipv4[0] == iface.ipv4@[0].deep_view());
    let addr: u32 = match parse_ipv4(iface.ipv4[0].addr.as_str()) {
        Some(a) => a,
        None => {
            return SweepPlan { targets: Vec::new(), primers: Vec::new() };
        },
    };
    let prefix: u8 = if iface.ipv4[0].prefix < 32 {
        iface.ipv4[0].prefix
    } else {
        32
    };
    let first: u32 = addr & netmask(prefix);
    let last: u32 = broadcast_address(addr, prefix);
    proof {
        util::lemma_network_range(addr, addr, prefix);
    }
    let own = own_addresses(iface);
    let mut found = spelled_addresses(candidates);
    if let Some(gw) = &iface.gateway_v4 {
        if let Some(a) = parse_ipv4(gw.as_str()) {
            insert_address(&mut found, a);
        }
    }
    if last > first {
        let ghost seen = found@;
        let mut i: u32 = 1;
        while i <= HEURISTIC_LOW_HOSTS
            invariant
                1 <= i <= HEURISTIC_LOW_HOSTS + 1,
                first < last,
                util::ascending(found@),
                forall|a: u32| #[trigger]
                    found@.contains(a) <==> seen.contains(a) || (first < a < first + i && a < last),
            decreases HEURISTIC_LOW_HOSTS + 1 - i,
        {
            if i < last - first {
                insert_address(&mut found, first + i);
            }
            i = i + 1;
        }
        insert_address(&mut found, last - 1);
    }
    let ghost p = probe_target(candidates.deep_view(), m);
    let ghost known = found@;
    assert forall|a: u32| #[trigger] known.contains(a) == worth_probing(
        candidates.deep_view(),
        m.gateway_v4,
        first,
        last,
        a,
    ) by {}
    let mut targets: Vec<u32> = Vec::new();
    let mut j: usize = 0;
    while j < found.len()
        invariant
            j <= found.len(),
            known == found@,
            util::ascending(known),
            util::ascending(targets@),
            forall|a: u32| #[trigger] own@.contains(a) <==> util::is_own(m.ipv4, a),
            forall|a: u32| #[trigger]
                targets@.contains(a) <==> known.take(j as int).contains(a) && first < a < last
                    && !util::is_own(m.ipv4, a),
        decreases found.len() - j,
    {
        let a = found[j];
        assert(known.take(j + 1) == known.take(j as int).push(a));
        proof {
            crate::text::lemma_push_contains(known.take(j as int), a);
        }
        if first < a && a < last && !has_address(&own, a) {
            insert_address(&mut targets, a);
        }
        j = j + 1;
    }
    assert(known.take(known.len() as int) == known);
    assert(util::lists(targets@, p)) by {
        assert forall|a: u32| #[trigger] targets@.contains(a) <==> p(a) by {
            assert(known.contains(a) == worth_probing(
                candidates.deep_view(),
                m.gateway_v4,
                first,
                last,
                a,
            ));
        }
    }
    // The directed broadcast is probed but never reported: it is how silent
    // hosts get pulled into the neighbor cache, not a device of its own.
    let mut primers: Vec<String> = Vec::new();
    if last > first && !has_address(&own, last) {
        primers.push(format_ipv4(last));
    }
    assert(primers.deep_view() == primers_of(m));
    SweepPlan { targets: format_all(&targets), primers }
}

/// What is probed: primers first, so that hosts they wake are in the neighbor
/// cache by the time it is read again.
pub open spec fn probes_of(targets: Seq<Seq<char>>, primers: Seq<Seq<char>>) -> Seq<
    (Seq<char>, bool),
> {
    primers.map_values(|ip: Seq<char>| (ip, false)) + targets.map_values(
        |ip: Seq<char>| (ip, true),
    )
}

impl DeepView for Probe {
    type V = (Seq<char>, bool);

    open spec fn deep_view(&self) -> (Seq<char>, bool) {
        (self.ip@, self.reportable)
    }
}

/// One answer as an observation.
pub open spec fn ping_observation(ip: Seq<char>) -> ObservationModel {
    ObservationModel {
        ip,
        mac: None,
        name: None,
        vendor: None,
        source: "ping-sweep"@,
        confidence: 85,
    }
}

/// The observations of the first `n` probes: those that answered and may be
/// reported.
pub open spec fn ping_observations(probes: Seq<(Seq<char>, bool)>, alive: Seq<bool>, n: int) -> Seq<
    ObservationModel,
>
    decreases n,
{
    if n <= 0 {
        Seq::empty()
    } else {
        let rest = ping_observations(probes, alive, n - 1);
        if probes[n - 1].1 && n - 1 < alive.len() && alive[n - 1] {
            rest.push(ping_observation(probes[n - 1].0))
        } else {
            rest
        }
    }
}

/// Append texts as probes.
fn push_probes(out: &mut Vec<Probe>, ips: Vec<String>, reportable: bool)
    ensures
        final(out).deep_view() == old(out).deep_view() + ips.deep_view().map_values(
            |ip: Seq<char>| (ip, reportable),
        ),
{
    let ghost start = out.deep_view();
    let ghost all = ips.deep_view();
    let ghost f = |ip: Seq<char>| (ip, reportable);
    let mut i: usize = 0;
    while i < ips.len()
        invariant
            i <= ips.len(),
            all == ips.deep_view(),
            f == (|ip: Seq<char>| (ip, reportable)),
            out.deep_view() == start + all.take(i as int).map_values(f),
        decreases ips.len() - i,
    {
        let ghost so_far = out.deep_view();
        assert(all[i as int] == ips@[i as int]@);
        out.push(Probe { ip: ips[i].clone(), reportable });
        assert(out.deep_view() == so_far.push((all[i as int], reportable)));
        assert(all.take(i + 1).map_values(f) == all.take(i as int).map_values(f).push(
            (all[i as int], reportable),
        ));
        i = i + 1;
    }
    assert(all.take(all.len() as int) == all);
}

impl PingSweep {
    /// Decide what to probe, or why nothing can be probed.
    pub fn plan(&self, ctx: &ScanContext) -> (r: Result<Vec<Probe>, String>)
        ensures
            if ctx.caps@.contains(Capability::IcmpEcho) {
                r is Ok && exists|targets: Seq<Seq<char>>, primers: Seq<Seq<char>>|
                    #[trigger] is_plan(
                        ctx.candidates.deep_view(),
                        ctx.iface.deep_view(),
                        targets,
                        primers,
                    ) && r->Ok_0.deep_view() == probes_of(targets, primers)
            } else {
                r is Err && r->Err_0@
                    == "ICMP echo unavailable unprivileged on this system (helper enables it)"@
            },
    {
        if !ctx.has_cap(Capability::IcmpEcho) {
            return Err(
                "ICMP echo unavailable unprivileged on this system (helper enables it)".to_string(),
            );
        }
        let plan = plan_sweep(ctx.candidates.as_slice(), &ctx.iface);
        let ghost targets = plan.targets.deep_view();
        let ghost primers = plan.primers.deep_view();
        assert(ctx.candidates.deep_view() == ctx.candidates@.map_values(|s: String| s@));
        let mut probes: Vec<Probe> = Vec::new();
        push_probes(&mut probes, plan.primers, false);
        push_probes(&mut probes, plan.targets, true);
        assert(probes.deep_view() == probes_of(targets, primers));
        assert(is_plan(ctx.candidates.deep_view(), ctx.iface.deep_view(), targets, primers));
        Ok(probes)
    }

    /// Report what answered: one answer for each probe.
    pub fn report(&self, probes: &Vec<Probe>, alive: &Vec<bool>) -> (r: StrategyOutcome)
        ensures
            r.deep_view() == (StrategyModel {
                observations: ping_observations(
                    probes.deep_view(),
                    alive@,
                    probes@.len() as int,
                ),
                problem: None,
            }),
    {
        let ghost all = probes.deep_view();
        let mut observations: Vec<Observation> = Vec::new();
        let mut i: usize = 0;
        while i < probes.len()
            invariant
                i <= probes.len(),
                all == probes.deep_view(),
                observations.deep_view() == ping_observations(all, alive@, i as int),
            decreases probes.len() - i,
        {
            assert(all[i as int] == probes@[i as int].deep_view());
            if probes[i].reportable && i < alive.len() && alive[i] {
                let ghost so_far = observations.deep_view();
                let o = Observation {
                    ip: probes[i].ip.clone(),
                    mac: None,
                    name: None,
                    vendor: None,
                    source: self.id().to_string(),
                    confidence: 85,
                };
                let ghost model = o.deep_view();
                assert(model == ping_observation(all[i as int].0));
                observations.push(o);
                assert(observations.deep_view() == so_far.push(model));
            }
            i = i + 1;
        }
        StrategyOutcome::ok(observations)
    }
}

/// A plan is settled by the candidates and the interface: two plans for the
/// same are the same.
pub proof fn law_plan_is_deterministic(
    candidates: Seq<Seq<char>>,
    iface: InterfaceModel,
    t1: Seq<Seq<char>>,
    p1: Seq<Seq<char>>,
    t2: Seq<Seq<char>>,
    p2: Seq<Seq<char>>,
)
    requires
        is_plan(candidates, iface, t1, p1),
        is_plan(candidates, iface, t2, p2),
    ensures
        t1 == t2,
        p1 == p2,
{
    if has_first(iface) {
        let p = probe_target(candidates, iface);
        let a = choose|addrs: Seq<u32>|
            #[trigger] util::lists(addrs, p) && t1 == util::quads(addrs);
        let b = choose|addrs: Seq<u32>|
            #[trigger] util::lists(addrs, p) && t2 == util::quads(addrs);
        util::lemma_list_unique(a, b, p);
    } else {
        assert(t1 == t2 && p1 == p2);
    }
}

/// Neither the network address, nor the broadcast address, nor one of our own
/// is ever a target, and neither is an address off the link.
pub proof fn law_targets_are_other_hosts(
    candidates: Seq<Seq<char>>,
    iface: InterfaceModel,
    targets: Seq<Seq<char>>,
    primers: Seq<Seq<char>>,
    a: u32,
)
    requires
        is_plan(candidates, iface, targets, primers),
        targets.contains(util::ipv4_text(a)),
    ensures
        has_first(iface),
        first_of_link(iface) < a < last_of_link(iface),
        !util::is_own(iface.ipv4, a),
{
    let i = choose|i: int| 0 <= i < targets.len() && targets[i] == util::ipv4_text(a);
    let p = probe_target(candidates, iface);
    let addrs = choose|addrs: Seq<u32>|
        #[trigger] util::lists(addrs, p) && targets == util::quads(addrs);
    util::lemma_ipv4_roundtrip(a);
    util::lemma_ipv4_roundtrip(addrs[i]);
    assert(targets[i] == util::ipv4_text(addrs[i]));
    assert(addrs[i] == a);
    assert(addrs.contains(a));
    assert(p(a));
}

/// What is worth asking is asked: every other host of the interface's first
/// network that was seen before, is the gateway, is among the first ten of the
/// network or is the last of it. Nothing else is. The broadcast address is
/// asked first and is no target.
pub proof fn law_what_is_probed(
    candidates: Seq<Seq<char>>,
    iface: InterfaceModel,
    targets: Seq<Seq<char>>,
    primers: Seq<Seq<char>>,
    a: u32,
)
    requires
        is_plan(candidates, iface, targets, primers),
        iface.ipv4.len() > 0,
        util::ipv4_of(iface.ipv4[0].addr) is Some,
        iface.ipv4[0].prefix <= 32,
    ensures
        ({
            let own = util::ipv4_of(iface.ipv4[0].addr).unwrap();
            let first = util::network_address(own, iface.ipv4[0].prefix);
            let last = util::last_address(own, iface.ipv4[0].prefix);
            let is_ours = |x: u32|
                exists|i: int|
                    0 <= i < iface.ipv4.len() && util::ipv4_of((#[trigger] iface.ipv4[i]).addr)
                        == Some(x);
            let seen = exists|i: int|
                0 <= i < candidates.len() && util::ipv4_of(#[trigger] candidates[i]) == Some(a);
            let is_gateway = iface.gateway_v4 is Some && util::ipv4_of(iface.gateway_v4.unwrap())
                == Some(a);
            &&& targets.contains(util::ipv4_text(a)) <==> first < a < last && !is_ours(a) && (seen
                || is_gateway || a <= first + 10 || a == last - 1)
            &&& primers == if first < last && !is_ours(last) {
                seq![util::ipv4_text(last)]
            } else {
                Seq::empty()
            }
        }),
{
    let p = probe_target(candidates, iface);
    let addrs = choose|addrs: Seq<u32>|
        #[trigger] util::lists(addrs, p) && targets == util::quads(addrs);
    assert(targets.contains(util::ipv4_text(a)) <==> addrs.contains(a)) by {
        if addrs.contains(a) {
            let k = choose|k: int| 0 <= k < addrs.len() && addrs[k] == a;
            assert(targets[k] == util::ipv4_text(a));
        }
        if targets.contains(util::ipv4_text(a)) {
            let k = choose|k: int| 0 <= k < targets.len() && targets[k] == util::ipv4_text(a);
            util::lemma_ipv4_roundtrip(a);
            util::lemma_ipv4_roundtrip(addrs[k]);
            assert(addrs[k] == a);
        }
    }
    assert(addrs.contains(a) <==> p(a));
}

/// A target that answered is observed at its address; a primer is not, nor is
/// what did not answer.
pub proof fn law_answering_targets_are_observed(
    probes: Seq<(Seq<char>, bool)>,
    alive: Seq<bool>,
    n: int,
    o: ObservationModel,
)
    requires
        0 <= n <= probes.len(),
    ensures
        ping_observations(probes, alive, n).contains(o) <==> exists|i: int|
            0 <= i < n && i < alive.len() && (#[trigger] probes[i]).1 && alive[i] && o == (
            ObservationModel {
                ip: probes[i].0,
                mac: None,
                name: None,
                vendor: None,
                source: "ping-sweep"@,
                confidence: 85,
            }),
    decreases n,
{
    if n > 0 {
        law_answering_targets_are_observed(probes, alive, n - 1, o);
        let rest = ping_observations(probes, alive, n - 1);
        let all = ping_observations(probes, alive, n);
        if probes[n - 1].1 && n - 1 < alive.len() && alive[n - 1] {
            crate::text::lemma_push_contains(rest, all.last());
            assert(all.contains(o) <==> rest.contains(o) || o == all.last());
        }
    }
}

/// Primers are probed before targets, and only targets may be reported.
pub proof fn law_primers_come_first(targets: Seq<Seq<char>>, primers: Seq<Seq<char>>, i: int)
    requires
        0 <= i < primers.len() + targets.len(),
    ensures
        probes_of(targets, primers).len() == primers.len() + targets.len(),
        i < primers.len() ==> probes_of(targets, primers)[i] == (primers[i], false),
        i >= primers.len() ==> probes_of(targets, primers)[i] == (targets[i - primers.len()], true),
{
}

} // verus!
