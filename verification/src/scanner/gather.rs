//! What a scan decides while it gathers: the interface, the network, the
//! strategies, the candidates, and what to keep of each outcome.

use vstd::prelude::*;
use vstd::string::*;

use crate::discovery;
use crate::discovery::{registry, AnyStrategy, Coverage, Strategy, StrategyOutcome};
use crate::identity;
use crate::identity::network_key;
use crate::model::{
    CidrModel, Interface, InterfaceModel, NeighborEntry, NeighborModel, Observation,
    ObservationModel, PartialReason, PrivilegeModel, PrivilegeState, ReasonModel,
};
use crate::model::Capability;
use crate::netenv;
use crate::netenv::{default_interface, lookup_mac};
use crate::num;
use crate::num::push_dec;
use crate::privilege::Platform;
use crate::scanner::ScanError;
use crate::seqs;
use crate::store::scans;
use crate::store::scans::{listed_strings, parse_json_strings};
use crate::store::{Store, StoreModel};
use crate::text;
use crate::text::{as_opt_str, clone_opt, clone_strings, contains_str, place, str_eq};
use crate::util;
use crate::util::ipv4_in_network_of;

verus! {

// ----- the interface and the network -----

/// Pick the interface to scan; it must have an IPv4 address.
pub fn pick_interface(ifaces: &[Interface]) -> (r: Result<Interface, ScanError>)
    ensures
        match r {
            Ok(x) => x.deep_view().ipv4.len() > 0 && exists|i: int|
                #[trigger] netenv::is_default(ifaces.deep_view(), i) && x.deep_view()
                    == ifaces.deep_view()[i],
            Err(e) => e is NoInterface && forall|j: int|
                0 <= j < ifaces@.len() ==> !netenv::scannable(#[trigger] ifaces.deep_view()[j]),
        },
{
    match default_interface(ifaces) {
        Some(iface) => Ok(iface),
        None => Err(ScanError::NoInterface),
    }
}

/// Check that an interface has an IPv4 address.
pub fn require_ipv4(iface: &Interface) -> (r: Result<(), ScanError>)
    ensures
        match r {
            Ok(_) => iface.deep_view().ipv4.len() > 0,
            Err(e) => iface.deep_view().ipv4.len() == 0 && e is NoIpv4 && e->NoIpv4_0@
                == iface.name@,
        },
{
    if iface.ipv4.len() == 0 {
        assert(iface.deep_view().ipv4.len() == 0);
        return Err(ScanError::NoIpv4(iface.name.clone()));
    }
    assert(iface.deep_view().ipv4.len() > 0);
    Ok(())
}

/// The network of an interface's first address, with its prefix length.
pub open spec fn first_network(i: InterfaceModel) -> Option<Seq<char>> {
    if i.ipv4.len() > 0 {
        i.ipv4[0].network_text()
    } else {
        None
    }
}

/// The subnet of an interface: that of its first address.
pub open spec fn subnet_of(i: InterfaceModel) -> Seq<char> {
    match first_network(i) {
        Some(s) => s,
        None => "0.0.0.0/0"@,
    }
}

/// The prefix length of an interface's first address.
pub open spec fn prefix_of(i: InterfaceModel) -> nat {
    if i.ipv4.len() > 0 {
        i.ipv4[0].prefix as nat
    } else {
        0
    }
}

/// The part of a network's key that tells its address range: the network with
/// its prefix length, or the prefix length alone where the address is none.
pub open spec fn range_of(i: InterfaceModel) -> Seq<char> {
    match first_network(i) {
        Some(s) => s,
        None => "0.0.0.0/0"@ + seq!['/'] + num::dec(prefix_of(i)),
    }
}

/// The key of the network that an interface is on.
pub open spec fn network_of(i: InterfaceModel) -> Seq<char> {
    identity::network_key_of(i.gateway_mac, range_of(i), i.kind)
}

/// The network of an interface's first address.
fn own_network(iface: &Interface) -> (r: Option<String>)
    requires
        iface.deep_view().wf(),
    ensures
        r.deep_view() == first_network(iface.deep_view()),
{
    if iface.ipv4.len() > 0 {
        assert(iface.deep_view().ipv4[0] == iface.ipv4@[0].deep_view());
        iface.ipv4[0].network_string()
    } else {
        None
    }
}

/// The subnet of an interface.
pub fn subnet(iface: &Interface) -> (r: String)
    requires
        iface.deep_view().wf(),
    ensures
        r@ == subnet_of(iface.deep_view()),
{
    match own_network(iface) {
        Some(s) => s,
        None => "0.0.0.0/0".to_string(),
    }
}

/// The key of the network that an interface is on.
pub fn interface_network_key(iface: &Interface) -> (r: String)
    requires
        iface.deep_view().wf(),
    ensures
        r@ == network_of(iface.deep_view()),
{
    let range = match own_network(iface) {
        Some(s) => s,
        None => {
            let prefix: u8 = if iface.ipv4.len() > 0 {
                assert(iface.deep_view().ipv4[0] == iface.ipv4@[0].deep_view());
                iface.ipv4[0].prefix
            } else {
                0
            };
            let mut s = "0.0.0.0/0".to_string();
            s.push('/');
            push_dec(&mut s, prefix as u64);
            assert(s@ == range_of(iface.deep_view()));
            s
        },
    };
    network_key(as_opt_str(&iface.gateway_mac), range.as_str(), iface.kind)
}

/// The MAC that a neighbor table has for an interface's gateway.
pub open spec fn gateway_in(i: InterfaceModel, entries: Seq<NeighborModel>) -> Option<Seq<char>> {
    match i.gateway_v4 {
        Some(gw) => netenv::cached_mac(entries, gw),
        None => None,
    }
}

/// Learn the gateway's MAC from the neighbor cache, if it is there.
pub fn learn_gateway_mac(iface: Interface, entries: &Vec<NeighborEntry>) -> (r: Interface)
    ensures
        r.deep_view() == (match gateway_in(iface.deep_view(), entries.deep_view()) {
            Some(mac) => InterfaceModel { gateway_mac: Some(mac), ..iface.deep_view() },
            None => iface.deep_view(),
        }),
{
    let mut out = iface;
    let found = match &out.gateway_v4 {
        Some(gw) => lookup_mac(entries, gw.as_str()),
        None => None,
    };
    if found.is_some() {
        out.gateway_mac = found;
    }
    out
}

/// Whether to ping the gateway once so that the neighbor cache learns it: it
/// is not there and echo works.
pub fn should_ping_gateway(
    iface: &Interface,
    entries: &Vec<NeighborEntry>,
    state: &PrivilegeState,
) -> (r: bool)
    ensures
        r == (iface.gateway_v4 is Some && gateway_in(
            iface.deep_view(),
            entries.deep_view(),
        ) is None && state.deep_view().capabilities.contains(Capability::IcmpEcho)),
{
    match &iface.gateway_v4 {
        Some(gw) => lookup_mac(entries, gw.as_str()).is_none() && state.has(Capability::IcmpEcho),
        None => false,
    }
}

// ----- the helper -----

/// Whether the helper is to be launched: it was asked for, and ARP resolution
/// does not work without it.
pub fn wants_helper(use_helper: bool, state: &PrivilegeState) -> (r: bool)
    ensures
        r == (use_helper && !state.deep_view().capabilities.contains(Capability::ArpResolve)),
{
    use_helper && !state.has(Capability::ArpResolve)
}

/// The address to try the helper on: the gateway, else the interface's own
/// first address, else the loopback.
pub open spec fn trial_address(i: InterfaceModel) -> Seq<char> {
    match i.gateway_v4 {
        Some(gw) => gw,
        None => if i.ipv4.len() > 0 {
            i.ipv4[0].addr
        } else {
            "127.0.0.1"@
        },
    }
}

/// The address to try the helper on before trusting it.
pub fn probe_ip(iface: &Interface) -> (r: String)
    ensures
        r@ == trial_address(iface.deep_view()),
{
    match &iface.gateway_v4 {
        Some(gw) => gw.clone(),
        None => {
            if iface.ipv4.len() > 0 {
                assert(iface.deep_view().ipv4[0] == iface.ipv4@[0].deep_view());
                iface.ipv4[0].addr.clone()
            } else {
                "127.0.0.1".to_string()
            }
        },
    }
}

/// How launching the helper went.
#[derive(Debug)]
pub enum HelperStart {
    /// It answered.
    Answered,
    /// It was launched and failed.
    Failed(String),
    /// It could not be launched.
    Unavailable(String),
}

/// The privilege state in the light of how launching the helper went.
pub open spec fn with_helper(m: PrivilegeModel, start: HelperStart) -> PrivilegeModel {
    match start {
        HelperStart::Answered => PrivilegeModel {
            helper_connected: true,
            capabilities: m.capabilities.push(Capability::ArpResolve),
            ..m
        },
        HelperStart::Failed(e) => PrivilegeModel {
            notes: m.notes.push("helper launched but failed: "@ + e@),
            ..m
        },
        HelperStart::Unavailable(e) => PrivilegeModel {
            notes: m.notes.push("helper unavailable: "@ + e@),
            ..m
        },
    }
}

/// Record how launching the helper went.
pub fn note_helper(state: &mut PrivilegeState, start: HelperStart)
    ensures
        final(state).deep_view() == with_helper(old(state).deep_view(), start),
{
    let ghost notes = state.notes.deep_view();
    match start {
        HelperStart::Answered => {
            state.helper_connected = true;
            state.capabilities.push(Capability::ArpResolve);
        },
        HelperStart::Failed(e) => {
            let mut n = "helper launched but failed: ".to_string();
            n.append(e.as_str());
            let ghost text = n@;
            state.notes.push(n);
            assert(state.notes.deep_view() == notes.push(text));
        },
        HelperStart::Unavailable(e) => {
            let mut n = "helper unavailable: ".to_string();
            n.append(e.as_str());
            let ghost text = n@;
            state.notes.push(n);
            assert(state.notes.deep_view() == notes.push(text));
        },
    }
}

/// Whether addresses are resolved natively first: ARP resolution works and
/// this is not Linux, where only the helper has it.
pub fn native_arp_usable(state: &PrivilegeState, platform: Platform) -> (r: bool)
    ensures
        r == (state.deep_view().capabilities.contains(Capability::ArpResolve) && platform
            != Platform::Linux),
{
    state.has(Capability::ArpResolve) && platform != Platform::Linux
}

/// The MAC that an address resolves to: what the system answered, else what
/// the helper did, else what the neighbor cache holds.
pub open spec fn resolved_mac(
    native: Option<Seq<char>>,
    helper: Option<Seq<char>>,
    entries: Seq<NeighborModel>,
    ip: Seq<char>,
) -> Option<Seq<char>> {
    if native is Some {
        native
    } else if helper is Some {
        helper
    } else {
        netenv::cached_mac(entries, ip)
    }
}

/// Settle on the MAC of an address.
pub fn resolve_mac(
    native: Option<String>,
    helper: Option<String>,
    entries: &Vec<NeighborEntry>,
    ip: &str,
) -> (r: Option<String>)
    ensures
        r.deep_view() == resolved_mac(
            native.deep_view(),
            helper.deep_view(),
            entries.deep_view(),
            ip@,
        ),
{
    if native.is_some() {
        native
    } else if helper.is_some() {
        helper
    } else {
        lookup_mac(entries, ip)
    }
}

/// What was found for a slot, nothing where the list is too short.
pub open spec fn slot(found: Seq<Option<Seq<char>>>, i: int) -> Option<Seq<char>> {
    if 0 <= i < found.len() {
        found[i]
    } else {
        None
    }
}

/// Those of the first `n` addresses for which nothing was found.
pub open spec fn unresolved(
    ips: Seq<Seq<char>>,
    found: Seq<Option<Seq<char>>>,
    n: int,
) -> Seq<Seq<char>>
    decreases n,
{
    if n <= 0 {
        Seq::empty()
    } else {
        let rest = unresolved(ips, found, n - 1);
        if slot(found, n - 1) is None {
            rest.push(ips[n - 1])
        } else {
            rest
        }
    }
}

/// What is in a slot.
fn in_slot(found: &Vec<Option<String>>, i: usize) -> (r: Option<String>)
    ensures
        r.deep_view() == slot(found.deep_view(), i as int),
{
    if i < found.len() {
        assert(found.deep_view()[i as int] == found@[i as int].deep_view());
        clone_opt(&found[i])
    } else {
        None
    }
}

/// The addresses that are left for the helper: those the system did not
/// answer.
pub fn left_over(ips: &Vec<String>, found: &Vec<Option<String>>) -> (r: Vec<String>)
    ensures
        r.deep_view() == unresolved(ips.deep_view(), found.deep_view(), ips@.len() as int),
{
    let ghost all = ips.deep_view();
    let mut out: Vec<String> = Vec::new();
    let mut i: usize = 0;
    while i < ips.len()
        invariant
            i <= ips.len(),
            all == ips.deep_view(),
            out.deep_view() == unresolved(all, found.deep_view(), i as int),
        decreases ips.len() - i,
    {
        assert(all[i as int] == ips@[i as int]@);
        if in_slot(found, i).is_none() {
            let ghost so_far = out.deep_view();
            out.push(ips[i].clone());
            assert(out.deep_view() == so_far.push(all[i as int]));
        }
        i = i + 1;
    }
    out
}

/// The MACs of the first `n` addresses. The helper's answers go to the
/// addresses that were left for it, in their order.
pub open spec fn settled(
    ips: Seq<Seq<char>>,
    native: Seq<Option<Seq<char>>>,
    helped: Seq<Option<Seq<char>>>,
    entries: Seq<NeighborModel>,
    n: int,
) -> Seq<Option<Seq<char>>>
    decreases n,
{
    if n <= 0 {
        Seq::empty()
    } else {
        settled(ips, native, helped, entries, n - 1).push(
            resolved_mac(
                slot(native, n - 1),
                slot(helped, unresolved(ips, native, n - 1).len() as int),
                entries,
                ips[n - 1],
            ),
        )
    }
}

/// Settle on the MAC of every address, from what the system answered for each
/// and what the helper answered for those that were left over.
pub fn settle_macs(
    ips: &Vec<String>,
    native: &Vec<Option<String>>,
    helped: &Vec<Option<String>>,
    entries: &Vec<NeighborEntry>,
) -> (r: Vec<Option<String>>)
    ensures
        r.deep_view() == settled(
            ips.deep_view(),
            native.deep_view(),
            helped.deep_view(),
            entries.deep_view(),
            ips@.len() as int,
        ),
{
    let ghost all = ips.deep_view();
    let mut out: Vec<Option<String>> = Vec::new();
    let mut next: usize = 0;
    let mut i: usize = 0;
    while i < ips.len()
        invariant
            next <= i <= ips.len(),
            all == ips.deep_view(),
            next == unresolved(all, native.deep_view(), i as int).len(),
            out.deep_view() == settled(
                all,
                native.deep_view(),
                helped.deep_view(),
                entries.deep_view(),
                i as int,
            ),
        decreases ips.len() - i,
    {
        assert(all[i as int] == ips@[i as int]@);
        let own = in_slot(native, i);
        let open = own.is_none();
        let mac = resolve_mac(own, in_slot(helped, next), entries, ips[i].as_str());
        let ghost so_far = out.deep_view();
        let ghost model = mac.deep_view();
        out.push(mac);
        assert(out.deep_view() == so_far.push(model));
        if open {
            next = next + 1;
        }
        i = i + 1;
    }
    out
}

/// Every address is settled in its own slot, and an answer of the helper goes
/// to the address it was asked for.
pub proof fn law_answers_go_where_they_were_asked_for(
    ips: Seq<Seq<char>>,
    native: Seq<Option<Seq<char>>>,
    helped: Seq<Option<Seq<char>>>,
    entries: Seq<NeighborModel>,
    i: int,
)
    requires
        0 <= i < ips.len(),
    ensures
        ({
            let macs = settled(ips, native, helped, entries, ips.len() as int);
            let left = unresolved(ips, native, ips.len() as int);
            let place = unresolved(ips, native, i).len() as int;
            &&& macs.len() == ips.len()
            &&& slot(native, i) is Some ==> macs[i] == slot(native, i)
            &&& slot(native, i) is None ==> place < left.len() && left[place] == ips[i] && (slot(
                helped,
                place,
            ) is Some ==> macs[i] == slot(helped, place))
        }),
{
    lemma_settled_upto(ips, native, helped, entries, i, ips.len() as int);
}

/// What is settled for an address stays as it is while others follow.
proof fn lemma_settled_upto(
    ips: Seq<Seq<char>>,
    native: Seq<Option<Seq<char>>>,
    helped: Seq<Option<Seq<char>>>,
    entries: Seq<NeighborModel>,
    i: int,
    n: int,
)
    requires
        0 <= i < n <= ips.len(),
    ensures
        ({
            let macs = settled(ips, native, helped, entries, n);
            let left = unresolved(ips, native, n);
            let place = unresolved(ips, native, i).len() as int;
            &&& macs.len() == n
            &&& macs[i] == resolved_mac(slot(native, i), slot(helped, place), entries, ips[i])
            &&& place <= left.len()
            &&& slot(native, i) is None ==> place < left.len() && left[place] == ips[i]
        }),
    decreases n,
{
    if i < n - 1 {
        lemma_settled_upto(ips, native, helped, entries, i, n - 1);
    } else {
        lemma_settled_len(ips, native, helped, entries, i);
    }
}

/// As many slots are settled as there are addresses.
proof fn lemma_settled_len(
    ips: Seq<Seq<char>>,
    native: Seq<Option<Seq<char>>>,
    helped: Seq<Option<Seq<char>>>,
    entries: Seq<NeighborModel>,
    n: int,
)
    requires
        0 <= n,
    ensures
        settled(ips, native, helped, entries, n).len() == n,
    decreases n,
{
    if n > 0 {
        lemma_settled_len(ips, native, helped, entries, n - 1);
    }
}

// ----- the strategies -----

/// The enabled strategies by id: those asked for, else those of the setting.
pub open spec fn enabled_ids(asked: Option<Seq<Seq<char>>>, m: StoreModel) -> Seq<Seq<char>> {
    match asked {
        Some(ids) => ids,
        None => scans::strings_or_none(
            scans::json_strings(
                match crate::store::setting_of(m.settings, "enabled_strategies"@) {
                    Some(v) => v,
                    None => "[]"@,
                },
            ),
        ),
    }
}

/// The enabled strategies by id.
pub fn enabled_strategies(asked: &Option<Vec<String>>, store: &Store) -> (r: Vec<String>)
    ensures
        r.deep_view() == enabled_ids(asked.deep_view(), store.deep_view()),
{
    match asked {
        Some(ids) => clone_strings(ids),
        None => {
            let setting = match store.get_setting("enabled_strategies") {
                Some(v) => v,
                None => "[]".to_string(),
            };
            listed_strings(parse_json_strings(setting.as_str()))
        },
    }
}

/// The condition of being enabled.
pub open spec fn enabled_in(ids: Seq<Seq<char>>) -> spec_fn(AnyStrategy) -> bool {
    |s: AnyStrategy| ids.contains(s.id_text())
}

/// The strategies to run: those enabled, in registration order.
pub open spec fn selected(ids: Seq<Seq<char>>) -> Seq<AnyStrategy> {
    discovery::registered().filter(enabled_in(ids))
}

/// The condition of running in a wave.
pub open spec fn runs_in(wave: u8) -> spec_fn(AnyStrategy) -> bool {
    |s: AnyStrategy| s.turn() == wave
}

/// Pick the strategies to run.
pub fn select_strategies(enabled: &Vec<String>) -> (r: Vec<AnyStrategy>)
    ensures
        r@ == selected(enabled.deep_view()),
{
    let all = registry();
    let ghost p = enabled_in(enabled.deep_view());
    let mut out: Vec<AnyStrategy> = Vec::new();
    let mut i: usize = 0;
    proof {
        reveal(Seq::filter);
        assert(all@.take(0).filter(p) == Seq::<AnyStrategy>::empty());
    }
    while i < all.len()
        invariant
            i <= all.len(),
            p == enabled_in(enabled.deep_view()),
            out@ == all@.take(i as int).filter(p),
        decreases all.len() - i,
    {
        proof {
            assert(all@.take(i + 1) == all@.take(i as int).push(all@[i as int]));
            seqs::lemma_filter_push(all@.take(i as int), all@[i as int], p);
        }
        if contains_str(enabled, all[i].id()) {
            out.push(all[i]);
        }
        i = i + 1;
    }
    assert(all@.take(all@.len() as int) == all@);
    out
}

/// The strategies of one wave.
pub fn in_wave(strategies: &Vec<AnyStrategy>, wave: u8) -> (r: Vec<AnyStrategy>)
    ensures
        r@ == strategies@.filter(runs_in(wave)),
{
    let ghost p = runs_in(wave);
    let mut out: Vec<AnyStrategy> = Vec::new();
    let mut i: usize = 0;
    proof {
        reveal(Seq::filter);
        assert(strategies@.take(0).filter(p) == Seq::<AnyStrategy>::empty());
    }
    while i < strategies.len()
        invariant
            i <= strategies.len(),
            p == runs_in(wave),
            out@ == strategies@.take(i as int).filter(p),
        decreases strategies.len() - i,
    {
        proof {
            assert(strategies@.take(i + 1) == strategies@.take(i as int).push(
                strategies@[i as int],
            ));
            seqs::lemma_filter_push(strategies@.take(i as int), strategies@[i as int], p);
        }
        if strategies[i].wave() == wave {
            out.push(strategies[i]);
        }
        i = i + 1;
    }
    assert(strategies@.take(strategies@.len() as int) == strategies@);
    out
}

/// The problems after one more outcome.
pub open spec fn problems_after(
    problems: Seq<ReasonModel>,
    id: Seq<char>,
    problem: Option<Seq<char>>,
) -> Seq<ReasonModel> {
    match problem {
        Some(reason) => problems.push(ReasonModel { strategy: id, reason }),
        None => problems,
    }
}

/// Fold one strategy's result into the scan's accumulated state.
///
/// Observations are kept unconditionally. A strategy that discovered devices
/// and *then* hit a problem still knows what it saw; the problem costs the
/// scan its completeness (so `gone` is suppressed), not its evidence.
pub fn absorb_outcome(
    id: &str,
    outcome: StrategyOutcome,
    observations: &mut Vec<Observation>,
    problems: &mut Vec<PartialReason>,
)
    ensures
        final(observations).deep_view() == old(observations).deep_view()
            + outcome.deep_view().observations,
        final(problems).deep_view() == problems_after(
            old(problems).deep_view(),
            id@,
            outcome.deep_view().problem,
        ),
{
    let ghost before = problems.deep_view();
    let ghost seen = observations.deep_view();
    let ghost fresh = outcome.observations.deep_view();
    if let Some(reason) = outcome.problem {
        let p = PartialReason { strategy: id.to_string(), reason };
        let ghost model = p.deep_view();
        problems.push(p);
        assert(problems.deep_view() == before.push(model));
    }
    let mut more = outcome.observations;
    observations.append(&mut more);
    assert(observations.deep_view() == seen + fresh);
}

// ----- the candidates of the second wave -----

/// The addresses of observations.
pub open spec fn ips_of(obs: Seq<ObservationModel>) -> Seq<Seq<char>> {
    Seq::new(obs.len(), |i: int| obs[i].ip)
}

/// The addresses of neighbors.
pub open spec fn neighbor_ips(entries: Seq<NeighborModel>) -> Seq<Seq<char>> {
    Seq::new(entries.len(), |i: int| entries[i].ip)
}

/// A list of the address that may be there.
pub open spec fn gateway_list(i: InterfaceModel) -> Seq<Seq<char>> {
    match i.gateway_v4 {
        Some(gw) => seq![gw],
        None => Seq::empty(),
    }
}

/// The condition of being on the link.
pub open spec fn linked(nets: Seq<CidrModel>) -> spec_fn(Seq<char>) -> bool {
    |ip: Seq<char>| util::on_link(ip, nets)
}

/// The candidates for the second wave: everything the first wave saw, the
/// neighbors and the gateway, as far as they are on the link.
pub open spec fn candidates_of(
    obs: Seq<ObservationModel>,
    neighbors: Seq<NeighborModel>,
    i: InterfaceModel,
) -> Seq<Seq<char>> {
    (text::sorted_once(ips_of(obs)) + neighbor_ips(neighbors) + gateway_list(i)).filter(
        linked(i.ipv4),
    )
}

/// Keep the addresses that are on the link.
fn keep_linked(ips: &Vec<String>, iface: &Interface) -> (r: Vec<String>)
    requires
        iface.deep_view().wf(),
    ensures
        r.deep_view() == ips.deep_view().filter(linked(iface.deep_view().ipv4)),
{
    let ghost all = ips.deep_view();
    let ghost p = linked(iface.deep_view().ipv4);
    let mut out: Vec<String> = Vec::new();
    let mut i: usize = 0;
    proof {
        reveal(Seq::filter);
        assert(all.take(0).filter(p) == Seq::<Seq<char>>::empty());
    }
    while i < ips.len()
        invariant
            i <= ips.len(),
            iface.deep_view().wf(),
            all == ips.deep_view(),
            p == linked(iface.deep_view().ipv4),
            out.deep_view() == all.take(i as int).filter(p),
        decreases ips.len() - i,
    {
        assert(all[i as int] == ips@[i as int]@);
        proof {
            assert(all.take(i + 1) == all.take(i as int).push(all[i as int]));
            seqs::lemma_filter_push(all.take(i as int), all[i as int], p);
        }
        if ipv4_in_network_of(ips[i].as_str(), iface) {
            let ghost so_far = out.deep_view();
            out.push(ips[i].clone());
            assert(out.deep_view() == so_far.push(all[i as int]));
        }
        i = i + 1;
    }
    assert(all.take(all.len() as int) == all);
    out
}

/// Work out the candidates for the second wave.
pub fn wave_candidates(
    observations: &Vec<Observation>,
    neighbors: &Vec<NeighborEntry>,
    iface: &Interface,
) -> (r: Vec<String>)
    requires
        iface.deep_view().wf(),
    ensures
        r.deep_view() == candidates_of(
            observations.deep_view(),
            neighbors.deep_view(),
            iface.deep_view(),
        ),
{
    let ghost obs = observations.deep_view();
    let ghost ns = neighbors.deep_view();
    let mut ips: Vec<String> = Vec::new();
    let mut i: usize = 0;
    assert(text::sorted_once(ips_of(obs.take(0))) == Seq::<Seq<char>>::empty());
    while i < observations.len()
        invariant
            i <= observations.len(),
            obs == observations.deep_view(),
            ips.deep_view() == text::sorted_once(ips_of(obs.take(i as int))),
        decreases observations.len() - i,
    {
        assert(obs[i as int].ip == observations@[i as int].ip@);
        assert(ips_of(obs.take(i + 1)).drop_last() == ips_of(obs.take(i as int)));
        assert(ips_of(obs.take(i + 1)).last() == obs[i as int].ip);
        place(&mut ips, observations[i].ip.as_str());
        i = i + 1;
    }
    assert(obs.take(obs.len() as int) == obs);
    let ghost seen = ips.deep_view();
    let mut j: usize = 0;
    assert(seen + neighbor_ips(ns.take(0)) == seen);
    while j < neighbors.len()
        invariant
            j <= neighbors.len(),
            ns == neighbors.deep_view(),
            ips.deep_view() == seen + neighbor_ips(ns.take(j as int)),
        decreases neighbors.len() - j,
    {
        assert(ns[j as int].ip == neighbors@[j as int].ip@);
        let ghost so_far = ips.deep_view();
        ips.push(neighbors[j].ip.clone());
        assert(ips.deep_view() == so_far.push(ns[j as int].ip));
        assert(ips.deep_view() == seen + neighbor_ips(ns.take(j + 1)));
        j = j + 1;
    }
    assert(ns.take(ns.len() as int) == ns);
    let ghost both = ips.deep_view();
    if let Some(gw) = &iface.gateway_v4 {
        ips.push(gw.clone());
        assert(ips.deep_view() == both.push(gw@));
    }
    assert(ips.deep_view() == both + gateway_list(iface.deep_view()));
    keep_linked(&ips, iface)
}

// ----- the last look at the neighbor cache -----

/// A strategy that wakes devices up has run.
pub open spec fn woke_devices(run: Seq<Seq<char>>) -> bool {
    run.contains("ping-sweep"@) || run.contains("arp-ping"@)
}

/// A neighbor as an observation.
pub open spec fn recheck_observation(e: NeighborModel) -> ObservationModel {
    ObservationModel {
        ip: e.ip,
        mac: Some(e.mac),
        name: None,
        vendor: None,
        source: "neighbor-recheck"@,
        confidence: 70,
    }
}

/// What the last look at the neighbor cache adds: where a strategy that wakes
/// devices up has run, the MACs of everything that answered.
pub open spec fn rechecks(run: Seq<Seq<char>>, entries: Seq<NeighborModel>) -> Seq<
    ObservationModel,
> {
    if woke_devices(run) {
        Seq::new(entries.len(), |i: int| recheck_observation(entries[i]))
    } else {
        Seq::empty()
    }
}

/// Whether the neighbor cache is read once more.
pub fn wants_recheck(strategies_run: &Vec<String>) -> (r: bool)
    ensures
        r == woke_devices(strategies_run.deep_view()),
{
    contains_str(strategies_run, "ping-sweep") || contains_str(strategies_run, "arp-ping")
}

/// Add what the last look at the neighbor cache shows, so that devices woken
/// by pings contribute their MACs.
pub fn add_rechecks(
    observations: &mut Vec<Observation>,
    strategies_run: &Vec<String>,
    neighbors: &Vec<NeighborEntry>,
)
    ensures
        final(observations).deep_view() == old(observations).deep_view() + rechecks(
            strategies_run.deep_view(),
            neighbors.deep_view(),
        ),
{
    let ghost before = observations.deep_view();
    let ghost all = neighbors.deep_view();
    if !wants_recheck(strategies_run) {
        assert(before + Seq::<ObservationModel>::empty() == before);
        return;
    }
    let mut i: usize = 0;
    while i < neighbors.len()
        invariant
            i <= neighbors.len(),
            all == neighbors.deep_view(),
            observations.deep_view() == before + Seq::new(
                i as nat,
                |k: int| recheck_observation(all[k]),
            ),
        decreases neighbors.len() - i,
    {
        assert(all[i as int] == neighbors@[i as int].deep_view());
        let o = Observation {
            ip: neighbors[i].ip.clone(),
            mac: Some(neighbors[i].mac.clone()),
            name: None,
            vendor: None,
            source: "neighbor-recheck".to_string(),
            confidence: 70,
        };
        let ghost so_far = observations.deep_view();
        let ghost model = o.deep_view();
        assert(model == recheck_observation(all[i as int]));
        observations.push(o);
        assert(observations.deep_view() == so_far.push(model));
        i = i + 1;
    }
}

// ----- may silence be taken for absence? -----

/// A strategy may testify about absence: it covers every address, ran in this
/// scan, and reported no problem.
pub open spec fn testifies(
    s: AnyStrategy,
    run: Seq<Seq<char>>,
    problems: Seq<ReasonModel>,
) -> bool {
    &&& s.covers() == Coverage::Exhaustive
    &&& run.contains(s.id_text())
    &&& forall|i: int|
        0 <= i < problems.len() ==> (#[trigger] problems[i]).strategy != s.id_text()
}

/// The strategies that may testify about absence.
pub open spec fn testifying(
    strategies: Seq<AnyStrategy>,
    run: Seq<Seq<char>>,
    problems: Seq<ReasonModel>,
) -> Seq<Seq<char>>
    decreases strategies.len(),
{
    if strategies.len() == 0 {
        Seq::empty()
    } else {
        let rest = testifying(strategies.drop_last(), run, problems);
        if testifies(strategies.last(), run, problems) {
            rest.push(strategies.last().id_text())
        } else {
            rest
        }
    }
}

/// Whether a strategy had a problem.
fn had_problem(problems: &Vec<PartialReason>, id: &str) -> (r: bool)
    ensures
        r == exists|i: int|
            0 <= i < problems.deep_view().len() && (
            #[trigger] problems.deep_view()[i]).strategy == id@,
{
    let ghost all = problems.deep_view();
    let mut i: usize = 0;
    while i < problems.len()
        invariant
            i <= problems.len(),
            all == problems.deep_view(),
            forall|k: int| 0 <= k < i ==> (#[trigger] all[k]).strategy != id@,
        decreases problems.len() - i,
    {
        assert(all[i as int].strategy == problems@[i as int].strategy@);
        if str_eq(problems[i].strategy.as_str(), id) {
            return true;
        }
        i = i + 1;
    }
    false
}

/// Find the strategies that earned the right to testify about absence.
pub fn exhaustive_ran(
    strategies: &Vec<AnyStrategy>,
    strategies_run: &Vec<String>,
    problems: &Vec<PartialReason>,
) -> (r: Vec<String>)
    ensures
        r.deep_view() == testifying(
            strategies@,
            strategies_run.deep_view(),
            problems.deep_view(),
        ),
{
    let ghost run = strategies_run.deep_view();
    let ghost ps = problems.deep_view();
    let mut out: Vec<String> = Vec::new();
    let mut i: usize = 0;
    while i < strategies.len()
        invariant
            i <= strategies.len(),
            run == strategies_run.deep_view(),
            ps == problems.deep_view(),
            out.deep_view() == testifying(strategies@.take(i as int), run, ps),
        decreases strategies.len() - i,
    {
        assert(strategies@.take(i + 1).drop_last() == strategies@.take(i as int));
        assert(strategies@.take(i + 1).last() == strategies@[i as int]);
        let s = &strategies[i];
        let exhaustive = match s.coverage() {
            Coverage::Exhaustive => true,
            Coverage::PresenceOnly => false,
        };
        if exhaustive && contains_str(strategies_run, s.id()) && !had_problem(problems, s.id()) {
            let ghost so_far = out.deep_view();
            out.push(s.id().to_string());
            assert(out.deep_view() == so_far.push(s.id_text()));
        }
        i = i + 1;
    }
    assert(strategies@.take(strategies@.len() as int) == strategies@);
    out
}

/// Why a scan cannot take silence for absence: no strategy covered every
/// address; or the sweep did not see the gateway, which always answers on a
/// working link; or there is no gateway and it saw nothing at all.
pub open spec fn evidence_gap(
    exhaustive: Seq<Seq<char>>,
    gateway: Option<Seq<char>>,
    observed_ips: Seq<Seq<char>>,
) -> Option<ReasonModel> {
    if exhaustive.len() == 0 {
        Some(
            ReasonModel {
                strategy: "scan"@,
                reason:
                    "no strategy with full address coverage ran, so nothing can be reported gone (enable arp-ping, or the privileged helper)"@,
            },
        )
    } else {
        match gateway {
            Some(gw) => if observed_ips.contains(gw) {
                None
            } else {
                Some(
                    ReasonModel {
                        strategy: text::join(exhaustive, ", "@),
                        reason: "the sweep did not see the gateway "@ + gw
                            + ", so the link — not the network — is what changed"@,
                    },
                )
            },
            None => if observed_ips.len() == 0 {
                Some(
                    ReasonModel {
                        strategy: text::join(exhaustive, ", "@),
                        reason:
                            "the sweep observed nothing at all and there is no gateway to confirm the link is up"@,
                    },
                )
            } else {
                None
            },
        }
    }
}

/// Decide whether this scan may treat "not seen" as "not there".
///
/// Two conditions, both necessary:
///
/// 1. At least one strategy with [`Coverage::Exhaustive`] ran cleanly.
///    Presence-only strategies never hear from devices that stay quiet, so a
///    scan built only from them proves nothing.
/// 2. The scan actually saw something it *must* be able to see. The default
///    gateway is the anchor: on a working link it always answers. If an
///    exhaustive sweep came back without even the gateway, the link failed;
///    the network did not empty.
///
/// Returns `Some(reason)` when absence cannot be proven.
pub fn absence_evidence_gap(
    exhaustive_ran: &Vec<String>,
    gateway: Option<&str>,
    observed_ips: &Vec<String>,
) -> (r: Option<PartialReason>)
    ensures
        r.deep_view() == evidence_gap(
            exhaustive_ran.deep_view(),
            gateway.deep_view(),
            observed_ips.deep_view(),
        ),
{
    assert(exhaustive_ran.deep_view().len() == exhaustive_ran@.len());
    assert(observed_ips.deep_view().len() == observed_ips@.len());
    if exhaustive_ran.len() == 0 {
        return Some(
            PartialReason {
                strategy: "scan".to_string(),
                reason:
                    "no strategy with full address coverage ran, so nothing can be reported gone (enable arp-ping, or the privileged helper)".to_string(),
            },
        );
    }
    match gateway {
        Some(gw) => {
            if contains_str(observed_ips, gw) {
                return None;
            }
            let mut reason = "the sweep did not see the gateway ".to_string();
            reason.append(gw);
            reason.append(", so the link — not the network — is what changed");
            Some(PartialReason { strategy: text::join_strings(exhaustive_ran, ", "), reason })
        },
        None => {
            if observed_ips.len() == 0 {
                Some(
                    PartialReason {
                        strategy: text::join_strings(exhaustive_ran, ", "),
                        reason:
                            "the sweep observed nothing at all and there is no gateway to confirm the link is up".to_string(),
                    },
                )
            } else {
                None
            }
        },
    }
}

/// Absence needs a clean sweep of every address that saw the gateway, or,
/// where there is none, saw anything.
pub proof fn law_no_gap_exactly_when(
    exhaustive: Seq<Seq<char>>,
    gateway: Option<Seq<char>>,
    observed_ips: Seq<Seq<char>>,
)
    ensures
        evidence_gap(exhaustive, gateway, observed_ips) is None <==> exhaustive.len() > 0 && (
        match gateway {
            Some(gw) => observed_ips.contains(gw),
            None => observed_ips.len() > 0,
        }),
{
}

/// A strategy that had a problem never testifies about absence.
pub proof fn law_problem_costs_testimony(
    strategies: Seq<AnyStrategy>,
    run: Seq<Seq<char>>,
    problems: Seq<ReasonModel>,
    k: int,
)
    requires
        0 <= k < problems.len(),
    ensures
        !testifying(strategies, run, problems).contains(problems[k].strategy),
    decreases strategies.len(),
{
    if strategies.len() > 0 {
        law_problem_costs_testimony(strategies.drop_last(), run, problems, k);
        let rest = testifying(strategies.drop_last(), run, problems);
        let all = testifying(strategies, run, problems);
        if all.contains(problems[k].strategy) {
            let i = choose|i: int| 0 <= i < all.len() && all[i] == problems[k].strategy;
            if i < rest.len() {
                assert(rest[i] == problems[k].strategy);
            }
        }
    }
}

/// The candidates of the second wave are exactly the addresses on the link that
/// were observed, are in the neighbor table or are the gateway's.
pub proof fn law_candidates_are_what_is_known(
    obs: Seq<ObservationModel>,
    neighbors: Seq<NeighborModel>,
    i: InterfaceModel,
    ip: Seq<char>,
)
    ensures
        candidates_of(obs, neighbors, i).contains(ip) <==> util::on_link(ip, i.ipv4) && ((exists|
            k: int,
        |
            0 <= k < obs.len() && (#[trigger] obs[k]).ip == ip) || (exists|k: int|
            0 <= k < neighbors.len() && (#[trigger] neighbors[k]).ip == ip) || i.gateway_v4 == Some(
            ip,
        )),
{
    let a = text::sorted_once(ips_of(obs));
    let b = neighbor_ips(neighbors);
    let c = gateway_list(i);
    let all = a + b + c;
    text::law_sorted_once(ips_of(obs));
    seqs::lemma_filter_contains(all, linked(i.ipv4), ip);
    assert(all.contains(ip) <==> a.contains(ip) || b.contains(ip) || c.contains(ip)) by {
        if all.contains(ip) {
            let k = choose|k: int| 0 <= k < all.len() && all[k] == ip;
            if k < a.len() {
                assert(a[k] == ip);
            } else if k < a.len() + b.len() {
                assert(b[k - a.len()] == ip);
            } else {
                assert(c[k - a.len() - b.len()] == ip);
            }
        }
        if a.contains(ip) {
            let k = choose|k: int| 0 <= k < a.len() && a[k] == ip;
            assert(all[k] == ip);
        }
        if b.contains(ip) {
            let k = choose|k: int| 0 <= k < b.len() && b[k] == ip;
            assert(all[a.len() + k] == ip);
        }
        if c.contains(ip) {
            let k = choose|k: int| 0 <= k < c.len() && c[k] == ip;
            assert(all[a.len() + b.len() + k] == ip);
        }
    }
    assert(a.contains(ip) <==> ips_of(obs).contains(ip));
    assert(ips_of(obs).contains(ip) <==> exists|k: int|
        0 <= k < obs.len() && (#[trigger] obs[k]).ip == ip) by {
        if exists|k: int| 0 <= k < obs.len() && (#[trigger] obs[k]).ip == ip {
            let k = choose|k: int| 0 <= k < obs.len() && (#[trigger] obs[k]).ip == ip;
            assert(ips_of(obs)[k] == ip);
        }
    }
    assert(b.contains(ip) <==> exists|k: int|
        0 <= k < neighbors.len() && (#[trigger] neighbors[k]).ip == ip) by {
        if exists|k: int| 0 <= k < neighbors.len() && (#[trigger] neighbors[k]).ip == ip {
            let k = choose|k: int| 0 <= k < neighbors.len() && (#[trigger] neighbors[k]).ip == ip;
            assert(b[k] == ip);
        }
    }
    assert(c.contains(ip) <==> i.gateway_v4 == Some(ip)) by {
        if i.gateway_v4 == Some(ip) {
            assert(c[0] == ip);
        }
    }
}

/// After a strategy that wakes devices up, every neighbor with its MAC is one
/// more observation; after none, nothing is added.
pub proof fn law_woken_neighbors_are_observed(
    run: Seq<Seq<char>>,
    entries: Seq<NeighborModel>,
)
    ensures
        run.contains("ping-sweep"@) || run.contains("arp-ping"@) ==> {
            &&& rechecks(run, entries).len() == entries.len()
            &&& forall|i: int|
                0 <= i < entries.len() ==> {
                    let o = #[trigger] rechecks(run, entries)[i];
                    &&& o.ip == entries[i].ip
                    &&& o.mac == Some(entries[i].mac)
                    &&& o.name is None
                    &&& o.vendor is None
                    &&& o.source == "neighbor-recheck"@
                    &&& o.confidence == 70
                }
        },
        !run.contains("ping-sweep"@) && !run.contains("arp-ping"@) ==> rechecks(
            run,
            entries,
        ).len() == 0,
{
}

/// A strategy testifies to absence exactly when it probes every address, ran,
/// and had no problem.
pub proof fn law_only_clean_sweeps_testify(
    strategies: Seq<AnyStrategy>,
    run: Seq<Seq<char>>,
    problems: Seq<ReasonModel>,
    id: Seq<char>,
)
    ensures
        testifying(strategies, run, problems).contains(id) <==> run.contains(id) && (exists|i: int|
            0 <= i < strategies.len() && (#[trigger] strategies[i]).id_text() == id
                && strategies[i].covers() == Coverage::Exhaustive) && (forall|k: int|
            0 <= k < problems.len() ==> (#[trigger] problems[k]).strategy != id),
    decreases strategies.len(),
{
    if strategies.len() > 0 {
        let init = strategies.drop_last();
        let last = strategies.last();
        law_only_clean_sweeps_testify(init, run, problems, id);
        let rest = testifying(init, run, problems);
        let all = testifying(strategies, run, problems);
        text::lemma_push_contains(rest, last.id_text());
        if testifies(last, run, problems) {
            assert(all.contains(id) <==> rest.contains(id) || id == last.id_text());
        }
        let clean = forall|k: int|
            0 <= k < problems.len() ==> (#[trigger] problems[k]).strategy != id;
        let here = |s: Seq<AnyStrategy>|
            exists|i: int|
                0 <= i < s.len() && (#[trigger] s[i]).id_text() == id && s[i].covers()
                    == Coverage::Exhaustive;
        assert(here(strategies) <==> here(init) || (last.id_text() == id && last.covers()
            == Coverage::Exhaustive)) by {
            if here(strategies) {
                let i = choose|i: int|
                    0 <= i < strategies.len() && (#[trigger] strategies[i]).id_text() == id
                        && strategies[i].covers() == Coverage::Exhaustive;
                if i < init.len() {
                    assert(init[i] == strategies[i]);
                }
            }
            if here(init) {
                let i = choose|i: int|
                    0 <= i < init.len() && (#[trigger] init[i]).id_text() == id
                        && init[i].covers() == Coverage::Exhaustive;
                assert(strategies[i] == init[i]);
            }
            if last.id_text() == id && last.covers() == Coverage::Exhaustive {
                assert(strategies[strategies.len() - 1] == last);
            }
        }
    }
}

/// Whose MAC an address is settled on where neither the system nor the helper
/// answered: that of the neighbor table.
pub proof fn law_neighbor_table_settles_the_rest(
    ips: Seq<Seq<char>>,
    native: Seq<Option<Seq<char>>>,
    helped: Seq<Option<Seq<char>>>,
    entries: Seq<NeighborModel>,
    i: int,
)
    requires
        0 <= i < ips.len(),
        slot(native, i) is None,
        slot(helped, unresolved(ips, native, i).len() as int) is None,
    ensures
        match settled(ips, native, helped, entries, ips.len() as int)[i] {
            Some(mac) => exists|k: int|
                0 <= k < entries.len() && (#[trigger] entries[k]).ip == ips[i] && entries[k].mac
                    == mac,
            None => forall|k: int|
                0 <= k < entries.len() ==> (#[trigger] entries[k]).ip != ips[i],
        },
{
    lemma_settled_upto(ips, native, helped, entries, i, ips.len() as int);
    netenv::law_first_neighbor_answers(entries, ips[i]);
}

/// The strategies that run are those of the registry whose id is enabled, in
/// the order of the registry.
pub proof fn law_enabled_strategies_run(ids: Seq<Seq<char>>, s: AnyStrategy)
    ensures
        selected(ids).contains(s) <==> discovery::registered().contains(s) && ids.contains(
            s.id_text(),
        ),
        selected(ids) == discovery::registered().filter(
            |x: AnyStrategy| ids.contains(x.id_text()),
        ),
{
    seqs::lemma_filter_contains(discovery::registered(), enabled_in(ids), s);
    assert(enabled_in(ids) =~= (|x: AnyStrategy| ids.contains(x.id_text())));
}

/// What is enabled: what was asked for, else what the setting lists, and
/// nothing where the setting is no list of texts.
pub proof fn law_what_is_enabled(m: StoreModel, ids: Seq<Seq<char>>, value: Seq<char>)
    requires
        m.wf(),
    ensures
        enabled_ids(Some(ids), m) == ids,
        ({
            let n = StoreModel {
                settings: crate::store::with_setting(m.settings, "enabled_strategies"@, value),
                ..m
            };
            enabled_ids(None, n) == match scans::json_strings(value) {
                Some(v) => v,
                None => Seq::empty(),
            }
        }),
{
    crate::store::law_setting_reads_back(m.settings, "enabled_strategies"@, value);
}

/// What becomes of the privileges: a helper that answered is connected and
/// resolves addresses; one that did not leaves a note and nothing else.
pub proof fn law_helper_adds_resolution(m: PrivilegeModel, start: HelperStart)
    ensures
        ({
            let n = with_helper(m, start);
            &&& n.capabilities.contains(Capability::ArpResolve) <==> start is Answered
                || m.capabilities.contains(Capability::ArpResolve)
            &&& n.helper_connected <==> start is Answered || m.helper_connected
            &&& start is Answered ==> n.notes == m.notes
            &&& start !is Answered ==> n.capabilities == m.capabilities && n.notes.len()
                == m.notes.len() + 1 && n.notes.drop_last() == m.notes
            &&& forall|c: Capability|
                c != Capability::ArpResolve ==> (#[trigger] n.capabilities.contains(c)
                    <==> m.capabilities.contains(c))
        }),
{
    let n = with_helper(m, start);
    if start is Answered {
        text::lemma_push_contains(m.capabilities, Capability::ArpResolve);
    } else {
        assert(n.notes.drop_last() =~= m.notes);
    }
}

/// The helper is tried on the gateway where there is one, else on the
/// interface's own address.
pub proof fn law_helper_is_tried_on_the_gateway(i: InterfaceModel)
    ensures
        i.gateway_v4 is Some ==> trial_address(i) == i.gateway_v4.unwrap(),
        i.gateway_v4 is None && i.ipv4.len() > 0 ==> trial_address(i) == i.ipv4[0].addr,
{
}

/// What an outcome adds to the problems: one, under the strategy's id, where it
/// had one, and nothing where it had none.
pub proof fn law_problem_is_noted(
    problems: Seq<ReasonModel>,
    id: Seq<char>,
    problem: Option<Seq<char>>,
)
    ensures
        problem is None ==> problems_after(problems, id, problem) == problems,
        problem is Some ==> problems_after(problems, id, problem) == problems + seq![
            ReasonModel { strategy: id, reason: problem.unwrap() },
        ],
{
    if problem is Some {
        assert(problems_after(problems, id, problem) =~= problems + seq![
            ReasonModel { strategy: id, reason: problem.unwrap() },
        ]);
    }
}

} // verus!
