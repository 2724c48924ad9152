//! Pluggable discovery strategies.
//!
//! A strategy produces `Observation`s for the interface under scan. One that
//! needs a privilege checks for it itself, before it probes anything, and
//! returns `StrategyOutcome::failed` when it is missing, which is what makes
//! the scan partial. Strategies must not loop over address ranges; the sole
//! exception is the privileged `arp-ping` full-coverage strategy.
//!
//! What a strategy sends and receives is up to the caller. Here stand the
//! decisions: what to probe, how to read what came back, and what it means.

use vstd::prelude::*;
use vstd::string::*;

use crate::discovery::arp_cache::ArpCache;
use crate::discovery::arp_ping::ArpPing;
use crate::discovery::mdns::Mdns;
use crate::discovery::netbios::Netbios;
use crate::discovery::ping_sweep::PingSweep;
use crate::discovery::ssdp::Ssdp;
use crate::model::{has_capability, Capability, Interface, Observation, ObservationModel};

pub mod arp_cache;
pub mod arp_ping;
pub mod mdns;
pub mod netbios;
pub mod ping;
pub mod ping_sweep;
pub mod ssdp;

verus! {

/// Input to a strategy run.
#[derive(Debug)]
pub struct ScanContext {
    pub iface: Interface,
    /// Candidate IPv4 addresses learned before this strategy runs (wave 2+).
    pub candidates: Vec<String>,
    /// Confirmed capabilities for this scan.
    pub caps: Vec<Capability>,
    /// Whether addresses can be resolved to MACs, many at a time, by the
    /// privileged helper or a native privileged API.
    pub can_resolve: bool,
}

impl ScanContext {
    pub fn has_cap(&self, cap: Capability) -> (r: bool)
        ensures
            r == self.caps@.contains(cap),
    {
        has_capability(&self.caps, cap)
    }
}

/// What a strategy did.
#[derive(Debug)]
pub struct StrategyOutcome {
    pub observations: Vec<Observation>,
    /// Set when the strategy could not do its job (error, missing privilege,
    /// timeout). Makes the scan partial.
    pub problem: Option<String>,
}

/// What a [`StrategyOutcome`] says.
#[verifier::ext_equal]
pub struct StrategyModel {
    pub observations: Seq<ObservationModel>,
    pub problem: Option<Seq<char>>,
}

impl DeepView for StrategyOutcome {
    type V = StrategyModel;

    open spec fn deep_view(&self) -> StrategyModel {
        StrategyModel {
            observations: self.observations.deep_view(),
            problem: self.problem.deep_view(),
        }
    }
}

impl StrategyOutcome {
    pub fn ok(observations: Vec<Observation>) -> (r: StrategyOutcome)
        ensures
            r.deep_view() == (StrategyModel {
                observations: observations.deep_view(),
                problem: None,
            }),
    {
        StrategyOutcome { observations, problem: None }
    }

    pub fn failed(reason: String) -> (r: StrategyOutcome)
        ensures
            r.deep_view() == (StrategyModel {
                observations: Seq::empty(),
                problem: Some(reason@),
            }),
    {
        let r = StrategyOutcome { observations: Vec::new(), problem: Some(reason) };
        assert(r.observations.deep_view() == Seq::<ObservationModel>::empty());
        r
    }
}

/// What a strategy's *silence* about an address means.
///
/// Only a strategy that probes every address in the prefix can turn "did not
/// answer" into evidence of absence. Everything else confirms presence and
/// says nothing at all about the devices it did not hear from.
#[derive(Debug, Clone, Copy, PartialEq, Eq, Structural)]
pub enum Coverage {
    /// Probes the whole prefix: not seeing an address is evidence.
    Exhaustive,
    /// Only ever confirms presence; silence carries no information.
    PresenceOnly,
}

/// How a strategy presents itself to the scanner.
pub trait Strategy {
    spec fn id_text(&self) -> Seq<char>;

    spec fn covers(&self) -> Coverage;

    spec fn turn(&self) -> u8;

    /// Stable id used in settings and in the record of a scan.
    fn id(&self) -> (r: &'static str)
        ensures
            r@ == self.id_text(),
    ;

    /// Whether this strategy's silence is evidence of absence.
    fn coverage(&self) -> (r: Coverage)
        ensures
            r == self.covers(),
    ;

    /// Which wave this strategy runs in (1 = parallel starters, 2 = needs
    /// candidates from wave 1, 3 = privileged full coverage).
    fn wave(&self) -> (r: u8)
        ensures
            r == self.turn(),
    ;
}

/// One of the strategies there are.
#[derive(Debug, Clone, Copy)]
pub enum AnyStrategy {
    ArpCache(ArpCache),
    Mdns(Mdns),
    Ssdp(Ssdp),
    PingSweep(PingSweep),
    Netbios(Netbios),
    ArpPing(ArpPing),
}

impl Strategy for AnyStrategy {
    open spec fn id_text(&self) -> Seq<char> {
        match self {
            AnyStrategy::ArpCache(s) => s.id_text(),
            AnyStrategy::Mdns(s) => s.id_text(),
            AnyStrategy::Ssdp(s) => s.id_text(),
            AnyStrategy::PingSweep(s) => s.id_text(),
            AnyStrategy::Netbios(s) => s.id_text(),
            AnyStrategy::ArpPing(s) => s.id_text(),
        }
    }

    open spec fn covers(&self) -> Coverage {
        match self {
            AnyStrategy::ArpCache(s) => s.covers(),
            AnyStrategy::Mdns(s) => s.covers(),
            AnyStrategy::Ssdp(s) => s.covers(),
            AnyStrategy::PingSweep(s) => s.covers(),
            AnyStrategy::Netbios(s) => s.covers(),
            AnyStrategy::ArpPing(s) => s.covers(),
        }
    }

    open spec fn turn(&self) -> u8 {
        match self {
            AnyStrategy::ArpCache(s) => s.turn(),
            AnyStrategy::Mdns(s) => s.turn(),
            AnyStrategy::Ssdp(s) => s.turn(),
            AnyStrategy::PingSweep(s) => s.turn(),
            AnyStrategy::Netbios(s) => s.turn(),
            AnyStrategy::ArpPing(s) => s.turn(),
        }
    }

    fn id(&self) -> (r: &'static str) {
        match self {
            AnyStrategy::ArpCache(s) => s.id(),
            AnyStrategy::Mdns(s) => s.id(),
            AnyStrategy::Ssdp(s) => s.id(),
            AnyStrategy::PingSweep(s) => s.id(),
            AnyStrategy::Netbios(s) => s.id(),
            AnyStrategy::ArpPing(s) => s.id(),
        }
    }

    fn coverage(&self) -> (r: Coverage) {
        match self {
            AnyStrategy::ArpCache(s) => s.coverage(),
            AnyStrategy::Mdns(s) => s.coverage(),
            AnyStrategy::Ssdp(s) => s.coverage(),
            AnyStrategy::PingSweep(s) => s.coverage(),
            AnyStrategy::Netbios(s) => s.coverage(),
            AnyStrategy::ArpPing(s) => s.coverage(),
        }
    }

    fn wave(&self) -> (r: u8) {
        match self {
            AnyStrategy::ArpCache(s) => s.wave(),
            AnyStrategy::Mdns(s) => s.wave(),
            AnyStrategy::Ssdp(s) => s.wave(),
            AnyStrategy::PingSweep(s) => s.wave(),
            AnyStrategy::Netbios(s) => s.wave(),
            AnyStrategy::ArpPing(s) => s.wave(),
        }
    }
}

/// The strategies there are, in registration order.
pub open spec fn registered() -> Seq<AnyStrategy> {
    seq![
        AnyStrategy::ArpCache(ArpCache),
        AnyStrategy::Mdns(Mdns { listen_ms: 3000 }),
        AnyStrategy::Ssdp(Ssdp { listen_ms: 3000 }),
        AnyStrategy::PingSweep(PingSweep),
        AnyStrategy::Netbios(Netbios { per_host_timeout_ms: 900, max_candidates: 128 }),
        AnyStrategy::ArpPing(ArpPing),
    ]
}

/// The default strategy set, in registration order.
pub fn registry() -> (r: Vec<AnyStrategy>)
    ensures
        r@ == registered(),
{
    let mut v: Vec<AnyStrategy> = Vec::new();
    v.push(AnyStrategy::ArpCache(ArpCache));
    v.push(AnyStrategy::Mdns(Mdns::default()));
    v.push(AnyStrategy::Ssdp(Ssdp::default()));
    v.push(AnyStrategy::PingSweep(PingSweep));
    v.push(AnyStrategy::Netbios(Netbios::default()));
    v.push(AnyStrategy::ArpPing(ArpPing));
    assert(v@ == registered());
    v
}

/// The ids of strategies.
pub open spec fn ids_of(s: Seq<AnyStrategy>) -> Seq<Seq<char>> {
    s.map_values(|x: AnyStrategy| x.id_text())
}

/// The ids of the strategies there are, in registration order.
pub fn strategy_ids() -> (r: Vec<&'static str>)
    ensures
        r.deep_view() == ids_of(registered()),
{
    let all = registry();
    let mut v: Vec<&'static str> = Vec::new();
    let mut i: usize = 0;
    while i < all.len()
        invariant
            i <= all.len(),
            all@ == registered(),
            v.deep_view() == ids_of(all@.take(i as int)),
        decreases all.len() - i,
    {
        let ghost so_far = v.deep_view();
        v.push(all[i].id());
        assert(v.deep_view() == so_far.push(all@[i as int].id_text()));
        assert(all@.take(i + 1) == all@.take(i as int).push(all@[i as int]));
        assert(ids_of(all@.take(i + 1)) == ids_of(all@.take(i as int)).push(
            all@[i as int].id_text(),
        ));
        i = i + 1;
    }
    assert(all@.take(all@.len() as int) == all@);
    v
}

/// Only the exhaustive sweep can testify to absence: every other strategy
/// there is confirms presence only.
pub proof fn law_only_the_sweep_testifies(i: int)
    requires
        0 <= i < registered().len(),
    ensures
        registered()[i].covers() == Coverage::Exhaustive <==> registered()[i].id_text()
            == "arp-ping"@,
{
    reveal_strlit("arp-ping");
    reveal_strlit("arp-cache");
    reveal_strlit("mdns");
    reveal_strlit("ssdp");
    reveal_strlit("ping-sweep");
    reveal_strlit("netbios");
    assert("arp-cache"@.len() == 9 && "mdns"@.len() == 4 && "ssdp"@.len() == 4
        && "ping-sweep"@.len() == 10 && "netbios"@.len() == 7 && "arp-ping"@.len() == 8);
}

/// The strategies there are, by id, and the wave that each runs in: those that
/// listen start, those that ask addresses follow, and the full sweep comes last.
pub proof fn law_strategies_run_in_waves()
    ensures
        ids_of(registered()) == seq![
            "arp-cache"@,
            "mdns"@,
            "ssdp"@,
            "ping-sweep"@,
            "netbios"@,
            "arp-ping"@,
        ],
        forall|i: int|
            0 <= i < registered().len() ==> (#[trigger] registered()[i]).turn() == if i < 3 {
                1
            } else if i < 5 {
                2
            } else {
                3int
            },
{
    assert(ids_of(registered()) =~= seq![
        "arp-cache"@,
        "mdns"@,
        "ssdp"@,
        "ping-sweep"@,
        "netbios"@,
        "arp-ping"@,
    ]);
}

} // verus!
