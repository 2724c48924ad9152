//! `arp-cache`: harvest the OS neighbor/ARP table. Zero packets, always
//! available, the baseline of every scan.

use vstd::prelude::*;
use vstd::string::*;

use crate::discovery::{Coverage, Strategy, StrategyModel, StrategyOutcome};
use crate::model::{
    Interface, InterfaceModel, NeighborEntry, NeighborModel, Observation, ObservationModel,
};
use crate::seqs;
use crate::util;
use crate::util::ipv4_in_network_of;

verus! {

#[derive(Debug, Clone, Copy)]
pub struct ArpCache;

impl Strategy for ArpCache {
    open spec fn id_text(&self) -> Seq<char> {
        "arp-cache"@
    }

    open spec fn covers(&self) -> Coverage {
        Coverage::PresenceOnly
    }

    open spec fn turn(&self) -> u8 {
        1
    }

    fn id(&self) -> (r: &'static str) {
        "arp-cache"
    }

    fn coverage(&self) -> (r: Coverage) {
        Coverage::PresenceOnly
    }

    fn wave(&self) -> (r: u8) {
        1
    }
}

/// What a neighbor-table entry says about a device.
pub open spec fn cache_observation(e: NeighborModel) -> ObservationModel {
    ObservationModel {
        ip: e.ip,
        mac: Some(e.mac),
        name: None,
        vendor: None,
        source: "arp-cache"@,
        confidence: if e.reachable {
            90
        } else {
            50
        },
    }
}

/// The condition of being on one of the interface's networks.
pub open spec fn entry_on_link(iface: InterfaceModel) -> spec_fn(NeighborModel) -> bool {
    |e: NeighborModel| util::on_link(e.ip, iface.ipv4)
}

/// What a neighbor table says about the devices on the interface's networks.
pub open spec fn cache_observations(entries: Seq<NeighborModel>, iface: InterfaceModel) -> Seq<
    ObservationModel,
> {
    entries.filter(entry_on_link(iface)).map_values(|e: NeighborModel| cache_observation(e))
}

impl ArpCache {
    /// Read a neighbor table.
    pub fn observe(&self, entries: &Vec<NeighborEntry>, iface: &Interface) -> (r: StrategyOutcome)
        requires
            iface.deep_view().wf(),
        ensures
            r.deep_view() == (StrategyModel {
                observations: cache_observations(entries.deep_view(), iface.deep_view()),
                problem: None,
            }),
    {
        let ghost all = entries.deep_view();
        let ghost p = entry_on_link(iface.deep_view());
        let ghost f = |e: NeighborModel| cache_observation(e);
        let mut out: Vec<Observation> = Vec::new();
        let mut i: usize = 0;
        assert(all.take(0).filter(p) == Seq::<NeighborModel>::empty());
        assert(out.deep_view() == all.take(0).filter(p).map_values(f));
        while i < entries.len()
            invariant
                i <= entries.len(),
                iface.deep_view().wf(),
                all == entries.deep_view(),
                p == entry_on_link(iface.deep_view()),
                f == (|e: NeighborModel| cache_observation(e)),
                out.deep_view() == all.take(i as int).filter(p).map_values(f),
            decreases entries.len() - i,
        {
            let e = &entries[i];
            assert(all[i as int] == e.deep_view());
            assert(all.take(i + 1) == all.take(i as int).push(all[i as int]));
            proof {
                seqs::lemma_filter_push(all.take(i as int), all[i as int], p);
            }
            if ipv4_in_network_of(e.ip.as_str(), iface) {
                let ghost so_far = out.deep_view();
                let o = Observation {
                    ip: e.ip.clone(),
                    mac: Some(e.mac.clone()),
                    name: None,
                    vendor: None,
                    source: self.id().to_string(),
                    confidence: if e.reachable {
                        90
                    } else {
                        50
                    },
                };
                let ghost model = o.deep_view();
                assert(model == cache_observation(e.deep_view()));
                out.push(o);
                assert(out.deep_view() == so_far.push(model));
                assert(all.take(i as int).filter(p).push(all[i as int]).map_values(f) == all.take(
                    i as int,
                ).filter(p).map_values(f).push(f(all[i as int])));
            }
            i = i + 1;
        }
        assert(all.take(all.len() as int) == all);
        StrategyOutcome::ok(out)
    }
}

/// Every entry of the table that is on the link is observed, in the order of
/// the table, with its address and its MAC; one that is reachable is surer than
/// one that is not.
pub proof fn law_table_is_observed(entries: Seq<NeighborModel>, iface: InterfaceModel)
    ensures
        ({
            let on = entries.filter(|e: NeighborModel| util::on_link(e.ip, iface.ipv4));
            let seen = cache_observations(entries, iface);
            &&& seen.len() == on.len()
            &&& forall|i: int|
                0 <= i < on.len() ==> {
                    let o = #[trigger] seen[i];
                    &&& o.ip == on[i].ip
                    &&& o.mac == Some(on[i].mac)
                    &&& o.name is None
                    &&& o.vendor is None
                    &&& o.source == "arp-cache"@
                    &&& on[i].reachable ==> o.confidence == 90
                    &&& !on[i].reachable ==> o.confidence == 50
                }
        }),
{
    assert(entry_on_link(iface) =~= (|e: NeighborModel| util::on_link(e.ip, iface.ipv4)));
}

} // verus!
