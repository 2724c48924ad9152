//! Merge observations across strategies and resolve device identity.
//!
//! Merging happens in two steps:
//! 1. Combine `Observation`s that share an IP or a MAC into one
//!    `ObservedDevice` (name signals ranked mDNS > NetBIOS > SSDP, a readable
//!    name before a machine identifier).
//! 2. Match each observed device against the inventory: exact MAC match
//!    first, then name-on-network (covers MAC randomisation); otherwise it
//!    is new. Devices first seen nameless get re-fingerprinted (and aliased)
//!    once a name signal appears.

use vstd::prelude::*;
use vstd::string::*;

use crate::identity::{device_key, looks_like_identifier};
use crate::model::{NameSource, Observation};
use crate::store::alias;
use crate::store::devices;
use crate::store::rows::{DeviceRecord, DeviceRow};
use crate::store::{Store, StoreError, StoreModel};
use crate::text::{as_opt_str, clone_opt, is_blank, place, push_once, str_eq, str_lt};
use crate::util::now;

verus! {

/// A device as observed during one scan, before identity resolution.
#[derive(Debug)]
pub struct ObservedDevice {
    /// IPs seen this scan (first is primary).
    pub ips: Vec<String>,
    pub mac: Option<String>,
    pub name: Option<String>,
    pub name_source: Option<NameSource>,
    pub vendor: Option<String>,
    pub sources: Vec<String>,
    /// The best confidence across strategies, in percent.
    pub confidence: u8,
}

/// What an [`ObservedDevice`] says.
#[verifier::ext_equal]
pub struct DeviceModel {
    pub ips: Seq<Seq<char>>,
    pub mac: Option<Seq<char>>,
    pub name: Option<Seq<char>>,
    pub name_source: Option<NameSource>,
    pub vendor: Option<Seq<char>>,
    pub sources: Seq<Seq<char>>,
    pub confidence: u8,
}

impl DeepView for ObservedDevice {
    type V = DeviceModel;

    open spec fn deep_view(&self) -> DeviceModel {
        DeviceModel {
            ips: self.ips.deep_view(),
            mac: self.mac.deep_view(),
            name: self.name.deep_view(),
            name_source: self.name_source,
            vendor: self.vendor.deep_view(),
            sources: self.sources.deep_view(),
            confidence: self.confidence,
        }
    }
}

// ----- grouping by address -----

/// Everything observed at one address.
struct IpAgg {
    ip: String,
    mac: Option<String>,
    /// The confidence of the observation that the MAC is from.
    mac_confidence: u8,
    names: Vec<(NameSource, String)>,
    vendor: Option<String>,
    sources: Vec<String>,
    confidence: u8,
}

/// What was observed at one address.
#[verifier::ext_equal]
pub struct AddressModel {
    pub ip: Seq<char>,
    pub mac: Option<Seq<char>>,
    pub mac_confidence: u8,
    pub names: Seq<(NameSource, Seq<char>)>,
    pub vendor: Option<Seq<char>>,
    pub sources: Seq<Seq<char>>,
    pub confidence: u8,
}

impl DeepView for IpAgg {
    type V = AddressModel;

    closed spec fn deep_view(&self) -> AddressModel {
        AddressModel {
            ip: self.ip@,
            mac: self.mac.deep_view(),
            mac_confidence: self.mac_confidence,
            names: self.names.deep_view(),
            vendor: self.vendor.deep_view(),
            sources: self.sources.deep_view(),
            confidence: self.confidence,
        }
    }
}

/// The first of two values that is there.
pub open spec fn first_of<A>(a: Option<A>, b: Option<A>) -> Option<A> {
    if a is Some {
        a
    } else {
        b
    }
}

/// The larger of two confidences.
pub open spec fn more(a: u8, b: u8) -> u8 {
    if b > a {
        b
    } else {
        a
    }
}

/// Names with one more, unless it says nothing or was heard from the same
/// source already. A name that several sources give is kept for each of them,
/// so that it ranks by the best.
pub open spec fn named_by(
    names: Seq<(NameSource, Seq<char>)>,
    name: Option<(NameSource, Seq<char>)>,
) -> Seq<(NameSource, Seq<char>)> {
    match name {
        Some(n) => if crate::text::blank(n.1) || names.contains(n) {
            names
        } else {
            names.push(n)
        },
        None => names,
    }
}

/// A MAC is taken over from an observation: there is none yet, or it was seen
/// with less confidence.
pub open spec fn takes_mac(a: AddressModel, o: crate::model::ObservationModel) -> bool {
    o.mac is Some && (a.mac is None || o.confidence > a.mac_confidence)
}

/// What is known of an address after one more observation there. The MAC of
/// higher confidence wins; of equals the first stays.
pub open spec fn absorbed(a: AddressModel, o: crate::model::ObservationModel) -> AddressModel {
    AddressModel {
        ip: a.ip,
        mac: if takes_mac(a, o) {
            o.mac
        } else {
            a.mac
        },
        mac_confidence: if takes_mac(a, o) {
            o.confidence
        } else {
            a.mac_confidence
        },
        names: named_by(a.names, o.name),
        vendor: first_of(a.vendor, o.vendor),
        sources: crate::text::joined_by(a.sources, o.source),
        confidence: more(a.confidence, o.confidence),
    }
}

/// An address nothing is known of.
pub open spec fn fresh(ip: Seq<char>) -> AddressModel {
    AddressModel {
        ip,
        mac: None,
        mac_confidence: 0,
        names: Seq::empty(),
        vendor: None,
        sources: Seq::empty(),
        confidence: 0,
    }
}

/// The condition of being about an address.
pub open spec fn at_ip(ip: Seq<char>) -> spec_fn(AddressModel) -> bool {
    |a: AddressModel| a.ip == ip
}

/// The addresses after one more observation, in the order of first sight.
pub open spec fn with_observation(
    groups: Seq<AddressModel>,
    o: crate::model::ObservationModel,
) -> Seq<AddressModel> {
    match crate::seqs::first_where(groups, at_ip(o.ip)) {
        Some(i) => groups.update(i, absorbed(groups[i], o)),
        None => groups.push(absorbed(fresh(o.ip), o)),
    }
}

/// Observations grouped by address.
pub open spec fn by_address(obs: Seq<crate::model::ObservationModel>) -> Seq<AddressModel>
    decreases obs.len(),
{
    if obs.len() == 0 {
        Seq::empty()
    } else {
        with_observation(by_address(obs.drop_last()), obs.last())
    }
}

/// Whether a name was heard from a source already.
fn name_is_among(names: &Vec<(NameSource, String)>, source: NameSource, name: &str) -> (r: bool)
    ensures
        r == names.deep_view().contains((source, name@)),
{
    let ghost all = names.deep_view();
    let mut i: usize = 0;
    while i < names.len()
        invariant
            i <= names.len(),
            all == names.deep_view(),
            forall|j: int| 0 <= j < i ==> #[trigger] all[j] != (source, name@),
        decreases names.len() - i,
    {
        assert(all[i as int] == names@[i as int].deep_view());
        if names[i].0 == source && str_eq(names[i].1.as_str(), name) {
            assert(all[i as int] == (source, name@));
            return true;
        }
        i = i + 1;
    }
    false
}

impl IpAgg {
    /// An address nothing is known of.
    fn new(ip: &str) -> (r: IpAgg)
        ensures
            r.deep_view() == fresh(ip@),
    {
        let r = IpAgg {
            ip: ip.to_string(),
            mac: None,
            mac_confidence: 0,
            names: Vec::new(),
            vendor: None,
            sources: Vec::new(),
            confidence: 0,
        };
        assert(r.deep_view() == fresh(ip@));
        r
    }

    /// Take in one more observation.
    fn absorb(&mut self, o: &Observation)
        ensures
            final(self).deep_view() == absorbed(old(self).deep_view(), o.deep_view()),
    {
        let ghost before = self.deep_view();
        if o.mac.is_some() && (self.mac.is_none() || o.confidence > self.mac_confidence) {
            self.mac = clone_opt(&o.mac);
            self.mac_confidence = o.confidence;
        }
        if let Some((src, name)) = &o.name {
            if !is_blank(name.as_str()) && !name_is_among(&self.names, *src, name.as_str()) {
                let ghost names = self.names.deep_view();
                self.names.push((*src, name.clone()));
                assert(self.names.deep_view() == names.push((*src, name@)));
            }
        }
        if self.vendor.is_none() {
            self.vendor = clone_opt(&o.vendor);
        }
        push_once(&mut self.sources, o.source.as_str());
        if o.confidence > self.confidence {
            self.confidence = o.confidence;
        }
        assert(self.deep_view() == absorbed(before, o.deep_view()));
    }
}

/// Group observations by address.
fn group_by_ip(observations: &[Observation]) -> (r: Vec<IpAgg>)
    ensures
        r.deep_view() == by_address(observations.deep_view()),
{
    let ghost all = observations.deep_view();
    let mut groups: Vec<IpAgg> = Vec::new();
    let mut k: usize = 0;
    while k < observations.len()
        invariant
            k <= observations@.len(),
            all == observations.deep_view(),
            groups.deep_view() == by_address(all.take(k as int)),
        decreases observations@.len() - k,
    {
        let o = &observations[k];
        assert(all[k as int] == o.deep_view());
        assert(all.take(k + 1).drop_last() == all.take(k as int));
        add_observation(&mut groups, o);
        k = k + 1;
    }
    assert(all.take(all.len() as int) == all);
    groups
}

/// Take one observation into its address's group.
fn add_observation(groups: &mut Vec<IpAgg>, o: &Observation)
    ensures
        final(groups).deep_view() == with_observation(old(groups).deep_view(), o.deep_view()),
{
    let ghost before = groups.deep_view();
    let ghost p = at_ip(o.ip@);
    let mut i: usize = 0;
    while i < groups.len()
        invariant
            i <= groups.len(),
            before == groups.deep_view(),
            before == old(groups).deep_view(),
            p == at_ip(o.ip@),
            forall|j: int| 0 <= j < i ==> !p(#[trigger] before[j]),
        decreases groups.len() - i,
    {
        assert(before[i as int] == groups@[i as int].deep_view());
        if str_eq(groups[i].ip.as_str(), o.ip.as_str()) {
            proof {
                assert(crate::seqs::is_first(before, p, i as int));
                crate::seqs::lemma_first_is(before, p, i as int);
            }
            groups[i].absorb(o);
            assert(groups.deep_view() == before.update(
                i as int,
                absorbed(before[i as int], o.deep_view()),
            ));
            return;
        }
        i = i + 1;
    }
    proof {
        crate::seqs::lemma_first_none(before, p);
    }
    let mut g = IpAgg::new(o.ip.as_str());
    g.absorb(o);
    let ghost model = g.deep_view();
    groups.push(g);
    assert(groups.deep_view() == before.push(model));
}

// ----- joining addresses of one device -----

/// A name ranks above another: readable before identifier, then by trust in
/// the source, then the later in dictionary order.
pub open spec fn ranks_above(a: (NameSource, Seq<char>), b: (NameSource, Seq<char>)) -> bool {
    let ra = !crate::identity::identifier_like(a.1);
    let rb = !crate::identity::identifier_like(b.1);
    if ra != rb {
        ra
    } else if a.0 != b.0 {
        a.0.trust() > b.0.trust()
    } else {
        crate::text::lex_lt(b.1, a.1)
    }
}

/// The name that ranks highest.
pub open spec fn best_name(names: Seq<(NameSource, Seq<char>)>) -> Option<(NameSource, Seq<char>)>
    decreases names.len(),
{
    if names.len() == 0 {
        None
    } else {
        match best_name(names.drop_last()) {
            None => Some(names.last()),
            Some(b) => if ranks_above(names.last(), b) {
                Some(names.last())
            } else {
                Some(b)
            },
        }
    }
}

/// The names of several addresses, one after the other.
pub open spec fn all_names(c: Seq<AddressModel>) -> Seq<(NameSource, Seq<char>)>
    decreases c.len(),
{
    if c.len() == 0 {
        Seq::empty()
    } else {
        all_names(c.drop_last()) + c.last().names
    }
}

/// The first vendor known at several addresses.
pub open spec fn any_vendor(c: Seq<AddressModel>) -> Option<Seq<char>>
    decreases c.len(),
{
    if c.len() == 0 {
        None
    } else {
        first_of(any_vendor(c.drop_last()), c.last().vendor)
    }
}

/// Sources with those of another list, each once.
pub open spec fn with_sources(s: Seq<Seq<char>>, more: Seq<Seq<char>>) -> Seq<Seq<char>>
    decreases more.len(),
{
    if more.len() == 0 {
        s
    } else {
        crate::text::joined_by(with_sources(s, more.drop_last()), more.last())
    }
}

/// The sources of several addresses, each once.
pub open spec fn all_sources(c: Seq<AddressModel>) -> Seq<Seq<char>>
    decreases c.len(),
{
    if c.len() == 0 {
        Seq::empty()
    } else {
        with_sources(all_sources(c.drop_last()), c.last().sources)
    }
}

/// The best confidence at several addresses.
pub open spec fn best_confidence(c: Seq<AddressModel>) -> u8
    decreases c.len(),
{
    if c.len() == 0 {
        0
    } else {
        more(best_confidence(c.drop_last()), c.last().confidence)
    }
}

/// The addresses of a group, in dictionary order.
pub open spec fn all_ips(c: Seq<AddressModel>) -> Seq<Seq<char>>
    decreases c.len(),
{
    if c.len() == 0 {
        Seq::empty()
    } else {
        crate::text::placed(all_ips(c.drop_last()), c.last().ip)
    }
}

/// Several addresses as one device.
pub open spec fn combined(c: Seq<AddressModel>, mac: Option<Seq<char>>) -> DeviceModel {
    let best = best_name(all_names(c));
    DeviceModel {
        ips: all_ips(c),
        mac,
        name: match best {
            Some(n) => Some(n.1),
            None => None,
        },
        name_source: match best {
            Some(n) => Some(n.0),
            None => None,
        },
        vendor: any_vendor(c),
        sources: all_sources(c),
        confidence: best_confidence(c),
    }
}

/// The condition of carrying a MAC.
pub open spec fn carries(mac: Seq<char>) -> spec_fn(AddressModel) -> bool {
    |a: AddressModel| a.mac == Some(mac)
}

/// The addresses that belong to one device with the `i`-th: those that carry
/// the same MAC, or that one alone where its MAC is unknown.
pub open spec fn device_group(groups: Seq<AddressModel>, i: int) -> Seq<AddressModel> {
    match groups[i].mac {
        Some(m) => groups.filter(carries(m)),
        None => seq![groups[i]],
    }
}

/// No address before the `i`-th carries its MAC.
pub open spec fn leads(groups: Seq<AddressModel>, i: int) -> bool {
    groups[i].mac is None || forall|j: int|
        0 <= j < i ==> (#[trigger] groups[j]).mac != groups[i].mac
}

/// The devices of the first `n` addresses.
pub open spec fn devices_upto(groups: Seq<AddressModel>, n: int) -> Seq<DeviceModel>
    decreases n,
{
    if n <= 0 {
        Seq::empty()
    } else if leads(groups, n - 1) {
        devices_upto(groups, n - 1).push(
            combined(device_group(groups, n - 1), groups[n - 1].mac),
        )
    } else {
        devices_upto(groups, n - 1)
    }
}

/// The devices that a scan's observations amount to.
pub open spec fn merged_devices(obs: Seq<crate::model::ObservationModel>) -> Seq<DeviceModel> {
    let groups = by_address(obs);
    devices_upto(groups, groups.len() as int)
}

/// Whether one name ranks above another.
fn outranks(a: &(NameSource, String), b: &(NameSource, String)) -> (r: bool)
    ensures
        r == ranks_above(a.deep_view(), b.deep_view()),
{
    let ra = !looks_like_identifier(a.1.as_str());
    let rb = !looks_like_identifier(b.1.as_str());
    if ra != rb {
        ra
    } else if a.0 != b.0 {
        a.0.rank() > b.0.rank()
    } else {
        str_lt(b.1.as_str(), a.1.as_str())
    }
}

/// Where the name that ranks highest stands.
fn best_index(names: &Vec<(NameSource, String)>) -> (r: Option<usize>)
    ensures
        match r {
            Some(i) => i < names.len() && best_name(names.deep_view()) == Some(
                names@[i as int].deep_view(),
            ),
            None => best_name(names.deep_view()) is None,
        },
{
    let ghost all = names.deep_view();
    let mut best: Option<usize> = None;
    let mut i: usize = 0;
    while i < names.len()
        invariant
            i <= names.len(),
            all == names.deep_view(),
            match best {
                Some(b) => b < names.len() && best_name(all.take(i as int)) == Some(
                    names@[b as int].deep_view(),
                ),
                None => best_name(all.take(i as int)) is None,
            },
        decreases names.len() - i,
    {
        assert(all.take(i + 1).drop_last() == all.take(i as int));
        assert(all[i as int] == names@[i as int].deep_view());
        best = match best {
            None => Some(i),
            Some(b) => if outranks(&names[i], &names[b]) {
                Some(i)
            } else {
                Some(b)
            },
        };
        i = i + 1;
    }
    assert(all.take(all.len() as int) == all);
    best
}

/// A device being put together from its addresses.
struct Joining {
    ips: Vec<String>,
    names: Vec<(NameSource, String)>,
    vendor: Option<String>,
    sources: Vec<String>,
    confidence: u8,
}

impl Joining {
    /// These addresses have been taken in.
    spec fn holds(&self, c: Seq<AddressModel>) -> bool {
        &&& self.ips.deep_view() == all_ips(c)
        &&& self.names.deep_view() == all_names(c)
        &&& self.vendor.deep_view() == any_vendor(c)
        &&& self.sources.deep_view() == all_sources(c)
        &&& self.confidence == best_confidence(c)
    }

    /// Nothing taken in yet.
    fn new() -> (r: Joining)
        ensures
            r.holds(Seq::empty()),
    {
        let r = Joining {
            ips: Vec::new(),
            names: Vec::new(),
            vendor: None,
            sources: Vec::new(),
            confidence: 0,
        };
        assert(r.ips.deep_view() == Seq::<Seq<char>>::empty());
        assert(r.names.deep_view() == Seq::<(NameSource, Seq<char>)>::empty());
        assert(r.sources.deep_view() == Seq::<Seq<char>>::empty());
        r
    }

    /// Take in one more address.
    fn add(&mut self, g: &IpAgg, Ghost(c): Ghost<Seq<AddressModel>>)
        requires
            old(self).holds(c),
        ensures
            final(self).holds(c.push(g.deep_view())),
    {
        let ghost d = c.push(g.deep_view());
        assert(d.drop_last() == c);
        place(&mut self.ips, g.ip.as_str());
        let ghost names = self.names.deep_view();
        let ghost extra = g.names.deep_view();
        let mut i: usize = 0;
        while i < g.names.len()
            invariant
                i <= g.names.len(),
                extra == g.names.deep_view(),
                self.names.deep_view() == names + extra.take(i as int),
                self.ips.deep_view() == all_ips(d),
                self.vendor.deep_view() == any_vendor(c),
                self.sources.deep_view() == all_sources(c),
                self.confidence == best_confidence(c),
            decreases g.names.len() - i,
        {
            let ghost so_far = self.names.deep_view();
            assert(extra[i as int] == g.names@[i as int].deep_view());
            self.names.push((g.names[i].0, g.names[i].1.clone()));
            assert(self.names.deep_view() == so_far.push(extra[i as int]));
            i = i + 1;
        }
        assert(extra.take(extra.len() as int) == extra);
        if self.vendor.is_none() {
            self.vendor = clone_opt(&g.vendor);
        }
        let ghost srcs = g.sources.deep_view();
        let ghost names_now = self.names.deep_view();
        let mut k: usize = 0;
        while k < g.sources.len()
            invariant
                k <= g.sources.len(),
                srcs == g.sources.deep_view(),
                self.names.deep_view() == names_now,
                self.ips.deep_view() == all_ips(d),
                self.vendor.deep_view() == any_vendor(d),
                self.sources.deep_view() == with_sources(all_sources(c), srcs.take(k as int)),
                self.confidence == best_confidence(c),
            decreases g.sources.len() - k,
        {
            assert(srcs.take(k + 1).drop_last() == srcs.take(k as int));
            assert(srcs[k as int] == g.sources@[k as int]@);
            push_once(&mut self.sources, g.sources[k].as_str());
            k = k + 1;
        }
        assert(srcs.take(srcs.len() as int) == srcs);
        if g.confidence > self.confidence {
            self.confidence = g.confidence;
        }
    }

    /// The finished device.
    fn finish(self, mac: &Option<String>, Ghost(c): Ghost<Seq<AddressModel>>) -> (r: ObservedDevice)
        requires
            self.holds(c),
        ensures
            r.deep_view() == combined(c, mac.deep_view()),
    {
        let best = best_index(&self.names);
        let (name, name_source) = match best {
            Some(i) => (Some(self.names[i].1.clone()), Some(self.names[i].0)),
            None => (None, None),
        };
        let r = ObservedDevice {
            ips: self.ips,
            mac: clone_opt(mac),
            name,
            name_source,
            vendor: self.vendor,
            sources: self.sources,
            confidence: self.confidence,
        };
        assert(r.deep_view() == combined(c, mac.deep_view()));
        r
    }
}

/// Whether two known MACs are the same; an unknown one is like no other.
fn same_mac(a: &Option<String>, b: &Option<String>) -> (r: bool)
    ensures
        r == (a.deep_view() is Some && a.deep_view() == b.deep_view()),
{
    match (a, b) {
        (Some(x), Some(y)) => str_eq(x.as_str(), y.as_str()),
        _ => false,
    }
}

/// Whether no address before the `i`-th carries its MAC.
fn is_leader(groups: &Vec<IpAgg>, i: usize) -> (r: bool)
    requires
        i < groups.len(),
    ensures
        r == leads(groups.deep_view(), i as int),
{
    let ghost all = groups.deep_view();
    assert(all[i as int] == groups@[i as int].deep_view());
    let mut j: usize = 0;
    while j < i
        invariant
            j <= i < groups.len(),
            all == groups.deep_view(),
            all[i as int] == groups@[i as int].deep_view(),
            all[i as int].mac is None || forall|k: int|
                0 <= k < j ==> (#[trigger] all[k]).mac != all[i as int].mac,
        decreases i - j,
    {
        assert(all[j as int] == groups@[j as int].deep_view());
        if same_mac(&groups[i].mac, &groups[j].mac) {
            return false;
        }
        j = j + 1;
    }
    true
}

/// Join the addresses that belong to one device with the `i`-th.
fn join_device(groups: &Vec<IpAgg>, i: usize) -> (r: ObservedDevice)
    requires
        i < groups.len(),
    ensures
        r.deep_view() == combined(
            device_group(groups.deep_view(), i as int),
            groups.deep_view()[i as int].mac,
        ),
{
    let ghost all = groups.deep_view();
    assert(all[i as int] == groups@[i as int].deep_view());
    let mut joining = Joining::new();
    if groups[i].mac.is_none() {
        let ghost one = seq![all[i as int]];
        joining.add(&groups[i], Ghost(Seq::empty()));
        assert(Seq::<AddressModel>::empty().push(all[i as int]) == one);
        return joining.finish(&groups[i].mac, Ghost(one));
    }
    let ghost p = carries(all[i as int].mac.unwrap());
    let mut j: usize = 0;
    assert(all.take(0).filter(p) == Seq::<AddressModel>::empty());
    while j < groups.len()
        invariant
            i < groups.len(),
            j <= groups.len(),
            all == groups.deep_view(),
            all[i as int] == groups@[i as int].deep_view(),
            all[i as int].mac is Some,
            p == carries(all[i as int].mac.unwrap()),
            joining.holds(all.take(j as int).filter(p)),
        decreases groups.len() - j,
    {
        assert(all[j as int] == groups@[j as int].deep_view());
        assert(all.take(j + 1) == all.take(j as int).push(all[j as int]));
        proof {
            crate::seqs::lemma_filter_push(all.take(j as int), all[j as int], p);
        }
        if same_mac(&groups[i].mac, &groups[j].mac) {
            joining.add(&groups[j], Ghost(all.take(j as int).filter(p)));
        }
        j = j + 1;
    }
    assert(all.take(all.len() as int) == all);
    joining.finish(&groups[i].mac, Ghost(all.filter(p)))
}

/// Combine observations that share an IP or a MAC into devices.
pub fn merge_observations(observations: &[Observation]) -> (r: Vec<ObservedDevice>)
    ensures
        r.deep_view() == merged_devices(observations.deep_view()),
{
    let groups = group_by_ip(observations);
    let ghost all = groups.deep_view();
    let mut merged: Vec<ObservedDevice> = Vec::new();
    let mut i: usize = 0;
    while i < groups.len()
        invariant
            i <= groups.len(),
            all == groups.deep_view(),
            merged.deep_view() == devices_upto(all, i as int),
        decreases groups.len() - i,
    {
        if is_leader(&groups, i) {
            let ghost so_far = merged.deep_view();
            let d = join_device(&groups, i);
            let ghost model = d.deep_view();
            merged.push(d);
            assert(merged.deep_view() == so_far.push(model));
        }
        i = i + 1;
    }
    merged
}

// ----- what holds of every merge -----

/// The rank of names is transitive.
proof fn lemma_rank_transitive(
    a: (NameSource, Seq<char>),
    b: (NameSource, Seq<char>),
    c: (NameSource, Seq<char>),
)
    requires
        ranks_above(a, b),
        ranks_above(b, c),
    ensures
        ranks_above(a, c),
{
    if a.0 == b.0 && b.0 == c.0 && crate::identity::identifier_like(a.1)
        == crate::identity::identifier_like(b.1) && crate::identity::identifier_like(b.1)
        == crate::identity::identifier_like(c.1) {
        crate::text::lemma_lex_transitive(c.1, b.1, a.1);
    }
}

/// The name a device gets is one that was heard, and none that was heard
/// ranks above it.
pub proof fn law_best_name_is_highest(names: Seq<(NameSource, Seq<char>)>)
    ensures
        match best_name(names) {
            Some(b) => names.contains(b) && forall|i: int|
                0 <= i < names.len() ==> !ranks_above(#[trigger] names[i], b),
            None => names.len() == 0,
        },
    decreases names.len(),
{
    if names.len() > 0 {
        let init = names.drop_last();
        law_best_name_is_highest(init);
        let last = names.last();
        assert(names[names.len() - 1] == last);
        crate::text::lemma_lex_irreflexive(last.1);
        match best_name(init) {
            Some(b) => {
                let k = choose|k: int| 0 <= k < init.len() && init[k] == b;
                assert(names[k] == b);
                assert forall|i: int| 0 <= i < names.len() implies !ranks_above(
                    #[trigger] names[i],
                    best_name(names).unwrap(),
                ) by {
                    if i < init.len() {
                        assert(init[i] == names[i]);
                        if ranks_above(last, b) && ranks_above(names[i], last) {
                            lemma_rank_transitive(names[i], last, b);
                        }
                    }
                }
            },
            None => {},
        }
    }
}

/// A machine identifier is never preferred to a name a person can read,
/// whatever the sources.
pub proof fn law_readable_name_is_preferred(names: Seq<(NameSource, Seq<char>)>, i: int)
    requires
        0 <= i < names.len(),
        !crate::identity::identifier_like(names[i].1),
    ensures
        best_name(names) is Some,
        !crate::identity::identifier_like(best_name(names).unwrap().1),
{
    law_best_name_is_highest(names);
    assert(!ranks_above(names[i], best_name(names).unwrap()));
}

/// Among readable names the more trusted source wins.
pub proof fn law_trusted_source_is_preferred(names: Seq<(NameSource, Seq<char>)>, i: int)
    requires
        0 <= i < names.len(),
        !crate::identity::identifier_like(names[i].1),
    ensures
        best_name(names) is Some,
        best_name(names).unwrap().0.trust() >= names[i].0.trust(),
{
    law_best_name_is_highest(names);
    law_readable_name_is_preferred(names, i);
    assert(!ranks_above(names[i], best_name(names).unwrap()));
}

/// Where an observation goes, and what it leaves alone.
proof fn lemma_with_observation(g: Seq<AddressModel>, o: crate::model::ObservationModel)
    requires
        forall|i: int, j: int|
            0 <= i < j < g.len() ==> (#[trigger] g[i]).ip != (#[trigger] g[j]).ip,
    ensures
        ({
            let h = with_observation(g, o);
            &&& g.len() <= h.len() <= g.len() + 1
            &&& forall|i: int| 0 <= i < g.len() ==> (#[trigger] h[i]).ip == g[i].ip
            &&& h.len() > g.len() ==> h[g.len() as int].ip == o.ip && forall|i: int|
                0 <= i < g.len() ==> (#[trigger] g[i]).ip != o.ip
            &&& h.len() == g.len() ==> exists|i: int| 0 <= i < g.len() && (#[trigger] g[i]).ip == o.ip
        }),
{
    let p = at_ip(o.ip);
    crate::seqs::lemma_first_found(g, p);
    match crate::seqs::first_where(g, p) {
        Some(i) => {
            assert(g[i].ip == o.ip);
        },
        None => {
            assert forall|i: int| 0 <= i < g.len() implies (#[trigger] g[i]).ip != o.ip by {
                assert(!p(g[i]));
            }
        },
    }
}

/// No address has two groups.
proof fn lemma_addresses_differ(obs: Seq<crate::model::ObservationModel>)
    ensures
        forall|i: int, j: int|
            0 <= i < j < by_address(obs).len() ==> (#[trigger] by_address(obs)[i]).ip != (
            #[trigger] by_address(obs)[j]).ip,
    decreases obs.len(),
{
    if obs.len() > 0 {
        let g = by_address(obs.drop_last());
        lemma_addresses_differ(obs.drop_last());
        lemma_with_observation(g, obs.last());
        let h = by_address(obs);
        assert forall|i: int, j: int| 0 <= i < j < h.len() implies (#[trigger] h[i]).ip != (
        #[trigger] h[j]).ip by {
            if j < g.len() {
                assert(g[i].ip != g[j].ip);
            } else {
                assert(h[i].ip == g[i].ip);
            }
        }
    }
}

/// Every observed address has a group.
proof fn lemma_address_has_group(obs: Seq<crate::model::ObservationModel>, k: int)
    requires
        0 <= k < obs.len(),
    ensures
        exists|i: int| 0 <= i < by_address(obs).len() && (#[trigger] by_address(obs)[i]).ip == obs[k].ip,
    decreases obs.len(),
{
    let init = obs.drop_last();
    let g = by_address(init);
    let h = by_address(obs);
    lemma_addresses_differ(init);
    lemma_with_observation(g, obs.last());
    if k < init.len() {
        lemma_address_has_group(init, k);
        let i = choose|i: int| 0 <= i < g.len() && (#[trigger] g[i]).ip == init[k].ip;
        assert(h[i].ip == obs[k].ip);
    } else if h.len() > g.len() {
        assert(h[g.len() as int].ip == obs[k].ip);
    } else {
        let i = choose|i: int| 0 <= i < g.len() && (#[trigger] g[i]).ip == obs.last().ip;
        assert(h[i].ip == obs[k].ip);
    }
}

/// Every group's address was observed.
proof fn lemma_group_was_observed(obs: Seq<crate::model::ObservationModel>, i: int)
    requires
        0 <= i < by_address(obs).len(),
    ensures
        exists|k: int| 0 <= k < obs.len() && (#[trigger] obs[k]).ip == by_address(obs)[i].ip,
    decreases obs.len(),
{
    let init = obs.drop_last();
    let g = by_address(init);
    lemma_addresses_differ(init);
    lemma_with_observation(g, obs.last());
    if i < g.len() {
        lemma_group_was_observed(init, i);
        let k = choose|k: int| 0 <= k < init.len() && (#[trigger] init[k]).ip == g[i].ip;
        assert(obs[k].ip == by_address(obs)[i].ip);
    } else {
        assert(obs[obs.len() - 1].ip == by_address(obs)[i].ip);
    }
}

/// The addresses of a joined device, ordered and complete.
proof fn lemma_all_ips(c: Seq<AddressModel>)
    ensures
        crate::text::increasing(all_ips(c)),
        forall|ip: Seq<char>| #[trigger]
            all_ips(c).contains(ip) <==> exists|i: int|
                0 <= i < c.len() && (#[trigger] c[i]).ip == ip,
    decreases c.len(),
{
    if c.len() > 0 {
        let init = c.drop_last();
        lemma_all_ips(init);
        crate::text::lemma_placed(all_ips(init), c.last().ip);
        assert forall|ip: Seq<char>| #[trigger]
            all_ips(c).contains(ip) <==> exists|i: int|
                0 <= i < c.len() && (#[trigger] c[i]).ip == ip by {
            if all_ips(init).contains(ip) {
                let i = choose|i: int| 0 <= i < init.len() && (#[trigger] init[i]).ip == ip;
                assert(c[i].ip == ip);
            }
            if ip == c.last().ip {
                assert(c[c.len() - 1].ip == ip);
            }
            if exists|i: int| 0 <= i < c.len() && (#[trigger] c[i]).ip == ip {
                let i = choose|i: int| 0 <= i < c.len() && (#[trigger] c[i]).ip == ip;
                if i < init.len() {
                    assert(init[i].ip == ip);
                }
            }
        }
    }
}

/// The addresses that begin a device, among the first `n`.
spec fn leaders(groups: Seq<AddressModel>, n: int) -> Seq<int>
    decreases n,
{
    if n <= 0 {
        Seq::empty()
    } else if leads(groups, n - 1) {
        leaders(groups, n - 1).push(n - 1)
    } else {
        leaders(groups, n - 1)
    }
}

/// Devices stand in the order of the addresses that begin them.
proof fn lemma_leaders(groups: Seq<AddressModel>, n: int)
    requires
        0 <= n <= groups.len(),
    ensures
        ({
            let l = leaders(groups, n);
            let d = devices_upto(groups, n);
            &&& l.len() == d.len()
            &&& forall|k: int|
                0 <= k < l.len() ==> 0 <= #[trigger] l[k] < n && leads(groups, l[k]) && d[k]
                    == combined(device_group(groups, l[k]), groups[l[k]].mac)
            &&& forall|a: int, b: int| 0 <= a < b < l.len() ==> #[trigger] l[a] < #[trigger] l[b]
            &&& forall|i: int|
                0 <= i < n && #[trigger] leads(groups, i) ==> exists|k: int|
                    0 <= k < l.len() && #[trigger] l[k] == i
        }),
    decreases n,
{
    if n > 0 {
        lemma_leaders(groups, n - 1);
        let l0 = leaders(groups, n - 1);
        let l = leaders(groups, n);
        let d0 = devices_upto(groups, n - 1);
        let d = devices_upto(groups, n);
        if leads(groups, n - 1) {
            assert(l == l0.push(n - 1));
            assert(d == d0.push(combined(device_group(groups, n - 1), groups[n - 1].mac)));
            assert(l[l.len() - 1] == n - 1);
        }
        assert forall|i: int| 0 <= i < n && #[trigger] leads(groups, i) implies exists|k: int|
            0 <= k < l.len() && #[trigger] l[k] == i by {
            if i < n - 1 {
                let k = choose|k: int| 0 <= k < l0.len() && #[trigger] l0[k] == i;
                assert(l[k] == i);
            } else {
                assert(l[l.len() - 1] == i);
            }
        }
    }
}

/// An address belongs to the device that it or an earlier address with its
/// MAC begins.
proof fn lemma_group_contains(groups: Seq<AddressModel>, l: int, ip: Seq<char>)
    requires
        0 <= l < groups.len(),
    ensures
        all_ips(device_group(groups, l)).contains(ip) <==> exists|i: int|
            0 <= i < groups.len() && (#[trigger] groups[i]).ip == ip && (i == l || (
            groups[l].mac is Some && groups[i].mac == groups[l].mac)),
{
    let c = device_group(groups, l);
    lemma_all_ips(c);
    match groups[l].mac {
        None => {
            if all_ips(c).contains(ip) {
                assert(groups[l].ip == ip);
            }
            if groups[l].ip == ip {
                assert(c[0].ip == ip);
            }
        },
        Some(m) => {
            let p = carries(m);
            if all_ips(c).contains(ip) {
                let k = choose|k: int| 0 <= k < c.len() && (#[trigger] c[k]).ip == ip;
                assert(c.contains(c[k]));
                crate::seqs::lemma_filter_contains(groups, p, c[k]);
                let i = choose|i: int| 0 <= i < groups.len() && groups[i] == c[k];
                assert(groups[i].ip == ip);
            }
            if exists|i: int|
                0 <= i < groups.len() && (#[trigger] groups[i]).ip == ip && (i == l
                    || groups[i].mac == groups[l].mac) {
                let i = choose|i: int|
                    0 <= i < groups.len() && (#[trigger] groups[i]).ip == ip && (i == l
                        || groups[i].mac == groups[l].mac);
                assert(groups.contains(groups[i]));
                crate::seqs::lemma_filter_contains(groups, p, groups[i]);
                let k = choose|k: int| 0 <= k < c.len() && c[k] == groups[i];
                assert(c[k].ip == ip);
            }
        },
    }
}

/// Nothing observed is lost: every address that was observed belongs to a
/// device.
pub proof fn law_every_address_is_kept(obs: Seq<crate::model::ObservationModel>, k: int)
    requires
        0 <= k < obs.len(),
    ensures
        exists|d: int|
            0 <= d < merged_devices(obs).len() && (#[trigger] merged_devices(obs)[d]).ips.contains(
                obs[k].ip,
            ),
{
    let groups = by_address(obs);
    let n = groups.len() as int;
    lemma_address_has_group(obs, k);
    lemma_leaders(groups, n);
    let i = choose|i: int| 0 <= i < groups.len() && (#[trigger] groups[i]).ip == obs[k].ip;
    let l: int = match groups[i].mac {
        None => i,
        Some(m) => {
            let p = carries(m);
            crate::seqs::lemma_first_found(groups, p);
            match crate::seqs::first_where(groups, p) {
                Some(f) => f,
                None => i,
            }
        },
    };
    if groups[i].mac is Some {
        let p = carries(groups[i].mac.unwrap());
        crate::seqs::lemma_first_found(groups, p);
        assert(p(groups[i]));
        assert(crate::seqs::is_first(groups, p, l));
        assert forall|j: int| 0 <= j < l implies (#[trigger] groups[j]).mac != groups[l].mac by {
            assert(!p(groups[j]));
        }
    }
    assert(leads(groups, l));
    let ls = leaders(groups, n);
    let d = choose|d: int| 0 <= d < ls.len() && #[trigger] ls[d] == l;
    lemma_group_contains(groups, l, obs[k].ip);
    assert(merged_devices(obs)[d].ips.contains(obs[k].ip));
}

/// Nothing is invented: every address of a device was observed.
pub proof fn law_no_address_is_invented(
    obs: Seq<crate::model::ObservationModel>,
    d: int,
    ip: Seq<char>,
)
    requires
        0 <= d < merged_devices(obs).len(),
        merged_devices(obs)[d].ips.contains(ip),
    ensures
        exists|k: int| 0 <= k < obs.len() && (#[trigger] obs[k]).ip == ip,
{
    let groups = by_address(obs);
    lemma_leaders(groups, groups.len() as int);
    let l = leaders(groups, groups.len() as int)[d];
    lemma_group_contains(groups, l, ip);
    let i = choose|i: int|
        0 <= i < groups.len() && (#[trigger] groups[i]).ip == ip && (i == l || (
        groups[l].mac is Some && groups[i].mac == groups[l].mac));
    lemma_group_was_observed(obs, i);
}

/// An address belongs to one device only.
pub proof fn law_address_has_one_device(
    obs: Seq<crate::model::ObservationModel>,
    a: int,
    b: int,
    ip: Seq<char>,
)
    requires
        0 <= a < merged_devices(obs).len(),
        0 <= b < merged_devices(obs).len(),
        merged_devices(obs)[a].ips.contains(ip),
        merged_devices(obs)[b].ips.contains(ip),
    ensures
        a == b,
{
    let groups = by_address(obs);
    let ls = leaders(groups, groups.len() as int);
    let (la, lb) = (ls[a], ls[b]);
    assert(0 <= la < groups.len() && 0 <= lb < groups.len() && leads(groups, la) && leads(
        groups,
        lb,
    ) && merged_devices(obs)[a].ips == all_ips(device_group(groups, la))
        && merged_devices(obs)[b].ips == all_ips(device_group(groups, lb)) && (la == lb ==> a
        == b)) by {
        lemma_leaders(groups, groups.len() as int);
    }
    assert(forall|i: int, j: int|
        0 <= i < j < groups.len() ==> (#[trigger] groups[i]).ip != (#[trigger] groups[j]).ip) by {
        lemma_addresses_differ(obs);
    }
    lemma_one_leader(groups, la, lb, ip);
}

/// An address belongs to the group of one beginning only.
proof fn lemma_one_leader(groups: Seq<AddressModel>, la: int, lb: int, ip: Seq<char>)
    requires
        0 <= la < groups.len(),
        0 <= lb < groups.len(),
        leads(groups, la),
        leads(groups, lb),
        forall|i: int, j: int|
            0 <= i < j < groups.len() ==> (#[trigger] groups[i]).ip != (#[trigger] groups[j]).ip,
        all_ips(device_group(groups, la)).contains(ip),
        all_ips(device_group(groups, lb)).contains(ip),
    ensures
        la == lb,
{
    lemma_group_contains(groups, la, ip);
    lemma_group_contains(groups, lb, ip);
    let i = choose|i: int|
        0 <= i < groups.len() && (#[trigger] groups[i]).ip == ip && (i == la || (
        groups[la].mac is Some && groups[i].mac == groups[la].mac));
    let j = choose|j: int|
        0 <= j < groups.len() && (#[trigger] groups[j]).ip == ip && (j == lb || (
        groups[lb].mac is Some && groups[j].mac == groups[lb].mac));
    assert(i == j);
}

/// Addresses that share a MAC are one device: no two devices carry the same
/// MAC.
pub proof fn law_mac_has_one_device(obs: Seq<crate::model::ObservationModel>, a: int, b: int)
    requires
        0 <= a < merged_devices(obs).len(),
        0 <= b < merged_devices(obs).len(),
        merged_devices(obs)[a].mac is Some,
        merged_devices(obs)[a].mac == merged_devices(obs)[b].mac,
    ensures
        a == b,
{
    let groups = by_address(obs);
    lemma_leaders(groups, groups.len() as int);
    let ls = leaders(groups, groups.len() as int);
    if ls[a] < ls[b] {
        assert(groups[ls[a]].mac != groups[ls[b]].mac);
    }
    if ls[b] < ls[a] {
        assert(groups[ls[b]].mac != groups[ls[a]].mac);
    }
}

/// The addresses of a device are in dictionary order, each once.
pub proof fn law_addresses_are_ordered(obs: Seq<crate::model::ObservationModel>, d: int)
    requires
        0 <= d < merged_devices(obs).len(),
    ensures
        crate::text::increasing(merged_devices(obs)[d].ips),
        merged_devices(obs)[d].ips.len() > 0,
{
    let groups = by_address(obs);
    lemma_leaders(groups, groups.len() as int);
    let l = leaders(groups, groups.len() as int)[d];
    lemma_all_ips(device_group(groups, l));
    lemma_group_contains(groups, l, groups[l].ip);
}

/// A name was heard at an address: an observation there gave it, and it says
/// something.
pub open spec fn heard_at(
    obs: Seq<crate::model::ObservationModel>,
    ip: Seq<char>,
    n: (NameSource, Seq<char>),
) -> bool {
    !crate::text::blank(n.1) && exists|k: int|
        0 <= k < obs.len() && (#[trigger] obs[k]).ip == ip && obs[k].name == Some(n)
}

/// A name was heard at one of some addresses.
pub open spec fn heard(
    obs: Seq<crate::model::ObservationModel>,
    ips: Seq<Seq<char>>,
    n: (NameSource, Seq<char>),
) -> bool {
    exists|ip: Seq<char>| #[trigger] ips.contains(ip) && heard_at(obs, ip, n)
}

/// A MAC was seen at an address with a confidence, and none there with more.
pub open spec fn surest_mac_at(
    obs: Seq<crate::model::ObservationModel>,
    ip: Seq<char>,
    mac: Seq<char>,
    confidence: u8,
) -> bool {
    &&& exists|k: int|
        0 <= k < obs.len() && (#[trigger] obs[k]).ip == ip && obs[k].mac == Some(mac)
            && obs[k].confidence == confidence
    &&& forall|k: int|
        0 <= k < obs.len() && (#[trigger] obs[k]).ip == ip && obs[k].mac is Some
            ==> obs[k].confidence <= confidence
}

/// No MAC was seen at an address.
pub open spec fn no_mac_at(obs: Seq<crate::model::ObservationModel>, ip: Seq<char>) -> bool {
    forall|k: int| 0 <= k < obs.len() && (#[trigger] obs[k]).ip == ip ==> obs[k].mac is None
}

/// One more observation elsewhere is no evidence about an address.
proof fn lemma_elsewhere(
    obs: Seq<crate::model::ObservationModel>,
    ip: Seq<char>,
    n: (NameSource, Seq<char>),
)
    requires
        obs.len() > 0,
        obs.last().ip != ip || obs.last().name != Some(n),
    ensures
        heard_at(obs, ip, n) <==> heard_at(obs.drop_last(), ip, n),
{
    let init = obs.drop_last();
    if heard_at(init, ip, n) {
        let k = choose|k: int|
            0 <= k < init.len() && (#[trigger] init[k]).ip == ip && init[k].name == Some(n);
        assert(obs[k].ip == ip && obs[k].name == Some(n));
    }
    if heard_at(obs, ip, n) {
        let k = choose|k: int|
            0 <= k < obs.len() && (#[trigger] obs[k]).ip == ip && obs[k].name == Some(n);
        assert(k < init.len());
        assert(init[k].ip == ip && init[k].name == Some(n));
    }
}

/// The group that one more observation goes to, and what becomes of each.
proof fn lemma_group_step(obs: Seq<crate::model::ObservationModel>, i: int)
    requires
        obs.len() > 0,
        0 <= i < by_address(obs).len(),
    ensures
        ({
            let g = by_address(obs.drop_last());
            let h = by_address(obs);
            if h[i].ip != obs.last().ip {
                i < g.len() && h[i] == g[i]
            } else if i < g.len() {
                g[i].ip == h[i].ip && h[i] == absorbed(g[i], obs.last())
            } else {
                h[i] == absorbed(fresh(obs.last().ip), obs.last()) && forall|j: int|
                    0 <= j < g.len() ==> (#[trigger] g[j]).ip != obs.last().ip
            }
        }),
{
    let g = by_address(obs.drop_last());
    let o = obs.last();
    let p = at_ip(o.ip);
    lemma_addresses_differ(obs.drop_last());
    lemma_with_observation(g, o);
    crate::seqs::lemma_first_found(g, p);
    match crate::seqs::first_where(g, p) {
        Some(j) => {
            assert(g[j].ip == o.ip);
            if i != j {
                assert(g[i].ip != g[j].ip);
            }
        },
        None => {},
    }
}

/// An address that nobody's group stands for was never observed.
proof fn lemma_unobserved(
    obs: Seq<crate::model::ObservationModel>,
    ip: Seq<char>,
)
    requires
        forall|j: int| 0 <= j < by_address(obs).len() ==> (#[trigger] by_address(obs)[j]).ip != ip,
    ensures
        forall|k: int| 0 <= k < obs.len() ==> (#[trigger] obs[k]).ip != ip,
{
    assert forall|k: int| 0 <= k < obs.len() implies (#[trigger] obs[k]).ip != ip by {
        lemma_address_has_group(obs, k);
    }
}

/// The names that a group holds are those heard at its address.
proof fn lemma_group_names(
    obs: Seq<crate::model::ObservationModel>,
    i: int,
    n: (NameSource, Seq<char>),
)
    requires
        0 <= i < by_address(obs).len(),
    ensures
        by_address(obs)[i].names.contains(n) <==> heard_at(obs, by_address(obs)[i].ip, n),
    decreases obs.len(),
{
    let init = obs.drop_last();
    let g = by_address(init);
    let h = by_address(obs);
    let o = obs.last();
    let ip = h[i].ip;
    lemma_group_step(obs, i);
    if i < g.len() {
        lemma_group_names(init, i, n);
    } else {
        lemma_unobserved(init, ip);
    }
    let before: Seq<(NameSource, Seq<char>)> = if i < g.len() {
        g[i].names
    } else {
        Seq::empty()
    };
    assert(before.contains(n) <==> heard_at(init, ip, n));
    if ip == o.ip && o.name == Some(n) {
        assert(obs[obs.len() - 1] == o);
        crate::text::lemma_push_contains(before, n);
        if crate::text::blank(n.1) {
            assert(!heard_at(obs, ip, n));
        }
    } else {
        lemma_elsewhere(obs, ip, n);
        if ip == o.ip && o.name is Some {
            crate::text::lemma_push_contains(before, o.name.unwrap());
        }
    }
}

/// The MAC that a group holds is the surest one seen at its address.
proof fn lemma_group_mac(obs: Seq<crate::model::ObservationModel>, i: int)
    requires
        0 <= i < by_address(obs).len(),
    ensures
        ({
            let g = by_address(obs)[i];
            match g.mac {
                Some(m) => surest_mac_at(obs, g.ip, m, g.mac_confidence),
                None => no_mac_at(obs, g.ip),
            }
        }),
    decreases obs.len(),
{
    let init = obs.drop_last();
    let g = by_address(init);
    let h = by_address(obs);
    let o = obs.last();
    let ip = h[i].ip;
    lemma_group_step(obs, i);
    if i < g.len() {
        lemma_group_mac(init, i);
        if g[i].mac is Some {
            let m = g[i].mac.unwrap();
            let k = choose|k: int|
                0 <= k < init.len() && (#[trigger] init[k]).ip == ip && init[k].mac == Some(m)
                    && init[k].confidence == g[i].mac_confidence;
            assert(obs[k] == init[k]);
        }
    } else {
        lemma_unobserved(init, ip);
    }
    assert(obs[obs.len() - 1] == o);
    assert forall|k: int| 0 <= k < obs.len() - 1 implies (#[trigger] obs[k]) == init[k] by {}
    match h[i].mac {
        Some(m) => {
            assert forall|k: int|
                0 <= k < obs.len() && (#[trigger] obs[k]).ip == ip && obs[k].mac is Some
                implies obs[k].confidence <= h[i].mac_confidence by {
                if k < init.len() {
                    assert(obs[k] == init[k]);
                    assert(init[k].ip == ip);
                }
            }
        },
        None => {
            assert forall|k: int| 0 <= k < obs.len() && (#[trigger] obs[k]).ip == ip implies obs[k].mac
                is None by {
                if k < init.len() {
                    assert(obs[k] == init[k]);
                    assert(init[k].ip == ip);
                }
            }
        },
    }
}

/// The names of several addresses are the names of each.
proof fn lemma_all_names(c: Seq<AddressModel>, n: (NameSource, Seq<char>))
    ensures
        all_names(c).contains(n) <==> exists|i: int|
            0 <= i < c.len() && (#[trigger] c[i]).names.contains(n),
    decreases c.len(),
{
    if c.len() > 0 {
        let init = c.drop_last();
        let a = all_names(init);
        let b = c.last().names;
        lemma_all_names(init, n);
        assert(c[c.len() - 1] == c.last());
        if all_names(c).contains(n) {
            let k = choose|k: int| 0 <= k < all_names(c).len() && all_names(c)[k] == n;
            if k < a.len() {
                assert(a[k] == n);
                let i = choose|i: int| 0 <= i < init.len() && (#[trigger] init[i]).names.contains(n);
                assert(c[i].names.contains(n));
            } else {
                assert(b[k - a.len()] == n);
            }
        }
        if exists|i: int| 0 <= i < c.len() && (#[trigger] c[i]).names.contains(n) {
            let i = choose|i: int| 0 <= i < c.len() && (#[trigger] c[i]).names.contains(n);
            if i < init.len() {
                assert(init[i].names.contains(n));
                let k = choose|k: int| 0 <= k < a.len() && a[k] == n;
                assert(all_names(c)[k] == n);
            } else {
                let k = choose|k: int| 0 <= k < b.len() && b[k] == n;
                assert(all_names(c)[a.len() + k] == n);
            }
        }
    }
}

/// A device is made of the groups of its addresses.
proof fn lemma_device_members(
    obs: Seq<crate::model::ObservationModel>,
    d: int,
) -> (l: int)
    requires
        0 <= d < merged_devices(obs).len(),
    ensures
        ({
            let groups = by_address(obs);
            let c = device_group(groups, l);
            let device = merged_devices(obs)[d];
            &&& 0 <= l < groups.len()
            &&& device == combined(c, groups[l].mac)
            &&& forall|i: int|
                0 <= i < groups.len() ==> (device.ips.contains((#[trigger] groups[i]).ip)
                    <==> c.contains(groups[i]))
            &&& forall|x: AddressModel| #[trigger] c.contains(x) ==> groups.contains(x)
            &&& forall|x: AddressModel| #[trigger] c.contains(x) ==> x.mac == groups[l].mac
        }),
{
    let groups = by_address(obs);
    lemma_leaders(groups, groups.len() as int);
    let l = leaders(groups, groups.len() as int)[d];
    let c = device_group(groups, l);
    lemma_addresses_differ(obs);
    lemma_all_ips(c);
    assert forall|x: AddressModel| #[trigger] c.contains(x) implies groups.contains(x) && x.mac
        == groups[l].mac by {
        match groups[l].mac {
            Some(m) => {
                crate::seqs::lemma_filter_contains(groups, carries(m), x);
            },
            None => {
                assert(x == groups[l]);
            },
        }
    }
    assert forall|i: int| 0 <= i < groups.len() implies (all_ips(c).contains(
        (#[trigger] groups[i]).ip,
    ) <==> c.contains(groups[i])) by {
        if c.contains(groups[i]) {
            let k = choose|k: int| 0 <= k < c.len() && c[k] == groups[i];
            assert(c[k].ip == groups[i].ip);
        }
        if all_ips(c).contains(groups[i].ip) {
            let k = choose|k: int| 0 <= k < c.len() && (#[trigger] c[k]).ip == groups[i].ip;
            assert(c.contains(c[k]));
            let j = choose|j: int| 0 <= j < groups.len() && groups[j] == c[k];
            assert(groups[j].ip == groups[i].ip);
            assert(i == j);
        }
    }
    l
}

/// The names that a device is given to choose from are those heard at its
/// addresses.
proof fn lemma_device_names(
    obs: Seq<crate::model::ObservationModel>,
    d: int,
    l: int,
    n: (NameSource, Seq<char>),
)
    requires
        0 <= d < merged_devices(obs).len(),
        0 <= l < by_address(obs).len(),
        merged_devices(obs)[d] == combined(
            device_group(by_address(obs), l),
            by_address(obs)[l].mac,
        ),
        forall|i: int|
            0 <= i < by_address(obs).len() ==> (merged_devices(obs)[d].ips.contains(
                (#[trigger] by_address(obs)[i]).ip,
            ) <==> device_group(by_address(obs), l).contains(by_address(obs)[i])),
        forall|x: AddressModel| #[trigger]
            device_group(by_address(obs), l).contains(x) ==> by_address(obs).contains(x),
    ensures
        all_names(device_group(by_address(obs), l)).contains(n) <==> heard(
            obs,
            merged_devices(obs)[d].ips,
            n,
        ),
{
    let groups = by_address(obs);
    let c = device_group(groups, l);
    let ips = merged_devices(obs)[d].ips;
    lemma_all_names(c, n);
    if all_names(c).contains(n) {
        let k = choose|k: int| 0 <= k < c.len() && (#[trigger] c[k]).names.contains(n);
        assert(c.contains(c[k]));
        let i = choose|i: int| 0 <= i < groups.len() && groups[i] == c[k];
        lemma_group_names(obs, i, n);
        assert(ips.contains(groups[i].ip));
    }
    if heard(obs, ips, n) {
        let ip = choose|ip: Seq<char>| #[trigger] ips.contains(ip) && heard_at(obs, ip, n);
        let k = choose|k: int|
            0 <= k < obs.len() && (#[trigger] obs[k]).ip == ip && obs[k].name == Some(n);
        lemma_address_has_group(obs, k);
        let i = choose|i: int| 0 <= i < groups.len() && (#[trigger] groups[i]).ip == obs[k].ip;
        lemma_group_names(obs, i, n);
        assert(c.contains(groups[i]));
        let j = choose|j: int| 0 <= j < c.len() && c[j] == groups[i];
        assert(c[j].names.contains(n));
    }
}

/// The ranking of names. A device has a name exactly where one that says
/// something was heard at one of its addresses, and the name it has was heard
/// there from the source it is put down to. No source of a readable name heard
/// there is trusted more; where only machine identifiers were heard, no source
/// at all is.
pub proof fn law_device_has_its_best_name(obs: Seq<crate::model::ObservationModel>, d: int)
    requires
        0 <= d < merged_devices(obs).len(),
    ensures
        ({
            let device = merged_devices(obs)[d];
            &&& device.name is Some <==> device.name_source is Some
            &&& device.name is Some <==> exists|n: (NameSource, Seq<char>)| #[trigger]
                heard(obs, device.ips, n)
            &&& device.name is Some ==> heard(
                obs,
                device.ips,
                (device.name_source.unwrap(), device.name.unwrap()),
            )
            &&& forall|n: (NameSource, Seq<char>)| #[trigger]
                heard(obs, device.ips, n) && (!crate::identity::identifier_like(n.1)
                    || crate::identity::identifier_like(device.name.unwrap()))
                    ==> device.name_source.unwrap().trust() >= n.0.trust()
            &&& forall|n: (NameSource, Seq<char>)| #[trigger]
                heard(obs, device.ips, n) && !crate::identity::identifier_like(n.1)
                    ==> !crate::identity::identifier_like(device.name.unwrap())
        }),
{
    let device = merged_devices(obs)[d];
    let l = lemma_device_members(obs, d);
    let names = all_names(device_group(by_address(obs), l));
    law_best_name_is_highest(names);
    assert forall|n: (NameSource, Seq<char>)| names.contains(n) <==> #[trigger] heard(
        obs,
        device.ips,
        n,
    ) by {
        lemma_device_names(obs, d, l, n);
    }
    match best_name(names) {
        Some(b) => {
            assert(heard(obs, device.ips, b));
            assert forall|n: (NameSource, Seq<char>)| #[trigger]
                heard(obs, device.ips, n) implies !ranks_above(n, b) by {
                let i = choose|i: int| 0 <= i < names.len() && names[i] == n;
                assert(!ranks_above(names[i], b));
            }
        },
        None => {
            assert(forall|n: (NameSource, Seq<char>)| !names.contains(n));
        },
    }
}

/// The MAC of a device is, at each of its addresses, the one seen there with
/// the highest confidence; a device without one has no address at which any
/// was seen.
pub proof fn law_device_has_its_surest_mac(
    obs: Seq<crate::model::ObservationModel>,
    d: int,
    ip: Seq<char>,
)
    requires
        0 <= d < merged_devices(obs).len(),
        merged_devices(obs)[d].ips.contains(ip),
    ensures
        match merged_devices(obs)[d].mac {
            Some(m) => exists|confidence: u8| #[trigger] surest_mac_at(obs, ip, m, confidence),
            None => no_mac_at(obs, ip),
        },
{
    let groups = by_address(obs);
    let l = lemma_device_members(obs, d);
    law_no_address_is_invented(obs, d, ip);
    let k = choose|k: int| 0 <= k < obs.len() && (#[trigger] obs[k]).ip == ip;
    lemma_address_has_group(obs, k);
    let i = choose|i: int| 0 <= i < groups.len() && (#[trigger] groups[i]).ip == obs[k].ip;
    lemma_group_mac(obs, i);
    assert(device_group(groups, l).contains(groups[i]));
}

/// The vendor of a group is the first one said at its address.
proof fn lemma_group_vendor(obs: Seq<crate::model::ObservationModel>, i: int)
    requires
        0 <= i < by_address(obs).len(),
    ensures
        ({
            let g = by_address(obs)[i];
            match g.vendor {
                Some(v) => exists|k: int|
                    0 <= k < obs.len() && (#[trigger] obs[k]).ip == g.ip && obs[k].vendor == Some(v)
                        && forall|j: int|
                        0 <= j < k && (#[trigger] obs[j]).ip == g.ip ==> obs[j].vendor is None,
                None => forall|k: int|
                    0 <= k < obs.len() && (#[trigger] obs[k]).ip == g.ip ==> obs[k].vendor is None,
            }
        }),
    decreases obs.len(),
{
    let init = obs.drop_last();
    let g = by_address(init);
    let h = by_address(obs);
    let o = obs.last();
    let ip = h[i].ip;
    lemma_group_step(obs, i);
    assert forall|k: int| 0 <= k < init.len() implies (#[trigger] obs[k]) == init[k] by {}
    assert(obs[obs.len() - 1] == o);
    if i < g.len() {
        lemma_group_vendor(init, i);
    } else {
        lemma_unobserved(init, ip);
    }
    if i < g.len() && g[i].vendor is Some {
        let v = g[i].vendor.unwrap();
        let k = choose|k: int|
            0 <= k < init.len() && (#[trigger] init[k]).ip == ip && init[k].vendor == Some(v)
                && forall|j: int|
                0 <= j < k && (#[trigger] init[j]).ip == ip ==> init[j].vendor is None;
        assert(obs[k].ip == ip && obs[k].vendor == Some(v));
        assert forall|j: int| 0 <= j < k && (#[trigger] obs[j]).ip == ip implies obs[j].vendor
            is None by {
            assert(init[j].ip == ip);
        }
    } else {
        assert forall|k: int| 0 <= k < init.len() && (#[trigger] obs[k]).ip == ip implies obs[k].vendor
            is None by {
            assert(init[k].ip == ip);
        }
    }
}

/// The sources and the confidence of a group are those of the observations at
/// its address.
proof fn lemma_group_sources(obs: Seq<crate::model::ObservationModel>, i: int)
    requires
        0 <= i < by_address(obs).len(),
    ensures
        ({
            let g = by_address(obs)[i];
            &&& forall|x: Seq<char>| #[trigger]
                g.sources.contains(x) <==> exists|k: int|
                    0 <= k < obs.len() && (#[trigger] obs[k]).ip == g.ip && obs[k].source == x
            &&& exists|k: int|
                0 <= k < obs.len() && (#[trigger] obs[k]).ip == g.ip && obs[k].confidence
                    == g.confidence
            &&& forall|k: int|
                0 <= k < obs.len() && (#[trigger] obs[k]).ip == g.ip ==> obs[k].confidence
                    <= g.confidence
        }),
    decreases obs.len(),
{
    let init = obs.drop_last();
    let g = by_address(init);
    let h = by_address(obs);
    let o = obs.last();
    let ip = h[i].ip;
    lemma_group_step(obs, i);
    assert forall|k: int| 0 <= k < init.len() implies (#[trigger] obs[k]) == init[k] by {}
    assert(obs[obs.len() - 1] == o);
    let before: Seq<Seq<char>> = if i < g.len() {
        g[i].sources
    } else {
        Seq::empty()
    };
    if i < g.len() {
        lemma_group_sources(init, i);
        let k = choose|k: int|
            0 <= k < init.len() && (#[trigger] init[k]).ip == ip && init[k].confidence
                == g[i].confidence;
        assert(obs[k].ip == ip);
    } else {
        lemma_unobserved(init, ip);
    }
    crate::text::lemma_push_contains(before, o.source);
    assert forall|x: Seq<char>| #[trigger] h[i].sources.contains(x) <==> exists|k: int|
        0 <= k < obs.len() && (#[trigger] obs[k]).ip == ip && obs[k].source == x by {
        if before.contains(x) {
            let k = choose|k: int|
                0 <= k < init.len() && (#[trigger] init[k]).ip == ip && init[k].source == x;
            assert(obs[k].ip == ip && obs[k].source == x);
        }
        if ip == o.ip && x == o.source {
            assert(obs[obs.len() - 1].source == x);
        }
        if exists|k: int|
            0 <= k < obs.len() && (#[trigger] obs[k]).ip == ip && obs[k].source == x {
            let k = choose|k: int|
                0 <= k < obs.len() && (#[trigger] obs[k]).ip == ip && obs[k].source == x;
            if k < init.len() {
                assert(init[k].ip == ip && init[k].source == x);
            }
        }
    }
    assert forall|k: int|
        0 <= k < obs.len() && (#[trigger] obs[k]).ip == ip implies obs[k].confidence
        <= h[i].confidence by {
        if k < init.len() {
            assert(init[k].ip == ip);
        }
    }
}

/// The vendor of several addresses is that of one of them.
proof fn lemma_any_vendor(c: Seq<AddressModel>)
    ensures
        match any_vendor(c) {
            Some(v) => exists|i: int| 0 <= i < c.len() && (#[trigger] c[i]).vendor == Some(v),
            None => forall|i: int| 0 <= i < c.len() ==> (#[trigger] c[i]).vendor is None,
        },
    decreases c.len(),
{
    if c.len() > 0 {
        let init = c.drop_last();
        lemma_any_vendor(init);
        assert(c[c.len() - 1] == c.last());
        assert forall|i: int| 0 <= i < init.len() implies (#[trigger] c[i]) == init[i] by {}
        match any_vendor(init) {
            Some(v) => {
                let i = choose|i: int| 0 <= i < init.len() && (#[trigger] init[i]).vendor == Some(v);
                assert(c[i].vendor == Some(v));
            },
            None => {},
        }
    }
}

/// Sources joined by others hold both.
proof fn lemma_with_sources(s: Seq<Seq<char>>, more: Seq<Seq<char>>)
    ensures
        forall|x: Seq<char>| #[trigger]
            with_sources(s, more).contains(x) <==> s.contains(x) || more.contains(x),
        s.no_duplicates() ==> with_sources(s, more).no_duplicates(),
    decreases more.len(),
{
    if more.len() > 0 {
        let init = more.drop_last();
        let x = more.last();
        lemma_with_sources(s, init);
        let a = with_sources(s, init);
        crate::text::lemma_push_contains(a, x);
        crate::text::lemma_push_contains(init, x);
        assert(init.push(x) == more);
        if s.no_duplicates() && !a.contains(x) {
            assert forall|i: int, j: int|
                0 <= i < a.push(x).len() && 0 <= j < a.push(x).len() && i != j implies a.push(x)[i]
                != a.push(x)[j] by {
                if i < a.len() {
                    assert(a.contains(a[i]));
                }
                if j < a.len() {
                    assert(a.contains(a[j]));
                }
            }
        }
    }
}

/// The sources and the confidence of several addresses.
proof fn lemma_all_sources(c: Seq<AddressModel>)
    ensures
        forall|x: Seq<char>| #[trigger]
            all_sources(c).contains(x) <==> exists|i: int|
                0 <= i < c.len() && (#[trigger] c[i]).sources.contains(x),
        all_sources(c).no_duplicates(),
        forall|i: int| 0 <= i < c.len() ==> (#[trigger] c[i]).confidence <= best_confidence(c),
        c.len() > 0 ==> exists|i: int|
            0 <= i < c.len() && (#[trigger] c[i]).confidence == best_confidence(c),
    decreases c.len(),
{
    if c.len() > 0 {
        let init = c.drop_last();
        lemma_all_sources(init);
        lemma_with_sources(all_sources(init), c.last().sources);
        assert(c[c.len() - 1] == c.last());
        assert forall|i: int| 0 <= i < init.len() implies (#[trigger] c[i]) == init[i] by {}
        assert forall|x: Seq<char>| #[trigger] all_sources(c).contains(x) <==> exists|i: int|
            0 <= i < c.len() && (#[trigger] c[i]).sources.contains(x) by {
            if all_sources(init).contains(x) {
                let i = choose|i: int|
                    0 <= i < init.len() && (#[trigger] init[i]).sources.contains(x);
                assert(c[i].sources.contains(x));
            }
            if c.last().sources.contains(x) {
                assert(c[c.len() - 1].sources.contains(x));
            }
            if exists|i: int| 0 <= i < c.len() && (#[trigger] c[i]).sources.contains(x) {
                let i = choose|i: int| 0 <= i < c.len() && (#[trigger] c[i]).sources.contains(x);
                if i < init.len() {
                    assert(init[i].sources.contains(x));
                }
            }
        }
        if init.len() > 0 {
            let i = choose|i: int|
                0 <= i < init.len() && (#[trigger] init[i]).confidence == best_confidence(init);
            assert(c[i].confidence == best_confidence(init));
        }
    }
}

/// The group of an address that belongs to a device is among those the device
/// is made of.
proof fn lemma_member_at(
    obs: Seq<crate::model::ObservationModel>,
    d: int,
    l: int,
    k: int,
) -> (i: int)
    requires
        0 <= d < merged_devices(obs).len(),
        0 <= k < obs.len(),
        merged_devices(obs)[d].ips.contains(obs[k].ip),
        forall|i: int|
            0 <= i < by_address(obs).len() ==> (merged_devices(obs)[d].ips.contains(
                (#[trigger] by_address(obs)[i]).ip,
            ) <==> device_group(by_address(obs), l).contains(by_address(obs)[i])),
    ensures
        0 <= i < by_address(obs).len(),
        by_address(obs)[i].ip == obs[k].ip,
        device_group(by_address(obs), l).contains(by_address(obs)[i]),
{
    let groups = by_address(obs);
    lemma_address_has_group(obs, k);
    let i = choose|i: int| 0 <= i < groups.len() && (#[trigger] groups[i]).ip == obs[k].ip;
    assert(device_group(groups, l).contains(groups[i]));
    i
}

/// A device has a vendor exactly where an observation at one of its addresses
/// says one, and it is the first that was said at the address it is from: no
/// later observation, and none without a vendor, takes it away.
pub proof fn law_device_has_the_first_vendor(obs: Seq<crate::model::ObservationModel>, d: int)
    requires
        0 <= d < merged_devices(obs).len(),
    ensures
        ({
            let device = merged_devices(obs)[d];
            match device.vendor {
                Some(v) => exists|k: int|
                    0 <= k < obs.len() && device.ips.contains((#[trigger] obs[k]).ip)
                        && obs[k].vendor == Some(v) && forall|j: int|
                        0 <= j < k && (#[trigger] obs[j]).ip == obs[k].ip ==> obs[j].vendor is None,
                None => forall|k: int|
                    0 <= k < obs.len() && device.ips.contains((#[trigger] obs[k]).ip)
                        ==> obs[k].vendor is None,
            }
        }),
{
    let device = merged_devices(obs)[d];
    let groups = by_address(obs);
    let l = lemma_device_members(obs, d);
    let c = device_group(groups, l);
    lemma_any_vendor(c);
    match device.vendor {
        Some(v) => {
            let m = choose|m: int| 0 <= m < c.len() && (#[trigger] c[m]).vendor == Some(v);
            assert(c.contains(c[m]));
            let i = choose|i: int| 0 <= i < groups.len() && groups[i] == c[m];
            lemma_group_vendor(obs, i);
            assert(device.ips.contains(groups[i].ip));
            let k = choose|k: int|
                0 <= k < obs.len() && (#[trigger] obs[k]).ip == groups[i].ip && obs[k].vendor
                    == Some(v) && forall|j: int|
                    0 <= j < k && (#[trigger] obs[j]).ip == groups[i].ip ==> obs[j].vendor is None;
            assert(device.ips.contains(obs[k].ip));
        },
        None => {
            assert forall|k: int|
                0 <= k < obs.len() && device.ips.contains((#[trigger] obs[k]).ip) implies obs[k].vendor
                is None by {
                let i = lemma_member_at(obs, d, l, k);
                let m = choose|m: int| 0 <= m < c.len() && c[m] == groups[i];
                assert(c[m].vendor is None);
                lemma_group_vendor(obs, i);
            }
        },
    }
}

/// A device's sources are those of the observations at its addresses, each
/// once, and its confidence is the highest of theirs.
pub proof fn law_device_has_its_evidence(obs: Seq<crate::model::ObservationModel>, d: int)
    requires
        0 <= d < merged_devices(obs).len(),
    ensures
        ({
            let device = merged_devices(obs)[d];
            &&& forall|x: Seq<char>| #[trigger]
                device.sources.contains(x) <==> exists|k: int|
                    0 <= k < obs.len() && device.ips.contains((#[trigger] obs[k]).ip)
                        && obs[k].source == x
            &&& device.sources.no_duplicates()
            &&& exists|k: int|
                0 <= k < obs.len() && device.ips.contains((#[trigger] obs[k]).ip)
                    && obs[k].confidence == device.confidence
            &&& forall|k: int|
                0 <= k < obs.len() && device.ips.contains((#[trigger] obs[k]).ip)
                    ==> obs[k].confidence <= device.confidence
        }),
{
    let device = merged_devices(obs)[d];
    let groups = by_address(obs);
    let l = lemma_device_members(obs, d);
    let c = device_group(groups, l);
    lemma_all_sources(c);
    assert forall|x: Seq<char>| #[trigger] device.sources.contains(x) <==> exists|k: int|
        0 <= k < obs.len() && device.ips.contains((#[trigger] obs[k]).ip) && obs[k].source == x by {
        if device.sources.contains(x) {
            let m = choose|m: int| 0 <= m < c.len() && (#[trigger] c[m]).sources.contains(x);
            assert(c.contains(c[m]));
            let i = choose|i: int| 0 <= i < groups.len() && groups[i] == c[m];
            lemma_group_sources(obs, i);
            assert(groups[i].sources.contains(x));
            let k = choose|k: int|
                0 <= k < obs.len() && (#[trigger] obs[k]).ip == groups[i].ip && obs[k].source == x;
            assert(device.ips.contains(groups[i].ip));
            assert(device.ips.contains(obs[k].ip));
        }
        if exists|k: int|
            0 <= k < obs.len() && device.ips.contains((#[trigger] obs[k]).ip) && obs[k].source
                == x {
            let k = choose|k: int|
                0 <= k < obs.len() && device.ips.contains((#[trigger] obs[k]).ip) && obs[k].source
                    == x;
            let i = lemma_member_at(obs, d, l, k);
            lemma_group_sources(obs, i);
            assert(groups[i].sources.contains(x));
            let m = choose|m: int| 0 <= m < c.len() && c[m] == groups[i];
            assert(c[m].sources.contains(x));
        }
    }
    assert(c.len() > 0) by {
        law_addresses_are_ordered(obs, d);
        lemma_all_ips(c);
    }
    let m = choose|m: int| 0 <= m < c.len() && (#[trigger] c[m]).confidence == best_confidence(c);
    assert(c.contains(c[m]));
    let i = choose|i: int| 0 <= i < groups.len() && groups[i] == c[m];
    lemma_group_sources(obs, i);
    assert(device.ips.contains(groups[i].ip));
    let k = choose|k: int|
        0 <= k < obs.len() && (#[trigger] obs[k]).ip == groups[i].ip && obs[k].confidence
            == groups[i].confidence;
    assert(device.ips.contains(obs[k].ip));
    assert forall|k: int|
        0 <= k < obs.len() && device.ips.contains((#[trigger] obs[k]).ip) implies obs[k].confidence
        <= device.confidence by {
        let i = lemma_member_at(obs, d, l, k);
        lemma_group_sources(obs, i);
        let m = choose|m: int| 0 <= m < c.len() && c[m] == groups[i];
        assert(c[m].confidence <= best_confidence(c));
    }
}

/// The MAC of a group comes from the first of the surest observations.
proof fn lemma_group_first_mac(obs: Seq<crate::model::ObservationModel>, i: int)
    requires
        0 <= i < by_address(obs).len(),
        by_address(obs)[i].mac is Some,
    ensures
        exists|k: int|
            0 <= k < obs.len() && (#[trigger] obs[k]).ip == by_address(obs)[i].ip && obs[k].mac
                == by_address(obs)[i].mac && obs[k].confidence == by_address(obs)[i].mac_confidence
                && forall|j: int|
                0 <= j < obs.len() && (#[trigger] obs[j]).ip == obs[k].ip && obs[j].mac is Some
                    ==> if j < k {
                    obs[j].confidence < obs[k].confidence
                } else {
                    obs[j].confidence <= obs[k].confidence
                },
    decreases obs.len(),
{
    let init = obs.drop_last();
    let g = by_address(init);
    let h = by_address(obs);
    let o = obs.last();
    let ip = h[i].ip;
    lemma_group_step(obs, i);
    lemma_group_mac(obs, i);
    assert forall|k: int| 0 <= k < init.len() implies (#[trigger] obs[k]) == init[k] by {}
    assert(obs[obs.len() - 1] == o);
    if i < g.len() && g[i].mac is Some && !(ip == o.ip && takes_mac(g[i], o)) {
        lemma_group_first_mac(init, i);
        let k = choose|k: int|
            0 <= k < init.len() && (#[trigger] init[k]).ip == g[i].ip && init[k].mac == g[i].mac
                && init[k].confidence == g[i].mac_confidence && forall|j: int|
                0 <= j < init.len() && (#[trigger] init[j]).ip == init[k].ip && init[j].mac is Some
                    ==> if j < k {
                    init[j].confidence < init[k].confidence
                } else {
                    init[j].confidence <= init[k].confidence
                };
        assert(obs[k].ip == ip);
        assert forall|j: int|
            0 <= j < obs.len() && (#[trigger] obs[j]).ip == obs[k].ip && obs[j].mac is Some implies (
        if j < k {
            obs[j].confidence < obs[k].confidence
        } else {
            obs[j].confidence <= obs[k].confidence
        }) by {
            if j < init.len() {
                assert(init[j].ip == init[k].ip);
            }
        }
    } else {
        let k = obs.len() - 1;
        if i < g.len() {
            lemma_group_mac(init, i);
        } else {
            lemma_unobserved(init, ip);
        }
        assert(obs[k].ip == ip);
        assert forall|j: int|
            0 <= j < obs.len() && (#[trigger] obs[j]).ip == obs[k].ip && obs[j].mac is Some implies (
        if j < k {
            obs[j].confidence < obs[k].confidence
        } else {
            obs[j].confidence <= obs[k].confidence
        }) by {
            if j < init.len() {
                assert(init[j].ip == ip);
            }
        }
    }
}

/// A device's MAC is, at each of its addresses, that of the first of the
/// observations there that are surest of one: a later one as sure does not
/// displace it. Only addresses that share a MAC are joined: a device without
/// one has a single address.
pub proof fn law_first_of_the_surest_macs_stays(
    obs: Seq<crate::model::ObservationModel>,
    d: int,
    ip: Seq<char>,
)
    requires
        0 <= d < merged_devices(obs).len(),
        merged_devices(obs)[d].ips.contains(ip),
    ensures
        match merged_devices(obs)[d].mac {
            Some(m) => exists|k: int|
                0 <= k < obs.len() && (#[trigger] obs[k]).ip == ip && obs[k].mac == Some(m)
                    && forall|j: int|
                    0 <= j < obs.len() && (#[trigger] obs[j]).ip == ip && obs[j].mac is Some
                        ==> if j < k {
                        obs[j].confidence < obs[k].confidence
                    } else {
                        obs[j].confidence <= obs[k].confidence
                    },
            None => merged_devices(obs)[d].ips == seq![ip] && forall|k: int|
                0 <= k < obs.len() && (#[trigger] obs[k]).ip == ip ==> obs[k].mac is None,
        },
{
    let device = merged_devices(obs)[d];
    let groups = by_address(obs);
    let l = lemma_device_members(obs, d);
    let c = device_group(groups, l);
    law_no_address_is_invented(obs, d, ip);
    let k = choose|k: int| 0 <= k < obs.len() && (#[trigger] obs[k]).ip == ip;
    let i = lemma_member_at(obs, d, l, k);
    assert(groups[i].mac == groups[l].mac);
    match device.mac {
        Some(m) => {
            lemma_group_first_mac(obs, i);
        },
        None => {
            law_device_has_its_surest_mac(obs, d, ip);
            assert(c == seq![groups[l]]);
            assert(c.drop_last() == Seq::<AddressModel>::empty());
            lemma_all_ips(c);
            law_addresses_are_ordered(obs, d);
            let ips = device.ips;
            assert forall|a: int| 0 <= a < ips.len() implies #[trigger] ips[a] == ip by {
                assert(ips.contains(ips[a]));
            }
            if ips.len() > 1 {
                crate::text::lemma_lex_irreflexive(ip);
                assert(ips[0] == ip && ips[1] == ip);
            }
            assert(ips =~= seq![ip]);
        },
    }
}

/// Of the names heard at a device's addresses, one by mDNS comes before one by
/// NetBIOS, and that before one by SSDP; of those from one source the last in
/// dictionary order is taken. Machine identifiers count only against each
/// other.
pub proof fn law_names_rank_by_source(
    obs: Seq<crate::model::ObservationModel>,
    d: int,
    n: (NameSource, Seq<char>),
)
    requires
        0 <= d < merged_devices(obs).len(),
        heard(obs, merged_devices(obs)[d].ips, n),
    ensures
        ({
            let device = merged_devices(obs)[d];
            &&& device.name is Some && device.name_source is Some
            &&& crate::identity::identifier_like(n.1) == crate::identity::identifier_like(
                device.name.unwrap(),
            ) ==> match n.0 {
                NameSource::Mdns => device.name_source == Some(NameSource::Mdns),
                NameSource::Netbios => device.name_source == Some(NameSource::Mdns)
                    || device.name_source == Some(NameSource::Netbios),
                NameSource::Ssdp => true,
            }
            &&& crate::identity::identifier_like(n.1) == crate::identity::identifier_like(
                device.name.unwrap(),
            ) && device.name_source == Some(n.0) ==> !crate::text::lex_lt(
                device.name.unwrap(),
                n.1,
            )
        }),
{
    let device = merged_devices(obs)[d];
    law_device_has_its_best_name(obs, d);
    let l = lemma_device_members(obs, d);
    let names = all_names(device_group(by_address(obs), l));
    law_best_name_is_highest(names);
    lemma_device_names(obs, d, l, n);
    let i = choose|i: int| 0 <= i < names.len() && names[i] == n;
    assert(!ranks_above(names[i], best_name(names).unwrap()));
}

// ----- matching against the inventory -----

/// The identity decision for one observed device.
#[derive(Debug)]
pub enum Resolution {
    /// Existing inventory device (canonical key).
    Existing(DeviceRow),
    /// Brand-new device; key computed from current signals + network.
    New(String),
}

/// What a [`Resolution`] says.
#[verifier::ext_equal]
pub enum ResolutionModel {
    Existing(DeviceRecord),
    New(Seq<char>),
}

impl DeepView for Resolution {
    type V = ResolutionModel;

    open spec fn deep_view(&self) -> ResolutionModel {
        match self {
            Resolution::Existing(d) => ResolutionModel::Existing(d.deep_view()),
            Resolution::New(key) => ResolutionModel::New(key@),
        }
    }
}

/// The inventory device with an observed device's MAC.
pub open spec fn match_by_mac(m: StoreModel, d: DeviceModel) -> Option<DeviceRecord> {
    match d.mac {
        Some(mac) => devices::device_by_mac(m, mac),
        None => None,
    }
}

/// The inventory device with an observed device's name on this network.
pub open spec fn match_by_name(m: StoreModel, d: DeviceModel, network: Seq<char>) -> Option<
    DeviceRecord,
> {
    match d.name {
        Some(name) => devices::device_by_name(m, name, network),
        None => None,
    }
}

/// Who an observed device is: the inventory device with its MAC, else the one
/// with its name on this network (a new MAC under the same name), else a new
/// one.
pub open spec fn identity_of(m: StoreModel, d: DeviceModel, network: Seq<char>) -> ResolutionModel {
    match first_of(match_by_mac(m, d), match_by_name(m, d, network)) {
        Some(e) => ResolutionModel::Existing(e),
        None => ResolutionModel::New(crate::identity::device_key_of(d.name, d.mac, network)),
    }
}

/// Match an observed device against the inventory.
pub fn resolve_identity(store: &Store, device: &ObservedDevice, network_key: &str) -> (r: Result<
    Resolution,
    StoreError,
>)
    ensures
        r is Ok,
        r.unwrap().deep_view() == identity_of(
            store.deep_view(),
            device.deep_view(),
            network_key@,
        ),
{
    // Strong signal: exact MAC match against the inventory.
    if let Some(mac) = &device.mac {
        match store.find_device_by_mac(mac.as_str()) {
            Ok(Some(existing)) => {
                return Ok(Resolution::Existing(existing));
            },
            Ok(None) => {},
            Err(e) => {
                return Err(e);
            },
        }
    }
    // Name-on-network match: handles MAC randomisation (new MAC, same name).
    if let Some(name) = &device.name {
        match store.find_device_by_name_on_network(name.as_str(), network_key) {
            Ok(Some(existing)) => {
                return Ok(Resolution::Existing(existing));
            },
            Ok(None) => {},
            Err(e) => {
                return Err(e);
            },
        }
    }
    Ok(
        Resolution::New(
            device_key(as_opt_str(&device.name), as_opt_str(&device.mac), network_key),
        ),
    )
}

/// A name that says something.
pub open spec fn has_name(name: Option<Seq<char>>) -> bool {
    name is Some && !crate::text::blank(name.unwrap())
}

/// The key of an existing device in the light of what was observed: a new one
/// where it gained a name it never had.
pub open spec fn refingerprint_key(e: DeviceRecord, d: DeviceModel) -> Seq<char> {
    if has_name(d.name) && !has_name(e.primary_name) {
        crate::identity::device_key_of(d.name, first_of(d.mac, e.mac), e.origin_network)
    } else {
        e.key
    }
}

/// The store after an existing device was re-fingerprinted, and how it ended.
pub open spec fn refingerprinted(m: StoreModel, e: DeviceRecord, d: DeviceModel, t: i64) -> (
    StoreModel,
    Option<StoreError>,
) {
    let key = refingerprint_key(e, d);
    if key == e.key {
        (m, None)
    } else if !devices::has_room(m, key) {
        (m, Some(StoreError::Full))
    } else {
        alias::aliased(
            devices::device_recorded(
                m,
                key,
                first_of(d.name, e.primary_name),
                first_of(d.mac, e.mac),
                first_of(d.vendor, e.vendor),
                e.origin_network,
                t,
            ),
            e.key,
            key,
            t,
        )
    }
}

/// The first of two optional texts that is there.
pub fn either<'a>(a: &'a Option<String>, b: &'a Option<String>) -> (r: Option<&'a str>)
    ensures
        r.deep_view() == first_of(a.deep_view(), b.deep_view()),
{
    match a {
        Some(s) => Some(s.as_str()),
        None => as_opt_str(b),
    }
}

/// Whether a name says something.
fn says_something(name: &Option<String>) -> (r: bool)
    ensures
        r == has_name(name.deep_view()),
{
    match name {
        Some(n) => !is_blank(n.as_str()),
        None => false,
    }
}

/// When an existing device gains a name signal it never had, recompute its
/// composite key and alias the old one so history and user names survive. The
/// key under which the device stands afterwards.
pub fn refingerprint_at(
    store: &mut Store,
    existing: &DeviceRow,
    device: &ObservedDevice,
    t: i64,
) -> (r: Result<String, StoreError>)
    requires
        old(store).deep_view().wf(),
    ensures
        ({
            let out = refingerprinted(
                old(store).deep_view(),
                existing.deep_view(),
                device.deep_view(),
                t,
            );
            &&& final(store).deep_view() == out.0
            &&& match out.1 {
                None => r is Ok && r.unwrap()@ == refingerprint_key(
                    existing.deep_view(),
                    device.deep_view(),
                ),
                Some(e) => r == Err::<String, StoreError>(e),
            }
        }),
        final(store).deep_view().wf(),
{
    if says_something(&device.name) && !says_something(&existing.primary_name) {
        let new_key = device_key(
            as_opt_str(&device.name),
            either(&device.mac, &existing.mac),
            existing.origin_network.as_str(),
        );
        if !str_eq(new_key.as_str(), existing.key.as_str()) {
            // Ensure the new device row exists under the new key, then alias.
            if let Err(e) = store.upsert_device_at(
                new_key.as_str(),
                either(&device.name, &existing.primary_name),
                either(&device.mac, &existing.mac),
                either(&device.vendor, &existing.vendor),
                existing.origin_network.as_str(),
                t,
            ) {
                return Err(e);
            }
            if let Err(e) = store.add_alias_at(existing.key.as_str(), new_key.as_str(), t) {
                return Err(e);
            }
            return Ok(new_key);
        }
    }
    Ok(existing.key.clone())
}

/// [`refingerprint_at`] the present moment.
pub fn maybe_refingerprint(store: &mut Store, existing: &DeviceRow, device: &ObservedDevice) -> (r:
    Result<String, StoreError>)
    requires
        old(store).deep_view().wf(),
    ensures
        exists|t: i64|
            ({
                let out = #[trigger] refingerprinted(
                    old(store).deep_view(),
                    existing.deep_view(),
                    device.deep_view(),
                    t,
                );
                &&& final(store).deep_view() == out.0
                &&& match out.1 {
                    None => r is Ok && r.unwrap()@ == refingerprint_key(
                        existing.deep_view(),
                        device.deep_view(),
                    ),
                    Some(e) => r == Err::<String, StoreError>(e),
                }
            }),
        final(store).deep_view().wf(),
{
    refingerprint_at(store, existing, device, now())
}

/// A device that had a name keeps its key whatever it is seen as.
pub proof fn law_named_device_keeps_its_key(m: StoreModel, e: DeviceRecord, d: DeviceModel, t: i64)
    requires
        has_name(e.primary_name) || !has_name(d.name),
    ensures
        refingerprint_key(e, d) == e.key,
        refingerprinted(m, e, d, t) == (m, None::<StoreError>),
{
}

/// A known MAC decides: a device whose MAC the inventory knows is that
/// device, whatever it is called now.
pub proof fn law_mac_match_wins(m: StoreModel, d: DeviceModel, network: Seq<char>)
    requires
        match_by_mac(m, d) is Some,
    ensures
        identity_of(m, d, network) == ResolutionModel::Existing(match_by_mac(m, d).unwrap()),
{
}

/// Who an observed device is. With no MAC, or one that no record has, its name
/// decides; with neither it is new, under the key of what was observed on this
/// network.
pub proof fn law_identity_of_the_unmatched(m: StoreModel, d: DeviceModel, network: Seq<char>)
    requires
        m.wf(),
        d.mac is Some ==> forall|i: int|
            0 <= i < m.devices.len() ==> (#[trigger] m.devices[i]).mac != d.mac,
    ensures
        d.name is Some && devices::device_by_name(m, d.name.unwrap(), network) is Some
            ==> identity_of(m, d, network) == ResolutionModel::Existing(
            devices::device_by_name(m, d.name.unwrap(), network).unwrap(),
        ),
        d.name is None || devices::device_by_name(m, d.name.unwrap(), network) is None
            ==> identity_of(m, d, network) == ResolutionModel::New(
            crate::identity::device_key_of(d.name, d.mac, network),
        ),
{
    if d.mac is Some {
        devices::law_device_found_by_mac(m, d.mac.unwrap());
    }
}

/// A device whose MAC is on record is the device on record that has it: the
/// one of them that has a name before one that has none.
pub proof fn law_identity_of_a_known_mac(m: StoreModel, d: DeviceModel, network: Seq<char>, i: int)
    requires
        m.wf(),
        d.mac is Some,
        0 <= i < m.devices.len(),
        m.devices[i].mac == d.mac,
        forall|j: int|
            0 <= j < m.devices.len() && (#[trigger] m.devices[j]).mac == d.mac
                ==> alias::resolved(m.aliases, m.devices[j].key) == m.devices[j].key,
    ensures
        match identity_of(m, d, network) {
            ResolutionModel::Existing(e) => m.devices.contains(e) && e.mac == d.mac && (
            m.devices[i].primary_name is Some ==> e.primary_name is Some),
            ResolutionModel::New(_) => false,
        },
{
    devices::law_device_found_by_mac(m, d.mac.unwrap());
}

/// A device without a name that shows one is given the key of its new name,
/// with the MAC it shows or else the one on record, on the network it was
/// first seen on. In every other case it keeps its key.
pub proof fn law_key_after_a_name_was_gained(e: DeviceRecord, d: DeviceModel)
    ensures
        ({
            let said = d.name is Some && crate::text::trimmed(d.name.unwrap()).len() > 0;
            let had = e.primary_name is Some && crate::text::trimmed(
                e.primary_name.unwrap(),
            ).len() > 0;
            let mac = if d.mac is Some {
                d.mac
            } else {
                e.mac
            };
            refingerprint_key(e, d) == if said && !had {
                crate::identity::device_key_of(d.name, mac, e.origin_network)
            } else {
                e.key
            }
        }),
{
}

/// A device that gained a name stands under its new key with what was observed
/// of it, and with what was on record where nothing was observed; its old key
/// leads to the new one and has no row of its own. (Here the new key is not on
/// record yet.)
pub proof fn law_gained_name_moves_the_device(
    m: StoreModel,
    e: DeviceRecord,
    d: DeviceModel,
    t: i64,
)
    requires
        m.wf(),
        m.device_seq < i64::MAX,
        alias::flat(m.aliases),
        refingerprint_key(e, d) != e.key,
        alias::resolved(m.aliases, refingerprint_key(e, d)) == refingerprint_key(
            e,
            d,
        ),
        forall|i: int|
            0 <= i < m.devices.len() ==> (#[trigger] m.devices[i]).key != refingerprint_key(e, d),
        refingerprinted(m, e, d, t).1 is None,
    ensures
        ({
            let n = refingerprinted(m, e, d, t).0;
            let key = refingerprint_key(e, d);
            let row = devices::device_of(n, e.key);
            &&& alias::resolved(n.aliases, e.key) == key
            &&& devices::device_at(n.devices, e.key) is None
            &&& row is Some
            &&& row.unwrap().key == key
            &&& row.unwrap().primary_name == d.name
            &&& row.unwrap().mac == if d.mac is Some {
                d.mac
            } else {
                e.mac
            }
            &&& row.unwrap().vendor == if d.vendor is Some {
                d.vendor
            } else {
                e.vendor
            }
            &&& row.unwrap().origin_network == e.origin_network
            &&& row.unwrap().last_seen == t
        }),
{
    let key = refingerprint_key(e, d);
    let n1 = devices::device_recorded(
        m,
        key,
        first_of(d.name, e.primary_name),
        first_of(d.mac, e.mac),
        first_of(d.vendor, e.vendor),
        e.origin_network,
        t,
    );
    devices::law_new_device_is_recorded(
        m,
        key,
        first_of(d.name, e.primary_name),
        first_of(d.mac, e.mac),
        first_of(d.vendor, e.vendor),
        e.origin_network,
        t,
    );
    crate::store::rows::lemma_row_index::<DeviceRow>(m.devices, key);
    crate::store::rows::lemma_push_unique::<DeviceRow>(m.devices, n1.devices.last());
    assert(n1.devices == m.devices.push(n1.devices.last()));
    assert(n1.wf()) by {
        assert forall|i: int, j: int| 0 <= i < j < n1.devices.len() implies (
        #[trigger] n1.devices[i]).id != (#[trigger] n1.devices[j]).id by {
            assert(n1.devices[i] == m.devices[i]);
            assert(m.devices[i].id <= m.device_seq);
            if j < m.devices.len() {
                assert(n1.devices[j] == m.devices[j]);
            }
        }
        assert forall|i: int| 0 <= i < n1.devices.len() implies (#[trigger] n1.devices[i]).id
            <= n1.device_seq by {
            if i < m.devices.len() {
                assert(n1.devices[i] == m.devices[i]);
            }
        }
    }
    alias::law_alias_reads_the_canonical_device(n1, e.key, key, t);
    crate::store::rows::lemma_row_found::<DeviceRow>(n1.devices, m.devices.len() as int);
}

} // verus!
