//! Resolve what a scan observed to device identities and diff it against the
//! inventory.
//!
//! Order matters and is the whole point: resolving writes this scan's values
//! into the device rows, so the state before the scan has to be taken first or
//! the diff compares every field against itself.

use vstd::prelude::*;
use vstd::string::*;

use crate::diff;
use crate::diff::{
    compute_diff, DiffOutcome, ObservedModel, ObservedState, OutcomeModel, PriorModel, PriorState,
    ScanIntegrity,
};
use crate::display;
use crate::display::device_display;
use crate::identity;
use crate::identity::is_stable;
use crate::keymap;
use crate::keymap::KeyMap;
use crate::merge;
use crate::merge::{
    either, refingerprint_at, resolve_identity, DeviceModel, ObservedDevice, Resolution,
    ResolutionModel,
};
use crate::seqs;
use crate::store::rows::{DeviceRecord, PresenceRecord, PresenceRow};
use crate::store::{alias, devices, names, networks, Store, StoreError, StoreModel};
use crate::text::{as_opt_str, clone_opt, contains_str, own_opt};
use crate::util::now;

verus! {

// ----- the inventory before the scan -----

/// The name on record of a device that may be there.
pub open spec fn recorded_name(d: Option<DeviceRecord>) -> Option<Seq<char>> {
    match d {
        Some(x) => x.primary_name,
        None => None,
    }
}

/// The MAC on record of a device that may be there.
pub open spec fn recorded_mac(d: Option<DeviceRecord>) -> Option<Seq<char>> {
    match d {
        Some(x) => x.mac,
        None => None,
    }
}

/// The inventory's view of one device on a network.
pub open spec fn prior_of(m: StoreModel, p: PresenceRecord) -> PriorModel {
    let d = devices::device_of(m, p.device_key);
    PriorModel {
        device_key: p.device_key,
        display_name: display::display_of(
            names::just_name(names::user_name_of(m, p.device_key)),
            recorded_name(d),
            recorded_mac(d),
            p.last_ip,
            p.device_key,
        ),
        last_ip: p.last_ip,
        last_hostname: recorded_name(d),
        last_mac: recorded_mac(d),
        miss_streak: p.miss_streak,
        reported_gone: p.reported_gone,
        identity_stable: identity::stable(recorded_name(d), recorded_mac(d)),
    }
}

/// The inventory's view of devices by their presence.
pub open spec fn priors_of(m: StoreModel, rows: Seq<PresenceRecord>) -> Seq<(Seq<char>, PriorModel)> {
    Seq::new(rows.len(), |i: int| (rows[i].device_key, prior_of(m, rows[i])))
}

/// The inventory's view of every device on a network.
pub open spec fn prior_states(m: StoreModel, network: Seq<char>) -> Seq<(Seq<char>, PriorModel)> {
    priors_of(m, m.presence.filter(networks::on_network(network)))
}

/// The inventory's view of one device on a network.
fn prior_state(store: &Store, p: &PresenceRow) -> (r: PriorState)
    ensures
        r.deep_view() == prior_of(store.deep_view(), p.deep_view()),
{
    let key = p.device_key.as_str();
    let user = store.user_name(key);
    let (name, mac): (Option<String>, Option<String>) = match store.device(key) {
        Some(d) => (d.primary_name, d.mac),
        None => (None, None),
    };
    PriorState {
        device_key: p.device_key.clone(),
        display_name: device_display(
            as_opt_str(&user),
            as_opt_str(&name),
            as_opt_str(&mac),
            as_opt_str(&p.last_ip),
            key,
        ),
        last_ip: clone_opt(&p.last_ip),
        identity_stable: is_stable(as_opt_str(&name), as_opt_str(&mac)),
        last_hostname: name,
        last_mac: mac,
        miss_streak: p.miss_streak,
        reported_gone: p.reported_gone,
    }
}

/// The inventory's view of every device on this network, as it stands right
/// now. Must be taken *before* the scan writes anything, or every field is
/// compared against itself.
pub fn snapshot_prior(store: &Store, net_key: &str) -> (r: Result<KeyMap<PriorState>, StoreError>)
    ensures
        r is Ok,
        r.unwrap().deep_view() == prior_states(store.deep_view(), net_key@),
{
    let rows = match store.presence_for_network(net_key) {
        Ok(v) => v,
        Err(e) => {
            return Err(e);
        },
    };
    let ghost m = store.deep_view();
    let ghost all = rows.deep_view();
    let mut entries: Vec<(String, PriorState)> = Vec::new();
    let mut i: usize = 0;
    while i < rows.len()
        invariant
            i <= rows.len(),
            m == store.deep_view(),
            all == rows.deep_view(),
            entries.deep_view() == priors_of(m, all.take(i as int)),
        decreases rows.len() - i,
    {
        assert(all[i as int] == rows@[i as int].deep_view());
        let ghost so_far = entries.deep_view();
        let e = (rows[i].device_key.clone(), prior_state(store, &rows[i]));
        let ghost model = e.deep_view();
        entries.push(e);
        assert(entries.deep_view() == so_far.push(model));
        assert(priors_of(m, all.take(i + 1)) == priors_of(m, all.take(i as int)).push(model));
        i = i + 1;
    }
    assert(all.take(all.len() as int) == all);
    Ok(KeyMap { entries })
}

/// The state before the scan after one more device was looked up under its
/// present key. Where two old identities are one by now, the one seen most
/// recently stays.
pub open spec fn remap_one(
    aliases: Seq<crate::store::rows::AliasRecord>,
    rest: Seq<(Seq<char>, PriorModel)>,
    e: (Seq<char>, PriorModel),
) -> Seq<(Seq<char>, PriorModel)> {
    let c = alias::resolved(aliases, e.0);
    match keymap::lookup(rest, c) {
        Some(other) => if other.miss_streak <= e.1.miss_streak {
            rest
        } else {
            keymap::put(rest, c, PriorModel { device_key: c, ..e.1 })
        },
        None => keymap::put(rest, c, PriorModel { device_key: c, ..e.1 }),
    }
}

/// The state before the scan under the keys that devices have now.
pub open spec fn remapped(
    aliases: Seq<crate::store::rows::AliasRecord>,
    prior: Seq<(Seq<char>, PriorModel)>,
) -> Seq<(Seq<char>, PriorModel)>
    decreases prior.len(),
{
    if prior.len() == 0 {
        Seq::empty()
    } else {
        remap_one(aliases, remapped(aliases, prior.drop_last()), prior.last())
    }
}

/// A copy of a state under another key.
fn under_key(p: &PriorState, key: &str) -> (r: PriorState)
    ensures
        r.deep_view() == (PriorModel { device_key: key@, ..p.deep_view() }),
{
    PriorState {
        device_key: key.to_string(),
        display_name: p.display_name.clone(),
        last_ip: clone_opt(&p.last_ip),
        last_hostname: clone_opt(&p.last_hostname),
        last_mac: clone_opt(&p.last_mac),
        miss_streak: p.miss_streak,
        reported_gone: p.reported_gone,
        identity_stable: p.identity_stable,
    }
}

/// Re-point a prior snapshot through any aliases the scan created.
///
/// Resolving identity can re-fingerprint a device, moving its presence row to
/// a new key. A snapshot taken beforehand still holds the old key, and would
/// otherwise make one device look simultaneously new and gone.
pub fn remap_prior_through_aliases(store: &Store, prior: KeyMap<PriorState>) -> (r: Result<
    KeyMap<PriorState>,
    StoreError,
>)
    ensures
        r is Ok,
        r.unwrap().deep_view() == remapped(store.deep_view().aliases, prior.deep_view()),
        keymap::keys_unique(r.unwrap().deep_view()),
{
    let ghost aliases = store.deep_view().aliases;
    let ghost all = prior.deep_view();
    let mut out: KeyMap<PriorState> = KeyMap::new();
    let mut i: usize = 0;
    while i < prior.entries.len()
        invariant
            i <= prior.entries.len(),
            aliases == store.deep_view().aliases,
            all == prior.deep_view(),
            out.deep_view() == remapped(aliases, all.take(i as int)),
            keymap::keys_unique(out.deep_view()),
        decreases prior.entries.len() - i,
    {
        let (key, state) = &prior.entries[i];
        assert(all[i as int] == (key@, state.deep_view()));
        assert(all.take(i + 1).drop_last() == all.take(i as int));
        let canonical = store.canonical_key(key.as_str());
        // Two old identities merged into one: keep the one seen most
        // recently, so a merge can never manufacture a `gone`.
        let keep_other = match out.get(canonical.as_str()) {
            Some(existing) => existing.miss_streak <= state.miss_streak,
            None => false,
        };
        if !keep_other {
            let moved = under_key(state, canonical.as_str());
            out.insert(canonical, moved);
        }
        i = i + 1;
    }
    assert(all.take(all.len() as int) == all);
    Ok(out)
}

// ----- what the scan observed -----

/// The address a device was seen at first.
pub open spec fn first_ip(d: DeviceModel) -> Seq<char> {
    if d.ips.len() > 0 {
        d.ips[0]
    } else {
        Seq::empty()
    }
}

/// An observed device under the key of its identity. Stability is judged on
/// everything known about the device, not just this scan: a name learned
/// earlier still makes it findable.
pub open spec fn observed_as(
    m: StoreModel,
    key: Seq<char>,
    d: DeviceModel,
    known_name: Option<Seq<char>>,
    known_mac: Option<Seq<char>>,
) -> ObservedModel {
    ObservedModel {
        device_key: key,
        display_name: display::display_of(
            names::just_name(names::user_name_of(m, key)),
            d.name,
            d.mac,
            Some(first_ip(d)),
            key,
        ),
        ip: first_ip(d),
        hostname: d.name,
        mac: d.mac,
        identity_stable: identity::stable(known_name, known_mac),
    }
}

/// The store after a device that the inventory knows was seen again.
pub open spec fn known_again(
    m: StoreModel,
    key: Seq<char>,
    e: DeviceRecord,
    d: DeviceModel,
    t: i64,
) -> StoreModel {
    StoreModel {
        devices: devices::device_updated(
            m.devices,
            key,
            d.name,
            merge::first_of(d.mac, e.mac),
            merge::first_of(d.vendor, e.vendor),
            t,
        ),
        ..m
    }
}

/// The store after one device was resolved, and what it was observed as or
/// why it could not be recorded.
pub open spec fn observe_one(m: StoreModel, d: DeviceModel, network: Seq<char>, t: i64) -> (
    StoreModel,
    Result<ObservedModel, StoreError>,
) {
    match merge::identity_of(m, d, network) {
        ResolutionModel::Existing(e) => {
            let (moved, failure) = merge::refingerprinted(m, e, d, t);
            let key = merge::refingerprint_key(e, d);
            let after = known_again(moved, key, e, d, t);
            match failure {
                Some(error) => (moved, Err(error)),
                None => (
                    after,
                    Ok(
                        observed_as(
                            after,
                            key,
                            d,
                            merge::first_of(d.name, e.primary_name),
                            merge::first_of(d.mac, e.mac),
                        ),
                    ),
                ),
            }
        },
        ResolutionModel::New(key) => {
            let after = devices::device_recorded(m, key, d.name, d.mac, d.vendor, network, t);
            if devices::has_room(m, key) {
                (after, Ok(observed_as(after, key, d, d.name, d.mac)))
            } else {
                (m, Err(StoreError::Full))
            }
        },
    }
}

/// The store after devices were resolved one after the other, and what they
/// were observed as, or the first failure.
pub open spec fn observe_all(m: StoreModel, ds: Seq<DeviceModel>, network: Seq<char>, t: i64) -> (
    StoreModel,
    Result<Seq<(Seq<char>, ObservedModel)>, StoreError>,
)
    decreases ds.len(),
{
    if ds.len() == 0 {
        (m, Ok(Seq::empty()))
    } else {
        let (before, so_far) = observe_all(m, ds.drop_last(), network, t);
        match so_far {
            Err(error) => (before, Err(error)),
            Ok(states) => {
                let (after, one) = observe_one(before, ds.last(), network, t);
                match one {
                    Err(error) => (after, Err(error)),
                    Ok(o) => (after, Ok(keymap::put(states, o.device_key, o))),
                }
            },
        }
    }
}

/// Once resolving failed, the rest is not looked at.
proof fn lemma_failure_stays(m: StoreModel, ds: Seq<DeviceModel>, network: Seq<char>, t: i64, n: int)
    requires
        0 <= n <= ds.len(),
        observe_all(m, ds.take(n), network, t).1 is Err,
    ensures
        observe_all(m, ds, network, t) == observe_all(m, ds.take(n), network, t),
    decreases ds.len(),
{
    if n == ds.len() {
        assert(ds.take(n) == ds);
    } else {
        assert(ds.drop_last().take(n) == ds.take(n));
        lemma_failure_stays(m, ds.drop_last(), network, t, n);
    }
}

/// An observed device under the key of its identity.
fn observed_state(
    store: &Store,
    key: String,
    d: &ObservedDevice,
    known_name: Option<&str>,
    known_mac: Option<&str>,
) -> (r: ObservedState)
    ensures
        r.deep_view() == observed_as(
            store.deep_view(),
            key@,
            d.deep_view(),
            known_name.deep_view(),
            known_mac.deep_view(),
        ),
{
    let user = store.user_name(key.as_str());
    let ip = if d.ips.len() > 0 {
        assert(d.deep_view().ips[0] == d.ips@[0]@);
        d.ips[0].clone()
    } else {
        assert(d.deep_view().ips.len() == 0);
        String::new()
    };
    assert(ip@ == first_ip(d.deep_view()));
    ObservedState {
        display_name: device_display(
            as_opt_str(&user),
            as_opt_str(&d.name),
            as_opt_str(&d.mac),
            Some(ip.as_str()),
            key.as_str(),
        ),
        ip,
        hostname: clone_opt(&d.name),
        mac: clone_opt(&d.mac),
        identity_stable: is_stable(known_name, known_mac),
        device_key: key,
    }
}

/// Resolve one merged observation to a device identity, updating the stored
/// device row.
fn resolve_one(store: &mut Store, d: &ObservedDevice, net_key: &str, t: i64) -> (r: Result<
    ObservedState,
    StoreError,
>)
    requires
        old(store).deep_view().wf(),
    ensures
        ({
            let out = observe_one(old(store).deep_view(), d.deep_view(), net_key@, t);
            &&& final(store).deep_view() == out.0
            &&& match out.1 {
                Ok(o) => r is Ok && r.unwrap().deep_view() == o,
                Err(e) => r == Err::<ObservedState, StoreError>(e),
            }
        }),
        final(store).deep_view().wf(),
{
    let found = match resolve_identity(store, d, net_key) {
        Ok(x) => x,
        Err(e) => {
            return Err(e);
        },
    };
    match found {
        Resolution::Existing(existing) => {
            let canonical = match refingerprint_at(store, &existing, d, t) {
                Ok(k) => k,
                Err(e) => {
                    return Err(e);
                },
            };
            let name = own_opt(either(&d.name, &existing.primary_name));
            let mac = own_opt(either(&d.mac, &existing.mac));
            if let Err(e) = store.update_device_fields_at(
                canonical.as_str(),
                as_opt_str(&d.name),
                as_opt_str(&mac),
                either(&d.vendor, &existing.vendor),
                t,
            ) {
                return Err(e);
            }
            Ok(observed_state(store, canonical, d, as_opt_str(&name), as_opt_str(&mac)))
        },
        Resolution::New(key) => {
            if let Err(e) = store.upsert_device_at(
                key.as_str(),
                as_opt_str(&d.name),
                as_opt_str(&d.mac),
                as_opt_str(&d.vendor),
                net_key,
                t,
            ) {
                return Err(e);
            }
            Ok(observed_state(store, key, d, as_opt_str(&d.name), as_opt_str(&d.mac)))
        },
    }
}

/// Resolve each merged observation to a device identity, updating the stored
/// device rows as it goes.
pub fn resolve_observed(store: &mut Store, merged: &Vec<ObservedDevice>, net_key: &str, t: i64) -> (r:
    Result<KeyMap<ObservedState>, StoreError>)
    requires
        old(store).deep_view().wf(),
    ensures
        ({
            let out = observe_all(old(store).deep_view(), merged.deep_view(), net_key@, t);
            &&& final(store).deep_view() == out.0
            &&& match out.1 {
                Ok(s) => r is Ok && r.unwrap().deep_view() == s && keymap::keys_unique(s),
                Err(e) => r == Err::<KeyMap<ObservedState>, StoreError>(e),
            }
        }),
        final(store).deep_view().wf(),
{
    let ghost m = store.deep_view();
    let ghost all = merged.deep_view();
    let mut states: KeyMap<ObservedState> = KeyMap::new();
    let mut i: usize = 0;
    while i < merged.len()
        invariant
            i <= merged.len(),
            m == old(store).deep_view(),
            all == merged.deep_view(),
            store.deep_view().wf(),
            keymap::keys_unique(states.deep_view()),
            observe_all(m, all.take(i as int), net_key@, t) == (
                store.deep_view(),
                Ok::<Seq<(Seq<char>, ObservedModel)>, StoreError>(states.deep_view()),
            ),
        decreases merged.len() - i,
    {
        assert(all[i as int] == merged@[i as int].deep_view());
        assert(all.take(i + 1).drop_last() == all.take(i as int));
        assert(all.take(i + 1).last() == all[i as int]);
        match resolve_one(store, &merged[i], net_key, t) {
            Ok(o) => {
                let key = o.device_key.clone();
                states.insert(key, o);
            },
            Err(e) => {
                proof {
                    lemma_failure_stays(m, all, net_key@, t, i + 1);
                }
                return Err(e);
            },
        }
        i = i + 1;
    }
    assert(all.take(all.len() as int) == all);
    Ok(states)
}

// ----- which device an address belongs to -----

/// The condition of being seen at one of some addresses.
pub open spec fn seen_at_one_of(ips: Seq<Seq<char>>) -> spec_fn((Seq<char>, ObservedModel)) -> bool {
    |e: (Seq<char>, ObservedModel)| ips.contains(e.1.ip)
}

/// Addresses with their device, after some more were given to one.
pub open spec fn owned_by(
    map: Seq<(Seq<char>, Seq<char>)>,
    ips: Seq<Seq<char>>,
    key: Seq<char>,
) -> Seq<(Seq<char>, Seq<char>)>
    decreases ips.len(),
{
    if ips.len() == 0 {
        map
    } else {
        keymap::put(owned_by(map, ips.drop_last(), key), ips.last(), key)
    }
}

/// Which device each observed address belongs to: the one that was observed
/// at an address of the same merged device.
pub open spec fn owners(observed: Seq<(Seq<char>, ObservedModel)>, ds: Seq<DeviceModel>) -> Seq<
    (Seq<char>, Seq<char>),
>
    decreases ds.len(),
{
    if ds.len() == 0 {
        Seq::empty()
    } else {
        let rest = owners(observed, ds.drop_last());
        let ips = ds.last().ips;
        match seqs::first_where(observed, seen_at_one_of(ips)) {
            Some(i) => owned_by(rest, ips, observed[i].1.device_key),
            None => rest,
        }
    }
}

/// Find the device that was observed at one of some addresses.
fn find_owner(observed: &KeyMap<ObservedState>, ips: &Vec<String>) -> (r: Option<usize>)
    ensures
        match r {
            Some(i) => i < observed.entries@.len() && seqs::first_where(
                observed.deep_view(),
                seen_at_one_of(ips.deep_view()),
            ) == Some(i as int),
            None => seqs::first_where(
                observed.deep_view(),
                seen_at_one_of(ips.deep_view()),
            ) is None,
        },
{
    let ghost all = observed.deep_view();
    let ghost p = seen_at_one_of(ips.deep_view());
    let mut i: usize = 0;
    while i < observed.entries.len()
        invariant
            i <= observed.entries.len(),
            all == observed.deep_view(),
            p == seen_at_one_of(ips.deep_view()),
            forall|j: int| 0 <= j < i ==> !p(#[trigger] all[j]),
        decreases observed.entries.len() - i,
    {
        assert(all[i as int].1 == observed.entries@[i as int].1.deep_view());
        if contains_str(ips, observed.entries[i].1.ip.as_str()) {
            proof {
                assert(seqs::is_first(all, p, i as int));
                seqs::lemma_first_is(all, p, i as int);
            }
            return Some(i);
        }
        i = i + 1;
    }
    proof {
        seqs::lemma_first_none(all, p);
    }
    None
}

/// Work out which device each observed address belongs to.
pub fn address_owners(observed: &KeyMap<ObservedState>, merged: &Vec<ObservedDevice>) -> (r: KeyMap<
    String,
>)
    ensures
        r.deep_view() == owners(observed.deep_view(), merged.deep_view()),
{
    let ghost all = merged.deep_view();
    let ghost states = observed.deep_view();
    let mut out: KeyMap<String> = KeyMap::new();
    let mut i: usize = 0;
    while i < merged.len()
        invariant
            i <= merged.len(),
            all == merged.deep_view(),
            states == observed.deep_view(),
            out.deep_view() == owners(states, all.take(i as int)),
        decreases merged.len() - i,
    {
        let ips = &merged[i].ips;
        let ghost list = ips.deep_view();
        assert(all[i as int] == merged@[i as int].deep_view());
        assert(all.take(i + 1).drop_last() == all.take(i as int));
        assert(all.take(i + 1).last() == all[i as int]);
        if let Some(at) = find_owner(observed, ips) {
            let key = &observed.entries[at].1.device_key;
            let ghost rest = out.deep_view();
            assert(states[at as int].1.device_key == key@);
            let mut j: usize = 0;
            while j < ips.len()
                invariant
                    j <= ips.len(),
                    list == ips.deep_view(),
                    out.deep_view() == owned_by(rest, list.take(j as int), key@),
                decreases ips.len() - j,
            {
                assert(list[j as int] == ips@[j as int]@);
                assert(list.take(j + 1).drop_last() == list.take(j as int));
                out.insert(ips[j].clone(), key.clone());
                j = j + 1;
            }
            assert(list.take(list.len() as int) == list);
        }
        i = i + 1;
    }
    assert(all.take(all.len() as int) == all);
    out
}

// ----- the two together -----

/// A scan with its identities resolved and its differences worked out.
pub struct ResolvedScan {
    pub observed: KeyMap<ObservedState>,
    /// Which device each observed address belongs to, so raw observations can
    /// be recorded against the right device with their own provenance.
    pub ip_owner: KeyMap<String>,
    pub outcome: DiffOutcome,
}

/// What a [`ResolvedScan`] says.
#[verifier::ext_equal]
pub struct ResolvedModel {
    pub observed: Seq<(Seq<char>, ObservedModel)>,
    pub ip_owner: Seq<(Seq<char>, Seq<char>)>,
    pub outcome: OutcomeModel,
}

impl DeepView for ResolvedScan {
    type V = ResolvedModel;

    open spec fn deep_view(&self) -> ResolvedModel {
        ResolvedModel {
            observed: self.observed.deep_view(),
            ip_owner: self.ip_owner.deep_view(),
            outcome: self.outcome.deep_view(),
        }
    }
}

/// The store after a scan's devices were resolved, and the scan's differences
/// from the inventory as it was before, or why there are none.
pub open spec fn resolved_scan(
    m: StoreModel,
    ds: Seq<DeviceModel>,
    network: Seq<char>,
    provable: bool,
    grace: u32,
    t: i64,
) -> (StoreModel, Result<ResolvedModel, StoreError>) {
    let (after, states) = observe_all(m, ds, network, t);
    match states {
        Err(e) => (after, Err(e)),
        Ok(observed) => {
            let prior = remapped(after.aliases, prior_states(m, network));
            if diff::streaks_can_grow(prior, observed, provable) {
                (
                    after,
                    Ok(
                        ResolvedModel {
                            observed,
                            ip_owner: owners(observed, ds),
                            outcome: diff::diff_of(prior, observed, provable, grace),
                        },
                    ),
                )
            } else {
                (after, Err(StoreError::Range))
            }
        },
    }
}

/// Whether no streak that would be advanced is at the end of its range.
fn streaks_have_room(
    prior: &KeyMap<PriorState>,
    observed: &KeyMap<ObservedState>,
    provable: bool,
) -> (r: bool)
    ensures
        r == diff::streaks_can_grow(prior.deep_view(), observed.deep_view(), provable),
{
    let ghost all = prior.deep_view();
    let ghost states = observed.deep_view();
    let mut i: usize = 0;
    while i < prior.entries.len()
        invariant
            i <= prior.entries.len(),
            all == prior.deep_view(),
            states == observed.deep_view(),
            forall|k: int|
                0 <= k < i ==> (diff::missed((#[trigger] all[k]).0, all[k].1, states, provable)
                    ==> all[k].1.miss_streak < i64::MAX),
        decreases prior.entries.len() - i,
    {
        let (key, p) = &prior.entries[i];
        assert(all[i as int] == (key@, p.deep_view()));
        if provable && p.identity_stable && p.miss_streak == i64::MAX && !observed.contains_key(
            key.as_str(),
        ) {
            assert(diff::missed(all[i as int].0, all[i as int].1, states, provable));
            return false;
        }
        i = i + 1;
    }
    true
}

/// Resolve identities at a moment and diff them against the inventory.
pub fn resolve_and_diff_at(
    store: &mut Store,
    merged: &Vec<ObservedDevice>,
    net_key: &str,
    integrity: &ScanIntegrity,
    grace: u32,
    t: i64,
) -> (r: Result<ResolvedScan, StoreError>)
    requires
        old(store).deep_view().wf(),
    ensures
        ({
            let out = resolved_scan(
                old(store).deep_view(),
                merged.deep_view(),
                net_key@,
                integrity.deep_view().proves_absence(),
                grace,
                t,
            );
            &&& final(store).deep_view() == out.0
            &&& match out.1 {
                Ok(s) => r is Ok && r.unwrap().deep_view() == s,
                Err(e) => r == Err::<ResolvedScan, StoreError>(e),
            }
        }),
        final(store).deep_view().wf(),
{
    let before = match snapshot_prior(store, net_key) {
        Ok(p) => p,
        Err(e) => {
            return Err(e);
        },
    };
    let observed = match resolve_observed(store, merged, net_key, t) {
        Ok(o) => o,
        Err(e) => {
            return Err(e);
        },
    };
    let prior = match remap_prior_through_aliases(store, before) {
        Ok(p) => p,
        Err(e) => {
            return Err(e);
        },
    };
    if !streaks_have_room(&prior, &observed, integrity.may_prove_absence()) {
        return Err(StoreError::Range);
    }
    let outcome = compute_diff(prior, &observed, integrity, grace);
    let ip_owner = address_owners(&observed, merged);
    Ok(ResolvedScan { observed, ip_owner, outcome })
}

/// [`resolve_and_diff_at`] the present moment.
pub fn resolve_and_diff(
    store: &mut Store,
    merged: &Vec<ObservedDevice>,
    net_key: &str,
    integrity: &ScanIntegrity,
    grace: u32,
) -> (r: Result<ResolvedScan, StoreError>)
    requires
        old(store).deep_view().wf(),
    ensures
        exists|t: i64|
            ({
                let out = #[trigger] resolved_scan(
                    old(store).deep_view(),
                    merged.deep_view(),
                    net_key@,
                    integrity.deep_view().proves_absence(),
                    grace,
                    t,
                );
                &&& final(store).deep_view() == out.0
                &&& match out.1 {
                    Ok(s) => r is Ok && r.unwrap().deep_view() == s,
                    Err(e) => r == Err::<ResolvedScan, StoreError>(e),
                }
            }),
        final(store).deep_view().wf(),
{
    resolve_and_diff_at(store, merged, net_key, integrity, grace, now())
}

// ----- what resolving keeps -----

/// Resolving one device touches neither scans nor networks nor settings, and
/// drops nothing that was recorded.
proof fn lemma_one_keeps(m: StoreModel, d: DeviceModel, network: Seq<char>, t: i64)
    ensures
        keeps_records(m, observe_one(m, d, network, t).0),
{
}

/// Scans, networks and settings are the same, and as much was recorded.
pub open spec fn keeps_records(m: StoreModel, n: StoreModel) -> bool {
    &&& n.scans == m.scans
    &&& n.networks == m.networks
    &&& n.settings == m.settings
    &&& n.scan_seq == m.scan_seq
    &&& n.transition_seq == m.transition_seq
    &&& n.observations.len() == m.observations.len()
    &&& n.transitions.len() == m.transitions.len()
    &&& n.presence.len() == m.presence.len()
}

/// Resolving identities leaves what was recorded where it is: scans, networks
/// and settings stay the same, and no observation, transition or presence is
/// dropped or added, whether it succeeds or not.
pub proof fn law_resolving_keeps_records(
    m: StoreModel,
    ds: Seq<DeviceModel>,
    network: Seq<char>,
    t: i64,
)
    ensures
        keeps_records(m, observe_all(m, ds, network, t).0),
    decreases ds.len(),
{
    if ds.len() > 0 {
        law_resolving_keeps_records(m, ds.drop_last(), network, t);
        let (before, so_far) = observe_all(m, ds.drop_last(), network, t);
        if so_far is Ok {
            lemma_one_keeps(before, ds.last(), network, t);
        }
    }
}

/// A re-pointed snapshot has each device once, under a key that is nobody's
/// alias any more where aliases are flat.
pub proof fn law_remapped_keys_are_present(
    aliases: Seq<crate::store::rows::AliasRecord>,
    prior: Seq<(Seq<char>, PriorModel)>,
)
    requires
        alias::flat(aliases),
    ensures
        keymap::keys_unique(remapped(aliases, prior)),
        forall|i: int|
            0 <= i < remapped(aliases, prior).len() ==> alias::resolved(
                aliases,
                (#[trigger] remapped(aliases, prior)[i]).0,
            ) == remapped(aliases, prior)[i].0,
        remapped(aliases, prior).len() <= prior.len(),
    decreases prior.len(),
{
    if prior.len() > 0 {
        law_remapped_keys_are_present(aliases, prior.drop_last());
        let rest = remapped(aliases, prior.drop_last());
        let e = prior.last();
        let c = alias::resolved(aliases, e.0);
        let all = remapped(aliases, prior);
        alias::law_flat_resolves(aliases, e.0);
        keymap::lemma_key_index(rest, c);
        keymap::lemma_put(rest, c, PriorModel { device_key: c, ..e.1 });
        assert forall|i: int| 0 <= i < all.len() implies alias::resolved(
            aliases,
            (#[trigger] all[i]).0,
        ) == all[i].0 by {
            if i < rest.len() {
                assert(all[i].0 == rest[i].0);
            }
        }
    }
}

/// Merging two old identities never makes an absence longer: a device's
/// streak in the re-pointed snapshot is at most that of every identity it had.
pub proof fn law_merging_never_lengthens(
    aliases: Seq<crate::store::rows::AliasRecord>,
    prior: Seq<(Seq<char>, PriorModel)>,
    i: int,
)
    requires
        0 <= i < prior.len(),
    ensures
        ({
            let c = alias::resolved(aliases, prior[i].0);
            let now = keymap::lookup(remapped(aliases, prior), c);
            now is Some && now.unwrap().miss_streak <= prior[i].1.miss_streak
        }),
    decreases prior.len(),
{
    lemma_remapped_unique(aliases, prior.drop_last());
    let rest = remapped(aliases, prior.drop_last());
    let e = prior.last();
    let c = alias::resolved(aliases, e.0);
    let moved = PriorModel { device_key: c, ..e.1 };
    keymap::lemma_put(rest, c, moved);
    let ci = alias::resolved(aliases, prior[i].0);
    if i < prior.len() - 1 {
        law_merging_never_lengthens(aliases, prior.drop_last(), i);
        assert(prior.drop_last()[i] == prior[i]);
        if ci != c {
            assert(keymap::lookup(keymap::put(rest, c, moved), ci) == keymap::lookup(rest, ci));
        }
    }
}

/// A re-pointed snapshot has each key once.
pub proof fn lemma_remapped_unique(
    aliases: Seq<crate::store::rows::AliasRecord>,
    prior: Seq<(Seq<char>, PriorModel)>,
)
    ensures
        keymap::keys_unique(remapped(aliases, prior)),
    decreases prior.len(),
{
    if prior.len() > 0 {
        lemma_remapped_unique(aliases, prior.drop_last());
        let c = alias::resolved(aliases, prior.last().0);
        keymap::lemma_put(
            remapped(aliases, prior.drop_last()),
            c,
            PriorModel { device_key: c, ..prior.last().1 },
        );
    }
}

/// Nothing stands under a key in a re-pointed snapshot that no identity has
/// come to.
proof fn lemma_remapped_absent(
    aliases: Seq<crate::store::rows::AliasRecord>,
    prior: Seq<(Seq<char>, PriorModel)>,
    c: Seq<char>,
)
    requires
        forall|j: int|
            0 <= j < prior.len() ==> alias::resolved(aliases, (#[trigger] prior[j]).0) != c,
    ensures
        keymap::lookup(remapped(aliases, prior), c) is None,
    decreases prior.len(),
{
    if prior.len() > 0 {
        let init = prior.drop_last();
        assert forall|j: int| 0 <= j < init.len() implies alias::resolved(
            aliases,
            (#[trigger] init[j]).0,
        ) != c by {
            assert(init[j] == prior[j]);
        }
        lemma_remapped_absent(aliases, init, c);
        lemma_remapped_unique(aliases, init);
        let e = prior.last();
        assert(e == prior[prior.len() - 1]);
        let k = alias::resolved(aliases, e.0);
        keymap::lemma_put(remapped(aliases, init), k, PriorModel { device_key: k, ..e.1 });
    } else {
        keymap::lemma_key_index(remapped(aliases, prior), c);
    }
}

/// An identity that was merged with no other stands in the re-pointed snapshot
/// as it stood before, under its present key.
pub proof fn law_sole_identity_is_kept(
    aliases: Seq<crate::store::rows::AliasRecord>,
    prior: Seq<(Seq<char>, PriorModel)>,
    i: int,
)
    requires
        0 <= i < prior.len(),
        forall|j: int|
            0 <= j < prior.len() && j != i ==> alias::resolved(aliases, (#[trigger] prior[j]).0)
                != alias::resolved(aliases, prior[i].0),
    ensures
        ({
            let c = alias::resolved(aliases, prior[i].0);
            keymap::lookup(remapped(aliases, prior), c) == Some(
                PriorModel { device_key: c, ..prior[i].1 },
            )
        }),
    decreases prior.len(),
{
    let c = alias::resolved(aliases, prior[i].0);
    let init = prior.drop_last();
    let e = prior.last();
    let k = alias::resolved(aliases, e.0);
    lemma_remapped_unique(aliases, init);
    keymap::lemma_put(remapped(aliases, init), k, PriorModel { device_key: k, ..e.1 });
    if i == prior.len() - 1 {
        assert forall|j: int| 0 <= j < init.len() implies alias::resolved(
            aliases,
            (#[trigger] init[j]).0,
        ) != c by {
            assert(init[j] == prior[j]);
        }
        lemma_remapped_absent(aliases, init, c);
    } else {
        assert(init[i] == prior[i]);
        assert forall|j: int| 0 <= j < init.len() && j != i implies alias::resolved(
            aliases,
            (#[trigger] init[j]).0,
        ) != c by {
            assert(init[j] == prior[j]);
        }
        law_sole_identity_is_kept(aliases, init, i);
        assert(e == prior[prior.len() - 1]);
        assert(k != c);
    }
}

/// Every device that was recognised stood under its present key when it was,
/// not under one that is the alias of another.
pub open spec fn found_under_present_keys(
    m: StoreModel,
    ds: Seq<DeviceModel>,
    network: Seq<char>,
    t: i64,
) -> bool
    decreases ds.len(),
{
    ds.len() == 0 || {
        let before = observe_all(m, ds.drop_last(), network, t).0;
        &&& found_under_present_keys(m, ds.drop_last(), network, t)
        &&& match merge::identity_of(before, ds.last(), network) {
            ResolutionModel::Existing(e) => alias::alias_target(before.aliases, e.key) is None,
            ResolutionModel::New(_) => true,
        }
    }
}

/// The names that the user gave read the same after as before.
pub open spec fn keeps_names(m: StoreModel, n: StoreModel) -> bool {
    forall|key: Seq<char>|
        names::user_name_of(m, key) is Some ==> #[trigger] names::user_name_of(n, key)
            == names::user_name_of(m, key)
}

/// Resolving one device keeps the names that the user gave.
proof fn lemma_one_keeps_names(m: StoreModel, d: DeviceModel, network: Seq<char>, t: i64)
    requires
        alias::orderly(m),
        observe_one(m, d, network, t).1 is Ok,
        match merge::identity_of(m, d, network) {
            ResolutionModel::Existing(e) => alias::alias_target(m.aliases, e.key) is None,
            ResolutionModel::New(_) => true,
        },
    ensures
        alias::orderly(observe_one(m, d, network, t).0),
        keeps_names(m, observe_one(m, d, network, t).0),
{
    let after = observe_one(m, d, network, t).0;
    match merge::identity_of(m, d, network) {
        ResolutionModel::Existing(e) => {
            let key = merge::refingerprint_key(e, d);
            if key != e.key {
                let known = devices::device_recorded(
                    m,
                    key,
                    merge::first_of(d.name, e.primary_name),
                    merge::first_of(d.mac, e.mac),
                    merge::first_of(d.vendor, e.vendor),
                    e.origin_network,
                    t,
                );
                let moved = alias::aliased(known, e.key, key, t).0;
                alias::law_alias_keeps_the_names(known, e.key, key, t);
                assert forall|k: Seq<char>|
                    names::user_name_of(m, k) is Some implies #[trigger] names::user_name_of(
                    after,
                    k,
                ) == names::user_name_of(m, k) by {
                    assert(names::user_name_of(known, k) == names::user_name_of(m, k));
                    assert(names::user_name_of(after, k) == names::user_name_of(moved, k));
                }
            }
        },
        ResolutionModel::New(_) => {},
    }
}

/// A device keeps the name the user gave it through the resolving of a whole
/// scan, under every key it was known by.
pub proof fn law_resolving_keeps_the_names(
    m: StoreModel,
    ds: Seq<DeviceModel>,
    network: Seq<char>,
    t: i64,
)
    requires
        alias::orderly(m),
        observe_all(m, ds, network, t).1 is Ok,
        found_under_present_keys(m, ds, network, t),
    ensures
        alias::orderly(observe_all(m, ds, network, t).0),
        keeps_names(m, observe_all(m, ds, network, t).0),
    decreases ds.len(),
{
    if ds.len() > 0 {
        law_resolving_keeps_the_names(m, ds.drop_last(), network, t);
        let before = observe_all(m, ds.drop_last(), network, t).0;
        let after = observe_all(m, ds, network, t).0;
        lemma_one_keeps_names(before, ds.last(), network, t);
        assert forall|k: Seq<char>|
            names::user_name_of(m, k) is Some implies #[trigger] names::user_name_of(after, k)
            == names::user_name_of(m, k) by {
            assert(names::user_name_of(before, k) == names::user_name_of(m, k));
        }
    }
}

/// The snapshot has an entry for each presence on the network, in their order,
/// under the device's key. The address, the streak and the announcement are
/// those of the presence; the name and the MAC are those of the device's row.
pub proof fn law_snapshot_is_what_is_on_record(m: StoreModel, network: Seq<char>)
    requires
        m.wf(),
    ensures
        ({
            let prior = prior_states(m, network);
            let rows = m.presence.filter(|p: PresenceRecord| p.network_key == network);
            &&& prior.len() == rows.len()
            &&& forall|i: int|
                0 <= i < rows.len() ==> {
                    let s = (#[trigger] prior[i]).1;
                    &&& prior[i].0 == rows[i].device_key
                    &&& s.device_key == rows[i].device_key
                    &&& s.last_ip == rows[i].last_ip
                    &&& s.miss_streak == rows[i].miss_streak
                    &&& s.reported_gone == rows[i].reported_gone
                    &&& s.identity_stable == identity::stable(s.last_hostname, s.last_mac)
                    &&& s.display_name == display::display_of(
                        names::just_name(names::user_name_of(m, rows[i].device_key)),
                        s.last_hostname,
                        s.last_mac,
                        rows[i].last_ip,
                        rows[i].device_key,
                    )
                    &&& forall|j: int|
                        0 <= j < m.devices.len() && (#[trigger] m.devices[j]).key
                            == alias::resolved(m.aliases, rows[i].device_key)
                            ==> s.last_hostname == m.devices[j].primary_name && s.last_mac
                            == m.devices[j].mac
                }
        }),
{
    assert(networks::on_network(network) =~= (|p: PresenceRecord| p.network_key == network));
    let prior = prior_states(m, network);
    let rows = m.presence.filter(|p: PresenceRecord| p.network_key == network);
    assert forall|i: int, j: int|
        0 <= i < rows.len() && 0 <= j < m.devices.len() && (#[trigger] m.devices[j]).key
            == alias::resolved(m.aliases, (#[trigger] rows[i]).device_key) implies prior[i].1.last_hostname
        == m.devices[j].primary_name && prior[i].1.last_mac == m.devices[j].mac by {
        crate::store::rows::lemma_row_found::<crate::store::rows::DeviceRow>(m.devices, j);
    }
}

/// What an observed device is reported as: it stands at the first of its
/// addresses, with the name and the MAC that it showed, and its identity is
/// stable by what it showed or by what was known of it.
pub proof fn law_device_is_observed_as_it_showed(
    m: StoreModel,
    d: DeviceModel,
    network: Seq<char>,
    t: i64,
)
    requires
        observe_one(m, d, network, t).1 is Ok,
    ensures
        ({
            let o = observe_one(m, d, network, t).1->Ok_0;
            &&& d.ips.len() > 0 ==> o.ip == d.ips[0]
            &&& o.hostname == d.name
            &&& o.mac == d.mac
            &&& o.display_name == display::display_of(
                names::just_name(
                    names::user_name_of(observe_one(m, d, network, t).0, o.device_key),
                ),
                d.name,
                d.mac,
                Some(o.ip),
                o.device_key,
            )
            &&& match merge::identity_of(m, d, network) {
                ResolutionModel::Existing(e) => {
                    &&& o.device_key == merge::refingerprint_key(e, d)
                    &&& o.identity_stable == identity::stable(
                        if d.name is Some {
                            d.name
                        } else {
                            e.primary_name
                        },
                        if d.mac is Some {
                            d.mac
                        } else {
                            e.mac
                        },
                    )
                },
                ResolutionModel::New(key) => {
                    &&& o.device_key == key
                    &&& o.identity_stable == identity::stable(d.name, d.mac)
                },
            }
        }),
{
}

/// What seeing a known device leaves on record of it: what it showed replaces
/// what was known, and what it did not show stays.
pub proof fn law_known_device_is_brought_up_to_date(
    m: StoreModel,
    e: DeviceRecord,
    d: DeviceModel,
    network: Seq<char>,
    t: i64,
    i: int,
)
    requires
        m.wf(),
        merge::identity_of(m, d, network) == ResolutionModel::Existing(e),
        merge::refingerprint_key(e, d) == e.key,
        0 <= i < m.devices.len(),
        m.devices[i] == e,
    ensures
        ({
            let n = observe_one(m, d, network, t).0;
            let now = n.devices[i];
            &&& observe_one(m, d, network, t).1 is Ok
            &&& n == (StoreModel { devices: n.devices, ..m })
            &&& n.devices.len() == m.devices.len()
            &&& forall|j: int| 0 <= j < n.devices.len() && j != i ==> #[trigger] n.devices[j]
                == m.devices[j]
            &&& now.id == e.id
            &&& now.key == e.key
            &&& now.origin_network == e.origin_network
            &&& now.first_seen == e.first_seen
            &&& now.last_seen == t
            &&& now.primary_name == if d.name is Some {
                d.name
            } else {
                e.primary_name
            }
            &&& now.mac == if d.mac is Some {
                d.mac
            } else {
                e.mac
            }
            &&& now.vendor == if d.vendor is Some {
                d.vendor
            } else {
                e.vendor
            }
        }),
{
    devices::law_update_replaces_what_is_given(
        m.devices,
        i,
        d.name,
        merge::first_of(d.mac, e.mac),
        merge::first_of(d.vendor, e.vendor),
        t,
    );
}

/// What seeing an unknown device leaves on record of it: a row with what it
/// showed, under the key of its identity.
pub proof fn law_unknown_device_is_recorded(
    m: StoreModel,
    key: Seq<char>,
    d: DeviceModel,
    network: Seq<char>,
    t: i64,
)
    requires
        m.wf(),
        m.device_seq < i64::MAX,
        merge::identity_of(m, d, network) == ResolutionModel::New(key),
        forall|i: int| 0 <= i < m.devices.len() ==> (#[trigger] m.devices[i]).key != key,
    ensures
        ({
            let n = observe_one(m, d, network, t).0;
            let now = n.devices.last();
            &&& observe_one(m, d, network, t).1 is Ok
            &&& n.devices.drop_last() == m.devices
            &&& now.key == key
            &&& now.primary_name == d.name
            &&& now.mac == d.mac
            &&& now.vendor == d.vendor
            &&& now.origin_network == network
            &&& now.first_seen == t
            &&& now.last_seen == t
        }),
{
    devices::law_new_device_is_recorded(m, key, d.name, d.mac, d.vendor, network, t);
    crate::store::rows::lemma_row_index::<crate::store::rows::DeviceRow>(m.devices, key);
}

/// The devices that a scan observed are each under their own key, once.
proof fn lemma_observed_well_keyed(m: StoreModel, ds: Seq<DeviceModel>, network: Seq<char>, t: i64)
    requires
        observe_all(m, ds, network, t).1 is Ok,
    ensures
        diff::well_keyed(observe_all(m, ds, network, t).1->Ok_0),
    decreases ds.len(),
{
    if ds.len() > 0 {
        let init = ds.drop_last();
        lemma_observed_well_keyed(m, init, network, t);
        let (before, so_far) = observe_all(m, init, network, t);
        let states = so_far->Ok_0;
        let o = observe_one(before, ds.last(), network, t).1->Ok_0;
        keymap::lemma_put(states, o.device_key, o);
        keymap::lemma_key_index(states, o.device_key);
        let all = keymap::put(states, o.device_key, o);
        assert forall|a: int| 0 <= a < all.len() implies (#[trigger] all[a]).0
            == all[a].1.device_key by {
            if a < states.len() && all[a] != (o.device_key, o) {
                assert(all[a] == states[a]);
            }
        }
    }
}

/// Every device that a scan's evidence came to is among those observed, under
/// the key that it was resolved to; and each of those observed is one of them,
/// with its first address, its name and its MAC.
pub proof fn law_every_device_is_observed(
    m: StoreModel,
    ds: Seq<DeviceModel>,
    network: Seq<char>,
    t: i64,
)
    requires
        observe_all(m, ds, network, t).1 is Ok,
    ensures
        ({
            let states = observe_all(m, ds, network, t).1->Ok_0;
            &&& forall|i: int|
                0 <= i < ds.len() ==> {
                    let o = observe_one(
                        observe_all(m, #[trigger] ds.take(i), network, t).0,
                        ds[i],
                        network,
                        t,
                    ).1;
                    o is Ok && keymap::has_key(states, o->Ok_0.device_key)
                }
            &&& forall|a: int|
                0 <= a < states.len() ==> exists|i: int|
                    0 <= i < ds.len() && (#[trigger] states[a]).1.ip == first_ip(
                        #[trigger] ds[i],
                    ) && states[a].1.hostname == ds[i].name && states[a].1.mac == ds[i].mac
        }),
    decreases ds.len(),
{
    if ds.len() > 0 {
        let init = ds.drop_last();
        let n = init.len() as int;
        law_every_device_is_observed(m, init, network, t);
        lemma_observed_well_keyed(m, init, network, t);
        let (before, so_far) = observe_all(m, init, network, t);
        let states = so_far->Ok_0;
        let one = observe_one(before, ds.last(), network, t).1->Ok_0;
        keymap::lemma_put(states, one.device_key, one);
        keymap::lemma_key_index(states, one.device_key);
        let all = keymap::put(states, one.device_key, one);
        assert(ds.take(n) =~= init);
        assert forall|i: int| 0 <= i < ds.len() implies {
            let o = observe_one(
                observe_all(m, #[trigger] ds.take(i), network, t).0,
                ds[i],
                network,
                t,
            ).1;
            o is Ok && keymap::has_key(all, o->Ok_0.device_key)
        } by {
            if i < n {
                assert(ds.take(i) =~= init.take(i));
                let o = observe_one(observe_all(m, init.take(i), network, t).0, init[i], network, t).1;
                assert(o is Ok && keymap::has_key(states, o->Ok_0.device_key));
                let k = o->Ok_0.device_key;
                keymap::lemma_key_index(states, k);
                if k != one.device_key {
                    assert(keymap::lookup(all, k) == keymap::lookup(states, k));
                }
            }
        }
        assert forall|a: int| 0 <= a < all.len() implies exists|i: int|
            0 <= i < ds.len() && (#[trigger] all[a]).1.ip == first_ip(#[trigger] ds[i])
                && all[a].1.hostname == ds[i].name && all[a].1.mac == ds[i].mac by {
            if all[a] == (one.device_key, one) {
                assert(ds[n] == ds.last());
                assert(all[a].1.ip == first_ip(ds[n]));
            } else {
                assert(all[a] == states[a]);
                let i = choose|i: int|
                    0 <= i < init.len() && states[a].1.ip == first_ip(#[trigger] init[i])
                        && states[a].1.hostname == init[i].name && states[a].1.mac == init[i].mac;
                assert(ds[i] == init[i]);
            }
        }
    }
}

/// A filter keeps no value more often than it is there.
proof fn lemma_filter_distinct<A>(s: Seq<A>, p: spec_fn(A) -> bool)
    requires
        s.no_duplicates(),
    ensures
        s.filter(p).no_duplicates(),
    decreases s.len(),
{
    reveal(Seq::filter);
    if s.len() > 0 {
        let init = s.drop_last();
        lemma_filter_distinct(init, p);
        let kept = init.filter(p);
        assert forall|i: int| 0 <= i < kept.len() implies #[trigger] kept[i] != s.last() by {
            assert(kept.contains(kept[i]));
            seqs::lemma_filter_contains(init, p, kept[i]);
            let k = choose|k: int| 0 <= k < init.len() && init[k] == kept[i];
            assert(s[k] == kept[i]);
            assert(s[s.len() - 1] == s.last());
        }
    }
}

/// A scan is compared with the inventory as it was before the scan: a device
/// on record that is seen at another address than the one on record is reported
/// as changed, from the address on record to the one seen; and one whose
/// absence had been announced is reported as returned. This holds whatever
/// resolving the scan has written meanwhile.
pub proof fn law_scan_is_compared_with_the_record_before(
    m: StoreModel,
    ds: Seq<DeviceModel>,
    network: Seq<char>,
    integrity: diff::IntegrityModel,
    grace: u32,
    t: i64,
    i: int,
    k: int,
)
    requires
        m.wf(),
        resolved_scan(m, ds, network, integrity.proves_absence(), grace, t).1 is Ok,
        0 <= i < m.presence.len(),
        m.presence[i].network_key == network,
        ({
            let (n, r) = resolved_scan(m, ds, network, integrity.proves_absence(), grace, t);
            let c = alias::resolved(n.aliases, m.presence[i].device_key);
            &&& 0 <= k < r->Ok_0.observed.len()
            &&& r->Ok_0.observed[k].0 == c
            &&& forall|j: int|
                0 <= j < m.presence.len() && j != i && (#[trigger] m.presence[j]).network_key
                    == network ==> alias::resolved(n.aliases, m.presence[j].device_key) != c
        }),
    ensures
        ({
            let r = resolved_scan(m, ds, network, integrity.proves_absence(), grace, t).1->Ok_0;
            let o = r.observed[k].1;
            let p = m.presence[i];
            &&& o.ip.len() > 0 && p.last_ip != Some(o.ip) ==> exists|x: int|
                0 <= x < r.outcome.transitions.len() && (
                #[trigger] r.outcome.transitions[x]).device_key == o.device_key
                    && r.outcome.transitions[x].kind == crate::model::TransitionKind::Changed
                    && r.outcome.transitions[x].changes.contains(
                    crate::model::ChangeModel { field: "ip"@, from: p.last_ip, to: Some(o.ip) },
                )
            &&& p.reported_gone ==> exists|x: int|
                0 <= x < r.outcome.transitions.len() && (
                #[trigger] r.outcome.transitions[x]).device_key == o.device_key
                    && r.outcome.transitions[x].kind == crate::model::TransitionKind::Returned
        }),
{
    let provable = integrity.proves_absence();
    let (n, res) = resolved_scan(m, ds, network, provable, grace, t);
    let r = res->Ok_0;
    let p = m.presence[i];
    let c = alias::resolved(n.aliases, p.device_key);
    let on = networks::on_network(network);
    let rows = m.presence.filter(on);
    let prior0 = prior_states(m, network);
    assert(m.presence.no_duplicates()) by {
        assert forall|a: int, b: int|
            0 <= a < m.presence.len() && 0 <= b < m.presence.len() && a != b implies m.presence[a]
            != m.presence[b] by {
            let (x, y) = if a < b {
                (a, b)
            } else {
                (b, a)
            };
            assert(m.presence[x].device_key != m.presence[y].device_key
                || m.presence[x].network_key != m.presence[y].network_key);
        }
    }
    lemma_filter_distinct(m.presence, on);
    seqs::lemma_filter_contains(m.presence, on, p);
    assert(m.presence.contains(p));
    assert(on(p));
    let a = choose|a: int| 0 <= a < rows.len() && rows[a] == p;
    assert forall|b: int| 0 <= b < prior0.len() && b != a implies alias::resolved(
        n.aliases,
        (#[trigger] prior0[b]).0,
    ) != alias::resolved(n.aliases, prior0[a].0) by {
        assert(rows.contains(rows[b]));
        seqs::lemma_filter_contains(m.presence, on, rows[b]);
        let j = choose|j: int| 0 <= j < m.presence.len() && m.presence[j] == rows[b];
        assert(rows[b] != rows[a]);
        assert(j != i);
        assert(m.presence[j].network_key == network);
    }
    law_sole_identity_is_kept(n.aliases, prior0, a);
    lemma_remapped_unique(n.aliases, prior0);
    let prior = remapped(n.aliases, prior0);
    keymap::lemma_key_index(prior, c);
    let j = keymap::key_index(prior, c).unwrap();
    lemma_observed_well_keyed(m, ds, network, t);
    diff::law_known_device_changes_and_returns(prior, r.observed, integrity, grace, k, j);
    let o = r.observed[k].1;
    let about = |x: crate::model::TransitionModel| x.device_key == o.device_key;
    let all = r.outcome.transitions;
    let said = all.filter(about);
    assert forall|x: int| 0 <= x < said.len() implies all.contains(#[trigger] said[x])
        && said[x].device_key == o.device_key by {
        assert(said.contains(said[x]));
        seqs::lemma_filter_contains(all, about, said[x]);
    }
    let st = prior[j].1;
    assert(st.last_ip == p.last_ip && st.reported_gone == p.reported_gone);
    if o.ip.len() > 0 && p.last_ip != Some(o.ip) {
        assert(all.contains(said[0]));
        let x = choose|x: int| 0 <= x < all.len() && all[x] == said[0];
        assert(all[x].device_key == o.device_key);
    }
    if p.reported_gone {
        let last = said.len() - 1;
        assert(all.contains(said[last]));
        let x = choose|x: int| 0 <= x < all.len() && all[x] == said[last];
        assert(all[x].device_key == o.device_key);
    }
}

/// What giving addresses to a device leaves: those addresses are its own, and
/// every other is whose it was.
proof fn lemma_owned_by(
    map: Seq<(Seq<char>, Seq<char>)>,
    ips: Seq<Seq<char>>,
    key: Seq<char>,
    ip: Seq<char>,
)
    requires
        keymap::keys_unique(map),
    ensures
        keymap::keys_unique(owned_by(map, ips, key)),
        keymap::lookup(owned_by(map, ips, key), ip) == if ips.contains(ip) {
            Some(key)
        } else {
            keymap::lookup(map, ip)
        },
    decreases ips.len(),
{
    if ips.len() > 0 {
        let init = ips.drop_last();
        lemma_owned_by(map, init, key, ip);
        keymap::lemma_put(owned_by(map, init, key), ips.last(), key);
        assert(init.push(ips.last()) == ips);
        crate::text::lemma_push_contains(init, ips.last());
        assert(ips.contains(ip) <==> init.contains(ip) || ip == ips.last());
    }
}

/// Whose an address is: a device that was observed at one of the addresses
/// that belong together with it. An address that belongs to no device that was
/// observed is nobody's.
pub proof fn law_address_belongs_to_its_device(
    observed: Seq<(Seq<char>, ObservedModel)>,
    ds: Seq<DeviceModel>,
    ip: Seq<char>,
)
    ensures
        keymap::keys_unique(owners(observed, ds)),
        match keymap::lookup(owners(observed, ds), ip) {
            Some(key) => exists|i: int, a: int|
                0 <= i < ds.len() && 0 <= a < observed.len() && (#[trigger] ds[i]).ips.contains(ip)
                    && ds[i].ips.contains((#[trigger] observed[a]).1.ip)
                    && observed[a].1.device_key == key,
            None => forall|i: int, a: int|
                0 <= i < ds.len() && 0 <= a < observed.len() && (#[trigger] ds[i]).ips.contains(ip)
                    ==> !ds[i].ips.contains((#[trigger] observed[a]).1.ip),
        },
    decreases ds.len(),
{
    if ds.len() > 0 {
        let init = ds.drop_last();
        let ips = ds.last().ips;
        let rest = owners(observed, init);
        law_address_belongs_to_its_device(observed, init, ip);
        let p = seen_at_one_of(ips);
        seqs::lemma_first_found(observed, p);
        match seqs::first_where(observed, p) {
            Some(a) => {
                lemma_owned_by(rest, ips, observed[a].1.device_key, ip);
                assert(p(observed[a]));
            },
            None => {
                assert forall|a: int| 0 <= a < observed.len() implies !ips.contains(
                    (#[trigger] observed[a]).1.ip,
                ) by {
                    assert(!p(observed[a]));
                }
            },
        }
        match keymap::lookup(owners(observed, ds), ip) {
            Some(key) => {
                if ips.contains(ip) && seqs::first_where(observed, p) is Some {
                    let a = seqs::first_where(observed, p).unwrap();
                    assert(ds[ds.len() - 1].ips.contains(ip));
                    assert(ds[ds.len() - 1].ips.contains(observed[a].1.ip));
                } else {
                    let (i, a) = choose|i: int, a: int|
                        0 <= i < init.len() && 0 <= a < observed.len() && (
                        #[trigger] init[i]).ips.contains(ip) && init[i].ips.contains(
                            (#[trigger] observed[a]).1.ip,
                        ) && observed[a].1.device_key == key;
                    assert(ds[i] == init[i]);
                    assert(ds[i].ips.contains(observed[a].1.ip));
                }
            },
            None => {
                assert forall|i: int, a: int|
                    0 <= i < ds.len() && 0 <= a < observed.len() && (#[trigger] ds[i]).ips.contains(
                        ip,
                    ) implies !ds[i].ips.contains((#[trigger] observed[a]).1.ip) by {
                    if i < init.len() {
                        assert(ds[i] == init[i]);
                    }
                }
            },
        }
    }
}

} // verus!
