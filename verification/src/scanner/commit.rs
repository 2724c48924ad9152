//! Put a finished scan on record: the scan itself, what it observed, the
//! transitions, and the presence of devices, all or nothing.

use vstd::prelude::*;
use vstd::string::*;

use crate::diff::ObservedModel;
use crate::keymap;
use crate::keymap::KeyMap;
use crate::model::{Observation, ObservationModel, PartialReason, Transition, TransitionModel};
use crate::scanner::resolve::{ResolvedModel, ResolvedScan};
use crate::store::rows::{ObservationRecord, PresenceRecord, TransitionRecord};
use crate::store::{presence, scans, Store, StoreError, StoreModel, Transaction};
use crate::text::as_opt_str;

verus! {

/// What a scan says of itself.
#[derive(Debug)]
pub struct ScanHeader {
    pub started_at: i64,
    pub finished_at: i64,
    pub network_key: String,
    pub partial: bool,
    pub privilege_json: String,
    pub strategies_json: String,
    pub partial_reasons: Vec<PartialReason>,
    pub stats_json: String,
}

/// What a [`ScanHeader`] says.
#[verifier::ext_equal]
pub struct HeaderModel {
    pub started_at: i64,
    pub finished_at: i64,
    pub network_key: Seq<char>,
    pub partial: bool,
    pub privilege_json: Seq<char>,
    pub strategies_json: Seq<char>,
    pub partial_reasons: Seq<crate::model::ReasonModel>,
    pub stats_json: Seq<char>,
}

impl DeepView for ScanHeader {
    type V = HeaderModel;

    open spec fn deep_view(&self) -> HeaderModel {
        HeaderModel {
            started_at: self.started_at,
            finished_at: self.finished_at,
            network_key: self.network_key@,
            partial: self.partial,
            privilege_json: self.privilege_json@,
            strategies_json: self.strategies_json@,
            partial_reasons: self.partial_reasons.deep_view(),
            stats_json: self.stats_json@,
        }
    }
}

// ----- what is recorded -----

/// The name that an observation carries.
pub open spec fn observed_name(o: ObservationModel) -> Option<Seq<char>> {
    match o.name {
        Some(n) => Some(n.1),
        None => None,
    }
}

/// The rows for raw observations: one for each whose address belongs to a
/// device, keeping which strategy saw what.
pub open spec fn observation_rows(
    obs: Seq<ObservationModel>,
    ip_owner: Seq<(Seq<char>, Seq<char>)>,
    scan_id: i64,
    at: i64,
) -> Seq<ObservationRecord>
    decreases obs.len(),
{
    if obs.len() == 0 {
        Seq::empty()
    } else {
        let rest = observation_rows(obs.drop_last(), ip_owner, scan_id, at);
        let o = obs.last();
        match keymap::lookup(ip_owner, o.ip) {
            Some(key) => rest.push(
                ObservationRecord {
                    scan_id,
                    at,
                    device_key: key,
                    ip: o.ip,
                    mac: o.mac,
                    hostname: observed_name(o),
                    source: o.source,
                    confidence: o.confidence,
                },
            ),
            None => rest,
        }
    }
}

/// The rows for transitions, with the ids that follow the last one given.
pub open spec fn transition_rows(
    ts: Seq<TransitionModel>,
    scan_id: i64,
    at: i64,
    network: Seq<char>,
    last_id: int,
) -> Seq<TransitionRecord> {
    Seq::new(
        ts.len(),
        |i: int|
            TransitionRecord {
                id: (last_id + 1 + i) as i64,
                scan_id,
                at,
                device_key: ts[i].device_key,
                network_key: network,
                kind: ts[i].kind,
                changes: ts[i].changes,
            },
    )
}

/// The address a device was observed at.
pub open spec fn address_of(observed: Seq<(Seq<char>, ObservedModel)>, key: Seq<char>) -> Option<
    Seq<char>,
> {
    match keymap::lookup(observed, key) {
        Some(o) => Some(o.ip),
        None => None,
    }
}

/// Presence after devices were seen.
pub open spec fn all_seen(
    s: Seq<PresenceRecord>,
    keys: Seq<Seq<char>>,
    observed: Seq<(Seq<char>, ObservedModel)>,
    network: Seq<char>,
    t: i64,
) -> Seq<PresenceRecord>
    decreases keys.len(),
{
    if keys.len() == 0 {
        s
    } else {
        presence::presence_seen(
            all_seen(s, keys.drop_last(), observed, network, t),
            keys.last(),
            network,
            address_of(observed, keys.last()),
            t,
        )
    }
}

/// Presence after devices were missed, unless a streak is at the end of its
/// range.
pub open spec fn all_missed(
    s: Seq<PresenceRecord>,
    updates: Seq<(Seq<char>, i64)>,
    network: Seq<char>,
) -> Option<Seq<PresenceRecord>>
    decreases updates.len(),
{
    if updates.len() == 0 {
        Some(s)
    } else {
        match all_missed(s, updates.drop_last(), network) {
            Some(p) => if presence::streak_is_full(p, updates.last().0, network) {
                None
            } else {
                Some(presence::presence_missed(p, updates.last().0, network))
            },
            None => None,
        }
    }
}

/// Presence after devices were announced gone.
pub open spec fn all_gone(s: Seq<PresenceRecord>, keys: Seq<Seq<char>>, network: Seq<char>) -> Seq<
    PresenceRecord,
>
    decreases keys.len(),
{
    if keys.len() == 0 {
        s
    } else {
        presence::presence_gone(all_gone(s, keys.drop_last(), network), keys.last(), network)
    }
}

/// Presence after a scan, up to the misses.
pub open spec fn presence_counted(m: StoreModel, h: HeaderModel, r: ResolvedModel) -> Option<
    Seq<PresenceRecord>,
> {
    all_missed(
        all_seen(
            m.presence,
            r.outcome.streak_resets,
            r.observed,
            h.network_key,
            h.finished_at,
        ),
        r.outcome.streak_updates,
        h.network_key,
    )
}

/// The id that the next scan gets.
pub open spec fn next_scan_id(m: StoreModel) -> i64 {
    (m.scan_seq + 1) as i64
}

/// The store after a scan was put on record, or why it could not be.
pub open spec fn committed(
    m: StoreModel,
    h: HeaderModel,
    obs: Seq<ObservationModel>,
    r: ResolvedModel,
) -> Result<StoreModel, StoreError> {
    let ts = r.outcome.transitions;
    let id = next_scan_id(m);
    if m.scan_seq == i64::MAX || m.transition_seq + ts.len() > i64::MAX {
        Err(StoreError::Full)
    } else {
        match presence_counted(m, h, r) {
            None => Err(StoreError::Range),
            Some(counted) => Ok(
                StoreModel {
                    observations: m.observations + observation_rows(
                        obs,
                        r.ip_owner,
                        id,
                        h.finished_at,
                    ),
                    transitions: m.transitions + transition_rows(
                        ts,
                        id,
                        h.finished_at,
                        h.network_key,
                        m.transition_seq as int,
                    ),
                    transition_seq: (m.transition_seq + ts.len()) as i64,
                    presence: all_gone(counted, r.outcome.gone_marks, h.network_key),
                    ..scans::scan_recorded(
                        m,
                        h.started_at,
                        h.finished_at,
                        h.network_key,
                        h.partial,
                        h.privilege_json,
                        h.strategies_json,
                        h.partial_reasons,
                        h.stats_json,
                    )
                },
            ),
        }
    }
}

// ----- recording it -----

/// Record the raw observations.
fn record_observations(
    tx: &mut Transaction,
    observations: &Vec<Observation>,
    ip_owner: &KeyMap<String>,
    scan_id: i64,
    at: i64,
) -> (r: Result<(), StoreError>)
    requires
        old(tx).deep_view().wf(),
        crate::store::has_scan(old(tx).deep_view().scans, scan_id),
    ensures
        r is Ok,
        final(tx).deep_view() == (StoreModel {
            observations: old(tx).deep_view().observations + observation_rows(
                observations.deep_view(),
                ip_owner.deep_view(),
                scan_id,
                at,
            ),
            ..old(tx).deep_view()
        }),
        final(tx).deep_view().wf(),
{
    let ghost m = tx.deep_view();
    let ghost all = observations.deep_view();
    let ghost owner = ip_owner.deep_view();
    let mut i: usize = 0;
    assert(m.observations + Seq::<ObservationRecord>::empty() == m.observations);
    while i < observations.len()
        invariant
            i <= observations.len(),
            m == old(tx).deep_view(),
            all == observations.deep_view(),
            owner == ip_owner.deep_view(),
            crate::store::has_scan(m.scans, scan_id),
            tx.deep_view() == (StoreModel {
                observations: m.observations + observation_rows(
                    all.take(i as int),
                    owner,
                    scan_id,
                    at,
                ),
                ..m
            }),
            tx.deep_view().wf(),
        decreases observations.len() - i,
    {
        let o = &observations[i];
        let ghost so_far = observation_rows(all.take(i as int), owner, scan_id, at);
        assert(all[i as int] == o.deep_view());
        assert(all.take(i + 1).drop_last() == all.take(i as int));
        assert(all.take(i + 1).last() == all[i as int]);
        if let Some(key) = ip_owner.get(o.ip.as_str()) {
            let name: Option<&str> = match &o.name {
                Some(n) => Some(n.1.as_str()),
                None => None,
            };
            if let Err(e) = Store::insert_observation(
                tx,
                scan_id,
                at,
                key.as_str(),
                o.ip.as_str(),
                as_opt_str(&o.mac),
                name,
                o.source.as_str(),
                o.confidence,
            ) {
                return Err(e);
            }
            assert(tx.deep_view().observations == m.observations + observation_rows(
                all.take(i + 1),
                owner,
                scan_id,
                at,
            ));
        }
        i = i + 1;
    }
    assert(all.take(all.len() as int) == all);
    Ok(())
}

/// Record the transitions.
fn record_transitions(
    tx: &mut Transaction,
    transitions: &Vec<Transition>,
    network_key: &str,
    scan_id: i64,
    at: i64,
) -> (r: Result<(), StoreError>)
    requires
        old(tx).deep_view().wf(),
        crate::store::has_scan(old(tx).deep_view().scans, scan_id),
    ensures
        ({
            let m = old(tx).deep_view();
            let ts = transitions.deep_view();
            if m.transition_seq + ts.len() > i64::MAX {
                r == Err::<(), StoreError>(StoreError::Full)
            } else {
                r is Ok && final(tx).deep_view() == (StoreModel {
                    transitions: m.transitions + transition_rows(
                        ts,
                        scan_id,
                        at,
                        network_key@,
                        m.transition_seq as int,
                    ),
                    transition_seq: (m.transition_seq + ts.len()) as i64,
                    ..m
                })
            }
        }),
        final(tx).deep_view().wf(),
{
    let ghost m = tx.deep_view();
    let ghost all = transitions.deep_view();
    let mut i: usize = 0;
    assert(m.transitions + transition_rows(
        all.take(0),
        scan_id,
        at,
        network_key@,
        m.transition_seq as int,
    ) == m.transitions);
    while i < transitions.len()
        invariant
            i <= transitions.len(),
            m == old(tx).deep_view(),
            all == transitions.deep_view(),
            crate::store::has_scan(m.scans, scan_id),
            m.transition_seq + i <= i64::MAX,
            tx.deep_view() == (StoreModel {
                transitions: m.transitions + transition_rows(
                    all.take(i as int),
                    scan_id,
                    at,
                    network_key@,
                    m.transition_seq as int,
                ),
                transition_seq: (m.transition_seq + i) as i64,
                ..m
            }),
            tx.deep_view().wf(),
        decreases transitions.len() - i,
    {
        let t = &transitions[i];
        assert(all[i as int] == t.deep_view());
        let ghost before = tx.deep_view();
        if let Err(e) = Store::insert_transition(
            tx,
            scan_id,
            at,
            t.device_key.as_str(),
            network_key,
            t.kind,
            &t.changes,
        ) {
            return Err(e);
        }
        assert(before.transition_seq < i64::MAX);
        assert(tx.deep_view().transitions == m.transitions + transition_rows(
            all.take(i + 1),
            scan_id,
            at,
            network_key@,
            m.transition_seq as int,
        ));
        i = i + 1;
    }
    assert(all.take(all.len() as int) == all);
    Ok(())
}

/// Record that devices were seen.
fn record_seen(
    tx: &mut Transaction,
    keys: &Vec<String>,
    observed: &KeyMap<crate::diff::ObservedState>,
    network_key: &str,
    t: i64,
) -> (r: Result<(), StoreError>)
    requires
        old(tx).deep_view().wf(),
    ensures
        r is Ok,
        final(tx).deep_view() == (StoreModel {
            presence: all_seen(
                old(tx).deep_view().presence,
                keys.deep_view(),
                observed.deep_view(),
                network_key@,
                t,
            ),
            ..old(tx).deep_view()
        }),
        final(tx).deep_view().wf(),
{
    let ghost m = tx.deep_view();
    let ghost all = keys.deep_view();
    let ghost states = observed.deep_view();
    let mut i: usize = 0;
    while i < keys.len()
        invariant
            i <= keys.len(),
            m == old(tx).deep_view(),
            all == keys.deep_view(),
            states == observed.deep_view(),
            tx.deep_view() == (StoreModel {
                presence: all_seen(m.presence, all.take(i as int), states, network_key@, t),
                ..m
            }),
            tx.deep_view().wf(),
        decreases keys.len() - i,
    {
        assert(all[i as int] == keys@[i as int]@);
        assert(all.take(i + 1).drop_last() == all.take(i as int));
        let ip: Option<&str> = match observed.get(keys[i].as_str()) {
            Some(s) => Some(s.ip.as_str()),
            None => None,
        };
        if let Err(e) = Store::upsert_presence_tx(tx, keys[i].as_str(), network_key, ip, t) {
            return Err(e);
        }
        i = i + 1;
    }
    assert(all.take(all.len() as int) == all);
    Ok(())
}

/// Once a streak is at the end of its range, the rest is not looked at.
proof fn lemma_miss_fails(
    s: Seq<PresenceRecord>,
    updates: Seq<(Seq<char>, i64)>,
    network: Seq<char>,
    n: int,
)
    requires
        0 <= n <= updates.len(),
        all_missed(s, updates.take(n), network) is None,
    ensures
        all_missed(s, updates, network) is None,
    decreases updates.len(),
{
    if n == updates.len() {
        assert(updates.take(n) == updates);
    } else {
        assert(updates.drop_last().take(n) == updates.take(n));
        lemma_miss_fails(s, updates.drop_last(), network, n);
    }
}

/// Record that devices were missed.
fn record_missed(tx: &mut Transaction, updates: &Vec<(String, i64)>, network_key: &str) -> (r:
    Result<(), StoreError>)
    requires
        old(tx).deep_view().wf(),
    ensures
        match all_missed(old(tx).deep_view().presence, updates.deep_view(), network_key@) {
            Some(p) => r is Ok && final(tx).deep_view() == (StoreModel {
                presence: p,
                ..old(tx).deep_view()
            }),
            None => r == Err::<(), StoreError>(StoreError::Range),
        },
        final(tx).deep_view().wf(),
{
    let ghost m = tx.deep_view();
    let ghost all = updates.deep_view();
    let mut i: usize = 0;
    while i < updates.len()
        invariant
            i <= updates.len(),
            m == old(tx).deep_view(),
            all == updates.deep_view(),
            all_missed(m.presence, all.take(i as int), network_key@) == Some(
                tx.deep_view().presence,
            ),
            tx.deep_view() == (StoreModel { presence: tx.deep_view().presence, ..m }),
            tx.deep_view().wf(),
        decreases updates.len() - i,
    {
        assert(all[i as int].0 == updates@[i as int].0@);
        assert(all.take(i + 1).drop_last() == all.take(i as int));
        if let Err(e) = Store::bump_miss_streak_tx(tx, updates[i].0.as_str(), network_key) {
            proof {
                lemma_miss_fails(m.presence, all, network_key@, i + 1);
            }
            return Err(e);
        }
        i = i + 1;
    }
    assert(all.take(all.len() as int) == all);
    Ok(())
}

/// Record that devices were announced gone.
fn record_gone(tx: &mut Transaction, keys: &Vec<String>, network_key: &str) -> (r: Result<
    (),
    StoreError,
>)
    requires
        old(tx).deep_view().wf(),
    ensures
        r is Ok,
        final(tx).deep_view() == (StoreModel {
            presence: all_gone(old(tx).deep_view().presence, keys.deep_view(), network_key@),
            ..old(tx).deep_view()
        }),
        final(tx).deep_view().wf(),
{
    let ghost m = tx.deep_view();
    let ghost all = keys.deep_view();
    let mut i: usize = 0;
    while i < keys.len()
        invariant
            i <= keys.len(),
            m == old(tx).deep_view(),
            all == keys.deep_view(),
            tx.deep_view() == (StoreModel {
                presence: all_gone(m.presence, all.take(i as int), network_key@),
                ..m
            }),
            tx.deep_view().wf(),
        decreases keys.len() - i,
    {
        assert(all[i as int] == keys@[i as int]@);
        assert(all.take(i + 1).drop_last() == all.take(i as int));
        if let Err(e) = Store::mark_reported_gone_tx(tx, keys[i].as_str(), network_key) {
            return Err(e);
        }
        i = i + 1;
    }
    assert(all.take(all.len() as int) == all);
    Ok(())
}

/// Do everything a scan has to record inside a transaction.
fn record_scan(
    tx: &mut Transaction,
    header: &ScanHeader,
    observations: &Vec<Observation>,
    resolved: &ResolvedScan,
) -> (r: Result<i64, StoreError>)
    requires
        old(tx).deep_view().wf(),
    ensures
        match committed(
            old(tx).deep_view(),
            header.deep_view(),
            observations.deep_view(),
            resolved.deep_view(),
        ) {
            Ok(m) => r == Ok::<i64, StoreError>(next_scan_id(old(tx).deep_view()))
                && final(tx).deep_view() == m,
            Err(e) => r == Err::<i64, StoreError>(e),
        },
        final(tx).deep_view().wf(),
{
    let network = header.network_key.as_str();
    let scan_id: i64 = match Store::insert_scan(
        tx,
        header.started_at,
        header.finished_at,
        network,
        header.partial,
        header.privilege_json.as_str(),
        header.strategies_json.as_str(),
        &header.partial_reasons,
        header.stats_json.as_str(),
    ) {
        Ok(id) => id,
        Err(e) => {
            return Err(e);
        },
    };
    // One row per raw observation, keeping which strategy saw what. A single
    // merged row per device would make a device's history unable to say *how*
    // it was seen.
    if let Err(e) = record_observations(
        tx,
        observations,
        &resolved.ip_owner,
        scan_id,
        header.finished_at,
    ) {
        return Err(e);
    }
    let outcome = &resolved.outcome;
    if let Err(e) = record_transitions(
        tx,
        &outcome.transitions,
        network,
        scan_id,
        header.finished_at,
    ) {
        return Err(e);
    }
    if let Err(e) = record_seen(
        tx,
        &outcome.streak_resets,
        &resolved.observed,
        network,
        header.finished_at,
    ) {
        return Err(e);
    }
    if let Err(e) = record_missed(tx, &outcome.streak_updates, network) {
        return Err(e);
    }
    if let Err(e) = record_gone(tx, &outcome.gone_marks, network) {
        return Err(e);
    }
    Ok(scan_id)
}

/// Commit a scan with its observations, transitions and presence atomically:
/// where anything cannot be recorded, nothing is. The id of the scan.
pub fn commit_scan(
    store: &mut Store,
    header: &ScanHeader,
    observations: &Vec<Observation>,
    resolved: &ResolvedScan,
) -> (r: Result<i64, StoreError>)
    requires
        old(store).deep_view().wf(),
    ensures
        match committed(
            old(store).deep_view(),
            header.deep_view(),
            observations.deep_view(),
            resolved.deep_view(),
        ) {
            Ok(m) => r == Ok::<i64, StoreError>(next_scan_id(old(store).deep_view()))
                && final(store).deep_view() == m,
            Err(e) => r == Err::<i64, StoreError>(e) && final(store).deep_view() == old(
                store,
            ).deep_view(),
        },
        final(store).deep_view().wf(),
{
    let mut tx = match store.begin() {
        Ok(t) => t,
        Err(e) => {
            return Err(e);
        },
    };
    let scan_id: i64 = match record_scan(&mut tx, header, observations, resolved) {
        Ok(id) => id,
        Err(e) => {
            return Err(e);
        },
    };
    if let Err(e) = store.commit(tx) {
        return Err(e);
    }
    Ok(scan_id)
}

// ----- what committing does -----

/// A scan that was put on record stands last in the table of scans under the
/// next id, with what it says of itself; devices, names, aliases, networks,
/// settings and everything recorded before stay as they are.
pub proof fn law_commit_records_the_scan(
    m: StoreModel,
    h: HeaderModel,
    obs: Seq<ObservationModel>,
    r: ResolvedModel,
)
    requires
        committed(m, h, obs, r) is Ok,
    ensures
        ({
            let n = committed(m, h, obs, r)->Ok_0;
            &&& n.scans.len() == m.scans.len() + 1
            &&& n.scans.drop_last() == m.scans
            &&& n.scans.last().id == next_scan_id(m)
            &&& n.scans.last().partial == h.partial
            &&& n.scans.last().partial_reasons == h.partial_reasons
            &&& n.scans.last().network_key == h.network_key
            &&& n.devices == m.devices
            &&& n.names == m.names
            &&& n.aliases == m.aliases
            &&& n.networks == m.networks
            &&& n.settings == m.settings
            &&& m.observations.is_prefix_of(n.observations)
            &&& m.transitions.is_prefix_of(n.transitions)
        }),
{
}

/// Every row that a scan adds carries its id and the moment it finished.
pub proof fn law_rows_belong_to_the_scan(
    obs: Seq<ObservationModel>,
    ip_owner: Seq<(Seq<char>, Seq<char>)>,
    scan_id: i64,
    at: i64,
    i: int,
)
    requires
        0 <= i < observation_rows(obs, ip_owner, scan_id, at).len(),
    ensures
        observation_rows(obs, ip_owner, scan_id, at)[i].scan_id == scan_id,
        observation_rows(obs, ip_owner, scan_id, at)[i].at == at,
        keymap::has_key(ip_owner, observation_rows(obs, ip_owner, scan_id, at)[i].ip),
    decreases obs.len(),
{
    let rest = observation_rows(obs.drop_last(), ip_owner, scan_id, at);
    if i < rest.len() {
        law_rows_belong_to_the_scan(obs.drop_last(), ip_owner, scan_id, at, i);
    }
}

/// Every transition that a scan reports is on record under its id, in the same
/// order.
pub proof fn law_transitions_are_recorded(
    m: StoreModel,
    h: HeaderModel,
    obs: Seq<ObservationModel>,
    r: ResolvedModel,
    i: int,
)
    requires
        committed(m, h, obs, r) is Ok,
        0 <= i < r.outcome.transitions.len(),
    ensures
        ({
            let n = committed(m, h, obs, r)->Ok_0;
            let row = n.transitions[m.transitions.len() + i];
            let t = r.outcome.transitions[i];
            &&& n.transitions.len() == m.transitions.len() + r.outcome.transitions.len()
            &&& row.scan_id == next_scan_id(m)
            &&& row.kind == t.kind
            &&& row.device_key == t.device_key
            &&& row.network_key == h.network_key
            &&& row.changes == t.changes
        }),
{
}

/// Announcing an absence keeps each presence where it is and marks the one.
proof fn lemma_one_gone(s: Seq<PresenceRecord>, device: Seq<char>, network: Seq<char>)
    requires
        crate::store::presence_unique(s),
    ensures
        crate::store::presence_unique(presence::presence_gone(s, device, network)),
        forall|d: Seq<char>, n: Seq<char>|
            #![trigger presence::presence_at(presence::presence_gone(s, device, network), d, n)]
            presence::presence_at(presence::presence_gone(s, device, network), d, n) == marked(
                presence::presence_at(s, d, n),
                d == device && n == network,
            ),
{
    let g = presence::presence_gone(s, device, network);
    presence::lemma_presence_index(s, device, network);
    match presence::presence_index(s, device, network) {
        Some(i) => {
            presence::lemma_presence_update(s, i, g[i]);
        },
        None => {},
    }
    assert forall|d: Seq<char>, n: Seq<char>| #[trigger] presence::presence_at(g, d, n) == marked(
        presence::presence_at(s, d, n),
        d == device && n == network,
    ) by {
        presence::lemma_presence_index(s, d, n);
    }
}

/// A presence, with its absence announced where that is so.
pub open spec fn marked(p: Option<PresenceRecord>, gone: bool) -> Option<PresenceRecord> {
    match p {
        Some(p) => Some(
            if gone {
                PresenceRecord { reported_gone: true, ..p }
            } else {
                p
            },
        ),
        None => None,
    }
}

/// Announcing absences marks exactly those presences.
proof fn lemma_all_gone(s: Seq<PresenceRecord>, keys: Seq<Seq<char>>, network: Seq<char>)
    requires
        crate::store::presence_unique(s),
    ensures
        crate::store::presence_unique(all_gone(s, keys, network)),
        forall|d: Seq<char>, n: Seq<char>|
            #![trigger presence::presence_at(all_gone(s, keys, network), d, n)]
            presence::presence_at(all_gone(s, keys, network), d, n) == marked(
                presence::presence_at(s, d, n),
                keys.contains(d) && n == network,
            ),
    decreases keys.len(),
{
    if keys.len() > 0 {
        let init = keys.drop_last();
        let before = all_gone(s, init, network);
        lemma_all_gone(s, init, network);
        lemma_one_gone(before, keys.last(), network);
        assert(init.push(keys.last()) == keys);
        crate::text::lemma_push_contains(init, keys.last());
        assert forall|d: Seq<char>, n: Seq<char>| #[trigger] presence::presence_at(
            all_gone(s, keys, network),
            d,
            n,
        ) == marked(presence::presence_at(s, d, n), keys.contains(d) && n == network) by {
            assert(keys.contains(d) <==> init.contains(d) || d == keys.last());
        }
    } else {
        assert forall|d: Seq<char>, n: Seq<char>| #[trigger] presence::presence_at(
            all_gone(s, keys, network),
            d,
            n,
        ) == marked(presence::presence_at(s, d, n), keys.contains(d) && n == network) by {}
    }
}

/// Seeing devices keeps every presence, and touches only theirs.
proof fn lemma_all_seen(
    s: Seq<PresenceRecord>,
    keys: Seq<Seq<char>>,
    observed: Seq<(Seq<char>, ObservedModel)>,
    network: Seq<char>,
    t: i64,
)
    requires
        crate::store::presence_unique(s),
    ensures
        crate::store::presence_unique(all_seen(s, keys, observed, network, t)),
        forall|d: Seq<char>, n: Seq<char>|
            #![trigger presence::presence_at(all_seen(s, keys, observed, network, t), d, n)]
            ({
                let now = presence::presence_at(all_seen(s, keys, observed, network, t), d, n);
                if keys.contains(d) && n == network {
                    now is Some && now.unwrap().miss_streak == 0 && !now.unwrap().reported_gone
                } else {
                    now == presence::presence_at(s, d, n)
                }
            }),
    decreases keys.len(),
{
    if keys.len() > 0 {
        let init = keys.drop_last();
        let k = keys.last();
        let ip = address_of(observed, k);
        let before = all_seen(s, init, observed, network, t);
        let after = presence::presence_seen(before, k, network, ip, t);
        lemma_all_seen(s, init, observed, network, t);
        presence::law_seeing_resets_the_streak(before, k, network, ip, t);
        presence::lemma_presence_index(before, k, network);
        match presence::presence_index(before, k, network) {
            Some(i) => {
                presence::lemma_presence_update(before, i, after[i]);
            },
            None => {
                presence::lemma_presence_push(before, after.last());
            },
        }
        assert(init.push(k) == keys);
        crate::text::lemma_push_contains(init, k);
        assert forall|d: Seq<char>, n: Seq<char>|
            #![trigger presence::presence_at(after, d, n)]
            ({
                let now = presence::presence_at(after, d, n);
                if keys.contains(d) && n == network {
                    now is Some && now.unwrap().miss_streak == 0 && !now.unwrap().reported_gone
                } else {
                    now == presence::presence_at(s, d, n)
                }
            }) by {
            assert(keys.contains(d) <==> init.contains(d) || d == k);
            if d != k || n != network {
                assert(presence::presence_at(after, d, n) == presence::presence_at(before, d, n));
            }
        }
    }
}

/// Counting misses keeps every presence, and what was announced of it.
proof fn lemma_all_missed(
    s: Seq<PresenceRecord>,
    updates: Seq<(Seq<char>, i64)>,
    network: Seq<char>,
)
    requires
        crate::store::presence_unique(s),
        all_missed(s, updates, network) is Some,
    ensures
        crate::store::presence_unique(all_missed(s, updates, network).unwrap()),
        forall|d: Seq<char>, n: Seq<char>|
            #![trigger presence::presence_at(all_missed(s, updates, network).unwrap(), d, n)]
            same_announcement(
                presence::presence_at(s, d, n),
                presence::presence_at(all_missed(s, updates, network).unwrap(), d, n),
            ),
    decreases updates.len(),
{
    if updates.len() > 0 {
        let k = updates.last().0;
        let before = all_missed(s, updates.drop_last(), network).unwrap();
        let after = presence::presence_missed(before, k, network);
        lemma_all_missed(s, updates.drop_last(), network);
        presence::lemma_presence_index(before, k, network);
        match presence::presence_index(before, k, network) {
            Some(i) => {
                presence::lemma_presence_update(before, i, after[i]);
                presence::law_missing_lengthens_the_streak(before, k, network);
            },
            None => {},
        }
        assert forall|d: Seq<char>, n: Seq<char>|
            #![trigger presence::presence_at(after, d, n)]
            same_announcement(
                presence::presence_at(s, d, n),
                presence::presence_at(after, d, n),
            ) by {
            assert(same_announcement(
                presence::presence_at(s, d, n),
                presence::presence_at(before, d, n),
            ));
        }
    }
}

/// Two presences agree on whether there is one and on what was announced.
pub open spec fn same_announcement(
    a: Option<PresenceRecord>,
    b: Option<PresenceRecord>,
) -> bool {
    &&& a is Some <==> b is Some
    &&& a is Some ==> a.unwrap().reported_gone == b.unwrap().reported_gone
}

/// An absence that a scan announced is on record as announced. Of every other
/// presence that the scan did not see, what was announced stays as it was.
pub proof fn law_announced_absence_is_on_record(
    m: StoreModel,
    h: HeaderModel,
    obs: Seq<ObservationModel>,
    r: ResolvedModel,
    device: Seq<char>,
)
    requires
        m.wf(),
        committed(m, h, obs, r) is Ok,
        presence::presence_at(m.presence, device, h.network_key) is Some,
        !r.outcome.streak_resets.contains(device),
    ensures
        ({
            let before = presence::presence_at(m.presence, device, h.network_key).unwrap();
            let now = presence::presence_at(
                committed(m, h, obs, r)->Ok_0.presence,
                device,
                h.network_key,
            );
            &&& now is Some
            &&& now.unwrap().reported_gone <==> before.reported_gone
                || r.outcome.gone_marks.contains(device)
        }),
{
    let seen = all_seen(
        m.presence,
        r.outcome.streak_resets,
        r.observed,
        h.network_key,
        h.finished_at,
    );
    lemma_all_seen(
        m.presence,
        r.outcome.streak_resets,
        r.observed,
        h.network_key,
        h.finished_at,
    );
    lemma_all_missed(seen, r.outcome.streak_updates, h.network_key);
    let counted = presence_counted(m, h, r).unwrap();
    lemma_all_gone(counted, r.outcome.gone_marks, h.network_key);
    assert(presence::presence_at(seen, device, h.network_key) == presence::presence_at(
        m.presence,
        device,
        h.network_key,
    ));
    assert(same_announcement(
        presence::presence_at(seen, device, h.network_key),
        presence::presence_at(counted, device, h.network_key),
    ));
}

/// A device that a scan saw counts anew: its absence can be announced again.
pub proof fn law_seen_device_counts_anew(
    m: StoreModel,
    h: HeaderModel,
    obs: Seq<ObservationModel>,
    r: ResolvedModel,
    device: Seq<char>,
)
    requires
        m.wf(),
        committed(m, h, obs, r) is Ok,
        r.outcome.streak_resets.contains(device),
        !r.outcome.gone_marks.contains(device),
    ensures
        ({
            let now = presence::presence_at(
                committed(m, h, obs, r)->Ok_0.presence,
                device,
                h.network_key,
            );
            now is Some && !now.unwrap().reported_gone
        }),
{
    let seen = all_seen(
        m.presence,
        r.outcome.streak_resets,
        r.observed,
        h.network_key,
        h.finished_at,
    );
    lemma_all_seen(
        m.presence,
        r.outcome.streak_resets,
        r.observed,
        h.network_key,
        h.finished_at,
    );
    lemma_all_missed(seen, r.outcome.streak_updates, h.network_key);
    let counted = presence_counted(m, h, r).unwrap();
    lemma_all_gone(counted, r.outcome.gone_marks, h.network_key);
    assert(presence::presence_at(seen, device, h.network_key) is Some);
    assert(same_announcement(
        presence::presence_at(seen, device, h.network_key),
        presence::presence_at(counted, device, h.network_key),
    ));
}

/// What the raw observations leave on record: a row for each whose address
/// belongs to a device, in their order, with the device that the address
/// belongs to and everything that was observed.
pub proof fn law_observations_are_recorded(
    obs: Seq<ObservationModel>,
    ip_owner: Seq<(Seq<char>, Seq<char>)>,
    scan_id: i64,
    at: i64,
)
    ensures
        ({
            let rows = observation_rows(obs, ip_owner, scan_id, at);
            let owned = obs.filter(|o: ObservationModel| keymap::lookup(ip_owner, o.ip) is Some);
            &&& rows.len() == owned.len()
            &&& forall|i: int|
                0 <= i < rows.len() ==> {
                    let row = #[trigger] rows[i];
                    let o = owned[i];
                    &&& keymap::lookup(ip_owner, o.ip) == Some(row.device_key)
                    &&& row.scan_id == scan_id
                    &&& row.at == at
                    &&& row.ip == o.ip
                    &&& row.mac == o.mac
                    &&& row.hostname == if o.name is Some {
                        Some(o.name.unwrap().1)
                    } else {
                        None
                    }
                    &&& row.source == o.source
                    &&& row.confidence == o.confidence
                }
        }),
    decreases obs.len(),
{
    let p = |o: ObservationModel| keymap::lookup(ip_owner, o.ip) is Some;
    reveal(Seq::filter);
    if obs.len() > 0 {
        let init = obs.drop_last();
        law_observations_are_recorded(init, ip_owner, scan_id, at);
        let before = observation_rows(init, ip_owner, scan_id, at);
        let rows = observation_rows(obs, ip_owner, scan_id, at);
        let owned = obs.filter(p);
        assert(owned == if p(obs.last()) {
            init.filter(p).push(obs.last())
        } else {
            init.filter(p)
        });
        assert forall|i: int| 0 <= i < rows.len() implies {
            let row = #[trigger] rows[i];
            let o = owned[i];
            &&& keymap::lookup(ip_owner, o.ip) == Some(row.device_key)
            &&& row.scan_id == scan_id
            &&& row.at == at
            &&& row.ip == o.ip
            &&& row.mac == o.mac
            &&& row.hostname == if o.name is Some {
                Some(o.name.unwrap().1)
            } else {
                None
            }
            &&& row.source == o.source
            &&& row.confidence == o.confidence
        } by {
            if i < before.len() {
                assert(rows[i] == before[i]);
            }
        }
    }
}

/// The row of a scan holds what the scan says of itself, and each row of a
/// transition the moment that the scan finished, under an id that none had.
pub proof fn law_commit_keeps_the_header(
    m: StoreModel,
    h: HeaderModel,
    obs: Seq<ObservationModel>,
    r: ResolvedModel,
)
    requires
        committed(m, h, obs, r) is Ok,
    ensures
        ({
            let n = committed(m, h, obs, r)->Ok_0;
            let row = n.scans.last();
            &&& row.id == m.scan_seq + 1
            &&& row.started_at == h.started_at
            &&& row.finished_at == h.finished_at
            &&& row.network_key == h.network_key
            &&& row.partial == h.partial
            &&& row.privilege_json == h.privilege_json
            &&& row.strategies_json == h.strategies_json
            &&& row.partial_reasons == h.partial_reasons
            &&& row.stats_json == h.stats_json
            &&& n.observations == m.observations + observation_rows(
                obs,
                r.ip_owner,
                row.id,
                h.finished_at,
            )
            &&& n.transitions.len() == m.transitions.len() + r.outcome.transitions.len()
            &&& forall|i: int|
                m.transitions.len() <= i < n.transitions.len() ==> (
                #[trigger] n.transitions[i]).at == h.finished_at && n.transitions[i].scan_id
                    == row.id && n.transitions[i].id == m.transition_seq + 1 + i
                    - m.transitions.len()
            &&& n.transition_seq == m.transition_seq + r.outcome.transitions.len()
            &&& n.device_seq == m.device_seq
        }),
{
}

/// What seeing devices leaves of a row.
proof fn lemma_seen_row(
    s: Seq<PresenceRecord>,
    keys: Seq<Seq<char>>,
    observed: Seq<(Seq<char>, ObservedModel)>,
    network: Seq<char>,
    t: i64,
    i: int,
)
    requires
        crate::store::presence_unique(s),
        0 <= i < s.len(),
    ensures
        all_seen(s, keys, observed, network, t).len() >= s.len(),
        all_seen(s, keys, observed, network, t)[i] == if s[i].network_key == network
            && keys.contains(s[i].device_key) {
            let o = keymap::lookup(observed, s[i].device_key);
            PresenceRecord {
                last_seen: t,
                miss_streak: 0,
                reported_gone: false,
                last_ip: if o is Some {
                    Some(o.unwrap().ip)
                } else {
                    s[i].last_ip
                },
                ..s[i]
            }
        } else {
            s[i]
        },
    decreases keys.len(),
{
    if keys.len() > 0 {
        let init = keys.drop_last();
        let k = keys.last();
        lemma_seen_row(s, init, observed, network, t, i);
        lemma_all_seen(s, init, observed, network, t);
        let before = all_seen(s, init, observed, network, t);
        presence::law_presence_is_kept(before, k, network, address_of(observed, k), t);
        presence::lemma_presence_index(before, k, network);
        assert(init.push(k) == keys);
        crate::text::lemma_push_contains(init, k);
        assert(keys.contains(s[i].device_key) <==> init.contains(s[i].device_key)
            || s[i].device_key == k);
        assert(before[i].device_key == s[i].device_key);
    }
}

/// Seeing a device that was never there leaves a row for it.
proof fn lemma_new_row(
    s: Seq<PresenceRecord>,
    keys: Seq<Seq<char>>,
    observed: Seq<(Seq<char>, ObservedModel)>,
    network: Seq<char>,
    t: i64,
    device: Seq<char>,
) -> (j: int)
    requires
        crate::store::presence_unique(s),
        keys.contains(device),
        forall|i: int|
            0 <= i < s.len() ==> (#[trigger] s[i]).device_key != device || s[i].network_key
                != network,
    ensures
        s.len() <= j < all_seen(s, keys, observed, network, t).len(),
        all_seen(s, keys, observed, network, t)[j] == (PresenceRecord {
            device_key: device,
            network_key: network,
            first_seen: t,
            last_seen: t,
            miss_streak: 0,
            last_ip: address_of(observed, device),
            reported_gone: false,
        }),
    decreases keys.len(),
{
    let init = keys.drop_last();
    let k = keys.last();
    let before = all_seen(s, init, observed, network, t);
    assert(init.push(k) == keys);
    crate::text::lemma_push_contains(init, k);
    assert(keys.contains(device) <==> init.contains(device) || device == k);
    lemma_all_seen(s, init, observed, network, t);
    presence::law_presence_is_kept(before, k, network, address_of(observed, k), t);
    presence::lemma_presence_index(before, k, network);
    presence::lemma_presence_index(s, k, network);
    if init.contains(device) {
        lemma_new_row(s, init, observed, network, t, device)
    } else {
        assert(presence::presence_at(before, k, network) == presence::presence_at(s, k, network));
        lemma_seen_len(s, init, observed, network, t);
        before.len() as int
    }
}

/// Seeing devices drops no row.
proof fn lemma_seen_len(
    s: Seq<PresenceRecord>,
    keys: Seq<Seq<char>>,
    observed: Seq<(Seq<char>, ObservedModel)>,
    network: Seq<char>,
    t: i64,
)
    ensures
        all_seen(s, keys, observed, network, t).len() >= s.len(),
    decreases keys.len(),
{
    if keys.len() > 0 {
        lemma_seen_len(s, keys.drop_last(), observed, network, t);
    }
}

/// How often a device was missed.
pub open spec fn times_missed(updates: Seq<(Seq<char>, i64)>, device: Seq<char>) -> nat {
    updates.filter(|u: (Seq<char>, i64)| u.0 == device).len()
}

/// What misses leave of a row.
proof fn lemma_missed_row(
    s: Seq<PresenceRecord>,
    updates: Seq<(Seq<char>, i64)>,
    network: Seq<char>,
    i: int,
)
    requires
        crate::store::presence_unique(s),
        all_missed(s, updates, network) is Some,
        0 <= i < s.len(),
    ensures
        ({
            let now = all_missed(s, updates, network).unwrap();
            &&& now.len() == s.len()
            &&& now[i] == (PresenceRecord { miss_streak: now[i].miss_streak, ..s[i] })
            &&& now[i].miss_streak == s[i].miss_streak + if s[i].network_key == network {
                times_missed(updates, s[i].device_key) as int
            } else {
                0
            }
        }),
    decreases updates.len(),
{
    reveal(Seq::filter);
    if updates.len() > 0 {
        let init = updates.drop_last();
        let k = updates.last().0;
        lemma_missed_row(s, init, network, i);
        lemma_all_missed(s, init, network);
        let before = all_missed(s, init, network).unwrap();
        presence::law_misses_and_marks(before, k, network, i);
        presence::lemma_presence_found(before, i);
    }
}

/// What announcements leave of a row.
proof fn lemma_gone_row(s: Seq<PresenceRecord>, keys: Seq<Seq<char>>, network: Seq<char>, i: int)
    requires
        crate::store::presence_unique(s),
        0 <= i < s.len(),
    ensures
        all_gone(s, keys, network).len() == s.len(),
        all_gone(s, keys, network)[i] == (PresenceRecord {
            reported_gone: s[i].reported_gone || (s[i].network_key == network && keys.contains(
                s[i].device_key,
            )),
            ..s[i]
        }),
    decreases keys.len(),
{
    if keys.len() > 0 {
        let init = keys.drop_last();
        let k = keys.last();
        lemma_gone_row(s, init, network, i);
        lemma_all_gone(s, init, network);
        let before = all_gone(s, init, network);
        assert(init.push(k) == keys);
        crate::text::lemma_push_contains(init, k);
        assert(keys.contains(s[i].device_key) <==> init.contains(s[i].device_key)
            || s[i].device_key == k);
        presence::lemma_presence_index(before, k, network);
        presence::lemma_presence_found(before, i);
    }
}

/// What a scan leaves of each row of presence that was there. A row on another
/// network stays as it is. On the network scanned, a device that was seen has
/// its streak ended, its address and the time of its last sight renewed; one
/// that was missed has its streak lengthened; the mark is set where its
/// absence was announced; and when it was first seen never changes.
pub proof fn law_commit_updates_presence(
    m: StoreModel,
    h: HeaderModel,
    obs: Seq<ObservationModel>,
    r: ResolvedModel,
    i: int,
)
    requires
        m.wf(),
        committed(m, h, obs, r) is Ok,
        0 <= i < m.presence.len(),
    ensures
        ({
            let n = committed(m, h, obs, r)->Ok_0;
            let before = m.presence[i];
            let now = n.presence[i];
            let key = before.device_key;
            let seen = r.outcome.streak_resets.contains(key);
            let o = keymap::lookup(r.observed, key);
            &&& n.presence.len() >= m.presence.len()
            &&& before.network_key != h.network_key ==> now == before
            &&& now.device_key == key
            &&& now.network_key == before.network_key
            &&& now.first_seen == before.first_seen
            &&& before.network_key == h.network_key ==> {
                &&& now.last_seen == if seen {
                    h.finished_at
                } else {
                    before.last_seen
                }
                &&& now.last_ip == if seen && o is Some {
                    Some(o.unwrap().ip)
                } else {
                    before.last_ip
                }
                &&& now.miss_streak == times_missed(r.outcome.streak_updates, key) + if seen {
                    0
                } else {
                    before.miss_streak as int
                }
                &&& now.reported_gone == ((!seen && before.reported_gone)
                    || r.outcome.gone_marks.contains(key))
            }
        }),
{
    let seen = all_seen(
        m.presence,
        r.outcome.streak_resets,
        r.observed,
        h.network_key,
        h.finished_at,
    );
    lemma_all_seen(
        m.presence,
        r.outcome.streak_resets,
        r.observed,
        h.network_key,
        h.finished_at,
    );
    lemma_seen_row(
        m.presence,
        r.outcome.streak_resets,
        r.observed,
        h.network_key,
        h.finished_at,
        i,
    );
    lemma_all_missed(seen, r.outcome.streak_updates, h.network_key);
    lemma_missed_row(seen, r.outcome.streak_updates, h.network_key, i);
    let counted = presence_counted(m, h, r).unwrap();
    lemma_gone_row(counted, r.outcome.gone_marks, h.network_key, i);
}

/// A device that a scan saw on a network for the first time gets a row there,
/// with the address it was seen at, as of the moment the scan finished.
pub proof fn law_commit_adds_presence(
    m: StoreModel,
    h: HeaderModel,
    obs: Seq<ObservationModel>,
    r: ResolvedModel,
    device: Seq<char>,
)
    requires
        m.wf(),
        committed(m, h, obs, r) is Ok,
        r.outcome.streak_resets.contains(device),
        !r.outcome.gone_marks.contains(device),
        times_missed(r.outcome.streak_updates, device) == 0,
        keymap::lookup(r.observed, device) is Some,
        forall|i: int|
            0 <= i < m.presence.len() ==> (#[trigger] m.presence[i]).device_key != device
                || m.presence[i].network_key != h.network_key,
    ensures
        committed(m, h, obs, r)->Ok_0.presence.contains(
            PresenceRecord {
                device_key: device,
                network_key: h.network_key,
                first_seen: h.finished_at,
                last_seen: h.finished_at,
                miss_streak: 0,
                last_ip: Some(keymap::lookup(r.observed, device).unwrap().ip),
                reported_gone: false,
            },
        ),
{
    let seen = all_seen(
        m.presence,
        r.outcome.streak_resets,
        r.observed,
        h.network_key,
        h.finished_at,
    );
    lemma_all_seen(
        m.presence,
        r.outcome.streak_resets,
        r.observed,
        h.network_key,
        h.finished_at,
    );
    let j = lemma_new_row(
        m.presence,
        r.outcome.streak_resets,
        r.observed,
        h.network_key,
        h.finished_at,
        device,
    );
    lemma_all_missed(seen, r.outcome.streak_updates, h.network_key);
    lemma_missed_row(seen, r.outcome.streak_updates, h.network_key, j);
    let counted = presence_counted(m, h, r).unwrap();
    lemma_gone_row(counted, r.outcome.gone_marks, h.network_key, j);
    let n = committed(m, h, obs, r)->Ok_0;
    assert(n.presence[j].device_key == device);
}

} // verus!
