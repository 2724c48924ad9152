//! Scan-vs-inventory diff engine.
//!
//! This is where the product's core trust property lives: a scan may only
//! call a device `gone` when it could actually have seen it. That needs two
//! things: the scan finished without a strategy failing (`complete`), and it
//! demonstrably covered the network (`absence_provable`). A scan missing
//! either is *partial*: it may emit `new` and `changed`, because seeing a
//! device proves it is there, but it may never emit `gone` nor advance a miss
//! streak. `gone` further requires the device to have been missed for
//! `grace_scans` consecutive such scans.

use vstd::prelude::*;
use vstd::string::*;

use crate::keymap::KeyMap;
use crate::model::{FieldChange, Transition, TransitionKind};
use crate::text::{as_opt_str, clone_opt, str_eq};

verus! {

/// How complete a scan was; produced by the scanner from strategy results, the
/// privilege probe, and what the scan actually managed to observe.
#[derive(Debug)]
pub struct ScanIntegrity {
    /// All enabled strategies had their privilege confirmed and finished.
    pub complete: bool,
    /// The scan demonstrably covered the network, so "not seen" is real
    /// evidence of absence.
    ///
    /// Separate from `complete` because a scan can finish without a single
    /// error and still prove nothing: a strategy that only ever confirms
    /// presence (mDNS, SSDP, NetBIOS) is silent about devices that simply did
    /// not answer, and an exhaustive sweep that saw *nothing at all* means the
    /// link failed, not that the network emptied.
    pub absence_provable: bool,
    pub reasons: Vec<(String, String)>,
}

/// What a [`ScanIntegrity`] says.
#[verifier::ext_equal]
pub struct IntegrityModel {
    pub complete: bool,
    pub absence_provable: bool,
    pub reasons: Seq<(Seq<char>, Seq<char>)>,
}

impl DeepView for ScanIntegrity {
    type V = IntegrityModel;

    open spec fn deep_view(&self) -> IntegrityModel {
        IntegrityModel {
            complete: self.complete,
            absence_provable: self.absence_provable,
            reasons: self.reasons.deep_view(),
        }
    }
}

impl IntegrityModel {
    /// "Not seen" is evidence of absence.
    pub open spec fn proves_absence(self) -> bool {
        self.complete && self.absence_provable
    }
}

impl ScanIntegrity {
    /// A scan that finished cleanly and covered the network.
    pub fn complete() -> (r: ScanIntegrity)
        ensures
            r.deep_view() == (IntegrityModel {
                complete: true,
                absence_provable: true,
                reasons: Seq::empty(),
            }),
    {
        ScanIntegrity { complete: true, absence_provable: true, reasons: Vec::new() }
    }

    /// A scan where a strategy could not do its job.
    pub fn partial(strategy: &str, reason: &str) -> (r: ScanIntegrity)
        ensures
            r.deep_view() == (IntegrityModel {
                complete: false,
                absence_provable: true,
                reasons: seq![(strategy@, reason@)],
            }),
    {
        let mut reasons: Vec<(String, String)> = Vec::new();
        reasons.push((strategy.to_string(), reason.to_string()));
        assert(reasons.deep_view() == seq![(strategy@, reason@)]);
        ScanIntegrity { complete: false, absence_provable: true, reasons }
    }

    /// A scan that finished cleanly but cannot testify to absence.
    pub fn uncovered(strategy: &str, reason: &str) -> (r: ScanIntegrity)
        ensures
            r.deep_view() == (IntegrityModel {
                complete: true,
                absence_provable: false,
                reasons: seq![(strategy@, reason@)],
            }),
    {
        let mut reasons: Vec<(String, String)> = Vec::new();
        reasons.push((strategy.to_string(), reason.to_string()));
        assert(reasons.deep_view() == seq![(strategy@, reason@)]);
        ScanIntegrity { complete: true, absence_provable: false, reasons }
    }

    /// True when this scan may emit `gone` and advance miss streaks.
    pub fn may_prove_absence(&self) -> (r: bool)
        ensures
            r == self.deep_view().proves_absence(),
    {
        self.complete && self.absence_provable
    }
}

/// The previous state of one device on the scanned network.
#[derive(Debug)]
pub struct PriorState {
    pub device_key: String,
    pub display_name: String,
    pub last_ip: Option<String>,
    pub last_hostname: Option<String>,
    pub last_mac: Option<String>,
    pub miss_streak: i64,
    /// True when a `gone` transition has already been emitted for this
    /// absence. Without it, "has it crossed the threshold?" is indistinguishable
    /// from "has it been past the threshold for a while?" whenever
    /// `grace_scans` changes underneath a device.
    pub reported_gone: bool,
    /// False when this device cannot be re-identified across scans; see
    /// [`crate::identity::is_stable`]. Absence is unprovable for those.
    pub identity_stable: bool,
}

/// What a [`PriorState`] says.
#[verifier::ext_equal]
pub struct PriorModel {
    pub device_key: Seq<char>,
    pub display_name: Seq<char>,
    pub last_ip: Option<Seq<char>>,
    pub last_hostname: Option<Seq<char>>,
    pub last_mac: Option<Seq<char>>,
    pub miss_streak: i64,
    pub reported_gone: bool,
    pub identity_stable: bool,
}

impl DeepView for PriorState {
    type V = PriorModel;

    open spec fn deep_view(&self) -> PriorModel {
        PriorModel {
            device_key: self.device_key@,
            display_name: self.display_name@,
            last_ip: self.last_ip.deep_view(),
            last_hostname: self.last_hostname.deep_view(),
            last_mac: self.last_mac.deep_view(),
            miss_streak: self.miss_streak,
            reported_gone: self.reported_gone,
            identity_stable: self.identity_stable,
        }
    }
}

/// The newly observed state of one device.
#[derive(Debug)]
pub struct ObservedState {
    pub device_key: String,
    pub display_name: String,
    pub ip: String,
    pub hostname: Option<String>,
    pub mac: Option<String>,
    /// False when this device cannot be re-identified across scans.
    pub identity_stable: bool,
}

/// What an [`ObservedState`] says.
#[verifier::ext_equal]
pub struct ObservedModel {
    pub device_key: Seq<char>,
    pub display_name: Seq<char>,
    pub ip: Seq<char>,
    pub hostname: Option<Seq<char>>,
    pub mac: Option<Seq<char>>,
    pub identity_stable: bool,
}

impl DeepView for ObservedState {
    type V = ObservedModel;

    open spec fn deep_view(&self) -> ObservedModel {
        ObservedModel {
            device_key: self.device_key@,
            display_name: self.display_name@,
            ip: self.ip@,
            hostname: self.hostname.deep_view(),
            mac: self.mac.deep_view(),
            identity_stable: self.identity_stable,
        }
    }
}

/// Outcome of the diff, including updated miss streaks the store should apply.
#[derive(Debug)]
pub struct DiffOutcome {
    pub transitions: Vec<Transition>,
    /// (device_key, new_streak) for devices not seen this scan. Only advanced
    /// when the scan could prove absence; empty on partial scans by design.
    pub streak_updates: Vec<(String, i64)>,
    /// Devices whose streak should reset because they were seen again.
    pub streak_resets: Vec<String>,
    /// Devices just announced `gone`, so the store can record that the
    /// announcement was made and not repeat it next scan.
    pub gone_marks: Vec<String>,
}

/// What a [`DiffOutcome`] says.
#[verifier::ext_equal]
pub struct OutcomeModel {
    pub transitions: Seq<crate::model::TransitionModel>,
    pub streak_updates: Seq<(Seq<char>, i64)>,
    pub streak_resets: Seq<Seq<char>>,
    pub gone_marks: Seq<Seq<char>>,
}

impl DeepView for DiffOutcome {
    type V = OutcomeModel;

    open spec fn deep_view(&self) -> OutcomeModel {
        OutcomeModel {
            transitions: self.transitions.deep_view(),
            streak_updates: self.streak_updates.deep_view(),
            streak_resets: self.streak_resets.deep_view(),
            gone_marks: self.gone_marks.deep_view(),
        }
    }
}

// ----- what a diff is -----

/// A field changed only when this scan actually observed a value that differs
/// from the one on record.
pub open spec fn note(
    field: Seq<char>,
    from: Option<Seq<char>>,
    to: Option<Seq<char>>,
) -> Seq<crate::model::ChangeModel> {
    match to {
        Some(t) => if t.len() > 0 && from != Some(t) {
            seq![crate::model::ChangeModel { field, from, to }]
        } else {
            Seq::empty()
        },
        None => Seq::empty(),
    }
}

/// The fields of a device that changed.
pub open spec fn changes_of(p: PriorModel, o: ObservedModel) -> Seq<crate::model::ChangeModel> {
    note("ip"@, p.last_ip, Some(o.ip)) + note("hostname"@, p.last_hostname, o.hostname) + note(
        "mac"@,
        p.last_mac,
        o.mac,
    )
}

/// A transition of a device that was observed.
pub open spec fn seen_as(
    kind: TransitionKind,
    o: ObservedModel,
    changes: Seq<crate::model::ChangeModel>,
) -> crate::model::TransitionModel {
    crate::model::TransitionModel {
        kind,
        device_key: o.device_key,
        device_display: o.display_name,
        changes,
        unstable_identity: !o.identity_stable,
    }
}

/// What seeing one device means: it is new, or it changed, or it came back
/// from an absence that was announced, or nothing.
pub open spec fn seen_transitions(
    prior: Option<PriorModel>,
    o: ObservedModel,
) -> Seq<crate::model::TransitionModel> {
    match prior {
        None => seq![seen_as(TransitionKind::New, o, Seq::empty())],
        Some(p) => {
            let changed = if changes_of(p, o).len() > 0 {
                seq![seen_as(TransitionKind::Changed, o, changes_of(p, o))]
            } else {
                Seq::empty()
            };
            let returned = if p.reported_gone {
                seq![seen_as(TransitionKind::Returned, o, Seq::empty())]
            } else {
                Seq::empty()
            };
            changed + returned
        },
    }
}

/// What this scan's devices mean, in the order in which they were observed.
pub open spec fn seen_part(
    prior: Seq<(Seq<char>, PriorModel)>,
    observed: Seq<(Seq<char>, ObservedModel)>,
) -> Seq<crate::model::TransitionModel>
    decreases observed.len(),
{
    if observed.len() == 0 {
        Seq::empty()
    } else {
        let o = observed.last().1;
        seen_part(prior, observed.drop_last()) + seen_transitions(
            crate::keymap::lookup(prior, o.device_key),
            o,
        )
    }
}

/// Not seeing a device counts as a miss: the scan can prove absence, the
/// device was not observed, and its identity would be recognised if it came
/// back.
pub open spec fn missed(
    key: Seq<char>,
    p: PriorModel,
    observed: Seq<(Seq<char>, ObservedModel)>,
    provable: bool,
) -> bool {
    provable && !crate::keymap::has_key(observed, key) && p.identity_stable
}

/// A miss is announced: it reached the grace period and was not announced
/// before.
pub open spec fn announced(p: PriorModel, grace: u32) -> bool {
    p.miss_streak + 1 >= grace && !p.reported_gone
}

/// The transition of a device that is gone.
pub open spec fn gone_as(key: Seq<char>, p: PriorModel) -> crate::model::TransitionModel {
    crate::model::TransitionModel {
        kind: TransitionKind::Gone,
        device_key: key,
        device_display: p.display_name,
        changes: Seq::empty(),
        unstable_identity: false,
    }
}

/// The devices now gone.
pub open spec fn gone_part(
    prior: Seq<(Seq<char>, PriorModel)>,
    observed: Seq<(Seq<char>, ObservedModel)>,
    provable: bool,
    grace: u32,
) -> Seq<crate::model::TransitionModel>
    decreases prior.len(),
{
    if prior.len() == 0 {
        Seq::empty()
    } else {
        let (key, p) = prior.last();
        let rest = gone_part(prior.drop_last(), observed, provable, grace);
        if missed(key, p, observed, provable) && announced(p, grace) {
            rest.push(gone_as(key, p))
        } else {
            rest
        }
    }
}

/// The keys of the devices now gone.
pub open spec fn gone_keys(
    prior: Seq<(Seq<char>, PriorModel)>,
    observed: Seq<(Seq<char>, ObservedModel)>,
    provable: bool,
    grace: u32,
) -> Seq<Seq<char>>
    decreases prior.len(),
{
    if prior.len() == 0 {
        Seq::empty()
    } else {
        let (key, p) = prior.last();
        let rest = gone_keys(prior.drop_last(), observed, provable, grace);
        if missed(key, p, observed, provable) && announced(p, grace) {
            rest.push(key)
        } else {
            rest
        }
    }
}

/// The longer streaks of the devices that were missed.
pub open spec fn missed_part(
    prior: Seq<(Seq<char>, PriorModel)>,
    observed: Seq<(Seq<char>, ObservedModel)>,
    provable: bool,
) -> Seq<(Seq<char>, i64)>
    decreases prior.len(),
{
    if prior.len() == 0 {
        Seq::empty()
    } else {
        let (key, p) = prior.last();
        let rest = missed_part(prior.drop_last(), observed, provable);
        if missed(key, p, observed, provable) {
            rest.push((key, (p.miss_streak + 1) as i64))
        } else {
            rest
        }
    }
}

/// The diff of a scan against the inventory.
pub open spec fn diff_of(
    prior: Seq<(Seq<char>, PriorModel)>,
    observed: Seq<(Seq<char>, ObservedModel)>,
    provable: bool,
    grace: u32,
) -> OutcomeModel {
    OutcomeModel {
        transitions: seen_part(prior, observed) + gone_part(prior, observed, provable, grace),
        streak_updates: missed_part(prior, observed, provable),
        streak_resets: Seq::new(observed.len(), |i: int| observed[i].1.device_key),
        gone_marks: gone_keys(prior, observed, provable, grace),
    }
}

/// No streak that would be advanced is at the end of its range.
pub open spec fn streaks_can_grow(
    prior: Seq<(Seq<char>, PriorModel)>,
    observed: Seq<(Seq<char>, ObservedModel)>,
    provable: bool,
) -> bool {
    forall|i: int|
        0 <= i < prior.len() ==> (missed((#[trigger] prior[i]).0, prior[i].1, observed, provable)
            ==> prior[i].1.miss_streak < i64::MAX)
}

// ----- computing it -----

/// Record a change of one field, if there is one.
fn push_change(changes: &mut Vec<FieldChange>, field: &str, from: &Option<String>, to: Option<&str>)
    ensures
        final(changes).deep_view() == old(changes).deep_view() + note(
            field@,
            from.deep_view(),
            to.deep_view(),
        ),
{
    let ghost before = changes.deep_view();
    if let Some(t) = to {
        if !t.is_empty() {
            let same = match from {
                Some(f) => str_eq(f.as_str(), t),
                None => false,
            };
            if !same {
                changes.push(
                    FieldChange {
                        field: field.to_string(),
                        from: clone_opt(from),
                        to: Some(t.to_string()),
                    },
                );
            }
        }
    }
    assert(changes.deep_view() == before + note(field@, from.deep_view(), to.deep_view()));
}

/// Compare one device against its record.
fn push_seen(transitions: &mut Vec<Transition>, prior: Option<&PriorState>, obs: &ObservedState)
    ensures
        final(transitions).deep_view() == old(transitions).deep_view() + seen_transitions(
            prior.deep_view(),
            obs.deep_view(),
        ),
{
    let ghost before = transitions.deep_view();
    let ghost o = obs.deep_view();
    match prior {
        None => {
            let t = Transition {
                kind: TransitionKind::New,
                device_key: obs.device_key.clone(),
                device_display: obs.display_name.clone(),
                changes: Vec::new(),
                unstable_identity: !obs.identity_stable,
            };
            assert(t.deep_view() == seen_as(TransitionKind::New, o, Seq::empty()));
            transitions.push(t);
        },
        Some(p) => {
            let mut changes: Vec<FieldChange> = Vec::new();
            push_change(&mut changes, "ip", &p.last_ip, Some(obs.ip.as_str()));
            push_change(&mut changes, "hostname", &p.last_hostname, as_opt_str(&obs.hostname));
            push_change(&mut changes, "mac", &p.last_mac, as_opt_str(&obs.mac));
            assert(changes.deep_view() == changes_of(p.deep_view(), o));
            if changes.len() > 0 {
                let t = Transition {
                    kind: TransitionKind::Changed,
                    device_key: obs.device_key.clone(),
                    device_display: obs.display_name.clone(),
                    changes,
                    unstable_identity: !obs.identity_stable,
                };
                assert(t.deep_view() == seen_as(
                    TransitionKind::Changed,
                    o,
                    changes_of(p.deep_view(), o),
                ));
                transitions.push(t);
            }
            // Returning from an absence that was actually announced. A quiet
            // spell nobody was told about is not a return.
            if p.reported_gone {
                let t = Transition {
                    kind: TransitionKind::Returned,
                    device_key: obs.device_key.clone(),
                    device_display: obs.display_name.clone(),
                    changes: Vec::new(),
                    unstable_identity: !obs.identity_stable,
                };
                assert(t.deep_view() == seen_as(TransitionKind::Returned, o, Seq::empty()));
                transitions.push(t);
            }
        },
    }
    assert(transitions.deep_view() == before + seen_transitions(prior.deep_view(), o));
}

/// Diff a scan's devices against the inventory.
pub fn compute_diff(
    prior: KeyMap<PriorState>,
    observed: &KeyMap<ObservedState>,
    integrity: &ScanIntegrity,
    grace_scans: u32,
) -> (r: DiffOutcome)
    requires
        streaks_can_grow(
            prior.deep_view(),
            observed.deep_view(),
            integrity.deep_view().proves_absence(),
        ),
    ensures
        r.deep_view() == diff_of(
            prior.deep_view(),
            observed.deep_view(),
            integrity.deep_view().proves_absence(),
            grace_scans,
        ),
{
    let ghost p_all = prior.deep_view();
    let ghost o_all = observed.deep_view();
    let mut transitions: Vec<Transition> = Vec::new();
    let mut streak_resets: Vec<String> = Vec::new();
    let mut i: usize = 0;
    while i < observed.entries.len()
        invariant
            i <= observed.entries.len(),
            p_all == prior.deep_view(),
            o_all == observed.deep_view(),
            transitions.deep_view() == seen_part(p_all, o_all.take(i as int)),
            streak_resets.deep_view() == Seq::new(i as nat, |k: int| o_all[k].1.device_key),
        decreases observed.entries.len() - i,
    {
        let obs = &observed.entries[i].1;
        assert(o_all[i as int].1 == obs.deep_view());
        assert(o_all.take(i + 1).drop_last() == o_all.take(i as int));
        push_seen(&mut transitions, prior.get(obs.device_key.as_str()), obs);
        let ghost resets = streak_resets.deep_view();
        streak_resets.push(obs.device_key.clone());
        assert(streak_resets.deep_view() == resets.push(obs.device_key@));
        i = i + 1;
    }
    assert(o_all.take(o_all.len() as int) == o_all);

    let provable = integrity.may_prove_absence();
    let mut streak_updates: Vec<(String, i64)> = Vec::new();
    let mut gone_marks: Vec<String> = Vec::new();
    let ghost seen = transitions.deep_view();
    let mut j: usize = 0;
    while j < prior.entries.len()
        invariant
            j <= prior.entries.len(),
            p_all == prior.deep_view(),
            o_all == observed.deep_view(),
            streaks_can_grow(p_all, o_all, provable),
            transitions.deep_view() == seen + gone_part(
                p_all.take(j as int),
                o_all,
                provable,
                grace_scans,
            ),
            streak_updates.deep_view() == missed_part(p_all.take(j as int), o_all, provable),
            gone_marks.deep_view() == gone_keys(
                p_all.take(j as int),
                o_all,
                provable,
                grace_scans,
            ),
        decreases prior.entries.len() - j,
    {
        let (key, p) = &prior.entries[j];
        assert(p_all[j as int] == (key@, p.deep_view()));
        assert(p_all.take(j + 1).drop_last() == p_all.take(j as int));
        if provable && !observed.contains_key(key.as_str()) && p.identity_stable {
            assert(missed(p_all[j as int].0, p_all[j as int].1, o_all, provable));
            let new_streak: i64 = p.miss_streak + 1;
            let ghost ups = streak_updates.deep_view();
            streak_updates.push((key.clone(), new_streak));
            assert(streak_updates.deep_view() == ups.push((key@, new_streak)));
            if new_streak >= grace_scans as i64 && !p.reported_gone {
                gone_marks.push(key.clone());
                let t = Transition {
                    kind: TransitionKind::Gone,
                    device_key: key.clone(),
                    device_display: p.display_name.clone(),
                    changes: Vec::new(),
                    unstable_identity: false,
                };
                assert(t.deep_view() == gone_as(key@, p.deep_view()));
                let ghost so_far = transitions.deep_view();
                transitions.push(t);
                assert(transitions.deep_view() == so_far.push(gone_as(key@, p.deep_view())));
            }
        }
        j = j + 1;
    }
    assert(p_all.take(p_all.len() as int) == p_all);
    DiffOutcome { transitions, streak_updates, streak_resets, gone_marks }
}

// ----- what holds of every diff -----

/// A transition found in the part about observed devices.
proof fn lemma_seen_member(
    prior: Seq<(Seq<char>, PriorModel)>,
    observed: Seq<(Seq<char>, ObservedModel)>,
    t: crate::model::TransitionModel,
)
    ensures
        seen_part(prior, observed).contains(t) <==> exists|i: int|
            0 <= i < observed.len() && seen_transitions(
                crate::keymap::lookup(prior, (#[trigger] observed[i]).1.device_key),
                observed[i].1,
            ).contains(t),
    decreases observed.len(),
{
    if observed.len() > 0 {
        let init = observed.drop_last();
        let o = observed.last().1;
        lemma_seen_member(prior, init, t);
        let a = seen_part(prior, init);
        let b = seen_transitions(crate::keymap::lookup(prior, o.device_key), o);
        lemma_concat_contains(a, b, t);
        if a.contains(t) {
            let i = choose|i: int|
                0 <= i < init.len() && seen_transitions(
                    crate::keymap::lookup(prior, (#[trigger] init[i]).1.device_key),
                    init[i].1,
                ).contains(t);
            assert(observed[i] == init[i]);
        }
        if b.contains(t) {
            assert(observed[observed.len() - 1].1 == o);
        }
        if exists|i: int|
            0 <= i < observed.len() && seen_transitions(
                crate::keymap::lookup(prior, (#[trigger] observed[i]).1.device_key),
                observed[i].1,
            ).contains(t) {
            let i = choose|i: int|
                0 <= i < observed.len() && seen_transitions(
                    crate::keymap::lookup(prior, (#[trigger] observed[i]).1.device_key),
                    observed[i].1,
                ).contains(t);
            if i < init.len() {
                assert(init[i] == observed[i]);
            }
        }
    }
}

/// What a concatenation holds.
proof fn lemma_concat_contains<A>(a: Seq<A>, b: Seq<A>, x: A)
    ensures
        (a + b).contains(x) <==> a.contains(x) || b.contains(x),
{
    if a.contains(x) {
        let i = choose|i: int| 0 <= i < a.len() && a[i] == x;
        assert((a + b)[i] == x);
    }
    if b.contains(x) {
        let i = choose|i: int| 0 <= i < b.len() && b[i] == x;
        assert((a + b)[a.len() + i] == x);
    }
}

/// What seeing one device can mean.
proof fn lemma_seen_kinds(prior: Option<PriorModel>, o: ObservedModel)
    ensures
        forall|t: crate::model::TransitionModel| #[trigger]
            seen_transitions(prior, o).contains(t) ==> {
                ||| t.kind == TransitionKind::New && prior is None && t == seen_as(
                    TransitionKind::New,
                    o,
                    Seq::empty(),
                )
                ||| t.kind == TransitionKind::Changed && prior is Some && changes_of(
                    prior.unwrap(),
                    o,
                ).len() > 0 && t == seen_as(
                    TransitionKind::Changed,
                    o,
                    changes_of(prior.unwrap(), o),
                )
                ||| t.kind == TransitionKind::Returned && prior is Some
                    && prior.unwrap().reported_gone && t == seen_as(
                    TransitionKind::Returned,
                    o,
                    Seq::empty(),
                )
            },
        prior is None ==> seen_transitions(prior, o).contains(
            seen_as(TransitionKind::New, o, Seq::empty()),
        ),
        prior is Some && changes_of(prior.unwrap(), o).len() > 0 ==> seen_transitions(
            prior,
            o,
        ).contains(seen_as(TransitionKind::Changed, o, changes_of(prior.unwrap(), o))),
        prior is Some && prior.unwrap().reported_gone ==> seen_transitions(prior, o).contains(
            seen_as(TransitionKind::Returned, o, Seq::empty()),
        ),
{
    let s = seen_transitions(prior, o);
    match prior {
        None => {
            assert(s[0] == seen_as(TransitionKind::New, o, Seq::empty()));
        },
        Some(p) => {
            if changes_of(p, o).len() > 0 {
                assert(s[0] == seen_as(TransitionKind::Changed, o, changes_of(p, o)));
            }
            if p.reported_gone {
                assert(s[s.len() - 1] == seen_as(TransitionKind::Returned, o, Seq::empty()));
            }
        },
    }
}

/// A transition found in the part about absent devices.
proof fn lemma_gone_member(
    prior: Seq<(Seq<char>, PriorModel)>,
    observed: Seq<(Seq<char>, ObservedModel)>,
    provable: bool,
    grace: u32,
    t: crate::model::TransitionModel,
)
    ensures
        gone_part(prior, observed, provable, grace).contains(t) <==> exists|i: int|
            0 <= i < prior.len() && missed(
                (#[trigger] prior[i]).0,
                prior[i].1,
                observed,
                provable,
            ) && announced(prior[i].1, grace) && t == gone_as(prior[i].0, prior[i].1),
    decreases prior.len(),
{
    if prior.len() > 0 {
        let init = prior.drop_last();
        let (key, p) = prior.last();
        lemma_gone_member(init, observed, provable, grace, t);
        let rest = gone_part(init, observed, provable, grace);
        let whole = gone_part(prior, observed, provable, grace);
        if rest.contains(t) {
            let k = choose|k: int| 0 <= k < rest.len() && rest[k] == t;
            assert(whole[k] == t);
            let i = choose|i: int|
                0 <= i < init.len() && missed(
                    (#[trigger] init[i]).0,
                    init[i].1,
                    observed,
                    provable,
                ) && announced(init[i].1, grace) && t == gone_as(init[i].0, init[i].1);
            assert(prior[i] == init[i]);
        }
        if missed(key, p, observed, provable) && announced(p, grace) {
            assert(whole == rest.push(gone_as(key, p)));
            assert(whole[whole.len() - 1] == gone_as(key, p));
            assert(prior[prior.len() - 1] == (key, p));
        }
        if exists|i: int|
            0 <= i < prior.len() && missed(
                (#[trigger] prior[i]).0,
                prior[i].1,
                observed,
                provable,
            ) && announced(prior[i].1, grace) && t == gone_as(prior[i].0, prior[i].1) {
            let i = choose|i: int|
                0 <= i < prior.len() && missed(
                    (#[trigger] prior[i]).0,
                    prior[i].1,
                    observed,
                    provable,
                ) && announced(prior[i].1, grace) && t == gone_as(prior[i].0, prior[i].1);
            if i < init.len() {
                assert(init[i] == prior[i]);
            }
        }
    }
}

/// The integrity rule: a scan that cannot prove absence reports nothing gone,
/// marks nothing gone and advances no miss streak.
pub proof fn law_partial_scan_never_reports_gone(
    prior: Seq<(Seq<char>, PriorModel)>,
    observed: Seq<(Seq<char>, ObservedModel)>,
    integrity: IntegrityModel,
    grace: u32,
)
    requires
        !integrity.proves_absence(),
    ensures
        ({
            let d = diff_of(prior, observed, integrity.proves_absence(), grace);
            &&& forall|i: int|
                0 <= i < d.transitions.len() ==> (#[trigger] d.transitions[i]).kind
                    != TransitionKind::Gone
            &&& d.streak_updates.len() == 0
            &&& d.gone_marks.len() == 0
        }),
    decreases prior.len(),
{
    let d = diff_of(prior, observed, false, grace);
    if prior.len() > 0 {
        law_partial_scan_never_reports_gone(prior.drop_last(), observed, integrity, grace);
    }
    assert(d.streak_updates.len() == 0);
    assert(d.gone_marks.len() == 0);
    assert forall|i: int| 0 <= i < d.transitions.len() implies (#[trigger] d.transitions[i]).kind
        != TransitionKind::Gone by {
        if d.transitions[i].kind == TransitionKind::Gone {
            law_gone_exactly_when(prior, observed, false, grace, d.transitions[i]);
            assert(d.transitions.contains(d.transitions[i]));
        }
    }
}

/// A device is reported gone exactly when the scan can prove absence, the
/// inventory knows the device and this scan did not see it, its identity is
/// stable, its streak has reached the grace period, and its absence was not
/// announced before. The decision is made for each device by itself.
pub proof fn law_gone_exactly_when(
    prior: Seq<(Seq<char>, PriorModel)>,
    observed: Seq<(Seq<char>, ObservedModel)>,
    provable: bool,
    grace: u32,
    t: crate::model::TransitionModel,
)
    requires
        t.kind == TransitionKind::Gone,
    ensures
        diff_of(prior, observed, provable, grace).transitions.contains(t) <==> exists|i: int|
            0 <= i < prior.len() && provable && !crate::keymap::has_key(
                observed,
                (#[trigger] prior[i]).0,
            ) && prior[i].1.identity_stable && prior[i].1.miss_streak + 1 >= grace
                && !prior[i].1.reported_gone && t == gone_as(prior[i].0, prior[i].1),
{
    let a = seen_part(prior, observed);
    let b = gone_part(prior, observed, provable, grace);
    lemma_concat_contains(a, b, t);
    lemma_seen_member(prior, observed, t);
    lemma_gone_member(prior, observed, provable, grace, t);
    if a.contains(t) {
        let i = choose|i: int|
            0 <= i < observed.len() && seen_transitions(
                crate::keymap::lookup(prior, (#[trigger] observed[i]).1.device_key),
                observed[i].1,
            ).contains(t);
        lemma_seen_kinds(
            crate::keymap::lookup(prior, observed[i].1.device_key),
            observed[i].1,
        );
        assert(false);
    }
    if b.contains(t) {
        let i = choose|i: int|
            0 <= i < prior.len() && missed(
                (#[trigger] prior[i]).0,
                prior[i].1,
                observed,
                provable,
            ) && announced(prior[i].1, grace) && t == gone_as(prior[i].0, prior[i].1);
        assert(!crate::keymap::has_key(observed, prior[i].0));
    }
    if exists|i: int|
        0 <= i < prior.len() && provable && !crate::keymap::has_key(
            observed,
            (#[trigger] prior[i]).0,
        ) && prior[i].1.identity_stable && prior[i].1.miss_streak + 1 >= grace
            && !prior[i].1.reported_gone && t == gone_as(prior[i].0, prior[i].1) {
        let i = choose|i: int|
            0 <= i < prior.len() && provable && !crate::keymap::has_key(
                observed,
                (#[trigger] prior[i]).0,
            ) && prior[i].1.identity_stable && prior[i].1.miss_streak + 1 >= grace
                && !prior[i].1.reported_gone && t == gone_as(prior[i].0, prior[i].1);
        assert(missed(prior[i].0, prior[i].1, observed, provable) && announced(
            prior[i].1,
            grace,
        ));
    }
}

/// A device whose identity will not hold is never reported gone and accrues
/// no miss streak, whatever the scan proved.
pub proof fn law_unstable_identity_never_gone(
    prior: Seq<(Seq<char>, PriorModel)>,
    observed: Seq<(Seq<char>, ObservedModel)>,
    provable: bool,
    grace: u32,
    i: int,
)
    requires
        crate::keymap::keys_unique(prior),
        0 <= i < prior.len(),
        !prior[i].1.identity_stable,
    ensures
        ({
            let d = diff_of(prior, observed, provable, grace);
            &&& forall|t: crate::model::TransitionModel| #[trigger]
                d.transitions.contains(t) && t.kind == TransitionKind::Gone ==> t.device_key
                    != prior[i].0
            &&& forall|n: i64| !#[trigger] d.streak_updates.contains((prior[i].0, n))
        }),
{
    let d = diff_of(prior, observed, provable, grace);
    assert forall|t: crate::model::TransitionModel| #[trigger]
        d.transitions.contains(t) && t.kind == TransitionKind::Gone implies t.device_key
        != prior[i].0 by {
        law_gone_exactly_when(prior, observed, provable, grace, t);
    }
    assert forall|n: i64| !#[trigger] d.streak_updates.contains((prior[i].0, n)) by {
        law_streak_exactly_when(prior, observed, provable, grace, prior[i].0, n);
    }
}

/// A miss streak is advanced exactly for the devices that count as missed,
/// and by one.
pub proof fn law_streak_exactly_when(
    prior: Seq<(Seq<char>, PriorModel)>,
    observed: Seq<(Seq<char>, ObservedModel)>,
    provable: bool,
    grace: u32,
    key: Seq<char>,
    streak: i64,
)
    ensures
        diff_of(prior, observed, provable, grace).streak_updates.contains((key, streak))
            <==> exists|i: int|
            0 <= i < prior.len() && (#[trigger] prior[i]).0 == key && missed(
                key,
                prior[i].1,
                observed,
                provable,
            ) && streak == (prior[i].1.miss_streak + 1) as i64,
    decreases prior.len(),
{
    if prior.len() > 0 {
        let init = prior.drop_last();
        let (k, p) = prior.last();
        law_streak_exactly_when(init, observed, provable, grace, key, streak);
        let rest = missed_part(init, observed, provable);
        let whole = missed_part(prior, observed, provable);
        let x = (key, streak);
        if rest.contains(x) {
            let j = choose|j: int| 0 <= j < rest.len() && rest[j] == x;
            assert(whole[j] == x);
            let i = choose|i: int|
                0 <= i < init.len() && (#[trigger] init[i]).0 == key && missed(
                    key,
                    init[i].1,
                    observed,
                    provable,
                ) && streak == (init[i].1.miss_streak + 1) as i64;
            assert(prior[i] == init[i]);
        }
        if missed(k, p, observed, provable) {
            assert(whole == rest.push((k, (p.miss_streak + 1) as i64)));
            assert(whole[whole.len() - 1] == (k, (p.miss_streak + 1) as i64));
            assert(prior[prior.len() - 1] == (k, p));
        }
        if exists|i: int|
            0 <= i < prior.len() && (#[trigger] prior[i]).0 == key && missed(
                key,
                prior[i].1,
                observed,
                provable,
            ) && streak == (prior[i].1.miss_streak + 1) as i64 {
            let i = choose|i: int|
                0 <= i < prior.len() && (#[trigger] prior[i]).0 == key && missed(
                    key,
                    prior[i].1,
                    observed,
                    provable,
                ) && streak == (prior[i].1.miss_streak + 1) as i64;
            if i < init.len() {
                assert(init[i] == prior[i]);
            }
        }
    }
}

/// Presence is always evidence: whatever the scan proved about absence, a
/// device it saw is reported new exactly when the inventory does not know it,
/// changed exactly when a field it observed differs, and returned exactly
/// when its absence had been announced.
pub proof fn law_seen_exactly_when(
    prior: Seq<(Seq<char>, PriorModel)>,
    observed: Seq<(Seq<char>, ObservedModel)>,
    provable: bool,
    grace: u32,
    t: crate::model::TransitionModel,
)
    requires
        t.kind != TransitionKind::Gone,
    ensures
        diff_of(prior, observed, provable, grace).transitions.contains(t) <==> exists|i: int|
            0 <= i < observed.len() && ({
                let o = (#[trigger] observed[i]).1;
                match crate::keymap::lookup(prior, o.device_key) {
                    None => t == seen_as(TransitionKind::New, o, Seq::empty()),
                    Some(p) => {
                        ||| changes_of(p, o).len() > 0 && t == seen_as(
                            TransitionKind::Changed,
                            o,
                            changes_of(p, o),
                        )
                        ||| p.reported_gone && t == seen_as(TransitionKind::Returned, o, Seq::empty())
                    },
                }
            }),
{
    let a = seen_part(prior, observed);
    let b = gone_part(prior, observed, provable, grace);
    lemma_concat_contains(a, b, t);
    lemma_seen_member(prior, observed, t);
    lemma_gone_member(prior, observed, provable, grace, t);
    assert(!b.contains(t));
    assert forall|i: int| 0 <= i < observed.len() implies #[trigger] seen_transitions(
        crate::keymap::lookup(prior, observed[i].1.device_key),
        observed[i].1,
    ).contains(t) == ({
        let o = observed[i].1;
        match crate::keymap::lookup(prior, o.device_key) {
            None => t == seen_as(TransitionKind::New, o, Seq::empty()),
            Some(p) => {
                ||| changes_of(p, o).len() > 0 && t == seen_as(
                    TransitionKind::Changed,
                    o,
                    changes_of(p, o),
                )
                ||| p.reported_gone && t == seen_as(TransitionKind::Returned, o, Seq::empty())
            },
        }
    }) by {
        lemma_seen_kinds(
            crate::keymap::lookup(prior, observed[i].1.device_key),
            observed[i].1,
        );
    }
}

/// A field that was not observed, or observed as it was, is no change.
pub proof fn law_silence_is_no_change(field: Seq<char>, from: Option<Seq<char>>, to: Option<Seq<char>>)
    ensures
        note(field, from, to).len() == 0 <==> (to is None || to.unwrap().len() == 0 || from == to),
        note(field, from, to).len() == 1 ==> note(field, from, to)[0] == (
        crate::model::ChangeModel { field, from, to }),
{
}

/// Every device that was seen has its streak reset, so that its next absence
/// can be announced again.
pub proof fn law_seen_devices_are_reset(
    prior: Seq<(Seq<char>, PriorModel)>,
    observed: Seq<(Seq<char>, ObservedModel)>,
    provable: bool,
    grace: u32,
    i: int,
)
    requires
        0 <= i < observed.len(),
    ensures
        diff_of(prior, observed, provable, grace).streak_resets.contains(observed[i].1.device_key),
{
    let d = diff_of(prior, observed, provable, grace);
    assert(d.streak_resets[i] == observed[i].1.device_key);
}

/// The devices marked gone are those reported gone, in the same order.
pub proof fn law_gone_marks_match_reports(
    prior: Seq<(Seq<char>, PriorModel)>,
    observed: Seq<(Seq<char>, ObservedModel)>,
    provable: bool,
    grace: u32,
)
    ensures
        gone_keys(prior, observed, provable, grace) == gone_part(
            prior,
            observed,
            provable,
            grace,
        ).map_values(|t: crate::model::TransitionModel| t.device_key),
    decreases prior.len(),
{
    if prior.len() > 0 {
        law_gone_marks_match_reports(prior.drop_last(), observed, provable, grace);
    }
    assert(gone_keys(prior, observed, provable, grace) =~= gone_part(
        prior,
        observed,
        provable,
        grace,
    ).map_values(|t: crate::model::TransitionModel| t.device_key));
}

/// The condition of being about a device.
spec fn about(key: Seq<char>) -> spec_fn(crate::model::TransitionModel) -> bool {
    |t: crate::model::TransitionModel| t.device_key == key
}

/// What filtering a concatenation keeps.
proof fn lemma_filter_concat<A>(a: Seq<A>, b: Seq<A>, p: spec_fn(A) -> bool)
    ensures
        (a + b).filter(p) == a.filter(p) + b.filter(p),
    decreases b.len(),
{
    if b.len() == 0 {
        assert(a + b == a);
        reveal(Seq::filter);
        assert(b.filter(p) == Seq::<A>::empty());
        assert(a.filter(p) + b.filter(p) == a.filter(p));
    } else {
        let init = b.drop_last();
        let x = b.last();
        lemma_filter_concat(a, init, p);
        assert(a + b == (a + init).push(x));
        assert(b == init.push(x));
        crate::seqs::lemma_filter_push(a + init, x, p);
        crate::seqs::lemma_filter_push(init, x, p);
        assert((a + b).filter(p) == a.filter(p) + b.filter(p));
    }
}

/// A filter that everything satisfies keeps everything.
proof fn lemma_filter_all<A>(s: Seq<A>, p: spec_fn(A) -> bool)
    requires
        forall|i: int| 0 <= i < s.len() ==> p(#[trigger] s[i]),
    ensures
        s.filter(p) == s,
    decreases s.len(),
{
    reveal(Seq::filter);
    if s.len() > 0 {
        let init = s.drop_last();
        assert forall|i: int| 0 <= i < init.len() implies p(#[trigger] init[i]) by {
            assert(init[i] == s[i]);
        }
        lemma_filter_all(init, p);
        assert(s == init.push(s.last()));
    }
}

/// A filter that nothing satisfies keeps nothing.
proof fn lemma_filter_none<A>(s: Seq<A>, p: spec_fn(A) -> bool)
    requires
        forall|i: int| 0 <= i < s.len() ==> !p(#[trigger] s[i]),
    ensures
        s.filter(p) == Seq::<A>::empty(),
    decreases s.len(),
{
    reveal(Seq::filter);
    if s.len() > 0 {
        let init = s.drop_last();
        assert forall|i: int| 0 <= i < init.len() implies !p(#[trigger] init[i]) by {
            assert(init[i] == s[i]);
        }
        lemma_filter_none(init, p);
    }
}

/// What is said of one device for having been seen.
proof fn lemma_seen_about(
    prior: Seq<(Seq<char>, PriorModel)>,
    observed: Seq<(Seq<char>, ObservedModel)>,
    key: Seq<char>,
)
    requires
        forall|a: int, b: int|
            0 <= a < b < observed.len() ==> (#[trigger] observed[a]).1.device_key != (
            #[trigger] observed[b]).1.device_key,
    ensures
        forall|i: int|
            0 <= i < observed.len() && (#[trigger] observed[i]).1.device_key == key ==> seen_part(
                prior,
                observed,
            ).filter(about(key)) == seen_transitions(
                crate::keymap::lookup(prior, key),
                observed[i].1,
            ),
        (forall|i: int|
            0 <= i < observed.len() ==> (#[trigger] observed[i]).1.device_key != key) ==> seen_part(
            prior,
            observed,
        ).filter(about(key)) == Seq::<crate::model::TransitionModel>::empty(),
    decreases observed.len(),
{
    let p = about(key);
    if observed.len() == 0 {
        lemma_filter_none(seen_part(prior, observed), p);
    } else {
        let init = observed.drop_last();
        let o = observed.last().1;
        assert forall|a: int, b: int| 0 <= a < b < init.len() implies (
        #[trigger] init[a]).1.device_key != (#[trigger] init[b]).1.device_key by {
            assert(observed[a].1.device_key != observed[b].1.device_key);
        }
        lemma_seen_about(prior, init, key);
        let a = seen_part(prior, init);
        let b = seen_transitions(crate::keymap::lookup(prior, o.device_key), o);
        lemma_filter_concat(a, b, p);
        assert(forall|k: int| 0 <= k < b.len() ==> (#[trigger] b[k]).device_key == o.device_key);
        if o.device_key == key {
            lemma_filter_all(b, p);
            assert forall|i: int| 0 <= i < init.len() implies (#[trigger] init[i]).1.device_key
                != key by {
                assert(observed[i].1.device_key != observed[observed.len() - 1].1.device_key);
            }
            assert(a.filter(p) + b == b);
            assert forall|i: int|
                0 <= i < observed.len() && (#[trigger] observed[i]).1.device_key == key implies i
                == observed.len() - 1 by {
                if i < observed.len() - 1 {
                    assert(init[i] == observed[i]);
                }
            }
            assert(observed[observed.len() - 1].1.device_key == key);
        } else {
            lemma_filter_none(b, p);
            assert(a.filter(p) + b.filter(p) == a.filter(p));
            assert forall|i: int|
                0 <= i < observed.len() && (#[trigger] observed[i]).1.device_key == key implies i
                < init.len() && init[i] == observed[i] by {}
            assert forall|i: int|
                0 <= i < observed.len() && (#[trigger] observed[i]).1.device_key
                    == key implies seen_part(prior, observed).filter(about(key))
                == seen_transitions(crate::keymap::lookup(prior, key), observed[i].1) by {
                assert(init[i].1.device_key == key);
            }
            if forall|i: int|
                0 <= i < observed.len() ==> (#[trigger] observed[i]).1.device_key != key {
                assert forall|i: int| 0 <= i < init.len() implies (#[trigger] init[i]).1.device_key
                    != key by {
                    assert(init[i] == observed[i]);
                }
            }
        }
    }
}

/// What is said of one device for not having been seen.
proof fn lemma_gone_about(
    prior: Seq<(Seq<char>, PriorModel)>,
    observed: Seq<(Seq<char>, ObservedModel)>,
    provable: bool,
    grace: u32,
    key: Seq<char>,
)
    requires
        crate::keymap::keys_unique(prior),
    ensures
        forall|j: int|
            0 <= j < prior.len() && (#[trigger] prior[j]).0 == key ==> {
                let m = missed(key, prior[j].1, observed, provable);
                let g = m && announced(prior[j].1, grace);
                &&& gone_part(prior, observed, provable, grace).filter(about(key)) == if g {
                    seq![gone_as(key, prior[j].1)]
                } else {
                    Seq::empty()
                }
                &&& gone_keys(prior, observed, provable, grace).filter(
                    |k: Seq<char>| k == key,
                ) == if g {
                    seq![key]
                } else {
                    Seq::empty()
                }
                &&& missed_part(prior, observed, provable).filter(
                    |u: (Seq<char>, i64)| u.0 == key,
                ) == if m {
                    seq![(key, (prior[j].1.miss_streak + 1) as i64)]
                } else {
                    Seq::empty()
                }
            },
        (forall|j: int| 0 <= j < prior.len() ==> (#[trigger] prior[j]).0 != key) ==> {
            &&& gone_part(prior, observed, provable, grace).filter(about(key)) == Seq::<
                crate::model::TransitionModel,
            >::empty()
            &&& gone_keys(prior, observed, provable, grace).filter(|k: Seq<char>| k == key)
                == Seq::<Seq<char>>::empty()
            &&& missed_part(prior, observed, provable).filter(|u: (Seq<char>, i64)| u.0 == key)
                == Seq::<(Seq<char>, i64)>::empty()
        },
    decreases prior.len(),
{
    let p = about(key);
    let q = |k: Seq<char>| k == key;
    let r = |u: (Seq<char>, i64)| u.0 == key;
    if prior.len() == 0 {
        lemma_filter_none(gone_part(prior, observed, provable, grace), p);
        lemma_filter_none(gone_keys(prior, observed, provable, grace), q);
        lemma_filter_none(missed_part(prior, observed, provable), r);
    } else {
        let init = prior.drop_last();
        let (k, x) = prior.last();
        assert forall|a: int, b: int| 0 <= a < b < init.len() implies (#[trigger] init[a]).0 != (
        #[trigger] init[b]).0 by {
            assert(prior[a].0 != prior[b].0);
        }
        lemma_gone_about(init, observed, provable, grace, key);
        crate::seqs::lemma_filter_push(
            gone_part(init, observed, provable, grace),
            gone_as(k, x),
            p,
        );
        crate::seqs::lemma_filter_push(gone_keys(init, observed, provable, grace), k, q);
        crate::seqs::lemma_filter_push(
            missed_part(init, observed, provable),
            (k, (x.miss_streak + 1) as i64),
            r,
        );
        assert(prior[prior.len() - 1] == (k, x));
        if k == key {
            assert forall|j: int| 0 <= j < init.len() implies (#[trigger] init[j]).0 != key by {
                assert(prior[j].0 != prior[prior.len() - 1].0);
            }
            assert forall|j: int| 0 <= j < prior.len() && (#[trigger] prior[j]).0 == key implies j
                == prior.len() - 1 by {
                if j < init.len() {
                    assert(init[j] == prior[j]);
                }
            }
        } else {
            assert forall|j: int| 0 <= j < prior.len() && (#[trigger] prior[j]).0 == key implies j
                < init.len() && init[j] == prior[j] by {}
            if forall|j: int| 0 <= j < prior.len() ==> (#[trigger] prior[j]).0 != key {
                assert forall|j: int| 0 <= j < init.len() implies (#[trigger] init[j]).0 != key by {
                    assert(init[j] == prior[j]);
                }
            }
        }
    }
}

/// The devices of a scan: each once, under its key.
pub open spec fn well_keyed(observed: Seq<(Seq<char>, ObservedModel)>) -> bool {
    &&& forall|a: int| 0 <= a < observed.len() ==> (#[trigger] observed[a]).0
        == observed[a].1.device_key
    &&& forall|a: int, b: int|
        0 <= a < b < observed.len() ==> (#[trigger] observed[a]).0 != (#[trigger] observed[b]).0
}

/// All that is reported of a device that was seen and is not on record: it is
/// new. Its streak is reset, and it is neither missed nor marked gone.
pub proof fn law_unknown_device_is_new(
    prior: Seq<(Seq<char>, PriorModel)>,
    observed: Seq<(Seq<char>, ObservedModel)>,
    integrity: IntegrityModel,
    grace: u32,
    i: int,
)
    requires
        crate::keymap::keys_unique(prior),
        well_keyed(observed),
        0 <= i < observed.len(),
        forall|j: int| 0 <= j < prior.len() ==> (#[trigger] prior[j]).0 != observed[i].0,
    ensures
        ({
            let d = diff_of(prior, observed, integrity.proves_absence(), grace);
            let o = observed[i].1;
            &&& d.transitions.filter(
                |t: crate::model::TransitionModel| t.device_key == o.device_key,
            ) == seq![
                crate::model::TransitionModel {
                    kind: TransitionKind::New,
                    device_key: o.device_key,
                    device_display: o.display_name,
                    changes: Seq::empty(),
                    unstable_identity: !o.identity_stable,
                },
            ]
            &&& d.streak_resets.filter(|k: Seq<char>| k == o.device_key) == seq![o.device_key]
            &&& d.streak_updates.filter(|u: (Seq<char>, i64)| u.0 == o.device_key) == Seq::<
                (Seq<char>, i64),
            >::empty()
            &&& d.gone_marks.filter(|k: Seq<char>| k == o.device_key) == Seq::<Seq<char>>::empty()
        }),
{
    let provable = integrity.proves_absence();
    let d = diff_of(prior, observed, provable, grace);
    let o = observed[i].1;
    let key = o.device_key;
    lemma_distinct_devices(observed);
    lemma_seen_about(prior, observed, key);
    lemma_gone_about(prior, observed, provable, grace, key);
    lemma_reset_once(observed, i);
    crate::keymap::lemma_key_index(prior, key);
    assert(crate::keymap::lookup(prior, key) is None);
    lemma_filter_concat(
        seen_part(prior, observed),
        gone_part(prior, observed, provable, grace),
        about(key),
    );
    let new = seq![seen_as(TransitionKind::New, o, Seq::empty())];
    assert(seen_part(prior, observed).filter(about(key)) == new);
    assert(new + Seq::<crate::model::TransitionModel>::empty() == new);
    assert(about(key) =~= (|t: crate::model::TransitionModel| t.device_key == o.device_key));
}

/// All that is reported of a device that was seen and is on record, whatever
/// the scan proved and whatever else is on record of it: that it changed, once,
/// if a field it showed differs from the record, with exactly the fields that
/// do; then that it returned, if its absence had been announced. Its streak is
/// reset, and it is neither missed nor marked gone.
pub proof fn law_known_device_changes_and_returns(
    prior: Seq<(Seq<char>, PriorModel)>,
    observed: Seq<(Seq<char>, ObservedModel)>,
    integrity: IntegrityModel,
    grace: u32,
    i: int,
    j: int,
)
    requires
        crate::keymap::keys_unique(prior),
        well_keyed(observed),
        0 <= i < observed.len(),
        0 <= j < prior.len(),
        prior[j].0 == observed[i].0,
    ensures
        ({
            let d = diff_of(prior, observed, integrity.proves_absence(), grace);
            let o = observed[i].1;
            let p = prior[j].1;
            let said = d.transitions.filter(
                |t: crate::model::TransitionModel| t.device_key == o.device_key,
            );
            let ip = o.ip.len() > 0 && p.last_ip != Some(o.ip);
            let hostname = o.hostname is Some && o.hostname.unwrap().len() > 0 && p.last_hostname
                != o.hostname;
            let mac = o.mac is Some && o.mac.unwrap().len() > 0 && p.last_mac != o.mac;
            let changed: int = if ip || hostname || mac {
                1
            } else {
                0
            };
            let returned: int = if p.reported_gone {
                1
            } else {
                0
            };
            &&& said.len() == changed + returned
            &&& ip || hostname || mac ==> {
                let t = said[0];
                let fields: int = (if ip {
                    1int
                } else {
                    0
                }) + (if hostname {
                    1int
                } else {
                    0
                }) + (if mac {
                    1int
                } else {
                    0
                });
                &&& t.kind == TransitionKind::Changed
                &&& t.device_display == o.display_name
                &&& t.unstable_identity == !o.identity_stable
                &&& t.changes.len() == fields
                &&& ip ==> t.changes.contains(
                    crate::model::ChangeModel { field: "ip"@, from: p.last_ip, to: Some(o.ip) },
                )
                &&& hostname ==> t.changes.contains(
                    crate::model::ChangeModel {
                        field: "hostname"@,
                        from: p.last_hostname,
                        to: o.hostname,
                    },
                )
                &&& mac ==> t.changes.contains(
                    crate::model::ChangeModel { field: "mac"@, from: p.last_mac, to: o.mac },
                )
            }
            &&& p.reported_gone ==> said[changed] == (crate::model::TransitionModel {
                kind: TransitionKind::Returned,
                device_key: o.device_key,
                device_display: o.display_name,
                changes: Seq::empty(),
                unstable_identity: !o.identity_stable,
            })
            &&& d.streak_resets.filter(|k: Seq<char>| k == o.device_key) == seq![o.device_key]
            &&& d.streak_updates.filter(|u: (Seq<char>, i64)| u.0 == o.device_key) == Seq::<
                (Seq<char>, i64),
            >::empty()
            &&& d.gone_marks.filter(|k: Seq<char>| k == o.device_key) == Seq::<Seq<char>>::empty()
        }),
{
    let provable = integrity.proves_absence();
    let o = observed[i].1;
    let p = prior[j].1;
    let key = o.device_key;
    lemma_distinct_devices(observed);
    lemma_seen_about(prior, observed, key);
    lemma_gone_about(prior, observed, provable, grace, key);
    lemma_reset_once(observed, i);
    crate::keymap::lemma_lookup_entry(prior, j);
    crate::keymap::lemma_key_index(observed, key);
    assert(crate::keymap::has_key(observed, key));
    assert(!missed(key, p, observed, provable));
    let seen = seen_part(prior, observed);
    let gone = gone_part(prior, observed, provable, grace);
    lemma_filter_concat(seen, gone, about(key));
    let said = seen_transitions(Some(p), o);
    assert(said + Seq::<crate::model::TransitionModel>::empty() == said);
    assert(about(key) =~= (|t: crate::model::TransitionModel| t.device_key == o.device_key));
    let c = changes_of(p, o);
    let a = note("ip"@, p.last_ip, Some(o.ip));
    let b = note("hostname"@, p.last_hostname, o.hostname);
    let e = note("mac"@, p.last_mac, o.mac);
    assert(a.len() > 0 ==> c[0] == a[0]);
    assert(b.len() > 0 ==> c[a.len() as int] == b[0]);
    assert(e.len() > 0 ==> c[(a.len() + b.len()) as int] == e[0]);
}

/// All that is reported of a device on record that was not seen: that it is
/// gone, where the scan finished cleanly and covered the network, the device
/// would be recognised, its misses reach the grace period and its absence was
/// not announced before. Its streak grows by one where it counts as missed, and
/// is not reset; it is marked gone where it is reported so.
pub proof fn law_absent_device_is_missed_then_gone(
    prior: Seq<(Seq<char>, PriorModel)>,
    observed: Seq<(Seq<char>, ObservedModel)>,
    integrity: IntegrityModel,
    grace: u32,
    j: int,
)
    requires
        crate::keymap::keys_unique(prior),
        well_keyed(observed),
        0 <= j < prior.len(),
        prior[j].1.miss_streak < i64::MAX,
        forall|i: int| 0 <= i < observed.len() ==> (#[trigger] observed[i]).0 != prior[j].0,
    ensures
        ({
            let d = diff_of(prior, observed, integrity.proves_absence(), grace);
            let key = prior[j].0;
            let p = prior[j].1;
            let counts = integrity.complete && integrity.absence_provable && p.identity_stable;
            let gone = counts && p.miss_streak + 1 >= grace && !p.reported_gone;
            &&& d.transitions.filter(|t: crate::model::TransitionModel| t.device_key == key)
                == if gone {
                seq![
                    crate::model::TransitionModel {
                        kind: TransitionKind::Gone,
                        device_key: key,
                        device_display: p.display_name,
                        changes: Seq::empty(),
                        unstable_identity: false,
                    },
                ]
            } else {
                Seq::empty()
            }
            &&& d.gone_marks.filter(|k: Seq<char>| k == key) == if gone {
                seq![key]
            } else {
                Seq::empty()
            }
            &&& counts ==> exists|n: i64|
                n == p.miss_streak + 1 && d.streak_updates.filter(
                    |u: (Seq<char>, i64)| u.0 == key,
                ) == #[trigger] seq![(key, n)]
            &&& !counts ==> d.streak_updates.filter(|u: (Seq<char>, i64)| u.0 == key) == Seq::<
                (Seq<char>, i64),
            >::empty()
            &&& !d.streak_resets.contains(key)
        }),
{
    let provable = integrity.proves_absence();
    let d = diff_of(prior, observed, provable, grace);
    let key = prior[j].0;
    let p = prior[j].1;
    lemma_distinct_devices(observed);
    assert forall|i: int| 0 <= i < observed.len() implies (#[trigger] observed[i]).1.device_key
        != key by {
        assert(observed[i].0 != key);
    }
    lemma_seen_about(prior, observed, key);
    lemma_gone_about(prior, observed, provable, grace, key);
    crate::keymap::lemma_key_index(observed, key);
    assert(!crate::keymap::has_key(observed, key));
    let seen = seen_part(prior, observed);
    let gone = gone_part(prior, observed, provable, grace);
    lemma_filter_concat(seen, gone, about(key));
    let g = gone.filter(about(key));
    assert(Seq::<crate::model::TransitionModel>::empty() + g == g);
    assert(about(key) =~= (|t: crate::model::TransitionModel| t.device_key == key));
    let n = (p.miss_streak + 1) as i64;
    assert(n == p.miss_streak + 1);
    assert(seq![(key, n)].len() == 1);
    if d.streak_resets.contains(key) {
        let i = choose|i: int| 0 <= i < d.streak_resets.len() && d.streak_resets[i] == key;
        assert(observed[i].1.device_key == key);
    }
}

/// Nothing is reported of a device that was neither seen nor on record.
pub proof fn law_nobody_else_is_reported(
    prior: Seq<(Seq<char>, PriorModel)>,
    observed: Seq<(Seq<char>, ObservedModel)>,
    integrity: IntegrityModel,
    grace: u32,
    key: Seq<char>,
)
    requires
        crate::keymap::keys_unique(prior),
        well_keyed(observed),
        forall|j: int| 0 <= j < prior.len() ==> (#[trigger] prior[j]).0 != key,
        forall|i: int| 0 <= i < observed.len() ==> (#[trigger] observed[i]).0 != key,
    ensures
        ({
            let d = diff_of(prior, observed, integrity.proves_absence(), grace);
            &&& d.transitions.filter(|t: crate::model::TransitionModel| t.device_key == key)
                == Seq::<crate::model::TransitionModel>::empty()
            &&& d.streak_updates.filter(|u: (Seq<char>, i64)| u.0 == key) == Seq::<
                (Seq<char>, i64),
            >::empty()
            &&& d.gone_marks.filter(|k: Seq<char>| k == key) == Seq::<Seq<char>>::empty()
            &&& !d.streak_resets.contains(key)
        }),
{
    let provable = integrity.proves_absence();
    let d = diff_of(prior, observed, provable, grace);
    lemma_distinct_devices(observed);
    assert forall|i: int| 0 <= i < observed.len() implies (#[trigger] observed[i]).1.device_key
        != key by {
        assert(observed[i].0 != key);
    }
    lemma_seen_about(prior, observed, key);
    lemma_gone_about(prior, observed, provable, grace, key);
    lemma_filter_concat(
        seen_part(prior, observed),
        gone_part(prior, observed, provable, grace),
        about(key),
    );
    assert(Seq::<crate::model::TransitionModel>::empty() + Seq::<
        crate::model::TransitionModel,
    >::empty() == Seq::<crate::model::TransitionModel>::empty());
    assert(about(key) =~= (|t: crate::model::TransitionModel| t.device_key == key));
    if d.streak_resets.contains(key) {
        let i = choose|i: int| 0 <= i < d.streak_resets.len() && d.streak_resets[i] == key;
        assert(observed[i].1.device_key == key);
    }
}

/// Devices under different keys are different.
proof fn lemma_distinct_devices(observed: Seq<(Seq<char>, ObservedModel)>)
    requires
        well_keyed(observed),
    ensures
        forall|a: int, b: int|
            0 <= a < b < observed.len() ==> (#[trigger] observed[a]).1.device_key != (
            #[trigger] observed[b]).1.device_key,
{
    assert forall|a: int, b: int| 0 <= a < b < observed.len() implies (
    #[trigger] observed[a]).1.device_key != (#[trigger] observed[b]).1.device_key by {
        assert(observed[a].0 != observed[b].0);
    }
}

/// A device's streak is reset once.
proof fn lemma_reset_once(observed: Seq<(Seq<char>, ObservedModel)>, i: int)
    requires
        0 <= i < observed.len(),
        forall|a: int, b: int|
            0 <= a < b < observed.len() ==> (#[trigger] observed[a]).1.device_key != (
            #[trigger] observed[b]).1.device_key,
    ensures
        Seq::new(observed.len(), |k: int| observed[k].1.device_key).filter(
            |k: Seq<char>| k == observed[i].1.device_key,
        ) == seq![observed[i].1.device_key],
{
    let s = Seq::new(observed.len(), |k: int| observed[k].1.device_key);
    let key = observed[i].1.device_key;
    let q = |k: Seq<char>| k == observed[i].1.device_key;
    let a = s.take(i);
    let b = s.skip(i + 1);
    assert(s == a.push(s[i]) + b);
    lemma_filter_concat(a.push(s[i]), b, q);
    crate::seqs::lemma_filter_push(a, s[i], q);
    assert forall|k: int| 0 <= k < a.len() implies !q(#[trigger] a[k]) by {
        assert(observed[k].1.device_key != key);
    }
    assert forall|k: int| 0 <= k < b.len() implies !q(#[trigger] b[k]) by {
        assert(observed[i + 1 + k].1.device_key != key);
    }
    lemma_filter_none(a, q);
    lemma_filter_none(b, q);
    assert(s.filter(q) == seq![key]);
}

} // verus!
