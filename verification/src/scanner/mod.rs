//! Scan orchestration: strategies in waves, identity resolution, diff, commit.
//!
//! The integrity rules are assembled here: every enabled strategy must have
//! its capability confirmed and finish cleanly, *and* the scan must show it
//! actually covered the network. Only when both hold may the diff treat "not
//! seen" as evidence of absence.

use vstd::prelude::*;
use vstd::string::*;

use crate::diff::{IntegrityModel, ScanIntegrity};
use crate::discovery::AnyStrategy;
use crate::merge;
use crate::merge::{merge_observations, DeviceModel, ObservedDevice};
use crate::model::{
    clone_reasons, Interface, InterfaceModel, Observation, ObservationModel, PartialReason,
    ReasonModel, ReportModel, ScanReport, TransitionKind,
};
use crate::num;
use crate::num::push_dec;
use crate::scanner::commit::{commit_scan, HeaderModel, ScanHeader};
use crate::scanner::gather::{absence_evidence_gap, exhaustive_ran};
use crate::scanner::resolve::{resolve_and_diff_at, ResolvedModel, ResolvedScan};
use crate::store::scans;
use crate::store::scans::json_of_strings;
use crate::store::{alias, names, networks, presence, Store, StoreError, StoreModel};
use crate::text::{as_opt_str, clone_strings};
use crate::util::now;

pub mod commit;
pub mod gather;
pub mod resolve;
pub mod run;

verus! {

/// What a caller asks of a scan.
#[derive(Debug)]
pub struct ScanOptions {
    /// Restrict to specific strategy ids; None = enabled set from settings.
    pub strategies: Option<Vec<String>>,
    /// Launch the privileged helper for full ARP coverage (asks for elevation
    /// when needed).
    pub use_helper: bool,
}

impl Default for ScanOptions {
    fn default() -> (r: Self)
        ensures
            r.strategies is None,
            !r.use_helper,
    {
        ScanOptions { strategies: None, use_helper: false }
    }
}

/// Why a scan failed.
#[derive(Debug)]
pub enum ScanError {
    Store(StoreError),
    NoInterface,
    NoIpv4(String),
}

impl ScanError {
    pub open spec fn text(self) -> Seq<char> {
        match self {
            ScanError::Store(e) => "store error: "@ + e.text(),
            ScanError::NoInterface => "no usable network interface found"@,
            ScanError::NoIpv4(name) => "interface "@ + name@ + " has no IPv4 address"@,
        }
    }

    /// The error as a message.
    pub fn message(&self) -> (r: String)
        ensures
            r@ == self.text(),
    {
        match self {
            ScanError::Store(e) => {
                let mut s = "store error: ".to_string();
                s.append(e.message());
                s
            },
            ScanError::NoInterface => "no usable network interface found".to_string(),
            ScanError::NoIpv4(name) => {
                let mut s = "interface ".to_string();
                s.append(name.as_str());
                s.append(" has no IPv4 address");
                s
            },
        }
    }
}

// ----- what the waves gathered -----

/// What a scan has when its strategies are done.
#[derive(Debug)]
pub struct Gathered {
    pub started_at: i64,
    pub iface: Interface,
    pub network_key: String,
    /// The strategies that were to run.
    pub strategies: Vec<AnyStrategy>,
    /// The ids of those that ran.
    pub strategies_run: Vec<String>,
    pub observations: Vec<Observation>,
    pub problems: Vec<PartialReason>,
    /// The privilege state as JSON, for the record.
    pub privilege_json: String,
    pub grace: u32,
}

/// What a [`Gathered`] says.
#[verifier::ext_equal]
pub struct GatheredModel {
    pub started_at: i64,
    pub iface: InterfaceModel,
    pub network_key: Seq<char>,
    pub strategies: Seq<AnyStrategy>,
    pub strategies_run: Seq<Seq<char>>,
    pub observations: Seq<ObservationModel>,
    pub problems: Seq<ReasonModel>,
    pub privilege_json: Seq<char>,
    pub grace: u32,
}

impl DeepView for Gathered {
    type V = GatheredModel;

    open spec fn deep_view(&self) -> GatheredModel {
        GatheredModel {
            started_at: self.started_at,
            iface: self.iface.deep_view(),
            network_key: self.network_key@,
            strategies: self.strategies@,
            strategies_run: self.strategies_run.deep_view(),
            observations: self.observations.deep_view(),
            problems: self.problems.deep_view(),
            privilege_json: self.privilege_json@,
            grace: self.grace,
        }
    }
}

// ----- how complete the scan was -----

/// What a scan amounts to: the devices it saw, and how far it can be trusted.
#[derive(Debug)]
pub struct Assessment {
    pub merged: Vec<ObservedDevice>,
    /// Why silence is no evidence of absence, if it is not.
    pub gap: Option<PartialReason>,
    /// Everything that stops this scan short, whether a strategy failed or the
    /// scan simply never covered enough ground to prove absence.
    pub partial_reasons: Vec<PartialReason>,
    pub integrity: ScanIntegrity,
}

/// What an [`Assessment`] says.
#[verifier::ext_equal]
pub struct AssessmentModel {
    pub merged: Seq<DeviceModel>,
    pub gap: Option<ReasonModel>,
    pub partial_reasons: Seq<ReasonModel>,
    pub integrity: IntegrityModel,
}

impl DeepView for Assessment {
    type V = AssessmentModel;

    open spec fn deep_view(&self) -> AssessmentModel {
        AssessmentModel {
            merged: self.merged.deep_view(),
            gap: self.gap.deep_view(),
            partial_reasons: self.partial_reasons.deep_view(),
            integrity: self.integrity.deep_view(),
        }
    }
}

/// All addresses of devices.
pub open spec fn addresses_of(ds: Seq<DeviceModel>) -> Seq<Seq<char>>
    decreases ds.len(),
{
    if ds.len() == 0 {
        Seq::empty()
    } else {
        addresses_of(ds.drop_last()) + ds.last().ips
    }
}

/// Why a scan cannot take silence for absence.
pub open spec fn gap_of(g: GatheredModel) -> Option<ReasonModel> {
    gather::evidence_gap(
        gather::testifying(g.strategies, g.strategies_run, g.problems),
        g.iface.gateway_v4,
        addresses_of(merge::merged_devices(g.observations)),
    )
}

/// Everything that stops a scan short.
pub open spec fn reasons_of(g: GatheredModel) -> Seq<ReasonModel> {
    match gap_of(g) {
        Some(gap) => g.problems.push(gap),
        None => g.problems,
    }
}

/// Reasons as pairs.
pub open spec fn reason_pairs(s: Seq<ReasonModel>) -> Seq<(Seq<char>, Seq<char>)> {
    Seq::new(s.len(), |i: int| (s[i].strategy, s[i].reason))
}

/// What a scan amounts to.
pub open spec fn assessed(g: GatheredModel) -> AssessmentModel {
    AssessmentModel {
        merged: merge::merged_devices(g.observations),
        gap: gap_of(g),
        partial_reasons: reasons_of(g),
        integrity: IntegrityModel {
            complete: g.problems.len() == 0,
            absence_provable: gap_of(g) is None,
            reasons: reason_pairs(reasons_of(g)),
        },
    }
}

/// Collect all addresses of devices.
fn all_addresses(merged: &Vec<ObservedDevice>) -> (r: Vec<String>)
    ensures
        r.deep_view() == addresses_of(merged.deep_view()),
{
    let ghost all = merged.deep_view();
    let mut out: Vec<String> = Vec::new();
    let mut i: usize = 0;
    while i < merged.len()
        invariant
            i <= merged.len(),
            all == merged.deep_view(),
            out.deep_view() == addresses_of(all.take(i as int)),
        decreases merged.len() - i,
    {
        assert(all[i as int] == merged@[i as int].deep_view());
        assert(all.take(i + 1).drop_last() == all.take(i as int));
        assert(all.take(i + 1).last() == all[i as int]);
        let ghost so_far = out.deep_view();
        let mut ips = clone_strings(&merged[i].ips);
        let ghost fresh = ips.deep_view();
        out.append(&mut ips);
        assert(out.deep_view() == so_far + fresh);
        i = i + 1;
    }
    assert(all.take(all.len() as int) == all);
    out
}

/// Reasons as pairs.
fn pairs_of(v: &Vec<PartialReason>) -> (r: Vec<(String, String)>)
    ensures
        r.deep_view() == reason_pairs(v.deep_view()),
{
    let ghost all = v.deep_view();
    let mut out: Vec<(String, String)> = Vec::new();
    let mut i: usize = 0;
    while i < v.len()
        invariant
            i <= v.len(),
            all == v.deep_view(),
            out.deep_view() == reason_pairs(all.take(i as int)),
        decreases v.len() - i,
    {
        assert(all[i as int] == v@[i as int].deep_view());
        let ghost so_far = out.deep_view();
        let pair = (v[i].strategy.clone(), v[i].reason.clone());
        let ghost model = pair.deep_view();
        out.push(pair);
        assert(out.deep_view() == so_far.push(model));
        assert(reason_pairs(all.take(i + 1)) == reason_pairs(all.take(i as int)).push(model));
        i = i + 1;
    }
    assert(all.take(all.len() as int) == all);
    out
}

/// Merge what was observed and judge how far the scan can be trusted.
pub fn assess(g: &Gathered) -> (r: Assessment)
    ensures
        r.deep_view() == assessed(g.deep_view()),
{
    let merged = merge_observations(&g.observations);
    let swept = exhaustive_ran(&g.strategies, &g.strategies_run, &g.problems);
    let seen = all_addresses(&merged);
    let gap = absence_evidence_gap(&swept, as_opt_str(&g.iface.gateway_v4), &seen);
    let mut partial_reasons = clone_reasons(&g.problems);
    let ghost problems = g.problems.deep_view();
    assert(partial_reasons.deep_view() == problems);
    if let Some(p) = &gap {
        partial_reasons.push(p.clone());
        assert(partial_reasons.deep_view() == problems.push(p.deep_view()));
    }
    let integrity = ScanIntegrity {
        complete: g.problems.len() == 0,
        absence_provable: gap.is_none(),
        reasons: pairs_of(&partial_reasons),
    };
    assert(problems.len() == g.problems@.len());
    Assessment { merged, gap, partial_reasons, integrity }
}

// ----- the end of a scan -----

/// When the last steps of a scan happen.
#[derive(Debug, Clone, Copy)]
pub struct Moments {
    pub resolved_at: i64,
    pub finished_at: i64,
    pub pruned_at: i64,
}

/// The statistics of a scan as JSON.
pub open spec fn stats_text(devices_seen: nat, raw_observations: nat) -> Seq<char> {
    "{\"devices_seen\":"@ + num::dec(devices_seen) + ",\"raw_observations\":"@ + num::dec(
        raw_observations,
    ) + "}"@
}

/// What a scan says of itself on record. "Partial" is what the user sees, and
/// it means exactly "this scan could not tell you what is gone", which covers
/// both a failed strategy and a scan that proved nothing.
pub open spec fn header_of(
    g: GatheredModel,
    a: AssessmentModel,
    r: ResolvedModel,
    finished_at: i64,
) -> HeaderModel {
    HeaderModel {
        started_at: g.started_at,
        finished_at,
        network_key: g.network_key,
        partial: !a.integrity.proves_absence(),
        privilege_json: g.privilege_json,
        strategies_json: scans::strings_json(g.strategies_run),
        partial_reasons: a.partial_reasons,
        stats_json: stats_text(r.observed.len(), g.observations.len()),
    }
}

/// The store after old observations were dropped, where the moment up to which
/// they are kept can be told.
pub open spec fn tidied(m: StoreModel, t: i64) -> StoreModel {
    if scans::cutoff_fits(m, t as int) {
        scans::pruned(m, t as int)
    } else {
        m
    }
}

/// The report of a scan.
pub open spec fn report_of(
    m: StoreModel,
    g: GatheredModel,
    a: AssessmentModel,
    r: ResolvedModel,
    scan_id: i64,
    finished_at: i64,
) -> ReportModel {
    ReportModel {
        scan_id,
        network_key: g.network_key,
        network_label: networks::label_of(m.networks, g.network_key),
        started_at: g.started_at,
        finished_at,
        partial: !a.integrity.proves_absence(),
        partial_reasons: a.partial_reasons,
        strategies_run: g.strategies_run,
        devices_seen: r.observed.len(),
        transitions: r.outcome.transitions,
        interface: Some(g.iface),
    }
}

/// The store after a scan was concluded, and its report or why there is none.
pub open spec fn concluded(m: StoreModel, g: GatheredModel, at: Moments) -> (
    StoreModel,
    Result<ReportModel, StoreError>,
) {
    let a = assessed(g);
    let (resolved_store, resolution) = resolve::resolved_scan(
        m,
        a.merged,
        g.network_key,
        a.integrity.proves_absence(),
        g.grace,
        at.resolved_at,
    );
    match resolution {
        Err(e) => (resolved_store, Err(e)),
        Ok(r) => match commit::committed(
            resolved_store,
            header_of(g, a, r, at.finished_at),
            g.observations,
            r,
        ) {
            Err(e) => (resolved_store, Err(e)),
            Ok(recorded) => {
                let after = tidied(recorded, at.pruned_at);
                (
                    after,
                    Ok(
                        report_of(
                            after,
                            g,
                            a,
                            r,
                            commit::next_scan_id(resolved_store),
                            at.finished_at,
                        ),
                    ),
                )
            },
        },
    }
}

/// The statistics of a scan as JSON.
fn stats_json(devices_seen: usize, raw_observations: usize) -> (r: String)
    ensures
        r@ == stats_text(devices_seen as nat, raw_observations as nat),
{
    let mut s = "{\"devices_seen\":".to_string();
    push_dec(&mut s, devices_seen as u64);
    s.append(",\"raw_observations\":");
    push_dec(&mut s, raw_observations as u64);
    s.append("}");
    s
}

/// Conclude a scan at given moments: resolve identities, diff against the
/// inventory, put the scan on record, drop old observations, and report.
pub fn finish_scan_at(store: &mut Store, g: &Gathered, a: &Assessment, at: Moments) -> (r: Result<
    ScanReport,
    ScanError,
>)
    requires
        old(store).deep_view().wf(),
        a.deep_view() == assessed(g.deep_view()),
    ensures
        ({
            let out = concluded(old(store).deep_view(), g.deep_view(), at);
            &&& final(store).deep_view() == out.0
            &&& match out.1 {
                Ok(report) => r is Ok && r.unwrap().deep_view() == report,
                Err(e) => r is Err && r->Err_0 == ScanError::Store(e),
            }
        }),
        final(store).deep_view().wf(),
{
    let ghost gm = g.deep_view();
    let ghost am = a.deep_view();
    let resolved: ResolvedScan = match resolve_and_diff_at(
        store,
        &a.merged,
        g.network_key.as_str(),
        &a.integrity,
        g.grace,
        at.resolved_at,
    ) {
        Ok(r) => r,
        Err(e) => {
            return Err(ScanError::Store(e));
        },
    };
    let ghost rm = resolved.deep_view();
    let devices_seen: usize = resolved.observed.len();
    let partial = !a.integrity.may_prove_absence();
    assert(gm.observations.len() == g.observations@.len());
    let header = ScanHeader {
        started_at: g.started_at,
        finished_at: at.finished_at,
        network_key: g.network_key.clone(),
        partial,
        privilege_json: g.privilege_json.clone(),
        strategies_json: json_of_strings(&g.strategies_run),
        partial_reasons: clone_reasons(&a.partial_reasons),
        stats_json: stats_json(devices_seen, g.observations.len()),
    };
    assert(header.partial_reasons.deep_view() == am.partial_reasons);
    assert(header.deep_view() == header_of(gm, am, rm, at.finished_at));
    let scan_id: i64 = match commit_scan(store, &header, &g.observations, &resolved) {
        Ok(id) => id,
        Err(e) => {
            return Err(ScanError::Store(e));
        },
    };
    let _ = store.prune_at(at.pruned_at);
    let reasons = clone_reasons(&a.partial_reasons);
    assert(reasons.deep_view() == am.partial_reasons);
    let report = ScanReport {
        scan_id,
        network_key: g.network_key.clone(),
        network_label: store.get_network_label(g.network_key.as_str()),
        started_at: g.started_at,
        finished_at: at.finished_at,
        partial,
        partial_reasons: reasons,
        strategies_run: clone_strings(&g.strategies_run),
        devices_seen,
        transitions: resolved.outcome.transitions,
        interface: Some(g.iface.clone()),
    };
    assert(report.deep_view() == report_of(
        store.deep_view(),
        gm,
        am,
        rm,
        scan_id,
        at.finished_at,
    ));
    Ok(report)
}

/// [`finish_scan_at`] the present moments.
pub fn finish_scan(store: &mut Store, g: &Gathered, a: &Assessment) -> (r: Result<
    ScanReport,
    ScanError,
>)
    requires
        old(store).deep_view().wf(),
        a.deep_view() == assessed(g.deep_view()),
    ensures
        exists|at: Moments|
            ({
                let out = #[trigger] concluded(old(store).deep_view(), g.deep_view(), at);
                &&& final(store).deep_view() == out.0
                &&& match out.1 {
                    Ok(report) => r is Ok && r.unwrap().deep_view() == report,
                    Err(e) => r is Err && r->Err_0 == ScanError::Store(e),
                }
            }),
        final(store).deep_view().wf(),
{
    let resolved_at: i64 = now();
    let finished_at: i64 = now();
    let pruned_at: i64 = now();
    finish_scan_at(store, g, a, Moments { resolved_at, finished_at, pruned_at })
}

// ----- progress messages -----

/// Which interface is scanned.
pub fn interface_message(iface: &Interface) -> (r: String)
    ensures
        r@ == "interface: "@ + iface.name@ + " ("@ + iface.kind.text() + ")"@,
{
    let mut s = "interface: ".to_string();
    s.append(iface.name.as_str());
    s.append(" (");
    s.append(iface.kind.as_str());
    s.append(")");
    s
}

/// Which network is scanned.
pub fn network_message(subnet: &str, network_key: &str) -> (r: String)
    ensures
        r@ == "network: "@ + subnet@ + " (key "@ + network_key@ + ")"@,
{
    let mut s = "network: ".to_string();
    s.append(subnet);
    s.append(" (key ");
    s.append(network_key);
    s.append(")");
    s
}

/// How much was observed.
pub fn observed_message(observations: usize, strategies: usize) -> (r: String)
    ensures
        r@ == "observed "@ + num::dec(observations as nat) + " raw facts from "@ + num::dec(
            strategies as nat,
        ) + " strategies"@,
{
    let mut s = "observed ".to_string();
    push_dec(&mut s, observations as u64);
    s.append(" raw facts from ");
    push_dec(&mut s, strategies as u64);
    s.append(" strategies");
    s
}

/// Why nothing can be reported gone.
pub fn gap_message(gap: &PartialReason) -> (r: String)
    ensures
        r@ == "cannot report devices gone: "@ + gap.reason@,
{
    let mut s = "cannot report devices gone: ".to_string();
    s.append(gap.reason.as_str());
    s
}

// ----- what holds of every scan -----

/// A scan is reported complete exactly when no strategy had a problem and
/// nothing stands against taking silence for absence.
pub proof fn law_partial_exactly_when(g: GatheredModel)
    ensures
        assessed(g).integrity.proves_absence() <==> g.problems.len() == 0 && gap_of(g) is None,
        assessed(g).integrity.proves_absence() <==> reasons_of(g).len() == 0,
{
}

/// The integrity rule for a whole scan: one that had a problem or a gap is
/// reported partial, reports nothing gone, and puts no device's absence on
/// record.
pub proof fn law_partial_scan_records_nothing_gone(m: StoreModel, g: GatheredModel, at: Moments)
    requires
        g.problems.len() > 0 || gap_of(g) is Some,
        concluded(m, g, at).1 is Ok,
    ensures
        ({
            let report = concluded(m, g, at).1->Ok_0;
            &&& report.partial
            &&& forall|i: int|
                0 <= i < report.transitions.len() ==> (#[trigger] report.transitions[i]).kind
                    != TransitionKind::Gone
            &&& concluded(m, g, at).0.presence == absences_untouched(m, g, at)
        }),
{
    let a = assessed(g);
    let (rs, res) = resolve::resolved_scan(
        m,
        a.merged,
        g.network_key,
        false,
        g.grace,
        at.resolved_at,
    );
    let (after, states) = resolve::observe_all(m, a.merged, g.network_key, at.resolved_at);
    let prior = resolve::remapped(after.aliases, resolve::prior_states(m, g.network_key));
    crate::diff::law_partial_scan_never_reports_gone(
        prior,
        states->Ok_0,
        a.integrity,
        g.grace,
    );
    let r = res->Ok_0;
    assert(r.outcome.streak_updates.len() == 0 && r.outcome.gone_marks.len() == 0);
}

/// Presence after a scan that only noted who was seen.
pub open spec fn absences_untouched(m: StoreModel, g: GatheredModel, at: Moments) -> Seq<
    crate::store::rows::PresenceRecord,
> {
    let a = assessed(g);
    let (rs, res) = resolve::resolved_scan(
        m,
        a.merged,
        g.network_key,
        a.integrity.proves_absence(),
        g.grace,
        at.resolved_at,
    );
    commit::all_seen(
        rs.presence,
        res->Ok_0.outcome.streak_resets,
        res->Ok_0.observed,
        g.network_key,
        at.finished_at,
    )
}

/// A scan that failed leaves no trace on record: no scan, no observation and
/// no transition is added, and no presence comes or goes.
pub proof fn law_failed_scan_leaves_no_record(m: StoreModel, g: GatheredModel, at: Moments)
    requires
        concluded(m, g, at).1 is Err,
    ensures
        resolve::keeps_records(m, concluded(m, g, at).0),
{
    resolve::law_resolving_keeps_records(
        m,
        assessed(g).merged,
        g.network_key,
        at.resolved_at,
    );
}

/// A scan whose enabled strategies do not sweep every address is partial,
/// whatever it saw.
pub proof fn law_presence_only_scan_is_partial(g: GatheredModel)
    requires
        forall|i: int|
            0 <= i < g.strategies.len() ==> crate::discovery::Strategy::covers(
                &(#[trigger] g.strategies[i]),
            ) == crate::discovery::Coverage::PresenceOnly,
    ensures
        gap_of(g) is Some,
        !assessed(g).integrity.proves_absence(),
{
    lemma_none_testifies(g.strategies, g.strategies_run, g.problems);
}

/// Strategies that only confirm presence testify to nothing.
proof fn lemma_none_testifies(
    strategies: Seq<AnyStrategy>,
    run: Seq<Seq<char>>,
    problems: Seq<ReasonModel>,
)
    requires
        forall|i: int|
            0 <= i < strategies.len() ==> crate::discovery::Strategy::covers(
                &(#[trigger] strategies[i]),
            ) == crate::discovery::Coverage::PresenceOnly,
    ensures
        gather::testifying(strategies, run, problems).len() == 0,
    decreases strategies.len(),
{
    if strategies.len() > 0 {
        let s = strategies.drop_last();
        assert forall|i: int| 0 <= i < s.len() implies crate::discovery::Strategy::covers(
            &(#[trigger] s[i]),
        ) == crate::discovery::Coverage::PresenceOnly by {
            assert(s[i] == strategies[i]);
        }
        lemma_none_testifies(s, run, problems);
        assert(strategies[strategies.len() - 1] == strategies.last());
    }
}

/// No other device on a network comes to the same present key.
pub open spec fn stays_apart(
    m: StoreModel,
    aliases: Seq<crate::store::rows::AliasRecord>,
    device: Seq<char>,
    network: Seq<char>,
) -> bool {
    forall|j: int|
        0 <= j < m.presence.len() && (#[trigger] m.presence[j]).network_key == network
            && m.presence[j].device_key != device ==> alias::resolved(
            aliases,
            m.presence[j].device_key,
        ) != alias::resolved(aliases, device)
}

/// An absence is announced once: a device whose absence is on record as
/// announced is not reported gone again, as long as its identity is not merged
/// with another's.
pub proof fn law_absence_is_announced_once(
    m: StoreModel,
    g: GatheredModel,
    at: Moments,
    device: Seq<char>,
)
    requires
        m.wf(),
        concluded(m, g, at).1 is Ok,
        presence::presence_at(m.presence, device, g.network_key) is Some,
        presence::presence_at(m.presence, device, g.network_key).unwrap().reported_gone,
        stays_apart(m, aliases_after(m, g, at), device, g.network_key),
    ensures
        ({
            let ts = concluded(m, g, at).1->Ok_0.transitions;
            forall|i: int|
                0 <= i < ts.len() && (#[trigger] ts[i]).kind == TransitionKind::Gone
                    ==> ts[i].device_key != alias::resolved(aliases_after(m, g, at), device)
        }),
{
    let a = assessed(g);
    let aliases = aliases_after(m, g, at);
    let (after, states) = resolve::observe_all(m, a.merged, g.network_key, at.resolved_at);
    let before = resolve::prior_states(m, g.network_key);
    let prior = resolve::remapped(aliases, before);
    let provable = a.integrity.proves_absence();
    let ts = concluded(m, g, at).1->Ok_0.transitions;
    let c = alias::resolved(aliases, device);
    let p = networks::on_network(g.network_key);
    let rows = m.presence.filter(p);
    let row = presence::presence_at(m.presence, device, g.network_key).unwrap();
    presence::lemma_presence_index(m.presence, device, g.network_key);
    assert(p(row));
    assert(m.presence.contains(row));
    crate::seqs::lemma_filter_contains(m.presence, p, row);
    let at_row = choose|k: int| 0 <= k < rows.len() && rows[k] == row;
    assert(before[at_row] == (device, resolve::prior_of(m, row)));
    lemma_filtered_unique(m.presence, g.network_key);
    assert forall|j: int| 0 <= j < before.len() && j != at_row implies alias::resolved(
        aliases,
        (#[trigger] before[j]).0,
    ) != c by {
        crate::seqs::lemma_filter_contains(m.presence, p, rows[j]);
        assert(rows.contains(rows[j]));
        let q = choose|q: int| 0 <= q < m.presence.len() && m.presence[q] == rows[j];
        assert(m.presence[q].network_key == g.network_key);
        assert(rows[j].device_key != rows[at_row].device_key);
    }
    resolve::law_sole_identity_is_kept(aliases, before, at_row);
    resolve::lemma_remapped_unique(aliases, before);
    assert forall|i: int|
        0 <= i < ts.len() && (#[trigger] ts[i]).kind == TransitionKind::Gone implies ts[i].device_key
        != c by {
        assert(ts.contains(ts[i]));
        crate::diff::law_gone_exactly_when(prior, states->Ok_0, provable, g.grace, ts[i]);
        let k = choose|k: int|
            0 <= k < prior.len() && provable && !crate::keymap::has_key(
                states->Ok_0,
                (#[trigger] prior[k]).0,
            ) && prior[k].1.identity_stable && prior[k].1.miss_streak + 1 >= g.grace
                && !prior[k].1.reported_gone && ts[i] == crate::diff::gone_as(
                prior[k].0,
                prior[k].1,
            );
        if prior[k].0 == c {
            crate::keymap::lemma_lookup_entry(prior, k);
        }
    }
}

/// The aliases after a scan's devices were resolved.
pub open spec fn aliases_after(m: StoreModel, g: GatheredModel, at: Moments) -> Seq<
    crate::store::rows::AliasRecord,
> {
    resolve::observe_all(m, assessed(g).merged, g.network_key, at.resolved_at).0.aliases
}

/// The presences on one network are of different devices.
proof fn lemma_filtered_unique(s: Seq<crate::store::rows::PresenceRecord>, network: Seq<char>)
    requires
        crate::store::presence_unique(s),
    ensures
        ({
            let rows = s.filter(networks::on_network(network));
            forall|i: int, j: int|
                0 <= i < j < rows.len() ==> (#[trigger] rows[i]).device_key != (
                #[trigger] rows[j]).device_key
        }),
    decreases s.len(),
{
    let p = networks::on_network(network);
    let rows = s.filter(p);
    if s.len() > 0 {
        let init = s.drop_last();
        let last = s.last();
        assert forall|i: int, j: int| 0 <= i < j < init.len() implies (#[trigger] init[i]).device_key
            != (#[trigger] init[j]).device_key || init[i].network_key != init[j].network_key by {
            assert(init[i] == s[i] && init[j] == s[j]);
        }
        lemma_filtered_unique(init, network);
        assert(init.push(last) == s);
        crate::seqs::lemma_filter_push(init, last, p);
        let before = init.filter(p);
        assert forall|i: int, j: int| 0 <= i < j < rows.len() implies (#[trigger] rows[i]).device_key
            != (#[trigger] rows[j]).device_key by {
            assert(rows[i] == before[i]);
            if j < before.len() {
                assert(rows[j] == before[j]);
            } else {
                crate::seqs::lemma_filter_contains(init, p, before[i]);
                assert(before.contains(before[i]));
                let q = choose|q: int| 0 <= q < init.len() && init[q] == before[i];
                assert(s[q] == init[q]);
                assert(p(before[i]));
                assert(s[s.len() - 1] == last);
            }
        }
    } else {
        reveal(Seq::filter);
    }
}

/// A scan never loses a name that the user gave: each is found as before under
/// every key that its device was known by, and aliases stay flat for the scans
/// to come.
pub proof fn law_scan_keeps_the_names(m: StoreModel, g: GatheredModel, at: Moments)
    requires
        alias::orderly(m),
        concluded(m, g, at).1 is Ok,
        resolve::found_under_present_keys(
            m,
            assessed(g).merged,
            g.network_key,
            at.resolved_at,
        ),
    ensures
        resolve::keeps_names(m, concluded(m, g, at).0),
        alias::orderly(concluded(m, g, at).0),
{
    let ds = assessed(g).merged;
    resolve::law_resolving_keeps_the_names(m, ds, g.network_key, at.resolved_at);
    let resolved = resolve::observe_all(m, ds, g.network_key, at.resolved_at).0;
    let after = concluded(m, g, at).0;
    assert(after.names == resolved.names && after.aliases == resolved.aliases);
    assert forall|key: Seq<char>|
        names::user_name_of(m, key) is Some implies #[trigger] names::user_name_of(after, key)
        == names::user_name_of(m, key) by {
        assert(names::user_name_of(resolved, key) == names::user_name_of(m, key));
    }
}

/// The addresses of the devices that observations come to are those observed.
proof fn lemma_addresses_were_observed(obs: Seq<ObservationModel>, ip: Seq<char>)
    ensures
        addresses_of(merge::merged_devices(obs)).contains(ip) <==> exists|k: int|
            0 <= k < obs.len() && (#[trigger] obs[k]).ip == ip,
        addresses_of(merge::merged_devices(obs)).len() > 0 <==> obs.len() > 0,
{
    let ds = merge::merged_devices(obs);
    lemma_addresses(ds, ip);
    if exists|k: int| 0 <= k < obs.len() && (#[trigger] obs[k]).ip == ip {
        let k = choose|k: int| 0 <= k < obs.len() && (#[trigger] obs[k]).ip == ip;
        merge::law_every_address_is_kept(obs, k);
    }
    if addresses_of(ds).contains(ip) {
        let d = choose|d: int| 0 <= d < ds.len() && (#[trigger] ds[d]).ips.contains(ip);
        merge::law_no_address_is_invented(obs, d, ip);
    }
    if obs.len() > 0 {
        merge::law_every_address_is_kept(obs, 0);
        lemma_addresses(ds, obs[0].ip);
        assert(addresses_of(ds).contains(obs[0].ip));
    }
    if addresses_of(ds).len() > 0 {
        let first = addresses_of(ds)[0];
        assert(addresses_of(ds).contains(first));
        lemma_addresses(ds, first);
        let d = choose|d: int| 0 <= d < ds.len() && (#[trigger] ds[d]).ips.contains(first);
        merge::law_no_address_is_invented(obs, d, first);
    }
}

/// All addresses of devices are those of each.
proof fn lemma_addresses(ds: Seq<DeviceModel>, ip: Seq<char>)
    ensures
        addresses_of(ds).contains(ip) <==> exists|d: int|
            0 <= d < ds.len() && (#[trigger] ds[d]).ips.contains(ip),
    decreases ds.len(),
{
    if ds.len() > 0 {
        let init = ds.drop_last();
        lemma_addresses(init, ip);
        let a = addresses_of(init);
        let b = ds.last().ips;
        assert((a + b).contains(ip) <==> a.contains(ip) || b.contains(ip)) by {
            if (a + b).contains(ip) {
                let k = choose|k: int| 0 <= k < (a + b).len() && (a + b)[k] == ip;
                if k < a.len() {
                    assert(a[k] == ip);
                } else {
                    assert(b[k - a.len()] == ip);
                }
            }
            if a.contains(ip) {
                let k = choose|k: int| 0 <= k < a.len() && a[k] == ip;
                assert((a + b)[k] == ip);
            }
            if b.contains(ip) {
                let k = choose|k: int| 0 <= k < b.len() && b[k] == ip;
                assert((a + b)[a.len() + k] == ip);
            }
        }
        if a.contains(ip) {
            let d = choose|d: int| 0 <= d < init.len() && (#[trigger] init[d]).ips.contains(ip);
            assert(ds[d] == init[d]);
        }
        if b.contains(ip) {
            assert(ds[ds.len() - 1] == ds.last());
        }
        if exists|d: int| 0 <= d < ds.len() && (#[trigger] ds[d]).ips.contains(ip) {
            let d = choose|d: int| 0 <= d < ds.len() && (#[trigger] ds[d]).ips.contains(ip);
            if d < init.len() {
                assert(init[d] == ds[d]);
            }
        }
    }
}

/// When a scan may take silence for absence: nothing went wrong; a strategy
/// that probes every address was to run and ran; and the gateway was observed,
/// or anything at all where there is no gateway.
pub proof fn law_when_absence_is_proven(g: GatheredModel)
    ensures
        assessed(g).integrity.proves_absence() <==> g.problems.len() == 0 && (exists|i: int|
            0 <= i < g.strategies.len() && crate::discovery::Strategy::covers(
                &(#[trigger] g.strategies[i]),
            ) == crate::discovery::Coverage::Exhaustive && g.strategies_run.contains(
                crate::discovery::Strategy::id_text(&g.strategies[i]),
            )) && (match g.iface.gateway_v4 {
            Some(gw) => exists|k: int|
                0 <= k < g.observations.len() && (#[trigger] g.observations[k]).ip == gw,
            None => g.observations.len() > 0,
        }),
        g.problems.is_prefix_of(assessed(g).partial_reasons),
        assessed(g).partial_reasons.len() == 0 <==> assessed(g).integrity.proves_absence(),
{
    let swept = gather::testifying(g.strategies, g.strategies_run, g.problems);
    let ips = addresses_of(merge::merged_devices(g.observations));
    gather::law_no_gap_exactly_when(swept, g.iface.gateway_v4, ips);
    match g.iface.gateway_v4 {
        Some(gw) => {
            lemma_addresses_were_observed(g.observations, gw);
        },
        None => {
            lemma_addresses_were_observed(g.observations, Seq::empty());
        },
    }
    if swept.len() > 0 {
        assert(swept.contains(swept[0]));
        gather::law_only_clean_sweeps_testify(
            g.strategies,
            g.strategies_run,
            g.problems,
            swept[0],
        );
        let i = choose|i: int|
            0 <= i < g.strategies.len() && crate::discovery::Strategy::id_text(
                &(#[trigger] g.strategies[i]),
            ) == swept[0] && crate::discovery::Strategy::covers(&g.strategies[i])
                == crate::discovery::Coverage::Exhaustive;
        assert(crate::discovery::Strategy::covers(&g.strategies[i])
            == crate::discovery::Coverage::Exhaustive);
    }
    if g.problems.len() == 0 && exists|i: int|
        0 <= i < g.strategies.len() && crate::discovery::Strategy::covers(
            &(#[trigger] g.strategies[i]),
        ) == crate::discovery::Coverage::Exhaustive && g.strategies_run.contains(
            crate::discovery::Strategy::id_text(&g.strategies[i]),
        ) {
        let i = choose|i: int|
            0 <= i < g.strategies.len() && crate::discovery::Strategy::covers(
                &(#[trigger] g.strategies[i]),
            ) == crate::discovery::Coverage::Exhaustive && g.strategies_run.contains(
                crate::discovery::Strategy::id_text(&g.strategies[i]),
            );
        gather::law_only_clean_sweeps_testify(
            g.strategies,
            g.strategies_run,
            g.problems,
            crate::discovery::Strategy::id_text(&g.strategies[i]),
        );
    }
}

/// The report of a scan tells what was put on record: the id, the network, the
/// times, whether the scan was partial and why, the strategies that ran, and
/// each transition in its order.
pub proof fn law_report_tells_what_is_on_record(m: StoreModel, g: GatheredModel, at: Moments)
    requires
        m.scan_seq < i64::MAX,
        concluded(m, g, at).1 is Ok,
    ensures
        ({
            let n = concluded(m, g, at).0;
            let report = concluded(m, g, at).1->Ok_0;
            let row = n.scans.last();
            let old_len = m.transitions.len() as int;
            &&& n.scans.drop_last() == m.scans
            &&& row.id == report.scan_id
            &&& report.scan_id == m.scan_seq + 1
            &&& row.network_key == g.network_key
            &&& report.network_key == g.network_key
            &&& row.started_at == g.started_at
            &&& report.started_at == g.started_at
            &&& row.finished_at == at.finished_at
            &&& report.finished_at == at.finished_at
            &&& row.partial == report.partial
            &&& row.partial_reasons == report.partial_reasons
            &&& report.partial <==> report.partial_reasons.len() > 0
            &&& row.strategies_json == scans::strings_json(g.strategies_run)
            &&& report.strategies_run == g.strategies_run
            &&& row.privilege_json == g.privilege_json
            &&& report.interface == Some(g.iface)
            &&& report.network_label == networks::label_of(m.networks, g.network_key)
            &&& n.transitions.len() == old_len + report.transitions.len()
            &&& forall|i: int|
                0 <= i < report.transitions.len() ==> {
                    let t = #[trigger] report.transitions[i];
                    let x = n.transitions[old_len + i];
                    &&& x.scan_id == report.scan_id
                    &&& x.device_key == t.device_key
                    &&& x.network_key == g.network_key
                    &&& x.kind == t.kind
                    &&& x.changes == t.changes
                    &&& x.at == at.finished_at
                }
        }),
{
    resolve::law_resolving_keeps_records(m, assessed(g).merged, g.network_key, at.resolved_at);
    law_when_absence_is_proven(g);
}

/// The statistics name the devices seen before the raw observations.
pub proof fn law_statistics_are_told(devices_seen: nat, raw: nat)
    ensures
        stats_text(devices_seen, raw) == "{\"devices_seen\":"@ + num::dec(devices_seen)
            + ",\"raw_observations\":"@ + num::dec(raw) + "}"@,
{
}

} // verus!
