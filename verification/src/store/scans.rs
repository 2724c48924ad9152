//! Scans with what they observed and what they changed.

use vstd::prelude::*;
use vstd::string::*;

use crate::display;
use crate::display::device_display;
use crate::identity;
use crate::identity::is_stable;
use crate::model::{
    clone_changes, clone_reasons, FieldChange, PartialReason, ReasonModel, Transition,
    TransitionKind, TransitionModel,
};
use crate::num::parse_i64;
use crate::seqs;
use crate::store::devices;
use crate::store::names;
use crate::store::presence;
use crate::store::rows::{
    find_row, Copied, ObservationRecord, ObservationRow, ScanRecord, ScanRow, TransitionRecord,
    TransitionRow,
};
use crate::store::{Store, StoreError, StoreModel, Transaction};
use crate::text::{as_opt_str, own_opt, str_eq};
use crate::util::now;

verus! {

/// What a frontend needs to describe a finished scan: whether it was partial,
/// when it ended, which strategies ran, and why it fell short.
#[derive(Debug)]
pub struct ScanSummary {
    pub partial: bool,
    pub finished_at: i64,
    pub strategies: Vec<String>,
    pub partial_reasons: Vec<PartialReason>,
}

/// What a [`ScanSummary`] says.
#[verifier::ext_equal]
pub struct SummaryModel {
    pub partial: bool,
    pub finished_at: i64,
    pub strategies: Seq<Seq<char>>,
    pub partial_reasons: Seq<ReasonModel>,
}

impl DeepView for ScanSummary {
    type V = SummaryModel;

    open spec fn deep_view(&self) -> SummaryModel {
        SummaryModel {
            partial: self.partial,
            finished_at: self.finished_at,
            strategies: self.strategies.deep_view(),
            partial_reasons: self.partial_reasons.deep_view(),
        }
    }
}

// ----- lists of strings as JSON -----

/// The list of strings that a JSON text holds under `serde_json::from_str`,
/// or nothing where it holds none.
pub uninterp spec fn json_strings(s: Seq<char>) -> Option<Seq<Seq<char>>>;

/// `serde_json::from_str`, asked for a list of strings: the list that the
/// text holds, or nothing where the text is no JSON array of strings. The
/// outcome depends on the text alone.
#[verifier::external_body]
pub(crate) fn parse_json_strings(s: &str) -> (r: Option<Vec<String>>)
    ensures
        r.deep_view() == json_strings(s@),
{
    serde_json::from_str::<Vec<String>>(s).ok()
}

/// The JSON text that `serde_json::to_string` writes for a list of strings.
pub uninterp spec fn strings_json(v: Seq<Seq<char>>) -> Seq<char>;

/// `serde_json::to_string` of a list of strings: a JSON text that depends on
/// the list alone and from which `serde_json::from_str` reads the same list.
/// Strings always serialize, so there is no failure.
#[verifier::external_body]
pub(crate) fn json_of_strings(v: &Vec<String>) -> (r: String)
    ensures
        r@ == strings_json(v.deep_view()),
        json_strings(r@) == Some(v.deep_view()),
{
    serde_json::to_string(v).unwrap()
}

/// The strings of a JSON list, none where the text is no such list.
pub open spec fn strings_or_none(v: Option<Seq<Seq<char>>>) -> Seq<Seq<char>> {
    match v {
        Some(s) => s,
        None => Seq::empty(),
    }
}

/// The strings of a JSON list, none where the text is no such list.
pub fn listed_strings(parsed: Option<Vec<String>>) -> (r: Vec<String>)
    ensures
        r.deep_view() == strings_or_none(parsed.deep_view()),
{
    match parsed {
        Some(v) => v,
        None => {
            let v: Vec<String> = Vec::new();
            assert(v.deep_view() == Seq::<Seq<char>>::empty());
            v
        },
    }
}

// ----- what recording does -----

/// The store after a scan was recorded.
pub open spec fn scan_recorded(
    m: StoreModel,
    started_at: i64,
    finished_at: i64,
    network_key: Seq<char>,
    partial: bool,
    privilege_json: Seq<char>,
    strategies_json: Seq<char>,
    partial_reasons: Seq<ReasonModel>,
    stats_json: Seq<char>,
) -> StoreModel {
    StoreModel {
        scans: m.scans.push(
            ScanRecord {
                id: (m.scan_seq + 1) as i64,
                started_at,
                finished_at,
                network_key,
                partial,
                privilege_json,
                strategies_json,
                partial_reasons,
                stats_json,
            },
        ),
        scan_seq: (m.scan_seq + 1) as i64,
        ..m
    }
}

/// The condition of being a scan's row.
pub open spec fn with_scan_id(id: i64) -> spec_fn(ScanRecord) -> bool {
    |s: ScanRecord| s.id == id
}

/// The summary of a scan.
pub open spec fn summary_of(m: StoreModel, id: i64) -> Option<SummaryModel> {
    match seqs::first_where(m.scans, with_scan_id(id)) {
        Some(i) => Some(
            SummaryModel {
                partial: m.scans[i].partial,
                finished_at: m.scans[i].finished_at,
                strategies: strings_or_none(json_strings(m.scans[i].strategies_json)),
                partial_reasons: m.scans[i].partial_reasons,
            },
        ),
        None => None,
    }
}

/// Where the last scan of a network stands among the first `n`.
pub open spec fn last_scan_index(s: Seq<ScanRecord>, network: Seq<char>, n: int) -> Option<int>
    decreases n,
{
    if n <= 0 {
        None
    } else if s[n - 1].network_key == network {
        Some(n - 1)
    } else {
        last_scan_index(s, network, n - 1)
    }
}

/// The id and the end of the last scan of a network.
pub open spec fn last_scan_of(m: StoreModel, network: Seq<char>) -> Option<(i64, i64)> {
    match last_scan_index(m.scans, network, m.scans.len() as int) {
        Some(i) => Some((m.scans[i].id, m.scans[i].finished_at)),
        None => None,
    }
}

/// The address at which a device was last seen on a network.
pub open spec fn last_ip_on(m: StoreModel, device: Seq<char>, network: Seq<char>) -> Option<
    Seq<char>,
> {
    match presence::presence_at(m.presence, device, network) {
        Some(p) => p.last_ip,
        None => None,
    }
}

/// A recorded transition as frontends see it. Whether the identity holds is
/// judged by what is known now: a device that later gained a name became
/// identifiable, and old rows should say so.
pub open spec fn transition_view(m: StoreModel, t: TransitionRecord) -> TransitionModel {
    let d = devices::device_at(m.devices, t.device_key);
    let name = match d {
        Some(x) => x.primary_name,
        None => None,
    };
    let mac = match d {
        Some(x) => x.mac,
        None => None,
    };
    TransitionModel {
        kind: t.kind,
        device_key: t.device_key,
        device_display: display::display_of(
            names::just_name(names::name_at(m.names, t.device_key)),
            name,
            mac,
            last_ip_on(m, t.device_key, t.network_key),
            t.device_key,
        ),
        changes: t.changes,
        unstable_identity: !identity::stable(name, mac),
    }
}

/// The condition of belonging to a scan.
pub open spec fn of_scan(id: i64) -> spec_fn(TransitionRecord) -> bool {
    |t: TransitionRecord| t.scan_id == id
}

/// The transitions of a scan as frontends see them.
pub open spec fn transitions_viewed(m: StoreModel, id: i64) -> Seq<TransitionModel> {
    m.transitions.filter(of_scan(id)).map_values(|t: TransitionRecord| transition_view(m, t))
}

/// The condition of being a scan's report of a departure.
pub open spec fn gone_in(id: i64) -> spec_fn(TransitionRecord) -> bool {
    |t: TransitionRecord| t.scan_id == id && t.kind == TransitionKind::Gone
}

/// For how many days observations are kept: the setting, or ninety where it is
/// missing or no number.
pub open spec fn retention_days(m: StoreModel) -> int {
    match crate::store::setting_of(m.settings, "observations_retention_days"@) {
        Some(v) => match crate::num::i64_text(v) {
            Some(n) => n,
            None => 90,
        },
        None => 90,
    }
}

/// The earliest moment whose observations are kept.
pub open spec fn cutoff(m: StoreModel, t: int) -> int {
    t - retention_days(m) * 86_400
}

/// The cutoff can be computed in 64 bits.
pub open spec fn cutoff_fits(m: StoreModel, t: int) -> bool {
    i64::MIN <= retention_days(m) * 86_400 <= i64::MAX && i64::MIN <= cutoff(m, t) <= i64::MAX
}

/// The condition of being recent enough to be kept.
pub open spec fn kept_since(moment: int) -> spec_fn(ObservationRecord) -> bool {
    |o: ObservationRecord| o.at >= moment
}

/// The store after old observations were dropped.
pub open spec fn pruned(m: StoreModel, t: int) -> StoreModel {
    StoreModel { observations: m.observations.filter(kept_since(cutoff(m, t))), ..m }
}

/// What a filter keeps was there.
proof fn lemma_filter_within<A>(s: Seq<A>, p: spec_fn(A) -> bool)
    ensures
        s.filter(p).len() <= s.len(),
        forall|i: int| 0 <= i < s.filter(p).len() ==> s.contains(#[trigger] s.filter(p)[i]),
    decreases s.len(),
{
    reveal(Seq::filter);
    if s.len() > 0 {
        let init = s.drop_last();
        lemma_filter_within(init, p);
        assert forall|i: int| 0 <= i < s.filter(p).len() implies s.contains(
            #[trigger] s.filter(p)[i],
        ) by {
            if i < init.filter(p).len() {
                assert(init.contains(init.filter(p)[i]));
                let k = choose|k: int| 0 <= k < init.len() && init[k] == init.filter(p)[i];
                assert(s[k] == s.filter(p)[i]);
            } else {
                assert(s[s.len() - 1] == s.filter(p)[i]);
            }
        }
    }
}

impl Store {
    /// Record a scan; its id.
    pub fn insert_scan(
        tx: &mut Transaction,
        started_at: i64,
        finished_at: i64,
        network_key: &str,
        partial: bool,
        privilege_json: &str,
        strategies_json: &str,
        partial_reasons: &Vec<PartialReason>,
        stats_json: &str,
    ) -> (r: Result<i64, StoreError>)
        requires
            old(tx).deep_view().wf(),
        ensures
            if old(tx).deep_view().scan_seq < i64::MAX {
                r == Ok::<i64, StoreError>((old(tx).deep_view().scan_seq + 1) as i64)
                    && final(tx).deep_view() == scan_recorded(
                    old(tx).deep_view(),
                    started_at,
                    finished_at,
                    network_key@,
                    partial,
                    privilege_json@,
                    strategies_json@,
                    partial_reasons.deep_view(),
                    stats_json@,
                ) && crate::store::has_scan(
                    final(tx).deep_view().scans,
                    (old(tx).deep_view().scan_seq + 1) as i64,
                )
            } else {
                r == Err::<i64, StoreError>(StoreError::Full) && final(tx).deep_view() == old(
                    tx,
                ).deep_view()
            },
            final(tx).deep_view().wf(),
    {
        let ghost m = tx.deep_view();
        if tx.work.scan_seq == i64::MAX {
            return Err(StoreError::Full);
        }
        let id: i64 = tx.work.scan_seq + 1;
        tx.work.scan_seq = id;
        let row = ScanRow {
            id,
            started_at,
            finished_at,
            network_key: network_key.to_string(),
            partial,
            privilege_json: privilege_json.to_string(),
            strategies_json: strategies_json.to_string(),
            partial_reasons: clone_reasons(partial_reasons),
            stats_json: stats_json.to_string(),
        };
        let ghost model = row.deep_view();
        tx.work.scans.push(row);
        let ghost after = m.scans.push(model);
        assert(tx.work.scans.deep_view() == after);
        proof {
            assert(after[m.scans.len() as int].id == id);
            assert(after.drop_last() == m.scans);
            lemma_scan_added(m, after);
        }
        Ok(id)
    }

    /// Whether a scan is recorded.
    fn scan_exists(&self, id: i64) -> (r: bool)
        ensures
            r == crate::store::has_scan(self.deep_view().scans, id),
    {
        self.find_scan(id).is_some()
    }

    /// Find a scan.
    pub fn find_scan(&self, id: i64) -> (r: Option<usize>)
        ensures
            match r {
                Some(i) => i < self.scans.len() && seqs::first_where(
                    self.deep_view().scans,
                    with_scan_id(id),
                ) == Some(i as int) && crate::store::has_scan(self.deep_view().scans, id),
                None => seqs::first_where(self.deep_view().scans, with_scan_id(id)) is None
                    && !crate::store::has_scan(self.deep_view().scans, id),
            },
    {
        let ghost all = self.scans.deep_view();
        let ghost p = with_scan_id(id);
        let mut i: usize = 0;
        while i < self.scans.len()
            invariant
                i <= self.scans.len(),
                all == self.scans.deep_view(),
                p == with_scan_id(id),
                forall|j: int| 0 <= j < i ==> !p(#[trigger] all[j]),
            decreases self.scans.len() - i,
        {
            assert(all[i as int] == self.scans@[i as int].deep_view());
            if self.scans[i].id == id {
                proof {
                    assert(all[i as int].id == id);
                    assert(seqs::is_first(all, p, i as int));
                    seqs::lemma_first_is(all, p, i as int);
                }
                return Some(i);
            }
            i = i + 1;
        }
        proof {
            seqs::lemma_first_none(all, p);
            assert forall|j: int| 0 <= j < all.len() implies (#[trigger] all[j]).id != id by {
                assert(!p(all[j]));
            }
        }
        None
    }

    /// Record one raw observation of a scan.
    pub fn insert_observation(
        tx: &mut Transaction,
        scan_id: i64,
        at: i64,
        device_key: &str,
        ip: &str,
        mac: Option<&str>,
        hostname: Option<&str>,
        source: &str,
        confidence: u8,
    ) -> (r: Result<(), StoreError>)
        requires
            old(tx).deep_view().wf(),
        ensures
            if crate::store::has_scan(old(tx).deep_view().scans, scan_id) {
                r is Ok && final(tx).deep_view() == (StoreModel {
                    observations: old(tx).deep_view().observations.push(
                        ObservationRecord {
                            scan_id,
                            at,
                            device_key: device_key@,
                            ip: ip@,
                            mac: mac.deep_view(),
                            hostname: hostname.deep_view(),
                            source: source@,
                            confidence,
                        },
                    ),
                    ..old(tx).deep_view()
                })
            } else {
                r == Err::<(), StoreError>(StoreError::NoSuchScan) && final(tx).deep_view() == old(
                    tx,
                ).deep_view()
            },
            final(tx).deep_view().wf(),
    {
        let ghost m = tx.deep_view();
        if !tx.work.scan_exists(scan_id) {
            return Err(StoreError::NoSuchScan);
        }
        let row = ObservationRow {
            scan_id,
            at,
            device_key: device_key.to_string(),
            ip: ip.to_string(),
            mac: own_opt(mac),
            hostname: own_opt(hostname),
            source: source.to_string(),
            confidence,
        };
        let ghost model = row.deep_view();
        tx.work.observations.push(row);
        assert(tx.work.observations.deep_view() == m.observations.push(model));
        Ok(())
    }

    /// Record one transition of a scan.
    pub fn insert_transition(
        tx: &mut Transaction,
        scan_id: i64,
        at: i64,
        device_key: &str,
        network_key: &str,
        kind: TransitionKind,
        changes: &Vec<FieldChange>,
    ) -> (r: Result<(), StoreError>)
        requires
            old(tx).deep_view().wf(),
        ensures
            ({
                let m = old(tx).deep_view();
                if !crate::store::has_scan(m.scans, scan_id) {
                    r == Err::<(), StoreError>(StoreError::NoSuchScan) && final(tx).deep_view()
                        == m
                } else if m.transition_seq == i64::MAX {
                    r == Err::<(), StoreError>(StoreError::Full) && final(tx).deep_view() == m
                } else {
                    r is Ok && final(tx).deep_view() == (StoreModel {
                        transitions: m.transitions.push(
                            TransitionRecord {
                                id: (m.transition_seq + 1) as i64,
                                scan_id,
                                at,
                                device_key: device_key@,
                                network_key: network_key@,
                                kind,
                                changes: changes.deep_view(),
                            },
                        ),
                        transition_seq: (m.transition_seq + 1) as i64,
                        ..m
                    })
                }
            }),
            final(tx).deep_view().wf(),
    {
        let ghost m = tx.deep_view();
        if !tx.work.scan_exists(scan_id) {
            return Err(StoreError::NoSuchScan);
        }
        if tx.work.transition_seq == i64::MAX {
            return Err(StoreError::Full);
        }
        let id: i64 = tx.work.transition_seq + 1;
        tx.work.transition_seq = id;
        let row = TransitionRow {
            id,
            scan_id,
            at,
            device_key: device_key.to_string(),
            network_key: network_key.to_string(),
            kind,
            changes: clone_changes(changes),
        };
        let ghost model = row.deep_view();
        tx.work.transitions.push(row);
        assert(tx.work.transitions.deep_view() == m.transitions.push(model));
        Ok(())
    }

    /// A recorded transition as frontends see it.
    fn view_transition(&self, t: &TransitionRow) -> (r: Transition)
        ensures
            r.deep_view() == transition_view(self.deep_view(), t.deep_view()),
    {
        let ghost m = self.deep_view();
        let (name, mac): (Option<String>, Option<String>) = match find_row(
            &self.devices,
            t.device_key.as_str(),
        ) {
            Some(i) => {
                assert(m.devices[i as int] == self.devices@[i as int].deep_view());
                let d = self.devices[i].copied();
                (d.primary_name, d.mac)
            },
            None => (None, None),
        };
        let user = self.name_under(t.device_key.as_str());
        let ip = self.last_ip(t.device_key.as_str(), t.network_key.as_str());
        let r = Transition {
            kind: t.kind,
            device_key: t.device_key.clone(),
            device_display: device_display(
                as_opt_str(&user),
                as_opt_str(&name),
                as_opt_str(&mac),
                as_opt_str(&ip),
                t.device_key.as_str(),
            ),
            changes: clone_changes(&t.changes),
            unstable_identity: !is_stable(as_opt_str(&name), as_opt_str(&mac)),
        };
        assert(r.deep_view() == transition_view(m, t.deep_view()));
        r
    }

    /// The address at which a device was last seen on a network.
    pub fn last_ip(&self, device_key: &str, network_key: &str) -> (r: Option<String>)
        ensures
            r.deep_view() == last_ip_on(self.deep_view(), device_key@, network_key@),
    {
        match self.find_presence(device_key, network_key) {
            Some(i) => {
                assert(self.deep_view().presence[i as int] == self.presence@[i as int].deep_view());
                self.presence[i].copied().last_ip
            },
            None => None,
        }
    }

    /// The transitions of a scan, in the order in which they were recorded.
    pub fn transitions_of_scan(&self, scan_id: i64) -> (r: Result<Vec<Transition>, StoreError>)
        ensures
            r is Ok,
            r.unwrap().deep_view() == transitions_viewed(self.deep_view(), scan_id),
    {
        let ghost m = self.deep_view();
        let ghost all = m.transitions;
        let ghost p = of_scan(scan_id);
        let ghost f = |t: TransitionRecord| transition_view(m, t);
        let mut out: Vec<Transition> = Vec::new();
        let mut i: usize = 0;
        assert(all.take(0).filter(p) == Seq::<TransitionRecord>::empty());
        assert(out.deep_view() == all.take(0).filter(p).map_values(f));
        while i < self.transitions.len()
            invariant
                i <= self.transitions.len(),
                m == self.deep_view(),
                all == m.transitions,
                p == of_scan(scan_id),
                f == (|t: TransitionRecord| transition_view(m, t)),
                out.deep_view() == all.take(i as int).filter(p).map_values(f),
            decreases self.transitions.len() - i,
        {
            assert(all.take(i + 1) == all.take(i as int).push(all[i as int]));
            assert(all[i as int] == self.transitions@[i as int].deep_view());
            proof {
                seqs::lemma_filter_push(all.take(i as int), all[i as int], p);
            }
            if self.transitions[i].scan_id == scan_id {
                let ghost so_far = out.deep_view();
                let t = self.view_transition(&self.transitions[i]);
                let ghost model = t.deep_view();
                out.push(t);
                assert(out.deep_view() == so_far.push(model));
                assert(all.take(i as int).filter(p).push(all[i as int]).map_values(f) == all.take(
                    i as int,
                ).filter(p).map_values(f).push(f(all[i as int])));
            }
            i = i + 1;
        }
        assert(all.take(all.len() as int) == all);
        Ok(out)
    }

    /// The departures that a scan reported.
    pub fn gone_transitions_for_scan(&self, scan_id: i64) -> (r: Result<Vec<String>, StoreError>)
        ensures
            r is Ok,
            r.unwrap().deep_view() == self.deep_view().transitions.filter(
                gone_in(scan_id),
            ).map_values(|t: TransitionRecord| t.device_key),
    {
        let ghost all = self.transitions.deep_view();
        let ghost p = gone_in(scan_id);
        let ghost f = |t: TransitionRecord| t.device_key;
        let mut out: Vec<String> = Vec::new();
        let mut i: usize = 0;
        assert(all.take(0).filter(p) == Seq::<TransitionRecord>::empty());
        assert(out.deep_view() == all.take(0).filter(p).map_values(f));
        while i < self.transitions.len()
            invariant
                i <= self.transitions.len(),
                all == self.transitions.deep_view(),
                p == gone_in(scan_id),
                f == (|t: TransitionRecord| t.device_key),
                out.deep_view() == all.take(i as int).filter(p).map_values(f),
            decreases self.transitions.len() - i,
        {
            assert(all.take(i + 1) == all.take(i as int).push(all[i as int]));
            assert(all[i as int] == self.transitions@[i as int].deep_view());
            proof {
                seqs::lemma_filter_push(all.take(i as int), all[i as int], p);
            }
            if self.transitions[i].scan_id == scan_id && self.transitions[i].kind
                == TransitionKind::Gone {
                let ghost so_far = out.deep_view();
                out.push(self.transitions[i].device_key.clone());
                assert(out.deep_view() == so_far.push(all[i as int].device_key));
                assert(all.take(i as int).filter(p).push(all[i as int]).map_values(f) == all.take(
                    i as int,
                ).filter(p).map_values(f).push(f(all[i as int])));
            }
            i = i + 1;
        }
        assert(all.take(all.len() as int) == all);
        Ok(out)
    }

    /// Summary of a scan for GUI/CLI "last diff" views.
    pub fn scan_summary(&self, scan_id: i64) -> (r: Result<Option<ScanSummary>, StoreError>)
        ensures
            r is Ok,
            r.unwrap().deep_view() == summary_of(self.deep_view(), scan_id),
    {
        match self.find_scan(scan_id) {
            None => Ok(None),
            Some(i) => {
                assert(self.deep_view().scans[i as int] == self.scans@[i as int].deep_view());
                let s = ScanSummary {
                    partial: self.scans[i].partial,
                    finished_at: self.scans[i].finished_at,
                    strategies: listed_strings(
                        parse_json_strings(self.scans[i].strategies_json.as_str()),
                    ),
                    partial_reasons: clone_reasons(&self.scans[i].partial_reasons),
                };
                Ok(Some(s))
            },
        }
    }

    /// The id and the end of the last scan of a network.
    pub fn last_scan_for_network(&self, network_key: &str) -> (r: Result<
        Option<(i64, i64)>,
        StoreError,
    >)
        ensures
            r == Ok::<Option<(i64, i64)>, StoreError>(last_scan_of(self.deep_view(), network_key@)),
    {
        let ghost m = self.deep_view();
        let mut i: usize = self.scans.len();
        while i > 0
            invariant
                i <= self.scans.len(),
                m == self.deep_view(),
                last_scan_index(m.scans, network_key@, m.scans.len() as int) == last_scan_index(
                    m.scans,
                    network_key@,
                    i as int,
                ),
            decreases i,
        {
            assert(m.scans[i - 1] == self.scans@[i - 1].deep_view());
            if str_eq(self.scans[i - 1].network_key.as_str(), network_key) {
                return Ok(Some((self.scans[i - 1].id, self.scans[i - 1].finished_at)));
            }
            i = i - 1;
        }
        Ok(None)
    }

    /// Delete observations older than the configured retention window, as it
    /// stands at a time; how many there were.
    pub fn prune_at(&mut self, t: i64) -> (r: Result<usize, StoreError>)
        requires
            old(self).deep_view().wf(),
        ensures
            if cutoff_fits(old(self).deep_view(), t as int) {
                final(self).deep_view() == pruned(old(self).deep_view(), t as int) && r == Ok::<
                    usize,
                    StoreError,
                >(
                    (old(self).deep_view().observations.len()
                        - final(self).deep_view().observations.len()) as usize,
                )
            } else {
                r == Err::<usize, StoreError>(StoreError::Range) && final(self).deep_view() == old(
                    self,
                ).deep_view()
            },
            final(self).deep_view().wf(),
    {
        let ghost m = self.deep_view();
        let days: i64 = match self.get_setting("observations_retention_days") {
            Some(v) => match parse_i64(v.as_str()) {
                Some(n) => n,
                None => 90,
            },
            None => 90,
        };
        assert(days == retention_days(m));
        let span: i64 = match days.checked_mul(86_400) {
            Some(s) => s,
            None => {
                return Err(StoreError::Range);
            },
        };
        let limit: i64 = match t.checked_sub(span) {
            Some(c) => c,
            None => {
                return Err(StoreError::Range);
            },
        };
        let ghost all = m.observations;
        let ghost p = kept_since(limit as int);
        let mut kept: Vec<ObservationRow> = Vec::new();
        let n: usize = self.observations.len();
        let mut i: usize = 0;
        assert(all.take(0).filter(p) == Seq::<ObservationRecord>::empty());
        while i < n
            invariant
                i <= n == self.observations.len(),
                m == self.deep_view(),
                all == m.observations,
                p == kept_since(limit as int),
                kept.deep_view() == all.take(i as int).filter(p),
            decreases n - i,
        {
            assert(all.take(i + 1) == all.take(i as int).push(all[i as int]));
            assert(all[i as int] == self.observations@[i as int].deep_view());
            proof {
                seqs::lemma_filter_push(all.take(i as int), all[i as int], p);
            }
            if self.observations[i].at >= limit {
                let ghost so_far = kept.deep_view();
                let row = self.observations[i].copied();
                let ghost model = row.deep_view();
                kept.push(row);
                assert(kept.deep_view() == so_far.push(model));
            }
            i = i + 1;
        }
        assert(all.take(all.len() as int) == all);
        let left: usize = kept.len();
        proof {
            lemma_filter_within(all, p);
            let after = all.filter(p);
            assert(kept.deep_view().len() == left);
            assert forall|k: int| 0 <= k < after.len() implies crate::store::has_scan(
                m.scans,
                (#[trigger] after[k]).scan_id,
            ) by {
                assert(all.contains(after[k]));
                let j = choose|j: int| 0 <= j < all.len() && all[j] == after[k];
                assert(crate::store::has_scan(m.scans, all[j].scan_id));
            }
        }
        self.observations = kept;
        Ok(n - left)
    }

    /// Delete observations older than the configured retention window.
    pub fn prune(&mut self) -> (r: Result<usize, StoreError>)
        requires
            old(self).deep_view().wf(),
        ensures
            exists|t: i64|
                if #[trigger] cutoff_fits(old(self).deep_view(), t as int) {
                    final(self).deep_view() == pruned(old(self).deep_view(), t as int) && r == Ok::<
                        usize,
                        StoreError,
                    >(
                        (old(self).deep_view().observations.len()
                            - final(self).deep_view().observations.len()) as usize,
                    )
                } else {
                    r == Err::<usize, StoreError>(StoreError::Range) && final(self).deep_view()
                        == old(self).deep_view()
                },
            final(self).deep_view().wf(),
    {
        let t: i64 = now();
        self.prune_at(t)
    }
}

/// A scan added at the end with the next id leaves the tables consistent.
proof fn lemma_scan_added(m: StoreModel, after: Seq<ScanRecord>)
    requires
        m.wf(),
        m.scan_seq < i64::MAX,
        after.len() == m.scans.len() + 1,
        after.drop_last() == m.scans,
        after.last().id == m.scan_seq + 1,
    ensures
        (StoreModel { scans: after, scan_seq: (m.scan_seq + 1) as i64, ..m }).wf(),
{
    assert forall|i: int| 0 <= i < m.scans.len() implies #[trigger] after[i] == m.scans[i] by {
        assert(after.drop_last()[i] == after[i]);
    }
    assert forall|id: i64| crate::store::has_scan(m.scans, id) implies crate::store::has_scan(
        after,
        id,
    ) by {
        let i = choose|i: int| 0 <= i < m.scans.len() && (#[trigger] m.scans[i]).id == id;
        assert(after[i].id == id);
    }
}

/// Where the last scan of a network stands.
proof fn lemma_last_scan(s: Seq<ScanRecord>, network: Seq<char>, n: int)
    requires
        0 <= n <= s.len(),
    ensures
        match last_scan_index(s, network, n) {
            Some(i) => 0 <= i < n && s[i].network_key == network && forall|j: int|
                i < j < n ==> (#[trigger] s[j]).network_key != network,
            None => forall|j: int| 0 <= j < n ==> (#[trigger] s[j]).network_key != network,
        },
    decreases n,
{
    if n > 0 {
        lemma_last_scan(s, network, n - 1);
    }
}

/// The last scan of a network is the one on it with the largest id.
pub proof fn law_last_scan_is_the_latest(m: StoreModel, network: Seq<char>)
    requires
        m.wf(),
    ensures
        match last_scan_of(m, network) {
            Some(last) => exists|i: int|
                0 <= i < m.scans.len() && (#[trigger] m.scans[i]).network_key == network
                    && m.scans[i].id == last.0 && m.scans[i].finished_at == last.1 && forall|j: int|
                    0 <= j < m.scans.len() && (#[trigger] m.scans[j]).network_key == network
                        ==> m.scans[j].id <= last.0,
            None => forall|j: int|
                0 <= j < m.scans.len() ==> (#[trigger] m.scans[j]).network_key != network,
        },
{
    lemma_last_scan(m.scans, network, m.scans.len() as int);
    match last_scan_index(m.scans, network, m.scans.len() as int) {
        Some(i) => {
            assert forall|j: int|
                0 <= j < m.scans.len() && (#[trigger] m.scans[j]).network_key == network implies m.scans[j].id
                <= m.scans[i].id by {
                if j < i {
                    assert(m.scans[j].id < m.scans[i].id);
                }
            }
            assert(m.scans[i].network_key == network);
        },
        None => {},
    }
}

/// A scan that was recorded reads back: it is the last of its network, under an
/// id that none had before, with what was said of it. The last scan of every
/// other network stays, and so does everything else in the store.
pub proof fn law_scan_reads_back(
    m: StoreModel,
    started_at: i64,
    finished_at: i64,
    network_key: Seq<char>,
    partial: bool,
    privilege_json: Seq<char>,
    strategies_json: Seq<char>,
    partial_reasons: Seq<ReasonModel>,
    stats_json: Seq<char>,
)
    requires
        m.wf(),
        m.scan_seq < i64::MAX,
    ensures
        ({
            let n = scan_recorded(
                m,
                started_at,
                finished_at,
                network_key,
                partial,
                privilege_json,
                strategies_json,
                partial_reasons,
                stats_json,
            );
            let row = n.scans.last();
            &&& n.scans.drop_last() == m.scans
            &&& n == (StoreModel { scans: n.scans, scan_seq: n.scan_seq, ..m })
            &&& n.scan_seq == m.scan_seq + 1
            &&& row.id == n.scan_seq
            &&& row.started_at == started_at
            &&& row.finished_at == finished_at
            &&& row.network_key == network_key
            &&& row.partial == partial
            &&& row.privilege_json == privilege_json
            &&& row.strategies_json == strategies_json
            &&& row.partial_reasons == partial_reasons
            &&& row.stats_json == stats_json
            &&& last_scan_of(n, network_key) == Some((row.id, finished_at))
            &&& forall|other: Seq<char>|
                other != network_key ==> #[trigger] last_scan_of(n, other) == last_scan_of(m, other)
            &&& summary_of(n, row.id) == Some(
                SummaryModel {
                    partial,
                    finished_at,
                    strategies: match json_strings(strategies_json) {
                        Some(v) => v,
                        None => Seq::empty(),
                    },
                    partial_reasons,
                },
            )
        }),
{
    let n = scan_recorded(
        m,
        started_at,
        finished_at,
        network_key,
        partial,
        privilege_json,
        strategies_json,
        partial_reasons,
        stats_json,
    );
    let at = m.scans.len() as int;
    let id = n.scan_seq;
    assert(n.scans.drop_last() =~= m.scans);
    let p = with_scan_id(id);
    assert(seqs::is_first(n.scans, p, at)) by {
        assert forall|j: int| 0 <= j < at implies !p(#[trigger] n.scans[j]) by {
            assert(m.scans[j].id <= m.scan_seq);
        }
    }
    seqs::lemma_first_is(n.scans, p, at);
    assert forall|other: Seq<char>| other != network_key implies #[trigger] last_scan_of(n, other)
        == last_scan_of(m, other) by {
        lemma_last_scan(n.scans, other, at + 1);
        lemma_last_scan(n.scans, other, at);
        lemma_last_scan(m.scans, other, at);
        assert(forall|j: int| 0 <= j < at ==> n.scans[j] == m.scans[j]);
        match (last_scan_index(n.scans, other, at), last_scan_index(m.scans, other, at)) {
            (Some(i), Some(j)) => {
                if i < j {
                    assert(n.scans[j].network_key != other);
                }
                if j < i {
                    assert(m.scans[i].network_key != other);
                }
            },
            (Some(i), None) => {
                assert(m.scans[i].network_key != other);
            },
            (None, Some(j)) => {
                assert(n.scans[j].network_key != other);
            },
            (None, None) => {},
        }
    }
}

/// The transitions of a scan are shown one for one, in the order in which they
/// were recorded, each with its kind, its device and its changes, under the
/// name that the device has now.
pub proof fn law_transitions_are_shown(m: StoreModel, id: i64)
    ensures
        ({
            let rows = m.transitions.filter(|t: TransitionRecord| t.scan_id == id);
            let shown = transitions_viewed(m, id);
            &&& shown.len() == rows.len()
            &&& forall|i: int|
                0 <= i < rows.len() ==> ({
                    let v = #[trigger] shown[i];
                    let t = rows[i];
                    let d = devices::device_at(m.devices, t.device_key);
                    let p = presence::presence_at(m.presence, t.device_key, t.network_key);
                    let n = names::name_at(m.names, t.device_key);
                    &&& v.kind == t.kind
                    &&& v.device_key == t.device_key
                    &&& v.changes == t.changes
                    &&& v.unstable_identity == !identity::stable(
                        if d is Some {
                            d.unwrap().primary_name
                        } else {
                            None
                        },
                        if d is Some {
                            d.unwrap().mac
                        } else {
                            None
                        },
                    )
                    &&& v.device_display == display::display_of(
                        if n is Some {
                            Some(n.unwrap().0)
                        } else {
                            None
                        },
                        if d is Some {
                            d.unwrap().primary_name
                        } else {
                            None
                        },
                        if d is Some {
                            d.unwrap().mac
                        } else {
                            None
                        },
                        if p is Some {
                            p.unwrap().last_ip
                        } else {
                            None
                        },
                        t.device_key,
                    )
                })
        }),
{
    assert(of_scan(id) =~= (|t: TransitionRecord| t.scan_id == id));
}

/// Pruning drops exactly the observations that are older than the days to keep
/// them, ninety where the setting is no number or not set, and changes nothing
/// else.
pub proof fn law_pruning_drops_the_old(m: StoreModel, t: int)
    ensures
        ({
            let n = pruned(m, t);
            let set = crate::store::setting_of(m.settings, "observations_retention_days"@);
            let days: int = if set is Some && crate::num::i64_text(set.unwrap()) is Some {
                crate::num::i64_text(set.unwrap()).unwrap()
            } else {
                90
            };
            &&& n == (StoreModel { observations: n.observations, ..m })
            &&& n.observations == m.observations.filter(
                |o: ObservationRecord| o.at >= t - days * 86_400,
            )
        }),
{
    let set = crate::store::setting_of(m.settings, "observations_retention_days"@);
    let days: int = if set is Some && crate::num::i64_text(set.unwrap()) is Some {
        crate::num::i64_text(set.unwrap()).unwrap()
    } else {
        90
    };
    assert(kept_since(cutoff(m, t)) =~= (|o: ObservationRecord| o.at >= t - days * 86_400));
}

} // verus!
