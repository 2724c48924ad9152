//! What the frontends ask of the inventory, and what they are told.

use vstd::prelude::*;
use vstd::string::*;

use crate::display;
use crate::display::{device_display, short_key};
use crate::export;
use crate::export::devices_csv;
use crate::model::{HistoryEvent, PartialReason, ReasonModel, Transition, TransitionModel};
use crate::report;
use crate::report::{most_recent_network, name_action, NameAction};
use crate::store::rows;
use crate::store::rows::{DeviceRecord, DeviceRow, NetworkRow};
use crate::store::scans;
use crate::store::scans::{ScanSummary, SummaryModel};
use crate::store::{alias, devices, listing, names, networks};
use crate::store::{Store, StoreError, StoreModel};
use crate::text;
use crate::text::{as_opt_str, str_eq, trim};
use crate::util::now;

verus! {

// ----- texts -----

/// `what` followed by a quoted text.
pub open spec fn quoting(what: Seq<char>, s: Seq<char>) -> Seq<char> {
    what + " '"@ + s + "'"@
}

/// `what` followed by a quoted text.
fn quote(what: &str, s: &str) -> (r: String)
    ensures
        r@ == quoting(what@, s@),
{
    let mut out = what.to_string();
    out.append(" '");
    out.append(s);
    out.append("'");
    out
}

/// How a failure of the store is told.
pub open spec fn store_failure(e: StoreError) -> Seq<char> {
    "database error: "@ + e.text()
}

/// How a failure of the store is told.
pub fn store_err(e: StoreError) -> (r: String)
    ensures
        r@ == store_failure(e),
{
    let mut out = "database error: ".to_string();
    out.append(e.message());
    out
}

// ----- names -----

/// The inventory after a device was renamed: a name that says something is
/// set, none or a blank one takes the present name away.
pub open spec fn renamed(
    m: StoreModel,
    key: Seq<char>,
    name: Option<Seq<char>>,
    notes: Option<Seq<char>>,
    t: i64,
) -> StoreModel {
    let canonical = alias::resolved(m.aliases, key);
    if name is Some && !text::blank(name.unwrap()) {
        StoreModel {
            names: names::with_name(m.names, canonical, text::trimmed(name.unwrap()), notes, t),
            ..m
        }
    } else {
        StoreModel { names: names::without_name(m.names, canonical), ..m }
    }
}

/// Give a device a name, or take it away, as of a time.
pub fn rename_device_at(
    store: &mut Store,
    device: &str,
    name: Option<&str>,
    notes: Option<&str>,
    t: i64,
) -> (r: Result<(), String>)
    requires
        old(store).deep_view().wf(),
    ensures
        match devices::device_by_ref(old(store).deep_view(), device@) {
            None => {
                &&& r is Err
                &&& r->Err_0@ == quoting("no device matches"@, device@)
                &&& final(store).deep_view() == old(store).deep_view()
            },
            Some(d) => r is Ok && final(store).deep_view() == renamed(
                old(store).deep_view(),
                d.key,
                name.deep_view(),
                notes.deep_view(),
                t,
            ),
        },
        final(store).deep_view().wf(),
{
    let dev = match store.get_device_by_ref(device) {
        Ok(Some(d)) => d,
        Ok(None) => {
            return Err(quote("no device matches", device));
        },
        Err(e) => {
            return Err(store_err(e));
        },
    };
    let done = match name_action(name, true) {
        NameAction::Give(n) => store.set_user_name_at(dev.key.as_str(), n.as_str(), notes, t),
        _ => store.clear_user_name(dev.key.as_str()),
    };
    match done {
        Ok(()) => Ok(()),
        Err(e) => Err(store_err(e)),
    }
}

/// Give a device a name, or take it away.
pub fn rename_device(store: &mut Store, device: &str, name: Option<&str>, notes: Option<&str>) -> (r:
    Result<(), String>)
    requires
        old(store).deep_view().wf(),
    ensures
        match devices::device_by_ref(old(store).deep_view(), device@) {
            None => {
                &&& r is Err
                &&& r->Err_0@ == quoting("no device matches"@, device@)
                &&& final(store).deep_view() == old(store).deep_view()
            },
            Some(d) => r is Ok && exists|t: i64|
                final(store).deep_view() == #[trigger] renamed(
                    old(store).deep_view(),
                    d.key,
                    name.deep_view(),
                    notes.deep_view(),
                    t,
                ),
        },
        final(store).deep_view().wf(),
{
    let t: i64 = now();
    rename_device_at(store, device, name, notes, t)
}

/// What is said of a device that was named.
pub open spec fn naming_text(key: Seq<char>, name: Option<Seq<char>>) -> Seq<char> {
    if name is Some && !text::blank(name.unwrap()) {
        "named device "@ + display::short(key) + " → \""@ + text::trimmed(name.unwrap()) + "\""@
    } else {
        "cleared name for device "@ + display::short(key)
    }
}

/// Whether a request to name a device asks for anything.
pub open spec fn names_or_clears(name: Option<Seq<char>>, clear: bool) -> bool {
    clear || (name is Some && !text::blank(name.unwrap()))
}

/// Name a device as of a time, where a missing name is an instruction only
/// together with the wish to clear it; what to say of it.
pub fn name_device_at(
    store: &mut Store,
    device: &str,
    name: Option<&str>,
    notes: Option<&str>,
    clear: bool,
    t: i64,
) -> (r: Result<String, String>)
    requires
        old(store).deep_view().wf(),
    ensures
        match devices::device_by_ref(old(store).deep_view(), device@) {
            None => {
                &&& r is Err
                &&& r->Err_0@ == quoting("no device matches"@, device@)
                &&& final(store).deep_view() == old(store).deep_view()
            },
            Some(d) => if names_or_clears(name.deep_view(), clear) {
                &&& r is Ok
                &&& r->Ok_0@ == naming_text(d.key, name.deep_view())
                &&& final(store).deep_view() == renamed(
                    old(store).deep_view(),
                    d.key,
                    name.deep_view(),
                    notes.deep_view(),
                    t,
                )
            } else {
                &&& r is Err
                &&& r->Err_0@
                    == "no name given; pass a name, or --clear to remove the existing one"@
                &&& final(store).deep_view() == old(store).deep_view()
            },
        },
        final(store).deep_view().wf(),
{
    let dev = match store.get_device_by_ref(device) {
        Ok(Some(d)) => d,
        Ok(None) => {
            return Err(quote("no device matches", device));
        },
        Err(e) => {
            return Err(store_err(e));
        },
    };
    match name_action(name, clear) {
        NameAction::Give(n) => {
            if let Err(e) = store.set_user_name_at(dev.key.as_str(), n.as_str(), notes, t) {
                return Err(store_err(e));
            }
            let mut out = "named device ".to_string();
            out.append(short_key(dev.key.as_str()).as_str());
            out.append(" → \"");
            out.append(n.as_str());
            out.append("\"");
            Ok(out)
        },
        NameAction::Clear => {
            if let Err(e) = store.clear_user_name(dev.key.as_str()) {
                return Err(store_err(e));
            }
            let mut out = "cleared name for device ".to_string();
            out.append(short_key(dev.key.as_str()).as_str());
            Ok(out)
        },
        NameAction::Refuse => Err(
            "no name given; pass a name, or --clear to remove the existing one".to_string(),
        ),
    }
}

// ----- labels -----

/// Label a network by its key.
pub fn set_network_label(store: &mut Store, network: &str, label: &str) -> (r: Result<(), String>)
    requires
        old(store).deep_view().wf(),
    ensures
        if rows::row_index::<NetworkRow>(old(store).deep_view().networks, network@) is Some {
            r is Ok && final(store).deep_view() == (StoreModel {
                networks: networks::network_labelled(
                    old(store).deep_view().networks,
                    network@,
                    label@,
                ),
                ..old(store).deep_view()
            })
        } else {
            r is Err && r->Err_0@ == "unknown network"@ && final(store).deep_view() == old(
                store,
            ).deep_view()
        },
        final(store).deep_view().wf(),
{
    match store.set_network_label(network, label) {
        Ok(true) => Ok(()),
        Ok(false) => Err("unknown network".to_string()),
        Err(e) => Err(store_err(e)),
    }
}

/// Label a network by its key or the beginning of it; what to say of it.
pub fn label_network(store: &mut Store, network: &str, label: &str) -> (r: Result<String, String>)
    requires
        old(store).deep_view().wf(),
    ensures
        match networks::network_by_ref(old(store).deep_view().networks, network@) {
            None => {
                &&& r is Err
                &&& r->Err_0@ == quoting("no network matches"@, network@)
                &&& final(store).deep_view() == old(store).deep_view()
            },
            Some(n) => {
                &&& r is Ok
                &&& r->Ok_0@ == "labelled network "@ + display::short(n.key) + " → \""@
                    + text::trimmed(label@) + "\""@
                &&& final(store).deep_view() == (StoreModel {
                    networks: networks::network_labelled(
                        old(store).deep_view().networks,
                        n.key,
                        text::trimmed(label@),
                    ),
                    ..old(store).deep_view()
                })
            },
        },
        final(store).deep_view().wf(),
{
    let net = match store.get_network_by_ref(network) {
        Ok(Some(n)) => n,
        Ok(None) => {
            return Err(quote("no network matches", network));
        },
        Err(e) => {
            return Err(store_err(e));
        },
    };
    let label = trim(label);
    match store.set_network_label(net.key.as_str(), label.as_str()) {
        Ok(_) => {},
        Err(e) => {
            return Err(store_err(e));
        },
    }
    let mut out = "labelled network ".to_string();
    out.append(short_key(net.key.as_str()).as_str());
    out.append(" → \"");
    out.append(label.as_str());
    out.append("\"");
    Ok(out)
}

// ----- histories -----

/// How many events a history has where no limit is given.
pub const HISTORY_LIMIT: i64 = 40;

/// The history of a device that is named by a reference.
pub fn device_history(store: &Store, device: &str, limit: Option<i64>) -> (r: Result<
    Vec<HistoryEvent>,
    String,
>)
    ensures
        match devices::device_by_ref(store.deep_view(), device@) {
            None => r is Err && r->Err_0@ == quoting("no device matches"@, device@),
            Some(d) => r is Ok && r->Ok_0.deep_view() == listing::history_of(
                store.deep_view(),
                d.key,
                (match limit {
                    Some(n) => n,
                    None => HISTORY_LIMIT,
                }) as int,
            ),
        },
{
    let dev = match store.get_device_by_ref(device) {
        Ok(Some(d)) => d,
        Ok(None) => {
            return Err(quote("no device matches", device));
        },
        Err(e) => {
            return Err(store_err(e));
        },
    };
    let n: i64 = match limit {
        Some(n) => n,
        None => HISTORY_LIMIT,
    };
    match store.device_history(dev.key.as_str(), n) {
        Ok(events) => Ok(events),
        Err(e) => Err(store_err(e)),
    }
}

/// The title of the history of a device.
pub open spec fn history_title_of(m: StoreModel, d: DeviceRecord) -> Seq<char> {
    "history for "@ + display::display_of(
        names::just_name(names::user_name_of(m, d.key)),
        d.primary_name,
        d.mac,
        None,
        d.key,
    ) + " ("@ + display::short(d.key) + ") — times in UTC"@
}

/// The title of the history of a device.
fn title(store: &Store, dev: &DeviceRow) -> (r: String)
    ensures
        r@ == history_title_of(store.deep_view(), dev.deep_view()),
{
    let user = store.user_name(dev.key.as_str());
    let shown = device_display(
        as_opt_str(&user),
        as_opt_str(&dev.primary_name),
        as_opt_str(&dev.mac),
        None,
        dev.key.as_str(),
    );
    let mut out = "history for ".to_string();
    out.append(shown.as_str());
    out.append(" (");
    out.append(short_key(dev.key.as_str()).as_str());
    out.append(") — times in UTC");
    out
}

/// The title of the history of a device that is named by a reference.
pub fn history_title(store: &Store, device: &str) -> (r: Result<String, String>)
    ensures
        match devices::device_by_ref(store.deep_view(), device@) {
            None => r is Err && r->Err_0@ == quoting("no device matches"@, device@),
            Some(d) => r is Ok && r->Ok_0@ == history_title_of(store.deep_view(), d),
        },
{
    match store.get_device_by_ref(device) {
        Ok(Some(d)) => Ok(title(store, &d)),
        Ok(None) => Err(quote("no device matches", device)),
        Err(e) => Err(store_err(e)),
    }
}

// ----- diffs -----

/// What the last scan of a network found.
#[derive(Debug)]
pub struct LastDiff {
    pub scan_id: i64,
    pub network: String,
    pub finished_at: i64,
    /// What is known of the scan as a whole.
    pub summary: Option<ScanSummary>,
    pub transitions: Vec<Transition>,
}

/// What a [`LastDiff`] says.
#[verifier::ext_equal]
pub struct DiffModel {
    pub scan_id: i64,
    pub network: Seq<char>,
    pub finished_at: i64,
    pub summary: Option<SummaryModel>,
    pub transitions: Seq<TransitionModel>,
}

impl DeepView for LastDiff {
    type V = DiffModel;

    open spec fn deep_view(&self) -> DiffModel {
        DiffModel {
            scan_id: self.scan_id,
            network: self.network@,
            finished_at: self.finished_at,
            summary: self.summary.deep_view(),
            transitions: self.transitions.deep_view(),
        }
    }
}

/// What the last scan of a network found, where there was one.
pub open spec fn diff_of(m: StoreModel, network: Seq<char>) -> Option<DiffModel> {
    match scans::last_scan_of(m, network) {
        None => None,
        Some(last) => Some(
            DiffModel {
                scan_id: last.0,
                network,
                finished_at: last.1,
                summary: scans::summary_of(m, last.0),
                transitions: scans::transitions_viewed(m, last.0),
            },
        ),
    }
}

/// What the last scan of a network found, where there was one.
fn find_diff(store: &Store, network: &str) -> (r: Result<Option<LastDiff>, StoreError>)
    ensures
        r is Ok,
        r.unwrap().deep_view() == diff_of(store.deep_view(), network@),
{
    let (scan_id, finished_at) = match store.last_scan_for_network(network)? {
        Some(last) => last,
        None => {
            return Ok(None);
        },
    };
    let summary = store.scan_summary(scan_id)?;
    let transitions = store.transitions_of_scan(scan_id)?;
    let d = LastDiff { scan_id, network: network.to_string(), finished_at, summary, transitions };
    assert(Some(d.deep_view()) == diff_of(store.deep_view(), network@));
    Ok(Some(d))
}

/// What the last scan of a network found, for the banner at startup. Without
/// a network it is the one that is listed first; there is nothing to show
/// where no network is remembered or none of its scans.
pub fn last_diff(store: &Store, network: Option<&str>) -> (r: Result<Option<LastDiff>, String>)
    ensures
        r is Ok,
        match network {
            Some(n) => r->Ok_0.deep_view() == diff_of(store.deep_view(), n@),
            None => {
                let listed = networks::networks_listed(store.deep_view());
                if listed.len() == 0 {
                    r->Ok_0 is None
                } else {
                    r->Ok_0.deep_view() == diff_of(store.deep_view(), listed[0].key)
                }
            },
        },
{
    let target: String = match network {
        Some(n) => n.to_string(),
        None => {
            let listed = match store.list_networks() {
                Ok(l) => l,
                Err(e) => {
                    return Err(store_err(e));
                },
            };
            let ghost all = listed.deep_view();
            if listed.len() == 0 {
                return Ok(None);
            }
            assert(all[0] == listed@[0].deep_view());
            listed[0].key.clone()
        },
    };
    match find_diff(store, target.as_str()) {
        Ok(d) => Ok(d),
        Err(e) => Err(store_err(e)),
    }
}

/// What the last scan of a network found, for the command line. Without a
/// network it is the one seen last.
pub fn network_diff(store: &Store, network: Option<&str>) -> (r: Result<LastDiff, String>)
    ensures
        match network {
            Some(n) => diff_or_refusal(store.deep_view(), n@, r),
            None => {
                let listed = networks::networks_listed(store.deep_view());
                if listed.len() == 0 {
                    r is Err && r->Err_0@ == "no scans recorded yet — run `mipscan scan` first"@
                } else {
                    exists|i: int|
                        #[trigger] report::is_most_recent(listed, i) && diff_or_refusal(
                            store.deep_view(),
                            listed[i].key,
                            r,
                        )
                }
            },
        },
{
    let target: String = match network {
        Some(n) => n.to_string(),
        None => {
            let listed = match store.list_networks() {
                Ok(l) => l,
                Err(e) => {
                    return Err(store_err(e));
                },
            };
            assert(listed@.len() == listed.deep_view().len());
            match most_recent_network(&listed) {
                Some(k) => k,
                None => {
                    return Err("no scans recorded yet — run `mipscan scan` first".to_string());
                },
            }
        },
    };
    match find_diff(store, target.as_str()) {
        Ok(Some(d)) => Ok(d),
        Ok(None) => Err("no scan recorded for that network".to_string()),
        Err(e) => Err(store_err(e)),
    }
}

/// A diff of a network, or the refusal where it was never scanned.
pub open spec fn diff_or_refusal(
    m: StoreModel,
    network: Seq<char>,
    r: Result<LastDiff, String>,
) -> bool {
    match diff_of(m, network) {
        Some(d) => r is Ok && r->Ok_0.deep_view() == d,
        None => r is Err && r->Err_0@ == "no scan recorded for that network"@,
    }
}

/// Why a diff cannot report what is gone, where it cannot.
pub open spec fn shortfall(d: DiffModel) -> Option<Seq<ReasonModel>> {
    match d.summary {
        Some(s) => if s.partial {
            Some(s.partial_reasons)
        } else {
            None
        },
        None => None,
    }
}

impl LastDiff {
    /// The lines that tell a diff.
    pub fn lines(&self) -> (r: Vec<String>)
        ensures
            r.deep_view() == report::diff_lines_of(
                self.network@,
                self.scan_id,
                self.finished_at,
                shortfall(self.deep_view()),
                self.transitions.deep_view(),
            ),
    {
        let partial: Option<Vec<PartialReason>> = match &self.summary {
            Some(s) => if s.partial {
                Some(crate::model::clone_reasons(&s.partial_reasons))
            } else {
                None
            },
            None => None,
        };
        assert(partial.deep_view() == shortfall(self.deep_view()));
        report::diff_lines(
            self.network.as_str(),
            self.scan_id,
            self.finished_at,
            &partial,
            &self.transitions,
        )
    }
}

// ----- settings -----

/// The settings as the settings panel shows them.
#[derive(Debug)]
pub struct Settings {
    pub grace_scans: u32,
    pub enabled_strategies: String,
    pub retention_days: String,
}

/// The value of a setting, nothing where it is not set.
pub open spec fn value_of(m: StoreModel, key: Seq<char>) -> Seq<char> {
    match crate::store::setting_of(m.settings, key) {
        Some(v) => v,
        None => Seq::empty(),
    }
}

/// The value of a setting, nothing where it is not set.
fn setting_text(store: &Store, key: &str) -> (r: String)
    ensures
        r@ == value_of(store.deep_view(), key@),
{
    match store.get_setting(key) {
        Some(v) => v,
        None => {
            let s = String::new();
            assert(s@ == Seq::<char>::empty());
            s
        },
    }
}

/// The settings as the settings panel shows them.
pub fn get_settings(store: &Store) -> (r: Settings)
    ensures
        r.grace_scans == crate::store::grace_of(store.deep_view().settings),
        r.enabled_strategies@ == value_of(store.deep_view(), "enabled_strategies"@),
        r.retention_days@ == value_of(store.deep_view(), "observations_retention_days"@),
{
    Settings {
        grace_scans: store.grace_scans(),
        enabled_strategies: setting_text(store, "enabled_strategies"),
        retention_days: setting_text(store, "observations_retention_days"),
    }
}

/// Change a setting that the settings panel may change.
pub fn set_setting(store: &mut Store, key: &str, value: &str) -> (r: Result<(), String>)
    requires
        old(store).deep_view().wf(),
    ensures
        if crate::store::writable_setting(key@) {
            r is Ok && final(store).deep_view() == (StoreModel {
                settings: crate::store::with_setting(
                    old(store).deep_view().settings,
                    key@,
                    value@,
                ),
                ..old(store).deep_view()
            })
        } else {
            &&& r is Err
            &&& r->Err_0@ == "setting not writable from the UI"@
            &&& final(store).deep_view() == old(store).deep_view()
        },
        final(store).deep_view().wf(),
{
    if !Store::is_writable_setting(key) {
        return Err("setting not writable from the UI".to_string());
    }
    match store.set_setting(key, value) {
        Ok(()) => Ok(()),
        Err(e) => Err(store_err(e)),
    }
}

/// What a request to read or change a setting comes to.
#[derive(Debug)]
pub enum ConfigOutcome {
    /// The setting was changed; the line says to what.
    Changed(String),
    /// What was asked for, line by line.
    Shown(Vec<String>),
}

/// A setting and its value in a line.
pub open spec fn setting_line(key: Seq<char>, value: Seq<char>) -> Seq<char> {
    key + " = "@ + value
}

/// A setting and its value in a line.
fn write_setting(key: &str, value: &str) -> (r: String)
    ensures
        r@ == setting_line(key@, value@),
{
    let mut out = key.to_string();
    out.append(" = ");
    out.append(value);
    out
}

/// The lines that list every setting a frontend may change.
pub open spec fn all_settings(m: StoreModel) -> Seq<Seq<char>> {
    seq![
        setting_line("grace_scans"@, value_of(m, "grace_scans"@)),
        setting_line(
            "observations_retention_days"@,
            value_of(m, "observations_retention_days"@),
        ),
        setting_line("enabled_strategies"@, value_of(m, "enabled_strategies"@)),
    ]
}

/// Read or change a setting: a key with a value changes it, a key alone
/// reads it, and no key lists them all.
pub fn config(store: &mut Store, key: Option<&str>, value: Option<&str>) -> (r: Result<
    ConfigOutcome,
    String,
>)
    requires
        old(store).deep_view().wf(),
    ensures
        match (key, value) {
            (Some(k), Some(v)) => if crate::store::writable_setting(k@) {
                &&& r matches Ok(ConfigOutcome::Changed(line)) && line@ == setting_line(k@, v@)
                &&& final(store).deep_view() == (StoreModel {
                    settings: crate::store::with_setting(
                        old(store).deep_view().settings,
                        k@,
                        v@,
                    ),
                    ..old(store).deep_view()
                })
            } else {
                &&& r is Err
                &&& r->Err_0@ == "'"@ + k@
                    + "' is not a writable setting (try: grace_scans, observations_retention_days, enabled_strategies)"@
                &&& final(store).deep_view() == old(store).deep_view()
            },
            (Some(k), None) => {
                &&& final(store).deep_view() == old(store).deep_view()
                &&& match crate::store::setting_of(old(store).deep_view().settings, k@) {
                    Some(v) => r matches Ok(ConfigOutcome::Shown(lines)) && lines.deep_view()
                        == seq![v],
                    None => r is Err && r->Err_0@ == "'"@ + k@ + "' is not set"@,
                }
            },
            (None, _) => {
                &&& final(store).deep_view() == old(store).deep_view()
                &&& r matches Ok(ConfigOutcome::Shown(lines)) && lines.deep_view() == all_settings(
                    old(store).deep_view(),
                )
            },
        },
        final(store).deep_view().wf(),
{
    match (key, value) {
        (Some(k), Some(v)) => {
            if !Store::is_writable_setting(k) {
                let mut out = "'".to_string();
                out.append(k);
                out.append(
                    "' is not a writable setting (try: grace_scans, observations_retention_days, enabled_strategies)",
                );
                return Err(out);
            }
            if let Err(e) = store.set_setting(k, v) {
                return Err(store_err(e));
            }
            Ok(ConfigOutcome::Changed(write_setting(k, v)))
        },
        (Some(k), None) => match store.get_setting(k) {
            Some(v) => {
                let ghost model = v@;
                let mut lines: Vec<String> = Vec::new();
                lines.push(v);
                assert(lines.deep_view() == seq![model]);
                Ok(ConfigOutcome::Shown(lines))
            },
            None => {
                let mut out = "'".to_string();
                out.append(k);
                out.append("' is not set");
                Err(out)
            },
        },
        (None, _) => {
            let mut lines: Vec<String> = Vec::new();
            lines.push(write_setting("grace_scans", setting_text(store, "grace_scans").as_str()));
            lines.push(
                write_setting(
                    "observations_retention_days",
                    setting_text(store, "observations_retention_days").as_str(),
                ),
            );
            lines.push(
                write_setting(
                    "enabled_strategies",
                    setting_text(store, "enabled_strategies").as_str(),
                ),
            );
            assert(lines.deep_view() == all_settings(store.deep_view()));
            Ok(ConfigOutcome::Shown(lines))
        },
    }
}

// ----- exports -----

/// A form in which the inventory leaves the program.
#[derive(Debug, Clone, Copy, PartialEq, Eq, Structural)]
pub enum ExportFormat {
    Csv,
    Json,
}

/// The export format of a name.
pub fn export_format(name: &str) -> (r: Result<ExportFormat, String>)
    ensures
        if name@ == "csv"@ {
            r == Ok::<ExportFormat, String>(ExportFormat::Csv)
        } else if name@ == "json"@ {
            r == Ok::<ExportFormat, String>(ExportFormat::Json)
        } else {
            r is Err && r->Err_0@ == quoting("unknown export format"@, name@) + " (csv|json)"@
        },
{
    if str_eq(name, "csv") {
        Ok(ExportFormat::Csv)
    } else if str_eq(name, "json") {
        Ok(ExportFormat::Json)
    } else {
        let mut out = quote("unknown export format", name);
        out.append(" (csv|json)");
        Err(out)
    }
}

/// The inventory, or the part of it on a network, as CSV.
pub fn export_csv(store: &Store, network: Option<&str>) -> (r: Result<String, String>)
    ensures
        r is Ok,
        r->Ok_0@ == export::csv_text(
            listing::devices_listed(store.deep_view(), network.deep_view()),
        ),
{
    match store.list_devices(network) {
        Ok(devices) => {
            let all = devices.as_slice();
            assert(all.deep_view() == devices.deep_view());
            Ok(devices_csv(all))
        },
        Err(e) => Err(store_err(e)),
    }
}

// ----- laws -----

/// A device that was renamed reads back under its new name, whichever of its
/// keys is asked for.
pub proof fn law_renamed_device_has_its_name(
    m: StoreModel,
    key: Seq<char>,
    name: Seq<char>,
    notes: Option<Seq<char>>,
    t: i64,
)
    requires
        m.wf(),
    ensures
        ({
            let n = names::just_name(
                names::user_name_of(renamed(m, key, Some(name), notes, t), key),
            );
            if text::blank(name) {
                n is None
            } else {
                n == Some(text::trimmed(name))
            }
        }),
{
    if text::blank(name) {
        names::law_cleared_name_is_gone(m, key);
    } else {
        names::law_name_reads_back(m, key, text::trimmed(name), notes, t);
    }
}

/// Changing one setting leaves what every other reads as it was.
pub proof fn law_settings_are_independent(
    m: StoreModel,
    key: Seq<char>,
    value: Seq<char>,
    other: Seq<char>,
)
    requires
        m.wf(),
    ensures
        ({
            let n = StoreModel {
                settings: crate::store::with_setting(m.settings, key, value),
                ..m
            };
            value_of(n, other) == if other == key {
                value
            } else {
                value_of(m, other)
            }
        }),
{
    crate::store::law_setting_reads_back(m.settings, key, value);
}

/// Renaming a device touches nothing but its own name: a name that says
/// something, without the blanks around it, is written under the key the
/// device goes by; any other takes the name away.
pub proof fn law_renaming_is_confined(
    m: StoreModel,
    key: Seq<char>,
    name: Option<Seq<char>>,
    notes: Option<Seq<char>>,
    t: i64,
    other: Seq<char>,
)
    requires
        m.wf(),
    ensures
        ({
            let n = renamed(m, key, name, notes, t);
            &&& n == (StoreModel { names: n.names, ..m })
            &&& name is None ==> names::user_name_of(n, key) is None
            &&& alias::resolved(m.aliases, other) != alias::resolved(m.aliases, key)
                ==> names::user_name_of(n, other) == names::user_name_of(m, other)
            &&& name is Some && !text::blank(name.unwrap()) && notes is Some
                ==> names::user_name_of(n, key) == Some((text::trimmed(name.unwrap()), notes))
        }),
{
    let k = alias::resolved(m.aliases, key);
    let k2 = alias::resolved(m.aliases, other);
    if name is Some && !text::blank(name.unwrap()) {
        names::law_name_reads_back(m, key, text::trimmed(name.unwrap()), notes, t);
    } else {
        names::law_cleared_name_is_gone(m, key);
        let s = m.names;
        let n = names::without_name(s, k);
        rows::lemma_row_index::<rows::NameRow>(s, k);
        rows::lemma_row_index::<rows::NameRow>(s, k2);
        rows::lemma_row_index::<rows::NameRow>(n, k2);
        if k != k2 {
            match rows::row_index::<rows::NameRow>(s, k) {
                Some(i) => {
                    rows::lemma_remove_unique::<rows::NameRow>(s, i);
                    match rows::row_index::<rows::NameRow>(s, k2) {
                        Some(j) => {
                            let at = if j < i {
                                j
                            } else {
                                j - 1
                            };
                            assert(n[at] == s[j]);
                            rows::lemma_row_found::<rows::NameRow>(n, at);
                        },
                        None => {
                            match rows::row_index::<rows::NameRow>(n, k2) {
                                Some(j) => {
                                    let at = if j < i {
                                        j
                                    } else {
                                        j + 1
                                    };
                                    assert(s[at] == n[j]);
                                },
                                None => {},
                            }
                        },
                    }
                },
                None => {},
            }
        }
    }
}

/// The diff of a network is that of its latest scan: it tells the scan's id,
/// when it ended, whether and why it was partial, and each of the transitions
/// recorded for it, in their order. A network without a scan has none.
pub proof fn law_diff_is_of_the_latest_scan(m: StoreModel, network: Seq<char>)
    requires
        m.wf(),
    ensures
        match diff_of(m, network) {
            None => forall|j: int|
                0 <= j < m.scans.len() ==> (#[trigger] m.scans[j]).network_key != network,
            Some(d) => {
                &&& d.network == network
                &&& d.summary is Some
                &&& exists|i: int|
                    0 <= i < m.scans.len() && (#[trigger] m.scans[i]).network_key == network
                        && m.scans[i].id == d.scan_id && m.scans[i].finished_at == d.finished_at
                        && m.scans[i].finished_at == d.summary.unwrap().finished_at
                        && m.scans[i].partial == d.summary.unwrap().partial
                        && m.scans[i].partial_reasons == d.summary.unwrap().partial_reasons
                        && forall|j: int|
                        0 <= j < m.scans.len() && (#[trigger] m.scans[j]).network_key == network
                            ==> m.scans[j].id <= d.scan_id
                &&& ({
                    let told = m.transitions.filter(
                        |t: rows::TransitionRecord| t.scan_id == d.scan_id,
                    );
                    d.transitions.len() == told.len() && forall|i: int|
                        0 <= i < told.len() ==> (#[trigger] d.transitions[i]).kind == told[i].kind
                            && d.transitions[i].device_key == told[i].device_key
                            && d.transitions[i].changes == told[i].changes
                })
            },
        },
{
    scans::law_last_scan_is_the_latest(m, network);
    match scans::last_scan_of(m, network) {
        Some(last) => {
            let i = choose|i: int|
                0 <= i < m.scans.len() && (#[trigger] m.scans[i]).network_key == network
                    && m.scans[i].id == last.0 && m.scans[i].finished_at == last.1 && forall|j: int|
                    0 <= j < m.scans.len() && (#[trigger] m.scans[j]).network_key == network
                        ==> m.scans[j].id <= last.0;
            let p = scans::with_scan_id(last.0);
            assert(crate::seqs::is_first(m.scans, p, i)) by {
                assert forall|j: int| 0 <= j < i implies !p(#[trigger] m.scans[j]) by {
                    assert(m.scans[j].id < m.scans[i].id);
                }
            }
            crate::seqs::lemma_first_is(m.scans, p, i);
            scans::law_transitions_are_shown(m, last.0);
        },
        None => {},
    }
}

/// The list of settings has a line for each that a frontend may change, the
/// name, an equals sign and the value as it was last set.
pub proof fn law_settings_are_listed(
    m: StoreModel,
    grace: Seq<char>,
    days: Seq<char>,
    strategies: Seq<char>,
)
    requires
        m.wf(),
    ensures
        ({
            let a = crate::store::with_setting(m.settings, "grace_scans"@, grace);
            let b = crate::store::with_setting(a, "observations_retention_days"@, days);
            let c = crate::store::with_setting(b, "enabled_strategies"@, strategies);
            all_settings(StoreModel { settings: c, ..m }) == seq![
                "grace_scans = "@ + grace,
                "observations_retention_days = "@ + days,
                "enabled_strategies = "@ + strategies,
            ]
        }),
{
    reveal_strlit("grace_scans");
    reveal_strlit("observations_retention_days");
    reveal_strlit("enabled_strategies");
    reveal_strlit(" = ");
    reveal_strlit("grace_scans = ");
    reveal_strlit("observations_retention_days = ");
    reveal_strlit("enabled_strategies = ");
    assert("grace_scans"@.len() != "observations_retention_days"@.len());
    assert("grace_scans"@.len() != "enabled_strategies"@.len());
    assert("observations_retention_days"@.len() != "enabled_strategies"@.len());
    let a = crate::store::with_setting(m.settings, "grace_scans"@, grace);
    let b = crate::store::with_setting(a, "observations_retention_days"@, days);
    crate::store::law_setting_reads_back(m.settings, "grace_scans"@, grace);
    crate::store::law_setting_reads_back(a, "observations_retention_days"@, days);
    crate::store::law_setting_reads_back(b, "enabled_strategies"@, strategies);
    let c = crate::store::with_setting(b, "enabled_strategies"@, strategies);
    let n = StoreModel { settings: c, ..m };
    assert("grace_scans"@ + " = "@ =~= "grace_scans = "@);
    assert("observations_retention_days"@ + " = "@ =~= "observations_retention_days = "@);
    assert("enabled_strategies"@ + " = "@ =~= "enabled_strategies = "@);
    assert(all_settings(n) =~= seq![
        "grace_scans = "@ + grace,
        "observations_retention_days = "@ + days,
        "enabled_strategies = "@ + strategies,
    ]);
}

} // verus!
