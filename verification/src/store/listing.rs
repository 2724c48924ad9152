//! The inventory as frontends list it, and the history of a device.

use vstd::prelude::*;
use vstd::string::*;

use crate::display;
use crate::display::device_display;
use crate::identity;
use crate::identity::is_stable;
use crate::model::{
    clone_changes, DeviceStatus, DeviceView, DeviceViewModel, EventModel, HistoryEvent,
    TransitionKind,
};
use crate::seqs;
use crate::store::alias;
use crate::store::names;
use crate::store::presence;
use crate::store::rows;
use crate::store::rows::{
    copy_rows, find_row, sort_newest, Copied, DeviceRecord, DeviceRow, NameRow, ObservationRecord,
    PresenceRecord, TransitionRecord,
};
use crate::store::scans;
use crate::store::{Store, StoreError, StoreModel};
use crate::text::{as_opt_str, clone_opt, str_eq};

verus! {

// ----- the device list -----

/// The condition of being a device's presence.
pub open spec fn of_device(key: Seq<char>) -> spec_fn(PresenceRecord) -> bool {
    |p: PresenceRecord| p.device_key == key
}

/// The networks a device has been seen on.
pub open spec fn networks_of(m: StoreModel, key: Seq<char>) -> Seq<Seq<char>> {
    m.presence.filter(of_device(key)).map_values(|p: PresenceRecord| p.network_key)
}

/// A device's presence that was seen last, among the first `n` rows.
pub open spec fn latest_presence(s: Seq<PresenceRecord>, key: Seq<char>, n: int) -> Option<
    PresenceRecord,
>
    decreases n,
{
    if n <= 0 {
        None
    } else {
        let rest = latest_presence(s, key, n - 1);
        let p = s[n - 1];
        if p.device_key == key && (rest is None || p.last_seen > rest.unwrap().last_seen) {
            Some(p)
        } else {
            rest
        }
    }
}

/// The presence that counts for a listing: that on the network asked for, or
/// the latest on any.
pub open spec fn presence_for(m: StoreModel, key: Seq<char>, network: Option<Seq<char>>) -> Option<
    PresenceRecord,
> {
    match network {
        Some(n) => presence::presence_at(m.presence, key, n),
        None => latest_presence(m.presence, key, m.presence.len() as int),
    }
}

/// A scan recorded a transition of a kind for a device.
pub open spec fn scan_reported(
    s: Seq<TransitionRecord>,
    scan_id: i64,
    key: Seq<char>,
    kind: TransitionKind,
) -> bool {
    exists|i: int|
        0 <= i < s.len() && (#[trigger] s[i]).scan_id == scan_id && s[i].device_key == key
            && s[i].kind == kind
}

/// Where a device stands as of the last scan of the network that counts.
pub open spec fn status_of(m: StoreModel, key: Seq<char>, p: Option<PresenceRecord>) -> DeviceStatus {
    match p {
        None => DeviceStatus::Known,
        Some(row) => if row.reported_gone {
            DeviceStatus::Gone
        } else {
            match scans::last_scan_of(m, row.network_key) {
                None => DeviceStatus::Known,
                Some(scan) => if scan_reported(m.transitions, scan.0, key, TransitionKind::New) {
                    DeviceStatus::New
                } else if scan_reported(m.transitions, scan.0, key, TransitionKind::Changed) {
                    DeviceStatus::Changed
                } else {
                    DeviceStatus::Known
                },
            }
        },
    }
}

/// A device as frontends see it.
pub open spec fn device_view(m: StoreModel, d: DeviceRecord, network: Option<Seq<char>>) -> DeviceViewModel {
    let p = presence_for(m, d.key, network);
    let last_ip = match p {
        Some(row) => row.last_ip,
        None => None,
    };
    let named = names::name_at(m.names, d.key);
    DeviceViewModel {
        id: d.id,
        key: d.key,
        user_name: names::just_name(named),
        primary_name: d.primary_name,
        display_name: display::display_of(
            names::just_name(named),
            d.primary_name,
            d.mac,
            last_ip,
            d.key,
        ),
        mac: d.mac,
        vendor: d.vendor,
        first_seen: d.first_seen,
        last_seen: d.last_seen,
        last_ip,
        networks: networks_of(m, d.key),
        notes: match named {
            Some(n) => n.1,
            None => None,
        },
        status: status_of(m, d.key, p),
        identity_stable: identity::stable(d.primary_name, d.mac),
    }
}

/// The condition of being listed: every device, or those on a network.
pub open spec fn listed(m: StoreModel, network: Option<Seq<char>>) -> spec_fn(DeviceRecord) -> bool {
    |d: DeviceRecord| network is None || presence_for(m, d.key, network) is Some
}

/// The devices of a listing, the one seen last first.
pub open spec fn devices_listed(m: StoreModel, network: Option<Seq<char>>) -> Seq<DeviceViewModel> {
    rows::newest_first(m.devices, rows::time_by::<DeviceRow>()).filter(
        listed(m, network),
    ).map_values(|d: DeviceRecord| device_view(m, d, network))
}

impl Store {
    /// The networks a device has been seen on.
    fn device_networks(&self, key: &str) -> (r: Vec<String>)
        ensures
            r.deep_view() == networks_of(self.deep_view(), key@),
    {
        let ghost all = self.presence.deep_view();
        let ghost p = of_device(key@);
        let ghost f = |x: PresenceRecord| x.network_key;
        let mut out: Vec<String> = Vec::new();
        let mut i: usize = 0;
        assert(all.take(0).filter(p) == Seq::<PresenceRecord>::empty());
        assert(out.deep_view() == all.take(0).filter(p).map_values(f));
        while i < self.presence.len()
            invariant
                i <= self.presence.len(),
                all == self.presence.deep_view(),
                p == of_device(key@),
                f == (|x: PresenceRecord| x.network_key),
                out.deep_view() == all.take(i as int).filter(p).map_values(f),
            decreases self.presence.len() - i,
        {
            assert(all.take(i + 1) == all.take(i as int).push(all[i as int]));
            assert(all[i as int] == self.presence@[i as int].deep_view());
            proof {
                seqs::lemma_filter_push(all.take(i as int), all[i as int], p);
            }
            if str_eq(self.presence[i].device_key.as_str(), key) {
                let ghost so_far = out.deep_view();
                out.push(self.presence[i].network_key.clone());
                assert(out.deep_view() == so_far.push(all[i as int].network_key));
                assert(all.take(i as int).filter(p).push(all[i as int]).map_values(f) == all.take(
                    i as int,
                ).filter(p).map_values(f).push(f(all[i as int])));
            }
            i = i + 1;
        }
        assert(all.take(all.len() as int) == all);
        out
    }

    /// Where the presence that counts for a listing stands.
    fn counting_presence(&self, key: &str, network: Option<&str>) -> (r: Option<usize>)
        ensures
            match r {
                Some(i) => i < self.presence.len() && presence_for(
                    self.deep_view(),
                    key@,
                    network.deep_view(),
                ) == Some(self.deep_view().presence[i as int]),
                None => presence_for(self.deep_view(), key@, network.deep_view()) is None,
            },
    {
        if let Some(n) = network {
            return self.find_presence(key, n);
        }
        let ghost all = self.deep_view().presence;
        let mut best: Option<usize> = None;
        let mut i: usize = 0;
        while i < self.presence.len()
            invariant
                i <= self.presence.len(),
                all == self.deep_view().presence,
                match best {
                    Some(b) => b < self.presence.len() && latest_presence(all, key@, i as int)
                        == Some(all[b as int]),
                    None => latest_presence(all, key@, i as int) is None,
                },
            decreases self.presence.len() - i,
        {
            assert(all[i as int] == self.presence@[i as int].deep_view());
            if str_eq(self.presence[i].device_key.as_str(), key) {
                let wins = match best {
                    None => true,
                    Some(b) => {
                        assert(all[b as int] == self.presence@[b as int].deep_view());
                        self.presence[i].last_seen > self.presence[b].last_seen
                    },
                };
                if wins {
                    best = Some(i);
                }
            }
            i = i + 1;
        }
        best
    }

    /// Whether a scan recorded a transition of a kind for a device.
    fn reported_in(&self, scan_id: i64, key: &str, kind: TransitionKind) -> (r: bool)
        ensures
            r == scan_reported(self.deep_view().transitions, scan_id, key@, kind),
    {
        let ghost all = self.deep_view().transitions;
        let mut i: usize = 0;
        while i < self.transitions.len()
            invariant
                i <= self.transitions.len(),
                all == self.deep_view().transitions,
                forall|j: int|
                    0 <= j < i ==> !((#[trigger] all[j]).scan_id == scan_id && all[j].device_key
                        == key@ && all[j].kind == kind),
            decreases self.transitions.len() - i,
        {
            assert(all[i as int] == self.transitions@[i as int].deep_view());
            if self.transitions[i].scan_id == scan_id && self.transitions[i].kind == kind && str_eq(
                self.transitions[i].device_key.as_str(),
                key,
            ) {
                return true;
            }
            i = i + 1;
        }
        false
    }

    /// Where a device stands.
    fn status(&self, key: &str, at: Option<usize>) -> (r: DeviceStatus)
        requires
            at is Some ==> at.unwrap() < self.presence.len(),
        ensures
            r == status_of(
                self.deep_view(),
                key@,
                match at {
                    Some(i) => Some(self.deep_view().presence[i as int]),
                    None => None,
                },
            ),
    {
        match at {
            None => DeviceStatus::Known,
            Some(i) => {
                assert(self.deep_view().presence[i as int] == self.presence@[i as int].deep_view());
                if self.presence[i].reported_gone {
                    return DeviceStatus::Gone;
                }
                match self.last_scan_for_network(self.presence[i].network_key.as_str()) {
                    Ok(Some((id, _))) => {
                        if self.reported_in(id, key, TransitionKind::New) {
                            DeviceStatus::New
                        } else if self.reported_in(id, key, TransitionKind::Changed) {
                            DeviceStatus::Changed
                        } else {
                            DeviceStatus::Known
                        }
                    },
                    _ => DeviceStatus::Known,
                }
            },
        }
    }

    /// A device as frontends see it.
    fn view_device(&self, d: &DeviceRow, network: Option<&str>, at: Option<usize>) -> (r: DeviceView)
        requires
            match at {
                Some(i) => i < self.presence.len() && presence_for(
                    self.deep_view(),
                    d.key@,
                    network.deep_view(),
                ) == Some(self.deep_view().presence[i as int]),
                None => presence_for(self.deep_view(), d.key@, network.deep_view()) is None,
            },
        ensures
            r.deep_view() == device_view(self.deep_view(), d.deep_view(), network.deep_view()),
    {
        let ghost m = self.deep_view();
        let last_ip: Option<String> = match at {
            Some(i) => {
                assert(m.presence[i as int] == self.presence@[i as int].deep_view());
                clone_opt(&self.presence[i].last_ip)
            },
            None => None,
        };
        let (user_name, notes): (Option<String>, Option<String>) = match find_row(
            &self.names,
            d.key.as_str(),
        ) {
            Some(i) => (Some(self.names[i].name.clone()), clone_opt(&self.names[i].notes)),
            None => (None, None),
        };
        let display_name = device_display(
            as_opt_str(&user_name),
            as_opt_str(&d.primary_name),
            as_opt_str(&d.mac),
            as_opt_str(&last_ip),
            d.key.as_str(),
        );
        let r = DeviceView {
            id: d.id,
            key: d.key.clone(),
            user_name,
            primary_name: clone_opt(&d.primary_name),
            display_name,
            mac: clone_opt(&d.mac),
            vendor: clone_opt(&d.vendor),
            first_seen: d.first_seen,
            last_seen: d.last_seen,
            last_ip,
            networks: self.device_networks(d.key.as_str()),
            notes,
            status: self.status(d.key.as_str(), at),
            identity_stable: is_stable(as_opt_str(&d.primary_name), as_opt_str(&d.mac)),
        };
        assert(r.deep_view() == device_view(m, d.deep_view(), network.deep_view()));
        r
    }

    /// The inventory, or the part of it on one network, the device seen last
    /// first.
    pub fn list_devices(&self, network_key: Option<&str>) -> (r: Result<
        Vec<DeviceView>,
        StoreError,
    >)
        ensures
            r is Ok,
            r.unwrap().deep_view() == devices_listed(self.deep_view(), network_key.deep_view()),
    {
        let ghost m = self.deep_view();
        let ghost net = network_key.deep_view();
        let sorted = sort_newest(copy_rows(&self.devices));
        let ghost all = sorted.deep_view();
        let ghost p = listed(m, net);
        let ghost f = |d: DeviceRecord| device_view(m, d, net);
        let mut out: Vec<DeviceView> = Vec::new();
        let mut i: usize = 0;
        assert(all.take(0).filter(p) == Seq::<DeviceRecord>::empty());
        assert(out.deep_view() == all.take(0).filter(p).map_values(f));
        while i < sorted.len()
            invariant
                i <= sorted.len(),
                m == self.deep_view(),
                net == network_key.deep_view(),
                all == sorted.deep_view(),
                p == listed(m, net),
                f == (|d: DeviceRecord| device_view(m, d, net)),
                out.deep_view() == all.take(i as int).filter(p).map_values(f),
            decreases sorted.len() - i,
        {
            assert(all.take(i + 1) == all.take(i as int).push(all[i as int]));
            assert(all[i as int] == sorted@[i as int].deep_view());
            proof {
                seqs::lemma_filter_push(all.take(i as int), all[i as int], p);
            }
            let at = self.counting_presence(sorted[i].key.as_str(), network_key);
            if network_key.is_none() || at.is_some() {
                let ghost so_far = out.deep_view();
                let view = self.view_device(&sorted[i], network_key, at);
                let ghost model = view.deep_view();
                out.push(view);
                assert(out.deep_view() == so_far.push(model));
                assert(all.take(i as int).filter(p).push(all[i as int]).map_values(f) == all.take(
                    i as int,
                ).filter(p).map_values(f).push(f(all[i as int])));
            }
            i = i + 1;
        }
        assert(all.take(all.len() as int) == all);
        Ok(out)
    }
}

// ----- the history of a device -----

/// The first so many of a list; all of it where the limit is negative.
pub open spec fn limited<A>(s: Seq<A>, limit: int) -> Seq<A> {
    if 0 <= limit < s.len() {
        s.take(limit)
    } else {
        s
    }
}

/// The network of a scan.
pub open spec fn network_of_scan(m: StoreModel, id: i64) -> Seq<char> {
    match seqs::first_where(m.scans, scans::with_scan_id(id)) {
        Some(i) => m.scans[i].network_key,
        None => Seq::empty(),
    }
}

/// An observation as an event.
pub open spec fn observation_event(m: StoreModel, o: ObservationRecord) -> EventModel {
    EventModel::Observation {
        at: o.at,
        network_key: network_of_scan(m, o.scan_id),
        ip: o.ip,
        mac: o.mac,
        hostname: o.hostname,
        source: o.source,
    }
}

/// The observations of a device among the last `n`, the latest recorded first.
pub open spec fn observation_events(m: StoreModel, key: Seq<char>, n: int) -> Seq<EventModel>
    decreases n,
{
    if n <= 0 || n > m.observations.len() {
        Seq::empty()
    } else {
        let rest = observation_events(m, key, n - 1);
        let o = m.observations[m.observations.len() - n];
        if o.device_key == key {
            rest.push(observation_event(m, o))
        } else {
            rest
        }
    }
}

/// A transition as an event.
pub open spec fn transition_event(t: TransitionRecord) -> EventModel {
    EventModel::Transition {
        at: t.at,
        network_key: t.network_key,
        kind: t.kind,
        changes: t.changes,
    }
}

/// The transitions of a device among the last `n`, the latest recorded first.
pub open spec fn transition_events(s: Seq<TransitionRecord>, key: Seq<char>, n: int) -> Seq<EventModel>
    decreases n,
{
    if n <= 0 || n > s.len() {
        Seq::empty()
    } else {
        let rest = transition_events(s, key, n - 1);
        let t = s[s.len() - n];
        if t.device_key == key {
            rest.push(transition_event(t))
        } else {
            rest
        }
    }
}

/// The naming of a device as an event.
pub open spec fn naming_event(m: StoreModel, key: Seq<char>) -> Seq<EventModel> {
    match rows::row_index::<NameRow>(m.names, key) {
        Some(i) => seq![
            EventModel::Named { at: m.names[i].updated_at, name: m.names[i].name },
        ],
        None => Seq::empty(),
    }
}

/// Events, the latest first.
pub open spec fn by_time(s: Seq<EventModel>) -> Seq<EventModel> {
    rows::newest_first(s, rows::time_by::<HistoryEvent>())
}

/// The history of a device: its latest observations and transitions and its
/// naming, the latest first, and no more than the limit of each and of all.
pub open spec fn history_of(m: StoreModel, device_key: Seq<char>, limit: int) -> Seq<EventModel> {
    let key = alias::resolved(m.aliases, device_key);
    let seen = limited(
        by_time(observation_events(m, key, m.observations.len() as int)),
        limit,
    );
    let changed = limited(
        by_time(transition_events(m.transitions, key, m.transitions.len() as int)),
        limit,
    );
    limited(by_time(seen + changed + naming_event(m, key)), limit)
}

/// Cut a list to a limit.
fn cut<T: DeepView>(v: &mut Vec<T>, limit: i64)
    ensures
        final(v).deep_view() == limited(old(v).deep_view(), limit as int),
{
    let ghost all = v.deep_view();
    let ghost raw = v@;
    if limit >= 0 && (limit as u64) < v.len() as u64 {
        v.truncate(limit as usize);
        assert(v@ == raw.take(limit as int));
        assert(v.deep_view() == all.take(limit as int));
    }
}

impl Store {
    /// The network of a scan.
    fn scan_network(&self, id: i64) -> (r: String)
        ensures
            r@ == network_of_scan(self.deep_view(), id),
    {
        match self.find_scan(id) {
            Some(i) => {
                assert(self.deep_view().scans[i as int] == self.scans@[i as int].deep_view());
                self.scans[i].network_key.clone()
            },
            None => String::new(),
        }
    }

    /// The observations of a device, the latest recorded first.
    fn seen_events(&self, key: &str) -> (r: Vec<HistoryEvent>)
        ensures
            r.deep_view() == observation_events(
                self.deep_view(),
                key@,
                self.deep_view().observations.len() as int,
            ),
    {
        let ghost m = self.deep_view();
        let mut out: Vec<HistoryEvent> = Vec::new();
        let total: usize = self.observations.len();
        let mut n: usize = 0;
        while n < total
            invariant
                n <= total == self.observations.len(),
                m == self.deep_view(),
                out.deep_view() == observation_events(m, key@, n as int),
            decreases total - n,
        {
            let o = &self.observations[total - 1 - n];
            assert(m.observations[total - (n + 1)] == o.deep_view());
            if str_eq(o.device_key.as_str(), key) {
                let ghost so_far = out.deep_view();
                let e = HistoryEvent::Observation {
                    at: o.at,
                    network_key: self.scan_network(o.scan_id),
                    ip: o.ip.clone(),
                    mac: clone_opt(&o.mac),
                    hostname: clone_opt(&o.hostname),
                    source: o.source.clone(),
                };
                let ghost model = e.deep_view();
                assert(model == observation_event(m, o.deep_view()));
                out.push(e);
                assert(out.deep_view() == so_far.push(model));
            }
            n = n + 1;
        }
        out
    }

    /// The transitions of a device, the latest recorded first.
    fn changed_events(&self, key: &str) -> (r: Vec<HistoryEvent>)
        ensures
            r.deep_view() == transition_events(
                self.deep_view().transitions,
                key@,
                self.deep_view().transitions.len() as int,
            ),
    {
        let ghost s = self.deep_view().transitions;
        let mut out: Vec<HistoryEvent> = Vec::new();
        let total: usize = self.transitions.len();
        let mut n: usize = 0;
        while n < total
            invariant
                n <= total == self.transitions.len(),
                s == self.deep_view().transitions,
                out.deep_view() == transition_events(s, key@, n as int),
            decreases total - n,
        {
            let t = &self.transitions[total - 1 - n];
            assert(s[total - (n + 1)] == t.deep_view());
            if str_eq(t.device_key.as_str(), key) {
                let ghost so_far = out.deep_view();
                let e = HistoryEvent::Transition {
                    at: t.at,
                    network_key: t.network_key.clone(),
                    kind: t.kind,
                    changes: clone_changes(&t.changes),
                };
                let ghost model = e.deep_view();
                assert(model == transition_event(t.deep_view()));
                out.push(e);
                assert(out.deep_view() == so_far.push(model));
            }
            n = n + 1;
        }
        out
    }

    /// The history of a device, the latest event first; a negative limit is
    /// none.
    pub fn device_history(&self, device_key: &str, limit: i64) -> (r: Result<
        Vec<HistoryEvent>,
        StoreError,
    >)
        ensures
            r is Ok,
            r.unwrap().deep_view() == history_of(self.deep_view(), device_key@, limit as int),
    {
        let key = self.canonical_key(device_key);
        let mut events = sort_newest(self.seen_events(key.as_str()));
        cut(&mut events, limit);
        let mut changed = sort_newest(self.changed_events(key.as_str()));
        cut(&mut changed, limit);
        let ghost a = events.deep_view();
        let ghost b = changed.deep_view();
        let ghost raw_a = events@;
        let ghost raw_b = changed@;
        events.append(&mut changed);
        assert(events@ == raw_a + raw_b);
        assert(events.deep_view() == a + b);
        let ghost named = naming_event(self.deep_view(), key@);
        match find_row(&self.names, key.as_str()) {
            Some(i) => {
                let ghost so_far = events.deep_view();
                let e = HistoryEvent::Named {
                    at: self.names[i].updated_at,
                    name: self.names[i].name.clone(),
                };
                let ghost model = e.deep_view();
                assert(self.deep_view().names[i as int] == self.names@[i as int].deep_view());
                events.push(e);
                assert(events.deep_view() == so_far.push(model));
                assert(so_far.push(model) == so_far + named);
            },
            None => {
                assert(a + b == a + b + named);
            },
        }
        let mut sorted = sort_newest(events);
        cut(&mut sorted, limit);
        Ok(sorted)
    }
}

/// A history runs from the latest event to the earliest and is no longer than
/// its limit.
pub proof fn law_history_is_ordered(m: StoreModel, device_key: Seq<char>, limit: int)
    ensures
        limit >= 0 ==> history_of(m, device_key, limit).len() <= limit,
        forall|i: int, j: int|
            0 <= i < j < history_of(m, device_key, limit).len() ==> (#[trigger] history_of(
                m,
                device_key,
                limit,
            )[i]).when() >= (#[trigger] history_of(m, device_key, limit)[j]).when(),
{
    let key = alias::resolved(m.aliases, device_key);
    let seen = limited(by_time(observation_events(m, key, m.observations.len() as int)), limit);
    let changed = limited(
        by_time(transition_events(m.transitions, key, m.transitions.len() as int)),
        limit,
    );
    let all = seen + changed + naming_event(m, key);
    let f = rows::time_by::<HistoryEvent>();
    rows::lemma_newest_first(all, f);
    let h = history_of(m, device_key, limit);
    let t = by_time(all);
    assert forall|i: int, j: int| 0 <= i < j < h.len() implies (#[trigger] h[i]).when() >= (
    #[trigger] h[j]).when() by {
        assert(h[i] == t[i] && h[j] == t[j]);
        assert(f(t[i]) >= f(t[j]));
    }
}

/// The history of a device is the same under every key it is known by.
pub proof fn law_history_follows_aliases(m: StoreModel, a: Seq<char>, b: Seq<char>, limit: int)
    requires
        alias::resolved(m.aliases, a) == alias::resolved(m.aliases, b),
    ensures
        history_of(m, a, limit) == history_of(m, b, limit),
{
}

/// The observations of a device, as events in the order of the table. The
/// network of each is that of the scan it belongs to.
pub open spec fn told_observations(m: StoreModel, key: Seq<char>) -> Seq<EventModel> {
    m.observations.filter(|o: ObservationRecord| o.device_key == key).map_values(
        |o: ObservationRecord|
            EventModel::Observation {
                at: o.at,
                network_key: m.scans.filter(
                    |s: rows::ScanRecord| s.id == o.scan_id,
                )[0].network_key,
                ip: o.ip,
                mac: o.mac,
                hostname: o.hostname,
                source: o.source,
            },
    )
}

/// The transitions of a device, as events in the order of the table.
pub open spec fn told_transitions(m: StoreModel, key: Seq<char>) -> Seq<EventModel> {
    m.transitions.filter(|t: TransitionRecord| t.device_key == key).map_values(
        |t: TransitionRecord|
            EventModel::Transition {
                at: t.at,
                network_key: t.network_key,
                kind: t.kind,
                changes: t.changes,
            },
    )
}

/// The naming of a device, as an event.
pub open spec fn told_naming(m: StoreModel, key: Seq<char>) -> Seq<EventModel> {
    m.names.filter(|n: rows::NameRecord| n.device_key == key).map_values(
        |n: rows::NameRecord| EventModel::Named { at: n.updated_at, name: n.name },
    )
}

/// Everything there is to tell of a device.
pub open spec fn told(m: StoreModel, key: Seq<char>) -> Seq<EventModel> {
    told_observations(m, key) + told_transitions(m, key) + told_naming(m, key)
}

/// A filter on a row more at the front.
proof fn lemma_filter_front<A>(s: Seq<A>, p: spec_fn(A) -> bool)
    requires
        s.len() > 0,
    ensures
        s.filter(p) == if p(s[0]) {
            seq![s[0]] + s.skip(1).filter(p)
        } else {
            s.skip(1).filter(p)
        },
{
    let one = seq![s[0]];
    assert(s =~= one + s.skip(1));
    Seq::filter_distributes_over_add(one, s.skip(1), p);
    assert(one.filter(p) =~= if p(s[0]) {
        one
    } else {
        Seq::empty()
    }) by {
        reveal(Seq::filter);
        assert(one.drop_last() =~= Seq::<A>::empty());
        assert(one.drop_last().filter(p) =~= Seq::<A>::empty());
    }
    assert(s.filter(p) =~= one.filter(p) + s.skip(1).filter(p));
}

/// A value at the front counts like one at the back.
proof fn lemma_front_multiset<A>(x: A, s: Seq<A>)
    ensures
        (seq![x] + s).to_multiset() == s.to_multiset().insert(x),
{
    vstd::seq_lib::lemma_multiset_commutative(seq![x], s);
    let none = Seq::<A>::empty();
    none.to_multiset_ensures();
    assert(none.push(x) =~= seq![x]);
    assert(none.to_multiset() =~= vstd::multiset::Multiset::<A>::empty());
    assert((seq![x] + s).to_multiset() =~= s.to_multiset().insert(x));
}

/// The network of a scan is that of the row with its id.
proof fn lemma_scan_network(m: StoreModel, id: i64)
    requires
        crate::store::has_scan(m.scans, id),
    ensures
        network_of_scan(m, id) == m.scans.filter(
            |s: rows::ScanRecord| s.id == id,
        )[0].network_key,
{
    let p = scans::with_scan_id(id);
    seqs::lemma_first_found(m.scans, p);
    let j = choose|j: int| 0 <= j < m.scans.len() && (#[trigger] m.scans[j]).id == id;
    assert(p(m.scans[j]));
    let i = seqs::first_where(m.scans, p).unwrap();
    lemma_first_kept(m.scans, p, i);
    assert(p =~= (|s: rows::ScanRecord| s.id == id));
}

/// A filter keeps the first that satisfies it first.
proof fn lemma_first_kept<A>(s: Seq<A>, p: spec_fn(A) -> bool, i: int)
    requires
        seqs::is_first(s, p, i),
    ensures
        s.filter(p).len() > 0,
        s.filter(p)[0] == s[i],
    decreases s.len(),
{
    lemma_filter_front(s, p);
    if i > 0 {
        let rest = s.skip(1);
        assert(!p(s[0]));
        assert(seqs::is_first(rest, p, i - 1)) by {
            assert forall|j: int| 0 <= j < i - 1 implies !p(#[trigger] rest[j]) by {
                assert(!p(s[j + 1]));
            }
        }
        lemma_first_kept(rest, p, i - 1);
    }
}

/// The observations told are those of the table, each as often.
proof fn lemma_observations_told(m: StoreModel, key: Seq<char>, n: int)
    requires
        0 <= n <= m.observations.len(),
        forall|i: int|
            0 <= i < m.observations.len() ==> crate::store::has_scan(
                m.scans,
                (#[trigger] m.observations[i]).scan_id,
            ),
    ensures
        observation_events(m, key, n).to_multiset() == told_observations(
            StoreModel { observations: m.observations.skip(m.observations.len() - n), ..m },
            key,
        ).to_multiset(),
    decreases n,
{
    let all = m.observations;
    let s = all.skip(all.len() - n);
    let p = |o: ObservationRecord| o.device_key == key;
    let f = |o: ObservationRecord|
        EventModel::Observation {
            at: o.at,
            network_key: m.scans.filter(|s: rows::ScanRecord| s.id == o.scan_id)[0].network_key,
            ip: o.ip,
            mac: o.mac,
            hostname: o.hostname,
            source: o.source,
        };
    assert(told_observations(StoreModel { observations: s, ..m }, key) =~= s.filter(p).map_values(
        f,
    ));
    if n == 0 {
        reveal(Seq::filter);
        assert(s.filter(p).map_values(f) =~= Seq::<EventModel>::empty());
        assert(observation_events(m, key, 0) =~= Seq::<EventModel>::empty());
    } else {
        let o = all[all.len() - n];
        let t = all.skip(all.len() - (n - 1));
        assert(s[0] == o);
        assert(s.skip(1) =~= t);
        lemma_observations_told(m, key, n - 1);
        assert(told_observations(StoreModel { observations: t, ..m }, key) =~= t.filter(
            p,
        ).map_values(f));
        lemma_filter_front(s, p);
        let rest = observation_events(m, key, n - 1);
        rest.to_multiset_ensures();
        if o.device_key == key {
            lemma_scan_network(m, o.scan_id);
            assert(observation_event(m, o) == f(o));
            assert(s.filter(p).map_values(f) =~= seq![f(o)] + t.filter(p).map_values(f));
            lemma_front_multiset(f(o), t.filter(p).map_values(f));
        }
    }
}

/// The transitions told are those of the table, each as often.
proof fn lemma_transitions_told(m: StoreModel, key: Seq<char>, n: int)
    requires
        0 <= n <= m.transitions.len(),
    ensures
        transition_events(m.transitions, key, n).to_multiset() == told_transitions(
            StoreModel { transitions: m.transitions.skip(m.transitions.len() - n), ..m },
            key,
        ).to_multiset(),
    decreases n,
{
    let all = m.transitions;
    let s = all.skip(all.len() - n);
    let p = |t: TransitionRecord| t.device_key == key;
    let f = |t: TransitionRecord|
        EventModel::Transition {
            at: t.at,
            network_key: t.network_key,
            kind: t.kind,
            changes: t.changes,
        };
    assert(told_transitions(StoreModel { transitions: s, ..m }, key) =~= s.filter(p).map_values(f));
    if n == 0 {
        reveal(Seq::filter);
        assert(s.filter(p).map_values(f) =~= Seq::<EventModel>::empty());
        assert(transition_events(all, key, 0) =~= Seq::<EventModel>::empty());
    } else {
        let x = all[all.len() - n];
        let t = all.skip(all.len() - (n - 1));
        assert(s[0] == x);
        assert(s.skip(1) =~= t);
        lemma_transitions_told(m, key, n - 1);
        assert(told_transitions(StoreModel { transitions: t, ..m }, key) =~= t.filter(
            p,
        ).map_values(f));
        lemma_filter_front(s, p);
        let rest = transition_events(all, key, n - 1);
        rest.to_multiset_ensures();
        if x.device_key == key {
            assert(transition_event(x) == f(x));
            assert(s.filter(p).map_values(f) =~= seq![f(x)] + t.filter(p).map_values(f));
            lemma_front_multiset(f(x), t.filter(p).map_values(f));
        }
    }
}

/// The naming told is that of the table.
proof fn lemma_naming_told(m: StoreModel, key: Seq<char>)
    requires
        rows::unique::<NameRow>(m.names),
    ensures
        naming_event(m, key) == told_naming(m, key),
{
    let p = |n: rows::NameRecord| n.device_key == key;
    let f = |n: rows::NameRecord| EventModel::Named { at: n.updated_at, name: n.name };
    assert(told_naming(m, key) =~= m.names.filter(p).map_values(f));
    rows::lemma_row_index::<NameRow>(m.names, key);
    match rows::row_index::<NameRow>(m.names, key) {
        Some(i) => {
            lemma_sole_kept(m.names, p, i);
            assert(m.names.filter(p).map_values(f) =~= naming_event(m, key));
        },
        None => {
            lemma_none_kept(m.names, p);
            assert(m.names.filter(p).map_values(f) =~= naming_event(m, key));
        },
    }
}

/// A filter that nothing satisfies keeps nothing.
proof fn lemma_none_kept<A>(s: Seq<A>, p: spec_fn(A) -> bool)
    requires
        forall|i: int| 0 <= i < s.len() ==> !p(#[trigger] s[i]),
    ensures
        s.filter(p) == Seq::<A>::empty(),
    decreases s.len(),
{
    if s.len() > 0 {
        lemma_filter_front(s, p);
        assert forall|i: int| 0 <= i < s.skip(1).len() implies !p(#[trigger] s.skip(1)[i]) by {
            assert(s.skip(1)[i] == s[i + 1]);
        }
        lemma_none_kept(s.skip(1), p);
    } else {
        reveal(Seq::filter);
    }
}

/// A filter that one alone satisfies keeps that one.
proof fn lemma_sole_kept<A>(s: Seq<A>, p: spec_fn(A) -> bool, i: int)
    requires
        0 <= i < s.len(),
        forall|j: int| 0 <= j < s.len() ==> (p(#[trigger] s[j]) <==> j == i),
    ensures
        s.filter(p) == seq![s[i]],
    decreases s.len(),
{
    let rest = s.skip(1);
    lemma_filter_front(s, p);
    assert forall|j: int| 0 <= j < rest.len() implies (p(#[trigger] rest[j]) <==> j == i - 1) by {
        assert(rest[j] == s[j + 1]);
    }
    if i == 0 {
        lemma_none_kept(rest, p);
        assert(seq![s[0]] + Seq::<A>::empty() =~= seq![s[0]]);
    } else {
        lemma_sole_kept(rest, p, i - 1);
    }
}

/// A history that is not cut short tells everything: an event for every
/// observation and every transition of the device, of whatever kind, and its
/// naming, each as often as there are rows, and nothing else.
pub proof fn law_history_is_complete(m: StoreModel, device_key: Seq<char>, limit: int)
    requires
        m.wf(),
        limit < 0 || limit >= told(m, alias::resolved(m.aliases, device_key)).len(),
    ensures
        history_of(m, device_key, limit).to_multiset() == told(
            m,
            alias::resolved(m.aliases, device_key),
        ).to_multiset(),
{
    let key = alias::resolved(m.aliases, device_key);
    let f = rows::time_by::<HistoryEvent>();
    let a = observation_events(m, key, m.observations.len() as int);
    let b = transition_events(m.transitions, key, m.transitions.len() as int);
    let c = naming_event(m, key);
    lemma_told(m, key);
    rows::lemma_newest_first_multiset(a, f);
    rows::lemma_newest_first_multiset(b, f);
    by_time(a).to_multiset_ensures();
    by_time(b).to_multiset_ensures();
    a.to_multiset_ensures();
    b.to_multiset_ensures();
    told_observations(m, key).to_multiset_ensures();
    told_transitions(m, key).to_multiset_ensures();
    let all = by_time(a) + by_time(b) + c;
    vstd::seq_lib::lemma_multiset_commutative(by_time(a) + by_time(b), c);
    vstd::seq_lib::lemma_multiset_commutative(by_time(a), by_time(b));
    vstd::seq_lib::lemma_multiset_commutative(
        told_observations(m, key) + told_transitions(m, key),
        told_naming(m, key),
    );
    vstd::seq_lib::lemma_multiset_commutative(told_observations(m, key), told_transitions(m, key));
    rows::lemma_newest_first_multiset(all, f);
    rows::lemma_newest_first(all, f);
}

/// What the history is made of is what there is to tell.
proof fn lemma_told(m: StoreModel, key: Seq<char>)
    requires
        m.wf(),
    ensures
        observation_events(m, key, m.observations.len() as int).to_multiset() == told_observations(
            m,
            key,
        ).to_multiset(),
        transition_events(m.transitions, key, m.transitions.len() as int).to_multiset()
            == told_transitions(m, key).to_multiset(),
        naming_event(m, key) == told_naming(m, key),
{
    lemma_observations_told(m, key, m.observations.len() as int);
    lemma_transitions_told(m, key, m.transitions.len() as int);
    lemma_naming_told(m, key);
    assert(m.observations.skip(0) =~= m.observations);
    assert(m.transitions.skip(0) =~= m.transitions);
    assert(StoreModel { observations: m.observations, ..m } == m);
    assert(StoreModel { transitions: m.transitions, ..m } == m);
}

/// A history that is cut short has as many events as it may, and every one of
/// them is one that there is to tell.
pub proof fn law_history_fills_its_limit(m: StoreModel, device_key: Seq<char>, limit: int)
    requires
        m.wf(),
        0 <= limit < told(m, alias::resolved(m.aliases, device_key)).len(),
    ensures
        history_of(m, device_key, limit).len() == limit,
        forall|e: EventModel| #[trigger]
            history_of(m, device_key, limit).contains(e) ==> told(
                m,
                alias::resolved(m.aliases, device_key),
            ).contains(e),
{
    let key = alias::resolved(m.aliases, device_key);
    let f = rows::time_by::<HistoryEvent>();
    let a = observation_events(m, key, m.observations.len() as int);
    let b = transition_events(m.transitions, key, m.transitions.len() as int);
    let c = naming_event(m, key);
    lemma_told(m, key);
    rows::lemma_newest_first(a, f);
    rows::lemma_newest_first(b, f);
    a.to_multiset_ensures();
    b.to_multiset_ensures();
    told_observations(m, key).to_multiset_ensures();
    told_transitions(m, key).to_multiset_ensures();
    let x = limited(by_time(a), limit);
    let y = limited(by_time(b), limit);
    let all = x + y + c;
    rows::lemma_newest_first(all, f);
    let h = history_of(m, device_key, limit);
    assert forall|e: EventModel| #[trigger] h.contains(e) implies told(m, key).contains(e) by {
        let i = choose|i: int| 0 <= i < h.len() && h[i] == e;
        assert(by_time(all)[i] == e);
        assert(by_time(all).contains(e));
        assert(all.contains(e));
        let j = choose|j: int| 0 <= j < all.len() && all[j] == e;
        let o = told_observations(m, key);
        let t = told_transitions(m, key);
        if j < x.len() {
            assert(by_time(a)[j] == e);
            assert(by_time(a).contains(e));
            assert(a.contains(e));
            assert(o.to_multiset().count(e) > 0);
            assert(o.contains(e));
            let k = choose|k: int| 0 <= k < o.len() && o[k] == e;
            assert(told(m, key)[k] == e);
        } else if j < x.len() + y.len() {
            assert(by_time(b)[j - x.len()] == e);
            assert(by_time(b).contains(e));
            assert(b.contains(e));
            assert(t.to_multiset().count(e) > 0);
            assert(t.contains(e));
            let k = choose|k: int| 0 <= k < t.len() && t[k] == e;
            assert(told(m, key)[o.len() + k] == e);
        } else {
            assert(c[j - x.len() - y.len()] == e);
            assert(told(m, key)[o.len() + t.len() + (j - x.len() - y.len())] == e);
        }
    }
}

/// The latest row of a device's presence.
proof fn lemma_latest_presence(s: Seq<PresenceRecord>, key: Seq<char>, n: int)
    requires
        0 <= n <= s.len(),
    ensures
        match latest_presence(s, key, n) {
            Some(p) => p.device_key == key && s.contains(p) && forall|j: int|
                0 <= j < n && (#[trigger] s[j]).device_key == key ==> s[j].last_seen <= p.last_seen,
            None => forall|j: int| 0 <= j < n ==> (#[trigger] s[j]).device_key != key,
        },
    decreases n,
{
    if n > 0 {
        lemma_latest_presence(s, key, n - 1);
        assert(s.contains(s[n - 1]));
    }
}

/// What is shown of a device is what is on record of it: each field is that of
/// its row, the name and notes are those that the user gave it, the networks
/// are those it was seen on, and the address is that of its row on the network
/// that is listed, or of its latest row.
pub proof fn law_device_is_shown_as_recorded(
    m: StoreModel,
    d: DeviceRecord,
    network: Option<Seq<char>>,
)
    requires
        m.wf(),
    ensures
        ({
            let v = device_view(m, d, network);
            let named = names::name_at(m.names, d.key);
            &&& v.id == d.id
            &&& v.key == d.key
            &&& v.primary_name == d.primary_name
            &&& v.mac == d.mac
            &&& v.vendor == d.vendor
            &&& v.first_seen == d.first_seen
            &&& v.last_seen == d.last_seen
            &&& v.user_name == if named is Some {
                Some(named.unwrap().0)
            } else {
                None
            }
            &&& v.notes == if named is Some {
                named.unwrap().1
            } else {
                None
            }
            &&& v.display_name == display::display_of(
                v.user_name,
                d.primary_name,
                d.mac,
                v.last_ip,
                d.key,
            )
            &&& v.identity_stable == identity::stable(d.primary_name, d.mac)
            &&& forall|n: Seq<char>| #[trigger]
                v.networks.contains(n) <==> exists|i: int|
                    0 <= i < m.presence.len() && (#[trigger] m.presence[i]).device_key == d.key
                        && m.presence[i].network_key == n
            &&& match network {
                Some(n) => forall|i: int|
                    0 <= i < m.presence.len() && (#[trigger] m.presence[i]).device_key == d.key
                        && m.presence[i].network_key == n ==> v.last_ip == m.presence[i].last_ip,
                None => (exists|i: int|
                    0 <= i < m.presence.len() && (#[trigger] m.presence[i]).device_key == d.key)
                    ==> exists|i: int|
                    0 <= i < m.presence.len() && (#[trigger] m.presence[i]).device_key == d.key
                        && v.last_ip == m.presence[i].last_ip && forall|j: int|
                        0 <= j < m.presence.len() && (#[trigger] m.presence[j]).device_key == d.key
                            ==> m.presence[j].last_seen <= m.presence[i].last_seen,
            }
            &&& (forall|i: int|
                0 <= i < m.presence.len() ==> (#[trigger] m.presence[i]).device_key != d.key)
                ==> v.last_ip is None && v.networks.len() == 0
        }),
{
    let v = device_view(m, d, network);
    let s = m.presence;
    let p = of_device(d.key);
    let f = |x: PresenceRecord| x.network_key;
    let kept = s.filter(p);
    assert forall|n: Seq<char>| #[trigger] v.networks.contains(n) <==> exists|i: int|
        0 <= i < s.len() && (#[trigger] s[i]).device_key == d.key && s[i].network_key == n by {
        if v.networks.contains(n) {
            let k = choose|k: int| 0 <= k < v.networks.len() && v.networks[k] == n;
            assert(kept.contains(kept[k]));
            seqs::lemma_filter_contains(s, p, kept[k]);
            let i = choose|i: int| 0 <= i < s.len() && s[i] == kept[k];
            assert(s[i].device_key == d.key && s[i].network_key == n);
        }
        if exists|i: int|
            0 <= i < s.len() && (#[trigger] s[i]).device_key == d.key && s[i].network_key == n {
            let i = choose|i: int|
                0 <= i < s.len() && (#[trigger] s[i]).device_key == d.key && s[i].network_key == n;
            seqs::lemma_filter_contains(s, p, s[i]);
            assert(s.contains(s[i]));
            let k = choose|k: int| 0 <= k < kept.len() && kept[k] == s[i];
            assert(v.networks[k] == n);
        }
    }
    lemma_latest_presence(s, d.key, s.len() as int);
    match network {
        Some(n) => {
            presence::lemma_presence_index(s, d.key, n);
            assert forall|i: int|
                0 <= i < s.len() && (#[trigger] s[i]).device_key == d.key && s[i].network_key
                    == n implies v.last_ip == s[i].last_ip by {
                presence::lemma_presence_found(s, i);
            }
        },
        None => {
            match latest_presence(s, d.key, s.len() as int) {
                Some(row) => {
                    let i = choose|i: int| 0 <= i < s.len() && s[i] == row;
                    assert(s[i].device_key == d.key);
                },
                None => {},
            }
        },
    }
    if forall|i: int| 0 <= i < s.len() ==> (#[trigger] s[i]).device_key != d.key {
        lemma_none_kept(s, p);
        if network is Some {
            presence::lemma_presence_index(s, d.key, network.unwrap());
        }
    }
}

/// Where a device stands: gone where its absence was announced; else new or
/// changed where the last scan of the network said so; else known.
pub proof fn law_status_follows_the_last_scan(m: StoreModel, key: Seq<char>, p: PresenceRecord)
    ensures
        ({
            let status = status_of(m, key, Some(p));
            let last = scans::last_scan_of(m, p.network_key);
            let said = |kind: TransitionKind|
                last is Some && exists|i: int|
                    0 <= i < m.transitions.len() && (#[trigger] m.transitions[i]).scan_id
                        == last.unwrap().0 && m.transitions[i].device_key == key
                        && m.transitions[i].kind == kind;
            &&& status == DeviceStatus::Gone <==> p.reported_gone
            &&& status == DeviceStatus::New <==> !p.reported_gone && said(TransitionKind::New)
            &&& status == DeviceStatus::Changed <==> !p.reported_gone && !said(TransitionKind::New)
                && said(TransitionKind::Changed)
            &&& status_of(m, key, None) == DeviceStatus::Known
        }),
{
}

/// The list of devices shows every device once, or every device on the network
/// asked for, the one seen last first.
pub proof fn law_devices_are_listed(m: StoreModel, network: Option<Seq<char>>)
    requires
        m.wf(),
    ensures
        ({
            let l = devices_listed(m, network);
            &&& forall|i: int, j: int|
                0 <= i < j < l.len() ==> (#[trigger] l[i]).last_seen >= (#[trigger] l[j]).last_seen
            &&& l.to_multiset() == m.devices.filter(
                |d: DeviceRecord|
                    network is None || exists|i: int|
                        0 <= i < m.presence.len() && (#[trigger] m.presence[i]).device_key == d.key
                            && Some(m.presence[i].network_key) == network,
            ).map_values(|d: DeviceRecord| device_view(m, d, network)).to_multiset()
        }),
{
    let f = rows::time_by::<DeviceRow>();
    let sorted = rows::newest_first(m.devices, f);
    let p = listed(m, network);
    let q = |d: DeviceRecord|
        network is None || exists|i: int|
            0 <= i < m.presence.len() && (#[trigger] m.presence[i]).device_key == d.key && Some(
                m.presence[i].network_key,
            ) == network;
    let g = |d: DeviceRecord| device_view(m, d, network);
    assert forall|d: DeviceRecord| #[trigger] p(d) == q(d) by {
        if network is Some {
            presence::lemma_presence_index(m.presence, d.key, network.unwrap());
            match presence::presence_index(m.presence, d.key, network.unwrap()) {
                Some(i) => {
                    assert(m.presence[i].device_key == d.key);
                },
                None => {},
            }
        }
    }
    assert(p =~= q);
    rows::lemma_newest_first(m.devices, f);
    rows::lemma_newest_first_multiset(m.devices, f);
    lemma_filter_multiset(sorted, m.devices, p);
    lemma_map_multiset(sorted.filter(p), m.devices.filter(p), g);
    let l = devices_listed(m, network);
    assert(l =~= sorted.filter(p).map_values(g));
    lemma_filter_ordered(sorted, p, f);
    assert forall|i: int, j: int| 0 <= i < j < l.len() implies (#[trigger] l[i]).last_seen >= (
    #[trigger] l[j]).last_seen by {
        assert(f(sorted.filter(p)[i]) >= f(sorted.filter(p)[j]));
    }
}

/// A filter keeps the order.
proof fn lemma_filter_ordered<A>(s: Seq<A>, p: spec_fn(A) -> bool, f: spec_fn(A) -> int)
    requires
        forall|i: int, j: int| 0 <= i < j < s.len() ==> f(#[trigger] s[i]) >= f(#[trigger] s[j]),
    ensures
        forall|i: int, j: int|
            0 <= i < j < s.filter(p).len() ==> f(#[trigger] s.filter(p)[i]) >= f(
                #[trigger] s.filter(p)[j],
            ),
    decreases s.len(),
{
    reveal(Seq::filter);
    if s.len() > 0 {
        let init = s.drop_last();
        assert forall|i: int, j: int| 0 <= i < j < init.len() implies f(#[trigger] init[i]) >= f(
            #[trigger] init[j],
        ) by {
            assert(s[i] == init[i] && s[j] == init[j]);
        }
        lemma_filter_ordered(init, p, f);
        let t = s.filter(p);
        assert forall|i: int, j: int| 0 <= i < j < t.len() implies f(#[trigger] t[i]) >= f(
            #[trigger] t[j],
        ) by {
            if j == init.filter(p).len() {
                assert(init.filter(p).contains(t[i]));
                seqs::lemma_filter_contains(init, p, t[i]);
                let k = choose|k: int| 0 <= k < init.len() && init[k] == t[i];
                assert(s[k] == t[i]);
                assert(f(s[k]) >= f(s[s.len() - 1]));
            }
        }
    }
}

/// How often a filter keeps a value.
proof fn lemma_filter_count<A>(s: Seq<A>, p: spec_fn(A) -> bool, x: A)
    ensures
        s.filter(p).to_multiset().count(x) == if p(x) {
            s.to_multiset().count(x)
        } else {
            0
        },
    decreases s.len(),
{
    reveal(Seq::filter);
    if s.len() > 0 {
        let init = s.drop_last();
        lemma_filter_count(init, p, x);
        init.to_multiset_ensures();
        init.filter(p).to_multiset_ensures();
        assert(init.push(s.last()) =~= s);
    } else {
        s.to_multiset_ensures();
        assert(!s.contains(x));
    }
}

/// A filter keeps the same of the same.
proof fn lemma_filter_multiset<A>(a: Seq<A>, b: Seq<A>, p: spec_fn(A) -> bool)
    requires
        a.to_multiset() == b.to_multiset(),
    ensures
        a.filter(p).to_multiset() == b.filter(p).to_multiset(),
{
    assert forall|x: A| #[trigger] a.filter(p).to_multiset().count(x) == b.filter(p).to_multiset().count(
        x,
    ) by {
        lemma_filter_count(a, p, x);
        lemma_filter_count(b, p, x);
    }
    assert(a.filter(p).to_multiset() =~= b.filter(p).to_multiset());
}

/// The same values are turned into the same.
proof fn lemma_map_multiset<A, B>(a: Seq<A>, b: Seq<A>, g: spec_fn(A) -> B)
    requires
        a.to_multiset() == b.to_multiset(),
    ensures
        a.map_values(g).to_multiset() == b.map_values(g).to_multiset(),
    decreases a.len(),
{
    a.to_multiset_ensures();
    b.to_multiset_ensures();
    if a.len() == 0 {
        assert(a.map_values(g) =~= b.map_values(g));
    } else {
        let x = a.last();
        let init = a.drop_last();
        init.to_multiset_ensures();
        assert(init.push(x) =~= a);
        assert(a.to_multiset().count(x) > 0);
        assert(b.contains(x));
        let i = choose|i: int| 0 <= i < b.len() && b[i] == x;
        let rest = b.remove(i);
        assert(rest.to_multiset() =~= b.to_multiset().remove(x));
        assert(init.to_multiset() =~= a.to_multiset().remove(x));
        lemma_map_multiset(init, rest, g);
        init.map_values(g).to_multiset_ensures();
        b.map_values(g).to_multiset_ensures();
        assert(a.map_values(g) =~= init.map_values(g).push(g(x)));
        assert(b.map_values(g).remove(i) =~= rest.map_values(g));
        assert(b.map_values(g)[i] == g(x));
        assert(b.map_values(g).contains(g(x)));
        assert(rest.map_values(g).to_multiset() =~= b.map_values(g).to_multiset().remove(g(x)));
        assert(b.map_values(g).to_multiset() =~= rest.map_values(g).to_multiset().insert(g(x)));
    }
}

/// A filter keeps no more than there is, and all of it where all fits.
proof fn lemma_filter_len<A>(s: Seq<A>, p: spec_fn(A) -> bool)
    ensures
        s.filter(p).len() <= s.len(),
        (forall|i: int| 0 <= i < s.len() ==> p(#[trigger] s[i])) ==> s.filter(p).len() == s.len(),
        (forall|i: int| 0 <= i < s.len() ==> !p(#[trigger] s[i])) ==> s.filter(p).len() == 0,
    decreases s.len(),
{
    reveal(Seq::filter);
    if s.len() > 0 {
        let init = s.drop_last();
        lemma_filter_len(init, p);
        assert(forall|i: int| 0 <= i < init.len() ==> #[trigger] init[i] == s[i]);
        assert(s[s.len() - 1] == s.last());
    }
}

/// Where a list has at least so many values of a time or later, the first so
/// many in the order of time are all of that time or later.
proof fn lemma_latest_come_first<A>(
    all: Seq<A>,
    f: spec_fn(A) -> int,
    from: int,
    limit: int,
    v: int,
    i: int,
)
    requires
        0 <= from,
        0 <= i < limit,
        from + limit <= all.len(),
        forall|k: int| from <= k < from + limit ==> f(#[trigger] all[k]) >= v,
    ensures
        f(rows::newest_first(all, f)[i]) >= v,
{
    let sorted = rows::newest_first(all, f);
    let q = |y: A| f(y) >= v;
    rows::lemma_newest_first(all, f);
    rows::lemma_newest_first_multiset(all, f);
    lemma_filter_multiset(sorted, all, q);
    sorted.filter(q).to_multiset_ensures();
    all.filter(q).to_multiset_ensures();
    let a = all.take(from);
    let b = all.subrange(from, from + limit);
    let c = all.skip(from + limit);
    assert(all =~= a + b + c);
    Seq::filter_distributes_over_add(a + b, c, q);
    Seq::filter_distributes_over_add(a, b, q);
    assert forall|k: int| 0 <= k < b.len() implies q(#[trigger] b[k]) by {
        assert(b[k] == all[from + k]);
    }
    lemma_filter_len(b, q);
    if f(sorted[i]) < v {
        let x = sorted.take(i);
        let y = sorted.skip(i);
        assert(sorted =~= x + y);
        Seq::filter_distributes_over_add(x, y, q);
        lemma_filter_len(x, q);
        assert forall|k: int| 0 <= k < y.len() implies !q(#[trigger] y[k]) by {
            assert(y[k] == sorted[i + k]);
            if k > 0 {
                assert(f(sorted[i]) >= f(sorted[i + k]));
            }
        }
        lemma_filter_len(y, q);
    }
}

/// What a cut list leaves out is no later than anything it has.
proof fn lemma_left_out_is_older<A>(
    s: Seq<A>,
    all: Seq<A>,
    f: spec_fn(A) -> int,
    from: int,
    limit: int,
    e: A,
    i: int,
)
    requires
        0 <= i < limit,
        s.contains(e),
        0 <= from,
        from + limited(rows::newest_first(s, f), limit).len() <= all.len(),
        all.subrange(from, from + limited(rows::newest_first(s, f), limit).len()) == limited(
            rows::newest_first(s, f),
            limit,
        ),
        i < all.len(),
        !limited(rows::newest_first(all, f), limit).contains(e),
    ensures
        f(rows::newest_first(all, f)[i]) >= f(e),
{
    let sorted = rows::newest_first(s, f);
    let x = limited(sorted, limit);
    let t = rows::newest_first(all, f);
    rows::lemma_newest_first(s, f);
    rows::lemma_newest_first(all, f);
    assert(sorted.contains(e));
    let p = choose|p: int| 0 <= p < sorted.len() && sorted[p] == e;
    if p < x.len() {
        assert(x[p] == e);
        assert(all.subrange(from, from + x.len())[p] == all[from + p]);
        assert(all.contains(e));
        lemma_left_out_of_all(all, f, limit, e, i);
    } else {
        assert forall|k: int| from <= k < from + limit implies f(#[trigger] all[k]) >= f(e) by {
            assert(all.subrange(from, from + x.len())[k - from] == all[k]);
            assert(x[k - from] == sorted[k - from]);
            if k - from < p {
                assert(f(sorted[k - from]) >= f(sorted[p]));
            }
        }
        lemma_latest_come_first(all, f, from, limit, f(e), i);
    }
}

/// What is left out of a list in the order of time is no later than anything
/// before the cut.
proof fn lemma_left_out_of_all<A>(all: Seq<A>, f: spec_fn(A) -> int, limit: int, e: A, i: int)
    requires
        0 <= i < limit,
        i < all.len(),
        all.contains(e),
        !limited(rows::newest_first(all, f), limit).contains(e),
    ensures
        f(rows::newest_first(all, f)[i]) >= f(e),
{
    let t = rows::newest_first(all, f);
    let h = limited(t, limit);
    rows::lemma_newest_first(all, f);
    assert(t.contains(e));
    let p = choose|p: int| 0 <= p < t.len() && t[p] == e;
    if p < h.len() {
        assert(h[p] == e);
    }
    assert(p >= limit);
    assert(f(t[i]) >= f(t[p]));
}

/// A history that is cut short has the latest events: none that it leaves out
/// is later than one that it has.
pub proof fn law_history_keeps_the_latest(
    m: StoreModel,
    device_key: Seq<char>,
    limit: int,
    e: EventModel,
    i: int,
)
    requires
        m.wf(),
        0 <= i < history_of(m, device_key, limit).len(),
        0 <= limit,
        told(m, alias::resolved(m.aliases, device_key)).contains(e),
        !history_of(m, device_key, limit).contains(e),
    ensures
        history_of(m, device_key, limit)[i].when() >= e.when(),
{
    let key = alias::resolved(m.aliases, device_key);
    let f = rows::time_by::<HistoryEvent>();
    let a = observation_events(m, key, m.observations.len() as int);
    let b = transition_events(m.transitions, key, m.transitions.len() as int);
    let c = naming_event(m, key);
    let o = told_observations(m, key);
    let t = told_transitions(m, key);
    lemma_told(m, key);
    a.to_multiset_ensures();
    b.to_multiset_ensures();
    o.to_multiset_ensures();
    t.to_multiset_ensures();
    let x = limited(by_time(a), limit);
    let y = limited(by_time(b), limit);
    let all = x + y + c;
    let h = history_of(m, device_key, limit);
    rows::lemma_newest_first(all, f);
    law_history_is_ordered(m, device_key, limit);
    assert(h == limited(rows::newest_first(all, f), limit));
    assert(h[i] == rows::newest_first(all, f)[i]);
    assert(f(h[i]) == h[i].when() && f(e) == e.when());
    let j = choose|j: int| 0 <= j < told(m, key).len() && told(m, key)[j] == e;
    if j < o.len() {
        assert(o[j] == e);
        assert(o.contains(e));
        assert(a.to_multiset().count(e) > 0);
        assert(a.contains(e));
        assert(all.subrange(0, x.len() as int) =~= x);
        lemma_left_out_is_older(a, all, f, 0, limit, e, i);
    } else if j < o.len() + t.len() {
        assert(t[j - o.len()] == e);
        assert(t.contains(e));
        assert(b.to_multiset().count(e) > 0);
        assert(b.contains(e));
        assert(all.subrange(x.len() as int, x.len() as int + y.len()) =~= y);
        lemma_left_out_is_older(b, all, f, x.len() as int, limit, e, i);
    } else {
        let k = j - o.len() - t.len();
        assert(c[k] == e);
        assert(all[x.len() + y.len() + k] == e);
        assert(all.contains(e));
        lemma_left_out_of_all(all, f, limit, e, i);
    }
}

/// The status that is shown of a device is that of its row on the network that
/// is listed.
pub proof fn law_shown_status_is_of_the_network(
    m: StoreModel,
    d: DeviceRecord,
    network: Seq<char>,
    i: int,
)
    requires
        m.wf(),
        0 <= i < m.presence.len(),
        m.presence[i].device_key == d.key,
        m.presence[i].network_key == network,
    ensures
        device_view(m, d, Some(network)).status == status_of(m, d.key, Some(m.presence[i])),
        m.presence[i].reported_gone <==> device_view(m, d, Some(network)).status
            == DeviceStatus::Gone,
{
    presence::lemma_presence_found(m.presence, i);
    law_status_follows_the_last_scan(m, d.key, m.presence[i]);
}

} // verus!
