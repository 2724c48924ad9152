//! Remembered networks.

use vstd::prelude::*;
use vstd::string::*;

use crate::model::NetworkView;
use crate::store::rows::{copy_rows, find_row, sort_newest, Copied, NetworkRow};
use crate::store::{Store, StoreError};
use crate::text::{chars_of, clone_opt, lower_char, own_opt, str_eq};
use crate::util::now;

verus! {

/// The networks after one was seen: a known one keeps everything but the time
/// it was last seen.
pub open spec fn network_seen(
    s: Seq<crate::store::rows::NetworkRecord>,
    key: Seq<char>,
    subnet: Option<Seq<char>>,
    gateway_mac: Option<Seq<char>>,
    t: i64,
) -> Seq<crate::store::rows::NetworkRecord> {
    match crate::store::rows::row_index::<NetworkRow>(s, key) {
        Some(i) => s.update(i, crate::store::rows::NetworkRecord { last_seen: t, ..s[i] }),
        None => s.push(
            crate::store::rows::NetworkRecord {
                key,
                label: None,
                subnet,
                gateway_mac,
                first_seen: t,
                last_seen: t,
            },
        ),
    }
}

/// The networks after one was given a label.
pub open spec fn network_labelled(
    s: Seq<crate::store::rows::NetworkRecord>,
    key: Seq<char>,
    label: Seq<char>,
) -> Seq<crate::store::rows::NetworkRecord> {
    match crate::store::rows::row_index::<NetworkRow>(s, key) {
        Some(i) => s.update(i, crate::store::rows::NetworkRecord { label: Some(label), ..s[i] }),
        None => s,
    }
}

/// The label of a network.
pub open spec fn label_of(
    s: Seq<crate::store::rows::NetworkRecord>,
    key: Seq<char>,
) -> Option<Seq<char>> {
    match crate::store::rows::row_index::<NetworkRow>(s, key) {
        Some(i) => s[i].label,
        None => None,
    }
}

/// The condition of being presence on a network.
pub open spec fn on_network(key: Seq<char>) -> spec_fn(crate::store::rows::PresenceRecord) -> bool {
    |p: crate::store::rows::PresenceRecord| p.network_key == key
}

/// A network as frontends see it.
pub open spec fn network_view(
    n: crate::store::rows::NetworkRecord,
    presence: Seq<crate::store::rows::PresenceRecord>,
) -> crate::model::NetworkViewModel {
    crate::model::NetworkViewModel {
        key: n.key,
        label: n.label,
        subnet: n.subnet,
        gateway_mac: n.gateway_mac,
        first_seen: n.first_seen,
        last_seen: n.last_seen,
        device_count: presence.filter(on_network(n.key)).len() as i64,
    }
}

/// Every network, the one seen last first.
pub open spec fn networks_listed(m: crate::store::StoreModel) -> Seq<crate::model::NetworkViewModel> {
    let sorted = crate::store::rows::newest_first(
        m.networks,
        crate::store::rows::time_by::<NetworkRow>(),
    );
    Seq::new(sorted.len(), |i: int| network_view(sorted[i], m.presence))
}

/// A text begins with another, the case of ASCII letters ignored.
pub open spec fn prefixed(s: Seq<char>, prefix: Seq<char>) -> bool {
    prefix.len() <= s.len() && forall|i: int|
        0 <= i < prefix.len() ==> crate::text::ascii_lower_char(#[trigger] s[i])
            == crate::text::ascii_lower_char(prefix[i])
}

/// The one index that satisfies a condition, if there is exactly one.
pub open spec fn is_only<A>(s: Seq<A>, p: spec_fn(A) -> bool, i: int) -> bool {
    &&& 0 <= i < s.len()
    &&& p(s[i])
    &&& forall|j: int| 0 <= j < s.len() && j != i ==> !p(#[trigger] s[j])
}

/// The only element that satisfies a condition; nothing where none or several
/// do.
pub open spec fn only_where<A>(s: Seq<A>, p: spec_fn(A) -> bool) -> Option<A> {
    if exists|i: int| is_only(s, p, i) {
        Some(s[choose|i: int| is_only(s, p, i)])
    } else {
        None
    }
}

/// A single match is the only one.
pub proof fn lemma_only_is<A>(s: Seq<A>, p: spec_fn(A) -> bool, i: int)
    requires
        is_only(s, p, i),
    ensures
        only_where(s, p) == Some(s[i]),
{
    let k = choose|k: int| is_only(s, p, k);
    assert(is_only(s, p, k));
    if k != i {
        assert(!p(s[k]));
    }
}

/// Two matches are no single match.
pub proof fn lemma_not_only<A>(s: Seq<A>, p: spec_fn(A) -> bool, i: int, j: int)
    requires
        0 <= i < j < s.len(),
        p(s[i]),
        p(s[j]),
    ensures
        only_where(s, p) is None,
{
    assert forall|k: int| !is_only(s, p, k) by {
        if is_only(s, p, k) {
            if k == i {
                assert(!p(s[j]));
            } else {
                assert(!p(s[i]));
            }
        }
    }
}

/// The network that a reference names: the one with that key, or the only one
/// whose key begins so.
pub open spec fn network_by_ref(
    s: Seq<crate::store::rows::NetworkRecord>,
    r: Seq<char>,
) -> Option<crate::store::rows::NetworkRecord> {
    match crate::store::rows::row_index::<NetworkRow>(s, r) {
        Some(i) => Some(s[i]),
        None => only_where(s, |n: crate::store::rows::NetworkRecord| prefixed(n.key, r)),
    }
}

/// Whether a text begins with another, the case of ASCII letters ignored.
pub fn has_prefix(s: &str, prefix: &str) -> (r: bool)
    ensures
        r == prefixed(s@, prefix@),
{
    let a = chars_of(s);
    let b = chars_of(prefix);
    if b.len() > a.len() {
        return false;
    }
    let mut i: usize = 0;
    while i < b.len()
        invariant
            i <= b.len() <= a.len(),
            a@ == s@,
            b@ == prefix@,
            forall|j: int|
                0 <= j < i ==> crate::text::ascii_lower_char(#[trigger] s@[j])
                    == crate::text::ascii_lower_char(prefix@[j]),
        decreases b.len() - i,
    {
        if lower_char(a[i]) != lower_char(b[i]) {
            assert(crate::text::ascii_lower_char(s@[i as int]) != crate::text::ascii_lower_char(
                prefix@[i as int],
            ));
            return false;
        }
        i = i + 1;
    }
    true
}

impl Store {
    /// Record that a network was seen at a time.
    pub fn upsert_network_at(
        &mut self,
        key: &str,
        subnet: Option<&str>,
        gateway_mac: Option<&str>,
        t: i64,
    ) -> (r: Result<(), StoreError>)
        requires
            old(self).deep_view().wf(),
        ensures
            r is Ok,
            final(self).deep_view() == (crate::store::StoreModel {
                networks: network_seen(
                    old(self).deep_view().networks,
                    key@,
                    subnet.deep_view(),
                    gateway_mac.deep_view(),
                    t,
                ),
                ..old(self).deep_view()
            }),
            final(self).deep_view().wf(),
    {
        let ghost before = self.networks.deep_view();
        let ghost want = network_seen(before, key@, subnet.deep_view(), gateway_mac.deep_view(), t);
        match find_row(&self.networks, key) {
            Some(i) => {
                self.networks[i].last_seen = t;
                assert(self.networks.deep_view() == want);
            },
            None => {
                proof {
                    crate::store::rows::lemma_row_index::<NetworkRow>(before, key@);
                }
                self.networks.push(
                    NetworkRow {
                        key: key.to_string(),
                        label: None,
                        subnet: own_opt(subnet),
                        gateway_mac: own_opt(gateway_mac),
                        first_seen: t,
                        last_seen: t,
                    },
                );
                assert(self.networks.deep_view() == want);
            },
        }
        assert(crate::store::rows::unique::<NetworkRow>(want));
        Ok(())
    }

    /// Record that a network was seen now.
    pub fn upsert_network(
        &mut self,
        key: &str,
        subnet: Option<&str>,
        gateway_mac: Option<&str>,
    ) -> (r: Result<(), StoreError>)
        requires
            old(self).deep_view().wf(),
        ensures
            r is Ok,
            exists|t: i64|
                final(self).deep_view() == (crate::store::StoreModel {
                    networks: #[trigger] network_seen(
                        old(self).deep_view().networks,
                        key@,
                        subnet.deep_view(),
                        gateway_mac.deep_view(),
                        t,
                    ),
                    ..old(self).deep_view()
                }),
            final(self).deep_view().wf(),
    {
        self.upsert_network_at(key, subnet, gateway_mac, now())
    }

    /// Give a network a label; whether there is such a network.
    pub fn set_network_label(&mut self, key: &str, label: &str) -> (r: Result<bool, StoreError>)
        requires
            old(self).deep_view().wf(),
        ensures
            r == Ok::<bool, StoreError>(
                crate::store::rows::row_index::<NetworkRow>(
                    old(self).deep_view().networks,
                    key@,
                ) is Some,
            ),
            final(self).deep_view() == (crate::store::StoreModel {
                networks: network_labelled(old(self).deep_view().networks, key@, label@),
                ..old(self).deep_view()
            }),
            final(self).deep_view().wf(),
    {
        let ghost before = self.networks.deep_view();
        let ghost want = network_labelled(before, key@, label@);
        let found = match find_row(&self.networks, key) {
            Some(i) => {
                self.networks[i].label = Some(label.to_string());
                assert(self.networks.deep_view() == want);
                true
            },
            None => false,
        };
        assert(crate::store::rows::unique::<NetworkRow>(want));
        Ok(found)
    }

    /// The label of a network, if it has one.
    pub fn get_network_label(&self, key: &str) -> (r: Option<String>)
        ensures
            r.deep_view() == label_of(self.deep_view().networks, key@),
    {
        match find_row(&self.networks, key) {
            Some(i) => clone_opt(&self.networks[i].label),
            None => None,
        }
    }

    /// The network that a key or the beginning of one names.
    pub fn get_network_by_ref(&self, r: &str) -> (res: Result<Option<NetworkRow>, StoreError>)
        ensures
            res is Ok,
            res.unwrap().deep_view() == network_by_ref(self.deep_view().networks, r@),
    {
        let ghost all = self.networks.deep_view();
        if let Some(i) = find_row(&self.networks, r) {
            return Ok(Some(self.networks[i].copied()));
        }
        let ghost p = |n: crate::store::rows::NetworkRecord| prefixed(n.key, r@);
        let mut found: Option<usize> = None;
        let mut i: usize = 0;
        while i < self.networks.len()
            invariant
                i <= self.networks.len(),
                all == self.networks.deep_view(),
                p == (|n: crate::store::rows::NetworkRecord| prefixed(n.key, r@)),
                crate::store::rows::row_index::<NetworkRow>(all, r@) is None,
                match found {
                    Some(k) => k < i && p(all[k as int]) && forall|j: int|
                        0 <= j < i && j != k ==> !p(#[trigger] all[j]),
                    None => forall|j: int| 0 <= j < i ==> !p(#[trigger] all[j]),
                },
            decreases self.networks.len() - i,
        {
            assert(all[i as int] == self.networks@[i as int].deep_view());
            if has_prefix(self.networks[i].key.as_str(), r) {
                if let Some(k) = found {
                    proof {
                        lemma_not_only(all, p, k as int, i as int);
                    }
                    return Ok(None);
                }
                found = Some(i);
            }
            i = i + 1;
        }
        match found {
            Some(k) => {
                proof {
                    assert(is_only(all, p, k as int));
                    lemma_only_is(all, p, k as int);
                }
                Ok(Some(self.networks[k].copied()))
            },
            None => {
                assert forall|k: int| !is_only(all, p, k) by {
                    if 0 <= k < all.len() {
                        assert(!p(all[k]));
                    }
                }
                Ok(None)
            },
        }
    }

    /// How many devices are recorded on a network.
    fn device_count(&self, key: &str) -> (r: usize)
        ensures
            r == self.presence.deep_view().filter(on_network(key@)).len(),
    {
        let ghost all = self.presence.deep_view();
        let ghost p = on_network(key@);
        let mut n: usize = 0;
        let mut i: usize = 0;
        assert(all.take(0).filter(p) == Seq::<crate::store::rows::PresenceRecord>::empty());
        while i < self.presence.len()
            invariant
                i <= self.presence.len(),
                n <= i,
                all == self.presence.deep_view(),
                p == on_network(key@),
                n == all.take(i as int).filter(p).len(),
            decreases self.presence.len() - i,
        {
            assert(all.take(i + 1) == all.take(i as int).push(all[i as int]));
            assert(all[i as int] == self.presence@[i as int].deep_view());
            proof {
                crate::seqs::lemma_filter_push(all.take(i as int), all[i as int], p);
            }
            if str_eq(self.presence[i].network_key.as_str(), key) {
                n = n + 1;
            }
            i = i + 1;
        }
        assert(all.take(all.len() as int) == all);
        n
    }

    /// Every remembered network, the one seen last first.
    pub fn list_networks(&self) -> (r: Result<Vec<NetworkView>, StoreError>)
        ensures
            r is Ok,
            r.unwrap().deep_view() == networks_listed(self.deep_view()),
    {
        let rows = sort_newest(copy_rows(&self.networks));
        let ghost sorted = rows.deep_view();
        let ghost presence = self.deep_view().presence;
        let mut out: Vec<NetworkView> = Vec::new();
        let mut i: usize = 0;
        while i < rows.len()
            invariant
                i <= rows.len(),
                sorted == rows.deep_view(),
                presence == self.presence.deep_view(),
                out.deep_view() == Seq::new(i as nat, |k: int| network_view(sorted[k], presence)),
            decreases rows.len() - i,
        {
            let n = &rows[i];
            assert(sorted[i as int] == n.deep_view());
            let ghost so_far = out.deep_view();
            let view = NetworkView {
                key: n.key.clone(),
                label: clone_opt(&n.label),
                subnet: clone_opt(&n.subnet),
                gateway_mac: clone_opt(&n.gateway_mac),
                first_seen: n.first_seen,
                last_seen: n.last_seen,
                device_count: self.device_count(n.key.as_str()) as i64,
            };
            let ghost model = view.deep_view();
            assert(model == network_view(sorted[i as int], presence));
            out.push(view);
            assert(out.deep_view() == so_far.push(model));
            i = i + 1;
        }
        Ok(out)
    }
}

/// Seeing a network again never changes what is known of it but the time.
pub proof fn law_network_is_remembered(
    s: Seq<crate::store::rows::NetworkRecord>,
    key: Seq<char>,
    subnet: Option<Seq<char>>,
    gateway_mac: Option<Seq<char>>,
    t: i64,
)
    requires
        crate::store::rows::unique::<NetworkRow>(s),
    ensures
        label_of(network_seen(s, key, subnet, gateway_mac, t), key) == label_of(s, key),
        crate::store::rows::row_index::<NetworkRow>(
            network_seen(s, key, subnet, gateway_mac, t),
            key,
        ) is Some,
{
    let n = network_seen(s, key, subnet, gateway_mac, t);
    crate::store::rows::lemma_row_index::<NetworkRow>(s, key);
    let at: int = match crate::store::rows::row_index::<NetworkRow>(s, key) {
        Some(i) => i,
        None => s.len() as int,
    };
    assert(n[at].key == key);
    assert(crate::store::rows::unique::<NetworkRow>(n));
    crate::store::rows::lemma_row_found::<NetworkRow>(n, at);
}

/// A network keeps the label it was given.
pub proof fn law_label_reads_back(
    s: Seq<crate::store::rows::NetworkRecord>,
    key: Seq<char>,
    label: Seq<char>,
)
    requires
        crate::store::rows::unique::<NetworkRow>(s),
        crate::store::rows::row_index::<NetworkRow>(s, key) is Some,
    ensures
        label_of(network_labelled(s, key, label), key) == Some(label),
{
    let n = network_labelled(s, key, label);
    crate::store::rows::lemma_row_index::<NetworkRow>(s, key);
    let at = crate::store::rows::row_index::<NetworkRow>(s, key).unwrap();
    assert(n[at].key == key);
    assert(crate::store::rows::unique::<NetworkRow>(n));
    crate::store::rows::lemma_row_found::<NetworkRow>(n, at);
}

/// What seeing a network does: one that is known is seen now and otherwise
/// stays as it was; one that is not gets a row with what is known of it.
pub proof fn law_network_row(
    s: Seq<crate::store::rows::NetworkRecord>,
    key: Seq<char>,
    subnet: Option<Seq<char>>,
    gateway_mac: Option<Seq<char>>,
    t: i64,
)
    requires
        crate::store::rows::unique::<NetworkRow>(s),
    ensures
        ({
            let n = network_seen(s, key, subnet, gateway_mac, t);
            &&& forall|i: int|
                0 <= i < s.len() && (#[trigger] s[i]).key == key ==> n.len() == s.len() && n[i]
                    == (crate::store::rows::NetworkRecord {
                    key,
                    label: s[i].label,
                    subnet: s[i].subnet,
                    gateway_mac: s[i].gateway_mac,
                    first_seen: s[i].first_seen,
                    last_seen: t,
                })
            &&& (forall|i: int| 0 <= i < s.len() ==> (#[trigger] s[i]).key != key) ==> n.len()
                == s.len() + 1 && n.last() == (crate::store::rows::NetworkRecord {
                key,
                label: None,
                subnet,
                gateway_mac,
                first_seen: t,
                last_seen: t,
            })
            &&& forall|i: int| 0 <= i < s.len() && (#[trigger] s[i]).key != key ==> n[i] == s[i]
        }),
{
    crate::store::rows::lemma_row_index::<NetworkRow>(s, key);
    assert forall|i: int|
        0 <= i < s.len() && (#[trigger] s[i]).key
            == key implies crate::store::rows::row_index::<NetworkRow>(s, key) == Some(i) by {
        crate::store::rows::lemma_row_found::<NetworkRow>(s, i);
    }
}

/// Giving a network a label changes its label and nothing else.
pub proof fn law_label_changes_only_the_label(
    s: Seq<crate::store::rows::NetworkRecord>,
    key: Seq<char>,
    label: Seq<char>,
    i: int,
)
    requires
        crate::store::rows::unique::<NetworkRow>(s),
        0 <= i < s.len(),
    ensures
        network_labelled(s, key, label).len() == s.len(),
        network_labelled(s, key, label)[i] == (crate::store::rows::NetworkRecord {
            key: s[i].key,
            label: if s[i].key == key {
                Some(label)
            } else {
                s[i].label
            },
            subnet: s[i].subnet,
            gateway_mac: s[i].gateway_mac,
            first_seen: s[i].first_seen,
            last_seen: s[i].last_seen,
        }),
{
    crate::store::rows::lemma_row_index::<NetworkRow>(s, key);
    crate::store::rows::lemma_row_found::<NetworkRow>(s, i);
}

/// How many rows of presence are on a network.
pub open spec fn rows_on(s: Seq<crate::store::rows::PresenceRecord>, key: Seq<char>) -> int
    decreases s.len(),
{
    if s.len() == 0 {
        0
    } else if s.last().network_key == key {
        rows_on(s.drop_last(), key) + 1
    } else {
        rows_on(s.drop_last(), key)
    }
}

/// What a filter counts.
proof fn lemma_rows_on(s: Seq<crate::store::rows::PresenceRecord>, key: Seq<char>)
    ensures
        s.filter(on_network(key)).len() == rows_on(s, key),
        0 <= rows_on(s, key) <= s.len(),
    decreases s.len(),
{
    reveal(Seq::filter);
    if s.len() > 0 {
        lemma_rows_on(s.drop_last(), key);
    }
}

/// The list of networks shows every network once, the one seen last first, as
/// it is on record, with the number of devices recorded on it.
pub proof fn law_networks_are_listed(m: crate::store::StoreModel)
    requires
        m.wf(),
        m.presence.len() <= i64::MAX,
    ensures
        ({
            let l = networks_listed(m);
            &&& l.len() == m.networks.len()
            &&& forall|i: int, j: int|
                0 <= i < j < l.len() ==> (#[trigger] l[i]).last_seen >= (#[trigger] l[j]).last_seen
            &&& forall|i: int|
                0 <= i < m.networks.len() ==> exists|k: int|
                    0 <= k < l.len() && (#[trigger] l[k]).key == (#[trigger] m.networks[i]).key
            &&& forall|k: int|
                0 <= k < l.len() ==> exists|i: int|
                    0 <= i < m.networks.len() && ({
                        let n = #[trigger] m.networks[i];
                        let v = #[trigger] l[k];
                        &&& v.key == n.key
                        &&& v.label == n.label
                        &&& v.subnet == n.subnet
                        &&& v.gateway_mac == n.gateway_mac
                        &&& v.first_seen == n.first_seen
                        &&& v.last_seen == n.last_seen
                        &&& v.device_count == rows_on(m.presence, n.key)
                    })
        }),
{
    let f = crate::store::rows::time_by::<NetworkRow>();
    let sorted = crate::store::rows::newest_first(m.networks, f);
    let l = networks_listed(m);
    crate::store::rows::lemma_newest_first(m.networks, f);
    assert forall|i: int, j: int| 0 <= i < j < l.len() implies (#[trigger] l[i]).last_seen >= (
    #[trigger] l[j]).last_seen by {
        assert(f(sorted[i]) >= f(sorted[j]));
    }
    assert forall|i: int| 0 <= i < m.networks.len() implies exists|k: int|
        0 <= k < l.len() && (#[trigger] l[k]).key == (#[trigger] m.networks[i]).key by {
        assert(m.networks.contains(m.networks[i]));
        assert(sorted.contains(m.networks[i]));
        let k = choose|k: int| 0 <= k < sorted.len() && sorted[k] == m.networks[i];
        assert(l[k].key == m.networks[i].key);
    }
    assert forall|k: int| 0 <= k < l.len() implies exists|i: int|
        0 <= i < m.networks.len() && ({
            let n = #[trigger] m.networks[i];
            let v = #[trigger] l[k];
            &&& v.key == n.key
            &&& v.label == n.label
            &&& v.subnet == n.subnet
            &&& v.gateway_mac == n.gateway_mac
            &&& v.first_seen == n.first_seen
            &&& v.last_seen == n.last_seen
            &&& v.device_count == rows_on(m.presence, n.key)
        }) by {
        assert(sorted.contains(sorted[k]));
        let i = choose|i: int| 0 <= i < m.networks.len() && m.networks[i] == sorted[k];
        lemma_rows_on(m.presence, sorted[k].key);
        assert(m.networks[i].key == l[k].key);
    }
}

/// A key begins with a text, however its letters are written.
pub open spec fn begins_alike(key: Seq<char>, r: Seq<char>) -> bool {
    r.len() <= key.len() && crate::text::ascii_lower(key.take(r.len() as int))
        == crate::text::ascii_lower(r)
}

/// What a reference to a network names: the network with that key, else the
/// only one whose key begins so, however written.
pub proof fn law_network_reference(s: Seq<crate::store::rows::NetworkRecord>, r: Seq<char>)
    requires
        crate::store::rows::unique::<NetworkRow>(s),
    ensures
        ({
            let exact = exists|i: int| 0 <= i < s.len() && (#[trigger] s[i]).key == r;
            match network_by_ref(s, r) {
                Some(n) => {
                    &&& s.contains(n)
                    &&& exact ==> n.key == r
                    &&& !exact ==> {
                        &&& r.len() <= n.key.len()
                        &&& crate::text::ascii_lower(n.key.take(r.len() as int))
                            == crate::text::ascii_lower(r)
                        &&& forall|j: int|
                            0 <= j < s.len() && r.len() <= (#[trigger] s[j]).key.len()
                                && crate::text::ascii_lower(s[j].key.take(r.len() as int))
                                == crate::text::ascii_lower(r) ==> s[j] == n
                    }
                },
                None => {
                    &&& !exact
                    &&& forall|j: int|
                        0 <= j < s.len() && begins_alike((#[trigger] s[j]).key, r) ==> exists|k: int|
                            0 <= k < s.len() && k != j && begins_alike((#[trigger] s[k]).key, r)
                },
            }
        }),
{
    crate::store::rows::lemma_row_index::<NetworkRow>(s, r);
    let p = |n: crate::store::rows::NetworkRecord| prefixed(n.key, r);
    assert forall|j: int| 0 <= j < s.len() implies (p(#[trigger] s[j]) <==> r.len()
        <= s[j].key.len() && crate::text::ascii_lower(s[j].key.take(r.len() as int))
        == crate::text::ascii_lower(r)) by {
        let k = s[j].key;
        if r.len() <= k.len() {
            let a = crate::text::ascii_lower(k.take(r.len() as int));
            let b = crate::text::ascii_lower(r);
            if p(s[j]) {
                assert(a =~= b);
            }
            if a == b {
                assert forall|i: int| 0 <= i < r.len() implies crate::text::ascii_lower_char(
                    #[trigger] k[i],
                ) == crate::text::ascii_lower_char(r[i]) by {
                    assert(a[i] == b[i]);
                }
            }
        }
    }
    if exists|i: int| is_only(s, p, i) {
        let i = choose|i: int| is_only(s, p, i);
        assert(p(s[i]));
    } else {
        assert forall|j: int| 0 <= j < s.len() && begins_alike((#[trigger] s[j]).key, r) implies exists|
            k: int,
        |
            0 <= k < s.len() && k != j && begins_alike((#[trigger] s[k]).key, r) by {
            assert(p(s[j]));
            assert(!is_only(s, p, j));
            let k = choose|k: int| 0 <= k < s.len() && k != j && p(#[trigger] s[k]);
            assert(begins_alike(s[k].key, r));
        }
    }
}

} // verus!
