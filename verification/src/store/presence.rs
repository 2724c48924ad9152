//! Presence of devices on networks.

use vstd::prelude::*;
use vstd::string::*;

use crate::merge;
use crate::seqs;
use crate::store::networks;
use crate::store::rows::{Copied, PresenceRecord, PresenceRow};
use crate::store::{Store, StoreError, StoreModel, Transaction};
use crate::text::{own_opt, str_eq};
use crate::util::now;

verus! {

/// The condition of being a device's presence on a network.
pub open spec fn presence_of(device: Seq<char>, network: Seq<char>) -> spec_fn(
    PresenceRecord,
) -> bool {
    |p: PresenceRecord| p.device_key == device && p.network_key == network
}

/// Where a device's presence on a network stands.
pub open spec fn presence_index(
    s: Seq<PresenceRecord>,
    device: Seq<char>,
    network: Seq<char>,
) -> Option<int> {
    seqs::first_where(s, presence_of(device, network))
}

/// The presence of a device on a network.
pub open spec fn presence_at(
    s: Seq<PresenceRecord>,
    device: Seq<char>,
    network: Seq<char>,
) -> Option<PresenceRecord> {
    match presence_index(s, device, network) {
        Some(i) => Some(s[i]),
        None => None,
    }
}

/// Presence after a device was seen on a network: its streak is over, and the
/// address stays unless a new one comes.
pub open spec fn presence_seen(
    s: Seq<PresenceRecord>,
    device: Seq<char>,
    network: Seq<char>,
    last_ip: Option<Seq<char>>,
    t: i64,
) -> Seq<PresenceRecord> {
    match presence_index(s, device, network) {
        Some(i) => s.update(
            i,
            PresenceRecord {
                last_seen: t,
                miss_streak: 0,
                reported_gone: false,
                last_ip: merge::first_of(last_ip, s[i].last_ip),
                ..s[i]
            },
        ),
        None => s.push(
            PresenceRecord {
                device_key: device,
                network_key: network,
                first_seen: t,
                last_seen: t,
                miss_streak: 0,
                last_ip,
                reported_gone: false,
            },
        ),
    }
}

/// A streak that cannot grow any more.
pub open spec fn streak_is_full(s: Seq<PresenceRecord>, device: Seq<char>, network: Seq<char>) -> bool {
    match presence_at(s, device, network) {
        Some(p) => p.miss_streak == i64::MAX,
        None => false,
    }
}

/// Presence after a device was missed on a network.
pub open spec fn presence_missed(
    s: Seq<PresenceRecord>,
    device: Seq<char>,
    network: Seq<char>,
) -> Seq<PresenceRecord> {
    match presence_index(s, device, network) {
        Some(i) => s.update(
            i,
            PresenceRecord { miss_streak: (s[i].miss_streak + 1) as i64, ..s[i] },
        ),
        None => s,
    }
}

/// Presence after an absence was announced.
pub open spec fn presence_gone(
    s: Seq<PresenceRecord>,
    device: Seq<char>,
    network: Seq<char>,
) -> Seq<PresenceRecord> {
    match presence_index(s, device, network) {
        Some(i) => s.update(i, PresenceRecord { reported_gone: true, ..s[i] }),
        None => s,
    }
}

/// What a place found says of the rows.
pub proof fn lemma_presence_index(s: Seq<PresenceRecord>, device: Seq<char>, network: Seq<char>)
    ensures
        match presence_index(s, device, network) {
            Some(i) => 0 <= i < s.len() && s[i].device_key == device && s[i].network_key == network,
            None => forall|j: int|
                0 <= j < s.len() ==> (#[trigger] s[j]).device_key != device || s[j].network_key
                    != network,
        },
{
    let p = presence_of(device, network);
    seqs::lemma_first_found(s, p);
    if presence_index(s, device, network) is None {
        assert forall|j: int| 0 <= j < s.len() implies (#[trigger] s[j]).device_key != device
            || s[j].network_key != network by {
            assert(!p(s[j]));
        }
    }
}

/// Where rows are unique, one is found under its keys.
pub proof fn lemma_presence_found(s: Seq<PresenceRecord>, i: int)
    requires
        crate::store::presence_unique(s),
        0 <= i < s.len(),
    ensures
        presence_index(s, s[i].device_key, s[i].network_key) == Some(i),
{
    let p = presence_of(s[i].device_key, s[i].network_key);
    assert(seqs::is_first(s, p, i));
    seqs::lemma_first_is(s, p, i);
}

/// Replacing a row by one with the same keys keeps every row where it was.
pub proof fn lemma_presence_update(s: Seq<PresenceRecord>, i: int, row: PresenceRecord)
    requires
        crate::store::presence_unique(s),
        0 <= i < s.len(),
        row.device_key == s[i].device_key,
        row.network_key == s[i].network_key,
    ensures
        crate::store::presence_unique(s.update(i, row)),
        forall|d: Seq<char>, n: Seq<char>| #[trigger]
            presence_index(s.update(i, row), d, n) == presence_index(s, d, n),
{
    let t = s.update(i, row);
    assert forall|a: int, b: int| 0 <= a < b < t.len() implies (#[trigger] t[a]).device_key != (
    #[trigger] t[b]).device_key || t[a].network_key != t[b].network_key by {
        assert(s[a].device_key != s[b].device_key || s[a].network_key != s[b].network_key);
    }
    assert forall|d: Seq<char>, n: Seq<char>| #[trigger] presence_index(t, d, n)
        == presence_index(s, d, n) by {
        lemma_presence_index(s, d, n);
        lemma_presence_index(t, d, n);
        match presence_index(s, d, n) {
            Some(k) => {
                assert(t[k].device_key == d && t[k].network_key == n);
                lemma_presence_found(t, k);
            },
            None => {
                match presence_index(t, d, n) {
                    Some(k) => {
                        assert(s[k].device_key == d && s[k].network_key == n);
                    },
                    None => {},
                }
            },
        }
    }
}

/// Adding a row with new keys keeps every other row where it was.
pub proof fn lemma_presence_push(s: Seq<PresenceRecord>, row: PresenceRecord)
    requires
        crate::store::presence_unique(s),
        presence_index(s, row.device_key, row.network_key) is None,
    ensures
        crate::store::presence_unique(s.push(row)),
        presence_index(s.push(row), row.device_key, row.network_key) == Some(s.len() as int),
        forall|d: Seq<char>, n: Seq<char>|
            d != row.device_key || n != row.network_key ==> #[trigger] presence_index(
                s.push(row),
                d,
                n,
            ) == presence_index(s, d, n),
{
    let t = s.push(row);
    lemma_presence_index(s, row.device_key, row.network_key);
    assert forall|a: int, b: int| 0 <= a < b < t.len() implies (#[trigger] t[a]).device_key != (
    #[trigger] t[b]).device_key || t[a].network_key != t[b].network_key by {
        assert(t[a] == s[a]);
        if b < s.len() {
            assert(t[b] == s[b]);
        }
    }
    lemma_presence_found(t, s.len() as int);
    assert forall|d: Seq<char>, n: Seq<char>|
        d != row.device_key || n != row.network_key implies #[trigger] presence_index(t, d, n)
        == presence_index(s, d, n) by {
        lemma_presence_index(s, d, n);
        lemma_presence_index(t, d, n);
        match presence_index(s, d, n) {
            Some(k) => {
                assert(t[k] == s[k]);
                lemma_presence_found(t, k);
            },
            None => {
                match presence_index(t, d, n) {
                    Some(k) => {
                        if k < s.len() {
                            assert(t[k] == s[k]);
                        }
                    },
                    None => {},
                }
            },
        }
    }
}

impl Store {
    /// Find a device's presence on a network.
    pub fn find_presence(&self, device_key: &str, network_key: &str) -> (r: Option<usize>)
        ensures
            match r {
                Some(i) => i < self.presence.len() && presence_index(
                    self.deep_view().presence,
                    device_key@,
                    network_key@,
                ) == Some(i as int),
                None => presence_index(
                    self.deep_view().presence,
                    device_key@,
                    network_key@,
                ) is None,
            },
    {
        let ghost all = self.presence.deep_view();
        let ghost p = presence_of(device_key@, network_key@);
        let mut i: usize = 0;
        while i < self.presence.len()
            invariant
                i <= self.presence.len(),
                all == self.presence.deep_view(),
                p == presence_of(device_key@, network_key@),
                forall|j: int| 0 <= j < i ==> !p(#[trigger] all[j]),
            decreases self.presence.len() - i,
        {
            assert(all[i as int] == self.presence@[i as int].deep_view());
            if str_eq(self.presence[i].device_key.as_str(), device_key) && str_eq(
                self.presence[i].network_key.as_str(),
                network_key,
            ) {
                proof {
                    assert(seqs::is_first(all, p, i as int));
                    seqs::lemma_first_is(all, p, i as int);
                }
                return Some(i);
            }
            i = i + 1;
        }
        proof {
            seqs::lemma_first_none(all, p);
        }
        None
    }

    /// Every device recorded on a network.
    pub fn presence_for_network(&self, network_key: &str) -> (r: Result<
        Vec<PresenceRow>,
        StoreError,
    >)
        ensures
            r is Ok,
            r.unwrap().deep_view() == self.deep_view().presence.filter(
                networks::on_network(network_key@),
            ),
    {
        let ghost all = self.presence.deep_view();
        let ghost p = networks::on_network(network_key@);
        let mut out: Vec<PresenceRow> = Vec::new();
        let mut i: usize = 0;
        assert(all.take(0).filter(p) == Seq::<PresenceRecord>::empty());
        while i < self.presence.len()
            invariant
                i <= self.presence.len(),
                all == self.presence.deep_view(),
                p == networks::on_network(network_key@),
                out.deep_view() == all.take(i as int).filter(p),
            decreases self.presence.len() - i,
        {
            assert(all.take(i + 1) == all.take(i as int).push(all[i as int]));
            assert(all[i as int] == self.presence@[i as int].deep_view());
            proof {
                seqs::lemma_filter_push(all.take(i as int), all[i as int], p);
            }
            if str_eq(self.presence[i].network_key.as_str(), network_key) {
                let ghost so_far = out.deep_view();
                let row = self.presence[i].copied();
                let ghost model = row.deep_view();
                out.push(row);
                assert(out.deep_view() == so_far.push(model));
            }
            i = i + 1;
        }
        assert(all.take(all.len() as int) == all);
        Ok(out)
    }

    /// Record that a device was seen on a network at a time.
    pub fn upsert_presence_at(
        &mut self,
        device_key: &str,
        network_key: &str,
        last_ip: Option<&str>,
        t: i64,
    ) -> (r: Result<(), StoreError>)
        requires
            old(self).deep_view().wf(),
        ensures
            r is Ok,
            final(self).deep_view() == (StoreModel {
                presence: presence_seen(
                    old(self).deep_view().presence,
                    device_key@,
                    network_key@,
                    last_ip.deep_view(),
                    t,
                ),
                ..old(self).deep_view()
            }),
            final(self).deep_view().wf(),
    {
        let ghost before = self.presence.deep_view();
        let ghost want = presence_seen(before, device_key@, network_key@, last_ip.deep_view(), t);
        proof {
            lemma_presence_index(before, device_key@, network_key@);
        }
        match self.find_presence(device_key, network_key) {
            Some(i) => {
                assert(before[i as int] == self.presence@[i as int].deep_view());
                self.presence[i].last_seen = t;
                self.presence[i].miss_streak = 0;
                self.presence[i].reported_gone = false;
                if last_ip.is_some() {
                    self.presence[i].last_ip = own_opt(last_ip);
                }
                assert(self.presence.deep_view() == want);
                proof {
                    lemma_presence_update(before, i as int, want[i as int]);
                }
            },
            None => {
                self.presence.push(
                    PresenceRow {
                        device_key: device_key.to_string(),
                        network_key: network_key.to_string(),
                        first_seen: t,
                        last_seen: t,
                        miss_streak: 0,
                        last_ip: own_opt(last_ip),
                        reported_gone: false,
                    },
                );
                assert(self.presence.deep_view() == want);
                proof {
                    lemma_presence_push(before, want.last());
                }
            },
        }
        Ok(())
    }

    /// Record that a device was seen on a network now.
    pub fn upsert_presence(
        &mut self,
        device_key: &str,
        network_key: &str,
        last_ip: Option<&str>,
    ) -> (r: Result<(), StoreError>)
        requires
            old(self).deep_view().wf(),
        ensures
            r is Ok,
            exists|t: i64|
                final(self).deep_view() == (StoreModel {
                    presence: #[trigger] presence_seen(
                        old(self).deep_view().presence,
                        device_key@,
                        network_key@,
                        last_ip.deep_view(),
                        t,
                    ),
                    ..old(self).deep_view()
                }),
            final(self).deep_view().wf(),
    {
        self.upsert_presence_at(device_key, network_key, last_ip, now())
    }

    /// Lengthen the streak of a device that was missed, if it is recorded.
    fn lengthen_streak(&mut self, device_key: &str, network_key: &str) -> (r: Result<
        Option<i64>,
        StoreError,
    >)
        requires
            old(self).deep_view().wf(),
        ensures
            ({
                let s = old(self).deep_view().presence;
                if streak_is_full(s, device_key@, network_key@) {
                    r == Err::<Option<i64>, StoreError>(StoreError::Range)
                        && final(self).deep_view() == old(self).deep_view()
                } else {
                    r == Ok::<Option<i64>, StoreError>(
                        match presence_at(s, device_key@, network_key@) {
                            Some(p) => Some((p.miss_streak + 1) as i64),
                            None => None,
                        },
                    ) && final(self).deep_view() == (StoreModel {
                        presence: presence_missed(s, device_key@, network_key@),
                        ..old(self).deep_view()
                    })
                }
            }),
            final(self).deep_view().wf(),
    {
        let ghost before = self.presence.deep_view();
        let ghost want = presence_missed(before, device_key@, network_key@);
        proof {
            lemma_presence_index(before, device_key@, network_key@);
        }
        match self.find_presence(device_key, network_key) {
            Some(i) => {
                assert(before[i as int] == self.presence@[i as int].deep_view());
                if self.presence[i].miss_streak == i64::MAX {
                    return Err(StoreError::Range);
                }
                let streak: i64 = self.presence[i].miss_streak + 1;
                self.presence[i].miss_streak = streak;
                assert(self.presence.deep_view() == want);
                proof {
                    lemma_presence_update(before, i as int, want[i as int]);
                }
                Ok(Some(streak))
            },
            None => Ok(None),
        }
    }

    /// Lengthen the streak of a device that was missed; the longer streak.
    pub fn bump_miss_streak(&mut self, device_key: &str, network_key: &str) -> (r: Result<
        i64,
        StoreError,
    >)
        requires
            old(self).deep_view().wf(),
        ensures
            ({
                let s = old(self).deep_view().presence;
                match presence_at(s, device_key@, network_key@) {
                    Some(p) => if p.miss_streak == i64::MAX {
                        r == Err::<i64, StoreError>(StoreError::Range) && final(self).deep_view()
                            == old(self).deep_view()
                    } else {
                        r == Ok::<i64, StoreError>((p.miss_streak + 1) as i64)
                            && final(self).deep_view() == (StoreModel {
                            presence: presence_missed(s, device_key@, network_key@),
                            ..old(self).deep_view()
                        })
                    },
                    None => r == Err::<i64, StoreError>(StoreError::NoRow)
                        && final(self).deep_view() == old(self).deep_view(),
                }
            }),
            final(self).deep_view().wf(),
    {
        match self.lengthen_streak(device_key, network_key) {
            Ok(Some(n)) => Ok(n),
            Ok(None) => Err(StoreError::NoRow),
            Err(e) => Err(e),
        }
    }

    /// Presence upsert inside an open transaction (atomic with the scan).
    pub fn upsert_presence_tx(
        tx: &mut Transaction,
        device_key: &str,
        network_key: &str,
        last_ip: Option<&str>,
        t: i64,
    ) -> (r: Result<(), StoreError>)
        requires
            old(tx).deep_view().wf(),
        ensures
            r is Ok,
            final(tx).deep_view() == (StoreModel {
                presence: presence_seen(
                    old(tx).deep_view().presence,
                    device_key@,
                    network_key@,
                    last_ip.deep_view(),
                    t,
                ),
                ..old(tx).deep_view()
            }),
            final(tx).deep_view().wf(),
    {
        tx.work.upsert_presence_at(device_key, network_key, last_ip, t)
    }

    /// Lengthen a streak inside an open transaction; a device that is not
    /// recorded stays so.
    pub fn bump_miss_streak_tx(tx: &mut Transaction, device_key: &str, network_key: &str) -> (r:
        Result<(), StoreError>)
        requires
            old(tx).deep_view().wf(),
        ensures
            ({
                let s = old(tx).deep_view().presence;
                if streak_is_full(s, device_key@, network_key@) {
                    r == Err::<(), StoreError>(StoreError::Range) && final(tx).deep_view() == old(
                        tx,
                    ).deep_view()
                } else {
                    r is Ok && final(tx).deep_view() == (StoreModel {
                        presence: presence_missed(s, device_key@, network_key@),
                        ..old(tx).deep_view()
                    })
                }
            }),
            final(tx).deep_view().wf(),
    {
        match tx.work.lengthen_streak(device_key, network_key) {
            Ok(_) => Ok(()),
            Err(e) => Err(e),
        }
    }

    /// Record that a `gone` transition has been emitted for this absence.
    pub fn mark_reported_gone_tx(tx: &mut Transaction, device_key: &str, network_key: &str) -> (r:
        Result<(), StoreError>)
        requires
            old(tx).deep_view().wf(),
        ensures
            r is Ok,
            final(tx).deep_view() == (StoreModel {
                presence: presence_gone(old(tx).deep_view().presence, device_key@, network_key@),
                ..old(tx).deep_view()
            }),
            final(tx).deep_view().wf(),
    {
        let ghost before = tx.work.presence.deep_view();
        let ghost want = presence_gone(before, device_key@, network_key@);
        proof {
            lemma_presence_index(before, device_key@, network_key@);
        }
        match tx.work.find_presence(device_key, network_key) {
            Some(i) => {
                assert(before[i as int] == tx.work.presence@[i as int].deep_view());
                tx.work.presence[i].reported_gone = true;
                assert(tx.work.presence.deep_view() == want);
                proof {
                    lemma_presence_update(before, i as int, want[i as int]);
                }
            },
            None => {},
        }
        Ok(())
    }
}

/// A device that is seen starts a new count: its streak is zero, its absence
/// can be announced again, and no other presence changes.
pub proof fn law_seeing_resets_the_streak(
    s: Seq<PresenceRecord>,
    device: Seq<char>,
    network: Seq<char>,
    last_ip: Option<Seq<char>>,
    t: i64,
)
    requires
        crate::store::presence_unique(s),
    ensures
        ({
            let n = presence_seen(s, device, network, last_ip, t);
            &&& presence_at(n, device, network) is Some
            &&& presence_at(n, device, network).unwrap().miss_streak == 0
            &&& !presence_at(n, device, network).unwrap().reported_gone
            &&& presence_at(n, device, network).unwrap().last_seen == t
            &&& last_ip is Some ==> presence_at(n, device, network).unwrap().last_ip == last_ip
            &&& forall|d: Seq<char>, k: Seq<char>|
                d != device || k != network ==> #[trigger] presence_at(n, d, k) == presence_at(
                    s,
                    d,
                    k,
                )
        }),
{
    let n = presence_seen(s, device, network, last_ip, t);
    lemma_presence_index(s, device, network);
    match presence_index(s, device, network) {
        Some(i) => {
            lemma_presence_update(s, i, n[i]);
        },
        None => {
            lemma_presence_push(s, n.last());
        },
    }
    assert forall|d: Seq<char>, k: Seq<char>|
        d != device || k != network implies #[trigger] presence_at(n, d, k) == presence_at(
        s,
        d,
        k,
    ) by {
        lemma_presence_index(s, d, k);
    }
}

/// A miss lengthens the streak by one and changes nothing else.
pub proof fn law_missing_lengthens_the_streak(
    s: Seq<PresenceRecord>,
    device: Seq<char>,
    network: Seq<char>,
)
    requires
        crate::store::presence_unique(s),
        presence_at(s, device, network) is Some,
        !streak_is_full(s, device, network),
    ensures
        ({
            let n = presence_missed(s, device, network);
            let p = presence_at(s, device, network).unwrap();
            &&& presence_at(n, device, network) == Some(
                PresenceRecord { miss_streak: (p.miss_streak + 1) as i64, ..p },
            )
            &&& forall|d: Seq<char>, k: Seq<char>|
                d != device || k != network ==> #[trigger] presence_at(n, d, k) == presence_at(
                    s,
                    d,
                    k,
                )
        }),
{
    let n = presence_missed(s, device, network);
    lemma_presence_index(s, device, network);
    let i = presence_index(s, device, network).unwrap();
    lemma_presence_update(s, i, n[i]);
    assert forall|d: Seq<char>, k: Seq<char>|
        d != device || k != network implies #[trigger] presence_at(n, d, k) == presence_at(
        s,
        d,
        k,
    ) by {
        lemma_presence_index(s, d, k);
    }
}

/// An announced absence stays announced until the device is seen again: a
/// further miss does not forget it.
pub proof fn law_announcement_is_remembered(
    s: Seq<PresenceRecord>,
    device: Seq<char>,
    network: Seq<char>,
)
    requires
        crate::store::presence_unique(s),
        presence_at(s, device, network) is Some,
    ensures
        presence_at(presence_gone(s, device, network), device, network) == Some(
            PresenceRecord { reported_gone: true, ..presence_at(s, device, network).unwrap() },
        ),
        presence_at(
            presence_missed(presence_gone(s, device, network), device, network),
            device,
            network,
        ).unwrap().reported_gone,
{
    let g = presence_gone(s, device, network);
    lemma_presence_index(s, device, network);
    let i = presence_index(s, device, network).unwrap();
    lemma_presence_update(s, i, g[i]);
    let n = presence_missed(g, device, network);
    lemma_presence_update(g, i, n[i]);
}

/// What seeing a device on a network does to its row, field by field: the
/// address stays where none is given, the first sight stays, and a device that
/// has no row there gets one.
pub proof fn law_presence_is_kept(
    s: Seq<PresenceRecord>,
    device: Seq<char>,
    network: Seq<char>,
    last_ip: Option<Seq<char>>,
    t: i64,
)
    requires
        crate::store::presence_unique(s),
    ensures
        ({
            let n = presence_seen(s, device, network, last_ip, t);
            &&& forall|i: int|
                0 <= i < s.len() && (#[trigger] s[i]).device_key == device && s[i].network_key
                    == network ==> n.len() == s.len() && n[i] == (PresenceRecord {
                    device_key: device,
                    network_key: network,
                    first_seen: s[i].first_seen,
                    last_seen: t,
                    miss_streak: 0,
                    last_ip: if last_ip is Some {
                        last_ip
                    } else {
                        s[i].last_ip
                    },
                    reported_gone: false,
                })
            &&& (forall|i: int|
                0 <= i < s.len() ==> (#[trigger] s[i]).device_key != device || s[i].network_key
                    != network) ==> n.len() == s.len() + 1 && n.last() == (PresenceRecord {
                device_key: device,
                network_key: network,
                first_seen: t,
                last_seen: t,
                miss_streak: 0,
                last_ip,
                reported_gone: false,
            })
            &&& forall|i: int|
                0 <= i < s.len() && ((#[trigger] s[i]).device_key != device || s[i].network_key
                    != network) ==> n[i] == s[i]
        }),
{
    lemma_presence_index(s, device, network);
    assert forall|i: int|
        0 <= i < s.len() && (#[trigger] s[i]).device_key == device && s[i].network_key
            == network implies presence_index(s, device, network) == Some(i) by {
        lemma_presence_found(s, i);
    }
}

/// What a miss, and the announcement of an absence, do to a row: the streak
/// grows by one, the mark is set, and everything else stays.
pub proof fn law_misses_and_marks(
    s: Seq<PresenceRecord>,
    device: Seq<char>,
    network: Seq<char>,
    i: int,
)
    requires
        crate::store::presence_unique(s),
        0 <= i < s.len(),
    ensures
        presence_missed(s, device, network).len() == s.len(),
        presence_gone(s, device, network).len() == s.len(),
        s[i].device_key == device && s[i].network_key == network && s[i].miss_streak < i64::MAX ==> {
            let a = presence_missed(s, device, network)[i];
            let b = presence_gone(s, device, network)[i];
            &&& a.miss_streak == s[i].miss_streak + 1
            &&& a.device_key == device && a.network_key == network && a.first_seen
                == s[i].first_seen && a.last_seen == s[i].last_seen && a.last_ip == s[i].last_ip
                && a.reported_gone == s[i].reported_gone
            &&& b.reported_gone
            &&& b.device_key == device && b.network_key == network && b.first_seen
                == s[i].first_seen && b.last_seen == s[i].last_seen && b.last_ip == s[i].last_ip
                && b.miss_streak == s[i].miss_streak
        },
        s[i].device_key != device || s[i].network_key != network ==> presence_missed(
            s,
            device,
            network,
        )[i] == s[i] && presence_gone(s, device, network)[i] == s[i],
{
    lemma_presence_index(s, device, network);
    lemma_presence_found(s, i);
}

} // verus!
