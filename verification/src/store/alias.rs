//! Aliases between device keys.
//!
//! A device that gains a name gets a new key. Its old key stays known as an
//! alias, and everything recorded under it moves to the new one.

use vstd::prelude::*;
use vstd::string::*;

use crate::store::devices;
use crate::store::names;
use crate::store::rows;
use crate::store::rows::{
    copy_rows, find_row, repoint, rows_unique, AliasRecord, AliasRow, Copied, DeviceRecord,
    DeviceRow, NameRow, ObservationRow, PresenceRow, TransitionRow,
};
use crate::store::{Store, StoreError, StoreModel};
use crate::text::str_eq;
use crate::util::now;

verus! {

/// The key that an alias stands for, where it stands for another.
pub open spec fn alias_target(s: Seq<AliasRecord>, key: Seq<char>) -> Option<Seq<char>> {
    match rows::row_index::<AliasRow>(s, key) {
        Some(i) => if s[i].canonical_key != key {
            Some(s[i].canonical_key)
        } else {
            None
        },
        None => None,
    }
}

/// The key reached by following aliases, at most `depth` times.
pub open spec fn followed(s: Seq<AliasRecord>, key: Seq<char>, depth: nat) -> Seq<char>
    decreases depth,
{
    if depth == 0 {
        key
    } else {
        match alias_target(s, key) {
            Some(next) => followed(s, next, (depth - 1) as nat),
            None => key,
        }
    }
}

/// The canonical key of a device.
pub open spec fn resolved(s: Seq<AliasRecord>, key: Seq<char>) -> Seq<char> {
    followed(s, key, 8)
}

/// The aliases after one was set; an alias that was there keeps its date.
pub open spec fn with_alias(
    s: Seq<AliasRecord>,
    alias: Seq<char>,
    canonical: Seq<char>,
    t: i64,
) -> Seq<AliasRecord> {
    match rows::row_index::<AliasRow>(s, alias) {
        Some(i) => s.update(i, AliasRecord { canonical_key: canonical, ..s[i] }),
        None => s.push(AliasRecord { alias_key: alias, canonical_key: canonical, created_at: t }),
    }
}

/// The device row of an alias has to be carried over: the canonical key has
/// none.
pub open spec fn must_carry(s: Seq<DeviceRecord>, alias: Seq<char>, canonical: Seq<char>) -> bool {
    rows::row_index::<DeviceRow>(s, alias) is Some && rows::row_index::<DeviceRow>(
        s,
        canonical,
    ) is None
}

/// The store with the alias set and the device row carried over.
pub open spec fn with_carried(
    m: StoreModel,
    alias: Seq<char>,
    canonical: Seq<char>,
    t: i64,
) -> StoreModel {
    let aliases = rows::repointed::<AliasRow>(
        with_alias(m.aliases, alias, canonical, t),
        alias,
        canonical,
    );
    if must_carry(m.devices, alias, canonical) && m.device_seq < i64::MAX {
        let d = m.devices[rows::row_index::<DeviceRow>(m.devices, alias).unwrap()];
        StoreModel {
            aliases,
            devices: m.devices.push(
                DeviceRecord { id: (m.device_seq + 1) as i64, key: canonical, ..d },
            ),
            device_seq: (m.device_seq + 1) as i64,
            ..m
        }
    } else {
        StoreModel { aliases, ..m }
    }
}

/// The store with presence and history moved to the canonical key.
pub open spec fn with_history_moved(
    m: StoreModel,
    alias: Seq<char>,
    canonical: Seq<char>,
) -> StoreModel {
    StoreModel {
        presence: rows::repointed::<PresenceRow>(m.presence, alias, canonical),
        observations: rows::repointed::<ObservationRow>(m.observations, alias, canonical),
        transitions: rows::repointed::<TransitionRow>(m.transitions, alias, canonical),
        ..m
    }
}

/// The devices without the superseded one.
pub open spec fn without_device(
    s: Seq<DeviceRecord>,
    alias: Seq<char>,
    canonical: Seq<char>,
) -> Seq<DeviceRecord> {
    match rows::row_index::<DeviceRow>(s, alias) {
        Some(i) => if alias != canonical {
            s.remove(i)
        } else {
            s
        },
        None => s,
    }
}

/// What setting an alias does, and how it ends. Each table is changed by
/// itself, in this order: what was done before a conflict stays done.
pub open spec fn aliased(
    m: StoreModel,
    alias: Seq<char>,
    canonical_key: Seq<char>,
    t: i64,
) -> (StoreModel, Option<StoreError>) {
    if alias == canonical_key {
        (m, None)
    } else {
        let c = resolved(m.aliases, canonical_key);
        let m1 = with_carried(m, alias, c, t);
        let m2 = with_history_moved(m1, alias, c);
        let names = rows::repointed::<NameRow>(m.names, alias, c);
        if must_carry(m.devices, alias, c) && m.device_seq == i64::MAX {
            (m1, Some(StoreError::Full))
        } else if !crate::store::presence_unique(m2.presence) {
            (m1, Some(StoreError::Conflict))
        } else if !rows::unique::<NameRow>(names) {
            (m2, Some(StoreError::Conflict))
        } else {
            (StoreModel { names, devices: without_device(m2.devices, alias, c), ..m2 }, None)
        }
    }
}

/// Whether no device is on a network twice.
pub fn presence_is_unique(rows: &Vec<PresenceRow>) -> (r: bool)
    ensures
        r == crate::store::presence_unique(rows.deep_view()),
{
    let ghost all = rows.deep_view();
    let mut i: usize = 0;
    while i < rows.len()
        invariant
            i <= rows.len(),
            all == rows.deep_view(),
            forall|a: int, b: int|
                0 <= a < i && a < b < all.len() ==> (#[trigger] all[a]).device_key != (
                #[trigger] all[b]).device_key || all[a].network_key != all[b].network_key,
        decreases rows.len() - i,
    {
        assert(all[i as int] == rows@[i as int].deep_view());
        let mut j: usize = i + 1;
        while j < rows.len()
            invariant
                i < j <= rows.len(),
                all == rows.deep_view(),
                all[i as int] == rows@[i as int].deep_view(),
                forall|b: int|
                    i < b < j ==> all[i as int].device_key != (#[trigger] all[b]).device_key
                        || all[i as int].network_key != all[b].network_key,
            decreases rows.len() - j,
        {
            assert(all[j as int] == rows@[j as int].deep_view());
            if str_eq(rows[i].device_key.as_str(), rows[j].device_key.as_str()) && str_eq(
                rows[i].network_key.as_str(),
                rows[j].network_key.as_str(),
            ) {
                assert(all[i as int].device_key == all[j as int].device_key);
                return false;
            }
            j = j + 1;
        }
        i = i + 1;
    }
    true
}

impl Store {
    /// Walk the alias table to the canonical key for `key` (depth-capped).
    pub fn resolve_alias(&self, key: &str) -> (r: Result<String, StoreError>)
        ensures
            r is Ok,
            r.unwrap()@ == resolved(self.deep_view().aliases, key@),
    {
        Ok(self.canonical_key(key))
    }

    /// The canonical key for a key.
    pub fn canonical_key(&self, key: &str) -> (r: String)
        ensures
            r@ == resolved(self.deep_view().aliases, key@),
    {
        let ghost all = self.aliases.deep_view();
        let mut current = key.to_string();
        let mut left: u8 = 8;
        while left > 0
            invariant
                left <= 8,
                all == self.aliases.deep_view(),
                resolved(all, key@) == followed(all, current@, left as nat),
            decreases left,
        {
            match find_row(&self.aliases, current.as_str()) {
                Some(i) => {
                    assert(all[i as int] == self.aliases@[i as int].deep_view());
                    if str_eq(self.aliases[i].canonical_key.as_str(), current.as_str()) {
                        return current;
                    }
                    current = self.aliases[i].canonical_key.clone();
                },
                None => {
                    return current;
                },
            }
            left = left - 1;
        }
        current
    }

    /// Set or add an alias row, then re-point what aliased to the alias.
    fn put_alias(&mut self, alias: &str, canonical: &str, t: i64)
        requires
            old(self).deep_view().wf(),
        ensures
            final(self).deep_view() == (StoreModel {
                aliases: rows::repointed::<AliasRow>(
                    with_alias(old(self).deep_view().aliases, alias@, canonical@, t),
                    alias@,
                    canonical@,
                ),
                ..old(self).deep_view()
            }),
            final(self).deep_view().wf(),
    {
        let ghost before = self.aliases.deep_view();
        let ghost mid = with_alias(before, alias@, canonical@, t);
        match find_row(&self.aliases, alias) {
            Some(i) => {
                self.aliases[i].canonical_key = canonical.to_string();
                assert(self.aliases.deep_view() == mid);
                proof {
                    rows::lemma_update_unique::<AliasRow>(before, i as int, mid[i as int]);
                }
            },
            None => {
                self.aliases.push(
                    AliasRow {
                        alias_key: alias.to_string(),
                        canonical_key: canonical.to_string(),
                        created_at: t,
                    },
                );
                assert(self.aliases.deep_view() == mid);
                proof {
                    rows::lemma_push_unique::<AliasRow>(before, mid.last());
                }
            },
        }
        repoint(&mut self.aliases, alias, canonical);
        let ghost after = self.aliases.deep_view();
        assert(rows::unique::<AliasRow>(after)) by {
            assert forall|i: int| 0 <= i < mid.len() implies (#[trigger] after[i]).alias_key
                == mid[i].alias_key by {}
        }
    }

    /// Carry the device row over if the canonical key has none.
    fn carry_device(&mut self, alias: &str, canonical: &str) -> (r: Result<(), StoreError>)
        requires
            old(self).deep_view().wf(),
        ensures
            r == (if must_carry(old(self).deep_view().devices, alias@, canonical@) && old(
                self,
            ).deep_view().device_seq == i64::MAX {
                Err(StoreError::Full)
            } else {
                Ok::<(), StoreError>(())
            }),
            ({
                let m = old(self).deep_view();
                final(self).deep_view() == if must_carry(m.devices, alias@, canonical@)
                    && m.device_seq < i64::MAX {
                    StoreModel {
                        devices: m.devices.push(
                            DeviceRecord {
                                id: (m.device_seq + 1) as i64,
                                key: canonical@,
                                ..m.devices[rows::row_index::<DeviceRow>(
                                    m.devices,
                                    alias@,
                                ).unwrap()]
                            },
                        ),
                        device_seq: (m.device_seq + 1) as i64,
                        ..m
                    }
                } else {
                    m
                }
            }),
            final(self).deep_view().wf(),
    {
        let ghost before = self.devices.deep_view();
        if find_row(&self.devices, canonical).is_some() {
            return Ok(());
        }
        match find_row(&self.devices, alias) {
            None => Ok(()),
            Some(i) => {
                if self.device_seq == i64::MAX {
                    return Err(StoreError::Full);
                }
                let mut d = self.devices[i].copied();
                assert(d.deep_view() == before[i as int]);
                self.device_seq = self.device_seq + 1;
                d.id = self.device_seq;
                d.key = canonical.to_string();
                let ghost model = d.deep_view();
                self.devices.push(d);
                assert(self.devices.deep_view() == before.push(model));
                proof {
                    rows::lemma_push_unique::<DeviceRow>(before, model);
                }
                Ok(())
            },
        }
    }

    /// Move presence and history to the canonical key.
    fn move_history(&mut self, alias: &str, canonical: &str) -> (r: Result<(), StoreError>)
        requires
            old(self).deep_view().wf(),
        ensures
            ({
                let m = with_history_moved(old(self).deep_view(), alias@, canonical@);
                if crate::store::presence_unique(m.presence) {
                    r is Ok && final(self).deep_view() == m
                } else {
                    r == Err::<(), StoreError>(StoreError::Conflict) && final(self).deep_view()
                        == old(self).deep_view()
                }
            }),
            final(self).deep_view().wf(),
    {
        let ghost m = self.deep_view();
        let ghost want = with_history_moved(m, alias@, canonical@);
        let mut moved = copy_rows(&self.presence);
        repoint(&mut moved, alias, canonical);
        if !presence_is_unique(&moved) {
            return Err(StoreError::Conflict);
        }
        self.presence = moved;
        repoint(&mut self.observations, alias, canonical);
        repoint(&mut self.transitions, alias, canonical);
        proof {
            assert(self.deep_view() == want);
            assert forall|i: int| 0 <= i < want.observations.len() implies crate::store::has_scan(
                want.scans,
                (#[trigger] want.observations[i]).scan_id,
            ) by {
                assert(crate::store::has_scan(m.scans, m.observations[i].scan_id));
            }
            assert forall|i: int| 0 <= i < want.transitions.len() implies crate::store::has_scan(
                want.scans,
                (#[trigger] want.transitions[i]).scan_id,
            ) && want.transitions[i].id == m.transitions[i].id by {
                assert(crate::store::has_scan(m.scans, m.transitions[i].scan_id));
            }
            assert forall|i: int, j: int| 0 <= i < j < want.transitions.len() implies (
            #[trigger] want.transitions[i]).id < (#[trigger] want.transitions[j]).id by {
                assert(m.transitions[i].id < m.transitions[j].id);
            }
        }
        Ok(())
    }

    /// Remove the superseded device row.
    fn drop_device(&mut self, alias: &str, canonical: &str)
        requires
            old(self).deep_view().wf(),
        ensures
            final(self).deep_view() == (StoreModel {
                devices: without_device(old(self).deep_view().devices, alias@, canonical@),
                ..old(self).deep_view()
            }),
            final(self).deep_view().wf(),
    {
        let ghost before = self.devices.deep_view();
        if str_eq(alias, canonical) {
            return;
        }
        match find_row(&self.devices, alias) {
            Some(i) => {
                let ghost raw = self.devices@;
                let dropped = self.devices.remove(i);
                assert(self.devices@ == raw.remove(i as int));
                assert(self.devices.deep_view() == before.remove(i as int)) by {
                    assert forall|k: int| 0 <= k < self.devices@.len() implies (
                    #[trigger] self.devices@[k]).deep_view() == before.remove(i as int)[k] by {}
                }
                proof {
                    rows::lemma_remove_unique::<DeviceRow>(before, i as int);
                    let after = before.remove(i as int);
                    assert(crate::store::device_ids_ok(after, self.device_seq)) by {
                        assert forall|a: int, b: int| 0 <= a < b < after.len() implies (
                        #[trigger] after[a]).id != (#[trigger] after[b]).id by {}
                    }
                }
            },
            None => {},
        }
    }

    /// Make one key stand for another from a time on, and move everything
    /// recorded under it.
    pub fn add_alias_at(&mut self, alias_key: &str, canonical_key: &str, t: i64) -> (r: Result<
        (),
        StoreError,
    >)
        requires
            old(self).deep_view().wf(),
        ensures
            final(self).deep_view() == aliased(old(self).deep_view(), alias_key@, canonical_key@, t).0,
            r == (match aliased(old(self).deep_view(), alias_key@, canonical_key@, t).1 {
                Some(e) => Err(e),
                None => Ok::<(), StoreError>(()),
            }),
            final(self).deep_view().wf(),
    {
        if str_eq(alias_key, canonical_key) {
            return Ok(());
        }
        // Never create cycles: if canonical already aliases elsewhere, resolve.
        let canonical = self.canonical_key(canonical_key);
        let c = canonical.as_str();
        let ghost m = self.deep_view();
        self.put_alias(alias_key, c, t);
        if let Err(e) = self.carry_device(alias_key, c) {
            assert(self.deep_view() == with_carried(m, alias_key@, c@, t));
            return Err(e);
        }
        assert(self.deep_view() == with_carried(m, alias_key@, c@, t));
        if let Err(e) = self.move_history(alias_key, c) {
            return Err(e);
        }
        let mut names = copy_rows(&self.names);
        repoint(&mut names, alias_key, c);
        if !rows_unique(&names) {
            return Err(StoreError::Conflict);
        }
        self.names = names;
        self.drop_device(alias_key, c);
        Ok(())
    }

    /// Make one key stand for another, and move everything recorded under it.
    pub fn add_alias(&mut self, alias_key: &str, canonical_key: &str) -> (r: Result<(), StoreError>)
        requires
            old(self).deep_view().wf(),
        ensures
            exists|t: i64|
                final(self).deep_view() == (#[trigger] aliased(
                    old(self).deep_view(),
                    alias_key@,
                    canonical_key@,
                    t,
                )).0 && r == (match aliased(
                    old(self).deep_view(),
                    alias_key@,
                    canonical_key@,
                    t,
                ).1 {
                    Some(e) => Err(e),
                    None => Ok::<(), StoreError>(()),
                }),
            final(self).deep_view().wf(),
    {
        self.add_alias_at(alias_key, canonical_key, now())
    }
}

// ----- what holds of aliases -----

/// No alias leads to a key that is itself an alias: one step is enough.
pub open spec fn flat(s: Seq<AliasRecord>) -> bool {
    forall|i: int| 0 <= i < s.len() ==> alias_target(s, (#[trigger] s[i]).canonical_key) is None
}

/// Where aliases are flat, following them ends after one step at a key that is
/// no alias.
pub proof fn law_flat_resolves(s: Seq<AliasRecord>, key: Seq<char>)
    requires
        flat(s),
    ensures
        resolved(s, key) == (match alias_target(s, key) {
            Some(c) => c,
            None => key,
        }),
        alias_target(s, resolved(s, key)) is None,
        resolved(s, resolved(s, key)) == resolved(s, key),
{
    rows::lemma_row_index::<AliasRow>(s, key);
    match alias_target(s, key) {
        Some(c) => {
            let i = rows::row_index::<AliasRow>(s, key).unwrap();
            assert(s[i].canonical_key == c);
            assert(followed(s, c, 7) == c);
        },
        None => {},
    }
}

/// The aliases after one was added and what led to it was re-pointed.
pub open spec fn aliases_after(
    s: Seq<AliasRecord>,
    alias: Seq<char>,
    c: Seq<char>,
    t: i64,
) -> Seq<AliasRecord> {
    rows::repointed::<AliasRow>(with_alias(s, alias, c, t), alias, c)
}

/// After an alias was added, keys are still unique, its row leads to the
/// canonical key, and a row whose target is another key is as it was.
proof fn lemma_aliases_after(s: Seq<AliasRecord>, alias: Seq<char>, c: Seq<char>, t: i64)
    requires
        rows::unique::<AliasRow>(s),
    ensures
        ({
            let n = aliases_after(s, alias, c, t);
            &&& rows::unique::<AliasRow>(n)
            &&& rows::row_index::<AliasRow>(n, alias) is Some
            &&& n[rows::row_index::<AliasRow>(n, alias).unwrap()].canonical_key == c
            &&& forall|key: Seq<char>|
                key != alias ==> {
                    let i = #[trigger] rows::row_index::<AliasRow>(n, key);
                    &&& i == rows::row_index::<AliasRow>(s, key)
                    &&& i is Some ==> n[i.unwrap()].canonical_key == if s[i.unwrap()].canonical_key
                        == alias {
                        c
                    } else {
                        s[i.unwrap()].canonical_key
                    }
                }
        }),
{
    let mid = with_alias(s, alias, c, t);
    let n = aliases_after(s, alias, c, t);
    rows::lemma_row_index::<AliasRow>(s, alias);
    match rows::row_index::<AliasRow>(s, alias) {
        Some(i) => {
            rows::lemma_update_unique::<AliasRow>(s, i, mid[i]);
        },
        None => {
            rows::lemma_push_unique::<AliasRow>(s, mid.last());
        },
    }
    assert forall|i: int| 0 <= i < mid.len() implies (#[trigger] n[i]).alias_key
        == mid[i].alias_key by {}
    assert(rows::unique::<AliasRow>(n)) by {
        assert forall|i: int, j: int| 0 <= i < j < n.len() implies (#[trigger] n[i]).alias_key != (
        #[trigger] n[j]).alias_key by {
            assert(mid[i].alias_key != mid[j].alias_key);
        }
    }
    assert forall|key: Seq<char>| #[trigger] rows::row_index::<AliasRow>(n, key)
        == rows::row_index::<AliasRow>(mid, key) by {
        rows::lemma_row_index::<AliasRow>(mid, key);
        rows::lemma_row_index::<AliasRow>(n, key);
        match rows::row_index::<AliasRow>(mid, key) {
            Some(k) => {
                assert(n[k].alias_key == key);
                rows::lemma_row_found::<AliasRow>(n, k);
            },
            None => {
                match rows::row_index::<AliasRow>(n, key) {
                    Some(k) => {
                        assert(mid[k].alias_key == key);
                    },
                    None => {},
                }
            },
        }
    }
    rows::lemma_row_index::<AliasRow>(mid, alias);
    assert forall|key: Seq<char>| key != alias implies {
        let i = #[trigger] rows::row_index::<AliasRow>(n, key);
        &&& i == rows::row_index::<AliasRow>(s, key)
        &&& i is Some ==> n[i.unwrap()].canonical_key == if s[i.unwrap()].canonical_key == alias {
            c
        } else {
            s[i.unwrap()].canonical_key
        }
    } by {
        rows::lemma_row_index::<AliasRow>(s, key);
        rows::lemma_row_index::<AliasRow>(mid, key);
        match rows::row_index::<AliasRow>(s, key) {
            Some(k) => {
                assert(mid[k] == s[k]);
            },
            None => {},
        }
    }
}

/// Aliases never form a chain or a cycle: they stay flat, and the new alias
/// resolves to what its target resolved to.
pub proof fn law_aliases_stay_flat(
    m: StoreModel,
    alias: Seq<char>,
    canonical_key: Seq<char>,
    t: i64,
)
    requires
        rows::unique::<AliasRow>(m.aliases),
        flat(m.aliases),
    ensures
        flat(aliased(m, alias, canonical_key, t).0.aliases),
        alias != canonical_key ==> resolved(aliased(m, alias, canonical_key, t).0.aliases, alias)
            == resolved(m.aliases, canonical_key),
{
    if alias != canonical_key {
        let s = m.aliases;
        let c = resolved(s, canonical_key);
        law_flat_resolves(s, canonical_key);
        lemma_aliases_after(s, alias, c, t);
        let n = aliases_after(s, alias, c, t);
        assert(aliased(m, alias, canonical_key, t).0.aliases == n);
        assert(alias_target(n, c) is None) by {
            rows::lemma_row_index::<AliasRow>(s, c);
            if c != alias {
                assert(rows::row_index::<AliasRow>(n, c) == rows::row_index::<AliasRow>(s, c));
            }
        }
        assert forall|i: int| 0 <= i < n.len() implies alias_target(
            n,
            (#[trigger] n[i]).canonical_key,
        ) is None by {
            let key = n[i].alias_key;
            let x = n[i].canonical_key;
            rows::lemma_row_found::<AliasRow>(n, i);
            if x != c {
                assert(key != alias);
                assert(rows::row_index::<AliasRow>(s, key) == Some(i));
                rows::lemma_row_index::<AliasRow>(s, key);
                assert(s[i].canonical_key == x && x != alias);
                assert(alias_target(s, x) is None);
                rows::lemma_row_index::<AliasRow>(s, x);
                assert(rows::row_index::<AliasRow>(n, x) == rows::row_index::<AliasRow>(s, x));
            }
        }
        assert(flat(n));
        law_flat_resolves(n, alias);
    }
}

/// Each alias and each name stands once, and aliases are flat.
pub open spec fn orderly(m: StoreModel) -> bool {
    &&& rows::unique::<AliasRow>(m.aliases)
    &&& rows::unique::<NameRow>(m.names)
    &&& flat(m.aliases)
}

/// Where a name is found after the rows under one key were moved to another.
proof fn lemma_name_moved(s: Seq<rows::NameRecord>, alias: Seq<char>, c: Seq<char>, key: Seq<char>)
    requires
        rows::unique::<NameRow>(s),
        rows::unique::<NameRow>(rows::repointed::<NameRow>(s, alias, c)),
        names::name_at(s, key) is Some,
    ensures
        names::name_at(
            rows::repointed::<NameRow>(s, alias, c),
            if key == alias {
                c
            } else {
                key
            },
        ) == names::name_at(s, key),
{
    let n = rows::repointed::<NameRow>(s, alias, c);
    rows::lemma_row_index::<NameRow>(s, key);
    let i = rows::row_index::<NameRow>(s, key).unwrap();
    rows::lemma_row_found::<NameRow>(n, i);
}

/// Devices keep the names the user gave them when a key changes: each name is
/// found as before under every key that its device is known by.
pub proof fn law_alias_keeps_the_names(
    m: StoreModel,
    alias: Seq<char>,
    canonical_key: Seq<char>,
    t: i64,
)
    requires
        orderly(m),
        alias_target(m.aliases, alias) is None,
        aliased(m, alias, canonical_key, t).1 is None,
    ensures
        orderly(aliased(m, alias, canonical_key, t).0),
        forall|key: Seq<char>|
            names::user_name_of(m, key) is Some ==> #[trigger] names::user_name_of(
                aliased(m, alias, canonical_key, t).0,
                key,
            ) == names::user_name_of(m, key),
{
    if alias != canonical_key {
        let s = m.aliases;
        let c = resolved(s, canonical_key);
        let n = aliased(m, alias, canonical_key, t).0;
        law_aliases_stay_flat(m, alias, canonical_key, t);
        lemma_aliases_after(s, alias, c, t);
        assert(n.aliases == aliases_after(s, alias, c, t));
        assert(n.names == rows::repointed::<NameRow>(m.names, alias, c));
        assert forall|key: Seq<char>|
            names::user_name_of(m, key) is Some implies #[trigger] names::user_name_of(n, key)
            == names::user_name_of(m, key) by {
            let r = resolved(s, key);
            law_flat_resolves(s, key);
            law_flat_resolves(n.aliases, key);
            rows::lemma_row_index::<AliasRow>(s, key);
            rows::lemma_row_index::<AliasRow>(n.aliases, key);
            if key != alias {
                assert(rows::row_index::<AliasRow>(n.aliases, key) == rows::row_index::<AliasRow>(
                    s,
                    key,
                ));
            }
            assert(resolved(n.aliases, key) == if r == alias {
                c
            } else {
                r
            });
            lemma_name_moved(m.names, alias, c, r);
        }
    }
}

/// A device keeps its history when its key changes: nothing is recorded under
/// the old key any more, nothing was lost, and each row is as it was but for
/// the key.
pub proof fn law_alias_moves_everything(
    m: StoreModel,
    alias: Seq<char>,
    canonical_key: Seq<char>,
    t: i64,
)
    requires
        m.wf(),
        aliased(m, alias, canonical_key, t).1 is None,
        resolved(m.aliases, canonical_key) != alias,
        alias != canonical_key,
    ensures
        ({
            let n = aliased(m, alias, canonical_key, t).0;
            let c = resolved(m.aliases, canonical_key);
            &&& n.observations.len() == m.observations.len()
            &&& n.transitions.len() == m.transitions.len()
            &&& n.presence.len() == m.presence.len()
            &&& rows::row_index::<DeviceRow>(n.devices, alias) is None
            &&& forall|i: int|
                0 <= i < n.observations.len() ==> (#[trigger] n.observations[i]).device_key
                    != alias && (n.observations[i].device_key == c
                    || n.observations[i].device_key == m.observations[i].device_key)
                    && n.observations[i].ip == m.observations[i].ip && n.observations[i].at
                    == m.observations[i].at
            &&& forall|i: int|
                0 <= i < n.transitions.len() ==> (#[trigger] n.transitions[i]).device_key != alias
                    && n.transitions[i].id == m.transitions[i].id
            &&& forall|i: int|
                0 <= i < n.presence.len() ==> (#[trigger] n.presence[i]).device_key != alias
                    && n.presence[i].network_key == m.presence[i].network_key
                    && n.presence[i].miss_streak == m.presence[i].miss_streak
        }),
{
    let c = resolved(m.aliases, canonical_key);
    let n = aliased(m, alias, canonical_key, t).0;
    let m1 = with_carried(m, alias, c, t);
    rows::lemma_row_index::<DeviceRow>(m.devices, alias);
    rows::lemma_row_index::<DeviceRow>(m.devices, c);
    assert(rows::unique::<DeviceRow>(m1.devices)) by {
        if must_carry(m.devices, alias, c) && m.device_seq < i64::MAX {
            rows::lemma_push_unique::<DeviceRow>(m.devices, m1.devices.last());
        }
    }
    rows::lemma_row_index::<DeviceRow>(m1.devices, alias);
    match rows::row_index::<DeviceRow>(m1.devices, alias) {
        Some(i) => {
            rows::lemma_remove_unique::<DeviceRow>(m1.devices, i);
        },
        None => {},
    }
}

/// The row that a canonical key has once a device was aliased to it: its own,
/// or where it had none the former device's data under a new id.
pub open spec fn carried_device(m: StoreModel, alias: Seq<char>, c: Seq<char>) -> Option<
    DeviceRecord,
> {
    match (devices::device_at(m.devices, alias), devices::device_at(m.devices, c)) {
        (Some(d), None) => Some(
            DeviceRecord { id: (m.device_seq + 1) as i64, key: c, ..d },
        ),
        (_, own) => own,
    }
}

/// A key, or the one that takes its place.
pub open spec fn renamed(key: Seq<char>, from: Seq<char>, to: Seq<char>) -> Seq<char> {
    if key == from {
        to
    } else {
        key
    }
}

/// Where a device is found after its row was carried over and the superseded
/// one dropped.
proof fn lemma_device_carried(m: StoreModel, alias: Seq<char>, c: Seq<char>, t: i64)
    requires
        m.wf(),
        alias != c,
        must_carry(m.devices, alias, c) ==> m.device_seq < i64::MAX,
    ensures
        ({
            let after = without_device(with_carried(m, alias, c, t).devices, alias, c);
            &&& devices::device_at(after, alias) is None
            &&& devices::device_at(after, c) == carried_device(m, alias, c)
        }),
{
    let m1 = with_carried(m, alias, c, t);
    rows::lemma_row_index::<DeviceRow>(m.devices, alias);
    rows::lemma_row_index::<DeviceRow>(m.devices, c);
    if must_carry(m.devices, alias, c) {
        rows::lemma_push_unique::<DeviceRow>(m.devices, m1.devices.last());
    }
    rows::lemma_row_index::<DeviceRow>(m1.devices, alias);
    rows::lemma_row_index::<DeviceRow>(m1.devices, c);
    let after = without_device(m1.devices, alias, c);
    match rows::row_index::<DeviceRow>(m1.devices, alias) {
        Some(i) => {
            rows::lemma_remove_unique::<DeviceRow>(m1.devices, i);
            match rows::row_index::<DeviceRow>(m1.devices, c) {
                Some(j) => {
                    let k = if j < i {
                        j
                    } else {
                        j - 1
                    };
                    assert(after[k] == m1.devices[j]);
                    rows::lemma_row_found::<DeviceRow>(after, k);
                },
                None => {
                    rows::lemma_row_index::<DeviceRow>(after, c);
                },
            }
        },
        None => {},
    }
}

/// After an alias was added, its key reads the canonical row, which carries
/// the former device's data where the canonical key had none.
pub proof fn law_alias_reads_the_canonical_device(
    m: StoreModel,
    alias: Seq<char>,
    canonical_key: Seq<char>,
    t: i64,
)
    requires
        m.wf(),
        flat(m.aliases),
        alias != canonical_key,
        resolved(m.aliases, canonical_key) != alias,
        aliased(m, alias, canonical_key, t).1 is None,
    ensures
        ({
            let n = aliased(m, alias, canonical_key, t).0;
            let c = resolved(m.aliases, canonical_key);
            &&& resolved(n.aliases, alias) == c
            &&& devices::device_of(n, alias) == carried_device(m, alias, c)
            &&& devices::device_at(n.devices, alias) is None
        }),
{
    law_aliases_stay_flat(m, alias, canonical_key, t);
    lemma_device_carried(m, alias, resolved(m.aliases, canonical_key), t);
}

/// A device that gains a name and with it a new key keeps everything. Where
/// the new key is unknown, the aliasing succeeds; the old key and every alias
/// of it lead to the new one; the device reads as it did, under the new key;
/// its user name and notes, presence, observations and transitions are all
/// under the new key, each as it was; nothing is left under the old.
pub proof fn law_upgraded_device_keeps_everything(
    m: StoreModel,
    old_key: Seq<char>,
    new_key: Seq<char>,
    t: i64,
)
    requires
        m.wf(),
        m.device_seq < i64::MAX,
        old_key != new_key,
        devices::device_at(m.devices, old_key) is Some,
        devices::device_at(m.devices, new_key) is None,
        rows::row_index::<AliasRow>(m.aliases, new_key) is None,
        names::name_at(m.names, new_key) is None,
        forall|i: int|
            0 <= i < m.presence.len() ==> (#[trigger] m.presence[i]).device_key != new_key,
    ensures
        aliased(m, old_key, new_key, t).1 is None,
        ({
            let n = aliased(m, old_key, new_key, t).0;
            let d = devices::device_at(m.devices, old_key).unwrap();
            &&& resolved(n.aliases, old_key) == new_key
            &&& forall|key: Seq<char>|
                alias_target(m.aliases, key) == Some(old_key) ==> #[trigger] resolved(n.aliases, key)
                    == new_key
            &&& devices::device_of(n, old_key) == Some(
                DeviceRecord { id: (m.device_seq + 1) as i64, key: new_key, ..d },
            )
            &&& devices::device_at(n.devices, old_key) is None
            &&& names::user_name_of(n, old_key) == names::name_at(m.names, old_key)
            &&& names::name_at(n.names, old_key) is None
            &&& n.presence == m.presence.map_values(
                |p: rows::PresenceRecord|
                    rows::PresenceRecord { device_key: renamed(p.device_key, old_key, new_key), ..p },
            )
            &&& n.observations == m.observations.map_values(
                |o: rows::ObservationRecord|
                    rows::ObservationRecord {
                        device_key: renamed(o.device_key, old_key, new_key),
                        ..o
                    },
            )
            &&& n.transitions == m.transitions.map_values(
                |x: rows::TransitionRecord|
                    rows::TransitionRecord {
                        device_key: renamed(x.device_key, old_key, new_key),
                        ..x
                    },
            )
        }),
{
    let s = m.aliases;
    assert(resolved(s, new_key) == new_key);
    let n = aliased(m, old_key, new_key, t).0;
    let m2 = with_history_moved(with_carried(m, old_key, new_key, t), old_key, new_key);
    assert(crate::store::presence_unique(m2.presence)) by {
        assert forall|i: int, j: int| 0 <= i < j < m2.presence.len() implies (
        #[trigger] m2.presence[i]).device_key != (#[trigger] m2.presence[j]).device_key
            || m2.presence[i].network_key != m2.presence[j].network_key by {
            assert(m.presence[i].device_key != m.presence[j].device_key
                || m.presence[i].network_key != m.presence[j].network_key);
        }
    }
    let moved = rows::repointed::<NameRow>(m.names, old_key, new_key);
    rows::lemma_row_index::<NameRow>(m.names, new_key);
    assert(rows::unique::<NameRow>(moved)) by {
        assert forall|i: int, j: int| 0 <= i < j < moved.len() implies (
        #[trigger] moved[i]).device_key != (#[trigger] moved[j]).device_key by {
            assert(m.names[i].device_key != m.names[j].device_key);
        }
    }
    lemma_device_carried(m, old_key, new_key, t);
    lemma_aliases_after(s, old_key, new_key, t);
    assert(n.aliases == aliases_after(s, old_key, new_key, t));
    assert(alias_target(n.aliases, new_key) is None) by {
        assert(rows::row_index::<AliasRow>(n.aliases, new_key) is None);
    }
    reveal_with_fuel(followed, 3);
    assert(followed(n.aliases, new_key, 7) == new_key);
    assert(alias_target(n.aliases, old_key) == Some(new_key));
    assert forall|key: Seq<char>| alias_target(s, key) == Some(old_key) implies #[trigger] resolved(
        n.aliases,
        key,
    ) == new_key by {
        if key != old_key {
            assert(rows::row_index::<AliasRow>(n.aliases, key) == rows::row_index::<AliasRow>(
                s,
                key,
            ));
            assert(alias_target(n.aliases, key) == Some(new_key) || key == new_key);
        }
    }
    assert(names::name_at(moved, old_key) is None) by {
        rows::lemma_row_index::<NameRow>(moved, old_key);
    }
    if names::name_at(m.names, old_key) is Some {
        lemma_name_moved(m.names, old_key, new_key, old_key);
    } else {
        rows::lemma_row_index::<NameRow>(m.names, old_key);
        rows::lemma_row_index::<NameRow>(moved, new_key);
    }
}

} // verus!
