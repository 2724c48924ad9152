//! Names that the user gave devices.

use vstd::prelude::*;
use vstd::string::*;

use crate::store::alias;
use crate::store::rows;
use crate::store::rows::{find_row, NameRecord, NameRow};
use crate::store::{Store, StoreError, StoreModel};
use crate::text::{clone_opt, own_opt};
use crate::util::now;

verus! {

/// The names after one was given; notes stay unless new ones come.
pub open spec fn with_name(
    s: Seq<NameRecord>,
    key: Seq<char>,
    name: Seq<char>,
    notes: Option<Seq<char>>,
    t: i64,
) -> Seq<NameRecord> {
    match rows::row_index::<NameRow>(s, key) {
        Some(i) => s.update(
            i,
            NameRecord {
                name,
                notes: crate::merge::first_of(notes, s[i].notes),
                updated_at: t,
                ..s[i]
            },
        ),
        None => s.push(NameRecord { device_key: key, name, notes, updated_at: t }),
    }
}

/// The names after one was taken away.
pub open spec fn without_name(s: Seq<NameRecord>, key: Seq<char>) -> Seq<NameRecord> {
    match rows::row_index::<NameRow>(s, key) {
        Some(i) => s.remove(i),
        None => s,
    }
}

/// The name and notes under a key.
pub open spec fn name_at(s: Seq<NameRecord>, key: Seq<char>) -> Option<
    (Seq<char>, Option<Seq<char>>),
> {
    match rows::row_index::<NameRow>(s, key) {
        Some(i) => Some((s[i].name, s[i].notes)),
        None => None,
    }
}

/// The name and notes of a device, whichever of its keys is asked for.
pub open spec fn user_name_of(m: StoreModel, key: Seq<char>) -> Option<
    (Seq<char>, Option<Seq<char>>),
> {
    name_at(m.names, alias::resolved(m.aliases, key))
}

/// The name alone.
pub open spec fn just_name(v: Option<(Seq<char>, Option<Seq<char>>)>) -> Option<Seq<char>> {
    match v {
        Some(n) => Some(n.0),
        None => None,
    }
}

impl Store {
    /// Name a device at a time.
    pub fn set_user_name_at(&mut self, device_key: &str, name: &str, notes: Option<&str>, t: i64) -> (r:
        Result<(), StoreError>)
        requires
            old(self).deep_view().wf(),
        ensures
            r is Ok,
            final(self).deep_view() == (StoreModel {
                names: with_name(
                    old(self).deep_view().names,
                    alias::resolved(old(self).deep_view().aliases, device_key@),
                    name@,
                    notes.deep_view(),
                    t,
                ),
                ..old(self).deep_view()
            }),
            final(self).deep_view().wf(),
    {
        let key = self.canonical_key(device_key);
        let ghost before = self.names.deep_view();
        let ghost want = with_name(before, key@, name@, notes.deep_view(), t);
        match find_row(&self.names, key.as_str()) {
            Some(i) => {
                self.names[i].name = name.to_string();
                if notes.is_some() {
                    self.names[i].notes = own_opt(notes);
                }
                self.names[i].updated_at = t;
                assert(self.names.deep_view() == want);
                proof {
                    rows::lemma_update_unique::<NameRow>(before, i as int, want[i as int]);
                }
            },
            None => {
                self.names.push(
                    NameRow {
                        device_key: key,
                        name: name.to_string(),
                        notes: own_opt(notes),
                        updated_at: t,
                    },
                );
                assert(self.names.deep_view() == want);
                proof {
                    rows::lemma_push_unique::<NameRow>(before, want.last());
                }
            },
        }
        Ok(())
    }

    /// Name a device.
    pub fn set_user_name(&mut self, device_key: &str, name: &str, notes: Option<&str>) -> (r: Result<
        (),
        StoreError,
    >)
        requires
            old(self).deep_view().wf(),
        ensures
            r is Ok,
            exists|t: i64|
                final(self).deep_view() == (StoreModel {
                    names: #[trigger] with_name(
                        old(self).deep_view().names,
                        alias::resolved(old(self).deep_view().aliases, device_key@),
                        name@,
                        notes.deep_view(),
                        t,
                    ),
                    ..old(self).deep_view()
                }),
            final(self).deep_view().wf(),
    {
        self.set_user_name_at(device_key, name, notes, now())
    }

    /// Take a device's name away.
    pub fn clear_user_name(&mut self, device_key: &str) -> (r: Result<(), StoreError>)
        requires
            old(self).deep_view().wf(),
        ensures
            r is Ok,
            final(self).deep_view() == (StoreModel {
                names: without_name(
                    old(self).deep_view().names,
                    alias::resolved(old(self).deep_view().aliases, device_key@),
                ),
                ..old(self).deep_view()
            }),
            final(self).deep_view().wf(),
    {
        let key = self.canonical_key(device_key);
        let ghost before = self.names.deep_view();
        match find_row(&self.names, key.as_str()) {
            Some(i) => {
                let ghost raw = self.names@;
                let dropped = self.names.remove(i);
                assert(self.names@ == raw.remove(i as int));
                assert(self.names.deep_view() == before.remove(i as int)) by {
                    assert forall|k: int| 0 <= k < self.names@.len() implies (
                    #[trigger] self.names@[k]).deep_view() == before.remove(i as int)[k] by {}
                }
                proof {
                    rows::lemma_remove_unique::<NameRow>(before, i as int);
                }
            },
            None => {},
        }
        Ok(())
    }

    /// The name and notes that the user gave a device.
    pub fn get_user_name(&self, device_key: &str) -> (r: Result<
        Option<(String, Option<String>)>,
        StoreError,
    >)
        ensures
            r is Ok,
            r.unwrap().deep_view() == user_name_of(self.deep_view(), device_key@),
    {
        let key = self.canonical_key(device_key);
        Ok(
            match find_row(&self.names, key.as_str()) {
                Some(i) => Some((self.names[i].name.clone(), clone_opt(&self.names[i].notes))),
                None => None,
            },
        )
    }

    /// The name alone that stands under exactly this key.
    pub fn name_under(&self, key: &str) -> (r: Option<String>)
        ensures
            r.deep_view() == just_name(name_at(self.deep_view().names, key@)),
    {
        match find_row(&self.names, key) {
            Some(i) => Some(self.names[i].name.clone()),
            None => None,
        }
    }

    /// The name alone that the user gave a device.
    pub fn user_name(&self, device_key: &str) -> (r: Option<String>)
        ensures
            r.deep_view() == just_name(user_name_of(self.deep_view(), device_key@)),
    {
        let key = self.canonical_key(device_key);
        self.name_under(key.as_str())
    }
}

/// A device has the name it was given, under every key it is known by, and no
/// other device's name changes.
pub proof fn law_name_reads_back(
    m: StoreModel,
    key: Seq<char>,
    name: Seq<char>,
    notes: Option<Seq<char>>,
    t: i64,
)
    requires
        m.wf(),
    ensures
        ({
            let n = StoreModel {
                names: with_name(m.names, alias::resolved(m.aliases, key), name, notes, t),
                ..m
            };
            &&& just_name(user_name_of(n, key)) == Some(name)
            &&& notes is Some ==> user_name_of(n, key) == Some((name, notes))
            &&& forall|other: Seq<char>|
                alias::resolved(m.aliases, other) != alias::resolved(m.aliases, key)
                    ==> #[trigger] user_name_of(n, other) == user_name_of(m, other)
        }),
{
    let k = alias::resolved(m.aliases, key);
    let s = m.names;
    let t2 = with_name(s, k, name, notes, t);
    rows::lemma_row_index::<NameRow>(s, k);
    match rows::row_index::<NameRow>(s, k) {
        Some(i) => {
            rows::lemma_update_unique::<NameRow>(s, i, t2[i]);
        },
        None => {
            rows::lemma_push_unique::<NameRow>(s, t2.last());
        },
    }
    let n = StoreModel { names: t2, ..m };
    assert forall|other: Seq<char>|
        alias::resolved(m.aliases, other) != k implies #[trigger] user_name_of(n, other)
        == user_name_of(m, other) by {
        rows::lemma_row_index::<NameRow>(s, alias::resolved(m.aliases, other));
    }
}

/// A name taken away is gone.
pub proof fn law_cleared_name_is_gone(m: StoreModel, key: Seq<char>)
    requires
        m.wf(),
    ensures
        user_name_of(
            StoreModel { names: without_name(m.names, alias::resolved(m.aliases, key)), ..m },
            key,
        ) is None,
{
    let k = alias::resolved(m.aliases, key);
    rows::lemma_row_index::<NameRow>(m.names, k);
    match rows::row_index::<NameRow>(m.names, k) {
        Some(i) => {
            rows::lemma_remove_unique::<NameRow>(m.names, i);
        },
        None => {},
    }
}

/// Naming a device writes its one row: the name and the time are the new ones,
/// the notes are the new ones where there are any and the old ones where there
/// are none. No other row changes.
pub proof fn law_name_row(
    s: Seq<NameRecord>,
    key: Seq<char>,
    name: Seq<char>,
    notes: Option<Seq<char>>,
    t: i64,
)
    requires
        rows::unique::<NameRow>(s),
    ensures
        ({
            let n = with_name(s, key, name, notes, t);
            &&& forall|i: int|
                0 <= i < s.len() && (#[trigger] s[i]).device_key == key ==> {
                    &&& n.len() == s.len()
                    &&& n[i].device_key == key
                    &&& n[i].name == name
                    &&& n[i].updated_at == t
                    &&& n[i].notes == if notes is Some {
                        notes
                    } else {
                        s[i].notes
                    }
                }
            &&& forall|i: int|
                0 <= i < s.len() && (#[trigger] s[i]).device_key != key ==> n[i] == s[i]
            &&& (forall|i: int| 0 <= i < s.len() ==> (#[trigger] s[i]).device_key != key) ==> n
                == s.push(NameRecord { device_key: key, name, notes, updated_at: t })
        }),
{
    rows::lemma_row_index::<NameRow>(s, key);
    assert forall|i: int| 0 <= i < s.len() && (#[trigger] s[i]).device_key == key implies rows::row_index::<
        NameRow,
    >(s, key) == Some(i) by {
        rows::lemma_row_found::<NameRow>(s, i);
    }
}

/// Taking a name away drops the rows of its device and no other.
pub proof fn law_other_names_stay(s: Seq<NameRecord>, key: Seq<char>)
    requires
        rows::unique::<NameRow>(s),
    ensures
        forall|x: NameRecord| #[trigger]
            without_name(s, key).contains(x) <==> s.contains(x) && x.device_key != key,
{
    rows::lemma_row_index::<NameRow>(s, key);
    let n = without_name(s, key);
    assert forall|x: NameRecord| #[trigger] n.contains(x) <==> s.contains(x) && x.device_key
        != key by {
        match rows::row_index::<NameRow>(s, key) {
            Some(i) => {
                if n.contains(x) {
                    let k = choose|k: int| 0 <= k < n.len() && n[k] == x;
                    let j = if k < i {
                        k
                    } else {
                        k + 1
                    };
                    assert(s[j] == x);
                    assert(<NameRow as rows::Keyed>::key_of(s[j]) != <NameRow as rows::Keyed>::key_of(
                        s[i],
                    ));
                }
                if s.contains(x) && x.device_key != key {
                    let k = choose|k: int| 0 <= k < s.len() && s[k] == x;
                    if k < i {
                        assert(n[k] == x);
                    } else {
                        assert(n[k - 1] == x);
                    }
                }
            },
            None => {},
        }
    }
}

} // verus!
