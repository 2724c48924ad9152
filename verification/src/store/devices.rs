//! Devices and how they are found.

use vstd::prelude::*;
use vstd::string::*;

use crate::merge;
use crate::num::parse_i64;
use crate::seqs;
use crate::store::alias;
use crate::store::networks;
use crate::store::networks::{has_prefix, lemma_not_only, lemma_only_is};
use crate::store::rows;
use crate::store::rows::{find_row, Copied, DeviceRecord, DeviceRow, PresenceRecord};
use crate::store::{Store, StoreError, StoreModel};
use crate::text;
use crate::text::{own_opt, sort_once, str_eq, trim};
use crate::util::now;

verus! {

/// The devices after one was recorded: a known one is seen again and only
/// learns what it did not know.
pub open spec fn device_recorded(
    m: StoreModel,
    key: Seq<char>,
    primary_name: Option<Seq<char>>,
    mac: Option<Seq<char>>,
    vendor: Option<Seq<char>>,
    origin_network: Seq<char>,
    t: i64,
) -> StoreModel {
    match rows::row_index::<DeviceRow>(m.devices, key) {
        Some(i) => {
            let d = m.devices[i];
            StoreModel {
                devices: m.devices.update(
                    i,
                    DeviceRecord {
                        last_seen: t,
                        primary_name: merge::first_of(d.primary_name, primary_name),
                        mac: merge::first_of(d.mac, mac),
                        vendor: merge::first_of(d.vendor, vendor),
                        ..d
                    },
                ),
                ..m
            }
        },
        None => StoreModel {
            devices: m.devices.push(
                DeviceRecord {
                    id: (m.device_seq + 1) as i64,
                    key,
                    primary_name,
                    mac,
                    vendor,
                    origin_network,
                    first_seen: t,
                    last_seen: t,
                },
            ),
            device_seq: (m.device_seq + 1) as i64,
            ..m
        },
    }
}

/// There is an id left for a device that is not known yet.
pub open spec fn has_room(m: StoreModel, key: Seq<char>) -> bool {
    rows::row_index::<DeviceRow>(m.devices, key) is Some || m.device_seq < i64::MAX
}

/// The devices after one was updated: what is given replaces what was known.
pub open spec fn device_updated(
    s: Seq<DeviceRecord>,
    key: Seq<char>,
    primary_name: Option<Seq<char>>,
    mac: Option<Seq<char>>,
    vendor: Option<Seq<char>>,
    t: i64,
) -> Seq<DeviceRecord> {
    match rows::row_index::<DeviceRow>(s, key) {
        Some(i) => s.update(
            i,
            DeviceRecord {
                last_seen: t,
                primary_name: merge::first_of(primary_name, s[i].primary_name),
                mac: merge::first_of(mac, s[i].mac),
                vendor: merge::first_of(vendor, s[i].vendor),
                ..s[i]
            },
        ),
        None => s,
    }
}

/// The device under exactly this key.
pub open spec fn device_at(s: Seq<DeviceRecord>, key: Seq<char>) -> Option<DeviceRecord> {
    match rows::row_index::<DeviceRow>(s, key) {
        Some(i) => Some(s[i]),
        None => None,
    }
}

/// The device of a key, whichever of its keys it is.
pub open spec fn device_of(m: StoreModel, key: Seq<char>) -> Option<DeviceRecord> {
    device_at(m.devices, alias::resolved(m.aliases, key))
}

/// The condition of having an id.
pub open spec fn with_id(id: int) -> spec_fn(DeviceRecord) -> bool {
    |d: DeviceRecord| d.id == id
}

/// The condition of having a key that begins so.
pub open spec fn key_begins(r: Seq<char>) -> spec_fn(DeviceRecord) -> bool {
    |d: DeviceRecord| networks::prefixed(d.key, r)
}

/// The device with an id.
pub open spec fn device_by_id(s: Seq<DeviceRecord>, id: Option<int>) -> Option<DeviceRecord> {
    match id {
        Some(n) => match seqs::first_where(s, with_id(n)) {
            Some(i) => Some(s[i]),
            None => None,
        },
        None => None,
    }
}

/// The device that a reference names: by id, by key, or by the beginning of a
/// key that no other device's shares.
pub open spec fn device_by_ref(m: StoreModel, r: Seq<char>) -> Option<DeviceRecord> {
    merge::first_of(
        device_by_id(m.devices, crate::num::i64_text(r)),
        merge::first_of(device_of(m, r), networks::only_where(m.devices, key_begins(r))),
    )
}

/// The canonical keys of the first `n` devices that carry a MAC.
pub open spec fn keys_with_mac(m: StoreModel, mac: Seq<char>, n: int) -> Seq<Seq<char>>
    decreases n,
{
    if n <= 0 {
        Seq::empty()
    } else if m.devices[n - 1].mac == Some(mac) {
        keys_with_mac(m, mac, n - 1).push(alias::resolved(m.aliases, m.devices[n - 1].key))
    } else {
        keys_with_mac(m, mac, n - 1)
    }
}

/// One of two devices with the same MAC is the better guess: one that has a
/// name, and of those the one seen last.
pub open spec fn better(a: DeviceRecord, b: DeviceRecord) -> bool {
    if (a.primary_name is Some) != (b.primary_name is Some) {
        a.primary_name is Some
    } else {
        a.last_seen > b.last_seen
    }
}

/// The best of the first `n` devices whose key is among these.
pub open spec fn best_among(s: Seq<DeviceRecord>, keys: Seq<Seq<char>>, n: int) -> Option<
    DeviceRecord,
>
    decreases n,
{
    if n <= 0 {
        None
    } else {
        let rest = best_among(s, keys, n - 1);
        let d = s[n - 1];
        if keys.contains(d.key) && (rest is None || better(d, rest.unwrap())) {
            Some(d)
        } else {
            rest
        }
    }
}

/// The device that carries a MAC. Where the MAC was seen as several
/// identities, the best guess among them.
pub open spec fn device_by_mac(m: StoreModel, mac: Seq<char>) -> Option<DeviceRecord> {
    let keys = text::sorted_once(keys_with_mac(m, mac, m.devices.len() as int));
    if keys.len() == 1 {
        device_of(m, keys[0])
    } else {
        match best_among(m.devices, keys, m.devices.len() as int) {
            Some(d) => device_of(m, d.key),
            None => None,
        }
    }
}

/// A device is recorded on a network.
pub open spec fn present_on(s: Seq<PresenceRecord>, device: Seq<char>, network: Seq<char>) -> bool {
    exists|i: int|
        0 <= i < s.len() && (#[trigger] s[i]).device_key == device && s[i].network_key == network
}

/// A name as names are compared: in lower case, the white space around it
/// dropped.
pub open spec fn compared_name(name: Seq<char>) -> Seq<char> {
    crate::identity::lowercase(text::trimmed(name))
}

/// The condition of having a name on a network, as names are compared; a
/// device without a name has the empty one.
pub open spec fn named_on(
    presence: Seq<PresenceRecord>,
    name: Seq<char>,
    network: Seq<char>,
) -> spec_fn(DeviceRecord) -> bool {
    |d: DeviceRecord|
        compared_name(crate::export::or_nothing(d.primary_name)) == compared_name(name)
            && present_on(presence, d.key, network)
}

/// The device with a name on a network; nothing where several share it.
pub open spec fn device_by_name(m: StoreModel, name: Seq<char>, network: Seq<char>) -> Option<
    DeviceRecord,
> {
    networks::only_where(m.devices, named_on(m.presence, name, network))
}

/// A device is found by its name on a network however the name's case and the
/// white space around it are written.
pub proof fn law_name_lookup_ignores_spelling(
    m: StoreModel,
    a: Seq<char>,
    b: Seq<char>,
    network: Seq<char>,
)
    requires
        compared_name(a) == compared_name(b),
    ensures
        device_by_name(m, a, network) == device_by_name(m, b, network),
{
    assert(named_on(m.presence, a, network) =~= named_on(m.presence, b, network));
}

/// The first value that is there.
fn first_known(a: &Option<String>, b: Option<&str>) -> (r: Option<String>)
    ensures
        r.deep_view() == merge::first_of(a.deep_view(), b.deep_view()),
{
    match a {
        Some(s) => Some(s.clone()),
        None => own_opt(b),
    }
}

/// Whether a device has a name, which is given as names are compared.
fn name_matches(primary_name: &Option<String>, name: &str) -> (r: bool)
    ensures
        r == (compared_name(crate::export::or_nothing(primary_name.deep_view())) == name@),
{
    let own: &str = match primary_name {
        Some(s) => s.as_str(),
        None => "",
    };
    proof {
        reveal_strlit("");
        assert(own@ == crate::export::or_nothing(primary_name.deep_view()));
    }
    let low = trim(own).as_str().to_lowercase();
    str_eq(low.as_str(), name)
}

impl Store {
    /// Record a device at a time.
    pub fn upsert_device_at(
        &mut self,
        key: &str,
        primary_name: Option<&str>,
        mac: Option<&str>,
        vendor: Option<&str>,
        origin_network: &str,
        t: i64,
    ) -> (r: Result<(), StoreError>)
        requires
            old(self).deep_view().wf(),
        ensures
            if has_room(old(self).deep_view(), key@) {
                r is Ok && final(self).deep_view() == device_recorded(
                    old(self).deep_view(),
                    key@,
                    primary_name.deep_view(),
                    mac.deep_view(),
                    vendor.deep_view(),
                    origin_network@,
                    t,
                )
            } else {
                r == Err::<(), StoreError>(StoreError::Full) && final(self).deep_view() == old(
                    self,
                ).deep_view()
            },
            final(self).deep_view().wf(),
    {
        let ghost m = self.deep_view();
        let ghost before = self.devices.deep_view();
        let ghost want = device_recorded(
            m,
            key@,
            primary_name.deep_view(),
            mac.deep_view(),
            vendor.deep_view(),
            origin_network@,
            t,
        );
        match find_row(&self.devices, key) {
            Some(i) => {
                assert(before[i as int] == self.devices@[i as int].deep_view());
                self.devices[i].last_seen = t;
                self.devices[i].primary_name = first_known(
                    &self.devices[i].primary_name,
                    primary_name,
                );
                self.devices[i].mac = first_known(&self.devices[i].mac, mac);
                self.devices[i].vendor = first_known(&self.devices[i].vendor, vendor);
                assert(self.devices.deep_view() == want.devices);
                proof {
                    rows::lemma_update_unique::<DeviceRow>(
                        before,
                        i as int,
                        want.devices[i as int],
                    );
                    lemma_ids_after_update(before, i as int, want.devices[i as int], m.device_seq);
                }
            },
            None => {
                if self.device_seq == i64::MAX {
                    return Err(StoreError::Full);
                }
                self.device_seq = self.device_seq + 1;
                self.devices.push(
                    DeviceRow {
                        id: self.device_seq,
                        key: key.to_string(),
                        primary_name: own_opt(primary_name),
                        mac: own_opt(mac),
                        vendor: own_opt(vendor),
                        origin_network: origin_network.to_string(),
                        first_seen: t,
                        last_seen: t,
                    },
                );
                assert(self.devices.deep_view() == want.devices);
                proof {
                    rows::lemma_push_unique::<DeviceRow>(before, want.devices.last());
                }
            },
        }
        Ok(())
    }

    /// Record a device now.
    pub fn upsert_device(
        &mut self,
        key: &str,
        primary_name: Option<&str>,
        mac: Option<&str>,
        vendor: Option<&str>,
        origin_network: &str,
    ) -> (r: Result<(), StoreError>)
        requires
            old(self).deep_view().wf(),
        ensures
            if has_room(old(self).deep_view(), key@) {
                r is Ok && exists|t: i64|
                    final(self).deep_view() == #[trigger] device_recorded(
                        old(self).deep_view(),
                        key@,
                        primary_name.deep_view(),
                        mac.deep_view(),
                        vendor.deep_view(),
                        origin_network@,
                        t,
                    )
            } else {
                r == Err::<(), StoreError>(StoreError::Full) && final(self).deep_view() == old(
                    self,
                ).deep_view()
            },
            final(self).deep_view().wf(),
    {
        self.upsert_device_at(key, primary_name, mac, vendor, origin_network, now())
    }

    /// Update what is known of a device at a time.
    pub fn update_device_fields_at(
        &mut self,
        key: &str,
        primary_name: Option<&str>,
        mac: Option<&str>,
        vendor: Option<&str>,
        t: i64,
    ) -> (r: Result<(), StoreError>)
        requires
            old(self).deep_view().wf(),
        ensures
            r is Ok,
            final(self).deep_view() == (StoreModel {
                devices: device_updated(
                    old(self).deep_view().devices,
                    key@,
                    primary_name.deep_view(),
                    mac.deep_view(),
                    vendor.deep_view(),
                    t,
                ),
                ..old(self).deep_view()
            }),
            final(self).deep_view().wf(),
    {
        let ghost before = self.devices.deep_view();
        let ghost want = device_updated(
            before,
            key@,
            primary_name.deep_view(),
            mac.deep_view(),
            vendor.deep_view(),
            t,
        );
        match find_row(&self.devices, key) {
            Some(i) => {
                assert(before[i as int] == self.devices@[i as int].deep_view());
                self.devices[i].last_seen = t;
                if primary_name.is_some() {
                    self.devices[i].primary_name = own_opt(primary_name);
                }
                if mac.is_some() {
                    self.devices[i].mac = own_opt(mac);
                }
                if vendor.is_some() {
                    self.devices[i].vendor = own_opt(vendor);
                }
                assert(self.devices.deep_view() == want);
                proof {
                    rows::lemma_update_unique::<DeviceRow>(before, i as int, want[i as int]);
                    lemma_ids_after_update(before, i as int, want[i as int], self.device_seq);
                }
            },
            None => {},
        }
        Ok(())
    }

    /// Update what is known of a device now.
    pub fn update_device_fields(
        &mut self,
        key: &str,
        primary_name: Option<&str>,
        mac: Option<&str>,
        vendor: Option<&str>,
    ) -> (r: Result<(), StoreError>)
        requires
            old(self).deep_view().wf(),
        ensures
            r is Ok,
            exists|t: i64|
                final(self).deep_view() == (StoreModel {
                    devices: #[trigger] device_updated(
                        old(self).deep_view().devices,
                        key@,
                        primary_name.deep_view(),
                        mac.deep_view(),
                        vendor.deep_view(),
                        t,
                    ),
                    ..old(self).deep_view()
                }),
            final(self).deep_view().wf(),
    {
        self.update_device_fields_at(key, primary_name, mac, vendor, now())
    }

    /// The device of a key, whichever of its keys it is.
    pub fn get_device(&self, key: &str) -> (r: Result<Option<DeviceRow>, StoreError>)
        ensures
            r is Ok,
            r.unwrap().deep_view() == device_of(self.deep_view(), key@),
    {
        Ok(self.device(key))
    }

    /// The device of a key, whichever of its keys it is.
    pub fn device(&self, key: &str) -> (r: Option<DeviceRow>)
        ensures
            r.deep_view() == device_of(self.deep_view(), key@),
    {
        let canonical = self.canonical_key(key);
        match find_row(&self.devices, canonical.as_str()) {
            Some(i) => Some(self.devices[i].copied()),
            None => None,
        }
    }

    /// The device with an id.
    fn device_with_id(&self, id: i64) -> (r: Option<DeviceRow>)
        ensures
            r.deep_view() == device_by_id(self.deep_view().devices, Some(id as int)),
    {
        let ghost all = self.devices.deep_view();
        let ghost p = with_id(id as int);
        let mut i: usize = 0;
        while i < self.devices.len()
            invariant
                i <= self.devices.len(),
                all == self.devices.deep_view(),
                p == with_id(id as int),
                forall|j: int| 0 <= j < i ==> !p(#[trigger] all[j]),
            decreases self.devices.len() - i,
        {
            assert(all[i as int] == self.devices@[i as int].deep_view());
            if self.devices[i].id == id {
                proof {
                    assert(seqs::is_first(all, p, i as int));
                    seqs::lemma_first_is(all, p, i as int);
                }
                return Some(self.devices[i].copied());
            }
            i = i + 1;
        }
        proof {
            seqs::lemma_first_none(all, p);
        }
        None
    }

    /// The only device whose key begins so.
    fn device_with_prefix(&self, r: &str) -> (res: Option<DeviceRow>)
        ensures
            res.deep_view() == networks::only_where(self.deep_view().devices, key_begins(r@)),
    {
        let ghost all = self.devices.deep_view();
        let ghost p = key_begins(r@);
        let mut found: Option<usize> = None;
        let mut i: usize = 0;
        while i < self.devices.len()
            invariant
                i <= self.devices.len(),
                all == self.devices.deep_view(),
                p == key_begins(r@),
                match found {
                    Some(k) => k < i && p(all[k as int]) && forall|j: int|
                        0 <= j < i && j != k ==> !p(#[trigger] all[j]),
                    None => forall|j: int| 0 <= j < i ==> !p(#[trigger] all[j]),
                },
            decreases self.devices.len() - i,
        {
            assert(all[i as int] == self.devices@[i as int].deep_view());
            if has_prefix(self.devices[i].key.as_str(), r) {
                if let Some(k) = found {
                    proof {
                        lemma_not_only(all, p, k as int, i as int);
                    }
                    return None;
                }
                found = Some(i);
            }
            i = i + 1;
        }
        match found {
            Some(k) => {
                proof {
                    assert(networks::is_only(all, p, k as int));
                    lemma_only_is(all, p, k as int);
                }
                Some(self.devices[k].copied())
            },
            None => {
                assert forall|k: int| !networks::is_only(all, p, k) by {
                    if 0 <= k < all.len() {
                        assert(!p(all[k]));
                    }
                }
                None
            },
        }
    }

    /// Look up a device by numeric id or by key (exact, then prefix).
    pub fn get_device_by_ref(&self, r: &str) -> (res: Result<Option<DeviceRow>, StoreError>)
        ensures
            res is Ok,
            res.unwrap().deep_view() == device_by_ref(self.deep_view(), r@),
    {
        if let Some(id) = parse_i64(r) {
            if let Some(d) = self.device_with_id(id) {
                return Ok(Some(d));
            }
        }
        if let Some(d) = self.device(r) {
            return Ok(Some(d));
        }
        Ok(self.device_with_prefix(r))
    }

    /// The device that carries a MAC.
    pub fn find_device_by_mac(&self, mac: &str) -> (r: Result<Option<DeviceRow>, StoreError>)
        ensures
            r is Ok,
            r.unwrap().deep_view() == device_by_mac(self.deep_view(), mac@),
    {
        let ghost m = self.deep_view();
        let mut found: Vec<String> = Vec::new();
        let mut i: usize = 0;
        while i < self.devices.len()
            invariant
                i <= self.devices.len(),
                m == self.deep_view(),
                found.deep_view() == keys_with_mac(m, mac@, i as int),
            decreases self.devices.len() - i,
        {
            assert(m.devices[i as int] == self.devices@[i as int].deep_view());
            let same = match &self.devices[i].mac {
                Some(x) => str_eq(x.as_str(), mac),
                None => false,
            };
            if same {
                let ghost so_far = found.deep_view();
                let key = self.canonical_key(self.devices[i].key.as_str());
                let ghost k = key@;
                found.push(key);
                assert(found.deep_view() == so_far.push(k));
            }
            i = i + 1;
        }
        let keys = sort_once(&found);
        if keys.len() == 1 {
            assert(keys.deep_view()[0] == keys@[0]@);
            return Ok(self.device(keys[0].as_str()));
        }
        let ghost ks = keys.deep_view();
        let mut best: Option<usize> = None;
        let mut j: usize = 0;
        while j < self.devices.len()
            invariant
                j <= self.devices.len(),
                m == self.deep_view(),
                ks == keys.deep_view(),
                match best {
                    Some(b) => b < self.devices.len() && best_among(m.devices, ks, j as int)
                        == Some(m.devices[b as int]),
                    None => best_among(m.devices, ks, j as int) is None,
                },
            decreases self.devices.len() - j,
        {
            assert(m.devices[j as int] == self.devices@[j as int].deep_view());
            if text::contains_str(&keys, self.devices[j].key.as_str()) {
                let wins = match best {
                    None => true,
                    Some(b) => {
                        assert(m.devices[b as int] == self.devices@[b as int].deep_view());
                        let named = self.devices[j].primary_name.is_some();
                        if named != self.devices[b].primary_name.is_some() {
                            named
                        } else {
                            self.devices[j].last_seen > self.devices[b].last_seen
                        }
                    },
                };
                if wins {
                    best = Some(j);
                }
            }
            j = j + 1;
        }
        match best {
            Some(b) => Ok(self.device(self.devices[b].key.as_str())),
            None => Ok(None),
        }
    }

    /// Whether a device is recorded on a network.
    fn is_present(&self, device: &str, network: &str) -> (r: bool)
        ensures
            r == present_on(self.deep_view().presence, device@, network@),
    {
        let ghost all = self.presence.deep_view();
        let mut i: usize = 0;
        while i < self.presence.len()
            invariant
                i <= self.presence.len(),
                all == self.presence.deep_view(),
                forall|j: int|
                    0 <= j < i ==> (#[trigger] all[j]).device_key != device@ || all[j].network_key
                        != network@,
            decreases self.presence.len() - i,
        {
            assert(all[i as int] == self.presence@[i as int].deep_view());
            if str_eq(self.presence[i].device_key.as_str(), device) && str_eq(
                self.presence[i].network_key.as_str(),
                network,
            ) {
                return true;
            }
            i = i + 1;
        }
        false
    }

    /// The device with a name on a network; nothing where several share it.
    pub fn find_device_by_name_on_network(&self, name: &str, network_key: &str) -> (r: Result<
        Option<DeviceRow>,
        StoreError,
    >)
        ensures
            r is Ok,
            r.unwrap().deep_view() == device_by_name(self.deep_view(), name@, network_key@),
    {
        let low = trim(name).as_str().to_lowercase();
        let ghost all = self.devices.deep_view();
        let ghost presence = self.presence.deep_view();
        let ghost p = named_on(presence, name@, network_key@);
        let mut found: Option<usize> = None;
        let mut i: usize = 0;
        while i < self.devices.len()
            invariant
                i <= self.devices.len(),
                all == self.devices.deep_view(),
                presence == self.presence.deep_view(),
                low@ == compared_name(name@),
                p == named_on(presence, name@, network_key@),
                match found {
                    Some(k) => k < i && p(all[k as int]) && forall|j: int|
                        0 <= j < i && j != k ==> !p(#[trigger] all[j]),
                    None => forall|j: int| 0 <= j < i ==> !p(#[trigger] all[j]),
                },
            decreases self.devices.len() - i,
        {
            assert(all[i as int] == self.devices@[i as int].deep_view());
            if name_matches(&self.devices[i].primary_name, low.as_str()) && self.is_present(
                self.devices[i].key.as_str(),
                network_key,
            ) {
                if let Some(k) = found {
                    proof {
                        lemma_not_only(all, p, k as int, i as int);
                    }
                    return Ok(None);
                }
                found = Some(i);
            }
            i = i + 1;
        }
        match found {
            Some(k) => {
                proof {
                    assert(networks::is_only(all, p, k as int));
                    lemma_only_is(all, p, k as int);
                }
                Ok(Some(self.devices[k].copied()))
            },
            None => {
                assert forall|k: int| !networks::is_only(all, p, k) by {
                    if 0 <= k < all.len() {
                        assert(!p(all[k]));
                    }
                }
                Ok(None)
            },
        }
    }
}

/// Replacing a row by one with the same id keeps ids distinct.
proof fn lemma_ids_after_update(s: Seq<DeviceRecord>, i: int, row: DeviceRecord, seq: i64)
    requires
        crate::store::device_ids_ok(s, seq),
        0 <= i < s.len(),
        row.id == s[i].id,
    ensures
        crate::store::device_ids_ok(s.update(i, row), seq),
{
    let t = s.update(i, row);
    assert forall|a: int| 0 <= a < t.len() implies (#[trigger] t[a]).id <= seq by {
        assert(s[a].id <= seq);
    }
    assert forall|a: int, b: int| 0 <= a < b < t.len() implies (#[trigger] t[a]).id != (
    #[trigger] t[b]).id by {
        assert(s[a].id != s[b].id);
    }
}

/// A device keeps its id and the moment it was first seen, whatever is
/// learned of it later.
pub proof fn law_device_keeps_its_id(
    m: StoreModel,
    key: Seq<char>,
    primary_name: Option<Seq<char>>,
    mac: Option<Seq<char>>,
    vendor: Option<Seq<char>>,
    origin_network: Seq<char>,
    t: i64,
)
    requires
        m.wf(),
        has_room(m, key),
    ensures
        ({
            let n = device_recorded(m, key, primary_name, mac, vendor, origin_network, t);
            &&& device_at(n.devices, key) is Some
            &&& device_at(n.devices, key).unwrap().last_seen == t
            &&& device_at(m.devices, key) is Some ==> device_at(n.devices, key).unwrap().id
                == device_at(m.devices, key).unwrap().id && device_at(n.devices, key).unwrap().first_seen
                == device_at(m.devices, key).unwrap().first_seen
            &&& forall|other: Seq<char>|
                other != key ==> #[trigger] device_at(n.devices, other) == device_at(
                    m.devices,
                    other,
                )
        }),
{
    let n = device_recorded(m, key, primary_name, mac, vendor, origin_network, t);
    rows::lemma_row_index::<DeviceRow>(m.devices, key);
    match rows::row_index::<DeviceRow>(m.devices, key) {
        Some(i) => {
            rows::lemma_update_unique::<DeviceRow>(m.devices, i, n.devices[i]);
        },
        None => {
            rows::lemma_push_unique::<DeviceRow>(m.devices, n.devices.last());
        },
    }
    assert forall|other: Seq<char>| other != key implies #[trigger] device_at(n.devices, other)
        == device_at(m.devices, other) by {
        rows::lemma_row_index::<DeviceRow>(m.devices, other);
    }
}

/// What recording a device that is on record does: it was seen now, and what
/// was not known of it is learned. Nothing known is replaced, and nothing else
/// in the store changes.
pub proof fn law_known_device_learns(
    m: StoreModel,
    i: int,
    primary_name: Option<Seq<char>>,
    mac: Option<Seq<char>>,
    vendor: Option<Seq<char>>,
    origin_network: Seq<char>,
    t: i64,
)
    requires
        m.wf(),
        0 <= i < m.devices.len(),
    ensures
        ({
            let d = m.devices[i];
            let n = device_recorded(m, d.key, primary_name, mac, vendor, origin_network, t);
            let e = n.devices[i];
            &&& n.devices.len() == m.devices.len()
            &&& forall|j: int|
                0 <= j < n.devices.len() && j != i ==> #[trigger] n.devices[j] == m.devices[j]
            &&& e.id == d.id
            &&& e.key == d.key
            &&& e.origin_network == d.origin_network
            &&& e.first_seen == d.first_seen
            &&& e.last_seen == t
            &&& e.primary_name == if d.primary_name is Some {
                d.primary_name
            } else {
                primary_name
            }
            &&& e.mac == if d.mac is Some {
                d.mac
            } else {
                mac
            }
            &&& e.vendor == if d.vendor is Some {
                d.vendor
            } else {
                vendor
            }
            &&& n == (StoreModel { devices: n.devices, ..m })
        }),
{
    rows::lemma_row_found::<DeviceRow>(m.devices, i);
}

/// What recording a device that is not on record does: a row is added with what
/// is known of it, under an id that none had before. Nothing else in the store
/// changes.
pub proof fn law_new_device_is_recorded(
    m: StoreModel,
    key: Seq<char>,
    primary_name: Option<Seq<char>>,
    mac: Option<Seq<char>>,
    vendor: Option<Seq<char>>,
    origin_network: Seq<char>,
    t: i64,
)
    requires
        m.wf(),
        m.device_seq < i64::MAX,
        forall|i: int| 0 <= i < m.devices.len() ==> (#[trigger] m.devices[i]).key != key,
    ensures
        ({
            let n = device_recorded(m, key, primary_name, mac, vendor, origin_network, t);
            let e = n.devices.last();
            &&& n.devices.len() == m.devices.len() + 1
            &&& n.devices.drop_last() == m.devices
            &&& n.device_seq == m.device_seq + 1
            &&& e.id == n.device_seq
            &&& forall|i: int| 0 <= i < m.devices.len() ==> (#[trigger] m.devices[i]).id < e.id
            &&& e.key == key
            &&& e.primary_name == primary_name
            &&& e.mac == mac
            &&& e.vendor == vendor
            &&& e.origin_network == origin_network
            &&& e.first_seen == t
            &&& e.last_seen == t
            &&& n == (StoreModel { devices: n.devices, device_seq: n.device_seq, ..m })
        }),
{
    rows::lemma_row_index::<DeviceRow>(m.devices, key);
    let n = device_recorded(m, key, primary_name, mac, vendor, origin_network, t);
    assert(n.devices.drop_last() =~= m.devices);
    assert forall|i: int| 0 <= i < m.devices.len() implies (#[trigger] m.devices[i]).id
        < n.device_seq by {
        assert(m.devices[i].id <= m.device_seq);
    }
}

/// What updating a device does: what is given replaces what was known, and what
/// is not given stays. No other row changes, and none is added.
pub proof fn law_update_replaces_what_is_given(
    s: Seq<DeviceRecord>,
    i: int,
    primary_name: Option<Seq<char>>,
    mac: Option<Seq<char>>,
    vendor: Option<Seq<char>>,
    t: i64,
)
    requires
        rows::unique::<DeviceRow>(s),
        0 <= i < s.len(),
    ensures
        ({
            let d = s[i];
            let n = device_updated(s, d.key, primary_name, mac, vendor, t);
            let e = n[i];
            &&& n.len() == s.len()
            &&& forall|j: int| 0 <= j < n.len() && j != i ==> #[trigger] n[j] == s[j]
            &&& e.id == d.id
            &&& e.key == d.key
            &&& e.origin_network == d.origin_network
            &&& e.first_seen == d.first_seen
            &&& e.last_seen == t
            &&& e.primary_name == if primary_name is Some {
                primary_name
            } else {
                d.primary_name
            }
            &&& e.mac == if mac is Some {
                mac
            } else {
                d.mac
            }
            &&& e.vendor == if vendor is Some {
                vendor
            } else {
                d.vendor
            }
        }),
{
    rows::lemma_row_found::<DeviceRow>(s, i);
}

/// Updating a device that is not on record does nothing.
pub proof fn law_update_adds_no_device(
    s: Seq<DeviceRecord>,
    key: Seq<char>,
    primary_name: Option<Seq<char>>,
    mac: Option<Seq<char>>,
    vendor: Option<Seq<char>>,
    t: i64,
)
    requires
        forall|i: int| 0 <= i < s.len() ==> (#[trigger] s[i]).key != key,
    ensures
        device_updated(s, key, primary_name, mac, vendor, t) == s,
{
    rows::lemma_row_index::<DeviceRow>(s, key);
}

/// The device of a key is the row that has the key it stands for.
pub proof fn law_device_of_a_key(m: StoreModel, key: Seq<char>)
    requires
        m.wf(),
    ensures
        match device_of(m, key) {
            Some(d) => m.devices.contains(d) && d.key == alias::resolved(m.aliases, key),
            None => forall|i: int|
                0 <= i < m.devices.len() ==> (#[trigger] m.devices[i]).key != alias::resolved(
                    m.aliases,
                    key,
                ),
        },
{
    rows::lemma_row_index::<DeviceRow>(m.devices, alias::resolved(m.aliases, key));
}

/// What the best of some devices is.
proof fn lemma_best_among(s: Seq<DeviceRecord>, keys: Seq<Seq<char>>, n: int)
    requires
        0 <= n <= s.len(),
    ensures
        match best_among(s, keys, n) {
            Some(d) => {
                &&& exists|i: int| 0 <= i < n && #[trigger] s[i] == d
                &&& keys.contains(d.key)
                &&& forall|j: int|
                    0 <= j < n && keys.contains((#[trigger] s[j]).key) ==> {
                        &&& s[j].primary_name is Some ==> d.primary_name is Some
                        &&& (s[j].primary_name is Some) == (d.primary_name is Some)
                            ==> s[j].last_seen <= d.last_seen
                    }
            },
            None => forall|j: int| 0 <= j < n ==> !keys.contains((#[trigger] s[j]).key),
        },
    decreases n,
{
    if n > 0 {
        lemma_best_among(s, keys, n - 1);
        assert(s[n - 1] == s[n - 1]);
    }
}

/// The keys of devices with a MAC.
proof fn lemma_keys_with_mac(m: StoreModel, mac: Seq<char>, n: int)
    requires
        0 <= n <= m.devices.len(),
    ensures
        forall|k: Seq<char>| #[trigger]
            keys_with_mac(m, mac, n).contains(k) <==> exists|i: int|
                0 <= i < n && (#[trigger] m.devices[i]).mac == Some(mac) && alias::resolved(
                    m.aliases,
                    m.devices[i].key,
                ) == k,
    decreases n,
{
    if n > 0 {
        lemma_keys_with_mac(m, mac, n - 1);
        let rest = keys_with_mac(m, mac, n - 1);
        text::lemma_push_contains(rest, alias::resolved(m.aliases, m.devices[n - 1].key));
        assert forall|k: Seq<char>| #[trigger] keys_with_mac(m, mac, n).contains(k) <==> exists|
            i: int,
        |
            0 <= i < n && (#[trigger] m.devices[i]).mac == Some(mac) && alias::resolved(
                m.aliases,
                m.devices[i].key,
            ) == k by {
            if rest.contains(k) {
                let i = choose|i: int|
                    0 <= i < n - 1 && (#[trigger] m.devices[i]).mac == Some(mac)
                        && alias::resolved(m.aliases, m.devices[i].key) == k;
                assert(m.devices[i].mac == Some(mac));
            }
            if m.devices[n - 1].mac == Some(mac) && alias::resolved(
                m.aliases,
                m.devices[n - 1].key,
            ) == k {
                assert(keys_with_mac(m, mac, n).contains(k));
            }
        }
    }
}

/// The device found by a MAC carries it. Of several that do, one that has a
/// name is found before one that has none, and of those the one seen last;
/// where none carries it, nothing is found. (Here no device that carries it is
/// known by another key.)
pub proof fn law_device_found_by_mac(m: StoreModel, mac: Seq<char>)
    requires
        m.wf(),
        forall|i: int|
            0 <= i < m.devices.len() && (#[trigger] m.devices[i]).mac == Some(mac)
                ==> alias::resolved(m.aliases, m.devices[i].key) == m.devices[i].key,
    ensures
        match device_by_mac(m, mac) {
            Some(d) => {
                &&& m.devices.contains(d)
                &&& d.mac == Some(mac)
                &&& forall|j: int|
                    0 <= j < m.devices.len() && (#[trigger] m.devices[j]).mac == Some(mac) ==> {
                        &&& m.devices[j].primary_name is Some ==> d.primary_name is Some
                        &&& (m.devices[j].primary_name is Some) == (d.primary_name is Some)
                            ==> m.devices[j].last_seen <= d.last_seen
                    }
            },
            None => forall|j: int|
                0 <= j < m.devices.len() ==> (#[trigger] m.devices[j]).mac != Some(mac),
        },
{
    let s = m.devices;
    let raw = keys_with_mac(m, mac, s.len() as int);
    let keys = text::sorted_once(raw);
    text::law_sorted_once(raw);
    lemma_keys_with_mac(m, mac, s.len() as int);
    lemma_best_among(s, keys, s.len() as int);
    assert forall|j: int| 0 <= j < s.len() implies (keys.contains((#[trigger] s[j]).key)
        <==> s[j].mac == Some(mac)) by {
        if keys.contains(s[j].key) {
            assert(raw.contains(s[j].key));
            let i = choose|i: int|
                0 <= i < s.len() && (#[trigger] s[i]).mac == Some(mac) && alias::resolved(
                    m.aliases,
                    s[i].key,
                ) == s[j].key;
            rows::lemma_row_found::<DeviceRow>(s, i);
            rows::lemma_row_found::<DeviceRow>(s, j);
            assert(i == j);
        }
        if s[j].mac == Some(mac) {
            assert(raw.contains(s[j].key));
        }
    }
    if keys.len() == 1 {
        assert(keys.contains(keys[0]));
        assert(raw.contains(keys[0]));
        let i = choose|i: int|
            0 <= i < s.len() && (#[trigger] s[i]).mac == Some(mac) && alias::resolved(
                m.aliases,
                s[i].key,
            ) == keys[0];
        rows::lemma_row_found::<DeviceRow>(s, i);
        assert(device_of(m, keys[0]) == Some(s[i]));
        assert forall|j: int| 0 <= j < s.len() && (#[trigger] s[j]).mac == Some(mac) implies j
            == i by {
            assert(keys.contains(s[j].key));
            let a = choose|a: int| 0 <= a < keys.len() && keys[a] == s[j].key;
            assert(a == 0);
            rows::lemma_row_found::<DeviceRow>(s, j);
        }
    } else {
        match best_among(s, keys, s.len() as int) {
            Some(d) => {
                let i = choose|i: int| 0 <= i < s.len() && #[trigger] s[i] == d;
                rows::lemma_row_found::<DeviceRow>(s, i);
                assert(s[i].mac == Some(mac));
            },
            None => {},
        }
    }
}

/// What a reference to a device names. The number of a device names it before
/// anything else does; then a key it is known by; then the beginning of its
/// key, however written, where no other device's key begins so. Nothing is
/// named otherwise.
pub proof fn law_device_reference(m: StoreModel, r: Seq<char>)
    requires
        m.wf(),
    ensures
        ({
            let id = crate::num::i64_text(r);
            let by_id = exists|i: int|
                0 <= i < m.devices.len() && Some((#[trigger] m.devices[i]).id as int) == id;
            match device_by_ref(m, r) {
                Some(d) => {
                    &&& m.devices.contains(d)
                    &&& by_id ==> Some(d.id as int) == id
                    &&& !by_id && device_of(m, r) is Some ==> d.key == alias::resolved(m.aliases, r)
                    &&& !by_id && device_of(m, r) is None ==> {
                        &&& r.len() <= d.key.len()
                        &&& text::ascii_lower(d.key.take(r.len() as int)) == text::ascii_lower(r)
                        &&& forall|j: int|
                            0 <= j < m.devices.len() && r.len() <= (
                            #[trigger] m.devices[j]).key.len() && text::ascii_lower(
                                m.devices[j].key.take(r.len() as int),
                            ) == text::ascii_lower(r) ==> m.devices[j] == d
                    }
                },
                None => {
                    &&& !by_id
                    &&& device_of(m, r) is None
                    &&& forall|j: int|
                        0 <= j < m.devices.len() && networks::begins_alike(
                            (#[trigger] m.devices[j]).key,
                            r,
                        ) ==> exists|k: int|
                            0 <= k < m.devices.len() && k != j && networks::begins_alike(
                                (#[trigger] m.devices[k]).key,
                                r,
                            )
                },
            }
        }),
{
    let id = crate::num::i64_text(r);
    let s = m.devices;
    let p = key_begins(r);
    law_device_of_a_key(m, r);
    if id is Some {
        let q = with_id(id.unwrap());
        seqs::lemma_first_found(s, q);
        if exists|i: int| 0 <= i < s.len() && Some((#[trigger] s[i]).id as int) == id {
            let i = choose|i: int| 0 <= i < s.len() && Some((#[trigger] s[i]).id as int) == id;
            assert(q(s[i]));
        }
    }
    assert forall|j: int| 0 <= j < s.len() implies (p(#[trigger] s[j]) <==> r.len()
        <= s[j].key.len() && text::ascii_lower(s[j].key.take(r.len() as int)) == text::ascii_lower(
        r,
    )) by {
        let k = s[j].key;
        if r.len() <= k.len() {
            let a = text::ascii_lower(k.take(r.len() as int));
            let b = text::ascii_lower(r);
            if p(s[j]) {
                assert(a =~= b);
            }
            if a == b {
                assert forall|i: int| 0 <= i < r.len() implies text::ascii_lower_char(
                    #[trigger] k[i],
                ) == text::ascii_lower_char(r[i]) by {
                    assert(a[i] == b[i]);
                }
            }
        }
    }
    if exists|i: int| networks::is_only(s, p, i) {
        let i = choose|i: int| networks::is_only(s, p, i);
        assert(p(s[i]));
    } else {
        assert forall|j: int|
            0 <= j < s.len() && networks::begins_alike((#[trigger] s[j]).key, r) implies exists|k: int|
            0 <= k < s.len() && k != j && networks::begins_alike((#[trigger] s[k]).key, r) by {
            assert(p(s[j]));
            assert(!networks::is_only(s, p, j));
            let k = choose|k: int| 0 <= k < s.len() && k != j && p(#[trigger] s[k]);
            assert(networks::begins_alike(s[k].key, r));
        }
    }
}

/// The device found by a name on a network has that name, as names are
/// compared, was seen on the network, and is the only one of which both hold.
/// Nothing is found where none or several are so.
pub proof fn law_device_found_by_name(m: StoreModel, name: Seq<char>, network: Seq<char>)
    ensures
        ({
            let fits = |i: int|
                {
                    let d = m.devices[i];
                    let own = if d.primary_name is Some {
                        d.primary_name.unwrap()
                    } else {
                        Seq::<char>::empty()
                    };
                    &&& crate::identity::lowercase(text::trimmed(own))
                        == crate::identity::lowercase(text::trimmed(name))
                    &&& exists|j: int|
                        0 <= j < m.presence.len() && (#[trigger] m.presence[j]).device_key == d.key
                            && m.presence[j].network_key == network
                };
            match device_by_name(m, name, network) {
                Some(d) => exists|i: int|
                    0 <= i < m.devices.len() && #[trigger] m.devices[i] == d && fits(i)
                        && forall|k: int|
                        0 <= k < m.devices.len() && k != i ==> !#[trigger] fits(k),
                None => forall|i: int|
                    0 <= i < m.devices.len() && #[trigger] fits(i) ==> exists|k: int|
                        0 <= k < m.devices.len() && k != i && #[trigger] fits(k),
            }
        }),
{
    let p = named_on(m.presence, name, network);
    let s = m.devices;
    let fits = |i: int|
        {
            let d = m.devices[i];
            let own = if d.primary_name is Some {
                d.primary_name.unwrap()
            } else {
                Seq::<char>::empty()
            };
            &&& crate::identity::lowercase(text::trimmed(own)) == crate::identity::lowercase(
                text::trimmed(name),
            )
            &&& exists|j: int|
                0 <= j < m.presence.len() && (#[trigger] m.presence[j]).device_key == d.key
                    && m.presence[j].network_key == network
        };
    assert forall|i: int| 0 <= i < s.len() implies #[trigger] fits(i) == p(s[i]) by {}
    match device_by_name(m, name, network) {
        Some(d) => {
            let i = choose|i: int| networks::is_only(s, p, i);
            assert(networks::is_only(s, p, i));
            assert(s[i] == d && fits(i));
            assert forall|k: int| 0 <= k < s.len() && k != i implies !#[trigger] fits(k) by {
                assert(!p(s[k]));
            }
        },
        None => {
            assert forall|i: int| 0 <= i < s.len() && #[trigger] fits(i) implies exists|k: int|
                0 <= k < s.len() && k != i && #[trigger] fits(k) by {
                if forall|k: int| 0 <= k < s.len() && k != i ==> !#[trigger] fits(k) {
                    assert forall|k: int| 0 <= k < s.len() && k != i implies !p(#[trigger] s[k]) by {
                        assert(!fits(k));
                    }
                    assert(networks::is_only(s, p, i));
                }
            }
        },
    }
}

} // verus!
