//! The rows of the inventory's tables, and what is done alike to rows of
//! every kind.

use vstd::prelude::*;
use vstd::string::*;

use crate::model::{clone_changes, clone_reasons, FieldChange, PartialReason, TransitionKind};
use crate::text::{clone_opt, str_eq};

verus! {

/// A remembered network.
#[derive(Debug)]
pub struct NetworkRow {
    pub key: String,
    pub label: Option<String>,
    pub subnet: Option<String>,
    pub gateway_mac: Option<String>,
    pub first_seen: i64,
    pub last_seen: i64,
}

/// What a [`NetworkRow`] says.
#[verifier::ext_equal]
pub struct NetworkRecord {
    pub key: Seq<char>,
    pub label: Option<Seq<char>>,
    pub subnet: Option<Seq<char>>,
    pub gateway_mac: Option<Seq<char>>,
    pub first_seen: i64,
    pub last_seen: i64,
}

impl DeepView for NetworkRow {
    type V = NetworkRecord;

    open spec fn deep_view(&self) -> NetworkRecord {
        NetworkRecord {
            key: self.key@,
            label: self.label.deep_view(),
            subnet: self.subnet.deep_view(),
            gateway_mac: self.gateway_mac.deep_view(),
            first_seen: self.first_seen,
            last_seen: self.last_seen,
        }
    }
}

/// A device as stored, with resolved identity.
#[derive(Debug)]
pub struct DeviceRow {
    pub id: i64,
    pub key: String,
    pub primary_name: Option<String>,
    pub mac: Option<String>,
    pub vendor: Option<String>,
    pub origin_network: String,
    pub first_seen: i64,
    pub last_seen: i64,
}

/// What a [`DeviceRow`] says.
#[verifier::ext_equal]
pub struct DeviceRecord {
    pub id: i64,
    pub key: Seq<char>,
    pub primary_name: Option<Seq<char>>,
    pub mac: Option<Seq<char>>,
    pub vendor: Option<Seq<char>>,
    pub origin_network: Seq<char>,
    pub first_seen: i64,
    pub last_seen: i64,
}

impl DeepView for DeviceRow {
    type V = DeviceRecord;

    open spec fn deep_view(&self) -> DeviceRecord {
        DeviceRecord {
            id: self.id,
            key: self.key@,
            primary_name: self.primary_name.deep_view(),
            mac: self.mac.deep_view(),
            vendor: self.vendor.deep_view(),
            origin_network: self.origin_network@,
            first_seen: self.first_seen,
            last_seen: self.last_seen,
        }
    }
}

/// A key that stands for another since its device was re-fingerprinted.
#[derive(Debug)]
pub struct AliasRow {
    pub alias_key: String,
    pub canonical_key: String,
    pub created_at: i64,
}

/// What an [`AliasRow`] says.
#[verifier::ext_equal]
pub struct AliasRecord {
    pub alias_key: Seq<char>,
    pub canonical_key: Seq<char>,
    pub created_at: i64,
}

impl DeepView for AliasRow {
    type V = AliasRecord;

    open spec fn deep_view(&self) -> AliasRecord {
        AliasRecord {
            alias_key: self.alias_key@,
            canonical_key: self.canonical_key@,
            created_at: self.created_at,
        }
    }
}

/// A name that the user gave a device.
#[derive(Debug)]
pub struct NameRow {
    pub device_key: String,
    pub name: String,
    pub notes: Option<String>,
    pub updated_at: i64,
}

/// What a [`NameRow`] says.
#[verifier::ext_equal]
pub struct NameRecord {
    pub device_key: Seq<char>,
    pub name: Seq<char>,
    pub notes: Option<Seq<char>>,
    pub updated_at: i64,
}

impl DeepView for NameRow {
    type V = NameRecord;

    open spec fn deep_view(&self) -> NameRecord {
        NameRecord {
            device_key: self.device_key@,
            name: self.name@,
            notes: self.notes.deep_view(),
            updated_at: self.updated_at,
        }
    }
}

/// Presence of a device on a network (the diff engine's "previous" state).
#[derive(Debug)]
pub struct PresenceRow {
    pub device_key: String,
    pub network_key: String,
    pub first_seen: i64,
    pub last_seen: i64,
    pub miss_streak: i64,
    pub last_ip: Option<String>,
    /// A `gone` transition has already been emitted for this absence.
    pub reported_gone: bool,
}

/// What a [`PresenceRow`] says.
#[verifier::ext_equal]
pub struct PresenceRecord {
    pub device_key: Seq<char>,
    pub network_key: Seq<char>,
    pub first_seen: i64,
    pub last_seen: i64,
    pub miss_streak: i64,
    pub last_ip: Option<Seq<char>>,
    pub reported_gone: bool,
}

impl DeepView for PresenceRow {
    type V = PresenceRecord;

    open spec fn deep_view(&self) -> PresenceRecord {
        PresenceRecord {
            device_key: self.device_key@,
            network_key: self.network_key@,
            first_seen: self.first_seen,
            last_seen: self.last_seen,
            miss_streak: self.miss_streak,
            last_ip: self.last_ip.deep_view(),
            reported_gone: self.reported_gone,
        }
    }
}

/// A finished scan.
#[derive(Debug)]
pub struct ScanRow {
    pub id: i64,
    pub started_at: i64,
    pub finished_at: i64,
    pub network_key: String,
    pub partial: bool,
    pub privilege_json: String,
    pub strategies_json: String,
    pub partial_reasons: Vec<PartialReason>,
    pub stats_json: String,
}

/// What a [`ScanRow`] says.
#[verifier::ext_equal]
pub struct ScanRecord {
    pub id: i64,
    pub started_at: i64,
    pub finished_at: i64,
    pub network_key: Seq<char>,
    pub partial: bool,
    pub privilege_json: Seq<char>,
    pub strategies_json: Seq<char>,
    pub partial_reasons: Seq<crate::model::ReasonModel>,
    pub stats_json: Seq<char>,
}

impl DeepView for ScanRow {
    type V = ScanRecord;

    open spec fn deep_view(&self) -> ScanRecord {
        ScanRecord {
            id: self.id,
            started_at: self.started_at,
            finished_at: self.finished_at,
            network_key: self.network_key@,
            partial: self.partial,
            privilege_json: self.privilege_json@,
            strategies_json: self.strategies_json@,
            partial_reasons: self.partial_reasons.deep_view(),
            stats_json: self.stats_json@,
        }
    }
}

/// One raw observation of a scan.
#[derive(Debug)]
pub struct ObservationRow {
    pub scan_id: i64,
    pub at: i64,
    pub device_key: String,
    pub ip: String,
    pub mac: Option<String>,
    pub hostname: Option<String>,
    pub source: String,
    pub confidence: u8,
}

/// What an [`ObservationRow`] says.
#[verifier::ext_equal]
pub struct ObservationRecord {
    pub scan_id: i64,
    pub at: i64,
    pub device_key: Seq<char>,
    pub ip: Seq<char>,
    pub mac: Option<Seq<char>>,
    pub hostname: Option<Seq<char>>,
    pub source: Seq<char>,
    pub confidence: u8,
}

impl DeepView for ObservationRow {
    type V = ObservationRecord;

    open spec fn deep_view(&self) -> ObservationRecord {
        ObservationRecord {
            scan_id: self.scan_id,
            at: self.at,
            device_key: self.device_key@,
            ip: self.ip@,
            mac: self.mac.deep_view(),
            hostname: self.hostname.deep_view(),
            source: self.source@,
            confidence: self.confidence,
        }
    }
}

/// One recorded transition of a scan.
#[derive(Debug)]
pub struct TransitionRow {
    pub id: i64,
    pub scan_id: i64,
    pub at: i64,
    pub device_key: String,
    pub network_key: String,
    pub kind: TransitionKind,
    pub changes: Vec<FieldChange>,
}

/// What a [`TransitionRow`] says.
#[verifier::ext_equal]
pub struct TransitionRecord {
    pub id: i64,
    pub scan_id: i64,
    pub at: i64,
    pub device_key: Seq<char>,
    pub network_key: Seq<char>,
    pub kind: TransitionKind,
    pub changes: Seq<crate::model::ChangeModel>,
}

impl DeepView for TransitionRow {
    type V = TransitionRecord;

    open spec fn deep_view(&self) -> TransitionRecord {
        TransitionRecord {
            id: self.id,
            scan_id: self.scan_id,
            at: self.at,
            device_key: self.device_key@,
            network_key: self.network_key@,
            kind: self.kind,
            changes: self.changes.deep_view(),
        }
    }
}

/// One setting.
#[derive(Debug)]
pub struct SettingRow {
    pub key: String,
    pub value: String,
}

/// What a [`SettingRow`] says.
#[verifier::ext_equal]
pub struct SettingRecord {
    pub key: Seq<char>,
    pub value: Seq<char>,
}

impl DeepView for SettingRow {
    type V = SettingRecord;

    open spec fn deep_view(&self) -> SettingRecord {
        SettingRecord { key: self.key@, value: self.value@ }
    }
}

// ----- copies -----

/// A row that can be copied.
pub trait Copied: DeepView + Sized {
    fn copied(&self) -> (r: Self)
        ensures
            r.deep_view() == self.deep_view(),
    ;
}

impl Copied for NetworkRow {
    fn copied(&self) -> (r: Self) {
        NetworkRow {
            key: self.key.clone(),
            label: clone_opt(&self.label),
            subnet: clone_opt(&self.subnet),
            gateway_mac: clone_opt(&self.gateway_mac),
            first_seen: self.first_seen,
            last_seen: self.last_seen,
        }
    }
}

impl Copied for DeviceRow {
    fn copied(&self) -> (r: Self) {
        DeviceRow {
            id: self.id,
            key: self.key.clone(),
            primary_name: clone_opt(&self.primary_name),
            mac: clone_opt(&self.mac),
            vendor: clone_opt(&self.vendor),
            origin_network: self.origin_network.clone(),
            first_seen: self.first_seen,
            last_seen: self.last_seen,
        }
    }
}

impl Copied for AliasRow {
    fn copied(&self) -> (r: Self) {
        AliasRow {
            alias_key: self.alias_key.clone(),
            canonical_key: self.canonical_key.clone(),
            created_at: self.created_at,
        }
    }
}

impl Copied for NameRow {
    fn copied(&self) -> (r: Self) {
        NameRow {
            device_key: self.device_key.clone(),
            name: self.name.clone(),
            notes: clone_opt(&self.notes),
            updated_at: self.updated_at,
        }
    }
}

impl Copied for PresenceRow {
    fn copied(&self) -> (r: Self) {
        PresenceRow {
            device_key: self.device_key.clone(),
            network_key: self.network_key.clone(),
            first_seen: self.first_seen,
            last_seen: self.last_seen,
            miss_streak: self.miss_streak,
            last_ip: clone_opt(&self.last_ip),
            reported_gone: self.reported_gone,
        }
    }
}

impl Copied for ScanRow {
    fn copied(&self) -> (r: Self) {
        ScanRow {
            id: self.id,
            started_at: self.started_at,
            finished_at: self.finished_at,
            network_key: self.network_key.clone(),
            partial: self.partial,
            privilege_json: self.privilege_json.clone(),
            strategies_json: self.strategies_json.clone(),
            partial_reasons: clone_reasons(&self.partial_reasons),
            stats_json: self.stats_json.clone(),
        }
    }
}

impl Copied for ObservationRow {
    fn copied(&self) -> (r: Self) {
        ObservationRow {
            scan_id: self.scan_id,
            at: self.at,
            device_key: self.device_key.clone(),
            ip: self.ip.clone(),
            mac: clone_opt(&self.mac),
            hostname: clone_opt(&self.hostname),
            source: self.source.clone(),
            confidence: self.confidence,
        }
    }
}

impl Copied for TransitionRow {
    fn copied(&self) -> (r: Self) {
        TransitionRow {
            id: self.id,
            scan_id: self.scan_id,
            at: self.at,
            device_key: self.device_key.clone(),
            network_key: self.network_key.clone(),
            kind: self.kind,
            changes: clone_changes(&self.changes),
        }
    }
}

impl Copied for SettingRow {
    fn copied(&self) -> (r: Self) {
        SettingRow { key: self.key.clone(), value: self.value.clone() }
    }
}

/// A copy of a table.
pub fn copy_rows<T: Copied>(rows: &Vec<T>) -> (r: Vec<T>)
    ensures
        r.deep_view() == rows.deep_view(),
{
    let ghost all = rows.deep_view();
    let mut out: Vec<T> = Vec::new();
    let mut i: usize = 0;
    while i < rows.len()
        invariant
            i <= rows.len(),
            all == rows.deep_view(),
            out.deep_view() == all.take(i as int),
        decreases rows.len() - i,
    {
        let ghost so_far = out.deep_view();
        let row = rows[i].copied();
        let ghost model = row.deep_view();
        out.push(row);
        assert(out.deep_view() == so_far.push(model));
        assert(all[i as int] == rows@[i as int].deep_view());
        i = i + 1;
    }
    assert(all.take(all.len() as int) == all);
    out
}

// ----- rows with a key of their own -----

/// A row that is found by a text key.
pub trait Keyed: DeepView + Sized {
    spec fn key_of(m: Self::V) -> Seq<char>;

    fn key_text(&self) -> (r: &str)
        ensures
            r@ == Self::key_of(self.deep_view()),
    ;
}

impl Keyed for NetworkRow {
    open spec fn key_of(m: NetworkRecord) -> Seq<char> {
        m.key
    }

    fn key_text(&self) -> (r: &str) {
        self.key.as_str()
    }
}

impl Keyed for DeviceRow {
    open spec fn key_of(m: DeviceRecord) -> Seq<char> {
        m.key
    }

    fn key_text(&self) -> (r: &str) {
        self.key.as_str()
    }
}

impl Keyed for AliasRow {
    open spec fn key_of(m: AliasRecord) -> Seq<char> {
        m.alias_key
    }

    fn key_text(&self) -> (r: &str) {
        self.alias_key.as_str()
    }
}

impl Keyed for NameRow {
    open spec fn key_of(m: NameRecord) -> Seq<char> {
        m.device_key
    }

    fn key_text(&self) -> (r: &str) {
        self.device_key.as_str()
    }
}

impl Keyed for SettingRow {
    open spec fn key_of(m: SettingRecord) -> Seq<char> {
        m.key
    }

    fn key_text(&self) -> (r: &str) {
        self.key.as_str()
    }
}

/// The condition of having a key.
pub open spec fn with_key<T: Keyed>(key: Seq<char>) -> spec_fn(T::V) -> bool {
    |m: T::V| T::key_of(m) == key
}

/// Where the row with a key stands.
pub open spec fn row_index<T: Keyed>(rows: Seq<T::V>, key: Seq<char>) -> Option<int> {
    crate::seqs::first_where(rows, with_key::<T>(key))
}

/// No two rows have the same key.
pub open spec fn unique<T: Keyed>(rows: Seq<T::V>) -> bool {
    forall|i: int, j: int|
        0 <= i < j < rows.len() ==> T::key_of(#[trigger] rows[i]) != T::key_of(#[trigger] rows[j])
}

/// Find the row with a key.
pub fn find_row<T: Keyed>(rows: &Vec<T>, key: &str) -> (r: Option<usize>)
    ensures
        match r {
            Some(i) => i < rows.len() && row_index::<T>(rows.deep_view(), key@) == Some(i as int)
                && T::key_of(rows@[i as int].deep_view()) == key@,
            None => row_index::<T>(rows.deep_view(), key@) is None,
        },
{
    let ghost all = rows.deep_view();
    let ghost p = with_key::<T>(key@);
    let mut i: usize = 0;
    while i < rows.len()
        invariant
            i <= rows.len(),
            all == rows.deep_view(),
            p == with_key::<T>(key@),
            forall|j: int| 0 <= j < i ==> !p(#[trigger] all[j]),
        decreases rows.len() - i,
    {
        assert(all[i as int] == rows@[i as int].deep_view());
        if str_eq(rows[i].key_text(), key) {
            proof {
                assert(crate::seqs::is_first(all, p, i as int));
                crate::seqs::lemma_first_is(all, p, i as int);
            }
            return Some(i);
        }
        i = i + 1;
    }
    proof {
        crate::seqs::lemma_first_none(all, p);
    }
    None
}

/// What a position says of the rows.
pub proof fn lemma_row_index<T: Keyed>(rows: Seq<T::V>, key: Seq<char>)
    ensures
        match row_index::<T>(rows, key) {
            Some(i) => 0 <= i < rows.len() && T::key_of(rows[i]) == key,
            None => forall|j: int| 0 <= j < rows.len() ==> T::key_of(#[trigger] rows[j]) != key,
        },
{
    let p = with_key::<T>(key);
    crate::seqs::lemma_first_found(rows, p);
    if row_index::<T>(rows, key) is None {
        assert forall|j: int| 0 <= j < rows.len() implies T::key_of(#[trigger] rows[j]) != key by {
            assert(!p(rows[j]));
        }
    }
}

/// Where keys are unique, a row is found under its key.
pub proof fn lemma_row_found<T: Keyed>(rows: Seq<T::V>, i: int)
    requires
        unique::<T>(rows),
        0 <= i < rows.len(),
    ensures
        row_index::<T>(rows, T::key_of(rows[i])) == Some(i),
{
    let p = with_key::<T>(T::key_of(rows[i]));
    assert(crate::seqs::is_first(rows, p, i));
    crate::seqs::lemma_first_is(rows, p, i);
}

/// Replacing a row by one with the same key keeps keys unique, and the row is
/// still found where it was.
pub proof fn lemma_update_unique<T: Keyed>(rows: Seq<T::V>, i: int, row: T::V)
    requires
        unique::<T>(rows),
        0 <= i < rows.len(),
        T::key_of(row) == T::key_of(rows[i]),
    ensures
        unique::<T>(rows.update(i, row)),
        row_index::<T>(rows.update(i, row), T::key_of(row)) == Some(i),
        forall|key: Seq<char>| #[trigger]
            row_index::<T>(rows.update(i, row), key) == row_index::<T>(rows, key),
{
    let t = rows.update(i, row);
    assert forall|a: int, b: int| 0 <= a < b < t.len() implies T::key_of(#[trigger] t[a])
        != T::key_of(#[trigger] t[b]) by {
        assert(T::key_of(rows[a]) != T::key_of(rows[b]));
    }
    lemma_row_found::<T>(t, i);
    assert forall|key: Seq<char>| #[trigger] row_index::<T>(t, key) == row_index::<T>(
        rows,
        key,
    ) by {
        lemma_row_index::<T>(rows, key);
        lemma_row_index::<T>(t, key);
        match row_index::<T>(rows, key) {
            Some(k) => {
                assert(T::key_of(t[k]) == key);
                lemma_row_found::<T>(t, k);
            },
            None => {
                match row_index::<T>(t, key) {
                    Some(k) => {
                        assert(T::key_of(rows[k]) == key);
                    },
                    None => {},
                }
            },
        }
    }
}

/// Adding a row with a new key keeps keys unique; the row is found at the end
/// and every other where it was.
pub proof fn lemma_push_unique<T: Keyed>(rows: Seq<T::V>, row: T::V)
    requires
        unique::<T>(rows),
        row_index::<T>(rows, T::key_of(row)) is None,
    ensures
        unique::<T>(rows.push(row)),
        row_index::<T>(rows.push(row), T::key_of(row)) == Some(rows.len() as int),
        forall|key: Seq<char>|
            key != T::key_of(row) ==> #[trigger] row_index::<T>(rows.push(row), key)
                == row_index::<T>(rows, key),
{
    let t = rows.push(row);
    lemma_row_index::<T>(rows, T::key_of(row));
    assert forall|a: int, b: int| 0 <= a < b < t.len() implies T::key_of(#[trigger] t[a])
        != T::key_of(#[trigger] t[b]) by {
        assert(t[a] == rows[a]);
        if b < rows.len() {
            assert(t[b] == rows[b]);
        }
    }
    lemma_row_found::<T>(t, rows.len() as int);
    assert forall|key: Seq<char>| key != T::key_of(row) implies #[trigger] row_index::<T>(t, key)
        == row_index::<T>(rows, key) by {
        lemma_row_index::<T>(rows, key);
        lemma_row_index::<T>(t, key);
        match row_index::<T>(rows, key) {
            Some(k) => {
                assert(t[k] == rows[k]);
                lemma_row_found::<T>(t, k);
            },
            None => {
                match row_index::<T>(t, key) {
                    Some(k) => {
                        if k < rows.len() {
                            assert(t[k] == rows[k]);
                        }
                    },
                    None => {},
                }
            },
        }
    }
}

/// Removing a row keeps keys unique; its key is gone and every other row is
/// still there.
pub proof fn lemma_remove_unique<T: Keyed>(rows: Seq<T::V>, i: int)
    requires
        unique::<T>(rows),
        0 <= i < rows.len(),
    ensures
        unique::<T>(rows.remove(i)),
        row_index::<T>(rows.remove(i), T::key_of(rows[i])) is None,
        forall|j: int|
            0 <= j < rows.remove(i).len() ==> #[trigger] rows.remove(i)[j] == rows[if j < i {
                j
            } else {
                j + 1
            }],
{
    let t = rows.remove(i);
    assert forall|j: int| 0 <= j < t.len() implies #[trigger] t[j] == rows[if j < i {
        j
    } else {
        j + 1
    }] by {}
    assert forall|a: int, b: int| 0 <= a < b < t.len() implies T::key_of(#[trigger] t[a])
        != T::key_of(#[trigger] t[b]) by {}
    lemma_row_index::<T>(t, T::key_of(rows[i]));
    match row_index::<T>(t, T::key_of(rows[i])) {
        Some(k) => {
            let o = if k < i {
                k
            } else {
                k + 1
            };
            assert(t[k] == rows[o]);
            if o < i {
                assert(T::key_of(rows[o]) != T::key_of(rows[i]));
            } else {
                assert(T::key_of(rows[i]) != T::key_of(rows[o]));
            }
        },
        None => {},
    }
}

/// Whether no two rows have the same key.
pub fn rows_unique<T: Keyed>(rows: &Vec<T>) -> (r: bool)
    ensures
        r == unique::<T>(rows.deep_view()),
{
    let ghost all = rows.deep_view();
    let mut i: usize = 0;
    while i < rows.len()
        invariant
            i <= rows.len(),
            all == rows.deep_view(),
            forall|a: int, b: int|
                0 <= a < i && a < b < all.len() ==> T::key_of(#[trigger] all[a]) != T::key_of(
                    #[trigger] all[b],
                ),
        decreases rows.len() - i,
    {
        assert(all[i as int] == rows@[i as int].deep_view());
        let mut j: usize = i + 1;
        while j < rows.len()
            invariant
                i < j <= rows.len(),
                all == rows.deep_view(),
                all[i as int] == rows@[i as int].deep_view(),
                forall|b: int|
                    i < b < j ==> T::key_of(all[i as int]) != T::key_of(#[trigger] all[b]),
            decreases rows.len() - j,
        {
            assert(all[j as int] == rows@[j as int].deep_view());
            if str_eq(rows[i].key_text(), rows[j].key_text()) {
                assert(T::key_of(all[i as int]) == T::key_of(all[j as int]));
                return false;
            }
            j = j + 1;
        }
        i = i + 1;
    }
    true
}

// ----- rows that belong to a device -----

/// A row that belongs to a device and can be moved to another key.
pub trait Owned: DeepView + Sized {
    spec fn owner_of(m: Self::V) -> Seq<char>;

    spec fn moved(m: Self::V, to: Seq<char>) -> Self::V;

    fn owner(&self) -> (r: &str)
        ensures
            r@ == Self::owner_of(self.deep_view()),
    ;

    fn set_owner(&mut self, to: &str)
        ensures
            final(self).deep_view() == Self::moved(old(self).deep_view(), to@),
    ;
}

impl Owned for AliasRow {
    open spec fn owner_of(m: AliasRecord) -> Seq<char> {
        m.canonical_key
    }

    open spec fn moved(m: AliasRecord, to: Seq<char>) -> AliasRecord {
        AliasRecord { canonical_key: to, ..m }
    }

    fn owner(&self) -> (r: &str) {
        self.canonical_key.as_str()
    }

    fn set_owner(&mut self, to: &str) {
        self.canonical_key = to.to_string();
    }
}

impl Owned for NameRow {
    open spec fn owner_of(m: NameRecord) -> Seq<char> {
        m.device_key
    }

    open spec fn moved(m: NameRecord, to: Seq<char>) -> NameRecord {
        NameRecord { device_key: to, ..m }
    }

    fn owner(&self) -> (r: &str) {
        self.device_key.as_str()
    }

    fn set_owner(&mut self, to: &str) {
        self.device_key = to.to_string();
    }
}

impl Owned for PresenceRow {
    open spec fn owner_of(m: PresenceRecord) -> Seq<char> {
        m.device_key
    }

    open spec fn moved(m: PresenceRecord, to: Seq<char>) -> PresenceRecord {
        PresenceRecord { device_key: to, ..m }
    }

    fn owner(&self) -> (r: &str) {
        self.device_key.as_str()
    }

    fn set_owner(&mut self, to: &str) {
        self.device_key = to.to_string();
    }
}

impl Owned for ObservationRow {
    open spec fn owner_of(m: ObservationRecord) -> Seq<char> {
        m.device_key
    }

    open spec fn moved(m: ObservationRecord, to: Seq<char>) -> ObservationRecord {
        ObservationRecord { device_key: to, ..m }
    }

    fn owner(&self) -> (r: &str) {
        self.device_key.as_str()
    }

    fn set_owner(&mut self, to: &str) {
        self.device_key = to.to_string();
    }
}

impl Owned for TransitionRow {
    open spec fn owner_of(m: TransitionRecord) -> Seq<char> {
        m.device_key
    }

    open spec fn moved(m: TransitionRecord, to: Seq<char>) -> TransitionRecord {
        TransitionRecord { device_key: to, ..m }
    }

    fn owner(&self) -> (r: &str) {
        self.device_key.as_str()
    }

    fn set_owner(&mut self, to: &str) {
        self.device_key = to.to_string();
    }
}

/// A table after the rows of one device were moved to another key.
pub open spec fn repointed<T: Owned>(rows: Seq<T::V>, from: Seq<char>, to: Seq<char>) -> Seq<T::V> {
    Seq::new(
        rows.len(),
        |i: int|
            if T::owner_of(rows[i]) == from {
                T::moved(rows[i], to)
            } else {
                rows[i]
            },
    )
}

/// Move the rows of one device to another key.
pub fn repoint<T: Owned>(rows: &mut Vec<T>, from: &str, to: &str)
    ensures
        final(rows).deep_view() == repointed::<T>(old(rows).deep_view(), from@, to@),
{
    let ghost all = rows.deep_view();
    let ghost want = repointed::<T>(all, from@, to@);
    let n: usize = rows.len();
    let mut i: usize = 0;
    while i < n
        invariant
            i <= n == rows.len(),
            all.len() == n,
            want == repointed::<T>(all, from@, to@),
            rows.deep_view() == want.take(i as int) + all.skip(i as int),
        decreases n - i,
    {
        let ghost before = rows.deep_view();
        assert(before[i as int] == all[i as int]);
        assert(before[i as int] == rows@[i as int].deep_view());
        if str_eq(rows[i].owner(), from) {
            rows[i].set_owner(to);
            assert(rows.deep_view() == before.update(i as int, T::moved(all[i as int], to@)));
        }
        assert(rows.deep_view() == before.update(i as int, want[i as int]));
        assert(rows.deep_view() == want.take(i + 1) + all.skip(i + 1));
        i = i + 1;
    }
    assert(want.take(n as int) + all.skip(n as int) == want);
}

// ----- newest first -----

/// Something that happened at a time.
pub trait Timed: DeepView + Sized {
    spec fn time_of(m: Self::V) -> int;

    fn at_time(&self) -> (r: i64)
        ensures
            r == Self::time_of(self.deep_view()),
    ;
}

impl Timed for NetworkRow {
    open spec fn time_of(m: NetworkRecord) -> int {
        m.last_seen as int
    }

    fn at_time(&self) -> (r: i64) {
        self.last_seen
    }
}

impl Timed for DeviceRow {
    open spec fn time_of(m: DeviceRecord) -> int {
        m.last_seen as int
    }

    fn at_time(&self) -> (r: i64) {
        self.last_seen
    }
}

impl Timed for crate::model::HistoryEvent {
    open spec fn time_of(m: crate::model::EventModel) -> int {
        m.when() as int
    }

    fn at_time(&self) -> (r: i64) {
        self.time()
    }
}

/// A value put among others in order of time, latest first, behind those of
/// the same time.
pub open spec fn timed_in<A>(s: Seq<A>, x: A, time: spec_fn(A) -> int) -> Seq<A>
    decreases s.len(),
{
    if s.len() == 0 {
        seq![x]
    } else if time(s.last()) >= time(x) {
        s.push(x)
    } else {
        timed_in(s.drop_last(), x, time).push(s.last())
    }
}

/// Values in order of time, latest first; those of the same time stay in the
/// order they had.
pub open spec fn newest_first<A>(s: Seq<A>, time: spec_fn(A) -> int) -> Seq<A>
    decreases s.len(),
{
    if s.len() == 0 {
        Seq::empty()
    } else {
        timed_in(newest_first(s.drop_last(), time), s.last(), time)
    }
}

/// The time of a value, by its kind.
pub open spec fn time_by<T: Timed>() -> spec_fn(T::V) -> int {
    |m: T::V| T::time_of(m)
}

/// Put a value among others in order of time.
fn time_in<T: Timed>(v: &mut Vec<T>, x: T)
    ensures
        final(v).deep_view() == timed_in(old(v).deep_view(), x.deep_view(), time_by::<T>()),
{
    let ghost all = v.deep_view();
    let ghost m = x.deep_view();
    let ghost f = time_by::<T>();
    let mut i: usize = v.len();
    assert(all.take(v.len() as int) == all);
    assert(timed_in(all, m, f) == timed_in(all, m, f) + all.skip(v.len() as int));
    while i > 0 && v[i - 1].at_time() < x.at_time()
        invariant
            i <= v.len(),
            all == v.deep_view(),
            m == x.deep_view(),
            f == time_by::<T>(),
            timed_in(all, m, f) == timed_in(all.take(i as int), m, f) + all.skip(i as int),
        decreases i,
    {
        assert(all[i - 1] == v@[i - 1].deep_view());
        assert(all.take(i as int).drop_last() == all.take(i - 1));
        assert(all.skip(i - 1) == seq![all[i - 1]] + all.skip(i as int));
        assert(timed_in(all.take(i - 1), m, f).push(all[i - 1]) + all.skip(i as int) == timed_in(
            all.take(i - 1),
            m,
            f,
        ) + all.skip(i - 1));
        i = i - 1;
    }
    proof {
        if i > 0 {
            assert(all[i - 1] == v@[i - 1].deep_view());
            assert(all.take(i as int).last() == all[i - 1]);
        } else {
            assert(all.take(0) == Seq::<T::V>::empty());
        }
    }
    v.insert(i, x);
    assert(v.deep_view() == all.take(i as int).push(m) + all.skip(i as int));
    assert(timed_in(all.take(i as int), m, f) == all.take(i as int).push(m));
}

/// Sort by time, latest first.
pub fn sort_newest<T: Timed>(v: Vec<T>) -> (r: Vec<T>)
    ensures
        r.deep_view() == newest_first(v.deep_view(), time_by::<T>()),
{
    let ghost all = v.deep_view();
    let ghost f = time_by::<T>();
    let mut rest = v;
    let mut out: Vec<T> = Vec::new();
    let n: usize = rest.len();
    let mut j: usize = 0;
    assert(all.skip(0) == all);
    while j < n
        invariant
            j <= n == all.len(),
            f == time_by::<T>(),
            rest.len() == n - j,
            rest.deep_view() == all.skip(j as int),
            out.deep_view() == newest_first(all.take(j as int), f),
        decreases n - j,
    {
        let ghost before = rest.deep_view();
        let ghost raw = rest@;
        let x = rest.remove(0);
        assert(x.deep_view() == before[0]);
        assert(rest.deep_view() == before.skip(1)) by {
            assert(forall|k: int| 0 <= k < rest@.len() ==> rest@[k] == raw[k + 1]);
        }
        assert(before.skip(1) == all.skip(j + 1));
        assert(all.take(j + 1).drop_last() == all.take(j as int));
        time_in(&mut out, x);
        j = j + 1;
    }
    assert(all.take(n as int) == all);
    out
}

/// Putting a value in order keeps the order and adds nothing else.
proof fn lemma_timed_in<A>(s: Seq<A>, x: A, time: spec_fn(A) -> int)
    requires
        forall|i: int, j: int| 0 <= i < j < s.len() ==> time(#[trigger] s[i]) >= time(#[trigger] s[j]),
    ensures
        ({
            let t = timed_in(s, x, time);
            &&& t.len() == s.len() + 1
            &&& forall|i: int, j: int|
                0 <= i < j < t.len() ==> time(#[trigger] t[i]) >= time(#[trigger] t[j])
            &&& forall|y: A| #[trigger] t.contains(y) <==> s.contains(y) || y == x
        }),
    decreases s.len(),
{
    let t = timed_in(s, x, time);
    if s.len() == 0 {
        assert(t[0] == x);
    } else if time(s.last()) >= time(x) {
        crate::text::lemma_push_contains(s, x);
        assert forall|i: int, j: int| 0 <= i < j < t.len() implies time(#[trigger] t[i]) >= time(
            #[trigger] t[j],
        ) by {
            if j == s.len() && i < s.len() - 1 {
                assert(time(s[i]) >= time(s[s.len() - 1]));
            }
        }
    } else {
        let init = s.drop_last();
        assert forall|i: int, j: int| 0 <= i < j < init.len() implies time(#[trigger] init[i])
            >= time(#[trigger] init[j]) by {
            assert(init[i] == s[i] && init[j] == s[j]);
        }
        lemma_timed_in(init, x, time);
        let p = timed_in(init, x, time);
        assert forall|i: int, j: int| 0 <= i < j < t.len() implies time(#[trigger] t[i]) >= time(
            #[trigger] t[j],
        ) by {
            if j == p.len() {
                assert(p.contains(p[i]));
                if p[i] != x {
                    let k = choose|k: int| 0 <= k < init.len() && init[k] == p[i];
                    assert(time(s[k]) >= time(s[s.len() - 1]));
                }
            }
        }
        crate::text::lemma_push_contains(p, s.last());
        crate::text::lemma_push_contains(init, s.last());
        assert(init.push(s.last()) == s);
    }
}

/// Sorting by time puts later before earlier and keeps exactly what there was.
pub proof fn lemma_newest_first<A>(s: Seq<A>, time: spec_fn(A) -> int)
    ensures
        ({
            let t = newest_first(s, time);
            &&& t.len() == s.len()
            &&& forall|i: int, j: int|
                0 <= i < j < t.len() ==> time(#[trigger] t[i]) >= time(#[trigger] t[j])
            &&& forall|y: A| #[trigger] t.contains(y) <==> s.contains(y)
        }),
    decreases s.len(),
{
    if s.len() > 0 {
        lemma_newest_first(s.drop_last(), time);
        lemma_timed_in(newest_first(s.drop_last(), time), s.last(), time);
        crate::text::lemma_push_contains(s.drop_last(), s.last());
        assert(s.drop_last().push(s.last()) == s);
    }
}

/// Putting a value in order adds it once.
proof fn lemma_timed_in_once<A>(s: Seq<A>, x: A, time: spec_fn(A) -> int)
    ensures
        timed_in(s, x, time).to_multiset() == s.to_multiset().insert(x),
    decreases s.len(),
{
    s.to_multiset_ensures();
    if s.len() == 0 {
        assert(timed_in(s, x, time) =~= s.push(x));
    } else if time(s.last()) >= time(x) {
    } else {
        let init = s.drop_last();
        lemma_timed_in_once(init, x, time);
        init.to_multiset_ensures();
        timed_in(init, x, time).to_multiset_ensures();
        assert(init.push(s.last()) =~= s);
        assert(init.to_multiset().insert(x).insert(s.last()) =~= init.to_multiset().insert(
            s.last(),
        ).insert(x));
    }
}

/// Sorting by time keeps every value as often as it was there.
pub proof fn lemma_newest_first_multiset<A>(s: Seq<A>, time: spec_fn(A) -> int)
    ensures
        newest_first(s, time).to_multiset() == s.to_multiset(),
    decreases s.len(),
{
    if s.len() > 0 {
        let init = s.drop_last();
        lemma_newest_first_multiset(init, time);
        lemma_timed_in_once(newest_first(init, time), s.last(), time);
        init.to_multiset_ensures();
        assert(init.push(s.last()) =~= s);
    } else {
        assert(s =~= Seq::<A>::empty());
    }
}

} // verus!
