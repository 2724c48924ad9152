//! The inventory store.
//!
//! The inventory is a set of tables: networks, devices, aliases between
//! device keys, names the user gave, presence of devices on networks, scans
//! with their observations and transitions, and settings. All timestamps are
//! unix seconds (UTC). The tables are held in memory; a database file is read
//! into them and written from them as a whole.

use vstd::prelude::*;
use vstd::string::*;

use crate::num::parse_u32;
use crate::store::alias::presence_is_unique;
use crate::store::rows::{
    copy_rows, find_row, rows_unique, AliasRow, Copied, DeviceRow, Keyed, NameRow, NetworkRow, ObservationRow,
    PresenceRow, ScanRow, SettingRow, TransitionRow,
};
use crate::text::str_eq;

pub mod alias;
pub mod devices;
pub mod listing;
pub mod names;
pub mod networks;
pub mod presence;
pub mod rows;
pub mod scans;
pub mod schema;

verus! {

/// Why the store refused.
#[derive(Debug, Clone, Copy, PartialEq, Eq, Structural)]
pub enum StoreError {
    /// No id is left for another row.
    Full,
    /// Two rows would share a key that must be unique.
    Conflict,
    /// A row refers to a scan that is not there.
    NoSuchScan,
    /// The row that was asked for is not there.
    NoRow,
    /// A number would leave its range.
    Range,
    /// Tables that contradict each other.
    Corrupt,
}

impl StoreError {
    pub open spec fn text(self) -> Seq<char> {
        match self {
            StoreError::Full => "database error: no id is left for another row"@,
            StoreError::Conflict => "database error: two rows would share a unique key"@,
            StoreError::NoSuchScan => "database error: no such scan"@,
            StoreError::NoRow => "database error: no such row"@,
            StoreError::Range => "database error: a number is out of range"@,
            StoreError::Corrupt => "database error: the tables contradict each other"@,
        }
    }

    /// The error as a message.
    pub fn message(self) -> (r: &'static str)
        ensures
            r@ == self.text(),
    {
        match self {
            StoreError::Full => "database error: no id is left for another row",
            StoreError::Conflict => "database error: two rows would share a unique key",
            StoreError::NoSuchScan => "database error: no such scan",
            StoreError::NoRow => "database error: no such row",
            StoreError::Range => "database error: a number is out of range",
            StoreError::Corrupt => "database error: the tables contradict each other",
        }
    }
}

/// The inventory.
#[derive(Debug)]
pub struct Store {
    pub networks: Vec<NetworkRow>,
    pub devices: Vec<DeviceRow>,
    pub aliases: Vec<AliasRow>,
    pub names: Vec<NameRow>,
    pub presence: Vec<PresenceRow>,
    pub scans: Vec<ScanRow>,
    pub observations: Vec<ObservationRow>,
    pub transitions: Vec<TransitionRow>,
    pub settings: Vec<SettingRow>,
    /// The largest id any device ever had.
    pub device_seq: i64,
    /// The largest id any scan ever had.
    pub scan_seq: i64,
    /// The largest id any transition ever had.
    pub transition_seq: i64,
}

/// What a [`Store`] holds.
#[verifier::ext_equal]
pub struct StoreModel {
    pub networks: Seq<rows::NetworkRecord>,
    pub devices: Seq<rows::DeviceRecord>,
    pub aliases: Seq<rows::AliasRecord>,
    pub names: Seq<rows::NameRecord>,
    pub presence: Seq<rows::PresenceRecord>,
    pub scans: Seq<rows::ScanRecord>,
    pub observations: Seq<rows::ObservationRecord>,
    pub transitions: Seq<rows::TransitionRecord>,
    pub settings: Seq<rows::SettingRecord>,
    pub device_seq: i64,
    pub scan_seq: i64,
    pub transition_seq: i64,
}

impl DeepView for Store {
    type V = StoreModel;

    open spec fn deep_view(&self) -> StoreModel {
        StoreModel {
            networks: self.networks.deep_view(),
            devices: self.devices.deep_view(),
            aliases: self.aliases.deep_view(),
            names: self.names.deep_view(),
            presence: self.presence.deep_view(),
            scans: self.scans.deep_view(),
            observations: self.observations.deep_view(),
            transitions: self.transitions.deep_view(),
            settings: self.settings.deep_view(),
            device_seq: self.device_seq,
            scan_seq: self.scan_seq,
            transition_seq: self.transition_seq,
        }
    }
}

/// No device is on a network twice.
pub open spec fn presence_unique(rows: Seq<rows::PresenceRecord>) -> bool {
    forall|i: int, j: int|
        0 <= i < j < rows.len() ==> (#[trigger] rows[i]).device_key != (#[trigger] rows[j]).device_key
            || rows[i].network_key != rows[j].network_key
}

/// Ids of devices differ and none is above the largest ever given.
pub open spec fn device_ids_ok(rows: Seq<rows::DeviceRecord>, seq: i64) -> bool {
    &&& forall|i: int| 0 <= i < rows.len() ==> (#[trigger] rows[i]).id <= seq
    &&& forall|i: int, j: int|
        0 <= i < j < rows.len() ==> (#[trigger] rows[i]).id != (#[trigger] rows[j]).id
}

/// Ids of scans grow in the order of the table, up to the largest ever given.
pub open spec fn scan_ids_ok(rows: Seq<rows::ScanRecord>, seq: i64) -> bool {
    &&& forall|i: int| 0 <= i < rows.len() ==> (#[trigger] rows[i]).id <= seq
    &&& forall|i: int, j: int|
        0 <= i < j < rows.len() ==> (#[trigger] rows[i]).id < (#[trigger] rows[j]).id
}

/// Ids of transitions grow in the order of the table, up to the largest ever
/// given.
pub open spec fn transition_ids_ok(rows: Seq<rows::TransitionRecord>, seq: i64) -> bool {
    &&& forall|i: int| 0 <= i < rows.len() ==> (#[trigger] rows[i]).id <= seq
    &&& forall|i: int, j: int|
        0 <= i < j < rows.len() ==> (#[trigger] rows[i]).id < (#[trigger] rows[j]).id
}

/// A scan with this id is there.
pub open spec fn has_scan(scans: Seq<rows::ScanRecord>, id: i64) -> bool {
    exists|i: int| 0 <= i < scans.len() && (#[trigger] scans[i]).id == id
}

impl StoreModel {
    /// The tables are consistent: keys are unique, ids are distinct, and what
    /// was observed belongs to a scan.
    pub open spec fn wf(self) -> bool {
        &&& rows::unique::<NetworkRow>(self.networks)
        &&& rows::unique::<DeviceRow>(self.devices)
        &&& rows::unique::<AliasRow>(self.aliases)
        &&& rows::unique::<NameRow>(self.names)
        &&& rows::unique::<SettingRow>(self.settings)
        &&& presence_unique(self.presence)
        &&& device_ids_ok(self.devices, self.device_seq)
        &&& scan_ids_ok(self.scans, self.scan_seq)
        &&& transition_ids_ok(self.transitions, self.transition_seq)
        &&& forall|i: int|
            0 <= i < self.observations.len() ==> has_scan(
                self.scans,
                (#[trigger] self.observations[i]).scan_id,
            )
        &&& forall|i: int|
            0 <= i < self.transitions.len() ==> has_scan(
                self.scans,
                (#[trigger] self.transitions[i]).scan_id,
            )
    }
}

/// A scan's worth of changes in the making: nothing of it is in the store
/// until it is committed.
#[derive(Debug)]
pub struct Transaction {
    pub work: Store,
}

impl DeepView for Transaction {
    type V = StoreModel;

    open spec fn deep_view(&self) -> StoreModel {
        self.work.deep_view()
    }
}

/// A table with one setting.
pub open spec fn setting(key: Seq<char>, value: Seq<char>) -> rows::SettingRecord {
    rows::SettingRecord { key, value }
}

/// The settings of a new inventory.
pub open spec fn default_settings() -> Seq<rows::SettingRecord> {
    seq![
        setting("grace_scans"@, "2"@),
        setting("observations_retention_days"@, "90"@),
        setting(
            "enabled_strategies"@,
            "[\"arp-cache\",\"ping-sweep\",\"mdns\",\"ssdp\",\"netbios\",\"arp-ping\"]"@,
        ),
    ]
}

/// A new inventory.
pub open spec fn empty_store() -> StoreModel {
    StoreModel {
        networks: Seq::empty(),
        devices: Seq::empty(),
        aliases: Seq::empty(),
        names: Seq::empty(),
        presence: Seq::empty(),
        scans: Seq::empty(),
        observations: Seq::empty(),
        transitions: Seq::empty(),
        settings: default_settings(),
        device_seq: 0,
        scan_seq: 0,
        transition_seq: 0,
    }
}

/// The value of a setting.
pub open spec fn setting_of(s: Seq<rows::SettingRecord>, key: Seq<char>) -> Option<Seq<char>> {
    match rows::row_index::<SettingRow>(s, key) {
        Some(i) => Some(s[i].value),
        None => None,
    }
}

/// The settings after one was set.
pub open spec fn with_setting(
    s: Seq<rows::SettingRecord>,
    key: Seq<char>,
    value: Seq<char>,
) -> Seq<rows::SettingRecord> {
    match rows::row_index::<SettingRow>(s, key) {
        Some(i) => s.update(i, setting(key, value)),
        None => s.push(setting(key, value)),
    }
}

/// How many misses it takes to announce an absence: the setting, or two where
/// it is missing or no number.
pub open spec fn grace_of(s: Seq<rows::SettingRecord>) -> nat {
    match setting_of(s, "grace_scans"@) {
        Some(v) => match crate::num::unsigned_text(v, 10, u32::MAX as nat) {
            Some(n) => n,
            None => 2,
        },
        None => 2,
    }
}

/// A setting that a frontend may change.
pub open spec fn writable_setting(key: Seq<char>) -> bool {
    key == "grace_scans"@ || key == "observations_retention_days"@ || key == "enabled_strategies"@
}

impl Store {
    /// A new inventory with the default settings.
    pub fn new() -> (r: Store)
        ensures
            r.deep_view() == empty_store(),
            r.deep_view().wf(),
    {
        let mut settings: Vec<SettingRow> = Vec::new();
        settings.push(SettingRow { key: "grace_scans".to_string(), value: "2".to_string() });
        settings.push(
            SettingRow {
                key: "observations_retention_days".to_string(),
                value: "90".to_string(),
            },
        );
        settings.push(
            SettingRow {
                key: "enabled_strategies".to_string(),
                value:
                    "[\"arp-cache\",\"ping-sweep\",\"mdns\",\"ssdp\",\"netbios\",\"arp-ping\"]".to_string(),
            },
        );
        assert(settings.deep_view() == default_settings());
        proof {
            reveal_strlit("grace_scans");
            reveal_strlit("observations_retention_days");
            reveal_strlit("enabled_strategies");
            assert("grace_scans"@.len() != "observations_retention_days"@.len());
            assert("grace_scans"@.len() != "enabled_strategies"@.len());
            assert("observations_retention_days"@.len() != "enabled_strategies"@.len());
        }
        let r = Store {
            networks: Vec::new(),
            devices: Vec::new(),
            aliases: Vec::new(),
            names: Vec::new(),
            presence: Vec::new(),
            scans: Vec::new(),
            observations: Vec::new(),
            transitions: Vec::new(),
            settings,
            device_seq: 0,
            scan_seq: 0,
            transition_seq: 0,
        };
        assert(r.deep_view() == empty_store());
        r
    }

    /// Accept tables that were read from elsewhere, if they are consistent.
    pub fn from_tables(self) -> (r: Result<Store, StoreError>)
        ensures
            match r {
                Ok(s) => s.deep_view() == self.deep_view() && s.deep_view().wf(),
                Err(e) => e == StoreError::Corrupt && !self.deep_view().wf(),
            },
    {
        if rows_unique(&self.networks) && rows_unique(&self.devices) && rows_unique(&self.aliases)
            && rows_unique(&self.names) && rows_unique(&self.settings) && presence_is_unique(
            &self.presence,
        ) && self.device_ids_consistent() && self.scan_ids_consistent()
            && self.transition_ids_consistent() && self.scans_are_there() {
            Ok(self)
        } else {
            Err(StoreError::Corrupt)
        }
    }

    /// Whether ids of devices differ and none is above the largest ever given.
    fn device_ids_consistent(&self) -> (r: bool)
        ensures
            r == device_ids_ok(self.deep_view().devices, self.device_seq),
    {
        let ghost all = self.devices.deep_view();
        let mut i: usize = 0;
        while i < self.devices.len()
            invariant
                i <= self.devices.len(),
                all == self.devices.deep_view(),
                forall|a: int| 0 <= a < i ==> (#[trigger] all[a]).id <= self.device_seq,
                forall|a: int, b: int|
                    0 <= a < i && a < b < all.len() ==> (#[trigger] all[a]).id != (
                    #[trigger] all[b]).id,
            decreases self.devices.len() - i,
        {
            assert(all[i as int] == self.devices@[i as int].deep_view());
            if self.devices[i].id > self.device_seq {
                assert(all[i as int].id > self.device_seq);
                return false;
            }
            let mut j: usize = i + 1;
            while j < self.devices.len()
                invariant
                    i < j <= self.devices.len(),
                    all == self.devices.deep_view(),
                    all[i as int] == self.devices@[i as int].deep_view(),
                    forall|b: int| i < b < j ==> all[i as int].id != (#[trigger] all[b]).id,
                decreases self.devices.len() - j,
            {
                assert(all[j as int] == self.devices@[j as int].deep_view());
                if self.devices[i].id == self.devices[j].id {
                    assert(all[i as int].id == all[j as int].id);
                    return false;
                }
                j = j + 1;
            }
            i = i + 1;
        }
        true
    }

    /// Whether ids of scans grow in the order of the table.
    fn scan_ids_consistent(&self) -> (r: bool)
        ensures
            r == scan_ids_ok(self.deep_view().scans, self.scan_seq),
    {
        let ghost all = self.scans.deep_view();
        let mut i: usize = 0;
        while i < self.scans.len()
            invariant
                i <= self.scans.len(),
                all == self.scans.deep_view(),
                forall|a: int| 0 <= a < i ==> (#[trigger] all[a]).id <= self.scan_seq,
                forall|a: int, b: int|
                    0 <= a < b < i ==> (#[trigger] all[a]).id < (#[trigger] all[b]).id,
            decreases self.scans.len() - i,
        {
            assert(all[i as int] == self.scans@[i as int].deep_view());
            if self.scans[i].id > self.scan_seq {
                assert(all[i as int].id > self.scan_seq);
                return false;
            }
            if i > 0 {
                assert(all[i - 1] == self.scans@[i - 1].deep_view());
                if self.scans[i - 1].id >= self.scans[i].id {
                    assert(all[i - 1].id >= all[i as int].id);
                    return false;
                }
            }
            i = i + 1;
        }
        true
    }

    /// Whether ids of transitions grow in the order of the table.
    fn transition_ids_consistent(&self) -> (r: bool)
        ensures
            r == transition_ids_ok(self.deep_view().transitions, self.transition_seq),
    {
        let ghost all = self.transitions.deep_view();
        let mut i: usize = 0;
        while i < self.transitions.len()
            invariant
                i <= self.transitions.len(),
                all == self.transitions.deep_view(),
                forall|a: int| 0 <= a < i ==> (#[trigger] all[a]).id <= self.transition_seq,
                forall|a: int, b: int|
                    0 <= a < b < i ==> (#[trigger] all[a]).id < (#[trigger] all[b]).id,
            decreases self.transitions.len() - i,
        {
            assert(all[i as int] == self.transitions@[i as int].deep_view());
            if self.transitions[i].id > self.transition_seq {
                assert(all[i as int].id > self.transition_seq);
                return false;
            }
            if i > 0 {
                assert(all[i - 1] == self.transitions@[i - 1].deep_view());
                if self.transitions[i - 1].id >= self.transitions[i].id {
                    assert(all[i - 1].id >= all[i as int].id);
                    return false;
                }
            }
            i = i + 1;
        }
        true
    }

    /// Whether what was recorded belongs to scans that are there.
    fn scans_are_there(&self) -> (r: bool)
        ensures
            r == ({
                let m = self.deep_view();
                &&& forall|i: int|
                    0 <= i < m.observations.len() ==> has_scan(
                        m.scans,
                        (#[trigger] m.observations[i]).scan_id,
                    )
                &&& forall|i: int|
                    0 <= i < m.transitions.len() ==> has_scan(
                        m.scans,
                        (#[trigger] m.transitions[i]).scan_id,
                    )
            }),
    {
        let ghost m = self.deep_view();
        let mut i: usize = 0;
        while i < self.observations.len()
            invariant
                i <= self.observations.len(),
                m == self.deep_view(),
                forall|a: int|
                    0 <= a < i ==> has_scan(m.scans, (#[trigger] m.observations[a]).scan_id),
            decreases self.observations.len() - i,
        {
            assert(m.observations[i as int] == self.observations@[i as int].deep_view());
            if self.find_scan(self.observations[i].scan_id).is_none() {
                assert(!has_scan(m.scans, m.observations[i as int].scan_id));
                return false;
            }
            i = i + 1;
        }
        let mut j: usize = 0;
        while j < self.transitions.len()
            invariant
                j <= self.transitions.len(),
                m == self.deep_view(),
                forall|a: int|
                    0 <= a < m.observations.len() ==> has_scan(
                        m.scans,
                        (#[trigger] m.observations[a]).scan_id,
                    ),
                forall|a: int|
                    0 <= a < j ==> has_scan(m.scans, (#[trigger] m.transitions[a]).scan_id),
            decreases self.transitions.len() - j,
        {
            assert(m.transitions[j as int] == self.transitions@[j as int].deep_view());
            if self.find_scan(self.transitions[j].scan_id).is_none() {
                assert(!has_scan(m.scans, m.transitions[j as int].scan_id));
                return false;
            }
            j = j + 1;
        }
        true
    }

    /// A copy of the whole inventory.
    pub fn copied(&self) -> (r: Store)
        ensures
            r.deep_view() == self.deep_view(),
    {
        let r = Store {
            networks: copy_rows(&self.networks),
            devices: copy_rows(&self.devices),
            aliases: copy_rows(&self.aliases),
            names: copy_rows(&self.names),
            presence: copy_rows(&self.presence),
            scans: copy_rows(&self.scans),
            observations: copy_rows(&self.observations),
            transitions: copy_rows(&self.transitions),
            settings: copy_rows(&self.settings),
            device_seq: self.device_seq,
            scan_seq: self.scan_seq,
            transition_seq: self.transition_seq,
        };
        assert(r.deep_view() == self.deep_view());
        r
    }

    /// Begin a transaction on a copy of the inventory as it stands.
    pub fn begin(&self) -> (r: Result<Transaction, StoreError>)
        ensures
            r is Ok,
            r.unwrap().deep_view() == self.deep_view(),
    {
        Ok(Transaction { work: self.copied() })
    }

    /// Put everything a transaction did into effect at once.
    pub fn commit(&mut self, tx: Transaction) -> (r: Result<(), StoreError>)
        ensures
            r is Ok,
            final(self).deep_view() == tx.deep_view(),
    {
        *self = tx.work;
        Ok(())
    }

    // ----- settings -----

    /// The value of a setting.
    pub fn get_setting(&self, key: &str) -> (r: Option<String>)
        ensures
            r.deep_view() == setting_of(self.deep_view().settings, key@),
    {
        match find_row(&self.settings, key) {
            Some(i) => Some(self.settings[i].value.clone()),
            None => None,
        }
    }

    /// Change a setting, or add it.
    pub fn set_setting(&mut self, key: &str, value: &str) -> (r: Result<(), StoreError>)
        requires
            old(self).deep_view().wf(),
        ensures
            r is Ok,
            final(self).deep_view() == (StoreModel {
                settings: with_setting(old(self).deep_view().settings, key@, value@),
                ..old(self).deep_view()
            }),
            final(self).deep_view().wf(),
    {
        let ghost before = self.settings.deep_view();
        let row = SettingRow { key: key.to_string(), value: value.to_string() };
        match find_row(&self.settings, key) {
            Some(i) => {
                self.settings.set(i, row);
                assert(self.settings.deep_view() == before.update(i as int, setting(key@, value@)));
            },
            None => {
                self.settings.push(row);
                assert(self.settings.deep_view() == before.push(setting(key@, value@)));
            },
        }
        proof {
            law_setting_reads_back(before, key@, value@);
        }
        Ok(())
    }

    /// How many consecutive misses it takes to announce an absence.
    pub fn grace_scans(&self) -> (r: u32)
        ensures
            r == grace_of(self.deep_view().settings),
    {
        match self.get_setting("grace_scans") {
            Some(v) => match parse_u32(v.as_str()) {
                Some(n) => n,
                None => 2,
            },
            None => 2,
        }
    }

    /// Whether a frontend may change a setting.
    pub fn is_writable_setting(key: &str) -> (r: bool)
        ensures
            r == writable_setting(key@),
    {
        str_eq(key, "grace_scans") || str_eq(key, "observations_retention_days") || str_eq(
            key,
            "enabled_strategies",
        )
    }

    /// The settings that a frontend may change.
    pub fn writable_settings() -> (r: Vec<&'static str>)
        ensures
            r.deep_view() == seq![
                "grace_scans"@,
                "observations_retention_days"@,
                "enabled_strategies"@,
            ],
    {
        let mut v: Vec<&'static str> = Vec::new();
        v.push("grace_scans");
        v.push("observations_retention_days");
        v.push("enabled_strategies");
        assert(v.deep_view() == seq![
            "grace_scans"@,
            "observations_retention_days"@,
            "enabled_strategies"@,
        ]);
        v
    }
}

/// A setting reads back as it was set, and setting one leaves the others as
/// they were.
pub proof fn law_setting_reads_back(s: Seq<rows::SettingRecord>, key: Seq<char>, value: Seq<char>)
    requires
        rows::unique::<SettingRow>(s),
    ensures
        rows::unique::<SettingRow>(with_setting(s, key, value)),
        setting_of(with_setting(s, key, value), key) == Some(value),
        forall|other: Seq<char>|
            other != key ==> #[trigger] setting_of(with_setting(s, key, value), other)
                == setting_of(s, other),
{
    rows::lemma_row_index::<SettingRow>(s, key);
    let t = with_setting(s, key, value);
    let at: int = match rows::row_index::<SettingRow>(s, key) {
        Some(i) => i,
        None => s.len() as int,
    };
    assert(t[at] == setting(key, value));
    assert(rows::unique::<SettingRow>(t)) by {
        assert forall|i: int, j: int| 0 <= i < j < t.len() implies <SettingRow as Keyed>::key_of(
            #[trigger] t[i],
        ) != <SettingRow as Keyed>::key_of(#[trigger] t[j]) by {
            if i != at {
                assert(t[i] == s[i]);
            }
            if j != at {
                assert(t[j] == s[j]);
            }
        }
    }
    rows::lemma_row_found::<SettingRow>(t, at);
    assert forall|other: Seq<char>| other != key implies #[trigger] setting_of(t, other)
        == setting_of(s, other) by {
        rows::lemma_row_index::<SettingRow>(s, other);
        rows::lemma_row_index::<SettingRow>(t, other);
        match rows::row_index::<SettingRow>(s, other) {
            Some(j) => {
                assert(t[j] == s[j]);
                rows::lemma_row_found::<SettingRow>(t, j);
            },
            None => {
                match rows::row_index::<SettingRow>(t, other) {
                    Some(j) => {
                        if j != at {
                            assert(s[j] == t[j]);
                        }
                    },
                    None => {},
                }
            },
        }
    }
}

/// A new inventory announces an absence after two misses and keeps what it
/// observed for ninety days; nothing is in it.
pub proof fn law_new_store()
    ensures
        ({
            let m = empty_store();
            &&& grace_of(m.settings) == 2
            &&& setting_of(m.settings, "observations_retention_days"@) == Some("90"@)
            &&& m.networks.len() == 0 && m.devices.len() == 0 && m.aliases.len() == 0
            &&& m.names.len() == 0 && m.presence.len() == 0 && m.scans.len() == 0
            &&& m.observations.len() == 0 && m.transitions.len() == 0
        }),
{
    reveal_strlit("grace_scans");
    reveal_strlit("observations_retention_days");
    reveal_strlit("enabled_strategies");
    reveal_strlit("2");
    assert("grace_scans"@.len() != "observations_retention_days"@.len());
    assert("grace_scans"@.len() != "enabled_strategies"@.len());
    assert("observations_retention_days"@.len() != "enabled_strategies"@.len());
    let s = default_settings();
    assert(s[0].key == "grace_scans"@ && s[1].key == "observations_retention_days"@ && s[2].key
        == "enabled_strategies"@);
    assert(rows::unique::<SettingRow>(s));
    rows::lemma_row_found::<SettingRow>(s, 0);
    rows::lemma_row_found::<SettingRow>(s, 1);
    crate::num::law_unsigned_roundtrip(2, u32::MAX as nat);
    assert(crate::num::dec(2) =~= "2"@);
}

/// The grace is the number that its setting holds, and two where the setting
/// holds no number.
pub proof fn law_grace_is_as_set(s: Seq<rows::SettingRecord>, n: nat, value: Seq<char>)
    requires
        rows::unique::<SettingRow>(s),
        n <= u32::MAX,
    ensures
        grace_of(with_setting(s, "grace_scans"@, crate::num::dec(n))) == n,
        crate::num::unsigned_text(value, 10, u32::MAX as nat) is None ==> grace_of(
            with_setting(s, "grace_scans"@, value),
        ) == 2,
        (forall|i: int| 0 <= i < s.len() ==> (#[trigger] s[i]).key != "grace_scans"@)
            ==> grace_of(s) == 2,
{
    law_setting_reads_back(s, "grace_scans"@, crate::num::dec(n));
    law_setting_reads_back(s, "grace_scans"@, value);
    crate::num::law_unsigned_roundtrip(n, u32::MAX as nat);
    rows::lemma_row_index::<SettingRow>(s, "grace_scans"@);
}

} // verus!
