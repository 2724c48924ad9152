//! The tables on disk, and how a database of an earlier version becomes one
//! of the present version. `user_version` drives forward-only migration.

use vstd::prelude::*;
use vstd::string::*;

verus! {

/// The first version of the tables, with the default settings.
pub const VERSION_1: &'static str = "CREATE TABLE networks (
        key TEXT PRIMARY KEY,
        label TEXT,
        subnet TEXT,
        gateway_mac TEXT,
        first_seen INTEGER NOT NULL,
        last_seen INTEGER NOT NULL
    );
    CREATE TABLE devices (
        id INTEGER PRIMARY KEY AUTOINCREMENT,
        key TEXT NOT NULL UNIQUE,
        primary_name TEXT,
        mac TEXT,
        vendor TEXT,
        origin_network TEXT NOT NULL,
        first_seen INTEGER NOT NULL,
        last_seen INTEGER NOT NULL
    );
    CREATE INDEX idx_devices_mac ON devices(mac);
    CREATE TABLE device_aliases (
        alias_key TEXT PRIMARY KEY,
        canonical_key TEXT NOT NULL,
        created_at INTEGER NOT NULL
    );
    CREATE INDEX idx_aliases_canonical ON device_aliases(canonical_key);
    CREATE TABLE user_names (
        device_key TEXT PRIMARY KEY,
        name TEXT NOT NULL,
        notes TEXT,
        updated_at INTEGER NOT NULL
    );
    CREATE TABLE presence (
        device_key TEXT NOT NULL,
        network_key TEXT NOT NULL,
        first_seen INTEGER NOT NULL,
        last_seen INTEGER NOT NULL,
        miss_streak INTEGER NOT NULL DEFAULT 0,
        last_ip TEXT,
        PRIMARY KEY (device_key, network_key)
    );
    CREATE TABLE scans (
        id INTEGER PRIMARY KEY AUTOINCREMENT,
        started_at INTEGER NOT NULL,
        finished_at INTEGER NOT NULL,
        network_key TEXT NOT NULL,
        partial INTEGER NOT NULL,
        privilege_json TEXT NOT NULL,
        strategies_json TEXT NOT NULL,
        partial_reasons_json TEXT NOT NULL,
        stats_json TEXT NOT NULL
    );
    CREATE INDEX idx_scans_network ON scans(network_key, id);
    CREATE TABLE observations (
        scan_id INTEGER NOT NULL REFERENCES scans(id) ON DELETE CASCADE,
        at INTEGER NOT NULL,
        device_key TEXT NOT NULL,
        ip TEXT NOT NULL,
        mac TEXT,
        hostname TEXT,
        source TEXT NOT NULL,
        confidence REAL NOT NULL
    );
    CREATE INDEX idx_obs_device ON observations(device_key, at);
    CREATE INDEX idx_obs_scan ON observations(scan_id);
    CREATE TABLE transitions (
        id INTEGER PRIMARY KEY AUTOINCREMENT,
        scan_id INTEGER NOT NULL REFERENCES scans(id) ON DELETE CASCADE,
        at INTEGER NOT NULL,
        device_key TEXT NOT NULL,
        network_key TEXT NOT NULL,
        kind TEXT NOT NULL,
        changes_json TEXT NOT NULL DEFAULT '[]'
    );
    CREATE INDEX idx_trans_device ON transitions(device_key, at);
    CREATE TABLE meta (
        key TEXT PRIMARY KEY,
        value TEXT NOT NULL
    );
    INSERT INTO meta (key, value) VALUES
        ('grace_scans', '2'),
        ('observations_retention_days', '90'),
        ('enabled_strategies', '[\"arp-cache\",\"ping-sweep\",\"mdns\",\"ssdp\",\"netbios\",\"arp-ping\"]');";

/// Remember whether an absence was already announced, so `gone` is emitted
/// once per absence even if `grace_scans` changes underneath a device that is
/// already missing.
pub const VERSION_2: &'static str = "ALTER TABLE presence ADD COLUMN reported_gone INTEGER NOT NULL DEFAULT 0;";

/// The steps from an empty database to the present version.
pub open spec fn steps() -> Seq<Seq<char>> {
    seq![VERSION_1@, VERSION_2@]
}

/// The steps that a database of a version still needs, each with the version
/// that it leads to.
pub open spec fn pending_from(version: int, n: int) -> Seq<(i64, Seq<char>)>
    decreases n,
{
    if n <= 0 {
        Seq::empty()
    } else {
        let rest = pending_from(version, n - 1);
        if n > version {
            rest.push((n as i64, steps()[n - 1]))
        } else {
            rest
        }
    }
}

/// The steps from an empty database to the present version.
pub fn migrations() -> (r: Vec<&'static str>)
    ensures
        r.deep_view() == steps(),
{
    let mut v: Vec<&'static str> = Vec::new();
    v.push(VERSION_1);
    v.push(VERSION_2);
    assert(v.deep_view() == steps());
    v
}

/// The steps that a database of a version still needs, in order, each with
/// the version that it leads to.
pub fn pending(version: i64) -> (r: Vec<(i64, &'static str)>)
    ensures
        r.deep_view() == pending_from(version as int, steps().len() as int),
{
    let all = migrations();
    assert(all.deep_view().len() == 2);
    let mut out: Vec<(i64, &'static str)> = Vec::new();
    let mut i: usize = 0;
    while i < all.len()
        invariant
            i <= all.len(),
            all@.len() == 2,
            all.deep_view() == steps(),
            out.deep_view() == pending_from(version as int, i as int),
        decreases all.len() - i,
    {
        assert(steps()[i as int] == all@[i as int]@);
        let v: i64 = (i + 1) as i64;
        if v > version {
            let ghost so_far = out.deep_view();
            out.push((v, all[i]));
            assert(out.deep_view() == so_far.push((v, steps()[i as int])));
        }
        i = i + 1;
    }
    out
}

/// A database of the present version needs nothing more.
pub proof fn law_present_version_is_final(version: int, n: int)
    requires
        version >= n,
    ensures
        pending_from(version, n).len() == 0,
    decreases n,
{
    if n > 0 {
        law_present_version_is_final(version, n - 1);
    }
}

/// Migrating only goes forward: every step leads beyond the version that the
/// database has, and each to the next version after the one before.
pub proof fn law_steps_follow_each_other(version: int, n: int, i: int)
    requires
        0 <= version <= n <= i64::MAX,
        0 <= i < pending_from(version, n).len(),
    ensures
        pending_from(version, n).len() == n - version,
        pending_from(version, n)[i].0 == version + 1 + i,
    decreases n,
{
    if n > version {
        let rest = pending_from(version, n - 1);
        if n - 1 == version {
            law_present_version_is_final(version, n - 1);
        } else {
            law_steps_follow_each_other(version, n - 1, 0);
            if i < rest.len() {
                law_steps_follow_each_other(version, n - 1, i);
            }
        }
    } else {
        law_present_version_is_final(version, n);
    }
}

/// A database needs every step beyond its version, in order, each with the
/// version it leads to.
pub proof fn law_no_step_is_skipped(version: int, n: int, k: int)
    requires
        0 <= version < k <= n,
        n <= steps().len(),
    ensures
        pending_from(version, n).len() == n - version,
        pending_from(version, n)[k - version - 1] == (k as i64, steps()[k - 1]),
    decreases n,
{
    if n > version + 1 {
        law_no_step_is_skipped(
            version,
            n - 1,
            if k < n {
                k
            } else {
                n - 1
            },
        );
    } else {
        lemma_nothing_pending(version, n - 1);
    }
}

/// A database of a version needs no step up to it.
proof fn lemma_nothing_pending(version: int, n: int)
    requires
        n <= version,
    ensures
        pending_from(version, n).len() == 0,
    decreases n,
{
    if n > 0 {
        lemma_nothing_pending(version, n - 1);
    }
}

} // verus!
