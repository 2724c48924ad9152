//! Core data types shared across discovery, store, diff and frontends.
//!
//! Each type that holds text has a model: the same record over character
//! sequences. Contracts speak of models, reached by `deep_view()`.

use vstd::prelude::*;
use vstd::string::*;

use crate::num::push_dec;
use crate::text::{clone_opt, clone_strings, str_eq};
use crate::util::{format_ipv4, netmask, parse_ipv4};

verus! {

/// Rough kind of an interface, used in the network composite key.
#[derive(Debug, Clone, Copy, PartialEq, Eq, Structural)]
pub enum IfKind {
    Ethernet,
    Wireless,
    Loopback,
    Virtual,
    Other,
}

impl DeepView for IfKind {
    type V = IfKind;

    open spec fn deep_view(&self) -> IfKind {
        *self
    }
}

impl IfKind {
    /// The kind's name in keys and in text output.
    pub open spec fn text(self) -> Seq<char> {
        match self {
            IfKind::Ethernet => "ethernet"@,
            IfKind::Wireless => "wireless"@,
            IfKind::Loopback => "loopback"@,
            IfKind::Virtual => "virtual"@,
            IfKind::Other => "other"@,
        }
    }

    pub fn as_str(self) -> (r: &'static str)
        ensures
            r@ == self.text(),
    {
        match self {
            IfKind::Ethernet => "ethernet",
            IfKind::Wireless => "wireless",
            IfKind::Loopback => "loopback",
            IfKind::Virtual => "virtual",
            IfKind::Other => "other",
        }
    }

    pub fn is_loopback(self) -> (r: bool)
        ensures
            r == (self == IfKind::Loopback),
    {
        matches!(self, IfKind::Loopback)
    }
}

/// An IPv4 address with its on-link prefix length.
#[derive(Debug, PartialEq)]
pub struct Ipv4Cidr {
    /// Dotted-quad address.
    pub addr: String,
    /// On-link prefix length (0-32).
    pub prefix: u8,
}

/// What an [`Ipv4Cidr`] says.
pub struct CidrModel {
    pub addr: Seq<char>,
    pub prefix: u8,
}

impl DeepView for Ipv4Cidr {
    type V = CidrModel;

    open spec fn deep_view(&self) -> CidrModel {
        CidrModel { addr: self.addr@, prefix: self.prefix }
    }
}

impl Clone for Ipv4Cidr {
    fn clone(&self) -> (r: Self)
        ensures
            r == *self,
    {
        Ipv4Cidr { addr: self.addr.clone(), prefix: self.prefix }
    }
}

impl CidrModel {
    /// A prefix length that an IPv4 address can have.
    pub open spec fn wf(self) -> bool {
        self.prefix <= 32
    }

    /// The network address with its prefix length, as in `192.168.1.0/24`.
    pub open spec fn network_text(self) -> Option<Seq<char>> {
        match crate::util::ipv4_of(self.addr) {
            Some(a) => Some(
                crate::util::ipv4_text(crate::util::network_address(a, self.prefix)) + seq!['/']
                    + crate::num::dec(self.prefix as nat),
            ),
            None => None,
        }
    }
}

impl Ipv4Cidr {
    /// `192.168.1.0/24` style string of the network address.
    pub fn network_string(&self) -> (r: Option<String>)
        requires
            self.deep_view().wf(),
        ensures
            r.deep_view() == self.deep_view().network_text(),
    {
        match parse_ipv4(self.addr.as_str()) {
            Some(a) => {
                let mut out = format_ipv4(a & netmask(self.prefix));
                out.push('/');
                push_dec(&mut out, self.prefix as u64);
                Some(out)
            },
            None => None,
        }
    }
}

/// A local network interface as seen by the OS.
#[derive(Debug, PartialEq)]
pub struct Interface {
    /// OS name, e.g. `Ethernet` (Windows) / `enp3s0` (Linux).
    pub name: String,
    /// Human-friendly description if available.
    pub description: Option<String>,
    /// Interface MAC, normalized `aa:bb:cc:dd:ee:ff`.
    pub mac: Option<String>,
    /// IPv4 unicast addresses with on-link prefix length.
    pub ipv4: Vec<Ipv4Cidr>,
    /// IPv6 addresses (display only).
    pub ipv6: Vec<String>,
    /// Default gateway IPv4 on this interface, if any.
    pub gateway_v4: Option<String>,
    /// Gateway MAC, resolved lazily by the scanner via the neighbor cache.
    pub gateway_mac: Option<String>,
    /// OS interface index.
    pub index: u32,
    /// Rough kind, used in the network composite key.
    pub kind: IfKind,
    /// Operationally up. A disconnected adapter keeps its configuration, so
    /// this is the only thing separating "my network" from "a NIC with a
    /// stale address".
    pub up: bool,
}

/// What an [`Interface`] says.
#[verifier::ext_equal]
pub struct InterfaceModel {
    pub name: Seq<char>,
    pub description: Option<Seq<char>>,
    pub mac: Option<Seq<char>>,
    pub ipv4: Seq<CidrModel>,
    pub ipv6: Seq<Seq<char>>,
    pub gateway_v4: Option<Seq<char>>,
    pub gateway_mac: Option<Seq<char>>,
    pub index: u32,
    pub kind: IfKind,
    pub up: bool,
}

impl DeepView for Interface {
    type V = InterfaceModel;

    open spec fn deep_view(&self) -> InterfaceModel {
        InterfaceModel {
            name: self.name@,
            description: self.description.deep_view(),
            mac: self.mac.deep_view(),
            ipv4: self.ipv4.deep_view(),
            ipv6: self.ipv6.deep_view(),
            gateway_v4: self.gateway_v4.deep_view(),
            gateway_mac: self.gateway_mac.deep_view(),
            index: self.index,
            kind: self.kind,
            up: self.up,
        }
    }
}

impl InterfaceModel {
    /// Every prefix length is one that an IPv4 address can have.
    pub open spec fn wf(self) -> bool {
        forall|i: int| 0 <= i < self.ipv4.len() ==> (#[trigger] self.ipv4[i]).wf()
    }
}

impl Clone for Interface {
    fn clone(&self) -> (r: Self)
        ensures
            r.deep_view() == self.deep_view(),
    {
        let mut ipv4: Vec<Ipv4Cidr> = Vec::new();
        let mut i: usize = 0;
        while i < self.ipv4.len()
            invariant
                i <= self.ipv4.len(),
                ipv4@ == self.ipv4@.take(i as int),
            decreases self.ipv4.len() - i,
        {
            ipv4.push(self.ipv4[i].clone());
            i = i + 1;
        }
        assert(self.ipv4@.take(self.ipv4.len() as int) == self.ipv4@);
        Interface {
            name: self.name.clone(),
            description: clone_opt(&self.description),
            mac: clone_opt(&self.mac),
            ipv4,
            ipv6: clone_strings(&self.ipv6),
            gateway_v4: clone_opt(&self.gateway_v4),
            gateway_mac: clone_opt(&self.gateway_mac),
            index: self.index,
            kind: self.kind,
            up: self.up,
        }
    }
}

/// One neighbor-table entry.
#[derive(Debug, PartialEq)]
pub struct NeighborEntry {
    pub ip: String,
    pub mac: String,
    pub interface_index: u32,
    /// true when the entry is reachable/reachable-ish (not failed/incomplete).
    pub reachable: bool,
}

/// What a [`NeighborEntry`] says.
#[verifier::ext_equal]
pub struct NeighborModel {
    pub ip: Seq<char>,
    pub mac: Seq<char>,
    pub interface_index: u32,
    pub reachable: bool,
}

impl DeepView for NeighborEntry {
    type V = NeighborModel;

    open spec fn deep_view(&self) -> NeighborModel {
        NeighborModel {
            ip: self.ip@,
            mac: self.mac@,
            interface_index: self.interface_index,
            reachable: self.reachable,
        }
    }
}

impl Clone for NeighborEntry {
    fn clone(&self) -> (r: Self)
        ensures
            r == *self,
    {
        NeighborEntry {
            ip: self.ip.clone(),
            mac: self.mac.clone(),
            interface_index: self.interface_index,
            reachable: self.reachable,
        }
    }
}

/// Where a device-name signal came from; ordering encodes trust.
#[derive(Debug, Clone, Copy, PartialEq, Eq, Structural)]
pub enum NameSource {
    Ssdp,
    Netbios,
    Mdns,
}

impl DeepView for NameSource {
    type V = NameSource;

    open spec fn deep_view(&self) -> NameSource {
        *self
    }
}

impl NameSource {
    /// How much a name from this source is trusted; more is better.
    pub open spec fn trust(self) -> int {
        match self {
            NameSource::Ssdp => 0,
            NameSource::Netbios => 1,
            NameSource::Mdns => 2,
        }
    }

    pub open spec fn text(self) -> Seq<char> {
        match self {
            NameSource::Ssdp => "ssdp"@,
            NameSource::Netbios => "netbios"@,
            NameSource::Mdns => "mdns"@,
        }
    }

    pub fn as_str(self) -> (r: &'static str)
        ensures
            r@ == self.text(),
    {
        match self {
            NameSource::Ssdp => "ssdp",
            NameSource::Netbios => "netbios",
            NameSource::Mdns => "mdns",
        }
    }

    /// The trust rank as a number.
    pub fn rank(self) -> (r: u8)
        ensures
            r == self.trust(),
    {
        match self {
            NameSource::Ssdp => 0,
            NameSource::Netbios => 1,
            NameSource::Mdns => 2,
        }
    }
}

/// A single fact observed by one strategy.
#[derive(Debug, PartialEq)]
pub struct Observation {
    pub ip: String,
    pub mac: Option<String>,
    /// Best name for this observation, if the strategy learned one.
    pub name: Option<(NameSource, String)>,
    pub vendor: Option<String>,
    /// Strategy id, e.g. `arp-cache`.
    pub source: String,
    /// How sure the strategy is the device is really there, in percent.
    pub confidence: u8,
}

/// What an [`Observation`] says.
#[verifier::ext_equal]
pub struct ObservationModel {
    pub ip: Seq<char>,
    pub mac: Option<Seq<char>>,
    pub name: Option<(NameSource, Seq<char>)>,
    pub vendor: Option<Seq<char>>,
    pub source: Seq<char>,
    pub confidence: u8,
}

impl DeepView for Observation {
    type V = ObservationModel;

    open spec fn deep_view(&self) -> ObservationModel {
        ObservationModel {
            ip: self.ip@,
            mac: self.mac.deep_view(),
            name: self.name.deep_view(),
            vendor: self.vendor.deep_view(),
            source: self.source@,
            confidence: self.confidence,
        }
    }
}

/// Capabilities the privilege layer probes at runtime.
#[derive(Debug, Clone, Copy, PartialEq, Eq, Structural)]
pub enum Capability {
    /// Read the OS neighbor/ARP cache (always expected).
    NeighborCache,
    /// Send ICMP echoes (platform-dependent privilege).
    IcmpEcho,
    /// Resolve arbitrary IPv4 addresses via ARP (SendARP / raw socket / helper).
    ArpResolve,
}

impl DeepView for Capability {
    type V = Capability;

    open spec fn deep_view(&self) -> Capability {
        *self
    }
}

impl Capability {
    pub open spec fn text(self) -> Seq<char> {
        match self {
            Capability::NeighborCache => "neighbor-cache"@,
            Capability::IcmpEcho => "icmp-echo"@,
            Capability::ArpResolve => "arp-resolve"@,
        }
    }

    pub fn as_str(self) -> (r: &'static str)
        ensures
            r@ == self.text(),
    {
        match self {
            Capability::NeighborCache => "neighbor-cache",
            Capability::IcmpEcho => "icmp-echo",
            Capability::ArpResolve => "arp-resolve",
        }
    }
}

/// Whether a list of capabilities holds this one.
pub fn has_capability(caps: &Vec<Capability>, cap: Capability) -> (r: bool)
    ensures
        r == caps@.contains(cap),
{
    let mut i: usize = 0;
    while i < caps.len()
        invariant
            i <= caps.len(),
            forall|j: int| 0 <= j < i ==> caps@[j] != cap,
        decreases caps.len() - i,
    {
        if caps[i] == cap {
            return true;
        }
        i = i + 1;
    }
    false
}

/// Result of the runtime capability probe.
#[derive(Debug, PartialEq)]
pub struct PrivilegeState {
    pub capabilities: Vec<Capability>,
    /// True when the privileged helper process is connected and answering.
    pub helper_connected: bool,
    /// Human-readable notes about degraded modes.
    pub notes: Vec<String>,
}

/// What a [`PrivilegeState`] says.
#[verifier::ext_equal]
pub struct PrivilegeModel {
    pub capabilities: Seq<Capability>,
    pub helper_connected: bool,
    pub notes: Seq<Seq<char>>,
}

impl DeepView for PrivilegeState {
    type V = PrivilegeModel;

    open spec fn deep_view(&self) -> PrivilegeModel {
        PrivilegeModel {
            capabilities: self.capabilities@,
            helper_connected: self.helper_connected,
            notes: self.notes.deep_view(),
        }
    }
}

impl Default for PrivilegeState {
    fn default() -> (r: Self)
        ensures
            r.deep_view() == (PrivilegeModel {
                capabilities: Seq::empty(),
                helper_connected: false,
                notes: Seq::empty(),
            }),
    {
        PrivilegeState { capabilities: Vec::new(), helper_connected: false, notes: Vec::new() }
    }
}

impl PrivilegeState {
    pub fn has(&self, cap: Capability) -> (r: bool)
        ensures
            r == self.deep_view().capabilities.contains(cap),
    {
        has_capability(&self.capabilities, cap)
    }
}

/// Why a scan was marked partial.
#[derive(Debug, PartialEq)]
pub struct PartialReason {
    pub strategy: String,
    pub reason: String,
}

/// What a [`PartialReason`] says.
#[verifier::ext_equal]
pub struct ReasonModel {
    pub strategy: Seq<char>,
    pub reason: Seq<char>,
}

impl DeepView for PartialReason {
    type V = ReasonModel;

    open spec fn deep_view(&self) -> ReasonModel {
        ReasonModel { strategy: self.strategy@, reason: self.reason@ }
    }
}

impl Clone for PartialReason {
    fn clone(&self) -> (r: Self)
        ensures
            r == *self,
    {
        PartialReason { strategy: self.strategy.clone(), reason: self.reason.clone() }
    }
}

/// A copy of a list of reasons.
pub fn clone_reasons(v: &Vec<PartialReason>) -> (r: Vec<PartialReason>)
    ensures
        r@ == v@,
{
    let mut out: Vec<PartialReason> = Vec::new();
    let mut i: usize = 0;
    while i < v.len()
        invariant
            i <= v.len(),
            out@ == v@.take(i as int),
        decreases v.len() - i,
    {
        out.push(v[i].clone());
        i = i + 1;
    }
    assert(v@.take(v.len() as int) == v@);
    out
}

/// A field-level change recorded in a `changed` transition.
#[derive(Debug, PartialEq)]
pub struct FieldChange {
    pub field: String,
    pub from: Option<String>,
    pub to: Option<String>,
}

/// What a [`FieldChange`] says.
#[verifier::ext_equal]
pub struct ChangeModel {
    pub field: Seq<char>,
    pub from: Option<Seq<char>>,
    pub to: Option<Seq<char>>,
}

impl DeepView for FieldChange {
    type V = ChangeModel;

    open spec fn deep_view(&self) -> ChangeModel {
        ChangeModel {
            field: self.field@,
            from: self.from.deep_view(),
            to: self.to.deep_view(),
        }
    }
}

impl Clone for FieldChange {
    fn clone(&self) -> (r: Self)
        ensures
            r == *self,
    {
        FieldChange {
            field: self.field.clone(),
            from: clone_opt(&self.from),
            to: clone_opt(&self.to),
        }
    }
}

/// A copy of a list of changes.
pub fn clone_changes(v: &Vec<FieldChange>) -> (r: Vec<FieldChange>)
    ensures
        r@ == v@,
{
    let mut out: Vec<FieldChange> = Vec::new();
    let mut i: usize = 0;
    while i < v.len()
        invariant
            i <= v.len(),
            out@ == v@.take(i as int),
        decreases v.len() - i,
    {
        out.push(v[i].clone());
        i = i + 1;
    }
    assert(v@.take(v.len() as int) == v@);
    out
}

/// What happened to a device between two scans.
#[derive(Debug, Clone, Copy, PartialEq, Eq, Structural)]
pub enum TransitionKind {
    New,
    Changed,
    Gone,
    Returned,
}

impl DeepView for TransitionKind {
    type V = TransitionKind;

    open spec fn deep_view(&self) -> TransitionKind {
        *self
    }
}

impl TransitionKind {
    pub open spec fn text(self) -> Seq<char> {
        match self {
            TransitionKind::New => "new"@,
            TransitionKind::Changed => "changed"@,
            TransitionKind::Gone => "gone"@,
            TransitionKind::Returned => "returned"@,
        }
    }

    pub fn as_str(self) -> (r: &'static str)
        ensures
            r@ == self.text(),
    {
        match self {
            TransitionKind::New => "new",
            TransitionKind::Changed => "changed",
            TransitionKind::Gone => "gone",
            TransitionKind::Returned => "returned",
        }
    }

    /// The kind that a text names. A text that names none of the others is
    /// taken for a return.
    pub open spec fn of(s: Seq<char>) -> TransitionKind {
        if s == "new"@ {
            TransitionKind::New
        } else if s == "changed"@ {
            TransitionKind::Changed
        } else if s == "gone"@ {
            TransitionKind::Gone
        } else {
            TransitionKind::Returned
        }
    }

    /// The kind that a recorded text names.
    pub fn of_text(s: &str) -> (r: TransitionKind)
        ensures
            r == TransitionKind::of(s@),
    {
        if str_eq(s, "new") {
            TransitionKind::New
        } else if str_eq(s, "changed") {
            TransitionKind::Changed
        } else if str_eq(s, "gone") {
            TransitionKind::Gone
        } else {
            TransitionKind::Returned
        }
    }
}

/// A kind reads back as it was recorded.
pub proof fn law_kind_reads_back(kind: TransitionKind)
    ensures
        TransitionKind::of(kind.text()) == kind,
{
    reveal_strlit("new");
    reveal_strlit("changed");
    reveal_strlit("gone");
    reveal_strlit("returned");
    assert("new"@.len() == 3);
    assert("changed"@.len() == 7);
    assert("gone"@.len() == 4);
    assert("returned"@.len() == 8);
}

/// One inventory transition emitted by the diff engine.
#[derive(Debug, PartialEq)]
pub struct Transition {
    pub kind: TransitionKind,
    pub device_key: String,
    /// Display name at the time of the transition (user name preferred).
    pub device_display: String,
    /// Present even when empty, so that frontends can treat it as a plain
    /// list on every kind of transition.
    pub changes: Vec<FieldChange>,
    /// True when this device cannot be re-identified across scans, so the
    /// transition should be read as "an address appeared", not "a device
    /// arrived".
    pub unstable_identity: bool,
}

/// What a [`Transition`] says.
#[verifier::ext_equal]
pub struct TransitionModel {
    pub kind: TransitionKind,
    pub device_key: Seq<char>,
    pub device_display: Seq<char>,
    pub changes: Seq<ChangeModel>,
    pub unstable_identity: bool,
}

impl DeepView for Transition {
    type V = TransitionModel;

    open spec fn deep_view(&self) -> TransitionModel {
        TransitionModel {
            kind: self.kind,
            device_key: self.device_key@,
            device_display: self.device_display@,
            changes: self.changes.deep_view(),
            unstable_identity: self.unstable_identity,
        }
    }
}

/// Summary of a finished scan.
#[derive(Debug, PartialEq)]
pub struct ScanReport {
    pub scan_id: i64,
    pub network_key: String,
    pub network_label: Option<String>,
    pub started_at: i64,
    pub finished_at: i64,
    /// The integrity flag: this scan could not tell what is gone.
    pub partial: bool,
    pub partial_reasons: Vec<PartialReason>,
    pub strategies_run: Vec<String>,
    pub devices_seen: usize,
    pub transitions: Vec<Transition>,
    pub interface: Option<Interface>,
}

/// What a [`ScanReport`] says.
#[verifier::ext_equal]
pub struct ReportModel {
    pub scan_id: i64,
    pub network_key: Seq<char>,
    pub network_label: Option<Seq<char>>,
    pub started_at: i64,
    pub finished_at: i64,
    pub partial: bool,
    pub partial_reasons: Seq<ReasonModel>,
    pub strategies_run: Seq<Seq<char>>,
    pub devices_seen: nat,
    pub transitions: Seq<TransitionModel>,
    pub interface: Option<InterfaceModel>,
}

impl DeepView for ScanReport {
    type V = ReportModel;

    open spec fn deep_view(&self) -> ReportModel {
        ReportModel {
            scan_id: self.scan_id,
            network_key: self.network_key@,
            network_label: self.network_label.deep_view(),
            started_at: self.started_at,
            finished_at: self.finished_at,
            partial: self.partial,
            partial_reasons: self.partial_reasons.deep_view(),
            strategies_run: self.strategies_run.deep_view(),
            devices_seen: self.devices_seen as nat,
            transitions: self.transitions.deep_view(),
            interface: self.interface.deep_view(),
        }
    }
}

/// Where a device stands as of the most recent scan of a network.
#[derive(Debug, Clone, Copy, PartialEq, Eq, Structural)]
pub enum DeviceStatus {
    /// First seen in the latest scan.
    New,
    /// Seen in the latest scan, with a field that differs from before.
    Changed,
    /// Absent long enough to have been announced gone.
    Gone,
    /// Present and unremarkable: the state most of an inventory is in.
    Known,
}

impl DeepView for DeviceStatus {
    type V = DeviceStatus;

    open spec fn deep_view(&self) -> DeviceStatus {
        *self
    }
}

impl DeviceStatus {
    pub open spec fn text(self) -> Seq<char> {
        match self {
            DeviceStatus::New => "new"@,
            DeviceStatus::Changed => "changed"@,
            DeviceStatus::Gone => "gone"@,
            DeviceStatus::Known => "known"@,
        }
    }

    pub fn as_str(self) -> (r: &'static str)
        ensures
            r@ == self.text(),
    {
        match self {
            DeviceStatus::New => "new",
            DeviceStatus::Changed => "changed",
            DeviceStatus::Gone => "gone",
            DeviceStatus::Known => "known",
        }
    }
}

/// Device row as exposed to CLI/GUI (joined with user name and presence).
#[derive(Debug, PartialEq)]
pub struct DeviceView {
    pub id: i64,
    pub key: String,
    /// User-assigned name, if any.
    pub user_name: Option<String>,
    /// Best machine-learned name (mDNS/NetBIOS/SSDP).
    pub primary_name: Option<String>,
    /// What the device is called on screen.
    pub display_name: String,
    pub mac: Option<String>,
    pub vendor: Option<String>,
    pub first_seen: i64,
    pub last_seen: i64,
    /// Last-known IP on the queried network (or globally if no network given).
    pub last_ip: Option<String>,
    /// Networks this device has been seen on (keys).
    pub networks: Vec<String>,
    pub notes: Option<String>,
    /// Standing as of the network's most recent scan.
    pub status: DeviceStatus,
    /// False when this device cannot be re-identified across scans.
    pub identity_stable: bool,
}

/// What a [`DeviceView`] says.
#[verifier::ext_equal]
pub struct DeviceViewModel {
    pub id: i64,
    pub key: Seq<char>,
    pub user_name: Option<Seq<char>>,
    pub primary_name: Option<Seq<char>>,
    pub display_name: Seq<char>,
    pub mac: Option<Seq<char>>,
    pub vendor: Option<Seq<char>>,
    pub first_seen: i64,
    pub last_seen: i64,
    pub last_ip: Option<Seq<char>>,
    pub networks: Seq<Seq<char>>,
    pub notes: Option<Seq<char>>,
    pub status: DeviceStatus,
    pub identity_stable: bool,
}

impl DeepView for DeviceView {
    type V = DeviceViewModel;

    open spec fn deep_view(&self) -> DeviceViewModel {
        DeviceViewModel {
            id: self.id,
            key: self.key@,
            user_name: self.user_name.deep_view(),
            primary_name: self.primary_name.deep_view(),
            display_name: self.display_name@,
            mac: self.mac.deep_view(),
            vendor: self.vendor.deep_view(),
            first_seen: self.first_seen,
            last_seen: self.last_seen,
            last_ip: self.last_ip.deep_view(),
            networks: self.networks.deep_view(),
            notes: self.notes.deep_view(),
            status: self.status,
            identity_stable: self.identity_stable,
        }
    }
}

/// Network row as exposed to CLI/GUI.
#[derive(Debug, PartialEq)]
pub struct NetworkView {
    pub key: String,
    pub label: Option<String>,
    pub subnet: Option<String>,
    pub gateway_mac: Option<String>,
    pub first_seen: i64,
    pub last_seen: i64,
    pub device_count: i64,
}

/// What a [`NetworkView`] says.
#[verifier::ext_equal]
pub struct NetworkViewModel {
    pub key: Seq<char>,
    pub label: Option<Seq<char>>,
    pub subnet: Option<Seq<char>>,
    pub gateway_mac: Option<Seq<char>>,
    pub first_seen: i64,
    pub last_seen: i64,
    pub device_count: i64,
}

impl DeepView for NetworkView {
    type V = NetworkViewModel;

    open spec fn deep_view(&self) -> NetworkViewModel {
        NetworkViewModel {
            key: self.key@,
            label: self.label.deep_view(),
            subnet: self.subnet.deep_view(),
            gateway_mac: self.gateway_mac.deep_view(),
            first_seen: self.first_seen,
            last_seen: self.last_seen,
            device_count: self.device_count,
        }
    }
}

/// History event for a single device (observation or transition).
#[derive(Debug, PartialEq)]
pub enum HistoryEvent {
    Observation {
        at: i64,
        network_key: String,
        ip: String,
        mac: Option<String>,
        hostname: Option<String>,
        source: String,
    },
    Transition {
        at: i64,
        network_key: String,
        kind: TransitionKind,
        changes: Vec<FieldChange>,
    },
    Named {
        at: i64,
        name: String,
    },
}

/// What a [`HistoryEvent`] says.
#[verifier::ext_equal]
pub enum EventModel {
    Observation {
        at: i64,
        network_key: Seq<char>,
        ip: Seq<char>,
        mac: Option<Seq<char>>,
        hostname: Option<Seq<char>>,
        source: Seq<char>,
    },
    Transition {
        at: i64,
        network_key: Seq<char>,
        kind: TransitionKind,
        changes: Seq<ChangeModel>,
    },
    Named {
        at: i64,
        name: Seq<char>,
    },
}

impl EventModel {
    /// When the event happened.
    pub open spec fn when(self) -> i64 {
        match self {
            EventModel::Observation { at, .. } => at,
            EventModel::Transition { at, .. } => at,
            EventModel::Named { at, .. } => at,
        }
    }
}

impl DeepView for HistoryEvent {
    type V = EventModel;

    open spec fn deep_view(&self) -> EventModel {
        match self {
            HistoryEvent::Observation { at, network_key, ip, mac, hostname, source } => {
                EventModel::Observation {
                    at: *at,
                    network_key: network_key@,
                    ip: ip@,
                    mac: mac.deep_view(),
                    hostname: hostname.deep_view(),
                    source: source@,
                }
            },
            HistoryEvent::Transition { at, network_key, kind, changes } => {
                EventModel::Transition {
                    at: *at,
                    network_key: network_key@,
                    kind: *kind,
                    changes: changes.deep_view(),
                }
            },
            HistoryEvent::Named { at, name } => EventModel::Named { at: *at, name: name@ },
        }
    }
}

impl HistoryEvent {
    /// When the event happened.
    pub fn time(&self) -> (r: i64)
        ensures
            r == self.deep_view().when(),
    {
        match self {
            HistoryEvent::Observation { at, .. } => *at,
            HistoryEvent::Transition { at, .. } => *at,
            HistoryEvent::Named { at, .. } => *at,
        }
    }
}

/// The network of an address with a prefix is told by the first address of the
/// range, every address of which tells the same.
pub proof fn law_network_is_told_by_any_address(a: u32, b: u32, prefix: u8)
    requires
        1 <= prefix <= 32,
        crate::util::same_network(a, b, prefix),
    ensures
        (CidrModel { addr: crate::util::ipv4_text(a), prefix }).network_text() == (CidrModel {
            addr: crate::util::ipv4_text(b),
            prefix,
        }).network_text(),
        (CidrModel { addr: crate::util::ipv4_text(a), prefix }).network_text() == Some(
            crate::util::ipv4_text(crate::util::network_address(a, prefix)) + "/"@
                + crate::num::dec(prefix as nat),
        ),
{
    reveal_strlit("/");
    crate::util::lemma_ipv4_roundtrip(a);
    crate::util::lemma_ipv4_roundtrip(b);
    crate::util::lemma_same_network(a, b, prefix);
    assert("/"@ =~= seq!['/']);
}

} // verus!
