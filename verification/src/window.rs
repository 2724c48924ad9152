//! What the graphical frontend shows before it asks for the inventory, and the
//! course of the scans that it starts.
//!
//! Every integrity decision lives elsewhere in the library, so the command
//! line and the window can never disagree.

use vstd::prelude::*;
use vstd::string::*;

use crate::model::{CidrModel, Interface, InterfaceModel};
use crate::netenv;
use crate::netenv::default_interface;

verus! {

// ----- about -----

/// The legal notices: the terms the program comes under, and where its source
/// is.
#[derive(Debug)]
pub struct About {
    pub name: String,
    pub version: String,
    pub copyright: String,
    pub license: String,
    pub license_name: String,
    pub license_url: String,
    pub source_url: String,
}

/// The legal notices of a version.
pub fn about(version: &str) -> (r: About)
    ensures
        r.name@ == "Modern IP Scanner"@,
        r.version@ == version@,
        r.copyright@ == "Copyright (C) 2026 mikey-san"@,
        r.license@ == "AGPL-3.0-or-later"@,
        r.license_name@ == "GNU Affero General Public License v3 or later"@,
        r.license_url@ == "https://www.gnu.org/licenses/agpl-3.0.html"@,
        r.source_url@ == "https://github.com/mikeysan/modern-ip-scanner"@,
{
    About {
        name: "Modern IP Scanner".to_string(),
        version: version.to_string(),
        copyright: "Copyright (C) 2026 mikey-san".to_string(),
        license: "AGPL-3.0-or-later".to_string(),
        license_name: "GNU Affero General Public License v3 or later".to_string(),
        license_url: "https://www.gnu.org/licenses/agpl-3.0.html".to_string(),
        source_url: "https://github.com/mikeysan/modern-ip-scanner".to_string(),
    }
}

// ----- the state at the start -----

/// The interface that will be scanned, as far as it is shown.
#[derive(Debug)]
pub struct InterfaceSummary {
    pub name: String,
    pub kind: String,
    pub ips: Vec<String>,
}

/// What an [`InterfaceSummary`] says.
#[verifier::ext_equal]
pub struct InterfaceSummaryModel {
    pub name: Seq<char>,
    pub kind: Seq<char>,
    pub ips: Seq<Seq<char>>,
}

impl DeepView for InterfaceSummary {
    type V = InterfaceSummaryModel;

    open spec fn deep_view(&self) -> InterfaceSummaryModel {
        InterfaceSummaryModel { name: self.name@, kind: self.kind@, ips: self.ips.deep_view() }
    }
}

/// The addresses of networks.
pub open spec fn addresses_of(nets: Seq<CidrModel>) -> Seq<Seq<char>> {
    nets.map_values(|c: CidrModel| c.addr)
}

/// What is shown of an interface.
pub open spec fn summary_of(i: InterfaceModel) -> InterfaceSummaryModel {
    InterfaceSummaryModel { name: i.name, kind: i.kind.text(), ips: addresses_of(i.ipv4) }
}

/// Summarise an interface.
fn summarise(iface: &Interface) -> (r: InterfaceSummary)
    ensures
        r.deep_view() == summary_of(iface.deep_view()),
{
    let ghost nets = iface.ipv4.deep_view();
    let mut ips: Vec<String> = Vec::new();
    let mut i: usize = 0;
    while i < iface.ipv4.len()
        invariant
            i <= iface.ipv4.len(),
            nets == iface.ipv4.deep_view(),
            ips.deep_view() == addresses_of(nets.take(i as int)),
        decreases iface.ipv4.len() - i,
    {
        assert(nets[i as int] == iface.ipv4@[i as int].deep_view());
        let ghost so_far = ips.deep_view();
        ips.push(iface.ipv4[i].addr.clone());
        assert(ips.deep_view() == so_far.push(nets[i as int].addr));
        assert(addresses_of(nets.take(i + 1)) == addresses_of(nets.take(i as int)).push(
            nets[i as int].addr,
        ));
        i = i + 1;
    }
    assert(nets.take(nets.len() as int) == nets);
    InterfaceSummary { name: iface.name.clone(), kind: iface.kind.as_str().to_string(), ips }
}

/// What the window needs before it can draw: whether writes are being kept,
/// which interface will be scanned, and whether the optional helper is
/// installed.
#[derive(Debug)]
pub struct WindowState {
    pub startup_error: Option<String>,
    pub helper_available: bool,
    pub helper_search_paths: Vec<String>,
    pub interface: Option<InterfaceSummary>,
}

/// Put the state together: from what went wrong at the start, if anything,
/// whether the helper was found, where it is looked for, and the interfaces
/// there are. The interface shown is the one that a scan would choose.
pub fn window_state(
    startup_error: Option<String>,
    helper_found: bool,
    search_paths: Vec<String>,
    interfaces: &[Interface],
) -> (r: WindowState)
    ensures
        r.startup_error == startup_error,
        r.helper_available == helper_found,
        r.helper_search_paths == search_paths,
        match r.interface {
            Some(x) => exists|i: int|
                #[trigger] netenv::is_default(interfaces.deep_view(), i) && x.deep_view()
                    == summary_of(interfaces.deep_view()[i]),
            None => forall|j: int|
                0 <= j < interfaces@.len() ==> !netenv::scannable(
                    #[trigger] interfaces.deep_view()[j],
                ),
        },
{
    let interface = match default_interface(interfaces) {
        Some(i) => Some(summarise(&i)),
        None => None,
    };
    WindowState {
        startup_error,
        helper_available: helper_found,
        helper_search_paths: search_paths,
        interface,
    }
}

/// What is said where the inventory could not be opened and a throwaway one
/// stands in.
pub open spec fn fallback_text(error: Seq<char>, path: Seq<char>) -> Seq<char> {
    "Could not open the inventory database ("@ + error + "). Running on a temporary one at "@ + path
        + " — nothing you do here will be kept."@
}

/// Say that a throwaway inventory stands in.
pub fn fallback_notice(error: &str, path: &str) -> (r: String)
    ensures
        r@ == fallback_text(error@, path@),
{
    let mut out = "Could not open the inventory database (".to_string();
    out.append(error);
    out.append("). Running on a temporary one at ");
    out.append(path);
    out.append(" — nothing you do here will be kept.");
    out
}

// ----- scans -----

/// Whether a scan is running.
#[derive(Debug)]
pub struct ScanFlag {
    pub running: bool,
}

impl ScanFlag {
    /// No scan is running.
    pub fn new() -> (r: ScanFlag)
        ensures
            !r.running,
    {
        ScanFlag { running: false }
    }

    /// Begin a scan, unless one is running.
    pub fn begin(&mut self) -> (r: Result<(), String>)
        ensures
            final(self).running,
            if old(self).running {
                r is Err && r->Err_0@ == "a scan is already running"@
            } else {
                r is Ok
            },
    {
        if self.running {
            return Err("a scan is already running".to_string());
        }
        self.running = true;
        Ok(())
    }

    /// The scan ended, however it did.
    pub fn end(&mut self)
        ensures
            !final(self).running,
    {
        self.running = false;
    }
}

/// How a scan that the window started ended.
#[derive(Debug)]
pub enum ScanEnd {
    /// With a report.
    Done,
    /// With an error.
    Failed(String),
    /// Not as it should have.
    Crashed,
}

/// The event that tells the window of the end of a scan, and its text where it
/// carries one; with a report the event carries that instead.
pub fn end_event(end: ScanEnd) -> (r: (&'static str, Option<String>))
    ensures
        match end {
            ScanEnd::Done => r.0@ == "scan:done"@ && r.1 is None,
            ScanEnd::Failed(e) => r.0@ == "scan:error"@ && r.1 == Some(e),
            ScanEnd::Crashed => r.0@ == "scan:error"@ && r.1.deep_view() == Some(
                "the scan crashed; the inventory is unchanged"@,
            ),
        },
{
    match end {
        ScanEnd::Done => ("scan:done", None),
        ScanEnd::Failed(e) => ("scan:error", Some(e)),
        // The frontend must hear something, or it waits forever.
        ScanEnd::Crashed => (
            "scan:error",
            Some("the scan crashed; the inventory is unchanged".to_string()),
        ),
    }
}

/// An interface is shown by its name, its kind and each of its addresses, in
/// their order.
pub proof fn law_interface_is_summarised(i: InterfaceModel)
    ensures
        summary_of(i).name == i.name,
        summary_of(i).kind == i.kind.text(),
        summary_of(i).ips.len() == i.ipv4.len(),
        forall|k: int| 0 <= k < i.ipv4.len() ==> #[trigger] summary_of(i).ips[k] == i.ipv4[k].addr,
{
}

} // verus!
