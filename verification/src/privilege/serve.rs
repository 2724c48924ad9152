//! The privileged helper itself: what it does with a request.
//!
//! Speaks newline-delimited JSON:
//!   request  {"op":"arp","ip":"192.168.1.5"}
//!   response {"ok":true,"mac":"aa:bb:cc:dd:ee:ff"} | {"ok":false,"error":"..."}
//!   {"op":"shutdown"} closes the helper.
//!
//! Attack surface is deliberately tiny: the only operation is ARP resolution
//! of dotted-quad IPv4 strings. No file access, no shell, no arbitrary ops.

use vstd::prelude::*;
use vstd::string::*;

use crate::privilege::helper::{HelperReply, ReplyModel, MAX_BATCH};
use crate::text;
use crate::text::{chars_of, clone_opt, find, str_eq};
use crate::util;
use crate::util::{format_ipv4, parse_ipv4};

verus! {

/// A request to the helper.
#[derive(Debug)]
pub struct HelperRequest {
    pub op: String,
    pub ip: Option<String>,
    pub ips: Option<Vec<String>>,
}

/// What a [`HelperRequest`] says.
#[verifier::ext_equal]
pub struct RequestModel {
    pub op: Seq<char>,
    pub ip: Option<Seq<char>>,
    pub ips: Option<Seq<Seq<char>>>,
}

impl DeepView for HelperRequest {
    type V = RequestModel;

    open spec fn deep_view(&self) -> RequestModel {
        RequestModel { op: self.op@, ip: self.ip.deep_view(), ips: self.ips.deep_view() }
    }
}

/// What a request asks the helper to do.
#[derive(Debug)]
pub enum Task {
    /// Close down.
    Stop,
    /// Resolve one address.
    One(String),
    /// Resolve several addresses; a slot without one is not asked for.
    Many(Vec<Option<String>>),
    /// Nothing, for this reason.
    Refuse(String),
}

/// What a [`Task`] says.
#[verifier::ext_equal]
pub enum TaskModel {
    Stop,
    One(Seq<char>),
    Many(Seq<Option<Seq<char>>>),
    Refuse(Seq<char>),
}

impl DeepView for Task {
    type V = TaskModel;

    open spec fn deep_view(&self) -> TaskModel {
        match self {
            Task::Stop => TaskModel::Stop,
            Task::One(ip) => TaskModel::One(ip@),
            Task::Many(ips) => TaskModel::Many(ips.deep_view()),
            Task::Refuse(e) => TaskModel::Refuse(e@),
        }
    }
}

/// A text is how an address is spelled: four numbers up to 255 with dots
/// between them, without a sign, a leading zero or a blank.
pub open spec fn dotted_quad(s: Seq<char>) -> bool {
    exists|a: u32| s == #[trigger] util::ipv4_text(a)
}

/// Whether a text is a dotted quad.
pub fn valid_ipv4(s: &str) -> (r: bool)
    ensures
        r == dotted_quad(s@),
{
    match parse_ipv4(s) {
        Some(a) => {
            let same = str_eq(format_ipv4(a).as_str(), s);
            if !same {
                assert forall|b: u32| s@ != #[trigger] util::ipv4_text(b) by {
                    util::lemma_ipv4_roundtrip(b);
                }
            }
            same
        },
        None => {
            assert forall|b: u32| s@ != #[trigger] util::ipv4_text(b) by {
                util::lemma_ipv4_roundtrip(b);
            }
            false
        },
    }
}

/// The slots of a batch: the addresses that are dotted quads.
pub open spec fn slots(ips: Seq<Seq<char>>) -> Seq<Option<Seq<char>>> {
    ips.map_values(
        |ip: Seq<char>|
            if dotted_quad(ip) {
                Some(ip)
            } else {
                None
            },
    )
}

/// What a request asks for; a line that is none is refused.
pub open spec fn task_of(req: Option<RequestModel>) -> TaskModel {
    match req {
        None => TaskModel::Refuse("bad request"@),
        Some(r) => if r.op == "shutdown"@ {
            TaskModel::Stop
        } else if r.op == "arp"@ {
            match r.ip {
                Some(ip) => if dotted_quad(ip) {
                    TaskModel::One(ip)
                } else {
                    TaskModel::Refuse("invalid or missing ip"@)
                },
                None => TaskModel::Refuse("invalid or missing ip"@),
            }
        } else if r.op == "arp-batch"@ {
            match r.ips {
                Some(ips) => if ips.len() <= MAX_BATCH {
                    TaskModel::Many(slots(ips))
                } else {
                    TaskModel::Refuse("too many addresses in one batch"@)
                },
                None => TaskModel::Refuse("missing ips"@),
            }
        } else {
            TaskModel::Refuse("unknown op"@)
        },
    }
}

/// Work out the slots of a batch.
fn make_slots(ips: &Vec<String>) -> (r: Vec<Option<String>>)
    ensures
        r.deep_view() == slots(ips.deep_view()),
{
    let ghost all = ips.deep_view();
    let mut out: Vec<Option<String>> = Vec::new();
    let mut i: usize = 0;
    while i < ips.len()
        invariant
            i <= ips.len(),
            all == ips.deep_view(),
            out.deep_view() == slots(all.take(i as int)),
        decreases ips.len() - i,
    {
        assert(all[i as int] == ips@[i as int]@);
        let slot: Option<String> = if valid_ipv4(ips[i].as_str()) {
            Some(ips[i].clone())
        } else {
            None
        };
        let ghost so_far = out.deep_view();
        let ghost model = slot.deep_view();
        out.push(slot);
        assert(out.deep_view() == so_far.push(model));
        assert(slots(all.take(i + 1)) == slots(all.take(i as int)).push(model));
        i = i + 1;
    }
    assert(all.take(all.len() as int) == all);
    out
}

/// Decide what a request asks for.
pub fn decide(req: &Option<HelperRequest>) -> (r: Task)
    ensures
        r.deep_view() == task_of(req.deep_view()),
{
    match req {
        None => Task::Refuse("bad request".to_string()),
        Some(q) => {
            let op = q.op.as_str();
            if str_eq(op, "shutdown") {
                return Task::Stop;
            }
            if str_eq(op, "arp") {
                if let Some(ip) = &q.ip {
                    if valid_ipv4(ip.as_str()) {
                        return Task::One(ip.clone());
                    }
                }
                return Task::Refuse("invalid or missing ip".to_string());
            }
            if str_eq(op, "arp-batch") {
                return match &q.ips {
                    Some(ips) => {
                        assert(ips.deep_view().len() == ips@.len());
                        if ips.len() <= MAX_BATCH {
                            Task::Many(make_slots(ips))
                        } else {
                            Task::Refuse("too many addresses in one batch".to_string())
                        }
                    },
                    None => Task::Refuse("missing ips".to_string()),
                };
            }
            Task::Refuse("unknown op".to_string())
        },
    }
}

/// A reply that is a refusal.
pub open spec fn refused(e: Seq<char>) -> ReplyModel {
    ReplyModel { ok: false, mac: None, macs: None, error: Some(e) }
}

/// What was found for a slot.
pub open spec fn found(found: Seq<Option<Seq<char>>>, i: int) -> Option<Seq<char>> {
    if 0 <= i < found.len() {
        found[i]
    } else {
        None
    }
}

/// The reply to a task, given what was found: for one address the first
/// finding, for several one finding per slot.
pub open spec fn reply_to(task: TaskModel, findings: Seq<Option<Seq<char>>>) -> ReplyModel {
    match task {
        TaskModel::Stop => ReplyModel { ok: true, mac: None, macs: None, error: None },
        TaskModel::One(_) => match found(findings, 0) {
            Some(mac) => ReplyModel { ok: true, mac: Some(mac), macs: None, error: None },
            None => refused("no reply"@),
        },
        TaskModel::Many(slots) => ReplyModel {
            ok: true,
            mac: None,
            macs: Some(
                Seq::new(
                    slots.len(),
                    |i: int|
                        if slots[i] is Some {
                            found(findings, i)
                        } else {
                            None
                        },
                ),
            ),
            error: None,
        },
        TaskModel::Refuse(e) => refused(e),
    }
}

/// What was found for a slot.
fn finding(findings: &Vec<Option<String>>, i: usize) -> (r: Option<String>)
    ensures
        r.deep_view() == found(findings.deep_view(), i as int),
{
    if i < findings.len() {
        assert(findings.deep_view()[i as int] == findings@[i as int].deep_view());
        clone_opt(&findings[i])
    } else {
        None
    }
}

/// Reply to a task with what was found.
pub fn reply(task: &Task, findings: &Vec<Option<String>>) -> (r: HelperReply)
    ensures
        r.deep_view() == reply_to(task.deep_view(), findings.deep_view()),
{
    match task {
        Task::Stop => HelperReply { ok: true, mac: None, macs: None, error: None },
        Task::One(_) => match finding(findings, 0) {
            Some(mac) => HelperReply { ok: true, mac: Some(mac), macs: None, error: None },
            None => HelperReply {
                ok: false,
                mac: None,
                macs: None,
                error: Some("no reply".to_string()),
            },
        },
        Task::Many(slots) => {
            let ghost all = slots.deep_view();
            let ghost fs = findings.deep_view();
            let mut macs: Vec<Option<String>> = Vec::new();
            let mut i: usize = 0;
            while i < slots.len()
                invariant
                    i <= slots.len(),
                    all == slots.deep_view(),
                    fs == findings.deep_view(),
                    macs.deep_view() == Seq::new(
                        i as nat,
                        |k: int|
                            if all[k] is Some {
                                found(fs, k)
                            } else {
                                None
                            },
                    ),
                decreases slots.len() - i,
            {
                assert(all[i as int] == slots@[i as int].deep_view());
                let mac: Option<String> = if slots[i].is_some() {
                    finding(findings, i)
                } else {
                    None
                };
                let ghost so_far = macs.deep_view();
                let ghost model = mac.deep_view();
                macs.push(mac);
                assert(macs.deep_view() == so_far.push(model));
                i = i + 1;
            }
            assert(macs.deep_view() == reply_to(
                task.deep_view(),
                findings.deep_view(),
            ).macs.unwrap());
            HelperReply { ok: true, mac: None, macs: Some(macs), error: None }
        },
        Task::Refuse(e) => HelperReply {
            ok: false,
            mac: None,
            macs: None,
            error: Some(e.clone()),
        },
    }
}

/// A line mentions the shutdown request.
pub open spec fn mentions_shutdown(line: Seq<char>) -> bool {
    text::find_from(line, "\"shutdown\""@, 0) is Some
}

/// Whether the helper closes down after this line.
pub fn closes(line: &str) -> (r: bool)
    ensures
        r == mentions_shutdown(line@),
{
    find(&chars_of(line), &chars_of("\"shutdown\""), 0).is_some()
}

/// Every batch that the helper accepts is answered with one slot per address,
/// in the order asked, so that the client takes it as it is.
pub proof fn law_batch_is_answered(
    ips: Seq<Seq<char>>,
    ip: Option<Seq<char>>,
    findings: Seq<Option<Seq<char>>>,
)
    requires
        ips.len() <= MAX_BATCH,
    ensures
        ({
            let req = RequestModel { op: "arp-batch"@, ip, ips: Some(ips) };
            let r = reply_to(task_of(Some(req)), findings);
            &&& crate::privilege::helper::batch_fault(r, ips.len()) is None
            &&& forall|i: int|
                0 <= i < ips.len() ==> #[trigger] r.macs.unwrap()[i] == if dotted_quad(ips[i]) {
                    found(findings, i)
                } else {
                    None
                }
        }),
{
    reveal_strlit("arp-batch");
    reveal_strlit("arp");
    reveal_strlit("shutdown");
    assert("arp-batch"@.len() == 9 && "arp"@.len() == 3 && "shutdown"@.len() == 8);
}

/// Any request is answered by what it asks for: closing down, one address or
/// several; an address that is no dotted quad, too many of them, none at all
/// or another operation is refused.
pub proof fn law_what_is_asked_for(r: RequestModel)
    ensures
        r.op == "shutdown"@ <==> task_of(Some(r)) is Stop,
        task_of(Some(r)) is One <==> r.op == "arp"@ && r.ip is Some && dotted_quad(r.ip.unwrap()),
        task_of(Some(r)) is One ==> task_of(Some(r)) == TaskModel::One(r.ip.unwrap()),
        task_of(Some(r)) is Many <==> r.op == "arp-batch"@ && r.ips is Some && r.ips.unwrap().len()
            <= 128,
        task_of(Some(r)) is Many ==> task_of(Some(r))->Many_0.len() == r.ips.unwrap().len(),
        task_of(None) is Refuse,
{
    reveal_strlit("arp-batch");
    reveal_strlit("arp");
    reveal_strlit("shutdown");
    assert("arp-batch"@.len() == 9 && "arp"@.len() == 3 && "shutdown"@.len() == 8);
}

/// One address is answered with the MAC that was found for it, or with an
/// error where none was; a refusal says why.
pub proof fn law_one_address_is_answered(ip: Seq<char>, findings: Seq<Option<Seq<char>>>, e: Seq<char>)
    requires
        findings.len() == 1,
    ensures
        ({
            let r = reply_to(TaskModel::One(ip), findings);
            &&& r.ok <==> findings[0] is Some
            &&& r.mac == findings[0]
            &&& r.macs is None
            &&& r.error is Some <==> findings[0] is None
        }),
        ({
            let r = reply_to(TaskModel::Refuse(e), findings);
            !r.ok && r.mac is None && r.macs is None && r.error == Some(e)
        }),
        ({
            let r = reply_to(TaskModel::Stop, findings);
            r.ok && r.mac is None && r.macs is None && r.error is None
        }),
{
}

/// A line that holds the quoted word closes the helper down, wherever in the
/// line it stands.
pub proof fn law_shutdown_is_noticed(before: Seq<char>, after: Seq<char>)
    ensures
        mentions_shutdown(before + "\"shutdown\""@ + after),
{
    let s = before + "\"shutdown\""@ + after;
    let pat = "\"shutdown\""@;
    assert(s.subrange(before.len() as int, before.len() as int + pat.len()) =~= pat);
    lemma_found_from(s, pat, 0, before.len() as int);
}

/// What stands somewhere is found.
proof fn lemma_found_from(s: Seq<char>, pat: Seq<char>, i: int, k: int)
    requires
        0 <= i <= k,
        text::occurs_at(s, pat, k),
    ensures
        text::find_from(s, pat, i) is Some,
    decreases k - i,
{
    if i < k {
        lemma_found_from(s, pat, i + 1, k);
    }
}

} // verus!
