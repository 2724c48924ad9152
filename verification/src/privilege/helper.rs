//! Client side of the optional privileged helper.
//!
//! Protocol: newline-delimited JSON, one request and one response per line.
//! `arp-batch` resolves many addresses per request, which matters because
//! there is exactly one connection: anything not batched is paid for in
//! series.
//!
//! The helper is optional everywhere: when it cannot be launched, callers
//! degrade gracefully and scans lose only the full-ARP coverage.

use vstd::prelude::*;
use vstd::string::*;

use crate::bytes::utf8;
use crate::num;
use crate::num::push_dec;
use crate::seqs;
use crate::text;
use crate::text::{clone_opt, trim};

verus! {

/// How long to wait for the elevated helper's pipe to appear, in milliseconds.
pub const CONNECT_TIMEOUT_MS: u64 = 45000;

/// Most addresses to put in one `arp-batch`. Must not exceed the helper's own
/// cap, which rejects anything larger.
pub const MAX_BATCH: usize = 128;

/// A quiet address costs the helper one ARP wait: about a second on Linux, and
/// up to ~3.2s on Windows, where SendARP retries internally. This budget is
/// deliberately well clear of a slow answer: anything beyond it means the
/// helper has wedged.
pub const REQUEST_TIMEOUT_MS: u64 = 5000;

/// How long to allow a batch of `n` addresses, in milliseconds.
pub open spec fn batch_budget(n: nat) -> nat {
    5000 + 150 * (if n < 128 {
        n
    } else {
        128
    })
}

/// How long to allow a batch of `n` addresses, in milliseconds.
///
/// The helper resolves a batch with bounded concurrency, so the cost is a
/// fraction of `n` ARP waits rather than all of them. The allowance is
/// deliberately loose: a batch that is merely slow must not be mistaken for a
/// wedged helper.
pub fn batch_timeout(n: usize) -> (r: u64)
    ensures
        r == batch_budget(n as nat),
{
    let m: usize = if n < MAX_BATCH {
        n
    } else {
        MAX_BATCH
    };
    REQUEST_TIMEOUT_MS + 150 * (m as u64)
}

/// What the helper replied.
#[derive(Debug)]
pub struct HelperReply {
    pub ok: bool,
    pub mac: Option<String>,
    /// One slot per address of an `arp-batch`, in the order asked.
    pub macs: Option<Vec<Option<String>>>,
    pub error: Option<String>,
}

/// What a [`HelperReply`] says.
#[verifier::ext_equal]
pub struct ReplyModel {
    pub ok: bool,
    pub mac: Option<Seq<char>>,
    pub macs: Option<Seq<Option<Seq<char>>>>,
    pub error: Option<Seq<char>>,
}

impl DeepView for HelperReply {
    type V = ReplyModel;

    open spec fn deep_view(&self) -> ReplyModel {
        ReplyModel {
            ok: self.ok,
            mac: self.mac.deep_view(),
            macs: self.macs.deep_view(),
            error: self.error.deep_view(),
        }
    }
}

/// Why a reply is a refusal.
pub open spec fn refusal(r: ReplyModel) -> Seq<char> {
    match r.error {
        Some(e) => e,
        None => "helper error"@,
    }
}

/// Why a reply is a refusal.
fn refusal_of(reply: &HelperReply) -> (r: String)
    ensures
        r@ == refusal(reply.deep_view()),
{
    match &reply.error {
        Some(e) => e.clone(),
        None => "helper error".to_string(),
    }
}

/// What a reply says to a request for one address.
pub fn single_answer(reply: &HelperReply) -> (r: Result<Option<String>, String>)
    ensures
        match r {
            Ok(mac) => reply.ok && mac.deep_view() == reply.deep_view().mac,
            Err(e) => !reply.ok && e@ == refusal(reply.deep_view()),
        },
{
    if !reply.ok {
        return Err(refusal_of(reply));
    }
    Ok(clone_opt(&reply.mac))
}

/// What is wrong with a reply to a batch, if anything: a refusal, no results,
/// or another number of results than addresses.
pub open spec fn batch_fault(r: ReplyModel, asked: nat) -> Option<Seq<char>> {
    if !r.ok {
        Some(refusal(r))
    } else {
        match r.macs {
            None => Some("helper answered a batch without results"@),
            Some(macs) => if macs.len() == asked {
                None
            } else {
                Some(
                    "helper answered "@ + num::dec(macs.len()) + " of "@ + num::dec(asked)
                        + " addresses"@,
                )
            },
        }
    }
}

/// What a reply says to a request for several addresses, one slot per
/// address.
///
/// Positional results are only usable if there is one per address, so a short
/// reply is an error rather than something to pad out: padding would attribute
/// one address's MAC to another.
pub fn batch_answer(reply: HelperReply, asked: usize) -> (r: Result<Vec<Option<String>>, String>)
    ensures
        match batch_fault(reply.deep_view(), asked as nat) {
            Some(e) => r is Err && r->Err_0@ == e,
            None => r is Ok && Some(r.unwrap().deep_view()) == reply.deep_view().macs
                && r.unwrap()@.len() == asked,
        },
{
    if !reply.ok {
        return Err(refusal_of(&reply));
    }
    match reply.macs {
        None => Err("helper answered a batch without results".to_string()),
        Some(macs) => {
            assert(macs.deep_view().len() == macs@.len());
            if macs.len() != asked {
                let mut e = "helper answered ".to_string();
                push_dec(&mut e, macs.len() as u64);
                e.append(" of ");
                push_dec(&mut e, asked as u64);
                e.append(" addresses");
                return Err(e);
            }
            Ok(macs)
        },
    }
}

/// The addresses of a batch: the next so many.
pub open spec fn batch_at(ips: Seq<Seq<char>>, k: int) -> Seq<Seq<char>> {
    ips.subrange(
        k * 128,
        if (k + 1) * 128 < ips.len() {
            (k + 1) * 128
        } else {
            ips.len() as int
        },
    )
}

/// How many batches addresses make.
pub open spec fn batch_count(n: nat) -> nat {
    (n + 127) / 128
}

/// Put addresses into batches, each small enough for one request, so that
/// callers may hand over a whole subnet.
pub fn batches(ips: &Vec<String>) -> (r: Vec<Vec<String>>)
    requires
        ips@.len() <= isize::MAX,
    ensures
        r.deep_view() == Seq::new(
            batch_count(ips@.len()),
            |k: int| batch_at(ips.deep_view(), k),
        ),
{
    let ghost all = ips.deep_view();
    let n: usize = ips.len();
    let mut out: Vec<Vec<String>> = Vec::new();
    let mut at: usize = 0;
    let ghost mut k: int = 0;
    while at < n
        invariant
            n == ips@.len() <= isize::MAX,
            all == ips.deep_view(),
            all.len() == n,
            0 <= k,
            at == k * 128 || (at == n && (k - 1) * 128 < n <= k * 128),
            at <= n,
            at < n ==> at == k * 128,
            at == n ==> k == batch_count(n as nat),
            out.deep_view() == Seq::new(k as nat, |j: int| batch_at(all, j)),
        decreases n - at,
    {
        let end: usize = if n - at > 128 {
            at + 128
        } else {
            n
        };
        let mut batch: Vec<String> = Vec::new();
        let mut i: usize = at;
        while i < end
            invariant
                at <= i <= end <= n,
                n == ips@.len(),
                all == ips.deep_view(),
                all.len() == n,
                batch.deep_view() == all.subrange(at as int, i as int),
            decreases end - i,
        {
            assert(all[i as int] == ips@[i as int]@);
            let ghost so_far = batch.deep_view();
            batch.push(ips[i].clone());
            assert(batch.deep_view() == so_far.push(all[i as int]));
            assert(all.subrange(at as int, i + 1) == all.subrange(at as int, i as int).push(
                all[i as int],
            ));
            i = i + 1;
        }
        let ghost so_far = out.deep_view();
        let ghost model = batch.deep_view();
        assert(model == batch_at(all, k));
        out.push(batch);
        assert(out.deep_view() == so_far.push(model));
        at = end;
        proof {
            k = k + 1;
        }
    }
    out
}

/// What several batches were answered, one after the other.
pub open spec fn joined(answers: Seq<Vec<Option<String>>>) -> Seq<Option<Seq<char>>>
    decreases answers.len(),
{
    if answers.len() == 0 {
        Seq::empty()
    } else {
        joined(answers.drop_last()) + answers.last().deep_view()
    }
}

/// The condition of having failed.
pub open spec fn failed() -> spec_fn(Result<Vec<Option<String>>, String>) -> bool {
    |a: Result<Vec<Option<String>>, String>| a is Err
}

/// What was answered where nothing failed.
pub open spec fn successes(answers: Seq<Result<Vec<Option<String>>, String>>) -> Seq<
    Vec<Option<String>>,
> {
    Seq::new(answers.len(), |i: int| answers[i].unwrap())
}

/// Put the answers to several batches together: the slots of all of them in
/// order, or what was wrong with the first that failed.
pub fn join_batches(answers: Vec<Result<Vec<Option<String>>, String>>) -> (r: Result<
    Vec<Option<String>>,
    String,
>)
    ensures
        match seqs::first_where(answers@, failed()) {
            Some(i) => r is Err && r->Err_0@ == answers@[i]->Err_0@,
            None => r is Ok && r->Ok_0.deep_view() == joined(successes(answers@)),
        },
{
    let ghost all = answers@;
    let mut out: Vec<Option<String>> = Vec::new();
    let mut i: usize = 0;
    while i < answers.len()
        invariant
            i <= answers.len(),
            all == answers@,
            forall|j: int| 0 <= j < i ==> !failed()(#[trigger] all[j]),
            out.deep_view() == joined(successes(all.take(i as int))),
        decreases answers.len() - i,
    {
        match &answers[i] {
            Ok(slots) => {
                let ghost before = out.deep_view();
                let ghost slots_model = slots.deep_view();
                let mut k: usize = 0;
                while k < slots.len()
                    invariant
                        k <= slots.len(),
                        slots_model == slots.deep_view(),
                        out.deep_view() == before + slots_model.take(k as int),
                    decreases slots.len() - k,
                {
                    let slot = clone_opt(&slots[k]);
                    assert(slots_model[k as int] == slots@[k as int].deep_view());
                    let ghost so_far = out.deep_view();
                    let ghost model = slot.deep_view();
                    out.push(slot);
                    assert(out.deep_view() == so_far.push(model));
                    assert(before + slots_model.take(k + 1) == (before + slots_model.take(
                        k as int,
                    )).push(model));
                    k = k + 1;
                }
                assert(slots_model.take(slots_model.len() as int) == slots_model);
                assert(successes(all.take(i + 1)).drop_last() == successes(all.take(i as int)));
            },
            Err(e) => {
                proof {
                    assert(seqs::is_first(all, failed(), i as int));
                    seqs::lemma_first_is(all, failed(), i as int);
                }
                return Err(e.clone());
            },
        }
        i = i + 1;
    }
    proof {
        assert(all.take(all.len() as int) == all);
        seqs::lemma_first_none(all, failed());
    }
    Ok(out)
}

/// The slots of a batch: what was answered, or as many empty ones as addresses
/// were asked for where the batch failed.
pub fn batch_slots(answer: Result<Vec<Option<String>>, String>, asked: usize) -> (r: Vec<
    Option<String>,
>)
    ensures
        match answer {
            Ok(macs) => r == macs,
            Err(_) => r.deep_view() == Seq::new(asked as nat, |i: int| None::<Seq<char>>),
        },
{
    match answer {
        Ok(macs) => macs,
        Err(_) => {
            let mut out: Vec<Option<String>> = Vec::new();
            while out.len() < asked
                invariant
                    out@.len() <= asked,
                    out.deep_view() == Seq::new(out@.len(), |i: int| None::<Seq<char>>),
                decreases asked - out.len(),
            {
                let ghost so_far = out.deep_view();
                out.push(None);
                assert(out.deep_view() == so_far.push(None::<Seq<char>>));
            }
            out
        },
    }
}

/// The batches one after the other are the addresses that were handed over,
/// and none is empty or larger than the helper accepts.
pub proof fn law_batches_cover(ips: Seq<Seq<char>>, k: int)
    requires
        0 <= k < batch_count(ips.len()),
    ensures
        0 < batch_at(ips, k).len() <= 128,
        forall|j: int|
            0 <= j < batch_at(ips, k).len() ==> #[trigger] batch_at(ips, k)[j] == ips[k * 128 + j],
        k + 1 < batch_count(ips.len()) ==> batch_at(ips, k).len() == 128,
        k + 1 == batch_count(ips.len()) ==> k * 128 + batch_at(ips, k).len() == ips.len(),
{
}

// ----- the conversation -----

/// A conversation with the helper.
#[derive(Debug)]
pub struct HelperClient {
    /// Set once the helper stops answering; every later request fails fast.
    pub dead: bool,
}

impl HelperClient {
    /// A conversation that has just begun.
    pub fn new() -> (r: HelperClient)
        ensures
            !r.dead,
    {
        HelperClient { dead: false }
    }

    /// Whether a request may be sent.
    pub fn ready(&self) -> (r: Result<(), String>)
        ensures
            match r {
                Ok(_) => !self.dead,
                Err(e) => self.dead && e@ == "helper is no longer usable"@,
            },
    {
        if self.dead {
            return Err("helper is no longer usable".to_string());
        }
        Ok(())
    }

    /// Take the line that came back, or what went wrong while waiting for it.
    /// The reply without the white space around it.
    ///
    /// A helper that stopped answering will not start again, and a caller with
    /// many addresses left must not wait on each.
    pub fn receive(&mut self, line: Result<String, String>) -> (r: Result<String, String>)
        ensures
            match line {
                Err(e) => final(self).dead && r == Err::<String, String>(e),
                Ok(s) => if text::blank(s@) {
                    final(self).dead && r is Err && r->Err_0@ == "helper closed the connection"@
                } else {
                    final(self).dead == old(self).dead && r is Ok && r.unwrap()@
                        == text::trimmed(s@)
                },
            },
            old(self).dead ==> final(self).dead,
    {
        match line {
            Err(e) => {
                self.dead = true;
                Err(e)
            },
            Ok(s) => {
                let t = trim(s.as_str());
                if t.as_str().is_empty() {
                    self.dead = true;
                    return Err("helper closed the connection".to_string());
                }
                Ok(t)
            },
        }
    }
}

/// A line in the making.
#[derive(Debug)]
pub struct LineBuffer {
    pub bytes: Vec<u8>,
}

/// What one more byte makes of a line.
#[derive(Debug)]
pub enum LineStep {
    /// The line goes on.
    More,
    /// The line is complete.
    Line(String),
    /// The line is complete and not valid UTF-8.
    Garbled(String),
}

impl LineBuffer {
    pub fn new() -> (r: LineBuffer)
        ensures
            r.bytes@ == Seq::<u8>::empty(),
    {
        LineBuffer { bytes: Vec::new() }
    }

    /// Take in one byte. The newline ends the line and is no part of it.
    pub fn push(&mut self, byte: u8) -> (r: LineStep)
        ensures
            if byte == 10 {
                &&& final(self).bytes@ == Seq::<u8>::empty()
                &&& if vstd::utf8::valid_utf8(old(self).bytes@) {
                    r is Line && r->Line_0@ == vstd::utf8::decode_utf8(old(self).bytes@)
                } else {
                    r is Garbled && r->Garbled_0@ == "helper sent invalid UTF-8"@
                }
            } else {
                r is More && final(self).bytes@ == old(self).bytes@.push(byte)
            },
    {
        if byte == 10 {
            let out = utf8(self.bytes.as_slice());
            self.bytes = Vec::new();
            match out {
                Some(s) => LineStep::Line(s),
                None => LineStep::Garbled("helper sent invalid UTF-8".to_string()),
            }
        } else {
            self.bytes.push(byte);
            LineStep::More
        }
    }
}

/// A reply to a batch is taken as it is exactly when it reports success and has
/// one slot for each address that was asked for. A refusal that says why is
/// reported so.
pub proof fn law_batch_is_taken_whole(r: ReplyModel, asked: nat)
    ensures
        batch_fault(r, asked) is None <==> r.ok && r.macs is Some && r.macs.unwrap().len() == asked,
        !r.ok && r.error is Some ==> batch_fault(r, asked) == r.error,
{
}

/// A larger batch is given more time, up to the largest that is sent; every
/// batch is given at least what one request is.
pub proof fn law_budget_grows(a: nat, b: nat)
    requires
        a < b,
    ensures
        5000 <= batch_budget(a) <= batch_budget(b) <= 24200,
        b <= 128 ==> batch_budget(a) < batch_budget(b),
{
}

/// The answers to batches are put together in their order: each slot of a batch
/// stands behind all slots of the batches before it.
pub proof fn law_answers_stay_in_order(answers: Seq<Vec<Option<String>>>, k: int, j: int)
    requires
        0 <= k < answers.len(),
        0 <= j < answers[k]@.len(),
    ensures
        ({
            let at = joined(answers.take(k)).len() + j;
            &&& at < joined(answers).len()
            &&& joined(answers)[at] == answers[k]@[j].deep_view()
        }),
    decreases answers.len(),
{
    let init = answers.drop_last();
    if k < init.len() {
        assert(init.take(k) =~= answers.take(k));
        law_answers_stay_in_order(init, k, j);
    } else {
        assert(answers.take(k) =~= init);
        assert(answers.last().deep_view()[j] == answers[k]@[j].deep_view());
    }
}

} // verus!
