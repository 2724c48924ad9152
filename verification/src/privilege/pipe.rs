//! The helper over a named pipe (Windows): who may use it.
//!
//! The pipe is restricted to the launching user's SID, and both ends
//! authenticate: the helper checks the connecting client's token, and the
//! client checks that the pipe is served by the process it launched.

use vstd::prelude::*;
use vstd::string::*;

use crate::num;
use crate::num::push_dec;
use crate::privilege::helper::CONNECT_TIMEOUT_MS;
use crate::seqs;
use crate::text;
use crate::text::str_eq;

verus! {

/// How long to wait between two attempts to open the pipe, in milliseconds.
pub const CONNECT_PAUSE_MS: u64 = 250;

// ----- launching -----

/// The name of a pipe: made of the process that launches the helper and of the
/// moment.
pub open spec fn pipe_name_of(pid: u32, nanos: u64) -> Seq<char> {
    "laninv-"@ + num::dec(pid as nat) + "-"@ + num::dec(nanos as nat)
}

/// Name a pipe.
pub fn pipe_name(pid: u32, nanos: u64) -> (r: String)
    ensures
        r@ == pipe_name_of(pid, nanos),
{
    let mut out = "laninv-".to_string();
    push_dec(&mut out, pid as u64);
    out.append("-");
    push_dec(&mut out, nanos);
    out
}

/// A number in decimal has no hyphen in it.
proof fn lemma_no_hyphen(n: nat)
    ensures
        !num::dec(n).contains('-'),
{
    num::lemma_value_digits(n, 10);
    let d = num::dec(n);
    if d.contains('-') {
        let i = choose|i: int| 0 <= i < d.len() && d[i] == '-';
        assert(num::digit(d[i], 10) is Some);
    }
}

/// The pieces of a pipe's name.
proof fn lemma_pipe_name_pieces(pid: u32, nanos: u64)
    ensures
        text::split(pipe_name_of(pid, nanos), '-') == seq![
            "laninv"@,
            num::dec(pid as nat),
            num::dec(nanos as nat),
        ],
{
    reveal_strlit("laninv-");
    reveal_strlit("laninv");
    reveal_strlit("-");
    let p = num::dec(pid as nat);
    let n = num::dec(nanos as nat);
    assert(pipe_name_of(pid, nanos) =~= "laninv"@ + seq!['-'] + (p + seq!['-'] + n));
    lemma_no_hyphen(pid as nat);
    lemma_no_hyphen(nanos as nat);
    text::lemma_split_concat("laninv"@, p + seq!['-'] + n, '-');
    text::lemma_split_concat(p, n, '-');
    text::lemma_split_free("laninv"@, '-');
    text::lemma_split_free(p, '-');
    text::lemma_split_free(n, '-');
    assert(text::split(pipe_name_of(pid, nanos), '-') =~= seq!["laninv"@, p, n]);
}

/// Two launches share a name only where they are by one process at one moment.
pub proof fn law_pipe_names_differ(pid1: u32, nanos1: u64, pid2: u32, nanos2: u64)
    requires
        pipe_name_of(pid1, nanos1) == pipe_name_of(pid2, nanos2),
    ensures
        pid1 == pid2,
        nanos1 == nanos2,
{
    lemma_pipe_name_pieces(pid1, nanos1);
    lemma_pipe_name_pieces(pid2, nanos2);
    let a = text::split(pipe_name_of(pid1, nanos1), '-');
    let b = text::split(pipe_name_of(pid2, nanos2), '-');
    assert(a[1] == b[1] && a[2] == b[2]);
    num::lemma_value_digits(pid1 as nat, 10);
    num::lemma_value_digits(pid2 as nat, 10);
    num::lemma_value_digits(nanos1 as nat, 10);
    num::lemma_value_digits(nanos2 as nat, 10);
}

/// The path under which a pipe is opened.
pub fn pipe_path(name: &str) -> (r: String)
    ensures
        r@ == r"\\.\pipe\"@ + name@,
{
    let mut out = r"\\.\pipe\".to_string();
    out.append(name);
    out
}

/// The arguments that name a pipe and its owner.
pub open spec fn arguments_of(name: Seq<char>, owner: Seq<char>) -> Seq<char> {
    "--pipe "@ + name + " --owner "@ + owner
}

/// The arguments that the helper is launched with. The SID is not a secret:
/// the pipe's access list, not the argument, is what keeps other users out.
pub fn helper_arguments(name: &str, owner: &str) -> (r: String)
    ensures
        r@ == arguments_of(name@, owner@),
{
    let mut out = "--pipe ".to_string();
    out.append(name);
    out.append(" --owner ");
    out.append(owner);
    out
}

/// The process that was launched, where the system says which it is; it has
/// no process with the number 0.
pub fn launched_helper(pid: u32) -> (r: Result<u32, String>)
    ensures
        if pid == 0 {
            r is Err && r->Err_0@ == "could not identify the helper process"@
        } else {
            r == Ok::<u32, String>(pid)
        },
{
    if pid == 0 {
        Err("could not identify the helper process".to_string())
    } else {
        Ok(pid)
    }
}

// ----- connecting -----

/// What the client does after an attempt to open the pipe.
#[derive(Debug, Clone, Copy, PartialEq, Eq, Structural)]
pub enum ConnectStep {
    /// Talk to the helper.
    Use,
    /// Close the pipe and give up: something else serves it.
    Refuse,
    /// Give up: the pipe does not appear.
    GiveUp,
    /// Try again after a pause.
    Wait,
}

/// What follows an attempt. A pipe is used only where the process that serves
/// it is known to be the one launched: something else may have taken the name
/// first.
pub open spec fn connect_next(
    opened: bool,
    served_by: Option<u32>,
    launched: u32,
    waited_ms: u64,
) -> ConnectStep {
    if opened {
        if served_by == Some(launched) {
            ConnectStep::Use
        } else {
            ConnectStep::Refuse
        }
    } else if waited_ms >= CONNECT_TIMEOUT_MS {
        ConnectStep::GiveUp
    } else {
        ConnectStep::Wait
    }
}

/// Decide what follows an attempt to open the pipe: whether it opened, which
/// process serves it, which was launched, and how long it has been.
pub fn connect_step(opened: bool, served_by: Option<u32>, launched: u32, waited_ms: u64) -> (r:
    ConnectStep)
    ensures
        r == connect_next(opened, served_by, launched, waited_ms),
{
    if opened {
        match served_by {
            Some(pid) => if pid == launched {
                ConnectStep::Use
            } else {
                ConnectStep::Refuse
            },
            None => ConnectStep::Refuse,
        }
    } else if waited_ms >= CONNECT_TIMEOUT_MS {
        ConnectStep::GiveUp
    } else {
        ConnectStep::Wait
    }
}

/// What is said where a step ends the attempts without a helper.
pub open spec fn step_error(step: ConnectStep) -> Option<Seq<char>> {
    match step {
        ConnectStep::Refuse => Some(
            "the helper pipe is served by a different process; refusing to use it"@,
        ),
        ConnectStep::GiveUp => Some(
            "helper pipe did not appear (UAC declined or helper failed)"@,
        ),
        ConnectStep::Use | ConnectStep::Wait => None,
    }
}

/// Say why a step ends the attempts without a helper, where it does.
pub fn connect_error(step: ConnectStep) -> (r: Option<String>)
    ensures
        r.deep_view() == step_error(step),
{
    match step {
        ConnectStep::Refuse => Some(
            "the helper pipe is served by a different process; refusing to use it".to_string(),
        ),
        ConnectStep::GiveUp => Some(
            "helper pipe did not appear (UAC declined or helper failed)".to_string(),
        ),
        ConnectStep::Use | ConnectStep::Wait => None,
    }
}

/// An attempt to open the pipe: whether it opened, which process serves it,
/// and how long it had been.
pub struct Attempt {
    pub opened: bool,
    pub served_by: Option<u32>,
    pub waited_ms: u64,
}

/// The step after an attempt.
pub open spec fn step_after(a: Attempt, launched: u32) -> ConnectStep {
    connect_next(a.opened, a.served_by, launched, a.waited_ms)
}

/// Attempts go on as long as each is followed by another.
pub open spec fn goes_on(attempts: Seq<Attempt>, launched: u32) -> bool {
    forall|i: int|
        0 <= i < attempts.len() - 1 ==> step_after(#[trigger] attempts[i], launched)
            == ConnectStep::Wait
}

/// Only the launched helper is ever talked to: where attempts end in use, the
/// pipe that opened is served by the process launched, and no other pipe
/// opened before. One that opens and is served by anything else, or by nobody
/// knows whom, ends them in a refusal.
pub proof fn law_only_the_launched_helper_is_used(attempts: Seq<Attempt>, launched: u32)
    requires
        attempts.len() > 0,
        goes_on(attempts, launched),
    ensures
        step_after(attempts.last(), launched) == ConnectStep::Use <==> attempts.last().opened
            && attempts.last().served_by == Some(launched),
        step_after(attempts.last(), launched) == ConnectStep::Refuse <==> attempts.last().opened
            && attempts.last().served_by != Some(launched),
        forall|i: int| 0 <= i < attempts.len() - 1 ==> !(#[trigger] attempts[i]).opened,
{
    assert forall|i: int| 0 <= i < attempts.len() - 1 implies !(#[trigger] attempts[i]).opened by {
        assert(step_after(attempts[i], launched) == ConnectStep::Wait);
    }
}

/// Waiting ends: where the clock advances by a pause from each attempt to the
/// next, there are no more attempts than fit into the time allowed, and one.
pub proof fn law_waiting_ends(attempts: Seq<Attempt>, launched: u32)
    requires
        goes_on(attempts, launched),
        forall|i: int|
            0 <= i < attempts.len() ==> (#[trigger] attempts[i]).waited_ms >= i * CONNECT_PAUSE_MS,
    ensures
        attempts.len() <= CONNECT_TIMEOUT_MS / CONNECT_PAUSE_MS + 1,
{
    if attempts.len() >= 2 {
        let i = attempts.len() - 2;
        assert(step_after(attempts[i], launched) == ConnectStep::Wait);
        assert(i * 250 < 45000);
    }
}

// ----- serving -----

/// An entry of an access list that grants rights to someone.
pub open spec fn access_entry(rights: Seq<char>, whom: Seq<char>) -> Seq<char> {
    "(A;;"@ + rights + ";;;"@ + whom + ")"@
}

/// The access list of the pipe: read and write for its owner, everything for
/// administrators, and nothing inherited.
pub fn pipe_access(owner: &str) -> (r: String)
    ensures
        r@ == "D:P(A;;GWGR;;;"@ + owner@ + ")(A;;GA;;;BA)"@,
        r@ == "D:P"@ + access_entry("GWGR"@, owner@) + access_entry("GA"@, "BA"@),
{
    let mut out = "D:P(A;;GWGR;;;".to_string();
    out.append(owner);
    out.append(")(A;;GA;;;BA)");
    proof {
        lemma_access_entries(owner@);
    }
    out
}

/// The access list, entry by entry.
proof fn lemma_access_entries(owner: Seq<char>)
    ensures
        "D:P(A;;GWGR;;;"@ + owner + ")(A;;GA;;;BA)"@ == "D:P"@ + access_entry("GWGR"@, owner)
            + access_entry("GA"@, "BA"@),
{
    reveal_strlit("D:P(A;;GWGR;;;");
    reveal_strlit(")(A;;GA;;;BA)");
    reveal_strlit("D:P");
    reveal_strlit("(A;;");
    reveal_strlit("GWGR");
    reveal_strlit(";;;");
    reveal_strlit(")");
    reveal_strlit("GA");
    reveal_strlit("BA");
    assert("D:P(A;;GWGR;;;"@ =~= "D:P"@ + "(A;;"@ + "GWGR"@ + ";;;"@);
    assert(")(A;;GA;;;BA)"@ =~= ")"@ + "(A;;"@ + "GA"@ + ";;;"@ + "BA"@ + ")"@);
    assert("D:P(A;;GWGR;;;"@ + owner + ")(A;;GA;;;BA)"@ =~= "D:P"@ + access_entry("GWGR"@, owner)
        + access_entry("GA"@, "BA"@));
}

/// A client is accepted: the user of its token could be read, and is the
/// owner.
pub open spec fn accepts(sid: Option<Seq<char>>, owner: Seq<char>) -> bool {
    sid == Some(owner)
}

/// Decide whether a client may use the helper, by the user of its token.
pub fn client_accepted(sid: Option<&str>, owner: &str) -> (r: bool)
    ensures
        r == accepts(sid.deep_view(), owner@),
{
    match sid {
        Some(s) => str_eq(s, owner),
        None => false,
    }
}

/// The pipe is restricted to one user beside administrators: its access list
/// has two entries, one for the owner and one for administrators, and no
/// client but the owner is accepted. (A SID has no bracket in it.)
pub proof fn law_pipe_is_for_its_owner(owner: Seq<char>, sid: Option<Seq<char>>)
    requires
        !owner.contains('('),
    ensures
        text::split("D:P"@ + access_entry("GWGR"@, owner) + access_entry("GA"@, "BA"@), '(') == seq![
            "D:P"@,
            "A;;GWGR;;;"@ + owner + ")"@,
            "A;;GA;;;BA)"@,
        ],
        accepts(sid, owner) <==> sid == Some(owner),
{
    let all = "D:P"@ + access_entry("GWGR"@, owner) + access_entry("GA"@, "BA"@);
    reveal_strlit("D:P");
    reveal_strlit("(A;;");
    reveal_strlit("GWGR");
    reveal_strlit(";;;");
    reveal_strlit(")");
    reveal_strlit("GA");
    reveal_strlit("BA");
    reveal_strlit("A;;GWGR;;;");
    reveal_strlit("A;;GA;;;BA)");
    let first = "A;;GWGR;;;"@ + owner + ")"@;
    let second = "A;;GA;;;BA)"@;
    assert(all =~= "D:P"@ + seq!['('] + (first + seq!['('] + second));
    assert(!first.contains('(')) by {
        if first.contains('(') {
            let i = choose|i: int| 0 <= i < first.len() && first[i] == '(';
            if 10 <= i < 10 + owner.len() {
                assert(owner[i - 10] == '(');
            }
        }
    }
    text::lemma_split_concat("D:P"@, first + seq!['('] + second, '(');
    text::lemma_split_concat(first, second, '(');
    text::lemma_split_free("D:P"@, '(');
    text::lemma_split_free(first, '(');
    text::lemma_split_free(second, '(');
    assert(text::split(all, '(') =~= seq!["D:P"@, first, second]);
}

// ----- the helper's arguments -----

/// How the helper serves.
#[derive(Debug)]
pub enum HelperMode {
    /// On its standard input and output.
    Stdio,
    /// On a named pipe, for one user.
    Pipe { name: String, owner: String },
    /// Not at all: it was not launched as it should be.
    Usage,
}

/// What a [`HelperMode`] says.
#[verifier::ext_equal]
pub enum HelperModeModel {
    Stdio,
    Pipe { name: Seq<char>, owner: Seq<char> },
    Usage,
}

impl DeepView for HelperMode {
    type V = HelperModeModel;

    open spec fn deep_view(&self) -> HelperModeModel {
        match self {
            HelperMode::Stdio => HelperModeModel::Stdio,
            HelperMode::Pipe { name, owner } => HelperModeModel::Pipe {
                name: name@,
                owner: owner@,
            },
            HelperMode::Usage => HelperModeModel::Usage,
        }
    }
}

/// The condition of being an argument.
pub open spec fn argument(name: Seq<char>) -> spec_fn(Seq<char>) -> bool {
    |a: Seq<char>| a == name
}

/// The argument behind the first with a name.
pub open spec fn value_after(args: Seq<Seq<char>>, name: Seq<char>) -> Option<Seq<char>> {
    match seqs::first_where(args, argument(name)) {
        Some(i) => if i + 1 < args.len() {
            Some(args[i + 1])
        } else {
            None
        },
        None => None,
    }
}

/// How the helper serves, by its arguments. A pipe without an owner is not
/// served: nobody could be accepted on it.
pub open spec fn mode_of(args: Seq<Seq<char>>) -> HelperModeModel {
    if seqs::first_where(args, argument("--stdio"@)) is Some {
        HelperModeModel::Stdio
    } else {
        match (value_after(args, "--pipe"@), value_after(args, "--owner"@)) {
            (Some(name), Some(owner)) => HelperModeModel::Pipe { name, owner },
            _ => HelperModeModel::Usage,
        }
    }
}

/// Find an argument.
fn find_argument(args: &Vec<String>, name: &str) -> (r: Option<usize>)
    ensures
        match r {
            Some(i) => i < args@.len() && seqs::first_where(args.deep_view(), argument(name@))
                == Some(i as int),
            None => seqs::first_where(args.deep_view(), argument(name@)) is None,
        },
{
    let ghost all = args.deep_view();
    let ghost p = argument(name@);
    let mut i: usize = 0;
    while i < args.len()
        invariant
            i <= args.len(),
            all == args.deep_view(),
            p == argument(name@),
            forall|j: int| 0 <= j < i ==> !p(#[trigger] all[j]),
        decreases args.len() - i,
    {
        assert(all[i as int] == args@[i as int]@);
        if str_eq(args[i].as_str(), name) {
            proof {
                assert(seqs::is_first(all, p, i as int));
                seqs::lemma_first_is(all, p, i as int);
            }
            return Some(i);
        }
        i = i + 1;
    }
    proof {
        seqs::lemma_first_none(all, p);
    }
    None
}

/// Find the value of an argument.
fn find_value(args: &Vec<String>, name: &str) -> (r: Option<String>)
    ensures
        r.deep_view() == value_after(args.deep_view(), name@),
{
    match find_argument(args, name) {
        Some(i) => if i < args.len() - 1 {
            assert(args.deep_view()[i + 1] == args@[i + 1]@);
            Some(args[i + 1].clone())
        } else {
            None
        },
        None => None,
    }
}

/// Read from its arguments how the helper is to serve.
pub fn helper_mode(args: &Vec<String>) -> (r: HelperMode)
    ensures
        r.deep_view() == mode_of(args.deep_view()),
{
    if find_argument(args, "--stdio").is_some() {
        return HelperMode::Stdio;
    }
    match (find_value(args, "--pipe"), find_value(args, "--owner")) {
        (Some(name), Some(owner)) => HelperMode::Pipe { name, owner },
        _ => HelperMode::Usage,
    }
}

/// A text is none of the helper's own arguments.
pub open spec fn no_argument(s: Seq<char>) -> bool {
    s != "--stdio"@ && s != "--pipe"@ && s != "--owner"@
}

/// The helper serves the pipe, and accepts the user, that it was launched for:
/// it reads out of its arguments, which are separated by blanks, what the
/// client put there.
pub proof fn law_helper_serves_whom_it_was_launched_for(
    exe: Seq<char>,
    name: Seq<char>,
    owner: Seq<char>,
)
    requires
        no_argument(exe),
        no_argument(name) && !name.contains(' '),
        no_argument(owner) && !owner.contains(' '),
    ensures
        mode_of(seq![exe] + text::split(arguments_of(name, owner), ' ')) == (HelperModeModel::Pipe {
            name,
            owner,
        }),
{
    reveal_strlit("--stdio");
    reveal_strlit("--pipe");
    reveal_strlit("--owner");
    reveal_strlit("--pipe ");
    reveal_strlit(" --owner ");
    let text = arguments_of(name, owner);
    let tail = "--owner"@ + seq![' '] + owner;
    let rest = name + seq![' '] + tail;
    assert(text =~= "--pipe"@ + seq![' '] + rest);
    text::lemma_split_concat("--pipe"@, rest, ' ');
    text::lemma_split_concat(name, tail, ' ');
    text::lemma_split_concat("--owner"@, owner, ' ');
    text::lemma_split_free("--pipe"@, ' ');
    text::lemma_split_free(name, ' ');
    text::lemma_split_free("--owner"@, ' ');
    text::lemma_split_free(owner, ' ');
    let args = seq![exe] + text::split(text, ' ');
    assert(args =~= seq![exe, "--pipe"@, name, "--owner"@, owner]);
    assert("--pipe"@[2] == 'p' && "--owner"@[2] == 'o' && "--stdio"@[2] == 's');
    seqs::lemma_first_none(args, argument("--stdio"@));
    assert(seqs::is_first(args, argument("--pipe"@), 1));
    seqs::lemma_first_is(args, argument("--pipe"@), 1);
    assert(seqs::is_first(args, argument("--owner"@), 3));
    seqs::lemma_first_is(args, argument("--owner"@), 3);
}

/// A pipe is used exactly where it opened and is served by the process that was
/// launched; one served by another, or by nobody known, is refused with an
/// error. One that does not open is waited for, for forty-five seconds.
pub proof fn law_when_a_pipe_is_used(
    opened: bool,
    served_by: Option<u32>,
    launched: u32,
    waited_ms: u64,
)
    ensures
        ({
            let step = connect_next(opened, served_by, launched, waited_ms);
            &&& step == ConnectStep::Use <==> opened && served_by == Some(launched)
            &&& step == ConnectStep::Refuse <==> opened && served_by != Some(launched)
            &&& step == ConnectStep::Wait <==> !opened && waited_ms < 45000
            &&& step_error(step) is Some <==> step == ConnectStep::Refuse || step
                == ConnectStep::GiveUp
        }),
{
}

} // verus!
