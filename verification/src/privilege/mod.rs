//! Runtime privilege probing and the optional helper.
//!
//! Nothing here ever *assumes* privilege: each capability follows from a cheap
//! live operation against the loopback or the interface's gateway.

use vstd::prelude::*;
use vstd::string::*;

use crate::model::{Capability, PrivilegeModel, PrivilegeState};
use crate::text;
use crate::text::{chars_of, lower_char, split_chars, str_eq, string_of};

pub mod arp;
pub mod helper;
pub mod pipe;
pub mod serve;

verus! {

/// The platforms that behave differently.
#[derive(Debug, Clone, Copy, PartialEq, Eq, Structural)]
pub enum Platform {
    Linux,
    Windows,
    Other,
}

/// What the live probes found.
#[derive(Debug, Clone, Copy)]
pub struct Findings {
    pub platform: Platform,
    /// The file with the neighbor cache is there (Linux).
    pub cache_readable: bool,
    /// The loopback answered an ICMP echo.
    pub echo_works: bool,
    /// There is an interface to probe ARP on (Windows).
    pub has_interface: bool,
    /// That interface has a gateway (Windows).
    pub has_gateway: bool,
    /// The gateway answered a native ARP request (Windows).
    pub gateway_answers: bool,
    /// A raw socket could be opened (Linux).
    pub raw_sockets: bool,
}

/// Whether the neighbor cache can be read.
pub open spec fn cache_ok(f: Findings) -> bool {
    match f.platform {
        Platform::Linux => f.cache_readable,
        Platform::Windows => true,
        Platform::Other => false,
    }
}

/// The capabilities that findings confirm.
///
/// Permission is not capability: ARP resolution counts only where a native
/// implementation actually answered for the gateway.
pub open spec fn capabilities_of(f: Findings) -> Seq<Capability> {
    (if cache_ok(f) {
        seq![Capability::NeighborCache]
    } else {
        Seq::empty()
    }) + (if f.echo_works {
        seq![Capability::IcmpEcho]
    } else {
        Seq::empty()
    }) + (if f.platform == Platform::Windows && f.has_interface && f.has_gateway
        && f.gateway_answers {
        seq![Capability::ArpResolve]
    } else {
        Seq::empty()
    })
}

/// What there is to say of ARP resolution.
pub open spec fn arp_notes(f: Findings) -> Seq<Seq<char>> {
    match f.platform {
        Platform::Windows => if !f.has_interface {
            Seq::empty()
        } else if !f.has_gateway {
            seq!["no gateway to probe ARP against"@]
        } else if !f.gateway_answers {
            seq!["SendARP failed for gateway"@]
        } else {
            Seq::empty()
        },
        Platform::Linux => if f.raw_sockets {
            seq![
                "running with raw-socket privilege, but ARP resolution lives in the privileged helper: pass --helper for full ARP coverage (no prompt as root)"@,
            ]
        } else {
            seq!["raw sockets unavailable (use the privileged helper for full ARP)"@]
        },
        Platform::Other => Seq::empty(),
    }
}

/// The notes about degraded modes.
pub open spec fn notes_of(f: Findings) -> Seq<Seq<char>> {
    (if cache_ok(f) {
        Seq::empty()
    } else {
        seq!["neighbor cache unreadable"@]
    }) + (if f.echo_works {
        Seq::empty()
    } else {
        seq!["ICMP echo unavailable unprivileged (Linux ping_group_range?)"@]
    }) + arp_notes(f)
}

/// What actually works right now on this machine, from what the probes found.
pub fn probe(f: Findings) -> (r: PrivilegeState)
    ensures
        r.deep_view() == (PrivilegeModel {
            capabilities: capabilities_of(f),
            helper_connected: false,
            notes: notes_of(f),
        }),
{
    let mut state = PrivilegeState::default();
    let cache = match f.platform {
        Platform::Linux => f.cache_readable,
        Platform::Windows => true,  // GetIpNetTable2 needs no privilege
        Platform::Other => false,
    };
    if cache {
        state.capabilities.push(Capability::NeighborCache);
    } else {
        state.notes.push("neighbor cache unreadable".to_string());
    }
    if f.echo_works {
        state.capabilities.push(Capability::IcmpEcho);
    } else {
        state.notes.push(
            "ICMP echo unavailable unprivileged (Linux ping_group_range?)".to_string(),
        );
    }
    match f.platform {
        Platform::Windows => {
            if f.has_interface {
                if f.has_gateway {
                    if f.gateway_answers {
                        state.capabilities.push(Capability::ArpResolve);
                    } else {
                        state.notes.push("SendARP failed for gateway".to_string());
                    }
                } else {
                    state.notes.push("no gateway to probe ARP against".to_string());
                }
            }
        },
        Platform::Linux => {
            // There is no native ARP in the scanner on Linux: the helper holds
            // the only implementation, so the capability is never granted
            // here however much privilege we hold; the note says which of the
            // two reasons applies.
            if f.raw_sockets {
                state.notes.push(
                    "running with raw-socket privilege, but ARP resolution lives in the privileged helper: pass --helper for full ARP coverage (no prompt as root)".to_string(),
                );
            } else {
                state.notes.push(
                    "raw sockets unavailable (use the privileged helper for full ARP)".to_string(),
                );
            }
        },
        Platform::Other => {},
    }
    assert(state.capabilities@ == capabilities_of(f));
    assert(state.notes.deep_view() == notes_of(f));
    state
}

/// ARP resolution is never granted for permission alone: off Windows no
/// finding grants it, and on Windows only an answer from the gateway does.
pub proof fn law_arp_needs_an_answer(f: Findings)
    ensures
        capabilities_of(f).contains(Capability::ArpResolve) <==> f.platform == Platform::Windows
            && f.has_interface && f.has_gateway && f.gateway_answers,
{
    let s = capabilities_of(f);
    if f.platform == Platform::Windows && f.has_interface && f.has_gateway && f.gateway_answers {
        assert(s[s.len() - 1] == Capability::ArpResolve);
    }
}

// ----- where the helper is -----

/// The platform's name of the helper binary.
pub open spec fn helper_name(platform: Platform) -> Seq<char> {
    if platform == Platform::Windows {
        "modern-ip-scanner-helper.exe"@
    } else {
        "modern-ip-scanner-helper"@
    }
}

/// Platform file name of the helper binary.
pub fn helper_file_name(platform: Platform) -> (r: &'static str)
    ensures
        r@ == helper_name(platform),
{
    if platform == Platform::Windows {
        "modern-ip-scanner-helper.exe"
    } else {
        "modern-ip-scanner-helper"
    }
}

/// A character that separates the parts of a path.
pub open spec fn separates(c: char, platform: Platform) -> bool {
    c == '/' || (platform == Platform::Windows && c == '\\')
}

/// The character that is put between the parts of a path.
pub open spec fn separator(platform: Platform) -> char {
    if platform == Platform::Windows {
        '\\'
    } else {
        '/'
    }
}

/// A path begins with a drive letter and a colon.
pub open spec fn has_drive(s: Seq<char>, platform: Platform) -> bool {
    platform == Platform::Windows && s.len() >= 2 && s[1] == ':' && ('a' <= s[0] <= 'z' || 'A'
        <= s[0] <= 'Z')
}

/// A file in a directory; a drive alone stands for the directory that is
/// current on it, so nothing is put behind it.
pub open spec fn file_in(dir: Seq<char>, name: Seq<char>, platform: Platform) -> Seq<char> {
    if dir.len() == 0 || separates(dir.last(), platform) || (dir.len() == 2 && has_drive(
        dir,
        platform,
    )) {
        dir + name
    } else {
        dir.push(separator(platform)) + name
    }
}

/// A path with every separator spelled alike.
pub open spec fn unified(s: Seq<char>, platform: Platform) -> Seq<char> {
    s.map_values(
        |c: char|
            if separates(c, platform) {
                '/'
            } else {
                c
            },
    )
}

/// The first `n` pieces of a path that say something: not what stands between
/// two separators with nothing or a dot in between.
pub open spec fn telling(pieces: Seq<Seq<char>>, n: int) -> Seq<Seq<char>>
    decreases n,
{
    if n <= 0 {
        Seq::empty()
    } else {
        let rest = telling(pieces, n - 1);
        let p = pieces[n - 1];
        if p.len() > 0 && (p != "."@ || n == 1) {
            rest.push(p)
        } else {
            rest
        }
    }
}

/// A path with the letter of its drive in lower case.
pub open spec fn drive_lowered(s: Seq<char>, platform: Platform) -> Seq<char> {
    if has_drive(s, platform) {
        s.update(0, text::ascii_lower_char(s[0]))
    } else {
        s
    }
}

/// A path begins at the root, of its drive where it names one.
pub open spec fn rooted(s: Seq<char>, platform: Platform) -> bool {
    if has_drive(s, platform) {
        s.len() > 2 && s[2] == '/'
    } else {
        s.len() > 0 && s[0] == '/'
    }
}

/// A path as what it names: whether it begins at the root, and its parts. The
/// case of a drive letter says nothing.
pub open spec fn path_parts(s: Seq<char>, platform: Platform) -> (bool, Seq<Seq<char>>) {
    let u = unified(s, platform);
    let pieces = text::split(drive_lowered(u, platform), '/');
    (rooted(u, platform), telling(pieces, pieces.len() as int))
}

/// Two spellings of one path.
pub open spec fn same_path(a: Seq<char>, b: Seq<char>, platform: Platform) -> bool {
    path_parts(a, platform) == path_parts(b, platform)
}

/// Paths without those that repeat the one before.
pub open spec fn deduped(paths: Seq<Seq<char>>, platform: Platform) -> Seq<Seq<char>>
    decreases paths.len(),
{
    if paths.len() == 0 {
        Seq::empty()
    } else {
        let rest = deduped(paths.drop_last(), platform);
        if rest.len() > 0 && same_path(rest.last(), paths.last(), platform) {
            rest
        } else {
            rest.push(paths.last())
        }
    }
}

/// A list of the path that may be there.
pub open spec fn listed(p: Option<Seq<char>>) -> Seq<Seq<char>> {
    match p {
        Some(x) => seq![x],
        None => Seq::empty(),
    }
}

/// The system directories that may hold the helper.
pub open spec fn system_paths(platform: Platform) -> Seq<Seq<char>> {
    if platform == Platform::Windows {
        Seq::empty()
    } else {
        seq![
            file_in("/usr/libexec/modern-ip-scanner"@, helper_name(platform), platform),
            file_in("/usr/lib/modern-ip-scanner"@, helper_name(platform), platform),
            file_in("/usr/local/bin"@, helper_name(platform), platform),
        ]
    }
}

/// Every place the helper is looked for, in order.
pub open spec fn search_paths(
    exe_dir: Option<Seq<char>>,
    override_path: Option<Seq<char>>,
    platform: Platform,
) -> Seq<Seq<char>> {
    deduped(
        listed(override_path) + (match exe_dir {
            Some(d) => seq![file_in(d, helper_name(platform), platform)],
            None => Seq::empty(),
        }) + system_paths(platform),
        platform,
    )
}

/// Whether a path begins with a drive.
fn starts_with_drive(v: &Vec<char>, platform: Platform) -> (r: bool)
    ensures
        r == has_drive(v@, platform),
{
    platform == Platform::Windows && v.len() >= 2 && v[1] == ':' && (('a' <= v[0] && v[0] <= 'z')
        || ('A' <= v[0] && v[0] <= 'Z'))
}

/// Put a file name behind a directory.
fn join_path(dir: &str, name: &str, platform: Platform) -> (r: String)
    ensures
        r@ == file_in(dir@, name@, platform),
{
    let v = chars_of(dir);
    let mut out = dir.to_string();
    if v.len() > 0 {
        let last: char = v[v.len() - 1];
        if platform == Platform::Windows {
            if last != '/' && last != '\\' && !(v.len() == 2 && starts_with_drive(&v, platform)) {
                out.push('\\');
            }
        } else if last != '/' {
            out.push('/');
        }
    }
    out.append(name);
    assert(out@ == file_in(dir@, name@, platform));
    out
}

/// Spell every separator of a path alike.
fn unify(s: &str, platform: Platform) -> (r: Vec<char>)
    ensures
        r@ == unified(s@, platform),
{
    let v = chars_of(s);
    let mut out: Vec<char> = Vec::new();
    let mut i: usize = 0;
    while i < v.len()
        invariant
            i <= v.len(),
            v@ == s@,
            out@ == unified(s@.take(i as int), platform),
        decreases v.len() - i,
    {
        let c: char = v[i];
        let d: char = if c == '/' || (platform == Platform::Windows && c == '\\') {
            '/'
        } else {
            c
        };
        out.push(d);
        assert(unified(s@.take(i + 1), platform) == unified(s@.take(i as int), platform).push(d));
        i = i + 1;
    }
    assert(s@.take(s@.len() as int) == s@);
    out
}

/// Take a path apart.
fn take_apart(s: &str, platform: Platform) -> (r: (bool, Vec<String>))
    ensures
        (r.0, r.1.deep_view()) == path_parts(s@, platform),
{
    let mut u = unify(s, platform);
    let at_root = if starts_with_drive(&u, platform) {
        let from_root = u.len() > 2 && u[2] == '/';
        let letter: char = lower_char(u[0]);
        u.set(0, letter);
        from_root
    } else {
        u.len() > 0 && u[0] == '/'
    };
    let pieces = split_chars(&u, '/');
    let ghost all = pieces.deep_view();
    let mut out: Vec<String> = Vec::new();
    let mut i: usize = 0;
    while i < pieces.len()
        invariant
            i <= pieces.len(),
            all == pieces.deep_view(),
            out.deep_view() == telling(all, i as int),
        decreases pieces.len() - i,
    {
        proof {
            crate::seqs::lemma_chars_deep_view(pieces@[i as int]);
        }
        assert(all[i as int] == pieces@[i as int]@);
        let p = string_of(&pieces[i]);
        if pieces[i].len() > 0 && (!str_eq(p.as_str(), ".") || i == 0) {
            let ghost so_far = out.deep_view();
            out.push(p);
            assert(out.deep_view() == so_far.push(all[i as int]));
        }
        i = i + 1;
    }
    (at_root, out)
}

/// Whether two lists of strings are the same.
fn same_strings(a: &Vec<String>, b: &Vec<String>) -> (r: bool)
    ensures
        r == (a.deep_view() == b.deep_view()),
{
    let ghost x = a.deep_view();
    let ghost y = b.deep_view();
    if a.len() != b.len() {
        assert(x.len() != y.len());
        return false;
    }
    let mut i: usize = 0;
    while i < a.len()
        invariant
            i <= a.len(),
            a.len() == b.len(),
            x == a.deep_view(),
            y == b.deep_view(),
            forall|k: int| 0 <= k < i ==> x[k] == y[k],
        decreases a.len() - i,
    {
        assert(x[i as int] == a@[i as int]@);
        assert(y[i as int] == b@[i as int]@);
        if !str_eq(a[i].as_str(), b[i].as_str()) {
            assert(x[i as int] != y[i as int]);
            return false;
        }
        i = i + 1;
    }
    assert(x == y);
    true
}

/// Whether two paths are spellings of one.
fn is_same_path(a: &str, b: &str, platform: Platform) -> (r: bool)
    ensures
        r == same_path(a@, b@, platform),
{
    let (ra, pa) = take_apart(a, platform);
    let (rb, pb) = take_apart(b, platform);
    ra == rb && same_strings(&pa, &pb)
}

/// Leave out paths that repeat the one before.
fn dedup_paths(paths: &Vec<String>, platform: Platform) -> (r: Vec<String>)
    ensures
        r.deep_view() == deduped(paths.deep_view(), platform),
{
    let ghost all = paths.deep_view();
    let mut out: Vec<String> = Vec::new();
    let mut i: usize = 0;
    while i < paths.len()
        invariant
            i <= paths.len(),
            all == paths.deep_view(),
            out.deep_view() == deduped(all.take(i as int), platform),
        decreases paths.len() - i,
    {
        assert(all[i as int] == paths@[i as int]@);
        assert(all.take(i + 1).drop_last() == all.take(i as int));
        let repeats = if out.len() > 0 {
            assert(out.deep_view().last() == out@[out@.len() - 1]@);
            is_same_path(out[out.len() - 1].as_str(), paths[i].as_str(), platform)
        } else {
            false
        };
        if !repeats {
            let ghost so_far = out.deep_view();
            out.push(paths[i].clone());
            assert(out.deep_view() == so_far.push(all[i as int]));
        }
        i = i + 1;
    }
    assert(all.take(all.len() as int) == all);
    out
}

/// Every place the helper is looked for, in order, given the directory
/// holding the current executable and an optional explicit override.
///
/// Split out from the environment so the ordering is testable: "why is my
/// helper not found?" should be answerable without guessing.
pub fn search_paths_from(
    exe_dir: Option<&str>,
    override_path: Option<&str>,
    platform: Platform,
) -> (r: Vec<String>)
    ensures
        r.deep_view() == search_paths(exe_dir.deep_view(), override_path.deep_view(), platform),
{
    let name = helper_file_name(platform);
    let mut paths: Vec<String> = Vec::new();
    if let Some(p) = override_path {
        paths.push(p.to_string());
    }
    if let Some(dir) = exe_dir {
        paths.push(join_path(dir, name, platform));
    }
    if platform != Platform::Windows {
        paths.push(join_path("/usr/libexec/modern-ip-scanner", name, platform));
        paths.push(join_path("/usr/lib/modern-ip-scanner", name, platform));
        paths.push(join_path("/usr/local/bin", name, platform));
    }
    assert(paths.deep_view() == listed(override_path.deep_view()) + (match exe_dir.deep_view() {
        Some(d) => seq![file_in(d, helper_name(platform), platform)],
        None => Seq::empty(),
    }) + system_paths(platform));
    dedup_paths(&paths, platform)
}

/// The inventory's file under a data directory, or under the current one.
pub open spec fn database_file(
    overriding: Option<Seq<char>>,
    data_dir: Option<Seq<char>>,
    platform: Platform,
) -> Seq<char> {
    match overriding {
        Some(p) => p,
        None => file_in(
            file_in(
                match data_dir {
                    Some(d) => d,
                    None => "."@,
                },
                "modern-ip-scanner"@,
                platform,
            ),
            "modern-ip-scanner.sqlite3"@,
            platform,
        ),
    }
}

/// Where the inventory is kept: where the user says, else in a directory of
/// its own under the user's data directory.
pub fn database_path(overriding: Option<&str>, data_dir: Option<&str>, platform: Platform) -> (r:
    String)
    ensures
        r@ == database_file(overriding.deep_view(), data_dir.deep_view(), platform),
{
    if let Some(p) = overriding {
        return p.to_string();
    }
    let base: &str = match data_dir {
        Some(d) => d,
        None => ".",
    };
    join_path(
        join_path(base, "modern-ip-scanner", platform).as_str(),
        "modern-ip-scanner.sqlite3",
        platform,
    )
}

/// What comes first stays first when repeats are left out.
proof fn lemma_dedup_first(paths: Seq<Seq<char>>, platform: Platform)
    requires
        paths.len() > 0,
    ensures
        deduped(paths, platform).len() > 0,
        deduped(paths, platform)[0] == paths[0],
    decreases paths.len(),
{
    if paths.len() > 1 {
        lemma_dedup_first(paths.drop_last(), platform);
    } else {
        assert(deduped(paths.drop_last(), platform) == Seq::<Seq<char>>::empty());
    }
}

/// An explicit override is looked at first.
pub proof fn law_override_comes_first(
    exe_dir: Option<Seq<char>>,
    override_path: Seq<char>,
    platform: Platform,
)
    ensures
        search_paths(exe_dir, Some(override_path), platform).len() > 0,
        search_paths(exe_dir, Some(override_path), platform)[0] == override_path,
{
    let all = listed(Some(override_path)) + (match exe_dir {
        Some(d) => seq![file_in(d, helper_name(platform), platform)],
        None => Seq::empty(),
    }) + system_paths(platform);
    lemma_dedup_first(all, platform);
}

/// Paths that differ only in the case of the drive letter name one file.
pub proof fn law_drive_letters_have_no_case(a: char, b: char, rest: Seq<char>)
    requires
        'a' <= a <= 'z' || 'A' <= a <= 'Z',
        'a' <= b <= 'z' || 'A' <= b <= 'Z',
        text::ascii_lower_char(a) == text::ascii_lower_char(b),
    ensures
        same_path(seq![a, ':'] + rest, seq![b, ':'] + rest, Platform::Windows),
{
    let x = unified(seq![a, ':'] + rest, Platform::Windows);
    let y = unified(seq![b, ':'] + rest, Platform::Windows);
    assert(drive_lowered(x, Platform::Windows) == drive_lowered(y, Platform::Windows));
    assert(x.len() > 2 ==> x[2] == y[2]);
}

/// Each capability is confirmed exactly by what was found: the neighbor cache
/// where it could be read, echo where the loopback answered, and ARP resolution
/// where the gateway answered to the system itself.
pub proof fn law_capabilities_are_what_was_found(f: Findings)
    ensures
        capabilities_of(f).contains(Capability::NeighborCache) <==> f.platform == Platform::Windows
            || (f.platform == Platform::Linux && f.cache_readable),
        capabilities_of(f).contains(Capability::IcmpEcho) <==> f.echo_works,
        capabilities_of(f).contains(Capability::ArpResolve) <==> f.platform == Platform::Windows
            && f.has_interface && f.has_gateway && f.gateway_answers,
        notes_of(f).contains("ICMP echo unavailable unprivileged (Linux ping_group_range?)"@)
            <== !f.echo_works,
{
    let c = capabilities_of(f);
    let a = if cache_ok(f) {
        1int
    } else {
        0
    };
    let b = if f.echo_works {
        1int
    } else {
        0
    };
    if cache_ok(f) {
        assert(c[0] == Capability::NeighborCache);
    }
    if f.echo_works {
        assert(c[a] == Capability::IcmpEcho);
    } else {
        assert(notes_of(f)[1 - a]
            == "ICMP echo unavailable unprivileged (Linux ping_group_range?)"@);
    }
    if f.platform == Platform::Windows && f.has_interface && f.has_gateway && f.gateway_answers {
        assert(c[a + b] == Capability::ArpResolve);
    }
}

/// The inventory is where the user says, and nowhere else.
pub proof fn law_override_places_the_inventory(
    p: Seq<char>,
    data_dir: Option<Seq<char>>,
    platform: Platform,
)
    ensures
        database_file(Some(p), data_dir, platform) == p,
{
}

/// Every place is kept but for repetitions: of places in a row that are one,
/// the first.
pub proof fn law_no_place_is_lost(paths: Seq<Seq<char>>, platform: Platform, i: int)
    requires
        0 <= i < paths.len(),
    ensures
        exists|k: int|
            0 <= k < deduped(paths, platform).len() && path_parts(
                #[trigger] deduped(paths, platform)[k],
                platform,
            ) == path_parts(paths[i], platform),
        deduped(paths, platform).len() > 0,
        path_parts(deduped(paths, platform).last(), platform) == path_parts(paths.last(), platform),
        deduped(paths, platform)[0] == paths[0],
    decreases paths.len(),
{
    let init = paths.drop_last();
    let rest = deduped(init, platform);
    let all = deduped(paths, platform);
    if init.len() > 0 {
        law_no_place_is_lost(
            init,
            platform,
            if i < init.len() {
                i
            } else {
                0
            },
        );
        assert(all[0] == rest[0]);
        assert(init[0] == paths[0]);
    }
    if i < init.len() {
        let k = choose|k: int|
            0 <= k < rest.len() && path_parts(#[trigger] rest[k], platform) == path_parts(
                init[i],
                platform,
            );
        assert(all[k] == rest[k]);
    } else {
        assert(all[all.len() - 1] == all.last());
    }
}

} // verus!
