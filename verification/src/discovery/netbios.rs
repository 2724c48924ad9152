//! `netbios`: NBNS Node Status queries (UDP 137) against candidate
//! addresses. Windows and Samba hosts answer with their registered names, a
//! strong, stable identity signal for exactly the devices that don't do mDNS.

use vstd::prelude::*;
use vstd::string::*;

use crate::bytes;
use crate::bytes::{lossy, push_be16, read_be16, sub_bytes};
use crate::discovery::{Coverage, ScanContext, Strategy, StrategyModel, StrategyOutcome};
use crate::model::{NameSource, Observation, ObservationModel};
use crate::text;
use crate::text::{chars_of, str_eq, string_of, stripped_back};
use crate::util;
use crate::util::{ipv4_in_network_of, parse_ipv4};

verus! {

#[derive(Debug, Clone, Copy)]
pub struct Netbios {
    /// How long to wait for one host, in milliseconds.
    pub per_host_timeout_ms: u64,
    pub max_candidates: usize,
}

impl Default for Netbios {
    fn default() -> (r: Self)
        ensures
            r.per_host_timeout_ms == 900,
            r.max_candidates == 128,
    {
        Netbios { per_host_timeout_ms: 900, max_candidates: 128 }
    }
}

impl Strategy for Netbios {
    open spec fn id_text(&self) -> Seq<char> {
        "netbios"@
    }

    open spec fn covers(&self) -> Coverage {
        Coverage::PresenceOnly
    }

    open spec fn turn(&self) -> u8 {
        2
    }

    fn id(&self) -> (r: &'static str) {
        "netbios"
    }

    fn coverage(&self) -> (r: Coverage) {
        Coverage::PresenceOnly
    }

    fn wave(&self) -> (r: u8) {
        2
    }
}

// ----- the request -----

/// The first-level encoding of a byte: its halves as letters from `A`.
pub open spec fn half_letters(b: u8) -> Seq<u8> {
    seq![(65 + b / 16) as u8, (65 + b % 16) as u8]
}

/// The first-level encoding of the wildcard name `*`, filled up with zero
/// bytes to sixteen.
pub open spec fn wildcard_letters() -> Seq<u8> {
    half_letters(42) + Seq::new(30, |i: int| 65u8)
}

/// A node status request for the wildcard name: a header without flags and
/// with one question, the name as one label of 32 bytes, the root label, type
/// NBSTAT and class IN.
pub open spec fn node_status_request(trnid: u16) -> Seq<u8> {
    bytes::two_bytes(trnid) + seq![0u8, 0, 0, 1, 0, 0, 0, 0, 0, 0, 32] + wildcard_letters() + seq![
        0u8,
        0,
        0x21,
        0,
        1,
    ]
}

/// Build an NBSTAT (node status) request for the wildcard name `*`
/// (RFC 1002 §4.2.17). 50 bytes: 12-byte header, 34-byte QUESTION_NAME,
/// 4 bytes of QUESTION_TYPE/CLASS.
pub fn build_node_status_request(trnid: u16) -> (r: Vec<u8>)
    ensures
        r@ == node_status_request(trnid),
        r@.len() == 50,
{
    let mut p: Vec<u8> = Vec::new();
    push_be16(&mut p, trnid);
    // A unicast node status request carries opcode 0 and no flag bits; in
    // particular not B (0x0010), which marks a broadcast query.
    push_be16(&mut p, 0);
    push_be16(&mut p, 1);  // QDCOUNT
    push_be16(&mut p, 0);  // ANCOUNT
    push_be16(&mut p, 0);  // NSCOUNT
    push_be16(&mut p, 0);  // ARCOUNT
    p.push(32);
    let ghost head = p@;
    assert(head == bytes::two_bytes(trnid) + seq![0u8, 0, 0, 1, 0, 0, 0, 0, 0, 0, 32]);
    p.push(65 + 42 / 16);
    p.push(65 + 42 % 16);
    let mut i: usize = 0;
    while i < 30
        invariant
            i <= 30,
            p@ == head + half_letters(42) + Seq::new(i as nat, |k: int| 65u8),
        decreases 30 - i,
    {
        p.push(65);
        i = i + 1;
    }
    p.push(0);
    push_be16(&mut p, 0x21);  // QUESTION_TYPE = NBSTAT
    push_be16(&mut p, 1);  // QUESTION_CLASS = IN
    assert(p@ == node_status_request(trnid));
    p
}

/// The transaction id for a host: derived from the last octet of its address.
pub open spec fn transaction_of(ip: Seq<char>) -> u16 {
    (0x4200 + match util::ipv4_of(ip) {
        Some(a) => a as int % 256,
        None => 1,
    }) as u16
}

/// The transaction id for a host.
pub fn transaction_id(ip: &str) -> (r: u16)
    ensures
        r == transaction_of(ip@),
{
    let last: u16 = match parse_ipv4(ip) {
        Some(a) => (a % 256) as u16,
        None => 1,
    };
    0x4200 + last
}

// ----- the response -----

/// Where the name at a position ends: after the root label or a two-byte
/// reference elsewhere.
pub open spec fn name_end(data: Seq<u8>, off: int) -> Option<int>
    decreases data.len() - off,
{
    if off < 0 || off >= data.len() {
        None
    } else if data[off] == 0 {
        Some(off + 1)
    } else if data[off] >= 0xc0 {
        if off + 1 < data.len() {
            Some(off + 2)
        } else {
            None
        }
    } else if data[off] >= 0x40 || off + 1 + data[off] > data.len() {
        None
    } else {
        name_end(data, off + 1 + data[off])
    }
}

/// Where the questions of a response end.
pub open spec fn questions_end(data: Seq<u8>, off: int, count: nat) -> Option<int>
    decreases count,
{
    if count == 0 {
        Some(off)
    } else {
        match name_end(data, off) {
            Some(end) => questions_end(data, end + 4, (count - 1) as nat),
            None => None,
        }
    }
}

/// The data of a node status record that begins at a position: its type is
/// NBSTAT, and it has at least one byte, all of which are there.
pub open spec fn status_data(data: Seq<u8>, off: int) -> Option<Seq<u8>> {
    match name_end(data, off) {
        Some(end) => {
            if end + 10 > data.len() {
                None
            } else {
                let rdlen = bytes::be16(data, end + 8);
                let start = end + 10;
                if bytes::be16(data, end) != 0x21 || rdlen < 1 || start + rdlen > data.len() {
                    None
                } else {
                    Some(data.subrange(start, start + rdlen))
                }
            }
        },
        None => None,
    }
}

/// The data of the first record of a response.
pub open spec fn response_data(data: Seq<u8>) -> Option<Seq<u8>> {
    if data.len() < 12 || data[2] < 0x80 || bytes::be16(data, 6) == 0 {
        None
    } else {
        match questions_end(data, 12, bytes::be16(data, 4) as nat) {
            Some(off) => status_data(data, off),
            None => None,
        }
    }
}

/// A character that leaves a mark on paper.
pub open spec fn is_graphic(c: char) -> bool {
    '!' <= c <= '~'
}

/// The name in an entry, without the padding.
pub open spec fn entry_name(rdata: Seq<u8>, i: int) -> Seq<char> {
    text::strip_back(
        bytes::lossy_text(rdata.subrange(1 + i * 18, 1 + i * 18 + 15)),
        ' ',
        '\0',
    )
}

/// An entry is there and can identify the device: it is no group name, which
/// every host of the group answers with, and its name is made of graphic
/// characters.
pub open spec fn usable(rdata: Seq<u8>, i: int) -> bool {
    &&& 1 + i * 18 + 18 <= rdata.len()
    &&& rdata[1 + i * 18 + 16] < 0x80
    &&& entry_name(rdata, i).len() > 0
    &&& forall|k: int|
        0 <= k < entry_name(rdata, i).len() ==> is_graphic(#[trigger] entry_name(rdata, i)[k])
}

/// The names of a kind among the first `n` entries: those of the workstation
/// itself, or the others.
pub open spec fn names_of_kind(rdata: Seq<u8>, workstation: bool, n: int) -> Seq<Seq<char>>
    decreases n,
{
    if n <= 0 {
        Seq::empty()
    } else {
        let rest = names_of_kind(rdata, workstation, n - 1);
        if usable(rdata, n - 1) && (rdata[1 + (n - 1) * 18 + 15] == 0) == workstation {
            rest.push(entry_name(rdata, n - 1))
        } else {
            rest
        }
    }
}

/// The first two of a list.
pub open spec fn at_most_two(s: Seq<Seq<char>>) -> Seq<Seq<char>> {
    if s.len() > 2 {
        s.take(2)
    } else {
        s
    }
}

/// The names that a response gives: workstation names first, and no more than
/// two.
pub open spec fn names_in(data: Seq<u8>) -> Seq<Seq<char>> {
    match response_data(data) {
        Some(rdata) => at_most_two(
            names_of_kind(rdata, true, rdata[0] as int) + names_of_kind(
                rdata,
                false,
                rdata[0] as int,
            ),
        ),
        None => Seq::empty(),
    }
}

/// Find where the name at a position ends.
fn skip_name(data: &[u8], off: usize) -> (r: Option<usize>)
    ensures
        match r {
            Some(i) => name_end(data@, off as int) == Some(i as int) && i <= data@.len(),
            None => name_end(data@, off as int) is None,
        },
{
    let mut pos: usize = off;
    while pos < data.len()
        invariant
            name_end(data@, off as int) == name_end(data@, pos as int),
        decreases data@.len() - pos,
    {
        let len: u8 = data[pos];
        if len == 0 {
            return Some(pos + 1);
        }
        if len >= 0xc0 {
            if pos + 1 < data.len() {
                return Some(pos + 2);
            }
            return None;
        }
        if len >= 0x40 || len as usize > data.len() - pos - 1 {
            return None;
        }
        pos = pos + 1 + len as usize;
    }
    None
}

/// Find the data of the first record of a response.
fn find_data(data: &[u8]) -> (r: Option<Vec<u8>>)
    requires
        data@.len() <= isize::MAX,
    ensures
        match r {
            Some(v) => response_data(data@) == Some(v@) && v@.len() > 0,
            None => response_data(data@) is None,
        },
{
    if data.len() < 12 || data[2] < 0x80 {
        return None;
    }
    let qdcount: u16 = read_be16(data, 4);
    if read_be16(data, 6) == 0 {
        return None;
    }
    // Responses carry QDCOUNT = 0 and a full RR_NAME, but some stacks echo
    // the question first, so walk the sections rather than assuming a fixed
    // layout.
    let mut off: usize = 12;
    let mut q: u16 = 0;
    while q < qdcount
        invariant
            q <= qdcount,
            off <= data@.len() + 4,
            12 <= data@.len() <= isize::MAX,
            data@[2] >= 0x80,
            bytes::be16(data@, 6) != 0,
            qdcount == bytes::be16(data@, 4),
            questions_end(data@, 12, qdcount as nat) == questions_end(
                data@,
                off as int,
                (qdcount - q) as nat,
            ),
        decreases qdcount - q,
    {
        match skip_name(data, off) {
            Some(end) => {
                off = end + 4;
            },
            None => {
                return None;
            },
        }
        q = q + 1;
    }
    let end: usize = match skip_name(data, off) {
        Some(e) => e,
        None => {
            return None;
        },
    };
    // RR: type (2) class (2) ttl (4) rdlength (2)
    if end + 10 > data.len() {
        return None;
    }
    let rdlen: usize = read_be16(data, end + 8) as usize;
    let start: usize = end + 10;
    if read_be16(data, end) != 0x21 || rdlen < 1 || start + rdlen > data.len() {
        return None;
    }
    Some(sub_bytes(data, start, start + rdlen))
}

/// Whether every character leaves a mark.
fn all_graphic(v: &Vec<char>) -> (r: bool)
    ensures
        r == forall|k: int| 0 <= k < v@.len() ==> is_graphic(#[trigger] v@[k]),
{
    let mut i: usize = 0;
    while i < v.len()
        invariant
            i <= v.len(),
            forall|k: int| 0 <= k < i ==> is_graphic(#[trigger] v@[k]),
        decreases v.len() - i,
    {
        if !('!' <= v[i] && v[i] <= '~') {
            assert(!is_graphic(v@[i as int]));
            return false;
        }
        i = i + 1;
    }
    true
}

/// Read an entry that can identify the device.
fn read_entry(rdata: &Vec<u8>, i: usize) -> (r: Option<String>)
    requires
        i < 256,
    ensures
        match r {
            Some(s) => usable(rdata@, i as int) && s@ == entry_name(rdata@, i as int),
            None => !usable(rdata@, i as int),
        },
{
    let base: usize = 1 + i * 18;
    if rdata.len() < base + 18 || rdata[base + 16] >= 0x80 {
        return None;
    }
    let raw = lossy(sub_bytes(rdata.as_slice(), base, base + 15).as_slice());
    let name = stripped_back(&chars_of(raw.as_str()), ' ', '\0');
    assert(name@ == entry_name(rdata@, i as int));
    if name.len() == 0 || !all_graphic(&name) {
        return None;
    }
    Some(string_of(&name))
}

/// Append the names of a kind.
fn push_names(out: &mut Vec<String>, rdata: &Vec<u8>, workstation: bool)
    requires
        rdata@.len() > 0,
    ensures
        final(out).deep_view() == old(out).deep_view() + names_of_kind(
            rdata@,
            workstation,
            rdata@[0] as int,
        ),
{
    let ghost start = out.deep_view();
    let n: usize = rdata[0] as usize;
    let mut i: usize = 0;
    assert(start + names_of_kind(rdata@, workstation, 0) == start);
    while i < n
        invariant
            i <= n < 256,
            out.deep_view() == start + names_of_kind(rdata@, workstation, i as int),
        decreases n - i,
    {
        if let Some(name) = read_entry(rdata, i) {
            if (rdata[1 + i * 18 + 15] == 0) == workstation {
                let ghost so_far = out.deep_view();
                let ghost text = name@;
                out.push(name);
                assert(out.deep_view() == so_far.push(text));
            }
        }
        i = i + 1;
    }
}

/// Parse the names out of an NBSTAT response, the best machine name first.
pub fn parse_node_status_names(data: &[u8]) -> (r: Vec<String>)
    requires
        data@.len() <= isize::MAX,
    ensures
        r.deep_view() == names_in(data@),
{
    let mut names: Vec<String> = Vec::new();
    match find_data(data) {
        Some(rdata) => {
            push_names(&mut names, &rdata, true);
            push_names(&mut names, &rdata, false);
            assert(names.deep_view() == names_of_kind(rdata@, true, rdata@[0] as int)
                + names_of_kind(rdata@, false, rdata@[0] as int));
            if names.len() > 2 {
                let ghost raw = names@;
                let ghost all = names.deep_view();
                names.truncate(2);
                assert(names@ == raw.take(2));
                assert(names.deep_view() == all.take(2));
            }
        },
        None => {},
    }
    assert(names.deep_view() == names_in(data@));
    names
}

/// What one packet means to the one who asked a host for its names.
#[derive(Debug)]
pub enum Reply {
    /// Not an answer to the question; keep waiting.
    Stray,
    /// The answer, with the best name it gives.
    Answer(Option<String>),
}

/// The first of a list.
pub open spec fn first_name(s: Seq<Seq<char>>) -> Option<Seq<char>> {
    if s.len() > 0 {
        Some(s[0])
    } else {
        None
    }
}

/// A packet answers a question put to a host.
pub open spec fn answers(ip: Seq<char>, from: Seq<char>, data: Seq<u8>) -> bool {
    from == ip && data.len() >= 12 && bytes::be16(data, 0) == transaction_of(ip)
}

/// Judge a packet that came in after a host was asked: one from elsewhere, or
/// to another question, is no answer.
pub fn judge_reply(ip: &str, from: &str, data: &[u8]) -> (r: Reply)
    requires
        data@.len() <= isize::MAX,
    ensures
        match r {
            Reply::Stray => !answers(ip@, from@, data@),
            Reply::Answer(name) => answers(ip@, from@, data@) && name.deep_view() == first_name(
                names_in(data@),
            ),
        },
{
    if !str_eq(from, ip) || data.len() < 12 || read_be16(data, 0) != transaction_id(ip) {
        return Reply::Stray;
    }
    let names = parse_node_status_names(data);
    if names.len() > 0 {
        assert(names.deep_view()[0] == names@[0]@);
        Reply::Answer(Some(names[0].clone()))
    } else {
        Reply::Answer(None)
    }
}

// ----- the strategy -----

/// The candidates to ask among the first `n`: those on the link, and no more
/// than a limit.
pub open spec fn asked(
    candidates: Seq<Seq<char>>,
    nets: Seq<crate::model::CidrModel>,
    limit: nat,
    n: int,
) -> Seq<Seq<char>>
    decreases n,
{
    if n <= 0 {
        Seq::empty()
    } else {
        let rest = asked(candidates, nets, limit, n - 1);
        if rest.len() < limit && util::on_link(candidates[n - 1], nets) {
            rest.push(candidates[n - 1])
        } else {
            rest
        }
    }
}

/// A name that a host gave as an observation.
pub open spec fn netbios_observation(ip: Seq<char>, name: Seq<char>) -> ObservationModel {
    ObservationModel {
        ip,
        mac: None,
        name: Some((NameSource::Netbios, name)),
        vendor: None,
        source: "netbios"@,
        confidence: 85,
    }
}

/// The observations of the first `n` hosts: those that gave a name.
pub open spec fn netbios_observations(
    ips: Seq<Seq<char>>,
    names: Seq<Option<Seq<char>>>,
    n: int,
) -> Seq<ObservationModel>
    decreases n,
{
    if n <= 0 {
        Seq::empty()
    } else {
        let rest = netbios_observations(ips, names, n - 1);
        if n - 1 < names.len() && names[n - 1] is Some {
            rest.push(netbios_observation(ips[n - 1], names[n - 1].unwrap()))
        } else {
            rest
        }
    }
}

impl Netbios {
    /// Decide which hosts to ask.
    pub fn plan(&self, ctx: &ScanContext) -> (r: Vec<String>)
        requires
            ctx.iface.deep_view().wf(),
        ensures
            r.deep_view() == asked(
                ctx.candidates.deep_view(),
                ctx.iface.deep_view().ipv4,
                self.max_candidates as nat,
                ctx.candidates@.len() as int,
            ),
    {
        let ghost all = ctx.candidates.deep_view();
        let ghost nets = ctx.iface.deep_view().ipv4;
        let mut out: Vec<String> = Vec::new();
        let mut i: usize = 0;
        while i < ctx.candidates.len()
            invariant
                i <= ctx.candidates.len(),
                ctx.iface.deep_view().wf(),
                all == ctx.candidates.deep_view(),
                nets == ctx.iface.deep_view().ipv4,
                out.deep_view() == asked(all, nets, self.max_candidates as nat, i as int),
            decreases ctx.candidates.len() - i,
        {
            assert(all[i as int] == ctx.candidates@[i as int]@);
            if out.len() < self.max_candidates && ipv4_in_network_of(
                ctx.candidates[i].as_str(),
                &ctx.iface,
            ) {
                let ghost so_far = out.deep_view();
                out.push(ctx.candidates[i].clone());
                assert(out.deep_view() == so_far.push(all[i as int]));
            }
            i = i + 1;
        }
        out
    }

    /// Report what the hosts answered: one slot for each that was asked.
    pub fn report(&self, ips: &Vec<String>, names: &Vec<Option<String>>) -> (r: StrategyOutcome)
        ensures
            r.deep_view() == (StrategyModel {
                observations: netbios_observations(
                    ips.deep_view(),
                    names.deep_view(),
                    ips@.len() as int,
                ),
                problem: None,
            }),
    {
        let ghost hosts = ips.deep_view();
        let ghost all = names.deep_view();
        let mut out: Vec<Observation> = Vec::new();
        let mut i: usize = 0;
        while i < ips.len()
            invariant
                i <= ips.len(),
                hosts == ips.deep_view(),
                all == names.deep_view(),
                out.deep_view() == netbios_observations(hosts, all, i as int),
            decreases ips.len() - i,
        {
            assert(hosts[i as int] == ips@[i as int]@);
            if i < names.len() {
                assert(all[i as int] == names@[i as int].deep_view());
                if let Some(name) = &names[i] {
                    let ghost so_far = out.deep_view();
                    let o = Observation {
                        ip: ips[i].clone(),
                        mac: None,
                        name: Some((NameSource::Netbios, name.clone())),
                        vendor: None,
                        source: self.id().to_string(),
                        confidence: 85,
                    };
                    let ghost model = o.deep_view();
                    assert(model == netbios_observation(hosts[i as int], name@));
                    out.push(o);
                    assert(out.deep_view() == so_far.push(model));
                }
            }
            i = i + 1;
        }
        StrategyOutcome::ok(out)
    }
}

/// A group name is never a device identity: every name that is taken comes
/// from an entry without the group mark.
pub proof fn law_group_names_are_discarded(rdata: Seq<u8>, workstation: bool, n: int, k: int)
    requires
        0 <= k < names_of_kind(rdata, workstation, n).len(),
    ensures
        exists|i: int|
            0 <= i < n && #[trigger] usable(rdata, i) && rdata[1 + i * 18 + 16] < 0x80
                && entry_name(rdata, i) == names_of_kind(rdata, workstation, n)[k],
    decreases n,
{
    let rest = names_of_kind(rdata, workstation, n - 1);
    if k < rest.len() {
        law_group_names_are_discarded(rdata, workstation, n - 1, k);
        let i = choose|i: int|
            0 <= i < n - 1 && #[trigger] usable(rdata, i) && rdata[1 + i * 18 + 16] < 0x80
                && entry_name(rdata, i) == rest[k];
        assert(usable(rdata, i));
    } else {
        assert(usable(rdata, n - 1));
    }
}

/// A request is no response: nothing is read out of a query, a message too
/// short for a header, one not marked as a response, or one without answers.
pub proof fn law_queries_are_ignored(data: Seq<u8>, trnid: u16)
    requires
        data == node_status_request(trnid) || data.len() < 12 || data[2] & 0x80 == 0 || bytes::be16(
            data,
            6,
        ) == 0,
    ensures
        names_in(data) == Seq::<Seq<char>>::empty(),
{
    if data == node_status_request(trnid) {
        assert(data[2] == 0);
    } else if data.len() >= 12 {
        let flags: u8 = data[2];
        assert(flags & 0x80 == 0 ==> flags < 0x80) by (bit_vector);
    }
}

/// What a request says, byte by byte: the transaction, no flags, one question
/// and nothing else; the question's name is `*` and fifteen zero bytes, each
/// written as the two letters of its halves; it asks for the node status.
pub proof fn law_request_asks_for_every_name(trnid: u16)
    ensures
        ({
            let p = node_status_request(trnid);
            &&& p.len() == 50
            &&& bytes::be16(p, 0) == trnid
            &&& bytes::be16(p, 2) == 0
            &&& bytes::be16(p, 4) == 1
            &&& bytes::be16(p, 6) == 0
            &&& bytes::be16(p, 8) == 0
            &&& bytes::be16(p, 10) == 0
            &&& p[12] == 32
            &&& (p[13] - 65) * 16 + (p[14] - 65) == '*' as int
            &&& forall|k: int| 15 <= k < 45 ==> #[trigger] p[k] == 'A' as int
            &&& p[45] == 0
            &&& bytes::be16(p, 46) == 0x21
            &&& bytes::be16(p, 48) == 1
            &&& name_end(p, 12) == Some(46int)
        }),
{
    let p = node_status_request(trnid);
    bytes::law_two_bytes_read_back(trnid);
    assert(p[0] == bytes::two_bytes(trnid)[0] && p[1] == bytes::two_bytes(trnid)[1]);
    assert(p[13] == half_letters(42)[0] && p[14] == half_letters(42)[1]);
    reveal_with_fuel(name_end, 3);
}

/// The transaction of a host is told by the last number of its address.
pub proof fn law_transaction_tells_the_host(ip: Seq<char>, a: u32)
    requires
        util::ipv4_of(ip) == Some(a),
    ensures
        transaction_of(ip) as int % 256 == a as int % 256,
        transaction_of(ip) as int / 256 == 0x42,
{
}

/// A node status response: a header marked as a response with one answer and
/// with or without the question echoed, a name for the record, its type, class
/// and time to live, and its data behind their length.
pub open spec fn status_message(trnid: u16, echoed: bool, ttl: Seq<u8>, rdata: Seq<u8>) -> Seq<u8> {
    let head = bytes::two_bytes(trnid) + seq![0x84u8, 0];
    let counts = if echoed {
        seq![0u8, 1, 0, 1, 0, 0, 0, 0]
    } else {
        seq![0u8, 0, 0, 1, 0, 0, 0, 0]
    };
    let question = if echoed {
        seq![0u8, 0, 0x21, 0, 1]
    } else {
        Seq::empty()
    };
    head + counts + question + seq![0u8, 0, 0x21, 0, 1] + ttl + bytes::two_bytes(
        rdata.len() as u16,
    ) + rdata
}

/// The data of a response are read back as they were sent, whether or not the
/// question was echoed.
pub proof fn law_status_reads_back(trnid: u16, echoed: bool, ttl: Seq<u8>, rdata: Seq<u8>)
    requires
        ttl.len() == 4,
        1 <= rdata.len() <= u16::MAX,
    ensures
        response_data(status_message(trnid, echoed, ttl, rdata)) == Some(rdata),
        bytes::be16(status_message(trnid, echoed, ttl, rdata), 0) == trnid,
{
    let m = status_message(trnid, echoed, ttl, rdata);
    bytes::law_two_bytes_read_back(trnid);
    bytes::law_two_bytes_read_back(rdata.len() as u16);
    assert(m[0] == bytes::two_bytes(trnid)[0] && m[1] == bytes::two_bytes(trnid)[1]);
    let at: int = if echoed {
        17
    } else {
        12
    };
    let len2 = bytes::two_bytes(rdata.len() as u16);
    assert(m[at + 9] == len2[0] && m[at + 10] == len2[1]);
    assert(m[at] == 0 && m[at + 1] == 0 && m[at + 2] == 0x21);
    assert(m[2] == 0x84 && m[4] == 0 && m[6] == 0 && m[7] == 1);
    assert(m.len() == at + 11 + rdata.len());
    assert(m.subrange(at + 11, at + 11 + rdata.len()) =~= rdata);
    assert(name_end(m, at) == Some(at + 1));
    reveal_with_fuel(questions_end, 2);
    if echoed {
        assert(m[5] == 1 && m[12] == 0);
        assert(name_end(m, 12) == Some(13int));
        assert(questions_end(m, 12, 1) == Some(17int));
    } else {
        assert(m[5] == 0);
    }
}

/// The name that an entry tells: its fifteen bytes as text, without the spaces
/// and zeros behind.
pub open spec fn told_name(rdata: Seq<u8>, i: int) -> Seq<char> {
    let at = 1 + i * 18;
    text::strip_back(bytes::lossy_text(rdata.subrange(at, at + 15)), ' ', '\0')
}

/// Whether an entry names the device: it is whole, no group's, and what is left
/// of its fifteen bytes without the spaces and zeros behind is not empty and
/// all visible.
pub open spec fn names_the_device(rdata: Seq<u8>, i: int) -> bool {
    let at = 1 + i * 18;
    let name = told_name(rdata, i);
    &&& at + 18 <= rdata.len()
    &&& rdata[at + 16] < 0x80
    &&& name.len() > 0
    &&& forall|k: int| 0 <= k < name.len() ==> 33 <= #[trigger] name[k] as int <= 126
}

/// Whether an entry names the device, as the workstation itself or otherwise.
pub open spec fn tells(rdata: Seq<u8>, workstation: bool, i: int) -> bool {
    names_the_device(rdata, i) && (rdata[1 + i * 18 + 15] == 0) == workstation
}

/// The names of the entries of a kind, in their order.
proof fn lemma_names_of_kind(rdata: Seq<u8>, workstation: bool, n: int)
    requires
        n >= 0,
    ensures
        ({
            let s = names_of_kind(rdata, workstation, n);
            &&& s.len() == 0 <==> forall|i: int|
                0 <= i < n ==> !#[trigger] tells(rdata, workstation, i)
            &&& s.len() > 0 ==> exists|i: int|
                0 <= i < n && #[trigger] tells(rdata, workstation, i) && s[0] == told_name(
                    rdata,
                    i,
                ) && forall|j: int| 0 <= j < i ==> !#[trigger] tells(rdata, workstation, j)
        }),
    decreases n,
{
    if n > 0 {
        lemma_names_of_kind(rdata, workstation, n - 1);
        let rest = names_of_kind(rdata, workstation, n - 1);
        let s = names_of_kind(rdata, workstation, n);
        let name = told_name(rdata, n - 1);
        assert(name == entry_name(rdata, n - 1));
        assert(usable(rdata, n - 1) == names_the_device(rdata, n - 1)) by {
            if usable(rdata, n - 1) {
                assert forall|k: int| 0 <= k < name.len() implies 33 <= #[trigger] name[k] as int
                    <= 126 by {
                    assert(is_graphic(name[k]));
                }
            }
            if names_the_device(rdata, n - 1) {
                assert forall|k: int| 0 <= k < name.len() implies is_graphic(
                    #[trigger] name[k],
                ) by {}
            }
        }
        if rest.len() > 0 {
            let i = choose|i: int|
                0 <= i < n - 1 && #[trigger] tells(rdata, workstation, i) && rest[0] == told_name(
                    rdata,
                    i,
                ) && forall|j: int| 0 <= j < i ==> !#[trigger] tells(rdata, workstation, j);
            assert(tells(rdata, workstation, i));
            assert(s[0] == rest[0]);
        } else if tells(rdata, workstation, n - 1) {
            assert(s[0] == name);
        }
    }
}

/// The first name that a response gives is that of the first entry of the
/// workstation itself that names the device, else of the first other entry that
/// does. A response without such an entry gives none.
pub proof fn law_workstation_name_comes_first(data: Seq<u8>, rdata: Seq<u8>)
    requires
        response_data(data) == Some(rdata),
        rdata.len() > 0,
    ensures
        ({
            let n = rdata[0] as int;
            let own = exists|i: int| 0 <= i < n && #[trigger] tells(rdata, true, i);
            let other = exists|i: int| 0 <= i < n && #[trigger] tells(rdata, false, i);
            let names = names_in(data);
            &&& names.len() <= 2
            &&& names.len() == 0 <==> !own && !other
            &&& own ==> exists|i: int|
                0 <= i < n && #[trigger] tells(rdata, true, i) && names[0] == told_name(rdata, i)
                    && forall|j: int| 0 <= j < i ==> !#[trigger] tells(rdata, true, j)
            &&& !own && other ==> exists|i: int|
                0 <= i < n && #[trigger] tells(rdata, false, i) && names[0] == told_name(rdata, i)
                    && forall|j: int| 0 <= j < i ==> !#[trigger] tells(rdata, false, j)
        }),
{
    let n = rdata[0] as int;
    lemma_names_of_kind(rdata, true, n);
    lemma_names_of_kind(rdata, false, n);
    let x = names_of_kind(rdata, true, n);
    let y = names_of_kind(rdata, false, n);
    if x.len() > 0 {
        assert(names_in(data)[0] == x[0]);
    } else {
        assert(x + y =~= y);
        if y.len() > 0 {
            assert(names_in(data)[0] == y[0]);
        }
    }
}

/// Those asked are the first of the candidates on the link, in their order, and
/// no more than the limit.
pub proof fn law_first_candidates_are_asked(
    candidates: Seq<Seq<char>>,
    nets: Seq<crate::model::CidrModel>,
    limit: nat,
    n: int,
)
    requires
        0 <= n <= candidates.len(),
    ensures
        ({
            let linked = candidates.take(n).filter(|ip: Seq<char>| util::on_link(ip, nets));
            asked(candidates, nets, limit, n) == linked.take(
                if linked.len() < limit {
                    linked.len() as int
                } else {
                    limit as int
                },
            )
        }),
    decreases n,
{
    let p = |ip: Seq<char>| util::on_link(ip, nets);
    reveal(Seq::filter);
    if n > 0 {
        law_first_candidates_are_asked(candidates, nets, limit, n - 1);
        let before = candidates.take(n - 1).filter(p);
        assert(candidates.take(n).drop_last() =~= candidates.take(n - 1));
        let linked = candidates.take(n).filter(p);
        assert(linked == if p(candidates[n - 1]) {
            before.push(candidates[n - 1])
        } else {
            before
        });
        let cut = if linked.len() < limit {
            linked.len() as int
        } else {
            limit as int
        };
        assert(asked(candidates, nets, limit, n) =~= linked.take(cut));
    } else {
        let linked = candidates.take(0).filter(p);
        assert(linked.len() == 0);
        assert(asked(candidates, nets, limit, n) =~= linked.take(0));
    }
}

/// A host that gave a name is observed under it, at its address; one that gave
/// none is not observed.
pub proof fn law_named_hosts_are_observed(
    ips: Seq<Seq<char>>,
    names: Seq<Option<Seq<char>>>,
    n: int,
    o: ObservationModel,
)
    requires
        0 <= n <= ips.len(),
    ensures
        netbios_observations(ips, names, n).contains(o) <==> exists|i: int|
            0 <= i < n && i < names.len() && (#[trigger] names[i]) is Some && o == (
            ObservationModel {
                ip: ips[i],
                mac: None,
                name: Some((NameSource::Netbios, names[i].unwrap())),
                vendor: None,
                source: "netbios"@,
                confidence: 85,
            }),
    decreases n,
{
    if n > 0 {
        law_named_hosts_are_observed(ips, names, n - 1, o);
        let rest = netbios_observations(ips, names, n - 1);
        let all = netbios_observations(ips, names, n);
        if n - 1 < names.len() && names[n - 1] is Some {
            text::lemma_push_contains(rest, all.last());
            assert(all.contains(o) <==> rest.contains(o) || o == all.last());
        }
    }
}

} // verus!
