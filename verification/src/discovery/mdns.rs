//! `mdns`: multicast DNS discovery on 224.0.0.251:5353.
//!
//! A DNS-SD service enumeration query plus common service-type queries go
//! out; what comes back in a few seconds is read for A records (hostname to
//! IP), SRV targets and TXT hints.

use vstd::prelude::*;
use vstd::string::*;

use crate::bytes;
use crate::bytes::{lossy, push_be16, push_bytes, read_be16, sub_bytes};
use crate::discovery::{Coverage, Strategy, StrategyModel, StrategyOutcome};
use crate::merge;
use crate::model::{Interface, InterfaceModel, NameSource, Observation, ObservationModel};
use crate::seqs;
use crate::text;
use crate::text::{
    chars_of, join_strings, matches_at, push_once, slice, split_chars, str_eq, string_of,
    stripped_back, stripped_front,
};
use crate::util;
use crate::util::{format_ipv4, ipv4_in_network_of};

verus! {

/// The port that mDNS responders answer to.
pub const MDNS_PORT: u16 = 5353;

#[derive(Debug, Clone, Copy)]
pub struct Mdns {
    /// How long to listen for answers, in milliseconds.
    pub listen_ms: u64,
}

impl Default for Mdns {
    fn default() -> (r: Self)
        ensures
            r.listen_ms == 3000,
    {
        Mdns { listen_ms: 3000 }
    }
}

impl Strategy for Mdns {
    open spec fn id_text(&self) -> Seq<char> {
        "mdns"@
    }

    open spec fn covers(&self) -> Coverage {
        Coverage::PresenceOnly
    }

    open spec fn turn(&self) -> u8 {
        1
    }

    fn id(&self) -> (r: &'static str) {
        "mdns"
    }

    fn coverage(&self) -> (r: Coverage) {
        Coverage::PresenceOnly
    }

    fn wave(&self) -> (r: u8) {
        1
    }
}

// ----- queries -----

/// One label of a name: its length in one byte, then its bytes.
pub open spec fn label_bytes(label: Seq<char>) -> Seq<u8> {
    seq![vstd::utf8::encode_utf8(label).len() as u8] + vstd::utf8::encode_utf8(label)
}

/// The labels of a name one after the other.
pub open spec fn labels_bytes(labels: Seq<Seq<char>>) -> Seq<u8>
    decreases labels.len(),
{
    if labels.len() == 0 {
        Seq::empty()
    } else {
        labels_bytes(labels.drop_last()) + label_bytes(labels.last())
    }
}

/// A DNS query for PTR records of a name: a header with one question, the
/// labels of the name, the root label, type PTR and class IN.
pub open spec fn query_bytes(id: u16, qname: Seq<char>) -> Seq<u8> {
    bytes::two_bytes(id) + seq![0u8, 0, 0, 1, 0, 0, 0, 0, 0, 0] + labels_bytes(
        text::split(qname, '.'),
    ) + seq![0u8, 0, 12, 0, 1]
}

/// Build a DNS query for PTR records of a name.
pub fn build_query(id: u16, qname: &str) -> (r: Vec<u8>)
    ensures
        r@ == query_bytes(id, qname@),
{
    let mut p: Vec<u8> = Vec::new();
    push_be16(&mut p, id);
    push_be16(&mut p, 0);  // flags: standard query
    push_be16(&mut p, 1);  // qdcount
    push_be16(&mut p, 0);  // ancount
    push_be16(&mut p, 0);  // nscount
    push_be16(&mut p, 0);  // arcount
    let ghost head = p@;
    assert(head == bytes::two_bytes(id) + seq![0u8, 0, 0, 1, 0, 0, 0, 0, 0, 0]);
    let labels = split_chars(&chars_of(qname), '.');
    let ghost all = labels.deep_view();
    let mut i: usize = 0;
    assert(head + labels_bytes(all.take(0)) == head);
    while i < labels.len()
        invariant
            i <= labels.len(),
            all == labels.deep_view(),
            p@ == head + labels_bytes(all.take(i as int)),
        decreases labels.len() - i,
    {
        proof {
            crate::seqs::lemma_chars_deep_view(labels@[i as int]);
            assert(all.take(i + 1).drop_last() == all.take(i as int));
            assert(all[i as int] == labels@[i as int]@);
        }
        let label = string_of(&labels[i]);
        let b = label.as_str().as_bytes();
        let ghost before = p@;
        p.push(b.len() as u8);
        push_bytes(&mut p, b);
        assert(p@ == before + label_bytes(all[i as int]));
        assert(p@ == head + (labels_bytes(all.take(i as int)) + label_bytes(all[i as int])));
        i = i + 1;
    }
    assert(all.take(all.len() as int) == all);
    p.push(0);
    push_be16(&mut p, 12);  // QTYPE PTR
    push_be16(&mut p, 1);  // QCLASS IN
    assert(p@ == query_bytes(id, qname@));
    p
}

/// The names that are asked for: every service there is, and the common kinds.
pub open spec fn query_names() -> Seq<Seq<char>> {
    seq![
        "_services._dns-sd._udp.local"@,
        "_googlecast._tcp.local"@,
        "_ipp._tcp.local"@,
        "_http._tcp.local"@,
    ]
}

/// The queries to send, numbered from zero.
pub fn queries() -> (r: Vec<Vec<u8>>)
    ensures
        r@.len() == query_names().len(),
        forall|i: int|
            0 <= i < r@.len() ==> (#[trigger] r@[i])@ == query_bytes(i as u16, query_names()[i]),
{
    let mut out: Vec<Vec<u8>> = Vec::new();
    out.push(build_query(0, "_services._dns-sd._udp.local"));
    out.push(build_query(1, "_googlecast._tcp.local"));
    out.push(build_query(2, "_ipp._tcp.local"));
    out.push(build_query(3, "_http._tcp.local"));
    out
}

// ----- names in messages -----

/// The labels of the name at a position. A label length of zero or the end of
/// the message ends the name; two high bits set mean that the name goes on
/// elsewhere, which may happen 32 times.
pub open spec fn name_labels(msg: Seq<u8>, pos: int, jumps: nat) -> Option<Seq<Seq<char>>>
    decreases 33 - jumps, msg.len() - pos,
{
    if pos < 0 || pos >= msg.len() || jumps > 32 {
        Some(Seq::empty())
    } else if msg[pos] == 0 {
        Some(Seq::empty())
    } else if msg[pos] >= 0xc0 {
        if pos + 1 >= msg.len() || jumps >= 32 {
            None
        } else {
            name_labels(msg, (msg[pos] - 0xc0) * 256 + msg[pos + 1], jumps + 1)
        }
    } else if msg[pos] >= 0x40 || pos + 1 + msg[pos] > msg.len() {
        None
    } else {
        match name_labels(msg, pos + 1 + msg[pos], jumps) {
            Some(rest) => Some(
                seq![bytes::lossy_text(msg.subrange(pos + 1, pos + 1 + msg[pos]))] + rest,
            ),
            None => None,
        }
    }
}

/// The name at a position, its labels joined by dots.
pub open spec fn name_in(msg: Seq<u8>, pos: int) -> Option<Seq<char>> {
    match name_labels(msg, pos, 0) {
        Some(labels) => Some(text::join(labels, seq!['.'])),
        None => None,
    }
}

/// Where the name at a position ends: after the root label or the first
/// reference elsewhere. A name has at most 128 labels.
pub open spec fn name_end(msg: Seq<u8>, pos: int, labels: nat) -> Option<int>
    decreases msg.len() - pos,
{
    if pos < 0 || pos >= msg.len() {
        None
    } else if msg[pos] == 0 {
        Some(pos + 1)
    } else if msg[pos] >= 0xc0 {
        Some(pos + 2)
    } else if msg[pos] >= 0x40 || labels >= 128 || pos + 1 + msg[pos] > msg.len() {
        None
    } else {
        name_end(msg, pos + 1 + msg[pos], labels + 1)
    }
}

/// Labels after those already read.
spec fn read_on(labels: Seq<Seq<char>>, rest: Option<Seq<Seq<char>>>) -> Option<Seq<Seq<char>>> {
    match rest {
        Some(r) => Some(labels + r),
        None => None,
    }
}

/// Read the name at a position.
fn read_name(off: usize, msg: &[u8]) -> (r: Option<String>)
    ensures
        r.deep_view() == name_in(msg@, off as int),
{
    let mut labels: Vec<String> = Vec::new();
    let mut pos: usize = off;
    let mut jumps: u32 = 0;
    assert(name_labels(msg@, off as int, 0) == read_on(
        labels.deep_view(),
        name_labels(msg@, off as int, 0),
    )) by {
        assert(labels.deep_view() == Seq::<Seq<char>>::empty());
        match name_labels(msg@, off as int, 0) {
            Some(r) => {
                assert(labels.deep_view() + r == r);
            },
            None => {},
        }
    }
    while pos < msg.len() && msg[pos] != 0
        invariant
            jumps <= 32,
            name_labels(msg@, off as int, 0) == read_on(
                labels.deep_view(),
                name_labels(msg@, pos as int, jumps as nat),
            ),
        decreases 33 - jumps, msg@.len() - pos,
    {
        let len: u8 = msg[pos];
        if len >= 0xc0 {
            if pos + 1 >= msg.len() || jumps >= 32 {
                return None;
            }
            pos = (len - 0xc0) as usize * 256 + msg[pos + 1] as usize;
            jumps = jumps + 1;
        } else {
            if len >= 0x40 || len as usize > msg.len() - pos - 1 {
                return None;
            }
            let end: usize = pos + 1 + len as usize;
            let ghost so_far = labels.deep_view();
            let label = lossy(sub_bytes(msg, pos + 1, end).as_slice());
            let ghost l = label@;
            labels.push(label);
            assert(labels.deep_view() == so_far.push(l));
            proof {
                match name_labels(msg@, end as int, jumps as nat) {
                    Some(rest) => {
                        assert(so_far + (seq![l] + rest) == so_far.push(l) + rest);
                    },
                    None => {},
                }
            }
            pos = end;
        }
    }
    proof {
        assert(labels.deep_view() + Seq::<Seq<char>>::empty() == labels.deep_view());
        reveal_strlit(".");
        assert("."@ == seq!['.']);
    }
    Some(join_strings(&labels, "."))
}

/// Find where the name at a position ends.
fn skip_name(off: usize, msg: &[u8]) -> (r: Option<usize>)
    requires
        msg@.len() <= isize::MAX,
    ensures
        match r {
            Some(i) => name_end(msg@, off as int, 0) == Some(i as int) && i <= msg@.len() + 1,
            None => name_end(msg@, off as int, 0) is None,
        },
{
    let mut pos: usize = off;
    let mut labels: u32 = 0;
    while pos < msg.len()
        invariant
            labels <= 128,
            msg@.len() <= isize::MAX,
            name_end(msg@, off as int, 0) == name_end(msg@, pos as int, labels as nat),
        decreases msg@.len() - pos,
    {
        let len: u8 = msg[pos];
        if len == 0 {
            return Some(pos + 1);
        }
        if len >= 0xc0 {
            return Some(pos + 2);
        }
        if len >= 0x40 || labels >= 128 {
            return None;
        }
        if len as usize > msg.len() - pos - 1 {
            return None;
        }
        pos = pos + 1 + len as usize;
        labels = labels + 1;
    }
    None
}

// ----- messages -----

/// One resource record.
#[derive(Debug)]
pub struct DnsRr {
    pub name: String,
    pub rtype: u16,
    pub rdata: Vec<u8>,
    /// Offset of the RDATA within the full message (for compressed SRV names).
    pub rdata_off: usize,
    /// The full message, kept for compression-aware re-reads.
    pub full_message: Vec<u8>,
}

/// What a [`DnsRr`] says.
#[verifier::ext_equal]
pub struct RrModel {
    pub name: Seq<char>,
    pub rtype: u16,
    pub rdata: Seq<u8>,
    pub rdata_off: int,
    pub full_message: Seq<u8>,
}

impl DeepView for DnsRr {
    type V = RrModel;

    open spec fn deep_view(&self) -> RrModel {
        RrModel {
            name: self.name@,
            rtype: self.rtype,
            rdata: self.rdata@,
            rdata_off: self.rdata_off as int,
            full_message: self.full_message@,
        }
    }
}

/// The records of a message.
#[derive(Debug)]
pub struct DnsMessage {
    pub answers: Vec<DnsRr>,
}

impl DeepView for DnsMessage {
    type V = Seq<RrModel>;

    open spec fn deep_view(&self) -> Seq<RrModel> {
        self.answers.deep_view()
    }
}

/// Where the questions of a message end.
pub open spec fn questions_end(msg: Seq<u8>, off: int, count: nat) -> Option<int>
    decreases count,
{
    if count == 0 {
        Some(off)
    } else {
        match name_end(msg, off, 0) {
            Some(end) => questions_end(msg, end + 4, (count - 1) as nat),
            None => None,
        }
    }
}

/// The record at a position, and where it ends.
pub open spec fn record_at(msg: Seq<u8>, off: int) -> Result<(RrModel, int), Seq<char>> {
    match (name_in(msg, off), name_end(msg, off, 0)) {
        (Some(name), Some(end)) => {
            if end + 10 > msg.len() {
                Err("truncated rr"@)
            } else {
                let rdlen = bytes::be16(msg, end + 8);
                let start = end + 10;
                if start + rdlen > msg.len() {
                    Err("truncated rdata"@)
                } else {
                    Ok(
                        (
                            RrModel {
                                name,
                                rtype: bytes::be16(msg, end) as u16,
                                rdata: msg.subrange(start, start + rdlen),
                                rdata_off: start,
                                full_message: msg,
                            },
                            start + rdlen,
                        ),
                    )
                }
            }
        },
        _ => Err("bad name"@),
    }
}

/// So many records from a position on.
pub open spec fn records_from(msg: Seq<u8>, off: int, count: nat) -> Result<Seq<RrModel>, Seq<char>>
    decreases count,
{
    if count == 0 {
        Ok(Seq::empty())
    } else {
        match record_at(msg, off) {
            Ok((rr, end)) => match records_from(msg, end, (count - 1) as nat) {
                Ok(rest) => Ok(seq![rr] + rest),
                Err(e) => Err(e),
            },
            Err(e) => Err(e),
        }
    }
}

/// The records of a message: the answers and the additional records, which is
/// where mDNS puts the useful ones.
pub open spec fn message_of(msg: Seq<u8>) -> Result<Seq<RrModel>, Seq<char>> {
    if msg.len() < 12 {
        Err("too short"@)
    } else {
        match questions_end(msg, 12, bytes::be16(msg, 4) as nat) {
            Some(off) => records_from(
                msg,
                off,
                (bytes::be16(msg, 6) + bytes::be16(msg, 10)) as nat,
            ),
            None => Err("bad question name"@),
        }
    }
}

/// Records after those already read.
spec fn records_on(read: Seq<RrModel>, rest: Result<Seq<RrModel>, Seq<char>>) -> Result<
    Seq<RrModel>,
    Seq<char>,
> {
    match rest {
        Ok(r) => Ok(read + r),
        Err(e) => Err(e),
    }
}

/// Read the record at a position, and find where it ends.
fn read_record(msg: &[u8], off: usize) -> (r: Result<(DnsRr, usize), &'static str>)
    requires
        msg@.len() <= isize::MAX,
    ensures
        match r {
            Ok((rr, end)) => record_at(msg@, off as int) == Ok::<(RrModel, int), Seq<char>>(
                (rr.deep_view(), end as int),
            ) && end <= msg@.len(),
            Err(e) => record_at(msg@, off as int) == Err::<(RrModel, int), Seq<char>>(e@),
        },
{
    let name = match read_name(off, msg) {
        Some(n) => n,
        None => {
            return Err("bad name");
        },
    };
    let end = match skip_name(off, msg) {
        Some(e) => e,
        None => {
            return Err("bad name");
        },
    };
    if end + 10 > msg.len() {
        return Err("truncated rr");
    }
    let rtype = read_be16(msg, end);
    let rdlen: usize = read_be16(msg, end + 8) as usize;
    let start: usize = end + 10;
    if start + rdlen > msg.len() {
        return Err("truncated rdata");
    }
    let rr = DnsRr {
        name,
        rtype,
        rdata: sub_bytes(msg, start, start + rdlen),
        rdata_off: start,
        full_message: sub_bytes(msg, 0, msg.len()),
    };
    assert(msg@.subrange(0, msg@.len() as int) == msg@);
    Ok((rr, start + rdlen))
}

/// Parse a DNS message.
pub fn parse_dns_message(msg: &[u8]) -> (r: Result<DnsMessage, &'static str>)
    requires
        msg@.len() <= isize::MAX,
    ensures
        match r {
            Ok(m) => message_of(msg@) == Ok::<Seq<RrModel>, Seq<char>>(m.deep_view()),
            Err(e) => message_of(msg@) == Err::<Seq<RrModel>, Seq<char>>(e@),
        },
{
    if msg.len() < 12 {
        return Err("too short");
    }
    let qdcount: u32 = read_be16(msg, 4) as u32;
    let total: u32 = read_be16(msg, 6) as u32 + read_be16(msg, 10) as u32;
    let mut off: usize = 12;
    let mut q: u32 = 0;
    while q < qdcount
        invariant
            q <= qdcount,
            off <= msg@.len() + 5,
            12 <= msg@.len() <= isize::MAX,
            qdcount == bytes::be16(msg@, 4),
            questions_end(msg@, 12, qdcount as nat) == questions_end(
                msg@,
                off as int,
                (qdcount - q) as nat,
            ),
        decreases qdcount - q,
    {
        match skip_name(off, msg) {
            Some(end) => {
                off = end + 4;
            },
            None => {
                return Err("bad question name");
            },
        }
        q = q + 1;
    }
    let ghost first = off;
    let mut answers: Vec<DnsRr> = Vec::new();
    let mut n: u32 = 0;
    assert(records_from(msg@, first as int, total as nat) == records_on(
        answers.deep_view(),
        records_from(msg@, off as int, total as nat),
    )) by {
        assert(answers.deep_view() == Seq::<RrModel>::empty());
        match records_from(msg@, first as int, total as nat) {
            Ok(r) => {
                assert(answers.deep_view() + r == r);
            },
            Err(e) => {},
        }
    }
    while n < total
        invariant
            n <= total,
            msg@.len() <= isize::MAX,
            message_of(msg@) == records_from(msg@, first as int, total as nat),
            records_from(msg@, first as int, total as nat) == records_on(
                answers.deep_view(),
                records_from(msg@, off as int, (total - n) as nat),
            ),
        decreases total - n,
    {
        match read_record(msg, off) {
            Ok((rr, end)) => {
                let ghost so_far = answers.deep_view();
                let ghost model = rr.deep_view();
                answers.push(rr);
                assert(answers.deep_view() == so_far.push(model));
                proof {
                    match records_from(msg@, end as int, (total - n - 1) as nat) {
                        Ok(rest) => {
                            assert(so_far + (seq![model] + rest) == so_far.push(model) + rest);
                        },
                        Err(e) => {},
                    }
                }
                off = end;
            },
            Err(e) => {
                return Err(e);
            },
        }
        n = n + 1;
    }
    assert(answers.deep_view() + Seq::<RrModel>::empty() == answers.deep_view());
    Ok(DnsMessage { answers })
}

// ----- TXT records -----

/// The value that follows a key in a text, without quotes around it; nothing
/// where the text does not begin with the key or the value is empty.
pub open spec fn value_after(s: Seq<char>, key: Seq<char>) -> Option<Seq<char>> {
    if text::begins(s, key) {
        let v = text::strip_back(text::strip_front(s.skip(key.len() as int), '"'), '"', '"');
        if v.len() > 0 {
            Some(v)
        } else {
            None
        }
    } else {
        None
    }
}

/// The model that a TXT string names.
pub open spec fn model_value(s: Seq<char>) -> Option<Seq<char>> {
    merge::first_of(
        value_after(s, "model="@),
        merge::first_of(value_after(s, "device_description="@), value_after(s, "am="@)),
    )
}

/// The first model that the length-prefixed strings of a TXT record name from
/// a position on; nothing once a string runs past the end.
pub open spec fn model_from(rdata: Seq<u8>, i: int) -> Option<Seq<char>>
    decreases rdata.len() - i,
{
    if i < 0 || i >= rdata.len() || i + 1 + rdata[i] > rdata.len() {
        None
    } else {
        match model_value(bytes::lossy_text(rdata.subrange(i + 1, i + 1 + rdata[i]))) {
            Some(v) => Some(v),
            None => model_from(rdata, i + 1 + rdata[i]),
        }
    }
}

/// Read the value that follows a key.
fn read_value(s: &Vec<char>, key: &str) -> (r: Option<String>)
    ensures
        r.deep_view() == value_after(s@, key@),
{
    let k = chars_of(key);
    if !matches_at(s, &k, 0) {
        return None;
    }
    assert(s@.subrange(k@.len() as int, s@.len() as int) == s@.skip(k@.len() as int));
    let rest = slice(s, k.len(), s.len());
    let v = stripped_back(&stripped_front(&rest, '"'), '"', '"');
    if v.len() == 0 {
        return None;
    }
    Some(string_of(&v))
}

/// Read the model out of a TXT record.
pub fn parse_txt_model(rdata: &[u8]) -> (r: Option<String>)
    ensures
        r.deep_view() == model_from(rdata@, 0),
{
    let mut i: usize = 0;
    while i < rdata.len()
        invariant
            i <= rdata@.len(),
            model_from(rdata@, 0) == model_from(rdata@, i as int),
        decreases rdata@.len() - i,
    {
        let len: usize = rdata[i] as usize;
        if len > rdata.len() - i - 1 {
            return None;
        }
        let end: usize = i + 1 + len;
        let s = chars_of(lossy(sub_bytes(rdata, i + 1, end).as_slice()).as_str());
        if let Some(v) = read_value(&s, "model=") {
            return Some(v);
        }
        if let Some(v) = read_value(&s, "device_description=") {
            return Some(v);
        }
        if let Some(v) = read_value(&s, "am=") {
            return Some(v);
        }
        i = end;
    }
    None
}

// ----- what was learned -----

/// What the messages said.
#[derive(Debug)]
pub struct DnsRecords {
    /// hostname (as written, e.g. `printer.local`) and its IPv4 addresses.
    pub a_records: Vec<(String, Vec<String>)>,
    /// SRV targets seen, for potential future use.
    pub srv_targets: Vec<String>,
    /// TXT `model=` / `device_description=` values per hostname.
    pub txt_models: Vec<(String, String)>,
}

/// What [`DnsRecords`] say.
#[verifier::ext_equal]
pub struct RecordsModel {
    pub a_records: Seq<(Seq<char>, Seq<Seq<char>>)>,
    pub srv_targets: Seq<Seq<char>>,
    pub txt_models: Seq<(Seq<char>, Seq<char>)>,
}

impl DeepView for DnsRecords {
    type V = RecordsModel;

    open spec fn deep_view(&self) -> RecordsModel {
        RecordsModel {
            a_records: self.a_records.deep_view(),
            srv_targets: self.srv_targets.deep_view(),
            txt_models: self.txt_models.deep_view(),
        }
    }
}

impl Default for DnsRecords {
    fn default() -> (r: Self)
        ensures
            r.deep_view() == no_records(),
    {
        let r = DnsRecords {
            a_records: Vec::new(),
            srv_targets: Vec::new(),
            txt_models: Vec::new(),
        };
        assert(r.a_records.deep_view() == Seq::<(Seq<char>, Seq<Seq<char>>)>::empty());
        assert(r.srv_targets.deep_view() == Seq::<Seq<char>>::empty());
        assert(r.txt_models.deep_view() == Seq::<(Seq<char>, Seq<char>)>::empty());
        r
    }
}

/// The condition of being about a host.
pub open spec fn about_host(name: Seq<char>) -> spec_fn((Seq<char>, Seq<Seq<char>>)) -> bool {
    |e: (Seq<char>, Seq<Seq<char>>)| e.0 == name
}

/// The addresses known after one more, each once under its host.
pub open spec fn with_address(
    s: Seq<(Seq<char>, Seq<Seq<char>>)>,
    name: Seq<char>,
    ip: Seq<char>,
) -> Seq<(Seq<char>, Seq<Seq<char>>)> {
    match seqs::first_where(s, about_host(name)) {
        Some(i) => s.update(i, (s[i].0, text::joined_by(s[i].1, ip))),
        None => s.push((name, seq![ip])),
    }
}

/// The address that four bytes spell.
pub open spec fn address_text(rdata: Seq<u8>) -> Seq<char> {
    util::ipv4_text(
        util::quad(rdata[0] as nat, rdata[1] as nat, rdata[2] as nat, rdata[3] as nat),
    )
}

/// A record gives a host an address: only four bytes are one.
pub open spec fn gives_address(rr: RrModel) -> bool {
    rr.rtype == 1 && rr.rdata.len() == 4
}

/// What is known after one more record.
pub open spec fn with_record(k: RecordsModel, rr: RrModel) -> RecordsModel {
    if rr.rtype == 1 {
        if rr.rdata.len() == 4 {
            RecordsModel {
                a_records: with_address(
                    k.a_records,
                    rr.name,
                    address_text(rr.rdata),
                ),
                ..k
            }
        } else {
            k
        }
    } else if rr.rtype == 33 {
        match name_in(rr.full_message, rr.rdata_off + 6) {
            Some(target) => RecordsModel { srv_targets: k.srv_targets.push(target), ..k },
            None => k,
        }
    } else if rr.rtype == 16 {
        match model_from(rr.rdata, 0) {
            Some(model) => RecordsModel { txt_models: k.txt_models.push((rr.name, model)), ..k },
            None => k,
        }
    } else {
        k
    }
}

/// What is known after a message.
pub open spec fn with_message(k: RecordsModel, msg: Seq<RrModel>) -> RecordsModel
    decreases msg.len(),
{
    if msg.len() == 0 {
        k
    } else {
        with_record(with_message(k, msg.drop_last()), msg.last())
    }
}

impl DnsRecords {
    /// Take in an address of a host.
    fn add_address(&mut self, name: &str, ip: String)
        ensures
            final(self).deep_view() == (RecordsModel {
                a_records: with_address(old(self).deep_view().a_records, name@, ip@),
                ..old(self).deep_view()
            }),
    {
        let ghost before = self.a_records.deep_view();
        let ghost start = self.deep_view();
        let ghost p = about_host(name@);
        let mut i: usize = 0;
        while i < self.a_records.len()
            invariant
                i <= self.a_records.len(),
                before == self.a_records.deep_view(),
                start == self.deep_view(),
                start == old(self).deep_view(),
                p == about_host(name@),
                forall|j: int| 0 <= j < i ==> !p(#[trigger] before[j]),
            decreases self.a_records.len() - i,
        {
            assert(before[i as int] == self.a_records@[i as int].deep_view());
            if str_eq(self.a_records[i].0.as_str(), name) {
                proof {
                    assert(seqs::is_first(before, p, i as int));
                    seqs::lemma_first_is(before, p, i as int);
                }
                push_once(&mut self.a_records[i].1, ip.as_str());
                assert(self.a_records.deep_view() == before.update(
                    i as int,
                    (before[i as int].0, text::joined_by(before[i as int].1, ip@)),
                ));
                return;
            }
            i = i + 1;
        }
        proof {
            seqs::lemma_first_none(before, p);
        }
        let ghost text = ip@;
        let mut ips: Vec<String> = Vec::new();
        ips.push(ip);
        assert(ips.deep_view() == seq![text]);
        self.a_records.push((name.to_string(), ips));
        assert(self.a_records.deep_view() == before.push((name@, seq![text])));
    }

    /// Take in one record.
    fn absorb_record(&mut self, rr: &DnsRr)
        ensures
            final(self).deep_view() == with_record(old(self).deep_view(), rr.deep_view()),
    {
        let ghost before = self.deep_view();
        if rr.rtype == 1 {
            if rr.rdata.len() == 4 {
                let a: u32 = rr.rdata[0] as u32 * 0x100_0000 + rr.rdata[1] as u32 * 0x1_0000
                    + rr.rdata[2] as u32 * 0x100 + rr.rdata[3] as u32;
                self.add_address(rr.name.as_str(), format_ipv4(a));
            }
        } else if rr.rtype == 33 {
            // SRV: prio(2) weight(2) port(2) target(compressed name)
            let target = if rr.rdata_off > usize::MAX - 6 {
                assert(rr.full_message@.len() == rr.full_message.len());
                assert(name_labels(rr.full_message@, rr.rdata_off + 6, 0) == Some(
                    Seq::<Seq<char>>::empty(),
                ));
                Some(String::new())
            } else {
                read_name(rr.rdata_off + 6, rr.full_message.as_slice())
            };
            if let Some(t) = target {
                let ghost name = t@;
                self.srv_targets.push(t);
                assert(self.srv_targets.deep_view() == before.srv_targets.push(name));
            }
        } else if rr.rtype == 16 {
            // TXT: length-prefixed strings.
            if let Some(model) = parse_txt_model(rr.rdata.as_slice()) {
                let ghost m = model@;
                self.txt_models.push((rr.name.clone(), model));
                assert(self.txt_models.deep_view() == before.txt_models.push((rr.name@, m)));
            }
        }
    }

    /// Take in a message.
    pub fn absorb(&mut self, msg: &DnsMessage)
        ensures
            final(self).deep_view() == with_message(old(self).deep_view(), msg.deep_view()),
    {
        let ghost start = self.deep_view();
        let ghost all = msg.deep_view();
        let mut i: usize = 0;
        while i < msg.answers.len()
            invariant
                i <= msg.answers.len(),
                all == msg.deep_view(),
                self.deep_view() == with_message(start, all.take(i as int)),
            decreases msg.answers.len() - i,
        {
            assert(all.take(i + 1).drop_last() == all.take(i as int));
            assert(all[i as int] == msg.answers@[i as int].deep_view());
            self.absorb_record(&msg.answers[i]);
            i = i + 1;
        }
        assert(all.take(all.len() as int) == all);
    }
}

// ----- observations -----

/// A hostname without the mDNS domain.
pub open spec fn bare_name(hostname: Seq<char>) -> Seq<char> {
    let n = hostname.len() - 6;
    if n >= 0 && hostname.skip(n) == ".local"@ {
        hostname.take(n)
    } else {
        hostname
    }
}

/// The condition of being about a host, among models.
pub open spec fn model_about(name: Seq<char>) -> spec_fn((Seq<char>, Seq<char>)) -> bool {
    |e: (Seq<char>, Seq<char>)| e.0 == name
}

/// The first model known of a host.
pub open spec fn model_of(s: Seq<(Seq<char>, Seq<char>)>, name: Seq<char>) -> Option<Seq<char>> {
    match seqs::first_where(s, model_about(name)) {
        Some(i) => Some(s[i].1),
        None => None,
    }
}

/// An address of a host as an observation.
pub open spec fn mdns_observation(k: RecordsModel, hostname: Seq<char>, ip: Seq<char>) -> ObservationModel {
    ObservationModel {
        ip,
        mac: None,
        name: Some((NameSource::Mdns, bare_name(hostname))),
        vendor: model_of(k.txt_models, hostname),
        source: "mdns"@,
        confidence: 90,
    }
}

/// The observations of a host's first `n` addresses: those on the link.
pub open spec fn host_observations(
    k: RecordsModel,
    iface: InterfaceModel,
    hostname: Seq<char>,
    ips: Seq<Seq<char>>,
    n: int,
) -> Seq<ObservationModel>
    decreases n,
{
    if n <= 0 {
        Seq::empty()
    } else {
        let rest = host_observations(k, iface, hostname, ips, n - 1);
        if util::on_link(ips[n - 1], iface.ipv4) {
            rest.push(mdns_observation(k, hostname, ips[n - 1]))
        } else {
            rest
        }
    }
}

/// The observations of the first `n` hosts.
pub open spec fn mdns_observations(k: RecordsModel, iface: InterfaceModel, n: int) -> Seq<
    ObservationModel,
>
    decreases n,
{
    if n <= 0 {
        Seq::empty()
    } else {
        mdns_observations(k, iface, n - 1) + host_observations(
            k,
            iface,
            k.a_records[n - 1].0,
            k.a_records[n - 1].1,
            k.a_records[n - 1].1.len() as int,
        )
    }
}

/// Take the mDNS domain off a hostname.
fn without_domain(hostname: &str) -> (r: String)
    ensures
        r@ == bare_name(hostname@),
{
    let v = chars_of(hostname);
    let tail = chars_of(".local");
    proof {
        reveal_strlit(".local");
        assert(".local"@.len() == 6);
    }
    if v.len() >= 6 && matches_at(&v, &tail, v.len() - 6) {
        assert(v@.subrange(v@.len() - 6, v@.len() as int) == v@.skip(v@.len() - 6));
        assert(v@.subrange(0, v@.len() - 6) == v@.take(v@.len() - 6));
        string_of(&slice(&v, 0, v.len() - 6))
    } else {
        assert(v@.len() >= 6 ==> v@.subrange(v@.len() - 6, v@.len() as int) == v@.skip(
            v@.len() - 6,
        ));
        string_of(&v)
    }
}

impl Mdns {
    /// The first model known of a host.
    fn vendor_of(records: &DnsRecords, hostname: &str) -> (r: Option<String>)
        ensures
            r.deep_view() == model_of(records.deep_view().txt_models, hostname@),
    {
        let ghost all = records.txt_models.deep_view();
        let ghost p = model_about(hostname@);
        let mut i: usize = 0;
        while i < records.txt_models.len()
            invariant
                i <= records.txt_models.len(),
                all == records.txt_models.deep_view(),
                p == model_about(hostname@),
                forall|j: int| 0 <= j < i ==> !p(#[trigger] all[j]),
            decreases records.txt_models.len() - i,
        {
            assert(all[i as int] == records.txt_models@[i as int].deep_view());
            if str_eq(records.txt_models[i].0.as_str(), hostname) {
                proof {
                    assert(seqs::is_first(all, p, i as int));
                    seqs::lemma_first_is(all, p, i as int);
                }
                return Some(records.txt_models[i].1.clone());
            }
            i = i + 1;
        }
        proof {
            seqs::lemma_first_none(all, p);
        }
        None
    }

    /// Report what the messages said about the interface's networks.
    pub fn report(&self, records: &DnsRecords, iface: &Interface) -> (r: StrategyOutcome)
        requires
            iface.deep_view().wf(),
        ensures
            r.deep_view() == (StrategyModel {
                observations: mdns_observations(
                    records.deep_view(),
                    iface.deep_view(),
                    records.a_records@.len() as int,
                ),
                problem: None,
            }),
    {
        let ghost k = records.deep_view();
        let ghost m = iface.deep_view();
        let mut out: Vec<Observation> = Vec::new();
        let mut i: usize = 0;
        while i < records.a_records.len()
            invariant
                i <= records.a_records.len(),
                k == records.deep_view(),
                m == iface.deep_view(),
                m.wf(),
                out.deep_view() == mdns_observations(k, m, i as int),
            decreases records.a_records.len() - i,
        {
            let host = &records.a_records[i].0;
            let ips = &records.a_records[i].1;
            let ghost texts = ips.deep_view();
            assert(k.a_records[i as int] == (host@, texts));
            let ghost before = out.deep_view();
            let mut j: usize = 0;
            assert(before + host_observations(k, m, host@, texts, 0) == before);
            while j < ips.len()
                invariant
                    j <= ips.len(),
                    k == records.deep_view(),
                    m == iface.deep_view(),
                    m.wf(),
                    texts == ips.deep_view(),
                    out.deep_view() == before + host_observations(k, m, host@, texts, j as int),
                decreases ips.len() - j,
            {
                assert(texts[j as int] == ips@[j as int]@);
                if ipv4_in_network_of(ips[j].as_str(), iface) {
                    let ghost so_far = out.deep_view();
                    let o = Observation {
                        ip: ips[j].clone(),
                        mac: None,
                        name: Some((NameSource::Mdns, without_domain(host.as_str()))),
                        vendor: Mdns::vendor_of(records, host.as_str()),
                        source: self.id().to_string(),
                        confidence: 90,
                    };
                    let ghost model = o.deep_view();
                    assert(model == mdns_observation(k, host@, texts[j as int]));
                    out.push(o);
                    assert(out.deep_view() == so_far.push(model));
                }
                j = j + 1;
            }
            i = i + 1;
        }
        StrategyOutcome::ok(out)
    }
}

/// An address is known under its host.
pub open spec fn knows(
    s: Seq<(Seq<char>, Seq<Seq<char>>)>,
    name: Seq<char>,
    ip: Seq<char>,
) -> bool {
    match seqs::first_where(s, about_host(name)) {
        Some(i) => s[i].1.contains(ip),
        None => false,
    }
}

/// Each host is listed once, with at least one address and none twice.
pub open spec fn tidy(s: Seq<(Seq<char>, Seq<Seq<char>>)>) -> bool {
    &&& forall|i: int, j: int|
        0 <= i < j < s.len() ==> (#[trigger] s[i]).0 != (#[trigger] s[j]).0
    &&& forall|i: int|
        0 <= i < s.len() ==> (#[trigger] s[i]).1.len() > 0 && s[i].1.no_duplicates()
}

/// Nothing was lost: each host is where it was, and its addresses are still
/// the first of those it has.
pub open spec fn grown(
    s: Seq<(Seq<char>, Seq<Seq<char>>)>,
    t: Seq<(Seq<char>, Seq<Seq<char>>)>,
) -> bool {
    &&& s.len() <= t.len()
    &&& forall|i: int|
        0 <= i < s.len() ==> (#[trigger] t[i]).0 == s[i].0 && s[i].1.len() <= t[i].1.len()
            && t[i].1.take(s[i].1.len() as int) == s[i].1
}

/// What is known at first: nothing.
pub open spec fn no_records() -> RecordsModel {
    RecordsModel { a_records: Seq::empty(), srv_targets: Seq::empty(), txt_models: Seq::empty() }
}

/// What is known after several messages.
pub open spec fn with_messages(msgs: Seq<Seq<RrModel>>) -> RecordsModel
    decreases msgs.len(),
{
    if msgs.len() == 0 {
        no_records()
    } else {
        with_message(with_messages(msgs.drop_last()), msgs.last())
    }
}

/// One more address keeps what was known, and the list tidy.
proof fn lemma_with_address(
    s: Seq<(Seq<char>, Seq<Seq<char>>)>,
    name: Seq<char>,
    ip: Seq<char>,
)
    ensures
        knows(with_address(s, name, ip), name, ip),
        forall|n: Seq<char>, a: Seq<char>| #[trigger]
            knows(s, n, a) ==> knows(with_address(s, name, ip), n, a),
        tidy(s) ==> tidy(with_address(s, name, ip)),
        grown(s, with_address(s, name, ip)),
{
    let p = about_host(name);
    let t = with_address(s, name, ip);
    seqs::lemma_first_found(s, p);
    let at: int = match seqs::first_where(s, p) {
        Some(i) => i,
        None => s.len() as int,
    };
    if seqs::first_where(s, p) is Some {
        text::lemma_push_contains(s[at].1, ip);
        let old_ips = s[at].1;
        let new_ips = t[at].1;
        assert(new_ips.take(old_ips.len() as int) == old_ips);
        if old_ips.no_duplicates() {
            assert forall|a: int, b: int|
                0 <= a < new_ips.len() && 0 <= b < new_ips.len() && a != b implies new_ips[a]
                != new_ips[b] by {
                if a < old_ips.len() {
                    assert(old_ips.contains(old_ips[a]));
                }
                if b < old_ips.len() {
                    assert(old_ips.contains(old_ips[b]));
                }
            }
        }
    } else {
        assert(t[at].1[0] == ip);
    }
    assert forall|i: int| 0 <= i < s.len() implies (#[trigger] t[i]).0 == s[i].0 && s[i].1.len()
        <= t[i].1.len() && t[i].1.take(s[i].1.len() as int) == s[i].1 by {
        if i != at {
            assert(s[i].1.take(s[i].1.len() as int) == s[i].1);
        }
    }
    assert(seqs::is_first(t, p, at)) by {
        assert forall|j: int| 0 <= j < at implies !p(#[trigger] t[j]) by {
            assert(!p(s[j]));
        }
    }
    seqs::lemma_first_is(t, p, at);
    assert forall|n: Seq<char>, a: Seq<char>| #[trigger] knows(s, n, a) implies knows(t, n, a) by {
        let q = about_host(n);
        seqs::lemma_first_found(s, q);
        let j = seqs::first_where(s, q).unwrap();
        assert forall|k: int| 0 <= k < j implies !q(#[trigger] t[k]) by {
            assert(!q(s[k]));
        }
        assert(seqs::is_first(t, q, j));
        seqs::lemma_first_is(t, q, j);
    }
    if tidy(s) {
        assert forall|i: int, j: int| 0 <= i < j < t.len() implies (#[trigger] t[i]).0
            != (#[trigger] t[j]).0 by {
            if j < s.len() {
                assert(s[i].0 != s[j].0);
            } else {
                assert(!p(s[i]));
            }
        }
    }
}

/// An address that is known changes nothing.
proof fn lemma_known_address(
    s: Seq<(Seq<char>, Seq<Seq<char>>)>,
    name: Seq<char>,
    ip: Seq<char>,
)
    requires
        knows(s, name, ip),
    ensures
        with_address(s, name, ip) == s,
{
    seqs::lemma_first_found(s, about_host(name));
    let i = seqs::first_where(s, about_host(name)).unwrap();
    assert(s.update(i, (s[i].0, s[i].1)) == s);
}

/// Growing twice is growing.
proof fn lemma_grown(
    a: Seq<(Seq<char>, Seq<Seq<char>>)>,
    b: Seq<(Seq<char>, Seq<Seq<char>>)>,
    c: Seq<(Seq<char>, Seq<Seq<char>>)>,
)
    requires
        grown(a, b),
        grown(b, c),
    ensures
        grown(a, c),
{
    assert forall|i: int| 0 <= i < a.len() implies (#[trigger] c[i]).0 == a[i].0 && a[i].1.len()
        <= c[i].1.len() && c[i].1.take(a[i].1.len() as int) == a[i].1 by {
        assert(b[i].0 == a[i].0);
        assert(c[i].1.take(a[i].1.len() as int) == c[i].1.take(b[i].1.len() as int).take(
            a[i].1.len() as int,
        ));
    }
}

/// What a message adds to the addresses.
proof fn lemma_with_message(k: RecordsModel, msg: Seq<RrModel>)
    ensures
        grown(k.a_records, with_message(k, msg).a_records),
        tidy(k.a_records) ==> tidy(with_message(k, msg).a_records),
        forall|i: int|
            0 <= i < msg.len() && gives_address(#[trigger] msg[i]) ==> knows(
                with_message(k, msg).a_records,
                msg[i].name,
                address_text(msg[i].rdata),
            ),
    decreases msg.len(),
{
    let s = k.a_records;
    if msg.len() == 0 {
        assert forall|i: int| 0 <= i < s.len() implies s[i].1.take((#[trigger] s[i]).1.len() as int)
            == s[i].1 by {}
    } else {
        let init = msg.drop_last();
        let rr = msg.last();
        let before = with_message(k, init).a_records;
        let after = with_message(k, msg).a_records;
        lemma_with_message(k, init);
        if gives_address(rr) {
            lemma_with_address(before, rr.name, address_text(rr.rdata));
            lemma_grown(s, before, after);
        }
        assert forall|i: int| 0 <= i < msg.len() && gives_address(#[trigger] msg[i]) implies knows(
            after,
            msg[i].name,
            address_text(msg[i].rdata),
        ) by {
            if i < init.len() {
                assert(init[i] == msg[i]);
                assert(knows(before, msg[i].name, address_text(msg[i].rdata)));
            }
        }
    }
}

/// A message whose addresses are all known adds none.
proof fn lemma_known_message(k: RecordsModel, msg: Seq<RrModel>)
    requires
        forall|i: int|
            0 <= i < msg.len() && gives_address(#[trigger] msg[i]) ==> knows(
                k.a_records,
                msg[i].name,
                address_text(msg[i].rdata),
            ),
    ensures
        with_message(k, msg).a_records == k.a_records,
    decreases msg.len(),
{
    if msg.len() > 0 {
        let init = msg.drop_last();
        assert forall|i: int| 0 <= i < init.len() && gives_address(#[trigger] init[i]) implies knows(
            k.a_records,
            init[i].name,
            address_text(init[i].rdata),
        ) by {
            assert(init[i] == msg[i]);
        }
        lemma_known_message(k, init);
        let rr = msg.last();
        assert(msg[msg.len() - 1] == rr);
        if gives_address(rr) {
            lemma_known_address(k.a_records, rr.name, address_text(rr.rdata));
        }
    }
}

/// Hearing an address twice says no more than hearing it once.
pub proof fn law_addresses_are_kept_once(
    s: Seq<(Seq<char>, Seq<Seq<char>>)>,
    name: Seq<char>,
    ip: Seq<char>,
)
    ensures
        with_address(with_address(s, name, ip), name, ip) == with_address(s, name, ip),
{
    lemma_with_address(s, name, ip);
    lemma_known_address(with_address(s, name, ip), name, ip);
}

/// Hearing a message twice adds no address to what hearing it once gave.
pub proof fn law_message_heard_twice(k: RecordsModel, msg: Seq<RrModel>)
    ensures
        with_message(with_message(k, msg), msg).a_records == with_message(k, msg).a_records,
{
    lemma_with_message(k, msg);
    lemma_known_message(with_message(k, msg), msg);
}

/// A message takes no host and no address away.
pub proof fn law_message_loses_nothing(k: RecordsModel, msg: Seq<RrModel>)
    ensures
        grown(k.a_records, with_message(k, msg).a_records),
{
    lemma_with_message(k, msg);
}

/// Whatever was heard, each host is listed once, with at least one address and
/// none twice.
pub proof fn law_hosts_stay_distinct(msgs: Seq<Seq<RrModel>>)
    ensures
        tidy(with_messages(msgs).a_records),
    decreases msgs.len(),
{
    if msgs.len() > 0 {
        law_hosts_stay_distinct(msgs.drop_last());
        lemma_with_message(with_messages(msgs.drop_last()), msgs.last());
    }
}

/// Only an address record of four bytes says anything about addresses, and
/// what it says is then known.
pub proof fn law_only_four_bytes_are_an_address(k: RecordsModel, rr: RrModel)
    ensures
        if gives_address(rr) {
            knows(with_record(k, rr).a_records, rr.name, address_text(rr.rdata))
        } else {
            with_record(k, rr).a_records == k.a_records
        },
{
    if gives_address(rr) {
        lemma_with_address(k.a_records, rr.name, address_text(rr.rdata));
    }
}

/// A record gives a host a model.
spec fn gives_model(rr: RrModel) -> bool {
    rr.rtype == 16 && model_from(rr.rdata, 0) is Some
}

/// One more model changes nothing where there was one.
proof fn lemma_with_model(
    s: Seq<(Seq<char>, Seq<char>)>,
    name: Seq<char>,
    model: Seq<char>,
    host: Seq<char>,
)
    ensures
        model_of(s, host) is Some || host != name ==> model_of(s.push((name, model)), host)
            == model_of(s, host),
        model_of(s.push((name, model)), name) is Some,
{
    let t = s.push((name, model));
    let p = model_about(host);
    seqs::lemma_first_found(s, p);
    match seqs::first_where(s, p) {
        Some(i) => {
            assert forall|j: int| 0 <= j < i implies !p(#[trigger] t[j]) by {
                assert(!p(s[j]));
            }
            assert(seqs::is_first(t, p, i));
            seqs::lemma_first_is(t, p, i);
        },
        None => {
            if host != name {
                assert forall|j: int| 0 <= j < t.len() implies !p(#[trigger] t[j]) by {
                    if j < s.len() {
                        assert(!p(s[j]));
                    }
                }
                seqs::lemma_first_none(t, p);
            }
        },
    }
    let q = model_about(name);
    seqs::lemma_first_found(t, q);
    assert(q(t[s.len() as int]));
}

/// What a message says of models: what was known stays, and what it says is
/// known.
proof fn lemma_models(k: RecordsModel, msg: Seq<RrModel>)
    ensures
        forall|host: Seq<char>|
            model_of(k.txt_models, host) is Some ==> #[trigger] model_of(
                with_message(k, msg).txt_models,
                host,
            ) == model_of(k.txt_models, host),
        forall|i: int|
            0 <= i < msg.len() && gives_model(#[trigger] msg[i]) ==> model_of(
                with_message(k, msg).txt_models,
                msg[i].name,
            ) is Some,
    decreases msg.len(),
{
    if msg.len() > 0 {
        let init = msg.drop_last();
        let rr = msg.last();
        let before = with_message(k, init).txt_models;
        let after = with_message(k, msg).txt_models;
        lemma_models(k, init);
        assert forall|host: Seq<char>| model_of(before, host) is Some implies #[trigger] model_of(
            after,
            host,
        ) == model_of(before, host) by {
            if gives_model(rr) {
                lemma_with_model(before, rr.name, model_from(rr.rdata, 0).unwrap(), host);
            }
        }
        assert forall|i: int| 0 <= i < msg.len() && gives_model(#[trigger] msg[i]) implies model_of(
            after,
            msg[i].name,
        ) is Some by {
            if i < init.len() {
                assert(init[i] == msg[i]);
                assert(model_of(before, msg[i].name) is Some);
            } else {
                lemma_with_model(before, rr.name, model_from(rr.rdata, 0).unwrap(), rr.name);
            }
        }
        assert forall|host: Seq<char>|
            model_of(k.txt_models, host) is Some implies #[trigger] model_of(after, host)
            == model_of(k.txt_models, host) by {
            assert(model_of(before, host) == model_of(k.txt_models, host));
        }
    }
}

/// A message whose models are all of hosts with a known one changes none.
proof fn lemma_known_models(k: RecordsModel, msg: Seq<RrModel>)
    requires
        forall|i: int|
            0 <= i < msg.len() && gives_model(#[trigger] msg[i]) ==> model_of(
                k.txt_models,
                msg[i].name,
            ) is Some,
    ensures
        forall|host: Seq<char>| #[trigger]
            model_of(with_message(k, msg).txt_models, host) == model_of(k.txt_models, host),
    decreases msg.len(),
{
    if msg.len() > 0 {
        let init = msg.drop_last();
        let rr = msg.last();
        let before = with_message(k, init).txt_models;
        let after = with_message(k, msg).txt_models;
        assert forall|i: int| 0 <= i < init.len() && gives_model(#[trigger] init[i]) implies model_of(
            k.txt_models,
            init[i].name,
        ) is Some by {
            assert(init[i] == msg[i]);
        }
        lemma_known_models(k, init);
        assert(msg[msg.len() - 1] == rr);
        assert forall|host: Seq<char>| #[trigger] model_of(after, host) == model_of(
            k.txt_models,
            host,
        ) by {
            assert(model_of(before, host) == model_of(k.txt_models, host));
            if gives_model(rr) {
                assert(model_of(before, rr.name) == model_of(k.txt_models, rr.name));
                lemma_with_model(before, rr.name, model_from(rr.rdata, 0).unwrap(), host);
            }
        }
    }
}

/// Observations of a host depend on its model alone.
proof fn lemma_same_host(
    a: RecordsModel,
    b: RecordsModel,
    iface: InterfaceModel,
    hostname: Seq<char>,
    ips: Seq<Seq<char>>,
    n: int,
)
    requires
        model_of(a.txt_models, hostname) == model_of(b.txt_models, hostname),
    ensures
        host_observations(a, iface, hostname, ips, n) == host_observations(
            b,
            iface,
            hostname,
            ips,
            n,
        ),
    decreases n,
{
    if n > 0 {
        lemma_same_host(a, b, iface, hostname, ips, n - 1);
    }
}

/// The same addresses and models give the same observations.
proof fn lemma_same_observations(a: RecordsModel, b: RecordsModel, iface: InterfaceModel, n: int)
    requires
        a.a_records == b.a_records,
        forall|host: Seq<char>| #[trigger]
            model_of(a.txt_models, host) == model_of(b.txt_models, host),
    ensures
        mdns_observations(a, iface, n) == mdns_observations(b, iface, n),
    decreases n,
{
    if n > 0 {
        lemma_same_observations(a, b, iface, n - 1);
        let host = a.a_records[n - 1];
        assert(model_of(a.txt_models, host.0) == model_of(b.txt_models, host.0));
        lemma_same_host(a, b, iface, host.0, host.1, host.1.len() as int);
    }
}

/// Hearing a message twice reports what hearing it once does.
pub proof fn law_message_heard_twice_reports_the_same(
    k: RecordsModel,
    msg: Seq<RrModel>,
    iface: InterfaceModel,
    n: int,
)
    ensures
        mdns_observations(with_message(with_message(k, msg), msg), iface, n) == mdns_observations(
            with_message(k, msg),
            iface,
            n,
        ),
{
    law_message_heard_twice(k, msg);
    lemma_models(k, msg);
    lemma_known_models(with_message(k, msg), msg);
    lemma_same_observations(
        with_message(with_message(k, msg), msg),
        with_message(k, msg),
        iface,
        n,
    );
}

// ----- what is read back of what was written -----

/// A number in two bytes, the high one first.
pub open spec fn high_low(n: int) -> Seq<u8> {
    seq![(n / 256) as u8, (n % 256) as u8]
}

/// A name on the wire: each label behind its length, and a zero.
pub open spec fn wire_name(labels: Seq<Seq<u8>>) -> Seq<u8>
    decreases labels.len(),
{
    if labels.len() == 0 {
        seq![0u8]
    } else {
        seq![labels[0].len() as u8] + labels[0] + wire_name(labels.skip(1))
    }
}

/// Labels that can go on the wire.
pub open spec fn sendable(labels: Seq<Seq<u8>>) -> bool {
    labels.len() <= 128 && forall|i: int|
        0 <= i < labels.len() ==> 1 <= (#[trigger] labels[i]).len() <= 63
}

/// The text of labels, with dots between them.
pub open spec fn spoken(labels: Seq<Seq<u8>>) -> Seq<char> {
    text::join(labels.map_values(|l: Seq<u8>| bytes::lossy_text(l)), seq!['.'])
}

/// A record to put on the wire.
#[verifier::ext_equal]
pub struct WireRecord {
    pub name: Seq<Seq<u8>>,
    pub rtype: u16,
    pub class: u16,
    pub ttl: Seq<u8>,
    pub rdata: Seq<u8>,
}

impl WireRecord {
    /// The record fits its fields.
    pub open spec fn wf(self) -> bool {
        sendable(self.name) && self.ttl.len() == 4 && self.rdata.len() < 65536
    }
}

/// A record on the wire.
pub open spec fn wire_record(r: WireRecord) -> Seq<u8> {
    wire_name(r.name) + high_low(r.rtype as int) + high_low(r.class as int) + r.ttl + high_low(
        r.rdata.len() as int,
    ) + r.rdata
}

/// Records on the wire, one after the other.
pub open spec fn wire_records(rs: Seq<WireRecord>) -> Seq<u8>
    decreases rs.len(),
{
    if rs.len() == 0 {
        Seq::empty()
    } else {
        wire_record(rs[0]) + wire_records(rs.skip(1))
    }
}

/// Questions on the wire: a name, a type and a class each.
pub open spec fn wire_questions(qs: Seq<(Seq<Seq<u8>>, u16, u16)>) -> Seq<u8>
    decreases qs.len(),
{
    if qs.len() == 0 {
        Seq::empty()
    } else {
        wire_name(qs[0].0) + high_low(qs[0].1 as int) + high_low(qs[0].2 as int) + wire_questions(
            qs.skip(1),
        )
    }
}

/// A message on the wire: a header with the counts, the questions, the answers
/// and the additional records; there are no records of authority.
pub open spec fn wire_message(
    id: u16,
    flags: u16,
    qs: Seq<(Seq<Seq<u8>>, u16, u16)>,
    answers: Seq<WireRecord>,
    additional: Seq<WireRecord>,
) -> Seq<u8> {
    high_low(id as int) + high_low(flags as int) + high_low(qs.len() as int) + high_low(
        answers.len() as int,
    ) + high_low(0) + high_low(additional.len() as int) + wire_questions(qs) + wire_records(
        answers + additional,
    )
}

/// Bytes stand at a position.
spec fn stands(msg: Seq<u8>, pos: int, w: Seq<u8>) -> bool {
    0 <= pos && pos + w.len() <= msg.len() && msg.subrange(pos, pos + w.len()) == w
}

/// Where two runs of bytes stand together, each stands.
proof fn lemma_stands(msg: Seq<u8>, pos: int, a: Seq<u8>, b: Seq<u8>)
    requires
        stands(msg, pos, a + b),
    ensures
        stands(msg, pos, a),
        stands(msg, pos + a.len(), b),
{
    let w = a + b;
    let m = msg.subrange(pos, pos + w.len());
    assert(msg.subrange(pos, pos + a.len()) =~= a) by {
        assert forall|i: int| 0 <= i < a.len() implies msg.subrange(pos, pos + a.len())[i]
            == a[i] by {
            assert(m[i] == w[i]);
        }
    }
    assert(msg.subrange(pos + a.len(), pos + a.len() + b.len()) =~= b) by {
        assert forall|i: int| 0 <= i < b.len() implies msg.subrange(
            pos + a.len(),
            pos + a.len() + b.len(),
        )[i] == b[i] by {
            assert(m[a.len() + i] == w[a.len() + i]);
        }
    }
}

/// A byte of what stands at a position.
proof fn lemma_stands_at(msg: Seq<u8>, pos: int, w: Seq<u8>, i: int)
    requires
        stands(msg, pos, w),
        0 <= i < w.len(),
    ensures
        msg[pos + i] == w[i],
{
    assert(msg.subrange(pos, pos + w.len())[i] == w[i]);
}

/// A name that stands in a message is read, and so is where it ends.
proof fn lemma_name_read(msg: Seq<u8>, pos: int, labels: Seq<Seq<u8>>, jumps: nat, before: nat)
    requires
        stands(msg, pos, wire_name(labels)),
        jumps <= 32,
        before + labels.len() <= 128,
        forall|i: int| 0 <= i < labels.len() ==> 1 <= (#[trigger] labels[i]).len() <= 63,
    ensures
        name_labels(msg, pos, jumps) == Some(
            labels.map_values(|l: Seq<u8>| bytes::lossy_text(l)),
        ),
        name_end(msg, pos, before) == Some(pos + wire_name(labels).len()),
    decreases labels.len(),
{
    let texts = labels.map_values(|l: Seq<u8>| bytes::lossy_text(l));
    lemma_stands_at(msg, pos, wire_name(labels), 0);
    if labels.len() == 0 {
        assert(texts =~= Seq::<Seq<char>>::empty());
    } else {
        let head = seq![labels[0].len() as u8];
        let rest = labels.skip(1);
        let rest_texts = rest.map_values(|l: Seq<u8>| bytes::lossy_text(l));
        lemma_stands(msg, pos, head + labels[0], wire_name(rest));
        lemma_stands(msg, pos, head, labels[0]);
        assert(1 <= labels[0].len() <= 63);
        assert(msg[pos] == labels[0].len());
        assert forall|i: int| 0 <= i < rest.len() implies 1 <= (#[trigger] rest[i]).len() <= 63 by {
            assert(rest[i] == labels[i + 1]);
        }
        lemma_name_read(msg, pos + 1 + labels[0].len(), rest, jumps, before + 1);
        assert(msg.subrange(pos + 1, pos + 1 + labels[0].len()) == labels[0]);
        assert(texts =~= seq![bytes::lossy_text(labels[0])] + rest_texts);
    }
}

/// A number in two bytes that stands in a message is read.
proof fn lemma_number_read(msg: Seq<u8>, pos: int, n: int)
    requires
        stands(msg, pos, high_low(n)),
        0 <= n < 65536,
    ensures
        bytes::be16(msg, pos) == n,
        msg[pos] * 256 + msg[pos + 1] == n,
{
    lemma_stands_at(msg, pos, high_low(n), 0);
    lemma_stands_at(msg, pos, high_low(n), 1);
}

/// A record that stands in a message is read.
proof fn lemma_record_read(msg: Seq<u8>, off: int, r: WireRecord)
    requires
        stands(msg, off, wire_record(r)),
        r.wf(),
    ensures
        ({
            let end = off + wire_record(r).len();
            record_at(msg, off) == Ok::<(RrModel, int), Seq<char>>(
                (
                    RrModel {
                        name: spoken(r.name),
                        rtype: r.rtype,
                        rdata: r.rdata,
                        rdata_off: end - r.rdata.len(),
                        full_message: msg,
                    },
                    end,
                ),
            )
        }),
{
    let n = wire_name(r.name);
    let t = high_low(r.rtype as int);
    let c = high_low(r.class as int);
    let l = high_low(r.rdata.len() as int);
    lemma_stands(msg, off, n + t + c + r.ttl + l, r.rdata);
    lemma_stands(msg, off, n + t + c + r.ttl, l);
    lemma_stands(msg, off, n + t + c, r.ttl);
    lemma_stands(msg, off, n + t, c);
    lemma_stands(msg, off, n, t);
    lemma_name_read(msg, off, r.name, 0, 0);
    let end = off + n.len();
    lemma_number_read(msg, end, r.rtype as int);
    lemma_number_read(msg, end + 8, r.rdata.len() as int);
    assert(wire_record(r).len() == n.len() + 10 + r.rdata.len());
    assert(msg.subrange(end + 10, end + 10 + r.rdata.len()) == r.rdata);
}

/// A record that was read is the record that was written.
pub open spec fn reads_as(rr: RrModel, r: WireRecord) -> bool {
    rr.name == spoken(r.name) && rr.rtype == r.rtype && rr.rdata == r.rdata
}

/// Records that stand in a message are read in order.
proof fn lemma_records_read(msg: Seq<u8>, off: int, rs: Seq<WireRecord>)
    requires
        stands(msg, off, wire_records(rs)),
        forall|i: int| 0 <= i < rs.len() ==> (#[trigger] rs[i]).wf(),
    ensures
        records_from(msg, off, rs.len()) is Ok,
        records_from(msg, off, rs.len())->Ok_0.len() == rs.len(),
        forall|i: int|
            0 <= i < rs.len() ==> reads_as(
                #[trigger] records_from(msg, off, rs.len())->Ok_0[i],
                rs[i],
            ),
        forall|i: int|
            0 <= i < rs.len() ==> (#[trigger] records_from(msg, off, rs.len())->Ok_0[i]).full_message
                == msg,
    decreases rs.len(),
{
    if rs.len() > 0 {
        let rest = rs.skip(1);
        assert(rs[0].wf());
        lemma_stands(msg, off, wire_record(rs[0]), wire_records(rest));
        lemma_record_read(msg, off, rs[0]);
        let end = off + wire_record(rs[0]).len();
        assert forall|i: int| 0 <= i < rest.len() implies (#[trigger] rest[i]).wf() by {
            assert(rest[i] == rs[i + 1]);
        }
        lemma_records_read(msg, end, rest);
        let all = records_from(msg, off, rs.len())->Ok_0;
        let tail = records_from(msg, end, rest.len())->Ok_0;
        assert(rest.len() == rs.len() - 1);
        assert forall|i: int| 0 <= i < rs.len() implies reads_as(#[trigger] all[i], rs[i])
            && all[i].full_message == msg by {
            if i > 0 {
                assert(all[i] == tail[i - 1]);
                assert(rest[i - 1] == rs[i]);
            }
        }
    }
}

/// Questions that stand in a message are passed over.
proof fn lemma_questions_passed(msg: Seq<u8>, off: int, qs: Seq<(Seq<Seq<u8>>, u16, u16)>)
    requires
        stands(msg, off, wire_questions(qs)),
        forall|i: int| 0 <= i < qs.len() ==> sendable((#[trigger] qs[i]).0),
    ensures
        questions_end(msg, off, qs.len()) == Some(off + wire_questions(qs).len()),
    decreases qs.len(),
{
    if qs.len() > 0 {
        let rest = qs.skip(1);
        let n = wire_name(qs[0].0);
        let t = high_low(qs[0].1 as int);
        let c = high_low(qs[0].2 as int);
        assert(sendable(qs[0].0));
        lemma_stands(msg, off, n + t + c, wire_questions(rest));
        lemma_stands(msg, off, n + t, c);
        lemma_stands(msg, off, n, t);
        lemma_name_read(msg, off, qs[0].0, 0, 0);
        assert forall|i: int| 0 <= i < rest.len() implies sendable((#[trigger] rest[i]).0) by {
            assert(rest[i] == qs[i + 1]);
        }
        lemma_questions_passed(msg, off + n.len() + 4, rest);
    }
}

/// What stands where in a message.
proof fn lemma_wire_header(
    id: u16,
    flags: u16,
    qs: Seq<(Seq<Seq<u8>>, u16, u16)>,
    answers: Seq<WireRecord>,
    additional: Seq<WireRecord>,
)
    requires
        qs.len() < 65536,
        answers.len() < 65536,
        additional.len() < 65536,
    ensures
        ({
            let msg = wire_message(id, flags, qs, answers, additional);
            &&& msg.len() >= 12
            &&& bytes::be16(msg, 4) == qs.len()
            &&& bytes::be16(msg, 6) == answers.len()
            &&& bytes::be16(msg, 10) == additional.len()
            &&& stands(msg, 12, wire_questions(qs))
            &&& stands(msg, 12int + wire_questions(qs).len(), wire_records(answers + additional))
        }),
{
    let msg = wire_message(id, flags, qs, answers, additional);
    let q = wire_questions(qs);
    let r = wire_records(answers + additional);
    let h = high_low(id as int) + high_low(flags as int) + high_low(qs.len() as int) + high_low(
        answers.len() as int,
    ) + high_low(0) + high_low(additional.len() as int);
    assert(h.len() == 12);
    assert(msg == h + q + r);
    assert forall|i: int| 0 <= i < 12 implies msg[i] == h[i] by {}
    assert(h[4] == qs.len() / 256 && h[5] == qs.len() % 256);
    assert(h[6] == answers.len() / 256 && h[7] == answers.len() % 256);
    assert(h[10] == additional.len() / 256 && h[11] == additional.len() % 256);
    assert(msg.subrange(12, 12int + q.len()) =~= q);
    assert(msg.subrange(12int + q.len(), 12int + q.len() + r.len()) =~= r);
}

/// What is sent is read: a message with questions, answers and additional
/// records gives back exactly its answers and its additional records, in that
/// order, each with its name, type and data.
pub proof fn law_message_reads_back(
    id: u16,
    flags: u16,
    qs: Seq<(Seq<Seq<u8>>, u16, u16)>,
    answers: Seq<WireRecord>,
    additional: Seq<WireRecord>,
)
    requires
        qs.len() < 65536,
        answers.len() < 65536,
        additional.len() < 65536,
        forall|i: int| 0 <= i < qs.len() ==> sendable((#[trigger] qs[i]).0),
        forall|i: int| 0 <= i < answers.len() ==> (#[trigger] answers[i]).wf(),
        forall|i: int| 0 <= i < additional.len() ==> (#[trigger] additional[i]).wf(),
    ensures
        ({
            let read = message_of(wire_message(id, flags, qs, answers, additional));
            &&& read is Ok
            &&& read->Ok_0.len() == answers.len() + additional.len()
            &&& forall|i: int|
                0 <= i < answers.len() ==> reads_as(#[trigger] read->Ok_0[i], answers[i])
            &&& forall|i: int|
                0 <= i < additional.len() ==> reads_as(
                    read->Ok_0[answers.len() + i],
                    #[trigger] additional[i],
                )
        }),
{
    let msg = wire_message(id, flags, qs, answers, additional);
    let rs = answers + additional;
    lemma_wire_header(id, flags, qs, answers, additional);
    lemma_questions_passed(msg, 12, qs);
    assert forall|i: int| 0 <= i < rs.len() implies (#[trigger] rs[i]).wf() by {
        if i < answers.len() {
            assert(rs[i] == answers[i]);
        } else {
            assert(rs[i] == additional[i - answers.len()]);
        }
    }
    lemma_records_read(msg, 12int + wire_questions(qs).len(), rs);
    let read = message_of(msg)->Ok_0;
    assert forall|i: int| 0 <= i < answers.len() implies reads_as(
        #[trigger] read[i],
        answers[i],
    ) by {
        assert(rs[i] == answers[i]);
    }
    assert forall|i: int| 0 <= i < additional.len() implies reads_as(
        read[answers.len() + i],
        #[trigger] additional[i],
    ) by {
        assert(rs[answers.len() + i] == additional[i]);
    }
}

/// So many records are read as are asked for.
proof fn lemma_record_count(msg: Seq<u8>, off: int, count: nat)
    ensures
        records_from(msg, off, count) is Ok ==> records_from(msg, off, count)->Ok_0.len() == count,
    decreases count,
{
    if count > 0 {
        match record_at(msg, off) {
            Ok((rr, end)) => lemma_record_count(msg, end, (count - 1) as nat),
            Err(e) => {},
        }
    }
}

/// Whatever the message, what was read of it is as many records as its header
/// announces, answers and additional records together.
pub proof fn law_announced_records_are_read(msg: Seq<u8>)
    requires
        message_of(msg) is Ok,
    ensures
        msg.len() >= 12,
        message_of(msg)->Ok_0.len() == msg[6] * 256 + msg[7] + msg[10] * 256 + msg[11],
{
    match questions_end(msg, 12, bytes::be16(msg, 4) as nat) {
        Some(off) => lemma_record_count(
            msg,
            off,
            (bytes::be16(msg, 6) + bytes::be16(msg, 10)) as nat,
        ),
        None => {},
    }
}

/// A name that refers elsewhere is the name that stands there, and takes two
/// bytes itself.
pub proof fn law_compressed_name_reads_the_same(
    msg: Seq<u8>,
    pos: int,
    target: int,
    labels: Seq<Seq<u8>>,
)
    requires
        sendable(labels),
        0 <= target < 16384,
        target + wire_name(labels).len() <= msg.len(),
        msg.subrange(target, target + wire_name(labels).len()) == wire_name(labels),
        0 <= pos,
        pos + 1 < msg.len(),
        msg[pos] == 192 + target / 256,
        msg[pos + 1] == target % 256,
    ensures
        name_in(msg, pos) == Some(spoken(labels)),
        name_in(msg, target) == Some(spoken(labels)),
        name_end(msg, pos, 0) == Some(pos + 2),
{
    lemma_name_read(msg, target, labels, 0, 0);
    lemma_name_read(msg, target, labels, 1, 0);
    assert((msg[pos] - 0xc0) * 256 + msg[pos + 1] == target);
}

/// What a record of an address says: the host has the address that its four
/// bytes spell, it had no other that it had not before, and no other host
/// gained one. Nothing else is learned of it.
pub proof fn law_address_record_is_learned(k: RecordsModel, rr: RrModel)
    requires
        rr.rtype == 1,
        rr.rdata.len() == 4,
    ensures
        ({
            let n = with_record(k, rr);
            let ip = crate::num::dec(rr.rdata[0] as nat) + seq!['.'] + crate::num::dec(
                rr.rdata[1] as nat,
            ) + seq!['.'] + crate::num::dec(rr.rdata[2] as nat) + seq!['.'] + crate::num::dec(
                rr.rdata[3] as nat,
            );
            &&& n.srv_targets == k.srv_targets
            &&& n.txt_models == k.txt_models
            &&& exists|i: int|
                0 <= i < n.a_records.len() && (#[trigger] n.a_records[i]).0 == rr.name
                    && n.a_records[i].1.contains(ip)
            &&& forall|i: int, x: Seq<char>|
                0 <= i < n.a_records.len() && #[trigger] n.a_records[i].1.contains(x) ==> (
                n.a_records[i].0 == rr.name && x == ip) || (i < k.a_records.len()
                    && k.a_records[i].0 == n.a_records[i].0 && k.a_records[i].1.contains(x))
        }),
{
    let n = with_record(k, rr);
    let ip = address_text(rr.rdata);
    let t = with_address(k.a_records, rr.name, ip);
    lemma_address_text(rr.rdata);
    lemma_one_address_more(k.a_records, rr.name, ip);
    assert(n.a_records == t);
    let i = choose|i: int| 0 <= i < t.len() && (#[trigger] t[i]).0 == rr.name && t[i].1.contains(ip);
    assert(n.a_records[i].0 == rr.name && n.a_records[i].1.contains(ip));
    assert forall|i: int, x: Seq<char>|
        0 <= i < n.a_records.len() && #[trigger] n.a_records[i].1.contains(x) implies (
    n.a_records[i].0 == rr.name && x == ip) || (i < k.a_records.len() && k.a_records[i].0
        == n.a_records[i].0 && k.a_records[i].1.contains(x)) by {
        assert(t[i].1.contains(x));
    }
}

/// The text of four bytes.
#[verifier::spinoff_prover]
proof fn lemma_address_text(b: Seq<u8>)
    requires
        b.len() == 4,
    ensures
        address_text(b) == crate::num::dec(b[0] as nat) + seq!['.'] + crate::num::dec(b[1] as nat)
            + seq!['.'] + crate::num::dec(b[2] as nat) + seq!['.'] + crate::num::dec(b[3] as nat),
{
    let (b0, b1, b2, b3) = (b[0] as int, b[1] as int, b[2] as int, b[3] as int);
    let q = util::quad(b[0] as nat, b[1] as nat, b[2] as nat, b[3] as nat);
    assert(q == b0 * 0x100_0000 + b1 * 0x1_0000 + b2 * 0x100 + b3);
    assert(q / 0x100_0000 == b0);
    assert(q / 0x1_0000 == b0 * 0x100 + b1);
    assert(q / 0x100 == b0 * 0x1_0000 + b1 * 0x100 + b2);
    assert(q / 0x1_0000 % 0x100 == b1);
    assert(q / 0x100 % 0x100 == b2);
    assert(q % 0x100 == b3);
}

/// What one address more adds.
proof fn lemma_one_address_more(
    s: Seq<(Seq<char>, Seq<Seq<char>>)>,
    name: Seq<char>,
    ip: Seq<char>,
)
    ensures
        ({
            let t = with_address(s, name, ip);
            &&& exists|i: int|
                0 <= i < t.len() && (#[trigger] t[i]).0 == name && t[i].1.contains(ip)
            &&& forall|i: int, x: Seq<char>|
                0 <= i < t.len() && #[trigger] t[i].1.contains(x) ==> (t[i].0 == name && x == ip)
                    || (i < s.len() && s[i].0 == t[i].0 && s[i].1.contains(x))
        }),
{
    let t = with_address(s, name, ip);
    seqs::lemma_first_found(s, about_host(name));
    match seqs::first_where(s, about_host(name)) {
        Some(i) => {
            text::lemma_push_contains(s[i].1, ip);
            assert(t[i].0 == name && t[i].1.contains(ip));
        },
        None => {
            assert(t[s.len() as int].1[0] == ip);
            assert(t[s.len() as int].1.contains(ip));
        },
    }
    assert forall|i: int, x: Seq<char>|
        0 <= i < t.len() && #[trigger] t[i].1.contains(x) implies (t[i].0 == name && x == ip) || (i
        < s.len() && s[i].0 == t[i].0 && s[i].1.contains(x)) by {
        if i >= s.len() {
            let m = choose|m: int| 0 <= m < t[i].1.len() && t[i].1[m] == x;
            assert(t[i].1 == seq![ip]);
        }
    }
}

/// What a service record says: the name of the host behind the priority,
/// weight and port.
pub proof fn law_service_record_is_learned(k: RecordsModel, rr: RrModel, labels: Seq<Seq<u8>>)
    requires
        rr.rtype == 33,
        sendable(labels),
        0 <= rr.rdata_off,
        rr.rdata_off + 6 + wire_name(labels).len() <= rr.full_message.len(),
        rr.full_message.subrange(rr.rdata_off + 6, rr.rdata_off + 6 + wire_name(labels).len())
            == wire_name(labels),
    ensures
        with_record(k, rr) == (RecordsModel {
            a_records: k.a_records,
            srv_targets: k.srv_targets.push(spoken(labels)),
            txt_models: k.txt_models,
        }),
{
    lemma_name_read(rr.full_message, rr.rdata_off + 6, labels, 0, 0);
}

/// What a position further on holds, read from there or from the start of what
/// is left.
proof fn lemma_model_shift(rdata: Seq<u8>, from: int, i: int)
    requires
        0 <= from <= rdata.len(),
        0 <= i,
    ensures
        model_from(rdata, from + i) == model_from(rdata.skip(from), i),
    decreases rdata.len() - i,
{
    let rest = rdata.skip(from);
    if i < rest.len() {
        assert(rest[i] == rdata[from + i]);
        if i + 1 + rest[i] <= rest.len() {
            assert(rest.subrange(i + 1, i + 1 + rest[i]) =~= rdata.subrange(
                from + i + 1,
                from + i + 1 + rest[i],
            ));
            lemma_model_shift(rdata, from, i + 1 + rest[i]);
        }
    }
}

/// A text record names a model where one of its strings does: the first string
/// that begins with one of the three keys and says something gives it, and one
/// that begins with none of them is passed over.
pub proof fn law_text_record_names_a_model(s: Seq<u8>, rest: Seq<u8>, value: Seq<char>)
    requires
        s.len() <= 255,
    ensures
        ({
            let t = bytes::lossy_text(s);
            let model = model_from(seq![s.len() as u8] + s + rest, 0);
            &&& value.len() > 0 && value[0] != '"' && value.last() != '"' && (t == "model="@ + value
                || t == "device_description="@ + value || t == "am="@ + value) ==> model == Some(
                value,
            )
            &&& !text::begins(t, "model="@) && !text::begins(t, "device_description="@)
                && !text::begins(t, "am="@) ==> model == model_from(rest, 0)
        }),
{
    let rdata = seq![s.len() as u8] + s + rest;
    let t = bytes::lossy_text(s);
    assert(rdata[0] == s.len());
    assert(rdata.subrange(1, 1int + s.len()) =~= s);
    lemma_model_shift(rdata, 1int + s.len(), 0);
    assert(rdata.skip(1int + s.len()) =~= rest);
    reveal_strlit("model=");
    reveal_strlit("device_description=");
    reveal_strlit("am=");
    if value.len() > 0 && value[0] != '"' && value.last() != '"' {
        lemma_value_after("model="@, value);
        lemma_value_after("device_description="@, value);
        lemma_value_after("am="@, value);
        if t == "device_description="@ + value {
            lemma_begins_otherwise(t, "model="@);
        } else if t == "am="@ + value {
            lemma_begins_otherwise(t, "model="@);
            lemma_begins_otherwise(t, "device_description="@);
        }
    }
}

/// A value is read behind its key.
proof fn lemma_value_after(key: Seq<char>, value: Seq<char>)
    requires
        value.len() > 0,
        value[0] != '"',
        value.last() != '"',
    ensures
        value_after(key + value, key) == Some(value),
{
    let s = key + value;
    assert(s.skip(key.len() as int) =~= value);
    assert(text::begins(s, key)) by {
        assert(s.subrange(0, key.len() as int) =~= key);
    }
}

/// A text that begins with another letter does not begin with a key.
proof fn lemma_begins_otherwise(s: Seq<char>, key: Seq<char>)
    requires
        s.len() > 0,
        key.len() > 0,
        s[0] != key[0],
    ensures
        !text::begins(s, key),
        value_after(s, key) is None,
{
    if text::begins(s, key) {
        assert(s.subrange(0, key.len() as int)[0] == s[0]);
    }
}

/// A host that ends in `.local` is called by what stands before it, and any
/// other by its whole name.
pub proof fn law_domain_is_dropped(name: Seq<char>, other: Seq<char>)
    requires
        other.len() < 6 || other.subrange(other.len() - 6, other.len() as int) != ".local"@,
    ensures
        bare_name(name + ".local"@) == name,
        bare_name(other) == other,
{
    reveal_strlit(".local");
    let s = name + ".local"@;
    assert(s.skip(s.len() - 6) =~= ".local"@);
    assert(s.take(s.len() - 6) =~= name);
    if other.len() >= 6 {
        assert(other.skip(other.len() - 6) =~= other.subrange(
            other.len() - 6,
            other.len() as int,
        ));
    }
}

/// The model of a host is the first that was told of it.
pub proof fn law_first_model_counts(s: Seq<(Seq<char>, Seq<char>)>, name: Seq<char>)
    ensures
        match model_of(s, name) {
            Some(model) => exists|i: int|
                0 <= i < s.len() && (#[trigger] s[i]).0 == name && s[i].1 == model && forall|j: int|
                    0 <= j < i ==> (#[trigger] s[j]).0 != name,
            None => forall|j: int| 0 <= j < s.len() ==> (#[trigger] s[j]).0 != name,
        },
{
    let p = model_about(name);
    seqs::lemma_first_found(s, p);
    match seqs::first_where(s, p) {
        Some(i) => {
            assert(p(s[i]));
            assert forall|j: int| 0 <= j < i implies (#[trigger] s[j]).0 != name by {
                assert(!p(s[j]));
            }
            assert(s[i].0 == name);
        },
        None => {
            assert forall|j: int| 0 <= j < s.len() implies (#[trigger] s[j]).0 != name by {
                assert(!p(s[j]));
            }
        },
    }
}

/// What is observed of a host: each of its addresses on the link.
proof fn lemma_host_observed(
    k: RecordsModel,
    iface: InterfaceModel,
    hostname: Seq<char>,
    ips: Seq<Seq<char>>,
    n: int,
    o: ObservationModel,
)
    requires
        0 <= n <= ips.len(),
    ensures
        host_observations(k, iface, hostname, ips, n).contains(o) <==> exists|j: int|
            0 <= j < n && util::on_link(#[trigger] ips[j], iface.ipv4) && o == mdns_observation(
                k,
                hostname,
                ips[j],
            ),
    decreases n,
{
    if n > 0 {
        lemma_host_observed(k, iface, hostname, ips, n - 1, o);
        let rest = host_observations(k, iface, hostname, ips, n - 1);
        let all = host_observations(k, iface, hostname, ips, n);
        if util::on_link(ips[n - 1], iface.ipv4) {
            text::lemma_push_contains(rest, all.last());
            assert(all.contains(o) <==> rest.contains(o) || o == all.last());
        }
    }
}

/// What is reported: every address on the link of every host that was heard,
/// under the host's name without the domain, with the model told of the host as
/// its maker; and nothing else.
pub proof fn law_every_host_is_reported(
    k: RecordsModel,
    iface: InterfaceModel,
    n: int,
    o: ObservationModel,
)
    requires
        0 <= n <= k.a_records.len(),
    ensures
        mdns_observations(k, iface, n).contains(o) <==> exists|i: int, j: int|
            0 <= i < n && 0 <= j < k.a_records[i].1.len() && util::on_link(
                #[trigger] k.a_records[i].1[j],
                iface.ipv4,
            ) && o == (ObservationModel {
                ip: k.a_records[i].1[j],
                mac: None,
                name: Some((NameSource::Mdns, bare_name(k.a_records[i].0))),
                vendor: model_of(k.txt_models, k.a_records[i].0),
                source: "mdns"@,
                confidence: 90,
            }),
    decreases n,
{
    if n > 0 {
        law_every_host_is_reported(k, iface, n - 1, o);
        let a = mdns_observations(k, iface, n - 1);
        let name = k.a_records[n - 1].0;
        let ips = k.a_records[n - 1].1;
        let b = host_observations(k, iface, name, ips, ips.len() as int);
        lemma_host_observed(k, iface, name, ips, ips.len() as int, o);
        assert((a + b).contains(o) <==> a.contains(o) || b.contains(o)) by {
            if (a + b).contains(o) {
                let x = choose|x: int| 0 <= x < (a + b).len() && (a + b)[x] == o;
                if x < a.len() {
                    assert(a[x] == o);
                } else {
                    assert(b[x - a.len()] == o);
                }
            }
            if a.contains(o) {
                let x = choose|x: int| 0 <= x < a.len() && a[x] == o;
                assert((a + b)[x] == o);
            }
            if b.contains(o) {
                let x = choose|x: int| 0 <= x < b.len() && b[x] == o;
                assert((a + b)[a.len() + x] == o);
            }
        }
        if b.contains(o) {
            let j = choose|j: int|
                0 <= j < ips.len() && util::on_link(#[trigger] ips[j], iface.ipv4) && o
                    == mdns_observation(k, name, ips[j]);
            assert(util::on_link(k.a_records[n - 1].1[j], iface.ipv4));
        }
    }
}

/// A query asks one question: the header counts one and nothing else, and the
/// question is of type PTR and class IN.
pub proof fn law_query_asks_one_question(id: u16, qname: Seq<char>)
    ensures
        ({
            let q = query_bytes(id, qname);
            &&& q.len() >= 16
            &&& bytes::be16(q, 0) == id
            &&& bytes::be16(q, 2) == 0
            &&& bytes::be16(q, 4) == 1
            &&& bytes::be16(q, 6) == 0
            &&& bytes::be16(q, 8) == 0
            &&& bytes::be16(q, 10) == 0
            &&& bytes::be16(q, q.len() - 4) == 12
            &&& bytes::be16(q, q.len() - 2) == 1
        }),
{
    let q = query_bytes(id, qname);
    bytes::law_two_bytes_read_back(id);
    assert(q[0] == bytes::two_bytes(id)[0] && q[1] == bytes::two_bytes(id)[1]);
}

} // verus!
