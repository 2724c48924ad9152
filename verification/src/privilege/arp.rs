//! ARP on the wire, and the interface to send it from.

use vstd::prelude::*;
use vstd::string::*;

use crate::bytes::{push_be16, push_bytes};
use crate::netenv::linux;
use crate::netenv::linux::{count_ones, parse_hex32, swap_bytes, table_columns};
use crate::num;
use crate::num::{parse_unsigned, push_hex2};
use crate::text;
use crate::text::{chars_of, split_chars, string_of, trim_chars};

verus! {

/// The four bytes of an address, the first octet first.
pub open spec fn address_bytes(a: u32) -> Seq<u8> {
    seq![
        (a / 0x100_0000) as u8,
        (a / 0x1_0000 % 0x100) as u8,
        (a / 0x100 % 0x100) as u8,
        (a % 0x100) as u8,
    ]
}

/// An Ethernet broadcast with an ARP request for an address.
pub open spec fn request_for(src_mac: Seq<u8>, src_ip: u32, dst_ip: u32) -> Seq<u8> {
    seq![0xffu8, 0xff, 0xff, 0xff, 0xff, 0xff] + src_mac + seq![
        8u8,
        6,
        0,
        1,
        8,
        0,
        6,
        4,
        0,
        1,
    ] + src_mac + address_bytes(src_ip) + seq![0u8, 0, 0, 0, 0, 0] + address_bytes(dst_ip)
}

/// Append an address.
fn push_address(out: &mut Vec<u8>, a: u32)
    ensures
        final(out)@ == old(out)@ + address_bytes(a),
{
    out.push((a / 0x100_0000) as u8);
    out.push((a / 0x1_0000 % 0x100) as u8);
    out.push((a / 0x100 % 0x100) as u8);
    out.push((a % 0x100) as u8);
}

/// Append the same byte six times.
fn push_six(out: &mut Vec<u8>, b: u8)
    ensures
        final(out)@ == old(out)@ + seq![b, b, b, b, b, b],
{
    out.push(b);
    out.push(b);
    out.push(b);
    out.push(b);
    out.push(b);
    out.push(b);
}

/// Build the frame that asks everyone on the link who has an address.
pub fn request_frame(src_mac: &[u8], src_ip: u32, dst_ip: u32) -> (r: Vec<u8>)
    requires
        src_mac@.len() == 6,
    ensures
        r@ == request_for(src_mac@, src_ip, dst_ip),
        r@.len() == 42,
{
    let mut f: Vec<u8> = Vec::new();
    push_six(&mut f, 0xff);  // destination: broadcast
    push_bytes(&mut f, src_mac);
    push_be16(&mut f, 0x0806);  // ethertype: ARP
    push_be16(&mut f, 1);  // hardware: Ethernet
    push_be16(&mut f, 0x0800);  // protocol: IPv4
    f.push(6);  // hardware address length
    f.push(4);  // protocol address length
    push_be16(&mut f, 1);  // operation: request
    push_bytes(&mut f, src_mac);
    push_address(&mut f, src_ip);
    push_six(&mut f, 0);  // target hardware address: unknown
    push_address(&mut f, dst_ip);
    assert(f@ == request_for(src_mac@, src_ip, dst_ip));
    f
}

/// Bytes in hexadecimal with colons between them.
pub open spec fn colon_hex(b: Seq<u8>) -> Seq<char>
    decreases b.len(),
{
    if b.len() == 0 {
        Seq::empty()
    } else if b.len() == 1 {
        num::hex2(b[0])
    } else {
        colon_hex(b.drop_last()) + seq![':'] + num::hex2(b.last())
    }
}

/// A frame is an ARP reply from an address: a whole frame with the ARP
/// ethertype, the reply operation and that sender.
pub open spec fn replies_for(frame: Seq<u8>, ip: u32) -> bool {
    &&& frame.len() >= 42
    &&& frame[12] == 8
    &&& frame[13] == 6
    &&& frame[20] == 0
    &&& frame[21] == 2
    &&& frame.subrange(28, 32) == address_bytes(ip)
}

/// The MAC that a frame gives for an address.
pub open spec fn reply_mac_of(frame: Seq<u8>, ip: u32) -> Option<Seq<char>> {
    if replies_for(frame, ip) {
        Some(colon_hex(frame.subrange(22, 28)))
    } else {
        None
    }
}

/// Read the MAC that a frame gives for an address.
pub fn reply_mac(frame: &[u8], ip: u32) -> (r: Option<String>)
    ensures
        r.deep_view() == reply_mac_of(frame@, ip),
{
    if frame.len() < 42 || frame[12] != 8 || frame[13] != 6 || frame[20] != 0 || frame[21] != 2 {
        return None;
    }
    let same = frame[28] == (ip / 0x100_0000) as u8 && frame[29] == (ip / 0x1_0000 % 0x100) as u8
        && frame[30] == (ip / 0x100 % 0x100) as u8 && frame[31] == (ip % 0x100) as u8;
    proof {
        let s = frame@.subrange(28, 32);
        let t = address_bytes(ip);
        assert(s[0] == frame@[28] && s[1] == frame@[29] && s[2] == frame@[30] && s[3]
            == frame@[31]);
        if same {
            assert(s == t);
        } else {
            assert(s[0] != t[0] || s[1] != t[1] || s[2] != t[2] || s[3] != t[3]);
        }
    }
    if !same {
        return None;
    }
    let ghost b = frame@.subrange(22, 28);
    let mut out = String::new();
    let mut i: usize = 0;
    while i < 6
        invariant
            i <= 6,
            frame@.len() >= 42,
            b == frame@.subrange(22, 28),
            out@ == colon_hex(b.take(i as int)),
        decreases 6 - i,
    {
        if i > 0 {
            out.push(':');
        }
        push_hex2(&mut out, frame[22 + i]);
        assert(b.take(i + 1).drop_last() == b.take(i as int));
        assert(b.take(i + 1).last() == frame@[22 + i]);
        assert(out@ == colon_hex(b.take(i + 1)));
        i = i + 1;
    }
    assert(b.take(6) == b);
    Some(out)
}

// ----- the interface -----

/// A route: its interface and how many bits of the destination it fixes, if
/// it leads to an address.
pub open spec fn route_to(cols: Seq<Seq<char>>, dst: u32) -> Option<(nat, Seq<char>)> {
    if cols.len() < 8 {
        None
    } else {
        match (linux::hex32(cols[7]), linux::hex32(cols[1])) {
            (Some(mask), Some(dest)) => {
                let m = linux::swapped(mask as u32);
                if dst & m == linux::swapped(dest as u32) {
                    Some((linux::ones(m as nat), cols[0]))
                } else {
                    None
                }
            },
            _ => None,
        }
    }
}

/// The most specific route to an address among lines, the first of several.
pub open spec fn best_route_of(lines: Seq<Seq<char>>, dst: u32) -> Option<(nat, Seq<char>)>
    decreases lines.len(),
{
    if lines.len() == 0 {
        None
    } else {
        let rest = best_route_of(lines.drop_last(), dst);
        match route_to(text::words(lines.last()), dst) {
            Some(r) => if rest is None || r.0 > rest.unwrap().0 {
                Some(r)
            } else {
                rest
            },
            None => rest,
        }
    }
}

/// Read the route that columns describe, if it leads to an address.
fn parse_route_to(cols: &Vec<String>, dst: u32) -> (r: Option<(u8, String)>)
    ensures
        match r {
            Some(x) => route_to(cols.deep_view(), dst) == Some((x.0 as nat, x.1@)),
            None => route_to(cols.deep_view(), dst) is None,
        },
{
    let ghost all = cols.deep_view();
    if cols.len() < 8 {
        return None;
    }
    assert(all[0] == cols@[0]@ && all[1] == cols@[1]@ && all[7] == cols@[7]@);
    let mask: u32 = match parse_hex32(cols[7].as_str()) {
        Some(n) => swap_bytes(n),
        None => {
            return None;
        },
    };
    let dest: u32 = match parse_hex32(cols[1].as_str()) {
        Some(n) => swap_bytes(n),
        None => {
            return None;
        },
    };
    if dst & mask == dest {
        Some((count_ones(mask), cols[0].clone()))
    } else {
        None
    }
}

/// Find the interface that routes to an address in `/proc/net/route`: the
/// most specific match, which is the default route's where none is closer.
pub fn route_interface(table: &str, dst: u32) -> (r: Option<String>)
    ensures
        r.deep_view() == (match best_route_of(linux::body_lines(table@), dst) {
            Some(x) => Some(x.1),
            None => None,
        }),
{
    let rows = table_columns(table);
    let ghost body = linux::body_lines(table@);
    let mut best: Option<(u8, String)> = None;
    let mut i: usize = 0;
    assert(rows.deep_view().len() == body.len());
    while i < rows.len()
        invariant
            i <= rows.len(),
            body == linux::body_lines(table@),
            rows.deep_view() == Seq::new(body.len(), |k: int| text::words(body[k])),
            rows@.len() == body.len(),
            match best {
                Some(b) => best_route_of(body.take(i as int), dst) == Some((b.0 as nat, b.1@)),
                None => best_route_of(body.take(i as int), dst) is None,
            },
        decreases rows.len() - i,
    {
        assert(rows.deep_view()[i as int] == rows@[i as int].deep_view());
        assert(body.take(i + 1).drop_last() == body.take(i as int));
        assert(body.take(i + 1).last() == body[i as int]);
        if let Some(route) = parse_route_to(&rows[i], dst) {
            let better = match &best {
                Some(b) => route.0 > b.0,
                None => true,
            };
            if better {
                best = Some(route);
            }
        }
        i = i + 1;
    }
    assert(body.take(body.len() as int) == body);
    match best {
        Some(b) => Some(b.1),
        None => None,
    }
}

/// The bytes that the pieces of a hardware address spell; a piece that is no
/// byte is left out.
pub open spec fn piece_bytes(pieces: Seq<Seq<char>>) -> Seq<u8>
    decreases pieces.len(),
{
    if pieces.len() == 0 {
        Seq::empty()
    } else {
        let rest = piece_bytes(pieces.drop_last());
        match num::unsigned_text(pieces.last(), 16, 255) {
            Some(b) => rest.push(b as u8),
            None => rest,
        }
    }
}

/// The hardware address that a text spells: six bytes.
pub open spec fn hardware_address_of(s: Seq<char>) -> Option<Seq<u8>> {
    let b = piece_bytes(text::split(text::trimmed(s), ':'));
    if b.len() == 6 {
        Some(b)
    } else {
        None
    }
}

/// Read an interface's hardware address as sysfs spells it.
pub fn parse_hardware_address(s: &str) -> (r: Option<Vec<u8>>)
    ensures
        match r {
            Some(b) => hardware_address_of(s@) == Some(b@),
            None => hardware_address_of(s@) is None,
        },
{
    let pieces = split_chars(&trim_chars(&chars_of(s)), ':');
    let ghost all = pieces.deep_view();
    let mut out: Vec<u8> = Vec::new();
    let mut i: usize = 0;
    while i < pieces.len()
        invariant
            i <= pieces.len(),
            all == pieces.deep_view(),
            out@ == piece_bytes(all.take(i as int)),
        decreases pieces.len() - i,
    {
        proof {
            crate::seqs::lemma_chars_deep_view(pieces@[i as int]);
        }
        assert(all[i as int] == pieces@[i as int]@);
        assert(all.take(i + 1).drop_last() == all.take(i as int));
        assert(all.take(i + 1).last() == all[i as int]);
        if let Some(b) = parse_unsigned(string_of(&pieces[i]).as_str(), 16, 255) {
            out.push(b as u8);
        }
        i = i + 1;
    }
    assert(all.take(all.len() as int) == all);
    if out.len() == 6 {
        Some(out)
    } else {
        None
    }
}

/// A reply is read as the one who answered wrote it: the frame that answers a
/// request for an address gives the sender's hardware address.
pub proof fn law_reply_names_the_sender(frame: Seq<u8>, ip: u32)
    requires
        replies_for(frame, ip),
    ensures
        reply_mac_of(frame, ip) == Some(colon_hex(frame.subrange(22, 28))),
        forall|other: u32| other != ip ==> (#[trigger] reply_mac_of(frame, other)) is None,
{
    assert forall|other: u32| other != ip implies (#[trigger] reply_mac_of(frame, other)) is None by {
        let a = address_bytes(ip);
        let b = address_bytes(other);
        if a == b {
            lemma_address_told(ip);
            lemma_address_told(other);
            assert(ip == other);
        }
    }
}

/// An address is told by its bytes.
#[verifier::spinoff_prover]
proof fn lemma_address_told(a: u32)
    ensures
        ({
            let b = address_bytes(a);
            b[0] * 0x100_0000 + b[1] * 0x1_0000 + b[2] * 0x100 + b[3] == a
        }),
{
    let b = address_bytes(a);
    assert(b[0] == a / 0x100_0000);
    assert(b[1] == a / 0x1_0000 % 0x100);
    assert(b[2] == a / 0x100 % 0x100);
    assert(b[3] == a % 0x100);
    assert(a / 0x100 == a / 0x1_0000 * 0x100 + b[2]);
    assert(a / 0x1_0000 == a / 0x100_0000 * 0x100 + b[1]);
}


/// A request, byte by byte: to everyone, from the sender, an ARP request for an
/// IPv4 address over Ethernet, with the sender's two addresses, no hardware
/// address for the target, and the address that is asked for.
pub proof fn law_request_layout(src_mac: Seq<u8>, src_ip: u32, dst_ip: u32)
    requires
        src_mac.len() == 6,
    ensures
        ({
            let f = request_for(src_mac, src_ip, dst_ip);
            &&& f.len() == 42
            &&& f.take(6) == seq![0xffu8, 0xff, 0xff, 0xff, 0xff, 0xff]
            &&& f.subrange(6, 12) == src_mac
            &&& crate::bytes::be16(f, 12) == 0x0806
            &&& crate::bytes::be16(f, 14) == 1
            &&& crate::bytes::be16(f, 16) == 0x0800
            &&& f[18] == 6
            &&& f[19] == 4
            &&& crate::bytes::be16(f, 20) == 1
            &&& f.subrange(22, 28) == src_mac
            &&& crate::bytes::be16(f, 28) * 0x1_0000 + crate::bytes::be16(f, 30) == src_ip
            &&& f.subrange(32, 38) == seq![0u8, 0, 0, 0, 0, 0]
            &&& crate::bytes::be16(f, 38) * 0x1_0000 + crate::bytes::be16(f, 40) == dst_ip
        }),
{
    let f = request_for(src_mac, src_ip, dst_ip);
    assert(f.take(6) =~= seq![0xffu8, 0xff, 0xff, 0xff, 0xff, 0xff]);
    assert(f.subrange(6, 12) =~= src_mac);
    assert(f.subrange(22, 28) =~= src_mac);
    assert(f.subrange(32, 38) =~= seq![0u8, 0, 0, 0, 0, 0]);
    let a = address_bytes(src_ip);
    let b = address_bytes(dst_ip);
    lemma_address_told(src_ip);
    lemma_address_told(dst_ip);
    assert(f[28] == a[0] && f[29] == a[1] && f[30] == a[2] && f[31] == a[3]);
    assert(f[38] == b[0] && f[39] == b[1] && f[40] == b[2] && f[41] == b[3]);
}

/// The answer that a host gives to a request: back to the one who asked, with
/// the reply operation, the host's two addresses and then those of the one who
/// asked.
pub open spec fn answer_frame(asker_mac: Seq<u8>, asker_ip: u32, mac: Seq<u8>, ip: u32) -> Seq<u8> {
    asker_mac + mac + seq![8u8, 6, 0, 1, 8, 0, 6, 4, 0, 2] + mac + address_bytes(ip) + asker_mac
        + address_bytes(asker_ip)
}

/// An answer to a request gives the MAC of the host that answers, as six pairs
/// of hexadecimal digits; a request gives none.
pub proof fn law_answer_is_understood(
    asker_mac: Seq<u8>,
    asker_ip: u32,
    mac: Seq<u8>,
    ip: u32,
    trailer: Seq<u8>,
)
    requires
        asker_mac.len() == 6,
        mac.len() == 6,
    ensures
        reply_mac_of(answer_frame(asker_mac, asker_ip, mac, ip) + trailer, ip) == Some(
            num::hex2(mac[0]) + seq![':'] + num::hex2(mac[1]) + seq![':'] + num::hex2(mac[2])
                + seq![':'] + num::hex2(mac[3]) + seq![':'] + num::hex2(mac[4]) + seq![':']
                + num::hex2(mac[5]),
        ),
        reply_mac_of(request_for(asker_mac, asker_ip, ip), ip) is None,
        reply_mac_of(request_for(asker_mac, asker_ip, ip), asker_ip) is None,
{
    let f = answer_frame(asker_mac, asker_ip, mac, ip) + trailer;
    assert(f.subrange(28, 32) =~= address_bytes(ip));
    assert(f.subrange(22, 28) =~= mac);
    assert(f[12] == 8 && f[13] == 6 && f[20] == 0 && f[21] == 2);
    reveal_with_fuel(colon_hex, 7);
    assert(mac.drop_last() =~= mac.take(5));
    assert(mac.take(5).drop_last() =~= mac.take(4));
    assert(mac.take(4).drop_last() =~= mac.take(3));
    assert(mac.take(3).drop_last() =~= mac.take(2));
    assert(mac.take(2).drop_last() =~= mac.take(1));
    let q = request_for(asker_mac, asker_ip, ip);
    assert(q[21] == 1);
}

/// No route that leads to the address fixes more bits of it than the one that
/// is chosen, and one is chosen where any leads there.
pub proof fn law_closest_route_is_chosen(lines: Seq<Seq<char>>, dst: u32, j: int)
    requires
        0 <= j < lines.len(),
        route_to(text::words(lines[j]), dst) is Some,
    ensures
        best_route_of(lines, dst) is Some,
        route_to(text::words(lines[j]), dst).unwrap().0 <= best_route_of(lines, dst).unwrap().0,
    decreases lines.len(),
{
    if j < lines.len() - 1 {
        law_closest_route_is_chosen(lines.drop_last(), dst, j);
    }
}

/// The route that is chosen is that of a line, and leads to the address; no
/// line before it has one as close.
pub proof fn law_chosen_route_leads_there(lines: Seq<Seq<char>>, dst: u32) -> (i: int)
    requires
        best_route_of(lines, dst) is Some,
    ensures
        0 <= i < lines.len(),
        route_to(text::words(lines[i]), dst) == best_route_of(lines, dst),
        best_route_of(lines.take(i), dst) is Some ==> best_route_of(lines.take(i), dst).unwrap().0
            < best_route_of(lines, dst).unwrap().0,
    decreases lines.len(),
{
    let init = lines.drop_last();
    let n = init.len() as int;
    assert(lines.take(n) =~= init);
    if best_route_of(lines, dst) == best_route_of(init, dst) {
        let i = law_chosen_route_leads_there(init, dst);
        assert(init.take(i) =~= lines.take(i));
        i
    } else {
        n
    }
}

/// A route leads to an address where the mask in its eighth column, applied to
/// the address, gives the destination in its second; it is by the interface in
/// its first, and as close as its mask has bits.
pub proof fn law_route_leads_there(cols: Seq<Seq<char>>, dst: u32, mask: u32, dest: u32)
    requires
        cols.len() >= 8,
        linux::hex32(cols[7]) == Some(mask as nat),
        linux::hex32(cols[1]) == Some(dest as nat),
    ensures
        dst & linux::swapped(mask) == linux::swapped(dest) ==> route_to(cols, dst) == Some(
            (linux::ones(linux::swapped(mask) as nat), cols[0]),
        ),
        dst & linux::swapped(mask) != linux::swapped(dest) ==> route_to(cols, dst) is None,
{
}

} // verus!
