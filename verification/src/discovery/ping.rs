//! ICMP echo: the packet that is sent and what counts as an answer.

use vstd::prelude::*;
use vstd::string::*;

use crate::text;
use crate::text::{str_eq, trim};
use crate::util;
use crate::util::parse_ipv4;

verus! {

/// The address that a text spells with nothing around it.
pub open spec fn address_of(s: Seq<char>) -> Option<u32> {
    if text::trimmed(s) == s {
        util::ipv4_of(s)
    } else {
        None
    }
}

/// The IPv4 address to probe, if the text is one.
pub fn echo_target(ip: &str) -> (r: Option<u32>)
    ensures
        r == address_of(ip@),
{
    if str_eq(trim(ip).as_str(), ip) {
        parse_ipv4(ip)
    } else {
        None
    }
}

/// An echo request for a datagram ICMP socket: type 8, code 0, and checksum,
/// id and sequence left for the kernel to fill in.
pub fn echo_request() -> (r: Vec<u8>)
    ensures
        r@ == seq![8u8, 0, 0, 0, 0, 0, 0, 0],
{
    let mut v: Vec<u8> = Vec::new();
    v.push(8);
    let mut i: usize = 1;
    while i < 8
        invariant
            1 <= i <= 8,
            v@ == seq![8u8, 0, 0, 0, 0, 0, 0, 0].take(i as int),
        decreases 8 - i,
    {
        v.push(0);
        assert(v@ == seq![8u8, 0, 0, 0, 0, 0, 0, 0].take(i + 1));
        i = i + 1;
    }
    assert(v@ == seq![8u8, 0, 0, 0, 0, 0, 0, 0]);
    v
}

/// Whether what came back is an echo reply: a whole header of type 0.
pub fn is_echo_reply(packet: &[u8]) -> (r: bool)
    ensures
        r == (packet@.len() >= 8 && packet@[0] == 0),
{
    packet.len() >= 8 && packet[0] == 0
}

} // verus!
