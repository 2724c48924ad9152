//! Small shared helpers: time formatting and IPv4 arithmetic.

use vstd::prelude::*;
use vstd::string::*;

use crate::model::Interface;
use crate::num::{parse_digits, push_dec, push_zero_padded};
use crate::text::{chars_of, split_chars, trim_chars};

verus! {

// ----- IPv4 -----

/// One part of a dotted quad: one to three digits, no leading zero, at most 255.
pub open spec fn octet_of(s: Seq<char>) -> Option<nat> {
    if 1 <= s.len() <= 3 && crate::num::all_digits(s, 10) && (s[0] != '0' || s.len() == 1)
        && crate::num::value(s, 10) <= 255 {
        Some(crate::num::value(s, 10))
    } else {
        None
    }
}

/// Four octets as one number, the first the most significant.
pub open spec fn quad(a: nat, b: nat, c: nat, d: nat) -> u32 {
    (a * 0x100_0000 + b * 0x1_0000 + c * 0x100 + d) as u32
}

/// The address that a dotted quad spells, white space around it ignored.
pub open spec fn ipv4_of(s: Seq<char>) -> Option<u32> {
    let p = crate::text::split(crate::text::trimmed(s), '.');
    if p.len() == 4 {
        match (octet_of(p[0]), octet_of(p[1]), octet_of(p[2]), octet_of(p[3])) {
            (Some(a), Some(b), Some(c), Some(d)) => Some(quad(a, b, c, d)),
            _ => None,
        }
    } else {
        None
    }
}

/// The dotted quad of an address.
pub open spec fn ipv4_text(a: u32) -> Seq<char> {
    crate::num::dec((a / 0x100_0000) as nat) + seq!['.'] + crate::num::dec(
        (a / 0x1_0000 % 0x100) as nat,
    ) + seq!['.'] + crate::num::dec((a / 0x100 % 0x100) as nat) + seq!['.'] + crate::num::dec(
        (a % 0x100) as nat,
    )
}

/// Read one octet.
fn parse_octet(v: &Vec<char>) -> (r: Option<u32>)
    ensures
        match r {
            Some(n) => octet_of(v@) == Some(n as nat) && n <= 255,
            None => octet_of(v@) is None,
        },
{
    assert(v@.skip(0) == v@);
    if v.len() == 0 || v.len() > 3 || (v[0] == '0' && v.len() != 1) {
        return None;
    }
    match parse_digits(v, 0, 10, 255) {
        Some(n) => Some(n as u32),
        None => None,
    }
}

/// Parse a dotted-quad IPv4 string into a host-order u32.
pub fn parse_ipv4(s: &str) -> (r: Option<u32>)
    ensures
        r == ipv4_of(s@),
{
    let t = trim_chars(&chars_of(s));
    let p = split_chars(&t, '.');
    let ghost want = crate::text::split(crate::text::trimmed(s@), '.');
    assert(p.deep_view() == want);
    if p.len() != 4 {
        return None;
    }
    assert(want[0] == p@[0]@ && want[1] == p@[1]@ && want[2] == p@[2]@ && want[3] == p@[3]@) by {
        crate::seqs::lemma_chars_deep_view(p@[0]);
        crate::seqs::lemma_chars_deep_view(p@[1]);
        crate::seqs::lemma_chars_deep_view(p@[2]);
        crate::seqs::lemma_chars_deep_view(p@[3]);
    }
    match (parse_octet(&p[0]), parse_octet(&p[1]), parse_octet(&p[2]), parse_octet(&p[3])) {
        (Some(a), Some(b), Some(c), Some(d)) => Some(
            a * 0x100_0000 + b * 0x1_0000 + c * 0x100 + d,
        ),
        _ => None,
    }
}

/// Format a host-order u32 as dotted quad.
pub fn format_ipv4(addr: u32) -> (r: String)
    ensures
        r@ == ipv4_text(addr),
{
    let mut out = String::new();
    push_dec(&mut out, (addr / 0x100_0000) as u64);
    out.push('.');
    push_dec(&mut out, (addr / 0x1_0000 % 0x100) as u64);
    out.push('.');
    push_dec(&mut out, (addr / 0x100 % 0x100) as u64);
    out.push('.');
    push_dec(&mut out, (addr % 0x100) as u64);
    assert(out@ =~= ipv4_text(addr));
    out
}

/// An octet in decimal is an octet of a dotted quad.
proof fn lemma_octet_text(n: nat)
    requires
        n <= 255,
    ensures
        octet_of(crate::num::dec(n)) == Some(n),
        !crate::num::dec(n).contains('.'),
        !crate::text::is_space(crate::num::dec(n)[0]),
        !crate::text::is_space(crate::num::dec(n).last()),
{
    let s = crate::num::dec(n);
    crate::num::lemma_value_digits(n, 10);
    crate::num::lemma_no_leading_zero(n, 10);
    reveal_with_fuel(crate::num::digits, 3);
    assert(s.len() <= 3);
    assert(crate::num::digit(s[0], 10) is Some);
    assert(crate::num::digit(s.last(), 10) is Some);
    if s.contains('.') {
        let i = choose|i: int| 0 <= i < s.len() && s[i] == '.';
        assert(crate::num::digit(s[i], 10) is Some);
    }
}

/// Four octets with dots between them.
pub open spec fn dotted(p0: Seq<char>, p1: Seq<char>, p2: Seq<char>, p3: Seq<char>) -> Seq<char> {
    p0 + seq!['.'] + p1 + seq!['.'] + p2 + seq!['.'] + p3
}

/// Four texts without a dot, joined by dots, split into the same four.
proof fn lemma_split_dotted(p0: Seq<char>, p1: Seq<char>, p2: Seq<char>, p3: Seq<char>)
    requires
        !p0.contains('.'),
        !p1.contains('.'),
        !p2.contains('.'),
        !p3.contains('.'),
    ensures
        crate::text::split(dotted(p0, p1, p2, p3), '.') == seq![p0, p1, p2, p3],
{
    let dot = seq!['.'];
    crate::text::lemma_split_free(p0, '.');
    crate::text::lemma_split_free(p1, '.');
    crate::text::lemma_split_free(p2, '.');
    crate::text::lemma_split_free(p3, '.');
    crate::text::lemma_split_concat(p0, p1, '.');
    crate::text::lemma_split_concat(p0 + dot + p1, p2, '.');
    crate::text::lemma_split_concat(p0 + dot + p1 + dot + p2, p3, '.');
    assert(seq![p0] + seq![p1] + seq![p2] + seq![p3] == seq![p0, p1, p2, p3]);
}

/// Texts joined by dots from the four pieces of a split.
proof fn lemma_join_dotted(p: Seq<Seq<char>>)
    requires
        p.len() == 4,
    ensures
        crate::text::join(p, seq!['.']) == dotted(p[0], p[1], p[2], p[3]),
{
    let dot = seq!['.'];
    let p3 = p.drop_last();
    let p2 = p3.drop_last();
    let p1 = p2.drop_last();
    assert(crate::text::join(p1, dot) == p[0]);
    assert(crate::text::join(p2, dot) == p[0] + dot + p[1]);
    assert(crate::text::join(p3, dot) == p[0] + dot + p[1] + dot + p[2]);
}

/// An address is made of its octets.
proof fn lemma_octets(a: u32)
    ensures
        quad(
            (a / 0x100_0000) as nat,
            (a / 0x1_0000 % 0x100) as nat,
            (a / 0x100 % 0x100) as nat,
            (a % 0x100) as nat,
        ) == a,
{
    assert(a == (a / 0x100_0000) * 0x100_0000 + (a / 0x1_0000 % 0x100) * 0x1_0000 + (a / 0x100
        % 0x100) * 0x100 + a % 0x100) by (bit_vector);
}

/// The octets of an address are those it was made of.
proof fn lemma_quad(n0: nat, n1: nat, n2: nat, n3: nat)
    requires
        n0 <= 255,
        n1 <= 255,
        n2 <= 255,
        n3 <= 255,
    ensures
        quad(n0, n1, n2, n3) / 0x100_0000 == n0,
        quad(n0, n1, n2, n3) / 0x1_0000 % 0x100 == n1,
        quad(n0, n1, n2, n3) / 0x100 % 0x100 == n2,
        quad(n0, n1, n2, n3) % 0x100 == n3,
{
    let (m0, m1, m2, m3) = (n0 as u32, n1 as u32, n2 as u32, n3 as u32);
    let q = quad(n0, n1, n2, n3);
    assert(q / 0x100_0000 == m0 && q / 0x1_0000 % 0x100 == m1 && q / 0x100 % 0x100 == m2 && q
        % 0x100 == m3) by (bit_vector)
        requires
            m0 <= 255,
            m1 <= 255,
            m2 <= 255,
            m3 <= 255,
            q == m0 * 0x100_0000 + m1 * 0x1_0000 + m2 * 0x100 + m3,
    ;
}

/// Every address survives being written as a dotted quad and read back.
pub proof fn lemma_ipv4_roundtrip(a: u32)
    ensures
        ipv4_of(ipv4_text(a)) == Some(a),
{
    let n0 = (a / 0x100_0000) as nat;
    let n1 = (a / 0x1_0000 % 0x100) as nat;
    let n2 = (a / 0x100 % 0x100) as nat;
    let n3 = (a % 0x100) as nat;
    let p0 = crate::num::dec(n0);
    let p1 = crate::num::dec(n1);
    let p2 = crate::num::dec(n2);
    let p3 = crate::num::dec(n3);
    lemma_octet_text(n0);
    lemma_octet_text(n1);
    lemma_octet_text(n2);
    lemma_octet_text(n3);
    let s = ipv4_text(a);
    assert(s == dotted(p0, p1, p2, p3));
    assert(crate::text::trimmed(s) == s) by {
        assert(s[0] == p0[0] && s.last() == p3.last());
        crate::text::lemma_trim_nothing(s);
    }
    lemma_split_dotted(p0, p1, p2, p3);
    lemma_octets(a);
}

/// A text that reads as an address is that address's dotted quad, but for
/// white space around it: an address has one spelling.
pub proof fn law_ipv4_spelling(s: Seq<char>, a: u32)
    requires
        ipv4_of(s) == Some(a),
    ensures
        crate::text::trimmed(s) == ipv4_text(a),
{
    let t = crate::text::trimmed(s);
    let p = crate::text::split(t, '.');
    crate::text::lemma_join_split(t, '.');
    lemma_join_dotted(p);
    let n0 = crate::num::value(p[0], 10);
    let n1 = crate::num::value(p[1], 10);
    let n2 = crate::num::value(p[2], 10);
    let n3 = crate::num::value(p[3], 10);
    crate::num::lemma_digits_value(p[0], 10);
    crate::num::lemma_digits_value(p[1], 10);
    crate::num::lemma_digits_value(p[2], 10);
    crate::num::lemma_digits_value(p[3], 10);
    lemma_quad(n0, n1, n2, n3);
}

/// Two addresses agree in their first `prefix` bits.
pub open spec fn same_network(a: u32, b: u32, prefix: u8) -> bool {
    prefix == 0 || a >> ((32 - prefix) as u32) == b >> ((32 - prefix) as u32)
}

/// The first address of the network: the host bits cleared.
pub open spec fn network_address(a: u32, prefix: u8) -> u32 {
    if prefix == 0 {
        0
    } else {
        (a >> ((32 - prefix) as u32)) << ((32 - prefix) as u32)
    }
}

/// The mask of a prefix length: its first `prefix` bits are set and no other.
pub open spec fn is_netmask(mask: u32, prefix: u8) -> bool {
    forall|i: u32| i < 32 ==> ((#[trigger] (mask >> i) & 1 == 1) <==> i + prefix >= 32)
}

/// The mask for an on-link prefix length, host order.
///
/// A prefix of 0 is special-cased because a `u32` cannot be shifted by 32.
pub fn netmask(prefix_len: u8) -> (r: u32)
    requires
        prefix_len <= 32,
    ensures
        is_netmask(r, prefix_len),
        forall|a: u32| #[trigger] (a & r) == network_address(a, prefix_len),
{
    if prefix_len == 0 {
        assert forall|i: u32| i < 32 implies (#[trigger] (0u32 >> i) & 1 == 1) == (i + 0 >= 32) by {
            assert(0u32 >> i & 1 == 0) by (bit_vector);
        }
        assert forall|a: u32| #[trigger] (a & 0) == 0 by {
            assert(a & 0 == 0) by (bit_vector);
        }
        0
    } else {
        let k: u32 = 32 - prefix_len as u32;
        let r: u32 = 0xffff_ffffu32 << k;
        assert forall|i: u32| i < 32 implies (#[trigger] (r >> i) & 1 == 1) == (i + prefix_len
            >= 32) by {
            assert(k < 32 && i < 32 ==> (((0xffff_ffffu32 << k) >> i) & 1 == 1) == (i >= k))
                by (bit_vector);
        }
        assert forall|a: u32| #[trigger] (a & r) == network_address(a, prefix_len) by {
            assert(k < 32 ==> a & (0xffff_ffffu32 << k) == (a >> k) << k) by (bit_vector);
        }
        r
    }
}

/// Equal network addresses mean the same network.
pub proof fn lemma_same_network(a: u32, b: u32, prefix: u8)
    requires
        prefix <= 32,
    ensures
        same_network(a, b, prefix) <==> network_address(a, prefix) == network_address(b, prefix),
{
    if prefix > 0 {
        let k: u32 = (32 - prefix) as u32;
        assert(k < 32 ==> (a >> k == b >> k) == ((a >> k) << k == (b >> k) << k)) by (bit_vector);
    }
}

/// The last address of the network: the host bits set.
pub open spec fn last_address(a: u32, prefix: u8) -> u32 {
    if prefix == 0 {
        0xffff_ffff
    } else {
        network_address(a, prefix) | (((1u32 << ((32 - prefix) as u32)) - 1) as u32)
    }
}

/// The last address of a network.
pub fn broadcast_address(a: u32, prefix: u8) -> (r: u32)
    requires
        prefix <= 32,
    ensures
        r == last_address(a, prefix),
{
    if prefix == 0 {
        return 0xffff_ffff;
    }
    let k: u32 = 32 - prefix as u32;
    assert(k < 32 ==> (1u32 << k) >= 1) by (bit_vector);
    (a & netmask(prefix)) | ((1u32 << k) - 1)
}

/// A network is the run of addresses from its first to its last.
pub proof fn lemma_network_range(a: u32, b: u32, prefix: u8)
    requires
        prefix <= 32,
    ensures
        same_network(a, b, prefix) <==> network_address(b, prefix) <= a <= last_address(b, prefix),
        last_address(b, prefix) == network_address(b, prefix) + vstd::arithmetic::power2::pow2(
            (32 - prefix) as nat,
        ) - 1,
{
    vstd::arithmetic::power2::lemma2_to64();
    if prefix > 0 {
        let k: u32 = (32 - prefix) as u32;
        let ones: u32 = ((1u32 << k) - 1) as u32;
        vstd::arithmetic::power2::lemma_pow2_strictly_increases(k as nat, 32);
        vstd::bits::lemma_u32_shl_is_mul(1, k);
        assert(1u32 << k >= 1) by (bit_vector)
            requires
                k < 32,
        ;
        assert((a >> k == b >> k) == ((b >> k) << k <= a && a <= ((b >> k) << k | ones)) && ((b
            >> k) << k | ones) == ((b >> k) << k) + ones) by (bit_vector)
            requires
                k < 32,
                ones == (1u32 << k) - 1,
        ;
    }
}

/// True if `ip` (dotted quad) is inside `network`/`prefix_len`.
pub fn ipv4_in_network(ip: &str, network: u32, prefix_len: u8) -> (r: bool)
    requires
        prefix_len <= 32,
    ensures
        r == (match ipv4_of(ip@) {
            Some(a) => same_network(a, network, prefix_len),
            None => false,
        }),
{
    match parse_ipv4(ip) {
        Some(a) => {
            let mask = netmask(prefix_len);
            proof {
                lemma_same_network(a, network, prefix_len);
            }
            a & mask == network & mask
        },
        None => false,
    }
}

/// Generate every address in `network`/`prefix_len` (host order), excluding
/// the network address itself.
pub fn enumerate_network(network: u32, prefix_len: u8) -> (r: Vec<u32>)
    requires
        1 <= prefix_len <= 32,
    ensures
        r@.len() + 1 == vstd::arithmetic::power2::pow2((32 - prefix_len) as nat),
        forall|i: int|
            0 <= i < r@.len() ==> #[trigger] r@[i] == network_address(network, prefix_len) + 1 + i,
{
    let k: u32 = 32 - prefix_len as u32;
    let base: u32 = network & netmask(prefix_len);
    assert(k < 32 ==> (1u32 << k) >= 1 && ((network >> k) << k) + ((1u32 << k) - 1) <= 0xffff_ffff)
        by (bit_vector);
    proof {
        vstd::arithmetic::power2::lemma_pow2_strictly_increases(k as nat, 32);
        vstd::arithmetic::power2::lemma2_to64();
        vstd::bits::lemma_u32_shl_is_mul(1, k);
    }
    let last: u32 = (1u32 << k) - 1;
    let mut out: Vec<u32> = Vec::new();
    let mut i: u32 = 0;
    while i < last
        invariant
            i <= last,
            base + last <= u32::MAX,
            out@.len() == i,
            forall|j: int| 0 <= j < i ==> #[trigger] out@[j] == base + 1 + j,
        decreases last - i,
    {
        i = i + 1;
        out.push(base + i);
    }
    out
}

/// An address lies on one of the interface's on-link networks.
pub open spec fn on_link(ip: Seq<char>, ipv4: Seq<crate::model::CidrModel>) -> bool {
    exists|i: int|
        0 <= i < ipv4.len() && match (ipv4_of(ip), ipv4_of((#[trigger] ipv4[i]).addr)) {
            (Some(a), Some(b)) => same_network(a, b, ipv4[i].prefix),
            _ => false,
        }
}

/// True if `ip` (dotted quad) is inside any of the interface's on-link
/// networks.
pub fn ipv4_in_network_of(ip: &str, iface: &Interface) -> (r: bool)
    requires
        iface.deep_view().wf(),
    ensures
        r == on_link(ip@, iface.deep_view().ipv4),
{
    let ghost nets = iface.deep_view().ipv4;
    let mut i: usize = 0;
    while i < iface.ipv4.len()
        invariant
            i <= iface.ipv4.len(),
            iface.deep_view().wf(),
            nets == iface.deep_view().ipv4,
            forall|j: int|
                0 <= j < i ==> !(match (ipv4_of(ip@), ipv4_of((#[trigger] nets[j]).addr)) {
                    (Some(a), Some(b)) => same_network(a, b, nets[j].prefix),
                    _ => false,
                }),
        decreases iface.ipv4.len() - i,
    {
        let c = &iface.ipv4[i];
        assert(nets[i as int] == c.deep_view());
        match parse_ipv4(c.addr.as_str()) {
            Some(a) => {
                if ipv4_in_network(ip, a, c.prefix) {
                    return true;
                }
            },
            None => {},
        }
        i = i + 1;
    }
    false
}

// ----- sets of addresses -----

/// Addresses from low to high, each once.
pub open spec fn ascending(s: Seq<u32>) -> bool {
    forall|i: int, j: int| 0 <= i < j < s.len() ==> #[trigger] s[i] < #[trigger] s[j]
}

/// These are the addresses that satisfy a condition, from low to high.
pub open spec fn lists(s: Seq<u32>, p: spec_fn(u32) -> bool) -> bool {
    ascending(s) && forall|a: u32| #[trigger] s.contains(a) <==> p(a)
}

/// A condition has one list.
pub proof fn lemma_list_unique(s: Seq<u32>, t: Seq<u32>, p: spec_fn(u32) -> bool)
    requires
        lists(s, p),
        lists(t, p),
    ensures
        s == t,
    decreases s.len(),
{
    if s.len() == 0 {
        if t.len() > 0 {
            assert(t.contains(t[0]));
            assert(s.contains(t[0]));
        }
        assert(s == t);
    } else {
        let x = s.last();
        assert(s[s.len() - 1] == x);
        assert(s.contains(x));
        assert(t.contains(x));
        let y = t.last();
        assert(t[t.len() - 1] == y);
        assert(t.contains(y));
        assert(s.contains(y));
        let i = choose|i: int| 0 <= i < t.len() && t[i] == x;
        let j = choose|j: int| 0 <= j < s.len() && s[j] == y;
        assert(x == y);
        let q = |a: u32| p(a) && a != x;
        lemma_list_without_last(s, p);
        lemma_list_without_last(t, p);
        lemma_list_unique(s.drop_last(), t.drop_last(), q);
        assert(s == s.drop_last().push(x));
        assert(t == t.drop_last().push(y));
    }
}

/// A list without its last address lists the others.
proof fn lemma_list_without_last(s: Seq<u32>, p: spec_fn(u32) -> bool)
    requires
        lists(s, p),
        s.len() > 0,
    ensures
        lists(s.drop_last(), |a: u32| p(a) && a != s.last()),
{
    let t = s.drop_last();
    let q = |a: u32| p(a) && a != s.last();
    assert forall|a: u32| #[trigger] t.contains(a) <==> q(a) by {
        if t.contains(a) {
            let i = choose|i: int| 0 <= i < t.len() && t[i] == a;
            assert(s[i] == a && s[i] < s[s.len() - 1]);
            assert(s.contains(a));
        }
        if q(a) {
            assert(s.contains(a));
            let i = choose|i: int| 0 <= i < s.len() && s[i] == a;
            assert(t[i] == a);
        }
    }
}

/// Put an address in its place, unless it is there.
pub fn insert_address(v: &mut Vec<u32>, a: u32)
    requires
        ascending(old(v)@),
    ensures
        ascending(final(v)@),
        forall|x: u32| #[trigger] final(v)@.contains(x) <==> old(v)@.contains(x) || x == a,
{
    let ghost all = v@;
    let mut i: usize = v.len();
    while i > 0 && v[i - 1] > a
        invariant
            i <= v.len(),
            all == v@,
            forall|j: int| i <= j < all.len() ==> #[trigger] all[j] > a,
        decreases i,
    {
        i = i - 1;
    }
    if i > 0 && v[i - 1] == a {
        assert(all[i - 1] == a);
        return;
    }
    v.insert(i, a);
    proof {
        assert(v@ == all.insert(i as int, a));
        assert(i > 0 ==> all[i - 1] < a);
        assert forall|x: u32| #[trigger] v@.contains(x) <==> all.contains(x) || x == a by {
            if all.contains(x) {
                let k = choose|k: int| 0 <= k < all.len() && all[k] == x;
                if k < i {
                    assert(v@[k] == x);
                } else {
                    assert(v@[k + 1] == x);
                }
            }
            if x == a {
                assert(v@[i as int] == x);
            }
            if v@.contains(x) {
                let k = choose|k: int| 0 <= k < v@.len() && v@[k] == x;
                if k < i {
                    assert(all[k] == x);
                } else if k > i {
                    assert(all[k - 1] == x);
                }
            }
        }
    }
}

/// Whether an address is among others.
pub fn has_address(v: &Vec<u32>, a: u32) -> (r: bool)
    ensures
        r == v@.contains(a),
{
    let mut i: usize = 0;
    while i < v.len()
        invariant
            i <= v.len(),
            forall|j: int| 0 <= j < i ==> v@[j] != a,
        decreases v.len() - i,
    {
        if v[i] == a {
            return true;
        }
        i = i + 1;
    }
    false
}

/// The dotted quads of addresses.
pub open spec fn quads(s: Seq<u32>) -> Seq<Seq<char>> {
    s.map_values(|a: u32| ipv4_text(a))
}

/// Write addresses as dotted quads.
pub fn format_all(v: &Vec<u32>) -> (r: Vec<String>)
    ensures
        r.deep_view() == quads(v@),
{
    let mut out: Vec<String> = Vec::new();
    let mut i: usize = 0;
    while i < v.len()
        invariant
            i <= v.len(),
            out.deep_view() == quads(v@.take(i as int)),
        decreases v.len() - i,
    {
        let ghost so_far = out.deep_view();
        out.push(format_ipv4(v[i]));
        assert(out.deep_view() == so_far.push(ipv4_text(v@[i as int])));
        assert(v@.take(i + 1) == v@.take(i as int).push(v@[i as int]));
        assert(quads(v@.take(i + 1)) == quads(v@.take(i as int)).push(ipv4_text(v@[i as int])));
        i = i + 1;
    }
    assert(v@.take(v.len() as int) == v@);
    out
}

/// An address is one of the interface's own.
pub open spec fn is_own(ipv4: Seq<crate::model::CidrModel>, a: u32) -> bool {
    exists|i: int| 0 <= i < ipv4.len() && ipv4_of((#[trigger] ipv4[i]).addr) == Some(a)
}

/// The interface's own addresses.
pub fn own_addresses(iface: &Interface) -> (r: Vec<u32>)
    ensures
        forall|a: u32| #[trigger] r@.contains(a) <==> is_own(iface.deep_view().ipv4, a),
{
    let ghost nets = iface.deep_view().ipv4;
    let mut own: Vec<u32> = Vec::new();
    let mut i: usize = 0;
    while i < iface.ipv4.len()
        invariant
            i <= iface.ipv4.len(),
            nets == iface.deep_view().ipv4,
            forall|a: u32| #[trigger]
                own@.contains(a) <==> exists|k: int|
                    0 <= k < i && ipv4_of((#[trigger] nets[k]).addr) == Some(a),
        decreases iface.ipv4.len() - i,
    {
        assert(nets[i as int] == iface.ipv4@[i as int].deep_view());
        let ghost before = own@;
        if let Some(a) = parse_ipv4(iface.ipv4[i].addr.as_str()) {
            own.push(a);
            proof {
                crate::text::lemma_push_contains(before, a);
            }
        }
        assert forall|a: u32| #[trigger] own@.contains(a) <==> exists|k: int|
            0 <= k < i + 1 && ipv4_of((#[trigger] nets[k]).addr) == Some(a) by {
            if before.contains(a) {
                let k = choose|k: int| 0 <= k < i && ipv4_of((#[trigger] nets[k]).addr) == Some(a);
                assert(ipv4_of(nets[k].addr) == Some(a));
            }
            if own@.contains(a) && !before.contains(a) {
                assert(ipv4_of(nets[i as int].addr) == Some(a));
            }
        }
        i = i + 1;
    }
    own
}

// ----- the calendar -----

/// Leap years of the Gregorian calendar.
pub open spec fn leap(y: int) -> bool {
    y % 4 == 0 && (y % 100 != 0 || y % 400 == 0)
}

/// Days in a month.
pub open spec fn month_len(y: int, m: int) -> int {
    if m == 2 {
        if leap(y) {
            29
        } else {
            28
        }
    } else if m == 4 || m == 6 || m == 9 || m == 11 {
        30
    } else {
        31
    }
}

/// A date that the Gregorian calendar has.
pub open spec fn valid_date(y: int, m: int, d: int) -> bool {
    1 <= m <= 12 && 1 <= d <= month_len(y, m)
}

/// Days of a year that pass before a month begins.
pub open spec fn before_month(y: int, m: int) -> int
    decreases m,
{
    if m <= 1 {
        0
    } else {
        before_month(y, m - 1) + month_len(y, m - 1)
    }
}

/// Days from 1970-01-01 to a date; every fourth year is a leap year but every
/// hundredth, and every four hundredth is one again.
pub open spec fn day_number(y: int, m: int, d: int) -> int {
    365 * (y - 1970) + ((y - 1) / 4 - (y - 1) / 100 + (y - 1) / 400 - 477) + before_month(y, m) + (d
        - 1)
}

/// The day after a date.
pub open spec fn next_day(y: int, m: int, d: int) -> (int, int, int) {
    if d < month_len(y, m) {
        (y, m, d + 1)
    } else if m < 12 {
        (y, m + 1, 1)
    } else {
        (y + 1, 1, 1)
    }
}

/// The month table, spelled out.
proof fn lemma_before_month(y: int)
    ensures
        before_month(y, 1) == 0,
        before_month(y, 2) == 31,
        before_month(y, 3) == 31 + month_len(y, 2),
        before_month(y, 4) == 62 + month_len(y, 2),
        before_month(y, 5) == 92 + month_len(y, 2),
        before_month(y, 6) == 123 + month_len(y, 2),
        before_month(y, 7) == 153 + month_len(y, 2),
        before_month(y, 8) == 184 + month_len(y, 2),
        before_month(y, 9) == 215 + month_len(y, 2),
        before_month(y, 10) == 245 + month_len(y, 2),
        before_month(y, 11) == 276 + month_len(y, 2),
        before_month(y, 12) == 306 + month_len(y, 2),
        before_month(y, 13) == 337 + month_len(y, 2),
{
    reveal_with_fuel(before_month, 14);
}

/// Leap years are the years in which the count of leap days grows.
#[verifier::spinoff_prover]
#[verifier::rlimit(40)]
proof fn lemma_leap_count(y: int)
    ensures
        y / 4 - y / 100 + y / 400 == (y - 1) / 4 - (y - 1) / 100 + (y - 1) / 400 + (if leap(y) {
            1int
        } else {
            0
        }),
{
    lemma_quotient_step(y, 4);
    lemma_quotient_step(y, 100);
    lemma_quotient_step(y, 400);
    lemma_centuries(y);
}

/// A multiple of a hundred is one of four, and a multiple of four hundred one
/// of a hundred.
#[verifier::spinoff_prover]
proof fn lemma_centuries(y: int)
    ensures
        y % 100 == 0 ==> y % 4 == 0,
        y % 400 == 0 ==> y % 100 == 0,
{
    vstd::arithmetic::div_mod::lemma_fundamental_div_mod(y, 100);
    vstd::arithmetic::div_mod::lemma_fundamental_div_mod(y, 400);
    vstd::arithmetic::div_mod::lemma_mod_multiples_basic(25 * (y / 100), 4);
    vstd::arithmetic::div_mod::lemma_mod_multiples_basic(4 * (y / 400), 100);
}

/// A quotient grows by one at each multiple of the divisor.
#[verifier::spinoff_prover]
proof fn lemma_quotient_step(y: int, n: int)
    requires
        n == 4 || n == 100 || n == 400,
    ensures
        y / n == (y - 1) / n + (if y % n == 0 {
            1int
        } else {
            0
        }),
{
}

/// The day count starts at 1970-01-01 and grows by one from each date to the
/// next.
pub proof fn law_day_number_counts(y: int, m: int, d: int)
    requires
        valid_date(y, m, d),
    ensures
        day_number(1970, 1, 1) == 0,
        ({
            let n = next_day(y, m, d);
            valid_date(n.0, n.1, n.2) && day_number(n.0, n.1, n.2) == day_number(y, m, d) + 1
        }),
{
    lemma_before_month(y);
    lemma_before_month(y + 1);
    lemma_before_month(1970);
    lemma_leap_count(y);
}

/// No two dates share a day number.
pub proof fn lemma_day_number_injective(y1: int, m1: int, d1: int, y2: int, m2: int, d2: int)
    requires
        valid_date(y1, m1, d1),
        valid_date(y2, m2, d2),
        day_number(y1, m1, d1) == day_number(y2, m2, d2),
    ensures
        y1 == y2,
        m1 == m2,
        d1 == d2,
{
    lemma_before_month(y1);
    lemma_before_month(y2);
    lemma_leap_count(y1);
    lemma_leap_count(y2);
    assert(y1 == y2) by {
        if y1 < y2 {
            lemma_years_apart(y1, y2);
        } else if y2 < y1 {
            lemma_years_apart(y2, y1);
        }
    }
}

/// A later year begins after an earlier one has ended.
#[verifier::spinoff_prover]
proof fn lemma_years_apart(a: int, b: int)
    requires
        a < b,
    ensures
        365 * a + a / 4 - a / 100 + a / 400 + 365 <= 365 * b + (b - 1) / 4 - (b - 1) / 100 + (b - 1)
            / 400,
{
    assert((b - 1) / 4 - a / 4 >= 0);
    assert((b - 1) / 400 - a / 400 >= 0);
    assert((b - 1) / 100 - a / 100 <= (b - 1) / 4 - a / 4) by {
        assert((b - 1) / 100 == ((b - 1) / 4) / 25);
        assert(a / 100 == (a / 4) / 25);
    }
}

/// Where a day falls in the four hundred years that start on a March 1st.
proof fn lemma_year_of_era(doe: int, yoe: int)
    requires
        0 <= doe <= 146_096,
        yoe == (doe - doe / 1460 + doe / 36524 - doe / 146_096) / 365,
    ensures
        0 <= yoe <= 399,
        0 <= doe - (365 * yoe + yoe / 4 - yoe / 100) <= 365,
        doe - (365 * yoe + yoe / 4 - yoe / 100) == 365 ==> leap(yoe + 1),
{
}

/// The Gregorian date of a day counted from 1970-01-01.
pub fn civil_from_days(z: i64) -> (r: (i64, u32, u32))
    requires
        -0x1000_0000_0000_0000 <= z <= 0x1000_0000_0000_0000,
    ensures
        valid_date(r.0 as int, r.1 as int, r.2 as int),
        day_number(r.0 as int, r.1 as int, r.2 as int) == z,
{
    let z: i64 = z + 719_468;
    let era: i64 = floor_div(z, 146_097);
    let doe: i64 = z - era * 146_097;
    let yoe: i64 = (doe as u64 - doe as u64 / 1460 + doe as u64 / 36524 - doe as u64 / 146_096) as i64
        / 365;
    proof {
        lemma_year_of_era(doe as int, yoe as int);
    }
    let y: i64 = yoe + era * 400;
    let doy: u64 = doe as u64 - (365 * yoe as u64 + yoe as u64 / 4 - yoe as u64 / 100);
    let mp: u64 = (5 * doy + 2) / 153;
    let d: u32 = (doy - (153 * mp + 2) / 5 + 1) as u32;
    let m: u32 = if mp < 10 {
        (mp + 3) as u32
    } else {
        (mp - 9) as u32
    };
    let year: i64 = if m <= 2 {
        y + 1
    } else {
        y
    };
    proof {
        lemma_civil(z as int, era as int, doe as int, yoe as int, doy as int, mp as int);
    }
    (year, m, d)
}

/// A year counted from March, cut into its months.
proof fn lemma_month_of_year(doy: int, mp: int)
    requires
        0 <= doy <= 365,
        mp == (5 * doy + 2) / 153,
    ensures
        0 <= mp <= 11,
        ({
            let d = doy - (153 * mp + 2) / 5;
            let m = if mp < 10 {
                mp + 3
            } else {
                mp - 9
            };
            0 <= d <= 30 && d < (if m == 2 {
                29
            } else {
                month_len(0, m)
            }) && (m == 2 && d == 28 ==> doy == 365)
        }),
{
}

/// The date computed from the parts of a day count is the date of that day.
proof fn lemma_civil(z: int, era: int, doe: int, yoe: int, doy: int, mp: int)
    requires
        era == z / 146_097,
        doe == z - era * 146_097,
        yoe == (doe - doe / 1460 + doe / 36524 - doe / 146_096) / 365,
        doy == doe - (365 * yoe + yoe / 4 - yoe / 100),
        mp == (5 * doy + 2) / 153,
    ensures
        ({
            let y = yoe + era * 400;
            let d = doy - (153 * mp + 2) / 5 + 1;
            let m = if mp < 10 {
                mp + 3
            } else {
                mp - 9
            };
            let year = if m <= 2 {
                y + 1
            } else {
                y
            };
            valid_date(year, m, d) && day_number(year, m, d) == z - 719_468
        }),
{
    lemma_year_of_era(doe, yoe);
    lemma_month_of_year(doy, mp);
    let y = yoe + era * 400;
    let d = doy - (153 * mp + 2) / 5 + 1;
    let m = if mp < 10 {
        mp + 3
    } else {
        mp - 9
    };
    let year = if m <= 2 {
        y + 1
    } else {
        y
    };
    lemma_year_in_era(yoe, era);
    lemma_march_month(mp, year);
    lemma_leap_count(y);
}

/// A year of an era, placed in the calendar.
proof fn lemma_year_in_era(yoe: int, era: int)
    requires
        0 <= yoe <= 399,
    ensures
        (yoe + era * 400) / 4 == yoe / 4 + 100 * era,
        (yoe + era * 400) / 100 == yoe / 100 + 4 * era,
        (yoe + era * 400) / 400 == era,
        leap(yoe + 1) == leap(yoe + era * 400 + 1),
{
}

/// The months counted from March, placed in the calendar year.
proof fn lemma_march_month(mp: int, year: int)
    requires
        0 <= mp <= 11,
    ensures
        mp < 10 ==> before_month(year, mp + 3) == (153 * mp + 2) / 5 + 31 + month_len(year, 2)
            && month_len(year, mp + 3) == month_len(0, mp + 3),
        mp >= 10 ==> before_month(year, mp - 9) == (153 * mp + 2) / 5 - 306,
{
    lemma_before_month(year);
}

/// Quotient rounded toward negative infinity.
fn floor_div(a: i64, b: i64) -> (r: i64)
    requires
        b > 1,
    ensures
        r == a as int / b as int,
{
    proof {
        lemma_floor(a as int, b as int);
    }
    match a.checked_div_euclid(b) {
        Some(q) => q,
        None => 0,
    }
}

/// Remainder of the quotient rounded toward negative infinity.
fn floor_rem(a: i64, b: i64) -> (r: i64)
    requires
        b > 1,
    ensures
        r == a as int % b as int,
{
    proof {
        lemma_floor(a as int, b as int);
    }
    match a.checked_rem_euclid(b) {
        Some(m) => m,
        None => 0,
    }
}

/// A rounded quotient is no further from zero than what was divided.
proof fn lemma_floor(a: int, b: int)
    requires
        b > 1,
    ensures
        0 <= a % b < b,
        a >= 0 ==> 0 <= a / b <= a,
        a < 0 ==> a <= a / b < 0,
{
    let q = a / b;
    assert(a == b * q + a % b && 0 <= a % b < b) by (nonlinear_arith)
        requires
            b > 1,
            q == a / b,
    ;
    if q > a && a >= 0 {
        assert(b * q >= 2 * q) by (nonlinear_arith)
            requires
                b > 1,
                q >= 0,
        ;
    }
    if q < 0 {
        assert((b - 1) * q <= -(b - 1) && b * q == (b - 1) * q + q) by (nonlinear_arith)
            requires
                b > 1,
                q < 0,
        ;
    } else {
        assert(b * q >= 0) by (nonlinear_arith)
            requires
                b > 1,
                q >= 0,
        ;
    }
}

/// A date and time of day as `YYYY-MM-DD HH:MM`.
pub open spec fn time_text(y: int, m: int, d: int, secs: int) -> Seq<char> {
    crate::num::zero_padded(y, 4) + seq!['-'] + crate::num::zero_padded(m, 2) + seq!['-']
        + crate::num::zero_padded(d, 2) + seq![' '] + crate::num::zero_padded(secs / 3600, 2)
        + seq![':'] + crate::num::zero_padded(secs % 3600 / 60, 2)
}

/// The text of a timestamp: that of the one date whose day it falls on.
pub open spec fn is_time_text(ts: int, text: Seq<char>) -> bool {
    exists|y: int, m: int, d: int|
        valid_date(y, m, d) && #[trigger] day_number(y, m, d) == ts / 86_400 && text == time_text(
            y,
            m,
            d,
            ts % 86_400,
        )
}

/// A timestamp has one text.
pub proof fn lemma_time_text_unique(ts: int, a: Seq<char>, b: Seq<char>)
    requires
        is_time_text(ts, a),
        is_time_text(ts, b),
    ensures
        a == b,
{
    let (y1, m1, d1) = choose|y: int, m: int, d: int|
        valid_date(y, m, d) && #[trigger] day_number(y, m, d) == ts / 86_400 && a == time_text(
            y,
            m,
            d,
            ts % 86_400,
        );
    let (y2, m2, d2) = choose|y: int, m: int, d: int|
        valid_date(y, m, d) && #[trigger] day_number(y, m, d) == ts / 86_400 && b == time_text(
            y,
            m,
            d,
            ts % 86_400,
        );
    lemma_day_number_injective(y1, m1, d1, y2, m2, d2);
}

/// The text of a timestamp.
pub open spec fn time_string(ts: int) -> Seq<char> {
    choose|text: Seq<char>| is_time_text(ts, text)
}

/// The last second of the year 9999.
pub const LAST_FOUR_DIGIT_TIME: i64 = 253_402_300_799;

/// A text has the form `YYYY-MM-DD HH:MM`.
pub open spec fn has_time_shape(s: Seq<char>) -> bool {
    s.len() == 16 && forall|i: int|
        0 <= i < 16 ==> if i == 4 || i == 7 {
            #[trigger] s[i] == '-'
        } else if i == 10 {
            s[i] == ' '
        } else if i == 13 {
            s[i] == ':'
        } else {
            '0' <= s[i] <= '9'
        }
}

/// The digits of a date and time of day, each in its place.
spec fn time_cells(y: int, m: int, d: int, h: int, mi: int) -> Seq<char> {
    seq![
        crate::num::digit_char((y / 1000) as nat),
        crate::num::digit_char((y / 100 % 10) as nat),
        crate::num::digit_char((y / 10 % 10) as nat),
        crate::num::digit_char((y % 10) as nat),
        '-',
        crate::num::digit_char((m / 10) as nat),
        crate::num::digit_char((m % 10) as nat),
        '-',
        crate::num::digit_char((d / 10) as nat),
        crate::num::digit_char((d % 10) as nat),
        ' ',
        crate::num::digit_char((h / 10) as nat),
        crate::num::digit_char((h % 10) as nat),
        ':',
        crate::num::digit_char((mi / 10) as nat),
        crate::num::digit_char((mi % 10) as nat),
    ]
}

/// A number below a hundred takes two digits.
proof fn lemma_two_digits(i: int)
    requires
        0 <= i < 100,
    ensures
        crate::num::zero_padded(i, 2) == seq![
            crate::num::digit_char((i / 10) as nat),
            crate::num::digit_char((i % 10) as nat),
        ],
{
    reveal_with_fuel(crate::num::digits, 3);
}

/// A year of four digits.
proof fn lemma_four_digits(y: int)
    requires
        1000 <= y < 10_000,
    ensures
        crate::num::zero_padded(y, 4) == seq![
            crate::num::digit_char((y / 1000) as nat),
            crate::num::digit_char((y / 100 % 10) as nat),
            crate::num::digit_char((y / 10 % 10) as nat),
            crate::num::digit_char((y % 10) as nat),
        ],
{
    reveal_with_fuel(crate::num::digits, 5);
    assert(y / 10 / 10 == y / 100);
    assert(y / 10 / 10 / 10 == y / 1000);
}

/// What the text of a time in a year of four digits holds.
proof fn lemma_time_cells(y: int, m: int, d: int, secs: int)
    requires
        1000 <= y < 10_000,
        valid_date(y, m, d),
        0 <= secs < 86_400,
    ensures
        time_text(y, m, d, secs) == time_cells(y, m, d, secs / 3600, secs % 3600 / 60),
        has_time_shape(time_text(y, m, d, secs)),
{
    lemma_four_digits(y);
    lemma_two_digits(m);
    lemma_two_digits(d);
    lemma_two_digits(secs / 3600);
    lemma_two_digits(secs % 3600 / 60);
    assert(time_text(y, m, d, secs) =~= time_cells(y, m, d, secs / 3600, secs % 3600 / 60));
}

/// Two digits order as the number they spell.
proof fn lemma_cells_of_two(
    a: Seq<char>,
    b: Seq<char>,
    k: int,
    i: int,
    j: int,
)
    requires
        a.len() == 16,
        b.len() == 16,
        0 <= k < 15,
        forall|n: int| 0 <= n < k ==> a[n] == b[n],
        0 <= i < j < 100,
        a[k] == crate::num::digit_char((i / 10) as nat),
        a[k + 1] == crate::num::digit_char((i % 10) as nat),
        b[k] == crate::num::digit_char((j / 10) as nat),
        b[k + 1] == crate::num::digit_char((j % 10) as nat),
    ensures
        crate::text::lex_lt(a, b),
{
    if i / 10 < j / 10 {
        crate::text::lemma_lex_at(a, b, k);
    } else {
        assert(i / 10 == j / 10);
        crate::text::lemma_lex_at(a, b, k + 1);
    }
}

/// A year of four digits is what its digits spell.
#[verifier::spinoff_prover]
proof fn lemma_year_digits(y: int)
    requires
        1000 <= y < 10_000,
    ensures
        1 <= y / 1000 <= 9,
        0 <= y / 100 % 10 <= 9,
        0 <= y / 10 % 10 <= 9,
        0 <= y % 10 <= 9,
        y == 1000 * (y / 1000) + 100 * (y / 100 % 10) + 10 * (y / 10 % 10) + y % 10,
{
    assert(y / 100 / 10 == y / 1000);
    assert(y / 10 / 10 == y / 100);
    assert(y / 100 == 10 * (y / 1000) + y / 100 % 10);
    assert(y / 10 == 10 * (y / 100) + y / 10 % 10);
    assert(y == 10 * (y / 10) + y % 10);
}

/// Four digits order as the number they spell.
proof fn lemma_cells_of_four(
    a: Seq<char>,
    b: Seq<char>,
    p: (int, int, int, int),
    q: (int, int, int, int),
)
    requires
        a.len() == 16,
        b.len() == 16,
        0 <= p.0 <= 9,
        0 <= p.1 <= 9,
        0 <= p.2 <= 9,
        0 <= p.3 <= 9,
        0 <= q.0 <= 9,
        0 <= q.1 <= 9,
        0 <= q.2 <= 9,
        0 <= q.3 <= 9,
        1000 * p.0 + 100 * p.1 + 10 * p.2 + p.3 < 1000 * q.0 + 100 * q.1 + 10 * q.2 + q.3,
        a[0] == crate::num::digit_char(p.0 as nat),
        a[1] == crate::num::digit_char(p.1 as nat),
        a[2] == crate::num::digit_char(p.2 as nat),
        a[3] == crate::num::digit_char(p.3 as nat),
        b[0] == crate::num::digit_char(q.0 as nat),
        b[1] == crate::num::digit_char(q.1 as nat),
        b[2] == crate::num::digit_char(q.2 as nat),
        b[3] == crate::num::digit_char(q.3 as nat),
    ensures
        crate::text::lex_lt(a, b),
{
    if p.0 < q.0 {
        crate::text::lemma_lex_at(a, b, 0);
    } else if p.1 < q.1 {
        crate::text::lemma_lex_at(a, b, 1);
    } else if p.2 < q.2 {
        crate::text::lemma_lex_at(a, b, 2);
    } else {
        crate::text::lemma_lex_at(a, b, 3);
    }
}

/// A day with a smaller number is an earlier date.
proof fn lemma_day_number_order(y1: int, m1: int, d1: int, y2: int, m2: int, d2: int)
    requires
        valid_date(y1, m1, d1),
        valid_date(y2, m2, d2),
        day_number(y1, m1, d1) < day_number(y2, m2, d2),
    ensures
        y1 < y2 || (y1 == y2 && (m1 < m2 || (m1 == m2 && d1 < d2))),
{
    lemma_before_month(y1);
    lemma_before_month(y2);
    lemma_leap_count(y1);
    lemma_leap_count(y2);
    if y2 < y1 {
        lemma_years_apart(y2, y1);
    }
}

/// Every day from 1970-01-01 on has a date.
proof fn lemma_day_has_date(n: nat)
    ensures
        exists|y: int, m: int, d: int| valid_date(y, m, d) && #[trigger] day_number(y, m, d) == n,
    decreases n,
{
    if n == 0 {
        law_day_number_counts(1970, 1, 1);
        assert(valid_date(1970, 1, 1) && day_number(1970, 1, 1) == n);
    } else {
        lemma_day_has_date((n - 1) as nat);
        let (y, m, d) = choose|y: int, m: int, d: int|
            valid_date(y, m, d) && #[trigger] day_number(y, m, d) == n - 1;
        law_day_number_counts(y, m, d);
        let next = next_day(y, m, d);
        assert(valid_date(next.0, next.1, next.2) && day_number(next.0, next.1, next.2) == n);
    }
}

/// The date of a time in a year of four digits.
proof fn lemma_time_has_date(ts: int) -> (date: (int, int, int))
    requires
        0 <= ts <= LAST_FOUR_DIGIT_TIME,
    ensures
        valid_date(date.0, date.1, date.2),
        day_number(date.0, date.1, date.2) == ts / 86_400,
        1970 <= date.0 < 10_000,
        time_string(ts) == time_text(date.0, date.1, date.2, ts % 86_400),
{
    lemma_day_has_date((ts / 86_400) as nat);
    let (y, m, d) = choose|y: int, m: int, d: int|
        valid_date(y, m, d) && #[trigger] day_number(y, m, d) == ts / 86_400;
    let t = time_text(y, m, d, ts % 86_400);
    assert(is_time_text(ts, t)) by {
        assert(valid_date(y, m, d) && day_number(y, m, d) == ts / 86_400);
    }
    lemma_time_text_unique(ts, t, time_string(ts));
    lemma_before_month(1970);
    lemma_before_month(9999);
    if y < 1970 {
        if day_number(y, m, d) == 0 {
            lemma_day_number_injective(y, m, d, 1970, 1, 1);
        } else {
            lemma_day_number_order(1970, 1, 1, y, m, d);
        }
    }
    if y > 9999 {
        assert(day_number(9999, 12, 31) == 2_932_896);
        if day_number(y, m, d) == 2_932_896 {
            lemma_day_number_injective(y, m, d, 9999, 12, 31);
        } else {
            lemma_day_number_order(y, m, d, 9999, 12, 31);
        }
    }
    (y, m, d)
}

/// How the minutes of two times compare: by the day, then by the hour, then
/// by the minute.
proof fn lemma_minutes(a: int, b: int)
    requires
        0 <= a <= b,
    ensures
        a / 60 == b / 60 <==> a / 86_400 == b / 86_400 && a % 86_400 / 3600 == b % 86_400 / 3600 && a
            % 86_400 % 3600 / 60 == b % 86_400 % 3600 / 60,
        a / 86_400 <= b / 86_400,
        a / 86_400 == b / 86_400 ==> a % 86_400 / 3600 <= b % 86_400 / 3600,
        a / 86_400 == b / 86_400 && a % 86_400 / 3600 == b % 86_400 / 3600 ==> a % 86_400 % 3600
            / 60 <= b % 86_400 % 3600 / 60,
        0 <= a % 86_400 / 3600 < 24,
        0 <= b % 86_400 / 3600 < 24,
        0 <= a % 86_400 % 3600 / 60 < 60,
        0 <= b % 86_400 % 3600 / 60 < 60,
{
    lemma_minute_of(a);
    lemma_minute_of(b);
}

/// The minutes of a time by the day, the hour and the minute.
#[verifier::spinoff_prover]
proof fn lemma_minute_of(a: int)
    requires
        0 <= a,
    ensures
        a / 60 == a / 86_400 * 1440 + a % 86_400 / 3600 * 60 + a % 86_400 % 3600 / 60,
        0 <= a % 86_400 / 3600 < 24,
        0 <= a % 86_400 % 3600 / 60 < 60,
{
    let s = a % 86_400;
    assert(a == a / 86_400 * 86_400 + s);
    assert(a / 60 == a / 86_400 * 1440 + s / 60);
    assert(s == s / 3600 * 3600 + s % 3600);
    assert(s / 60 == s / 3600 * 60 + s % 3600 / 60);
}

/// An earlier date and time of day has the earlier text.
proof fn lemma_cells_order(
    y1: int,
    m1: int,
    d1: int,
    h1: int,
    n1: int,
    y2: int,
    m2: int,
    d2: int,
    h2: int,
    n2: int,
)
    requires
        1000 <= y1 <= y2 < 10_000,
        0 <= m1 < 100,
        0 <= m2 < 100,
        0 <= d1 < 100,
        0 <= d2 < 100,
        0 <= h1 < 100,
        0 <= h2 < 100,
        0 <= n1 < 100,
        0 <= n2 < 100,
        y1 < y2 || (y1 == y2 && (m1 < m2 || (m1 == m2 && (d1 < d2 || (d1 == d2 && (h1 < h2 || (h1
            == h2 && n1 < n2))))))),
    ensures
        crate::text::lex_lt(time_cells(y1, m1, d1, h1, n1), time_cells(y2, m2, d2, h2, n2)),
{
    let a = time_cells(y1, m1, d1, h1, n1);
    let b = time_cells(y2, m2, d2, h2, n2);
    if y1 < y2 {
        lemma_year_digits(y1);
        lemma_year_digits(y2);
        lemma_cells_of_four(
            a,
            b,
            (y1 / 1000, y1 / 100 % 10, y1 / 10 % 10, y1 % 10),
            (y2 / 1000, y2 / 100 % 10, y2 / 10 % 10, y2 % 10),
        );
    } else if m1 < m2 {
        lemma_cells_of_two(a, b, 5, m1, m2);
    } else if d1 < d2 {
        lemma_cells_of_two(a, b, 8, d1, d2);
    } else if h1 < h2 {
        lemma_cells_of_two(a, b, 11, h1, h2);
    } else {
        lemma_cells_of_two(a, b, 14, n1, n2);
    }
}

/// In the years of four digits the texts of times have one form and order as
/// the times do, to the minute.
pub proof fn law_times_order_as_texts(a: int, b: int)
    requires
        0 <= a <= b <= LAST_FOUR_DIGIT_TIME,
    ensures
        has_time_shape(time_string(a)),
        has_time_shape(time_string(b)),
        time_string(a) == time_string(b) || crate::text::lex_lt(time_string(a), time_string(b)),
        time_string(a) == time_string(b) <==> a / 60 == b / 60,
{
    let (y1, m1, d1) = lemma_time_has_date(a);
    let (y2, m2, d2) = lemma_time_has_date(b);
    let s1 = a % 86_400;
    let s2 = b % 86_400;
    lemma_time_cells(y1, m1, d1, s1);
    lemma_time_cells(y2, m2, d2, s2);
    lemma_minutes(a, b);
    if a / 86_400 == b / 86_400 {
        lemma_day_number_injective(y1, m1, d1, y2, m2, d2);
    } else {
        lemma_day_number_order(y1, m1, d1, y2, m2, d2);
    }
    if a / 60 != b / 60 {
        lemma_cells_order(
            y1,
            m1,
            d1,
            s1 / 3600,
            s1 % 3600 / 60,
            y2,
            m2,
            d2,
            s2 / 3600,
            s2 % 3600 / 60,
        );
        crate::text::lemma_lex_irreflexive(time_string(a));
    }
}

/// Format a unix timestamp (seconds) as `YYYY-MM-DD HH:MM` in UTC.
/// There is no time zone database here; frontends treat this as display-only.
pub fn fmt_time(ts: i64) -> (r: String)
    ensures
        is_time_text(ts as int, r@),
        r@ == time_string(ts as int),
        0 <= ts <= LAST_FOUR_DIGIT_TIME ==> has_time_shape(r@),
{
    let days: i64 = floor_div(ts, 86_400);
    let secs: i64 = floor_rem(ts, 86_400);
    let (y, m, d) = civil_from_days(days);
    let mut out = String::new();
    push_zero_padded(&mut out, y, 4);
    out.push('-');
    push_zero_padded(&mut out, m as i64, 2);
    out.push('-');
    push_zero_padded(&mut out, d as i64, 2);
    out.push(' ');
    push_zero_padded(&mut out, (secs as u64 / 3600) as i64, 2);
    out.push(':');
    push_zero_padded(&mut out, (secs as u64 % 3600 / 60) as i64, 2);
    assert(out@ =~= time_text(y as int, m as int, d as int, secs as int));
    assert(day_number(y as int, m as int, d as int) == ts as int / 86_400);
    proof {
        lemma_time_text_unique(ts as int, out@, time_string(ts as int));
        if 0 <= ts <= LAST_FOUR_DIGIT_TIME {
            law_times_order_as_texts(ts as int, ts as int);
        }
    }
    out
}

// ----- the clock -----

/// `std::time::SystemTime`, a reading of the system clock.
#[verifier::external_type_specification]
#[verifier::external_body]
pub struct ExSystemTime(std::time::SystemTime);

/// `std::time::SystemTimeError`, a reading that lies before another.
#[verifier::external_type_specification]
#[verifier::external_body]
pub struct ExSystemTimeError(std::time::SystemTimeError);

/// `std::time::SystemTime::now` reads the system clock; nothing is known of
/// what it shows.
pub assume_specification[ std::time::SystemTime::now ]() -> std::time::SystemTime
;

/// `std::time::SystemTime::duration_since`, called with the unix epoch: the
/// time elapsed since then, or an error where the clock stands before it.
/// Nothing is known of which it is.
#[verifier::external_body]
fn since_epoch(t: std::time::SystemTime) -> Result<core::time::Duration, std::time::SystemTimeError> {
    t.duration_since(std::time::UNIX_EPOCH)
}

/// `Duration::as_secs` gives the whole seconds of a span of time; nothing is
/// known of how many there are.
pub assume_specification[ core::time::Duration::as_secs ](d: &core::time::Duration) -> u64
;

/// The timestamp for a clock reading, taken in whole seconds since the epoch;
/// a clock set before the epoch reads as the epoch.
pub fn timestamp(elapsed: Option<u64>) -> (r: i64)
    ensures
        r == (match elapsed {
            Some(secs) => secs as i64,
            None => 0,
        }),
{
    match elapsed {
        Some(secs) => secs as i64,
        None => 0,
    }
}

/// Current unix time in whole seconds. Which moment that is rests on the
/// system's clock, so no contract speaks of it.
pub fn now() -> (r: i64) {
    match since_epoch(std::time::SystemTime::now()) {
        Ok(d) => timestamp(Some(d.as_secs())),
        Err(_) => timestamp(None),
    }
}

/// Addresses are of one network where they agree but for the host part: the
/// quotient by the number of addresses that the network has. The first address
/// of the network has a host part of zero, and the last the largest there is.
pub proof fn law_network_of_an_address(a: u32, b: u32, prefix: u8)
    requires
        1 <= prefix <= 32,
    ensures
        ({
            let n = vstd::arithmetic::power2::pow2((32 - prefix) as nat) as int;
            &&& same_network(a, b, prefix) <==> a as int / n == b as int / n
            &&& network_address(b, prefix) == (b as int / n) * n
            &&& last_address(b, prefix) == (b as int / n) * n + n - 1
        }),
{
    let k: u32 = (32 - prefix) as u32;
    let n = vstd::arithmetic::power2::pow2(k as nat) as int;
    vstd::arithmetic::power2::lemma_pow2_pos(k as nat);
    vstd::bits::lemma_u32_shr_is_div(a, k);
    vstd::bits::lemma_u32_shr_is_div(b, k);
    vstd::arithmetic::div_mod::lemma_fundamental_div_mod(b as int, n);
    vstd::arithmetic::mul::lemma_mul_is_commutative(n, b as int / n);
    vstd::bits::lemma_u32_shl_is_mul(b >> k, k);
    lemma_network_range(a, b, prefix);
}

/// An address is on the link where it and an address of the interface are of
/// one network, by the prefix length that goes with the latter.
pub proof fn law_on_the_link(ip: Seq<char>, nets: Seq<crate::model::CidrModel>)
    requires
        forall|i: int| 0 <= i < nets.len() ==> 1 <= (#[trigger] nets[i]).prefix <= 32,
    ensures
        on_link(ip, nets) <==> ipv4_of(ip) is Some && exists|i: int|
            0 <= i < nets.len() && ipv4_of((#[trigger] nets[i]).addr) is Some && ({
                let n = vstd::arithmetic::power2::pow2((32 - nets[i].prefix) as nat) as int;
                ipv4_of(ip).unwrap() as int / n == ipv4_of(nets[i].addr).unwrap() as int / n
            }),
{
    if ipv4_of(ip) is Some {
        let a = ipv4_of(ip).unwrap();
        assert forall|i: int|
            0 <= i < nets.len() && ipv4_of((#[trigger] nets[i]).addr) is Some implies (same_network(
            a,
            ipv4_of(nets[i].addr).unwrap(),
            nets[i].prefix,
        ) <==> ({
            let n = vstd::arithmetic::power2::pow2((32 - nets[i].prefix) as nat) as int;
            a as int / n == ipv4_of(nets[i].addr).unwrap() as int / n
        })) by {
            law_network_of_an_address(a, ipv4_of(nets[i].addr).unwrap(), nets[i].prefix);
        }
    }
}

} // verus!
