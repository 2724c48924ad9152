//! Composite fingerprints for devices and networks.
//!
//! MAC randomisation means a MAC alone cannot identify a device across time,
//! so the device key combines a *name signal* (when one exists), the MAC OUI,
//! and the network where the device was first seen. The key is opaque
//! (truncated BLAKE3) and only meaningful inside the inventory database.

use vstd::prelude::*;
use vstd::string::*;

use crate::model::IfKind;
use crate::num::{digit_value, push_hex2};
use crate::text::{chars_of, is_blank, lower_char, split_chars, string_of, trim};

verus! {

// ----- MAC addresses -----

/// A hexadecimal digit in either case.
pub open spec fn is_hex(c: char) -> bool {
    crate::num::digit(c, 16) is Some
}

/// The hexadecimal digits of a text, in lower case, everything else dropped.
pub open spec fn hex_of(s: Seq<char>) -> Seq<char> {
    crate::text::ascii_lower(s.filter(|c: char| is_hex(c)))
}

/// Twelve digits in pairs with colons between them.
pub open spec fn colons(h: Seq<char>) -> Seq<char> {
    Seq::new(
        17,
        |i: int|
            if i % 3 == 2 {
                ':'
            } else {
                h[i / 3 * 2 + i % 3]
            },
    )
}

/// The normalized form of a MAC in any spelling. All-zero (proxy ARP
/// artifacts) and broadcast addresses are not identities.
pub open spec fn mac_of(s: Seq<char>) -> Option<Seq<char>> {
    let h = hex_of(s);
    if h.len() == 12 && h != Seq::new(12, |i: int| '0') && h != Seq::new(12, |i: int| 'f') {
        Some(colons(h))
    } else {
        None
    }
}

/// Keep the hexadecimal digits of a text, in lower case.
fn hex_chars(s: &str) -> (r: Vec<char>)
    ensures
        r@ == hex_of(s@),
{
    let v = chars_of(s);
    let mut out: Vec<char> = Vec::new();
    let mut i: usize = 0;
    let ghost keep = |c: char| is_hex(c);
    assert(v@.take(0).filter(keep) == Seq::<char>::empty());
    while i < v.len()
        invariant
            i <= v.len(),
            keep == (|c: char| is_hex(c)),
            out@ == crate::text::ascii_lower(v@.take(i as int).filter(keep)),
        decreases v.len() - i,
    {
        let ghost before = v@.take(i as int);
        assert(v@.take(i + 1) == before.push(v@[i as int]));
        proof {
            crate::seqs::lemma_filter_push(before, v@[i as int], keep);
        }
        if digit_value(v[i], 16).is_some() {
            out.push(lower_char(v[i]));
        }
        i = i + 1;
    }
    assert(v@.take(v.len() as int) == v@);
    out
}

/// Whether every character is this one.
fn all_are(v: &Vec<char>, c: char) -> (r: bool)
    ensures
        r == (v@ == Seq::new(v@.len(), |i: int| c)),
{
    let mut i: usize = 0;
    while i < v.len()
        invariant
            i <= v.len(),
            forall|j: int| 0 <= j < i ==> v@[j] == c,
        decreases v.len() - i,
    {
        if v[i] != c {
            assert(v@[i as int] != Seq::new(v@.len(), |k: int| c)[i as int]);
            return false;
        }
        i = i + 1;
    }
    assert(v@ == Seq::new(v@.len(), |k: int| c));
    true
}

/// Normalize any MAC spelling (`AA-BB-CC-DD-EE-FF`, `aabbcc.ddeeff`, ...)
/// to lowercase colon-separated form. Returns None for non-MAC input.
pub fn normalize_mac(input: &str) -> (r: Option<String>)
    ensures
        r.deep_view() == mac_of(input@),
{
    let h = hex_chars(input);
    if h.len() != 12 || all_are(&h, '0') || all_are(&h, 'f') {
        return None;
    }
    let mut out = String::new();
    let mut i: usize = 0;
    while i < 17
        invariant
            i <= 17,
            h.len() == 12,
            out@ == colons(h@).take(i as int),
        decreases 17 - i,
    {
        if i % 3 == 2 {
            out.push(':');
        } else {
            out.push(h[i / 3 * 2 + i % 3]);
        }
        assert(colons(h@).take(i + 1) == colons(h@).take(i as int).push(colons(h@)[i as int]));
        i = i + 1;
    }
    assert(colons(h@).take(17) == colons(h@));
    Some(out)
}

/// The hexadecimal spelling of six bytes.
pub open spec fn bytes_hex(b: Seq<u8>) -> Seq<char>
    decreases b.len(),
{
    if b.len() == 0 {
        Seq::empty()
    } else {
        bytes_hex(b.drop_last()) + crate::num::hex2(b.last())
    }
}

/// The normalized MAC that the first six bytes of a buffer hold.
pub open spec fn mac_of_bytes(b: Seq<u8>) -> Option<Seq<char>> {
    if b.len() < 6 {
        None
    } else {
        mac_of(bytes_hex(b.take(6)))
    }
}

/// The first six bytes of a hardware address as a normalized MAC string.
///
/// The platform APIs hand back a fixed-size buffer with a separate length, so
/// anything shorter than six bytes is not an address; anything longer is
/// padding. All-zero and broadcast are rejected by [`normalize_mac`].
pub fn mac_from_bytes(bytes: &[u8]) -> (r: Option<String>)
    ensures
        r.deep_view() == mac_of_bytes(bytes@),
{
    if bytes.len() < 6 {
        return None;
    }
    let mut hex = String::new();
    let mut i: usize = 0;
    while i < 6
        invariant
            i <= 6 <= bytes@.len(),
            hex@ == bytes_hex(bytes@.take(i as int)),
        decreases 6 - i,
    {
        assert(bytes@.take(i + 1).drop_last() == bytes@.take(i as int));
        push_hex2(&mut hex, bytes[i]);
        i = i + 1;
    }
    normalize_mac(hex.as_str())
}

/// The first three parts of a colon-separated text of six.
pub open spec fn oui_of(mac: Seq<char>) -> Option<Seq<char>> {
    let p = crate::text::split(mac, ':');
    if p.len() == 6 {
        Some(p[0] + seq![':'] + p[1] + seq![':'] + p[2])
    } else {
        None
    }
}

/// OUI portion of a normalized MAC (`aa:bb:cc`).
pub fn oui(mac: &str) -> (r: Option<String>)
    ensures
        r.deep_view() == oui_of(mac@),
{
    let p = split_chars(&chars_of(mac), ':');
    let ghost want = crate::text::split(mac@, ':');
    if p.len() == 6 {
        proof {
            crate::seqs::lemma_chars_deep_view(p@[0]);
            crate::seqs::lemma_chars_deep_view(p@[1]);
            crate::seqs::lemma_chars_deep_view(p@[2]);
            assert(want[0] == p.deep_view()[0] && want[1] == p.deep_view()[1] && want[2]
                == p.deep_view()[2]);
        }
        let mut out = string_of(&p[0]);
        out.push(':');
        out.append(string_of(&p[1]).as_str());
        out.push(':');
        out.append(string_of(&p[2]).as_str());
        assert(out@ == want[0] + seq![':'] + want[1] + seq![':'] + want[2]);
        Some(out)
    } else {
        None
    }
}

/// The first octet of a normalized MAC has its second-lowest bit set.
pub open spec fn locally_administered(mac: Seq<char>) -> bool {
    match mac_of(mac) {
        Some(m) => crate::num::value(m.take(2), 16) / 2 % 2 == 1,
        None => false,
    }
}

/// True when a MAC carries the locally-administered bit (bit 1 of the first
/// octet), the marker every modern phone sets on a randomised address.
pub fn is_locally_administered(mac: &str) -> (r: bool)
    ensures
        r == locally_administered(mac@),
{
    let h = hex_chars(mac);
    if h.len() != 12 || all_are(&h, '0') || all_are(&h, 'f') {
        return false;
    }
    proof {
        lemma_hex_digits(mac@);
        let first = colons(h@).take(2);
        assert(first[0] == h@[0] && first[1] == h@[1]);
        reveal_with_fuel(crate::num::value, 3);
        assert(first.drop_last().drop_last() == Seq::<char>::empty());
        assert(crate::num::digit(h@[1], 16) is Some);
        assert(crate::num::value(first, 16) == crate::num::digit(h@[0], 16).unwrap_or(0) * 16
            + crate::num::digit(h@[1], 16).unwrap_or(0));
    }
    match digit_value(h[1], 16) {
        Some(low) => low / 2 % 2 == 1,
        None => false,
    }
}

/// What is kept of a text is hexadecimal and in lower case.
proof fn lemma_hex_digits(s: Seq<char>)
    ensures
        forall|i: int|
            0 <= i < hex_of(s).len() ==> is_hex(#[trigger] hex_of(s)[i])
                && crate::text::ascii_lower_char(hex_of(s)[i]) == hex_of(s)[i],
{
    let keep = |c: char| is_hex(c);
    let kept = s.filter(keep);
    crate::seqs::lemma_filter_holds(s, keep);
    assert forall|i: int| 0 <= i < hex_of(s).len() implies is_hex(#[trigger] hex_of(s)[i])
        && crate::text::ascii_lower_char(hex_of(s)[i]) == hex_of(s)[i] by {
        assert(keep(kept[i]));
    }
}

/// The digits of a colon-separated MAC are the digits it was made of.
proof fn lemma_hex_of_colons(h: Seq<char>)
    requires
        h.len() == 12,
        forall|i: int|
            0 <= i < h.len() ==> is_hex(#[trigger] h[i]) && crate::text::ascii_lower_char(h[i])
                == h[i],
    ensures
        hex_of(colons(h)) == h,
{
    let keep = |c: char| is_hex(c);
    let s = colons(h);
    let f = s.filter(keep);
    assert(s.take(17) == s);
    assert(h.take(12) == h);
    lemma_hex_of_pairs(h, 6);
    assert(f == h);
    assert(crate::text::ascii_lower(h) == h);
}

/// The first `k` pairs of a colon-separated MAC.
proof fn lemma_hex_of_pairs(h: Seq<char>, k: int)
    requires
        h.len() == 12,
        0 <= k <= 6,
        forall|i: int| 0 <= i < h.len() ==> is_hex(#[trigger] h[i]),
    ensures
        colons(h).take(3 * k - (if k == 6 {
            1int
        } else {
            0
        })).filter(|c: char| is_hex(c)) == h.take(2 * k),
    decreases k,
{
    let keep = |c: char| is_hex(c);
    let s = colons(h);
    if k == 0 {
        assert(s.take(0).filter(keep) == Seq::<char>::empty());
        assert(h.take(0) == Seq::<char>::empty());
    } else {
        lemma_hex_of_pairs(h, k - 1);
        let a = s.take(3 * (k - 1));
        let c0 = s[3 * (k - 1)];
        let c1 = s[3 * (k - 1) + 1];
        assert(c0 == h[2 * (k - 1)] && c1 == h[2 * (k - 1) + 1]);
        assert(is_hex(c0) && is_hex(c1));
        crate::seqs::lemma_filter_push(a, c0, keep);
        crate::seqs::lemma_filter_push(a.push(c0), c1, keep);
        assert(h.take(2 * k) == h.take(2 * (k - 1)).push(c0).push(c1));
        if k < 6 {
            crate::seqs::lemma_filter_push(a.push(c0).push(c1), ':', keep);
            assert(s.take(3 * k) == a.push(c0).push(c1).push(':'));
        } else {
            assert(s.take(17) == a.push(c0).push(c1));
        }
    }
}

/// Normalizing is settled after one step: a normalized MAC is its own
/// normalized form.
pub proof fn law_normalize_idempotent(s: Seq<char>)
    requires
        mac_of(s) is Some,
    ensures
        mac_of(mac_of(s).unwrap()) == mac_of(s),
{
    lemma_hex_digits(s);
    lemma_hex_of_colons(hex_of(s));
}

/// A normalized MAC has seventeen characters, colons between pairs of
/// lower-case hexadecimal digits.
pub proof fn law_normalized_shape(s: Seq<char>)
    requires
        mac_of(s) is Some,
    ensures
        mac_of(s).unwrap().len() == 17,
        forall|i: int|
            0 <= i < 17 ==> if i % 3 == 2 {
                #[trigger] mac_of(s).unwrap()[i] == ':'
            } else {
                is_hex(mac_of(s).unwrap()[i]) && !('A' <= mac_of(s).unwrap()[i] <= 'F')
            },
{
    lemma_hex_digits(s);
    let h = hex_of(s);
    assert forall|i: int| 0 <= i < 17 && i % 3 != 2 implies is_hex(
        #[trigger] mac_of(s).unwrap()[i],
    ) && !('A' <= mac_of(s).unwrap()[i] <= 'F') by {
        assert(mac_of(s).unwrap()[i] == h[i / 3 * 2 + i % 3]);
    }
}

/// Only the digits of a MAC count, not their case nor what stands between
/// them.
pub proof fn lemma_spelling_is_irrelevant(a: Seq<char>, b: Seq<char>)
    requires
        hex_of(a) == hex_of(b),
    ensures
        mac_of(a) == mac_of(b),
        locally_administered(a) == locally_administered(b),
{
}

// ----- stability -----

/// Whether a device can be re-identified across scans from these signals.
pub open spec fn stable(primary_name: Option<Seq<char>>, mac: Option<Seq<char>>) -> bool {
    ||| primary_name is Some && !crate::text::blank(primary_name.unwrap())
    ||| mac is Some && mac_of(mac.unwrap()) is Some && !locally_administered(mac.unwrap())
}

/// Whether a device can be re-identified across scans from these signals.
///
/// A name is matchable (`find_device_by_name_on_network`), and so is a MAC
/// that belongs to a real manufacturer. A randomised MAC is not: it changes
/// by design, so a device carrying one and nothing else cannot be told apart
/// from a different device the next time it appears. Neither can a device
/// that offered no MAC and no name at all.
///
/// Unstable identities are recorded like any other, but the diff engine may
/// never report them `gone`: it cannot distinguish "left the network" from
/// "came back wearing a different address".
pub fn is_stable(primary_name: Option<&str>, mac: Option<&str>) -> (r: bool)
    ensures
        r == stable(primary_name.deep_view(), mac.deep_view()),
{
    match primary_name {
        Some(n) => {
            if !is_blank(n) {
                return true;
            }
        },
        None => {},
    }
    match mac {
        Some(m) => normalize_mac(m).is_some() && !is_locally_administered(m),
        None => false,
    }
}

/// A machine identifier: at least twenty-four hexadecimal digits once dashes
/// and underscores are dropped, and nothing else.
pub open spec fn identifier_like(name: Seq<char>) -> bool {
    let compact = name.filter(|c: char| c != '-' && c != '_');
    compact.len() >= 24 && forall|i: int| 0 <= i < compact.len() ==> is_hex(#[trigger] compact[i])
}

/// True when a "name" is really a machine identifier (a UUID or a long hex
/// blob) rather than something a person chose.
///
/// Chromecast-family devices (including the TVs that embed it) publish their
/// mDNS hostname as `<uuid>.local`, which is stable and useless to read. The
/// same device usually advertises a real name over SSDP, so this lets the
/// merge prefer the readable one.
pub fn looks_like_identifier(name: &str) -> (r: bool)
    ensures
        r == identifier_like(name@),
{
    let v = chars_of(name);
    let ghost keep = |c: char| c != '-' && c != '_';
    let ghost compact = name@.filter(keep);
    let mut kept: Vec<char> = Vec::new();
    let mut i: usize = 0;
    assert(v@.take(0).filter(keep) == Seq::<char>::empty());
    while i < v.len()
        invariant
            i <= v.len(),
            keep == (|c: char| c != '-' && c != '_'),
            kept@ == v@.take(i as int).filter(keep),
        decreases v.len() - i,
    {
        assert(v@.take(i + 1) == v@.take(i as int).push(v@[i as int]));
        proof {
            crate::seqs::lemma_filter_push(v@.take(i as int), v@[i as int], keep);
        }
        if v[i] != '-' && v[i] != '_' {
            kept.push(v[i]);
        }
        i = i + 1;
    }
    assert(v@.take(v.len() as int) == v@);
    if kept.len() < 24 {
        return false;
    }
    let mut j: usize = 0;
    while j < kept.len()
        invariant
            j <= kept.len(),
            kept@ == compact,
            compact == name@.filter(|c: char| c != '-' && c != '_'),
            forall|k: int| 0 <= k < j ==> is_hex(#[trigger] compact[k]),
        decreases kept.len() - j,
    {
        if digit_value(kept[j], 16).is_none() {
            assert(!is_hex(compact[j as int]));
            return false;
        }
        j = j + 1;
    }
    true
}

// ----- keys -----

/// The digest that `blake3::hash` computes of a message.
pub uninterp spec fn blake3_digest(message: Seq<u8>) -> Seq<u8>;

/// `blake3::hash`: the 32-byte BLAKE3 digest of a message, which depends on
/// the message alone. Nothing else is claimed of it.
#[verifier::external_body]
fn blake3_hash(message: &[u8]) -> (r: [u8; 32])
    ensures
        r@ == blake3_digest(message@),
{
    *blake3::hash(message).as_bytes()
}

/// The lower-case form that `str::to_lowercase` gives a text.
pub uninterp spec fn lowercase(s: Seq<char>) -> Seq<char>;

/// `str::to_lowercase`: the Unicode lower-case form of a text, which depends
/// on the text alone.
pub assume_specification[ str::to_lowercase ](s: &str) -> (r: String)
    ensures
        r@ == lowercase(s@),
;

/// The message that is hashed for a key: a domain tag, then each part in
/// UTF-8, and a zero byte after each.
pub open spec fn key_message(parts: Seq<Seq<char>>) -> Seq<u8>
    decreases parts.len(),
{
    if parts.len() == 0 {
        vstd::utf8::encode_utf8("laninv-v1"@).push(0)
    } else {
        (key_message(parts.drop_last()) + vstd::utf8::encode_utf8(parts.last())).push(0)
    }
}

/// A key: the first sixteen hexadecimal digits of the message's digest.
pub open spec fn key_of(parts: Seq<Seq<char>>) -> Seq<char> {
    bytes_hex(blake3_digest(key_message(parts)).take(8))
}

/// A text is sixteen hexadecimal digits, the letters among them in lower
/// case.
pub open spec fn is_key(s: Seq<char>) -> bool {
    s.len() == 16 && forall|i: int|
        0 <= i < s.len() ==> ('0' <= #[trigger] s[i] <= '9' || 'a' <= s[i] <= 'f')
}

/// Bytes in hexadecimal are two lower-case digits each.
proof fn lemma_bytes_hex(b: Seq<u8>)
    ensures
        bytes_hex(b).len() == 2 * b.len(),
        forall|i: int|
            0 <= i < bytes_hex(b).len() ==> ('0' <= #[trigger] bytes_hex(b)[i] <= '9' || 'a'
                <= bytes_hex(b)[i] <= 'f'),
    decreases b.len(),
{
    if b.len() > 0 {
        lemma_bytes_hex(b.drop_last());
    }
}

/// Append a part and its closing zero byte to a message.
fn push_part(message: &mut Vec<u8>, part: &str)
    ensures
        final(message)@ == (old(message)@ + vstd::utf8::encode_utf8(part@)).push(0),
{
    let bytes = part.as_bytes();
    let ghost start = message@;
    let mut i: usize = 0;
    while i < bytes.len()
        invariant
            i <= bytes@.len(),
            message@ == start + bytes@.take(i as int),
        decreases bytes@.len() - i,
    {
        message.push(bytes[i]);
        i = i + 1;
    }
    assert(bytes@.take(bytes@.len() as int) == bytes@);
    message.push(0);
}

/// Hash the parts of a composite key.
///
/// The domain tag is deliberately not tied to the product's name: every
/// device and network key derives from it, so changing it silently
/// re-identifies every device in every existing database. Its `-v1` is the
/// version to bump if the key format ever genuinely changes.
fn hash_key(a: &str, b: &str, c: &str) -> (r: String)
    ensures
        r@ == key_of(seq![a@, b@, c@]),
        is_key(r@),
{
    let mut message: Vec<u8> = Vec::new();
    push_part(&mut message, "laninv-v1");
    push_part(&mut message, a);
    push_part(&mut message, b);
    push_part(&mut message, c);
    proof {
        let all = seq![a@, b@, c@];
        let tag = vstd::utf8::encode_utf8("laninv-v1"@);
        assert(Seq::<u8>::empty() + tag == tag);
        assert(all.drop_last() == seq![a@, b@]);
        assert(seq![a@, b@].drop_last() == seq![a@]);
        assert(seq![a@].drop_last() == Seq::<Seq<char>>::empty());
        reveal_with_fuel(key_message, 4);
    }
    let digest = blake3_hash(message.as_slice());
    let mut out = String::new();
    let mut i: usize = 0;
    while i < 8
        invariant
            i <= 8,
            digest@.len() == 32,
            out@ == bytes_hex(digest@.take(i as int)),
        decreases 8 - i,
    {
        assert(digest@.take(i + 1).drop_last() == digest@.take(i as int));
        push_hex2(&mut out, digest[i]);
        i = i + 1;
    }
    proof {
        lemma_bytes_hex(digest@.take(8));
    }
    out
}

/// The gateway's part of a network key: its normalized MAC, a spelling that
/// is no MAC in lower case, or a fixed word where there is no gateway.
pub open spec fn gateway_part(gateway_mac: Option<Seq<char>>) -> Seq<char> {
    match gateway_mac {
        Some(m) => match mac_of(m) {
            Some(n) => n,
            None => lowercase(m),
        },
        None => "no-gateway"@,
    }
}

/// The key of a network.
pub open spec fn network_key_of(
    gateway_mac: Option<Seq<char>>,
    subnet: Seq<char>,
    kind: IfKind,
) -> Seq<char> {
    key_of(seq![gateway_part(gateway_mac), subnet, kind.text()])
}

/// Composite network key: gateway MAC when known, plus subnet and interface
/// kind. Stable across scans on the same network, distinct across networks
/// even when they reuse the same RFC1918 range.
pub fn network_key(gateway_mac: Option<&str>, subnet: &str, kind: IfKind) -> (r: String)
    ensures
        r@ == network_key_of(gateway_mac.deep_view(), subnet@, kind),
        is_key(r@),
{
    let gw = match gateway_mac {
        Some(m) => match normalize_mac(m) {
            Some(n) => n,
            None => m.to_lowercase(),
        },
        None => "no-gateway".to_string(),
    };
    hash_key(gw.as_str(), subnet, kind.as_str())
}

/// The normalized form of a MAC that may be missing.
pub open spec fn known_mac(mac: Option<Seq<char>>) -> Option<Seq<char>> {
    match mac {
        Some(m) => mac_of(m),
        None => None,
    }
}

/// The normalized form of a name that may be missing: in lower case, without
/// the white space around it. A blank name counts as missing.
pub open spec fn known_name(primary_name: Option<Seq<char>>) -> Option<Seq<char>> {
    match primary_name {
        Some(n) => if crate::text::blank(n) {
            None
        } else {
            Some(lowercase(crate::text::trimmed(n)))
        },
        None => None,
    }
}

/// The name's part of a device key: the normalized name; without one the
/// normalized MAC, and without that a fixed word.
pub open spec fn name_part(primary_name: Option<Seq<char>>, mac: Option<Seq<char>>) -> Seq<char> {
    match known_name(primary_name) {
        Some(n) => n,
        None => match known_mac(mac) {
            Some(m) => "mac:"@ + m,
            None => "anonymous"@,
        },
    }
}

/// The manufacturer's part of a device key.
pub open spec fn oui_part(mac: Option<Seq<char>>) -> Seq<char> {
    match known_mac(mac) {
        Some(m) => match oui_of(m) {
            Some(o) => o,
            None => "no-oui"@,
        },
        None => "no-oui"@,
    }
}

/// The key of a device.
pub open spec fn device_key_of(
    primary_name: Option<Seq<char>>,
    mac: Option<Seq<char>>,
    origin_network: Seq<char>,
) -> Seq<char> {
    key_of(seq![name_part(primary_name, mac), oui_part(mac), origin_network])
}

/// Composite device key.
///
/// `primary_name`: best name signal (mDNS hostname, NetBIOS name, SSDP name).
/// `mac`: MAC in any spelling if known. `origin_network`: network key where
/// the device was first observed. When no name is known the key degrades to a
/// MAC-based identity; the aliasing layer upgrades it once a name appears.
pub fn device_key(
    primary_name: Option<&str>,
    mac: Option<&str>,
    origin_network: &str,
) -> (r: String)
    ensures
        r@ == device_key_of(primary_name.deep_view(), mac.deep_view(), origin_network@),
        is_key(r@),
{
    let norm_mac: Option<String> = match mac {
        Some(m) => normalize_mac(m),
        None => None,
    };
    let fallback = match &norm_mac {
        Some(m) => {
            let mut s = "mac:".to_string();
            s.append(m.as_str());
            s
        },
        None => "anonymous".to_string(),
    };
    let name = match primary_name {
        Some(n) => {
            let t = trim(n);
            if t.as_str().is_empty() {
                fallback
            } else {
                t.as_str().to_lowercase()
            }
        },
        None => fallback,
    };
    let maker = match &norm_mac {
        Some(m) => match oui(m.as_str()) {
            Some(o) => o,
            None => "no-oui".to_string(),
        },
        None => "no-oui".to_string(),
    };
    hash_key(name.as_str(), maker.as_str(), origin_network)
}

/// A device's key does not depend on how its MAC is spelled.
pub proof fn law_device_key_spelling(
    name: Option<Seq<char>>,
    a: Seq<char>,
    b: Seq<char>,
    network: Seq<char>,
)
    requires
        hex_of(a) == hex_of(b),
    ensures
        device_key_of(name, Some(a), network) == device_key_of(name, Some(b), network),
{
    lemma_spelling_is_irrelevant(a, b);
}

/// A device's key does not depend on the case of its name nor on the white
/// space around it.
pub proof fn law_device_key_name_case(
    a: Seq<char>,
    b: Seq<char>,
    mac: Option<Seq<char>>,
    network: Seq<char>,
)
    requires
        known_name(Some(a)) == known_name(Some(b)),
    ensures
        device_key_of(Some(a), mac, network) == device_key_of(Some(b), mac, network),
{
}

/// A blank name identifies nothing: the key is that of a device without one.
pub proof fn law_device_key_blank_name(n: Seq<char>, mac: Option<Seq<char>>, network: Seq<char>)
    requires
        crate::text::blank(n),
    ensures
        device_key_of(Some(n), mac, network) == device_key_of(None, mac, network),
{
}

/// What a device's key depends on: its normalized name and its normalized
/// MAC, of which only the manufacturer's part counts where there is a name.
pub proof fn law_device_key_is_composite(
    a: Option<Seq<char>>,
    mac_a: Option<Seq<char>>,
    b: Option<Seq<char>>,
    mac_b: Option<Seq<char>>,
    network: Seq<char>,
)
    requires
        known_name(a) == known_name(b),
        known_mac(mac_a) == known_mac(mac_b) || (known_name(a) is Some && oui_part(mac_a)
            == oui_part(mac_b)),
    ensures
        device_key_of(a, mac_a, network) == device_key_of(b, mac_b, network),
{
}

/// A network's key does not depend on how its gateway's MAC is spelled.
pub proof fn law_network_key_spelling(
    a: Seq<char>,
    b: Seq<char>,
    subnet: Seq<char>,
    kind: IfKind,
)
    requires
        mac_of(a) is Some,
        mac_of(a) == mac_of(b),
    ensures
        network_key_of(Some(a), subnet, kind) == network_key_of(Some(b), subnet, kind),
{
}

/// A hexadecimal digit, in either case.
pub open spec fn hexadecimal(c: char) -> bool {
    '0' <= c <= '9' || 'a' <= c <= 'f' || 'A' <= c <= 'F'
}

/// A normalized MAC has the digits of what it was read from, in order and in
/// lower case, and nothing else but colons. There is one for every text with
/// twelve digits that are not all zeros or all f, and for no other.
pub proof fn law_normalized_mac_keeps_the_digits(s: Seq<char>)
    ensures
        ({
            let digits = s.filter(|c: char| hexadecimal(c));
            &&& mac_of(s) is Some <==> digits.len() == 12 && (exists|i: int|
                0 <= i < 12 && #[trigger] digits[i] != '0') && (exists|i: int|
                0 <= i < 12 && #[trigger] digits[i] != 'f' && digits[i] != 'F')
            &&& mac_of(s) is Some ==> mac_of(s).unwrap().len() == 17 && forall|i: int|
                0 <= i < 12 ==> mac_of(s).unwrap()[i / 2 * 3 + i % 2]
                    == crate::text::ascii_lower_char(#[trigger] digits[i])
        }),
{
    let digits = s.filter(|c: char| hexadecimal(c));
    let keep = |c: char| is_hex(c);
    assert(keep =~= (|c: char| hexadecimal(c)));
    let h = hex_of(s);
    assert(h == crate::text::ascii_lower(digits));
    assert(h.len() == digits.len());
    let zeros = Seq::new(12, |i: int| '0');
    let effs = Seq::new(12, |i: int| 'f');
    if h.len() == 12 {
        assert forall|i: int| 0 <= i < 12 implies #[trigger] h[i] == crate::text::ascii_lower_char(
            digits[i],
        ) by {}
        if h != zeros {
            assert(exists|i: int| 0 <= i < 12 && #[trigger] h[i] != '0') by {
                if forall|i: int| 0 <= i < 12 ==> #[trigger] h[i] == '0' {
                    assert(h =~= zeros);
                }
            }
            let i = choose|i: int| 0 <= i < 12 && #[trigger] h[i] != '0';
            assert(digits[i] != '0');
        } else {
            assert forall|i: int| 0 <= i < 12 implies #[trigger] digits[i] == '0' by {
                assert(h[i] == zeros[i]);
            }
        }
        crate::seqs::lemma_filter_holds(s, |c: char| hexadecimal(c));
        if h != effs {
            assert(exists|i: int| 0 <= i < 12 && #[trigger] h[i] != 'f') by {
                if forall|i: int| 0 <= i < 12 ==> #[trigger] h[i] == 'f' {
                    assert(h =~= effs);
                }
            }
            let i = choose|i: int| 0 <= i < 12 && #[trigger] h[i] != 'f';
            assert(digits[i] != 'f' && digits[i] != 'F');
        } else {
            assert forall|i: int| 0 <= i < 12 implies #[trigger] digits[i] == 'f' || digits[i]
                == 'F' by {
                assert(h[i] == effs[i]);
            }
        }
        if mac_of(s) is Some {
            assert forall|i: int| 0 <= i < 12 implies mac_of(s).unwrap()[i / 2 * 3 + i % 2]
                == crate::text::ascii_lower_char(#[trigger] digits[i]) by {
                let k = i / 2 * 3 + i % 2;
                assert(k % 3 == i % 2);
                assert(k / 3 * 2 + k % 3 == i);
            }
        }
    }
}

/// An identity is stable exactly where there is a name that says something, or
/// a MAC that a maker gave out: one whose second digit does not carry the mark
/// of a locally given one.
pub proof fn law_stable_identity(primary_name: Option<Seq<char>>, mac: Option<Seq<char>>)
    ensures
        stable(primary_name, mac) <==> {
            ||| primary_name is Some && exists|i: int|
                0 <= i < primary_name.unwrap().len() && !crate::text::is_space(
                    #[trigger] primary_name.unwrap()[i],
                )
            ||| mac is Some && mac_of(mac.unwrap()) is Some && ({
                let d = mac_of(mac.unwrap()).unwrap()[1];
                d == '0' || d == '1' || d == '4' || d == '5' || d == '8' || d == '9' || d == 'c'
                    || d == 'd'
            })
        },
{
    if primary_name is Some {
        crate::text::law_trimmed(primary_name.unwrap());
    }
    if mac is Some && mac_of(mac.unwrap()) is Some {
        let m = mac_of(mac.unwrap()).unwrap();
        law_normalized_shape(mac.unwrap());
        assert(is_hex(m[0]) && is_hex(m[1]) && !('A' <= m[1] <= 'F')) by {
            assert(0int % 3 != 2 && 1int % 3 != 2);
        }
        let two = m.take(2);
        reveal_with_fuel(crate::num::value, 3);
        assert(two.drop_last().drop_last() =~= Seq::<char>::empty());
        assert(two.last() == m[1]);
        assert(two.drop_last().last() == m[0]);
    }
}

/// A pair of digits of a normalized MAC has no colon in it.
proof fn lemma_pair(m: Seq<char>, k: int)
    requires
        m.len() == 17,
        0 <= k < 6,
        forall|i: int| 0 <= i < 17 && i % 3 != 2 ==> is_hex(#[trigger] m[i]),
    ensures
        crate::text::split(m.subrange(3 * k, 3 * k + 2), ':') == seq![m.subrange(3 * k, 3 * k + 2)],
{
    let p = m.subrange(3 * k, 3 * k + 2);
    assert((3 * k) % 3 == 0 && (3 * k + 1) % 3 == 1);
    assert(is_hex(m[3 * k]) && is_hex(m[3 * k + 1]));
    assert(p[0] == m[3 * k] && p[1] == m[3 * k + 1]);
    assert(!p.contains(':')) by {
        if p.contains(':') {
            let i = choose|i: int| 0 <= i < p.len() && p[i] == ':';
            assert(i == 0 || i == 1);
        }
    }
    crate::text::lemma_split_free(p, ':');
}

/// The maker's part of a normalized MAC is the first three of its pairs.
pub proof fn law_oui_is_the_first_half(s: Seq<char>)
    requires
        mac_of(s) is Some,
    ensures
        oui_of(mac_of(s).unwrap()) == Some(mac_of(s).unwrap().take(8)),
{
    let m = mac_of(s).unwrap();
    law_normalized_shape(s);
    assert forall|i: int| 0 <= i < 17 && i % 3 != 2 implies is_hex(#[trigger] m[i]) by {}
    let p0 = m.subrange(0, 2);
    let p1 = m.subrange(3, 5);
    let p2 = m.subrange(6, 8);
    let p3 = m.subrange(9, 11);
    let p4 = m.subrange(12, 14);
    let p5 = m.subrange(15, 17);
    lemma_pair(m, 0);
    lemma_pair(m, 1);
    lemma_pair(m, 2);
    lemma_pair(m, 3);
    lemma_pair(m, 4);
    lemma_pair(m, 5);
    let t4 = p4 + seq![':'] + p5;
    let t3 = p3 + seq![':'] + t4;
    let t2 = p2 + seq![':'] + t3;
    let t1 = p1 + seq![':'] + t2;
    crate::text::lemma_split_concat(p4, p5, ':');
    crate::text::lemma_split_concat(p3, t4, ':');
    crate::text::lemma_split_concat(p2, t3, ':');
    crate::text::lemma_split_concat(p1, t2, ':');
    crate::text::lemma_split_concat(p0, t1, ':');
    assert(m[2] == ':' && m[5] == ':' && m[8] == ':' && m[11] == ':' && m[14] == ':') by {
        assert(2int % 3 == 2 && 5int % 3 == 2 && 8int % 3 == 2 && 11int % 3 == 2 && 14int % 3 == 2);
    }
    assert(m =~= p0 + seq![':'] + t1);
    let all = crate::text::split(m, ':');
    assert(all =~= seq![p0, p1, p2, p3, p4, p5]);
    assert(p0 + seq![':'] + p1 + seq![':'] + p2 =~= m.take(8));
}

} // verus!
