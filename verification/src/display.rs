//! One rule for what a device is called on screen.

use vstd::prelude::*;
use vstd::string::*;

use crate::text::{chars_of, slice, string_of, trim};

verus! {

/// A signal that says something: the text without the white space around it,
/// unless nothing is left.
pub open spec fn signal(v: Option<Seq<char>>) -> Option<Seq<char>> {
    match v {
        Some(s) => if crate::text::blank(s) {
            None
        } else {
            Some(crate::text::trimmed(s))
        },
        None => None,
    }
}

/// The first eight characters of a key, or all of a shorter one.
pub open spec fn short(key: Seq<char>) -> Seq<char> {
    if key.len() < 8 {
        key
    } else {
        key.take(8)
    }
}

/// The display name: the first signal that says something, and the short key
/// where none does.
pub open spec fn display_of(
    user_name: Option<Seq<char>>,
    primary_name: Option<Seq<char>>,
    mac: Option<Seq<char>>,
    last_ip: Option<Seq<char>>,
    key: Seq<char>,
) -> Seq<char> {
    if signal(user_name) is Some {
        signal(user_name).unwrap()
    } else if signal(primary_name) is Some {
        signal(primary_name).unwrap()
    } else if signal(mac) is Some {
        signal(mac).unwrap()
    } else if signal(last_ip) is Some {
        signal(last_ip).unwrap()
    } else {
        short(key)
    }
}

/// A signal that says something, trimmed.
fn pick(v: Option<&str>) -> (r: Option<String>)
    ensures
        r.deep_view() == signal(v.deep_view()),
{
    match v {
        Some(s) => {
            let t = trim(s);
            if t.as_str().is_empty() {
                None
            } else {
                Some(t)
            }
        },
        None => None,
    }
}

/// The device's display name, in descending order of what a person would
/// recognise: the name they gave it, the name it announced, its MAC, the
/// address it was last seen at, and finally the short form of its key.
pub fn device_display(
    user_name: Option<&str>,
    primary_name: Option<&str>,
    mac: Option<&str>,
    last_ip: Option<&str>,
    key: &str,
) -> (r: String)
    ensures
        r@ == display_of(
            user_name.deep_view(),
            primary_name.deep_view(),
            mac.deep_view(),
            last_ip.deep_view(),
            key@,
        ),
{
    if let Some(s) = pick(user_name) {
        return s;
    }
    if let Some(s) = pick(primary_name) {
        return s;
    }
    if let Some(s) = pick(mac) {
        return s;
    }
    if let Some(s) = pick(last_ip) {
        return s;
    }
    short_key(key)
}

/// The eight characters of a device or network key that the CLI and GUI
/// display, and that `get_device_by_ref` / `get_network_by_ref` resolve by
/// prefix.
pub fn short_key(key: &str) -> (r: String)
    ensures
        r@ == short(key@),
{
    let v = chars_of(key);
    if v.len() < 8 {
        string_of(&v)
    } else {
        string_of(&slice(&v, 0, 8))
    }
}

/// A device always reads as something: its name on screen is never empty
/// while its key is not.
pub proof fn law_display_not_empty(
    user_name: Option<Seq<char>>,
    primary_name: Option<Seq<char>>,
    mac: Option<Seq<char>>,
    last_ip: Option<Seq<char>>,
    key: Seq<char>,
)
    requires
        key.len() > 0,
    ensures
        display_of(user_name, primary_name, mac, last_ip, key).len() > 0,
{
}

/// A name the user chose beats everything else.
pub proof fn law_display_user_name_wins(
    user_name: Seq<char>,
    primary_name: Option<Seq<char>>,
    mac: Option<Seq<char>>,
    last_ip: Option<Seq<char>>,
    key: Seq<char>,
)
    requires
        !crate::text::blank(user_name),
    ensures
        display_of(Some(user_name), primary_name, mac, last_ip, key) == crate::text::trimmed(
            user_name,
        ),
{
}

/// A text says something: some character of it is no white space.
pub open spec fn says(v: Option<Seq<char>>) -> bool {
    v is Some && exists|i: int|
        0 <= i < v.unwrap().len() && !crate::text::is_space(#[trigger] v.unwrap()[i])
}

/// A blank text is white space throughout.
proof fn lemma_blank(s: Seq<char>)
    ensures
        crate::text::blank(s) <==> forall|i: int|
            0 <= i < s.len() ==> crate::text::is_space(#[trigger] s[i]),
{
    crate::text::law_trimmed(s);
}

/// The order in which a device's name on screen is chosen: what the user
/// called it, what it calls itself, its MAC, its address, each where it says
/// something and without the white space around it, and the first eight
/// characters of its key where none does.
pub proof fn law_display_order(
    user_name: Option<Seq<char>>,
    primary_name: Option<Seq<char>>,
    mac: Option<Seq<char>>,
    last_ip: Option<Seq<char>>,
    key: Seq<char>,
)
    ensures
        ({
            let shown = display_of(user_name, primary_name, mac, last_ip, key);
            &&& says(user_name) ==> shown == crate::text::trimmed(user_name.unwrap())
            &&& !says(user_name) && says(primary_name) ==> shown == crate::text::trimmed(
                primary_name.unwrap(),
            )
            &&& !says(user_name) && !says(primary_name) && says(mac) ==> shown
                == crate::text::trimmed(mac.unwrap())
            &&& !says(user_name) && !says(primary_name) && !says(mac) && says(last_ip) ==> shown
                == crate::text::trimmed(last_ip.unwrap())
            &&& !says(user_name) && !says(primary_name) && !says(mac) && !says(last_ip) ==> shown
                == if key.len() > 8 {
                key.take(8)
            } else {
                key
            }
        }),
{
    if user_name is Some {
        lemma_blank(user_name.unwrap());
    }
    if primary_name is Some {
        lemma_blank(primary_name.unwrap());
    }
    if mac is Some {
        lemma_blank(mac.unwrap());
    }
    if last_ip is Some {
        lemma_blank(last_ip.unwrap());
    }
    assert(key.len() == 8 ==> key.take(8) =~= key);
}

} // verus!
