//! Text primitives: every string is reasoned about as its sequence of
//! characters.

use vstd::prelude::*;
use vstd::string::*;

verus! {

broadcast use crate::seqs::lemma_chars_deep_view;

// ----- moving between strings and characters -----

/// `String::push` appends one character to the end of the string.
pub assume_specification[ String::push ](s: &mut String, c: char)
    ensures
        final(s)@ == old(s)@.push(c),
;

/// The characters of a string, in order.
pub fn chars_of(s: &str) -> (r: Vec<char>)
    ensures
        r@ == s@,
{
    let mut out: Vec<char> = Vec::new();
    for c in it: s.chars()
        invariant
            out@ == it.seq().take(it.index() as int),
            it.seq() == s@,
    {
        out.push(c);
    }
    out
}

/// The string made of these characters.
pub fn string_of(v: &Vec<char>) -> (r: String)
    ensures
        r@ == v@,
{
    let mut out = String::new();
    let mut i: usize = 0;
    while i < v.len()
        invariant
            i <= v.len(),
            out@ == v@.take(i as int),
        decreases v.len() - i,
    {
        out.push(v[i]);
        i = i + 1;
    }
    out
}

/// Two string slices hold the same characters.
pub fn str_eq(a: &str, b: &str) -> (r: bool)
    ensures
        r == (a@ == b@),
{
    let x = a.as_bytes();
    let y = b.as_bytes();
    proof {
        vstd::utf8::encode_utf8_decode_utf8(a@);
        vstd::utf8::encode_utf8_decode_utf8(b@);
    }
    if x.len() != y.len() {
        return false;
    }
    let mut i: usize = 0;
    while i < x.len()
        invariant
            i <= x.len(),
            x.len() == y.len(),
            x@ == a.spec_bytes(),
            y@ == b.spec_bytes(),
            x@.take(i as int) == y@.take(i as int),
        decreases x.len() - i,
    {
        if x[i] != y[i] {
            assert(x@[i as int] != y@[i as int]);
            return false;
        }
        i = i + 1;
    }
    assert(x@.take(x.len() as int) == x@ && y@.take(y.len() as int) == y@);
    true
}


/// A copy of an optional string.
pub fn clone_opt(o: &Option<String>) -> (r: Option<String>)
    ensures
        r == *o,
{
    match o {
        Some(s) => Some(s.clone()),
        None => None,
    }
}

/// An optional string, borrowed.
pub fn as_opt_str(o: &Option<String>) -> (r: Option<&str>)
    ensures
        r.deep_view() == o.deep_view(),
{
    match o {
        Some(s) => Some(s.as_str()),
        None => None,
    }
}

/// An optional string slice, owned.
pub fn own_opt(o: Option<&str>) -> (r: Option<String>)
    ensures
        r.deep_view() == o.deep_view(),
{
    match o {
        Some(s) => Some(s.to_string()),
        None => None,
    }
}

/// A copy of a list of strings.
pub fn clone_strings(v: &Vec<String>) -> (r: Vec<String>)
    ensures
        r@ == v@,
{
    let mut out: Vec<String> = Vec::new();
    let mut i: usize = 0;
    while i < v.len()
        invariant
            i <= v.len(),
            out@ == v@.take(i as int),
        decreases v.len() - i,
    {
        out.push(v[i].clone());
        i = i + 1;
    }
    assert(v@.take(v.len() as int) == v@);
    out
}

/// Whether a list of strings holds this one.
pub fn contains_str(v: &Vec<String>, x: &str) -> (r: bool)
    ensures
        r == v.deep_view().contains(x@),
{
    let mut i: usize = 0;
    while i < v.len()
        invariant
            i <= v.len(),
            forall|j: int| 0 <= j < i ==> #[trigger] v@[j]@ != x@,
        decreases v.len() - i,
    {
        if str_eq(v[i].as_str(), x) {
            assert(v.deep_view()[i as int] == x@);
            return true;
        }
        i = i + 1;
    }
    assert(!v.deep_view().contains(x@)) by {
        if v.deep_view().contains(x@) {
            let j = choose|j: int| 0 <= j < v.deep_view().len() && v.deep_view()[j] == x@;
            assert(v@[j]@ == x@);
        }
    }
    false
}

// ----- white space -----

/// The Unicode `White_Space` property.
pub open spec fn is_space(c: char) -> bool {
    let u = c as u32;
    ||| 0x09 <= u <= 0x0d
    ||| u == 0x20
    ||| u == 0x85
    ||| u == 0xa0
    ||| u == 0x1680
    ||| 0x2000 <= u <= 0x200a
    ||| u == 0x2028
    ||| u == 0x2029
    ||| u == 0x202f
    ||| u == 0x205f
    ||| u == 0x3000
}

/// Whether a character is white space.
pub fn is_whitespace(c: char) -> (r: bool)
    ensures
        r == is_space(c),
{
    let u: u32 = c as u32;
    (0x09 <= u && u <= 0x0d) || u == 0x20 || u == 0x85 || u == 0xa0 || u == 0x1680 || (0x2000 <= u
        && u <= 0x200a) || u == 0x2028 || u == 0x2029 || u == 0x202f || u == 0x205f || u == 0x3000
}

/// Without the white space at the front.
pub open spec fn trim_start(s: Seq<char>) -> Seq<char>
    decreases s.len(),
{
    if s.len() > 0 && is_space(s[0]) {
        trim_start(s.drop_first())
    } else {
        s
    }
}

/// Without the white space at the back.
pub open spec fn trim_end(s: Seq<char>) -> Seq<char>
    decreases s.len(),
{
    if s.len() > 0 && is_space(s.last()) {
        trim_end(s.drop_last())
    } else {
        s
    }
}

/// Without the white space at either end.
pub open spec fn trimmed(s: Seq<char>) -> Seq<char> {
    trim_end(trim_start(s))
}

/// Holds nothing but white space.
pub open spec fn blank(s: Seq<char>) -> bool {
    trimmed(s).len() == 0
}

/// The part of a character list from `a` up to `b`.
pub fn slice(v: &Vec<char>, a: usize, b: usize) -> (r: Vec<char>)
    requires
        a <= b <= v.len(),
    ensures
        r@ == v@.subrange(a as int, b as int),
{
    let mut out: Vec<char> = Vec::new();
    let mut i: usize = a;
    while i < b
        invariant
            a <= i <= b <= v.len(),
            out@ == v@.subrange(a as int, i as int),
        decreases b - i,
    {
        out.push(v[i]);
        i = i + 1;
    }
    out
}

/// Trim a character list at both ends.
pub fn trim_chars(v: &Vec<char>) -> (r: Vec<char>)
    ensures
        r@ == trimmed(v@),
{
    let mut a: usize = 0;
    assert(v@.subrange(0, v.len() as int) == v@);
    while a < v.len() && is_whitespace(v[a])
        invariant
            a <= v.len(),
            trim_start(v@) == trim_start(v@.subrange(a as int, v.len() as int)),
        decreases v.len() - a,
    {
        assert(v@.subrange(a as int, v.len() as int).drop_first() == v@.subrange(
            a + 1,
            v.len() as int,
        ));
        a = a + 1;
    }
    let mut b: usize = v.len();
    while b > a && is_whitespace(v[b - 1])
        invariant
            a <= b <= v.len(),
            trimmed(v@) == trim_end(v@.subrange(a as int, b as int)),
        decreases b - a,
    {
        assert(v@.subrange(a as int, b as int).drop_last() == v@.subrange(a as int, b - 1));
        b = b - 1;
    }
    slice(v, a, b)
}

/// Trim a string at both ends.
pub fn trim(s: &str) -> (r: String)
    ensures
        r@ == trimmed(s@),
{
    string_of(&trim_chars(&chars_of(s)))
}

/// Whether a string holds nothing but white space.
pub fn is_blank(s: &str) -> (r: bool)
    ensures
        r == blank(s@),
{
    trim_chars(&chars_of(s)).len() == 0
}

// ----- splitting and joining -----

/// The pieces between separators; one more piece than there are separators.
pub open spec fn split(s: Seq<char>, sep: char) -> Seq<Seq<char>>
    decreases s.len(),
{
    if s.len() == 0 {
        seq![Seq::<char>::empty()]
    } else {
        let init = split(s.drop_last(), sep);
        if s.last() == sep {
            init.push(Seq::<char>::empty())
        } else {
            init.drop_last().push(init.last().push(s.last()))
        }
    }
}

/// The pieces put back together with a separator between them.
pub open spec fn join(parts: Seq<Seq<char>>, sep: Seq<char>) -> Seq<char>
    decreases parts.len(),
{
    if parts.len() == 0 {
        Seq::empty()
    } else if parts.len() == 1 {
        parts[0]
    } else {
        join(parts.drop_last(), sep) + sep + parts.last()
    }
}

/// Splitting always yields at least one piece.
pub proof fn lemma_split_nonempty(s: Seq<char>, sep: char)
    ensures
        split(s, sep).len() >= 1,
    decreases s.len(),
{
    if s.len() > 0 {
        lemma_split_nonempty(s.drop_last(), sep);
    }
}

/// Joining what was split gives the text back.
pub proof fn lemma_join_split(s: Seq<char>, sep: char)
    ensures
        join(split(s, sep), seq![sep]) == s,
    decreases s.len(),
{
    if s.len() > 0 {
        let init = split(s.drop_last(), sep);
        lemma_split_nonempty(s.drop_last(), sep);
        lemma_join_split(s.drop_last(), sep);
        if s.last() == sep {
            assert(split(s, sep).drop_last() == init);
            assert(s == s.drop_last() + seq![sep] + Seq::<char>::empty());
        } else {
            let all = split(s, sep);
            assert(all.drop_last() == init.drop_last());
            assert(s == s.drop_last().push(s.last()));
            if init.len() > 1 {
                assert(join(init.drop_last(), seq![sep]) + seq![sep] + init.last().push(s.last())
                    == (join(init.drop_last(), seq![sep]) + seq![sep] + init.last()).push(s.last()));
            }
        }
    }
}

/// A text without the separator is one piece.
pub proof fn lemma_split_free(s: Seq<char>, sep: char)
    requires
        !s.contains(sep),
    ensures
        split(s, sep) == seq![s],
    decreases s.len(),
{
    if s.len() > 0 {
        assert(s.contains(s.last()));
        assert forall|c: char| s.drop_last().contains(c) implies s.contains(c) by {
            let i = choose|i: int| 0 <= i < s.drop_last().len() && s.drop_last()[i] == c;
            assert(s[i] == c);
        }
        lemma_split_free(s.drop_last(), sep);
        assert(s.drop_last().push(s.last()) == s);
        assert(split(s, sep) == seq![s]);
    } else {
        assert(s == Seq::<char>::empty());
    }
}

/// Texts joined by a separator split into the pieces of each.
pub proof fn lemma_split_concat(a: Seq<char>, b: Seq<char>, sep: char)
    ensures
        split(a + seq![sep] + b, sep) == split(a, sep) + split(b, sep),
    decreases b.len(),
{
    let s = a + seq![sep] + b;
    if b.len() == 0 {
        assert(s.drop_last() == a);
        assert(split(b, sep) == seq![Seq::<char>::empty()]);
    } else {
        lemma_split_concat(a, b.drop_last(), sep);
        lemma_split_nonempty(b.drop_last(), sep);
        assert(s.drop_last() == a + seq![sep] + b.drop_last());
    }
    assert(split(s, sep) == split(a, sep) + split(b, sep));
}

/// A text that neither begins nor ends in white space is trimmed already.
pub proof fn lemma_trim_nothing(s: Seq<char>)
    requires
        s.len() > 0 ==> !is_space(s[0]) && !is_space(s.last()),
    ensures
        trimmed(s) == s,
{
}

/// Split a character list at every separator.
pub fn split_chars(v: &Vec<char>, sep: char) -> (r: Vec<Vec<char>>)
    ensures
        r.deep_view() == split(v@, sep),
{
    let mut done: Vec<Vec<char>> = Vec::new();
    let mut cur: Vec<char> = Vec::new();
    let mut i: usize = 0;
    assert(done.deep_view().push(cur@) == split(v@.take(0), sep));
    while i < v.len()
        invariant
            i <= v.len(),
            done.deep_view().push(cur@) == split(v@.take(i as int), sep),
        decreases v.len() - i,
    {
        let ghost before = done.deep_view().push(cur@);
        assert(v@.take(i + 1).drop_last() == v@.take(i as int));
        if v[i] == sep {
            done.push(cur);
            cur = Vec::new();
            assert(done.deep_view() == before);
        } else {
            cur.push(v[i]);
            assert(before.drop_last() == done.deep_view());
        }
        i = i + 1;
    }
    assert(v@.take(v.len() as int) == v@);
    let ghost prev = done.deep_view();
    done.push(cur);
    assert(done.deep_view() == prev.push(cur@));
    done
}

/// Join strings with a separator.
pub fn join_strings(parts: &Vec<String>, sep: &str) -> (r: String)
    ensures
        r@ == join(parts.deep_view(), sep@),
{
    let mut out = String::new();
    let mut i: usize = 0;
    while i < parts.len()
        invariant
            i <= parts.len(),
            out@ == join(parts.deep_view().take(i as int), sep@),
        decreases parts.len() - i,
    {
        assert(parts.deep_view().take(i + 1).drop_last() == parts.deep_view().take(i as int));
        if i > 0 {
            out.append(sep);
        }
        out.append(parts[i].as_str());
        assert(i == 0 ==> Seq::<char>::empty() + parts@[0]@ == parts@[0]@);
        i = i + 1;
    }
    assert(parts.deep_view().take(parts.len() as int) == parts.deep_view());
    out
}

/// The runs of characters between white space.
pub open spec fn words(s: Seq<char>) -> Seq<Seq<char>>
    decreases s.len(),
{
    if s.len() == 0 {
        Seq::empty()
    } else {
        let init = words(s.drop_last());
        if is_space(s.last()) {
            init
        } else if s.len() == 1 || is_space(s[s.len() - 2]) {
            init.push(seq![s.last()])
        } else {
            init.drop_last().push(init.last().push(s.last()))
        }
    }
}

/// Split a character list at runs of white space.
pub fn split_words(v: &Vec<char>) -> (r: Vec<Vec<char>>)
    ensures
        r.deep_view() == words(v@),
{
    let mut done: Vec<Vec<char>> = Vec::new();
    let mut cur: Vec<char> = Vec::new();
    let mut i: usize = 0;
    assert(done.deep_view() == words(v@.take(0)));
    while i < v.len()
        invariant
            i <= v.len(),
            cur@.len() == 0 <==> (i == 0 || is_space(v@[i - 1])),
            words(v@.take(i as int)) == if cur@.len() == 0 {
                done.deep_view()
            } else {
                done.deep_view().push(cur@)
            },
        decreases v.len() - i,
    {
        let ghost before = words(v@.take(i as int));
        let ghost done0 = done.deep_view();
        let ghost cur0 = cur@;
        assert(v@.take(i + 1).drop_last() == v@.take(i as int));
        if is_whitespace(v[i]) {
            if cur.len() > 0 {
                done.push(cur);
                cur = Vec::new();
                assert(done.deep_view() == done0.push(cur0));
            }
        } else {
            cur.push(v[i]);
            if cur.len() > 1 {
                assert(before.drop_last() == done0);
            } else {
                assert(cur@ == seq![v@[i as int]]);
            }
        }
        i = i + 1;
    }
    assert(v@.take(v.len() as int) == v@);
    if cur.len() > 0 {
        let ghost done0 = done.deep_view();
        done.push(cur);
        assert(done.deep_view() == done0.push(cur@));
    }
    done
}

/// A piece that a line feed ended, without the carriage return before it.
pub open spec fn strip_cr(s: Seq<char>) -> Seq<char> {
    if s.len() > 0 && s.last() == '\r' {
        s.drop_last()
    } else {
        s
    }
}

/// The lines of a text: ended by LF or CR LF, the last ending optional.
pub open spec fn lines(s: Seq<char>) -> Seq<Seq<char>> {
    let parts = split(s, '\n');
    let ended = parts.drop_last().map_values(|p: Seq<char>| strip_cr(p));
    if parts.last().len() == 0 {
        ended
    } else {
        ended.push(parts.last())
    }
}

/// Split a character list into lines.
pub fn split_lines(v: &Vec<char>) -> (r: Vec<Vec<char>>)
    ensures
        r.deep_view() == lines(v@),
{
    let mut parts = split_chars(v, '\n');
    proof {
        lemma_split_nonempty(v@, '\n');
    }
    let ghost all = parts.deep_view();
    let n: usize = parts.len();
    let mut out: Vec<Vec<char>> = Vec::new();
    let mut i: usize = 0;
    while i < n - 1
        invariant
            0 < n == parts.len(),
            i <= n - 1,
            all == parts.deep_view(),
            out.deep_view() == all.take(i as int).map_values(|p: Seq<char>| strip_cr(p)),
        decreases n - i,
    {
        let ghost out0 = out.deep_view();
        let p: &Vec<char> = &parts[i];
        assert(all[i as int] == p@);
        let line = if p.len() > 0 && p[p.len() - 1] == '\r' {
            slice(p, 0, p.len() - 1)
        } else {
            slice(p, 0, p.len())
        };
        assert(line@ == strip_cr(p@));
        out.push(line);
        assert(out.deep_view() == out0.push(line@));
        i = i + 1;
    }
    assert(all.drop_last() == all.take(n - 1));
    let last: &Vec<char> = &parts[n - 1];
    assert(all.last() == last@);
    if last.len() > 0 {
        let ghost out0 = out.deep_view();
        let copy = slice(last, 0, last.len());
        assert(copy@ == last@);
        out.push(copy);
        assert(out.deep_view() == out0.push(last@));
    }
    out
}

// ----- searching -----

/// Whether `pat` stands in `s` at position `i`.
pub open spec fn occurs_at(s: Seq<char>, pat: Seq<char>, i: int) -> bool {
    0 <= i && i + pat.len() <= s.len() && s.subrange(i, i + pat.len()) == pat
}

/// The first position from `i` on where `pat` stands in `s`.
pub open spec fn find_from(s: Seq<char>, pat: Seq<char>, i: int) -> Option<int>
    decreases s.len() - i,
{
    if i < 0 || i + pat.len() > s.len() {
        None
    } else if occurs_at(s, pat, i) {
        Some(i)
    } else if i == s.len() {
        None
    } else {
        find_from(s, pat, i + 1)
    }
}

/// Whether `s` begins with `pat`.
pub open spec fn begins(s: Seq<char>, pat: Seq<char>) -> bool {
    occurs_at(s, pat, 0)
}

/// Whether `pat` stands in `v` at position `i`.
pub fn matches_at(v: &Vec<char>, pat: &Vec<char>, i: usize) -> (r: bool)
    ensures
        r == occurs_at(v@, pat@, i as int),
{
    if i > v.len() || pat.len() > v.len() - i {
        return false;
    }
    let mut j: usize = 0;
    while j < pat.len()
        invariant
            j <= pat.len(),
            i + pat.len() <= v.len(),
            forall|k: int| 0 <= k < j ==> v@[i + k] == #[trigger] pat@[k],
        decreases pat.len() - j,
    {
        if v[i + j] != pat[j] {
            assert(v@.subrange(i as int, i + pat.len())[j as int] != pat@[j as int]);
            return false;
        }
        j = j + 1;
    }
    assert(v@.subrange(i as int, i + pat.len()) == pat@);
    true
}

/// The first position from `from` on where `pat` stands in `v`.
pub fn find(v: &Vec<char>, pat: &Vec<char>, from: usize) -> (r: Option<usize>)
    ensures
        match r {
            Some(i) => find_from(v@, pat@, from as int) == Some(i as int),
            None => find_from(v@, pat@, from as int) is None,
        },
{
    if from > v.len() {
        return None;
    }
    let mut i: usize = from;
    while pat.len() <= v.len() - i
        invariant
            from <= i <= v.len(),
            find_from(v@, pat@, from as int) == find_from(v@, pat@, i as int),
        decreases v.len() - i,
    {
        if matches_at(v, pat, i) {
            return Some(i);
        }
        if i == v.len() {
            return None;
        }
        i = i + 1;
    }
    None
}

/// Whether a string begins with another.
pub fn starts_with(s: &str, pat: &str) -> (r: bool)
    ensures
        r == begins(s@, pat@),
{
    matches_at(&chars_of(s), &chars_of(pat), 0)
}

/// The condition of being a character.
pub open spec fn is_char(c: char) -> spec_fn(char) -> bool {
    |x: char| x == c
}

/// The place of the first occurrence of a character.
pub open spec fn char_index(s: Seq<char>, c: char) -> Option<int> {
    crate::seqs::first_where(s, is_char(c))
}

/// The part of a text before the first occurrence of a character; all of it
/// where the character does not occur.
pub open spec fn before_char(s: Seq<char>, c: char) -> Seq<char> {
    match char_index(s, c) {
        Some(i) => s.take(i),
        None => s,
    }
}

/// Find the first occurrence of a character.
pub fn find_char(v: &Vec<char>, c: char) -> (r: Option<usize>)
    ensures
        match r {
            Some(i) => i < v.len() && char_index(v@, c) == Some(i as int),
            None => char_index(v@, c) is None,
        },
{
    let ghost p = is_char(c);
    let mut i: usize = 0;
    while i < v.len()
        invariant
            i <= v.len(),
            p == is_char(c),
            forall|j: int| 0 <= j < i ==> !p(#[trigger] v@[j]),
        decreases v.len() - i,
    {
        if v[i] == c {
            proof {
                assert(crate::seqs::is_first(v@, p, i as int));
                crate::seqs::lemma_first_is(v@, p, i as int);
            }
            return Some(i);
        }
        i = i + 1;
    }
    proof {
        crate::seqs::lemma_first_none(v@, p);
    }
    None
}

/// The part of a text before the first occurrence of a character.
pub fn take_before(v: &Vec<char>, c: char) -> (r: Vec<char>)
    ensures
        r@ == before_char(v@, c),
{
    match find_char(v, c) {
        Some(i) => {
            assert(v@.subrange(0, i as int) == v@.take(i as int));
            slice(v, 0, i)
        },
        None => {
            assert(v@.subrange(0, v@.len() as int) == v@);
            slice(v, 0, v.len())
        },
    }
}

/// Without the occurrences of two characters at the back.
pub open spec fn strip_back(s: Seq<char>, a: char, b: char) -> Seq<char>
    decreases s.len(),
{
    if s.len() > 0 && (s.last() == a || s.last() == b) {
        strip_back(s.drop_last(), a, b)
    } else {
        s
    }
}

/// Without the occurrences of a character at the front.
pub open spec fn strip_front(s: Seq<char>, a: char) -> Seq<char>
    decreases s.len(),
{
    if s.len() > 0 && s[0] == a {
        strip_front(s.drop_first(), a)
    } else {
        s
    }
}

/// Drop two characters at the back.
pub fn stripped_back(v: &Vec<char>, a: char, b: char) -> (r: Vec<char>)
    ensures
        r@ == strip_back(v@, a, b),
{
    let mut n: usize = v.len();
    assert(v@.subrange(0, v@.len() as int) == v@);
    while n > 0 && (v[n - 1] == a || v[n - 1] == b)
        invariant
            n <= v.len(),
            strip_back(v@, a, b) == strip_back(v@.subrange(0, n as int), a, b),
        decreases n,
    {
        assert(v@.subrange(0, n as int).drop_last() == v@.subrange(0, n - 1));
        n = n - 1;
    }
    slice(v, 0, n)
}

/// Drop a character at the front.
pub fn stripped_front(v: &Vec<char>, a: char) -> (r: Vec<char>)
    ensures
        r@ == strip_front(v@, a),
{
    let mut n: usize = 0;
    assert(v@.subrange(0, v@.len() as int) == v@);
    while n < v.len() && v[n] == a
        invariant
            n <= v.len(),
            strip_front(v@, a) == strip_front(v@.subrange(n as int, v@.len() as int), a),
        decreases v.len() - n,
    {
        assert(v@.subrange(n as int, v@.len() as int).drop_first() == v@.subrange(
            n + 1,
            v@.len() as int,
        ));
        n = n + 1;
    }
    slice(v, n, v.len())
}

// ----- ASCII case -----

/// An ASCII capital becomes its small letter; anything else stays.
pub open spec fn ascii_lower_char(c: char) -> char {
    if 'A' <= c <= 'Z' {
        ((c as u32 + 32) as u32) as char
    } else {
        c
    }
}

/// An ASCII small letter becomes its capital; anything else stays.
pub open spec fn ascii_upper_char(c: char) -> char {
    if 'a' <= c <= 'z' {
        ((c as u32 - 32) as u32) as char
    } else {
        c
    }
}

/// Every ASCII capital made small.
pub open spec fn ascii_lower(s: Seq<char>) -> Seq<char> {
    s.map_values(|c: char| ascii_lower_char(c))
}

/// Every ASCII small letter made a capital.
pub open spec fn ascii_upper(s: Seq<char>) -> Seq<char> {
    s.map_values(|c: char| ascii_upper_char(c))
}

/// Lower the case of one ASCII character.
pub fn lower_char(c: char) -> (r: char)
    ensures
        r == ascii_lower_char(c),
{
    if 'A' <= c && c <= 'Z' {
        ((c as u8) + 32) as char
    } else {
        c
    }
}

/// Raise the case of one ASCII character.
pub fn upper_char(c: char) -> (r: char)
    ensures
        r == ascii_upper_char(c),
{
    if 'a' <= c && c <= 'z' {
        ((c as u8) - 32) as char
    } else {
        c
    }
}

/// Lower the ASCII case of a character list.
pub fn lower_chars(v: &Vec<char>) -> (r: Vec<char>)
    ensures
        r@ == ascii_lower(v@),
{
    let mut out: Vec<char> = Vec::new();
    let mut i: usize = 0;
    while i < v.len()
        invariant
            i <= v.len(),
            out@ == ascii_lower(v@.take(i as int)),
        decreases v.len() - i,
    {
        out.push(lower_char(v[i]));
        i = i + 1;
    }
    assert(v@.take(v.len() as int) == v@);
    out
}

/// Raise the ASCII case of a character list.
pub fn upper_chars(v: &Vec<char>) -> (r: Vec<char>)
    ensures
        r@ == ascii_upper(v@),
{
    let mut out: Vec<char> = Vec::new();
    let mut i: usize = 0;
    while i < v.len()
        invariant
            i <= v.len(),
            out@ == ascii_upper(v@.take(i as int)),
        decreases v.len() - i,
    {
        out.push(upper_char(v[i]));
        i = i + 1;
    }
    assert(v@.take(v.len() as int) == v@);
    out
}

// ----- ordering -----

/// Dictionary order by code point, which is also the order of the UTF-8 bytes.
pub open spec fn lex_lt(a: Seq<char>, b: Seq<char>) -> bool
    decreases a.len(),
{
    if b.len() == 0 {
        false
    } else if a.len() == 0 {
        true
    } else if a[0] == b[0] {
        lex_lt(a.skip(1), b.skip(1))
    } else {
        a[0] < b[0]
    }
}

/// Whether one text comes before another.
pub fn str_lt(a: &str, b: &str) -> (r: bool)
    ensures
        r == lex_lt(a@, b@),
{
    let x = chars_of(a);
    let y = chars_of(b);
    let mut i: usize = 0;
    assert(x@.skip(0) == x@ && y@.skip(0) == y@);
    while i < x.len() && i < y.len()
        invariant
            i <= x.len(),
            i <= y.len(),
            x@ == a@,
            y@ == b@,
            lex_lt(a@, b@) == lex_lt(x@.skip(i as int), y@.skip(i as int)),
        decreases x.len() - i,
    {
        if x[i] != y[i] {
            return x[i] < y[i];
        }
        assert(x@.skip(i as int).skip(1) == x@.skip(i + 1));
        assert(y@.skip(i as int).skip(1) == y@.skip(i + 1));
        i = i + 1;
    }
    i < y.len()
}

/// No text comes before itself.
pub proof fn lemma_lex_irreflexive(a: Seq<char>)
    ensures
        !lex_lt(a, a),
    decreases a.len(),
{
    if a.len() > 0 {
        lemma_lex_irreflexive(a.skip(1));
    }
}

/// The first character in which two texts differ decides which comes first.
pub proof fn lemma_lex_at(a: Seq<char>, b: Seq<char>, k: int)
    requires
        0 <= k < a.len(),
        k < b.len(),
        forall|j: int| 0 <= j < k ==> a[j] == b[j],
        a[k] < b[k],
    ensures
        lex_lt(a, b),
    decreases k,
{
    if k > 0 {
        assert(a[0] == b[0]);
        assert forall|j: int| 0 <= j < k - 1 implies a.skip(1)[j] == b.skip(1)[j] by {
            assert(a[j + 1] == b[j + 1]);
        }
        lemma_lex_at(a.skip(1), b.skip(1), k - 1);
    }
}

/// Of two different texts one comes before the other.
pub proof fn lemma_lex_total(a: Seq<char>, b: Seq<char>)
    ensures
        a == b || lex_lt(a, b) || lex_lt(b, a),
    decreases a.len(),
{
    if a.len() == 0 {
        if b.len() == 0 {
            assert(a == b);
        }
    } else if b.len() > 0 && a[0] == b[0] {
        lemma_lex_total(a.skip(1), b.skip(1));
        if a.skip(1) == b.skip(1) {
            assert(a == seq![a[0]] + a.skip(1));
            assert(b == seq![b[0]] + b.skip(1));
        }
    }
}

/// The order is transitive.
pub proof fn lemma_lex_transitive(a: Seq<char>, b: Seq<char>, c: Seq<char>)
    requires
        lex_lt(a, b),
        lex_lt(b, c),
    ensures
        lex_lt(a, c),
    decreases a.len(),
{
    if a.len() > 0 && a[0] == b[0] && b[0] == c[0] {
        lemma_lex_transitive(a.skip(1), b.skip(1), c.skip(1));
    }
}

/// Every text comes before all that follow it; so none occurs twice.
pub open spec fn increasing(s: Seq<Seq<char>>) -> bool {
    forall|i: int, j: int| 0 <= i < j < s.len() ==> lex_lt(#[trigger] s[i], #[trigger] s[j])
}

/// A text put in its place among ordered ones, unless it is there already.
pub open spec fn placed(s: Seq<Seq<char>>, x: Seq<char>) -> Seq<Seq<char>>
    decreases s.len(),
{
    if s.len() == 0 {
        seq![x]
    } else if s.last() == x {
        s
    } else if lex_lt(s.last(), x) {
        s.push(x)
    } else {
        placed(s.drop_last(), x).push(s.last())
    }
}

/// Texts in order, each once.
pub open spec fn sorted_once(s: Seq<Seq<char>>) -> Seq<Seq<char>>
    decreases s.len(),
{
    if s.len() == 0 {
        Seq::empty()
    } else {
        placed(sorted_once(s.drop_last()), s.last())
    }
}

/// Placing a text keeps the order and adds nothing but the text.
pub proof fn lemma_placed(s: Seq<Seq<char>>, x: Seq<char>)
    requires
        increasing(s),
    ensures
        increasing(placed(s, x)),
        forall|y: Seq<char>| #[trigger] placed(s, x).contains(y) <==> s.contains(y) || y == x,
    decreases s.len(),
{
    let t = placed(s, x);
    if s.len() == 0 {
        assert(t[0] == x);
    } else if s.last() == x {
        assert(s[s.len() - 1] == x);
    } else if lex_lt(s.last(), x) {
        assert forall|i: int, j: int| 0 <= i < j < t.len() implies lex_lt(
            #[trigger] t[i],
            #[trigger] t[j],
        ) by {
            if j == s.len() && i < s.len() - 1 {
                lemma_lex_transitive(s[i], s.last(), x);
            }
        }
        lemma_push_contains(s, x);
    } else {
        let init = s.drop_last();
        assert forall|i: int, j: int| 0 <= i < j < init.len() implies lex_lt(
            #[trigger] init[i],
            #[trigger] init[j],
        ) by {
            assert(init[i] == s[i] && init[j] == s[j]);
        }
        lemma_placed(init, x);
        lemma_lex_total(s.last(), x);
        let p = placed(init, x);
        assert forall|i: int, j: int| 0 <= i < j < t.len() implies lex_lt(
            #[trigger] t[i],
            #[trigger] t[j],
        ) by {
            if j == p.len() {
                assert(p.contains(p[i]));
                if p[i] != x {
                    let k = choose|k: int| 0 <= k < init.len() && init[k] == p[i];
                    assert(s[k] == p[i] && s[s.len() - 1] == t[j]);
                }
            }
        }
        lemma_push_contains(p, s.last());
        lemma_push_contains(init, s.last());
        assert(init.push(s.last()) == s);
    }
}

/// What a sequence with one more element holds.
pub proof fn lemma_push_contains<A>(s: Seq<A>, x: A)
    ensures
        forall|y: A| #[trigger] s.push(x).contains(y) <==> s.contains(y) || y == x,
{
    assert forall|y: A| #[trigger] s.push(x).contains(y) <==> s.contains(y) || y == x by {
        if s.contains(y) {
            let i = choose|i: int| 0 <= i < s.len() && s[i] == y;
            assert(s.push(x)[i] == y);
        }
        assert(s.push(x)[s.len() as int] == x);
        if s.push(x).contains(y) {
            let i = choose|i: int| 0 <= i < s.push(x).len() && s.push(x)[i] == y;
            if i < s.len() {
                assert(s[i] == y);
            }
        }
    }
}

/// Sorting keeps exactly the texts there were, each once and in order.
pub proof fn law_sorted_once(s: Seq<Seq<char>>)
    ensures
        increasing(sorted_once(s)),
        forall|y: Seq<char>| #[trigger] sorted_once(s).contains(y) <==> s.contains(y),
    decreases s.len(),
{
    if s.len() > 0 {
        law_sorted_once(s.drop_last());
        lemma_placed(sorted_once(s.drop_last()), s.last());
        lemma_push_contains(s.drop_last(), s.last());
        assert(s.drop_last().push(s.last()) == s);
    }
}

/// Put a text in its place among ordered ones, unless it is there already.
pub fn place(v: &mut Vec<String>, x: &str)
    ensures
        final(v).deep_view() == placed(old(v).deep_view(), x@),
{
    let ghost all = v.deep_view();
    let mut i: usize = v.len();
    assert(all.take(v.len() as int) == all);
    assert(all.skip(v.len() as int) == Seq::<Seq<char>>::empty());
    assert(placed(all, x@) == placed(all, x@) + Seq::<Seq<char>>::empty());
    while i > 0
        invariant
            i <= v.len(),
            all == v.deep_view(),
            all == old(v).deep_view(),
            placed(all, x@) == placed(all.take(i as int), x@) + all.skip(i as int),
        decreases i,
    {
        assert(all[i - 1] == v@[i - 1]@);
        assert(all.take(i as int).drop_last() == all.take(i - 1));
        if str_eq(v[i - 1].as_str(), x) {
            assert(all.take(i as int) + all.skip(i as int) == all);
            return;
        }
        if str_lt(v[i - 1].as_str(), x) {
            v.insert(i, x.to_string());
            assert(v.deep_view() == all.take(i as int).push(x@) + all.skip(i as int));
            return;
        }
        assert(all.skip(i - 1) == seq![all[i - 1]] + all.skip(i as int));
        assert(placed(all.take(i - 1), x@).push(all[i - 1]) + all.skip(i as int) == placed(
            all.take(i - 1),
            x@,
        ) + all.skip(i - 1));
        i = i - 1;
    }
    v.insert(0, x.to_string());
    assert(all.take(0) == Seq::<Seq<char>>::empty());
    assert(v.deep_view() == seq![x@] + all.skip(0));
}

/// Texts in order, each once.
pub fn sort_once(v: &Vec<String>) -> (r: Vec<String>)
    ensures
        r.deep_view() == sorted_once(v.deep_view()),
{
    let ghost all = v.deep_view();
    let mut out: Vec<String> = Vec::new();
    let mut i: usize = 0;
    while i < v.len()
        invariant
            i <= v.len(),
            all == v.deep_view(),
            out.deep_view() == sorted_once(all.take(i as int)),
        decreases v.len() - i,
    {
        assert(all.take(i + 1).drop_last() == all.take(i as int));
        assert(all[i as int] == v@[i as int]@);
        place(&mut out, v[i].as_str());
        i = i + 1;
    }
    assert(all.take(all.len() as int) == all);
    out
}

/// Add a text at the end, unless it is there already.
pub open spec fn joined_by(s: Seq<Seq<char>>, x: Seq<char>) -> Seq<Seq<char>> {
    if s.contains(x) {
        s
    } else {
        s.push(x)
    }
}

/// Add a text at the end, unless it is there already.
pub fn push_once(v: &mut Vec<String>, x: &str)
    ensures
        final(v).deep_view() == joined_by(old(v).deep_view(), x@),
{
    let ghost before = v.deep_view();
    if !contains_str(v, x) {
        v.push(x.to_string());
        assert(v.deep_view() == before.push(x@));
    }
}

/// Trimming at the front leaves what stands behind the white space there.
proof fn lemma_trim_start(s: Seq<char>)
    ensures
        exists|a: int|
            0 <= a <= s.len() && #[trigger] s.subrange(a, s.len() as int) == trim_start(s) && (
            forall|i: int| 0 <= i < a ==> is_space(#[trigger] s[i])) && (a < s.len() ==> !is_space(
                s[a],
            )),
    decreases s.len(),
{
    if s.len() > 0 && is_space(s[0]) {
        let t = s.drop_first();
        lemma_trim_start(t);
        let b = choose|b: int|
            0 <= b <= t.len() && #[trigger] t.subrange(b, t.len() as int) == trim_start(t) && (
            forall|i: int| 0 <= i < b ==> is_space(#[trigger] t[i])) && (b < t.len() ==> !is_space(
                t[b],
            ));
        assert(s.subrange(b + 1, s.len() as int) =~= t.subrange(b, t.len() as int));
        assert forall|i: int| 0 <= i < b + 1 implies is_space(#[trigger] s[i]) by {
            if i > 0 {
                assert(t[i - 1] == s[i]);
            }
        }
    } else {
        assert(s.subrange(0, s.len() as int) =~= s);
    }
}

/// Trimming at the back leaves what stands before the white space there.
proof fn lemma_trim_end(s: Seq<char>)
    ensures
        exists|b: int|
            0 <= b <= s.len() && #[trigger] s.subrange(0, b) == trim_end(s) && (forall|i: int|
                b <= i < s.len() ==> is_space(#[trigger] s[i])) && (b > 0 ==> !is_space(s[b - 1])),
    decreases s.len(),
{
    if s.len() > 0 && is_space(s.last()) {
        let t = s.drop_last();
        lemma_trim_end(t);
        let b = choose|b: int|
            0 <= b <= t.len() && #[trigger] t.subrange(0, b) == trim_end(t) && (forall|i: int|
                b <= i < t.len() ==> is_space(#[trigger] t[i])) && (b > 0 ==> !is_space(t[b - 1]));
        assert(s.subrange(0, b) =~= t.subrange(0, b));
        assert forall|i: int| b <= i < s.len() implies is_space(#[trigger] s[i]) by {
            if i < t.len() {
                assert(t[i] == s[i]);
            }
        }
    } else {
        assert(s.subrange(0, s.len() as int) =~= s);
    }
}

/// Trimming takes the white space off both ends and nothing else: what is left
/// stands in the text, begins and ends in something that is no white space, and
/// has only white space before and behind it. Nothing is left exactly of a text
/// that is white space throughout.
pub proof fn law_trimmed(s: Seq<char>)
    ensures
        exists|a: int, b: int|
            0 <= a <= b <= s.len() && #[trigger] s.subrange(a, b) == trimmed(s) && (forall|i: int|
                0 <= i < a ==> is_space(#[trigger] s[i])) && (forall|i: int|
                b <= i < s.len() ==> is_space(#[trigger] s[i])) && (a < b ==> !is_space(s[a])
                && !is_space(s[b - 1])),
        trimmed(s).len() == 0 <==> forall|i: int| 0 <= i < s.len() ==> is_space(#[trigger] s[i]),
{
    lemma_trim_start(s);
    let a = choose|a: int|
        0 <= a <= s.len() && #[trigger] s.subrange(a, s.len() as int) == trim_start(s) && (forall|
            i: int,
        |
            0 <= i < a ==> is_space(#[trigger] s[i])) && (a < s.len() ==> !is_space(s[a]));
    let t = trim_start(s);
    lemma_trim_end(t);
    let c = choose|c: int|
        0 <= c <= t.len() && #[trigger] t.subrange(0, c) == trim_end(t) && (forall|i: int|
            c <= i < t.len() ==> is_space(#[trigger] t[i])) && (c > 0 ==> !is_space(t[c - 1]));
    let b = a + c;
    assert(t == s.subrange(a, s.len() as int));
    assert(s.subrange(a, b) =~= t.subrange(0, c));
    assert forall|i: int| b <= i < s.len() implies is_space(#[trigger] s[i]) by {
        assert(t[i - a] == s[i]);
    }
    if c > 0 {
        assert(t[c - 1] == s[b - 1]);
        assert(a < s.len());
        assert(!is_space(s[a]));
    }
}

/// A character is found at its first place, and nowhere where it is not.
pub proof fn law_first_char(a: Seq<char>, b: Seq<char>, c: char)
    requires
        !a.contains(c),
    ensures
        char_index(a, c) is None,
        before_char(a, c) == a,
        char_index(a + seq![c] + b, c) == Some(a.len() as int),
        before_char(a + seq![c] + b, c) == a,
{
    let p = is_char(c);
    let s = a + seq![c] + b;
    assert forall|j: int| 0 <= j < a.len() implies !p(#[trigger] a[j]) by {
        if a[j] == c {
            assert(a.contains(c));
        }
    }
    crate::seqs::lemma_first_none(a, p);
    assert(crate::seqs::is_first(s, p, a.len() as int)) by {
        assert(s[a.len() as int] == c);
        assert forall|j: int| 0 <= j < a.len() implies !p(#[trigger] s[j]) by {
            assert(s[j] == a[j]);
        }
    }
    crate::seqs::lemma_first_is(s, p, a.len() as int);
    assert(s.take(a.len() as int) =~= a);
}

/// A text is found where it stands first.
pub proof fn law_first_match(s: Seq<char>, pat: Seq<char>, i: int, k: int)
    requires
        0 <= i <= k,
        k + pat.len() <= s.len(),
        s.subrange(k, k + pat.len()) == pat,
        forall|j: int|
            i <= j < k ==> (#[trigger] s[j] != pat[0] || s.subrange(j, j + pat.len()) != pat),
        pat.len() > 0,
    ensures
        find_from(s, pat, i) == Some(k),
    decreases k - i,
{
    if i < k {
        if s[i] != pat[0] {
            assert(s.subrange(i, i + pat.len())[0] == s[i]);
        }
        law_first_match(s, pat, i + 1, k);
    }
}

/// A line ends at a line feed, and a carriage return before it is no part of
/// it; what follows are the lines of the rest.
pub proof fn law_line_then_the_rest(a: Seq<char>, rest: Seq<char>)
    requires
        !a.contains('\n'),
        a.len() > 0 ==> a.last() != '\r',
    ensures
        lines(a + seq!['\r', '\n'] + rest) == seq![a] + lines(rest),
        lines(a + seq!['\n'] + rest) == seq![a] + lines(rest),
        lines(Seq::<char>::empty()).len() == 0,
        a.len() > 0 ==> lines(a) == seq![a],
{
    let r = a.push('\r');
    assert(!r.contains('\n')) by {
        if r.contains('\n') {
            let k = choose|k: int| 0 <= k < r.len() && r[k] == '\n';
            assert(a[k] == '\n');
        }
    }
    lemma_split_free(r, '\n');
    lemma_split_free(a, '\n');
    lemma_split_free(Seq::<char>::empty(), '\n');
    lemma_split_concat(r, rest, '\n');
    lemma_split_concat(a, rest, '\n');
    lemma_split_nonempty(rest, '\n');
    assert(a + seq!['\r', '\n'] + rest =~= r + seq!['\n'] + rest);
    assert(strip_cr(r) =~= a);
    assert(strip_cr(a) =~= a);
    let f = |p: Seq<char>| strip_cr(p);
    let tail = split(rest, '\n');
    assert((seq![r] + tail).drop_last() =~= seq![r] + tail.drop_last());
    assert((seq![a] + tail).drop_last() =~= seq![a] + tail.drop_last());
    assert((seq![r] + tail.drop_last()).map_values(f) =~= seq![a] + tail.drop_last().map_values(f));
    assert((seq![a] + tail.drop_last()).map_values(f) =~= seq![a] + tail.drop_last().map_values(f));
    assert((seq![r] + tail).last() == tail.last());
    assert((seq![a] + tail).last() == tail.last());
    assert(lines(r + seq!['\n'] + rest) =~= seq![a] + lines(rest));
    assert(lines(a + seq!['\n'] + rest) =~= seq![a] + lines(rest));
    assert(seq![a].drop_last().map_values(f) =~= Seq::<Seq<char>>::empty());
    if a.len() > 0 {
        assert(lines(a) =~= seq![a]);
    }
}

/// Dropping two characters at the back drops all of them that are there, and
/// nothing else.
pub proof fn law_stripped_back(s: Seq<char>, a: char, b: char)
    ensures
        strip_back(s, a, b).is_prefix_of(s),
        strip_back(s, a, b).len() > 0 ==> strip_back(s, a, b).last() != a && strip_back(
            s,
            a,
            b,
        ).last() != b,
        forall|i: int|
            strip_back(s, a, b).len() <= i < s.len() ==> #[trigger] s[i] == a || s[i] == b,
    decreases s.len(),
{
    if s.len() > 0 && (s.last() == a || s.last() == b) {
        let init = s.drop_last();
        law_stripped_back(init, a, b);
        assert forall|i: int| strip_back(s, a, b).len() <= i < s.len() implies #[trigger] s[i] == a
            || s[i] == b by {
            if i < init.len() {
                assert(init[i] == s[i]);
            }
        }
    }
}

/// The upper case of a text changes the small letters of ASCII alone.
pub proof fn law_upper(s: Seq<char>, i: int)
    requires
        0 <= i < s.len(),
    ensures
        ascii_upper(s).len() == s.len(),
        'a' <= s[i] <= 'z' ==> ascii_upper(s)[i] as int == s[i] as int - 32,
        !('a' <= s[i] <= 'z') ==> ascii_upper(s)[i] == s[i],
{
}

/// White space parts words: what stands before it and what stands behind it are
/// read apart. A text without any is one word.
pub proof fn law_words_are_apart(a: Seq<char>, c: char, b: Seq<char>)
    requires
        is_space(c),
    ensures
        words(a + seq![c] + b) == words(a) + words(b),
        a.len() > 0 && (forall|i: int| 0 <= i < a.len() ==> !is_space(#[trigger] a[i])) ==> words(a)
            == seq![a],
        words(Seq::<char>::empty()).len() == 0,
    decreases a.len() + b.len(),
{
    let s = a + seq![c] + b;
    if b.len() == 0 {
        assert(s.drop_last() =~= a);
        assert(words(s) =~= words(a) + words(b));
    } else {
        let init = b.drop_last();
        law_words_are_apart(a, c, init);
        assert(s.drop_last() =~= a + seq![c] + init);
        if b.len() == 1 {
            assert(s[s.len() - 2] == c);
        } else {
            assert(s[s.len() - 2] == b[b.len() - 2]);
            if !is_space(b.last()) && !is_space(b[b.len() - 2]) {
                lemma_words_open(init);
            }
        }
        assert(words(s) =~= words(a) + words(b));
    }
    if a.len() > 0 && (forall|i: int| 0 <= i < a.len() ==> !is_space(#[trigger] a[i])) {
        lemma_one_word(a);
    }
}

/// A text that does not end in white space has a word.
proof fn lemma_words_open(s: Seq<char>)
    requires
        s.len() > 0,
        !is_space(s.last()),
    ensures
        words(s).len() > 0,
{
}

/// A text without white space is one word.
proof fn lemma_one_word(s: Seq<char>)
    requires
        s.len() > 0,
        forall|i: int| 0 <= i < s.len() ==> !is_space(#[trigger] s[i]),
    ensures
        words(s) == seq![s],
    decreases s.len(),
{
    if s.len() == 1 {
        assert(s.drop_last() =~= Seq::<char>::empty());
        assert(words(s.drop_last()) =~= Seq::<Seq<char>>::empty());
        assert(s[0] == s.last());
        assert(words(s)[0] =~= s);
        assert(words(s) =~= seq![s]);
    } else {
        let init = s.drop_last();
        assert forall|i: int| 0 <= i < init.len() implies !is_space(#[trigger] init[i]) by {
            assert(init[i] == s[i]);
        }
        lemma_one_word(init);
        assert(init.push(s.last()) =~= s);
        assert(words(s) =~= seq![s]);
    }
}

} // verus!
