use vstd::prelude::*;

use crate::format::{decimal, digit_char};

verus! {

/// What `str::to_lowercase` makes of a text.
pub uninterp spec fn lower_of(s: Seq<char>) -> Seq<char>;

/// Relies on `str::to_lowercase`: the result depends on the characters
/// alone, and an empty text stays empty.
#[verifier::external_body]
pub(crate) fn lowercase(s: &str) -> (r: String)
    ensures
        r@ == lower_of(s@),
        s@.len() == 0 ==> r@.len() == 0,
{
    s.to_lowercase()
}

/// Whether `needle` occurs in `hay` as a contiguous run.
pub open spec fn contains_text(hay: Seq<char>, needle: Seq<char>) -> bool {
    exists|i: int|
        0 <= i && i + needle.len() <= hay.len() && #[trigger] hay.subrange(i, i + needle.len())
            == needle
}

/// The characters of a text.
pub fn chars_of(s: &str) -> (r: Vec<char>)
    ensures
        r@ == s@,
{
    let n = s.unicode_len();
    let mut out: Vec<char> = Vec::new();
    let mut i: usize = 0;
    while i < n
        invariant
            n == s@.len(),
            i <= n,
            out@ == s@.take(i as int),
        decreases n - i,
    {
        out.push(s.get_char(i));
        assert(out@ =~= s@.take(i + 1));
        i = i + 1;
    }
    assert(out@ =~= s@);
    out
}

fn occurs_at(hay: &Vec<char>, needle: &Vec<char>, at: usize) -> (r: bool)
    requires
        at + needle@.len() <= hay@.len(),
    ensures
        r == (hay@.subrange(at as int, at + needle@.len()) == needle@),
{
    let hay_len = hay.len();
    assert(hay@.len() == hay_len);
    let mut k: usize = 0;
    while k < needle.len()
        invariant
            at + needle@.len() <= hay@.len(),
            hay@.len() <= usize::MAX,
            k <= needle@.len(),
            forall|t: int| 0 <= t < k ==> hay@[at + t] == needle@[t],
        decreases needle@.len() - k,
    {
        if hay[at + k] != needle[k] {
            assert(hay@.subrange(at as int, at + needle@.len())[k as int] != needle@[k as int]);
            return false;
        }
        k = k + 1;
    }
    assert(hay@.subrange(at as int, at + needle@.len()) =~= needle@);
    true
}

/// Whether `needle` occurs in `hay`.
pub fn contains_chars(hay: &Vec<char>, needle: &Vec<char>) -> (r: bool)
    ensures
        r == contains_text(hay@, needle@),
{
    if needle.len() > hay.len() {
        return false;
    }
    if needle.len() == 0 {
        assert(hay@.subrange(0int, 0int + needle@.len()) =~= needle@);
        return true;
    }
    let last = hay.len() - needle.len();
    let mut at: usize = 0;
    while at <= last
        invariant
            last + needle@.len() == hay@.len(),
            needle@.len() > 0,
            hay@.len() <= usize::MAX,
            forall|i: int|
                0 <= i < at ==> #[trigger] hay@.subrange(i, i + needle@.len()) != needle@,
        decreases last + 1 - at,
    {
        if occurs_at(hay, needle, at) {
            return true;
        }
        at = at + 1;
    }
    false
}

fn digit_to_char(d: u32) -> (r: char)
    requires
        d < 10,
    ensures
        r == digit_char(d as nat),
{
    if d == 0 { '0' } else if d == 1 { '1' } else if d == 2 { '2' } else if d == 3 { '3' }
    else if d == 4 { '4' } else if d == 5 { '5' } else if d == 6 { '6' } else if d == 7 { '7' }
    else if d == 8 { '8' } else { '9' }
}

fn push_decimal_chars(out: &mut Vec<char>, n: u32)
    ensures
        final(out)@ == old(out)@ + decimal(n as nat),
    decreases n,
{
    if n < 10 {
        out.push(digit_to_char(n));
        assert(final(out)@ =~= old(out)@ + decimal(n as nat));
    } else {
        push_decimal_chars(out, n / 10);
        out.push(digit_to_char(n % 10));
        assert(final(out)@ =~= old(out)@ + decimal(n as nat));
    }
}

/// Whether a row matches a search: the search text, already lower-cased,
/// occurs in the lower-cased name or in the decimal form of the pid.
pub open spec fn text_matches(query_folded: Seq<char>, name_folded: Seq<char>, pid: u32) -> bool {
    contains_text(name_folded, query_folded) || contains_text(decimal(pid as nat), query_folded)
}

/// Matches a lower-cased search text against a lower-cased name and a pid.
pub fn matches_folded(query_folded: &str, name_folded: &str, pid: u32) -> (r: bool)
    ensures
        r == text_matches(query_folded@, name_folded@, pid),
{
    let q = chars_of(query_folded);
    let name = chars_of(name_folded);
    if contains_chars(&name, &q) {
        return true;
    }
    let mut digits: Vec<char> = Vec::new();
    push_decimal_chars(&mut digits, pid);
    assert(digits@ =~= decimal(pid as nat));
    contains_chars(&digits, &q)
}

/// Case-insensitive match of a search text against a name and a pid.
pub fn matches_search(query: &str, name: &str, pid: u32) -> (r: bool)
    ensures
        r == text_matches(lower_of(query@), lower_of(name@), pid),
{
    let q = lowercase(query);
    let n = lowercase(name);
    matches_folded(q.as_str(), n.as_str(), pid)
}

} // verus!
