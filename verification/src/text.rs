//! Conversions between strings and character vectors.

use vstd::prelude::*;

verus! {

broadcast use vstd::string::group_string_axioms;

/// Appends one character to a string (`String::push`).
#[verifier::external_body]
pub(crate) fn push_char(s: &mut String, c: char)
    ensures
        final(s)@ == old(s)@.push(c),
{
    s.push(c);
}

/// The characters of `s`, in order.
pub(crate) fn chars_of(s: &str) -> (r: Vec<char>)
    ensures
        r@ == s@,
{
    let mut r: Vec<char> = Vec::new();
    for c in it: s.chars()
        invariant
            it.seq() == s@,
            r@ == it.seq().take(it.index()),
    {
        r.push(c);
    }
    r
}

/// The string made of the characters of `cs`, in order.
pub(crate) fn string_of(cs: &Vec<char>) -> (r: String)
    ensures
        r@ == cs@,
{
    let mut r = String::new();
    let n = cs.len();
    for i in 0..n
        invariant
            n == cs@.len(),
            r@ == cs@.take(i as int),
    {
        push_char(&mut r, cs[i]);
        assert(cs@.take(i + 1) == cs@.take(i as int).push(cs@[i as int]));
    }
    assert(cs@.take(n as int) == cs@);
    r
}

/// Whether `pat` occurs in `s` starting at position `at`.
pub(crate) fn occurs_at(s: &Vec<char>, at: usize, pat: &Vec<char>) -> (b: bool)
    requires
        at <= s@.len(),
    ensures
        b == pat@.is_prefix_of(s@.skip(at as int)),
{
    let n = s.len();
    let m = pat.len();
    if m > n - at {
        return false;
    }
    let mut k: usize = 0;
    while k < m
        invariant
            n == s@.len(),
            m == pat@.len(),
            at + m <= n,
            k <= m,
            forall|j: int| 0 <= j < k ==> s@[at + j] == pat@[j],
        decreases m - k,
    {
        if s[at + k] != pat[k] {
            assert(s@.skip(at as int)[k as int] == s@[at + k]);
            return false;
        }
        k = k + 1;
    }
    assert(pat@ =~= s@.skip(at as int).subrange(0, m as int));
    true
}

/// The upper-case hexadecimal digit for `d` (0 to 15).
pub open spec fn hex_digit_upper(d: u8) -> char {
    if d < 10 {
        (48 + d) as char
    } else {
        (55 + d) as char
    }
}

} // verus!
