//! Substituting `{name}` path placeholders of a request URL with the values
//! of its URL parameters.

use vstd::prelude::*;
use vstd::utf8::encode_utf8;
use crate::text::{chars_of, hex_digit_upper, occurs_at, push_char, string_of};
use crate::migration::hex_table;

verus! {

/// A URL parameter of an HTTP request.
#[derive(Debug)]
pub struct HttpUrlParameter {
    pub name: String,
    pub value: String,
    pub enabled: bool,
    pub id: Option<String>,
}

impl Clone for HttpUrlParameter {
    fn clone(&self) -> (r: Self)
        ensures
            r == *self,
    {
        HttpUrlParameter {
            name: self.name.clone(),
            value: self.value.clone(),
            enabled: self.enabled,
            id: match &self.id {
                Some(s) => Some(s.clone()),
                None => None,
            },
        }
    }
}

/// Bytes that URL encoding leaves as they are: ASCII letters and digits,
/// `-`, `.`, `_` and `~`.
pub open spec fn is_unreserved(b: u8) -> bool {
    (48 <= b <= 57) || (65 <= b <= 90) || (97 <= b <= 122) || b == 45 || b == 46 || b == 95 || b == 126
}

/// Percent-encoding of a byte string: an unreserved byte stands for itself,
/// any other byte becomes `%` and two upper-case hexadecimal digits.
pub open spec fn percent_encode(bytes: Seq<u8>) -> Seq<char>
    decreases bytes.len(),
{
    if bytes.len() == 0 {
        seq![]
    } else {
        let b = bytes[0];
        (if is_unreserved(b) {
            seq![b as char]
        } else {
            seq!['%', hex_digit_upper(b / 16), hex_digit_upper(b % 16)]
        }) + percent_encode(bytes.skip(1))
    }
}

/// Percent-encodes the UTF-8 bytes of `s` (`urlencoding::encode`): every
/// byte but ASCII letters, digits, `-`, `.`, `_` and `~` becomes `%XX`.
#[verifier::external_body]
fn url_encode(s: &str) -> (r: String)
    ensures
        r@ == percent_encode(encode_utf8(s@)),
{
    urlencoding::encode(s).into_owned()
}

/// `s` with every occurrence of `from` replaced by `to`, the occurrences
/// taken from the left without overlap.
pub open spec fn replace_all(s: Seq<char>, from: Seq<char>, to: Seq<char>) -> Seq<char>
    decreases s.len(),
{
    if s.len() == 0 {
        seq![]
    } else if from.len() > 0 && from.is_prefix_of(s) {
        to + replace_all(s.skip(from.len() as int), from, to)
    } else {
        seq![s[0]] + replace_all(s.skip(1), from, to)
    }
}

/// `s` with every occurrence of `from` replaced by `to`.
fn replace_str(s: &str, from: &str, to: &str) -> (r: String)
    requires
        from@.len() > 0,
    ensures
        r@ == replace_all(s@, from@, to@),
{
    let u = chars_of(s);
    let f = chars_of(from);
    let n = u.len();
    let m = f.len();
    let mut result = String::new();
    let mut i: usize = 0;
    assert(u@.skip(0) == u@);
    while i < n
        invariant
            n == u@.len(),
            m == f@.len(),
            m > 0,
            i <= n,
            u@ == s@,
            f@ == from@,
            replace_all(s@, from@, to@) == result@ + replace_all(u@.skip(i as int), f@, to@),
        decreases n - i,
    {
        let ghost rest = u@.skip(i as int);
        let ghost before = result@;
        if occurs_at(&u, i, &f) {
            result.append(to);
            assert(rest.skip(m as int) == u@.skip(i + m));
            assert(result@ + replace_all(u@.skip(i + m), f@, to@) == before + replace_all(rest, f@, to@));
            i = i + m;
        } else {
            push_char(&mut result, u[i]);
            assert(rest.skip(1) == u@.skip(i + 1));
            assert(rest[0] == u@[i as int]);
            assert(result@ + replace_all(u@.skip(i + 1), f@, to@) == before + replace_all(rest, f@, to@));
            i = i + 1;
        }
    }
    result
}

/// A path-placeholder name has the shape `{...}` with something between the
/// braces.
pub open spec fn is_placeholder_name(name: Seq<char>) -> bool {
    name.len() > 2 && name[0] == '{' && name.last() == '}'
}

/// `url` with the placeholder of parameter `p` replaced by its
/// percent-encoded value, where `p` is enabled and its name is a
/// placeholder; `url` unchanged otherwise.
pub open spec fn placeholder_replaced(p: HttpUrlParameter, url: Seq<char>) -> Seq<char> {
    if p.enabled && is_placeholder_name(p.name@) {
        replace_all(url, p.name@, percent_encode(encode_utf8(p.value@)))
    } else {
        url
    }
}

/// Replaces every occurrence of the placeholder `{name}` of `p` in `url`
/// with the percent-encoded value of `p`. A disabled parameter, or one whose
/// name is not of the form `{...}`, leaves the URL as it is.
pub fn replace_path_placeholder(p: &HttpUrlParameter, url: &str) -> (r: String)
    ensures
        r@ == placeholder_replaced(*p, url@),
        !p.enabled ==> r@ == url@,
        !(p.name@.len() > 2 && p.name@[0] == '{' && p.name@.last() == '}') ==> r@ == url@,
        p.enabled && p.name@.len() > 2 && p.name@[0] == '{' && p.name@.last() == '}'
            && p.name@.is_suffix_of(url@)
            && (forall|i: int| 0 <= i < url@.len() - p.name@.len() ==> !p.name@.is_prefix_of(#[trigger] url@.skip(i)))
            ==> r@ == url@.take(url@.len() - p.name@.len()) + percent_encode(encode_utf8(p.value@)),
{
    proof {
        if p.enabled && p.name@.len() > 2 && p.name@[0] == '{' && p.name@.last() == '}'
            && p.name@.is_suffix_of(url@)
            && (forall|i: int| 0 <= i < url@.len() - p.name@.len() ==> !p.name@.is_prefix_of(#[trigger] url@.skip(i))) {
            lemma_placeholder_at_end(*p, url@);
        }
    }
    if !p.enabled {
        return url.to_owned();
    }
    let name = chars_of(p.name.as_str());
    let k = name.len();
    if !(k > 2 && name[0] == '{' && name[k - 1] == '}') {
        return url.to_owned();
    }
    let encoded = url_encode(p.value.as_str());
    replace_str(url, p.name.as_str(), encoded.as_str())
}

/// The URL after substituting the parameters one after another, and the
/// parameters that remain query parameters: those enabled, with a name, whose
/// substitution left the URL as it was.
pub open spec fn apply_placeholders(url: Seq<char>, ps: Seq<HttpUrlParameter>) -> (Seq<char>, Seq<HttpUrlParameter>)
    decreases ps.len(),
{
    if ps.len() == 0 {
        (url, seq![])
    } else {
        let (u, kept) = apply_placeholders(url, ps.drop_last());
        let p = ps.last();
        if !p.enabled || p.name@.len() == 0 {
            (u, kept)
        } else {
            let u2 = placeholder_replaced(p, u);
            if u2 == u {
                (u, kept.push(p))
            } else {
                (u2, kept)
            }
        }
    }
}

/// Substitutes the path placeholders of `url` with the values of the enabled
/// parameters named `{...}`, and returns the new URL with the parameters
/// that are left as query parameters: a parameter that changed the URL is
/// dropped, a disabled or unnamed one is dropped, every other one is kept,
/// in order.
pub fn apply_path_placeholders(url: &str, parameters: &Vec<HttpUrlParameter>) -> (r: (String, Vec<HttpUrlParameter>))
    ensures
        (r.0@, r.1@) == apply_placeholders(url@, parameters@),
        parameters@.len() == 1 && parameters@[0].enabled && parameters@[0].name@.len() > 2
            && parameters@[0].name@[0] == '{' && parameters@[0].name@.last() == '}'
            && parameters@[0].name@.is_suffix_of(url@)
            && (forall|i: int| 0 <= i < url@.len() - parameters@[0].name@.len()
                ==> !parameters@[0].name@.is_prefix_of(#[trigger] url@.skip(i)))
            ==> r.0@ == url@.take(url@.len() - parameters@[0].name@.len())
                    + percent_encode(encode_utf8(parameters@[0].value@))
                && r.1@.len() == 0,
        parameters@.len() == 1 && parameters@[0].enabled && parameters@[0].name@.len() > 0
            && !(parameters@[0].name@.len() > 2 && parameters@[0].name@[0] == '{' && parameters@[0].name@.last() == '}')
            ==> r.0@ == url@ && r.1@ == parameters@,
        parameters@.len() == 1 && !(parameters@[0].enabled && parameters@[0].name@.len() > 0)
            ==> r.0@ == url@ && r.1@.len() == 0,
{
    proof {
        if parameters@.len() == 1 {
            lemma_single_placeholder_applied(url@, parameters@[0]);
            lemma_apply_single(url@, parameters@[0]);
            assert(parameters@ == seq![parameters@[0]]);
        }
    }
    let mut new_parameters: Vec<HttpUrlParameter> = Vec::new();
    let mut u = url.to_owned();
    let n = parameters.len();
    for i in 0..n
        invariant
            n == parameters@.len(),
            (u@, new_parameters@) == apply_placeholders(url@, parameters@.take(i as int)),
    {
        let p = &parameters[i];
        assert(parameters@.take(i + 1).drop_last() == parameters@.take(i as int));
        assert(parameters@.take(i + 1).last() == *p);
        if p.enabled && !p.name.as_str().is_empty() {
            let old_url = u.clone();
            u = replace_path_placeholder(p, u.as_str());
            if old_url == u {
                new_parameters.push(p.clone());
            }
        }
    }
    assert(parameters@.take(n as int) == parameters@);
    (u, new_parameters)
}

/// Whether a parameter is kept as a query parameter when it leaves the URL
/// as it is: it is enabled and has a name.
pub open spec fn is_named_and_enabled(p: HttpUrlParameter) -> bool {
    p.enabled && p.name@.len() > 0
}

/// Parameters that are not enabled path placeholders never touch the URL:
/// where no parameter is both enabled and named `{...}`, the URL comes back
/// as it was and every enabled, named parameter is kept, in order.
pub proof fn lemma_query_parameters_untouched(url: Seq<char>, ps: Seq<HttpUrlParameter>)
    requires
        forall|i: int| 0 <= i < ps.len() ==> !(#[trigger] ps[i].enabled && is_placeholder_name(ps[i].name@)),
    ensures
        apply_placeholders(url, ps) == (url, ps.filter(|p: HttpUrlParameter| is_named_and_enabled(p))),
    decreases ps.len(),
{
    if ps.len() > 0 {
        let init = ps.drop_last();
        assert forall|i: int| 0 <= i < init.len() implies !(#[trigger] init[i].enabled && is_placeholder_name(init[i].name@)) by {
            assert(init[i] == ps[i]);
        }
        lemma_query_parameters_untouched(url, init);
        assert(ps.last() == ps[ps.len() - 1]);
        reveal_with_fuel(Seq::<_>::filter, 1);
        let f = |p: HttpUrlParameter| is_named_and_enabled(p);
        assert(ps.filter(f) == (if f(ps.last()) { init.filter(f).push(ps.last()) } else { init.filter(f) }));
    } else {
        reveal_with_fuel(Seq::<_>::filter, 1);
        assert(ps.filter(|p: HttpUrlParameter| is_named_and_enabled(p)) == ps);
    }
}

/// A placeholder that does not occur in the URL leaves it as it is.
pub proof fn lemma_replace_without_match(s: Seq<char>, from: Seq<char>, to: Seq<char>)
    requires
        forall|i: int| 0 <= i < s.len() ==> !from.is_prefix_of(#[trigger] s.skip(i)),
    ensures
        replace_all(s, from, to) == s,
    decreases s.len(),
{
    if s.len() > 0 {
        let rest = s.skip(1);
        assert forall|i: int| 0 <= i < rest.len() implies !from.is_prefix_of(#[trigger] rest.skip(i)) by {
            assert(rest.skip(i) == s.skip(i + 1));
        }
        lemma_replace_without_match(rest, from, to);
        assert(s.skip(0) == s);
        assert(s == seq![s[0]] + rest);
    }
}

/// Percent-encoding never produces a `{`.
pub proof fn lemma_percent_encode_has_no_brace(bytes: Seq<u8>)
    ensures
        forall|i: int| 0 <= i < percent_encode(bytes).len() ==> #[trigger] percent_encode(bytes)[i] != '{',
    decreases bytes.len(),
{
    if bytes.len() > 0 {
        lemma_percent_encode_has_no_brace(bytes.skip(1));
        let b = bytes[0];
        let head = if is_unreserved(b) {
            seq![b as char]
        } else {
            seq!['%', hex_digit_upper(b / 16), hex_digit_upper(b % 16)]
        };
        assert forall|i: int| 0 <= i < head.len() implies #[trigger] head[i] != '{' by {
            if is_unreserved(b) {
                assert(head[0] == b as char);
            }
        }
        assert(percent_encode(bytes) == head + percent_encode(bytes.skip(1)));
        assert forall|i: int| 0 <= i < percent_encode(bytes).len() implies #[trigger] percent_encode(bytes)[i] != '{' by {
            if i >= head.len() {
                assert(percent_encode(bytes)[i] == percent_encode(bytes.skip(1))[i - head.len()]);
            } else {
                assert(percent_encode(bytes)[i] == head[i]);
            }
        }
    }
}

/// Replacing a pattern that occurs only at the very end of a string replaces
/// just that occurrence.
pub proof fn lemma_replace_at_end(a: Seq<char>, from: Seq<char>, to: Seq<char>)
    requires
        from.len() > 0,
        forall|i: int| 0 <= i < a.len() ==> !from.is_prefix_of(#[trigger] (a + from).skip(i)),
    ensures
        replace_all(a + from, from, to) == a + to,
    decreases a.len(),
{
    let s = a + from;
    if a.len() == 0 {
        assert(s == from);
        assert(from.is_prefix_of(s));
        assert(s.skip(from.len() as int) == Seq::<char>::empty());
        assert(replace_all(Seq::<char>::empty(), from, to) == Seq::<char>::empty());
        assert(to + Seq::<char>::empty() == to);
        assert(a + to == to);
    } else {
        assert(s.skip(0) == s);
        assert(!from.is_prefix_of(s));
        let rest = a.skip(1);
        assert(s.skip(1) == rest + from);
        assert forall|i: int| 0 <= i < rest.len() implies !from.is_prefix_of(#[trigger] (rest + from).skip(i)) by {
            assert((rest + from).skip(i) == s.skip(i + 1));
        }
        lemma_replace_at_end(rest, from, to);
        assert(s[0] == a[0]);
        assert(replace_all(s, from, to) == seq![s[0]] + replace_all(s.skip(1), from, to));
        assert(a + to == seq![a[0]] + (rest + to));
    }
}

/// An enabled `{...}` parameter whose name ends the URL, and occurs nowhere
/// before, is replaced there by its percent-encoded value, whatever the
/// value, the empty one included.
pub proof fn lemma_placeholder_at_end(p: HttpUrlParameter, url: Seq<char>)
    requires
        p.enabled,
        p.name@.len() > 2,
        p.name@[0] == '{',
        p.name@.last() == '}',
        p.name@.is_suffix_of(url),
        forall|i: int| 0 <= i < url.len() - p.name@.len() ==> !p.name@.is_prefix_of(#[trigger] url.skip(i)),
    ensures
        placeholder_replaced(p, url) == url.take(url.len() - p.name@.len()) + percent_encode(encode_utf8(p.value@)),
{
    let name = p.name@;
    let a = url.take(url.len() - name.len());
    assert(placeholder_replaced(p, url) == replace_all(url, name, percent_encode(encode_utf8(p.value@))));
    assert(url == a + name);
    assert forall|i: int| 0 <= i < a.len() implies !name.is_prefix_of(#[trigger] (a + name).skip(i)) by {
        assert((a + name).skip(i) == url.skip(i));
    }
    lemma_replace_at_end(a, name, percent_encode(encode_utf8(p.value@)));
}

/// With a single enabled `{...}` parameter whose name ends the URL, and
/// occurs nowhere before, the URL gets the percent-encoded value in its
/// place, and the parameter is no longer a query parameter.
pub proof fn lemma_single_placeholder_applied(url: Seq<char>, p: HttpUrlParameter)
    ensures
        p.enabled && p.name@.len() > 2 && p.name@[0] == '{' && p.name@.last() == '}'
            && p.name@.is_suffix_of(url)
            && (forall|i: int| 0 <= i < url.len() - p.name@.len() ==> !p.name@.is_prefix_of(#[trigger] url.skip(i)))
            ==> apply_placeholders(url, seq![p])
                == (url.take(url.len() - p.name@.len()) + percent_encode(encode_utf8(p.value@)), Seq::<HttpUrlParameter>::empty()),
{
    if p.enabled && p.name@.len() > 2 && p.name@[0] == '{' && p.name@.last() == '}'
        && p.name@.is_suffix_of(url)
        && (forall|i: int| 0 <= i < url.len() - p.name@.len() ==> !p.name@.is_prefix_of(#[trigger] url.skip(i))) {
        lemma_placeholder_at_end(p, url);
        let a = url.take(url.len() - p.name@.len());
        let enc = percent_encode(encode_utf8(p.value@));
        lemma_percent_encode_has_no_brace(encode_utf8(p.value@));
        assert(url == a + p.name@);
        lemma_replaced_differs(a, p.name@, enc);
        lemma_apply_single(url, p);
    }
}

/// A percent-encoded value never spells a `{...}` name.
proof fn lemma_replaced_differs(a: Seq<char>, name: Seq<char>, enc: Seq<char>)
    requires
        name.len() > 0,
        name[0] == '{',
        forall|i: int| 0 <= i < enc.len() ==> #[trigger] enc[i] != '{',
    ensures
        a + enc != a + name,
{
    if a + enc == a + name {
        assert((a + enc).skip(a.len() as int) == enc);
        assert((a + name).skip(a.len() as int) == name);
        assert(enc[0] == name[0]);
    }
}

/// What applying a single parameter does.
proof fn lemma_apply_single(url: Seq<char>, p: HttpUrlParameter)
    ensures
        apply_placeholders(url, seq![p]) == (if !p.enabled || p.name@.len() == 0 {
            (url, Seq::<HttpUrlParameter>::empty())
        } else if placeholder_replaced(p, url) == url {
            (url, seq![p])
        } else {
            (placeholder_replaced(p, url), Seq::<HttpUrlParameter>::empty())
        }),
{
    let ps = seq![p];
    assert(ps.drop_last() == Seq::<HttpUrlParameter>::empty());
    assert(ps.last() == p);
    assert(apply_placeholders(url, Seq::<HttpUrlParameter>::empty()) == (url, Seq::<HttpUrlParameter>::empty()));
    assert(Seq::<HttpUrlParameter>::empty().push(p) == ps);
}

/// Percent-encoding works byte by byte: ASCII letters, digits, `-`, `.`,
/// `_` and `~` stay as they are, every other byte becomes `%` and its two
/// upper-case hexadecimal digits, and the encoding of a concatenation is the
/// concatenation of the encodings.
pub proof fn lemma_percent_encode_bytes(x: Seq<u8>, y: Seq<u8>, b: u8)
    ensures
        percent_encode(x + y) == percent_encode(x) + percent_encode(y),
        percent_encode(seq![b]) == (if ('0' as u8 <= b <= '9' as u8) || ('A' as u8 <= b <= 'Z' as u8)
            || ('a' as u8 <= b <= 'z' as u8) || b == '-' as u8 || b == '.' as u8 || b == '_' as u8
            || b == '~' as u8 {
            seq![b as char]
        } else {
            seq!['%', hex_table()[(b / 16) as int], hex_table()[(b % 16) as int]]
        }),
    decreases x.len(),
{
    if x.len() > 0 {
        lemma_percent_encode_bytes(x.skip(1), y, b);
        assert((x + y).skip(1) == x.skip(1) + y);
        assert((x + y)[0] == x[0]);
    } else {
        assert(x + y == y);
    }
    let one = seq![b];
    assert(one.skip(1) == Seq::<u8>::empty());
    assert(percent_encode(Seq::<u8>::empty()) == Seq::<char>::empty());
    assert('0' as u8 == 48 && '9' as u8 == 57 && 'A' as u8 == 65 && 'Z' as u8 == 90);
    assert('a' as u8 == 97 && 'z' as u8 == 122 && '-' as u8 == 45 && '.' as u8 == 46);
    assert('_' as u8 == 95 && '~' as u8 == 126);
    let head = if is_unreserved(b) {
        seq![b as char]
    } else {
        seq!['%', hex_digit_upper(b / 16), hex_digit_upper(b % 16)]
    };
    assert(percent_encode(one) == head + percent_encode(one.skip(1)));
    assert(head + Seq::<char>::empty() == head);
    assert forall|d: u8| d < 16 implies hex_digit_upper(d) == #[trigger] hex_table()[d as int] by {
        if d == 0 { } else if d == 1 { } else if d == 2 { } else if d == 3 { } else if d == 4 { }
        else if d == 5 { } else if d == 6 { } else if d == 7 { } else if d == 8 { } else if d == 9 { }
        else if d == 10 { } else if d == 11 { } else if d == 12 { } else if d == 13 { } else if d == 14 { }
        else { }
    }
    assert(hex_table()[(b / 16) as int] == hex_digit_upper(b / 16));
    assert(hex_table()[(b % 16) as int] == hex_digit_upper(b % 16));
}

} // verus!
