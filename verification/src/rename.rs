//! Rewriting legacy `:name` path placeholders to the `{name}` form.

use vstd::prelude::*;
use crate::json::{
    get_field, is_object, json_array_from_text, json_is_object, json_str_field, json_text_of_array,
    json_with_str_field, parse_json_array, render_json_array, set_string_field, string_contents,
};
use crate::text::{chars_of, occurs_at, push_char, string_of};

verus! {

/// Whether position `at` of `url` ends a path segment: the end of the
/// string, or one of `/`, `?`, `#`.
pub open spec fn is_segment_boundary(url: Seq<char>, at: int) -> bool {
    at == url.len() || url[at] == '/' || url[at] == '?' || url[at] == '#'
}

/// `url` with every occurrence of `old` that is followed by a segment
/// boundary replaced by `new`, scanning from the left; a replaced occurrence
/// is not scanned again.
pub open spec fn rewrite_url(url: Seq<char>, old: Seq<char>, new: Seq<char>) -> Seq<char>
    decreases url.len(),
{
    if url.len() == 0 {
        seq![]
    } else if old.len() > 0 && old.is_prefix_of(url) && is_segment_boundary(url, old.len() as int) {
        new + rewrite_url(url.skip(old.len() as int), old, new)
    } else {
        seq![url[0]] + rewrite_url(url.skip(1), old, new)
    }
}

/// With an empty `old` nothing is rewritten.
proof fn lemma_rewrite_empty_old(url: Seq<char>, new: Seq<char>)
    ensures
        rewrite_url(url, seq![], new) == url,
    decreases url.len(),
{
    if url.len() > 0 {
        lemma_rewrite_empty_old(url.skip(1), new);
        assert(url == seq![url[0]] + url.skip(1));
    }
}

/// Replace every occurrence of `old` in `url` with `new`, but only where the
/// match is followed by a path-segment boundary (`/`, `?`, `#`, or the end of
/// the string), so that renaming `:foo` leaves a literal `:foobar` alone.
///
/// An empty `old` matches everywhere, and a match before a `/`, `?` or `#`
/// would be replaced forever: with an empty `old` the URL must hold none of
/// them, and comes back as it is.
pub fn rewrite_url_for_param(url: &str, old: &str, new: &str) -> (r: String)
    requires
        old@.len() > 0 || forall|i: int| 0 <= i < url@.len() ==> !is_segment_boundary(url@, i),
    ensures
        r@ == rewrite_url(url@, old@, new@),
{
    let u = chars_of(url);
    let o = chars_of(old);
    let n = u.len();
    let m = o.len();
    if m == 0 {
        proof {
            assert(old@ =~= Seq::<char>::empty());
            lemma_rewrite_empty_old(url@, new@);
        }
        return url.to_owned();
    }
    let mut result = String::new();
    let mut i: usize = 0;
    assert(u@.skip(0) == u@);
    while i < n
        invariant
            n == u@.len(),
            m == o@.len(),
            m > 0,
            i <= n,
            u@ == url@,
            o@ == old@,
            rewrite_url(url@, old@, new@) == result@ + rewrite_url(u@.skip(i as int), o@, new@),
        decreases n - i,
    {
        let ghost rest = u@.skip(i as int);
        let ghost before = result@;
        if occurs_at(&u, i, &o) {
            let after = i + m;
            let boundary = after == n || u[after] == '/' || u[after] == '?' || u[after] == '#';
            assert(boundary == is_segment_boundary(rest, m as int)) by {
                if after < n {
                    assert(rest[m as int] == u@[after as int]);
                }
            }
            if boundary {
                result.append(new);
                assert(rest.skip(m as int) == u@.skip(after as int));
                assert(result@ + rewrite_url(u@.skip(after as int), o@, new@)
                    == before + rewrite_url(rest, o@, new@));
                i = after;
                continue;
            }
        }
        push_char(&mut result, u[i]);
        assert(rest.skip(1) == u@.skip(i + 1));
        assert(rest[0] == u@[i as int]);
        assert(result@ + rewrite_url(u@.skip(i + 1), o@, new@)
            == before + rewrite_url(rest, o@, new@));
        i = i + 1;
    }
    result
}

/// Whether index `i` comes before index `j` when indices are ordered by
/// decreasing key, equal keys keeping their original order.
pub open spec fn key_before(keys: Seq<usize>, i: int, j: int) -> bool {
    keys[i] > keys[j] || (keys[i] == keys[j] && i < j)
}

/// `p` lists indices of `keys`, each before the next in the `key_before` order.
pub open spec fn is_key_order(keys: Seq<usize>, p: Seq<usize>) -> bool {
    &&& p.len() == keys.len()
    &&& forall|k: int| 0 <= k < p.len() ==> #[trigger] p[k] < keys.len()
    &&& forall|k: int, l: int| 0 <= k < l < p.len() ==> key_before(keys, #[trigger] p[k] as int, #[trigger] p[l] as int)
}

/// The indices of `keys` ordered by decreasing key; a stable sort.
fn order_by_decreasing_key(keys: &Vec<usize>) -> (p: Vec<usize>)
    ensures
        is_key_order(keys@, p@),
{
    let n = keys.len();
    let mut p: Vec<usize> = Vec::new();
    for i in 0..n
        invariant
            n == keys@.len(),
            p@.len() == i,
            forall|k: int| 0 <= k < p@.len() ==> #[trigger] p@[k] < i,
            forall|k: int, l: int| 0 <= k < l < p@.len() ==> key_before(keys@, #[trigger] p@[k] as int, #[trigger] p@[l] as int),
    {
        let ki = keys[i];
        let mut pos: usize = 0;
        while pos < p.len() && keys[p[pos]] >= ki
            invariant
                n == keys@.len(),
                p@.len() == i,
                i < n,
                ki == keys@[i as int],
                pos <= p@.len(),
                forall|k: int| 0 <= k < p@.len() ==> #[trigger] p@[k] < i,
                forall|k: int| 0 <= k < pos ==> keys@[#[trigger] p@[k] as int] >= ki,
            decreases p@.len() - pos,
        {
            pos = pos + 1;
        }
        let ghost old_p = p@;
        proof {
            assert forall|l: int| pos <= l < old_p.len() implies keys@[#[trigger] old_p[l] as int] < ki by {
                if l > pos {
                    assert(key_before(keys@, old_p[pos as int] as int, old_p[l] as int));
                }
            }
        }
        p.insert(pos, i);
        proof {
            assert forall|k: int| 0 <= k < p@.len() implies #[trigger] p@[k] < i + 1 by {
                if k < pos {
                    assert(p@[k] == old_p[k]);
                } else if k > pos {
                    assert(p@[k] == old_p[k - 1]);
                }
            }
            assert forall|k: int, l: int| 0 <= k < l < p@.len() implies key_before(keys@, #[trigger] p@[k] as int, #[trigger] p@[l] as int) by {
                if l < pos {
                    assert(p@[k] == old_p[k] && p@[l] == old_p[l]);
                } else if l == pos {
                    assert(p@[k] == old_p[k]);
                } else if k < pos {
                    assert(p@[k] == old_p[k] && p@[l] == old_p[l - 1]);
                } else if k == pos {
                    assert(p@[l] == old_p[l - 1]);
                } else {
                    assert(p@[k] == old_p[k - 1] && p@[l] == old_p[l - 1]);
                }
            }
        }
    }
    p
}

/// The length of `s` in bytes, encoded as UTF-8.
pub open spec fn byte_len(s: Seq<char>) -> nat {
    vstd::utf8::encode_utf8(s).len()
}

/// The `{name}` spelling of a legacy `:name` parameter name; `None` for a
/// name that does not start with `:` or has nothing after it.
pub open spec fn brace_form(name: Seq<char>) -> Option<Seq<char>> {
    if name.len() > 1 && name[0] == ':' {
        Some(seq!['{'] + name.skip(1) + seq!['}'])
    } else {
        None
    }
}

/// The `(old, new)` pairs of the names that are renamed, in the order of
/// the names.
pub open spec fn rename_candidates(names: Seq<Option<Seq<char>>>) -> Seq<(Seq<char>, Seq<char>)>
    decreases names.len(),
{
    if names.len() == 0 {
        seq![]
    } else {
        let prev = rename_candidates(names.drop_last());
        match names.last() {
            Some(n) => match brace_form(n) {
                Some(b) => prev.push((n, b)),
                None => prev,
            },
            None => prev,
        }
    }
}

/// Rename `i` is applied before rename `j`: its old name is longer in
/// bytes, or as long and listed earlier.
pub open spec fn renamed_before(c: Seq<(Seq<char>, Seq<char>)>, i: int, j: int) -> bool {
    byte_len(c[i].0) > byte_len(c[j].0) || (byte_len(c[i].0) == byte_len(c[j].0) && i < j)
}

/// `p` lists the indices of `c` in the `renamed_before` order.
pub open spec fn is_rename_order(c: Seq<(Seq<char>, Seq<char>)>, p: Seq<usize>) -> bool {
    &&& p.len() == c.len()
    &&& forall|k: int| 0 <= k < p.len() ==> #[trigger] p[k] < c.len()
    &&& forall|k: int, l: int| 0 <= k < l < p.len() ==> renamed_before(c, #[trigger] p[k] as int, #[trigger] p[l] as int)
}

/// `r` is `c` sorted by decreasing byte length of the old name, renames of
/// equal length keeping their order.
pub open spec fn is_longest_first(c: Seq<(Seq<char>, Seq<char>)>, r: Seq<(Seq<char>, Seq<char>)>) -> bool {
    exists|p: Seq<usize>| #[trigger] is_rename_order(c, p) && r == p.map_values(|k: usize| c[k as int])
}

/// `url` after applying the renames of `r` one after another, first to last.
pub open spec fn rewrite_url_all(url: Seq<char>, r: Seq<(Seq<char>, Seq<char>)>) -> Seq<char>
    decreases r.len(),
{
    if r.len() == 0 {
        url
    } else {
        let prev = rewrite_url_all(url, r.drop_last());
        rewrite_url(prev, r.last().0, r.last().1)
    }
}

/// The new name of each parameter: its `{name}` form where it is renamed,
/// `None` where it is left as it is.
pub open spec fn renamed_names(names: Seq<Option<Seq<char>>>) -> Seq<Option<Seq<char>>> {
    names.map_values(|n: Option<Seq<char>>| match n {
        Some(x) => brace_form(x),
        None => None,
    })
}

/// The `{name}` spelling of a legacy `:name` parameter name.
fn brace_name(name: &str) -> (r: Option<String>)
    ensures
        r.deep_view() == brace_form(name@),
{
    let cs = chars_of(name);
    let n = cs.len();
    if n > 1 && cs[0] == ':' {
        let mut out: Vec<char> = Vec::new();
        out.push('{');
        for i in 1..n
            invariant
                n == cs@.len(),
                1 <= i <= n,
                out@ == seq!['{'] + cs@.subrange(1, i as int),
        {
            out.push(cs[i]);
            assert(cs@.subrange(1, i + 1) == cs@.subrange(1, i as int).push(cs@[i as int]));
        }
        out.push('}');
        assert(cs@.subrange(1, n as int) == cs@.skip(1));
        Some(string_of(&out))
    } else {
        None
    }
}

/// The `(old, new)` pairs for the names that are renamed, in name order.
fn collect_renames(names: &Vec<Option<String>>) -> (c: Vec<(String, String)>)
    ensures
        c.deep_view() == rename_candidates(names.deep_view()),
{
    let mut c: Vec<(String, String)> = Vec::new();
    let n = names.len();
    for i in 0..n
        invariant
            n == names@.len(),
            c.deep_view() == rename_candidates(names.deep_view().take(i as int)),
    {
        let ghost nv = names.deep_view();
        assert(nv.take(i + 1).drop_last() == nv.take(i as int));
        assert(nv.take(i + 1).last() == names@[i as int].deep_view());
        match &names[i] {
            Some(name) => {
                match brace_name(name.as_str()) {
                    Some(b) => {
                        let ghost before = c.deep_view();
                        c.push((name.clone(), b));
                        assert(c.deep_view() == before.push((name@, b@)));
                    },
                    None => {},
                }
            },
            None => {},
        }
    }
    assert(names.deep_view().take(n as int) == names.deep_view());
    c
}

/// `c` ordered longest old name first (in bytes), equal lengths keeping
/// their order.
fn order_renames(c: &Vec<(String, String)>) -> (r: Vec<(String, String)>)
    ensures
        is_longest_first(c.deep_view(), r.deep_view()),
{
    let n = c.len();
    let ghost cv = c.deep_view();
    let mut keys: Vec<usize> = Vec::new();
    for i in 0..n
        invariant
            n == c@.len(),
            cv == c.deep_view(),
            keys@.len() == i,
            forall|k: int| 0 <= k < i ==> #[trigger] keys@[k] == byte_len(cv[k].0),
    {
        keys.push(c[i].0.as_str().as_bytes().len());
    }
    let p = order_by_decreasing_key(&keys);
    assert(is_rename_order(cv, p@)) by {
        assert forall|k: int, l: int| 0 <= k < l < p@.len() implies renamed_before(cv, #[trigger] p@[k] as int, #[trigger] p@[l] as int) by {
            assert(key_before(keys@, p@[k] as int, p@[l] as int));
        }
    }
    let mut r: Vec<(String, String)> = Vec::new();
    for k in 0..n
        invariant
            n == c@.len(),
            cv == c.deep_view(),
            is_rename_order(cv, p@),
            r.deep_view() == p@.take(k as int).map_values(|j: usize| cv[j as int]),
    {
        let j = p[k];
        let ghost before = r.deep_view();
        r.push((c[j].0.clone(), c[j].1.clone()));
        assert(r.deep_view() == before.push(cv[j as int]));
        assert(p@.take(k + 1).map_values(|j: usize| cv[j as int])
            == p@.take(k as int).map_values(|j: usize| cv[j as int]).push(cv[j as int]));
    }
    assert(p@.take(n as int) == p@);
    r
}

/// A URL in which `old` never occurs before a segment boundary is left as
/// it is.
pub proof fn lemma_rewrite_without_match(url: Seq<char>, old: Seq<char>, new: Seq<char>)
    requires
        forall|i: int| 0 <= i < url.len() ==> !(old.is_prefix_of(#[trigger] url.skip(i))
            && is_segment_boundary(url, i + old.len())),
    ensures
        rewrite_url(url, old, new) == url,
    decreases url.len(),
{
    if url.len() > 0 {
        let rest = url.skip(1);
        assert forall|i: int| 0 <= i < rest.len() implies !(old.is_prefix_of(#[trigger] rest.skip(i))
            && is_segment_boundary(rest, i + old.len())) by {
            assert(rest.skip(i) == url.skip(i + 1));
            if i + old.len() < rest.len() {
                assert(rest[i + old.len()] == url[i + 1 + old.len()]);
            }
        }
        lemma_rewrite_without_match(rest, old, new);
        assert(url.skip(0) == url);
        if old.len() < url.len() {
            assert(url.skip(0)[old.len() as int] == url[old.len() as int]);
        }
        assert(url == seq![url[0]] + rest);
    }
}

/// A name `:x` with `x` not empty is renamed to `{x}`, whatever `x` holds;
/// no other name is renamed.
pub proof fn lemma_brace_form(name: Seq<char>)
    ensures
        name.len() > 1 && name[0] == ':' ==> brace_form(name) == Some(seq!['{'] + name.skip(1) + seq!['}']),
        !(name.len() > 1 && name[0] == ':') ==> brace_form(name) is None,
{
}

/// Some name is renamed exactly when some name is `:x` with `x` not empty.
pub proof fn lemma_candidates_empty_iff(names: Seq<Option<Seq<char>>>)
    ensures
        rename_candidates(names).len() == 0 <==> forall|i: int| 0 <= i < names.len() ==>
            !(#[trigger] names[i] matches Some(x) && x.len() > 1 && x[0] == ':'),
    decreases names.len(),
{
    if names.len() > 0 {
        let init = names.drop_last();
        lemma_candidates_empty_iff(init);
        assert forall|i: int| 0 <= i < init.len() implies #[trigger] init[i] == names[i] by {}
        assert(names.last() == names[names.len() - 1]);
        let last = names.last();
        if let Some(x) = last {
            lemma_brace_form(x);
        }
        lemma_candidates_grow(init, names);
        if rename_candidates(names).len() == 0 {
            assert forall|i: int| 0 <= i < names.len() implies
                !(#[trigger] names[i] matches Some(x) && x.len() > 1 && x[0] == ':') by {
                if i < init.len() {
                    assert(init[i] == names[i]);
                }
            }
        }
        if forall|i: int| 0 <= i < names.len() ==>
            !(#[trigger] names[i] matches Some(x) && x.len() > 1 && x[0] == ':') {
            assert forall|i: int| 0 <= i < init.len() implies
                !(#[trigger] init[i] matches Some(x) && x.len() > 1 && x[0] == ':') by {
                assert(init[i] == names[i]);
            }
            assert(!(names[names.len() - 1] matches Some(x) && x.len() > 1 && x[0] == ':'));
        }
    }
}

proof fn lemma_candidates_grow(init: Seq<Option<Seq<char>>>, names: Seq<Option<Seq<char>>>)
    requires
        names.len() > 0,
        init == names.drop_last(),
    ensures
        rename_candidates(init).len() <= rename_candidates(names).len(),
{
}

/// The rewrite, step by step: an occurrence of `old` at the start followed
/// by the end, `/`, `?` or `#` becomes `new`; otherwise the first character
/// stays and the rest is rewritten.
pub proof fn lemma_rewrite_url_steps(s: Seq<char>, old: Seq<char>, new: Seq<char>)
    requires
        old.len() > 0,
    ensures
        s.len() == 0 ==> rewrite_url(s, old, new) == s,
        old.is_prefix_of(s) && (s.len() == old.len() || s[old.len() as int] == '/'
            || s[old.len() as int] == '?' || s[old.len() as int] == '#')
            ==> rewrite_url(s, old, new) == new + rewrite_url(s.skip(old.len() as int), old, new),
        s.len() > 0 && !(old.is_prefix_of(s) && (s.len() == old.len() || s[old.len() as int] == '/'
            || s[old.len() as int] == '?' || s[old.len() as int] == '#'))
            ==> rewrite_url(s, old, new) == seq![s[0]] + rewrite_url(s.skip(1), old, new),
{
}

/// In a longest-first order every rename comes from the candidates, and the
/// old names never get longer (in UTF-8 bytes) from one rename to the next.
pub proof fn lemma_longest_first_sorted(c: Seq<(Seq<char>, Seq<char>)>, r: Seq<(Seq<char>, Seq<char>)>)
    requires
        is_longest_first(c, r),
    ensures
        r.len() == c.len(),
        forall|k: int| 0 <= k < r.len() ==> c.contains(#[trigger] r[k]),
        forall|k: int, l: int| 0 <= k < l < r.len() ==>
            vstd::utf8::encode_utf8(#[trigger] r[k].0).len() >= vstd::utf8::encode_utf8(#[trigger] r[l].0).len(),
{
    let p = choose|p: Seq<usize>| #[trigger] is_rename_order(c, p) && r == p.map_values(|k: usize| c[k as int]);
    assert forall|k: int| 0 <= k < r.len() implies c.contains(#[trigger] r[k]) by {
        assert(r[k] == c[p[k] as int]);
    }
    assert forall|k: int, l: int| 0 <= k < l < r.len() implies
        vstd::utf8::encode_utf8(#[trigger] r[k].0).len() >= vstd::utf8::encode_utf8(#[trigger] r[l].0).len() by {
        assert(renamed_before(c, p[k] as int, p[l] as int));
        assert(r[k] == c[p[k] as int] && r[l] == c[p[l] as int]);
    }
}

/// Every candidate pairs a renamed name with its `{name}` form.
proof fn lemma_candidates_are_renames(names: Seq<Option<Seq<char>>>)
    ensures
        forall|k: int| 0 <= k < rename_candidates(names).len() ==>
            brace_form(#[trigger] rename_candidates(names)[k].0) == Some(rename_candidates(names)[k].1),
    decreases names.len(),
{
    if names.len() > 0 {
        lemma_candidates_are_renames(names.drop_last());
    }
}

/// Rewrite the placeholders of `url` for the given parameter names: each
/// name `:x` (with `x` not empty) becomes `{x}`, and the URL is rewritten
/// for the renamed names, longest old name first so that `:foo` does not eat
/// a prefix of `:foobar`. `None` where no name is renamed; otherwise the new
/// URL and, for each name, its new spelling (`None` where it stays).
pub fn rewrite_request_names(url: &str, names: &Vec<Option<String>>) -> (r: Option<(String, Vec<Option<String>>)>)
    ensures
        r is None <==> rename_candidates(names.deep_view()).len() == 0,
        r matches Some((u, new_names)) ==> {
            &&& exists|order: Seq<(Seq<char>, Seq<char>)>|
                #[trigger] is_longest_first(rename_candidates(names.deep_view()), order)
                && u@ == rewrite_url_all(url@, order)
            &&& new_names.deep_view() == renamed_names(names.deep_view())
        },
        r is None <==> forall|i: int| 0 <= i < names@.len() ==>
            !(#[trigger] names.deep_view()[i] matches Some(x) && x.len() > 1 && x[0] == ':'),
        r matches Some((u, new_names)) ==> forall|i: int| 0 <= i < names@.len() ==>
            #[trigger] new_names.deep_view()[i] == (match names.deep_view()[i] {
                Some(x) => if x.len() > 1 && x[0] == ':' { Some(seq!['{'] + x.skip(1) + seq!['}']) } else { None },
                None => None,
            }),
{
    proof {
        lemma_candidates_empty_iff(names.deep_view());
        assert forall|i: int| 0 <= i < names@.len() implies
            (match #[trigger] names.deep_view()[i] { Some(x) => brace_form(x), None => None })
            == (match names.deep_view()[i] {
                Some(x) => if x.len() > 1 && x[0] == ':' { Some(seq!['{'] + x.skip(1) + seq!['}']) } else { None },
                None => None,
            }) by {
            if let Some(x) = names.deep_view()[i] {
                lemma_brace_form(x);
            }
        }
    }
    let c = collect_renames(names);
    if c.len() == 0 {
        return None;
    }
    let ghost cv = c.deep_view();
    let order = order_renames(&c);
    let ghost ov = order.deep_view();
    proof {
        lemma_candidates_are_renames(names.deep_view());
        let p = choose|p: Seq<usize>| #[trigger] is_rename_order(cv, p) && ov == p.map_values(|k: usize| cv[k as int]);
        assert forall|k: int| 0 <= k < ov.len() implies brace_form(#[trigger] ov[k].0) == Some(ov[k].1) by {
            assert(ov[k] == cv[p[k] as int]);
        }
    }
    let mut u = url.to_owned();
    let m = order.len();
    for k in 0..m
        invariant
            m == order@.len(),
            ov == order.deep_view(),
            forall|j: int| 0 <= j < ov.len() ==> brace_form(#[trigger] ov[j].0) == Some(ov[j].1),
            u@ == rewrite_url_all(url@, ov.take(k as int)),
    {
        assert(brace_form(ov[k as int].0) == Some(ov[k as int].1));
        u = rewrite_url_for_param(u.as_str(), order[k].0.as_str(), order[k].1.as_str());
        assert(ov.take(k + 1).drop_last() == ov.take(k as int));
    }
    assert(ov.take(m as int) == ov);
    let mut new_names: Vec<Option<String>> = Vec::new();
    let n = names.len();
    for i in 0..n
        invariant
            n == names@.len(),
            new_names@.len() == i,
            forall|j: int| 0 <= j < i ==> #[trigger] new_names.deep_view()[j] == renamed_names(names.deep_view())[j],
    {
        let nn = match &names[i] {
            Some(name) => brace_name(name.as_str()),
            None => None,
        };
        let ghost before = new_names.deep_view();
        new_names.push(nn);
        assert(new_names.deep_view() == before.push(nn.deep_view()));
        assert(names.deep_view()[i as int] == names@[i as int].deep_view());
    }
    assert(new_names.deep_view() == renamed_names(names.deep_view()));
    Some((u, new_names))
}

/// The parameter names once the renames are in place: a renamed name takes
/// its `{name}` form, every other name stays.
pub open spec fn names_after_rename(names: Seq<Option<Seq<char>>>) -> Seq<Option<Seq<char>>> {
    names.map_values(|n: Option<Seq<char>>| match n {
        Some(x) => match brace_form(x) {
            Some(b) => Some(b),
            None => Some(x),
        },
        None => None,
    })
}

proof fn lemma_no_candidates(names: Seq<Option<Seq<char>>>)
    requires
        forall|i: int| 0 <= i < names.len() ==> (#[trigger] names[i] matches Some(x) ==> brace_form(x) is None),
    ensures
        rename_candidates(names).len() == 0,
    decreases names.len(),
{
    if names.len() > 0 {
        let init = names.drop_last();
        assert forall|i: int| 0 <= i < init.len() implies (#[trigger] init[i] matches Some(x) ==> brace_form(x) is None) by {
            assert(init[i] == names[i]);
        }
        lemma_no_candidates(init);
        assert(names.last() == names[names.len() - 1]);
    }
}

/// Renaming is idempotent: once the new names are in place, no name is
/// renamed again, so a second pass changes nothing.
pub proof fn lemma_rename_idempotent(names: Seq<Option<Seq<char>>>)
    ensures
        rename_candidates(names_after_rename(names)).len() == 0,
{
    let after = names_after_rename(names);
    assert forall|i: int| 0 <= i < after.len() implies (#[trigger] after[i] matches Some(x) ==> brace_form(x) is None) by {
        if let Some(x) = names[i] {
            if let Some(b) = brace_form(x) {
                assert(b[0] == '{');
            }
        }
    }
    lemma_no_candidates(after);
}

/// The key of a parameter's name in its JSON object.
pub open spec fn name_key() -> Seq<char> {
    seq!['n', 'a', 'm', 'e']
}

/// The name of a parameter held as a JSON value: its `name` field, where
/// that is a string.
pub open spec fn json_param_name(v: serde_json::Value) -> Option<Seq<char>> {
    json_str_field(v, name_key())
}

/// The names of a list of JSON parameters.
pub open spec fn json_param_names(ps: Seq<serde_json::Value>) -> Seq<Option<Seq<char>>> {
    ps.map_values(|v: serde_json::Value| json_param_name(v))
}

/// The JSON parameters with the new names set: an object whose name is
/// renamed gets its `name` field replaced, any other value stays.
pub open spec fn with_new_names(ps: Seq<serde_json::Value>, new_names: Seq<Option<Seq<char>>>) -> Seq<serde_json::Value> {
    Seq::new(ps.len(), |i: int| match new_names[i] {
        Some(n) => if json_is_object(ps[i]) { json_with_str_field(ps[i], name_key(), n) } else { ps[i] },
        None => ps[i],
    })
}

/// Whether a request with these parameters is left as it is: the JSON does
/// not parse as an array, or no parameter in it is renamed.
pub open spec fn declines_rewrite(params_json: Seq<char>) -> bool {
    match json_array_from_text(params_json) {
        None => true,
        Some(ps) => rename_candidates(json_param_names(ps)).len() == 0,
    }
}

/// Rewrite one saved request from the legacy `:name` placeholders to the
/// `{name}` form: `params_json` is its JSON array of URL parameters. `None`
/// where the JSON does not parse as an array or no parameter is renamed;
/// otherwise the new URL and the new JSON of the parameters. The rewrite is
/// idempotent: on its own result it gives `None`.
pub fn rewrite_one_request(url: &str, params_json: &str) -> (r: Option<(String, String)>)
    ensures
        r is None <==> declines_rewrite(params_json@),
        (json_array_from_text(params_json@) matches Some(ps) && (exists|i: int| 0 <= i < ps.len()
            && (#[trigger] json_param_name(ps[i]) matches Some(x) && x.len() > 1 && x[0] == ':')))
            ==> r is Some,
        r matches Some((u, j)) ==> {
            &&& json_array_from_text(params_json@) matches Some(ps)
            &&& Some(j@) == json_text_of_array(with_new_names(ps, renamed_names(json_param_names(ps))))
            &&& exists|order: Seq<(Seq<char>, Seq<char>)>|
                #[trigger] is_longest_first(rename_candidates(json_param_names(ps)), order)
                && u@ == rewrite_url_all(url@, order)
            &&& declines_rewrite(j@)
        },
{
    let mut params = match parse_json_array(params_json) {
        Some(ps) => ps,
        None => return None,
    };
    let ghost ps = params@;
    proof {
        lemma_candidates_empty_iff(json_param_names(ps));
        if exists|i: int| 0 <= i < ps.len() && (#[trigger] json_param_name(ps[i]) matches Some(x) && x.len() > 1 && x[0] == ':') {
            let i = choose|i: int| 0 <= i < ps.len() && (#[trigger] json_param_name(ps[i]) matches Some(x) && x.len() > 1 && x[0] == ':');
            assert(json_param_names(ps)[i] == json_param_name(ps[i]));
        }
    }
    proof {
        reveal_strlit("name");
    }
    let n = params.len();
    let mut names: Vec<Option<String>> = Vec::new();
    for i in 0..n
        invariant
            n == params@.len(),
            params@ == ps,
            "name"@ == name_key(),
            names@.len() == i,
            forall|j: int| 0 <= j < i ==> #[trigger] names.deep_view()[j] == json_param_name(ps[j]),
            forall|j: int| 0 <= j < i ==> (#[trigger] names.deep_view()[j] is Some ==> json_is_object(ps[j])),
    {
        let name = match get_field(&params[i], "name") {
            Some(f) => string_contents(f),
            None => None,
        };
        let ghost before = names.deep_view();
        names.push(name);
        assert(names.deep_view() == before.push(name.deep_view()));
    }
    let ghost nv = names.deep_view();
    assert(nv == json_param_names(ps));
    let (new_url, new_names) = match rewrite_request_names(url, &names) {
        Some(res) => res,
        None => return None,
    };
    let ghost nn = new_names.deep_view();
    assert(nn.len() == new_names@.len());
    assert(nn.len() == nv.len());
    let ghost after = names_after_rename(nv);
    let mut renamed: Vec<serde_json::Value> = Vec::new();
    for i in 0..n
        invariant
            n == ps.len(),
            n == new_names@.len(),
            n == nv.len(),
            nn == new_names.deep_view(),
            nn == renamed_names(nv),
            after == names_after_rename(nv),
            forall|j: int| 0 <= j < n ==> #[trigger] nv[j] == json_param_name(ps[j]),
            forall|j: int| 0 <= j < n ==> (#[trigger] nv[j] is Some ==> json_is_object(ps[j])),
            "name"@ == name_key(),
            params@ == ps.skip(i as int),
            renamed@ == with_new_names(ps, nn).take(i as int),
            forall|j: int| 0 <= j < i ==> #[trigger] json_param_name(renamed@[j]) == after[j],
    {
        let mut v = params.remove(0);
        assert(v == ps[i as int]);
        assert(nn[i as int] == new_names@[i as int].deep_view());
        assert(nv[i as int] == json_param_name(ps[i as int]));
        match &new_names[i] {
            Some(new) => {
                if is_object(&v) {
                    set_string_field(&mut v, "name", new.clone());
                }
            },
            None => {},
        }
        let ghost before = renamed@;
        renamed.push(v);
        assert(renamed@[i as int] == v);
        assert(json_param_name(v) == after[i as int]);
        assert(params@ == ps.skip(i + 1));
        assert(renamed@ == with_new_names(ps, nn).take(i + 1));
    }
    assert(renamed@ == with_new_names(ps, nn));
    let j = match render_json_array(&renamed) {
        Some(j) => j,
        None => return None,
    };
    proof {
        if let Some(back) = json_array_from_text(j@) {
            assert(json_param_names(back) =~= after) by {
                assert forall|k: int| 0 <= k < back.len() implies json_param_names(back)[k] == after[k] by {
                    assert(json_str_field(back[k], name_key()) == json_str_field(renamed@[k], name_key()));
                    assert(json_param_name(renamed@[k]) == after[k]);
                }
                assert(back.len() == renamed@.len());
            }
            lemma_rename_idempotent(nv);
        }
    }
    Some((new_url, j))
}

} // verus!
