//! The pure parts of running the database migrations: which embedded files
//! are migrations and in what order they run, how a migration file name
//! splits into version and description, and the checksum recorded for each.

use vstd::prelude::*;
use crate::text::{chars_of, hex_digit_upper};

verus! {

/// The characters `.sql`.
pub open spec fn sql_suffix() -> Seq<char> {
    seq!['.', 's', 'q', 'l']
}

/// Whether `name` ends with `.sql`.
pub open spec fn ends_with_sql(name: Seq<char>) -> bool {
    name.len() >= 4 && name.skip(name.len() - 4) == sql_suffix()
}

/// Splits a migration file name `VERSION_DESCRIPTION.sql` into its version
/// (everything before the first `_`) and its description (everything after
/// it, `.sql` removed). `None` for a name that does not end with `.sql` or
/// has no `_` before it.
pub fn split_migration_filename(filename: &str) -> (r: Option<(String, String)>)
    ensures
        r is Some <==> (ends_with_sql(filename@) && filename@.take(filename@.len() - 4).contains('_')),
        r matches Some((version, description)) ==> {
            &&& filename@ == version@ + seq!['_'] + description@ + sql_suffix()
            &&& !version@.contains('_')
        },
{
    let cs = chars_of(filename);
    let n = cs.len();
    if n < 4 || cs[n - 4] != '.' || cs[n - 3] != 's' || cs[n - 2] != 'q' || cs[n - 1] != 'l' {
        proof {
            if ends_with_sql(filename@) {
                assert(filename@.skip(n - 4)[0] == cs@[n - 4]);
                assert(filename@.skip(n - 4)[1] == cs@[n - 3]);
                assert(filename@.skip(n - 4)[2] == cs@[n - 2]);
                assert(filename@.skip(n - 4)[3] == cs@[n - 1]);
            }
        }
        return None;
    }
    assert(filename@.skip(n - 4) == sql_suffix());
    let t = n - 4;
    let ghost trimmed = filename@.take(t as int);
    let mut k: usize = 0;
    while k < t && cs[k] != '_'
        invariant
            n == cs@.len(),
            cs@ == filename@,
            t == n - 4,
            k <= t,
            trimmed == filename@.take(t as int),
            forall|j: int| 0 <= j < k ==> cs@[j] != '_',
        decreases t - k,
    {
        k = k + 1;
    }
    if k == t {
        proof {
            if trimmed.contains('_') {
                let j = choose|j: int| 0 <= j < trimmed.len() && trimmed[j] == '_';
                assert(cs@[j] == '_');
            }
        }
        return None;
    }
    let mut version: Vec<char> = Vec::new();
    for j in 0..k
        invariant
            n == cs@.len(),
            k < t,
            t == n - 4,
            version@ == cs@.take(j as int),
    {
        version.push(cs[j]);
        assert(cs@.take(j + 1) == cs@.take(j as int).push(cs@[j as int]));
    }
    let mut description: Vec<char> = Vec::new();
    for j in k + 1..t
        invariant
            n == cs@.len(),
            k < t,
            t == n - 4,
            description@ == cs@.subrange(k + 1, j as int),
    {
        description.push(cs[j]);
        assert(cs@.subrange(k + 1, j + 1) == cs@.subrange(k + 1, j as int).push(cs@[j as int]));
    }
    proof {
        assert(trimmed[k as int] == '_');
        assert(filename@ == version@ + seq!['_'] + description@ + sql_suffix());
        if version@.contains('_') {
            let j = choose|j: int| 0 <= j < version@.len() && version@[j] == '_';
            assert(cs@[j] == '_');
        }
    }
    Some((crate::text::string_of(&version), crate::text::string_of(&description)))
}

/// The SHA-384 digest of `data` (`sha2::Sha384`).
pub uninterp spec fn sha384_digest(data: Seq<u8>) -> Seq<u8>;

/// Computes the SHA-384 digest of `data` (`sha2::Digest::digest` on
/// `Sha384`); the digest is 48 bytes long.
#[verifier::external_body]
fn sha384(data: &[u8]) -> (r: Vec<u8>)
    ensures
        r@ == sha384_digest(data@),
        r@.len() == 48,
{
    <sha2::Sha384 as sha2::Digest>::digest(data).to_vec()
}

/// Upper-case hexadecimal text of a byte string, two digits per byte, the
/// high digit first.
pub open spec fn hex_upper(bytes: Seq<u8>) -> Seq<char>
    decreases bytes.len(),
{
    if bytes.len() == 0 {
        seq![]
    } else {
        seq![hex_digit_upper(bytes[0] / 16), hex_digit_upper(bytes[0] % 16)] + hex_upper(bytes.skip(1))
    }
}

/// Encodes bytes as upper-case hexadecimal text (`hex::encode_upper`).
#[verifier::external_body]
fn hex_encode_upper(bytes: &[u8]) -> (r: String)
    ensures
        r@ == hex_upper(bytes@),
{
    hex::encode_upper(bytes)
}

/// The checksum recorded for a migration: `0x` followed by the upper-case
/// hexadecimal SHA-384 digest of its text.
pub open spec fn migration_checksum(input: Seq<u8>) -> Seq<char> {
    seq!['0', 'x'] + hex_upper(sha384_digest(input))
}

/// The upper-case hexadecimal digits, in order.
pub open spec fn hex_table() -> Seq<char> {
    seq!['0', '1', '2', '3', '4', '5', '6', '7', '8', '9', 'A', 'B', 'C', 'D', 'E', 'F']
}

/// Each byte becomes two upper-case hexadecimal digits, the high one first.
pub proof fn lemma_hex_upper_digits(bytes: Seq<u8>)
    ensures
        hex_upper(bytes).len() == 2 * bytes.len(),
        forall|i: int| 0 <= i < bytes.len() ==> {
            &&& #[trigger] hex_upper(bytes)[2 * i] == hex_table()[(bytes[i] / 16) as int]
            &&& hex_upper(bytes)[2 * i + 1] == hex_table()[(bytes[i] % 16) as int]
        },
    decreases bytes.len(),
{
    if bytes.len() > 0 {
        let rest = bytes.skip(1);
        lemma_hex_upper_digits(rest);
        let b = bytes[0];
        let head = seq![hex_digit_upper(b / 16), hex_digit_upper(b % 16)];
        assert(hex_upper(bytes) == head + hex_upper(rest));
        assert forall|d: u8| d < 16 implies hex_digit_upper(d) == #[trigger] hex_table()[d as int] by {
            if d == 0 { } else if d == 1 { } else if d == 2 { } else if d == 3 { } else if d == 4 { }
            else if d == 5 { } else if d == 6 { } else if d == 7 { } else if d == 8 { } else if d == 9 { }
            else if d == 10 { } else if d == 11 { } else if d == 12 { } else if d == 13 { } else if d == 14 { }
            else { }
        }
        assert forall|i: int| 0 <= i < bytes.len() implies {
            &&& #[trigger] hex_upper(bytes)[2 * i] == hex_table()[(bytes[i] / 16) as int]
            &&& hex_upper(bytes)[2 * i + 1] == hex_table()[(bytes[i] % 16) as int]
        } by {
            if i == 0 {
                assert(hex_table()[(b / 16) as int] == hex_digit_upper(b / 16));
                assert(hex_table()[(b % 16) as int] == hex_digit_upper(b % 16));
            } else {
                assert(bytes[i] == rest[i - 1]);
                assert(hex_upper(bytes)[2 * i] == hex_upper(rest)[2 * (i - 1)]);
                assert(hex_upper(bytes)[2 * i + 1] == hex_upper(rest)[2 * (i - 1) + 1]);
            }
        }
    }
}

proof fn lemma_hex_upper_len(bytes: Seq<u8>)
    ensures
        hex_upper(bytes).len() == 2 * bytes.len(),
    decreases bytes.len(),
{
    if bytes.len() > 0 {
        lemma_hex_upper_len(bytes.skip(1));
    }
}

/// `0x` followed by the upper-case hexadecimal SHA-384 digest of `input`:
/// 98 characters in all.
pub fn sha384_hex_prefixed(input: &[u8]) -> (r: String)
    ensures
        r@ == migration_checksum(input@),
        r@.len() == 98,
        r@ == seq!['0', 'x'] + hex_upper(sha384_digest(input@)),
        r@[0] == '0' && r@[1] == 'x',
        forall|i: int| 0 <= i < 48 ==> {
            &&& #[trigger] r@[2 + 2 * i] == hex_table()[(sha384_digest(input@)[i] / 16) as int]
            &&& r@[3 + 2 * i] == hex_table()[(sha384_digest(input@)[i] % 16) as int]
        },
{
    proof {
        lemma_hex_upper_digits(sha384_digest(input@));
    }
    let digest = sha384(input);
    let hex = hex_encode_upper(digest.as_slice());
    let mut r = "0x".to_owned();
    proof {
        reveal_strlit("0x");
        lemma_hex_upper_len(digest@);
    }
    r.append(hex.as_str());
    proof {
        let d = sha384_digest(input@);
        assert forall|i: int| 0 <= i < 48 implies {
            &&& #[trigger] r@[2 + 2 * i] == hex_table()[(d[i] / 16) as int]
            &&& r@[3 + 2 * i] == hex_table()[(d[i] % 16) as int]
        } by {
            assert(r@[2 + 2 * i] == hex_upper(d)[2 * i]);
            assert(r@[3 + 2 * i] == hex_upper(d)[2 * i + 1]);
        }
    }
    r
}

/// The message of a migration that failed: `NAME failed with ERROR`.
pub open spec fn failure_message(file_name: Seq<char>, error: Seq<char>) -> Seq<char> {
    file_name + seq![' ', 'f', 'a', 'i', 'l', 'e', 'd', ' ', 'w', 'i', 't', 'h', ' '] + error
}

/// The message with which a failed migration is reported: the migration's
/// file name, ` failed with `, and the error.
pub fn migration_failure_message(file_name: &str, error: &str) -> (r: String)
    ensures
        r@ == failure_message(file_name@, error@),
{
    let mut r = file_name.to_owned();
    r.append(" failed with ");
    proof {
        reveal_strlit(" failed with ");
    }
    r.append(error);
    r
}

/// Whether `name`, a top-level entry of the migrations directory, has the
/// extension `sql`: it ends with `.sql`, with a stem before the dot.
pub open spec fn is_sql_file(name: Seq<char>) -> bool {
    name.len() > 4 && ends_with_sql(name)
}

/// A migration file is a name with a stem followed by `.sql` (lower case);
/// a name ends with `.sql` when its last four characters are `.`, `s`, `q`,
/// `l`.
pub proof fn lemma_sql_file_names(name: Seq<char>)
    ensures
        ends_with_sql(name) <==> (name.len() >= 4 && name[name.len() - 4] == '.' && name[name.len() - 3] == 's'
            && name[name.len() - 2] == 'q' && name[name.len() - 1] == 'l'),
        is_sql_file(name) <==> (name.len() > 4 && ends_with_sql(name)),
{
    if name.len() >= 4 {
        let t = name.skip(name.len() - 4);
        assert(t[0] == name[name.len() - 4] && t[1] == name[name.len() - 3]);
        assert(t[2] == name[name.len() - 2] && t[3] == name[name.len() - 1]);
        if name[name.len() - 4] == '.' && name[name.len() - 3] == 's' && name[name.len() - 2] == 'q'
            && name[name.len() - 1] == 'l' {
            assert(t =~= sql_suffix());
        }
    }
}

/// Lexicographic order of character strings by code point, which is the
/// byte order of their UTF-8 encodings.
pub open spec fn chars_less(a: Seq<char>, b: Seq<char>) -> bool
    decreases a.len(),
{
    if a.len() == 0 {
        b.len() > 0
    } else if b.len() == 0 {
        false
    } else if a[0] != b[0] {
        a[0] < b[0]
    } else {
        chars_less(a.skip(1), b.skip(1))
    }
}

proof fn lemma_chars_less_transitive(a: Seq<char>, b: Seq<char>, c: Seq<char>)
    requires
        chars_less(a, b),
        chars_less(b, c),
    ensures
        chars_less(a, c),
    decreases a.len(),
{
    if a.len() > 0 && b.len() > 0 && c.len() > 0 && a[0] == b[0] && b[0] == c[0] {
        lemma_chars_less_transitive(a.skip(1), b.skip(1), c.skip(1));
    }
}

proof fn lemma_chars_less_total(a: Seq<char>, b: Seq<char>)
    ensures
        a == b || chars_less(a, b) || chars_less(b, a),
    decreases a.len(),
{
    if a.len() > 0 && b.len() > 0 && a[0] == b[0] {
        lemma_chars_less_total(a.skip(1), b.skip(1));
        if a.skip(1) == b.skip(1) {
            assert(a == seq![a[0]] + a.skip(1));
            assert(b == seq![b[0]] + b.skip(1));
        }
    } else if a.len() == 0 && b.len() == 0 {
        assert(a == b);
    }
}

/// `chars_less` is lexicographic order whatever the lengths: `a` comes
/// first where, after a common prefix, `a` ends while `b` goes on, or the
/// first differing character of `a` is the smaller.
pub proof fn lemma_chars_less_lexicographic(a: Seq<char>, b: Seq<char>)
    ensures
        chars_less(a, b) <==> exists|k: int|
            0 <= k <= a.len() && k <= b.len() && #[trigger] a.take(k) == b.take(k)
            && ((k == a.len() && k < b.len()) || (k < a.len() && k < b.len() && a[k] < b[k])),
    decreases a.len(),
{
    if a.len() == 0 || b.len() == 0 {
        if chars_less(a, b) {
            assert(a.take(0) == b.take(0));
        }
    } else if a[0] != b[0] {
        if chars_less(a, b) {
            assert(a.take(0) == b.take(0));
        }
        if exists|k: int|
            0 <= k <= a.len() && k <= b.len() && #[trigger] a.take(k) == b.take(k)
            && ((k == a.len() && k < b.len()) || (k < a.len() && k < b.len() && a[k] < b[k])) {
            let k = choose|k: int|
                0 <= k <= a.len() && k <= b.len() && #[trigger] a.take(k) == b.take(k)
                && ((k == a.len() && k < b.len()) || (k < a.len() && k < b.len() && a[k] < b[k]));
            if k > 0 {
                assert(a.take(k)[0] == b.take(k)[0]);
            }
        }
    } else {
        let a1 = a.skip(1);
        let b1 = b.skip(1);
        lemma_chars_less_lexicographic(a1, b1);
        if chars_less(a, b) {
            let k = choose|k: int|
                0 <= k <= a1.len() && k <= b1.len() && #[trigger] a1.take(k) == b1.take(k)
                && ((k == a1.len() && k < b1.len()) || (k < a1.len() && k < b1.len() && a1[k] < b1[k]));
            assert(a.take(k + 1) == seq![a[0]] + a1.take(k));
            assert(b.take(k + 1) == seq![b[0]] + b1.take(k));
            if k < a1.len() && k < b1.len() {
                assert(a[k + 1] == a1[k] && b[k + 1] == b1[k]);
            }
        }
        if exists|k: int|
            0 <= k <= a.len() && k <= b.len() && #[trigger] a.take(k) == b.take(k)
            && ((k == a.len() && k < b.len()) || (k < a.len() && k < b.len() && a[k] < b[k])) {
            let k = choose|k: int|
                0 <= k <= a.len() && k <= b.len() && #[trigger] a.take(k) == b.take(k)
                && ((k == a.len() && k < b.len()) || (k < a.len() && k < b.len() && a[k] < b[k]));
            assert(k > 0);
            assert(a1.take(k - 1) == a.take(k).skip(1));
            assert(b1.take(k - 1) == b.take(k).skip(1));
            assert(a[k] == a1[k - 1] || k == a.len());
            if k < a.len() && k < b.len() {
                assert(a[k] == a1[k - 1] && b[k] == b1[k - 1]);
            }
        }
    }
}

/// Whether `a` comes before `b` in code-point order.
fn chars_lt(a: &Vec<char>, b: &Vec<char>) -> (r: bool)
    ensures
        r == chars_less(a@, b@),
        r <==> exists|k: int|
            0 <= k <= a@.len() && k <= b@.len() && #[trigger] a@.take(k) == b@.take(k)
            && ((k == a@.len() && k < b@.len()) || (k < a@.len() && k < b@.len() && a@[k] < b@[k])),
{
    proof {
        lemma_chars_less_lexicographic(a@, b@);
    }
    let mut i: usize = 0;
    let n = a.len();
    let m = b.len();
    assert(a@.skip(0) == a@ && b@.skip(0) == b@);
    while i < n && i < m && a[i] == b[i]
        invariant
            n == a@.len(),
            m == b@.len(),
            i <= n,
            i <= m,
            chars_less(a@, b@) == chars_less(a@.skip(i as int), b@.skip(i as int)),
        decreases n - i,
    {
        assert(a@.skip(i as int).skip(1) == a@.skip(i + 1));
        assert(b@.skip(i as int).skip(1) == b@.skip(i + 1));
        i = i + 1;
    }
    if i == n {
        i < m
    } else if i == m {
        false
    } else {
        assert(a@.skip(i as int)[0] == a@[i as int] && b@.skip(i as int)[0] == b@[i as int]);
        a[i] < b[i]
    }
}

/// Entry `i` runs before entry `j`: its name comes first in code-point
/// order, or the names are equal and `i` is listed first.
pub open spec fn path_before(paths: Seq<Seq<char>>, i: int, j: int) -> bool {
    chars_less(paths[i], paths[j]) || (paths[i] == paths[j] && i < j)
}

/// `order` lists the indices of the `.sql` entries of `paths`, each once,
/// in the order in which the migrations run.
pub open spec fn is_migration_order(paths: Seq<Seq<char>>, order: Seq<usize>) -> bool {
    &&& forall|k: int| 0 <= k < order.len() ==> #[trigger] order[k] < paths.len() && is_sql_file(paths[order[k] as int])
    &&& forall|i: int| 0 <= i < paths.len() && is_sql_file(#[trigger] paths[i]) ==> order.contains(i as usize)
    &&& forall|k: int, l: int| 0 <= k < l < order.len() ==> path_before(paths, #[trigger] order[k] as int, #[trigger] order[l] as int)
}

/// Whether a name has the extension `sql`.
fn sql_file(cs: &Vec<char>) -> (r: bool)
    ensures
        r == is_sql_file(cs@),
{
    let n = cs.len();
    let r = n > 4 && cs[n - 4] == '.' && cs[n - 3] == 's' && cs[n - 2] == 'q' && cs[n - 1] == 'l';
    proof {
        if n >= 4 {
            let t = cs@.skip(n - 4);
            assert(t[0] == cs@[n - 4] && t[1] == cs@[n - 3] && t[2] == cs@[n - 2] && t[3] == cs@[n - 1]);
            if r {
                assert(t == sql_suffix());
            }
        }
    }
    r
}

/// The migrations among the entries of the migrations directory, in the
/// order in which they run: the indices of the entries whose name has the
/// extension `sql`, sorted by name (equal names keeping their order).
pub fn order_migrations(paths: &Vec<String>) -> (order: Vec<usize>)
    ensures
        is_migration_order(paths.deep_view(), order@),
{
    let ghost pv = paths.deep_view();
    let n = paths.len();
    let mut names: Vec<Vec<char>> = Vec::new();
    for i in 0..n
        invariant
            n == paths@.len(),
            pv == paths.deep_view(),
            names@.len() == i,
            forall|k: int| 0 <= k < i ==> #[trigger] names@[k]@ == pv[k],
    {
        names.push(chars_of(paths[i].as_str()));
    }
    let mut p: Vec<usize> = Vec::new();
    for i in 0..n
        invariant
            n == paths@.len(),
            n == names@.len(),
            pv.len() == n,
            forall|k: int| 0 <= k < n ==> #[trigger] names@[k]@ == pv[k],
            forall|k: int| 0 <= k < p@.len() ==> #[trigger] p@[k] < i && is_sql_file(pv[p@[k] as int]),
            forall|j: int| 0 <= j < i && is_sql_file(#[trigger] pv[j]) ==> p@.contains(j as usize),
            forall|k: int, l: int| 0 <= k < l < p@.len() ==> path_before(pv, #[trigger] p@[k] as int, #[trigger] p@[l] as int),
    {
        if sql_file(&names[i]) {
            let mut pos: usize = 0;
            while pos < p.len() && !chars_lt(&names[i], &names[p[pos]])
                invariant
                    n == names@.len(),
                    i < n,
                    pv.len() == n,
                    forall|k: int| 0 <= k < n ==> #[trigger] names@[k]@ == pv[k],
                    pos <= p@.len(),
                    forall|k: int| 0 <= k < p@.len() ==> #[trigger] p@[k] < i,
                    forall|k: int| 0 <= k < pos ==> !chars_less(pv[i as int], pv[#[trigger] p@[k] as int]),
                decreases p@.len() - pos,
            {
                pos = pos + 1;
            }
            let ghost old_p = p@;
            proof {
                assert forall|l: int| pos <= l < old_p.len() implies chars_less(pv[i as int], pv[#[trigger] old_p[l] as int]) by {
                    if l > pos {
                        assert(path_before(pv, old_p[pos as int] as int, old_p[l] as int));
                        if chars_less(pv[old_p[pos as int] as int], pv[old_p[l] as int]) {
                            lemma_chars_less_transitive(pv[i as int], pv[old_p[pos as int] as int], pv[old_p[l] as int]);
                        }
                    }
                }
                assert forall|k: int| 0 <= k < pos implies path_before(pv, #[trigger] old_p[k] as int, i as int) by {
                    lemma_chars_less_total(pv[i as int], pv[old_p[k] as int]);
                }
            }
            p.insert(pos, i);
            proof {
                assert forall|k: int| 0 <= k < p@.len() implies #[trigger] p@[k] < i + 1 && is_sql_file(pv[p@[k] as int]) by {
                    if k < pos {
                        assert(p@[k] == old_p[k]);
                    } else if k > pos {
                        assert(p@[k] == old_p[k - 1]);
                    }
                }
                assert forall|j: int| 0 <= j < i + 1 && is_sql_file(#[trigger] pv[j]) implies p@.contains(j as usize) by {
                    if j < i {
                        let k = choose|k: int| 0 <= k < old_p.len() && old_p[k] == j as usize;
                        if k < pos {
                            assert(p@[k] == old_p[k]);
                        } else {
                            assert(p@[k + 1] == old_p[k]);
                        }
                    } else {
                        assert(p@[pos as int] == i);
                    }
                }
                assert forall|k: int, l: int| 0 <= k < l < p@.len() implies path_before(pv, #[trigger] p@[k] as int, #[trigger] p@[l] as int) by {
                    if l < pos {
                        assert(p@[k] == old_p[k] && p@[l] == old_p[l]);
                    } else if l == pos {
                        assert(p@[k] == old_p[k]);
                    } else if k < pos {
                        assert(p@[k] == old_p[k] && p@[l] == old_p[l - 1]);
                    } else if k == pos {
                        assert(p@[l] == old_p[l - 1]);
                    } else {
                        assert(p@[k] == old_p[k - 1] && p@[l] == old_p[l - 1]);
                    }
                }
            }
        }
    }
    p
}

} // verus!
