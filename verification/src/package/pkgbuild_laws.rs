//! What reading a PKGBUILD does, stated over all inputs: how far a
//! function body reaches, which sources are fetched, and how variables in
//! a source are expanded.
use crate::package::build_file::{
    expand_source,
    function_body,
    source_plan,
    PkgBuildView,
    SourceActionView,
};
use crate::text::{find, lemma_find_from_bounds, replace, starts_with};
use vstd::prelude::*;

verus! {

/// The lines `ls`, each followed by a `\n`, one after another.
pub open spec fn with_newlines(ls: Seq<Seq<char>>) -> Seq<char>
    decreases ls.len(),
{
    if ls.len() == 0 {
        seq![]
    } else {
        ls[0] + seq!['\n'] + with_newlines(ls.drop_first())
    }
}

/// A function body starting at line `j` takes every line up to the first
/// line `e` that holds a `}` and no `{`, provided each line before it holds
/// either both braces (as `${var}` does) or neither: those lines are kept,
/// each followed by `\n`, line `e` ends the body, and reading goes on after
/// it.
pub proof fn law_function_body_ends_at_closing_line(
    ls: Seq<Seq<char>>,
    j: int,
    e: int,
    acc: Seq<char>,
)
    requires
        0 <= j <= e < ls.len(),
        forall|k: int| j <= k < e ==> ((#[trigger] ls[k]).contains('{') <==> ls[k].contains('}')),
        ls[e].contains('}'),
        !ls[e].contains('{'),
    ensures
        function_body(ls, j, 0, acc) == (acc + with_newlines(ls.subrange(j, e)), e + 1),
    decreases e - j,
{
    if j == e {
        assert(ls.subrange(j, e) =~= Seq::<Seq<char>>::empty());
        assert(acc + seq![] =~= acc);
    } else {
        let l = ls[j];
        assert(l.contains('{') <==> l.contains('}'));
        law_function_body_ends_at_closing_line(ls, j + 1, e, acc + l + seq!['\n']);
        let rest = ls.subrange(j, e);
        assert(rest[0] == l);
        assert(rest.drop_first() =~= ls.subrange(j + 1, e));
        assert(acc + l + seq!['\n'] + with_newlines(ls.subrange(j + 1, e)) =~= acc + with_newlines(rest));
    }
}

/// Whether `s` begins with the four characters `http` or `git+`.
pub open spec fn begins_http_or_git(s: Seq<char>) -> bool {
    &&& s.len() >= 4
    &&& ((s[0] == 'h' && s[1] == 't' && s[2] == 't' && s[3] == 'p') || (s[0] == 'g' && s[1] == 'i'
        && s[2] == 't' && s[3] == '+'))
}

/// Every source whose text begins with `http` (so `http://` as well as
/// `https://`) or `git+` is fetched and checked against the checksum at
/// the same position; every other source is left as unsupported; sources
/// and checksums are paired as far as both go.
pub proof fn law_sources_fetched_by_prefix(p: PkgBuildView, i: int)
    requires
        0 <= i < p.sources.len(),
        i < p.checksums.len(),
    ensures
        source_plan(p).len() == if p.sources.len() <= p.checksums.len() {
            p.sources.len()
        } else {
            p.checksums.len()
        },
        begins_http_or_git(p.sources[i]) ==> source_plan(p)[i] == (SourceActionView::Fetch {
            source: p.sources[i],
            checksum: p.checksums[i],
        }),
        !begins_http_or_git(p.sources[i]) ==> source_plan(p)[i] == SourceActionView::Unsupported(
            p.sources[i],
        ),
{
    reveal_strlit("http");
    reveal_strlit("git+");
    let s = p.sources[i];
    if s.len() >= 4 {
        assert(s.take(4)[0] == s[0] && s.take(4)[1] == s[1] && s.take(4)[2] == s[2] && s.take(4)[3]
            == s[3]);
        if s[0] == 'h' && s[1] == 't' && s[2] == 't' && s[3] == 'p' {
            assert(s.take(4) =~= "http"@);
        }
        if s[0] == 'g' && s[1] == 'i' && s[2] == 't' && s[3] == '+' {
            assert(s.take(4) =~= "git+"@);
        }
    }
    if starts_with(s, "http"@) {
        assert(s.take(4)[0] == 'h' && s.take(4)[1] == 't' && s.take(4)[2] == 't' && s.take(4)[3] == 'p');
    }
    if starts_with(s, "git+"@) {
        assert(s.take(4)[0] == 'g' && s.take(4)[1] == 'i' && s.take(4)[2] == 't' && s.take(4)[3] == '+');
    }
}

/// Replacing a pattern that begins with `$` leaves a leading text without
/// `$` in place.
proof fn lemma_replace_prefix(a: Seq<char>, t: Seq<char>, q: Seq<char>, r: Seq<char>)
    requires
        !a.contains('$'),
        q.len() > 0,
        q[0] == '$',
    ensures
        replace(a + t, q, r) == a + replace(t, q, r),
    decreases a.len(),
{
    if a.len() == 0 {
        assert(a + t =~= t);
        assert(a + replace(t, q, r) =~= replace(t, q, r));
    } else {
        let s = a + t;
        assert(s[0] == a[0]);
        assert(a.contains(a[0]));
        if starts_with(s, q) {
            assert(s.take(q.len() as int)[0] == s[0]);
        }
        let rest = a.drop_first();
        assert(!rest.contains('$')) by {
            assert forall|i: int| 0 <= i < rest.len() implies rest[i] != '$' by {
                assert(a.contains(a[i + 1]));
            }
        }
        assert(s.drop_first() =~= rest + t);
        lemma_replace_prefix(rest, t, q, r);
        assert(seq![a[0]] + (rest + replace(t, q, r)) =~= a + replace(t, q, r));
    }
}

/// Replacing a pattern that begins with `$` in a text without `$` changes
/// nothing.
proof fn lemma_replace_absent(t: Seq<char>, q: Seq<char>, r: Seq<char>)
    requires
        !t.contains('$'),
        q.len() > 0,
        q[0] == '$',
    ensures
        replace(t, q, r) == t,
{
    let empty: Seq<char> = seq![];
    lemma_replace_prefix(t, empty, q, r);
    assert(t + empty =~= t);
    assert(replace(empty, q, r) == empty);
    assert(t + empty =~= t);
}

/// `a + b` holds no `c` when neither part does.
proof fn lemma_lacks(a: Seq<char>, b: Seq<char>, c: char)
    requires
        !a.contains(c),
        !b.contains(c),
    ensures
        !(a + b).contains(c),
{
    assert forall|i: int| 0 <= i < (a + b).len() implies (a + b)[i] != c by {
        if i < a.len() {
            assert(a.contains(a[i]));
        } else {
            assert(b.contains(b[i - a.len()]));
        }
    }
}

/// One replacement step on `a + pat + b`, where `$` occurs only at the start
/// of `pat`: the pattern `pat` itself becomes `r`; a pattern that does not
/// match there leaves the text as it is.
proof fn lemma_step(a: Seq<char>, pat: Seq<char>, b: Seq<char>, q: Seq<char>, r: Seq<char>, k: int)
    requires
        !a.contains('$'),
        !b.contains('$'),
        !r.contains('$'),
        pat.len() > 0,
        pat[0] == '$',
        !pat.drop_first().contains('$'),
        q.len() > 0,
        q[0] == '$',
        q != pat ==> 0 <= k < pat.len() && k < q.len() && pat[k] != q[k],
    ensures
        replace(a + pat + b, q, r) == if q == pat {
            a + r + b
        } else {
            a + pat + b
        },
{
    assert(a + pat + b =~= a + (pat + b));
    lemma_replace_prefix(a, pat + b, q, r);
    let t = pat + b;
    if q == pat {
        assert(t.take(q.len() as int) =~= q);
        assert(t.skip(q.len() as int) =~= b);
        lemma_replace_absent(b, q, r);
        assert(a + (r + b) =~= a + r + b);
    } else {
        if starts_with(t, q) {
            assert(t.take(q.len() as int)[k] == t[k]);
        }
        lemma_lacks(pat.drop_first(), b, '$');
        assert(t.drop_first() =~= pat.drop_first() + b);
        lemma_replace_absent(pat.drop_first() + b, q, r);
        assert(seq![t[0]] + (pat.drop_first() + b) =~= t);
    }
}

/// The first index at which two distinct patterns differ.
spec fn differ_at(p: Seq<char>, q: Seq<char>) -> int {
    choose|k: int| 0 <= k < p.len() && k < q.len() && p[k] != q[k]
}

/// A text with no `:` holds no `::`.
proof fn lemma_no_double_colon(e: Seq<char>)
    requires
        !e.contains(':'),
    ensures
        find(e, "::"@) is None,
{
    reveal_strlit("::");
    lemma_find_from_bounds(e, "::"@, 0);
    if let Some(j) = find(e, "::"@) {
        assert(e.skip(j).take(2)[0] == e[j]);
        assert(e.contains(e[j]));
    }
}

/// The six variable patterns, in the order they are expanded, have `$`
/// only at their start, and distinct ones differ at a common position.
proof fn lemma_patterns()
    ensures
        forall|p: Seq<char>|
            #![trigger pattern_index(p)]
            pattern_index(p) >= 0 ==> p.len() > 0 && p[0] == '$' && !p.drop_first().contains('$'),
{
    reveal_strlit("${pkgname}");
    reveal_strlit("$pkgname");
    reveal_strlit("${pkgver}");
    reveal_strlit("$pkgver");
    reveal_strlit("${url}");
    reveal_strlit("$url");
    assert forall|p: Seq<char>| #![trigger pattern_index(p)] pattern_index(p) >= 0 implies p.len() > 0
        && p[0] == '$' && !p.drop_first().contains('$') by {
        let t = p.drop_first();
        assert forall|i: int| 0 <= i < t.len() implies t[i] != '$' by {
            assert(t[i] == p[i + 1]);
            if p == "${pkgname}"@ {
                assert(p =~= seq!['$', '{', 'p', 'k', 'g', 'n', 'a', 'm', 'e', '}']);
            } else if p == "$pkgname"@ {
                assert(p =~= seq!['$', 'p', 'k', 'g', 'n', 'a', 'm', 'e']);
            } else if p == "${pkgver}"@ {
                assert(p =~= seq!['$', '{', 'p', 'k', 'g', 'v', 'e', 'r', '}']);
            } else if p == "$pkgver"@ {
                assert(p =~= seq!['$', 'p', 'k', 'g', 'v', 'e', 'r']);
            } else if p == "${url}"@ {
                assert(p =~= seq!['$', '{', 'u', 'r', 'l', '}']);
            } else {
                assert(p =~= seq!['$', 'u', 'r', 'l']);
            }
        }
    }
}

/// The position of `p` among the six variable patterns, or -1.
spec fn pattern_index(p: Seq<char>) -> int {
    if p == "${pkgname}"@ {
        0
    } else if p == "$pkgname"@ {
        1
    } else if p == "${pkgver}"@ {
        2
    } else if p == "$pkgver"@ {
        3
    } else if p == "${url}"@ {
        4
    } else if p == "$url"@ {
        5
    } else {
        -1
    }
}

/// The six variable patterns have distinct lengths, hence their positions.
proof fn lemma_pattern_indices()
    ensures
        pattern_index("${pkgname}"@) == 0,
        pattern_index("$pkgname"@) == 1,
        pattern_index("${pkgver}"@) == 2,
        pattern_index("$pkgver"@) == 3,
        pattern_index("${url}"@) == 4,
        pattern_index("$url"@) == 5,
{
    reveal_strlit("${pkgname}");
    reveal_strlit("$pkgname");
    reveal_strlit("${pkgver}");
    reveal_strlit("$pkgver");
    reveal_strlit("${url}");
    reveal_strlit("$url");
    assert("${pkgname}"@.len() == 10 && "$pkgname"@.len() == 8 && "${pkgver}"@.len() == 9);
    assert("$pkgver"@.len() == 7 && "${url}"@.len() == 6 && "$url"@.len() == 4);
}

/// Two distinct variable patterns differ at a position both have.
proof fn lemma_patterns_differ(p: Seq<char>, q: Seq<char>)
    requires
        pattern_index(p) >= 0,
        pattern_index(q) >= 0,
        p != q,
    ensures
        0 <= differ_at(p, q) < p.len(),
        differ_at(p, q) < q.len(),
        p[differ_at(p, q)] != q[differ_at(p, q)],
{
    reveal_strlit("${pkgname}");
    reveal_strlit("$pkgname");
    reveal_strlit("${pkgver}");
    reveal_strlit("$pkgver");
    reveal_strlit("${url}");
    reveal_strlit("$url");
    let a = seq!['$', '{', 'p', 'k', 'g', 'n', 'a', 'm', 'e', '}'];
    let b = seq!['$', 'p', 'k', 'g', 'n', 'a', 'm', 'e'];
    let c = seq!['$', '{', 'p', 'k', 'g', 'v', 'e', 'r', '}'];
    let d = seq!['$', 'p', 'k', 'g', 'v', 'e', 'r'];
    let e = seq!['$', '{', 'u', 'r', 'l', '}'];
    let f = seq!['$', 'u', 'r', 'l'];
    assert("${pkgname}"@ =~= a);
    assert("$pkgname"@ =~= b);
    assert("${pkgver}"@ =~= c);
    assert("$pkgver"@ =~= d);
    assert("${url}"@ =~= e);
    assert("$url"@ =~= f);
    let k: int = if (p == a || p == c || p == e) && (q == a || q == c || q == e) {
        if (p == e || q == e) {
            2
        } else {
            5
        }
    } else if (p == a || p == c || p == e) || (q == a || q == c || q == e) {
        1
    } else if p == f || q == f {
        1
    } else {
        4
    };
    assert(0 <= k < p.len() && k < q.len() && p[k] != q[k]);
}

/// The text `a + pat + b` after the six replacements of `expand_source`,
/// where `pat` is a variable pattern and the other parts hold no `$`: the
/// pattern has become its value.
proof fn lemma_expand_steps(a: Seq<char>, pat: Seq<char>, b: Seq<char>, name: Seq<char>, version: Seq<char>, url: Seq<char>, value: Seq<char>)
    requires
        pattern_index(pat) >= 0,
        !a.contains('$'),
        !b.contains('$'),
        !name.contains('$'),
        !version.contains('$'),
        !url.contains('$'),
        value == if pattern_index(pat) <= 1 {
            name
        } else if pattern_index(pat) <= 3 {
            version
        } else {
            url
        },
    ensures
        replace(
            replace(
                replace(
                    replace(
                        replace(replace(a + pat + b, "${pkgname}"@, name), "$pkgname"@, name),
                        "${pkgver}"@,
                        version,
                    ),
                    "$pkgver"@,
                    version,
                ),
                "${url}"@,
                url,
            ),
            "$url"@,
            url,
        ) == a + value + b,
{
    lemma_patterns();
    lemma_pattern_indices();
    let qs = seq!["${pkgname}"@, "$pkgname"@, "${pkgver}"@, "$pkgver"@, "${url}"@, "$url"@];
    let rs = seq![name, name, version, version, url, url];
    assert(pattern_index(pat) >= 0);
    let start = a + pat + b;
    let done = a + value + b;
    lemma_lacks(a, value, '$');
    lemma_lacks(a + value, b, '$');
    // Each step maps `start` to itself before the match, `start` to `done`
    // at the match, and `done` to itself after it.
    assert forall|i: int| 0 <= i < 6 implies {
        &&& (pattern_index(#[trigger] qs[i]) == i)
        &&& replace(start, qs[i], rs[i]) == if qs[i] == pat { a + rs[i] + b } else { start }
        &&& replace(done, qs[i], rs[i]) == done
    } by {
        let q = qs[i];
        assert(pattern_index(q) == i);
        assert(q.len() > 0 && q[0] == '$');
        if q != pat {
            lemma_patterns_differ(pat, q);
        }
        lemma_step(a, pat, b, q, rs[i], differ_at(pat, q));
        lemma_replace_absent(done, q, rs[i]);
    }
    assert(qs[0] == "${pkgname}"@ && qs[1] == "$pkgname"@ && qs[2] == "${pkgver}"@);
    assert(qs[3] == "$pkgver"@ && qs[4] == "${url}"@ && qs[5] == "$url"@);
    assert(rs[0] == name && rs[1] == name && rs[2] == version && rs[3] == version && rs[4] == url
        && rs[5] == url);
    assert(qs[pattern_index(pat)] == pat);
}

/// Expanding a source of the form `a + pattern + b`, where `pattern` is one
/// of `${pkgname}`, `$pkgname`, `${pkgver}`, `$pkgver`, `${url}`, `$url` and
/// no other part holds `$` or `:`, puts the package name, version or URL in
/// the pattern's place and keeps the rest.
pub proof fn law_expand_source_variable(a: Seq<char>, b: Seq<char>, name: Seq<char>, version: Seq<char>, url: Seq<char>)
    requires
        !a.contains('$'),
        !b.contains('$'),
        !name.contains('$'),
        !version.contains('$'),
        !url.contains('$'),
        !a.contains(':'),
        !b.contains(':'),
        !name.contains(':'),
        !version.contains(':'),
        !url.contains(':'),
    ensures
        expand_source(a + "${pkgname}"@ + b, name, version, url) == a + name + b,
        expand_source(a + "$pkgname"@ + b, name, version, url) == a + name + b,
        expand_source(a + "${pkgver}"@ + b, name, version, url) == a + version + b,
        expand_source(a + "$pkgver"@ + b, name, version, url) == a + version + b,
        expand_source(a + "${url}"@ + b, name, version, url) == a + url + b,
        expand_source(a + "$url"@ + b, name, version, url) == a + url + b,
{
    lemma_pattern_indices();
    lemma_lacks(a, name, ':');
    lemma_lacks(a + name, b, ':');
    lemma_lacks(a, version, ':');
    lemma_lacks(a + version, b, ':');
    lemma_lacks(a, url, ':');
    lemma_lacks(a + url, b, ':');
    lemma_no_double_colon(a + name + b);
    lemma_no_double_colon(a + version + b);
    lemma_no_double_colon(a + url + b);
    lemma_expand_steps(a, "${pkgname}"@, b, name, version, url, name);
    lemma_expand_steps(a, "$pkgname"@, b, name, version, url, name);
    lemma_expand_steps(a, "${pkgver}"@, b, name, version, url, version);
    lemma_expand_steps(a, "$pkgver"@, b, name, version, url, version);
    lemma_expand_steps(a, "${url}"@, b, name, version, url, url);
    lemma_expand_steps(a, "$url"@, b, name, version, url, url);
}

} // verus!
