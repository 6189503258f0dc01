//! Reading PKGBUILD files: the package's metadata, dependency arrays,
//! sources, checksums and the bodies of its `build()` and `package()`
//! functions.
use crate::text::{
    chars_of,
    find_pattern,
    find,
    lines,
    lines_of,
    parse_u32_checked,
    parse_u32_result,
    push_all,
    replace,
    replace_all,
    slice_vec,
    split,
    split_on,
    starts_with,
    starts_with_at,
    string_of,
    trim_by,
    trim_start_matches,
    trim_start_matches_index,
    trimmed,
    views,
    words,
    words_of,
    CharClass,
    IntError,
};
use crate::access_control::group::{clone_strings, string_views};
use crate::package::db::{
    InstallReason,
    InstallStateView,
    Package,
    PackageDb,
    PackageFormat,
    PackageView,
};
use vstd::prelude::*;

verus! {

/// What a PKGBUILD declares.
pub struct PkgBuild {
    pub name: String,
    pub version: String,
    pub release: u32,
    pub url: String,
    pub depends: Vec<String>,
    pub make_depends: Vec<String>,
    pub sources: Vec<String>,
    pub checksums: Vec<String>,
    pub build_fn: String,
    pub package_fn: String,
}

/// The value of a `PkgBuild`.
#[verifier::ext_equal]
pub struct PkgBuildView {
    pub name: Seq<char>,
    pub version: Seq<char>,
    pub release: u32,
    pub url: Seq<char>,
    pub depends: Seq<Seq<char>>,
    pub make_depends: Seq<Seq<char>>,
    pub sources: Seq<Seq<char>>,
    pub checksums: Seq<Seq<char>>,
    pub build_fn: Seq<char>,
    pub package_fn: Seq<char>,
}

/// The character sequences of a sequence of strings.
pub open spec fn strings(v: Seq<String>) -> Seq<Seq<char>> {
    v.map_values(|s: String| s@)
}

impl View for PkgBuild {
    type V = PkgBuildView;

    open spec fn view(&self) -> PkgBuildView {
        PkgBuildView {
            name: self.name@,
            version: self.version@,
            release: self.release,
            url: self.url@,
            depends: strings(self.depends@),
            make_depends: strings(self.make_depends@),
            sources: strings(self.sources@),
            checksums: strings(self.checksums@),
            build_fn: self.build_fn@,
            package_fn: self.package_fn@,
        }
    }
}

/// Why a PKGBUILD could not be read.
#[derive(Clone, Copy, Debug, PartialEq, Eq, Structural)]
pub enum PkgBuildError {
    /// The value of `pkgrel=` is not a `u32`, for the given reason.
    InvalidRelease(IntError),
}

impl PkgBuildError {
    /// The text of the error: that of the integer error behind it.
    pub fn message(&self) -> (s: String)
        ensures
            match self {
                PkgBuildError::InvalidRelease(e) => s@ == e.message_spec(),
            },
    {
        match self {
            PkgBuildError::InvalidRelease(e) => e.message(),
        }
    }
}

/// The text inside the parentheses of an array assignment: what follows
/// the first `(` up to the next `(` or `)`, or nothing when there is no `(`.
pub open spec fn array_inner(buf: Seq<char>) -> Seq<char> {
    let pieces = split(buf, '(');
    let second = if pieces.len() > 1 {
        pieces[1]
    } else {
        seq![]
    };
    split(second, ')')[0]
}

/// An array item without surrounding single, then double, quotes.
pub open spec fn clean_item(w: Seq<char>) -> Seq<char> {
    trim_by(trim_by(w, CharClass::Exactly('\'')), CharClass::Exactly('"'))
}

/// The non-empty cleaned items of an array assignment held in `buf`.
pub open spec fn array_items(buf: Seq<char>) -> Seq<Seq<char>> {
    words(array_inner(buf)).map_values(|w: Seq<char>| clean_item(w)).filter(
        |w: Seq<char>| w.len() > 0,
    )
}

/// The text of an array assignment starting with `buf`, extended by the
/// lines from `j` on until it holds a `)`, and the index of the first line
/// not taken.
pub open spec fn array_buffer(buf: Seq<char>, ls: Seq<Seq<char>>, j: int) -> (Seq<char>, int)
    decreases ls.len() - j,
{
    if buf.contains(')') || j < 0 || j >= ls.len() {
        (buf, j)
    } else {
        array_buffer(buf + ls[j], ls, j + 1)
    }
}

/// The index `array_buffer` stops at is not before `j` nor past the lines.
pub proof fn lemma_array_buffer_index(buf: Seq<char>, ls: Seq<Seq<char>>, j: int)
    ensures
        j <= array_buffer(buf, ls, j).1,
        0 <= j ==> array_buffer(buf, ls, j).1 <= ls.len() || array_buffer(buf, ls, j).1 == j,
    decreases ls.len() - j,
{
    if !(buf.contains(')') || j < 0 || j >= ls.len()) {
        lemma_array_buffer_index(buf + ls[j], ls, j + 1);
    }
}

/// The body of a shell function whose lines start at `j`: lines are taken
/// until a line with `}` closes it at depth 0 (that line is consumed but not
/// kept), each kept line followed by `\n`; and the index of the first line
/// not consumed.
pub open spec fn function_body(ls: Seq<Seq<char>>, j: int, depth: nat, acc: Seq<char>) -> (
    Seq<char>,
    int,
)
    decreases ls.len() - j,
{
    if j < 0 || j >= ls.len() {
        (acc, j)
    } else {
        let l = ls[j];
        let d1 = if l.contains('{') {
            depth + 1
        } else {
            depth
        };
        if l.contains('}') && d1 == 0 {
            (acc, j + 1)
        } else {
            let d2: nat = if l.contains('}') {
                (d1 - 1) as nat
            } else {
                d1
            };
            function_body(ls, j + 1, d2, acc + l + seq!['\n'])
        }
    }
}

/// The index `function_body` stops at is not before `j` nor past the lines.
pub proof fn lemma_function_body_index(ls: Seq<Seq<char>>, j: int, depth: nat, acc: Seq<char>)
    ensures
        j <= function_body(ls, j, depth, acc).1,
        0 <= j <= ls.len() ==> function_body(ls, j, depth, acc).1 <= ls.len(),
    decreases ls.len() - j,
{
    if !(j < 0 || j >= ls.len()) {
        let l = ls[j];
        let d1 = if l.contains('{') {
            depth + 1
        } else {
            depth
        };
        if !(l.contains('}') && d1 == 0) {
            let d2: nat = if l.contains('}') {
                (d1 - 1) as nat
            } else {
                d1
            };
            lemma_function_body_index(ls, j + 1, d2, acc + l + seq!['\n']);
        }
    }
}

/// `n` copies of `SKIP`.
pub open spec fn skips(n: nat) -> Seq<Seq<char>> {
    Seq::new(n, |i: int| "SKIP"@)
}

/// What the PKGBUILD lines `ls` from index `i` on make of the fields
/// declared so far, `st`; the error of the first `pkgrel=` value that is
/// not a `u32`.
/// Each line is trimmed and recognised by the assignment it starts with;
/// arrays and function bodies may take the lines after it.
pub open spec fn parse_lines(ls: Seq<Seq<char>>, i: int, st: PkgBuildView) -> Result<
    PkgBuildView,
    IntError,
>
    decreases ls.len() - i,
{
    if i < 0 || i >= ls.len() {
        Ok(st)
    } else {
        let t = trim_by(ls[i], CharClass::Whitespace);
        if starts_with(t, "pkgname="@) {
            parse_lines(
                ls,
                i + 1,
                PkgBuildView {
                    name: trim_by(trim_start_matches(t, "pkgname="@), CharClass::Exactly('\'')),
                    ..st
                },
            )
        } else if starts_with(t, "pkgver="@) {
            parse_lines(ls, i + 1, PkgBuildView { version: trim_start_matches(t, "pkgver="@), ..st })
        } else if starts_with(t, "pkgrel="@) {
            match parse_u32_result(trim_start_matches(t, "pkgrel="@)) {
                Err(e) => Err(e),
                Ok(r) => parse_lines(ls, i + 1, PkgBuildView { release: r, ..st }),
            }
        } else if starts_with(t, "depends="@) || starts_with(t, "makedepends="@) || starts_with(
            t,
            "source="@,
        ) || starts_with(t, "sha256sums="@) || starts_with(t, "md5sums="@) || starts_with(
            t,
            "sha512sums="@,
        ) {
            let (buf, k) = array_buffer(t, ls, i + 1);
            let items = array_items(buf);
            let next = if starts_with(t, "depends="@) {
                PkgBuildView { depends: items, ..st }
            } else if starts_with(t, "makedepends="@) {
                PkgBuildView { make_depends: items, ..st }
            } else if starts_with(t, "source="@) {
                PkgBuildView { sources: items, ..st }
            } else if starts_with(t, "sha256sums="@) {
                PkgBuildView { checksums: items, ..st }
            } else {
                PkgBuildView { checksums: skips(items.len()), ..st }
            };
            proof {
                lemma_array_buffer_index(t, ls, i + 1);
            }
            parse_lines(ls, k, next)
        } else if starts_with(t, "url="@) {
            parse_lines(
                ls,
                i + 1,
                PkgBuildView {
                    url: trim_by(
                        trim_by(trim_start_matches(t, "url="@), CharClass::Exactly('\'')),
                        CharClass::Exactly('"'),
                    ),
                    ..st
                },
            )
        } else if starts_with(t, "build()"@) || starts_with(t, "package()"@) {
            let (body, k) = function_body(ls, i + 1, 0, seq![]);
            proof {
                lemma_function_body_index(ls, i + 1, 0, seq![]);
            }
            if starts_with(t, "build()"@) {
                parse_lines(ls, k, PkgBuildView { build_fn: body, ..st })
            } else {
                parse_lines(ls, k, PkgBuildView { package_fn: body, ..st })
            }
        } else {
            parse_lines(ls, i + 1, st)
        }
    }
}

/// The fields before any line is read: release 1, everything else empty.
pub open spec fn initial_fields() -> PkgBuildView {
    PkgBuildView {
        name: seq![],
        version: seq![],
        release: 1,
        url: seq![],
        depends: seq![],
        make_depends: seq![],
        sources: seq![],
        checksums: seq![],
        build_fn: seq![],
        package_fn: seq![],
    }
}

/// A source with `${pkgname}`, `$pkgname`, `${pkgver}`, `$pkgver`, `${url}`
/// and `$url` expanded in that order, and anything up to a first `::`
/// (a local file name) dropped.
pub open spec fn expand_source(s: Seq<char>, name: Seq<char>, version: Seq<char>, url: Seq<char>) -> Seq<
    char,
> {
    let e = replace(
        replace(
            replace(
                replace(replace(replace(s, "${pkgname}"@, name), "$pkgname"@, name), "${pkgver}"@, version),
                "$pkgver"@,
                version,
            ),
            "${url}"@,
            url,
        ),
        "$url"@,
        url,
    );
    match find(e, "::"@) {
        Some(k) => e.skip(k + 2),
        None => e,
    }
}

/// What `parse_pkgbuild` makes of the text `content`.
pub open spec fn parse_pkgbuild_spec(content: Seq<char>) -> Result<PkgBuildView, IntError> {
    match parse_lines(lines(content), 0, initial_fields()) {
        Err(e) => Err(e),
        Ok(st) => Ok(
            PkgBuildView {
                sources: st.sources.map_values(
                    |s: Seq<char>| expand_source(s, st.name, st.version, st.url),
                ),
                ..st
            },
        ),
    }
}

/// Whether `s` begins with `p`.
fn has_prefix(s: &[char], p: &str) -> (b: bool)
    ensures
        b == starts_with(s@, p@),
{
    let pat = chars_of(p);
    assert(s@.skip(0) =~= s@);
    starts_with_at(s, 0, pat.as_slice())
}

/// `s` with every leading repetition of `p` removed.
fn strip_prefixes(s: &[char], p: &str) -> (v: Vec<char>)
    ensures
        v@ == trim_start_matches(s@, p@),
{
    let pat = chars_of(p);
    let k = trim_start_matches_index(s, pat.as_slice());
    let v = slice_vec(s, k, s.len());
    assert(v@ =~= s@.skip(k as int));
    v
}

/// A copy of a vector of characters.
fn copy_chars(s: &Vec<char>) -> (v: Vec<char>)
    ensures
        v@ == s@,
{
    let v = slice_vec(s.as_slice(), 0, s.len());
    assert(v@ =~= s@);
    v
}

/// Strings holding the given character sequences.
fn strings_of(v: &Vec<Vec<char>>) -> (r: Vec<String>)
    ensures
        strings(r@) == views(v@),
{
    let mut r: Vec<String> = Vec::new();
    let mut i: usize = 0;
    while i < v.len()
        invariant
            i <= v@.len(),
            strings(r@) == views(v@).take(i as int),
        decreases v@.len() - i,
    {
        let ghost before = r@;
        let s = string_of(v[i].as_slice());
        r.push(s);
        assert(strings(r@) =~= strings(before).push(v@[i as int]@));
        assert(views(v@).take(i + 1) =~= views(v@).take(i as int).push(v@[i as int]@));
        i = i + 1;
    }
    assert(views(v@).take(v@.len() as int) =~= views(v@));
    r
}

/// The non-empty cleaned items of the array assignment held in `buf`.
fn array_items_of(buf: &[char]) -> (items: Vec<Vec<char>>)
    ensures
        views(items@) == array_items(buf@),
{
    let pieces = split_on(buf, '(');
    let second: Vec<char> = if pieces.len() > 1 {
        assert(views(pieces@)[1] == pieces@[1]@);
        copy_chars(&pieces[1])
    } else {
        Vec::new()
    };
    let inner_pieces = split_on(second.as_slice(), ')');
    assert(split(second@, ')').len() >= 1);
    assert(views(inner_pieces@)[0] == inner_pieces@[0]@);
    let ws = words_of(inner_pieces[0].as_slice());
    let ghost cleaned = words(array_inner(buf@)).map_values(|w: Seq<char>| clean_item(w));
    let ghost keep = |w: Seq<char>| w.len() > 0;
    let mut items: Vec<Vec<char>> = Vec::new();
    let mut k: usize = 0;
    while k < ws.len()
        invariant
            k <= ws@.len(),
            views(ws@) == words(array_inner(buf@)),
            cleaned == words(array_inner(buf@)).map_values(|w: Seq<char>| clean_item(w)),
            keep == (|w: Seq<char>| w.len() > 0),
            views(items@) == cleaned.take(k as int).filter(keep),
        decreases ws@.len() - k,
    {
        assert(views(ws@)[k as int] == ws@[k as int]@);
        let c1 = trimmed(ws[k].as_slice(), CharClass::Exactly('\''));
        let c2 = trimmed(c1.as_slice(), CharClass::Exactly('"'));
        assert(cleaned[k as int] == c2@);
        proof {
            assert(cleaned.take(k + 1).drop_last() =~= cleaned.take(k as int));
            reveal_with_fuel(Seq::filter, 1);
        }
        if c2.len() > 0 {
            let ghost before = views(items@);
            items.push(c2);
            assert(views(items@) =~= before.push(cleaned[k as int]));
        }
        k = k + 1;
    }
    assert(cleaned.take(ws@.len() as int) =~= cleaned);
    items
}

/// Reads an array assignment whose first line is `first`, taking the lines
/// of `ls` from `j` on until a `)` is seen; gives its items and the index
/// of the first line not taken.
pub fn parse_array(first: &[char], ls: &Vec<Vec<char>>, j: usize) -> (r: (Vec<Vec<char>>, usize))
    requires
        j <= ls@.len(),
    ensures
        views(r.0@) == array_items(array_buffer(first@, views(ls@), j as int).0),
        r.1 == array_buffer(first@, views(ls@), j as int).1,
{
    let ghost target = array_buffer(first@, views(ls@), j as int);
    let mut buf = slice_vec(first, 0, first.len());
    assert(buf@ =~= first@);
    let mut k: usize = j;
    while !crate::text::contains_class(buf.as_slice(), CharClass::Exactly(')')) && k < ls.len()
        invariant
            j <= k <= ls@.len(),
            array_buffer(buf@, views(ls@), k as int) == target,
            target == array_buffer(first@, views(ls@), j as int),
        decreases ls@.len() - k,
    {
        assert(views(ls@)[k as int] == ls@[k as int]@);
        push_all(&mut buf, ls[k].as_slice());
        k = k + 1;
    }
    let items = array_items_of(buf.as_slice());
    (items, k)
}

/// Reads the body of a shell function whose lines start at index `j` of
/// `ls`; gives the body and the index of the first line not consumed.
pub fn parse_function(ls: &Vec<Vec<char>>, j: usize) -> (r: (Vec<char>, usize))
    requires
        j <= ls@.len(),
    ensures
        r.0@ == function_body(views(ls@), j as int, 0, seq![]).0,
        r.1 == function_body(views(ls@), j as int, 0, seq![]).1,
{
    let ghost target = function_body(views(ls@), j as int, 0, seq![]);
    let mut body: Vec<char> = Vec::new();
    let mut depth: usize = 0;
    let mut k: usize = j;
    while k < ls.len()
        invariant
            j <= k <= ls@.len(),
            depth <= k,
            function_body(views(ls@), k as int, depth as nat, body@) == target,
            target == function_body(views(ls@), j as int, 0, seq![]),
        decreases ls@.len() - k,
    {
        let line = &ls[k];
        assert(views(ls@)[k as int] == line@);
        let opens = crate::text::contains_class(line.as_slice(), CharClass::Exactly('{'));
        let closes = crate::text::contains_class(line.as_slice(), CharClass::Exactly('}'));
        assert(opens == line@.contains('{'));
        assert(closes == line@.contains('}'));
        if opens {
            depth = depth + 1;
        }
        if closes {
            if depth == 0 {
                return (body, k + 1);
            }
            depth = depth - 1;
        }
        let ghost before = body@;
        push_all(&mut body, line.as_slice());
        body.push('\n');
        assert(body@ =~= before + line@ + seq!['\n']);
        k = k + 1;
    }
    (body, k)
}

/// `n` copies of `SKIP`.
fn skip_list(n: usize) -> (v: Vec<Vec<char>>)
    ensures
        views(v@) == skips(n as nat),
{
    let mut v: Vec<Vec<char>> = Vec::new();
    let mut i: usize = 0;
    while i < n
        invariant
            i <= n,
            views(v@) == skips(i as nat),
        decreases n - i,
    {
        let ghost before = views(v@);
        let item = chars_of("SKIP");
        v.push(item);
        assert(views(v@) =~= before.push(item@));
        assert(views(v@) =~= skips((i + 1) as nat));
        i = i + 1;
    }
    v
}

/// Expands a source as `expand_source` says.
pub fn expand_source_of(s: &[char], name: &[char], version: &[char], url: &[char]) -> (v: Vec<char>)
    ensures
        v@ == expand_source(s@, name@, version@, url@),
{
    proof {
        reveal_strlit("${pkgname}");
        reveal_strlit("$pkgname");
        reveal_strlit("${pkgver}");
        reveal_strlit("$pkgver");
        reveal_strlit("${url}");
        reveal_strlit("$url");
        reveal_strlit("::");
    }
    let e1 = replace_all(s, chars_of("${pkgname}").as_slice(), name);
    let e2 = replace_all(e1.as_slice(), chars_of("$pkgname").as_slice(), name);
    let e3 = replace_all(e2.as_slice(), chars_of("${pkgver}").as_slice(), version);
    let e4 = replace_all(e3.as_slice(), chars_of("$pkgver").as_slice(), version);
    let e5 = replace_all(e4.as_slice(), chars_of("${url}").as_slice(), url);
    let e6 = replace_all(e5.as_slice(), chars_of("$url").as_slice(), url);
    let sep = chars_of("::");
    let n = e6.len();
    match find_pattern(e6.as_slice(), sep.as_slice()) {
        Some(k) => {
            proof {
                crate::text::lemma_find_from_bounds(e6@, sep@, 0);
                assert(sep@.len() == 2);
                assert(find(e6@, sep@) == Some(k as int));
                assert(crate::text::find_from(e6@, sep@, 0) == Some(k as int));
                assert(k + 2 <= e6@.len());
            }
            let v = slice_vec(e6.as_slice(), k + 2, n);
            assert(v@ =~= e6@.skip(k + 2));
            v
        },
        None => e6,
    }
}

/// The fields of a PKGBUILD while it is being read.
struct Fields {
    name: Vec<char>,
    version: Vec<char>,
    release: u32,
    url: Vec<char>,
    depends: Vec<Vec<char>>,
    make_depends: Vec<Vec<char>>,
    sources: Vec<Vec<char>>,
    checksums: Vec<Vec<char>>,
    build_fn: Vec<char>,
    package_fn: Vec<char>,
}

impl Fields {
    spec fn value(&self) -> PkgBuildView {
        PkgBuildView {
            name: self.name@,
            version: self.version@,
            release: self.release,
            url: self.url@,
            depends: views(self.depends@),
            make_depends: views(self.make_depends@),
            sources: views(self.sources@),
            checksums: views(self.checksums@),
            build_fn: self.build_fn@,
            package_fn: self.package_fn@,
        }
    }
}

/// Reads a PKGBUILD: `pkgname=`, `pkgver=`, `pkgrel=` (default 1), `url=`,
/// the arrays `depends`, `makedepends`, `source`, `sha256sums` (with
/// `md5sums`/`sha512sums` giving as many `SKIP` checksums), and the bodies
/// of `build()` and `package()`; the sources come out expanded. Fails, with
/// the integer error, when a `pkgrel=` value is not a `u32`.
pub fn parse_pkgbuild(content: &str) -> (r: Result<PkgBuild, PkgBuildError>)
    ensures
        match parse_pkgbuild_spec(content@) {
            Err(e) => r == Err::<PkgBuild, PkgBuildError>(PkgBuildError::InvalidRelease(e)),
            Ok(v) => r matches Ok(p) && p@ == v,
        },
{
    let text = chars_of(content);
    let ls = lines_of(text.as_slice());
    let ghost lv = views(ls@);
    let mut f = Fields {
        name: Vec::new(),
        version: Vec::new(),
        release: 1,
        url: Vec::new(),
        depends: Vec::new(),
        make_depends: Vec::new(),
        sources: Vec::new(),
        checksums: Vec::new(),
        build_fn: Vec::new(),
        package_fn: Vec::new(),
    };
    assert(f.value() =~= initial_fields());
    let mut i: usize = 0;
    while i < ls.len()
        invariant
            i <= ls@.len(),
            lv == views(ls@),
            lv == lines(content@),
            parse_lines(lv, i as int, f.value()) == parse_lines(lv, 0, initial_fields()),
        decreases ls@.len() - i,
    {
        assert(lv[i as int] == ls@[i as int]@);
        let t = trimmed(ls[i].as_slice(), CharClass::Whitespace);
        let ghost before = f.value();
        if has_prefix(t.as_slice(), "pkgname=") {
            let rest = strip_prefixes(t.as_slice(), "pkgname=");
            f.name = trimmed(rest.as_slice(), CharClass::Exactly('\''));
            assert(f.value() =~= PkgBuildView { name: f.name@, ..before });
            i = i + 1;
        } else if has_prefix(t.as_slice(), "pkgver=") {
            f.version = strip_prefixes(t.as_slice(), "pkgver=");
            assert(f.value() =~= PkgBuildView { version: f.version@, ..before });
            i = i + 1;
        } else if has_prefix(t.as_slice(), "pkgrel=") {
            let rest = strip_prefixes(t.as_slice(), "pkgrel=");
            match parse_u32_checked(rest.as_slice()) {
                Err(e) => {
                    return Err(PkgBuildError::InvalidRelease(e));
                },
                Ok(r) => {
                    f.release = r;
                    assert(f.value() =~= PkgBuildView { release: r, ..before });
                    i = i + 1;
                },
            }
        } else if has_prefix(t.as_slice(), "depends=") || has_prefix(t.as_slice(), "makedepends=")
            || has_prefix(t.as_slice(), "source=") || has_prefix(t.as_slice(), "sha256sums=")
            || has_prefix(t.as_slice(), "md5sums=") || has_prefix(t.as_slice(), "sha512sums=") {
            let (items, k) = parse_array(t.as_slice(), &ls, i + 1);
            proof {
                lemma_array_buffer_index(t@, lv, i + 1);
            }
            if has_prefix(t.as_slice(), "depends=") {
                f.depends = items;
                assert(f.value() =~= PkgBuildView { depends: views(f.depends@), ..before });
            } else if has_prefix(t.as_slice(), "makedepends=") {
                f.make_depends = items;
                assert(f.value() =~= PkgBuildView { make_depends: views(f.make_depends@), ..before });
            } else if has_prefix(t.as_slice(), "source=") {
                f.sources = items;
                assert(f.value() =~= PkgBuildView { sources: views(f.sources@), ..before });
            } else if has_prefix(t.as_slice(), "sha256sums=") {
                f.checksums = items;
                assert(f.value() =~= PkgBuildView { checksums: views(f.checksums@), ..before });
            } else {
                f.checksums = skip_list(items.len());
                assert(f.value() =~= PkgBuildView { checksums: views(f.checksums@), ..before });
            }
            i = k;
        } else if has_prefix(t.as_slice(), "url=") {
            let rest = strip_prefixes(t.as_slice(), "url=");
            let unquoted = trimmed(rest.as_slice(), CharClass::Exactly('\''));
            f.url = trimmed(unquoted.as_slice(), CharClass::Exactly('"'));
            assert(f.value() =~= PkgBuildView { url: f.url@, ..before });
            i = i + 1;
        } else if has_prefix(t.as_slice(), "build()") || has_prefix(t.as_slice(), "package()") {
            let (body, k) = parse_function(&ls, i + 1);
            proof {
                lemma_function_body_index(lv, i + 1, 0, seq![]);
            }
            if has_prefix(t.as_slice(), "build()") {
                f.build_fn = body;
                assert(f.value() =~= PkgBuildView { build_fn: f.build_fn@, ..before });
            } else {
                f.package_fn = body;
                assert(f.value() =~= PkgBuildView { package_fn: f.package_fn@, ..before });
            }
            i = k;
        } else {
            i = i + 1;
        }
    }
    let ghost st = f.value();
    let mut expanded: Vec<Vec<char>> = Vec::new();
    let mut j: usize = 0;
    while j < f.sources.len()
        invariant
            j <= f.sources@.len(),
            st == f.value(),
            views(expanded@) == st.sources.take(j as int).map_values(
                |s: Seq<char>| expand_source(s, st.name, st.version, st.url),
            ),
        decreases f.sources@.len() - j,
    {
        assert(st.sources[j as int] == f.sources@[j as int]@);
        let e = expand_source_of(
            f.sources[j].as_slice(),
            f.name.as_slice(),
            f.version.as_slice(),
            f.url.as_slice(),
        );
        let ghost before = views(expanded@);
        let ghost ev = e@;
        expanded.push(e);
        assert(ev == expand_source(st.sources[j as int], st.name, st.version, st.url));
        assert(views(expanded@) =~= before.push(ev));
        assert(st.sources.take(j + 1) =~= st.sources.take(j as int).push(st.sources[j as int]));
        assert(views(expanded@) =~= st.sources.take(j + 1).map_values(
            |s: Seq<char>| expand_source(s, st.name, st.version, st.url),
        ));
        j = j + 1;
    }
    assert(st.sources.take(f.sources@.len() as int) =~= st.sources);
    let p = PkgBuild {
        name: string_of(f.name.as_slice()),
        version: string_of(f.version.as_slice()),
        release: f.release,
        url: string_of(f.url.as_slice()),
        depends: strings_of(&f.depends),
        make_depends: strings_of(&f.make_depends),
        sources: strings_of(&expanded),
        checksums: strings_of(&f.checksums),
        build_fn: string_of(f.build_fn.as_slice()),
        package_fn: string_of(f.package_fn.as_slice()),
    };
    Ok(p)
}

/// Whether `s` ends with `p` (`str::ends_with`).
pub open spec fn ends_with(s: Seq<char>, p: Seq<char>) -> bool {
    p.len() <= s.len() && s.skip(s.len() - p.len()) == p
}

/// Whether `s` ends with `p`.
fn has_suffix(s: &[char], p: &str) -> (b: bool)
    ensures
        b == ends_with(s@, p@),
{
    let pat = chars_of(p);
    if pat.len() > s.len() {
        return false;
    }
    let from = s.len() - pat.len();
    let b = starts_with_at(s, from, pat.as_slice());
    assert(s@.skip(from as int).take(pat@.len() as int) =~= s@.skip(from as int));
    b
}

/// Where a source is fetched from.
pub enum Source {
    Tarball(String),
    Git(String),
}

/// The value of a `Source`.
pub enum SourceView {
    Tarball(Seq<char>),
    Git(Seq<char>),
}

impl View for Source {
    type V = SourceView;

    open spec fn view(&self) -> SourceView {
        match self {
            Source::Tarball(u) => SourceView::Tarball(u@),
            Source::Git(u) => SourceView::Git(u@),
        }
    }
}

/// A source holding `git+` or ending in `.git` is a git repository (its URL
/// without leading `git+`); any other is a tarball.
pub open spec fn source_kind(s: Seq<char>) -> SourceView {
    if crate::text::contains_pattern(s, "git+"@) || ends_with(s, ".git"@) {
        SourceView::Git(trim_start_matches(s, "git+"@))
    } else {
        SourceView::Tarball(s)
    }
}

/// Tells a git source from a tarball.
pub fn parse_source(source: &str) -> (r: Source)
    ensures
        r@ == source_kind(source@),
{
    let s = chars_of(source);
    let git = chars_of("git+");
    if find_pattern(s.as_slice(), git.as_slice()).is_some() || has_suffix(s.as_slice(), ".git") {
        let rest = strip_prefixes(s.as_slice(), "git+");
        Source::Git(string_of(rest.as_slice()))
    } else {
        Source::Tarball(source.to_owned())
    }
}

/// The file name a tarball is saved under: what follows the last `/` of its URL.
pub open spec fn tarball_name(url: Seq<char>) -> Seq<char> {
    split(url, '/').last()
}

/// The file name a tarball fetched from `url` is saved under.
pub fn tarball_file_name(url: &str) -> (r: String)
    ensures
        r@ == tarball_name(url@),
{
    let pieces = split_on(chars_of(url).as_slice(), '/');
    assert(split(url@, '/').len() >= 1);
    let last = pieces.len() - 1;
    assert(views(pieces@)[last as int] == pieces@[last as int]@);
    string_of(pieces[last].as_slice())
}

/// Whether a downloaded PKGBUILD is an HTML page instead (the AUR's bot
/// protection).
pub open spec fn is_html(body: Seq<char>) -> bool {
    crate::text::contains_pattern(body, "<!doctype html"@) || crate::text::contains_pattern(body, "<html"@)
}

/// Whether `body` holds `<!doctype html` or `<html`.
pub fn is_html_response(body: &str) -> (b: bool)
    ensures
        b == is_html(body@),
{
    let text = chars_of(body);
    find_pattern(text.as_slice(), chars_of("<!doctype html").as_slice()).is_some()
        || find_pattern(text.as_slice(), chars_of("<html").as_slice()).is_some()
}

/// What to do with one source of a PKGBUILD.
pub enum SourceAction {
    /// Fetch it and check it against the checksum.
    Fetch { source: String, checksum: String },
    /// Leave it: its syntax is not supported.
    Unsupported(String),
}

/// The value of a `SourceAction`.
pub enum SourceActionView {
    Fetch { source: Seq<char>, checksum: Seq<char> },
    Unsupported(Seq<char>),
}

impl View for SourceAction {
    type V = SourceActionView;

    open spec fn view(&self) -> SourceActionView {
        match self {
            SourceAction::Fetch { source, checksum } => SourceActionView::Fetch {
                source: source@,
                checksum: checksum@,
            },
            SourceAction::Unsupported(s) => SourceActionView::Unsupported(s@),
        }
    }
}

/// A source can be fetched when it starts with `http` or `git+`.
pub open spec fn fetchable(s: Seq<char>) -> bool {
    starts_with(s, "http"@) || starts_with(s, "git+"@)
}

/// The sources paired with the checksums in order (as far as both go),
/// each to fetch or to leave.
pub open spec fn source_plan(p: PkgBuildView) -> Seq<SourceActionView> {
    let n = if p.sources.len() <= p.checksums.len() {
        p.sources.len()
    } else {
        p.checksums.len()
    };
    Seq::new(
        n,
        |i: int|
            if fetchable(p.sources[i]) {
                SourceActionView::Fetch { source: p.sources[i], checksum: p.checksums[i] }
            } else {
                SourceActionView::Unsupported(p.sources[i])
            },
    )
}

/// The build directory of a package: `/tmp/thanatos/<name>-<version>`.
pub open spec fn build_dir_of(name: Seq<char>, version: Seq<char>) -> Seq<char> {
    "/tmp/thanatos/"@ + name + "-"@ + version
}

/// The script that runs `body` in `build_dir` for package `name` at `version`,
/// with `pkgdir` set when a staging directory is given.
pub open spec fn script_text(
    body: Seq<char>,
    build_dir: Seq<char>,
    staging_dir: Option<Seq<char>>,
    name: Seq<char>,
    version: Seq<char>,
) -> Seq<char> {
    "#!/bin/bash\nset -e\npkgname="@ + name + "\npkgver="@ + version + "\nsrcdir="@ + build_dir
        + match staging_dir {
        Some(d) => "\npkgdir="@ + d,
        None => seq![],
    } + "\ncd "@ + build_dir + "\n"@ + body + "\n"@
}

/// The script `run_build_fn` writes: bash, stopping at the first error,
/// with `pkgname`, `pkgver` and `srcdir` set, run in `build_dir`.
pub fn build_script(build_fn: &str, build_dir: &str, name: &str, version: &str) -> (r: String)
    ensures
        r@ == script_text(build_fn@, build_dir@, None, name@, version@),
{
    let mut out: Vec<char> = Vec::new();
    push_all(&mut out, chars_of("#!/bin/bash\nset -e\npkgname=").as_slice());
    push_all(&mut out, chars_of(name).as_slice());
    push_all(&mut out, chars_of("\npkgver=").as_slice());
    push_all(&mut out, chars_of(version).as_slice());
    push_all(&mut out, chars_of("\nsrcdir=").as_slice());
    push_all(&mut out, chars_of(build_dir).as_slice());
    push_all(&mut out, chars_of("\ncd ").as_slice());
    push_all(&mut out, chars_of(build_dir).as_slice());
    push_all(&mut out, chars_of("\n").as_slice());
    push_all(&mut out, chars_of(build_fn).as_slice());
    push_all(&mut out, chars_of("\n").as_slice());
    let ghost none: Seq<char> = seq![];
    assert(out@ =~= script_text(build_fn@, build_dir@, None, name@, version@));
    string_of(out.as_slice())
}

/// The script `run_package_fn` writes: as `build_script`, with `pkgdir`
/// set to the staging directory.
pub fn package_script(
    package_fn: &str,
    build_dir: &str,
    staging_dir: &str,
    name: &str,
    version: &str,
) -> (r: String)
    ensures
        r@ == script_text(package_fn@, build_dir@, Some(staging_dir@), name@, version@),
{
    let mut out: Vec<char> = Vec::new();
    push_all(&mut out, chars_of("#!/bin/bash\nset -e\npkgname=").as_slice());
    push_all(&mut out, chars_of(name).as_slice());
    push_all(&mut out, chars_of("\npkgver=").as_slice());
    push_all(&mut out, chars_of(version).as_slice());
    push_all(&mut out, chars_of("\nsrcdir=").as_slice());
    push_all(&mut out, chars_of(build_dir).as_slice());
    push_all(&mut out, chars_of("\npkgdir=").as_slice());
    push_all(&mut out, chars_of(staging_dir).as_slice());
    push_all(&mut out, chars_of("\ncd ").as_slice());
    push_all(&mut out, chars_of(build_dir).as_slice());
    push_all(&mut out, chars_of("\n").as_slice());
    push_all(&mut out, chars_of(package_fn).as_slice());
    push_all(&mut out, chars_of("\n").as_slice());
    assert(out@ =~= script_text(package_fn@, build_dir@, Some(staging_dir@), name@, version@));
    string_of(out.as_slice())
}

impl PkgBuild {
    /// The directory the package is built in.
    pub fn build_dir(&self) -> (r: String)
        ensures
            r@ == build_dir_of(self@.name, self@.version),
    {
        let mut out: Vec<char> = Vec::new();
        push_all(&mut out, chars_of("/tmp/thanatos/").as_slice());
        push_all(&mut out, chars_of(self.name.as_str()).as_slice());
        push_all(&mut out, chars_of("-").as_slice());
        push_all(&mut out, chars_of(self.version.as_str()).as_slice());
        string_of(out.as_slice())
    }

    /// What to do with each source, in order.
    pub fn source_actions(&self) -> (r: Vec<SourceAction>)
        ensures
            r@.map_values(|a: SourceAction| a@) == source_plan(self@),
    {
        let n = if self.sources.len() <= self.checksums.len() {
            self.sources.len()
        } else {
            self.checksums.len()
        };
        let ghost plan = source_plan(self@);
        let mut r: Vec<SourceAction> = Vec::new();
        let mut i: usize = 0;
        while i < n
            invariant
                i <= n,
                n == plan.len(),
                n <= self.sources@.len(),
                n <= self.checksums@.len(),
                plan == source_plan(self@),
                r@.map_values(|a: SourceAction| a@) == plan.take(i as int),
            decreases n - i,
        {
            let src = chars_of(self.sources[i].as_str());
            assert(self@.sources[i as int] == src@);
            let ok = has_prefix(src.as_slice(), "http") || has_prefix(src.as_slice(), "git+");
            let action = if ok {
                SourceAction::Fetch {
                    source: self.sources[i].clone(),
                    checksum: self.checksums[i].clone(),
                }
            } else {
                SourceAction::Unsupported(self.sources[i].clone())
            };
            let ghost before = r@.map_values(|a: SourceAction| a@);
            r.push(action);
            assert(r@.map_values(|a: SourceAction| a@) =~= before.push(plan[i as int]));
            assert(plan.take(i + 1) =~= plan.take(i as int).push(plan[i as int]));
            i = i + 1;
        }
        assert(plan.take(n as int) =~= plan);
        r
    }

    /// The dependencies that `db` does not hold as installed, in order.
    pub fn missing_dependencies(&self, db: &PackageDb) -> (r: Vec<String>)
        ensures
            strings(r@) == self@.depends.filter(
                |d: Seq<char>| !(db.as_map().contains_key(d) && db.as_map()[d].is_installed()),
            ),
    {
        let ghost pred = |d: Seq<char>| !(db.as_map().contains_key(d) && db.as_map()[d].is_installed());
        let mut r: Vec<String> = Vec::new();
        let mut i: usize = 0;
        while i < self.depends.len()
            invariant
                i <= self.depends@.len(),
                pred == (|d: Seq<char>| !(db.as_map().contains_key(d) && db.as_map()[d].is_installed())),
                strings(r@) == self@.depends.take(i as int).filter(pred),
            decreases self.depends@.len() - i,
        {
            let dep = &self.depends[i];
            assert(self@.depends[i as int] == dep@);
            proof {
                assert(self@.depends.take(i + 1).drop_last() =~= self@.depends.take(i as int));
                reveal_with_fuel(Seq::filter, 1);
            }
            if !db.is_installed(dep.as_str()) {
                let ghost before = strings(r@);
                r.push(dep.clone());
                assert(strings(r@) =~= before.push(dep@));
            }
            i = i + 1;
        }
        assert(self@.depends.take(self.depends@.len() as int) =~= self@.depends);
        r
    }

    /// The database record of this package once installed with `files`
    /// for `reason`.
    pub fn installed_package(&self, files: Vec<String>, reason: InstallReason) -> (p: Package)
        ensures
            p@ == (PackageView {
                name: self@.name,
                depends: self@.depends,
                state: InstallStateView::Installed {
                    version: self@.version,
                    release: self@.release,
                    files: string_views(files@),
                    reason,
                },
                format: PackageFormat::Pending,
            }),
    {
        let mut pkg = Package::new(self.name.as_str());
        pkg.depends = clone_strings(&self.depends);
        pkg.mark_installed(self.version.clone(), self.release, files, reason);
        pkg
    }
}

} // verus!
