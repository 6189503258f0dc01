//! Character-sequence operations used by the parsers and formatters of this
//! crate. Every operation is stated over `Seq<char>` in the way the standard
//! library's `str` methods of the same name behave, and implemented over
//! `Vec<char>` / `[char]`.
use vstd::prelude::*;

verus! {

/// Unicode `White_Space`, the set `char::is_whitespace` tests.
pub open spec fn is_ws(c: char) -> bool {
    let u = c as int;
    ||| 0x09 <= u <= 0x0D
    ||| u == 0x20
    ||| u == 0x85
    ||| u == 0xA0
    ||| u == 0x1680
    ||| 0x2000 <= u <= 0x200A
    ||| u == 0x2028
    ||| u == 0x2029
    ||| u == 0x202F
    ||| u == 0x205F
    ||| u == 0x3000
}

/// A class of characters: whitespace, or one given character.
#[derive(Clone, Copy)]
pub enum CharClass {
    Whitespace,
    Exactly(char),
}

impl CharClass {
    /// Whether `c` belongs to the class.
    pub open spec fn has(self, c: char) -> bool {
        match self {
            CharClass::Whitespace => is_ws(c),
            CharClass::Exactly(d) => c == d,
        }
    }

    /// Tells whether `c` belongs to the class.
    pub fn test(&self, c: char) -> (b: bool)
        ensures
            b == self.has(c),
    {
        match self {
            CharClass::Whitespace => {
                let u = code_point(c);
                (0x09 <= u && u <= 0x0D) || u == 0x20 || u == 0x85 || u == 0xA0 || u == 0x1680
                    || (0x2000 <= u && u <= 0x200A) || u == 0x2028 || u == 0x2029 || u == 0x202F
                    || u == 0x205F || u == 0x3000
            },
            CharClass::Exactly(d) => c == *d,
        }
    }
}

/// `s` without its leading characters of class `k`.
pub open spec fn trim_start_by(s: Seq<char>, k: CharClass) -> Seq<char>
    decreases s.len(),
{
    if s.len() > 0 && k.has(s[0]) {
        trim_start_by(s.drop_first(), k)
    } else {
        s
    }
}

/// `s` without its trailing characters of class `k`.
pub open spec fn trim_end_by(s: Seq<char>, k: CharClass) -> Seq<char>
    decreases s.len(),
{
    if s.len() > 0 && k.has(s.last()) {
        trim_end_by(s.drop_last(), k)
    } else {
        s
    }
}

/// `s` without leading and trailing characters of class `k`
/// (`str::trim` for whitespace, `str::trim_matches` for one character).
pub open spec fn trim_by(s: Seq<char>, k: CharClass) -> Seq<char> {
    trim_end_by(trim_start_by(s, k), k)
}

/// Position of the first character of class `k` in `s`, or `s.len()`.
pub open spec fn index_of(s: Seq<char>, k: CharClass) -> nat
    decreases s.len(),
{
    if s.len() == 0 {
        0
    } else if k.has(s[0]) {
        0
    } else {
        1 + index_of(s.drop_first(), k)
    }
}

/// `index_of` is the first position holding a character of class `k`.
pub proof fn lemma_index_of(s: Seq<char>, k: CharClass, i: int)
    requires
        0 <= i <= s.len(),
        forall|j: int| 0 <= j < i ==> !k.has(#[trigger] s[j]),
        i == s.len() || k.has(s[i]),
    ensures
        index_of(s, k) == i,
    decreases i,
{
    if i > 0 {
        assert(!k.has(s[0]));
        let t = s.drop_first();
        assert forall|j: int| 0 <= j < i - 1 implies !k.has(#[trigger] t[j]) by {
            assert(t[j] == s[j + 1]);
        }
        if i < s.len() {
            assert(t[i - 1] == s[i]);
        }
        lemma_index_of(t, k, i - 1);
    }
}

/// `index_of` lies in `0..=s.len()`, with no character of class `k` before it.
pub proof fn lemma_index_of_bounds(s: Seq<char>, k: CharClass)
    ensures
        0 <= index_of(s, k) <= s.len(),
        forall|j: int| 0 <= j < index_of(s, k) ==> !k.has(#[trigger] s[j]),
        index_of(s, k) < s.len() ==> k.has(s[index_of(s, k) as int]),
    decreases s.len(),
{
    if s.len() > 0 && !k.has(s[0]) {
        let t = s.drop_first();
        lemma_index_of_bounds(t, k);
        assert forall|j: int| 0 <= j < index_of(s, k) implies !k.has(#[trigger] s[j]) by {
            if j > 0 {
                assert(s[j] == t[j - 1]);
            }
        }
    }
}

/// Finds the first position at or after `from` holding a character of class `k`
/// (or `s.len()`).
pub fn find_class(s: &[char], k: CharClass, from: usize) -> (r: usize)
    requires
        from <= s@.len(),
    ensures
        r == from + index_of(s@.skip(from as int), k),
        from <= r <= s@.len(),
{
    let mut i = from;
    while i < s.len() && !k.test(s[i])
        invariant
            from <= i <= s@.len(),
            forall|j: int| from <= j < i ==> !k.has(#[trigger] s@[j]),
        decreases s@.len() - i,
    {
        i = i + 1;
    }
    proof {
        let t = s@.skip(from as int);
        assert forall|j: int| 0 <= j < i - from implies !k.has(#[trigger] t[j]) by {
            assert(t[j] == s@[from + j]);
        }
        if i < s@.len() {
            assert(t[i - from] == s@[i as int]);
        }
        lemma_index_of(t, k, i - from);
    }
    i
}

/// The code point of `c`.
pub fn code_point(c: char) -> (u: u32)
    ensures
        u == c as int,
{
    proof {
        assert(0 <= (c as int) <= 0x10FFFF);
    }
    c as u32
}

/// Whether `s` holds a character of class `k`.
pub fn contains_class(s: &[char], k: CharClass) -> (b: bool)
    ensures
        b == exists|i: int| 0 <= i < s@.len() && k.has(#[trigger] s@[i]),
{
    let r = find_class(s, k, 0);
    proof {
        assert(s@.skip(0) =~= s@);
        lemma_index_of_bounds(s@, k);
    }
    r < s.len()
}

/// Skipping a prefix of class-`k` characters does not change the start-trimmed text.
pub proof fn lemma_trim_start_skip(s: Seq<char>, k: CharClass, i: int)
    requires
        0 <= i <= s.len(),
        forall|j: int| 0 <= j < i ==> k.has(#[trigger] s[j]),
    ensures
        trim_start_by(s, k) == trim_start_by(s.skip(i), k),
    decreases i,
{
    if i > 0 {
        let t = s.drop_first();
        assert(k.has(s[0]));
        assert forall|j: int| 0 <= j < i - 1 implies k.has(#[trigger] t[j]) by {
            assert(t[j] == s[j + 1]);
        }
        lemma_trim_start_skip(t, k, i - 1);
        assert(t.skip(i - 1) =~= s.skip(i));
    } else {
        assert(s.skip(0) =~= s);
    }
}

/// Dropping a suffix of class-`k` characters does not change the end-trimmed text.
pub proof fn lemma_trim_end_take(s: Seq<char>, k: CharClass, i: int)
    requires
        0 <= i <= s.len(),
        forall|j: int| i <= j < s.len() ==> k.has(#[trigger] s[j]),
    ensures
        trim_end_by(s, k) == trim_end_by(s.take(i), k),
    decreases s.len() - i,
{
    if i < s.len() {
        let t = s.drop_last();
        lemma_trim_end_take(t, k, i);
        assert(t.take(i) =~= s.take(i));
    } else {
        assert(s.take(i) =~= s);
    }
}

/// The bounds `(lo, hi)` of `trim_by(s, k)` inside `s`.
pub fn trim_bounds(s: &[char], k: CharClass) -> (r: (usize, usize))
    ensures
        r.0 <= r.1 <= s@.len(),
        s@.subrange(r.0 as int, r.1 as int) == trim_by(s@, k),
{
    let mut lo: usize = 0;
    while lo < s.len() && k.test(s[lo])
        invariant
            lo <= s@.len(),
            forall|j: int| 0 <= j < lo ==> k.has(#[trigger] s@[j]),
        decreases s@.len() - lo,
    {
        lo = lo + 1;
    }
    let mut hi: usize = s.len();
    while hi > lo && k.test(s[hi - 1])
        invariant
            lo <= hi <= s@.len(),
            forall|j: int| hi <= j < s@.len() ==> k.has(#[trigger] s@[j]),
        decreases hi,
    {
        hi = hi - 1;
    }
    proof {
        lemma_trim_start_skip(s@, k, lo as int);
        let t = s@.skip(lo as int);
        if lo < s@.len() {
            assert(!k.has(t[0]));
            assert(trim_start_by(t, k) == t);
        } else {
            assert(t.len() == 0);
        }
        assert forall|j: int| hi - lo <= j < t.len() implies k.has(#[trigger] t[j]) by {
            assert(t[j] == s@[lo + j]);
        }
        lemma_trim_end_take(t, k, hi - lo);
        let u = t.take(hi - lo);
        if hi > lo {
            assert(u.last() == s@[hi - 1]);
        }
        assert(trim_end_by(u, k) == u);
        assert(u =~= s@.subrange(lo as int, hi as int));
    }
    (lo, hi)
}

/// `String::push`: appends the character `ch` to the end of `s`, as the
/// standard library documents.
pub assume_specification[ String::push ](s: &mut String, ch: char)
    ensures
        final(s)@ == old(s)@.push(ch),
;

/// Builds a `String` from a sequence of characters.
pub fn string_of(v: &[char]) -> (s: String)
    ensures
        s@ == v@,
{
    let mut s = String::new();
    let mut i: usize = 0;
    while i < v.len()
        invariant
            i <= v@.len(),
            s@ == v@.take(i as int),
        decreases v@.len() - i,
    {
        s.push(v[i]);
        i = i + 1;
        assert(s@ =~= v@.take(i as int));
    }
    assert(v@.take(v@.len() as int) =~= v@);
    s
}

/// The characters of `s`, in order.
pub fn chars_of(s: &str) -> (v: Vec<char>)
    ensures
        v@ == s@,
{
    let mut v: Vec<char> = Vec::new();
    for c in it: s.chars()
        invariant
            v@ == it.seq().take(it.index() as int),
            it.seq() == s@,
    {
        v.push(c);
    }
    v
}

/// A copy of `s[from..to]`.
pub fn slice_vec(s: &[char], from: usize, to: usize) -> (v: Vec<char>)
    requires
        from <= to <= s@.len(),
    ensures
        v@ == s@.subrange(from as int, to as int),
{
    let mut v: Vec<char> = Vec::new();
    let mut i = from;
    while i < to
        invariant
            from <= i <= to <= s@.len(),
            v@ == s@.subrange(from as int, i as int),
        decreases to - i,
    {
        v.push(s[i]);
        i = i + 1;
        assert(v@ =~= s@.subrange(from as int, i as int));
    }
    v
}

/// Appends the characters of `s` to `v`.
pub fn push_all(v: &mut Vec<char>, s: &[char])
    ensures
        final(v)@ == old(v)@ + s@,
{
    let mut i: usize = 0;
    while i < s.len()
        invariant
            0 <= i <= s@.len(),
            v@ == old(v)@ + s@.take(i as int),
        decreases s@.len() - i,
    {
        v.push(s[i]);
        i = i + 1;
        assert(v@ =~= old(v)@ + s@.take(i as int));
    }
    assert(s@.take(s@.len() as int) =~= s@);
}

/// Whether `s` begins with `p` (`str::starts_with`).
pub open spec fn starts_with(s: Seq<char>, p: Seq<char>) -> bool {
    p.len() <= s.len() && s.take(p.len() as int) == p
}

/// Whether `s[from..]` begins with `p`.
pub fn starts_with_at(s: &[char], from: usize, p: &[char]) -> (b: bool)
    requires
        from <= s@.len(),
    ensures
        b == starts_with(s@.skip(from as int), p@),
{
    let n = s.len();
    if p.len() > n - from {
        return false;
    }
    let mut i: usize = 0;
    while i < p.len()
        invariant
            0 <= i <= p@.len(),
            n == s@.len(),
            from <= s@.len(),
            p@.len() <= s@.len() - from,
            forall|j: int| 0 <= j < i ==> s@[from + j] == p@[j],
        decreases p@.len() - i,
    {
        if s[from + i] != p[i] {
            proof {
                let t = s@.skip(from as int).take(p@.len() as int);
                assert(t[i as int] == s@[from + i]);
            }
            return false;
        }
        i = i + 1;
    }
    assert(s@.skip(from as int).take(p@.len() as int) =~= p@);
    true
}

/// `s` with every leading repetition of `p` removed (`str::trim_start_matches`).
pub open spec fn trim_start_matches(s: Seq<char>, p: Seq<char>) -> Seq<char>
    decreases s.len(),
{
    if p.len() > 0 && starts_with(s, p) {
        trim_start_matches(s.skip(p.len() as int), p)
    } else {
        s
    }
}

/// The position in `s` at which `trim_start_matches(s, p)` begins.
pub fn trim_start_matches_index(s: &[char], p: &[char]) -> (r: usize)
    ensures
        r <= s@.len(),
        s@.skip(r as int) == trim_start_matches(s@, p@),
{
    let n = s.len();
    let mut i: usize = 0;
    assert(s@.skip(0) =~= s@);
    if p.len() == 0 {
        return 0;
    }
    while starts_with_at(s, i, p)
        invariant
            i <= s@.len(),
            n == s@.len(),
            p@.len() > 0,
            trim_start_matches(s@.skip(i as int), p@) == trim_start_matches(s@, p@),
        decreases s@.len() - i,
    {
        assert(s@.skip(i as int).skip(p@.len() as int) =~= s@.skip(i + p@.len()));
        i = i + p.len();
    }
    i
}

/// `s` with both ends stripped of characters of class `k`, as a new vector.
pub fn trimmed(s: &[char], k: CharClass) -> (v: Vec<char>)
    ensures
        v@ == trim_by(s@, k),
{
    let (lo, hi) = trim_bounds(s, k);
    slice_vec(s, lo, hi)
}

/// The first position at or after `i` where `p` occurs in `s`.
pub open spec fn find_from(s: Seq<char>, p: Seq<char>, i: int) -> Option<int>
    decreases s.len() + 1 - i,
{
    if i < 0 || i > s.len() || i + p.len() > s.len() {
        None
    } else if starts_with(s.skip(i), p) {
        Some(i)
    } else {
        find_from(s, p, i + 1)
    }
}

/// The first position where `p` occurs in `s` (`str::find`).
pub open spec fn find(s: Seq<char>, p: Seq<char>) -> Option<int> {
    find_from(s, p, 0)
}

/// A position found by `find_from` is at or after `i`, and `p` occurs there.
pub proof fn lemma_find_from_bounds(s: Seq<char>, p: Seq<char>, i: int)
    ensures
        find_from(s, p, i) matches Some(j) ==> i <= j && j + p.len() <= s.len() && starts_with(
            s.skip(j),
            p,
        ),
    decreases s.len() + 1 - i,
{
    if !(i < 0 || i > s.len() || i + p.len() > s.len()) && !starts_with(s.skip(i), p) {
        lemma_find_from_bounds(s, p, i + 1);
    }
}

/// Finds the first occurrence of `p` in `s`.
pub fn find_pattern(s: &[char], p: &[char]) -> (r: Option<usize>)
    ensures
        r matches Some(j) ==> find(s@, p@) == Some(j as int),
        r is None ==> find(s@, p@) is None,
{
    if p.len() == 0 {
        assert(s@.skip(0).take(0) =~= p@);
        return Some(0);
    }
    let mut i: usize = 0;
    while i <= s.len() && p.len() <= s.len() - i
        invariant
            i <= s@.len(),
            p@.len() > 0,
            find_from(s@, p@, i as int) == find(s@, p@),
        decreases s@.len() + 1 - i,
    {
        if starts_with_at(s, i, p) {
            return Some(i);
        }
        i = i + 1;
    }
    None
}

/// Whether `p` occurs in `s` (`str::contains` with a string pattern).
pub open spec fn contains_pattern(s: Seq<char>, p: Seq<char>) -> bool {
    find(s, p) is Some
}

/// Every non-overlapping occurrence of `p` in `s`, left to right, replaced by `r`
/// (`str::replace`; `p` is not empty).
pub open spec fn replace(s: Seq<char>, p: Seq<char>, r: Seq<char>) -> Seq<char>
    decreases s.len(),
{
    if p.len() == 0 || s.len() == 0 {
        s
    } else if starts_with(s, p) {
        r + replace(s.skip(p.len() as int), p, r)
    } else {
        seq![s[0]] + replace(s.drop_first(), p, r)
    }
}

/// Replaces every non-overlapping occurrence of `p` in `s` by `r`.
pub fn replace_all(s: &[char], p: &[char], r: &[char]) -> (v: Vec<char>)
    requires
        p@.len() > 0,
    ensures
        v@ == replace(s@, p@, r@),
{
    let mut out: Vec<char> = Vec::new();
    let mut i: usize = 0;
    assert(s@.skip(0) =~= s@);
    while i < s.len()
        invariant
            i <= s@.len(),
            p@.len() > 0,
            out@ + replace(s@.skip(i as int), p@, r@) == replace(s@, p@, r@),
        decreases s@.len() - i,
    {
        let ghost rest = s@.skip(i as int);
        if starts_with_at(s, i, p) {
            push_all(&mut out, r);
            assert(rest.skip(p@.len() as int) =~= s@.skip(i + p@.len()));
            assert(out@ + replace(s@.skip(i + p@.len()), p@, r@) == replace(s@, p@, r@));
            i = i + p.len();
        } else {
            out.push(s[i]);
            assert(rest.drop_first() =~= s@.skip(i + 1));
            assert(rest[0] == s@[i as int]);
            i = i + 1;
        }
    }
    assert(s@.skip(i as int).len() == 0);
    assert(out@ + seq![] =~= out@);
    out
}

/// Whether the two character sequences are equal.
pub fn eq_chars(a: &[char], b: &[char]) -> (r: bool)
    ensures
        r == (a@ == b@),
{
    if a.len() != b.len() {
        return false;
    }
    let mut i: usize = 0;
    while i < a.len()
        invariant
            i <= a@.len(),
            a@.len() == b@.len(),
            forall|j: int| 0 <= j < i ==> a@[j] == b@[j],
        decreases a@.len() - i,
    {
        if a[i] != b[i] {
            return false;
        }
        i = i + 1;
    }
    assert(a@ =~= b@);
    true
}

/// The character sequences held by a sequence of vectors.
pub open spec fn views(v: Seq<Vec<char>>) -> Seq<Seq<char>> {
    v.map_values(|x: Vec<char>| x@)
}

/// The pieces of `s` between occurrences of `c` (`str::split` with a character).
pub open spec fn split(s: Seq<char>, c: char) -> Seq<Seq<char>>
    decreases s.len(),
{
    let k = index_of(s, CharClass::Exactly(c));
    if k >= s.len() {
        seq![s]
    } else {
        proof {
            lemma_index_of_bounds(s, CharClass::Exactly(c));
        }
        seq![s.take(k as int)] + split(s.skip(k + 1int), c)
    }
}

/// Splits `s` at every occurrence of `c`.
pub fn split_on(s: &[char], c: char) -> (v: Vec<Vec<char>>)
    ensures
        views(v@) == split(s@, c),
{
    let n = s.len();
    let mut out: Vec<Vec<char>> = Vec::new();
    let mut start: usize = 0;
    assert(s@.skip(0) =~= s@);
    loop
        invariant
            start <= n,
            n == s@.len(),
            views(out@) + split(s@.skip(start as int), c) == split(s@, c),
        decreases n - start,
    {
        let k = find_class(s, CharClass::Exactly(c), start);
        let ghost rest = s@.skip(start as int);
        proof {
            lemma_index_of_bounds(rest, CharClass::Exactly(c));
        }
        let piece = slice_vec(s, start, k);
        assert(rest.take(k - start) =~= piece@);
        let ghost before = views(out@);
        out.push(piece);
        assert(views(out@) =~= before.push(piece@));
        if k == n {
            assert(views(out@) =~= before + seq![rest]);
            return out;
        }
        assert(rest.skip(k - start + 1) =~= s@.skip(k + 1));
        assert(before + split(rest, c) =~= views(out@) + split(s@.skip(k + 1), c));
        start = k + 1;
    }
}

/// The lines of `s` (`str::lines`): pieces ended by `\n` or `\r\n`, the last
/// one possibly unterminated, with no empty piece after a final line ending.
pub open spec fn lines(s: Seq<char>) -> Seq<Seq<char>>
    decreases s.len(),
{
    if s.len() == 0 {
        seq![]
    } else {
        let k = index_of(s, CharClass::Exactly('\n'));
        if k >= s.len() {
            seq![s]
        } else {
            let line = if k > 0 && s[k - 1] == '\r' {
                s.take(k - 1)
            } else {
                s.take(k as int)
            };
            seq![line] + lines(s.skip((k + 1) as int))
        }
    }
}

/// Splits `s` into its lines.
pub fn lines_of(s: &[char]) -> (v: Vec<Vec<char>>)
    ensures
        views(v@) == lines(s@),
{
    let n = s.len();
    let mut out: Vec<Vec<char>> = Vec::new();
    let mut start: usize = 0;
    assert(s@.skip(0) =~= s@);
    while start < n
        invariant
            start <= n,
            n == s@.len(),
            views(out@) + lines(s@.skip(start as int)) == lines(s@),
        decreases n - start,
    {
        let k = find_class(s, CharClass::Exactly('\n'), start);
        let ghost rest = s@.skip(start as int);
        proof {
            lemma_index_of_bounds(rest, CharClass::Exactly('\n'));
        }
        let end = if k < n && k > start && s[k - 1] == '\r' {
            k - 1
        } else {
            k
        };
        let piece = slice_vec(s, start, end);
        if k < n && k > start {
            assert(rest[k - start - 1] == s@[k - 1]);
        }
        assert(piece@ =~= rest.take(end - start));
        let ghost before = views(out@);
        out.push(piece);
        assert(views(out@) =~= before.push(piece@));
        if k == n {
            assert(views(out@) =~= before + seq![rest]);
            assert(rest =~= rest.take(end - start));
            start = n;
            assert(s@.skip(start as int) =~= seq![]);
            assert(views(out@) + lines(s@.skip(start as int)) =~= views(out@));
        } else {
            assert(rest.skip(k - start + 1) =~= s@.skip(k + 1));
            assert(before + lines(rest) =~= views(out@) + lines(s@.skip(k + 1)));
            start = k + 1;
        }
    }
    assert(s@.skip(start as int) =~= seq![]);
    assert(views(out@) + seq![] =~= views(out@));
    out
}

/// The maximal runs of non-whitespace characters of `s` (`str::split_whitespace`).
pub open spec fn words(s: Seq<char>) -> Seq<Seq<char>>
    decreases s.len(),
{
    if s.len() == 0 {
        seq![]
    } else if is_ws(s[0]) {
        words(s.drop_first())
    } else {
        let k = index_of(s, CharClass::Whitespace);
        proof {
            lemma_index_of_bounds(s, CharClass::Whitespace);
            assert(k >= 1);
            assert(s.skip(k as int).len() < s.len());
        }
        seq![s.take(k as int)] + words(s.skip(k as int))
    }
}

/// Splits `s` into its whitespace-separated words.
pub fn words_of(s: &[char]) -> (v: Vec<Vec<char>>)
    ensures
        views(v@) == words(s@),
{
    let n = s.len();
    let mut out: Vec<Vec<char>> = Vec::new();
    let mut i: usize = 0;
    assert(s@.skip(0) =~= s@);
    while i < n
        invariant
            i <= n,
            n == s@.len(),
            views(out@) + words(s@.skip(i as int)) == words(s@),
        decreases n - i,
    {
        let ghost rest = s@.skip(i as int);
        assert(rest[0] == s@[i as int]);
        if CharClass::Whitespace.test(s[i]) {
            assert(rest.drop_first() =~= s@.skip(i + 1));
            i = i + 1;
        } else {
            let k = find_class(s, CharClass::Whitespace, i);
            proof {
                lemma_index_of_bounds(rest, CharClass::Whitespace);
            }
            let piece = slice_vec(s, i, k);
            assert(piece@ =~= rest.take(k - i));
            let ghost before = views(out@);
            out.push(piece);
            assert(views(out@) =~= before.push(piece@));
            assert(rest.skip(k - i) =~= s@.skip(k as int));
            assert(before + words(rest) =~= views(out@) + words(s@.skip(k as int)));
            i = k;
        }
    }
    assert(s@.skip(i as int) =~= seq![]);
    assert(views(out@) + seq![] =~= views(out@));
    out
}

/// The pieces of `ls` with `sep` between consecutive ones (`[&str]::join`).
pub open spec fn join(ls: Seq<Seq<char>>, sep: Seq<char>) -> Seq<char>
    decreases ls.len(),
{
    if ls.len() == 0 {
        seq![]
    } else if ls.len() == 1 {
        ls[0]
    } else {
        join(ls.drop_last(), sep) + sep + ls.last()
    }
}

/// Joins `ls` with `sep`.
pub fn join_with(ls: &Vec<Vec<char>>, sep: &[char]) -> (v: Vec<char>)
    ensures
        v@ == join(views(ls@), sep@),
{
    let mut out: Vec<char> = Vec::new();
    let mut i: usize = 0;
    while i < ls.len()
        invariant
            i <= ls@.len(),
            out@ == join(views(ls@).take(i as int), sep@),
        decreases ls@.len() - i,
    {
        let ghost prev = views(ls@).take(i as int);
        if i > 0 {
            push_all(&mut out, sep);
        }
        push_all(&mut out, ls[i].as_slice());
        let ghost next = views(ls@).take(i + 1);
        assert(next.drop_last() =~= prev);
        if i == 0 {
            assert(out@ =~= next[0]);
        }
        i = i + 1;
    }
    assert(views(ls@).take(ls@.len() as int) =~= views(ls@));
    out
}

/// The characters of each string of `items`.
pub fn char_vecs_of_slice(items: &[String]) -> (v: Vec<Vec<char>>)
    ensures
        views(v@) == items@.map_values(|s: String| s@),
{
    let mut out: Vec<Vec<char>> = Vec::new();
    let mut i: usize = 0;
    let n = items.len();
    while i < n
        invariant
            i <= n,
            n == items@.len(),
            views(out@) == items@.take(i as int).map_values(|s: String| s@),
        decreases n - i,
    {
        let item = &items[i];
        let cs = chars_of(item.as_str());
        assert(cs@ == items@[i as int]@);
        let ghost before = views(out@);
        out.push(cs);
        assert(items@.take(i + 1).map_values(|s: String| s@) =~= items@.take(i as int).map_values(
            |s: String| s@,
        ).push(cs@));
        assert(views(out@) =~= items@.take(i + 1).map_values(|s: String| s@));
        i = i + 1;
    }
    assert(items@.take(n as int) =~= items@);
    out
}

/// The decimal digit character for `d < 10`.
pub open spec fn digit_char(d: nat) -> char {
    seq!['0', '1', '2', '3', '4', '5', '6', '7', '8', '9'][d as int]
}

/// The decimal representation of `n`, without leading zeros (`u64::to_string`).
pub open spec fn decimal(n: nat) -> Seq<char>
    decreases n,
{
    if n < 10 {
        seq![digit_char(n)]
    } else {
        decimal(n / 10) + seq![digit_char(n % 10)]
    }
}

/// Writes `n` in decimal.
pub fn decimal_of(n: u64) -> (v: Vec<char>)
    ensures
        v@ == decimal(n as nat),
    decreases n,
{
    let digits = ['0', '1', '2', '3', '4', '5', '6', '7', '8', '9'];
    assert(digits@ =~= seq!['0', '1', '2', '3', '4', '5', '6', '7', '8', '9']);
    if n < 10 {
        let mut v = Vec::new();
        v.push(digits[n as usize]);
        assert(v@ =~= seq![digit_char(n as nat)]);
        v
    } else {
        let mut v = decimal_of(n / 10);
        v.push(digits[(n % 10) as usize]);
        assert(v@ =~= decimal((n / 10) as nat) + seq![digit_char((n % 10) as nat)]);
        v
    }
}

/// Whether `c` is an ASCII digit.
pub open spec fn is_digit(c: char) -> bool {
    48 <= (c as int) <= 57
}

/// The number written by the decimal digits `d`.
pub open spec fn digits_value(d: Seq<char>) -> nat
    decreases d.len(),
{
    if d.len() == 0 {
        0
    } else {
        digits_value(d.drop_last()) * 10 + ((d.last() as int) - 48) as nat
    }
}

/// Whether every character of `d` is an ASCII digit.
pub open spec fn all_digits(d: Seq<char>) -> bool {
    forall|i: int| 0 <= i < d.len() ==> is_digit(#[trigger] d[i])
}

/// `s` without one leading `+`, if it has one.
pub open spec fn unsigned_part(s: Seq<char>) -> Seq<char> {
    if s.len() > 0 && s[0] == '+' {
        s.drop_first()
    } else {
        s
    }
}

/// Why a text is not a `u32`: the kinds of `ParseIntError` that
/// `u32::from_str` reports.
#[derive(Clone, Copy, Debug, PartialEq, Eq, Structural)]
pub enum IntError {
    /// The text is empty.
    Empty,
    /// A character is not a decimal digit (or the text is a lone sign).
    InvalidDigit,
    /// The value is larger than `u32::MAX`.
    PosOverflow,
}

impl IntError {
    /// The text of the error, as `ParseIntError` displays it.
    pub open spec fn message_spec(self) -> Seq<char> {
        match self {
            IntError::Empty => "cannot parse integer from empty string"@,
            IntError::InvalidDigit => "invalid digit found in string"@,
            IntError::PosOverflow => "number too large to fit in target type"@,
        }
    }

    /// The text of the error, as `ParseIntError` displays it.
    pub fn message(&self) -> (s: String)
        ensures
            s@ == self.message_spec(),
    {
        match self {
            IntError::Empty => String::from_str("cannot parse integer from empty string"),
            IntError::InvalidDigit => String::from_str("invalid digit found in string"),
            IntError::PosOverflow => String::from_str("number too large to fit in target type"),
        }
    }
}

/// The value of the digits `d` read from left to right, or the first error
/// met on the way: a character that is not a digit, or a value past
/// `u32::MAX`.
pub open spec fn scan_digits(d: Seq<char>) -> Result<nat, IntError>
    decreases d.len(),
{
    if d.len() == 0 {
        Ok(0)
    } else {
        match scan_digits(d.drop_last()) {
            Err(e) => Err(e),
            Ok(v) => if !is_digit(d.last()) {
                Err(IntError::InvalidDigit)
            } else if v * 10 + ((d.last() as int) - 48) > u32::MAX {
                Err(IntError::PosOverflow)
            } else {
                Ok((v * 10 + ((d.last() as int) - 48)) as nat)
            },
        }
    }
}

/// What `u32::from_str` gives for `s`: an empty text is `Empty`, a lone
/// sign is an invalid digit; otherwise one leading `+` is dropped and the
/// digits are read from left to right.
pub open spec fn parse_u32_result(s: Seq<char>) -> Result<u32, IntError> {
    if s.len() == 0 {
        Err(IntError::Empty)
    } else if s.len() == 1 && (s[0] == '+' || s[0] == '-') {
        Err(IntError::InvalidDigit)
    } else {
        match scan_digits(unsigned_part(s)) {
            Ok(v) => Ok(v as u32),
            Err(e) => Err(e),
        }
    }
}

/// The `u32` that `s` holds, when `u32::from_str` accepts it.
pub open spec fn parse_u32_spec(s: Seq<char>) -> Option<u32> {
    match parse_u32_result(s) {
        Ok(v) => Some(v),
        Err(_) => None,
    }
}

/// An error met in a prefix is the error of the whole text.
proof fn lemma_scan_digits_prefix_error(d: Seq<char>, k: int)
    requires
        0 <= k <= d.len(),
        scan_digits(d.take(k)) is Err,
    ensures
        scan_digits(d) == scan_digits(d.take(k)),
    decreases d.len(),
{
    if k == d.len() {
        assert(d.take(k) =~= d);
    } else {
        assert(d.drop_last().take(k) =~= d.take(k));
        lemma_scan_digits_prefix_error(d.drop_last(), k);
    }
}

/// Parses a decimal `u32` as `str::parse::<u32>` does, with its kind of error.
pub fn parse_u32_checked(s: &[char]) -> (r: Result<u32, IntError>)
    ensures
        r == parse_u32_result(s@),
{
    let n = s.len();
    if n == 0 {
        return Err(IntError::Empty);
    }
    if n == 1 && (s[0] == '+' || s[0] == '-') {
        return Err(IntError::InvalidDigit);
    }
    let start: usize = if s[0] == '+' {
        1
    } else {
        0
    };
    let ghost d = s@.skip(start as int);
    assert(d =~= unsigned_part(s@));
    let mut val: u64 = 0;
    let mut i: usize = start;
    assert(d.take(0) =~= seq![]);
    while i < n
        invariant
            start <= i <= n,
            n == s@.len(),
            d == s@.skip(start as int),
            d == unsigned_part(s@),
            n > 0,
            !(n == 1 && (s@[0] == '+' || s@[0] == '-')),
            scan_digits(d.take(i - start)) == Ok::<nat, IntError>(val as nat),
            val <= u32::MAX,
        decreases n - i,
    {
        let u = code_point(s[i]);
        let ghost pre = d.take(i - start);
        let ghost post = d.take(i - start + 1);
        assert(d[i - start] == s@[i as int]);
        assert(post.drop_last() =~= pre);
        assert(post.last() == s@[i as int]);
        if u < 48 || u > 57 {
            proof {
                lemma_scan_digits_prefix_error(d, i - start + 1);
            }
            return Err(IntError::InvalidDigit);
        }
        let next = val * 10 + (u - 48) as u64;
        if next > 0xFFFF_FFFF {
            proof {
                lemma_scan_digits_prefix_error(d, i - start + 1);
            }
            return Err(IntError::PosOverflow);
        }
        val = next;
        i = i + 1;
    }
    assert(d.take(n - start) =~= d);
    Ok(val as u32)
}

/// Parses a decimal `u32` as `str::parse::<u32>` does, keeping only the value.
pub fn parse_u32(s: &[char]) -> (r: Option<u32>)
    ensures
        r == parse_u32_spec(s@),
{
    match parse_u32_checked(s) {
        Ok(v) => Some(v),
        Err(_) => None,
    }
}

/// `a` comes strictly before `b` in the order of code points, compared
/// lexicographically (the order of `String`).
pub open spec fn seq_lt(a: Seq<char>, b: Seq<char>) -> bool
    decreases a.len(),
{
    if a.len() == 0 {
        b.len() > 0
    } else if b.len() == 0 {
        false
    } else if a[0] != b[0] {
        (a[0] as int) < (b[0] as int)
    } else {
        seq_lt(a.drop_first(), b.drop_first())
    }
}

/// No sequence comes before itself.
pub proof fn lemma_seq_lt_irreflexive(a: Seq<char>)
    ensures
        !seq_lt(a, a),
    decreases a.len(),
{
    if a.len() > 0 {
        lemma_seq_lt_irreflexive(a.drop_first());
    }
}

/// Of two sequences, exactly one is equal to, before or after the other.
pub proof fn lemma_seq_lt_trichotomy(a: Seq<char>, b: Seq<char>)
    ensures
        a == b || seq_lt(a, b) || seq_lt(b, a),
        !(seq_lt(a, b) && seq_lt(b, a)),
    decreases a.len(),
{
    if a.len() > 0 && b.len() > 0 {
        if a[0] == b[0] {
            lemma_seq_lt_trichotomy(a.drop_first(), b.drop_first());
            if a.drop_first() == b.drop_first() {
                assert(a =~= seq![a[0]] + a.drop_first());
                assert(b =~= seq![b[0]] + b.drop_first());
            }
        } else {
            assert((a[0] as int) != (b[0] as int));
        }
    } else if a.len() == 0 && b.len() == 0 {
        assert(a =~= b);
    }
}

/// The order of sequences is transitive.
pub proof fn lemma_seq_lt_transitive(a: Seq<char>, b: Seq<char>, c: Seq<char>)
    requires
        seq_lt(a, b),
        seq_lt(b, c),
    ensures
        seq_lt(a, c),
    decreases a.len(),
{
    if a.len() > 0 && b.len() > 0 && c.len() > 0 {
        if a[0] == b[0] && b[0] == c[0] {
            lemma_seq_lt_transitive(a.drop_first(), b.drop_first(), c.drop_first());
        }
    }
}

/// The result of comparing two character sequences.
#[derive(PartialEq, Eq, Structural, Clone, Copy)]
pub enum Comparison {
    Less,
    Equal,
    Greater,
}

/// Compares `a` and `b` in the order of `seq_lt`.
pub fn compare_chars(a: &[char], b: &[char]) -> (r: Comparison)
    ensures
        r == Comparison::Less <==> seq_lt(a@, b@),
        r == Comparison::Equal <==> a@ == b@,
        r == Comparison::Greater <==> seq_lt(b@, a@),
{
    proof {
        lemma_seq_lt_trichotomy(a@, b@);
        lemma_seq_lt_irreflexive(a@);
    }
    let na = a.len();
    let nb = b.len();
    let mut i: usize = 0;
    assert(a@.skip(0) =~= a@);
    assert(b@.skip(0) =~= b@);
    while i < na && i < nb
        invariant
            i <= na,
            i <= nb,
            na == a@.len(),
            nb == b@.len(),
            forall|j: int| 0 <= j < i ==> a@[j] == b@[j],
            seq_lt(a@, b@) == seq_lt(a@.skip(i as int), b@.skip(i as int)),
            seq_lt(b@, a@) == seq_lt(b@.skip(i as int), a@.skip(i as int)),
        decreases na - i,
    {
        let ghost ra = a@.skip(i as int);
        let ghost rb = b@.skip(i as int);
        assert(ra[0] == a@[i as int]);
        assert(rb[0] == b@[i as int]);
        if a[i] != b[i] {
            if code_point(a[i]) < code_point(b[i]) {
                return Comparison::Less;
            } else {
                return Comparison::Greater;
            }
        }
        assert(ra.drop_first() =~= a@.skip(i + 1));
        assert(rb.drop_first() =~= b@.skip(i + 1));
        i = i + 1;
    }
    if na == nb {
        assert(a@ =~= b@);
        Comparison::Equal
    } else if i == na {
        Comparison::Less
    } else {
        Comparison::Greater
    }
}


/// `l` without one trailing `\r`.
pub open spec fn strip_cr(l: Seq<char>) -> Seq<char> {
    if l.len() > 0 && l.last() == '\r' {
        l.drop_last()
    } else {
        l
    }
}

/// A character of class `k` found in `a` is found at the same place in `a + b`.
pub proof fn lemma_index_of_prefix(a: Seq<char>, b: Seq<char>, k: CharClass)
    requires
        index_of(a, k) < a.len(),
    ensures
        index_of(a + b, k) == index_of(a, k),
{
    lemma_index_of_bounds(a, k);
    let i = index_of(a, k) as int;
    assert forall|j: int| 0 <= j < i implies !k.has(#[trigger] (a + b)[j]) by {
        assert((a + b)[j] == a[j]);
    }
    assert((a + b)[i] == a[i]);
    lemma_index_of(a + b, k, i);
}

/// In `a + [c] + b`, where `a` holds no `c`, the first `c` follows `a`.
pub proof fn lemma_index_of_after(a: Seq<char>, c: char, b: Seq<char>)
    requires
        !a.contains(c),
    ensures
        index_of(a + seq![c] + b, CharClass::Exactly(c)) == a.len(),
{
    let s = a + seq![c] + b;
    assert forall|j: int| 0 <= j < a.len() implies !CharClass::Exactly(c).has(#[trigger] s[j]) by {
        assert(s[j] == a[j]);
    }
    assert(s[a.len() as int] == c);
    lemma_index_of(s, CharClass::Exactly(c), a.len() as int);
}

/// Splitting at `c` the text `a + [c] + b`, where `a` holds no `c`.
pub proof fn lemma_split_after(a: Seq<char>, c: char, b: Seq<char>)
    requires
        !a.contains(c),
    ensures
        split(a + seq![c] + b, c) == seq![a] + split(b, c),
{
    let s = a + seq![c] + b;
    lemma_index_of_after(a, c, b);
    assert(s.take(a.len() as int) =~= a);
    assert(s.skip(a.len() + 1int) =~= b);
}

/// Text without `c` splits at `c` into itself.
pub proof fn lemma_split_none(a: Seq<char>, c: char)
    requires
        !a.contains(c),
    ensures
        split(a, c) == seq![a],
{
    assert forall|j: int| 0 <= j < a.len() implies !CharClass::Exactly(c).has(#[trigger] a[j]) by {
        assert(a.contains(a[j]));
    }
    lemma_index_of(a, CharClass::Exactly(c), a.len() as int);
}

/// No line of `s` holds a `\n`.
pub proof fn lemma_lines_have_no_newline(s: Seq<char>)
    ensures
        forall|j: int| 0 <= j < lines(s).len() ==> !(#[trigger] lines(s)[j]).contains('\n'),
    decreases s.len(),
{
    if s.len() > 0 {
        let k = index_of(s, CharClass::Exactly('\n'));
        lemma_index_of_bounds(s, CharClass::Exactly('\n'));
        if k < s.len() {
            let line = if k > 0 && s[k - 1] == '\r' {
                s.take(k - 1)
            } else {
                s.take(k as int)
            };
            assert(!line.contains('\n')) by {
                assert forall|i: int| 0 <= i < line.len() implies line[i] != '\n' by {
                    assert(line[i] == s[i]);
                    assert(!CharClass::Exactly('\n').has(s[i]));
                }
            }
            lemma_lines_have_no_newline(s.skip((k + 1) as int));
            assert forall|j: int| 0 <= j < lines(s).len() implies !(#[trigger] lines(s)[j]).contains('\n') by {
                if j > 0 {
                    assert(lines(s)[j] == lines(s.skip((k + 1) as int))[j - 1]);
                }
            }
        } else {
            assert forall|j: int| 0 <= j < lines(s).len() implies !(#[trigger] lines(s)[j]).contains('\n') by {
                assert(lines(s)[j] == s);
                assert forall|i: int| 0 <= i < s.len() implies s[i] != '\n' by {
                    assert(!CharClass::Exactly('\n').has(s[i]));
                }
            }
        }
    }
}

/// The lines of a text ended by `\n`, followed by one more line and its
/// `\n`: the text's lines, then that line (without a trailing `\r`).
pub proof fn lemma_lines_append(content: Seq<char>, line: Seq<char>)
    requires
        content.len() == 0 || content.last() == '\n',
        !line.contains('\n'),
    ensures
        lines(content + line + "\n"@) == lines(content) + seq![strip_cr(line)],
    decreases content.len(),
{
    let s = content + line + "\n"@;
    reveal_strlit("\n");
    if content.len() == 0 {
        assert(s =~= line + seq!['\n']);
        lemma_index_of_after(line, '\n', seq![]);
        assert(s.skip(line.len() + 1int) =~= seq![]);
        if line.len() > 0 && line.last() == '\r' {
            assert(s.take(line.len() - 1) =~= line.drop_last());
        } else {
            assert(s.take(line.len() as int) =~= line);
        }
        assert(lines(content) =~= seq![]);
        let empty: Seq<char> = seq![];
        assert(lines(empty) == Seq::<Seq<char>>::empty());
        if line.len() > 0 {
            assert(s[line.len() - 1] == line.last());
        }
        assert(lines(s) =~= seq![strip_cr(line)]);
    } else {
        let nl = CharClass::Exactly('\n');
        lemma_index_of_bounds(content, nl);
        let k = index_of(content, nl);
        if k >= content.len() {
            assert(!nl.has(content[content.len() - 1]));
        }
        assert(s =~= content + (line + "\n"@));
        lemma_index_of_prefix(content, line + "\n"@, nl);
        let rest = content.skip((k + 1) as int);
        assert(s.skip((k + 1) as int) =~= rest + line + "\n"@);
        if rest.len() > 0 {
            assert(rest.last() == content.last());
        }
        lemma_lines_append(rest, line);
        if k > 0 {
            assert(s[k - 1] == content[k - 1]);
            assert(s.take(k - 1) =~= content.take(k - 1));
        }
        assert(s.take(k as int) =~= content.take(k as int));
    }
}

/// The lines of lines joined by `\n` and ended by one: the same lines,
/// each without a trailing `\r`.
pub proof fn lemma_lines_joined(ls: Seq<Seq<char>>)
    requires
        ls.len() > 0,
        forall|i: int| 0 <= i < ls.len() ==> !(#[trigger] ls[i]).contains('\n'),
    ensures
        lines(join(ls, "\n"@) + "\n"@) == ls.map_values(|l: Seq<char>| strip_cr(l)),
    decreases ls.len(),
{
    reveal_strlit("\n");
    if ls.len() == 1 {
        lemma_lines_append(seq![], ls[0]);
        assert(seq![] + ls[0] + "\n"@ =~= join(ls, "\n"@) + "\n"@);
        assert(lines(seq![]) =~= seq![]);
        assert(ls.map_values(|l: Seq<char>| strip_cr(l)) =~= seq![strip_cr(ls[0])]);
    } else {
        let init = ls.drop_last();
        lemma_lines_joined(init);
        let c = join(init, "\n"@) + "\n"@;
        assert(c.last() == '\n');
        assert(!ls.last().contains('\n'));
        lemma_lines_append(c, ls.last());
        assert(join(ls, "\n"@) + "\n"@ =~= c + ls.last() + "\n"@);
        assert(ls.map_values(|l: Seq<char>| strip_cr(l)) =~= init.map_values(|l: Seq<char>| strip_cr(l)).push(
            strip_cr(ls.last()),
        ));
    }
}

/// A digit character and its value.
pub proof fn lemma_digit_char(d: nat)
    requires
        d < 10,
    ensures
        is_digit(digit_char(d)),
        digit_char(d) as int == 48 + d,
{
    let ds = seq!['0', '1', '2', '3', '4', '5', '6', '7', '8', '9'];
    assert(ds[0] == '0' && ds[1] == '1' && ds[2] == '2' && ds[3] == '3' && ds[4] == '4');
    assert(ds[5] == '5' && ds[6] == '6' && ds[7] == '7' && ds[8] == '8' && ds[9] == '9');
}

/// The decimal form of `n` is one or more digits whose value is `n`.
pub proof fn lemma_decimal_digits(n: nat)
    ensures
        decimal(n).len() >= 1,
        all_digits(decimal(n)),
        digits_value(decimal(n)) == n,
    decreases n,
{
    if n < 10 {
        lemma_digit_char(n);
        let empty: Seq<char> = seq![];
        assert(decimal(n).drop_last() =~= empty);
        assert(digits_value(empty) == 0);
    } else {
        lemma_decimal_digits(n / 10);
        lemma_digit_char(n % 10);
        let d = decimal(n);
        assert(d.drop_last() =~= decimal(n / 10));
        assert(d.last() == digit_char(n % 10));
        assert(digits_value(d) == digits_value(decimal(n / 10)) * 10 + (n % 10));
        assert(n == (n / 10) * 10 + n % 10);
        assert forall|i: int| 0 <= i < d.len() implies is_digit(#[trigger] d[i]) by {
            if i < d.len() - 1 {
                assert(d[i] == decimal(n / 10)[i]);
            }
        }
    }
}

/// Reading the decimal form of `n <= u32::MAX` digit by digit gives `n`.
proof fn lemma_scan_decimal(n: nat)
    requires
        n <= u32::MAX,
    ensures
        scan_digits(decimal(n)) == Ok::<nat, IntError>(n),
    decreases n,
{
    let d = decimal(n);
    if n < 10 {
        lemma_digit_char(n);
        let empty: Seq<char> = seq![];
        assert(d.drop_last() =~= empty);
        assert(scan_digits(empty) == Ok::<nat, IntError>(0));
    } else {
        lemma_scan_decimal(n / 10);
        lemma_digit_char(n % 10);
        assert(d.drop_last() =~= decimal(n / 10));
        assert(d.last() == digit_char(n % 10));
        assert(n == (n / 10) * 10 + n % 10);
    }
}

/// What `decimal` writes, `parse_u32` reads back.
pub proof fn law_decimal_parses_back(n: u32)
    ensures
        parse_u32_result(decimal(n as nat)) == Ok::<u32, IntError>(n),
        parse_u32_spec(decimal(n as nat)) == Some(n),
{
    lemma_decimal_digits(n as nat);
    lemma_scan_decimal(n as nat);
    let d = decimal(n as nat);
    assert(is_digit(d[0]));
    assert(unsigned_part(d) == d);
}

/// No decimal form holds a `c` that is not a digit.
pub proof fn lemma_decimal_has_no(n: nat, c: char)
    requires
        !is_digit(c),
    ensures
        !decimal(n).contains(c),
{
    lemma_decimal_digits(n);
    let d = decimal(n);
    assert forall|i: int| 0 <= i < d.len() implies d[i] != c by {
        assert(is_digit(d[i]));
    }
}

/// Joining `a` in front of non-empty pieces puts `a` and the separator
/// before their join.
pub proof fn lemma_join_front(a: Seq<char>, ls: Seq<Seq<char>>, sep: Seq<char>)
    requires
        ls.len() > 0,
    ensures
        join(seq![a] + ls, sep) == a + sep + join(ls, sep),
    decreases ls.len(),
{
    let all = seq![a] + ls;
    if ls.len() == 1 {
        assert(all.drop_last() =~= seq![a]);
        assert(all.last() == ls[0]);
        assert(join(seq![a], sep) == a);
        assert(join(ls, sep) == ls[0]);
        assert(join(all, sep) == join(seq![a], sep) + sep + ls[0]);
    } else {
        assert(all.drop_last() =~= seq![a] + ls.drop_last());
        lemma_join_front(a, ls.drop_last(), sep);
        assert(all.last() == ls.last());
        assert(join(all, sep) == join(all.drop_last(), sep) + sep + all.last());
        assert(join(ls, sep) == join(ls.drop_last(), sep) + sep + ls.last());
        assert(join(all, sep) =~= a + sep + join(ls, sep));
    }
}

/// A text that ends with `\n` and holds no `\r` is its lines joined by
/// `\n`, with one more `\n`.
pub proof fn lemma_lines_rejoin(p: Seq<char>)
    requires
        p.len() > 0,
        p.last() == '\n',
        !p.contains('\r'),
    ensures
        join(lines(p), "\n"@) + "\n"@ == p,
    decreases p.len(),
{
    reveal_strlit("\n");
    let nl = CharClass::Exactly('\n');
    lemma_index_of_bounds(p, nl);
    let k = index_of(p, nl);
    if k >= p.len() {
        assert(!nl.has(p[p.len() - 1]));
    }
    if k > 0 {
        assert(p.contains(p[k - 1]));
    }
    let line = p.take(k as int);
    let rest = p.skip((k + 1) as int);
    assert(lines(p) == seq![line] + lines(rest));
    if rest.len() == 0 {
        let empty: Seq<char> = seq![];
        assert(lines(empty) =~= Seq::<Seq<char>>::empty());
        assert(lines(p) =~= seq![line]);
        assert(p =~= line + "\n"@);
    } else {
        assert(rest.last() == p.last());
        assert(!rest.contains('\r')) by {
            assert forall|i: int| 0 <= i < rest.len() implies rest[i] != '\r' by {
                assert(rest[i] == p[k + 1 + i]);
                assert(p.contains(p[k + 1 + i]));
            }
        }
        lemma_lines_rejoin(rest);
        assert(lines(rest).len() > 0);
        lemma_join_front(line, lines(rest), "\n"@);
        assert(p =~= line + "\n"@ + rest);
    }
}

} // verus!
