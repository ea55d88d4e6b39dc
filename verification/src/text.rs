//! Character-level text model: whitespace, trimming, line splitting.
//!
//! The INI format is line-oriented, so the parser's specification is built
//! from three pieces: a whitespace predicate, a trim function, and a
//! function that splits a character sequence at each `'\n'`.

use vstd::prelude::*;

verus! {

/// The characters that trimming removes: the Unicode `White_Space` set,
/// matching what `str::trim` removes.
pub open spec fn is_ws_char(c: char) -> bool {
    ||| c == ' '
    ||| c == '\t'
    ||| c == '\n'
    ||| c == '\r'
    ||| c == '\u{b}'
    ||| c == '\u{c}'
    ||| c == '\u{85}'
    ||| c == '\u{a0}'
    ||| c == '\u{1680}'
    ||| ('\u{2000}' <= c && c <= '\u{200a}')
    ||| c == '\u{2028}'
    ||| c == '\u{2029}'
    ||| c == '\u{202f}'
    ||| c == '\u{205f}'
    ||| c == '\u{3000}'
}

/// Runtime test for [`is_ws_char`].
pub fn is_ws(c: char) -> (r: bool)
    ensures
        r == is_ws_char(c),
{
    c == ' ' || c == '\t' || c == '\n' || c == '\r' || c == '\u{b}' || c == '\u{c}'
        || c == '\u{85}' || c == '\u{a0}' || c == '\u{1680}'
        || ('\u{2000}' <= c && c <= '\u{200a}') || c == '\u{2028}' || c == '\u{2029}'
        || c == '\u{202f}' || c == '\u{205f}' || c == '\u{3000}'
}

/// `s` without its leading whitespace.
pub open spec fn trim_front(s: Seq<char>) -> Seq<char>
    decreases s.len(),
{
    if s.len() > 0 && is_ws_char(s[0]) {
        trim_front(s.drop_first())
    } else {
        s
    }
}

/// `s` without its trailing whitespace.
pub open spec fn trim_back(s: Seq<char>) -> Seq<char>
    decreases s.len(),
{
    if s.len() > 0 && is_ws_char(s.last()) {
        trim_back(s.drop_last())
    } else {
        s
    }
}

/// `s` without leading and trailing whitespace, as `str::trim` produces it.
pub open spec fn spec_trim(s: Seq<char>) -> Seq<char> {
    trim_back(trim_front(s))
}

/// The index of the first occurrence of `c` in `s`, or `s.len()` if absent.
pub open spec fn first_in(s: Seq<char>, c: char) -> int
    decreases s.len(),
{
    if s.len() == 0 {
        0
    } else if s[0] == c {
        0
    } else {
        1 + first_in(s.drop_first(), c)
    }
}

/// The first occurrence is pinned by a pointwise description.
pub proof fn lemma_first_in_at(s: Seq<char>, c: char, j: int)
    requires
        0 <= j <= s.len(),
        forall|i: int| 0 <= i < j ==> s[i] != c,
        j < s.len() ==> s[j] == c,
    ensures
        first_in(s, c) == j,
    decreases s.len(),
{
    if s.len() > 0 && s[0] != c {
        lemma_first_in_at(s.drop_first(), c, j - 1);
    }
}

/// `s` split at every `'\n'`; splitting the empty sequence gives one empty
/// line, and a trailing `'\n'` contributes a final empty line.
pub open spec fn spec_lines(s: Seq<char>) -> Seq<Seq<char>>
    decreases s.len(),
{
    let j = first_in(s, '\n');
    if 0 <= j < s.len() {
        seq![s.subrange(0, j)] + spec_lines(s.subrange(j + 1, s.len() as int))
    } else {
        seq![s]
    }
}

/// A sequence without `'\n'` is a single line.
pub proof fn lemma_lines_no_nl(l: Seq<char>)
    requires
        forall|i: int| 0 <= i < l.len() ==> l[i] != '\n',
    ensures
        spec_lines(l) == seq![l],
{
    lemma_first_in_at(l, '\n', l.len() as int);
}

/// Peeling one `'\n'`-terminated line off the front of a sequence.
pub proof fn lemma_lines_of_line(l: Seq<char>, t: Seq<char>)
    requires
        forall|i: int| 0 <= i < l.len() ==> l[i] != '\n',
    ensures
        spec_lines(l + seq!['\n'] + t) == seq![l] + spec_lines(t),
{
    let s = l + seq!['\n'] + t;
    assert forall|i: int| 0 <= i < l.len() implies s[i] != '\n' by {
        assert(s[i] == l[i]);
    }
    assert(s[l.len() as int] == '\n');
    lemma_first_in_at(s, '\n', l.len() as int);
    assert(s.subrange(0, l.len() as int) =~= l);
    assert(s.subrange(l.len() as int + 1, s.len() as int) =~= t);
}

/// A prefix free of whitespace-trimmable ends: trimming `s` yields exactly
/// `s.subrange(a, b)` when everything outside `[a, b)` is whitespace and the
/// boundary characters are not.
pub proof fn lemma_trim_front_at(s: Seq<char>, a: int)
    requires
        0 <= a <= s.len(),
        forall|i: int| 0 <= i < a ==> is_ws_char(s[i]),
        a < s.len() ==> !is_ws_char(s[a]),
    ensures
        trim_front(s) == s.subrange(a, s.len() as int),
    decreases s.len(),
{
    if s.len() > 0 && is_ws_char(s[0]) {
        lemma_trim_front_at(s.drop_first(), a - 1);
        assert(s.drop_first().subrange(a - 1, s.drop_first().len() as int) =~= s.subrange(
            a,
            s.len() as int,
        ));
    } else {
        assert(s.subrange(0, s.len() as int) =~= s);
    }
}

pub proof fn lemma_trim_back_at(s: Seq<char>, b: int)
    requires
        0 <= b <= s.len(),
        forall|i: int| b <= i < s.len() ==> is_ws_char(s[i]),
        b > 0 ==> !is_ws_char(s[b - 1]),
    ensures
        trim_back(s) == s.subrange(0, b),
    decreases s.len(),
{
    if s.len() > 0 && is_ws_char(s.last()) {
        lemma_trim_back_at(s.drop_last(), b);
        assert(s.drop_last().subrange(0, b) =~= s.subrange(0, b));
    } else {
        assert(s.subrange(0, s.len() as int) =~= s);
    }
}

/// Trimming `s` keeps exactly the window `[a, b)` when all characters before
/// `a` and from `b` on are whitespace and the window's ends are not.
pub proof fn lemma_trim_window(s: Seq<char>, a: int, b: int)
    requires
        0 <= a <= b <= s.len(),
        forall|i: int| 0 <= i < a ==> is_ws_char(s[i]),
        forall|i: int| b <= i < s.len() ==> is_ws_char(s[i]),
        a < b ==> !is_ws_char(s[a]) && !is_ws_char(s[b - 1]),
        a == b ==> a == s.len(),
    ensures
        spec_trim(s) == s.subrange(a, b),
{
    if a == b {
        lemma_trim_front_at(s, a);
        assert(trim_front(s) =~= Seq::<char>::empty());
        assert(s.subrange(a, b) =~= Seq::<char>::empty());
    } else {
        lemma_trim_front_at(s, a);
        let u = s.subrange(a, s.len() as int);
        lemma_trim_back_at(u, b - a);
        assert(u.subrange(0, b - a) =~= s.subrange(a, b));
    }
}

/// A sequence equal to its own trim is left alone by either one-sided trim.
pub proof fn lemma_trimmed_fixpoint(s: Seq<char>)
    requires
        spec_trim(s) == s,
    ensures
        trim_front(s) == s,
        trim_back(s) == s,
        s.len() > 0 ==> !is_ws_char(s[0]) && !is_ws_char(s.last()),
{
    lemma_trim_front_len(s);
    lemma_trim_back_len(trim_front(s));
    if s.len() > 0 {
        if is_ws_char(s[0]) {
            lemma_trim_front_len(s.drop_first());
            lemma_trim_back_len(trim_front(s.drop_first()));
            assert(spec_trim(s).len() < s.len());
        }
        assert(trim_front(s) == s);
        if is_ws_char(s.last()) {
            lemma_trim_back_len(s.drop_last());
            assert(spec_trim(s).len() < s.len());
        }
    }
}

pub proof fn lemma_trim_front_len(s: Seq<char>)
    ensures
        trim_front(s).len() <= s.len(),
    decreases s.len(),
{
    if s.len() > 0 && is_ws_char(s[0]) {
        lemma_trim_front_len(s.drop_first());
    }
}

pub proof fn lemma_trim_back_len(s: Seq<char>)
    ensures
        trim_back(s).len() <= s.len(),
    decreases s.len(),
{
    if s.len() > 0 && is_ws_char(s.last()) {
        lemma_trim_back_len(s.drop_last());
    }
}

/// The characters of `s`, in order, as a vector.
pub fn str_to_chars(s: &str) -> (r: Vec<char>)
    ensures
        r@ == s@,
{
    let n: usize = s.unicode_len();
    let mut r: Vec<char> = Vec::new();
    let mut i: usize = 0;
    while i < n
        invariant
            i <= n,
            n == s@.len(),
            r@ == s@.subrange(0, i as int),
        decreases n - i,
    {
        r.push(s.get_char(i));
        assert(r@ =~= s@.subrange(0, i + 1 as int));
        i = i + 1;
    }
    assert(r@ =~= s@);
    r
}

/// Exact equality of two string slices, decided character by character.
pub fn str_eq(a: &str, b: &str) -> (r: bool)
    ensures
        r == (a@ == b@),
{
    let n: usize = a.unicode_len();
    let m: usize = b.unicode_len();
    if n != m {
        return false;
    }
    let mut i: usize = 0;
    while i < n
        invariant
            i <= n,
            n == a@.len(),
            n == b@.len(),
            forall|j: int| 0 <= j < i ==> a@[j] == b@[j],
        decreases n - i,
    {
        if a.get_char(i) != b.get_char(i) {
            return false;
        }
        i = i + 1;
    }
    assert(a@ =~= b@);
    true
}

/// The first position of `c` in `cs[from..to]`, or `to` if absent.
pub fn find_char(cs: &Vec<char>, from: usize, to: usize, c: char) -> (r: usize)
    requires
        from <= to <= cs@.len(),
    ensures
        from <= r <= to,
        forall|i: int| from <= i < r ==> cs@[i] != c,
        r < to ==> cs@[r as int] == c,
{
    let mut i: usize = from;
    while i < to
        invariant
            from <= i <= to <= cs@.len(),
            forall|j: int| from <= j < i ==> cs@[j] != c,
        decreases to - i,
    {
        if cs[i] == c {
            return i;
        }
        i = i + 1;
    }
    i
}

/// The window of `cs[lo..hi]` that trimming keeps: whitespace outside it,
/// non-whitespace (or nothing) at its ends.
pub fn trim_bounds(cs: &Vec<char>, lo: usize, hi: usize) -> (r: (usize, usize))
    requires
        lo <= hi <= cs@.len(),
    ensures
        lo <= r.0 <= r.1 <= hi,
        spec_trim(cs@.subrange(lo as int, hi as int)) == cs@.subrange(r.0 as int, r.1 as int),
{
    let mut a: usize = lo;
    while a < hi && is_ws(cs[a])
        invariant
            lo <= a <= hi <= cs@.len(),
            forall|i: int| lo <= i < a ==> is_ws_char(cs@[i]),
        decreases hi - a,
    {
        a = a + 1;
    }
    if a == hi {
        proof {
            let s = cs@.subrange(lo as int, hi as int);
            lemma_trim_window(s, s.len() as int, s.len() as int);
            assert(cs@.subrange(a as int, hi as int) =~= s.subrange(s.len() as int, s.len() as int));
        }
        return (a, hi);
    }
    let mut b: usize = hi;
    while b > a && is_ws(cs[b - 1])
        invariant
            lo <= a < hi <= cs@.len(),
            a <= b <= hi,
            forall|i: int| b <= i < hi ==> is_ws_char(cs@[i]),
        decreases b,
    {
        b = b - 1;
    }
    proof {
        let s = cs@.subrange(lo as int, hi as int);
        assert(!is_ws_char(cs@[a as int]));
        assert(b > a) by {
            if b == a {
                assert(is_ws_char(cs@[a as int]));
            }
        }
        assert(!is_ws_char(cs@[b - 1]));
        lemma_trim_window(s, a - lo, b - lo);
        assert(s.subrange(a - lo, b - lo) =~= cs@.subrange(a as int, b as int));
    }
    (a, b)
}

} // verus!
