//! The line-oriented INI parser.
//!
//! The text is split at each `'\n'`; every line is trimmed and is then a
//! comment or blank line (skipped), a `[name]` section header, or a
//! `key=value` pair split at the first `'='`.  The whole process is the
//! spec function [`spec_parse`], a fold of [`run_lines`] over the lines;
//! [`IniDocument::from_string`] computes exactly that.

use vstd::prelude::*;

use crate::document::{doc_insert, IniDocument};
use crate::text::{
    find_char, first_in, lemma_first_in_at, lemma_lines_no_nl, lemma_lines_of_line, spec_lines,
    spec_trim, str_to_chars, trim_bounds,
};

verus! {

/// The abstract document: section name -> (key -> value).
pub type DocMap = Map<Seq<char>, Map<Seq<char>, Seq<char>>>;

/// The parse errors, at the specification level.  Each carries the 1-based
/// number of the offending line; a missing `'='` also carries the full
/// original line text, before trimming.
pub ghost enum ErrView {
    MissingEquals(Seq<char>, int),
    EmptyStringSection(int),
}

/// The error returned when parsing fails: a key/value line without `'='`,
/// or a section header whose bracketed name is the empty string.  Each
/// variant carries the 1-based line number of the offending line.
#[derive(Debug, PartialEq)]
pub enum InnitError {
    /// A non-comment, non-header line with no `'='`; carries the full
    /// original line text and the line number.
    MissingEquals(String, usize),
    /// A `[]` header; carries the line number.
    EmptyStringSection(usize),
}

impl View for InnitError {
    type V = ErrView;

    open spec fn view(&self) -> ErrView {
        match self {
            InnitError::MissingEquals(s, n) => ErrView::MissingEquals(s@, *n as int),
            InnitError::EmptyStringSection(n) => ErrView::EmptyStringSection(*n as int),
        }
    }
}

/// A trimmed line that contributes nothing: blank, or a `#` or `;` comment.
pub open spec fn is_skip_line(t: Seq<char>) -> bool {
    t.len() == 0 || t[0] == '#' || t[0] == ';'
}

/// A trimmed line that is a section header: starts with `'['`, ends with
/// `']'`.
pub open spec fn is_header_line(t: Seq<char>) -> bool {
    t.len() > 0 && t[0] == '[' && t[t.len() - 1] == ']'
}

/// One step per line: the parser state is the current section name and the
/// document built so far; a bad line stops everything with an error.
pub open spec fn run_lines(
    lines: Seq<Seq<char>>,
    lnum: int,
    cur: Seq<char>,
    acc: DocMap,
) -> Result<(Seq<char>, DocMap), ErrView>
    decreases lines.len(),
{
    if lines.len() == 0 {
        Ok((cur, acc))
    } else {
        let t = spec_trim(lines[0]);
        if is_skip_line(t) {
            run_lines(lines.drop_first(), lnum + 1, cur, acc)
        } else if is_header_line(t) {
            if t.len() == 2 {
                Err(ErrView::EmptyStringSection(lnum))
            } else {
                run_lines(lines.drop_first(), lnum + 1, t.subrange(1, t.len() - 1), acc)
            }
        } else if first_in(t, '=') < t.len() {
            let e = first_in(t, '=');
            run_lines(
                lines.drop_first(),
                lnum + 1,
                cur,
                doc_insert(
                    acc,
                    cur,
                    spec_trim(t.subrange(0, e)),
                    spec_trim(t.subrange(e + 1, t.len() as int)),
                ),
            )
        } else {
            Err(ErrView::MissingEquals(lines[0], lnum))
        }
    }
}

/// What parsing a whole text yields: the document of its lines, starting in
/// the unnamed section, or the first error.
pub open spec fn spec_parse(s: Seq<char>) -> Result<DocMap, ErrView> {
    match run_lines(spec_lines(s), 1, Seq::empty(), Map::empty()) {
        Ok(st) => Ok(st.1),
        Err(e) => Err(e),
    }
}

/// Runtime test of [`is_skip_line`] on the window `cs[a..b]`.
fn string_is_comment_or_empty(cs: &Vec<char>, a: usize, b: usize) -> (r: bool)
    requires
        a <= b <= cs@.len(),
    ensures
        r == is_skip_line(cs@.subrange(a as int, b as int)),
{
    a == b || cs[a] == '#' || cs[a] == ';'
}

/// Runtime test of [`is_header_line`] on the window `cs[a..b]`.
fn string_is_section_start(cs: &Vec<char>, a: usize, b: usize) -> (r: bool)
    requires
        a <= b <= cs@.len(),
    ensures
        r == is_header_line(cs@.subrange(a as int, b as int)),
{
    a < b && cs[a] == '[' && cs[b - 1] == ']'
}

impl IniDocument {
    /// Parse a document from text.  Comments and blank lines are skipped;
    /// key/value lines before any header fall into the unnamed section.
    /// The result is exactly what [`spec_parse`] describes: the parsed
    /// document on success, and on the first bad line the matching error.
    pub fn from_string(s: &str) -> (r: Result<IniDocument, InnitError>)
        requires
            s@.len() < usize::MAX,
        ensures
            match r {
                Ok(doc) => doc.inv() && spec_parse(s@) == Ok::<DocMap, ErrView>(doc@),
                Err(e) => spec_parse(s@) == Err::<DocMap, ErrView>(e@),
            },
    {
        let cs = str_to_chars(s);
        let n: usize = cs.len();
        let mut doc = IniDocument::empty();
        let mut cur: String = String::new();
        let mut lnum: usize = 1;
        let mut pos: usize = 0;
        proof {
            assert(s@.subrange(0, n as int) =~= s@);
        }
        loop
            invariant
                cs@ == s@,
                n == s@.len() < usize::MAX,
                pos <= n,
                lnum <= pos + 1,
                doc.inv(),
                spec_parse(s@) == (match run_lines(
                    spec_lines(s@.subrange(pos as int, n as int)),
                    lnum as int,
                    cur@,
                    doc@,
                ) {
                    Ok(st) => Ok::<DocMap, ErrView>(st.1),
                    Err(e) => Err::<DocMap, ErrView>(e),
                }),
            decreases n - pos,
        {
            let ghost cur0 = cur@;
            let ghost doc0 = doc@;
            let ghost lnum0 = lnum as int;
            let end = find_char(&cs, pos, n, '\n');
            let ghost rem = s@.subrange(pos as int, n as int);
            let ghost line = s@.subrange(pos as int, end as int);
            let ghost rest = if end < n {
                s@.subrange(end as int + 1, n as int)
            } else {
                Seq::<char>::empty()
            };
            proof {
                assert forall|i: int| 0 <= i < line.len() implies line[i] != '\n' by {
                    assert(line[i] == cs@[pos + i]);
                }
                if end < n {
                    assert(rem =~= line + seq!['\n'] + rest);
                    lemma_lines_of_line(line, rest);
                    assert(spec_lines(rem)[0] == line);
                    assert(spec_lines(rem).drop_first() =~= spec_lines(rest));
                } else {
                    assert(rem =~= line);
                    lemma_lines_no_nl(line);
                    assert(spec_lines(rem)[0] == line);
                    assert(spec_lines(rem).drop_first() =~= Seq::<Seq<char>>::empty());
                }
            }
            let (a, b) = trim_bounds(&cs, pos, end);
            let ghost t = spec_trim(line);
            proof {
                assert(t == cs@.subrange(a as int, b as int));
            }
            if string_is_comment_or_empty(&cs, a, b) {
                // nothing to do: the line is skipped
            } else if string_is_section_start(&cs, a, b) {
                if b - a == 2 {
                    proof {
                        assert(t.len() == 2);
                        assert(run_lines(spec_lines(rem), lnum0, cur0, doc0) == Err::<
                            (Seq<char>, DocMap),
                            ErrView,
                        >(ErrView::EmptyStringSection(lnum0)));
                    }
                    return Err(InnitError::EmptyStringSection(lnum));
                }
                cur = s.substring_char(a + 1, b - 1).to_owned();
                proof {
                    assert(cur@ =~= t.subrange(1, t.len() - 1));
                }
            } else {
                let eq = find_char(&cs, a, b, '=');
                proof {
                    assert forall|i: int| 0 <= i < (eq - a) implies t[i] != '=' by {
                        assert(t[i] == cs@[a + i]);
                    }
                    if eq < b {
                        assert(t[eq - a] == cs@[eq as int]);
                    }
                    lemma_first_in_at(t, '=', eq - a);
                }
                if eq == b {
                    proof {
                        assert(first_in(t, '=') == t.len());
                        assert(run_lines(spec_lines(rem), lnum0, cur0, doc0) == Err::<
                            (Seq<char>, DocMap),
                            ErrView,
                        >(ErrView::MissingEquals(line, lnum0)));
                    }
                    return Err(
                        InnitError::MissingEquals(s.substring_char(pos, end).to_owned(), lnum),
                    );
                }
                let (ka, kb) = trim_bounds(&cs, a, eq);
                let (va, vb) = trim_bounds(&cs, eq + 1, b);
                proof {
                    assert(cs@.subrange(a as int, eq as int) =~= t.subrange(0, eq - a));
                    assert(cs@.subrange(eq as int + 1, b as int) =~= t.subrange(
                        eq - a + 1,
                        t.len() as int,
                    ));
                }
                let key = s.substring_char(ka, kb);
                let value = s.substring_char(va, vb);
                doc.insert(key, value, cur.as_str());
                proof {
                    assert(key@ == spec_trim(t.subrange(0, eq - a)));
                    assert(value@ == spec_trim(t.subrange(eq - a + 1, t.len() as int)));
                }
            }
            proof {
                assert(run_lines(spec_lines(rem), lnum0, cur0, doc0) == run_lines(
                    spec_lines(rem).drop_first(),
                    lnum0 + 1,
                    cur@,
                    doc@,
                ));
            }
            if end == n {
                proof {
                    assert(spec_lines(rem).drop_first() =~= Seq::<Seq<char>>::empty());
                    assert(run_lines(Seq::<Seq<char>>::empty(), lnum0 + 1, cur@, doc@) == Ok::<
                        (Seq<char>, DocMap),
                        ErrView,
                    >((cur@, doc@)));
                }
                return Ok(doc);
            }
            pos = end + 1;
            lnum = lnum + 1;
        }
    }
}

} // verus!
