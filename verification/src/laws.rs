//! The library's general laws, stated and proved once and for all.
//!
//! Each public proof function here states a property of the spec functions
//! that the executable functions' contracts are written in, so the law
//! carries over to any run of those functions.

use vstd::prelude::*;

use crate::casefold::{ci_has_pair, lower_of};
use crate::document::{
    doc_insert, doc_map, has_name, lemma_doc_map_char, lemma_pairs_map_char, pairs_map, pm_from,
    secs_wf, IniDocument, Pair, Section,
};
use crate::parse::{is_header_line, is_skip_line, run_lines, spec_parse, DocMap, ErrView};
use crate::serialize::{default_pairs, fmt_pairs, fmt_sections, header_line, kv_line};
use crate::text::{
    first_in, is_ws_char, lemma_first_in_at, lemma_lines_of_line, lemma_trim_window,
    lemma_trimmed_fixpoint, spec_lines, spec_trim,
};

verus! {

/// No line terminator among the characters.
pub open spec fn nl_free(s: Seq<char>) -> bool {
    forall|i: int| 0 <= i < s.len() ==> s[i] != '\n'
}

/// A key that survives the round trip as itself: no line terminator, no
/// `'='`, equal to its own trim, and not opening a comment.
pub open spec fn key_safe(k: Seq<char>) -> bool {
    &&& forall|i: int| 0 <= i < k.len() ==> k[i] != '\n' && k[i] != '='
    &&& spec_trim(k) == k
    &&& k.len() > 0 ==> k[0] != '#' && k[0] != ';'
}

/// A value that survives the round trip as itself: no line terminator and
/// equal to its own trim.
pub open spec fn value_safe(v: Seq<char>) -> bool {
    &&& nl_free(v)
    &&& spec_trim(v) == v
}

/// A key/value entry whose emitted line parses back to the same entry; the
/// last clause keeps the line from looking like a section header.
pub open spec fn entry_safe(k: Seq<char>, v: Seq<char>) -> bool {
    &&& key_safe(k)
    &&& value_safe(v)
    &&& !(k.len() > 0 && k[0] == '[' && v.len() > 0 && v[v.len() - 1] == ']')
}

/// A document whose serialization parses back to the same document: names
/// without line terminators, no section left empty (an empty section emits
/// a bare header, and parsing records no section for it), and every entry
/// safe.
pub open spec fn round_trip_safe(m: DocMap) -> bool {
    &&& forall|s: Seq<char>|
        #[trigger] m.dom().contains(s) ==> nl_free(s) && !(m[s].dom() =~= Set::<Seq<char>>::empty())
    &&& forall|s: Seq<char>, k: Seq<char>|
        #[trigger] m.dom().contains(s) && #[trigger] m[s].dom().contains(k) ==> entry_safe(
            k,
            m[s][k],
        )
}

/// The emitted key/value line, without its terminator.
pub open spec fn kv_body(k: Seq<char>, v: Seq<char>) -> Seq<char> {
    k + seq![' ', '=', ' '] + v
}

/// The emitted header line, without its terminator.
pub open spec fn header_body(n: Seq<char>) -> Seq<char> {
    seq!['['] + n + seq![']']
}

/// The logical lines that a sequence of pairs emits.
pub open spec fn kv_bodies(ps: Seq<Pair>) -> Seq<Seq<char>>
    decreases ps.len(),
{
    if ps.len() == 0 {
        Seq::empty()
    } else {
        seq![kv_body(ps[0].key@, ps[0].value@)] + kv_bodies(ps.drop_first())
    }
}

/// The logical lines that the named sections emit.
pub(crate) open spec fn sec_lines(ss: Seq<Section>) -> Seq<Seq<char>>
    decreases ss.len(),
{
    if ss.len() == 0 {
        Seq::empty()
    } else if ss[0].name@ == Seq::<char>::empty() {
        sec_lines(ss.drop_first())
    } else {
        seq![header_body(ss[0].name@)] + kv_bodies(ss[0].pairs@) + sec_lines(ss.drop_first())
    }
}

/// Splitting the pairs' emitted text at `'\n'` gives exactly their logical
/// lines, followed by the lines of whatever text comes after.
proof fn lemma_lines_fmt_pairs(ps: Seq<Pair>, t: Seq<char>)
    requires
        forall|i: int|
            0 <= i < ps.len() ==> nl_free((#[trigger] ps[i]).key@) && nl_free(ps[i].value@),
    ensures
        spec_lines(fmt_pairs(ps) + t) == kv_bodies(ps) + spec_lines(t),
    decreases ps.len(),
{
    if ps.len() == 0 {
        assert(fmt_pairs(ps) + t =~= t);
        assert(kv_bodies(ps) + spec_lines(t) =~= spec_lines(t));
    } else {
        let body = kv_body(ps[0].key@, ps[0].value@);
        let rest = fmt_pairs(ps.drop_first()) + t;
        assert(fmt_pairs(ps) + t =~= body + seq!['\n'] + rest) by {
            assert(fmt_pairs(ps) == kv_line(ps[0].key@, ps[0].value@) + fmt_pairs(
                ps.drop_first(),
            ));
        }
        assert forall|i: int| 0 <= i < body.len() implies body[i] != '\n' by {
            assert(nl_free(ps[0].key@) && nl_free(ps[0].value@));
            if i < ps[0].key@.len() {
                assert(body[i] == ps[0].key@[i]);
            } else if i >= ps[0].key@.len() + 3 {
                assert(body[i] == ps[0].value@[i - ps[0].key@.len() - 3]);
            }
        }
        lemma_lines_of_line(body, rest);
        lemma_lines_fmt_pairs(ps.drop_first(), t);
        assert(spec_lines(fmt_pairs(ps) + t) =~= kv_bodies(ps) + spec_lines(t));
    }
}

/// Splitting the named sections' emitted text at `'\n'` gives exactly
/// their logical lines, followed by the lines of what comes after.
proof fn lemma_lines_fmt_sections(ss: Seq<Section>, t: Seq<char>)
    requires
        forall|i: int|
            0 <= i < ss.len() ==> nl_free((#[trigger] ss[i]).name@) && (forall|j: int|
                0 <= j < ss[i].pairs@.len() ==> nl_free((#[trigger] ss[i].pairs@[j]).key@)
                    && nl_free(ss[i].pairs@[j].value@)),
    ensures
        spec_lines(fmt_sections(ss) + t) == sec_lines(ss) + spec_lines(t),
    decreases ss.len(),
{
    if ss.len() == 0 {
        assert(fmt_sections(ss) + t =~= t);
        assert(sec_lines(ss) + spec_lines(t) =~= spec_lines(t));
    } else {
        assert(forall|i: int| 0 <= i < ss.drop_first().len() ==> ss.drop_first()[i] == ss[i + 1]);
        if ss[0].name@ == Seq::<char>::empty() {
            assert(fmt_sections(ss) == fmt_sections(ss.drop_first()));
            lemma_lines_fmt_sections(ss.drop_first(), t);
            assert(sec_lines(ss) == sec_lines(ss.drop_first()));
        } else {
            let hb = header_body(ss[0].name@);
            let rest = fmt_pairs(ss[0].pairs@) + (fmt_sections(ss.drop_first()) + t);
            assert(fmt_sections(ss) + t =~= hb + seq!['\n'] + rest) by {
                assert(fmt_sections(ss) == header_line(ss[0].name@) + fmt_pairs(ss[0].pairs@)
                    + fmt_sections(ss.drop_first()));
            }
            assert forall|i: int| 0 <= i < hb.len() implies hb[i] != '\n' by {
                assert(nl_free(ss[0].name@));
                if 1 <= i < hb.len() - 1 {
                    assert(hb[i] == ss[0].name@[i - 1]);
                }
            }
            lemma_lines_of_line(hb, rest);
            lemma_lines_fmt_pairs(ss[0].pairs@, fmt_sections(ss.drop_first()) + t);
            lemma_lines_fmt_sections(ss.drop_first(), t);
            assert(spec_lines(fmt_sections(ss) + t) =~= sec_lines(ss) + spec_lines(t));
        }
    }
}

/// A safe entry's emitted line parses back to exactly that entry: the
/// trimmed line is neither skippable nor a header, its first `'='` is the
/// emitted one, and trimming the two sides gives the key and the value.
proof fn lemma_parse_kv_body(k: Seq<char>, v: Seq<char>)
    requires
        entry_safe(k, v),
    ensures
        ({
            let t = spec_trim(kv_body(k, v));
            let e = first_in(t, '=');
            &&& !is_skip_line(t)
            &&& !is_header_line(t)
            &&& e < t.len()
            &&& spec_trim(t.subrange(0, e)) == k
            &&& spec_trim(t.subrange(e + 1, t.len() as int)) == v
        }),
{
    let body = kv_body(k, v);
    let kl = k.len() as int;
    let vl = v.len() as int;
    let len = body.len() as int;
    assert(len == kl + 3 + vl);
    assert(forall|i: int| 0 <= i < kl ==> body[i] == k[i]);
    assert(body[kl] == ' ' && body[kl + 1] == '=' && body[kl + 2] == ' ');
    assert(forall|i: int| kl + 3 <= i < len ==> body[i] == v[i - kl - 3]);
    lemma_trimmed_fixpoint(k);
    lemma_trimmed_fixpoint(v);
    let a: int = if kl > 0 {
        0
    } else {
        1
    };
    let b: int = if vl > 0 {
        len
    } else {
        len - 1
    };
    lemma_trim_window(body, a, b);
    let t = spec_trim(body);
    assert(t == body.subrange(a, b));
    assert(t.len() == b - a);
    assert(forall|i: int| 0 <= i < b - a ==> t[i] == body[a + i]);
    let e = kl + 1 - a;
    assert forall|i: int| 0 <= i < e implies t[i] != '=' by {
        if a + i < kl {
            assert(t[i] == k[a + i]);
        } else {
            assert(t[i] == body[kl]);
        }
    }
    assert(t[e] == body[kl + 1]);
    lemma_first_in_at(t, '=', e);
    // not a comment or blank line
    assert(t.len() > 0);
    if kl > 0 {
        assert(t[0] == k[0]);
    } else {
        assert(t[0] == '=');
    }
    assert(!is_skip_line(t));
    // not a header line
    if vl > 0 {
        assert(t[t.len() - 1] == v[vl - 1]);
    } else {
        assert(t[t.len() - 1] == '=');
    }
    assert(!is_header_line(t));
    // the part before the '=' trims to the key
    if kl > 0 {
        let kp = t.subrange(0, e);
        assert(kp =~= k + seq![' ']);
        lemma_trim_window(kp, 0, kl);
        assert(kp.subrange(0, kl) =~= k);
    } else {
        assert(t.subrange(0, 0) =~= Seq::<char>::empty());
        assert(spec_trim(Seq::<char>::empty()) == Seq::<char>::empty());
    }
    // the part after the '=' trims to the value
    if vl > 0 {
        let vp = t.subrange(e + 1, t.len() as int);
        assert(vp =~= seq![' '] + v);
        lemma_trim_window(vp, 1, vp.len() as int);
        assert(vp.subrange(1, vp.len() as int) =~= v);
    } else {
        assert(t.subrange(e + 1, t.len() as int) =~= Seq::<char>::empty());
        assert(spec_trim(Seq::<char>::empty()) == Seq::<char>::empty());
    }
}

/// A named section's emitted header parses back as a header for exactly
/// that name.
proof fn lemma_parse_header_body(n: Seq<char>)
    requires
        n.len() > 0,
    ensures
        ({
            let hb = header_body(n);
            &&& spec_trim(hb) == hb
            &&& is_header_line(hb)
            &&& !is_skip_line(hb)
            &&& hb.len() != 2
            &&& hb.subrange(1, hb.len() - 1) == n
        }),
{
    let hb = header_body(n);
    assert(hb[0] == '[' && hb[hb.len() - 1] == ']');
    assert(!is_ws_char('[') && !is_ws_char(']'));
    lemma_trim_window(hb, 0, hb.len() as int);
    assert(spec_trim(hb) == hb.subrange(0, hb.len() as int));
    assert(hb.subrange(0, hb.len() as int) =~= hb);
    assert(hb.subrange(1, hb.len() - 1) =~= n);
}

/// Running the parser over `a + b` is running it over `a`, then over `b`
/// from the state `a` left behind; an error in `a` stops everything.
pub proof fn lemma_run_lines_concat(
    a: Seq<Seq<char>>,
    b: Seq<Seq<char>>,
    lnum: int,
    cur: Seq<char>,
    acc: DocMap,
)
    ensures
        run_lines(a + b, lnum, cur, acc) == (match run_lines(a, lnum, cur, acc) {
            Ok(st) => run_lines(b, lnum + a.len(), st.0, st.1),
            Err(e) => Err::<(Seq<char>, DocMap), ErrView>(e),
        }),
    decreases a.len(),
{
    if a.len() == 0 {
        assert(a + b =~= b);
    } else {
        assert((a + b)[0] == a[0]);
        assert((a + b).drop_first() =~= a.drop_first() + b);
        let t = spec_trim(a[0]);
        if is_skip_line(t) {
            lemma_run_lines_concat(a.drop_first(), b, lnum + 1, cur, acc);
        } else if crate::parse::is_header_line(t) {
            if t.len() != 2 {
                lemma_run_lines_concat(
                    a.drop_first(),
                    b,
                    lnum + 1,
                    t.subrange(1, t.len() - 1),
                    acc,
                );
            }
        } else if crate::text::first_in(t, '=') < t.len() {
            let e = crate::text::first_in(t, '=');
            lemma_run_lines_concat(
                a.drop_first(),
                b,
                lnum + 1,
                cur,
                doc_insert(
                    acc,
                    cur,
                    spec_trim(t.subrange(0, e)),
                    spec_trim(t.subrange(e + 1, t.len() as int)),
                ),
            );
        }
    }
}

/// The starting line number decides only which number an error carries:
/// whether the run succeeds, and with what state, does not depend on it.
pub proof fn lemma_run_lines_lnum(
    lines: Seq<Seq<char>>,
    n1: int,
    n2: int,
    cur: Seq<char>,
    acc: DocMap,
)
    ensures
        run_lines(lines, n1, cur, acc) is Ok <==> run_lines(lines, n2, cur, acc) is Ok,
        run_lines(lines, n1, cur, acc) is Ok ==> run_lines(lines, n1, cur, acc) == run_lines(
            lines,
            n2,
            cur,
            acc,
        ),
    decreases lines.len(),
{
    if lines.len() > 0 {
        let t = spec_trim(lines[0]);
        if is_skip_line(t) {
            lemma_run_lines_lnum(lines.drop_first(), n1 + 1, n2 + 1, cur, acc);
        } else if crate::parse::is_header_line(t) {
            if t.len() != 2 {
                lemma_run_lines_lnum(
                    lines.drop_first(),
                    n1 + 1,
                    n2 + 1,
                    t.subrange(1, t.len() - 1),
                    acc,
                );
            }
        } else if crate::text::first_in(t, '=') < t.len() {
            let e = crate::text::first_in(t, '=');
            lemma_run_lines_lnum(
                lines.drop_first(),
                n1 + 1,
                n2 + 1,
                cur,
                doc_insert(
                    acc,
                    cur,
                    spec_trim(t.subrange(0, e)),
                    spec_trim(t.subrange(e + 1, t.len() as int)),
                ),
            );
        }
    }
}

/// Comment and blank lines contribute nothing, wherever they stand: with a
/// skippable line taken out, the run succeeds exactly as before and builds
/// the same state.  (Line numbers inside an error may shift; that is all.)
pub proof fn lemma_skip_line_contributes_nothing(
    before: Seq<Seq<char>>,
    skippable: Seq<char>,
    after: Seq<Seq<char>>,
    lnum: int,
    cur: Seq<char>,
    acc: DocMap,
)
    requires
        is_skip_line(spec_trim(skippable)),
    ensures
        run_lines(before + seq![skippable] + after, lnum, cur, acc) is Ok <==> run_lines(
            before + after,
            lnum,
            cur,
            acc,
        ) is Ok,
        run_lines(before + seq![skippable] + after, lnum, cur, acc) is Ok ==> run_lines(
            before + seq![skippable] + after,
            lnum,
            cur,
            acc,
        ) == run_lines(before + after, lnum, cur, acc),
{
    assert(before + seq![skippable] + after =~= before + (seq![skippable] + after));
    lemma_run_lines_concat(before, seq![skippable] + after, lnum, cur, acc);
    lemma_run_lines_concat(before, after, lnum, cur, acc);
    match run_lines(before, lnum, cur, acc) {
        Ok(st) => {
            let m = lnum + before.len();
            assert((seq![skippable] + after)[0] == skippable);
            assert((seq![skippable] + after).drop_first() =~= after);
            assert(run_lines(seq![skippable] + after, m, st.0, st.1) == run_lines(
                after,
                m + 1,
                st.0,
                st.1,
            ));
            lemma_run_lines_lnum(after, m + 1, m, st.0, st.1);
        },
        Err(_) => {},
    }
}

/// The document states reached while parsing emitted key/value lines.
pub open spec fn insert_all(acc: DocMap, cur: Seq<char>, ps: Seq<Pair>) -> DocMap
    decreases ps.len(),
{
    if ps.len() == 0 {
        acc
    } else {
        insert_all(doc_insert(acc, cur, ps[0].key@, ps[0].value@), cur, ps.drop_first())
    }
}

proof fn lemma_run_kv_bodies(ps: Seq<Pair>, lnum: int, cur: Seq<char>, acc: DocMap)
    requires
        forall|i: int|
            0 <= i < ps.len() ==> entry_safe((#[trigger] ps[i]).key@, ps[i].value@),
    ensures
        run_lines(kv_bodies(ps), lnum, cur, acc) == Ok::<(Seq<char>, DocMap), ErrView>(
            (cur, insert_all(acc, cur, ps)),
        ),
    decreases ps.len(),
{
    if ps.len() == 0 {
        assert(kv_bodies(ps) =~= Seq::<Seq<char>>::empty());
    } else {
        let body = kv_body(ps[0].key@, ps[0].value@);
        lemma_parse_kv_body(ps[0].key@, ps[0].value@);
        assert(kv_bodies(ps)[0] == body);
        assert(kv_bodies(ps).drop_first() =~= kv_bodies(ps.drop_first()));
        assert(forall|i: int| 0 <= i < ps.drop_first().len() ==> ps.drop_first()[i] == ps[i + 1]);
        lemma_run_kv_bodies(
            ps.drop_first(),
            lnum + 1,
            cur,
            doc_insert(acc, cur, ps[0].key@, ps[0].value@),
        );
        let t = spec_trim(body);
        let e = first_in(t, '=');
        assert(run_lines(kv_bodies(ps), lnum, cur, acc) == run_lines(
            kv_bodies(ps).drop_first(),
            lnum + 1,
            cur,
            doc_insert(
                acc,
                cur,
                spec_trim(t.subrange(0, e)),
                spec_trim(t.subrange(e + 1, t.len() as int)),
            ),
        ));
    }
}

proof fn lemma_insert_all_in(acc: DocMap, cur: Seq<char>, ps: Seq<Pair>)
    requires
        acc.dom().contains(cur),
    ensures
        insert_all(acc, cur, ps) == acc.insert(cur, pm_from(acc[cur], ps)),
    decreases ps.len(),
{
    if ps.len() == 0 {
        assert(acc.insert(cur, acc[cur]) =~~= acc);
    } else {
        let acc1 = doc_insert(acc, cur, ps[0].key@, ps[0].value@);
        assert(acc1 == acc.insert(cur, acc[cur].insert(ps[0].key@, ps[0].value@)));
        lemma_insert_all_in(acc1, cur, ps.drop_first());
        assert(acc1[cur] == acc[cur].insert(ps[0].key@, ps[0].value@));
        assert(pm_from(acc[cur], ps) == pm_from(acc1[cur], ps.drop_first()));
        assert(acc1.insert(cur, pm_from(acc1[cur], ps.drop_first())) =~~= acc.insert(
            cur,
            pm_from(acc[cur], ps),
        ));
    }
}

proof fn lemma_insert_all_new(acc: DocMap, cur: Seq<char>, ps: Seq<Pair>)
    requires
        !acc.dom().contains(cur),
        ps.len() > 0,
    ensures
        insert_all(acc, cur, ps) == acc.insert(cur, pairs_map(ps)),
{
    let first = Map::<Seq<char>, Seq<char>>::empty().insert(ps[0].key@, ps[0].value@);
    let acc1 = doc_insert(acc, cur, ps[0].key@, ps[0].value@);
    assert(acc1 == acc.insert(cur, first));
    lemma_insert_all_in(acc1, cur, ps.drop_first());
    assert(acc1[cur] == first);
    assert(pairs_map(ps) == pm_from(first, ps.drop_first()));
    assert(acc1.insert(cur, pm_from(acc1[cur], ps.drop_first())) =~~= acc.insert(
        cur,
        pairs_map(ps),
    ));
}

/// The section name current after the emitted sections' lines.
pub(crate) open spec fn last_name(ss: Seq<Section>, cur: Seq<char>) -> Seq<char>
    decreases ss.len(),
{
    if ss.len() == 0 {
        cur
    } else if ss[0].name@ == Seq::<char>::empty() {
        last_name(ss.drop_first(), cur)
    } else {
        last_name(ss.drop_first(), ss[0].name@)
    }
}

/// The document states reached while parsing the emitted sections.
pub(crate) open spec fn fold_sections(acc: DocMap, ss: Seq<Section>) -> DocMap
    decreases ss.len(),
{
    if ss.len() == 0 {
        acc
    } else if ss[0].name@ == Seq::<char>::empty() {
        fold_sections(acc, ss.drop_first())
    } else {
        fold_sections(insert_all(acc, ss[0].name@, ss[0].pairs@), ss.drop_first())
    }
}

/// What a named section must satisfy for its emitted lines to parse back.
pub(crate) open spec fn sec_emit_safe(s: Section) -> bool {
    s.name@ != Seq::<char>::empty() ==> {
        &&& nl_free(s.name@)
        &&& s.pairs@.len() > 0
        &&& forall|j: int|
            0 <= j < s.pairs@.len() ==> entry_safe((#[trigger] s.pairs@[j]).key@, s.pairs@[j].value@)
    }
}

proof fn lemma_run_sec_lines(ss: Seq<Section>, lnum: int, cur: Seq<char>, acc: DocMap)
    requires
        forall|i: int| 0 <= i < ss.len() ==> sec_emit_safe(#[trigger] ss[i]),
    ensures
        run_lines(sec_lines(ss), lnum, cur, acc) == Ok::<(Seq<char>, DocMap), ErrView>(
            (last_name(ss, cur), fold_sections(acc, ss)),
        ),
    decreases ss.len(),
{
    if ss.len() == 0 {
        assert(sec_lines(ss) =~= Seq::<Seq<char>>::empty());
    } else {
        assert(forall|i: int| 0 <= i < ss.drop_first().len() ==> ss.drop_first()[i] == ss[i + 1]);
        if ss[0].name@ == Seq::<char>::empty() {
            lemma_run_sec_lines(ss.drop_first(), lnum, cur, acc);
        } else {
            let n0 = ss[0].name@;
            let ps0 = ss[0].pairs@;
            assert(n0.len() > 0) by {
                if n0.len() == 0 {
                    assert(n0 =~= Seq::<char>::empty());
                }
            }
            lemma_parse_header_body(n0);
            let hb = header_body(n0);
            let rest = kv_bodies(ps0) + sec_lines(ss.drop_first());
            assert(sec_lines(ss)[0] == hb);
            assert(sec_lines(ss).drop_first() =~= rest);
            assert(run_lines(sec_lines(ss), lnum, cur, acc) == run_lines(
                rest,
                lnum + 1,
                n0,
                acc,
            )) by {
                assert(spec_trim(sec_lines(ss)[0]) == hb);
                assert(hb.subrange(1, hb.len() - 1) == n0);
            }
            lemma_run_lines_concat(kv_bodies(ps0), sec_lines(ss.drop_first()), lnum + 1, n0, acc);
            lemma_run_kv_bodies(ps0, lnum + 1, n0, acc);
            lemma_run_sec_lines(
                ss.drop_first(),
                lnum + 1 + kv_bodies(ps0).len(),
                n0,
                insert_all(acc, n0, ps0),
            );
        }
    }
}

proof fn lemma_fold_sections_char(acc: DocMap, ss: Seq<Section>)
    requires
        secs_wf(ss),
        forall|i: int|
            0 <= i < ss.len() && (#[trigger] ss[i]).name@ != Seq::<char>::empty() ==> !acc.dom().contains(
                ss[i].name@,
            ) && ss[i].pairs@.len() > 0,
    ensures
        forall|n: Seq<char>|
            #[trigger] fold_sections(acc, ss).dom().contains(n) <==> (acc.dom().contains(n) || (
            has_name(ss, n) && n != Seq::<char>::empty())),
        forall|n: Seq<char>|
            acc.dom().contains(n) && !(has_name(ss, n) && n != Seq::<char>::empty())
                ==> #[trigger] fold_sections(acc, ss)[n] == acc[n],
        forall|i: int|
            0 <= i < ss.len() && (#[trigger] ss[i]).name@ != Seq::<char>::empty()
                ==> fold_sections(acc, ss)[ss[i].name@] == pairs_map(ss[i].pairs@),
    decreases ss.len(),
{
    if ss.len() > 0 {
        let q = ss.drop_first();
        let blank = Seq::<char>::empty();
        assert(forall|i: int| 0 <= i < q.len() ==> q[i] == ss[i + 1]);
        assert forall|n: Seq<char>| has_name(ss, n) && n != ss[0].name@ implies has_name(
            q,
            n,
        ) by {
            let i = choose|i: int| 0 <= i < ss.len() && (#[trigger] ss[i]).name@ == n;
            assert(q[i - 1].name@ == n);
        }
        assert forall|n: Seq<char>| has_name(q, n) implies has_name(ss, n) by {
            let i = choose|i: int| 0 <= i < q.len() && (#[trigger] q[i]).name@ == n;
            assert(ss[i + 1].name@ == n);
        }
        if ss[0].name@ == blank {
            lemma_fold_sections_char(acc, q);
            assert(fold_sections(acc, ss) == fold_sections(acc, q));
            assert forall|n: Seq<char>| #[trigger] fold_sections(acc, ss).dom().contains(n)
                <==> (acc.dom().contains(n) || (has_name(ss, n) && n != blank)) by {
                if has_name(ss, n) && n != blank {
                    assert(has_name(q, n));
                }
            }
            assert forall|n: Seq<char>|
                acc.dom().contains(n) && !(has_name(ss, n) && n != blank) implies #[trigger] fold_sections(
                acc,
                ss,
            )[n] == acc[n] by {
                if has_name(q, n) {
                    assert(has_name(ss, n));
                }
            }
            assert forall|i: int|
                0 <= i < ss.len() && (#[trigger] ss[i]).name@ != blank implies fold_sections(
                acc,
                ss,
            )[ss[i].name@] == pairs_map(ss[i].pairs@) by {
                assert(i > 0);
                assert(q[i - 1] == ss[i]);
            }
        } else {
            let n0 = ss[0].name@;
            let ps0 = ss[0].pairs@;
            let acc1 = insert_all(acc, n0, ps0);
            lemma_insert_all_new(acc, n0, ps0);
            assert(acc1 == acc.insert(n0, pairs_map(ps0)));
            assert forall|i: int|
                0 <= i < q.len() && (#[trigger] q[i]).name@ != blank implies !acc1.dom().contains(
                q[i].name@,
            ) && q[i].pairs@.len() > 0 by {
                assert(q[i] == ss[i + 1]);
                assert(ss[i + 1].name@ != n0);
            }
            lemma_fold_sections_char(acc1, q);
            assert(has_name(ss, n0)) by {
                assert(ss[0].name@ == n0);
            }
            assert(!has_name(q, n0)) by {
                if has_name(q, n0) {
                    let i = choose|i: int| 0 <= i < q.len() && (#[trigger] q[i]).name@ == n0;
                    assert(ss[i + 1].name@ != ss[0].name@);
                }
            }
            assert(fold_sections(acc, ss) == fold_sections(acc1, q));
            assert(fold_sections(acc, ss)[n0] == acc1[n0]);
            assert forall|n: Seq<char>| #[trigger] fold_sections(acc, ss).dom().contains(n)
                <==> (acc.dom().contains(n) || (has_name(ss, n) && n != blank)) by {
                if fold_sections(acc, ss).dom().contains(n) {
                    if acc1.dom().contains(n) && !acc.dom().contains(n) {
                        assert(n == n0);
                    }
                    if has_name(q, n) {
                        assert(has_name(ss, n));
                    }
                }
                if acc.dom().contains(n) {
                    assert(acc1.dom().contains(n));
                }
                if has_name(ss, n) && n != blank {
                    if n == n0 {
                        assert(acc1.dom().contains(n));
                    } else {
                        assert(has_name(q, n));
                    }
                }
            }
            assert forall|n: Seq<char>|
                acc.dom().contains(n) && !(has_name(ss, n) && n != blank) implies #[trigger] fold_sections(
                acc,
                ss,
            )[n] == acc[n] by {
                assert(n != n0);
                assert(acc1.dom().contains(n) && acc1[n] == acc[n]);
                if has_name(q, n) {
                    assert(has_name(ss, n));
                }
            }
            assert forall|i: int|
                0 <= i < ss.len() && (#[trigger] ss[i]).name@ != blank implies fold_sections(
                acc,
                ss,
            )[ss[i].name@] == pairs_map(ss[i].pairs@) by {
                if i > 0 {
                    assert(q[i - 1] == ss[i]);
                    assert(ss[i].name@ != n0);
                } else {
                    assert(!(has_name(q, n0) && n0 != blank));
                    assert(acc1[n0] == pairs_map(ps0));
                }
            }
        }
    }
}

/// Round-trip equivalence: serializing a well-formed document whose
/// contents are round-trip safe, then parsing the text back, succeeds and
/// yields a document with exactly the same section/key/value contents.
pub proof fn lemma_round_trip(doc: &IniDocument)
    requires
        doc.inv(),
        round_trip_safe(doc@),
    ensures
        spec_parse(doc.format_view()) == Ok::<DocMap, ErrView>(doc@),
{
    let ss = doc.sections@;
    let blank = Seq::<char>::empty();
    let empty_map = Map::<Seq<char>, Map<Seq<char>, Seq<char>>>::empty();
    lemma_doc_map_char(ss);
    assert forall|i: int|
        0 <= i < ss.len() implies sec_emit_safe(#[trigger] ss[i]) && nl_free(ss[i].name@) && ss[i].pairs@.len()
        > 0 && (forall|j: int|
        0 <= j < ss[i].pairs@.len() ==> entry_safe(
            (#[trigger] ss[i].pairs@[j]).key@,
            ss[i].pairs@[j].value@,
        )) by {
        let s = ss[i].name@;
        assert(doc@.dom().contains(s));
        assert(nl_free(s));
        lemma_pairs_map_char(ss[i].pairs@);
        if ss[i].pairs@.len() == 0 {
            assert(ss[i].pairs@ =~= Seq::<Pair>::empty());
            assert(doc@[s].dom() =~= Set::<Seq<char>>::empty());
        }
        assert forall|j: int| 0 <= j < ss[i].pairs@.len() implies entry_safe(
            (#[trigger] ss[i].pairs@[j]).key@,
            ss[i].pairs@[j].value@,
        ) by {
            let k = ss[i].pairs@[j].key@;
            assert(doc@[s].dom().contains(k));
            assert(doc@[s][k] == ss[i].pairs@[j].value@);
        }
    }
    assert forall|i: int|
        0 <= i < ss.len() implies nl_free((#[trigger] ss[i]).name@) && (forall|j: int|
        0 <= j < ss[i].pairs@.len() ==> nl_free((#[trigger] ss[i].pairs@[j]).key@) && nl_free(
            ss[i].pairs@[j].value@,
        )) by {
        assert forall|j: int|
            0 <= j < ss[i].pairs@.len() implies nl_free((#[trigger] ss[i].pairs@[j]).key@)
            && nl_free(ss[i].pairs@[j].value@) by {
            assert(entry_safe(ss[i].pairs@[j].key@, ss[i].pairs@[j].value@));
        }
    }
    let fv = doc.format_view();
    lemma_lines_fmt_sections(ss, blank);
    assert(fmt_sections(ss) + blank =~= fmt_sections(ss));
    assert(spec_lines(blank) == seq![blank]);
    assert(spec_lines(fmt_sections(ss)) == sec_lines(ss) + seq![blank]);
    assert(spec_trim(blank) == blank);
    assert(is_skip_line(blank));
    let m_doc = doc_map(ss);
    if has_name(ss, blank) {
        let c = choose|c: int| 0 <= c < ss.len() && (#[trigger] ss[c]).name@ == blank;
        let dp = ss[c].pairs@;
        assert(default_pairs(ss) == dp) by {
            let d = choose|i: int|
                0 <= i < ss.len() && (#[trigger] ss[i]).name@ == Seq::<char>::empty();
            if d < c {
                assert(ss[d].name@ != ss[c].name@);
            } else if c < d {
                assert(ss[c].name@ != ss[d].name@);
            }
        }
        assert(fv == fmt_pairs(dp) + fmt_sections(ss));
        lemma_lines_fmt_pairs(dp, fmt_sections(ss));
        assert(spec_lines(fv) == kv_bodies(dp) + (sec_lines(ss) + seq![blank])) by {
            assert(kv_bodies(dp) + (sec_lines(ss) + seq![blank]) =~= kv_bodies(dp) + (sec_lines(
                ss,
            ) + seq![blank]));
        }
        lemma_run_lines_concat(kv_bodies(dp), sec_lines(ss) + seq![blank], 1, blank, empty_map);
        lemma_run_kv_bodies(dp, 1, blank, empty_map);
        let acc0 = insert_all(empty_map, blank, dp);
        lemma_insert_all_new(empty_map, blank, dp);
        assert(acc0 == empty_map.insert(blank, pairs_map(dp)));
        let n1 = 1 + kv_bodies(dp).len();
        lemma_run_lines_concat(sec_lines(ss), seq![blank], n1 as int, blank, acc0);
        lemma_run_sec_lines(ss, n1 as int, blank, acc0);
        let m1 = fold_sections(acc0, ss);
        let n2 = n1 + sec_lines(ss).len();
        assert(run_lines(seq![blank], n2 as int, last_name(ss, blank), m1) == Ok::<
            (Seq<char>, DocMap),
            ErrView,
        >((last_name(ss, blank), m1))) by {
            assert(seq![blank][0] == blank);
            assert(seq![blank].drop_first() =~= Seq::<Seq<char>>::empty());
            assert(run_lines(
                Seq::<Seq<char>>::empty(),
                n2 as int + 1,
                last_name(ss, blank),
                m1,
            ) == Ok::<(Seq<char>, DocMap), ErrView>((last_name(ss, blank), m1)));
        }
        assert(spec_parse(fv) == Ok::<DocMap, ErrView>(m1));
        lemma_fold_sections_char(acc0, ss);
        assert(m1 =~~= m_doc) by {
            assert forall|n: Seq<char>| #[trigger] m1.dom().contains(n) implies m_doc.dom().contains(
                n,
            ) by {}
            assert forall|n: Seq<char>| #[trigger] m_doc.dom().contains(n) implies m1.dom().contains(
                n,
            ) by {
                if n == blank {
                    assert(acc0.dom().contains(blank));
                }
            }
            assert forall|n: Seq<char>| m1.dom().contains(n) implies #[trigger] m1[n] == m_doc[n] by {
                if n == blank {
                    assert(!(has_name(ss, n) && n != blank));
                    assert(m1[blank] == acc0[blank]);
                    assert(m_doc[blank] == pairs_map(dp));
                } else {
                    let i = choose|i: int| 0 <= i < ss.len() && (#[trigger] ss[i]).name@ == n;
                    assert(m1[n] == pairs_map(ss[i].pairs@));
                    assert(m_doc[n] == pairs_map(ss[i].pairs@));
                }
            }
        }
    } else {
        assert(fv =~= fmt_sections(ss));
        assert(spec_lines(fv) == sec_lines(ss) + seq![blank]);
        lemma_run_lines_concat(sec_lines(ss), seq![blank], 1, blank, empty_map);
        lemma_run_sec_lines(ss, 1, blank, empty_map);
        let m1 = fold_sections(empty_map, ss);
        let n2 = 1 + sec_lines(ss).len();
        assert(run_lines(seq![blank], n2 as int, last_name(ss, blank), m1) == Ok::<
            (Seq<char>, DocMap),
            ErrView,
        >((last_name(ss, blank), m1))) by {
            assert(seq![blank][0] == blank);
            assert(seq![blank].drop_first() =~= Seq::<Seq<char>>::empty());
            assert(run_lines(
                Seq::<Seq<char>>::empty(),
                n2 as int + 1,
                last_name(ss, blank),
                m1,
            ) == Ok::<(Seq<char>, DocMap), ErrView>((last_name(ss, blank), m1)));
        }
        assert(spec_parse(fv) == Ok::<DocMap, ErrView>(m1));
        lemma_fold_sections_char(empty_map, ss);
        assert(m1 =~~= m_doc) by {
            assert forall|n: Seq<char>| m1.dom().contains(n) implies #[trigger] m1[n] == m_doc[n] by {
                let i = choose|i: int| 0 <= i < ss.len() && (#[trigger] ss[i]).name@ == n;
                assert(ss[i].name@ != blank);
                assert(m1[n] == pairs_map(ss[i].pairs@));
                assert(m_doc[n] == pairs_map(ss[i].pairs@));
            }
        }
    }
}

/// Inserting a key twice in the same section keeps only the latest value,
/// and at the second insert the document reports the first inserted value
/// as the one displaced.
pub proof fn lemma_insert_overwrite(
    m: DocMap,
    section: Seq<char>,
    key: Seq<char>,
    v1: Seq<char>,
    v2: Seq<char>,
)
    ensures
        doc_insert(doc_insert(m, section, key, v1), section, key, v2) == doc_insert(
            m,
            section,
            key,
            v2,
        ),
        doc_insert(m, section, key, v1).dom().contains(section),
        doc_insert(m, section, key, v1)[section].dom().contains(key),
        doc_insert(m, section, key, v1)[section][key] == v1,
{
    assert(doc_insert(doc_insert(m, section, key, v1), section, key, v2) =~~= doc_insert(
        m,
        section,
        key,
        v2,
    ));
}

/// The unnamed section is addressed with the empty string: after inserting
/// a key there, looking it up there finds exactly that value.
pub proof fn lemma_default_section_addressing(m: DocMap, key: Seq<char>, value: Seq<char>)
    ensures
        doc_insert(m, Seq::<char>::empty(), key, value).dom().contains(Seq::<char>::empty()),
        doc_insert(m, Seq::<char>::empty(), key, value)[Seq::<char>::empty()].dom().contains(key),
        doc_insert(m, Seq::<char>::empty(), key, value)[Seq::<char>::empty()][key] == value,
{
}

/// A bare `key = value` line, before any section header, parses into the
/// unnamed section: the one addressed with the empty string.
pub proof fn lemma_bare_line_parses_into_unnamed_section(k: Seq<char>, v: Seq<char>)
    requires
        entry_safe(k, v),
    ensures
        spec_parse(kv_body(k, v)) == Ok::<DocMap, ErrView>(
            Map::<Seq<char>, Map<Seq<char>, Seq<char>>>::empty().insert(
                Seq::<char>::empty(),
                Map::<Seq<char>, Seq<char>>::empty().insert(k, v),
            ),
        ),
{
    let body = kv_body(k, v);
    let blank = Seq::<char>::empty();
    let empty_map = Map::<Seq<char>, Map<Seq<char>, Seq<char>>>::empty();
    assert forall|i: int| 0 <= i < body.len() implies body[i] != '\n' by {
        if i < k.len() {
            assert(body[i] == k[i]);
        } else if i >= k.len() + 3 {
            assert(body[i] == v[i - k.len() - 3]);
        }
    }
    crate::text::lemma_lines_no_nl(body);
    lemma_parse_kv_body(k, v);
    let t = spec_trim(body);
    let e = first_in(t, '=');
    assert(seq![body][0] == body);
    assert(seq![body].drop_first() =~= Seq::<Seq<char>>::empty());
    assert(run_lines(seq![body], 1, blank, empty_map) == run_lines(
        Seq::<Seq<char>>::empty(),
        2,
        blank,
        doc_insert(empty_map, blank, spec_trim(t.subrange(0, e)), spec_trim(
            t.subrange(e + 1, t.len() as int),
        )),
    ));
    assert(doc_insert(empty_map, blank, k, v) == empty_map.insert(
        blank,
        Map::<Seq<char>, Seq<char>>::empty().insert(k, v),
    ));
}

/// A case-insensitive lookup finds an entry whenever the document holds a
/// section and key that lowercase like the queried ones.  The other half
/// of case-insensitivity — that a case-sensitive lookup under a name the
/// document does not hold finds nothing — is `get`'s own contract, whose
/// `None` clause holds exactly on absence.
pub proof fn lemma_case_insensitive_finds(
    m: DocMap,
    s1: Seq<char>,
    s2: Seq<char>,
    k1: Seq<char>,
    k2: Seq<char>,
)
    ensures
        m.dom().contains(s1) && m[s1].dom().contains(k1) && lower_of(s1) == lower_of(s2)
            && lower_of(k1) == lower_of(k2) ==> ci_has_pair(m, k2, s2),
{
}

} // verus!
