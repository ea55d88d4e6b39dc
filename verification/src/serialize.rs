//! The INI serializer.
//!
//! Emission order: the unnamed section's `key = value` lines first (if that
//! section exists), then every named section as a `[name]` header followed
//! by its `key = value` lines.  Every emitted line ends with `'\n'`,
//! including the last.  Comments, blank lines and the ordering of a parsed
//! text are not represented in a document, so they are not reproduced.

use vstd::prelude::*;
use vstd::string::StringExecFns;

use crate::document::{has_name, IniDocument, Pair, Section};
use crate::text::str_eq;

verus! {

/// One emitted key/value line: `key = value` and the line terminator.
pub open spec fn kv_line(k: Seq<char>, v: Seq<char>) -> Seq<char> {
    k + seq![' ', '=', ' '] + v + seq!['\n']
}

/// One emitted section header line: `[name]` and the line terminator.
pub open spec fn header_line(n: Seq<char>) -> Seq<char> {
    seq!['['] + n + seq![']', '\n']
}

/// The key/value lines of a sequence of pairs, in order.
pub open spec fn fmt_pairs(ps: Seq<Pair>) -> Seq<char>
    decreases ps.len(),
{
    if ps.len() == 0 {
        Seq::empty()
    } else {
        kv_line(ps[0].key@, ps[0].value@) + fmt_pairs(ps.drop_first())
    }
}

/// The header and key/value lines of every named section, in order; the
/// unnamed section is not emitted here.
pub(crate) open spec fn fmt_sections(ss: Seq<Section>) -> Seq<char>
    decreases ss.len(),
{
    if ss.len() == 0 {
        Seq::empty()
    } else if ss[0].name@ == Seq::<char>::empty() {
        fmt_sections(ss.drop_first())
    } else {
        header_line(ss[0].name@) + fmt_pairs(ss[0].pairs@) + fmt_sections(ss.drop_first())
    }
}

/// The pairs of the unnamed section, if there is one.
pub(crate) open spec fn default_pairs(ss: Seq<Section>) -> Seq<Pair> {
    let i = choose|i: int| 0 <= i < ss.len() && (#[trigger] ss[i]).name@ == Seq::<char>::empty();
    ss[i].pairs@
}

/// The opening, unnamed part of the output: the unnamed section's lines.
pub(crate) open spec fn fmt_default(ss: Seq<Section>) -> Seq<char> {
    if has_name(ss, Seq::<char>::empty()) {
        fmt_pairs(default_pairs(ss))
    } else {
        Seq::empty()
    }
}

pub proof fn lemma_fmt_pairs_push(q: Seq<Pair>, p: Pair)
    ensures
        fmt_pairs(q.push(p)) == fmt_pairs(q) + kv_line(p.key@, p.value@),
    decreases q.len(),
{
    if q.len() == 0 {
        assert(q.push(p)[0] == p);
        assert(q.push(p).drop_first() =~= Seq::<Pair>::empty());
        assert(fmt_pairs(q.push(p)) == kv_line(p.key@, p.value@) + fmt_pairs(
            Seq::<Pair>::empty(),
        ));
        assert(fmt_pairs(q.push(p)) =~= fmt_pairs(q) + kv_line(p.key@, p.value@));
    } else {
        assert(q.push(p)[0] == q[0]);
        assert(q.push(p).drop_first() =~= q.drop_first().push(p));
        lemma_fmt_pairs_push(q.drop_first(), p);
        assert(fmt_pairs(q.push(p)) == kv_line(q[0].key@, q[0].value@) + fmt_pairs(
            q.drop_first().push(p),
        ));
        assert(fmt_pairs(q) == kv_line(q[0].key@, q[0].value@) + fmt_pairs(q.drop_first()));
        assert(fmt_pairs(q.push(p)) =~= fmt_pairs(q) + kv_line(p.key@, p.value@));
    }
}

/// The contribution of one section to [`fmt_sections`].
pub(crate) open spec fn fmt_one_section(s: Section) -> Seq<char> {
    if s.name@ == Seq::<char>::empty() {
        Seq::empty()
    } else {
        header_line(s.name@) + fmt_pairs(s.pairs@)
    }
}

pub(crate) proof fn lemma_fmt_sections_push(q: Seq<Section>, s: Section)
    ensures
        fmt_sections(q.push(s)) == fmt_sections(q) + fmt_one_section(s),
    decreases q.len(),
{
    if q.len() == 0 {
        assert(q.push(s)[0] == s);
        assert(q.push(s).drop_first() =~= Seq::<Section>::empty());
        if s.name@ == Seq::<char>::empty() {
            assert(fmt_sections(q.push(s)) == fmt_sections(Seq::<Section>::empty()));
        } else {
            assert(fmt_sections(q.push(s)) == header_line(s.name@) + fmt_pairs(s.pairs@)
                + fmt_sections(Seq::<Section>::empty()));
        }
        assert(fmt_sections(q.push(s)) =~= fmt_sections(q) + fmt_one_section(s));
    } else {
        assert(q.push(s)[0] == q[0]);
        assert(q.push(s).drop_first() =~= q.drop_first().push(s));
        lemma_fmt_sections_push(q.drop_first(), s);
        if q[0].name@ == Seq::<char>::empty() {
            assert(fmt_sections(q.push(s)) == fmt_sections(q.drop_first().push(s)));
            assert(fmt_sections(q) == fmt_sections(q.drop_first()));
        } else {
            assert(fmt_sections(q.push(s)) == header_line(q[0].name@) + fmt_pairs(q[0].pairs@)
                + fmt_sections(q.drop_first().push(s)));
            assert(fmt_sections(q) == header_line(q[0].name@) + fmt_pairs(q[0].pairs@)
                + fmt_sections(q.drop_first()));
        }
        assert(fmt_sections(q.push(s)) =~= fmt_sections(q) + fmt_one_section(s));
    }
}

/// Append the `key = value` lines of `ps` to `out`.
fn append_pairs(out: &mut String, ps: &Vec<Pair>)
    ensures
        final(out)@ == old(out)@ + fmt_pairs(ps@),
{
    let mut j: usize = 0;
    while j < ps.len()
        invariant
            j <= ps@.len(),
            out@ == old(out)@ + fmt_pairs(ps@.take(j as int)),
        decreases ps@.len() - j,
    {
        out.append(ps[j].key.as_str());
        out.append(" = ");
        out.append(ps[j].value.as_str());
        out.append("\n");
        proof {
            reveal_strlit(" = ");
            reveal_strlit("\n");
            assert(" = "@ =~= seq![' ', '=', ' ']);
            assert("\n"@ =~= seq!['\n']);
            assert(ps@.take(j as int).push(ps@[j as int]) =~= ps@.take(j as int + 1));
            lemma_fmt_pairs_push(ps@.take(j as int), ps@[j as int]);
            assert(out@ =~= old(out)@ + fmt_pairs(ps@.take(j as int + 1)));
        }
        j = j + 1;
    }
    proof {
        assert(ps@.take(ps@.len() as int) =~= ps@);
    }
}

impl IniDocument {
    /// The exact text that serialization produces for this document.
    pub open(crate) spec fn format_view(&self) -> Seq<char> {
        fmt_default(self.sections@) + fmt_sections(self.sections@)
    }

    /// Serialize the document: the unnamed section's `key = value` lines,
    /// then each named section under its `[name]` header, every line ending
    /// with the line terminator.  Total and infallible.
    pub fn to_string(&self) -> (r: String)
        requires
            self.inv(),
        ensures
            r@ == self.format_view(),
    {
        let mut out = String::new();
        proof {
            reveal_strlit("");
            assert(""@ =~= Seq::<char>::empty());
        }
        match crate::document::find_section(&self.sections, "") {
            Some(i) => {
                proof {
                    let ss = self.sections@;
                    let c = choose|c: int|
                        0 <= c < ss.len() && (#[trigger] ss[c]).name@ == Seq::<char>::empty();
                    assert(ss[i as int].name@ == Seq::<char>::empty());
                    if (i as int) < c {
                        assert(ss[i as int].name@ != ss[c].name@);
                    } else if c < (i as int) {
                        assert(ss[c].name@ != ss[i as int].name@);
                    }
                    assert(has_name(ss, Seq::<char>::empty()));
                    assert(default_pairs(ss) == ss[i as int].pairs@);
                }
                append_pairs(&mut out, &self.sections[i].pairs);
            },
            None => {
                proof {
                    assert(!has_name(self.sections@, Seq::<char>::empty()));
                }
            },
        }
        proof {
            assert(out@ == fmt_default(self.sections@));
            assert(self.sections@.take(0) =~= Seq::<Section>::empty());
        }
        let mut k: usize = 0;
        while k < self.sections.len()
            invariant
                self.inv(),
                k <= self.sections@.len(),
                out@ == fmt_default(self.sections@) + fmt_sections(self.sections@.take(k as int)),
            decreases self.sections@.len() - k,
        {
            let ghost before = out@;
            if !str_eq(self.sections[k].name.as_str(), "") {
                out.append("[");
                out.append(self.sections[k].name.as_str());
                out.append("]");
                out.append("\n");
                append_pairs(&mut out, &self.sections[k].pairs);
                proof {
                    reveal_strlit("");
                    reveal_strlit("[");
                    reveal_strlit("]");
                    reveal_strlit("\n");
                    assert(""@ =~= Seq::<char>::empty());
                    assert("["@ =~= seq!['[']);
                    assert("]"@ =~= seq![']']);
                    assert("\n"@ =~= seq!['\n']);
                    assert(self.sections@[k as int].name@ != Seq::<char>::empty());
                    assert(out@ =~= before + fmt_one_section(self.sections@[k as int]));
                }
            } else {
                proof {
                    reveal_strlit("");
                    assert(""@ =~= Seq::<char>::empty());
                    assert(out@ =~= before + fmt_one_section(self.sections@[k as int]));
                }
            }
            proof {
                let ss = self.sections@;
                assert(ss.take(k as int).push(ss[k as int]) =~= ss.take(k as int + 1));
                lemma_fmt_sections_push(ss.take(k as int), ss[k as int]);
                assert(out@ =~= fmt_default(ss) + fmt_sections(ss.take(k as int + 1)));
            }
            k = k + 1;
        }
        proof {
            assert(self.sections@.take(self.sections@.len() as int) =~= self.sections@);
        }
        out
    }
}

} // verus!
