//! The in-memory INI document: named sections of key/value pairs.
//!
//! A document is abstractly a finite map from section name to a map from
//! key to value (all strings of characters); the unnamed opening section is
//! the one whose name is the empty string.  Concretely it is a vector of
//! sections, each a vector of pairs, with names unique among sections and
//! keys unique within each section.

use vstd::prelude::*;

use crate::text::str_eq;

verus! {

/// One key/value entry of a section.
#[derive(Debug, PartialEq)]
pub struct Pair {
    pub key: String,
    pub value: String,
}

/// One section: a name and its entries.
#[derive(Debug, PartialEq)]
pub(crate) struct Section {
    pub(crate) name: String,
    pub(crate) pairs: Vec<Pair>,
}

/// An INI document.  Its view is the nested mapping
/// section name -> (key -> value).
#[derive(Debug, PartialEq)]
pub struct IniDocument {
    pub(crate) sections: Vec<Section>,
}

/// The entries of `ps` folded, left to right, onto the map `m`.
pub open spec fn pm_from(m: Map<Seq<char>, Seq<char>>, ps: Seq<Pair>) -> Map<Seq<char>, Seq<char>>
    decreases ps.len(),
{
    if ps.len() == 0 {
        m
    } else {
        pm_from(m.insert(ps[0].key@, ps[0].value@), ps.drop_first())
    }
}

/// The key -> value map described by a sequence of pairs (later entries win).
pub open spec fn pairs_map(ps: Seq<Pair>) -> Map<Seq<char>, Seq<char>> {
    pm_from(Map::empty(), ps)
}

/// Some pair of `ps` carries the key `k`.
pub open spec fn has_key(ps: Seq<Pair>, k: Seq<char>) -> bool {
    exists|i: int| 0 <= i < ps.len() && (#[trigger] ps[i]).key@ == k
}

/// Keys are unique within the sequence of pairs.
pub open spec fn pairs_wf(ps: Seq<Pair>) -> bool {
    forall|i: int, j: int| 0 <= i < j < ps.len() ==> (#[trigger] ps[i]).key@ != (#[trigger] ps[j]).key@
}

/// Some section of `ss` carries the name `n`.
pub(crate) open spec fn has_name(ss: Seq<Section>, n: Seq<char>) -> bool {
    exists|i: int| 0 <= i < ss.len() && (#[trigger] ss[i]).name@ == n
}

/// Section names unique, and each section's keys unique.
pub(crate) open spec fn secs_wf(ss: Seq<Section>) -> bool {
    &&& forall|i: int, j: int|
        0 <= i < j < ss.len() ==> (#[trigger] ss[i]).name@ != (#[trigger] ss[j]).name@
    &&& forall|i: int| 0 <= i < ss.len() ==> pairs_wf((#[trigger] ss[i]).pairs@)
}

/// The nested mapping described by a sequence of sections.
pub(crate) open spec fn doc_map(ss: Seq<Section>) -> Map<Seq<char>, Map<Seq<char>, Seq<char>>>
    decreases ss.len(),
{
    if ss.len() == 0 {
        Map::empty()
    } else {
        doc_map(ss.drop_last()).insert(ss.last().name@, pairs_map(ss.last().pairs@))
    }
}

/// What `insert` does to the abstract document: the key is set in the named
/// section, and the section springs into being if it was absent.
pub open spec fn doc_insert(
    m: Map<Seq<char>, Map<Seq<char>, Seq<char>>>,
    section: Seq<char>,
    key: Seq<char>,
    value: Seq<char>,
) -> Map<Seq<char>, Map<Seq<char>, Seq<char>>> {
    m.insert(
        section,
        (if m.dom().contains(section) {
            m[section]
        } else {
            Map::empty()
        }).insert(key, value),
    )
}

pub proof fn lemma_pm_push(m: Map<Seq<char>, Seq<char>>, ps: Seq<Pair>, p: Pair)
    ensures
        pm_from(m, ps.push(p)) == pm_from(m, ps).insert(p.key@, p.value@),
    decreases ps.len(),
{
    if ps.len() == 0 {
        assert(ps.push(p)[0] == p);
        assert(ps.push(p).drop_first() =~= Seq::<Pair>::empty());
        assert(pm_from(m.insert(p.key@, p.value@), Seq::<Pair>::empty()) == m.insert(
            p.key@,
            p.value@,
        ));
        assert(pm_from(m, ps) == m);
    } else {
        assert(ps.push(p)[0] == ps[0]);
        assert(ps.push(p).drop_first() =~= ps.drop_first().push(p));
        lemma_pm_push(m.insert(ps[0].key@, ps[0].value@), ps.drop_first(), p);
        assert(pm_from(m, ps.push(p)) == pm_from(
            m.insert(ps[0].key@, ps[0].value@),
            ps.drop_first().push(p),
        ));
        assert(pm_from(m, ps) == pm_from(m.insert(ps[0].key@, ps[0].value@), ps.drop_first()));
    }
}

/// With unique keys, the pairs map contains exactly the listed keys, each
/// bound to its listed value.
pub proof fn lemma_pairs_map_char(ps: Seq<Pair>)
    requires
        pairs_wf(ps),
    ensures
        forall|k: Seq<char>| #[trigger] pairs_map(ps).dom().contains(k) <==> has_key(ps, k),
        forall|i: int|
            0 <= i < ps.len() ==> pairs_map(ps)[(#[trigger] ps[i]).key@] == ps[i].value@,
    decreases ps.len(),
{
    if ps.len() > 0 {
        let q = ps.drop_last();
        let p = ps.last();
        assert(forall|i: int| 0 <= i < q.len() ==> q[i] == ps[i]);
        lemma_pairs_map_char(q);
        assert(q.push(p) =~= ps);
        lemma_pm_push(Map::empty(), q, p);
        assert(pairs_map(ps) == pairs_map(q).insert(p.key@, p.value@));
        assert forall|k: Seq<char>| #[trigger] pairs_map(ps).dom().contains(k) implies has_key(
            ps,
            k,
        ) by {
            if k == p.key@ {
                assert(ps[ps.len() - 1].key@ == k);
            } else {
                let i = choose|i: int| 0 <= i < q.len() && (#[trigger] q[i]).key@ == k;
                assert(ps[i].key@ == k);
            }
        }
        assert forall|k: Seq<char>| has_key(ps, k) implies pairs_map(ps).dom().contains(k) by {
            let i = choose|i: int| 0 <= i < ps.len() && (#[trigger] ps[i]).key@ == k;
            if i < ps.len() - 1 {
                assert(q[i].key@ == k);
            }
        }
        assert forall|i: int| 0 <= i < ps.len() implies pairs_map(ps)[(#[trigger] ps[i]).key@]
            == ps[i].value@ by {
            if i < ps.len() - 1 {
                assert(ps[i].key@ != p.key@);
                assert(q[i] == ps[i]);
            }
        }
    }
}

/// With unique names, the document map contains exactly the listed section
/// names, each bound to its section's pairs map.
pub(crate) proof fn lemma_doc_map_char(ss: Seq<Section>)
    requires
        secs_wf(ss),
    ensures
        forall|n: Seq<char>| #[trigger] doc_map(ss).dom().contains(n) <==> has_name(ss, n),
        forall|i: int|
            0 <= i < ss.len() ==> doc_map(ss)[(#[trigger] ss[i]).name@] == pairs_map(ss[i].pairs@),
    decreases ss.len(),
{
    if ss.len() > 0 {
        let q = ss.drop_last();
        let s = ss.last();
        assert(forall|i: int| 0 <= i < q.len() ==> q[i] == ss[i]);
        lemma_doc_map_char(q);
        assert(doc_map(ss) == doc_map(q).insert(s.name@, pairs_map(s.pairs@)));
        assert forall|n: Seq<char>| #[trigger] doc_map(ss).dom().contains(n) implies has_name(
            ss,
            n,
        ) by {
            if n == s.name@ {
                assert(ss[ss.len() - 1].name@ == n);
            } else {
                let i = choose|i: int| 0 <= i < q.len() && (#[trigger] q[i]).name@ == n;
                assert(ss[i].name@ == n);
            }
        }
        assert forall|n: Seq<char>| has_name(ss, n) implies doc_map(ss).dom().contains(n) by {
            let i = choose|i: int| 0 <= i < ss.len() && (#[trigger] ss[i]).name@ == n;
            if i < ss.len() - 1 {
                assert(q[i].name@ == n);
            }
        }
        assert forall|i: int| 0 <= i < ss.len() implies doc_map(ss)[(#[trigger] ss[i]).name@]
            == pairs_map(ss[i].pairs@) by {
            if i < ss.len() - 1 {
                assert(ss[i].name@ != s.name@);
                assert(q[i] == ss[i]);
            }
        }
    }
}

/// Removing the (unique) pair that carries a key takes that key out of the
/// pairs map and disturbs nothing else.
pub proof fn lemma_pairs_remove(ps: Seq<Pair>, j: int)
    requires
        pairs_wf(ps),
        0 <= j < ps.len(),
    ensures
        pairs_wf(ps.remove(j)),
        !has_key(ps.remove(j), ps[j].key@),
        pairs_map(ps.remove(j)) =~= pairs_map(ps).remove(ps[j].key@),
{
    let r = ps.remove(j);
    ps.remove_ensures(j);
    assert forall|i1: int, i2: int| 0 <= i1 < i2 < r.len() implies (#[trigger] r[i1]).key@ != (
    #[trigger] r[i2]).key@ by {
        let o1: int = if i1 < j {
            i1
        } else {
            i1 + 1
        };
        let o2: int = if i2 < j {
            i2
        } else {
            i2 + 1
        };
        assert(r[i1] == ps[o1] && r[i2] == ps[o2]);
    }
    assert forall|i: int| 0 <= i < r.len() implies (#[trigger] r[i]).key@ != ps[j].key@ by {
        let o: int = if i < j {
            i
        } else {
            i + 1
        };
        assert(r[i] == ps[o]);
    }
    lemma_pairs_map_char(ps);
    lemma_pairs_map_char(r);
    assert forall|k: Seq<char>|
        #[trigger] pairs_map(r).dom().contains(k)
            <==> pairs_map(ps).remove(ps[j].key@).dom().contains(k) by {
        if has_key(r, k) {
            let i = choose|i: int| 0 <= i < r.len() && (#[trigger] r[i]).key@ == k;
            let o: int = if i < j {
                i
            } else {
                i + 1
            };
            assert(ps[o].key@ == k);
        }
        if k != ps[j].key@ && has_key(ps, k) {
            let o = choose|o: int| 0 <= o < ps.len() && (#[trigger] ps[o]).key@ == k;
            let i: int = if o < j {
                o
            } else {
                o - 1
            };
            assert(r[i].key@ == k);
        }
    }
    assert forall|k: Seq<char>| pairs_map(r).dom().contains(k) implies #[trigger] pairs_map(r)[k]
        == pairs_map(ps).remove(ps[j].key@)[k] by {
        let i = choose|i: int| 0 <= i < r.len() && (#[trigger] r[i]).key@ == k;
        let o: int = if i < j {
            i
        } else {
            i + 1
        };
        assert(ps[o].key@ == k);
        assert(pairs_map(r)[k] == r[i].value@);
        assert(pairs_map(ps)[k] == ps[o].value@);
    }
}

/// Removing the (unique) section of a name takes that name out of the
/// document map and disturbs nothing else.
pub(crate) proof fn lemma_secs_remove(ss: Seq<Section>, j: int)
    requires
        secs_wf(ss),
        0 <= j < ss.len(),
    ensures
        secs_wf(ss.remove(j)),
        !has_name(ss.remove(j), ss[j].name@),
        doc_map(ss.remove(j)) =~~= doc_map(ss).remove(ss[j].name@),
{
    let r = ss.remove(j);
    ss.remove_ensures(j);
    assert forall|i1: int, i2: int| 0 <= i1 < i2 < r.len() implies (#[trigger] r[i1]).name@ != (
    #[trigger] r[i2]).name@ by {
        let o1: int = if i1 < j {
            i1
        } else {
            i1 + 1
        };
        let o2: int = if i2 < j {
            i2
        } else {
            i2 + 1
        };
        assert(r[i1] == ss[o1] && r[i2] == ss[o2]);
    }
    assert forall|i: int| 0 <= i < r.len() implies pairs_wf((#[trigger] r[i]).pairs@) && r[i].name@
        != ss[j].name@ by {
        let o: int = if i < j {
            i
        } else {
            i + 1
        };
        assert(r[i] == ss[o]);
    }
    lemma_doc_map_char(ss);
    lemma_doc_map_char(r);
    assert forall|n: Seq<char>|
        #[trigger] doc_map(r).dom().contains(n)
            <==> doc_map(ss).remove(ss[j].name@).dom().contains(n) by {
        if has_name(r, n) {
            let i = choose|i: int| 0 <= i < r.len() && (#[trigger] r[i]).name@ == n;
            let o: int = if i < j {
                i
            } else {
                i + 1
            };
            assert(ss[o].name@ == n);
        }
        if n != ss[j].name@ && has_name(ss, n) {
            let o = choose|o: int| 0 <= o < ss.len() && (#[trigger] ss[o]).name@ == n;
            let i: int = if o < j {
                o
            } else {
                o - 1
            };
            assert(r[i].name@ == n);
        }
    }
    assert forall|n: Seq<char>| doc_map(r).dom().contains(n) implies #[trigger] doc_map(r)[n]
        == doc_map(ss).remove(ss[j].name@)[n] by {
        let i = choose|i: int| 0 <= i < r.len() && (#[trigger] r[i]).name@ == n;
        let o: int = if i < j {
            i
        } else {
            i + 1
        };
        assert(ss[o].name@ == n);
        assert(doc_map(r)[n] == pairs_map(r[i].pairs@));
        assert(doc_map(ss)[n] == pairs_map(ss[o].pairs@));
    }
}

/// Pushing a section re-binds its name and disturbs nothing else.
pub(crate) proof fn lemma_secs_push(ss: Seq<Section>, sec: Section)
    requires
        secs_wf(ss),
        !has_name(ss, sec.name@),
        pairs_wf(sec.pairs@),
    ensures
        secs_wf(ss.push(sec)),
        doc_map(ss.push(sec)) == doc_map(ss).insert(sec.name@, pairs_map(sec.pairs@)),
{
    let r = ss.push(sec);
    assert(forall|i: int| 0 <= i < ss.len() ==> r[i] == ss[i]);
    assert forall|i1: int, i2: int| 0 <= i1 < i2 < r.len() implies (#[trigger] r[i1]).name@ != (
    #[trigger] r[i2]).name@ by {
        if i2 == r.len() - 1 {
            assert(ss[i1].name@ != sec.name@);
        }
    }
    assert(r.drop_last() =~= ss);
    assert(r.last() == sec);
}

impl View for IniDocument {
    type V = Map<Seq<char>, Map<Seq<char>, Seq<char>>>;

    open(crate) spec fn view(&self) -> Map<Seq<char>, Map<Seq<char>, Seq<char>>> {
        doc_map(self.sections@)
    }
}

/// Index of the section named `name`, if one exists.
pub(crate) fn find_section(ss: &Vec<Section>, name: &str) -> (r: Option<usize>)
    ensures
        match r {
            Some(i) => i < ss@.len() && ss@[i as int].name@ == name@,
            None => !has_name(ss@, name@),
        },
{
    let mut i: usize = 0;
    while i < ss.len()
        invariant
            i <= ss@.len(),
            forall|j: int| 0 <= j < i ==> (#[trigger] ss@[j]).name@ != name@,
        decreases ss@.len() - i,
    {
        if str_eq(ss[i].name.as_str(), name) {
            return Some(i);
        }
        i = i + 1;
    }
    None
}

/// Index of the pair keyed `key`, if one exists.
pub(crate) fn find_pair(ps: &Vec<Pair>, key: &str) -> (r: Option<usize>)
    ensures
        match r {
            Some(j) => j < ps@.len() && ps@[j as int].key@ == key@,
            None => !has_key(ps@, key@),
        },
{
    let mut j: usize = 0;
    while j < ps.len()
        invariant
            j <= ps@.len(),
            forall|i: int| 0 <= i < j ==> (#[trigger] ps@[i]).key@ != key@,
        decreases ps@.len() - j,
    {
        if str_eq(ps[j].key.as_str(), key) {
            return Some(j);
        }
        j = j + 1;
    }
    None
}

impl Default for IniDocument {
    /// The default document is the empty one.
    fn default() -> (r: IniDocument)
        ensures
            r.inv(),
            r@ == Map::<Seq<char>, Map<Seq<char>, Seq<char>>>::empty(),
    {
        IniDocument::empty()
    }
}

impl IniDocument {
    /// Well-formedness: section names unique, keys unique per section.
    pub open(crate) spec fn inv(&self) -> bool {
        secs_wf(self.sections@)
    }

    /// Create a new empty document.
    pub fn empty() -> (r: IniDocument)
        ensures
            r.inv(),
            r@ == Map::<Seq<char>, Map<Seq<char>, Seq<char>>>::empty(),
    {
        IniDocument { sections: Vec::new() }
    }

    /// Whether the document holds no key at all: no sections, or only
    /// sections without entries.
    pub fn is_empty(&self) -> (r: bool)
        requires
            self.inv(),
        ensures
            r == (forall|s: Seq<char>|
                self@.dom().contains(s) ==> (#[trigger] self@[s]).dom() =~= Set::<Seq<char>>::empty()),
    {
        proof {
            lemma_doc_map_char(self.sections@);
        }
        let mut i: usize = 0;
        while i < self.sections.len()
            invariant
                self.inv(),
                i <= self.sections@.len(),
                forall|j: int| 0 <= j < i ==> (#[trigger] self.sections@[j]).pairs@.len() == 0,
            decreases self.sections@.len() - i,
        {
            if self.sections[i].pairs.len() > 0 {
                proof {
                    lemma_doc_map_char(self.sections@);
                    let sec = self.sections@[i as int];
                    let k0 = sec.pairs@[0].key@;
                    lemma_pairs_map_char(sec.pairs@);
                    assert(has_key(sec.pairs@, k0));
                    assert(has_name(self.sections@, sec.name@));
                    assert(self@.dom().contains(sec.name@));
                    assert(self@[sec.name@] == pairs_map(sec.pairs@));
                    assert(self@[sec.name@].dom().contains(k0));
                    assert(!(self@[sec.name@].dom() =~= Set::<Seq<char>>::empty()));
                }
                return false;
            }
            i = i + 1;
        }
        proof {
            lemma_doc_map_char(self.sections@);
            assert forall|s: Seq<char>| self@.dom().contains(s) implies (#[trigger] self@[s]).dom()
                =~= Set::<Seq<char>>::empty() by {
                let idx = choose|idx: int|
                    0 <= idx < self.sections@.len() && (#[trigger] self.sections@[idx]).name@ == s;
                assert(self.sections@[idx].pairs@ =~= Seq::<Pair>::empty());
                assert(self@[s] == pairs_map(self.sections@[idx].pairs@));
                assert(pairs_map(Seq::<Pair>::empty()) == Map::<Seq<char>, Seq<char>>::empty());
            }
        }
        true
    }

    /// Look up the value of `key` in the section named `section`
    /// (case-sensitively); nothing if either is absent.
    pub fn get<'a>(&'a self, key: &str, section: &str) -> (r: Option<&'a str>)
        requires
            self.inv(),
        ensures
            match r {
                Some(v) => self@.dom().contains(section@) && self@[section@].dom().contains(key@)
                    && v@ == self@[section@][key@],
                None => !(self@.dom().contains(section@) && self@[section@].dom().contains(key@)),
            },
    {
        proof {
            lemma_doc_map_char(self.sections@);
        }
        match find_section(&self.sections, section) {
            Some(i) => {
                proof {
                    lemma_pairs_map_char(self.sections@[i as int].pairs@);
                }
                match find_pair(&self.sections[i].pairs, key) {
                    Some(j) => Some(self.sections[i].pairs[j].value.as_str()),
                    None => None,
                }
            },
            None => None,
        }
    }

    /// The entries of the section named `section`, or nothing if it is
    /// absent.
    pub fn get_section<'a>(&'a self, section: &str) -> (r: Option<&'a Vec<Pair>>)
        requires
            self.inv(),
        ensures
            match r {
                Some(ps) => self@.dom().contains(section@) && pairs_wf(ps@) && pairs_map(ps@)
                    == self@[section@],
                None => !self@.dom().contains(section@),
            },
    {
        proof {
            lemma_doc_map_char(self.sections@);
        }
        match find_section(&self.sections, section) {
            Some(i) => Some(&self.sections[i].pairs),
            None => None,
        }
    }

    /// Set `key` to `value` in the section named `section`, creating the
    /// section if absent; the displaced value, if one was, comes back.
    pub fn insert(&mut self, key: &str, value: &str, section: &str) -> (r: Option<String>)
        requires
            old(self).inv(),
        ensures
            final(self).inv(),
            final(self)@ == doc_insert(old(self)@, section@, key@, value@),
            match r {
                Some(prev) => old(self)@.dom().contains(section@)
                    && old(self)@[section@].dom().contains(key@) && prev@
                    == old(self)@[section@][key@],
                None => !(old(self)@.dom().contains(section@)
                    && old(self)@[section@].dom().contains(key@)),
            },
    {
        proof {
            lemma_doc_map_char(self.sections@);
        }
        let new_pair = Pair { key: key.to_owned(), value: value.to_owned() };
        match find_section(&self.sections, section) {
            Some(i) => {
                let ghost old_secs = self.sections@;
                let mut sec = self.sections.remove(i);
                proof {
                    lemma_secs_remove(old_secs, i as int);
                    lemma_pairs_map_char(sec.pairs@);
                }
                let prev: Option<String> = match find_pair(&sec.pairs, key) {
                    Some(j) => {
                        let ghost old_pairs = sec.pairs@;
                        let p = sec.pairs.remove(j);
                        proof {
                            lemma_pairs_remove(old_pairs, j as int);
                        }
                        Some(p.value)
                    },
                    None => None,
                };
                proof {
                    lemma_pm_push(Map::empty(), sec.pairs@, new_pair);
                }
                sec.pairs.push(new_pair);
                proof {
                    assert(pairs_map(sec.pairs@) =~= old(self)@[section@].insert(key@, value@));
                    assert forall|i1: int, i2: int|
                        0 <= i1 < i2 < sec.pairs@.len() implies (#[trigger] sec.pairs@[i1]).key@
                        != (#[trigger] sec.pairs@[i2]).key@ by {}
                    lemma_secs_push(old_secs.remove(i as int), sec);
                }
                self.sections.push(sec);
                proof {
                    assert(final(self)@ =~~= doc_insert(old(self)@, section@, key@, value@));
                }
                prev
            },
            None => {
                let sec = Section { name: section.to_owned(), pairs: vec![new_pair] };
                proof {
                    assert(sec.pairs@ =~= Seq::<Pair>::empty().push(new_pair));
                    lemma_pm_push(Map::empty(), Seq::<Pair>::empty(), new_pair);
                    lemma_secs_push(self.sections@, sec);
                }
                self.sections.push(sec);
                proof {
                    assert(pairs_map(sec.pairs@) =~= Map::<Seq<char>, Seq<char>>::empty().insert(
                        key@,
                        value@,
                    ));
                    assert(final(self)@ =~~= doc_insert(old(self)@, section@, key@, value@));
                }
                None
            },
        }
    }

    /// Remove `key` from the section named `section`; the removed value
    /// comes back if both existed.  The section itself stays, even empty.
    pub fn remove(&mut self, key: &str, section: &str) -> (r: Option<String>)
        requires
            old(self).inv(),
        ensures
            final(self).inv(),
            match r {
                Some(v) => old(self)@.dom().contains(section@)
                    && old(self)@[section@].dom().contains(key@) && v@ == old(self)@[section@][key@]
                    && final(self)@ == old(self)@.insert(section@, old(self)@[section@].remove(key@)),
                None => !(old(self)@.dom().contains(section@)
                    && old(self)@[section@].dom().contains(key@)) && final(self)@ == old(self)@,
            },
    {
        proof {
            lemma_doc_map_char(self.sections@);
        }
        match find_section(&self.sections, section) {
            Some(i) => {
                proof {
                    lemma_pairs_map_char(self.sections@[i as int].pairs@);
                }
                match find_pair(&self.sections[i].pairs, key) {
                    Some(j) => {
                        let ghost old_secs = self.sections@;
                        let mut sec = self.sections.remove(i);
                        let ghost old_pairs = sec.pairs@;
                        let p = sec.pairs.remove(j);
                        proof {
                            lemma_secs_remove(old_secs, i as int);
                            lemma_pairs_remove(old_pairs, j as int);
                            lemma_secs_push(old_secs.remove(i as int), sec);
                        }
                        self.sections.push(sec);
                        proof {
                            assert(final(self)@ =~~= old(self)@.insert(
                                section@,
                                old(self)@[section@].remove(key@),
                            ));
                        }
                        Some(p.value)
                    },
                    None => None,
                }
            },
            None => None,
        }
    }

    /// Remove the whole section named `section`; its entries come back if
    /// it existed.
    pub fn remove_section(&mut self, section: &str) -> (r: Option<Vec<Pair>>)
        requires
            old(self).inv(),
        ensures
            final(self).inv(),
            match r {
                Some(ps) => old(self)@.dom().contains(section@) && pairs_wf(ps@) && pairs_map(ps@)
                    == old(self)@[section@] && final(self)@ == old(self)@.remove(section@),
                None => !old(self)@.dom().contains(section@) && final(self)@ == old(self)@,
            },
    {
        proof {
            lemma_doc_map_char(self.sections@);
        }
        match find_section(&self.sections, section) {
            Some(i) => {
                let ghost old_secs = self.sections@;
                let sec = self.sections.remove(i);
                proof {
                    lemma_secs_remove(old_secs, i as int);
                    assert(final(self)@ =~~= old(self)@.remove(section@));
                }
                Some(sec.pairs)
            },
            None => None,
        }
    }
}

} // verus!
