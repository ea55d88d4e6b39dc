//! Case-insensitive lookup and removal.
//!
//! These variants compare section names and keys after lowercasing both
//! sides.  Lowercasing is Unicode case mapping, done by the standard
//! library; its result is named [`lower_of`] and the contracts here speak
//! of names and keys through that name.  When several sections (or keys)
//! lowercase to the same string, the document may hold all of them at
//! once; these operations use the first match in the document's storage
//! order, and their contracts promise only that some match is used.

use vstd::prelude::*;

use crate::document::{pairs_map, pairs_wf, IniDocument, Pair, Section};
use crate::document::{lemma_doc_map_char, lemma_pairs_map_char};
use crate::parse::DocMap;
use crate::text::str_eq;

verus! {

/// What `str::to_lowercase` returns for a given character sequence.
pub uninterp spec fn lower_of(s: Seq<char>) -> Seq<char>;

/// Relies on `str::to_lowercase`: the result is the Unicode lowercase
/// mapping of the input and depends on the input characters alone.
#[verifier::external_body]
fn lowercase(s: &str) -> (r: String)
    ensures
        r@ == lower_of(s@),
{
    s.to_lowercase()
}

/// Some section name of the document lowercases like `section`.
pub open spec fn ci_has_section(m: DocMap, section: Seq<char>) -> bool {
    exists|s: Seq<char>| #[trigger] m.dom().contains(s) && lower_of(s) == lower_of(section)
}

/// Some section name lowercases like `section` and holds a key that
/// lowercases like `key`.
pub open spec fn ci_has_pair(m: DocMap, key: Seq<char>, section: Seq<char>) -> bool {
    exists|s: Seq<char>, k: Seq<char>|
        #[trigger] m.dom().contains(s) && #[trigger] m[s].dom().contains(k) && lower_of(s)
            == lower_of(section) && lower_of(k) == lower_of(key)
}

/// Some pair of `ps` has a key that lowercases to `lkey`.
pub open spec fn ci_pair_in(ps: Seq<Pair>, lkey: Seq<char>) -> bool {
    exists|j: int| 0 <= j < ps.len() && lower_of((#[trigger] ps[j]).key@) == lkey
}

/// First section whose lowercased name is `lsec`.
fn find_section_ci(ss: &Vec<Section>, lsec: &str) -> (r: Option<usize>)
    ensures
        match r {
            Some(i) => i < ss@.len() && lower_of(ss@[i as int].name@) == lsec@,
            None => forall|i: int| 0 <= i < ss@.len() ==> lower_of((#[trigger] ss@[i]).name@) != lsec@,
        },
{
    let mut i: usize = 0;
    while i < ss.len()
        invariant
            i <= ss@.len(),
            forall|ii: int| 0 <= ii < i ==> lower_of((#[trigger] ss@[ii]).name@) != lsec@,
        decreases ss@.len() - i,
    {
        let lname = lowercase(ss[i].name.as_str());
        if str_eq(lname.as_str(), lsec) {
            return Some(i);
        }
        i = i + 1;
    }
    None
}

/// First pair of `ps` whose lowercased key is `lkey`.
fn find_pair_ci(ps: &Vec<Pair>, lkey: &str) -> (r: Option<usize>)
    ensures
        match r {
            Some(j) => j < ps@.len() && lower_of(ps@[j as int].key@) == lkey@,
            None => !ci_pair_in(ps@, lkey@),
        },
{
    let mut j: usize = 0;
    while j < ps.len()
        invariant
            j <= ps@.len(),
            forall|jj: int| 0 <= jj < j ==> lower_of((#[trigger] ps@[jj]).key@) != lkey@,
        decreases ps@.len() - j,
    {
        let lk = lowercase(ps[j].key.as_str());
        if str_eq(lk.as_str(), lkey) {
            return Some(j);
        }
        j = j + 1;
    }
    None
}

/// First (section, pair) position, scanning sections in storage order, with
/// the section's name lowercasing to `lsec` and the pair's key to `lkey`;
/// matching sections without a matching key are passed over.
fn find_pair_ci_in(ss: &Vec<Section>, lkey: &str, lsec: &str) -> (r: Option<(usize, usize)>)
    ensures
        match r {
            Some(ij) => ij.0 < ss@.len() && ij.1 < ss@[ij.0 as int].pairs@.len() && lower_of(
                ss@[ij.0 as int].name@,
            ) == lsec@ && lower_of(ss@[ij.0 as int].pairs@[ij.1 as int].key@) == lkey@,
            None => forall|i: int|
                0 <= i < ss@.len() ==> !(lower_of((#[trigger] ss@[i]).name@) == lsec@ && ci_pair_in(
                    ss@[i].pairs@,
                    lkey@,
                )),
        },
{
    let mut i: usize = 0;
    while i < ss.len()
        invariant
            i <= ss@.len(),
            forall|ii: int|
                0 <= ii < i ==> !(lower_of((#[trigger] ss@[ii]).name@) == lsec@ && ci_pair_in(
                    ss@[ii].pairs@,
                    lkey@,
                )),
        decreases ss@.len() - i,
    {
        let lname = lowercase(ss[i].name.as_str());
        if str_eq(lname.as_str(), lsec) {
            match find_pair_ci(&ss[i].pairs, lkey) {
                Some(j) => {
                    return Some((i, j));
                },
                None => {},
            }
        }
        i = i + 1;
    }
    None
}

/// The case-insensitive match positions carried over to the abstract map: a
/// found position witnesses `ci_has_pair`, and a fruitless scan refutes it.
proof fn lemma_no_scan_match(doc: &IniDocument, lkey: Seq<char>, lsec: Seq<char>)
    requires
        doc.inv(),
        forall|i: int|
            0 <= i < doc.sections@.len() ==> !(lower_of((#[trigger] doc.sections@[i]).name@)
                == lsec && ci_pair_in(doc.sections@[i].pairs@, lkey)),
    ensures
        forall|s: Seq<char>, k: Seq<char>|
            #[trigger] doc@.dom().contains(s) && #[trigger] doc@[s].dom().contains(k) ==> !(
            lower_of(s) == lsec && lower_of(k) == lkey),
{
    lemma_doc_map_char(doc.sections@);
    assert forall|s: Seq<char>, k: Seq<char>|
        #[trigger] doc@.dom().contains(s) && #[trigger] doc@[s].dom().contains(k) implies !(
    lower_of(s) == lsec && lower_of(k) == lkey) by {
        let i = choose|i: int|
            0 <= i < doc.sections@.len() && (#[trigger] doc.sections@[i]).name@ == s;
        let ps = doc.sections@[i].pairs@;
        lemma_pairs_map_char(ps);
        if lower_of(s) == lsec && lower_of(k) == lkey {
            let j = choose|j: int| 0 <= j < ps.len() && (#[trigger] ps[j]).key@ == k;
            assert(lower_of(ps[j].key@) == lkey);
            assert(ci_pair_in(ps, lkey));
        }
    }
}

impl IniDocument {
    /// Look up a value matching key and section case-insensitively; when
    /// several entries match, one of them is returned.
    pub fn get_case_insensitive<'a>(&'a self, key: &str, section: &str) -> (r: Option<&'a str>)
        requires
            self.inv(),
        ensures
            r is Some <==> ci_has_pair(self@, key@, section@),
            match r {
                Some(v) => exists|s: Seq<char>, k: Seq<char>|
                    #[trigger] self@.dom().contains(s) && #[trigger] self@[s].dom().contains(k)
                        && lower_of(s) == lower_of(section@) && lower_of(k) == lower_of(key@)
                        && self@[s][k] == v@,
                None => true,
            },
    {
        let lsec = lowercase(section);
        let lkey = lowercase(key);
        match find_pair_ci_in(&self.sections, lkey.as_str(), lsec.as_str()) {
            Some(ij) => {
                let (i, j) = ij;
                proof {
                    lemma_doc_map_char(self.sections@);
                    lemma_pairs_map_char(self.sections@[i as int].pairs@);
                    let s = self.sections@[i as int].name@;
                    let k = self.sections@[i as int].pairs@[j as int].key@;
                    assert(self@.dom().contains(s));
                    assert(self@[s].dom().contains(k));
                    assert(self@[s][k] == self.sections@[i as int].pairs@[j as int].value@);
                }
                Some(self.sections[i].pairs[j].value.as_str())
            },
            None => {
                proof {
                    lemma_no_scan_match(self, lkey@, lsec@);
                }
                None
            },
        }
    }

    /// The entries of a section matching `section` case-insensitively;
    /// when several sections match, one of them is returned.
    pub fn get_section_case_insensitive<'a>(&'a self, section: &str) -> (r: Option<&'a Vec<Pair>>)
        requires
            self.inv(),
        ensures
            r is Some <==> ci_has_section(self@, section@),
            match r {
                Some(ps) => pairs_wf(ps@) && exists|s: Seq<char>|
                    #[trigger] self@.dom().contains(s) && lower_of(s) == lower_of(section@)
                        && pairs_map(ps@) == self@[s],
                None => true,
            },
    {
        let lsec = lowercase(section);
        proof {
            lemma_doc_map_char(self.sections@);
        }
        match find_section_ci(&self.sections, lsec.as_str()) {
            Some(i) => {
                proof {
                    let s = self.sections@[i as int].name@;
                    assert(self@.dom().contains(s));
                    assert(self@[s] == pairs_map(self.sections@[i as int].pairs@));
                }
                Some(&self.sections[i].pairs)
            },
            None => {
                proof {
                    assert forall|s: Seq<char>| #[trigger] self@.dom().contains(s) implies lower_of(
                        s,
                    ) != lower_of(section@) by {
                        let i = choose|i: int|
                            0 <= i < self.sections@.len() && (#[trigger] self.sections@[i]).name@
                                == s;
                    }
                }
                None
            },
        }
    }

    /// Remove a key matching key and section case-insensitively; when
    /// several entries match, one of them is removed and returned.
    pub fn remove_case_insensitive(&mut self, key: &str, section: &str) -> (r: Option<String>)
        requires
            old(self).inv(),
        ensures
            final(self).inv(),
            r is Some <==> ci_has_pair(old(self)@, key@, section@),
            match r {
                Some(v) => exists|s: Seq<char>, k: Seq<char>|
                    #[trigger] old(self)@.dom().contains(s) && #[trigger] old(
                        self,
                    )@[s].dom().contains(k) && lower_of(s) == lower_of(section@) && lower_of(k)
                        == lower_of(key@) && v@ == old(self)@[s][k] && final(self)@ == old(
                        self,
                    )@.insert(s, old(self)@[s].remove(k)),
                None => final(self)@ == old(self)@,
            },
    {
        let lsec = lowercase(section);
        let lkey = lowercase(key);
        match find_pair_ci_in(&self.sections, lkey.as_str(), lsec.as_str()) {
            Some(ij) => {
                let (i, j) = ij;
                let sname = self.sections[i].name.clone();
                let kname = self.sections[i].pairs[j].key.clone();
                proof {
                    lemma_doc_map_char(self.sections@);
                    lemma_pairs_map_char(self.sections@[i as int].pairs@);
                    assert(self@.dom().contains(sname@));
                    assert(self@[sname@].dom().contains(kname@));
                }
                self.remove(kname.as_str(), sname.as_str())
            },
            None => {
                proof {
                    lemma_no_scan_match(self, lkey@, lsec@);
                }
                None
            },
        }
    }

    /// Remove a whole section matching `section` case-insensitively; when
    /// several sections match, one of them is removed and returned.
    pub fn remove_section_case_insensitive(&mut self, section: &str) -> (r: Option<Vec<Pair>>)
        requires
            old(self).inv(),
        ensures
            final(self).inv(),
            r is Some <==> ci_has_section(old(self)@, section@),
            match r {
                Some(ps) => pairs_wf(ps@) && exists|s: Seq<char>|
                    #[trigger] old(self)@.dom().contains(s) && lower_of(s) == lower_of(section@)
                        && pairs_map(ps@) == old(self)@[s] && final(self)@ == old(self)@.remove(s),
                None => final(self)@ == old(self)@,
            },
    {
        let lsec = lowercase(section);
        proof {
            lemma_doc_map_char(self.sections@);
        }
        match find_section_ci(&self.sections, lsec.as_str()) {
            Some(i) => {
                let sname = self.sections[i].name.clone();
                proof {
                    assert(self@.dom().contains(sname@));
                }
                self.remove_section(sname.as_str())
            },
            None => {
                proof {
                    assert forall|s: Seq<char>| #[trigger] self@.dom().contains(s) implies lower_of(
                        s,
                    ) != lower_of(section@) by {
                        let i = choose|i: int|
                            0 <= i < self.sections@.len() && (#[trigger] self.sections@[i]).name@
                                == s;
                    }
                }
                None
            },
        }
    }
}

} // verus!
