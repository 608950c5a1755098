//! A named collection of license texts, and the search for the license that
//! a text matches best.

use rayon::iter::{IntoParallelRefIterator, ParallelIterator};
use vstd::multiset::Multiset;
use vstd::prelude::*;

use crate::error::Error;
use crate::license::{LicenseType, TextData};
use crate::ngram::dice_ratio;
use crate::score::{ratio_lt, Score};
use crate::text::string_views;

verus! {

/// One license: its canonical text, its headers and alternate forms, and
/// other names for it.
#[derive(Debug)]
pub struct LicenseEntry {
    pub original: TextData,
    pub aliases: Vec<String>,
    pub headers: Vec<TextData>,
    pub alternates: Vec<TextData>,
}

impl LicenseEntry {
    /// The entry holds `original` and nothing else.
    pub open spec fn fresh(&self, original: TextData) -> bool {
        &&& self.original == original
        &&& self.aliases@.len() == 0
        &&& self.headers@.len() == 0
        &&& self.alternates@.len() == 0
    }

    /// Every text of the entry is well formed.
    pub open spec fn wf(&self) -> bool {
        &&& self.original.wf()
        &&& forall|j: int| 0 <= j < self.headers@.len() ==> (#[trigger] self.headers@[j]).wf()
        &&& forall|j: int| 0 <= j < self.alternates@.len() ==> (#[trigger] self.alternates@[j]).wf()
    }

    /// An entry with the given canonical text and nothing else.
    pub fn new(original: TextData) -> (r: LicenseEntry)
        ensures
            r.fresh(original),
    {
        LicenseEntry { original, aliases: Vec::new(), alternates: Vec::new(), headers: Vec::new() }
    }
}

/// The texts of an entry in the order they are compared: the original,
/// then the alternates, then the headers.
pub open spec fn candidates(e: LicenseEntry) -> Seq<(LicenseType, TextData)> {
    seq![(LicenseType::Original, e.original)] + e.alternates@.map_values(
        |t: TextData| (LicenseType::Alternate, t),
    ) + e.headers@.map_values(|t: TextData| (LicenseType::Header, t))
}

/// The similarity of each text of an entry with `text`.
pub open spec fn candidate_scores(e: LicenseEntry, g: Multiset<Seq<char>>) -> Seq<(nat, nat)> {
    candidates(e).map_values(|c: (LicenseType, TextData)| dice_ratio(c.1.grams(), 2, g, 2))
}

/// The first index with the highest score.
pub open spec fn first_best(s: Seq<(nat, nat)>) -> int
    decreases s.len(),
{
    if s.len() <= 1 {
        0
    } else {
        let b = first_best(s.drop_last());
        if ratio_lt(s[b], s.last()) {
            s.len() - 1
        } else {
            b
        }
    }
}

/// The best score that an entry reaches against `text`.
pub open spec fn entry_best(e: LicenseEntry, g: Multiset<Seq<char>>) -> (nat, nat) {
    candidate_scores(e, g)[first_best(candidate_scores(e, g))]
}

/// The best score of each entry against `text`, in store order.
pub open spec fn entry_bests(entries: Seq<(String, LicenseEntry)>, g: Multiset<Seq<char>>) -> Seq<
    (nat, nat),
> {
    entries.map_values(|p: (String, LicenseEntry)| entry_best(p.1, g))
}

/// The position of `name` among the entries, where it is there.
pub open spec fn position(entries: Seq<(String, LicenseEntry)>, name: Seq<char>) -> int {
    if exists|i: int| 0 <= i < entries.len() && entries[i].0@ == name {
        choose|i: int| 0 <= i < entries.len() && entries[i].0@ == name
    } else {
        -1
    }
}

/// The position among an entry's candidates of the text that `kind` and
/// `j` name: the original, the `j`-th alternate or the `j`-th header.
pub open spec fn candidate_index(e: LicenseEntry, kind: LicenseType, j: int) -> int {
    match kind {
        LicenseType::Original => 0,
        LicenseType::Alternate => 1 + j,
        LicenseType::Header => 1 + e.alternates@.len() + j,
    }
}

/// `r` names the first best candidate of the entry against `text`, and its score.
pub open spec fn best_ok(e: LicenseEntry, g: Multiset<Seq<char>>, r: (LicenseType, usize, Score)) -> bool {
    let k = candidate_index(e, r.0, r.1 as int);
    &&& k == first_best(candidate_scores(e, g))
    &&& 0 <= k < candidates(e).len()
    &&& candidates(e)[k].0 == r.0
    &&& r.2.ratio() == entry_best(e, g)
}

/// The first best candidate of the entry against `text`.
pub fn entry_best_of(e: &LicenseEntry, text: &TextData) -> (r: (LicenseType, usize, Score))
    requires
        e.wf(),
        text.wf(),
    ensures
        best_ok(*e, text.grams(), r),
{
    let ghost sc = candidate_scores(*e, text.grams());
    let ghost cs = candidates(*e);
    let na = e.alternates.len();
    let nh = e.headers.len();
    assert(cs.len() == 1 + na + nh);
    assert(cs[0] == (LicenseType::Original, e.original));
    let mut best: (LicenseType, usize, Score) = (
        LicenseType::Original,
        0,
        e.original.match_score(text),
    );
    proof {
        lemma_dice_symmetric_ratio(e.original, *text);
    }
    let mut j: usize = 0;
    while j < na
        invariant
            e.wf(),
            text.wf(),
            na == e.alternates@.len(),
            nh == e.headers@.len(),
            sc == candidate_scores(*e, text.grams()),
            cs == candidates(*e),
            cs.len() == 1 + na + nh,
            j <= na,
            candidate_index(*e, best.0, best.1 as int) == first_best(sc.take(1 + j)),
            0 <= candidate_index(*e, best.0, best.1 as int) < 1 + j,
            cs[candidate_index(*e, best.0, best.1 as int)].0 == best.0,
            best.2.ratio() == sc[candidate_index(*e, best.0, best.1 as int)],
        decreases na - j,
    {
        let s = e.alternates[j].match_score(text);
        proof {
            lemma_dice_symmetric_ratio(e.alternates@[j as int], *text);
            assert(cs[1 + j] == (LicenseType::Alternate, e.alternates@[j as int]));
            assert(sc.take(1 + j + 1).drop_last() =~= sc.take(1 + j));
        }
        if best.2.less_than(&s) {
            best = (LicenseType::Alternate, j, s);
        }
        j += 1;
    }
    j = 0;
    while j < nh
        invariant
            e.wf(),
            text.wf(),
            na == e.alternates@.len(),
            nh == e.headers@.len(),
            sc == candidate_scores(*e, text.grams()),
            cs == candidates(*e),
            cs.len() == 1 + na + nh,
            j <= nh,
            candidate_index(*e, best.0, best.1 as int) == first_best(sc.take(1 + na + j)),
            0 <= candidate_index(*e, best.0, best.1 as int) < 1 + na + j,
            cs[candidate_index(*e, best.0, best.1 as int)].0 == best.0,
            best.2.ratio() == sc[candidate_index(*e, best.0, best.1 as int)],
        decreases nh - j,
    {
        let s = e.headers[j].match_score(text);
        proof {
            lemma_dice_symmetric_ratio(e.headers@[j as int], *text);
            assert(cs[1 + na + j] == (LicenseType::Header, e.headers@[j as int]));
            assert(sc.take(1 + na + j + 1).drop_last() =~= sc.take(1 + na + j));
        }
        if best.2.less_than(&s) {
            best = (LicenseType::Header, j, s);
        }
        j += 1;
    }
    assert(sc.take(1 + na + nh) =~= sc);
    best
}

/// Every text among an entry's candidates is well formed.
pub proof fn lemma_candidates_wf(e: LicenseEntry, k: int)
    requires
        e.wf(),
        0 <= k < candidates(e).len(),
    ensures
        candidates(e)[k].1.wf(),
{
    let na = e.alternates@.len() as int;
    if 1 <= k < 1 + na {
        assert(candidates(e)[k] == (LicenseType::Alternate, e.alternates@[k - 1]));
    } else if k >= 1 + na {
        assert(candidates(e)[k] == (LicenseType::Header, e.headers@[k - 1 - na]));
    }
}

proof fn lemma_dice_symmetric_ratio(a: TextData, b: TextData)
    ensures
        dice_ratio(a.grams(), 2, b.grams(), 2) == dice_ratio(b.grams(), 2, a.grams(), 2),
{
    crate::ngram::law_dice_symmetric_and_bounded(a.grams(), b.grams(), 2);
}

/// Relies on rayon's indexed `par_iter().map(..).collect()`: one result for
/// each entry, in the order of the entries.
#[verifier::external_body]
fn par_entry_bests(entries: &Vec<(String, LicenseEntry)>, text: &TextData) -> (r: Vec<
    (LicenseType, usize, Score),
>)
    requires
        forall|i: int| 0 <= i < entries@.len() ==> (#[trigger] entries@[i]).1.wf(),
        text.wf(),
    ensures
        r@.len() == entries@.len(),
        forall|i: int| 0 <= i < entries@.len() ==> best_ok(entries@[i].1, text.grams(), #[trigger] r@[i]),
{
    entries.par_iter().map(|p| entry_best_of(&p.1, text)).collect()
}

/// The closest license that a store holds for a text.
#[derive(Debug)]
pub struct Match<'a> {
    /// The similarity, a fraction in `[0, 1]`.
    pub score: Score,
    /// The name of the matching license.
    pub name: &'a str,
    /// Which of the license's texts matched.
    pub license_type: LicenseType,
    /// The text that matched.
    pub data: &'a TextData,
}

/// Known licenses by name, kept in the order they were added.
pub struct Store {
    licenses: Vec<(String, LicenseEntry)>,
}

impl Store {
    /// The entries in the order they were added.
    pub closed spec fn entries(&self) -> Seq<(String, LicenseEntry)> {
        self.licenses@
    }

    /// Names are unique and every entry is well formed.
    pub open spec fn wf(&self) -> bool {
        &&& forall|a: int, b: int|
            0 <= a < b < self.entries().len() ==> self.entries()[a].0@ != self.entries()[b].0@
        &&& forall|a: int| 0 <= a < self.entries().len() ==> (#[trigger] self.entries()[a]).1.wf()
    }

    /// An empty store.
    pub fn new() -> (r: Store)
        ensures
            r.wf(),
            r.entries().len() == 0,
    {
        Store { licenses: Vec::new() }
    }

    /// The number of licenses, not counting headers, alternates or aliases.
    pub fn len(&self) -> (r: usize)
        ensures
            r == self.entries().len(),
    {
        self.licenses.len()
    }

    pub fn is_empty(&self) -> (r: bool)
        ensures
            r == (self.entries().len() == 0),
    {
        self.licenses.len() == 0
    }

    /// The names of all licenses, in the order they were added.
    pub fn licenses(&self) -> (r: Vec<String>)
        ensures
            string_views(r@) == self.entries().map_values(|p: (String, LicenseEntry)| p.0@),
    {
        let mut names: Vec<String> = Vec::new();
        let mut i: usize = 0;
        while i < self.licenses.len()
            invariant
                i <= self.entries().len(),
                string_views(names@) == self.entries().take(i as int).map_values(
                    |p: (String, LicenseEntry)| p.0@,
                ),
            decreases self.entries().len() - i,
        {
            let n = self.licenses[i].0.clone();
            let ghost before = string_views(names@);
            let ghost nv = n@;
            names.push(n);
            proof {
                assert(string_views(names@) =~= before.push(nv));
                assert(self.entries().take(i + 1) =~= self.entries().take(i as int).push(
                    self.entries()[i as int],
                ));
            }
            i += 1;
            assert(string_views(names@) =~= self.entries().take(i as int).map_values(
                |p: (String, LicenseEntry)| p.0@,
            ));
        }
        assert(self.entries().take(i as int) =~= self.entries());
        names
    }

    /// The index of the entry named `name`.
    fn find(&self, name: &str) -> (r: Option<usize>)
        requires
            self.wf(),
        ensures
            match r {
                Some(i) => i == position(self.entries(), name@) && i < self.entries().len(),
                None => position(self.entries(), name@) == -1,
            },
    {
        let key = name.to_owned();
        let mut i: usize = 0;
        while i < self.licenses.len()
            invariant
                self.wf(),
                i <= self.entries().len(),
                key@ == name@,
                forall|j: int| 0 <= j < i ==> self.entries()[j].0@ != name@,
            decreases self.entries().len() - i,
        {
            if self.licenses[i].0 == key {
                proof {
                    let p = position(self.entries(), name@);
                    assert(0 <= p < self.entries().len() && self.entries()[p].0@ == name@);
                    if p != i {
                        if p < i {
                            assert(self.entries()[p].0@ != self.entries()[i as int].0@);
                        } else {
                            assert(self.entries()[i as int].0@ != self.entries()[p].0@);
                        }
                    }
                }
                return Some(i);
            }
            i += 1;
        }
        None
    }

    /// The entry of the license named `name`.
    pub fn get_entry(&self, name: &str) -> (r: Option<&LicenseEntry>)
        requires
            self.wf(),
        ensures
            r is Some <==> position(self.entries(), name@) >= 0,
            r is Some ==> *r->0 == self.entries()[position(self.entries(), name@)].1,
    {
        match self.find(name) {
            Some(i) => Some(&self.licenses[i].1),
            None => None,
        }
    }

    /// The canonical text of the license named `name`.
    pub fn get_original(&self, name: &str) -> (r: Option<&TextData>)
        requires
            self.wf(),
        ensures
            r is Some <==> position(self.entries(), name@) >= 0,
            r is Some ==> *r->0 == self.entries()[position(self.entries(), name@)].1.original,
    {
        match self.find(name) {
            Some(i) => Some(&self.licenses[i].1.original),
            None => None,
        }
    }

    /// Adds a license, replacing any license of the same name together
    /// with its variants and aliases.
    pub fn add_license(&mut self, name: String, data: TextData)
        requires
            old(self).wf(),
            data.wf(),
        ensures
            final(self).wf(),
            ({
                let p = position(old(self).entries(), name@);
                let k = if p >= 0 {
                    p
                } else {
                    old(self).entries().len() as int
                };
                &&& final(self).entries().len() == if p >= 0 {
                    old(self).entries().len()
                } else {
                    old(self).entries().len() + 1
                }
                &&& final(self).entries()[k].0@ == name@
                &&& final(self).entries()[k].1.fresh(data)
                &&& forall|j: int|
                    0 <= j < old(self).entries().len() && j != k ==> final(self).entries()[j]
                        == old(self).entries()[j]
            }),
    {
        let entry = LicenseEntry::new(data);
        match self.find(name.as_str()) {
            Some(i) => {
                self.licenses.set(i, (name, entry));
            },
            None => {
                self.licenses.push((name, entry));
            },
        }
        proof {
            assert forall|a: int, b: int|
                0 <= a < b < self.entries().len() implies self.entries()[a].0@
                != self.entries()[b].0@ by {
                if b == old(self).entries().len() {
                    assert(old(self).entries()[a].0@ != name@);
                }
                let p = position(old(self).entries(), name@);
                if p >= 0 && (a == p || b == p) {
                    if a == p {
                        assert(old(self).entries()[b].0@ != old(self).entries()[a].0@);
                    } else {
                        assert(old(self).entries()[a].0@ != old(self).entries()[b].0@);
                    }
                }
            }
            assert forall|a: int| 0 <= a < self.entries().len() implies (#[trigger] self.entries()[
                a
            ]).1.wf() by {
                if a < old(self).entries().len() {
                    assert(old(self).entries()[a].1.wf());
                }
            }
        }
    }
}

impl Store {
    /// Adds a header or an alternate form to the license named `name`.
    pub fn add_variant(&mut self, name: &str, variant: LicenseType, data: TextData) -> (r: Result<
        (),
        Error,
    >)
        requires
            old(self).wf(),
            data.wf(),
        ensures
            final(self).wf(),
            ({
                let p = position(old(self).entries(), name@);
                &&& p < 0 ==> r == Err::<(), Error>(Error::UnknownLicense) && final(self).entries()
                    == old(self).entries()
                &&& p >= 0 && variant == LicenseType::Original ==> r == Err::<(), Error>(
                    Error::InvalidVariant,
                ) && final(self).entries() == old(self).entries()
                &&& p >= 0 && variant != LicenseType::Original ==> {
                    let o = old(self).entries()[p];
                    let n = final(self).entries()[p];
                    &&& r is Ok
                    &&& final(self).entries().len() == old(self).entries().len()
                    &&& forall|j: int|
                        0 <= j < old(self).entries().len() && j != p ==> final(self).entries()[j]
                            == old(self).entries()[j]
                    &&& n.0 == o.0
                    &&& n.1.original == o.1.original
                    &&& n.1.aliases == o.1.aliases
                    &&& variant == LicenseType::Header ==> n.1.headers@ == o.1.headers@.push(data)
                        && n.1.alternates == o.1.alternates
                    &&& variant == LicenseType::Alternate ==> n.1.alternates@
                        == o.1.alternates@.push(data) && n.1.headers == o.1.headers
                }
            }),
    {
        match self.find(name) {
            None => Err(Error::UnknownLicense),
            Some(i) => {
                match variant {
                    LicenseType::Original => Err(Error::InvalidVariant),
                    _ => {
                        let (n, mut e) = self.licenses.remove(i);
                        match variant {
                            LicenseType::Alternate => e.alternates.push(data),
                            _ => e.headers.push(data),
                        }
                        self.licenses.insert(i, (n, e));
                        proof {
                            assert(self.entries() =~= old(self).entries().update(
                                i as int,
                                self.entries()[i as int],
                            ));
                            assert forall|a: int|
                                0 <= a < self.entries().len() implies (#[trigger] self.entries()[
                                a
                            ]).1.wf() by {
                                if a != i {
                                    assert(old(self).entries()[a].1.wf());
                                }
                            }
                            assert forall|a: int, b: int|
                                0 <= a < b < self.entries().len() implies self.entries()[a].0@
                                != self.entries()[b].0@ by {
                                assert(old(self).entries()[a].0@ != old(self).entries()[b].0@);
                            }
                        }
                        Ok(())
                    },
                }
            },
        }
    }

    /// The other names of the license named `name`.
    pub fn aliases(&self, name: &str) -> (r: Result<&Vec<String>, Error>)
        requires
            self.wf(),
        ensures
            position(self.entries(), name@) < 0 <==> r is Err,
            r is Err ==> r->Err_0 == Error::UnknownLicense,
            r is Ok ==> *r->Ok_0 == self.entries()[position(self.entries(), name@)].1.aliases,
    {
        match self.find(name) {
            Some(i) => Ok(&self.licenses[i].1.aliases),
            None => Err(Error::UnknownLicense),
        }
    }

    /// Replaces the other names of the license named `name`.
    pub fn set_aliases(&mut self, name: &str, aliases: Vec<String>) -> (r: Result<(), Error>)
        requires
            old(self).wf(),
        ensures
            final(self).wf(),
            ({
                let p = position(old(self).entries(), name@);
                &&& p < 0 ==> r == Err::<(), Error>(Error::UnknownLicense) && final(self).entries()
                    == old(self).entries()
                &&& p >= 0 ==> {
                    let o = old(self).entries()[p];
                    let n = final(self).entries()[p];
                    &&& r is Ok
                    &&& final(self).entries().len() == old(self).entries().len()
                    &&& forall|j: int|
                        0 <= j < old(self).entries().len() && j != p ==> final(self).entries()[j]
                            == old(self).entries()[j]
                    &&& n.0 == o.0
                    &&& n.1.original == o.1.original
                    &&& n.1.headers == o.1.headers
                    &&& n.1.alternates == o.1.alternates
                    &&& n.1.aliases == aliases
                }
            }),
    {
        match self.find(name) {
            None => Err(Error::UnknownLicense),
            Some(i) => {
                let (n, mut e) = self.licenses.remove(i);
                e.aliases = aliases;
                self.licenses.insert(i, (n, e));
                proof {
                    assert(self.entries() =~= old(self).entries().update(
                        i as int,
                        self.entries()[i as int],
                    ));
                    assert forall|a: int|
                        0 <= a < self.entries().len() implies (#[trigger] self.entries()[a]).1.wf() by {
                        if a != i {
                            assert(old(self).entries()[a].1.wf());
                        }
                    }
                    assert forall|a: int, b: int|
                        0 <= a < b < self.entries().len() implies self.entries()[a].0@
                        != self.entries()[b].0@ by {
                        assert(old(self).entries()[a].0@ != old(self).entries()[b].0@);
                    }
                }
                Ok(())
            },
        }
    }

    /// Compares `text` with every text of every license and gives the best
    /// match: the first entry, in store order, with the highest score, and
    /// within it the first of its texts (original, alternates, headers) with
    /// that score. Fails when the store is empty.
    pub fn analyze<'a>(&'a self, text: &TextData) -> (r: Result<Match<'a>, Error>)
        requires
            self.wf(),
            text.wf(),
        ensures
            self.entries().len() == 0 <==> r is Err,
            r is Err ==> r->Err_0 == Error::NoMatch,
            r is Ok ==> {
                let m = r->Ok_0;
                let i = first_best(entry_bests(self.entries(), text.grams()));
                let e = self.entries()[i].1;
                let k = first_best(candidate_scores(e, text.grams()));
                &&& 0 <= i < self.entries().len()
                &&& 0 <= k < candidates(e).len()
                &&& m.data.wf()
                &&& m.name@ == self.entries()[i].0@
                &&& (m.license_type, *m.data) == candidates(e)[k]
                &&& m.score.ratio() == entry_best(e, text.grams())
            },
    {
        if self.licenses.len() == 0 {
            return Err(Error::NoMatch);
        }
        assert forall|i: int| 0 <= i < self.licenses@.len() implies (
        #[trigger] self.licenses@[i]).1.wf() by {
            assert(self.entries()[i].1.wf());
        }
        let bests = par_entry_bests(&self.licenses, text);
        let ghost eb = entry_bests(self.entries(), text.grams());
        let mut b: usize = 0;
        let mut i: usize = 1;
        assert(eb.take(1).len() == 1);
        while i < bests.len()
            invariant
                bests@.len() == self.entries().len(),
                forall|j: int|
                    0 <= j < self.entries().len() ==> best_ok(
                        self.entries()[j].1,
                        text.grams(),
                        #[trigger] bests@[j],
                    ),
                eb == entry_bests(self.entries(), text.grams()),
                1 <= i <= bests@.len(),
                b < i,
                b as int == first_best(eb.take(i as int)),
            decreases bests@.len() - i,
        {
            proof {
                assert(eb.take(i + 1).drop_last() =~= eb.take(i as int));
                assert(best_ok(self.entries()[i as int].1, text.grams(), bests@[i as int]));
                assert(best_ok(self.entries()[b as int].1, text.grams(), bests@[b as int]));
            }
            if bests[b].2.less_than(&bests[i].2) {
                b = i;
            }
            i += 1;
        }
        assert(eb.take(bests@.len() as int) =~= eb);
        let (kind, j, score) = bests[b];
        let entry = &self.licenses[b].1;
        assert(best_ok(*entry, text.grams(), bests@[b as int]));
        proof {
            lemma_candidates_wf(*entry, candidate_index(*entry, kind, j as int));
        }
        let data = match kind {
            LicenseType::Original => &entry.original,
            LicenseType::Alternate => &entry.alternates[j],
            LicenseType::Header => &entry.headers[j],
        };
        Ok(Match { score, name: self.licenses[b].0.as_str(), license_type: kind, data })
    }
}

/// `id` is the entry's name or one of its aliases.
pub open spec fn names_entry(e: (String, LicenseEntry), id: Seq<char>) -> bool {
    e.0@ == id || exists|a: int| 0 <= a < e.1.aliases@.len() && e.1.aliases@[a]@ == id
}

/// Whether `name` is the entry's name or one of its aliases.
fn entry_named(e: &(String, LicenseEntry), name: &String) -> (r: bool)
    ensures
        r == names_entry(*e, name@),
{
    if e.0 == *name {
        return true;
    }
    let mut a: usize = 0;
    while a < e.1.aliases.len()
        invariant
            a <= e.1.aliases@.len(),
            e.0@ != name@,
            forall|b: int| 0 <= b < a ==> e.1.aliases@[b]@ != name@,
        decreases e.1.aliases@.len() - a,
    {
        if e.1.aliases[a] == *name {
            return true;
        }
        a += 1;
    }
    false
}

/// The entries after merging in a license `id` with text `content` and an
/// optional header: where entries have the same bigrams as `content`, `id`
/// becomes an alias of each of them that it does not name already;
/// otherwise an entry of that name is made where there is none, and the
/// header replaces the entry's headers.
pub open spec fn merged(
    old: Seq<(String, LicenseEntry)>,
    new: Seq<(String, LicenseEntry)>,
    id: Seq<char>,
    content: TextData,
    header: Option<TextData>,
) -> bool {
    let g = content.grams();
    let known = exists|j: int| 0 <= j < old.len() && old[j].1.original.grams() == g;
    if known {
        &&& new.len() == old.len()
        &&& forall|j: int|
            0 <= j < old.len() ==> {
                let o = #[trigger] old[j];
                let n = new[j];
                &&& n.0 == o.0
                &&& n.1.original == o.1.original
                &&& n.1.headers == o.1.headers
                &&& n.1.alternates == o.1.alternates
                &&& if o.1.original.grams() == g && !names_entry(o, id) {
                    n.1.aliases@.len() == o.1.aliases@.len() + 1 && n.1.aliases@.drop_last()
                        == o.1.aliases@ && n.1.aliases@.last()@ == id
                } else {
                    n.1.aliases == o.1.aliases
                }
            }
    } else {
        let p = position(old, id);
        let k = if p >= 0 {
            p
        } else {
            old.len() as int
        };
        &&& new.len() == if p >= 0 {
            old.len()
        } else {
            old.len() + 1
        }
        &&& forall|j: int| 0 <= j < old.len() && j != k ==> new[j] == old[j]
        &&& new[k].0@ == id
        &&& p < 0 ==> new[k].1.original == content && new[k].1.aliases@.len() == 0
            && new[k].1.alternates@.len() == 0
        &&& p >= 0 ==> new[k].0 == old[k].0 && new[k].1.original == old[k].1.original
            && new[k].1.aliases == old[k].1.aliases && new[k].1.alternates == old[k].1.alternates
        &&& header is Some ==> new[k].1.headers@ == seq![header->0]
        &&& header is None ==> (p >= 0 ==> new[k].1.headers == old[k].1.headers) && (p < 0
            ==> new[k].1.headers@.len() == 0)
    }
}

impl Store {
    /// Merges in a license: as an alias of every entry with the same
    /// bigrams, or else as its own entry with the header as its only header.
    pub(crate) fn add_spdx_license(
        &mut self,
        name: String,
        content: TextData,
        header: Option<TextData>,
    )
        requires
            old(self).wf(),
            content.wf(),
            header is Some ==> header->0.wf(),
        ensures
            final(self).wf(),
            merged(old(self).entries(), final(self).entries(), name@, content, header),
    {
        let ghost g = content.grams();
        let ghost o = old(self).entries();
        let mut known = false;
        let mut i: usize = 0;
        while i < self.licenses.len()
            invariant
                o == old(self).entries(),
                g == content.grams(),
                content.wf(),
                self.wf(),
                self.entries().len() == o.len(),
                i <= o.len(),
                forall|j: int|
                    0 <= j < i ==> {
                        let oj = #[trigger] o[j];
                        let n = self.entries()[j];
                        &&& n.0 == oj.0
                        &&& n.1.original == oj.1.original
                        &&& n.1.headers == oj.1.headers
                        &&& n.1.alternates == oj.1.alternates
                        &&& if oj.1.original.grams() == g && !names_entry(oj, name@) {
                            n.1.aliases@.len() == oj.1.aliases@.len() + 1 && n.1.aliases@.drop_last()
                                == oj.1.aliases@ && n.1.aliases@.last()@ == name@
                        } else {
                            n.1.aliases == oj.1.aliases
                        }
                    },
                forall|j: int| i <= j < o.len() ==> self.entries()[j] == o[j],
                known == exists|j: int| 0 <= j < i && o[j].1.original.grams() == g,
            decreases o.len() - i,
        {
            assert(self.entries()[i as int].1.wf());
            assert(self.entries()[i as int] == o[i as int]);
            let ghost prev = self.entries();
            if self.licenses[i].1.original.eq_data(&content) && entry_named(&self.licenses[i], &name) {
                known = true;
                assert(o[i as int].1.original.grams() == g);
            } else if self.licenses[i].1.original.eq_data(&content) {
                let (n, mut e) = self.licenses.remove(i);
                let ghost before = e.aliases@;
                e.aliases.push(name.clone());
                assert(e.aliases@.drop_last() =~= before);
                self.licenses.insert(i, (n, e));
                known = true;
                proof {
                    assert(self.entries() =~= prev.update(i as int, self.entries()[i as int]));
                    assert(o[i as int].1.original.grams() == g);
                    assert forall|a: int, b: int|
                        0 <= a < b < self.entries().len() implies self.entries()[a].0@
                        != self.entries()[b].0@ by {
                        assert(prev[a].0@ != prev[b].0@);
                    }
                    assert forall|a: int|
                        0 <= a < self.entries().len() implies (#[trigger] self.entries()[a]).1.wf() by {
                        assert(prev[a].1.wf());
                    }
                }
            } else {
                assert(o[i as int].1.original.grams() != g);
            }
            proof {
                if known {
                    if !(exists|j: int| 0 <= j < i && o[j].1.original.grams() == g) {
                        assert(o[i as int].1.original.grams() == g);
                    }
                } else {
                    assert(!exists|j: int| 0 <= j < i + 1 && o[j].1.original.grams() == g);
                }
            }
            i += 1;
        }
        if known {
            return;
        }
        assert(!exists|j: int| 0 <= j < o.len() && o[j].1.original.grams() == g);
        assert(self.entries() =~= o);
        match self.find(name.as_str()) {
            Some(p) => {
                match header {
                    Some(h) => {
                        let (n, mut e) = self.licenses.remove(p);
                        e.headers = vec![h];
                        assert(e.headers@ == seq![h]);
                        self.licenses.insert(p, (n, e));
                        proof {
                            assert(self.entries() =~= o.update(p as int, self.entries()[p as int]));
                            assert(o[p as int].0@ == name@);
                            assert forall|a: int, b: int|
                                0 <= a < b < self.entries().len() implies self.entries()[a].0@
                                != self.entries()[b].0@ by {
                                assert(o[a].0@ != o[b].0@);
                            }
                            assert forall|a: int|
                                0 <= a < self.entries().len() implies (
                                #[trigger] self.entries()[a]).1.wf() by {
                                assert(o[a].1.wf());
                            }
                        }
                    },
                    None => {},
                }
            },
            None => {
                let mut e = LicenseEntry::new(content);
                match header {
                    Some(h) => {
                        e.headers = vec![h];
                        assert(e.headers@ == seq![h]);
                    },
                    None => {},
                }
                let ghost nv = name@;
                self.licenses.push((name, e));
                proof {
                    assert(self.entries() =~= o.push(self.entries()[o.len() as int]));
                    assert(self.entries()[o.len() as int].0@ == nv);
                    assert forall|a: int, b: int|
                        0 <= a < b < self.entries().len() implies self.entries()[a].0@
                        != self.entries()[b].0@ by {
                        if b == o.len() {
                            assert(o[a].0@ != name@);
                        } else {
                            assert(o[a].0@ != o[b].0@);
                        }
                    }
                    assert forall|a: int|
                        0 <= a < self.entries().len() implies (#[trigger] self.entries()[a]).1.wf() by {
                        if a < o.len() {
                            assert(o[a].1.wf());
                        }
                    }
                }
            },
        }
    }
}

proof fn lemma_first_best_in_range(s: Seq<(nat, nat)>)
    requires
        s.len() > 0,
    ensures
        0 <= first_best(s) < s.len(),
    decreases s.len(),
{
    if s.len() > 1 {
        lemma_first_best_in_range(s.drop_last());
    }
}

/// A text without bigrams scores zero against every license.
pub proof fn law_empty_text_scores_zero(e: LicenseEntry, g: Multiset<Seq<char>>)
    requires
        g.len() == 0,
    ensures
        entry_best(e, g) == (0nat, 1nat),
{
    lemma_first_best_in_range(candidate_scores(e, g));
}

} // verus!
