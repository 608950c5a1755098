//! Loading license documents in the SPDX JSON format into a store.

use vstd::multiset::Multiset;
use vstd::prelude::*;

use crate::error::Error;
use crate::license::{bigrams, view_text, TextData};
use crate::preproc::normalized_lines;
use crate::store::{merged, names_entry, position, LicenseEntry, Store};

verus! {

/// What `serde_json` gives for the string field `key` of the JSON object
/// `doc`: nothing where `doc` does not parse or the field is not a string.
pub uninterp spec fn json_string_at(doc: Seq<char>, key: Seq<char>) -> Option<Seq<char>>;

/// What `serde_json` gives for the boolean field `key` of the JSON object
/// `doc`: nothing where `doc` does not parse or the field is not a boolean.
pub uninterp spec fn json_bool_at(doc: Seq<char>, key: Seq<char>) -> Option<bool>;

/// Relies on `serde_json::from_str`, `Value::get` and `Value::as_str`: the
/// string field `key` of the parsed document.
#[verifier::external_body]
fn json_string_field(doc: &str, key: &str) -> (r: Option<String>)
    ensures
        r matches Some(s) ==> json_string_at(doc@, key@) == Some(s@),
        r is None ==> json_string_at(doc@, key@) is None,
{
    match serde_json::from_str::<serde_json::Value>(doc) {
        Ok(v) => v.get(key).and_then(serde_json::Value::as_str).map(String::from),
        Err(_) => None,
    }
}

/// Relies on `serde_json::from_str`, `Value::get` and `Value::as_bool`: the
/// boolean field `key` of the parsed document.
#[verifier::external_body]
fn json_bool_field(doc: &str, key: &str) -> (r: Option<bool>)
    ensures
        r == json_bool_at(doc@, key@),
{
    match serde_json::from_str::<serde_json::Value>(doc) {
        Ok(v) => v.get(key).and_then(serde_json::Value::as_bool),
        Err(_) => None,
    }
}

/// The bigrams of a license text as `TextData::new` builds them.
pub open spec fn text_bigrams(text: Seq<char>) -> Multiset<Seq<char>> {
    bigrams(view_text(normalized_lines(text), 0, normalized_lines(text).len() as int))
}

/// The text data that loading builds for a license text: its bigrams, and
/// where texts are kept, its normalized lines viewed whole.
pub open spec fn loaded_text(t: TextData, text: Seq<char>, keep: bool) -> bool {
    &&& t.grams() == text_bigrams(text)
    &&& t.lines_seq() == if keep {
        Some(normalized_lines(text))
    } else {
        None
    }
    &&& t.lo() == 0
    &&& t.hi() == if keep {
        normalized_lines(text).len() as int
    } else {
        0
    }
}

/// `new` is `old` with the license of the document `doc` merged in.
pub open spec fn loaded(
    old: Seq<(String, LicenseEntry)>,
    new: Seq<(String, LicenseEntry)>,
    doc: Seq<char>,
    keep: bool,
) -> bool {
    let header = json_string_at(doc, "standardLicenseHeader"@);
    exists|c: TextData, h: Option<TextData>|
        {
            &&& loaded_text(c, json_string_at(doc, "licenseText"@)->0, keep)
            &&& (h is Some <==> header is Some)
            &&& h is Some ==> loaded_text(h->0, header->0, keep)
            &&& merged(old, new, json_string_at(doc, "licenseId"@)->0, c, h)
        }
}

/// What a text data is, up to the way it is stored.
pub open spec fn text_model(t: TextData) -> (Multiset<Seq<char>>, Option<Seq<Seq<char>>>, int, int) {
    (t.grams(), t.lines_seq(), t.lo(), t.hi())
}

/// The two sequences of texts are alike one by one.
pub open spec fn same_texts(a: Seq<TextData>, b: Seq<TextData>) -> bool {
    a.len() == b.len() && forall|i: int| 0 <= i < a.len() ==> text_model(#[trigger] a[i]) == text_model(b[i])
}

/// The two stores hold the same names, texts and aliases in the same order.
pub open spec fn same_entries(a: Seq<(String, LicenseEntry)>, b: Seq<(String, LicenseEntry)>) -> bool {
    &&& a.len() == b.len()
    &&& forall|j: int|
        0 <= j < a.len() ==> {
            &&& (#[trigger] b[j]).0 == a[j].0
            &&& text_model(b[j].1.original) == text_model(a[j].1.original)
            &&& b[j].1.aliases == a[j].1.aliases
            &&& same_texts(a[j].1.headers@, b[j].1.headers@)
            &&& same_texts(a[j].1.alternates@, b[j].1.alternates@)
        }
}

impl Store {
    /// Adds one SPDX license document (a JSON object with `licenseId`,
    /// `licenseText`, `isDeprecatedLicenseId` and optionally
    /// `standardLicenseHeader`). Deprecated licenses are skipped; the text
    /// and the header keep their normalized lines when `include_texts`
    /// holds. Fails with `MissingField`, and only so, where a required field
    /// is absent, leaving the store as it was.
    pub fn load_spdx_document(&mut self, doc: &str, include_texts: bool) -> (r: Result<(), Error>)
        requires
            old(self).wf(),
        ensures
            final(self).wf(),
            (json_string_at(doc@, "licenseId"@) is None || json_bool_at(
                doc@,
                "isDeprecatedLicenseId"@,
            ) is None || (json_bool_at(doc@, "isDeprecatedLicenseId"@) == Some(false)
                && json_string_at(doc@, "licenseText"@) is None)) <==> r is Err,
            r is Err ==> r == Err::<(), Error>(Error::MissingField),
            r is Err ==> final(self).entries() == old(self).entries(),
            r is Ok && json_bool_at(doc@, "isDeprecatedLicenseId"@) == Some(true)
                ==> final(self).entries() == old(self).entries(),
            r is Ok && json_bool_at(doc@, "isDeprecatedLicenseId"@) == Some(false) ==> loaded(
                old(self).entries(),
                final(self).entries(),
                doc@,
                include_texts,
            ),
    {
        let name = match json_string_field(doc, "licenseId") {
            Some(n) => n,
            None => return Err(Error::MissingField),
        };
        let deprecated = match json_bool_field(doc, "isDeprecatedLicenseId") {
            Some(d) => d,
            None => return Err(Error::MissingField),
        };
        if deprecated {
            return Ok(());
        }
        let text = match json_string_field(doc, "licenseText") {
            Some(t) => t,
            None => return Err(Error::MissingField),
        };
        let header = json_string_field(doc, "standardLicenseHeader");
        let ghost header_view: Option<Seq<char>> = match &header {
            Some(h) => Some(h@),
            None => None,
        };
        let content = Self::spdx_text(text.as_str(), include_texts);
        let header_data = match header {
            Some(h) => Some(Self::spdx_text(h.as_str(), include_texts)),
            None => None,
        };
        let ghost c = content;
        let ghost h = header_data;
        let ghost before = self.entries();
        let ghost id = name@;
        self.add_spdx_license(name, content, header_data);
        proof {
            assert(header_view == json_string_at(doc@, "standardLicenseHeader"@));
            assert(id == json_string_at(doc@, "licenseId"@)->0);
            assert(text@ == json_string_at(doc@, "licenseText"@)->0);
            assert({
                &&& loaded_text(c, json_string_at(doc@, "licenseText"@)->0, include_texts)
                &&& (h is Some <==> json_string_at(doc@, "standardLicenseHeader"@) is Some)
                &&& h is Some ==> loaded_text(
                    h->0,
                    json_string_at(doc@, "standardLicenseHeader"@)->0,
                    include_texts,
                )
                &&& merged(before, self.entries(), json_string_at(doc@, "licenseId"@)->0, c, h)
            });
        }
        Ok(())
    }

    /// The text data of a license text, without its lines unless `keep`.
    fn spdx_text(text: &str, keep: bool) -> (r: TextData)
        ensures
            r.wf(),
            loaded_text(r, text@, keep),
    {
        if keep {
            TextData::new(text)
        } else {
            TextData::new(text).without_text()
        }
    }
}

/// Loading the same document a second time leaves the entries as they
/// were: the same names, texts and aliases in the same order.
pub proof fn law_load_again_unchanged(
    s0: Seq<(String, LicenseEntry)>,
    s1: Seq<(String, LicenseEntry)>,
    s2: Seq<(String, LicenseEntry)>,
    doc: Seq<char>,
    keep: bool,
)
    requires
        loaded(s0, s1, doc, keep),
        loaded(s1, s2, doc, keep),
        forall|a: int, b: int| 0 <= a < b < s1.len() ==> s1[a].0@ != s1[b].0@,
    ensures
        same_entries(s1, s2),
{
    let header = json_string_at(doc, "standardLicenseHeader"@);
    let text = json_string_at(doc, "licenseText"@)->0;
    let id = json_string_at(doc, "licenseId"@)->0;
    let (c1, h1) = choose|c: TextData, h: Option<TextData>|
        {
            &&& loaded_text(c, text, keep)
            &&& (h is Some <==> header is Some)
            &&& h is Some ==> loaded_text(h->0, header->0, keep)
            &&& merged(s0, s1, id, c, h)
        };
    let (c2, h2) = choose|c: TextData, h: Option<TextData>|
        {
            &&& loaded_text(c, text, keep)
            &&& (h is Some <==> header is Some)
            &&& h is Some ==> loaded_text(h->0, header->0, keep)
            &&& merged(s1, s2, id, c, h)
        };
    let g = c1.grams();
    assert(c2.grams() == g);
    let known0 = exists|j: int| 0 <= j < s0.len() && s0[j].1.original.grams() == g;
    let known1 = exists|j: int| 0 <= j < s1.len() && s1[j].1.original.grams() == g;
    if known1 {
        assert forall|j: int| 0 <= j < s1.len() && s1[j].1.original.grams() == g implies names_entry(
            s1[j],
            id,
        ) by {
            if known0 {
                let o = s0[j];
                if !names_entry(o, id) {
                    let last = (s1[j].1.aliases@.len() - 1) as int;
                    assert(s1[j].1.aliases@[last]@ == id);
                } else if o.0@ != id {
                    let a = choose|a: int| 0 <= a < o.1.aliases@.len() && o.1.aliases@[a]@ == id;
                    assert(s1[j].1.aliases@[a]@ == id);
                }
            } else {
                let p = position(s0, id);
                if p >= 0 {
                    if j != p {
                        assert(s1[j] == s0[j]);
                    }
                } else if j < s0.len() {
                    assert(s1[j] == s0[j]);
                }
            }
        }
        assert forall|j: int| 0 <= j < s1.len() implies {
            &&& (#[trigger] s2[j]).0 == s1[j].0
            &&& text_model(s2[j].1.original) == text_model(s1[j].1.original)
            &&& s2[j].1.aliases == s1[j].1.aliases
            &&& same_texts(s1[j].1.headers@, s2[j].1.headers@)
            &&& same_texts(s1[j].1.alternates@, s2[j].1.alternates@)
        } by {
            assert(s1[j] == s1[j]);
        }
    } else {
        if known0 {
            let j = choose|j: int| 0 <= j < s0.len() && s0[j].1.original.grams() == g;
            assert(s1[j].1.original == s0[j].1.original);
        }
        let pos_before = position(s0, id);
        if pos_before < 0 {
            assert(s1[s0.len() as int].1.original == c1);
        }
        let k = pos_before;
        assert(s1[k].0@ == id);
        let pos_after = position(s1, id);
        assert(0 <= pos_after < s1.len() && s1[pos_after].0@ == id);
        if pos_after != k {
            if pos_after < k {
                assert(s1[pos_after].0@ != s1[k].0@);
            } else {
                assert(s1[k].0@ != s1[pos_after].0@);
            }
        }
        assert forall|j: int| 0 <= j < s1.len() implies {
            &&& (#[trigger] s2[j]).0 == s1[j].0
            &&& text_model(s2[j].1.original) == text_model(s1[j].1.original)
            &&& s2[j].1.aliases == s1[j].1.aliases
            &&& same_texts(s1[j].1.headers@, s2[j].1.headers@)
            &&& same_texts(s1[j].1.alternates@, s2[j].1.alternates@)
        } by {
            if j != k {
                assert(s2[j] == s1[j]);
            } else if header is Some {
                assert(s1[k].1.headers@ == seq![h1->0]);
                assert(s2[k].1.headers@ == seq![h2->0]);
                assert(text_model(h1->0) == text_model(h2->0));
            }
        }
    }
}

} // verus!
