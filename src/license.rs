//! Preprocessed texts with a line view, and the search for the lines of a
//! text that best match another.

use vstd::prelude::*;
use vstd::multiset::*;

use crate::error::Error;
use crate::ngram::{dice_ratio, ngram_multiset, NgramSet};
use crate::preproc::{aggressive, apply_aggressive, apply_normalizers, normalized_lines};
use crate::score::{ratio_le, ratio_lt, Score};
use crate::text::{join_lines, join_with, split_on, string_of, string_views};

verus! {

/// The kind of a license entry's text.
#[derive(Clone, Copy, Debug, PartialEq, Eq, Structural)]
pub enum LicenseType {
    /// The canonical text of the license.
    Original,
    /// A short notice to place at the top of a file.
    Header,
    /// Another formatting of the license with the same meaning.
    Alternate,
}

impl LicenseType {
    /// A short description for people.
    pub fn description(&self) -> (r: String)
        ensures
            r@ == match *self {
                LicenseType::Original => "original text"@,
                LicenseType::Header => "license header"@,
                LicenseType::Alternate => "alternate text"@,
            },
    {
        match *self {
            LicenseType::Original => "original text".to_owned(),
            LicenseType::Header => "license header".to_owned(),
            LicenseType::Alternate => "alternate text".to_owned(),
        }
    }
}

/// The bigrams of a processed text.
pub open spec fn bigrams(text: Seq<char>) -> Multiset<Seq<char>> {
    ngram_multiset(text, 2)
}

/// The processed text of the lines `lo..hi`.
pub open spec fn view_text(lines: Seq<Seq<char>>, lo: int, hi: int) -> Seq<char> {
    aggressive(join_with(lines.subrange(lo, hi), '\n'))
}

/// The similarity of the lines `a..b` with the bigrams `g`.
pub open spec fn view_score(lines: Seq<Seq<char>>, a: int, b: int, g: Multiset<Seq<char>>) -> (
    nat,
    nat,
) {
    dice_ratio(bigrams(view_text(lines, a, b)), 2, g, 2)
}

/// The lines with those in `lo..hi` replaced by empty lines.
pub open spec fn blanked(lines: Seq<Seq<char>>, lo: int, hi: int) -> Seq<Seq<char>> {
    Seq::new(
        lines.len(),
        |i: int|
            if lo <= i < hi {
                Seq::empty()
            } else {
                lines[i]
            },
    )
}

/// The last index of `left..=right` with the highest score, starting from a
/// score of zero.
pub open spec fn scan_best(s: spec_fn(int) -> (nat, nat), left: int, right: int) -> (
    int,
    (nat, nat),
)
    decreases right - left + 1,
{
    if right < left {
        (0, (0, 1))
    } else {
        let (bi, bs) = scan_best(s, left, right - 1);
        if ratio_le(bs, s(right)) {
            (right, s(right))
        } else {
            (bi, bs)
        }
    }
}

/// Ternary search for a high score of `s` over `left..=right`.
pub open spec fn ternary(s: spec_fn(int) -> (nat, nat), left: int, right: int) -> (int, (nat, nat))
    decreases right - left,
{
    if right - left <= 3 {
        scan_best(s, left, right)
    } else {
        let lo = (2 * left + right) / 3;
        let hi = (left + 2 * right) / 3;
        if ratio_lt(s(hi), s(lo)) {
            ternary(s, left, hi - 1)
        } else {
            ternary(s, lo + 1, right)
        }
    }
}

/// The scores of the views that start at `lo` and end at each index.
pub open spec fn end_scores(lines: Seq<Seq<char>>, lo: int, g: Multiset<Seq<char>>) -> spec_fn(
    int,
) -> (nat, nat) {
    |i: int| view_score(lines, lo, i, g)
}

/// The scores of the views that end at `hi` and start at each index.
pub open spec fn start_scores(lines: Seq<Seq<char>>, hi: int, g: Multiset<Seq<char>>) -> spec_fn(
    int,
) -> (nat, nat) {
    |i: int| view_score(lines, i, hi, g)
}

/// The view `lo..hi` narrowed for the bigrams `g`: first the end by ternary
/// search with the start fixed, then the start with the new end fixed.
/// Gives the new start, the new end and the score there.
pub open spec fn optimized(lines: Seq<Seq<char>>, lo: int, hi: int, g: Multiset<Seq<char>>) -> (
    int,
    int,
    (nat, nat),
) {
    let e = ternary(end_scores(lines, lo, g), lo, hi).0;
    let (s, sc) = ternary(start_scores(lines, e, g), lo, e);
    (s, e, sc)
}

/// The scores of the views that start at `fixed` (when `by_end`) or end at
/// `fixed` (otherwise), as a function of the other bound.
pub open spec fn scores_for(
    lines: Seq<Seq<char>>,
    by_end: bool,
    fixed: int,
    g: Multiset<Seq<char>>,
) -> spec_fn(int) -> (nat, nat) {
    if by_end {
        end_scores(lines, fixed, g)
    } else {
        start_scores(lines, fixed, g)
    }
}

/// Every entry of the table holds the score of its index.
pub open spec fn memo_ok(memo: Seq<(usize, Score)>, s: spec_fn(int) -> (nat, nat)) -> bool {
    forall|k: int| 0 <= k < memo.len() ==> (#[trigger] memo[k]).1.ratio() == s(memo[k].0 as int)
}

/// A preprocessed text: its bigrams, and where kept, its normalized lines
/// and the processed text of the lines in view.
#[derive(Clone, Debug)]
pub struct TextData {
    match_data: NgramSet,
    view_start: usize,
    view_end: usize,
    lines_normalized: Option<Vec<String>>,
    text_processed: Option<String>,
}

impl TextData {
    /// The bigrams compared with other texts.
    pub closed spec fn grams(&self) -> Multiset<Seq<char>> {
        self.match_data@
    }

    /// The bigram set is well formed and holds pairs of words.
    pub closed spec fn grams_ok(&self) -> bool {
        self.match_data.wf() && self.match_data.arity() == 2
    }

    /// The normalized lines, where kept.
    pub closed spec fn lines_seq(&self) -> Option<Seq<Seq<char>>> {
        match self.lines_normalized {
            Some(l) => Some(string_views(l@)),
            None => None,
        }
    }

    /// The first line in view.
    pub closed spec fn lo(&self) -> int {
        self.view_start as int
    }

    /// One past the last line in view.
    pub closed spec fn hi(&self) -> int {
        self.view_end as int
    }

    /// The processed text of the lines in view, where kept.
    pub closed spec fn processed(&self) -> Option<Seq<char>> {
        match self.text_processed {
            Some(t) => Some(t@),
            None => None,
        }
    }

    /// With lines kept, the view lies within them and the bigrams and the
    /// processed text come from exactly the lines in view; without, the view
    /// is empty.
    pub open spec fn wf(&self) -> bool {
        &&& self.grams_ok()
        &&& match self.lines_seq() {
            Some(l) => {
                &&& 0 <= self.lo() <= self.hi() <= l.len()
                &&& self.processed() == Some(view_text(l, self.lo(), self.hi()))
                &&& self.grams() == bigrams(view_text(l, self.lo(), self.hi()))
            },
            None => self.lo() == 0 && self.hi() == 0 && self.processed() is None,
        }
    }

    /// Normalizes `text`, keeps its lines and views all of them.
    pub fn new(text: &str) -> (r: TextData)
        ensures
            r.wf(),
            r.lines_seq() == Some(normalized_lines(text@)),
            r.lo() == 0,
            r.hi() == normalized_lines(text@).len(),
    {
        let normalized = apply_normalizers(text);
        let n = normalized.len();
        let t = Self::view_of(&normalized, 0, n);
        assert(string_views(normalized@) =~= normalized_lines(text@));
        t
    }

    /// The text data of the lines `start..end` of `lines`.
    fn view_of(lines: &Vec<String>, start: usize, end: usize) -> (r: TextData)
        requires
            start <= end <= lines@.len(),
        ensures
            r.wf(),
            r.lines_seq() == Some(string_views(lines@)),
            r.lo() == start,
            r.hi() == end,
    {
        let view = &lines.as_slice()[start..end];
        let joined = join_lines(view);
        let joined_text = string_of(joined.as_slice());
        let processed = apply_aggressive(joined_text.as_str());
        let match_data = NgramSet::from_str(processed.as_str(), 2);
        let kept = lines.clone();
        proof {
            assert(string_views(view@) =~= string_views(lines@).subrange(start as int, end as int));
            assert(kept@ =~= lines@);
        }
        TextData {
            match_data,
            view_start: start,
            view_end: end,
            lines_normalized: Some(kept),
            text_processed: Some(processed),
        }
    }

    /// The bigrams compared with other texts.
    pub fn match_data(&self) -> (r: &NgramSet)
        requires
            self.wf(),
        ensures
            r.wf(),
            r.arity() == 2,
            r@ == self.grams(),
    {
        &self.match_data
    }

    /// All normalized lines, where kept, whatever the view.
    pub fn all_lines(&self) -> (r: Option<&Vec<String>>)
        ensures
            r is Some <==> self.lines_seq() is Some,
            r is Some ==> Some(string_views(r->0@)) == self.lines_seq(),
    {
        match &self.lines_normalized {
            Some(l) => Some(l),
            None => None,
        }
    }

    /// Text data from its parts. With lines, the view `start..end` must lie
    /// within them and the bigrams are rebuilt from it; without, the bigrams
    /// must be pairs of words and are kept as given.
    pub fn from_parts(match_data: NgramSet, lines: Option<Vec<String>>, start: usize, end: usize) -> (r:
        Option<TextData>)
        requires
            match_data.wf(),
        ensures
            lines matches Some(l) ==> (r is Some <==> start <= end <= l@.len()),
            lines is None ==> (r is Some <==> match_data.arity() == 2),
            r is Some ==> r->0.wf(),
            r is Some && lines is Some ==> r->0.lines_seq() == Some(string_views(lines->0@))
                && r->0.lo() == start && r->0.hi() == end,
            r is Some && lines is None ==> r->0.lines_seq() is None && r->0.grams() == match_data@,
    {
        match lines {
            Some(l) => {
                if start <= end && end <= l.len() {
                    Some(Self::view_of(&l, start, end))
                } else {
                    None
                }
            },
            None => {
                if match_data.n() == 2 {
                    Some(
                        TextData {
                            match_data,
                            view_start: 0,
                            view_end: 0,
                            lines_normalized: None,
                            text_processed: None,
                        },
                    )
                } else {
                    None
                }
            },
        }
    }

    /// The normalized lines are kept.
    pub fn has_text(&self) -> (r: bool)
        ensures
            r == self.lines_seq() is Some,
    {
        self.lines_normalized.is_some()
    }

    /// The same bigrams without the normalized lines and processed text.
    pub fn without_text(self) -> (r: TextData)
        requires
            self.wf(),
        ensures
            r.wf(),
            r.grams() == self.grams(),
            r.lines_seq() is None,
    {
        TextData {
            match_data: self.match_data,
            view_start: 0,
            view_end: 0,
            lines_normalized: None,
            text_processed: None,
        }
    }

    /// The lines in view: from the first, up to but not including the second.
    pub fn lines_view(&self) -> (r: (usize, usize))
        ensures
            r.0 == self.lo(),
            r.1 == self.hi(),
    {
        (self.view_start, self.view_end)
    }

    /// A copy that views the lines `start..end`, with bigrams and processed
    /// text rebuilt from them.
    pub fn with_view(&self, start: usize, end: usize) -> (r: Result<TextData, Error>)
        requires
            self.wf(),
            self.lines_seq() is Some ==> start <= end <= self.lines_seq()->0.len(),
        ensures
            self.lines_seq() is None <==> r is Err,
            r is Err ==> r->Err_0 == Error::MissingText,
            r is Ok ==> {
                let t = r->Ok_0;
                &&& t.wf()
                &&& t.lines_seq() == self.lines_seq()
                &&& t.lo() == start
                &&& t.hi() == end
            },
    {
        match &self.lines_normalized {
            Some(lines) => Ok(Self::view_of(lines, start, end)),
            None => Err(Error::MissingText),
        }
    }

    /// A copy whose lines in view are blanked, viewing all lines again.
    pub fn white_out(&self) -> (r: Result<TextData, Error>)
        requires
            self.wf(),
        ensures
            self.lines_seq() is None <==> r is Err,
            r is Err ==> r->Err_0 == Error::MissingText,
            r is Ok ==> {
                let t = r->Ok_0;
                let l = self.lines_seq()->0;
                &&& t.wf()
                &&& t.lines_seq() == Some(blanked(l, self.lo(), self.hi()))
                &&& t.lo() == 0
                &&& t.hi() == l.len()
            },
    {
        match &self.lines_normalized {
            Some(lines) => {
                let lo = self.view_start;
                let hi = self.view_end;
                let mut blank: Vec<String> = Vec::new();
                let mut i: usize = 0;
                while i < lines.len()
                    invariant
                        i <= lines@.len(),
                        string_views(blank@) == blanked(string_views(lines@), lo as int, hi as int).take(
                            i as int,
                        ),
                    decreases lines@.len() - i,
                {
                    let ghost before = string_views(blank@);
                    let item = if lo <= i && i < hi {
                        String::new()
                    } else {
                        lines[i].clone()
                    };
                    let ghost iv = item@;
                    blank.push(item);
                    proof {
                        let b = blanked(string_views(lines@), lo as int, hi as int);
                        assert(iv == b[i as int]);
                        assert(string_views(blank@) =~= before.push(iv));
                        assert(b.take(i + 1) =~= b.take(i as int).push(b[i as int]));
                    }
                    i += 1;
                }
                assert(string_views(blank@) =~= blanked(string_views(lines@), lo as int, hi as int));
                let n = blank.len();
                Ok(Self::view_of(&blank, 0, n))
            },
            None => Err(Error::MissingText),
        }
    }

    /// The normalized lines in view.
    pub fn lines(&self) -> (r: Result<&[String], Error>)
        requires
            self.wf(),
        ensures
            self.lines_seq() is None <==> r is Err,
            r is Ok ==> string_views(r->Ok_0@) == self.lines_seq()->0.subrange(self.lo(), self.hi()),
    {
        match &self.lines_normalized {
            Some(lines) => {
                let s = &lines.as_slice()[self.view_start..self.view_end];
                assert(string_views(s@) =~= string_views(lines@).subrange(self.lo(), self.hi()));
                Ok(s)
            },
            None => Err(Error::MissingText),
        }
    }

    /// The processed text of the lines in view, where kept.
    pub fn text_processed(&self) -> (r: Option<&str>)
        requires
            self.wf(),
        ensures
            r is Some <==> self.processed() is Some,
            r is Some ==> r->0@ == self.processed()->0,
    {
        match &self.text_processed {
            Some(t) => Some(t.as_str()),
            None => None,
        }
    }

    /// The similarity of the two texts' bigrams.
    pub fn match_score(&self, other: &TextData) -> (r: Score)
        requires
            self.wf(),
            other.wf(),
        ensures
            r.ratio() == dice_ratio(self.grams(), 2, other.grams(), 2),
            r.den > 0,
    {
        self.match_data.dice(&other.match_data)
    }

    /// The bigrams of the two texts are the same.
    pub fn eq_data(&self, other: &TextData) -> (r: bool)
        requires
            self.wf(),
            other.wf(),
        ensures
            r == (self.grams() == other.grams()),
    {
        self.match_data.same_as(&other.match_data)
    }
}

impl TextData {
    /// The score of the view that starts at `fixed` and ends at `i` (when
    /// `by_end`), or starts at `i` and ends at `fixed`.
    fn score_at(lines: &Vec<String>, other: &TextData, by_end: bool, fixed: usize, i: usize) -> (r:
        Score)
        requires
            other.wf(),
            by_end ==> fixed <= i <= lines@.len(),
            !by_end ==> i <= fixed <= lines@.len(),
        ensures
            r.ratio() == scores_for(string_views(lines@), by_end, fixed as int, other.grams())(
                i as int,
            ),
    {
        let t = if by_end {
            Self::view_of(lines, fixed, i)
        } else {
            Self::view_of(lines, i, fixed)
        };
        t.match_score(other)
    }

    /// The score at `i`, taken from the table where it is there already.
    fn memo_score(
        memo: &mut Vec<(usize, Score)>,
        lines: &Vec<String>,
        other: &TextData,
        by_end: bool,
        fixed: usize,
        i: usize,
    ) -> (r: Score)
        requires
            other.wf(),
            by_end ==> fixed <= i <= lines@.len(),
            !by_end ==> i <= fixed <= lines@.len(),
            memo_ok(old(memo)@, scores_for(string_views(lines@), by_end, fixed as int, other.grams())),
        ensures
            r.ratio() == scores_for(string_views(lines@), by_end, fixed as int, other.grams())(
                i as int,
            ),
            memo_ok(final(memo)@, scores_for(string_views(lines@), by_end, fixed as int, other.grams())),
    {
        let ghost s = scores_for(string_views(lines@), by_end, fixed as int, other.grams());
        let mut k: usize = 0;
        while k < memo.len()
            invariant
                memo@ == old(memo)@,
                memo_ok(memo@, s),
                s == scores_for(string_views(lines@), by_end, fixed as int, other.grams()),
                k <= memo@.len(),
            decreases memo@.len() - k,
        {
            if memo[k].0 == i {
                assert(memo@[k as int].1.ratio() == s(memo@[k as int].0 as int));
                return memo[k].1;
            }
            k += 1;
        }
        let sc = Self::score_at(lines, other, by_end, fixed, i);
        memo.push((i, sc));
        proof {
            assert forall|k: int| 0 <= k < memo@.len() implies (#[trigger] memo@[k]).1.ratio() == s(
                memo@[k].0 as int,
            ) by {
                if k < old(memo)@.len() {
                    assert(memo@[k] == old(memo)@[k]);
                }
            }
        }
        sc
    }

    /// Ternary search over `left..=right` for the bound that gives the
    /// highest score, each score computed once.
    fn search_optimize(
        lines: &Vec<String>,
        other: &TextData,
        by_end: bool,
        fixed: usize,
        left: usize,
        right: usize,
    ) -> (r: (usize, Score))
        requires
            other.wf(),
            left <= right,
            by_end ==> fixed <= left && right <= lines@.len(),
            !by_end ==> right <= fixed <= lines@.len(),
        ensures
            (r.0 as int, r.1.ratio()) == ternary(
                scores_for(string_views(lines@), by_end, fixed as int, other.grams()),
                left as int,
                right as int,
            ),
    {
        let ghost s = scores_for(string_views(lines@), by_end, fixed as int, other.grams());
        let mut memo: Vec<(usize, Score)> = Vec::new();
        let mut l = left;
        let mut r = right;
        while r - l > 3
            invariant
                left <= l <= r <= right,
                by_end ==> fixed <= left && right <= lines@.len(),
                !by_end ==> right <= fixed <= lines@.len(),
                other.wf(),
                s == scores_for(string_views(lines@), by_end, fixed as int, other.grams()),
                memo_ok(memo@, s),
                ternary(s, left as int, right as int) == ternary(s, l as int, r as int),
            decreases r - l,
        {
            let lo = ((2 * (l as u128) + (r as u128)) / 3) as usize;
            let hi = (((l as u128) + 2 * (r as u128)) / 3) as usize;
            let sl = Self::memo_score(&mut memo, lines, other, by_end, fixed, lo);
            let sh = Self::memo_score(&mut memo, lines, other, by_end, fixed, hi);
            if sh.less_than(&sl) {
                r = hi - 1;
            } else {
                l = lo + 1;
            }
        }
        let mut best_i: usize = 0;
        let mut best = Score::zero();
        let count = r - l + 1;
        let mut k: usize = 0;
        while k < count
            invariant
                count == r - l + 1,
                left <= l <= r <= right,
                r - l <= 3,
                k <= count,
                by_end ==> fixed <= left && right <= lines@.len(),
                !by_end ==> right <= fixed <= lines@.len(),
                other.wf(),
                s == scores_for(string_views(lines@), by_end, fixed as int, other.grams()),
                memo_ok(memo@, s),
                (best_i as int, best.ratio()) == scan_best(s, l as int, l + k - 1),
            decreases count - k,
        {
            let x = l + k;
            let sc = Self::memo_score(&mut memo, lines, other, by_end, fixed, x);
            if best.at_most(&sc) {
                best_i = x;
                best = sc;
            }
            k += 1;
        }
        (best_i, best)
    }

    /// The view narrowed to the lines that best match `other`: first the
    /// end is searched with the start fixed, then the start with the new end
    /// fixed. Gives the narrowed text data and its score.
    pub fn optimize_bounds(&self, other: &TextData) -> (r: Result<(TextData, Score), Error>)
        requires
            self.wf(),
            other.wf(),
        ensures
            self.lines_seq() is None <==> r is Err,
            r is Err ==> r->Err_0 == Error::MissingText,
            r is Ok ==> {
                let (t, sc) = r->Ok_0;
                let (a, b, s) = optimized(self.lines_seq()->0, self.lo(), self.hi(), other.grams());
                &&& t.wf()
                &&& t.lines_seq() == self.lines_seq()
                &&& t.lo() == a
                &&& t.hi() == b
                &&& sc.ratio() == s
            },
    {
        match &self.lines_normalized {
            Some(lines) => {
                let lo = self.view_start;
                let hi = self.view_end;
                let (e, _) = Self::search_optimize(lines, other, true, lo, lo, hi);
                proof {
                    lemma_ternary_in_range(
                        scores_for(string_views(lines@), true, lo as int, other.grams()),
                        lo as int,
                        hi as int,
                    );
                    assert(scores_for(string_views(lines@), true, lo as int, other.grams())
                        == end_scores(string_views(lines@), lo as int, other.grams()));
                }
                let (s, sc) = Self::search_optimize(lines, other, false, e, lo, e);
                proof {
                    lemma_ternary_in_range(
                        scores_for(string_views(lines@), false, e as int, other.grams()),
                        lo as int,
                        e as int,
                    );
                    assert(scores_for(string_views(lines@), false, e as int, other.grams())
                        == start_scores(string_views(lines@), e as int, other.grams()));
                }
                Ok((Self::view_of(lines, s, e), sc))
            },
            None => Err(Error::MissingText),
        }
    }
}

proof fn lemma_scan_in_range(s: spec_fn(int) -> (nat, nat), left: int, right: int)
    requires
        left <= right,
    ensures
        left <= scan_best(s, left, right).0 <= right,
    decreases right - left,
{
    if right > left {
        lemma_scan_in_range(s, left, right - 1);
    } else {
        assert(scan_best(s, left, left - 1) == (0int, (0nat, 1nat)));
    }
}

proof fn lemma_ternary_in_range(s: spec_fn(int) -> (nat, nat), left: int, right: int)
    requires
        left <= right,
    ensures
        left <= ternary(s, left, right).0 <= right,
    decreases right - left,
{
    if right - left <= 3 {
        lemma_scan_in_range(s, left, right);
    } else {
        let lo = (2 * left + right) / 3;
        let hi = (left + 2 * right) / 3;
        if ratio_lt(s(hi), s(lo)) {
            lemma_ternary_in_range(s, left, hi - 1);
        } else {
            lemma_ternary_in_range(s, lo + 1, right);
        }
    }
}

/// Viewing the lines already in view gives the same bigrams.
pub proof fn law_identity_view(t: TextData, u: TextData)
    requires
        t.wf(),
        u.wf(),
        t.lines_seq() is Some,
        u.lines_seq() == t.lines_seq(),
        u.lo() == t.lo(),
        u.hi() == t.hi(),
    ensures
        u.grams() == t.grams(),
{
}

proof fn lemma_ratio_le_trans(a: (nat, nat), b: (nat, nat), c: (nat, nat))
    requires
        ratio_le(a, b),
        ratio_le(b, c),
        b.1 > 0,
    ensures
        ratio_le(a, c),
{
    let (a0, a1, b0, b1, c0, c1) = (a.0 as int, a.1 as int, b.0 as int, b.1 as int, c.0 as int, c.1 as int);
    assert(a0 * c1 <= c0 * a1) by (nonlinear_arith)
        requires
            a0 * b1 <= b0 * a1,
            b0 * c1 <= c0 * b1,
            b1 > 0,
            a0 >= 0,
            a1 >= 0,
            b0 >= 0,
            c0 >= 0,
            c1 >= 0,
    ;
}

proof fn lemma_scan_is_best(s: spec_fn(int) -> (nat, nat), left: int, right: int, x: int)
    requires
        left <= x <= right,
        forall|i: int| left <= i <= right ==> (#[trigger] s(i)).1 > 0,
    ensures
        ratio_le(s(x), scan_best(s, left, right).1),
        scan_best(s, left, right).1.1 > 0,
    decreases right - left,
{
    let (bi, bs) = scan_best(s, left, right - 1);
    if x < right {
        lemma_scan_is_best(s, left, right - 1, x);
        if ratio_le(bs, s(right)) {
            lemma_ratio_le_trans(s(x), bs, s(right));
        }
    } else {
        if right > left {
            lemma_scan_is_best(s, left, right - 1, left);
        } else {
            assert(bs == (0nat, 1nat));
        }
        if !ratio_le(bs, s(right)) {
            assert(ratio_le(s(right), bs)) by (nonlinear_arith)
                requires
                    !ratio_le(bs, s(right)),
            ;
        }
    }
}

proof fn lemma_scan_value(s: spec_fn(int) -> (nat, nat), left: int, right: int)
    requires
        left <= right,
    ensures
        scan_best(s, left, right).1 == s(scan_best(s, left, right).0),
    decreases right - left,
{
    if right > left {
        lemma_scan_value(s, left, right - 1);
    } else {
        assert(scan_best(s, left, left - 1) == (0int, (0nat, 1nat)));
        assert(ratio_le((0nat, 1nat), s(left)));
    }
}

proof fn lemma_dice_den_positive(a: Multiset<Seq<char>>, b: Multiset<Seq<char>>)
    ensures
        dice_ratio(a, 2, b, 2).1 > 0,
{
}

/// Optimizing a view of at most four lines never lowers its score: both
/// searches then try every candidate bound.
pub proof fn law_optimize_never_worse(lines: Seq<Seq<char>>, lo: int, hi: int, g: Multiset<Seq<char>>)
    requires
        0 <= lo <= hi <= lines.len(),
        hi - lo <= 3,
    ensures
        ratio_le(view_score(lines, lo, hi, g), optimized(lines, lo, hi, g).2),
{
    let es = end_scores(lines, lo, g);
    assert forall|i: int| lo <= i <= hi implies (#[trigger] es(i)).1 > 0 by {
        lemma_dice_den_positive(bigrams(view_text(lines, lo, i)), g);
    }
    lemma_scan_is_best(es, lo, lo, lo);
    lemma_scan_is_best(es, lo, hi, hi);
    lemma_scan_in_range(es, lo, hi);
    lemma_scan_value(es, lo, hi);
    let e = ternary(es, lo, hi).0;
    let ss = start_scores(lines, e, g);
    assert forall|i: int| lo <= i <= e implies (#[trigger] ss(i)).1 > 0 by {
        lemma_dice_den_positive(bigrams(view_text(lines, i, e)), g);
    }
    lemma_scan_is_best(ss, lo, e, lo);
    assert(ss(lo) == es(e));
    lemma_ratio_le_trans(es(hi), es(e), ternary(ss, lo, e).1);
}

/// The optimized view lies within the view it started from.
pub proof fn law_optimize_stays_in_view(
    lines: Seq<Seq<char>>,
    lo: int,
    hi: int,
    g: Multiset<Seq<char>>,
)
    requires
        0 <= lo <= hi <= lines.len(),
    ensures
        lo <= optimized(lines, lo, hi, g).0 <= optimized(lines, lo, hi, g).1 <= hi,
{
    lemma_ternary_in_range(end_scores(lines, lo, g), lo, hi);
    let e = ternary(end_scores(lines, lo, g), lo, hi).0;
    lemma_ternary_in_range(start_scores(lines, e, g), lo, e);
}

} // verus!
