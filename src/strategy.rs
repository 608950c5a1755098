//! Scanning a text for one or more licenses: a single analysis, the
//! elimination of found licenses one at a time, and a top-down walk.

use vstd::multiset::Multiset;
use vstd::prelude::*;

use crate::error::Error;
use crate::license::{
    bigrams, blanked, law_optimize_stays_in_view, optimized, view_text, LicenseType, TextData,
};
use crate::score::{ratio_le, ratio_lt, Score};
use crate::store::{
    candidate_scores, candidates, entry_best, entry_bests, first_best, LicenseEntry, Match, Store,
};

verus! {

/// What an analysis of the bigrams `g` finds: the entry, the candidate text
/// within it, and the score.
pub open spec fn analysis(entries: Seq<(String, LicenseEntry)>, g: Multiset<Seq<char>>) -> (
    int,
    int,
    (nat, nat),
) {
    let i = first_best(entry_bests(entries, g));
    let k = first_best(candidate_scores(entries[i].1, g));
    (i, k, entry_best(entries[i].1, g))
}

/// The bigrams of candidate `k` of entry `i`.
pub open spec fn target(entries: Seq<(String, LicenseEntry)>, i: int, k: int) -> Multiset<
    Seq<char>,
> {
    candidates(entries[i].1)[k].1.grams()
}

/// A license located in a text: its score, entry, candidate, and the
/// lines `lo..hi` where it was found.
pub type Located = ((nat, nat), int, int, int, int);

/// The licenses that elimination locates: optimize the view against the
/// best match, keep it if it meets `conf`, blank its lines and go on, for at
/// most `passes` rounds.
pub open spec fn elim(
    entries: Seq<(String, LicenseEntry)>,
    lines: Seq<Seq<char>>,
    lo: int,
    hi: int,
    conf: (nat, nat),
    passes: nat,
) -> Seq<Located>
    decreases passes,
{
    if passes == 0 {
        Seq::empty()
    } else {
        let (i, k, s) = analysis(entries, bigrams(view_text(lines, lo, hi)));
        let (a, b, sc) = optimized(lines, lo, hi, target(entries, i, k));
        if ratio_lt(sc, conf) {
            Seq::empty()
        } else {
            seq![(sc, i, k, a, b)] + elim(
                entries,
                blanked(lines, a, b),
                0,
                lines.len() as int,
                conf,
                (passes - 1) as nat,
            )
        }
    }
}

/// The state of the coarse top-down scan: whether the threshold was met,
/// the last window (start, end, entry, candidate) that met it, and whether
/// the scan stopped.
pub type Coarse = (bool, Option<(int, int, int, int)>, bool);

/// The coarse scan over the window ends `end, end + step, ..` up to
/// `text_end`, for one window start.
pub open spec fn coarse_ends(
    entries: Seq<(String, LicenseEntry)>,
    lines: Seq<Seq<char>>,
    text_end: int,
    step: int,
    conf: (nat, nat),
    start: int,
    end: int,
    st: Coarse,
) -> Coarse
    decreases (if end > text_end {
        0
    } else {
        text_end + 1 - end
    }),
{
    if end > text_end || step <= 0 || st.2 {
        st
    } else {
        let (i, k, sc) = analysis(entries, bigrams(view_text(lines, start, end)));
        let hit = st.0 || ratio_le(conf, sc);
        if hit && ratio_lt(sc, conf) {
            (hit, st.1, true)
        } else {
            let f = if hit {
                Some((start, end, i, k))
            } else {
                st.1
            };
            coarse_ends(entries, lines, text_end, step, conf, start, end + step, (hit, f, false))
        }
    }
}

/// The coarse scan over the window starts `start, start + step, ..` below
/// `text_end`.
pub open spec fn coarse_starts(
    entries: Seq<(String, LicenseEntry)>,
    lines: Seq<Seq<char>>,
    text_end: int,
    step: int,
    conf: (nat, nat),
    start: int,
    st: Coarse,
) -> Coarse
    decreases (if start >= text_end {
        0
    } else {
        text_end - start
    }),
{
    if start >= text_end || step <= 0 || st.2 {
        st
    } else {
        coarse_starts(
            entries,
            lines,
            text_end,
            step,
            conf,
            start + step,
            coarse_ends(entries, lines, text_end, step, conf, start, start, st),
        )
    }
}

/// The next license that the top-down walk locates from line `from` on.
pub open spec fn topdown_next(
    entries: Seq<(String, LicenseEntry)>,
    lines: Seq<Seq<char>>,
    text_end: int,
    step: int,
    conf: (nat, nat),
    from: int,
) -> Option<Located> {
    let st = coarse_starts(entries, lines, text_end, step, conf, from, (false, None, false));
    match st.1 {
        None => None,
        Some((s, e, i, k)) => {
            let (a, b, sc) = optimized(lines, s, e, target(entries, i, k));
            if ratio_lt(sc, conf) {
                None
            } else {
                Some((sc, i, k, a, b))
            }
        },
    }
}

/// The licenses that the top-down walk locates from line `from` on, each
/// search starting one line past the end of the previous find.
pub open spec fn topdown(
    entries: Seq<(String, LicenseEntry)>,
    lines: Seq<Seq<char>>,
    text_end: int,
    step: int,
    conf: (nat, nat),
    from: int,
) -> Seq<Located>
    decreases (if from >= text_end {
        0
    } else {
        text_end - from
    }),
{
    if from >= text_end {
        Seq::empty()
    } else {
        match topdown_next(entries, lines, text_end, step, conf, from) {
            None => Seq::empty(),
            Some(f) => if f.4 + 1 > from {
                seq![f] + topdown(entries, lines, text_end, step, conf, f.4 + 1)
            } else {
                seq![f]
            },
        }
    }
}

/// A license that was identified, and which of its texts matched.
#[derive(Debug)]
pub struct IdentifiedLicense<'a> {
    /// The name of the license.
    pub name: &'a str,
    /// Which of the license's texts matched.
    pub kind: LicenseType,
    /// The text inside the store that matched.
    pub data: &'a TextData,
}

/// A license identified within a part of a larger text.
#[derive(Debug)]
pub struct ContainedResult<'a> {
    /// The similarity within the line range.
    pub score: Score,
    /// The license identified there.
    pub license: IdentifiedLicense<'a>,
    /// The lines where it was found: from the first, up to but not
    /// including the second.
    pub line_range: (usize, usize),
}

/// What a scan found.
#[derive(Debug)]
pub struct ScanResult<'a> {
    /// The similarity of the whole text with its best match.
    pub score: Score,
    /// The license of the whole text, where its score passes the threshold.
    pub license: Option<IdentifiedLicense<'a>>,
    /// The licenses located within the text.
    pub containing: Vec<ContainedResult<'a>>,
}

/// The name, kind and text name candidate `k` of entry `i`.
pub open spec fn identifies(
    name: &str,
    kind: LicenseType,
    data: &TextData,
    entries: Seq<(String, LicenseEntry)>,
    i: int,
    k: int,
) -> bool {
    &&& 0 <= i < entries.len()
    &&& 0 <= k < candidates(entries[i].1).len()
    &&& name@ == entries[i].0@
    &&& (kind, *data) == candidates(entries[i].1)[k]
}

/// The results describe the located licenses, in order.
pub open spec fn describes(
    found: Seq<ContainedResult>,
    entries: Seq<(String, LicenseEntry)>,
    locs: Seq<Located>,
) -> bool {
    &&& found.len() == locs.len()
    &&& forall|j: int|
        0 <= j < found.len() ==> {
            let c = #[trigger] found[j];
            let (sc, i, k, a, b) = locs[j];
            &&& c.score.ratio() == sc
            &&& identifies(c.license.name, c.license.kind, c.license.data, entries, i, k)
            &&& c.line_range.0 == a
            &&& c.line_range.1 == b
        }
}

/// How a scan looks for licenses.
#[derive(Clone, Copy, Debug, PartialEq, Eq, Structural)]
pub enum ScanMode {
    /// Locate the best match, blank it out, and look again.
    Elimination,
    /// Walk the text from the top, one license at a time.
    TopDown,
}

/// A configured scan over a store.
pub struct ScanStrategy<'a> {
    store: &'a Store,
    mode: ScanMode,
    confidence_threshold: Score,
    shallow_limit: Score,
    optimize: bool,
    max_passes: u16,
    step_size: usize,
}

/// What an elimination scan gives: the whole text's score and, above the
/// threshold, its license; and unless the shallow limit is passed or
/// optimization is off, the licenses that elimination locates.
pub open spec fn elimination_ok(
    r: Result<ScanResult, Error>,
    entries: Seq<(String, LicenseEntry)>,
    text: TextData,
    conf: (nat, nat),
    shallow: (nat, nat),
    optimize: bool,
    passes: nat,
) -> bool {
    let (i, k, s) = analysis(entries, text.grams());
    let quick = ratio_lt(shallow, s) || !optimize;
    match r {
        Err(e) => e == Error::MissingText && !quick && text.lines_seq() is None,
        Ok(res) => {
            &&& res.score.ratio() == s
            &&& res.license is Some <==> ratio_lt(conf, s)
            &&& res.license is Some ==> identifies(
                res.license->0.name,
                res.license->0.kind,
                res.license->0.data,
                entries,
                i,
                k,
            )
            &&& quick ==> res.containing@.len() == 0
            &&& !quick ==> text.lines_seq() is Some && describes(
                res.containing@,
                entries,
                elim(entries, text.lines_seq()->0, text.lo(), text.hi(), conf, passes),
            )
        },
    }
}

/// What a top-down scan gives: no overall score or license, and the
/// licenses that the walk locates from the first line.
pub open spec fn topdown_ok(
    r: ScanResult,
    entries: Seq<(String, LicenseEntry)>,
    text: TextData,
    conf: (nat, nat),
    step: int,
) -> bool {
    let lines = match text.lines_seq() {
        Some(l) => l,
        None => Seq::empty(),
    };
    &&& r.score.ratio() == (0nat, 1nat)
    &&& r.license is None
    &&& describes(r.containing@, entries, topdown(entries, lines, text.hi(), step, conf, 0))
}

impl<'a> ScanStrategy<'a> {
    pub closed spec fn the_store(&self) -> Store {
        *self.store
    }

    pub closed spec fn scan_mode(&self) -> ScanMode {
        self.mode
    }

    pub closed spec fn threshold(&self) -> Score {
        self.confidence_threshold
    }

    pub closed spec fn shallow(&self) -> Score {
        self.shallow_limit
    }

    pub closed spec fn optimizes(&self) -> bool {
        self.optimize
    }

    pub closed spec fn passes(&self) -> nat {
        self.max_passes as nat
    }

    pub closed spec fn step(&self) -> nat {
        self.step_size as nat
    }

    /// A strategy over `store`: elimination, a threshold of 9/10, a shallow
    /// limit of 99/100, no optimization, 10 passes and steps of 5 lines.
    pub fn new(store: &'a Store) -> (r: ScanStrategy<'a>)
        ensures
            r.the_store() == *store,
            r.scan_mode() == ScanMode::Elimination,
            r.threshold() == Score::new_spec(9, 10),
            r.shallow() == Score::new_spec(99, 100),
            !r.optimizes(),
            r.passes() == 10,
            r.step() == 5,
    {
        ScanStrategy {
            store,
            mode: ScanMode::Elimination,
            confidence_threshold: Score::new(9, 10),
            shallow_limit: Score::new(99, 100),
            optimize: false,
            max_passes: 10,
            step_size: 5,
        }
    }

    /// Sets the scan mode.
    pub fn mode(self, mode: ScanMode) -> (r: ScanStrategy<'a>)
        ensures
            r.the_store() == self.the_store(),
            r.scan_mode() == mode,
            r.threshold() == self.threshold(),
            r.shallow() == self.shallow(),
            r.optimizes() == self.optimizes(),
            r.passes() == self.passes(),
            r.step() == self.step(),
    {
        ScanStrategy { mode, ..self }
    }

    /// Sets the score that a license must pass to be reported.
    pub fn confidence_threshold(self, confidence_threshold: Score) -> (r: ScanStrategy<'a>)
        ensures
            r.the_store() == self.the_store(),
            r.scan_mode() == self.scan_mode(),
            r.threshold() == confidence_threshold,
            r.shallow() == self.shallow(),
            r.optimizes() == self.optimizes(),
            r.passes() == self.passes(),
            r.step() == self.step(),
    {
        ScanStrategy { confidence_threshold, ..self }
    }

    /// Sets the score above which a scan stops after the first analysis.
    pub fn shallow_limit(self, shallow_limit: Score) -> (r: ScanStrategy<'a>)
        ensures
            r.the_store() == self.the_store(),
            r.scan_mode() == self.scan_mode(),
            r.threshold() == self.threshold(),
            r.shallow() == shallow_limit,
            r.optimizes() == self.optimizes(),
            r.passes() == self.passes(),
            r.step() == self.step(),
    {
        ScanStrategy { shallow_limit, ..self }
    }

    /// Turns the search for licenses within the text on or off.
    pub fn optimize(self, optimize: bool) -> (r: ScanStrategy<'a>)
        ensures
            r.the_store() == self.the_store(),
            r.scan_mode() == self.scan_mode(),
            r.threshold() == self.threshold(),
            r.shallow() == self.shallow(),
            r.optimizes() == optimize,
            r.passes() == self.passes(),
            r.step() == self.step(),
    {
        ScanStrategy { optimize, ..self }
    }

    /// Sets the most licenses that elimination looks for.
    pub fn max_passes(self, max_passes: u16) -> (r: ScanStrategy<'a>)
        ensures
            r.the_store() == self.the_store(),
            r.scan_mode() == self.scan_mode(),
            r.threshold() == self.threshold(),
            r.shallow() == self.shallow(),
            r.optimizes() == self.optimizes(),
            r.passes() == max_passes,
            r.step() == self.step(),
    {
        ScanStrategy { max_passes, ..self }
    }

    /// Sets the line stride of the top-down walk.
    pub fn step_size(self, step_size: usize) -> (r: ScanStrategy<'a>)
        ensures
            r.the_store() == self.the_store(),
            r.scan_mode() == self.scan_mode(),
            r.threshold() == self.threshold(),
            r.shallow() == self.shallow(),
            r.optimizes() == self.optimizes(),
            r.passes() == self.passes(),
            r.step() == step_size,
    {
        ScanStrategy { step_size, ..self }
    }
}

impl<'a> ScanStrategy<'a> {
    /// Scans `text` in the configured mode. Fails with `NoMatch` when the
    /// store is empty, and with `MissingText` when elimination must search
    /// within a text that kept no lines.
    pub fn scan(&self, text: &TextData) -> (r: Result<ScanResult<'a>, Error>)
        requires
            self.the_store().wf(),
            text.wf(),
        ensures
            self.the_store().entries().len() == 0 ==> r == Err::<ScanResult, Error>(
                Error::NoMatch,
            ),
            self.the_store().entries().len() > 0 && self.scan_mode() == ScanMode::Elimination
                ==> elimination_ok(
                r,
                self.the_store().entries(),
                *text,
                self.threshold().ratio(),
                self.shallow().ratio(),
                self.optimizes(),
                self.passes(),
            ),
            self.the_store().entries().len() > 0 && self.scan_mode() == ScanMode::TopDown ==> r is Ok
                && topdown_ok(
                r->Ok_0,
                self.the_store().entries(),
                *text,
                self.threshold().ratio(),
                self.step() as int,
            ),
    {
        if self.store.is_empty() {
            return Err(Error::NoMatch);
        }
        match self.mode {
            ScanMode::Elimination => self.scan_elimination(text),
            ScanMode::TopDown => Ok(self.scan_topdown(text)),
        }
    }

    #[verifier::rlimit(40)]
    fn scan_elimination(&self, text: &TextData) -> (r: Result<ScanResult<'a>, Error>)
        requires
            self.the_store().wf(),
            self.the_store().entries().len() > 0,
            text.wf(),
        ensures
            elimination_ok(
                r,
                self.the_store().entries(),
                *text,
                self.threshold().ratio(),
                self.shallow().ratio(),
                self.optimizes(),
                self.passes(),
            ),
    {
        let ghost entries = self.the_store().entries();
        let ghost conf = self.threshold().ratio();
        let m0 = match self.store.analyze(text) {
            Ok(m) => m,
            Err(e) => return Err(e),
        };
        let score = m0.score;
        let license = if self.confidence_threshold.less_than(&score) {
            Some(IdentifiedLicense { name: m0.name, kind: m0.license_type, data: m0.data })
        } else {
            None
        };
        let mut containing: Vec<ContainedResult<'a>> = Vec::new();
        if self.shallow_limit.less_than(&score) || !self.optimize {
            return Ok(ScanResult { score, license, containing });
        }
        if !text.has_text() {
            return Err(Error::MissingText);
        }
        let mut m_name = m0.name;
        let mut m_kind = m0.license_type;
        let mut m_data = m0.data;
        let mut current: Option<TextData> = None;
        let mut n: u16 = 0;
        let mut done = false;
        let ghost total = elim(entries, text.lines_seq()->0, text.lo(), text.hi(), conf, self.passes());
        let ghost mut gl = text.lines_seq()->0;
        let ghost mut glo = text.lo();
        let ghost mut ghi = text.hi();
        let ghost mut prefix: Seq<Located> = Seq::empty();
        assert(total =~= prefix + elim(entries, gl, glo, ghi, conf, (self.passes() - n) as nat));
        while n < self.max_passes && !done
            invariant
                self.the_store().wf(),
                self.the_store().entries().len() > 0,
                entries == self.the_store().entries(),
                conf == self.threshold().ratio(),
                text.wf(),
                n <= self.max_passes,
                ({
                    let cur = match current {
                        Some(t) => t,
                        None => *text,
                    };
                    &&& cur.wf()
                    &&& cur.lines_seq() == Some(gl)
                    &&& cur.lo() == glo
                    &&& cur.hi() == ghi
                }),
                m_data.wf(),
                ({
                    let (i, k, s) = analysis(entries, bigrams(view_text(gl, glo, ghi)));
                    identifies(m_name, m_kind, m_data, entries, i, k)
                }),
                describes(containing@, entries, prefix),
                !done ==> total == prefix + elim(
                    entries,
                    gl,
                    glo,
                    ghi,
                    conf,
                    (self.passes() - n) as nat,
                ),
                done ==> total == prefix,
                total == elim(entries, text.lines_seq()->0, text.lo(), text.hi(), conf, self.passes()),
            decreases self.max_passes - n, if done {
                0int
            } else {
                1int
            },
        {
            let cur: &TextData = match &current {
                Some(t) => t,
                None => text,
            };
            let (opt, sc) = match cur.optimize_bounds(m_data) {
                Ok(p) => p,
                Err(e) => return Err(e),
            };
            let ghost (gi, gk, gs) = analysis(entries, bigrams(view_text(gl, glo, ghi)));
            let ghost rest = elim(entries, gl, glo, ghi, conf, (self.passes() - n) as nat);
            if sc.less_than(&self.confidence_threshold) {
                done = true;
                assert(rest =~= Seq::<Located>::empty());
                assert(total =~= prefix);
            } else {
                let (a, b) = opt.lines_view();
                let ghost f: Located = (sc.ratio(), gi, gk, a as int, b as int);
                containing.push(
                    ContainedResult {
                        score: sc,
                        license: IdentifiedLicense { name: m_name, kind: m_kind, data: m_data },
                        line_range: (a, b),
                    },
                );
                let w = match opt.white_out() {
                    Ok(w) => w,
                    Err(e) => return Err(e),
                };
                let m2 = match self.store.analyze(&w) {
                    Ok(m) => m,
                    Err(e) => return Err(e),
                };
                m_name = m2.name;
                m_kind = m2.license_type;
                m_data = m2.data;
                proof {
                    let nl = blanked(gl, a as int, b as int);
                    assert(rest == seq![f] + elim(
                        entries,
                        nl,
                        0,
                        gl.len() as int,
                        conf,
                        (self.passes() - n - 1) as nat,
                    ));
                    assert(total =~= prefix.push(f) + elim(
                        entries,
                        nl,
                        0,
                        gl.len() as int,
                        conf,
                        (self.passes() - n - 1) as nat,
                    ));
                    prefix = prefix.push(f);
                    gl = nl;
                    glo = 0;
                    ghi = nl.len() as int;
                }
                current = Some(w);
                n = n + 1;
            }
        }
        proof {
            if !done {
                assert(elim(entries, gl, glo, ghi, conf, 0) =~= Seq::<Located>::empty());
                assert(total =~= prefix);
            }
        }
        Ok(ScanResult { score, license, containing })
    }
}

impl<'a> ScanStrategy<'a> {
    fn scan_topdown(&self, text: &TextData) -> (r: ScanResult<'a>)
        requires
            self.the_store().wf(),
            self.the_store().entries().len() > 0,
            text.wf(),
        ensures
            topdown_ok(
                r,
                self.the_store().entries(),
                *text,
                self.threshold().ratio(),
                self.step() as int,
            ),
    {
        let ghost entries = self.the_store().entries();
        let ghost conf = self.threshold().ratio();
        let ghost lines = match text.lines_seq() {
            Some(l) => l,
            None => Seq::empty(),
        };
        let ghost step = self.step() as int;
        let text_end = text.lines_view().1;
        let ghost total = topdown(entries, lines, text_end as int, step, conf, 0);
        let mut containing: Vec<ContainedResult<'a>> = Vec::new();
        let mut current_start: usize = 0;
        let mut go = true;
        let ghost mut prefix: Seq<Located> = Seq::empty();
        assert(total =~= prefix + topdown(entries, lines, text_end as int, step, conf, 0));
        while go && current_start < text_end
            invariant
                self.the_store().wf(),
                self.the_store().entries().len() > 0,
                entries == self.the_store().entries(),
                conf == self.threshold().ratio(),
                step == self.step() as int,
                text.wf(),
                text_end == text.hi(),
                lines == match text.lines_seq() {
                    Some(l) => l,
                    None => Seq::empty(),
                },
                total == topdown(entries, lines, text_end as int, step, conf, 0),
                describes(containing@, entries, prefix),
                go ==> total == prefix + topdown(
                    entries,
                    lines,
                    text_end as int,
                    step,
                    conf,
                    current_start as int,
                ),
                !go ==> total == prefix,
            decreases text_end - current_start, if go {
                1int
            } else {
                0int
            },
        {
            let ghost rest = topdown(entries, lines, text_end as int, step, conf, current_start as int);
            match self.topdown_find_contained_license(text, current_start) {
                None => {
                    go = false;
                    assert(rest =~= Seq::<Located>::empty());
                    assert(total =~= prefix);
                },
                Some(c) => {
                    let b = c.line_range.1;
                    let ghost f = topdown_next(
                        entries,
                        lines,
                        text_end as int,
                        step,
                        conf,
                        current_start as int,
                    )->0;
                    let ghost before = containing@;
                    proof {
                        assert(describes(seq![c], entries, seq![f]));
                        assert(seq![c][0] == c);
                        assert(seq![f][0] == f);
                        assert(f.4 == b);
                    }
                    assert(rest == seq![f] + topdown(
                        entries,
                        lines,
                        text_end as int,
                        step,
                        conf,
                        b + 1,
                    ));
                    containing.push(c);
                    proof {
                        assert forall|j: int| 0 <= j < containing@.len() implies {
                            let c = #[trigger] containing@[j];
                            let (sc, i, k, a, b) = prefix.push(f)[j];
                            &&& c.score.ratio() == sc
                            &&& identifies(c.license.name, c.license.kind, c.license.data, entries, i, k)
                            &&& c.line_range.0 == a
                            &&& c.line_range.1 == b
                        } by {
                            if j < before.len() {
                                assert(containing@[j] == before[j]);
                                assert(prefix.push(f)[j] == prefix[j]);
                            } else {
                                assert(containing@[j] == seq![c][0]);
                                assert(prefix.push(f)[j] == seq![f][0]);
                            }
                        }
                        assert(total =~= prefix.push(f) + topdown(
                            entries,
                            lines,
                            text_end as int,
                            step,
                            conf,
                            b + 1,
                        ));
                        prefix = prefix.push(f);
                    }
                    if b >= text_end {
                        go = false;
                        assert(topdown(entries, lines, text_end as int, step, conf, b + 1)
                            =~= Seq::<Located>::empty());
                        assert(total =~= prefix);
                    } else {
                        current_start = b + 1;
                    }
                },
            }
        }
        proof {
            if go {
                assert(topdown(entries, lines, text_end as int, step, conf, current_start as int)
                    =~= Seq::<Located>::empty());
                assert(total =~= prefix);
            }
        }
        ScanResult { score: Score::zero(), license: None, containing }
    }

    /// Looks for the next license from line `starting_at` on: a coarse
    /// scan over windows in steps, then the best window narrowed. Finds
    /// nothing from the end of the view on.
    fn topdown_find_contained_license(&self, text: &TextData, starting_at: usize) -> (r: Option<
        ContainedResult<'a>,
    >)
        requires
            self.the_store().wf(),
            self.the_store().entries().len() > 0,
            text.wf(),
        ensures
            ({
                let lines = text.lines_seq()->0;
                let next = topdown_next(
                    self.the_store().entries(),
                    lines,
                    text.hi(),
                    self.step() as int,
                    self.threshold().ratio(),
                    starting_at as int,
                );
                &&& r is Some <==> next is Some
                &&& r is Some ==> describes(seq![r->0], self.the_store().entries(), seq![next->0])
                &&& r is Some ==> starting_at <= r->0.line_range.0 <= r->0.line_range.1 <= text.hi()
            }),
    {
        let ghost entries = self.the_store().entries();
        let ghost conf = self.threshold().ratio();
        let ghost lines = text.lines_seq()->0;
        let text_end = text.lines_view().1;
        let step = self.step_size;
        if starting_at >= text_end {
            return None;
        }
        let ghost t = text_end as int;
        let ghost goal = coarse_starts(
            entries,
            lines,
            t,
            step as int,
            conf,
            starting_at as int,
            (false, None, false),
        );
        let mut hit = false;
        let mut stop = false;
        let mut found: Option<(usize, usize, &'a str, LicenseType, &'a TextData)> = None;
        let ghost mut gfound: Option<(int, int, int, int)> = None;
        let mut start = starting_at;
        let mut more_starts = step > 0;
        while more_starts && !stop
            invariant
                self.the_store().wf(),
                self.the_store().entries().len() > 0,
                entries == self.the_store().entries(),
                conf == self.threshold().ratio(),
                text.wf(),
                text.lines_seq() == Some(lines),
                text_end == text.hi(),
                t == text_end,
                step == self.step_size,
                more_starts ==> step > 0,
                starting_at <= start < text_end,
                goal == coarse_starts(
                    entries,
                    lines,
                    t,
                    step as int,
                    conf,
                    starting_at as int,
                    (false, None, false),
                ),
                goal == if more_starts && !stop {
                    coarse_starts(entries, lines, t, step as int, conf, start as int, (hit, gfound, stop))
                } else {
                    (hit, gfound, stop)
                },
                found is Some <==> gfound is Some,
                found is Some ==> {
                    let (s, e, name, kind, data) = found->0;
                    let (gs, ge, gi, gk) = gfound->0;
                    &&& s == gs
                    &&& e == ge
                    &&& starting_at <= s <= e <= text_end
                    &&& identifies(name, kind, data, entries, gi, gk)
                    &&& data.wf()
                },
            decreases text_end - start, if stop {
                0int
            } else {
                1int
            }, if more_starts {
                1int
            } else {
                0int
            },
        {
            let ghost st0 = (hit, gfound, stop);
            let mut end = start;
            let mut more_ends = true;
            while more_ends && !stop
                invariant
                    self.the_store().wf(),
                    self.the_store().entries().len() > 0,
                    entries == self.the_store().entries(),
                    conf == self.threshold().ratio(),
                    text.wf(),
                    text.lines_seq() == Some(lines),
                    text_end == text.hi(),
                    t == text_end,
                    step == self.step_size,
                    step > 0,
                    starting_at <= start <= end <= text_end,
                    coarse_ends(entries, lines, t, step as int, conf, start as int, start as int, st0)
                        == if more_ends && !stop {
                        coarse_ends(
                            entries,
                            lines,
                            t,
                            step as int,
                            conf,
                            start as int,
                            end as int,
                            (hit, gfound, stop),
                        )
                    } else {
                        (hit, gfound, stop)
                    },
                    found is Some <==> gfound is Some,
                    found is Some ==> {
                        let (s, e, name, kind, data) = found->0;
                        let (gs, ge, gi, gk) = gfound->0;
                        &&& s == gs
                        &&& e == ge
                        &&& starting_at <= s <= e <= text_end
                        &&& identifies(name, kind, data, entries, gi, gk)
                        &&& data.wf()
                    },
                decreases text_end - end, if stop {
                    0int
                } else {
                    1int
                }, if more_ends {
                    1int
                } else {
                    0int
                },
            {
                let view = match text.with_view(start, end) {
                    Ok(v) => v,
                    Err(_) => return None,
                };
                let m = match self.store.analyze(&view) {
                    Ok(m) => m,
                    Err(_) => return None,
                };
                let ghost (gi, gk, gs) = analysis(entries, bigrams(view_text(lines, start as int, end as int)));
                if !hit && self.confidence_threshold.at_most(&m.score) {
                    hit = true;
                }
                if hit {
                    if m.score.less_than(&self.confidence_threshold) {
                        stop = true;
                    } else {
                        found = Some((start, end, m.name, m.license_type, m.data));
                        proof {
                            gfound = Some((start as int, end as int, gi, gk));
                        }
                    }
                }
                if !stop {
                    if step > text_end - end {
                        more_ends = false;
                        assert(coarse_ends(
                            entries,
                            lines,
                            t,
                            step as int,
                            conf,
                            start as int,
                            end + step,
                            (hit, gfound, stop),
                        ) == (hit, gfound, stop));
                    } else {
                        end = end + step;
                    }
                }
            }
            proof {
                assert(goal == coarse_starts(
                    entries,
                    lines,
                    t,
                    step as int,
                    conf,
                    start + step,
                    (hit, gfound, stop),
                ));
            }
            if !stop {
                if step >= text_end - start {
                    more_starts = false;
                    assert(coarse_starts(
                        entries,
                        lines,
                        t,
                        step as int,
                        conf,
                        start + step,
                        (hit, gfound, stop),
                    ) == (hit, gfound, stop));
                } else {
                    start = start + step;
                }
            } else {
                assert(coarse_starts(
                    entries,
                    lines,
                    t,
                    step as int,
                    conf,
                    start + step,
                    (hit, gfound, stop),
                ) == (hit, gfound, stop));
            }
        }
        match found {
            None => None,
            Some((s, e, name, kind, data)) => {
                let view = match text.with_view(s, e) {
                    Ok(v) => v,
                    Err(_) => return None,
                };
                let (opt, sc) = match view.optimize_bounds(data) {
                    Ok(p) => p,
                    Err(_) => return None,
                };
                proof {
                    law_optimize_stays_in_view(lines, s as int, e as int, data.grams());
                }
                if sc.less_than(&self.confidence_threshold) {
                    None
                } else {
                    let range = opt.lines_view();
                    let c = ContainedResult {
                        score: sc,
                        license: IdentifiedLicense { name, kind, data },
                        line_range: range,
                    };
                    Some(c)
                }
            },
        }
    }
}

} // verus!
