//! Text preprocessing: per-line normalization and the aggressive pass that
//! strips comment leaders, punctuation, titles and copyright notices.

use regex::Regex;
use unicode_normalization::UnicodeNormalization;
use vstd::prelude::*;

use crate::text::{
    chars_of, is_space, is_space_char, join_chars, lemma_split_nonempty, join_with, push_all, split_chars, split_on,
    string_of, trim_chars, trimmed, views,
};

verus! {

/// What `unicode_normalization`'s `nfc` gives for `s`: its canonical composition.
pub uninterp spec fn nfc_of(s: Seq<char>) -> Seq<char>;

/// What `regex::Regex::replace_all` gives when every match of `pattern` in
/// `text` is replaced by `rep` (the text itself where `pattern` does not compile).
pub uninterp spec fn regex_replaced(pattern: Seq<char>, text: Seq<char>, rep: Seq<char>) -> Seq<
    char,
>;

/// What `str::to_lowercase` gives for `s`.
pub uninterp spec fn lower_of(s: Seq<char>) -> Seq<char>;

/// Relies on `unicode_normalization::UnicodeNormalization::nfc`: the result
/// depends on the characters alone.
#[verifier::external_body]
fn nfc(s: &str) -> (r: String)
    ensures
        r@ == nfc_of(s@),
{
    s.nfc().collect::<String>()
}

/// Relies on `regex::Regex::new` and `regex::Regex::replace_all`: the result
/// depends on the pattern, the text and the replacement alone.
#[verifier::external_body]
fn regex_replace(pattern: &str, text: &str, rep: &str) -> (r: String)
    ensures
        r@ == regex_replaced(pattern@, text@, rep@),
{
    match Regex::new(pattern) {
        Ok(rx) => rx.replace_all(text, rep).into_owned(),
        Err(_) => text.to_string(),
    }
}

/// Relies on `str::to_lowercase`: the result depends on the characters alone.
#[verifier::external_body]
fn to_lower(s: &str) -> (r: String)
    ensures
        r@ == lower_of(s@),
{
    s.to_lowercase()
}

/// Anything that is neither a word character, whitespace nor punctuation.
pub const RX_JUNK: &'static str = "[^\\w\\s\\pP]+";

/// A web address up to the next whitespace.
pub const RX_URL: &'static str = "https?://\\S+";

/// What every web address becomes.
pub const URL_MARK: &'static str = "http://blackboxed/url";

/// Runs of horizontal whitespace, slashes, bars and the fraction slash.
pub const RX_HSPACE: &'static str = "(?x)[ \\t\\p{Zs} \\\\ / \\| \\x{2044} ]+";

/// Runs of quotation marks.
pub const RX_QUOTES: &'static str = "[\"'\\p{Pi}\\p{Pf}]+";

/// Runs of dashes.
pub const RX_DASH: &'static str = "\\p{Pd}+";

/// Runs of opening brackets.
pub const RX_OPEN: &'static str = "\\p{Ps}+";

/// Runs of closing brackets.
pub const RX_CLOSE: &'static str = "\\p{Pe}+";

/// Runs of connector punctuation.
pub const RX_UNDER: &'static str = "\\p{Pc}+";

/// The copyright signs.
pub const RX_COPY: &'static str = "[\u{a9}\u{24b8}\u{24d2}]";

/// Line-breaking characters.
pub const RX_VSPACE: &'static str = "[\\r\\n\\v\\f]";

/// Three or more newlines.
pub const RX_MANY_NEWLINES: &'static str = "\\n{3,}";

/// Anything that is neither a word character nor whitespace.
pub const RX_PUNCT: &'static str = "[^\\w\\s]+";

/// A title line ending in "license", followed by a blank line.
pub const RX_TITLE: &'static str = "^.*license( version \\S+)?( copyright.*)?\\n\\n";

/// Copyright paragraphs, a first line that mentions copyright, and lines
/// that read like a copyright statement.
pub const RX_COPYRIGHT: &'static str = "(?mx)
    (
        # either a new paragraph, or the beginning of the text + empty lines
        (\\n\\n|\\A\\n*)
        # any number of lines starting with 'copyright' followed by a new paragraph
        (^\\x20*copyright.*?$)+
        \\n\\n
    )
    |
    (
        # or the very first line if it has 'copyright' in it
        \\A.*copyright.*$
    )
    |
    (
        # or any lines that really look like a copyright statement
        ^copyright (\\s+(c|\\d+))+ .*?$
    )
";

/// Runs of whitespace.
pub const RX_SPACES: &'static str = "\\s+";

/// Every match of `pattern` in `s` replaced by `rep`.
pub open spec fn replaced(pattern: &str, s: Seq<char>, rep: &str) -> Seq<char> {
    regex_replaced(pattern@, s, rep@)
}

pub open spec fn spec_remove_junk(s: Seq<char>) -> Seq<char> {
    replaced(RX_JUNK, s, "")
}

pub open spec fn spec_blackbox_urls(s: Seq<char>) -> Seq<char> {
    replaced(RX_URL, s, URL_MARK)
}

pub open spec fn spec_normalize_horizontal_whitespace(s: Seq<char>) -> Seq<char> {
    replaced(RX_HSPACE, s, " ")
}

pub open spec fn spec_normalize_punctuation(s: Seq<char>) -> Seq<char> {
    let q = replaced(RX_QUOTES, s, "'");
    let d = replaced(RX_DASH, q, "-");
    let o = replaced(RX_OPEN, d, "(");
    let c = replaced(RX_CLOSE, o, ")");
    let u = replaced(RX_UNDER, c, "_");
    replaced(RX_COPY, u, "(c)")
}

/// One line after the normalization pass.
pub open spec fn normalized_line(l: Seq<char>) -> Seq<char> {
    trimmed(
        spec_normalize_punctuation(
            spec_normalize_horizontal_whitespace(spec_blackbox_urls(spec_remove_junk(nfc_of(l)))),
        ),
    )
}

/// The lines of `text`, each after the normalization pass.
pub open spec fn normalized_lines(text: Seq<char>) -> Seq<Seq<char>> {
    split_on(text, '\n').map_values(|l: Seq<char>| normalized_line(l))
}

pub fn normalize_unicode(input: &str) -> (r: String)
    ensures
        r@ == nfc_of(input@),
{
    nfc(input)
}

pub fn remove_junk(input: &str) -> (r: String)
    ensures
        r@ == spec_remove_junk(input@),
{
    regex_replace(RX_JUNK, input, "")
}

pub fn blackbox_urls(input: &str) -> (r: String)
    ensures
        r@ == spec_blackbox_urls(input@),
{
    regex_replace(RX_URL, input, URL_MARK)
}

pub fn normalize_horizontal_whitespace(input: &str) -> (r: String)
    ensures
        r@ == spec_normalize_horizontal_whitespace(input@),
{
    regex_replace(RX_HSPACE, input, " ")
}

pub fn normalize_punctuation(input: &str) -> (r: String)
    ensures
        r@ == spec_normalize_punctuation(input@),
{
    let q = regex_replace(RX_QUOTES, input, "'");
    let d = regex_replace(RX_DASH, q.as_str(), "-");
    let o = regex_replace(RX_OPEN, d.as_str(), "(");
    let c = regex_replace(RX_CLOSE, o.as_str(), ")");
    let u = regex_replace(RX_UNDER, c.as_str(), "_");
    regex_replace(RX_COPY, u.as_str(), "(c)")
}

/// `input` without leading and trailing whitespace.
pub fn trim(input: &str) -> (r: String)
    ensures
        r@ == trimmed(input@),
{
    let cs = chars_of(input);
    let t = trim_chars(cs.as_slice());
    string_of(t.as_slice())
}

/// One line through the normalization pass.
pub fn normalize_line(line: &str) -> (r: String)
    ensures
        r@ == normalized_line(line@),
{
    let a = normalize_unicode(line);
    let b = remove_junk(a.as_str());
    let c = blackbox_urls(b.as_str());
    let d = normalize_horizontal_whitespace(c.as_str());
    let e = normalize_punctuation(d.as_str());
    trim(e.as_str())
}

/// Normalizes each newline-separated line of `text`; the line count is kept.
pub fn apply_normalizers(text: &str) -> (r: Vec<String>)
    ensures
        r@.map_values(|l: String| l@) == normalized_lines(text@),
        r@.len() == split_on(text@, '\n').len(),
{
    let cs = chars_of(text);
    let parts = split_chars(&cs, '\n');
    let ghost lines = split_on(text@, '\n');
    let mut out: Vec<String> = Vec::new();
    let mut i: usize = 0;
    while i < parts.len()
        invariant
            views(parts@) == lines,
            lines == split_on(text@, '\n'),
            i <= parts@.len(),
            out@.map_values(|l: String| l@) == lines.take(i as int).map_values(
                |l: Seq<char>| normalized_line(l),
            ),
        decreases parts@.len() - i,
    {
        let line = string_of(parts[i].as_slice());
        let n = normalize_line(line.as_str());
        let ghost before = out@;
        let ghost nv = n@;
        out.push(n);
        proof {
            assert(lines[i as int] == parts@[i as int]@);
            assert(nv == normalized_line(lines[i as int]));
            assert(out@.map_values(|l: String| l@) =~= before.map_values(|l: String| l@).push(nv));
            assert(lines.take(i + 1) =~= lines.take(i as int).push(lines[i as int]));
            assert(out@.map_values(|l: String| l@) =~= lines.take(i + 1).map_values(
                |l: Seq<char>| normalized_line(l),
            ));
        }
        i += 1;
    }
    assert(lines.take(i as int) =~= lines);
    out
}

/// The number of bytes that `c` takes in UTF-8.
pub open spec fn utf8_width(c: char) -> nat {
    let u = c as u32;
    if u < 0x80 {
        1
    } else if u < 0x800 {
        2
    } else if u < 0x10000 {
        3
    } else {
        4
    }
}

fn char_width(c: char) -> (r: usize)
    ensures
        r == utf8_width(c),
{
    let u = c as u32;
    if u < 0x80 {
        1
    } else if u < 0x800 {
        2
    } else if u < 0x10000 {
        3
    } else {
        4
    }
}

/// The number of bytes that `s` takes in UTF-8.
pub open spec fn utf8_size(s: Seq<char>) -> nat
    decreases s.len(),
{
    if s.len() == 0 {
        0
    } else {
        utf8_size(s.drop_last()) + utf8_width(s.last())
    }
}

/// The longest prefix of `s` that fits in `idx` bytes of UTF-8.
pub open spec fn prefix_within(s: Seq<char>, idx: nat) -> Seq<char>
    decreases s.len(),
{
    if s.len() > 0 && utf8_width(s[0]) <= idx {
        seq![s[0]] + prefix_within(s.drop_first(), (idx - utf8_width(s[0])) as nat)
    } else {
        Seq::empty()
    }
}

/// The longest common prefix of `a` and `b`.
pub open spec fn common_prefix(a: Seq<char>, b: Seq<char>) -> Seq<char>
    decreases a.len(),
{
    if a.len() > 0 && b.len() > 0 && a[0] == b[0] {
        seq![a[0]] + common_prefix(a.drop_first(), b.drop_first())
    } else {
        Seq::empty()
    }
}

/// The longest prefix of `s` that is at most `idx` bytes long: a cut at a
/// byte index that falls inside a character backs up to that character's
/// start.
pub fn trim_byte_adjusted(s: &str, idx: usize) -> (r: String)
    ensures
        r@ == prefix_within(s@, idx as nat),
{
    let cs = chars_of(s);
    let mut i: usize = 0;
    let mut used: usize = 0;
    assert(cs@.skip(0) =~= cs@);
    assert(cs@.take(0) + prefix_within(cs@.skip(0), idx as nat) =~= prefix_within(cs@, idx as nat));
    while i < cs.len() && char_width(cs[i]) <= idx - used
        invariant
            i <= cs@.len(),
            used <= idx,
            prefix_within(cs@, idx as nat) == cs@.take(i as int) + prefix_within(
                cs@.skip(i as int),
                (idx - used) as nat,
            ),
        decreases cs@.len() - i,
    {
        let w = char_width(cs[i]);
        proof {
            assert(cs@.skip(i as int).drop_first() =~= cs@.skip(i + 1));
            assert(cs@.take(i + 1) =~= cs@.take(i as int) + seq![cs@[i as int]]);
            assert(cs@.take(i as int) + prefix_within(cs@.skip(i as int), (idx - used) as nat)
                =~= cs@.take(i + 1) + prefix_within(cs@.skip(i + 1), (idx - used - w) as nat));
        }
        used = used + w;
        i += 1;
    }
    assert(cs@.take(i as int) + prefix_within(cs@.skip(i as int), (idx - used) as nat)
        =~= cs@.take(i as int));
    string_of(&cs.as_slice()[0..i])
}

/// The length of the longest common prefix of `a` and `b`.
fn common_prefix_len(a: &[char], b: &[char]) -> (r: usize)
    ensures
        r <= a@.len(),
        a@.take(r as int) == common_prefix(a@, b@),
{
    let mut k: usize = 0;
    assert(a@.skip(0) =~= a@);
    assert(b@.skip(0) =~= b@);
    assert(a@.take(0) + common_prefix(a@.skip(0), b@.skip(0)) =~= common_prefix(a@, b@));
    while k < a.len() && k < b.len() && a[k] == b[k]
        invariant
            k <= a@.len(),
            k <= b@.len(),
            common_prefix(a@, b@) == a@.take(k as int) + common_prefix(
                a@.skip(k as int),
                b@.skip(k as int),
            ),
        decreases a@.len() - k,
    {
        proof {
            assert(a@.skip(k as int).drop_first() =~= a@.skip(k + 1));
            assert(b@.skip(k as int).drop_first() =~= b@.skip(k + 1));
            assert(a@.take(k + 1) =~= a@.take(k as int) + seq![a@[k as int]]);
            assert(a@.take(k as int) + common_prefix(a@.skip(k as int), b@.skip(k as int))
                =~= a@.take(k + 1) + common_prefix(a@.skip(k + 1), b@.skip(k + 1)));
        }
        k += 1;
    }
    assert(a@.take(k as int) + common_prefix(a@.skip(k as int), b@.skip(k as int)) =~= a@.take(
        k as int,
    ));
    k
}

/// The common prefix of two lines, trimmed.
pub open spec fn line_prefix(a: Seq<char>, b: Seq<char>) -> Seq<char> {
    trimmed(common_prefix(a, b))
}

fn lcs_chars(a: &[char], b: &[char]) -> (r: Vec<char>)
    ensures
        r@ == line_prefix(a@, b@),
{
    let k = common_prefix_len(a, b);
    trim_chars(&a[0..k])
}

/// The common prefix of two lines, trimmed.
pub fn lcs_substr(f_line: &str, s_line: &str) -> (r: String)
    ensures
        r@ == line_prefix(f_line@, s_line@),
{
    let a = chars_of(f_line);
    let b = chars_of(s_line);
    let p = lcs_chars(a.as_slice(), b.as_slice());
    string_of(p.as_slice())
}

/// Whether `s` takes more than `k` bytes in UTF-8.
fn utf8_longer_than(s: &[char], k: usize) -> (r: bool)
    ensures
        r == (utf8_size(s@) > k),
{
    let mut i: usize = 0;
    let mut size: usize = 0;
    assert(s@.take(0) =~= Seq::<char>::empty());
    while i < s.len()
        invariant
            i <= s@.len(),
            size == utf8_size(s@.take(i as int)),
            size <= k,
        decreases s@.len() - i,
    {
        let w = char_width(s[i]);
        assert(s@.take(i + 1).drop_last() =~= s@.take(i as int));
        if w > k - size {
            proof {
                lemma_utf8_size_prefix(s@, i + 1);
            }
            return true;
        }
        size = size + w;
        i += 1;
    }
    assert(s@.take(i as int) =~= s@);
    false
}

proof fn lemma_utf8_size_prefix(s: Seq<char>, i: int)
    requires
        0 <= i <= s.len(),
    ensures
        utf8_size(s.take(i)) <= utf8_size(s),
    decreases s.len() - i,
{
    if i < s.len() {
        assert(s.take(i + 1).drop_last() =~= s.take(i));
        lemma_utf8_size_prefix(s, i + 1);
    } else {
        assert(s.take(i) =~= s);
    }
}

/// `s` begins with `p`.
pub open spec fn starts_with(s: Seq<char>, p: Seq<char>) -> bool {
    p.len() <= s.len() && s.take(p.len() as int) == p
}

fn starts_with_chars(s: &[char], p: &[char]) -> (r: bool)
    ensures
        r == starts_with(s@, p@),
{
    if p.len() > s.len() {
        return false;
    }
    let mut i: usize = 0;
    while i < p.len()
        invariant
            p@.len() <= s@.len(),
            i <= p@.len(),
            forall|j: int| 0 <= j < i ==> s@[j] == p@[j],
        decreases p@.len() - i,
    {
        if s[i] != p[i] {
            assert(s@.take(p@.len() as int)[i as int] != p@[i as int]);
            return false;
        }
        i += 1;
    }
    assert(s@.take(p@.len() as int) =~= p@);
    true
}

/// Counts line-pair prefixes: an existing one gains one, a new one starts at two.
pub open spec fn bump(t: Seq<(Seq<char>, nat)>, p: Seq<char>) -> Seq<(Seq<char>, nat)> {
    if exists|i: int| 0 <= i < t.len() && t[i].0 == p {
        t.map_values(
            |e: (Seq<char>, nat)|
                if e.0 == p {
                    (e.0, e.1 + 1)
                } else {
                    e
                },
        )
    } else {
        t.push((p, 2))
    }
}

/// The common prefixes of neighbouring lines that are longer than three
/// bytes, each with its count, in the order first seen.
pub open spec fn tally(lines: Seq<Seq<char>>) -> Seq<(Seq<char>, nat)>
    decreases lines.len(),
{
    if lines.len() < 2 {
        Seq::empty()
    } else {
        let t = tally(lines.drop_last());
        let p = line_prefix(lines[lines.len() - 2], lines.last());
        if utf8_size(p) > 3 {
            bump(t, p)
        } else {
            t
        }
    }
}

/// The index of the first entry with the highest count.
pub open spec fn best_index(t: Seq<(Seq<char>, nat)>) -> int
    decreases t.len(),
{
    if t.len() <= 1 {
        0
    } else {
        let b = best_index(t.drop_last());
        if t.last().1 > t[b].1 {
            t.len() - 1
        } else {
            b
        }
    }
}

/// The total count of the entries whose prefix begins with `p`.
pub open spec fn count_starting(t: Seq<(Seq<char>, nat)>, p: Seq<char>) -> nat
    decreases t.len(),
{
    if t.len() == 0 {
        0
    } else {
        count_starting(t.drop_last(), p) + if starts_with(t.last().0, p) {
            t.last().1
        } else {
            0
        }
    }
}

/// A line without the prefix `p`, where it begins with it, trimmed.
pub open spec fn strip_and_trim(l: Seq<char>, p: Seq<char>) -> Seq<char> {
    trimmed(
        if starts_with(l, p) {
            l.skip(p.len() as int)
        } else {
            l
        },
    )
}

/// `s` with its most common line prefix removed, where that prefix (with
/// the longer prefixes that begin with it) is counted at least four fifths
/// as many times as there are lines.
pub open spec fn common_removed(s: Seq<char>) -> Seq<char> {
    let lines = split_on(s, '\n');
    let t = tally(lines);
    if t.len() == 0 {
        s
    } else {
        let p = t[best_index(t)].0;
        if 5 * count_starting(t, p) < 4 * lines.len() {
            s
        } else {
            join_with(lines.map_values(|l: Seq<char>| strip_and_trim(l, p)), '\n')
        }
    }
}

/// The (prefix, count) entries held in two parallel vectors.
pub open spec fn tally_view(keys: Seq<Vec<char>>, counts: Seq<usize>) -> Seq<(Seq<char>, nat)> {
    Seq::new(keys.len(), |i: int| (keys[i]@, counts[i] as nat))
}

fn same_chars(a: &[char], b: &[char]) -> (r: bool)
    ensures
        r == (a@ == b@),
{
    if a.len() != b.len() {
        return false;
    }
    let r = starts_with_chars(a, b);
    assert(a@.take(b@.len() as int) =~= a@);
    r
}

/// Falling short of the rounded-up four fifths of `n` is falling short of
/// four fifths of `n`.
proof fn lemma_at_least_four_fifths(c: nat, n: nat)
    ensures
        (c < (4 * n + 4) / 5) == (5 * c < 4 * n),
{
    assert((c < (4 * n + 4) / 5) == (5 * c < 4 * n)) by (nonlinear_arith);
}

/// Counts one more occurrence of the prefix `p`.
fn bump_tally(keys: &mut Vec<Vec<char>>, counts: &mut Vec<usize>, p: Vec<char>, bound: usize)
    requires
        old(keys)@.len() == old(counts)@.len(),
        2 <= bound,
        forall|i: int| 0 <= i < old(counts)@.len() ==> old(counts)@[i] < bound,
    ensures
        final(keys)@.len() == final(counts)@.len(),
        tally_view(final(keys)@, final(counts)@) == bump(tally_view(old(keys)@, old(counts)@), p@),
        forall|i: int| 0 <= i < final(counts)@.len() ==> final(counts)@[i] <= bound,
{
    let ghost t = tally_view(keys@, counts@);
    let mut found = false;
    let mut i: usize = 0;
    while i < keys.len()
        invariant
            keys@ == old(keys)@,
            counts@.len() == keys@.len(),
            old(counts)@.len() == keys@.len(),
            i <= keys@.len(),
            t == tally_view(old(keys)@, old(counts)@),
            forall|k: int|
                0 <= k < i ==> counts@[k] == if keys@[k]@ == p@ {
                    old(counts)@[k] + 1
                } else {
                    old(counts)@[k] as int
                },
            forall|k: int| i <= k < counts@.len() ==> counts@[k] == old(counts)@[k],
            forall|k: int| 0 <= k < old(counts)@.len() ==> old(counts)@[k] < bound,
            found == exists|k: int| 0 <= k < i && keys@[k]@ == p@,
        decreases keys@.len() - i,
    {
        if same_chars(keys[i].as_slice(), p.as_slice()) {
            let c = counts[i];
            counts.set(i, c + 1);
            found = true;
        }
        i += 1;
    }
    if !found {
        let ghost pv = p@;
        keys.push(p);
        counts.push(2);
        proof {
            assert(!(exists|k: int| 0 <= k < t.len() && t[k].0 == pv)) by {
                if exists|k: int| 0 <= k < t.len() && t[k].0 == pv {
                    let k = choose|k: int| 0 <= k < t.len() && t[k].0 == pv;
                    assert(keys@[k]@ == pv);
                }
            }
            assert(counts@ =~= old(counts)@.push(2));
            assert(tally_view(keys@, counts@) =~= t.push((pv, 2)));
        }
    } else {
        proof {
            let k = choose|k: int| 0 <= k < i && keys@[k]@ == p@;
            assert(t[k].0 == p@);
            assert(tally_view(keys@, counts@) =~= bump(t, p@));
        }
    }
}

/// `input` with its most common line prefix removed from every line that
/// begins with it, when that prefix leads enough line pairs; otherwise
/// `input` unchanged.
pub fn remove_common_tokens(input: &str) -> (r: String)
    ensures
        r@ == common_removed(input@),
{
    let cs = chars_of(input);
    let lines = split_chars(&cs, '\n');
    let ghost ls = split_on(input@, '\n');
    proof {
        lemma_split_nonempty(input@, '\n');
    }
    let mut keys: Vec<Vec<char>> = Vec::new();
    let mut counts: Vec<usize> = Vec::new();
    let mut j: usize = 1;
    assert(tally_view(keys@, counts@) =~= tally(ls.take(1)));
    while j < lines.len()
        invariant
            1 <= j <= lines@.len(),
            views(lines@) == ls,
            keys@.len() == counts@.len(),
            tally_view(keys@, counts@) == tally(ls.take(j as int)),
            forall|k: int| 0 <= k < counts@.len() ==> counts@[k] <= j,
        decreases lines@.len() - j,
    {
        let p = lcs_chars(lines[j - 1].as_slice(), lines[j].as_slice());
        proof {
            let tj = ls.take(j + 1);
            assert(tj.drop_last() =~= ls.take(j as int));
            assert(tj[tj.len() - 2] == ls[j - 1]);
            assert(tj.last() == ls[j as int]);
        }
        if utf8_longer_than(p.as_slice(), 3) {
            bump_tally(&mut keys, &mut counts, p, j + 1);
        }
        j += 1;
    }
    assert(ls.take(lines@.len() as int) =~= ls);
    let ghost t = tally(ls);
    if keys.len() == 0 {
        return input.to_owned();
    }
    let mut b: usize = 0;
    let mut k: usize = 1;
    while k < keys.len()
        invariant
            1 <= k <= keys@.len(),
            keys@.len() == counts@.len(),
            tally_view(keys@, counts@) == t,
            b < k,
            b as int == best_index(t.take(k as int)),
        decreases keys@.len() - k,
    {
        proof {
            assert(t.take(k + 1).drop_last() =~= t.take(k as int));
        }
        if counts[k] > counts[b] {
            b = k;
        }
        k += 1;
    }
    assert(t.take(keys@.len() as int) =~= t);
    let prefix = keys[b].as_slice();
    let n = lines.len();
    let thr: usize = ((4 * (n as u128) + 4) / 5) as usize;
    let mut acc: usize = 0;
    k = 0;
    assert(t.take(0) =~= Seq::<(Seq<char>, nat)>::empty());
    while k < keys.len()
        invariant
            k <= keys@.len(),
            keys@.len() == counts@.len(),
            tally_view(keys@, counts@) == t,
            prefix@ == t[b as int].0,
            thr == (4 * n + 4) / 5,
            acc == if count_starting(t.take(k as int), prefix@) < thr {
                count_starting(t.take(k as int), prefix@)
            } else {
                thr as nat
            },
        decreases keys@.len() - k,
    {
        proof {
            assert(t.take(k + 1).drop_last() =~= t.take(k as int));
        }
        if starts_with_chars(keys[k].as_slice(), prefix) {
            let c = counts[k];
            if c >= thr - acc {
                acc = thr;
            } else {
                acc = acc + c;
            }
        }
        k += 1;
    }
    proof {
        lemma_at_least_four_fifths(count_starting(t, prefix@), n as nat);
    }
    if acc < thr {
        return input.to_owned();
    }
    let mut out: Vec<Vec<char>> = Vec::new();
    let mut i: usize = 0;
    while i < lines.len()
        invariant
            i <= lines@.len(),
            views(lines@) == ls,
            views(out@) == ls.take(i as int).map_values(|l: Seq<char>| strip_and_trim(l, prefix@)),
        decreases lines@.len() - i,
    {
        let line = lines[i].as_slice();
        let stripped = if starts_with_chars(line, prefix) {
            trim_chars(&line[prefix.len()..line.len()])
        } else {
            trim_chars(line)
        };
        let ghost sv = stripped@;
        let ghost before = views(out@);
        out.push(stripped);
        proof {
            assert(ls[i as int] == line@);
            assert(sv == strip_and_trim(ls[i as int], prefix@));
            assert(views(out@) =~= before.push(sv));
            assert(ls.take(i + 1) =~= ls.take(i as int).push(ls[i as int]));
            assert(views(out@) =~= ls.take(i + 1).map_values(
                |l: Seq<char>| strip_and_trim(l, prefix@),
            ));
        }
        i += 1;
    }
    assert(ls.take(i as int) =~= ls);
    let joined = join_chars(&out, '\n');
    string_of(joined.as_slice())
}

pub open spec fn spec_normalize_vertical_whitespace(s: Seq<char>) -> Seq<char> {
    replaced(RX_MANY_NEWLINES, replaced(RX_VSPACE, s, "\n"), "\n\n")
}

pub open spec fn spec_remove_punctuation(s: Seq<char>) -> Seq<char> {
    replaced(RX_PUNCT, s, "")
}

pub open spec fn spec_remove_title_line(s: Seq<char>) -> Seq<char> {
    replaced(RX_TITLE, s, "")
}

pub open spec fn spec_remove_copyright_statements(s: Seq<char>) -> Seq<char> {
    replaced(RX_COPYRIGHT, s, "\n\n")
}

pub open spec fn spec_collapse_whitespace(s: Seq<char>) -> Seq<char> {
    replaced(RX_SPACES, s, " ")
}

/// A text after the aggressive pass.
pub open spec fn aggressive(s: Seq<char>) -> Seq<char> {
    let a = common_removed(s);
    let b = spec_normalize_vertical_whitespace(a);
    let c = spec_remove_punctuation(b);
    let d = lower_of(c);
    let e = spec_remove_title_line(d);
    let f = spec_remove_copyright_statements(e);
    let g = spec_collapse_whitespace(f);
    trimmed(g)
}

pub fn normalize_vertical_whitespace(input: &str) -> (r: String)
    ensures
        r@ == spec_normalize_vertical_whitespace(input@),
{
    let a = regex_replace(RX_VSPACE, input, "\n");
    regex_replace(RX_MANY_NEWLINES, a.as_str(), "\n\n")
}

pub fn remove_punctuation(input: &str) -> (r: String)
    ensures
        r@ == spec_remove_punctuation(input@),
{
    regex_replace(RX_PUNCT, input, "")
}

pub fn lowercaseify(input: &str) -> (r: String)
    ensures
        r@ == lower_of(input@),
{
    to_lower(input)
}

pub fn remove_title_line(input: &str) -> (r: String)
    ensures
        r@ == spec_remove_title_line(input@),
{
    regex_replace(RX_TITLE, input, "")
}

pub fn remove_copyright_statements(input: &str) -> (r: String)
    ensures
        r@ == spec_remove_copyright_statements(input@),
{
    regex_replace(RX_COPYRIGHT, input, "\n\n")
}

pub fn collapse_whitespace(input: &str) -> (r: String)
    ensures
        r@ == spec_collapse_whitespace(input@),
{
    regex_replace(RX_SPACES, input, " ")
}

/// Runs the aggressive pass over a newline-separated text.
pub fn apply_aggressive(text: &str) -> (r: String)
    ensures
        r@ == aggressive(text@),
{
    let a = remove_common_tokens(text);
    let b = normalize_vertical_whitespace(a.as_str());
    let c = remove_punctuation(b.as_str());
    let d = lowercaseify(c.as_str());
    let e = remove_title_line(d.as_str());
    let f = remove_copyright_statements(e.as_str());
    let g = collapse_whitespace(f.as_str());
    trim(g.as_str())
}

/// Normalization keeps the line count: one normalized line for each
/// newline-separated line of the input.
pub proof fn law_normalize_keeps_line_count(text: Seq<char>)
    ensures
        normalized_lines(text).len() == split_on(text, '\n').len(),
{
}

} // verus!
