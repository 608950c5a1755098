//! Multisets of word n-grams and their Sørensen–Dice similarity.

use vstd::prelude::*;
use vstd::multiset::*;

use crate::score::Score;
use crate::text::{chars_of, join_range, join_with, split_chars, split_on, string_of, views};

verus! {

broadcast use {
    group_multiset_axioms,
    group_multiset_properties,
    vstd::seq_lib::group_to_multiset_ensures,
};

/// The most grams one set records: the range of its counters.
pub const MAX_GRAMS: usize = 4294967295;

/// The n-grams of a word sequence: every run of `n` neighbouring words,
/// joined by single spaces, in order.
pub open spec fn windows(words: Seq<Seq<char>>, n: nat) -> Seq<Seq<char>> {
    if n == 0 || words.len() < n {
        Seq::empty()
    } else {
        Seq::new(
            (words.len() - n + 1) as nat,
            |i: int| join_with(words.subrange(i, i + n as int), ' '),
        )
    }
}

/// The n-grams of a text whose words are separated by single spaces.
pub open spec fn grams_of(s: Seq<char>, n: nat) -> Seq<Seq<char>> {
    windows(split_on(s, ' '), n)
}

/// The first `room` grams of `gs`, or all of them when there are fewer.
pub open spec fn capped(gs: Seq<Seq<char>>, room: nat) -> Seq<Seq<char>> {
    if gs.len() <= room {
        gs
    } else {
        gs.take(room as int)
    }
}

/// The multiset of n-grams that a fresh set records for `s`.
pub open spec fn ngram_multiset(s: Seq<char>, n: nat) -> Multiset<Seq<char>> {
    capped(grams_of(s, n), MAX_GRAMS as nat).to_multiset()
}

/// The Sørensen–Dice coefficient of two multisets, as a numerator and a
/// denominator: `2 |a ∩ b| / (|a| + |b|)`, and `0 / 1` when the arities
/// differ or either side is empty.
pub open spec fn dice_ratio(a: Multiset<Seq<char>>, an: nat, b: Multiset<Seq<char>>, bn: nat) -> (
    nat,
    nat,
) {
    if an != bn || a.len() == 0 || b.len() == 0 {
        (0, 1)
    } else {
        (2 * a.intersection_with(b).len(), a.len() + b.len())
    }
}

/// `c` copies of `g`.
pub open spec fn copies(g: Seq<char>, c: nat) -> Multiset<Seq<char>>
    decreases c,
{
    if c == 0 {
        Multiset::empty()
    } else {
        copies(g, (c - 1) as nat).insert(g)
    }
}

/// The multiset that a table of (gram, count) entries stands for.
pub open spec fn entries_multiset(e: Seq<(String, u32)>) -> Multiset<Seq<char>>
    decreases e.len(),
{
    if e.len() == 0 {
        Multiset::empty()
    } else {
        entries_multiset(e.drop_last()).add(copies(e.last().0@, e.last().1 as nat))
    }
}

/// The count that a table of entries gives to `g`.
pub open spec fn count_in(e: Seq<(String, u32)>, g: Seq<char>) -> nat
    decreases e.len(),
{
    if e.len() == 0 {
        0
    } else {
        count_in(e.drop_last(), g) + if e.last().0@ == g {
            e.last().1 as nat
        } else {
            0
        }
    }
}

proof fn lemma_copies(g: Seq<char>, c: nat, x: Seq<char>)
    ensures
        copies(g, c).count(x) == if x == g {
            c
        } else {
            0
        },
        copies(g, c).len() == c,
    decreases c,
{
    if c > 0 {
        lemma_copies(g, (c - 1) as nat, x);
    }
}

proof fn lemma_entries_count(e: Seq<(String, u32)>, x: Seq<char>)
    ensures
        entries_multiset(e).count(x) == count_in(e, x),
    decreases e.len(),
{
    if e.len() > 0 {
        lemma_entries_count(e.drop_last(), x);
        lemma_copies(e.last().0@, e.last().1 as nat, x);
    }
}

proof fn lemma_count_absent(e: Seq<(String, u32)>, x: Seq<char>)
    requires
        forall|j: int| 0 <= j < e.len() ==> e[j].0@ != x,
    ensures
        count_in(e, x) == 0,
    decreases e.len(),
{
    if e.len() > 0 {
        lemma_count_absent(e.drop_last(), x);
    }
}

proof fn lemma_count_update(e: Seq<(String, u32)>, i: int, v: (String, u32), x: Seq<char>)
    requires
        0 <= i < e.len(),
    ensures
        count_in(e.update(i, v), x) + (if e[i].0@ == x {
            e[i].1 as nat
        } else {
            0
        }) == count_in(e, x) + (if v.0@ == x {
            v.1 as nat
        } else {
            0
        }),
    decreases e.len(),
{
    if i < e.len() - 1 {
        assert(e.update(i, v).drop_last() =~= e.drop_last().update(i, v));
        lemma_count_update(e.drop_last(), i, v, x);
    } else {
        assert(e.update(i, v).drop_last() =~= e.drop_last());
    }
}

proof fn lemma_count_unique(e: Seq<(String, u32)>, i: int)
    requires
        0 <= i < e.len(),
        forall|a: int, b: int| 0 <= a < b < e.len() ==> e[a].0@ != e[b].0@,
    ensures
        count_in(e, e[i].0@) == e[i].1,
{
    assert forall|j: int| 0 <= j < e.len() && j != i implies e.update(i, (e[i].0, 0u32))[j].0@
        != e[i].0@ by {
        if j < i {
            assert(e[j].0@ != e[i].0@);
        } else {
            assert(e[i].0@ != e[j].0@);
        }
    }
    lemma_count_update(e, i, (e[i].0, 0u32), e[i].0@);
    lemma_count_zero_at(e.update(i, (e[i].0, 0u32)), i, e[i].0@);
}

proof fn lemma_count_zero_at(e: Seq<(String, u32)>, i: int, x: Seq<char>)
    requires
        0 <= i < e.len(),
        e[i].1 == 0,
        forall|j: int| 0 <= j < e.len() && j != i ==> e[j].0@ != x,
    ensures
        count_in(e, x) == 0,
    decreases e.len(),
{
    if e.len() - 1 > i {
        lemma_count_zero_at(e.drop_last(), i, x);
    } else {
        lemma_count_absent(e.drop_last(), x);
    }
}

proof fn lemma_prefix_step(e: Seq<(String, u32)>, i: int)
    requires
        0 <= i < e.len(),
    ensures
        entries_multiset(e.take(i + 1)) == entries_multiset(e.take(i)).add(
            copies(e[i].0@, e[i].1 as nat),
        ),
{
    assert(e.take(i + 1).drop_last() =~= e.take(i));
}

proof fn lemma_intersection_step(
    m: Multiset<Seq<char>>,
    k: Seq<char>,
    c: nat,
    y: Multiset<Seq<char>>,
)
    requires
        m.count(k) == 0,
    ensures
        m.add(copies(k, c)).intersection_with(y).len() == m.intersection_with(y).len() + (if c
            <= y.count(k) {
            c
        } else {
            y.count(k)
        }),
{
    let mk = if c <= y.count(k) {
        c
    } else {
        y.count(k)
    };
    assert forall|x: Seq<char>|
        #[trigger] m.add(copies(k, c)).intersection_with(y).count(x) == m.intersection_with(
            y,
        ).add(copies(k, mk)).count(x) by {
        lemma_copies(k, c, x);
        lemma_copies(k, mk, x);
    }
    assert(m.add(copies(k, c)).intersection_with(y) =~= m.intersection_with(y).add(copies(k, mk)));
    lemma_copies(k, mk, k);
}

/// The intersection of two multisets does not depend on their order.
pub proof fn lemma_intersection_commutes(a: Multiset<Seq<char>>, b: Multiset<Seq<char>>)
    ensures
        a.intersection_with(b) == b.intersection_with(a),
        a.intersection_with(b).len() <= a.len(),
        a.intersection_with(b).len() <= b.len(),
{
    assert(a.intersection_with(b) =~= b.intersection_with(a));
    assert(a.intersection_with(b).subset_of(a));
    assert(a.intersection_with(b).subset_of(b));
    axiom_len_sub(a, a.intersection_with(b));
    axiom_len_sub(b, a.intersection_with(b));
}

/// The entries have distinct grams and positive counts that sum to at most
/// `MAX_GRAMS`.
pub open spec fn valid_counts(e: Seq<(String, u32)>) -> bool {
    &&& forall|a: int, b: int| 0 <= a < b < e.len() ==> e[a].0@ != e[b].0@
    &&& forall|a: int| 0 <= a < e.len() ==> e[a].1 > 0
    &&& entries_multiset(e).len() <= MAX_GRAMS
}

/// A multiset of word n-grams with their counts.
#[derive(Clone, Debug)]
pub struct NgramSet {
    grams: Vec<(String, u32)>,
    n: u8,
    size: usize,
}

impl View for NgramSet {
    type V = Multiset<Seq<char>>;

    closed spec fn view(&self) -> Multiset<Seq<char>> {
        entries_multiset(self.grams@)
    }
}

impl NgramSet {
    /// The number of words in each gram.
    pub closed spec fn arity(&self) -> nat {
        self.n as nat
    }

    /// The entries have distinct grams and positive counts, and the size is
    /// the number of grams recorded.
    pub closed spec fn wf(&self) -> bool {
        &&& forall|a: int, b: int|
            0 <= a < b < self.grams@.len() ==> self.grams@[a].0@ != self.grams@[b].0@
        &&& forall|a: int| 0 <= a < self.grams@.len() ==> self.grams@[a].1 > 0
        &&& self.size == entries_multiset(self.grams@).len()
        &&& self.size <= MAX_GRAMS
    }

    /// An empty set of grams of `n` words.
    pub fn new(n: u8) -> (r: NgramSet)
        ensures
            r.wf(),
            r.arity() == n,
            r@ == Multiset::<Seq<char>>::empty(),
    {
        NgramSet { grams: Vec::new(), n, size: 0 }
    }

    /// The grams of `n` words of the text `s`.
    pub fn from_str(s: &str, n: u8) -> (r: NgramSet)
        ensures
            r.wf(),
            r.arity() == n,
            r@ == ngram_multiset(s@, n as nat),
    {
        let mut set = NgramSet::new(n);
        set.analyze(s);
        assert(set@ =~= ngram_multiset(s@, n as nat));
        set
    }

    /// Records the grams of `n` words of the text `s`, as long as the set has
    /// room for them.
    pub fn analyze(&mut self, s: &str)
        requires
            old(self).wf(),
        ensures
            final(self).wf(),
            final(self).arity() == old(self).arity(),
            final(self)@ == old(self)@.add(
                capped(
                    grams_of(s@, old(self).arity()),
                    (MAX_GRAMS - old(self)@.len()) as nat,
                ).to_multiset(),
            ),
    {
        let cs = chars_of(s);
        let words = split_chars(&cs, ' ');
        let n = self.n as usize;
        let ghost gs = grams_of(s@, n as nat);
        let ghost room = (MAX_GRAMS - old(self)@.len()) as nat;
        if n == 0 || words.len() < n {
            assert(gs =~= Seq::<Seq<char>>::empty());
            assert(capped(gs, room) =~= Seq::<Seq<char>>::empty());
            assert(capped(gs, room).to_multiset() =~= Multiset::empty());
            assert(self@ =~= old(self)@.add(Multiset::empty()));
            return;
        }
        let count = words.len() - n + 1;
        let mut i: usize = 0;
        assert(gs.take(0) =~= Seq::<Seq<char>>::empty());
        assert(gs.take(0).to_multiset() =~= Multiset::empty());
        assert(self@ =~= old(self)@.add(gs.take(0).to_multiset()));
        while i < count && self.size < MAX_GRAMS
            invariant
                self.wf(),
                self.n == old(self).n,
                n == self.n as usize,
                views(words@) == split_on(s@, ' '),
                count == gs.len(),
                count + n - 1 == words.len(),
                gs == grams_of(s@, n as nat),
                room == (MAX_GRAMS - old(self)@.len()) as nat,
                i <= count,
                i <= room,
                self@.len() == old(self)@.len() + i,
                self@ == old(self)@.add(gs.take(i as int).to_multiset()),
            decreases count - i,
        {
            assert(i + n <= words.len());
            let g = join_range(&words, i, i + n, ' ');
            let gram = string_of(g.as_slice());
            assert(gram@ == gs[i as int]);
            let ghost before = self@;
            self.add_gram(gram);
            proof {
                assert(gs.take(i + 1) =~= gs.take(i as int).push(gs[i as int]));
                assert(old(self)@.add(gs.take(i + 1).to_multiset()) =~= before.insert(gs[i as int]));
            }
            i += 1;
        }
        proof {
            if i == count {
                assert(gs.take(i as int) =~= gs);
                if gs.len() > room {
                    assert(capped(gs, room) =~= gs.take(room as int));
                }
            } else {
                assert(capped(gs, room) =~= gs.take(i as int));
            }
        }
    }

    /// Adds one occurrence of `gram`.
    fn add_gram(&mut self, gram: String)
        requires
            old(self).wf(),
            old(self)@.len() < MAX_GRAMS,
        ensures
            final(self).wf(),
            final(self).n == old(self).n,
            final(self)@ == old(self)@.insert(gram@),
    {
        let ghost e = self.grams@;
        let mut i: usize = 0;
        while i < self.grams.len()
            invariant
                self.grams@ == e,
                *self == *old(self),
                self.wf(),
                old(self)@.len() < MAX_GRAMS,
                i <= e.len(),
                forall|j: int| 0 <= j < i ==> e[j].0@ != gram@,
            decreases e.len() - i,
        {
            if self.grams[i].0 == gram {
                let c = self.grams[i].1;
                proof {
                    lemma_count_unique(e, i as int);
                    lemma_entries_count(e, gram@);
                    axiom_count_le_len(entries_multiset(e), gram@);
                }
                let key = self.grams[i].0.clone();
                self.grams.set(i, (key, c + 1));
                self.size = self.size + 1;
                proof {
                    let ne = self.grams@;
                    assert(ne == e.update(i as int, (key, (c + 1) as u32)));
                    assert forall|x: Seq<char>| #[trigger]
                        entries_multiset(ne).count(x) == old(self)@.insert(gram@).count(x) by {
                        lemma_entries_count(ne, x);
                        lemma_entries_count(e, x);
                        lemma_count_update(e, i as int, (key, (c + 1) as u32), x);
                    }
                    assert(entries_multiset(ne) =~= old(self)@.insert(gram@));
                }
                return;
            }
            i += 1;
        }
        let ghost g = gram@;
        self.grams.push((gram, 1));
        self.size = self.size + 1;
        proof {
            let ne = self.grams@;
            assert(ne.drop_last() =~= e);
            lemma_copies(g, 1, g);
            assert(copies(g, 1) =~= Multiset::empty().insert(g));
            assert(entries_multiset(ne) =~= old(self)@.insert(g));
        }
    }

    /// The number of times `gram` was recorded.
    pub fn get(&self, gram: &str) -> (r: u32)
        requires
            self.wf(),
        ensures
            r == self@.count(gram@),
    {
        let g = gram.to_owned();
        self.count_of(&g)
    }

    fn count_of(&self, g: &String) -> (r: u32)
        requires
            self.wf(),
        ensures
            r == self@.count(g@),
    {
        proof {
            lemma_entries_count(self.grams@, g@);
        }
        let mut i: usize = 0;
        while i < self.grams.len()
            invariant
                self.wf(),
                i <= self.grams@.len(),
                forall|j: int| 0 <= j < i ==> self.grams@[j].0@ != g@,
            decreases self.grams@.len() - i,
        {
            if self.grams[i].0 == *g {
                proof {
                    lemma_count_unique(self.grams@, i as int);
                    lemma_entries_count(self.grams@, g@);
                }
                return self.grams[i].1;
            }
            i += 1;
        }
        proof {
            lemma_count_absent(self.grams@, g@);
        }
        0
    }

    /// The number of grams recorded, counting repeats.
    pub fn len(&self) -> (r: usize)
        requires
            self.wf(),
        ensures
            r == self@.len(),
    {
        self.size
    }

    pub fn is_empty(&self) -> (r: bool)
        requires
            self.wf(),
        ensures
            r == (self@.len() == 0),
    {
        self.size == 0
    }

    /// The number of words in each gram.
    pub fn n(&self) -> (r: u8)
        ensures
            r == self.arity(),
    {
        self.n
    }

    /// The two sets hold the same grams of the same arity.
    pub fn same_as(&self, other: &NgramSet) -> (r: bool)
        requires
            self.wf(),
            other.wf(),
        ensures
            r == (self@ == other@ && self.arity() == other.arity()),
    {
        if self.n != other.n || self.size != other.size {
            return false;
        }
        let mut i: usize = 0;
        while i < self.grams.len()
            invariant
                self.wf(),
                other.wf(),
                self.size == other.size,
                i <= self.grams@.len(),
                forall|j: int|
                    0 <= j < i ==> other@.count(#[trigger] self.grams@[j].0@) == self.grams@[j].1,
            decreases self.grams@.len() - i,
        {
            let c = other.count_of(&self.grams[i].0);
            if c != self.grams[i].1 {
                proof {
                    lemma_count_unique(self.grams@, i as int);
                    lemma_entries_count(self.grams@, self.grams@[i as int].0@);
                }
                return false;
            }
            i += 1;
        }
        proof {
            assert forall|g: Seq<char>| self@.count(g) <= other@.count(g) by {
                lemma_entries_count(self.grams@, g);
                if exists|j: int| 0 <= j < self.grams@.len() && self.grams@[j].0@ == g {
                    let j = choose|j: int| 0 <= j < self.grams@.len() && self.grams@[j].0@ == g;
                    lemma_count_unique(self.grams@, j);
                } else {
                    lemma_count_absent(self.grams@, g);
                }
            }
            assert(self@.subset_of(other@));
            axiom_len_sub(other@, self@);
            assert forall|g: Seq<char>| self@.count(g) == other@.count(g) by {
                axiom_count_le_len(other@.sub(self@), g);
            }
            assert(self@ =~= other@);
        }
        true
    }

    /// The grams with their counts.
    pub fn counts(&self) -> (r: Vec<(String, u32)>)
        requires
            self.wf(),
        ensures
            entries_multiset(r@) == self@,
            valid_counts(r@),
    {
        let mut out: Vec<(String, u32)> = Vec::new();
        let mut i: usize = 0;
        while i < self.grams.len()
            invariant
                i <= self.grams@.len(),
                out@ == self.grams@.take(i as int),
            decreases self.grams@.len() - i,
        {
            let g = self.grams[i].0.clone();
            out.push((g, self.grams[i].1));
            i += 1;
            assert(out@ =~= self.grams@.take(i as int));
        }
        assert(out@ =~= self.grams@);
        out
    }

    /// A set of grams of `n` words with the given counts, where the grams
    /// are distinct, the counts positive and their sum at most `MAX_GRAMS`.
    pub fn from_counts(n: u8, grams: Vec<(String, u32)>) -> (r: Option<NgramSet>)
        ensures
            r is Some <==> valid_counts(grams@),
            r is Some ==> r->0.wf() && r->0.arity() == n && r->0@ == entries_multiset(grams@),
    {
        let mut size: usize = 0;
        let mut i: usize = 0;
        assert(grams@.take(0) =~= Seq::<(String, u32)>::empty());
        while i < grams.len()
            invariant
                i <= grams@.len(),
                size == entries_multiset(grams@.take(i as int)).len(),
                size <= MAX_GRAMS,
                forall|a: int| 0 <= a < i ==> grams@[a].1 > 0,
                forall|a: int, b: int| 0 <= a < b < i ==> grams@[a].0@ != grams@[b].0@,
            decreases grams@.len() - i,
        {
            let c = grams[i].1;
            proof {
                lemma_prefix_step(grams@, i as int);
                lemma_copies(grams@[i as int].0@, c as nat, grams@[i as int].0@);
            }
            if c == 0 || c as usize > MAX_GRAMS - size {
                proof {
                    lemma_prefix_len(grams@, i + 1);
                }
                return None;
            }
            let mut j: usize = 0;
            while j < i
                invariant
                    i < grams@.len(),
                    j <= i,
                    forall|a: int| 0 <= a < j ==> grams@[a].0@ != grams@[i as int].0@,
                decreases i - j,
            {
                if grams[j].0 == grams[i].0 {
                    return None;
                }
                j += 1;
            }
            size = size + c as usize;
            i += 1;
        }
        assert(grams@.take(i as int) =~= grams@);
        Some(NgramSet { grams, n, size })
    }

    /// The Sørensen–Dice similarity of the two sets.
    pub fn dice(&self, other: &NgramSet) -> (r: Score)
        requires
            self.wf(),
            other.wf(),
        ensures
            (r.num as nat, r.den as nat) == dice_ratio(self@, self.arity(), other@, other.arity()),
    {
        if other.n != self.n {
            return Score::zero();
        }
        if self.is_empty() || other.is_empty() {
            return Score::zero();
        }
        let (x, y) = if self.len() < other.len() {
            (self, other)
        } else {
            (other, self)
        };
        let mut shared: u64 = 0;
        let mut i: usize = 0;
        assert(x.grams@.take(0) =~= Seq::<(String, u32)>::empty());
        assert(entries_multiset(x.grams@.take(0)).intersection_with(y@) =~= Multiset::empty());
        while i < x.grams.len()
            invariant
                x.wf(),
                y.wf(),
                i <= x.grams@.len(),
                shared == entries_multiset(x.grams@.take(i as int)).intersection_with(y@).len(),
                shared <= entries_multiset(x.grams@.take(i as int)).len(),
            decreases x.grams@.len() - i,
        {
            let c = x.grams[i].1;
            let yc = y.count_of(&x.grams[i].0);
            let ghost e = x.grams@;
            proof {
                lemma_prefix_step(e, i as int);
                assert forall|j: int| 0 <= j < e.take(i as int).len() implies e.take(
                    i as int,
                )[j].0@ != e[i as int].0@ by {
                    assert(e[j].0@ != e[i as int].0@);
                }
                lemma_count_absent(e.take(i as int), e[i as int].0@);
                lemma_entries_count(e.take(i as int), e[i as int].0@);
                lemma_intersection_step(
                    entries_multiset(e.take(i as int)),
                    e[i as int].0@,
                    c as nat,
                    y@,
                );
                lemma_copies(e[i as int].0@, c as nat, e[i as int].0@);
                lemma_prefix_len(e, i as int + 1);
            }
            if c < yc {
                shared = shared + c as u64;
            } else {
                shared = shared + yc as u64;
            }
            i += 1;
        }
        proof {
            assert(x.grams@.take(i as int) =~= x.grams@);
            lemma_intersection_commutes(self@, other@);
        }
        Score::new(2 * shared, self.size as u64 + other.size as u64)
    }
}

proof fn lemma_prefix_len(e: Seq<(String, u32)>, i: int)
    requires
        0 <= i <= e.len(),
    ensures
        entries_multiset(e.take(i)).len() <= entries_multiset(e).len(),
    decreases e.len() - i,
{
    if i < e.len() {
        lemma_prefix_step(e, i);
        lemma_prefix_len(e, i + 1);
    } else {
        assert(e.take(i) =~= e);
    }
}

/// A text compared with itself scores exactly one when it has any grams,
/// and zero otherwise.
pub proof fn law_dice_with_itself(text: Seq<char>, n: nat)
    ensures
        ({
            let g = ngram_multiset(text, n);
            let (num, den) = dice_ratio(g, n, g, n);
            &&& g.len() > 0 ==> num == den && den > 0
            &&& g.len() == 0 ==> num == 0
        }),
{
    let g = ngram_multiset(text, n);
    assert(g.intersection_with(g) =~= g);
}

/// The similarity of two sets of the same arity does not depend on their
/// order, and lies between zero and one.
pub proof fn law_dice_symmetric_and_bounded(a: Multiset<Seq<char>>, b: Multiset<Seq<char>>, n: nat)
    ensures
        dice_ratio(a, n, b, n) == dice_ratio(b, n, a, n),
        dice_ratio(a, n, b, n).0 <= dice_ratio(a, n, b, n).1,
        dice_ratio(a, n, b, n).1 > 0,
{
    lemma_intersection_commutes(a, b);
}

} // verus!
