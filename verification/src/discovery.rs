//! Word discovery: how often runs of characters occur in a text, and what stands beside them.

use vstd::prelude::*;
use crate::learning;
use crate::learning::is_boundary_stopword;
use crate::order;
use crate::order::sort_stable;
use crate::tables::{FreqTable, WordSet};
use crate::text;
use crate::text::{char_string, chars_of, string_of};
use crate::trie;

verus! {

/// What makes a run of characters a word, but for how it holds together and how free it stands.
#[derive(Debug, Clone, Copy, PartialEq, Eq, Structural)]
pub struct DiscoveryConfig {
    pub min_count: u64,
    pub max_word_len: usize,
}

impl DiscoveryConfig {
    /// Words of at most four characters that occur at least five times.
    pub fn standard() -> (r: Self)
        ensures
            r == (DiscoveryConfig { min_count: 5, max_word_len: 4 }),
    {
        DiscoveryConfig { min_count: 5, max_word_len: 4 }
    }
}

/// Whether a character is Chinese.
pub open spec fn chinese_char(c: char) -> bool {
    (0x4e00 <= c as u32 <= 0x9fa5) || (0x3400 <= c as u32 <= 0x4dbf)
}

/// Whether a character is Chinese.
pub fn is_chinese(c: char) -> (r: bool)
    ensures
        r == chinese_char(c),
{
    let n = c as u32;
    (0x4e00 <= n && n <= 0x9fa5) || (0x3400 <= n && n <= 0x4dbf)
}

/// The stretches of a text between characters that are not Chinese.
pub open spec fn stretches(s: Seq<char>) -> Seq<Seq<char>>
    decreases s.len(),
{
    if s.len() == 0 {
        seq![Seq::empty()]
    } else {
        let v = stretches(s.drop_last());
        if chinese_char(s.last()) {
            v.drop_last().push(v.last().push(s.last()))
        } else {
            v.push(Seq::empty())
        }
    }
}

/// Whether a stretch has more than one character.
pub open spec fn longer_than_one() -> spec_fn(Seq<char>) -> bool {
    |s: Seq<char>| s.len() > 1
}

/// The sentences of a text: the stretches of more than one Chinese character.
pub open spec fn sentences(s: Seq<char>) -> Seq<Seq<char>> {
    stretches(s).filter(longer_than_one())
}

/// One or zero.
pub open spec fn one(b: bool) -> int {
    if b {
        1
    } else {
        0
    }
}

/// At how many of the first `n` places something holds.
pub open spec fn places(p: spec_fn(int) -> bool, n: int) -> int
    decreases n,
{
    if n <= 0 {
        0
    } else {
        places(p, n - 1) + one(p(n - 1))
    }
}

/// Whether a run of characters stands at a place of a sentence.
pub open spec fn stands(s: Seq<char>, g: Seq<char>, i: int) -> bool {
    0 <= i && i + g.len() <= s.len() && s.subrange(i, i + g.len()) == g
}

/// Where a run of characters stands in a sentence.
pub open spec fn standing(s: Seq<char>, g: Seq<char>) -> spec_fn(int) -> bool {
    |i: int| stands(s, g, i)
}

/// Whether a run of characters stands at a place with a character before it.
pub open spec fn stands_after(s: Seq<char>, g: Seq<char>, c: char, i: int) -> bool {
    stands(s, g, i) && i > 0 && s[i - 1] == c
}

/// Where a run of characters stands with a character before it.
pub open spec fn standing_after(s: Seq<char>, g: Seq<char>, c: char) -> spec_fn(int) -> bool {
    |i: int| stands_after(s, g, c, i)
}

/// Whether a run of characters stands at a place with a character behind it.
pub open spec fn stands_before(s: Seq<char>, g: Seq<char>, c: char, i: int) -> bool {
    stands(s, g, i) && i + g.len() < s.len() && s[i + g.len()] == c
}

/// Where a run of characters stands with a character behind it.
pub open spec fn standing_before(s: Seq<char>, g: Seq<char>, c: char) -> spec_fn(int) -> bool {
    |i: int| stands_before(s, g, c, i)
}

/// How often a run of characters occurs in a sentence.
pub open spec fn occurrences(s: Seq<char>, g: Seq<char>) -> int {
    places(standing(s, g), s.len() as int)
}

/// How often a run occurs with a character before it.
pub open spec fn occurrences_after(s: Seq<char>, g: Seq<char>, c: char) -> int {
    places(standing_after(s, g, c), s.len() as int)
}

/// How often a run occurs with a character behind it.
pub open spec fn occurrences_before(s: Seq<char>, g: Seq<char>, c: char) -> int {
    places(standing_before(s, g, c), s.len() as int)
}

/// The count of a text in a table.
pub open spec fn count_in(m: Map<Seq<char>, u64>, g: Seq<char>) -> int {
    if m.contains_key(g) {
        m[g] as int
    } else {
        0
    }
}

/// Whether no count is above a bound.
pub open spec fn bounded(m: Map<Seq<char>, u64>, b: int) -> bool {
    forall|g: Seq<char>| #[trigger] count_in(m, g) <= b
}

/// Counts a text once more.
fn count_more(t: &mut FreqTable, k: String)
    requires
        count_in(old(t)@, k@) < u64::MAX,
    ensures
        forall|g: Seq<char>| #[trigger]
            count_in(final(t)@, g) == count_in(old(t)@, g) + one(g == k@),
{
    let n = match t.get(k.as_str()) {
        Some(n) => n,
        None => 0,
    };
    t.insert(k, n + 1);
}

/// The count of a text.
fn look_up(t: &FreqTable, k: &str) -> (r: u64)
    ensures
        r == count_in(t@, k@),
{
    match t.get(k) {
        Some(n) => n,
        None => 0,
    }
}

/// The characters of a sentence from one place to another.
fn run_of(s: &[char], i: usize, j: usize) -> (r: String)
    requires
        i <= j <= s@.len(),
    ensures
        r@ == s@.subrange(i as int, j as int),
{
    string_of(vstd::slice::slice_subrange(s, i, j))
}

/// Counts the runs that begin at a place: of one character to `max`.
fn count_runs(t: &mut FreqTable, s: &[char], i: usize, max: usize, Ghost(b): Ghost<int>)
    requires
        i < s@.len(),
        bounded(old(t)@, b),
        b < u64::MAX,
    ensures
        forall|g: Seq<char>| #[trigger]
            count_in(final(t)@, g) == count_in(old(t)@, g) + one(
                1 <= g.len() <= max && stands(s@, g, i as int),
            ),
{
    let ghost was = t@;
    let n = s.len();
    let mut k: usize = 0;
    while k < max && k < n - i
        invariant
            i < n,
            n == s@.len(),
            k <= max,
            k <= n - i,
            bounded(was, b),
            b < u64::MAX,
            forall|g: Seq<char>| #[trigger]
                count_in(t@, g) == count_in(was, g) + one(
                    1 <= g.len() <= k && stands(s@, g, i as int),
                ),
        decreases n - i - k,
    {
        let ghost before = t@;
        let run = run_of(s, i, i + (k + 1));
        proof {
            assert(run@.len() == k + 1);
            assert(count_in(t@, run@) == count_in(was, run@));
            assert(count_in(was, run@) <= b);
        }
        count_more(t, run);
        k = k + 1;
        proof {
            assert forall|g: Seq<char>| #[trigger]
                count_in(t@, g) == count_in(was, g) + one(
                    1 <= g.len() <= k && stands(s@, g, i as int),
                ) by {
                assert(count_in(t@, g) == count_in(before, g) + one(g == run@));
                if g.len() == k {
                    assert(stands(s@, g, i as int) <==> g == run@);
                } else {
                    assert(g != run@);
                }
            }
        }
    }
    proof {
        assert forall|g: Seq<char>| #[trigger]
            count_in(t@, g) == count_in(was, g) + one(
                1 <= g.len() <= max && stands(s@, g, i as int),
            ) by {
            if k < max {
                assert(g.len() > k ==> !stands(s@, g, i as int));
            }
        }
    }
}

/// Whether a list holds each text that is counted, once.
pub open spec fn listed(words: Seq<Seq<char>>, counts: Map<Seq<char>, u64>) -> bool {
    &&& forall|w: Seq<char>| #[trigger] words.contains(w) <==> count_in(counts, w) > 0
    &&& words.no_duplicates()
}

/// Counts a word once more, and lists it where it is new.
fn note_word(t: &mut FreqTable, words: &mut Vec<String>, w: String)
    requires
        count_in(old(t)@, w@) < u64::MAX,
        listed(text::texts(old(words)@), old(t)@),
    ensures
        forall|g: Seq<char>| #[trigger]
            count_in(final(t)@, g) == count_in(old(t)@, g) + one(g == w@),
        listed(text::texts(final(words)@), final(t)@),
{
    let ghost was = t@;
    let ghost l = text::texts(words@);
    if look_up(t, w.as_str()) == 0 {
        let x = w.clone();
        words.push(x);
        proof {
            assert(text::texts(words@) =~= l.push(w@));
            assert(!l.contains(w@));
        }
    }
    count_more(t, w);
    proof {
        let now = text::texts(words@);
        assert forall|g: Seq<char>| #[trigger] now.contains(g) <==> count_in(t@, g) > 0 by {
            assert(count_in(t@, g) == count_in(was, g) + one(g == w@));
            if count_in(was, w@) == 0 {
                assert(now =~= l.push(w@));
                if l.contains(g) {
                    let i = choose|i: int| 0 <= i < l.len() && l[i] == g;
                    assert(now[i] == g);
                }
                if g == w@ {
                    assert(now[l.len() as int] == g);
                }
                if now.contains(g) && g != w@ {
                    let i = choose|i: int| 0 <= i < now.len() && now[i] == g;
                    assert(l[i] == g);
                }
            } else {
                assert(l.contains(w@));
            }
        }
        if count_in(was, w@) == 0 {
            assert(now =~= l.push(w@));
            assert forall|i: int, j: int| 0 <= i < now.len() && 0 <= j < now.len() && i
                != j implies now[i] != now[j] by {
                if i < l.len() && j < l.len() {
                } else if i < l.len() {
                    assert(l.contains(l[i]));
                } else {
                    assert(l.contains(l[j]));
                }
            }
        }
    }
}

/// Counts the words that begin at a place, of two characters to `max`, and lists new ones.
fn note_words(
    t: &mut FreqTable,
    words: &mut Vec<String>,
    s: &[char],
    i: usize,
    max: usize,
    Ghost(b): Ghost<int>,
)
    requires
        i < s@.len(),
        bounded(old(t)@, b),
        b < u64::MAX,
        listed(text::texts(old(words)@), old(t)@),
    ensures
        forall|g: Seq<char>| #[trigger]
            count_in(final(t)@, g) == count_in(old(t)@, g) + one(
                2 <= g.len() <= max && stands(s@, g, i as int),
            ),
        listed(text::texts(final(words)@), final(t)@),
{
    let ghost was = t@;
    let n = s.len();
    let mut k: usize = 1;
    while k < max && k < n - i
        invariant
            i < n,
            n == s@.len(),
            1 <= k,
            k <= max || k == 1,
            k <= n - i,
            bounded(was, b),
            b < u64::MAX,
            listed(text::texts(words@), t@),
            forall|g: Seq<char>| #[trigger]
                count_in(t@, g) == count_in(was, g) + one(
                    2 <= g.len() <= k && stands(s@, g, i as int),
                ),
        decreases n - i - k,
    {
        let ghost before = t@;
        let run = run_of(s, i, i + (k + 1));
        proof {
            assert(run@.len() == k + 1);
            assert(count_in(t@, run@) == count_in(was, run@));
            assert(count_in(was, run@) <= b);
        }
        note_word(t, words, run);
        k = k + 1;
        proof {
            assert forall|g: Seq<char>| #[trigger]
                count_in(t@, g) == count_in(was, g) + one(
                    2 <= g.len() <= k && stands(s@, g, i as int),
                ) by {
                assert(count_in(t@, g) == count_in(before, g) + one(g == run@));
                if g.len() == k {
                    assert(stands(s@, g, i as int) <==> g == run@);
                } else {
                    assert(g != run@);
                }
            }
        }
    }
    proof {
        assert forall|g: Seq<char>| #[trigger]
            count_in(t@, g) == count_in(was, g) + one(
                2 <= g.len() <= max && stands(s@, g, i as int),
            ) by {
            if k < max {
                assert(g.len() > k ==> !stands(s@, g, i as int));
            }
        }
    }
}

/// Counts the words that begin at a place, each with a character behind it.
fn count_beside(
    t: &mut FreqTable,
    s: &[char],
    i: usize,
    max: usize,
    before: bool,
    Ghost(b): Ghost<int>,
)
    requires
        i < s@.len(),
        bounded(old(t)@, b),
        b < u64::MAX,
    ensures
        before ==> forall|x: Seq<char>| #[trigger]
            count_in(final(t)@, x) == count_in(old(t)@, x) + one(
                3 <= x.len() <= max + 1 && stands_after(s@, x.drop_last(), x.last(), i as int),
            ),
        !before ==> forall|x: Seq<char>| #[trigger]
            count_in(final(t)@, x) == count_in(old(t)@, x) + one(
                3 <= x.len() <= max + 1 && stands_before(s@, x.drop_last(), x.last(), i as int),
            ),
{
    let ghost was = t@;
    let n = s.len();
    let mut k: usize = 1;
    while k < max && k < n - i
        invariant
            i < n,
            n == s@.len(),
            1 <= k,
            k <= max || k == 1,
            k <= n - i,
            bounded(was, b),
            b < u64::MAX,
            before ==> forall|x: Seq<char>| #[trigger]
                count_in(t@, x) == count_in(was, x) + one(
                    3 <= x.len() <= k + 1 && stands_after(s@, x.drop_last(), x.last(), i as int),
                ),
            !before ==> forall|x: Seq<char>| #[trigger]
                count_in(t@, x) == count_in(was, x) + one(
                    3 <= x.len() <= k + 1 && stands_before(s@, x.drop_last(), x.last(), i as int),
                ),
        decreases n - i - k,
    {
        let ghost prior = t@;
        let end = i + (k + 1);
        let has = if before {
            i > 0
        } else {
            end < n
        };
        let mut run = run_of(s, i, end);
        let ghost g = run@;
        if has {
            let c = if before {
                s[i - 1]
            } else {
                s[end]
            };
            run.push(c);
            proof {
                assert(run@.len() == k + 2);
                assert(count_in(t@, run@) == count_in(was, run@));
                assert(count_in(was, run@) <= b);
                assert(run@.drop_last() =~= g);
            }
            count_more(t, run);
        }
        k = k + 1;
        proof {
            if before {
                assert forall|x: Seq<char>| #[trigger]
                    count_in(t@, x) == count_in(was, x) + one(
                        3 <= x.len() <= k + 1 && stands_after(
                            s@,
                            x.drop_last(),
                            x.last(),
                            i as int,
                        ),
                    ) by {
                    if x.len() == k + 1 {
                        assert(stands(s@, x.drop_last(), i as int) <==> x.drop_last() == g);
                        if has {
                            assert(x =~= run@ <==> x.drop_last() =~= g && x.last() == s@[i - 1]);
                        }
                    }
                }
            } else {
                assert forall|x: Seq<char>| #[trigger]
                    count_in(t@, x) == count_in(was, x) + one(
                        3 <= x.len() <= k + 1 && stands_before(
                            s@,
                            x.drop_last(),
                            x.last(),
                            i as int,
                        ),
                    ) by {
                    if x.len() == k + 1 {
                        assert(stands(s@, x.drop_last(), i as int) <==> x.drop_last() == g);
                        if has {
                            assert(x =~= run@ <==> x.drop_last() =~= g && x.last()
                                == s@[end as int]);
                        }
                    }
                }
            }
        }
    }
    proof {
        assert forall|x: Seq<char>|
            k < max && x.len() > k + 1 implies !#[trigger] stands(s@, x.drop_last(), i as int) by {}
    }
}

/// How many runs begin at the first `i` places of a sentence of `n` characters.
pub open spec fn runs_to(n: int, max: int, i: int) -> int
    decreases i,
{
    if i <= 0 {
        0
    } else {
        runs_to(n, max, i - 1) + trie::least(trie::most(max - 1, 0), n - (i - 1))
    }
}

/// Counts of a text: of the runs of characters, of the words, and of the words with a character
/// before or behind them, which stands behind the word in the table.
pub struct Tally {
    pub max_word_len: usize,
    pub ngrams: FreqTable,
    pub counts: FreqTable,
    pub lefts: FreqTable,
    pub rights: FreqTable,
    pub words: Vec<String>,
    /// How many runs were counted.
    pub total: u128,
    /// How many characters were looked at.
    pub scanned: u64,
}

/// Counts of a text, as texts.
pub struct Counts {
    pub max: int,
    pub ngrams: Map<Seq<char>, u64>,
    pub counts: Map<Seq<char>, u64>,
    pub lefts: Map<Seq<char>, u64>,
    pub rights: Map<Seq<char>, u64>,
    pub words: Seq<Seq<char>>,
    pub total: int,
    pub scanned: int,
}

impl View for Tally {
    type V = Counts;

    open spec fn view(&self) -> Counts {
        Counts {
            max: self.max_word_len as int,
            ngrams: self.ngrams@,
            counts: self.counts@,
            lefts: self.lefts@,
            rights: self.rights@,
            words: text::texts(self.words@),
            total: self.total as int,
            scanned: self.scanned as int,
        }
    }
}

impl Counts {
    /// Whether the counts can be those of a text: none is above the number of characters, and
    /// each word that is counted is listed once.
    pub open spec fn sound(self) -> bool {
        &&& bounded(self.ngrams, self.scanned)
        &&& bounded(self.counts, self.scanned)
        &&& bounded(self.lefts, self.scanned)
        &&& bounded(self.rights, self.scanned)
        &&& listed(self.words, self.counts)
        &&& 0 <= self.total <= self.scanned * self.max
    }

    /// Whether these are the counts with the runs that begin at the first `n` places of a sentence.
    pub open spec fn with_places(self, old: Counts, s: Seq<char>, n: int) -> bool {
        &&& self.max == old.max
        &&& forall|g: Seq<char>| #[trigger]
            count_in(self.ngrams, g) == count_in(old.ngrams, g) + (if 1 <= g.len() <= old.max - 1 {
                places(standing(s, g), n)
            } else {
                0
            })
        &&& forall|g: Seq<char>| #[trigger]
            count_in(self.counts, g) == count_in(old.counts, g) + (if 2 <= g.len() <= old.max {
                places(standing(s, g), n)
            } else {
                0
            })
        &&& forall|x: Seq<char>| #[trigger]
            count_in(self.lefts, x) == count_in(old.lefts, x) + (if 3 <= x.len() <= old.max + 1 {
                places(standing_after(s, x.drop_last(), x.last()), n)
            } else {
                0
            })
        &&& forall|x: Seq<char>| #[trigger]
            count_in(self.rights, x) == count_in(old.rights, x) + (if 3 <= x.len() <= old.max + 1 {
                places(standing_before(s, x.drop_last(), x.last()), n)
            } else {
                0
            })
    }
}

proof fn lemma_places(p: spec_fn(int) -> bool, n: int)
    requires
        0 <= n,
    ensures
        0 <= places(p, n) <= n,
    decreases n,
{
    if n > 0 {
        lemma_places(p, n - 1);
    }
}

impl Tally {
    /// No counts.
    pub fn new(max_word_len: usize) -> (r: Self)
        ensures
            r@.sound(),
            r@.max == max_word_len,
            r@.total == 0,
            r@.scanned == 0,
            forall|g: Seq<char>| #[trigger] count_in(r@.ngrams, g) == 0,
            forall|g: Seq<char>| #[trigger] count_in(r@.counts, g) == 0,
            forall|g: Seq<char>| #[trigger] count_in(r@.lefts, g) == 0,
            forall|g: Seq<char>| #[trigger] count_in(r@.rights, g) == 0,
    {
        let r = Tally {
            max_word_len,
            ngrams: FreqTable::new(),
            counts: FreqTable::new(),
            lefts: FreqTable::new(),
            rights: FreqTable::new(),
            words: Vec::new(),
            total: 0,
            scanned: 0,
        };
        proof {
            assert(0 <= 0 * r@.max) by (nonlinear_arith);
        }
        r
    }

    /// Counts what begins at a place of a sentence.
    fn scan_place(&mut self, s: &[char], i: usize, Ghost(b): Ghost<int>)
        requires
            i < s@.len(),
            b < u64::MAX,
            bounded(old(self)@.ngrams, b),
            bounded(old(self)@.counts, b),
            bounded(old(self)@.lefts, b),
            bounded(old(self)@.rights, b),
            listed(old(self)@.words, old(self)@.counts),
        ensures
            final(self)@.max == old(self)@.max,
            final(self)@.total == old(self)@.total,
            final(self)@.scanned == old(self)@.scanned,
            listed(final(self)@.words, final(self)@.counts),
            forall|g: Seq<char>| #[trigger]
                count_in(final(self)@.ngrams, g) == count_in(old(self)@.ngrams, g) + one(
                    1 <= g.len() <= old(self)@.max - 1 && stands(s@, g, i as int),
                ),
            forall|g: Seq<char>| #[trigger]
                count_in(final(self)@.counts, g) == count_in(old(self)@.counts, g) + one(
                    2 <= g.len() <= old(self)@.max && stands(s@, g, i as int),
                ),
            forall|x: Seq<char>| #[trigger]
                count_in(final(self)@.lefts, x) == count_in(old(self)@.lefts, x) + one(
                    3 <= x.len() <= old(self)@.max + 1 && stands_after(
                        s@,
                        x.drop_last(),
                        x.last(),
                        i as int,
                    ),
                ),
            forall|x: Seq<char>| #[trigger]
                count_in(final(self)@.rights, x) == count_in(old(self)@.rights, x) + one(
                    3 <= x.len() <= old(self)@.max + 1 && stands_before(
                        s@,
                        x.drop_last(),
                        x.last(),
                        i as int,
                    ),
                ),
    {
        let max = self.max_word_len;
        let most = if max > 0 {
            max - 1
        } else {
            0
        };
        count_runs(&mut self.ngrams, s, i, most, Ghost(b));
        note_words(&mut self.counts, &mut self.words, s, i, max, Ghost(b));
        count_beside(&mut self.lefts, s, i, max, true, Ghost(b));
        count_beside(&mut self.rights, s, i, max, false, Ghost(b));
    }

    /// Adds the counts of a sentence.
    pub fn scan_sentence(&mut self, s: &[char])
        requires
            old(self)@.sound(),
            old(self)@.scanned + s@.len() <= u64::MAX,
        ensures
            final(self)@.sound(),
            final(self)@.scanned == old(self)@.scanned + s@.len(),
            final(self)@.total == old(self)@.total + runs_to(
                s@.len() as int,
                old(self)@.max,
                s@.len() as int,
            ),
            final(self)@.with_places(old(self)@, s@, s@.len() as int),
    {
        let ghost start = self@;
        let n = s.len();
        let max = self.max_word_len;
        let most = if max > 0 {
            max - 1
        } else {
            0
        };
        let mut i: usize = 0;
        proof {
            lemma_bound(start, start, s@, 0);
        }
        while i < n
            invariant
                i <= n,
                n == s@.len(),
                max == start.max,
                most == trie::most(max - 1, 0),
                self.max_word_len == max,
                start.sound(),
                start.scanned + n <= u64::MAX,
                self@.scanned == start.scanned,
                self@.total == start.total + runs_to(n as int, max as int, i as int),
                self@.total <= (start.scanned + i) * max,
                listed(self@.words, self@.counts),
                self@.with_places(start, s@, i as int),
                bounded(self@.ngrams, start.scanned + i),
                bounded(self@.counts, start.scanned + i),
                bounded(self@.lefts, start.scanned + i),
                bounded(self@.rights, start.scanned + i),
            decreases n - i,
        {
            let ghost was = self@;
            self.scan_place(s, i, Ghost(start.scanned + i));
            let more = if most < n - i {
                most
            } else {
                n - i
            };
            proof {
                lemma_step(start, was, self@, s@, i as int);
                lemma_bound(start, self@, s@, i + 1);
                assert(was.total + more <= (start.scanned + i + 1) * max) by (nonlinear_arith)
                    requires
                        was.total <= (start.scanned + i) * max,
                        more <= max,
                ;
                assert((start.scanned + i + 1) * max <= u64::MAX * u64::MAX) by (nonlinear_arith)
                    requires
                        start.scanned + i + 1 <= u64::MAX,
                        0 <= start.scanned + i + 1,
                        0 <= max <= u64::MAX,
                ;
            }
            self.total = self.total + more as u128;
            i = i + 1;
        }
        self.scanned = self.scanned + n as u64;
    }
}

/// The counts after one more place.
proof fn lemma_step(start: Counts, was: Counts, now: Counts, s: Seq<char>, i: int)
    requires
        0 <= i < s.len(),
        was.with_places(start, s, i),
        now.max == was.max,
        forall|g: Seq<char>| #[trigger]
            count_in(now.ngrams, g) == count_in(was.ngrams, g) + one(
                1 <= g.len() <= was.max - 1 && stands(s, g, i),
            ),
        forall|g: Seq<char>| #[trigger]
            count_in(now.counts, g) == count_in(was.counts, g) + one(
                2 <= g.len() <= was.max && stands(s, g, i),
            ),
        forall|x: Seq<char>| #[trigger]
            count_in(now.lefts, x) == count_in(was.lefts, x) + one(
                3 <= x.len() <= was.max + 1 && stands_after(s, x.drop_last(), x.last(), i),
            ),
        forall|x: Seq<char>| #[trigger]
            count_in(now.rights, x) == count_in(was.rights, x) + one(
                3 <= x.len() <= was.max + 1 && stands_before(s, x.drop_last(), x.last(), i),
            ),
    ensures
        now.with_places(start, s, i + 1),
{
    assert forall|g: Seq<char>| #[trigger]
        count_in(now.ngrams, g) == count_in(start.ngrams, g) + (if 1 <= g.len() <= start.max - 1 {
            places(standing(s, g), i + 1)
        } else {
            0
        }) by {
        assert(count_in(was.ngrams, g) == count_in(was.ngrams, g));
        assert(standing(s, g)(i) == stands(s, g, i));
    }
    assert forall|g: Seq<char>| #[trigger]
        count_in(now.counts, g) == count_in(start.counts, g) + (if 2 <= g.len() <= start.max {
            places(standing(s, g), i + 1)
        } else {
            0
        }) by {
        assert(count_in(was.counts, g) == count_in(was.counts, g));
        assert(standing(s, g)(i) == stands(s, g, i));
    }
    assert forall|x: Seq<char>| #[trigger]
        count_in(now.lefts, x) == count_in(start.lefts, x) + (if 3 <= x.len() <= start.max + 1 {
            places(standing_after(s, x.drop_last(), x.last()), i + 1)
        } else {
            0
        }) by {
        assert(count_in(was.lefts, x) == count_in(was.lefts, x));
        assert(standing_after(s, x.drop_last(), x.last())(i) == stands_after(
            s,
            x.drop_last(),
            x.last(),
            i,
        ));
    }
    assert forall|x: Seq<char>| #[trigger]
        count_in(now.rights, x) == count_in(start.rights, x) + (if 3 <= x.len() <= start.max + 1 {
            places(standing_before(s, x.drop_last(), x.last()), i + 1)
        } else {
            0
        }) by {
        assert(count_in(was.rights, x) == count_in(was.rights, x));
        assert(standing_before(s, x.drop_last(), x.last())(i) == stands_before(
            s,
            x.drop_last(),
            x.last(),
            i,
        ));
    }
}

/// No count is above the number of places looked at.
proof fn lemma_bound(start: Counts, now: Counts, s: Seq<char>, n: int)
    requires
        start.sound(),
        0 <= n,
        now.with_places(start, s, n) || (now == start && n == 0),
    ensures
        bounded(now.ngrams, start.scanned + n),
        bounded(now.counts, start.scanned + n),
        bounded(now.lefts, start.scanned + n),
        bounded(now.rights, start.scanned + n),
        n == 0 && now == start ==> now.with_places(start, s, 0),
{
    assert forall|g: Seq<char>| #[trigger] count_in(now.ngrams, g) <= start.scanned + n by {
        lemma_places(standing(s, g), n);
        assert(count_in(start.ngrams, g) <= start.scanned);
    }
    assert forall|g: Seq<char>| #[trigger] count_in(now.counts, g) <= start.scanned + n by {
        lemma_places(standing(s, g), n);
        assert(count_in(start.counts, g) <= start.scanned);
    }
    assert forall|x: Seq<char>| #[trigger] count_in(now.lefts, x) <= start.scanned + n by {
        lemma_places(standing_after(s, x.drop_last(), x.last()), n);
        assert(count_in(start.lefts, x) <= start.scanned);
    }
    assert forall|x: Seq<char>| #[trigger] count_in(now.rights, x) <= start.scanned + n by {
        lemma_places(standing_before(s, x.drop_last(), x.last()), n);
        assert(count_in(start.rights, x) <= start.scanned);
    }
}

/// The sums of something over the first `n` sentences.
pub open spec fn over_all(ss: Seq<Seq<char>>, f: spec_fn(Seq<char>) -> int, n: int) -> int
    decreases n,
{
    if n <= 0 {
        0
    } else {
        over_all(ss, f, n - 1) + f(ss[n - 1])
    }
}

/// How often a run occurs in each sentence.
pub open spec fn occurring(g: Seq<char>) -> spec_fn(Seq<char>) -> int {
    |s: Seq<char>| occurrences(s, g)
}

/// How often a run occurs in each sentence with a character before it.
pub open spec fn occurring_after(g: Seq<char>, c: char) -> spec_fn(Seq<char>) -> int {
    |s: Seq<char>| occurrences_after(s, g, c)
}

/// How often a run occurs in each sentence with a character behind it.
pub open spec fn occurring_before(g: Seq<char>, c: char) -> spec_fn(Seq<char>) -> int {
    |s: Seq<char>| occurrences_before(s, g, c)
}

/// How many runs are counted in each sentence.
pub open spec fn runs_in(max: int) -> spec_fn(Seq<char>) -> int {
    |s: Seq<char>| runs_to(s.len() as int, max, s.len() as int)
}

impl Counts {
    /// Whether these are the counts of the first `n` sentences.
    pub open spec fn counts_of(self, ss: Seq<Seq<char>>, n: int) -> bool {
        &&& self.total == over_all(ss, runs_in(self.max), n)
        &&& forall|g: Seq<char>| #[trigger]
            count_in(self.ngrams, g) == (if 1 <= g.len() <= self.max - 1 {
                over_all(ss, occurring(g), n)
            } else {
                0
            })
        &&& forall|g: Seq<char>| #[trigger]
            count_in(self.counts, g) == (if 2 <= g.len() <= self.max {
                over_all(ss, occurring(g), n)
            } else {
                0
            })
        &&& forall|x: Seq<char>| #[trigger]
            count_in(self.lefts, x) == (if 3 <= x.len() <= self.max + 1 {
                over_all(ss, occurring_after(x.drop_last(), x.last()), n)
            } else {
                0
            })
        &&& forall|x: Seq<char>| #[trigger]
            count_in(self.rights, x) == (if 3 <= x.len() <= self.max + 1 {
                over_all(ss, occurring_before(x.drop_last(), x.last()), n)
            } else {
                0
            })
    }
}

/// The counts of one more sentence.
proof fn lemma_next_sentence(was: Counts, now: Counts, ss: Seq<Seq<char>>, n: int)
    requires
        0 <= n < ss.len(),
        was.counts_of(ss, n),
        now.with_places(was, ss[n], ss[n].len() as int),
        now.total == was.total + runs_to(ss[n].len() as int, was.max, ss[n].len() as int),
    ensures
        now.counts_of(ss, n + 1),
{
    let s = ss[n];
    assert(over_all(ss, runs_in(now.max), n + 1) == over_all(ss, runs_in(now.max), n) + runs_in(
        now.max,
    )(s));
    assert forall|g: Seq<char>| #[trigger]
        count_in(now.ngrams, g) == (if 1 <= g.len() <= now.max - 1 {
            over_all(ss, occurring(g), n + 1)
        } else {
            0
        }) by {
        assert(count_in(was.ngrams, g) == count_in(was.ngrams, g));
        assert(occurring(g)(s) == occurrences(s, g));
    }
    assert forall|g: Seq<char>| #[trigger]
        count_in(now.counts, g) == (if 2 <= g.len() <= now.max {
            over_all(ss, occurring(g), n + 1)
        } else {
            0
        }) by {
        assert(count_in(was.counts, g) == count_in(was.counts, g));
        assert(occurring(g)(s) == occurrences(s, g));
    }
    assert forall|x: Seq<char>| #[trigger]
        count_in(now.lefts, x) == (if 3 <= x.len() <= now.max + 1 {
            over_all(ss, occurring_after(x.drop_last(), x.last()), n + 1)
        } else {
            0
        }) by {
        assert(count_in(was.lefts, x) == count_in(was.lefts, x));
        assert(occurring_after(x.drop_last(), x.last())(s) == occurrences_after(
            s,
            x.drop_last(),
            x.last(),
        ));
    }
    assert forall|x: Seq<char>| #[trigger]
        count_in(now.rights, x) == (if 3 <= x.len() <= now.max + 1 {
            over_all(ss, occurring_before(x.drop_last(), x.last()), n + 1)
        } else {
            0
        }) by {
        assert(count_in(was.rights, x) == count_in(was.rights, x));
        assert(occurring_before(x.drop_last(), x.last())(s) == occurrences_before(
            s,
            x.drop_last(),
            x.last(),
        ));
    }
}

/// The characters of stretches.
pub open spec fn runs(v: Seq<Vec<char>>) -> Seq<Seq<char>> {
    v.map_values(|x: Vec<char>| x@)
}

/// The characters of some sentences in all.
pub open spec fn size_of_all(ss: Seq<Seq<char>>) -> int
    decreases ss.len(),
{
    if ss.len() == 0 {
        0
    } else {
        size_of_all(ss.drop_last()) + ss.last().len()
    }
}

/// The sentences of a text.
fn find_sentences(s: &[char]) -> (r: Vec<Vec<char>>)
    ensures
        runs(r@) == sentences(s@),
        size_of_all(runs(r@)) <= s@.len(),
{
    let mut out: Vec<Vec<char>> = Vec::new();
    let mut current: Vec<char> = Vec::new();
    let mut i: usize = 0;
    let ghost p = longer_than_one();
    proof {
        reveal(Seq::filter);
        assert(s@.take(0) =~= Seq::<char>::empty());
        assert(stretches(s@.take(0)).drop_last() =~= Seq::<Seq<char>>::empty());
        assert(runs(out@) =~= stretches(s@.take(0)).drop_last().filter(p));
        assert(current@ =~= stretches(s@.take(0)).last());
        assert(runs(out@).len() == 0);
    }
    while i < s.len()
        invariant
            i <= s@.len(),
            p == longer_than_one(),
            stretches(s@.take(i as int)).len() > 0,
            runs(out@) == stretches(s@.take(i as int)).drop_last().filter(p),
            current@ == stretches(s@.take(i as int)).last(),
            size_of_all(runs(out@)) + current@.len() <= i,
        decreases s@.len() - i,
    {
        let ghost v = stretches(s@.take(i as int));
        let ghost was = runs(out@);
        proof {
            reveal(Seq::filter);
            assert(s@.take(i + 1).drop_last() =~= s@.take(i as int));
            assert(s@.take(i + 1).last() == s@[i as int]);
        }
        if is_chinese(s[i]) {
            current.push(s[i]);
            proof {
                let u = stretches(s@.take(i + 1));
                assert(u =~= v.drop_last().push(v.last().push(s@[i as int])));
                assert(u.drop_last() =~= v.drop_last());
            }
        } else {
            let mut done: Vec<char> = Vec::new();
            let ghost c = current@;
            done.append(&mut current);
            proof {
                let u = stretches(s@.take(i + 1));
                assert(u =~= v.push(Seq::empty()));
                assert(u.drop_last() =~= v);
                assert(done@ =~= c);
                assert(current@ =~= Seq::<char>::empty());
            }
            if done.len() > 1 {
                out.push(done);
                proof {
                    assert(runs(out@) =~= was.push(c));
                    assert(runs(out@).drop_last() =~= was);
                }
            }
        }
        i = i + 1;
    }
    let ghost was = runs(out@);
    let ghost c = current@;
    proof {
        reveal(Seq::filter);
        assert(s@.take(s@.len() as int) =~= s@);
    }
    if current.len() > 1 {
        out.push(current);
        proof {
            assert(runs(out@) =~= was.push(c));
            assert(runs(out@).drop_last() =~= was);
        }
    }
    out
}

proof fn lemma_size_so_far(ss: Seq<Seq<char>>, n: int)
    requires
        0 <= n <= ss.len(),
    ensures
        0 <= size_of_all(ss.take(n)) <= size_of_all(ss),
    decreases ss.len(),
{
    if n < ss.len() {
        lemma_size_so_far(ss.drop_last(), n);
        assert(ss.drop_last().take(n) =~= ss.take(n));
    } else {
        assert(ss.take(n) =~= ss);
        if n > 0 {
            lemma_size_so_far(ss.drop_last(), n - 1);
            assert(ss.drop_last().take(n - 1) =~= ss.drop_last());
        }
    }
}

/// Counts the runs of a text.
pub fn tally_text(s: &[char], max_word_len: usize) -> (r: Tally)
    ensures
        r@.sound(),
        r@.max == max_word_len,
        r@.counts_of(sentences(s@), sentences(s@).len() as int),
{
    let v = find_sentences(s);
    let ghost ss = runs(v@);
    let mut t = Tally::new(max_word_len);
    let mut i: usize = 0;
    let m = s.len();
    proof {
        assert(ss.take(0) =~= Seq::<Seq<char>>::empty());
    }
    while i < v.len()
        invariant
            i <= v.len(),
            ss == runs(v@),
            m == s@.len(),
            size_of_all(ss) <= m,
            t@.sound(),
            t@.max == max_word_len,
            t@.scanned == size_of_all(ss.take(i as int)),
            t@.counts_of(ss, i as int),
        decreases v.len() - i,
    {
        let ghost was = t@;
        proof {
            assert(ss[i as int] == v@[i as int]@);
            lemma_size_so_far(ss, i + 1);
            assert(ss.take(i + 1).drop_last() =~= ss.take(i as int));
            assert(ss.take(i + 1).last() == ss[i as int]);
        }
        t.scan_sentence(v[i].as_slice());
        proof {
            lemma_next_sentence(was, t@, ss, i as int);
        }
        i = i + 1;
    }
    t
}

/// The characters of a text, each once, in the order in which they come first.
pub open spec fn alphabet(s: Seq<char>) -> Seq<char>
    decreases s.len(),
{
    if s.len() == 0 {
        s
    } else {
        let v = alphabet(s.drop_last());
        if v.contains(s.last()) {
            v
        } else {
            v.push(s.last())
        }
    }
}

/// The characters of a text, each once.
fn find_alphabet(s: &[char]) -> (r: Vec<char>)
    ensures
        r@ == alphabet(s@),
{
    let mut out: Vec<char> = Vec::new();
    let mut seen = WordSet::new();
    let mut i: usize = 0;
    proof {
        assert(s@.take(0) =~= Seq::<char>::empty());
    }
    while i < s.len()
        invariant
            i <= s@.len(),
            out@ == alphabet(s@.take(i as int)),
            forall|c: char| seen@.contains(seq![c]) <==> #[trigger] out@.contains(c),
        decreases s@.len() - i,
    {
        let c = s[i];
        let ghost was = out@;
        let ghost old_seen = seen@;
        proof {
            assert(s@.take(i + 1).drop_last() =~= s@.take(i as int));
            assert(s@.take(i + 1).last() == c);
        }
        let k = char_string(c);
        proof {
            assert(k@ =~= seq![c]);
        }
        if !seen.contains(k.as_str()) {
            out.push(c);
            let _ = seen.insert(k);
            proof {
                assert forall|d: char| seen@.contains(seq![d]) <==> #[trigger] out@.contains(d) by {
                    if d == c {
                        assert(out@[was.len() as int] == d);
                    } else {
                        assert(seq![d] != seq![c]) by {
                            assert(seq![d][0] == d && seq![c][0] == c);
                        }
                        assert(old_seen.contains(seq![d]) <==> was.contains(d));
                        if was.contains(d) {
                            let j = choose|j: int| 0 <= j < was.len() && was[j] == d;
                            assert(out@[j] == d);
                        }
                        if out@.contains(d) {
                            let j = choose|j: int| 0 <= j < out@.len() && out@[j] == d;
                            assert(was[j] == d);
                        }
                    }
                }
            }
        }
        i = i + 1;
    }
    proof {
        assert(s@.take(s@.len() as int) =~= s@);
    }
    out
}

/// What is known of a word: how often it occurs, how often the two parts of each cut of it occur,
/// and how often each character that stands before or behind it does.
pub struct DiscoveredWord {
    pub word: String,
    pub count: u64,
    pub parts: Vec<(u64, u64)>,
    pub left: Vec<u64>,
    pub right: Vec<u64>,
}

/// What is known of a word, as texts.
pub struct Discovery {
    pub word: Seq<char>,
    pub count: u64,
    pub parts: Seq<(u64, u64)>,
    pub left: Seq<u64>,
    pub right: Seq<u64>,
}

impl View for DiscoveredWord {
    type V = Discovery;

    open spec fn view(&self) -> Discovery {
        Discovery {
            word: self.word@,
            count: self.count,
            parts: self.parts@,
            left: self.left@,
            right: self.right@,
        }
    }
}

/// The counts of the parts of each of the first `n` cuts of a word.
pub open spec fn part_counts(m: Map<Seq<char>, u64>, w: Seq<char>, n: int) -> Seq<(u64, u64)>
    decreases n,
{
    if n <= 1 {
        Seq::empty()
    } else {
        part_counts(m, w, n - 1).push(
            (count_in(m, w.take(n - 1)) as u64, count_in(m, w.skip(n - 1)) as u64),
        )
    }
}

/// The counts of the first `n` characters beside a word that occur there.
pub open spec fn counts_beside(m: Map<Seq<char>, u64>, w: Seq<char>, a: Seq<char>, n: int) -> Seq<u64>
    decreases n,
{
    if n <= 0 {
        Seq::empty()
    } else {
        let before = counts_beside(m, w, a, n - 1);
        let k = count_in(m, w.push(a[n - 1]));
        if k > 0 {
            before.push(k as u64)
        } else {
            before
        }
    }
}

/// What is known of a word.
pub open spec fn known_of(t: Counts, a: Seq<char>, w: Seq<char>) -> Discovery {
    Discovery {
        word: w,
        count: count_in(t.counts, w) as u64,
        parts: part_counts(t.ngrams, w, w.len() as int),
        left: counts_beside(t.lefts, w, a, a.len() as int),
        right: counts_beside(t.rights, w, a, a.len() as int),
    }
}

/// Whether a word occurs often enough, is not known yet, and neither begins nor ends with a stop
/// word.
pub open spec fn is_new(t: Counts, min: u64, known: Set<Seq<char>>) -> spec_fn(Seq<char>) -> bool {
    |w: Seq<char>|
        count_in(t.counts, w) >= min && !known.contains(w) && !learning::at_stopword(w)
}

/// Whether a word occurs more often than another.
pub open spec fn more_often() -> spec_fn(Discovery, Discovery) -> bool {
    |a: Discovery, b: Discovery| a.count > b.count
}

/// What is known of the new words, those that occur more often first.
pub open spec fn discovered(t: Counts, a: Seq<char>, min: u64, known: Set<Seq<char>>) -> Seq<Discovery> {
    order::arranged(
        t.words.filter(is_new(t, min, known)).map_values(|w: Seq<char>| known_of(t, a, w)),
        more_often(),
    )
}

/// The counts of the parts of each cut of a word.
fn count_parts(t: &FreqTable, w: &[char]) -> (r: Vec<(u64, u64)>)
    ensures
        r@ == part_counts(t@, w@, w@.len() as int),
{
    let mut out: Vec<(u64, u64)> = Vec::new();
    let n = w.len();
    let mut i: usize = 1;
    while i < n
        invariant
            n == w@.len(),
            1 <= i,
            i <= n || i == 1,
            out@ == part_counts(t@, w@, i as int),
        decreases n - i,
    {
        let a = run_of(w, 0, i);
        let b = run_of(w, i, n);
        proof {
            assert(a@ =~= w@.take(i as int));
            assert(b@ =~= w@.skip(i as int));
        }
        out.push((look_up(t, a.as_str()), look_up(t, b.as_str())));
        i = i + 1;
    }
    out
}

/// The counts of the characters beside a word that occur there.
fn find_beside(t: &FreqTable, w: &str, a: &Vec<char>) -> (r: Vec<u64>)
    ensures
        r@ == counts_beside(t@, w@, a@, a@.len() as int),
{
    let mut out: Vec<u64> = Vec::new();
    let mut i: usize = 0;
    while i < a.len()
        invariant
            i <= a.len(),
            out@ == counts_beside(t@, w@, a@, i as int),
        decreases a.len() - i,
    {
        let mut k = w.to_owned();
        k.push(a[i]);
        let n = look_up(t, k.as_str());
        if n > 0 {
            out.push(n);
        }
        i = i + 1;
    }
    out
}

/// Whether a word occurs more often than another.
fn is_more_often(a: &DiscoveredWord, b: &DiscoveredWord) -> (r: bool)
    ensures
        r == (a.count > b.count),
{
    a.count > b.count
}

/// What is known of words.
pub open spec fn facts(v: Seq<DiscoveredWord>) -> Seq<Discovery> {
    v.map_values(|d: DiscoveredWord| d@)
}

/// The new words among those counted, and what is known of them.
fn find_new(t: &Tally, a: &Vec<char>, min_count: u64, known: &WordSet) -> (r: Vec<DiscoveredWord>)
    ensures
        facts(r@) == discovered(t@, a@, min_count, known@),
{
    let ghost p = is_new(t@, min_count, known@);
    let ghost f = |w: Seq<char>| known_of(t@, a@, w);
    let ghost ws = t@.words;
    let mut out: Vec<DiscoveredWord> = Vec::new();
    let mut i: usize = 0;
    proof {
        reveal(Seq::filter);
        assert(facts(out@) =~= ws.take(0).filter(p).map_values(f));
    }
    while i < t.words.len()
        invariant
            i <= t.words.len(),
            ws == t@.words,
            p == is_new(t@, min_count, known@),
            f == (|w: Seq<char>| known_of(t@, a@, w)),
            facts(out@) == ws.take(i as int).filter(p).map_values(f),
        decreases t.words.len() - i,
    {
        let ghost was = facts(out@);
        let ghost kept = ws.take(i as int).filter(p);
        let w = t.words[i].as_str();
        proof {
            reveal(Seq::filter);
            assert(ws.take(i + 1).drop_last() =~= ws.take(i as int));
            assert(ws.take(i + 1).last() == w@);
        }
        let count = look_up(&t.counts, w);
        if count >= min_count && !known.contains(w) && !is_boundary_stopword(w) {
            let c = chars_of(w);
            let d = DiscoveredWord {
                word: w.to_owned(),
                count,
                parts: count_parts(&t.ngrams, c.as_slice()),
                left: find_beside(&t.lefts, w, a),
                right: find_beside(&t.rights, w, a),
            };
            out.push(d);
            proof {
                assert(p(w@));
                assert(d@ == known_of(t@, a@, w@));
                assert(facts(out@) =~= was.push(d@));
                assert(kept.push(w@).map_values(f) =~= kept.map_values(f).push(f(w@)));
            }
        }
        i = i + 1;
    }
    let ghost all = out@;
    let ghost g = |d: DiscoveredWord| d@;
    let ghost lt = |x: DiscoveredWord, y: DiscoveredWord| x.count > y.count;
    proof {
        assert(ws.take(ws.len() as int) =~= ws);
    }
    sort_stable(&mut out, is_more_often, Ghost(lt));
    proof {
        order::lemma_arranged_map(all, g, lt, more_often());
        assert(facts(all) =~= all.map_values(g));
        assert(facts(out@) =~= out@.map_values(g));
    }
    out
}

/// The new words of a text: the runs of Chinese characters that occur often enough, with what
/// says how they hold together and how free they stand. How many runs were counted comes with
/// them.
pub fn discover_words(text: &str, config: &DiscoveryConfig, known_words: &WordSet) -> (r: (
    Vec<DiscoveredWord>,
    u128,
))
    ensures
        exists|t: Counts| #[trigger]
            t.counts_of(sentences(text@), sentences(text@).len() as int) && t.sound() && t.max
                == config.max_word_len && facts(r.0@) == discovered(
                t,
                alphabet(text@),
                config.min_count,
                known_words@,
            ) && r.1 == t.total,
{
    let c = chars_of(text);
    let t = tally_text(c.as_slice(), config.max_word_len);
    let a = find_alphabet(c.as_slice());
    let found = find_new(&t, &a, config.min_count, known_words);
    (found, t.total)
}

/// A word that occurs often enough, is not known and neither begins nor ends with a stop word is
/// found, and no other is.
pub proof fn law_new_words_are_found(t: Counts, a: Seq<char>, min: u64, known: Set<Seq<char>>, w: Seq<char>)
    requires
        t.sound(),
        min > 0,
    ensures
        (exists|i: int|
            0 <= i < discovered(t, a, min, known).len() && (#[trigger] discovered(
                t,
                a,
                min,
                known,
            )[i]).word == w) <==> is_new(t, min, known)(w),
{
    let kept = t.words.filter(is_new(t, min, known));
    let f = |w: Seq<char>| known_of(t, a, w);
    let all = kept.map_values(f);
    let sorted = discovered(t, a, min, known);
    let p = is_new(t, min, known);
    broadcast use vstd::seq_lib::group_to_multiset_ensures;

    order::law_arranged_keeps_items(all, more_often());
    if exists|i: int| 0 <= i < sorted.len() && (#[trigger] sorted[i]).word == w {
        let i = choose|i: int| 0 <= i < sorted.len() && (#[trigger] sorted[i]).word == w;
        assert(sorted.contains(sorted[i]));
        assert(all.to_multiset().count(sorted[i]) > 0);
        assert(all.contains(sorted[i]));
        let j = choose|j: int| 0 <= j < all.len() && all[j] == sorted[i];
        assert(all[j] == known_of(t, a, kept[j]));
        t.words.lemma_filter_pred(p, j);
    }
    if p(w) {
        assert(t.words.contains(w));
        let k = choose|k: int| 0 <= k < t.words.len() && t.words[k] == w;
        t.words.lemma_filter_contains(p, k);
        assert(kept.contains(w));
        let j = choose|j: int| 0 <= j < kept.len() && kept[j] == w;
        assert(all[j] == known_of(t, a, w));
        assert(all.contains(all[j]));
        assert(sorted.to_multiset().count(all[j]) > 0);
        assert(sorted.contains(all[j]));
        let i = choose|i: int| 0 <= i < sorted.len() && sorted[i] == all[j];
        assert(sorted[i].word == w);
    }
}

} // verus!
