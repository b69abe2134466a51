//! Pinyin that resembles what was typed.

use vstd::prelude::*;
use vstd::utf8::*;
use crate::config::FuzzyPinyinConfig;
use crate::fuzzy;
use crate::fuzzy::fuzzy_variants_per_segment;
use crate::order::sort_stable;
use crate::segmentation;
use crate::segmentation::{DefaultSegmentor, Syllables};
use crate::tables::{FreqTable, WordSet};
use crate::text;
use crate::text::{chars_of, same_text, string_of, utf8_str};
use crate::trie::{Trie, TrieView};

verus! {

/// Inputs of more bytes are not searched for slips.
pub const LONG_INPUT: usize = 12;

/// How many combinations of variants are tried.
pub const MAX_COMBINATIONS: usize = 256;

/// After how many matches the search for near keys stops.
pub const ENOUGH_MATCHES: usize = 50;

/// A key that resembles the input, and its distance in tenths.
pub struct PinyinMatch {
    pub pinyin: String,
    pub cost: u128,
}

impl View for PinyinMatch {
    type V = (Seq<char>, u128);

    open spec fn view(&self) -> (Seq<char>, u128) {
        (self.pinyin@, self.cost)
    }
}

/// The matches of a list, as texts and distances.
pub open spec fn match_views(v: Seq<PinyinMatch>) -> Seq<(Seq<char>, u128)> {
    v.map_values(|m: PinyinMatch| m@)
}

/// How far a search has come: what was tried, and what was found.
pub struct Hunt {
    pub seen: Set<Seq<char>>,
    pub found: Seq<(Seq<char>, u128)>,
}

/// A search after a text was tried: the first time, it is found where it has entries.
pub open spec fn tried(t: TrieView, h: Hunt, py: Seq<char>, cost: int) -> Hunt {
    if h.seen.contains(py) {
        h
    } else {
        Hunt {
            seen: h.seen.insert(py),
            found: if t.exact(py).len() > 0 {
                h.found.push((py, cost as u128))
            } else {
                h.found
            },
        }
    }
}

/// The variants of each syllable.
pub open spec fn variant_sets(f: FuzzyPinyinConfig, segs: Seq<Seq<char>>) -> Seq<Seq<Seq<char>>> {
    segs.map_values(|s: Seq<char>| fuzzy::variants(f, s))
}

/// The number of combinations of variants.
pub open spec fn combinations(sets: Seq<Seq<Seq<char>>>, n: int) -> int
    decreases n,
{
    if n <= 0 || n > sets.len() {
        1
    } else {
        combinations(sets, n - 1) * sets[n - 1].len()
    }
}

/// A search after all combinations were tried that begin with the given text: the variants of
/// the last syllable change first. A combination costs two tenths for each syllable that
/// differs; the one in which none does is not tried.
pub open spec fn walked(
    t: TrieView,
    h: Hunt,
    sets: Seq<Seq<Seq<char>>>,
    segs: Seq<Seq<char>>,
    i: int,
    done: Seq<char>,
    changed: int,
) -> Hunt
    decreases sets.len() - i, 0int,
{
    if i >= sets.len() || i < 0 {
        if changed > 0 {
            tried(t, h, done, 2 * changed)
        } else {
            h
        }
    } else {
        walked_over(t, h, sets, segs, i, done, changed, sets[i].len() as int)
    }
}

/// A search after the first `k` variants of a syllable were walked over.
pub open spec fn walked_over(
    t: TrieView,
    h: Hunt,
    sets: Seq<Seq<Seq<char>>>,
    segs: Seq<Seq<char>>,
    i: int,
    done: Seq<char>,
    changed: int,
    k: int,
) -> Hunt
    decreases sets.len() - i - 1, k + 1,
{
    if k <= 0 || i < 0 || i >= sets.len() || k > sets[i].len() {
        h
    } else {
        let v = sets[i][k - 1];
        walked(
            t,
            walked_over(t, h, sets, segs, i, done, changed, k - 1),
            sets,
            segs,
            i + 1,
            done + v,
            if v != segs[i] {
                changed + 1
            } else {
                changed
            },
        )
    }
}

/// A search after the fuzzy variants of the syllables were tried. They are not where the
/// input is one syllable, or where there are too many combinations.
pub open spec fn fuzzy_tried(
    t: TrieView,
    h: Hunt,
    input: Seq<char>,
    f: Option<FuzzyPinyinConfig>,
    s: Syllables,
) -> Hunt {
    match f {
        None => h,
        Some(f) => {
            let segs = segmentation::viterbi(s, input);
            let sets = variant_sets(f, segs);
            let n = combinations(sets, sets.len() as int);
            if segs.len() == 0 || (segs.len() == 1 && text::byte_len(segs[0]) >= text::byte_len(
                input,
            )) || n == 0 || n > MAX_COMBINATIONS {
                h
            } else {
                walked(t, h, sets, segs, 0, Seq::empty(), 0)
            }
        },
    }
}

/// A search after the exchanges of two neighbouring letters at the first `n` places were tried.
pub open spec fn swaps_tried(t: TrieView, h: Hunt, input: Seq<char>, n: int) -> Hunt
    decreases n,
{
    if n <= 0 || n >= input.len() {
        h
    } else {
        let before = swaps_tried(t, h, input, n - 1);
        let x = input.update(n - 1, input[n]).update(n, input[n - 1]);
        if x != input {
            tried(t, before, x, 5)
        } else {
            before
        }
    }
}

/// A search after the first `n` near keys were tried, or as many as were needed for enough
/// matches.
pub open spec fn near_tried(t: TrieView, h: Hunt, keys: Seq<(Seq<u8>, u64)>, n: int) -> Hunt
    decreases n,
{
    if n <= 0 || n > keys.len() {
        h
    } else {
        let before = near_tried(t, h, keys, n - 1);
        if n > 1 && before.found.len() >= ENOUGH_MATCHES {
            before
        } else {
            tried(t, before, decode_utf8(keys[n - 1].0), 10)
        }
    }
}

/// A match is nearer than another: by its distance, then by its length.
pub open spec fn nearer() -> spec_fn((Seq<char>, u128), (Seq<char>, u128)) -> bool {
    |a: (Seq<char>, u128), b: (Seq<char>, u128)|
        a.1 < b.1 || (a.1 == b.1 && text::byte_len(a.0) < text::byte_len(b.0))
}

/// What is found for an input: itself, fuzzy variants, exchanged letters and keys one edit
/// away, the nearest first.
pub open spec fn similar(
    t: TrieView,
    input: Seq<char>,
    f: Option<FuzzyPinyinConfig>,
    s: Syllables,
) -> Seq<(Seq<char>, u128)> {
    let h0 = tried(t, Hunt { seen: Set::empty(), found: Seq::empty() }, input, 0);
    let h1 = fuzzy_tried(t, h0, input, f, s);
    let h2 = if text::byte_len(input) > LONG_INPUT {
        h1
    } else {
        let keys = t.keys_near(input);
        near_tried(t, swaps_tried(t, h1, input, input.len() - 1), keys, keys.len() as int)
    };
    crate::order::arranged(h2.found, nearer())
}

/// A search under way.
struct Searcher<'a> {
    trie: &'a Trie,
    seen: WordSet,
    found: Vec<PinyinMatch>,
}

impl<'a> Searcher<'a> {
    spec fn hunt(self) -> Hunt {
        Hunt { seen: self.seen@, found: match_views(self.found@) }
    }

    /// Tries a text.
    fn try_add(&mut self, py: String, cost: u128)
        ensures
            final(self).trie == old(self).trie,
            final(self).hunt() == tried(old(self).trie@, old(self).hunt(), py@, cost as int),
    {
        if self.seen.insert(py.clone()) {
            if self.trie.get_all_exact(py.as_str()).is_some() {
                let m = PinyinMatch { pinyin: py, cost };
                self.found.push(m);
            }
            proof {
                assert(self.hunt().found =~= tried(
                    old(self).trie@,
                    old(self).hunt(),
                    py@,
                    cost as int,
                ).found);
            }
        } else {
            proof {
                assert(self.seen@ =~= old(self).seen@);
            }
        }
    }

    /// Walks over the combinations that begin with the given text.
    fn walk(
        &mut self,
        sets: &Vec<Vec<String>>,
        segs: &Vec<String>,
        i: usize,
        done: &str,
        changed: u128,
    )
        requires
            sets@.len() == segs@.len(),
            i <= sets@.len(),
            changed <= i,
        ensures
            final(self).trie == old(self).trie,
            final(self).hunt() == walked(
                old(self).trie@,
                old(self).hunt(),
                set_texts(sets@),
                text::texts(segs@),
                i as int,
                done@,
                changed as int,
            ),
        decreases sets@.len() - i,
    {
        let ghost t = self.trie@;
        let ghost ss = set_texts(sets@);
        let ghost gs = text::texts(segs@);
        let ghost h = self.hunt();
        if i >= sets.len() {
            if changed > 0 {
                self.try_add(done.to_owned(), 2 * changed);
            }
            return ;
        }
        proof {
            assert(ss[i as int] == text::texts(sets@[i as int]@));
            assert(gs[i as int] == segs@[i as int]@);
        }
        let mut k: usize = 0;
        while k < sets[i].len()
            invariant
                i < sets.len(),
                sets@.len() == segs@.len(),
                    changed <= i,
                k <= sets@[i as int]@.len(),
                ss == set_texts(sets@),
                gs == text::texts(segs@),
                ss[i as int] == text::texts(sets@[i as int]@),
                gs[i as int] == segs@[i as int]@,
                self.trie == old(self).trie,
                t == self.trie@,
                self.hunt() == walked_over(
                    t,
                    h,
                    ss,
                    gs,
                    i as int,
                    done@,
                    changed as int,
                    k as int,
                ),
            decreases sets@[i as int]@.len() - k,
        {
            let v = sets[i][k].as_str();
            let mut next = done.to_owned();
            next.append(v);
            let differs = !same_text(v, segs[i].as_str());
            proof {
                assert(ss[i as int][k as int] == v@);
            }
            self.walk(
                sets,
                segs,
                i + 1,
                next.as_str(),
                if differs {
                    changed + 1
                } else {
                    changed
                },
            );
            k = k + 1;
        }
    }
}

/// The texts of a list of lists.
pub open spec fn set_texts(v: Seq<Vec<String>>) -> Seq<Seq<Seq<char>>> {
    v.map_values(|l: Vec<String>| text::texts(l@))
}

/// Whether a match is nearer than another.
fn is_nearer(a: &PinyinMatch, b: &PinyinMatch) -> (r: bool)
    ensures
        r == nearer()(a@, b@),
{
    let x = a.pinyin.as_str().as_bytes().len();
    let y = b.pinyin.as_str().as_bytes().len();
    a.cost < b.cost || (a.cost == b.cost && x < y)
}


proof fn lemma_placed_matches(x: PinyinMatch, s: Seq<PinyinMatch>)
    ensures
        match_views(
            crate::order::placed(x, s, |a: PinyinMatch, b: PinyinMatch| nearer()(a@, b@)),
        ) == crate::order::placed(x@, match_views(s), nearer()),
    decreases s.len(),
{
    let lt = |a: PinyinMatch, b: PinyinMatch| nearer()(a@, b@);
    if s.len() == 0 || !lt(s[0], x) {
        assert(match_views(seq![x] + s) =~= seq![x@] + match_views(s));
        if s.len() > 0 {
            assert(match_views(s)[0] == s[0]@);
        }
    } else {
        lemma_placed_matches(x, s.drop_first());
        assert(match_views(s)[0] == s[0]@);
        assert(match_views(s.drop_first()) =~= match_views(s).drop_first());
        let t = crate::order::placed(x, s.drop_first(), lt);
        assert(match_views(seq![s[0]] + t) =~= seq![s[0]@] + match_views(t));
    }
}

proof fn lemma_arranged_matches(s: Seq<PinyinMatch>)
    ensures
        match_views(
            crate::order::arranged(s, |a: PinyinMatch, b: PinyinMatch| nearer()(a@, b@)),
        ) == crate::order::arranged(match_views(s), nearer()),
    decreases s.len(),
{
    let lt = |a: PinyinMatch, b: PinyinMatch| nearer()(a@, b@);
    if s.len() == 0 {
        assert(match_views(s) =~= Seq::<(Seq<char>, u128)>::empty());
    } else {
        lemma_arranged_matches(s.drop_first());
        lemma_placed_matches(s[0], crate::order::arranged(s.drop_first(), lt));
        assert(match_views(s.drop_first()) =~= match_views(s).drop_first());
        assert(match_views(s)[0] == s[0]@);
    }
}

proof fn lemma_combinations(sets: Seq<Seq<Seq<char>>>, n: int, m: int)
    requires
        0 <= n <= m <= sets.len(),
        forall|i: int| 0 <= i < sets.len() ==> (#[trigger] sets[i]).len() >= 1,
    ensures
        1 <= combinations(sets, n) <= combinations(sets, m),
    decreases m,
{
    if m > 0 {
        if n < m {
            lemma_combinations(sets, n, m - 1);
        } else {
            lemma_combinations(sets, n - 1, n - 1);
        }
        let a = combinations(sets, m - 1);
        let b = sets[m - 1].len() as int;
        assert(a * b >= a) by (nonlinear_arith)
            requires
                a >= 1,
                b >= 1,
        ;
    }
}

impl<'a> Searcher<'a> {
    /// Tries the fuzzy variants of the syllables.
    fn l1_fuzzy_variants(
        &mut self,
        input: &str,
        fuzzy: Option<&FuzzyPinyinConfig>,
        syllable_freq: &FreqTable,
        base_syllables: &WordSet,
    )
        ensures
            final(self).trie == old(self).trie,
            final(self).hunt() == fuzzy_tried(
                old(self).trie@,
                old(self).hunt(),
                input@,
                match fuzzy {
                    Some(f) => Some(*f),
                    None => None,
                },
                segmentation::known(syllable_freq, base_syllables),
            ),
    {
        let fz = match fuzzy {
            Some(f) => f,
            None => {
                return ;
            },
        };
        let segs = DefaultSegmentor::viterbi_segment(input, syllable_freq, base_syllables);
        let ghost gs = text::texts(segs@);
        proof {
            if segs@.len() > 0 {
                assert(gs[0] == segs@[0]@);
            }
        }
        if segs.len() == 0 || (segs.len() == 1 && segs[0].as_str().as_bytes().len()
            >= input.as_bytes().len()) {
            return ;
        }
        let ghost want = variant_sets(*fz, gs);
        let mut sets: Vec<Vec<String>> = Vec::new();
        let mut total: usize = 1;
        let mut i: usize = 0;
        proof {
            assert forall|x: int| 0 <= x < want.len() implies (#[trigger] want[x]).len() >= 1 by {
                fuzzy::law_variants_hold_the_syllable(*fz, gs[x]);
            }
        }
        while i < segs.len()
            invariant
                i <= segs.len(),
                self.trie == old(self).trie,
                self.hunt() == old(self).hunt(),
                fuzzy == Some(fz),
                gs == text::texts(segs@),
                gs == segmentation::viterbi(
                    segmentation::known(syllable_freq, base_syllables),
                    input@,
                ),
                want == variant_sets(*fz, gs),
                want.len() == segs@.len(),
                forall|x: int| 0 <= x < want.len() ==> (#[trigger] want[x]).len() >= 1,
                sets@.len() == i,
                forall|x: int| 0 <= x < i ==> text::texts((#[trigger] sets@[x])@) == want[x],
                total <= MAX_COMBINATIONS,
                total == combinations(want, i as int),
            decreases segs.len() - i,
        {
            let vars = fuzzy_variants_per_segment(segs[i].as_str(), fz);
            proof {
                assert(gs[i as int] == segs@[i as int]@);
                assert(want[i as int] == text::texts(vars@));
                assert(want[i as int].len() == vars@.len());
            }
            let len = vars.len();
            let ghost c = combinations(want, i + 1);
            proof {
                assert(c == total * len);
                lemma_combinations(want, i + 1, want.len() as int);
            }
            if len > MAX_COMBINATIONS {
                proof {
                    assert(total * len >= len) by (nonlinear_arith)
                        requires
                            total >= 1,
                            len >= 0,
                    ;
                    lemma_combinations(want, i as int, i as int);
                }
                return ;
            }
            proof {
                assert(total * len <= 65536) by (nonlinear_arith)
                    requires
                        total <= 256,
                        len <= 256,
                ;
            }
            if total * len > MAX_COMBINATIONS {
                return ;
            }
            total = total * len;
            sets.push(vars);
            i = i + 1;
        }
        proof {
            assert(set_texts(sets@) =~= want);
            lemma_combinations(want, 0, want.len() as int);
            reveal_strlit("");
            assert(""@ =~= Seq::<char>::empty());
        }
        self.walk(&sets, &segs, 0, "", 0);
    }

    /// Tries the exchanges of two neighbouring letters.
    fn l2_transpositions(&mut self, input: &str)
        ensures
            final(self).trie == old(self).trie,
            final(self).hunt() == swaps_tried(
                old(self).trie@,
                old(self).hunt(),
                input@,
                input@.len() - 1,
            ),
    {
        let chars = chars_of(input);
        let ghost t = self.trie@;
        let ghost h = self.hunt();
        if chars.len() < 2 {
            return ;
        }
        let mut i: usize = 0;
        while i < chars.len() - 1
            invariant
                i <= chars.len() - 1,
                chars.len() >= 2,
                chars@ == input@,
                self.trie == old(self).trie,
                t == self.trie@,
                self.hunt() == swaps_tried(t, h, input@, i as int),
            decreases chars.len() - i,
        {
            let mut x = chars.clone();
            proof {
                assert(x@ =~= chars@);
            }
            x.set(i, chars[i + 1]);
            x.set(i + 1, chars[i]);
            let candidate = string_of(x.as_slice());
            if !same_text(candidate.as_str(), input) {
                self.try_add(candidate, 5);
            }
            i = i + 1;
        }
    }

    /// Tries the keys that are one edit away.
    fn l3_levenshtein(&mut self, input: &str)
        ensures
            final(self).trie == old(self).trie,
            final(self).hunt() == near_tried(
                old(self).trie@,
                old(self).hunt(),
                old(self).trie@.keys_near(input@),
                old(self).trie@.keys_near(input@).len() as int,
            ),
    {
        let ghost t = self.trie@;
        let ghost h = self.hunt();
        let keys = self.trie.keys_nearby(input);
        let ghost ks = crate::index::pairs_of(keys@);
        let mut i: usize = 0;
        while i < keys.len()
            invariant
                i <= keys.len(),
                ks == crate::index::pairs_of(keys@),
                ks == t.keys_near(input@),
                forall|x: int| 0 <= x < keys@.len() ==> valid_utf8((#[trigger] keys@[x]).0@),
                self.trie == old(self).trie,
                t == self.trie@,
                h == old(self).hunt(),
                self.hunt() == near_tried(t, h, ks, i as int),
                i == 0 || self.found@.len() < ENOUGH_MATCHES,
            decreases keys.len() - i,
        {
            proof {
                assert(ks[i as int].0 == keys@[i as int].0@);
                assert(match_views(self.found@).len() == self.found@.len());
            }
            match utf8_str(keys[i].0.as_slice()) {
                Some(k) => {
                    proof {
                        encode_utf8_decode_utf8(k@);
                    }
                    self.try_add(k.to_owned(), 10);
                },
                None => {
                    proof {
                        assert(false);
                    }
                },
            }
            i = i + 1;
            if self.found.len() >= ENOUGH_MATCHES {
                proof {
                    assert(match_views(self.found@).len() == self.found@.len());
                    lemma_near_enough(t, h, ks, i as int, ks.len() as int);
                }
                return ;
            }
        }
    }
}

proof fn lemma_near_enough(t: TrieView, h: Hunt, keys: Seq<(Seq<u8>, u64)>, n: int, m: int)
    requires
        0 < n <= m <= keys.len(),
        near_tried(t, h, keys, n).found.len() >= ENOUGH_MATCHES,
    ensures
        near_tried(t, h, keys, m) == near_tried(t, h, keys, n),
    decreases m,
{
    if n < m {
        lemma_near_enough(t, h, keys, n, m - 1);
    }
}

/// The keys of a dictionary that resemble an input, the nearest first.
pub fn find_similar_pinyin(
    input: &str,
    trie: &Trie,
    fuzzy: Option<&FuzzyPinyinConfig>,
    syllable_freq: &FreqTable,
    base_syllables: &WordSet,
) -> (r: Vec<PinyinMatch>)
    ensures
        match_views(r@) == similar(
            trie@,
            input@,
            match fuzzy {
                Some(f) => Some(*f),
                None => None,
            },
            segmentation::known(syllable_freq, base_syllables),
        ),
{
    let mut s = Searcher { trie, seen: WordSet::new(), found: Vec::new() };
    proof {
        assert(s.hunt().found =~= Seq::<(Seq<char>, u128)>::empty());
    }
    s.try_add(input.to_owned(), 0);
    s.l1_fuzzy_variants(input, fuzzy, syllable_freq, base_syllables);
    if input.as_bytes().len() <= LONG_INPUT {
        s.l2_transpositions(input);
        s.l3_levenshtein(input);
    }
    let mut found = s.found;
    let ghost fv = found@;
    let ghost lt = |a: PinyinMatch, b: PinyinMatch| nearer()(a@, b@);
    sort_stable(&mut found, is_nearer, Ghost(lt));
    proof {
        lemma_arranged_matches(fv);
    }
    found
}

/// Whether everything found has entries.
pub open spec fn all_exist(t: TrieView, s: Seq<(Seq<char>, u128)>) -> bool {
    forall|i: int| 0 <= i < s.len() ==> t.exact((#[trigger] s[i]).0).len() > 0
}

proof fn lemma_walked_exist(
    t: TrieView,
    h: Hunt,
    sets: Seq<Seq<Seq<char>>>,
    segs: Seq<Seq<char>>,
    i: int,
    done: Seq<char>,
    changed: int,
)
    requires
        all_exist(t, h.found),
    ensures
        all_exist(t, walked(t, h, sets, segs, i, done, changed).found),
    decreases sets.len() - i, 0int,
{
    if 0 <= i < sets.len() {
        lemma_walked_over_exist(t, h, sets, segs, i, done, changed, sets[i].len() as int);
    }
}

proof fn lemma_walked_over_exist(
    t: TrieView,
    h: Hunt,
    sets: Seq<Seq<Seq<char>>>,
    segs: Seq<Seq<char>>,
    i: int,
    done: Seq<char>,
    changed: int,
    k: int,
)
    requires
        all_exist(t, h.found),
    ensures
        all_exist(t, walked_over(t, h, sets, segs, i, done, changed, k).found),
    decreases sets.len() - i - 1, k + 1,
{
    if !(k <= 0 || i < 0 || i >= sets.len() || k > sets[i].len()) {
        lemma_walked_over_exist(t, h, sets, segs, i, done, changed, k - 1);
        let v = sets[i][k - 1];
        lemma_walked_exist(
            t,
            walked_over(t, h, sets, segs, i, done, changed, k - 1),
            sets,
            segs,
            i + 1,
            done + v,
            if v != segs[i] {
                changed + 1
            } else {
                changed
            },
        );
    }
}

proof fn lemma_swaps_exist(t: TrieView, h: Hunt, input: Seq<char>, n: int)
    requires
        all_exist(t, h.found),
    ensures
        all_exist(t, swaps_tried(t, h, input, n).found),
    decreases n,
{
    if 0 < n < input.len() {
        lemma_swaps_exist(t, h, input, n - 1);
    }
}

proof fn lemma_near_exist(t: TrieView, h: Hunt, keys: Seq<(Seq<u8>, u64)>, n: int)
    requires
        all_exist(t, h.found),
    ensures
        all_exist(t, near_tried(t, h, keys, n).found),
    decreases n,
{
    if 0 < n <= keys.len() {
        lemma_near_exist(t, h, keys, n - 1);
    }
}

proof fn lemma_placed_exist(t: TrieView, x: (Seq<char>, u128), s: Seq<(Seq<char>, u128)>)
    requires
        t.exact(x.0).len() > 0,
        all_exist(t, s),
    ensures
        all_exist(t, crate::order::placed(x, s, nearer())),
    decreases s.len(),
{
    if s.len() > 0 && nearer()(s[0], x) {
        let d = s.drop_first();
        assert forall|i: int| 0 <= i < d.len() implies t.exact((#[trigger] d[i]).0).len() > 0 by {
            assert(d[i] == s[i + 1]);
        }
        lemma_placed_exist(t, x, d);
        let p = crate::order::placed(x, d, nearer());
        let r = crate::order::placed(x, s, nearer());
        assert(r == seq![s[0]] + p);
        assert forall|i: int| 0 <= i < r.len() implies t.exact((#[trigger] r[i]).0).len() > 0 by {
            if i > 0 {
                assert(r[i] == p[i - 1]);
            } else {
                assert(r[0] == s[0]);
            }
        }
    } else {
        let r = crate::order::placed(x, s, nearer());
        assert(r == seq![x] + s);
        assert forall|i: int| 0 <= i < r.len() implies t.exact((#[trigger] r[i]).0).len() > 0 by {
            if i > 0 {
                assert(r[i] == s[i - 1]);
            }
        }
    }
}

proof fn lemma_arranged_exist(t: TrieView, s: Seq<(Seq<char>, u128)>)
    requires
        all_exist(t, s),
    ensures
        all_exist(t, crate::order::arranged(s, nearer())),
    decreases s.len(),
{
    if s.len() > 0 {
        let d = s.drop_first();
        assert forall|i: int| 0 <= i < d.len() implies t.exact((#[trigger] d[i]).0).len() > 0 by {
            assert(d[i] == s[i + 1]);
        }
        lemma_arranged_exist(t, d);
        lemma_placed_exist(t, s[0], crate::order::arranged(d, nearer()));
    }
}

/// What is found for an input has entries in the dictionary, and none of it stands behind what is
/// farther away.
pub proof fn law_similar_keys_exist_nearest_first(
    t: TrieView,
    input: Seq<char>,
    f: Option<FuzzyPinyinConfig>,
    s: Syllables,
)
    ensures
        all_exist(t, similar(t, input, f, s)),
        forall|i: int, j: int|
            0 <= i < j < similar(t, input, f, s).len() ==> (#[trigger] similar(t, input, f, s)[i]).1
                <= (#[trigger] similar(t, input, f, s)[j]).1,
{
    let h0 = tried(t, Hunt { seen: Set::empty(), found: Seq::empty() }, input, 0);
    let h1 = fuzzy_tried(t, h0, input, f, s);
    if let Some(c) = f {
        let segs = segmentation::viterbi(s, input);
        lemma_walked_exist(t, h0, variant_sets(c, segs), segs, 0, Seq::empty(), 0);
    }
    assert(all_exist(t, h1.found));
    let keys = t.keys_near(input);
    lemma_swaps_exist(t, h1, input, input.len() - 1);
    let h2 = swaps_tried(t, h1, input, input.len() - 1);
    lemma_near_exist(t, h2, keys, keys.len() as int);
    let all = if text::byte_len(input) > LONG_INPUT {
        h1.found
    } else {
        near_tried(t, h2, keys, keys.len() as int).found
    };
    lemma_arranged_exist(t, all);
    crate::order::law_arranged_in_order(all, nearer());
    let r = similar(t, input, f, s);
    assert forall|i: int, j: int| 0 <= i < j < r.len() implies (#[trigger] r[i]).1 <= (
    #[trigger] r[j]).1 by {
        assert(!nearer()(r[j], r[i]));
    }
}

} // verus!
