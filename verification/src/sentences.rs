//! Sentences put together from words, and the words of the user.

use vstd::prelude::*;
use crate::candidate;
use crate::candidate::{hold, Cand, Candidate};
use crate::chinese;
use crate::chinese::{find_entry, holds_vowel};
use crate::config::Config;
use crate::order;
use crate::order::sort_stable;
use crate::segmentation;
use crate::segmentation::DefaultSegmentor;
use crate::session::is_blank;
use crate::strmap;
use crate::strmap::StrMap;
use crate::tables::{FreqTable, WordSet};
use crate::text;
use crate::text::starts_with;
use crate::translators::{add_new, join_texts};
use crate::trie;
use crate::trie::{Entry, Trie, TrieResult, TrieView};
use crate::userdict;
use crate::userdict::{ProfileDict, UserDictData, WordList};

verus! {

/// How many syllables a word of a sentence has at most.
pub const MAX_WORD: usize = 4;

/// How many ways to cut a sentence are looked at.
pub const MAX_WAYS: usize = 100;

/// Where a word of a sentence begins and ends, in syllables.
pub type Cut = (usize, usize);

/// The letters of some syllables.
pub open spec fn letters_between(base: Seq<Seq<char>>, i: int, j: int) -> Seq<char> {
    segmentation::joined(base.subrange(i, j))
}

/// Ways that begin with a word.
pub open spec fn led_by(c: Cut, ways: Seq<Seq<Cut>>) -> Seq<Seq<Cut>> {
    ways.map_values(|w: Seq<Cut>| seq![c] + w)
}

/// The ways to cut syllables into words from a place on. A word has one syllable, or several
/// under which the dictionary has an entry.
pub open spec fn ways_from(t: TrieView, base: Seq<Seq<char>>, pos: int) -> Seq<Seq<Cut>>
    decreases base.len() - pos, MAX_WORD + 1,
{
    if pos < 0 || pos >= base.len() {
        seq![Seq::empty()]
    } else {
        ways_over(t, base, pos, trie::least(MAX_WORD as int, base.len() - pos))
    }
}

/// The ways whose first word has at most `k` syllables.
pub open spec fn ways_over(t: TrieView, base: Seq<Seq<char>>, pos: int, k: int) -> Seq<Seq<Cut>>
    decreases base.len() - pos, k,
{
    if k <= 0 || k > MAX_WORD || pos < 0 || pos + k > base.len() {
        Seq::empty()
    } else {
        let before = ways_over(t, base, pos, k - 1);
        if k == 1 || t.exact(letters_between(base, pos, pos + k)).len() > 0 {
            before + led_by(
                (pos as usize, (pos + k) as usize),
                ways_from(t, base, pos + k),
            )
        } else {
            before
        }
    }
}

/// Ways behind what is already cut.
pub open spec fn behind(current: Seq<Cut>, ways: Seq<Seq<Cut>>) -> Seq<Seq<Cut>> {
    ways.map_values(|w: Seq<Cut>| current + w)
}

/// The cuts of ways.
pub open spec fn cuts(v: Seq<Vec<Cut>>) -> Seq<Seq<Cut>> {
    v.map_values(|w: Vec<Cut>| w@)
}

/// The letters of some syllables.
fn join_between(base: &[String], i: usize, j: usize) -> (r: String)
    requires
        i <= j <= base@.len(),
    ensures
        r@ == letters_between(text::texts(base@), i as int, j as int),
{
    let part = vstd::slice::slice_subrange(base, i, j);
    proof {
        assert(text::texts(part@) =~= text::texts(base@).subrange(i as int, j as int));
    }
    join_texts(part)
}

/// A copy of cuts.
fn copy_cuts(v: &Vec<Cut>) -> (r: Vec<Cut>)
    ensures
        r@ == v@,
{
    let mut out: Vec<Cut> = Vec::new();
    let mut i: usize = 0;
    while i < v.len()
        invariant
            i <= v.len(),
            out@ == v@.take(i as int),
        decreases v.len() - i,
    {
        out.push(v[i]);
        proof {
            assert(v@.take(i + 1) =~= v@.take(i as int).push(v@[i as int]));
        }
        i = i + 1;
    }
    proof {
        assert(v@.take(v@.len() as int) =~= v@);
    }
    out
}

/// Finds the ways to cut syllables into words from a place on.
pub fn backtrack_partitions(
    base: &[String],
    pos: usize,
    current: &mut Vec<Cut>,
    result: &mut Vec<Vec<Cut>>,
    trie: &Trie,
)
    requires
        pos <= base@.len(),
    ensures
        final(current)@ == old(current)@,
        cuts(final(result)@) == cuts(old(result)@) + behind(
            old(current)@,
            ways_from(trie@, text::texts(base@), pos as int),
        ),
    decreases base@.len() - pos,
{
    let ghost b = text::texts(base@);
    let ghost t = trie@;
    let ghost cur = current@;
    let ghost res = cuts(result@);
    let n = base.len();
    if pos >= n {
        let way = copy_cuts(current);
        result.push(way);
        proof {
            assert(cur + Seq::<Cut>::empty() =~= cur);
            assert(cuts(result@) =~= res + behind(cur, seq![Seq::empty()]));
        }
        return ;
    }
    let max_k = if n - pos < MAX_WORD {
        n - pos
    } else {
        MAX_WORD
    };
    let mut k: usize = 0;
    proof {
        assert(behind(cur, ways_over(t, b, pos as int, 0)) =~= Seq::<Seq<Cut>>::empty());
        assert(cuts(result@) =~= res + behind(cur, ways_over(t, b, pos as int, 0)));
    }
    while k < max_k
        invariant
            k <= max_k,
            max_k == trie::least(MAX_WORD as int, n - pos),
            n == base@.len(),
            pos < n,
            b == text::texts(base@),
            t == trie@,
            current@ == cur,
            cuts(result@) == res + behind(cur, ways_over(t, b, pos as int, k as int)),
        decreases max_k - k,
    {
        k = k + 1;
        let end = pos + k;
        let fits = k == 1 || trie.get_all_exact(join_between(base, pos, end).as_str()).is_some();
        let ghost before = ways_over(t, b, pos as int, k - 1);
        if fits {
            let ghost rest = ways_from(t, b, end as int);
            let ghost c: Cut = (pos, end);
            current.push((pos, end));
            backtrack_partitions(base, end, current, result, trie);
            current.pop();
            proof {
                assert(current@ =~= cur);
                assert(behind(cur.push(c), rest) =~= behind(cur, led_by(c, rest))) by {
                    assert forall|i: int| 0 <= i < rest.len() implies cur.push(c) + #[trigger] rest[i]
                        == cur + (seq![c] + rest[i]) by {
                        assert(cur.push(c) + rest[i] =~= cur + (seq![c] + rest[i]));
                    }
                }
                assert(behind(cur, before + led_by(c, rest)) =~= behind(cur, before) + behind(
                    cur,
                    led_by(c, rest),
                ));
                assert(cuts(result@) =~= res + behind(cur, ways_over(t, b, pos as int, k as int)));
            }
        }
    }
}

/// The heaviest of the first `n` entries, the last of them where several are.
pub open spec fn heaviest(es: Seq<Entry>, n: int) -> Entry
    decreases n,
{
    if n <= 1 {
        es[0]
    } else {
        let best = heaviest(es, n - 1);
        if es[n - 1].weight >= best.weight {
            es[n - 1]
        } else {
            best
        }
    }
}

/// How often letters are typed.
pub open spec fn freq_of(freq: Map<Seq<char>, u64>, letters: Seq<char>) -> int {
    if freq.contains_key(letters) {
        freq[letters] as int
    } else {
        0
    }
}

/// The sentence of the first `n` words of a way, with how often its words are typed in all.
pub open spec fn sentence(
    t: TrieView,
    freq: Map<Seq<char>, u64>,
    base: Seq<Seq<char>>,
    way: Seq<Cut>,
    n: int,
) -> Option<(Seq<char>, int)>
    decreases n,
{
    if n <= 0 {
        Some((Seq::empty(), 0))
    } else {
        let letters = letters_between(base, way[n - 1].0 as int, way[n - 1].1 as int);
        let es = t.exact(letters);
        match sentence(t, freq, base, way, n - 1) {
            Some((x, f)) => if es.len() > 0 {
                Some((x + heaviest(es, es.len() as int).word, f + freq_of(freq, letters)))
            } else {
                None
            },
            None => None,
        }
    }
}

/// How many words a sentence has, and how often they are typed.
pub struct Rank {
    pub words: usize,
    pub freq: u128,
}

impl View for Rank {
    type V = (int, int);

    open spec fn view(&self) -> (int, int) {
        (self.words as int, self.freq as int)
    }
}

/// Whether a sentence ranks before another: by fewer words, or by words typed more often.
pub open spec fn ranks_before(a: (int, int), b: (int, int)) -> bool {
    a.0 < b.0 || (a.0 == b.0 && a.1 > b.1)
}

/// Sentences with one more, each with its best rank.
pub open spec fn with_sentence(l: Seq<(Seq<char>, (int, int))>, x: Seq<char>, r: (int, int)) -> Seq<
    (Seq<char>, (int, int)),
> {
    match strmap::lookup(l, x) {
        Some(old) => if ranks_before(r, old) {
            strmap::put(l, x, r)
        } else {
            l
        },
        None => strmap::put(l, x, r),
    }
}

/// The sentences of the first `n` ways.
pub open spec fn sentences(
    t: TrieView,
    freq: Map<Seq<char>, u64>,
    base: Seq<Seq<char>>,
    ways: Seq<Seq<Cut>>,
    n: int,
) -> Seq<(Seq<char>, (int, int))>
    decreases n,
{
    if n <= 0 {
        Seq::empty()
    } else {
        let before = sentences(t, freq, base, ways, n - 1);
        let way = ways[n - 1];
        match sentence(t, freq, base, way, way.len() as int) {
            Some((x, f)) => with_sentence(before, x, (way.len() as int, f)),
            None => before,
        }
    }
}

/// Whether a sentence goes before another.
pub open spec fn better() -> spec_fn((Seq<char>, (int, int)), (Seq<char>, (int, int))) -> bool {
    |a: (Seq<char>, (int, int)), b: (Seq<char>, (int, int))| ranks_before(a.1, b.1)
}

/// The candidate for a sentence.
pub open spec fn sentence_candidate(e: (Seq<char>, (int, int))) -> Cand {
    Cand {
        text: e.0,
        simplified: e.0,
        traditional: e.0,
        hint: Seq::empty(),
        english_aux: Seq::empty(),
        stroke_aux: Seq::empty(),
        source: "Compose"@,
        weight: candidate::held(e.1.1 + 100),
        match_level: 0,
        flags: 0,
    }
}

/// The best six sentences as candidates.
pub open spec fn best_sentences(l: Seq<(Seq<char>, (int, int))>) -> Seq<Cand> {
    let a = order::arranged(l, better());
    a.take(trie::least(a.len() as int, 6)).map_values(
        |e: (Seq<char>, (int, int))| sentence_candidate(e),
    )
}

/// The sentences that letters are put together to: none where they are too short or too long,
/// or where a longer word begins with all syllables but the last.
pub open spec fn put_together(t: TrieView, k: segmentation::Syllables, input: Seq<char>, min: u32) -> Seq<
    Cand,
> {
    let base = segmentation::viterbi(k, input);
    let n = base.len() as int;
    if n < trie::most(min as int, 2) || n > 12 || t.goes_on(letters_between(base, 0, n - 1)) {
        Seq::empty()
    } else {
        let ways = ways_from(t, base, 0);
        best_sentences(
            sentences(t, k.freq, base, ways, trie::least(ways.len() as int, MAX_WAYS as int)),
        )
    }
}

/// The heaviest of some entries.
fn find_heaviest<'a>(es: &Vec<TrieResult<'a>>) -> (r: TrieResult<'a>)
    requires
        es@.len() > 0,
    ensures
        r@ == heaviest(trie::views(es@), es@.len() as int),
{
    let ghost s = trie::views(es@);
    let mut best = es[0];
    let mut i: usize = 1;
    proof {
        assert(s[0] == es@[0]@);
    }
    while i < es.len()
        invariant
            1 <= i <= es.len(),
            s == trie::views(es@),
            best@ == heaviest(s, i as int),
        decreases es.len() - i,
    {
        proof {
            assert(s[i as int] == es@[i as int]@);
        }
        if es[i].weight >= best.weight {
            best = es[i];
        }
        i = i + 1;
    }
    best
}

/// Whether the words of a way lie within the syllables.
spec fn within(way: Seq<Cut>, n: int) -> bool {
    forall|i: int| 0 <= i < way.len() ==> (#[trigger] way[i]).0 <= way[i].1 <= n
}

proof fn lemma_ways_within(t: TrieView, base: Seq<Seq<char>>, pos: int)
    requires
        base.len() <= usize::MAX,
        pos >= 0,
    ensures
        forall|i: int|
            0 <= i < ways_from(t, base, pos).len() ==> within(
                #[trigger] ways_from(t, base, pos)[i],
                base.len() as int,
            ),
    decreases base.len() - pos, MAX_WORD + 1,
{
    let all = ways_from(t, base, pos);
    if pos < base.len() {
        let k = trie::least(MAX_WORD as int, base.len() - pos);
        lemma_over_within(t, base, pos, k);
        assert(all == ways_over(t, base, pos, k));
    } else {
        assert(all =~= seq![Seq::<Cut>::empty()]);
        assert forall|i: int| 0 <= i < all.len() implies within(
            #[trigger] all[i],
            base.len() as int,
        ) by {
            assert(all[i].len() == 0);
        }
    }
}

proof fn lemma_over_within(t: TrieView, base: Seq<Seq<char>>, pos: int, k: int)
    requires
        base.len() <= usize::MAX,
        pos >= 0,
    ensures
        forall|i: int|
            0 <= i < ways_over(t, base, pos, k).len() ==> within(
                #[trigger] ways_over(t, base, pos, k)[i],
                base.len() as int,
            ),
    decreases base.len() - pos, k,
{
    if !(k <= 0 || k > MAX_WORD || pos < 0 || pos + k > base.len()) {
        lemma_over_within(t, base, pos, k - 1);
        lemma_ways_within(t, base, pos + k);
        let before = ways_over(t, base, pos, k - 1);
        let rest = ways_from(t, base, pos + k);
        let all = ways_over(t, base, pos, k);
        let c: Cut = (pos as usize, (pos + k) as usize);
        assert forall|i: int| 0 <= i < all.len() implies within(
            #[trigger] all[i],
            base.len() as int,
        ) by {
            if i < before.len() {
                assert(all[i] == before[i]);
            } else {
                let w = rest[i - before.len()];
                assert(all[i] == led_by(c, rest)[i - before.len()]);
                assert(all[i] =~= seq![c] + w);
                assert(within(w, base.len() as int));
                assert forall|j: int| 0 <= j < all[i].len() implies (#[trigger] all[i][j]).0
                    <= all[i][j].1 <= base.len() by {
                    if j > 0 {
                        assert(all[i][j] == w[j - 1]);
                    }
                }
            }
        }
    }
}

/// The sentence of a way.
fn make_sentence(trie: &Trie, freq: &FreqTable, base: &[String], way: &Vec<Cut>) -> (r: Option<
    (String, u128),
>)
    requires
        within(way@, base@.len() as int),
    ensures
        match sentence(trie@, freq@, text::texts(base@), way@, way@.len() as int) {
            Some((x, f)) => r matches Some((y, g)) && y@ == x && g == f,
            None => r is None,
        },
{
    let ghost b = text::texts(base@);
    let ghost t = trie@;
    let mut out = String::new();
    let mut total: u128 = 0;
    let mut i: usize = 0;
    proof {
        assert(out@ =~= Seq::<char>::empty());
    }
    while i < way.len()
        invariant
            i <= way.len(),
            within(way@, base@.len() as int),
            b == text::texts(base@),
            t == trie@,
            total <= i * u64::MAX,
            sentence(t, freq@, b, way@, i as int) == Some((out@, total as int)),
        decreases way.len() - i,
    {
        let c = way[i];
        let letters = join_between(base, c.0, c.1);
        match trie.get_all_exact(letters.as_str()) {
            Some(es) => {
                let best = find_heaviest(&es);
                let f = match freq.get(letters.as_str()) {
                    Some(f) => f,
                    None => 0,
                };
                out.append(best.word);
                total = total + f as u128;
            },
            None => {
                proof {
                    lemma_no_sentence(t, freq@, b, way@, (i + 1) as int, way@.len() as int);
                }
                return None;
            },
        }
        i = i + 1;
    }
    Some((out, total))
}

proof fn lemma_no_sentence(
    t: TrieView,
    freq: Map<Seq<char>, u64>,
    base: Seq<Seq<char>>,
    way: Seq<Cut>,
    n: int,
    m: int,
)
    requires
        0 <= n <= m,
        sentence(t, freq, base, way, n) is None,
    ensures
        sentence(t, freq, base, way, m) is None,
    decreases m - n,
{
    if n < m {
        lemma_no_sentence(t, freq, base, way, n + 1, m);
    }
}

/// Adds a sentence, with its best rank.
fn add_sentence(l: &mut StrMap<Rank>, x: String, r: Rank)
    ensures
        final(l)@ == with_sentence(old(l)@, x@, r@),
{
    let better = match l.get(x.as_str()) {
        Some(old) => r.words < old.words || (r.words == old.words && r.freq > old.freq),
        None => true,
    };
    if better {
        l.insert(x, r);
    }
}

/// Whether a sentence goes before another.
fn is_better(a: &(String, Rank), b: &(String, Rank)) -> (r: bool)
    ensures
        r == ranks_before(a.1@, b.1@),
{
    a.1.words < b.1.words || (a.1.words == b.1.words && a.1.freq > b.1.freq)
}

/// The candidate for a sentence.
fn make_candidate(x: &str, r: &Rank) -> (c: Candidate)
    ensures
        c@ == sentence_candidate((x@, r@)),
{
    let weight = if r.freq > i64::MAX as u128 {
        i64::MAX
    } else {
        hold(r.freq as i128 + 100)
    };
    let c = Candidate {
        text: x.to_owned(),
        simplified: x.to_owned(),
        traditional: x.to_owned(),
        hint: String::new(),
        english_aux: String::new(),
        stroke_aux: String::new(),
        source: "Compose".to_owned(),
        weight,
        match_level: 0,
        flags: 0,
    };
    proof {
        assert(c@ =~= sentence_candidate((x@, r@)));
    }
    c
}

/// The sentences of ways.
fn make_sentences(
    trie: &Trie,
    freq: &FreqTable,
    base: &[String],
    ways: &Vec<Vec<Cut>>,
    max: usize,
) -> (r: StrMap<Rank>)
    requires
        max <= ways@.len(),
        forall|i: int| 0 <= i < ways@.len() ==> within(#[trigger] cuts(ways@)[i], base@.len() as int),
    ensures
        r@ == sentences(trie@, freq@, text::texts(base@), cuts(ways@), max as int),
{
    let mut out: StrMap<Rank> = StrMap::new();
    let mut i: usize = 0;
    while i < max
        invariant
            i <= max,
            max <= ways@.len(),
            forall|i: int|
                0 <= i < ways@.len() ==> within(#[trigger] cuts(ways@)[i], base@.len() as int),
            out@ == sentences(trie@, freq@, text::texts(base@), cuts(ways@), i as int),
        decreases max - i,
    {
        proof {
            assert(cuts(ways@)[i as int] == ways@[i as int]@);
        }
        if let Some((x, f)) = make_sentence(trie, freq, base, &ways[i]) {
            add_sentence(&mut out, x, Rank { words: ways[i].len(), freq: f });
        }
        i = i + 1;
    }
    out
}

/// The best six sentences as candidates.
fn rank_sentences(l: StrMap<Rank>) -> (r: Vec<Candidate>)
    ensures
        candidate::cands(r@) == best_sentences(l@),
{
    let mut v = l.entries;
    let ghost all = v@;
    let ghost g = |e: (String, Rank)| (e.0@, e.1@);
    let ghost lt = |a: (String, Rank), b: (String, Rank)| ranks_before(a.1@, b.1@);
    sort_stable(&mut v, is_better, Ghost(lt));
    let ghost a = order::arranged(l@, better());
    proof {
        order::lemma_arranged_map(all, g, lt, better());
        assert(l@ =~= all.map_values(g));
        assert(v@.map_values(g) =~= a);
    }
    let mut out: Vec<Candidate> = Vec::new();
    let mut i: usize = 0;
    let ghost f = |e: (Seq<char>, (int, int))| sentence_candidate(e);
    proof {
        assert(candidate::cands(out@) =~= a.take(0).map_values(f));
    }
    while i < v.len() && i < 6
        invariant
            i <= v.len(),
            i <= 6,
            a == v@.map_values(g),
            g == (|e: (String, Rank)| (e.0@, e.1@)),
            f == (|e: (Seq<char>, (int, int))| sentence_candidate(e)),
            candidate::cands(out@) == a.take(i as int).map_values(f),
        decreases v.len() - i,
    {
        let ghost was = candidate::cands(out@);
        let c = make_candidate(v[i].0.as_str(), &v[i].1);
        out.push(c);
        proof {
            assert(a[i as int] == (v@[i as int].0@, v@[i as int].1@));
            assert(candidate::cands(out@) =~= was.push(c@));
            assert(a.take(i + 1).map_values(f) =~= a.take(i as int).map_values(f).push(
                sentence_candidate(a[i as int]),
            ));
        }
        i = i + 1;
    }
    proof {
        assert(a.len() == v@.len());
        assert(i == trie::least(a.len() as int, 6));
        assert(best_sentences(l@) =~= a.take(i as int).map_values(f));
    }
    out
}

/// The syllables of letters.
pub fn segment_base(input: &str, syllable_freq: &FreqTable, base_syllables: &WordSet) -> (r: Vec<
    String,
>)
    ensures
        text::texts(r@) == segmentation::viterbi(
            segmentation::known(syllable_freq, base_syllables),
            input@,
        ),
{
    DefaultSegmentor::viterbi_segment(input, syllable_freq, base_syllables)
}

/// A translator that puts sentences together.
pub struct ComposeTranslator<'a> {
    pub trie: &'a Trie,
    pub base_syllables: &'a WordSet,
    pub syllable_freq: &'a FreqTable,
}

impl<'a> ComposeTranslator<'a> {
    /// A translator that puts sentences together from the words of a dictionary.
    pub fn new(trie: &'a Trie, base_syllables: &'a WordSet, syllable_freq: &'a FreqTable) -> (r: Self)
        ensures
            r.trie@ == trie@,
            r.base_syllables@ == base_syllables@,
            r.syllable_freq@ == syllable_freq@,
    {
        ComposeTranslator { trie, base_syllables, syllable_freq }
    }

    /// The sentences that letters are put together to.
    pub fn translate(&self, input: &str, config: &Config) -> (r: Vec<Candidate>)
        ensures
            candidate::cands(r@) == put_together(
                self.trie@,
                segmentation::known(self.syllable_freq, self.base_syllables),
                input@,
                config.options.auto_sentence_min_syllables,
            ),
    {
        let none: Vec<Candidate> = Vec::new();
        proof {
            assert(candidate::cands(none@) =~= Seq::<Cand>::empty());
        }
        let base = segment_base(input, self.syllable_freq, self.base_syllables);
        let n = base.len();
        let ghost b = text::texts(base@);
        let min = config.options.auto_sentence_min_syllables;
        if n < 2 || n > 12 || (n as u32) < min {
            return none;
        }
        let letters = join_between(base.as_slice(), 0, n - 1);
        if self.trie.has_longer_match(letters.as_str()) {
            return none;
        }
        let mut current: Vec<Cut> = Vec::new();
        let mut ways: Vec<Vec<Cut>> = Vec::new();
        backtrack_partitions(base.as_slice(), 0, &mut current, &mut ways, self.trie);
        let ghost w = ways_from(self.trie@, b, 0);
        proof {
            assert(behind(Seq::empty(), w) =~= w) by {
                assert forall|i: int| 0 <= i < w.len() implies Seq::<Cut>::empty() + #[trigger] w[i]
                    == w[i] by {
                    assert(Seq::<Cut>::empty() + w[i] =~= w[i]);
                }
            }
            assert(cuts(ways@) =~= w);
            lemma_ways_within(self.trie@, b, 0);
        }
        let max = if ways.len() < MAX_WAYS {
            ways.len()
        } else {
            MAX_WAYS
        };
        let l = make_sentences(self.trie, self.syllable_freq, base.as_slice(), &ways, max);
        rank_sentences(l)
    }
}

/// What the dictionary says of a word of the user: its traditional form, gloss and strokes.
pub open spec fn word_info(t: Option<TrieView>, key: Seq<char>, word: Seq<char>) -> (
    Seq<char>,
    Seq<char>,
    Seq<char>,
) {
    let known = match t {
        Some(t) => chinese::entry_with(t.exact(key), word),
        None => None,
    };
    match known {
        Some(e) => (
            if e.trad.len() == 0 {
                word
            } else {
                e.trad
            },
            e.en,
            e.stroke_aux,
        ),
        None => (word, Seq::empty(), Seq::empty()),
    }
}

/// The candidate for a word of the user, under the letters or under a key that begins with them.
pub open spec fn user_word(t: Option<TrieView>, key: Seq<char>, w: (Seq<char>, u32), exact: bool) -> Cand {
    let (traditional, english_aux, stroke_aux) = word_info(t, key, w.0);
    Cand {
        text: w.0,
        simplified: w.0,
        traditional,
        hint: if exact {
            "User"@
        } else {
            key
        },
        english_aux,
        stroke_aux,
        source: "User"@,
        weight: if exact {
            (w.1 * 1000) as i64
        } else {
            (w.1 * 800) as i64
        },
        match_level: if exact {
            3
        } else {
            0
        },
        flags: 0,
    }
}

/// The candidates for the words under the letters.
pub open spec fn exact_words(t: Option<TrieView>, key: Seq<char>, l: Seq<(Seq<char>, u32)>) -> Seq<
    Cand,
> {
    l.map_values(|w: (Seq<char>, u32)| user_word(t, key, w, true))
}

/// Candidates with the first `n` words under a key that begins with the letters, each once.
pub open spec fn with_words(
    s: Seq<Cand>,
    t: Option<TrieView>,
    key: Seq<char>,
    l: Seq<(Seq<char>, u32)>,
    n: int,
) -> Seq<Cand>
    decreases n,
{
    if n <= 0 {
        s
    } else {
        crate::translators::with_new(
            with_words(s, t, key, l, n - 1),
            user_word(t, key, l[n - 1], false),
        )
    }
}

/// The candidates for the words under the first `n` keys.
pub open spec fn words_under_keys(t: Option<TrieView>, p: userdict::ProfileWords, n: int) -> Seq<Cand>
    decreases n,
{
    if n <= 0 {
        Seq::empty()
    } else {
        let l = p[n - 1].1;
        with_words(words_under_keys(t, p, n - 1), t, p[n - 1].0, l, l.len() as int)
    }
}

/// Whether a key begins with letters.
pub open spec fn key_begins(query: Seq<char>) -> spec_fn((Seq<char>, Seq<(Seq<char>, u32)>)) -> bool {
    |e: (Seq<char>, Seq<(Seq<char>, u32)>)| text::begins(e.0, query)
}

/// Whether a key has fewer bytes than another.
pub open spec fn shorter_key() -> spec_fn(
    (Seq<char>, Seq<(Seq<char>, u32)>),
    (Seq<char>, Seq<(Seq<char>, u32)>),
) -> bool {
    |a: (Seq<char>, Seq<(Seq<char>, u32)>), b: (Seq<char>, Seq<(Seq<char>, u32)>)|
        text::byte_len(a.0) < text::byte_len(b.0)
}

/// The candidates for the words of the user: those under the letters, or else those under keys
/// that begin with them, shorter keys first. Letters without a vowel have none.
pub open spec fn user_words(
    d: userdict::UserWords,
    profile: Seq<char>,
    t: Option<TrieView>,
    query: Seq<char>,
) -> Seq<Cand> {
    match strmap::lookup(d, profile) {
        Some(p) => if !chinese::has_vowel(query) {
            Seq::empty()
        } else {
            match strmap::lookup(p, query) {
                Some(l) => exact_words(t, query, l),
                None => {
                    let keys = order::arranged(p.filter(key_begins(query)), shorter_key());
                    words_under_keys(t, keys, keys.len() as int)
                },
            }
        },
        None => Seq::empty(),
    }
}

/// A dictionary that may be missing.
pub open spec fn opt_trie(t: Option<&Trie>) -> Option<TrieView> {
    match t {
        Some(t) => Some(t@),
        None => None,
    }
}

/// What the dictionary says of a word of the user.
fn lookup_trie_info(trie: Option<&Trie>, pinyin: &str, word: &str) -> (r: (String, String, String))
    ensures
        (r.0@, r.1@, r.2@) == word_info(opt_trie(trie), pinyin@, word@),
{
    if let Some(t) = trie {
        if let Some(es) = t.get_all_exact(pinyin) {
            if let Some(e) = find_entry(&es, word) {
                let trad = if is_blank(e.trad) {
                    word.to_owned()
                } else {
                    e.trad.to_owned()
                };
                return (trad, e.en.to_owned(), e.stroke_aux.to_owned());
            }
        } else {
            proof {
                assert(chinese::entry_with(t@.exact(pinyin@), word@) is None);
            }
        }
    }
    let none = String::new();
    proof {
        assert(none@ =~= Seq::<char>::empty());
    }
    (word.to_owned(), none.clone(), none)
}

/// The candidate for a word of the user.
fn make_user_word(trie: Option<&Trie>, key: &str, w: &(String, u32), exact: bool) -> (r: Candidate)
    ensures
        r@ == user_word(opt_trie(trie), key@, (w.0@, w.1), exact),
{
    let (traditional, english_aux, stroke_aux) = lookup_trie_info(trie, key, w.0.as_str());
    Candidate {
        text: w.0.clone(),
        simplified: w.0.clone(),
        traditional,
        hint: if exact {
            "User".to_owned()
        } else {
            key.to_owned()
        },
        english_aux,
        stroke_aux,
        source: "User".to_owned(),
        weight: if exact {
            w.1 as i64 * 1000
        } else {
            w.1 as i64 * 800
        },
        match_level: if exact {
            3
        } else {
            0
        },
        flags: 0,
    }
}

/// The candidates for the words under the letters.
fn find_exact_words(trie: Option<&Trie>, key: &str, l: &WordList) -> (r: Vec<Candidate>)
    ensures
        candidate::cands(r@) == exact_words(opt_trie(trie), key@, l@),
{
    let ghost s = exact_words(opt_trie(trie), key@, l@);
    let v = &l.words;
    let mut out: Vec<Candidate> = Vec::new();
    let mut i: usize = 0;
    proof {
        assert(candidate::cands(out@) =~= s.take(0));
    }
    while i < v.len()
        invariant
            i <= v.len(),
            v@ == l.words@,
            s == exact_words(opt_trie(trie), key@, l@),
            s.len() == v@.len(),
            candidate::cands(out@) == s.take(i as int),
        decreases v.len() - i,
    {
        let ghost was = candidate::cands(out@);
        let c = make_user_word(trie, key, &v[i], true);
        out.push(c);
        proof {
            assert(l@[i as int] == (v@[i as int].0@, v@[i as int].1));
            assert(candidate::cands(out@) =~= was.push(c@));
            assert(s.take(i + 1) =~= s.take(i as int).push(s[i as int]));
        }
        i = i + 1;
    }
    proof {
        assert(s.take(s.len() as int) =~= s);
    }
    out
}

/// Adds the words under a key that begins with the letters, each once.
fn add_words(out: &mut Vec<Candidate>, trie: Option<&Trie>, key: &str, l: &WordList)
    ensures
        candidate::cands(final(out)@) == with_words(
            candidate::cands(old(out)@),
            opt_trie(trie),
            key@,
            l@,
            l@.len() as int,
        ),
{
    let ghost s = candidate::cands(out@);
    let v = &l.words;
    let mut i: usize = 0;
    while i < v.len()
        invariant
            i <= v.len(),
            v@ == l.words@,
            candidate::cands(out@) == with_words(s, opt_trie(trie), key@, l@, i as int),
        decreases v.len() - i,
    {
        proof {
            assert(l@[i as int] == (v@[i as int].0@, v@[i as int].1));
        }
        add_new(out, make_user_word(trie, key, &v[i], false));
        i = i + 1;
    }
}

/// A key and its words, as texts.
spec fn entry_views(v: Seq<(String, WordList)>) -> userdict::ProfileWords {
    v.map_values(|e: (String, WordList)| (e.0@, e.1@))
}

/// Whether a key has fewer bytes than another.
fn is_shorter_key(a: &(String, WordList), b: &(String, WordList)) -> (r: bool)
    ensures
        r == (text::byte_len(a.0@) < text::byte_len(b.0@)),
{
    a.0.as_str().as_bytes().len() < b.0.as_str().as_bytes().len()
}

/// The keys that begin with letters, shorter ones first.
fn find_keys(p: &ProfileDict, query: &str) -> (r: Vec<(String, WordList)>)
    ensures
        entry_views(r@) == order::arranged(p@.filter(key_begins(query@)), shorter_key()),
{
    let ghost s = p@;
    let ghost want = key_begins(query@);
    let v = &p.entries;
    let mut out: Vec<(String, WordList)> = Vec::new();
    let mut i: usize = 0;
    proof {
        reveal(Seq::filter);
        assert(entry_views(out@) =~= s.take(0).filter(want));
    }
    while i < v.len()
        invariant
            i <= v.len(),
            v@ == p.entries@,
            s == p@,
            want == key_begins(query@),
            entry_views(out@) == s.take(i as int).filter(want),
        decreases v.len() - i,
    {
        let ghost was = entry_views(out@);
        proof {
            reveal(Seq::filter);
            assert(s[i as int] == (v@[i as int].0@, v@[i as int].1@));
            assert(s.take(i + 1).drop_last() =~= s.take(i as int));
            assert(s.take(i + 1).last() == s[i as int]);
        }
        if starts_with(v[i].0.as_str(), query) {
            let e = (v[i].0.clone(), v[i].1.copy());
            out.push(e);
            proof {
                assert(entry_views(out@) =~= was.push((e.0@, e.1@)));
            }
        }
        i = i + 1;
    }
    let ghost all = out@;
    let ghost g = |e: (String, WordList)| (e.0@, e.1@);
    let ghost lt = |a: (String, WordList), b: (String, WordList)|
        text::byte_len(a.0@) < text::byte_len(b.0@);
    proof {
        assert(s.take(s.len() as int) =~= s);
    }
    sort_stable(&mut out, is_shorter_key, Ghost(lt));
    proof {
        order::lemma_arranged_map(all, g, lt, shorter_key());
        assert(entry_views(all) =~= all.map_values(g));
        assert(entry_views(out@) =~= out@.map_values(g));
    }
    out
}

/// A translator that knows the words of the user.
pub struct UserDictTranslator<'a> {
    pub user_dict: &'a UserDictData,
    pub profile: String,
    pub trie: Option<&'a Trie>,
}

impl<'a> UserDictTranslator<'a> {
    /// The candidates for the words of the user.
    pub fn translate(&self, segments: &[String]) -> (r: Vec<Candidate>)
        ensures
            candidate::cands(r@) == user_words(
                self.user_dict@,
                self.profile@,
                opt_trie(self.trie),
                segmentation::joined(text::texts(segments@)),
            ),
    {
        let mut out: Vec<Candidate> = Vec::new();
        proof {
            assert(candidate::cands(out@) =~= Seq::<Cand>::empty());
        }
        let query = join_texts(segments);
        let p = match self.user_dict.get(self.profile.as_str()) {
            Some(p) => p,
            None => return out,
        };
        if !holds_vowel(query.as_str()) {
            return out;
        }
        if let Some(l) = p.get(query.as_str()) {
            return find_exact_words(self.trie, query.as_str(), l);
        }
        let keys = find_keys(p, query.as_str());
        let ghost kv = entry_views(keys@);
        let mut i: usize = 0;
        while i < keys.len()
            invariant
                i <= keys.len(),
                kv == entry_views(keys@),
                candidate::cands(out@) == words_under_keys(opt_trie(self.trie), kv, i as int),
            decreases keys.len() - i,
        {
            proof {
                assert(kv[i as int] == (keys@[i as int].0@, keys@[i as int].1@));
            }
            add_words(&mut out, self.trie, keys[i].0.as_str(), &keys[i].1);
            i = i + 1;
        }
        out
    }
}

} // verus!
