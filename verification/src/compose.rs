//! Sentences out of words: the words that fit stretches of the input, and the best rows of
//! them.

use vstd::prelude::*;
use crate::chinese;
use crate::chinese::{is_initial, ChineseScheme};
use crate::order;
use crate::order::sort_stable;
use crate::segmentation;
use crate::segmentation::DefaultSegmentor;
use crate::strmap;
use crate::tables::{FreqTable, WordSet};
use crate::text;
use crate::text::chars_of;
use crate::trie;
use crate::trie::{sort_by_weight, Trie, TrieResult, TrieView};
use crate::userdict;
use crate::userdict::UserDictData;

verus! {

/// How many words are kept for a stretch of the input.
pub const WORDS_PER_STRETCH: usize = 3;

/// How many segments a word takes at most.
pub const LONGEST_STRETCH: usize = 4;

/// How many rows of words are kept up to a position.
pub const BEAM: usize = 32;

/// How many rows of words are handed out.
pub const BEST_ROWS: usize = 8;

/// A word for a stretch of the input.
pub struct WordSpan {
    pub start: usize,
    pub end: usize,
    pub word: String,
    pub pinyin: String,
    pub initial_count: u8,
}

/// A word for a stretch of the input.
#[verifier::ext_equal]
pub struct Span {
    pub start: int,
    pub end: int,
    pub word: Seq<char>,
    pub pinyin: Seq<char>,
    pub initial_count: int,
}

impl View for WordSpan {
    type V = Span;

    open spec fn view(&self) -> Span {
        Span {
            start: self.start as int,
            end: self.end as int,
            word: self.word@,
            pinyin: self.pinyin@,
            initial_count: self.initial_count as int,
        }
    }
}

/// The stretches of a list of words.
pub open spec fn spans(v: Seq<WordSpan>) -> Seq<Span> {
    v.map_values(|s: WordSpan| s@)
}

/// A row of words, with its score in thousandths.
pub struct ComposePath {
    pub words: Vec<WordSpan>,
    pub score: u128,
}

/// A row of words, with its score in thousandths.
#[verifier::ext_equal]
pub struct Row {
    pub words: Seq<Span>,
    pub score: u128,
}

impl View for ComposePath {
    type V = Row;

    open spec fn view(&self) -> Row {
        Row { words: spans(self.words@), score: self.score }
    }
}

/// The rows of a list.
pub open spec fn rows(v: Seq<ComposePath>) -> Seq<Row> {
    v.map_values(|p: ComposePath| p@)
}

/// The pieces into which the input is cut for composing: the best way, or else the cut of
/// an abbreviation. With each piece goes whether it is an initial.
pub open spec fn pieces(t: TrieView, k: segmentation::Syllables, input: Seq<char>) -> Seq<
    (Seq<char>, bool),
> {
    let cut = segmentation::viterbi(k, input);
    if cut.len() == 0 {
        chinese::abbreviated(t, input, 0)
    } else {
        cut.map_values(
            |s: Seq<char>|
                (s, text::byte_len(s) <= 2 && !k.base.contains(s) && chinese::initial(s)),
        )
    }
}

/// The texts of some pieces.
pub open spec fn piece_texts(segs: Seq<(Seq<char>, bool)>) -> Seq<Seq<char>> {
    segs.map_values(|s: (Seq<char>, bool)| s.0)
}

/// How many of some pieces are initials.
pub open spec fn initials(segs: Seq<(Seq<char>, bool)>) -> int
    decreases segs.len(),
{
    if segs.len() == 0 {
        0
    } else {
        initials(segs.drop_last()) + if segs.last().1 {
            1int
        } else {
            0int
        }
    }
}

/// The heaviest entries.
pub open spec fn heaviest(found: Seq<trie::Entry>) -> Seq<trie::Entry> {
    order::arranged(found, trie::heavier()).take(
        trie::least(WORDS_PER_STRETCH as int, found.len() as int),
    )
}

/// The words for the `k` segments from a place on. A single initial has none.
pub open spec fn stretch(
    t: TrieView,
    segs: Seq<(Seq<char>, bool)>,
    base: Set<Seq<char>>,
    start: int,
    k: int,
) -> Seq<Span> {
    let part = segs.subrange(start, start + k);
    let count = initials(part);
    let pinyin = segmentation::joined(piece_texts(part));
    if k == 1 && count > 0 {
        Seq::empty()
    } else {
        let found = if count > 0 {
            t.abbreviation_mixed(part, base)
        } else {
            t.exact(pinyin)
        };
        heaviest(found).map_values(
            |e: trie::Entry|
                Span { start, end: start + k, word: e.word, pinyin, initial_count: count },
        )
    }
}

/// The words for one to `k` segments from a place on.
pub open spec fn stretches(
    t: TrieView,
    segs: Seq<(Seq<char>, bool)>,
    base: Set<Seq<char>>,
    start: int,
    k: int,
) -> Seq<Span>
    decreases k,
{
    if k <= 0 {
        Seq::empty()
    } else {
        stretches(t, segs, base, start, k - 1) + stretch(t, segs, base, start, k)
    }
}

/// The words for all stretches that begin before a place.
pub open spec fn word_graph(
    t: TrieView,
    segs: Seq<(Seq<char>, bool)>,
    base: Set<Seq<char>>,
    n: int,
) -> Seq<Span>
    decreases n,
{
    if n <= 0 {
        Seq::empty()
    } else {
        word_graph(t, segs, base, n - 1) + stretches(
            t,
            segs,
            base,
            n - 1,
            trie::least(LONGEST_STRETCH as int, segs.len() - (n - 1)),
        )
    }
}

/// How often a word has followed another.
pub open spec fn followed(
    ngram: userdict::UserWords,
    profile: Seq<char>,
    last: Seq<char>,
    word: Seq<char>,
) -> int {
    match userdict::words_under(ngram, profile, last) {
        None => 0,
        Some(l) => match strmap::lookup(l, word) {
            None => 0,
            Some(c) => c as int,
        },
    }
}

/// What a word adds to the score of a row, in thousandths: the score of its syllables, two
/// hundred for each character beyond the first, five thousand for each of two or more
/// initials, and five hundred for each time, up to ten, that it has followed the word before.
pub open spec fn gain(
    scores: Map<Seq<char>, u64>,
    ngram: userdict::UserWords,
    profile: Seq<char>,
    row: Row,
    span: Span,
) -> int {
    let syllables = if scores.contains_key(span.pinyin) {
        scores[span.pinyin] as int
    } else {
        0int
    };
    let length = 200000 * trie::most(0, span.word.len() - 1);
    let abbreviation = if span.initial_count >= 2 {
        5000000 * span.initial_count
    } else {
        0int
    };
    let habit = if row.words.len() > 0 {
        500000 * trie::least(10, followed(ngram, profile, row.words.last().word, span.word))
    } else {
        0int
    };
    syllables + length + abbreviation + habit
}

/// A row with one more word. The score stays at the highest number there is.
pub open spec fn lengthened(
    scores: Map<Seq<char>, u64>,
    ngram: userdict::UserWords,
    profile: Seq<char>,
    row: Row,
    span: Span,
) -> Row {
    Row {
        words: row.words.push(span),
        score: trie::least(u128::MAX as int, row.score + gain(scores, ngram, profile, row, span)) as u128,
    }
}

/// Whether a row scores higher than another.
pub open spec fn scores_higher() -> spec_fn(Row, Row) -> bool {
    |a: Row, b: Row| a.score > b.score
}

/// The best of some rows.
pub open spec fn best_rows(v: Seq<Row>, n: int) -> Seq<Row> {
    order::arranged(v, scores_higher()).take(trie::least(n, v.len() as int))
}

/// What is known of the words that have been typed.
pub struct Habit {
    pub scores: Map<Seq<char>, u64>,
    pub ngram: userdict::UserWords,
    pub profile: Seq<char>,
}

/// The rows up to each position, once the first `g` words of a graph have been put behind the
/// rows that end where they begin, at `i`.
pub open spec fn continued(
    h: Habit,
    graph: Seq<Span>,
    table: Seq<Seq<Row>>,
    at_i: Seq<Row>,
    i: int,
    g: int,
) -> Seq<Seq<Row>>
    decreases g,
{
    if g <= 0 {
        table
    } else {
        let before = continued(h, graph, table, at_i, i, g - 1);
        let span = graph[g - 1];
        if span.start == i && span.end < table.len() {
            before.update(
                span.end,
                before[span.end] + at_i.map_values(
                    |row: Row| lengthened(h.scores, h.ngram, h.profile, row, span),
                ),
            )
        } else {
            before
        }
    }
}

/// The rows up to each position when the positions before `i` have been gone through. Behind
/// a position that no row reaches, nothing is sorted.
pub open spec fn advanced(h: Habit, graph: Seq<Span>, n: int, i: int) -> Seq<Seq<Row>>
    decreases i,
{
    if i <= 0 {
        Seq::new((n + 1) as nat, |k: int| Seq::<Row>::empty()).update(
            0,
            seq![Row { words: Seq::empty(), score: 0 }],
        )
    } else {
        let table = advanced(h, graph, n, i - 1);
        if table[i - 1].len() == 0 {
            table
        } else {
            let more = continued(h, graph, table, table[i - 1], i - 1, graph.len() as int);
            more.update(i, best_rows(more[i], BEAM as int))
        }
    }
}

/// The best rows of words over all segments.
pub open spec fn composed_rows(h: Habit, graph: Seq<Span>, n: int) -> Seq<Row> {
    best_rows(advanced(h, graph, n, n)[n], BEST_ROWS as int)
}

/// The best rows of words for an input. Fewer than two segments give none.
pub open spec fn composed(
    t: TrieView,
    k: segmentation::Syllables,
    h: Habit,
    input: Seq<char>,
) -> Seq<Row> {
    let segs = pieces(t, k, input);
    if segs.len() < 2 {
        Seq::empty()
    } else {
        composed_rows(h, word_graph(t, segs, k.base, segs.len() as int), segs.len() as int)
    }
}

/// Cuts a row of syllables.
pub fn segment_syllables(pinyin: &str, syllable_freq: &FreqTable, base_syllables: &WordSet) -> (r:
    Vec<String>)
    ensures
        text::texts(r@) == segmentation::viterbi(
            segmentation::known(syllable_freq, base_syllables),
            pinyin@,
        ),
{
    DefaultSegmentor::viterbi_segment(pinyin, syllable_freq, base_syllables)
}

/// Cuts the input for composing.
pub fn segment_for_compose(
    input: &str,
    trie: &Trie,
    syllable_freq: &FreqTable,
    base_syllables: &WordSet,
) -> (r: Vec<(String, bool)>)
    ensures
        trie::segments(r@) == pieces(
            trie@,
            segmentation::known(syllable_freq, base_syllables),
            input@,
        ),
{
    let cut = DefaultSegmentor::viterbi_segment(input, syllable_freq, base_syllables);
    let ghost k = segmentation::known(syllable_freq, base_syllables);
    let ghost all = pieces(trie@, k, input@);
    if cut.len() == 0 {
        return ChineseScheme::segment_for_abbreviation(input, trie);
    }
    let mut out: Vec<(String, bool)> = Vec::new();
    let mut i: usize = 0;
    proof {
        assert(trie::segments(out@) =~= all.take(0));
    }
    while i < cut.len()
        invariant
            i <= cut.len(),
            k == segmentation::known(syllable_freq, base_syllables),
            text::texts(cut@) == segmentation::viterbi(k, input@),
            cut@.len() > 0,
            all == pieces(trie@, k, input@),
            trie::segments(out@) == all.take(i as int),
        decreases cut.len() - i,
    {
        let s = cut[i].clone();
        let is_init = s.as_str().as_bytes().len() <= 2 && !base_syllables.contains(s.as_str())
            && is_initial(s.as_str());
        let ghost was = trie::segments(out@);
        out.push((s, is_init));
        proof {
            assert(text::texts(cut@)[i as int] == s@);
            assert(all[i as int] == (s@, is_init));
            assert(trie::segments(out@) =~= was.push((s@, is_init)));
            assert(all.take(i + 1) =~= all.take(i as int).push(all[i as int]));
        }
        i = i + 1;
    }
    proof {
        assert(all.take(all.len() as int) =~= all);
    }
    out
}

impl WordSpan {
    /// A copy of the word.
    pub fn copy(&self) -> (r: WordSpan)
        ensures
            r@ == self@,
    {
        WordSpan {
            start: self.start,
            end: self.end,
            word: self.word.clone(),
            pinyin: self.pinyin.clone(),
            initial_count: self.initial_count,
        }
    }
}

impl ComposePath {
    /// A copy of the row.
    pub fn copy(&self) -> (r: ComposePath)
        ensures
            r@ == self@,
    {
        let mut words: Vec<WordSpan> = Vec::new();
        let mut i: usize = 0;
        let ghost s = spans(self.words@);
        proof {
            assert(spans(words@) =~= s.take(0));
        }
        while i < self.words.len()
            invariant
                i <= self.words.len(),
                s == spans(self.words@),
                spans(words@) == s.take(i as int),
            decreases self.words.len() - i,
        {
            let ghost was = spans(words@);
            let w = self.words[i].copy();
            words.push(w);
            proof {
                assert(spans(words@) =~= was.push(w@));
                assert(s.take(i + 1) =~= s.take(i as int).push(s[i as int]));
            }
            i = i + 1;
        }
        proof {
            assert(s.take(s.len() as int) =~= s);
        }
        ComposePath { words, score: self.score }
    }
}

/// Copies the pieces from one place of a list to another, joins them, and counts the
/// initials.
fn take_pieces(segs: &[(String, bool)], start: usize, end: usize) -> (r: (
    Vec<(String, bool)>,
    String,
    usize,
))
    requires
        start <= end <= segs@.len(),
    ensures
        trie::segments(r.0@) == trie::segments(segs@).subrange(start as int, end as int),
        r.1@ == segmentation::joined(
            piece_texts(trie::segments(segs@).subrange(start as int, end as int)),
        ),
        r.2 == initials(trie::segments(segs@).subrange(start as int, end as int)),
        r.2 <= end - start,
{
    let ghost s = trie::segments(segs@);
    let mut part: Vec<(String, bool)> = Vec::new();
    let mut pinyin = String::new();
    let mut count: usize = 0;
    let mut j: usize = start;
    proof {
        assert(s.subrange(start as int, start as int) =~= Seq::<(Seq<char>, bool)>::empty());
        assert(trie::segments(part@) =~= Seq::<(Seq<char>, bool)>::empty());
        assert(piece_texts(Seq::<(Seq<char>, bool)>::empty()) =~= Seq::<Seq<char>>::empty());
    }
    while j < end
        invariant
            start <= j <= end <= segs@.len(),
            s == trie::segments(segs@),
            trie::segments(part@) == s.subrange(start as int, j as int),
            pinyin@ == segmentation::joined(piece_texts(s.subrange(start as int, j as int))),
            count == initials(s.subrange(start as int, j as int)),
            count <= j - start,
        decreases end - j,
    {
        let ghost was = trie::segments(part@);
        let piece = (segs[j].0.clone(), segs[j].1);
        proof {
            let next = s.subrange(start as int, j + 1);
            assert(next.drop_last() =~= s.subrange(start as int, j as int));
            assert(next.last() == (segs@[j as int].0@, segs@[j as int].1));
            assert(piece_texts(next).drop_last() =~= piece_texts(next.drop_last()));
            assert(next =~= was.push((piece.0@, piece.1)));
        }
        pinyin.append(piece.0.as_str());
        if piece.1 {
            count = count + 1;
        }
        part.push(piece);
        proof {
            assert(trie::segments(part@) =~= was.push((segs@[j as int].0@, segs@[j as int].1)));
        }
        j = j + 1;
    }
    (part, pinyin, count)
}

/// Adds the heaviest of some entries to a graph.
fn add_heaviest<'a>(
    graph: &mut Vec<WordSpan>,
    found: Vec<TrieResult<'a>>,
    start: usize,
    end: usize,
    pinyin: &str,
    count: u8,
)
    ensures
        spans(final(graph)@) == spans(old(graph)@) + heaviest(trie::views(found@)).map_values(
            |e: trie::Entry|
                Span {
                    start: start as int,
                    end: end as int,
                    word: e.word,
                    pinyin: pinyin@,
                    initial_count: count as int,
                },
        ),
{
    let ghost entries = trie::views(found@);
    let mut found = found;
    sort_by_weight(&mut found);
    let ghost all = trie::views(found@);
    let ghost was = spans(graph@);
    let ghost f = |e: trie::Entry|
        Span {
            start: start as int,
            end: end as int,
            word: e.word,
            pinyin: pinyin@,
            initial_count: count as int,
        };
    let top = if found.len() < WORDS_PER_STRETCH {
        found.len()
    } else {
        WORDS_PER_STRETCH
    };
    let mut i: usize = 0;
    proof {
        order::law_arranged_keeps_items(entries, trie::heavier());
        assert(all.len() == entries.len());
        assert(was + all.take(0).map_values(f) =~= was);
    }
    while i < top
        invariant
            i <= top <= found@.len(),
            all == trie::views(found@),
            f == (|e: trie::Entry|
                Span {
                    start: start as int,
                    end: end as int,
                    word: e.word,
                    pinyin: pinyin@,
                    initial_count: count as int,
                }),
            spans(graph@) == was + all.take(i as int).map_values(f),
        decreases top - i,
    {
        let ghost now = spans(graph@);
        let span = WordSpan {
            start,
            end,
            word: found[i].word.to_owned(),
            pinyin: pinyin.to_owned(),
            initial_count: count,
        };
        graph.push(span);
        proof {
            assert(spans(graph@) =~= now.push(span@));
            assert(all[i as int] == found@[i as int]@);
            assert(span@ == f(all[i as int]));
            assert(was + all.take(i + 1).map_values(f) =~= (was + all.take(i as int).map_values(f)).push(
                f(all[i as int]),
            ));
        }
        i = i + 1;
    }
}

/// The words for all stretches of the pieces.
pub fn build_word_graph(segments: &[(String, bool)], trie: &Trie, base_syllables: &WordSet) -> (r:
    Vec<WordSpan>)
    ensures
        spans(r@) == word_graph(
            trie@,
            trie::segments(segments@),
            base_syllables@,
            segments@.len() as int,
        ),
{
    let n = segments.len();
    let ghost s = trie::segments(segments@);
    let ghost t = trie@;
    let ghost base = base_syllables@;
    let mut graph: Vec<WordSpan> = Vec::new();
    let mut start: usize = 0;
    proof {
        assert(spans(graph@) =~= Seq::<Span>::empty());
    }
    while start < n
        invariant
            start <= n,
            n == segments@.len(),
            s == trie::segments(segments@),
            t == trie@,
            base == base_syllables@,
            spans(graph@) == word_graph(t, s, base, start as int),
        decreases n - start,
    {
        let max_k: usize = if n - start < LONGEST_STRETCH {
            n - start
        } else {
            LONGEST_STRETCH
        };
        let ghost was = spans(graph@);
        let mut k: usize = 1;
        proof {
            assert(was + stretches(t, s, base, start as int, 0) =~= was);
        }
        while k <= max_k
            invariant
                1 <= k <= max_k + 1,
                max_k <= LONGEST_STRETCH,
                max_k <= n - start,
                start < n,
                n == segments@.len(),
                s == trie::segments(segments@),
                t == trie@,
                base == base_syllables@,
                spans(graph@) == was + stretches(t, s, base, start as int, k - 1),
            decreases max_k + 1 - k,
        {
            let ghost now = spans(graph@);
            let ghost before = stretches(t, s, base, start as int, k - 1);
            let ghost here = stretch(t, s, base, start as int, k as int);
            let end = start + k;
            let (part, pinyin, count) = take_pieces(segments, start, end);
            if k == 1 && count > 0 {
                proof {
                    assert(now + here =~= now);
                }
            } else if count > 0 {
                let found = trie.search_abbreviation_mixed(part.as_slice(), 200, base_syllables);
                add_heaviest(&mut graph, found, start, end, pinyin.as_str(), count as u8);
                proof {
                    assert(spans(graph@) =~= now + here);
                }
            } else {
                match trie.get_all_exact(pinyin.as_str()) {
                    Some(found) => {
                        add_heaviest(&mut graph, found, start, end, pinyin.as_str(), count as u8);
                        proof {
                            assert(spans(graph@) =~= now + here);
                        }
                    },
                    None => {
                        proof {
                            order::law_arranged_keeps_items(t.exact(pinyin@), trie::heavier());
                            assert(here =~= Seq::<Span>::empty());
                            assert(now + here =~= now);
                        }
                    },
                }
            }
            proof {
                assert(was + (before + here) =~= (was + before) + here);
            }
            k = k + 1;
        }
        start = start + 1;
    }
    graph
}

/// The rows of each list of a table.
pub open spec fn row_table(v: Seq<Vec<ComposePath>>) -> Seq<Seq<Row>> {
    v.map_values(|p: Vec<ComposePath>| rows(p@))
}

/// How often a word has followed another.
fn times_followed(ngram: &UserDictData, profile: &str, last: &str, word: &str) -> (r: u32)
    ensures
        r == followed(ngram@, profile@, last@, word@),
{
    match ngram.get(profile) {
        None => 0,
        Some(p) => match p.get(last) {
            None => 0,
            Some(l) => match l.count_of(word) {
                None => 0,
                Some(c) => c,
            },
        },
    }
}

/// Puts a word behind a row.
fn lengthen(
    row: &ComposePath,
    span: &WordSpan,
    syllable_score: &FreqTable,
    ngram: &UserDictData,
    profile: &str,
) -> (r: ComposePath)
    ensures
        r@ == lengthened(syllable_score@, ngram@, profile@, row@, span@),
{
    let copy = row.copy();
    let mut words = copy.words;
    let ghost ws = spans(words@);
    let syllables: u128 = match syllable_score.get(span.pinyin.as_str()) {
        Some(f) => f as u128,
        None => 0,
    };
    let chars = chars_of(span.word.as_str()).len();
    let length: u128 = if chars > 1 {
        200000 * ((chars - 1) as u128)
    } else {
        0
    };
    let abbreviation: u128 = if span.initial_count >= 2 {
        5000000 * (span.initial_count as u128)
    } else {
        0
    };
    let habit: u128 = if words.len() > 0 {
        proof {
            assert(ws.last() == words@.last()@);
        }
        let times = times_followed(
            ngram,
            profile,
            words[words.len() - 1].word.as_str(),
            span.word.as_str(),
        );
        if times < 10 {
            500000 * (times as u128)
        } else {
            5000000
        }
    } else {
        0
    };
    let more = syllables + length + abbreviation + habit;
    let score = if u128::MAX - row.score < more {
        u128::MAX
    } else {
        row.score + more
    };
    let w = span.copy();
    words.push(w);
    proof {
        assert(spans(words@) =~= ws.push(w@));
        assert(ws == row@.words);
        assert(more == gain(syllable_score@, ngram@, profile@, row@, span@));
    }
    ComposePath { words, score }
}

/// Whether a row scores higher than another.
fn is_higher(a: &ComposePath, b: &ComposePath) -> (r: bool)
    ensures
        r == (a.score > b.score),
{
    a.score > b.score
}

proof fn lemma_placed_rows(x: ComposePath, s: Seq<ComposePath>)
    ensures
        rows(order::placed(x, s, |a: ComposePath, b: ComposePath| a.score > b.score))
            == order::placed(x@, rows(s), scores_higher()),
    decreases s.len(),
{
    let before = |a: ComposePath, b: ComposePath| a.score > b.score;
    if s.len() == 0 || !before(s[0], x) {
        assert(rows(seq![x] + s) =~= seq![x@] + rows(s));
        if s.len() > 0 {
            assert(rows(s)[0] == s[0]@);
        }
    } else {
        lemma_placed_rows(x, s.drop_first());
        assert(rows(s)[0] == s[0]@);
        assert(rows(s.drop_first()) =~= rows(s).drop_first());
        let t = order::placed(x, s.drop_first(), before);
        assert(rows(seq![s[0]] + t) =~= seq![s[0]@] + rows(t));
    }
}

proof fn lemma_arranged_rows(s: Seq<ComposePath>)
    ensures
        rows(order::arranged(s, |a: ComposePath, b: ComposePath| a.score > b.score))
            == order::arranged(rows(s), scores_higher()),
    decreases s.len(),
{
    let before = |a: ComposePath, b: ComposePath| a.score > b.score;
    if s.len() == 0 {
        assert(rows(s) =~= Seq::<Row>::empty());
    } else {
        lemma_arranged_rows(s.drop_first());
        lemma_placed_rows(s[0], order::arranged(s.drop_first(), before));
        assert(rows(s.drop_first()) =~= rows(s).drop_first());
        assert(rows(s)[0] == s[0]@);
    }
}

/// Keeps the best of some rows.
fn keep_best(v: &mut Vec<ComposePath>, n: usize)
    ensures
        rows(final(v)@) == best_rows(rows(old(v)@), n as int),
{
    let ghost s = v@;
    let ghost before = |a: ComposePath, b: ComposePath| a.score > b.score;
    sort_stable(v, is_higher, Ghost(before));
    proof {
        lemma_arranged_rows(s);
        order::law_arranged_keeps_items(s, before);
        assert(rows(v@).len() == rows(s).len());
    }
    let ghost all = v@;
    if n < v.len() {
        v.truncate(n);
        proof {
            assert(rows(v@) =~= rows(all).take(n as int));
        }
    } else {
        proof {
            assert(rows(v@) =~= rows(all).take(all.len() as int));
        }
    }
}

/// Copies some rows.
fn copy_rows(v: &Vec<ComposePath>) -> (r: Vec<ComposePath>)
    ensures
        rows(r@) == rows(v@),
{
    let mut out: Vec<ComposePath> = Vec::new();
    let mut i: usize = 0;
    let ghost s = rows(v@);
    proof {
        assert(rows(out@) =~= s.take(0));
    }
    while i < v.len()
        invariant
            i <= v.len(),
            s == rows(v@),
            rows(out@) == s.take(i as int),
        decreases v.len() - i,
    {
        let ghost was = rows(out@);
        let p = v[i].copy();
        out.push(p);
        proof {
            assert(rows(out@) =~= was.push(p@));
            assert(s.take(i + 1) =~= s.take(i as int).push(s[i as int]));
        }
        i = i + 1;
    }
    proof {
        assert(s.take(s.len() as int) =~= s);
    }
    out
}

/// Puts a word behind each of some rows, and adds what comes out to others.
fn lengthen_all(
    to: &mut Vec<ComposePath>,
    from: &Vec<ComposePath>,
    span: &WordSpan,
    syllable_score: &FreqTable,
    ngram: &UserDictData,
    profile: &str,
)
    ensures
        rows(final(to)@) == rows(old(to)@) + rows(from@).map_values(
            |row: Row| lengthened(syllable_score@, ngram@, profile@, row, span@),
        ),
{
    let ghost f = |row: Row| lengthened(syllable_score@, ngram@, profile@, row, span@);
    let ghost all = rows(from@);
    let ghost was = rows(to@);
    let mut i: usize = 0;
    proof {
        assert(was + all.take(0).map_values(f) =~= was);
    }
    while i < from.len()
        invariant
            i <= from.len(),
            all == rows(from@),
            f == (|row: Row| lengthened(syllable_score@, ngram@, profile@, row, span@)),
            rows(to@) == was + all.take(i as int).map_values(f),
        decreases from.len() - i,
    {
        let ghost now = rows(to@);
        let p = lengthen(&from[i], span, syllable_score, ngram, profile);
        to.push(p);
        proof {
            assert(rows(to@) =~= now.push(p@));
            assert(p@ == f(all[i as int]));
            assert(was + all.take(i + 1).map_values(f) =~= (was + all.take(i as int).map_values(f)).push(
                f(all[i as int]),
            ));
        }
        i = i + 1;
    }
    proof {
        assert(all.take(all.len() as int) =~= all);
    }
}

/// The best rows of words of a graph over a number of segments.
pub fn viterbi_compose(
    graph: &[WordSpan],
    n_segments: usize,
    syllable_score: &FreqTable,
    ngram: &UserDictData,
    profile: &str,
) -> (r: Vec<ComposePath>)
    ensures
        rows(r@) == composed_rows(
            Habit { scores: syllable_score@, ngram: ngram@, profile: profile@ },
            spans(graph@),
            n_segments as int,
        ),
{
    let ghost h = Habit { scores: syllable_score@, ngram: ngram@, profile: profile@ };
    let ghost g = spans(graph@);
    let ghost n = n_segments as int;
    let mut dp: Vec<Vec<ComposePath>> = Vec::new();
    while dp.len() <= n_segments
        invariant
            dp.len() <= n_segments + 1,
            row_table(dp@) == Seq::new(dp@.len(), |k: int| Seq::<Row>::empty()),
        decreases n_segments + 1 - dp.len(),
    {
        let ghost was = row_table(dp@);
        let fresh: Vec<ComposePath> = Vec::new();
        dp.push(fresh);
        proof {
            assert(rows(fresh@) =~= Seq::<Row>::empty());
            assert(row_table(dp@) =~= was.push(rows(fresh@)));
        }
    }
    let first = ComposePath { words: Vec::new(), score: 0 };
    let mut start: Vec<ComposePath> = Vec::new();
    start.push(first);
    proof {
        assert(spans(first.words@) =~= Seq::<Span>::empty());
        assert(rows(start@) =~= seq![Row { words: Seq::empty(), score: 0 }]);
    }
    dp.set(0, start);
    proof {
        assert(row_table(dp@) =~= advanced(h, g, n, 0));
    }
    let mut i: usize = 0;
    while i < n_segments
        invariant
            i <= n_segments,
            n == n_segments,
            dp@.len() == n + 1,
            h == (Habit { scores: syllable_score@, ngram: ngram@, profile: profile@ }),
            g == spans(graph@),
            row_table(dp@) == advanced(h, g, n, i as int),
        decreases n_segments - i,
    {
        let ghost table = row_table(dp@);
        proof {
            assert(table[i as int] == rows(dp@[i as int]@));
        }
        if dp[i].len() > 0 {
            let at_i = copy_rows(&dp[i]);
            let ghost here = rows(at_i@);
            let mut k: usize = 0;
            while k < graph.len()
                invariant
                    k <= graph@.len(),
                    i < n_segments,
                    n == n_segments,
                    dp@.len() == n + 1,
                    table.len() == n + 1,
                    here == rows(at_i@),
                    h == (Habit { scores: syllable_score@, ngram: ngram@, profile: profile@ }),
                    g == spans(graph@),
                    row_table(dp@) == continued(h, g, table, here, i as int, k as int),
                decreases graph@.len() - k,
            {
                let span = &graph[k];
                proof {
                    assert(g[k as int] == span@);
                }
                if span.start == i && span.end <= n_segments {
                    let end = span.end;
                    let ghost before = row_table(dp@);
                    proof {
                        assert(before[end as int] == rows(dp@[end as int]@));
                    }
                    let to = &mut dp[end];
                    lengthen_all(to, &at_i, span, syllable_score, ngram, profile);
                    proof {
                        let f = |row: Row| lengthened(h.scores, h.ngram, h.profile, row, span@);
                        assert(row_table(dp@) =~= before.update(
                            end as int,
                            before[end as int] + here.map_values(f),
                        ));
                    }
                }
                k = k + 1;
            }
            let ghost more = row_table(dp@);
            proof {
                assert(more[i + 1] == rows(dp@[i + 1]@));
            }
            let next = &mut dp[i + 1];
            keep_best(next, BEAM);
            proof {
                assert(row_table(dp@) =~= more.update(i + 1, best_rows(more[i + 1], BEAM as int)));
            }
        }
        i = i + 1;
    }
    let mut results = copy_rows(&dp[n_segments]);
    proof {
        assert(row_table(dp@)[n] == rows(dp@[n]@));
    }
    keep_best(&mut results, BEST_ROWS);
    results
}

/// The best rows of words for an input.
pub fn compose(
    pinyin: &str,
    trie: &Trie,
    ngram: &UserDictData,
    syllable_freq: &FreqTable,
    syllable_score: &FreqTable,
    base_syllables: &WordSet,
    profile: &str,
) -> (r: Vec<ComposePath>)
    ensures
        rows(r@) == composed(
            trie@,
            segmentation::known(syllable_freq, base_syllables),
            Habit { scores: syllable_score@, ngram: ngram@, profile: profile@ },
            pinyin@,
        ),
{
    let segs = segment_for_compose(pinyin, trie, syllable_freq, base_syllables);
    if segs.len() < 2 {
        let none: Vec<ComposePath> = Vec::new();
        proof {
            assert(rows(none@) =~= Seq::<Row>::empty());
        }
        return none;
    }
    let graph = build_word_graph(segs.as_slice(), trie, base_syllables);
    viterbi_compose(graph.as_slice(), segs.len(), syllable_score, ngram, profile)
}

/// Whether words stand one behind the other from one place to another, without a gap.
pub open spec fn in_a_row(words: Seq<Span>, from: int, to: int) -> bool {
    &&& words.len() == 0 ==> from == to
    &&& words.len() > 0 ==> words[0].start == from && words.last().end == to
    &&& forall|i: int| 0 <= i < words.len() ==> (#[trigger] words[i]).start < words[i].end
    &&& forall|i: int, j: int|
        0 <= i && j == i + 1 && j < words.len() ==> (#[trigger] words[i]).end == (
        #[trigger] words[j]).start
}

/// Whether a word is one for the segments that it takes: it has their letters, and where none of
/// them is an initial it stands in the dictionary under these.
pub open spec fn fits_segments(t: TrieView, segs: Seq<(Seq<char>, bool)>, s: Span) -> bool {
    &&& 0 <= s.start < s.end <= segs.len()
    &&& s.pinyin == segmentation::joined(piece_texts(segs.subrange(s.start, s.end)))
    &&& (forall|j: int| s.start <= j < s.end ==> !(#[trigger] segs[j]).1) ==> trie::has_word(
        t.exact(s.pinyin),
        s.word,
    )
}

proof fn lemma_no_initials(segs: Seq<(Seq<char>, bool)>)
    requires
        forall|j: int| 0 <= j < segs.len() ==> !(#[trigger] segs[j]).1,
    ensures
        initials(segs) == 0,
    decreases segs.len(),
{
    if segs.len() > 0 {
        assert(!segs[segs.len() - 1].1);
        assert forall|j: int| 0 <= j < segs.drop_last().len() implies !(
        #[trigger] segs.drop_last()[j]).1 by {
            assert(segs.drop_last()[j] == segs[j]);
        }
        lemma_no_initials(segs.drop_last());
    }
}

proof fn lemma_stretch_fits(
    t: TrieView,
    segs: Seq<(Seq<char>, bool)>,
    base: Set<Seq<char>>,
    start: int,
    k: int,
    s: Span,
)
    requires
        0 <= start,
        0 < k,
        start + k <= segs.len(),
        stretch(t, segs, base, start, k).contains(s),
    ensures
        fits_segments(t, segs, s),
        s.start == start,
        s.end == start + k,
{
    let part = segs.subrange(start, start + k);
    let count = initials(part);
    let pinyin = segmentation::joined(piece_texts(part));
    let found = if count > 0 {
        t.abbreviation_mixed(part, base)
    } else {
        t.exact(pinyin)
    };
    let best = heaviest(found);
    let v = stretch(t, segs, base, start, k);
    let i = choose|i: int| 0 <= i < v.len() && v[i] == s;
    assert(v[i].word == best[i].word);
    if forall|j: int| s.start <= j < s.end ==> !(#[trigger] segs[j]).1 {
        assert forall|j: int| 0 <= j < part.len() implies !(#[trigger] part[j]).1 by {
            assert(part[j] == segs[start + j]);
        }
        lemma_no_initials(part);
        order::law_arranged_keeps_items(found, trie::heavier());
        let all = order::arranged(found, trie::heavier());
        assert(best[i] == all[i]);
        assert(all.contains(best[i]));
        order::lemma_arranged_contains(found, trie::heavier(), best[i]);
        let x = choose|x: int| 0 <= x < found.len() && found[x] == best[i];
        assert(found[x].word == s.word);
    }
}

proof fn lemma_graph_fits(
    t: TrieView,
    segs: Seq<(Seq<char>, bool)>,
    base: Set<Seq<char>>,
    n: int,
    s: Span,
)
    requires
        0 <= n <= segs.len(),
        word_graph(t, segs, base, n).contains(s),
    ensures
        fits_segments(t, segs, s),
    decreases n,
{
    if n > 0 {
        let a = word_graph(t, segs, base, n - 1);
        let most = trie::least(LONGEST_STRETCH as int, segs.len() - (n - 1));
        let b = stretches(t, segs, base, n - 1, most);
        let i = choose|i: int| 0 <= i < (a + b).len() && (a + b)[i] == s;
        if i < a.len() {
            assert(a[i] == s);
            lemma_graph_fits(t, segs, base, n - 1, s);
        } else {
            assert(b[i - a.len()] == s);
            lemma_stretches_fit(t, segs, base, n - 1, most, s);
        }
    }
}

proof fn lemma_stretches_fit(
    t: TrieView,
    segs: Seq<(Seq<char>, bool)>,
    base: Set<Seq<char>>,
    start: int,
    k: int,
    s: Span,
)
    requires
        0 <= start,
        start + k <= segs.len(),
        stretches(t, segs, base, start, k).contains(s),
    ensures
        fits_segments(t, segs, s),
    decreases k,
{
    if k > 0 {
        let a = stretches(t, segs, base, start, k - 1);
        let b = stretch(t, segs, base, start, k);
        let i = choose|i: int| 0 <= i < (a + b).len() && (a + b)[i] == s;
        if i < a.len() {
            assert(a[i] == s);
            lemma_stretches_fit(t, segs, base, start, k - 1, s);
        } else {
            assert(b[i - a.len()] == s);
            lemma_stretch_fits(t, segs, base, start, k, s);
        }
    }
}

/// Whether a row is made of words of a graph that stand one behind the other up to a place.
spec fn reaches(graph: Seq<Span>, row: Row, to: int) -> bool {
    &&& in_a_row(row.words, 0, to)
    &&& forall|i: int| 0 <= i < row.words.len() ==> graph.contains(#[trigger] row.words[i])
}

/// Whether all rows of a list reach a place.
spec fn all_reach(graph: Seq<Span>, v: Seq<Row>, to: int) -> bool {
    forall|i: int| 0 <= i < v.len() ==> reaches(graph, #[trigger] v[i], to)
}

proof fn lemma_lengthened_reaches(h: Habit, graph: Seq<Span>, row: Row, g: int)
    requires
        0 <= g < graph.len(),
        reaches(graph, row, graph[g].start),
        graph[g].start < graph[g].end,
    ensures
        reaches(graph, lengthened(h.scores, h.ngram, h.profile, row, graph[g]), graph[g].end),
{
    let a = row.words;
    let b = a.push(graph[g]);
    assert(graph.contains(graph[g]));
    assert forall|i: int| 0 <= i < b.len() implies graph.contains(#[trigger] b[i]) by {
        if i < a.len() {
            assert(b[i] == a[i]);
        }
    }
    assert forall|i: int| 0 <= i < b.len() implies (#[trigger] b[i]).start < b[i].end by {
        if i < a.len() {
            assert(b[i] == a[i]);
        }
    }
    assert forall|i: int, j: int| 0 <= i && j == i + 1 && j < b.len() implies (#[trigger] b[i]).end
        == (#[trigger] b[j]).start by {
        assert(b[i] == a[i]);
        if j < a.len() {
            assert(b[j] == a[j]);
        } else {
            assert(a[i] == a.last());
        }
    }
    if a.len() > 0 {
        assert(b[0] == a[0]);
    }
}

proof fn lemma_continued_reaches(
    h: Habit,
    graph: Seq<Span>,
    table: Seq<Seq<Row>>,
    at_i: Seq<Row>,
    i: int,
    g: int,
)
    requires
        0 <= g <= graph.len(),
        forall|x: int| 0 <= x < graph.len() ==> 0 <= (#[trigger] graph[x]).start < graph[x].end,
        all_reach(graph, at_i, i),
        forall|p: int| 0 <= p < table.len() ==> all_reach(graph, #[trigger] table[p], p),
    ensures
        ({
            let r = continued(h, graph, table, at_i, i, g);
            &&& r.len() == table.len()
            &&& forall|p: int| 0 <= p < r.len() ==> all_reach(graph, #[trigger] r[p], p)
        }),
    decreases g,
{
    if g > 0 {
        lemma_continued_reaches(h, graph, table, at_i, i, g - 1);
        let before = continued(h, graph, table, at_i, i, g - 1);
        let span = graph[g - 1];
        if span.start == i && span.end < table.len() {
            let more = at_i.map_values(
                |row: Row| lengthened(h.scores, h.ngram, h.profile, row, span),
            );
            let all = before[span.end] + more;
            assert(all_reach(graph, all, span.end)) by {
                assert forall|x: int| 0 <= x < all.len() implies reaches(
                    graph,
                    #[trigger] all[x],
                    span.end,
                ) by {
                    if x < before[span.end].len() {
                        assert(all[x] == before[span.end][x]);
                    } else {
                        let y = x - before[span.end].len();
                        assert(reaches(graph, at_i[y], i));
                        lemma_lengthened_reaches(h, graph, at_i[y], g - 1);
                        assert(all[x] == more[y]);
                    }
                }
            }
        }
    }
}

proof fn lemma_best_reach(graph: Seq<Span>, v: Seq<Row>, n: int, to: int)
    requires
        0 <= n,
        all_reach(graph, v, to),
    ensures
        all_reach(graph, best_rows(v, n), to),
{
    let r = best_rows(v, n);
    let all = order::arranged(v, scores_higher());
    order::law_arranged_keeps_items(v, scores_higher());
    assert forall|i: int| 0 <= i < r.len() implies reaches(graph, #[trigger] r[i], to) by {
        assert(r[i] == all[i]);
        assert(all.contains(r[i]));
        order::lemma_arranged_contains(v, scores_higher(), r[i]);
        let x = choose|x: int| 0 <= x < v.len() && v[x] == r[i];
        assert(reaches(graph, v[x], to));
    }
}

proof fn lemma_advanced_reaches(h: Habit, graph: Seq<Span>, n: int, i: int)
    requires
        0 <= i <= n,
        forall|x: int| 0 <= x < graph.len() ==> 0 <= (#[trigger] graph[x]).start < graph[x].end,
    ensures
        ({
            let r = advanced(h, graph, n, i);
            &&& r.len() == n + 1
            &&& forall|p: int| 0 <= p < r.len() ==> all_reach(graph, #[trigger] r[p], p)
        }),
    decreases i,
{
    if i > 0 {
        lemma_advanced_reaches(h, graph, n, i - 1);
        let table = advanced(h, graph, n, i - 1);
        assert(all_reach(graph, table[i - 1], i - 1));
        lemma_continued_reaches(h, graph, table, table[i - 1], i - 1, graph.len() as int);
        let more = continued(h, graph, table, table[i - 1], i - 1, graph.len() as int);
        assert(all_reach(graph, more[i], i));
        lemma_best_reach(graph, more[i], BEAM as int, i);
    } else {
        let r = advanced(h, graph, n, i);
        assert forall|p: int| 0 <= p < r.len() implies all_reach(graph, #[trigger] r[p], p) by {
            if p == 0 {
                assert(r[0] =~= seq![Row { words: Seq::empty(), score: 0 }]);
            } else {
                assert(r[p] =~= Seq::<Row>::empty());
            }
        }
    }
}

/// The letters of the words of a row.
pub open spec fn row_letters(words: Seq<Span>) -> Seq<char> {
    segmentation::joined(words.map_values(|s: Span| s.pinyin))
}

proof fn lemma_row_letters(t: TrieView, segs: Seq<(Seq<char>, bool)>, words: Seq<Span>, to: int)
    requires
        in_a_row(words, 0, to),
        forall|i: int| 0 <= i < words.len() ==> fits_segments(t, segs, #[trigger] words[i]),
    ensures
        0 <= to <= segs.len(),
        row_letters(words) == segmentation::joined(piece_texts(segs.take(to))),
    decreases words.len(),
{
    if words.len() == 0 {
        assert(piece_texts(segs.take(0)) =~= Seq::<Seq<char>>::empty());
        assert(words.map_values(|s: Span| s.pinyin) =~= Seq::<Seq<char>>::empty());
    } else {
        let a = words.drop_last();
        let last = words.last();
        assert(fits_segments(t, segs, words[words.len() - 1]));
        assert forall|i: int| 0 <= i < a.len() implies fits_segments(t, segs, #[trigger] a[i]) by {
            assert(a[i] == words[i]);
        }
        if a.len() > 0 {
            assert(words[a.len() - 1].end == words[a.len() as int].start);
            assert(a[0] == words[0]);
        }
        assert(in_a_row(a, 0, last.start)) by {
            assert forall|i: int| 0 <= i < a.len() implies (#[trigger] a[i]).start < a[i].end by {
                assert(a[i] == words[i]);
            }
            assert forall|i: int, j: int| 0 <= i && j == i + 1 && j < a.len() implies (
            #[trigger] a[i]).end == (#[trigger] a[j]).start by {
                assert(a[i] == words[i] && a[j] == words[j]);
            }
        }
        lemma_row_letters(t, segs, a, last.start);
        let f = |s: Span| s.pinyin;
        assert(words.map_values(f) =~= a.map_values(f).push(last.pinyin));
        assert(words.map_values(f).drop_last() =~= a.map_values(f));
        let x = piece_texts(segs.take(last.start));
        let y = piece_texts(segs.subrange(last.start, last.end));
        assert(piece_texts(segs.take(to)) =~= x + y);
        segmentation::law_joining_is_in_order(x, y, Seq::empty());
    }
}

/// The words of a composed row stand one behind the other over all that was typed: the first
/// begins at the first piece, each begins where the one before ends, and the last ends at the last
/// piece. Every word has the letters of the pieces that it takes, and stands in the dictionary under
/// them unless it is abbreviated. So the letters of the words, in their order, are those of the
/// pieces, in theirs. A row that scores higher comes first.
pub proof fn law_rows_spell_the_input(
    t: TrieView,
    k: segmentation::Syllables,
    h: Habit,
    input: Seq<char>,
    r: int,
)
    requires
        0 <= r < composed(t, k, h, input).len(),
    ensures
        ({
            let segs = pieces(t, k, input);
            let rows = composed(t, k, h, input);
            &&& in_a_row(rows[r].words, 0, segs.len() as int)
            &&& forall|i: int|
                0 <= i < rows[r].words.len() ==> fits_segments(
                    t,
                    segs,
                    #[trigger] rows[r].words[i],
                )
            &&& row_letters(rows[r].words) == segmentation::joined(piece_texts(segs))
            &&& forall|i: int| r < i < rows.len() ==> rows[r].score >= (#[trigger] rows[i]).score
        }),
{
    let segs = pieces(t, k, input);
    let n = segs.len() as int;
    let graph = word_graph(t, segs, k.base, n);
    let rows = composed(t, k, h, input);
    assert forall|x: int| 0 <= x < graph.len() implies 0 <= (#[trigger] graph[x]).start
        < graph[x].end by {
        assert(graph.contains(graph[x]));
        lemma_graph_fits(t, segs, k.base, n, graph[x]);
    }
    lemma_advanced_reaches(h, graph, n, n);
    let last = advanced(h, graph, n, n)[n];
    lemma_best_reach(graph, last, BEST_ROWS as int, n);
    assert(reaches(graph, rows[r], n));
    assert forall|i: int| 0 <= i < rows[r].words.len() implies fits_segments(
        t,
        segs,
        #[trigger] rows[r].words[i],
    ) by {
        lemma_graph_fits(t, segs, k.base, n, rows[r].words[i]);
    }
    lemma_row_letters(t, segs, rows[r].words, n);
    assert(segs.take(n) =~= segs);
    order::law_arranged_keeps_items(last, scores_higher());
    order::law_arranged_in_order(last, scores_higher());
    let all = order::arranged(last, scores_higher());
    assert forall|i: int| r < i < rows.len() implies rows[r].score >= (#[trigger] rows[i]).score by {
        assert(rows[i] == all[i] && rows[r] == all[r]);
        assert(!scores_higher()(all[i], all[r]));
    }
}

} // verus!
