//! What is promised of the weights of rows of words: what a word adds to a row, and which rows and words
//! are kept.

use vstd::prelude::*;
use crate::compose;
use crate::compose::{Row, Span};
use crate::order;
use crate::segmentation;
use crate::strmap;
use crate::trie;
use crate::trie::{Entry, TrieView};
use crate::userdict;

verus! {

/// Of some rows the best are kept, the best first: as many as are asked for, each of them one of the
/// rows, and none that is left out scores more than one that is kept.
pub proof fn law_best_rows_are_kept(v: Seq<Row>, n: int, i: int, j: int, left: Row)
    requires
        n >= 0,
    ensures
        ({
            let r = compose::best_rows(v, n);
            &&& r.len() <= n
            &&& r.len() == n || r.len() == v.len()
            &&& 0 <= i < r.len() ==> v.contains(r[i])
            &&& 0 <= i < j < r.len() ==> r[i].score >= r[j].score
            &&& v.contains(left) && !r.contains(left) && 0 <= i < r.len() ==> left.score <= r[i].score
        }),
{
    let a = order::arranged(v, compose::scores_higher());
    let r = compose::best_rows(v, n);
    order::law_arranged_keeps_items(v, compose::scores_higher());
    order::law_arranged_in_order(v, compose::scores_higher());
    if 0 <= i < r.len() {
        assert(a.contains(a[i]));
        order::lemma_arranged_contains(v, compose::scores_higher(), a[i]);
        if i < j < r.len() {
            assert(!compose::scores_higher()(a[j], a[i]));
        }
        if v.contains(left) && !r.contains(left) {
            order::lemma_arranged_contains(v, compose::scores_higher(), left);
            let k = choose|k: int| 0 <= k < a.len() && a[k] == left;
            if k < r.len() {
                assert(r[k] == left);
            }
            assert(!compose::scores_higher()(a[k], a[i]));
        }
    }
}

/// Of the entries for a stretch the heaviest are kept: none that is left out weighs more than one that
/// is kept.
pub proof fn law_heaviest_entries_are_kept(found: Seq<Entry>, i: int, left: Entry)
    requires
        0 <= i < compose::heaviest(found).len(),
    ensures
        found.contains(compose::heaviest(found)[i]),
        found.contains(left) && !compose::heaviest(found).contains(left) ==> left.weight
            <= compose::heaviest(found)[i].weight,
        compose::heaviest(found).len() == compose::WORDS_PER_STRETCH || compose::heaviest(found).len()
            == found.len(),
{
    let a = order::arranged(found, trie::heavier());
    let r = compose::heaviest(found);
    order::law_arranged_keeps_items(found, trie::heavier());
    order::law_arranged_in_order(found, trie::heavier());
    assert(a.contains(a[i]));
    order::lemma_arranged_contains(found, trie::heavier(), a[i]);
    if found.contains(left) && !r.contains(left) {
        order::lemma_arranged_contains(found, trie::heavier(), left);
        let k = choose|k: int| 0 <= k < a.len() && a[k] == left;
        if k < r.len() {
            assert(r[k] == left);
        }
        assert(!trie::heavier()(a[k], a[i]));
    }
}

/// A word adds more to a row the longer it is, the more its syllables score, and the more often, up to
/// ten times, it has followed the word before.
pub proof fn law_words_add_to_a_row(
    scores: Map<Seq<char>, u64>,
    ngram: userdict::UserWords,
    profile: Seq<char>,
    row: Row,
    a: Span,
    b: Span,
)
    requires
        a.initial_count == b.initial_count,
        0 < b.word.len(),
    ensures
        row.words.len() == 0 && a.pinyin == b.pinyin && a.word.len() > b.word.len() ==> compose::gain(
            scores,
            ngram,
            profile,
            row,
            a,
        ) == compose::gain(scores, ngram, profile, row, b) + 200000 * (a.word.len() - b.word.len()),
        row.words.len() == 0 && a.word.len() == b.word.len() && scores.contains_key(a.pinyin)
            && scores.contains_key(b.pinyin) ==> compose::gain(scores, ngram, profile, row, a)
            - compose::gain(scores, ngram, profile, row, b) == scores[a.pinyin] - scores[b.pinyin],
        row.words.len() == 0 && a.word.len() == b.word.len() && scores.contains_key(a.pinyin)
            && !scores.contains_key(b.pinyin) ==> compose::gain(scores, ngram, profile, row, a)
            == compose::gain(scores, ngram, profile, row, b) + scores[a.pinyin],
{
}

/// A word that has followed the last word of a row adds half a million for each time, up to ten, beyond
/// what it adds to a row without words.
pub proof fn law_followers_add_to_a_row(
    scores: Map<Seq<char>, u64>,
    ngram: userdict::UserWords,
    profile: Seq<char>,
    row: Row,
    a: Span,
    p: userdict::ProfileWords,
    l: Seq<(Seq<char>, u32)>,
    n: u32,
)
    requires
        row.words.len() > 0,
        strmap::lookup(ngram, profile) == Some(p),
        strmap::lookup(p, row.words.last().word) == Some(l),
    ensures
        ({
            let alone = compose::gain(
                scores,
                ngram,
                profile,
                (Row { words: Seq::empty(), score: 0 }),
                a,
            );
            let g = compose::gain(scores, ngram, profile, row, a);
            &&& strmap::lookup(l, a.word) == Some(n) && n <= 10 ==> g == alone + 500000 * n
            &&& strmap::lookup(l, a.word) == Some(n) && n > 10 ==> g == alone + 5000000
            &&& strmap::lookup(l, a.word) is None ==> g == alone
        }),
{
}

/// Several initials add to a row, one alone does not.
pub proof fn law_initials_add_to_a_row(
    scores: Map<Seq<char>, u64>,
    ngram: userdict::UserWords,
    profile: Seq<char>,
    row: Row,
    a: Span,
    n: int,
)
    requires
        n >= 0,
    ensures
        ({
            let none = compose::gain(scores, ngram, profile, row, (Span { initial_count: 0, ..a }));
            let g = compose::gain(scores, ngram, profile, row, (Span { initial_count: n, ..a }));
            &&& n < 2 ==> g == none
            &&& n >= 2 ==> g == none + 5000000 * n
        }),
{
}

/// A row with one more word has it behind the others, and never scores less.
pub proof fn law_rows_grow(
    scores: Map<Seq<char>, u64>,
    ngram: userdict::UserWords,
    profile: Seq<char>,
    row: Row,
    a: Span,
)
    requires
        a.initial_count >= 0,
    ensures
        ({
            let r = compose::lengthened(scores, ngram, profile, row, a);
            &&& r.words == row.words.push(a)
            &&& r.score >= row.score
            &&& row.score + compose::gain(scores, ngram, profile, row, a) <= u128::MAX ==> r.score
                == row.score + compose::gain(scores, ngram, profile, row, a)
        }),
{
}

/// The words under the very letters of a stretch without initials are put into the graph, for every
/// stretch that is not too long.
pub proof fn law_words_of_stretches_are_in_the_graph(
    t: TrieView,
    segs: Seq<(Seq<char>, bool)>,
    base: Set<Seq<char>>,
    n: int,
    start: int,
    k: int,
    i: int,
)
    requires
        0 <= start < n <= segs.len(),
        1 <= k <= compose::LONGEST_STRETCH,
        start + k <= segs.len(),
        forall|j: int| start <= j < start + k ==> !(#[trigger] segs[j]).1,
        ({
            let letters = segmentation::joined(
                compose::piece_texts(segs.subrange(start, start + k)),
            );
            0 <= i < compose::heaviest(t.exact(letters)).len()
        }),
    ensures
        ({
            let letters = segmentation::joined(
                compose::piece_texts(segs.subrange(start, start + k)),
            );
            compose::word_graph(t, segs, base, n).contains(
                (Span {
                    start,
                    end: start + k,
                    word: compose::heaviest(t.exact(letters))[i].word,
                    pinyin: letters,
                    initial_count: 0,
                }),
            )
        }),
    decreases n,
{
    let part = segs.subrange(start, start + k);
    let letters = segmentation::joined(compose::piece_texts(part));
    let x = Span {
        start,
        end: start + k,
        word: compose::heaviest(t.exact(letters))[i].word,
        pinyin: letters,
        initial_count: 0,
    };
    let before = compose::word_graph(t, segs, base, n - 1);
    let more = compose::stretches(
        t,
        segs,
        base,
        n - 1,
        trie::least(compose::LONGEST_STRETCH as int, segs.len() - (n - 1)),
    );
    let all = compose::word_graph(t, segs, base, n);
    if start == n - 1 {
        assert forall|j: int| 0 <= j < part.len() implies !(#[trigger] part[j]).1 by {
            assert(part[j] == segs[start + j]);
        }
        lemma_no_initials_in(part);
        let s = compose::stretch(t, segs, base, start, k);
        assert(s[i] == x);
        assert(s.contains(x));
        lemma_in_stretches(
            t,
            segs,
            base,
            start,
            trie::least(compose::LONGEST_STRETCH as int, segs.len() - start),
            k,
            x,
        );
        let j = choose|j: int| 0 <= j < more.len() && more[j] == x;
        assert(all[before.len() + j] == x);
    } else {
        law_words_of_stretches_are_in_the_graph(t, segs, base, n - 1, start, k, i);
        let j = choose|j: int| 0 <= j < before.len() && before[j] == x;
        assert(all[j] == x);
    }
}

proof fn lemma_no_initials_in(segs: Seq<(Seq<char>, bool)>)
    requires
        forall|j: int| 0 <= j < segs.len() ==> !(#[trigger] segs[j]).1,
    ensures
        compose::initials(segs) == 0,
    decreases segs.len(),
{
    if segs.len() > 0 {
        let d = segs.drop_last();
        assert forall|j: int| 0 <= j < d.len() implies !(#[trigger] d[j]).1 by {
            assert(d[j] == segs[j]);
        }
        lemma_no_initials_in(d);
        assert(!segs[segs.len() - 1].1);
    }
}

proof fn lemma_in_stretches(
    t: TrieView,
    segs: Seq<(Seq<char>, bool)>,
    base: Set<Seq<char>>,
    start: int,
    most: int,
    k: int,
    x: Span,
)
    requires
        1 <= k <= most,
        compose::stretch(t, segs, base, start, k).contains(x),
    ensures
        compose::stretches(t, segs, base, start, most).contains(x),
    decreases most,
{
    let before = compose::stretches(t, segs, base, start, most - 1);
    let more = compose::stretch(t, segs, base, start, most);
    let all = compose::stretches(t, segs, base, start, most);
    if k == most {
        let j = choose|j: int| 0 <= j < more.len() && more[j] == x;
        assert(all[before.len() + j] == x);
    } else {
        lemma_in_stretches(t, segs, base, start, most - 1, k, x);
        let j = choose|j: int| 0 <= j < before.len() && before[j] == x;
        assert(all[j] == x);
    }
}

/// A basic syllable is never taken for an initial, nor are more than two letters.
pub proof fn law_syllables_are_no_initials(
    t: TrieView,
    k: segmentation::Syllables,
    input: Seq<char>,
    i: int,
)
    requires
        segmentation::viterbi(k, input).len() > 0,
        0 <= i < segmentation::viterbi(k, input).len(),
    ensures
        compose::pieces(t, k, input).len() == segmentation::viterbi(k, input).len(),
        compose::pieces(t, k, input)[i].0 == segmentation::viterbi(k, input)[i],
        compose::pieces(t, k, input)[i].1 ==> !k.base.contains(segmentation::viterbi(k, input)[i])
            && crate::chinese::initial(segmentation::viterbi(k, input)[i]),
{
}


} // verus!
