//! What is promised of what is gathered for letters: the user's own words, what fits a code, and what is
//! looked for where nothing else is found.

use vstd::prelude::*;
use vstd::utf8::is_ascii_chars;
use crate::chinese;
use crate::chinese::Part;
use crate::compose;
use crate::offering;
use crate::scheme;
use crate::scheme::{Finds, Found, Surroundings};
use crate::segmentation;
use crate::session;
use crate::strmap;
use crate::text;
use crate::trie;
use crate::trie::{Entry, TrieView};
use crate::userdict;

verus! {

/// Whether a text is among what was found.
pub open spec fn has_found(h: Finds, x: Seq<char>) -> bool {
    ||| exists|i: int| 0 <= i < h.first.len() && (#[trigger] h.first[i]).text == x
    ||| exists|i: int| 0 <= i < h.later.len() && (#[trigger] h.later[i]).text == x
}

/// Whether all that was seen was found.
pub open spec fn complete(h: Finds) -> bool {
    forall|x: Seq<char>| #[trigger] h.seen.contains(x) ==> has_found(h, x)
}

/// Whether everything that was found first, or later, still is at its place.
pub open spec fn goes_on(h: Finds, g: Finds) -> bool {
    &&& forall|x: Seq<char>| #[trigger] h.seen.contains(x) ==> g.seen.contains(x)
    &&& h.first.len() <= g.first.len()
    &&& forall|i: int| 0 <= i < h.first.len() ==> #[trigger] g.first[i] == h.first[i]
    &&& h.later.len() <= g.later.len()
    &&& forall|i: int| 0 <= i < h.later.len() ==> #[trigger] g.later[i] == h.later[i]
}

proof fn lemma_goes_on(a: Finds, b: Finds, c: Finds)
    requires
        goes_on(a, b),
        goes_on(b, c),
    ensures
        goes_on(a, c),
{
    assert forall|i: int| 0 <= i < a.first.len() implies #[trigger] c.first[i] == a.first[i] by {
        assert(b.first[i] == a.first[i]);
    }
    assert forall|i: int| 0 <= i < a.later.len() implies #[trigger] c.later[i] == a.later[i] by {
        assert(b.later[i] == a.later[i]);
    }
}

proof fn lemma_still_found(h: Finds, g: Finds, x: Seq<char>)
    requires
        goes_on(h, g),
        has_found(h, x),
    ensures
        has_found(g, x),
{
    if exists|i: int| 0 <= i < h.first.len() && (#[trigger] h.first[i]).text == x {
        let i = choose|i: int| 0 <= i < h.first.len() && (#[trigger] h.first[i]).text == x;
        assert(g.first[i] == h.first[i]);
    } else {
        let i = choose|i: int| 0 <= i < h.later.len() && (#[trigger] h.later[i]).text == x;
        assert(g.later[i] == h.later[i]);
    }
}

proof fn lemma_with_first(h: Finds, f: Found)
    requires
        complete(h),
    ensures
        complete(h.with_first(f)),
        goes_on(h, h.with_first(f)),
        h.with_first(f).seen.contains(f.text),
        h.with_first(f).later == h.later,
{
    let g = h.with_first(f);
    assert forall|x: Seq<char>| #[trigger] g.seen.contains(x) implies has_found(g, x) by {
        if h.seen.contains(x) {
            lemma_still_found(h, g, x);
        } else {
            assert(g.first[h.first.len() as int].text == x);
        }
    }
}

proof fn lemma_with_later(h: Finds, f: Found)
    requires
        complete(h),
    ensures
        complete(h.with_later(f)),
        goes_on(h, h.with_later(f)),
        h.with_later(f).seen.contains(f.text),
        h.with_later(f).first == h.first,
{
    let g = h.with_later(f);
    assert forall|x: Seq<char>| #[trigger] g.seen.contains(x) implies has_found(g, x) by {
        if h.seen.contains(x) {
            lemma_still_found(h, g, x);
        } else {
            assert(g.later[h.later.len() as int].text == x);
        }
    }
}

/// Whether a candidate is for one of some hits that fits the codes of a part.
pub open spec fn is_fitting_hit(f: Found, p: Part, hits: Seq<(Entry, u8)>) -> bool {
    exists|i: int|
        0 <= i < hits.len() && chinese::fits_codes(p, (#[trigger] hits[i]).0) && f.text == hits[i].0.word
            && f.stroke_aux == hits[i].0.stroke_aux && f.english == hits[i].0.en && f.match_level
            == hits[i].1
}

/// Of what a dictionary has for the letters, only what fits the codes behind them is found, and all of
/// that is.
pub proof fn law_codes_narrow_what_is_found(
    h: Finds,
    p: Part,
    hits: Seq<(Entry, u8)>,
    n: int,
    i: int,
    x: int,
)
    requires
        complete(h),
        0 <= n <= hits.len(),
    ensures
        ({
            let g = chinese::hits_added(h, p, hits, n);
            &&& complete(g)
            &&& goes_on(h, g)
            &&& g.later == h.later
            &&& 0 <= i < n && chinese::fits_codes(p, hits[i].0) ==> g.seen.contains(hits[i].0.word)
                && has_found(g, hits[i].0.word)
            &&& h.first.len() <= x < g.first.len() ==> is_fitting_hit(g.first[x], p, hits)
        }),
    decreases n,
{
    if n > 0 {
        law_codes_narrow_what_is_found(h, p, hits, n - 1, i, x);
        let before = chinese::hits_added(h, p, hits, n - 1);
        let (e, level) = hits[n - 1];
        let f = scheme::offered(e, e.weight, level);
        lemma_with_first(before, f);
        let g = chinese::hits_added(h, p, hits, n);
        lemma_goes_on(h, before, before.with_first(f));
        if h.first.len() <= x < before.first.len() {
            assert(g.first[x] == before.first[x]);
        } else if before.first.len() <= x < g.first.len() {
            assert(g.first[x] == f);
            assert(chinese::fits_codes(p, hits[n - 1].0));
        }
    }
}

/// Strokes typed behind a semicolon leave only candidates of the dictionary whose strokes begin with
/// them, and every such word under the letters is left.
pub proof fn law_stroke_code_narrows_the_candidates(
    c: Surroundings,
    profile: Seq<char>,
    t: TrieView,
    letters: Seq<char>,
    code: Seq<char>,
    x: int,
    i: int,
)
    requires
        offering::looks_at(c, profile, t),
        0 < t.exact(letters).len() <= chinese::results_wanted(c),
        0 <= x < t.exact(letters).len(),
    ensures
        ({
            let none = Finds { seen: Set::empty(), first: Seq::empty(), later: Seq::empty() };
            let p = Part { pinyin: letters, stroke_aux: Some(code), english_aux: None };
            let g = chinese::with_hits(c, seq![p], none);
            &&& 0 <= i < g.first.len() ==> text::begins(
                text::lowercase(g.first[i].stroke_aux),
                text::lowercase(code),
            )
            &&& text::begins(text::lowercase(t.exact(letters)[x].stroke_aux), text::lowercase(code))
                ==> has_found(g, t.exact(letters)[x].word)
        }),
{
    let none = Finds { seen: Set::empty(), first: Seq::empty(), later: Seq::empty() };
    let p = Part { pinyin: letters, stroke_aux: Some(code), english_aux: None };
    let parts = seq![p];
    assert(parts.last() == p);
    let hits = chinese::profile_hits(c, letters, c.profiles.len() as int);
    lemma_hits_of_one(c, profile, t, letters, x);
    let k = choose|k: int| 0 <= k < hits.len() && (#[trigger] hits[k]).0 == t.exact(letters)[x];
    assert(complete(none));
    law_codes_narrow_what_is_found(none, p, hits, hits.len() as int, k, i);
    let g = chinese::with_hits(c, parts, none);
    assert(g == chinese::hits_added(none, p, hits, hits.len() as int));
    if 0 <= i < g.first.len() {
        assert(is_fitting_hit(g.first[i], p, hits));
    }
}

proof fn lemma_hits_of_one(
    c: Surroundings,
    profile: Seq<char>,
    t: TrieView,
    letters: Seq<char>,
    x: int,
)
    requires
        offering::looks_at(c, profile, t),
        0 < t.exact(letters).len() <= chinese::results_wanted(c),
        0 <= x < t.exact(letters).len(),
    ensures
        exists|k: int|
            0 <= k < chinese::profile_hits(c, letters, c.profiles.len() as int).len() && (
            #[trigger] chinese::profile_hits(c, letters, c.profiles.len() as int)[k]).0 == t.exact(
                letters,
            )[x],
{
    let exact = t.exact(letters);
    let max = chinese::results_wanted(c);
    let a = crate::order::arranged(exact, trie::heavier());
    crate::order::law_arranged_keeps_items(exact, trie::heavier());
    assert(exact.contains(exact[x]));
    crate::order::lemma_arranged_contains(exact, trie::heavier(), exact[x]);
    let k = choose|k: int| 0 <= k < a.len() && a[k] == exact[x];
    let none: Seq<(Entry, u8)> = Seq::empty();
    assert(chinese::profile_hits(c, letters, 0) =~= none);
    let hits = chinese::profile_hits(c, letters, c.profiles.len() as int);
    assert(c.profiles.len() == 1);
    assert(c.profiles[0] == profile);
    assert(hits == chinese::dictionary_hits(c, t, letters, none));
    assert(a.take(trie::least(max, exact.len() as int)) =~= a);
    assert(hits =~= chinese::on(a, 3));
    assert(hits[k].0 == exact[x]);
}

/// The user's words under the letters that were used often enough are found first, with their own
/// weight, and those that were not are not added.
pub proof fn law_own_words_are_found_first(
    h: Finds,
    t: Option<TrieView>,
    words: Seq<(Seq<char>, u32)>,
    key: Seq<char>,
    threshold: u32,
    n: int,
    i: int,
    x: int,
)
    requires
        complete(h),
        0 <= n <= words.len(),
    ensures
        ({
            let g = chinese::user_words_added(h, t, words, key, threshold, true, n);
            &&& complete(g)
            &&& goes_on(h, g)
            &&& g.later == h.later
            &&& 0 <= i < n && words[i].1 >= threshold ==> has_found(g, words[i].0)
            &&& h.first.len() <= x < g.first.len() ==> g.first[x].match_level == 3 && exists|j: int|
                0 <= j < n && (#[trigger] words[j]).1 >= threshold && g.first[x].text == words[j].0
                    && g.first[x].weight == words[j].1
        }),
    decreases n,
{
    if n > 0 {
        law_own_words_are_found_first(h, t, words, key, threshold, n - 1, i, x);
        let before = chinese::user_words_added(h, t, words, key, threshold, true, n - 1);
        let (word, weight) = words[n - 1];
        let f = chinese::user_candidate(t, word, key, weight, 3);
        lemma_user_candidate(t, word, key, weight, 3);
        lemma_with_first(before, f);
        let g = chinese::user_words_added(h, t, words, key, threshold, true, n);
        lemma_goes_on(h, before, before.with_first(f));
        if 0 <= i < n && words[i].1 >= threshold {
            if i == n - 1 {
                assert(has_found(g, words[i].0));
            } else if g != before {
                lemma_still_found(before, g, words[i].0);
            }
        }
        if h.first.len() <= x < before.first.len() {
            assert(g.first[x] == before.first[x]);
        } else if before.first.len() <= x < g.first.len() {
            assert(g.first[x] == f);
            assert(words[n - 1].1 >= threshold);
        }
    }
}

proof fn lemma_user_candidate(
    t: Option<TrieView>,
    word: Seq<char>,
    key: Seq<char>,
    weight: u32,
    level: u8,
)
    ensures
        chinese::user_candidate(t, word, key, weight, level).text == word,
        chinese::user_candidate(t, word, key, weight, level).weight == weight,
        chinese::user_candidate(t, word, key, weight, level).match_level == level,
{
    if let Some(t) = t {
        lemma_entry_with(t.exact(key), word);
    }
}

proof fn lemma_entry_with(s: Seq<Entry>, w: Seq<char>)
    ensures
        chinese::entry_with(s, w) matches Some(e) ==> e.word == w && s.contains(e),
        chinese::entry_with(s, w) is None ==> forall|i: int|
            0 <= i < s.len() ==> (#[trigger] s[i]).word != w,
    decreases s.len(),
{
    if s.len() > 0 {
        let d = s.drop_first();
        lemma_entry_with(d, w);
        if s[0].word == w {
            assert(s.contains(s[0]));
        } else if let Some(e) = chinese::entry_with(d, w) {
            let i = choose|i: int| 0 <= i < d.len() && d[i] == e;
            assert(s[i + 1] == e);
        } else {
            assert forall|i: int| 0 <= i < s.len() implies (#[trigger] s[i]).word != w by {
                if i > 0 {
                    assert(s[i] == d[i - 1]);
                }
            }
        }
    }
}

/// A word of the user has what the dictionary says of it under its key: its traditional form, its gloss
/// and its strokes.
pub proof fn law_own_words_know_the_dictionary(t: TrieView, word: Seq<char>, key: Seq<char>, weight: u32)
    ensures
        ({
            let f = chinese::user_candidate(Some(t), word, key, weight, 3);
            &&& f.text == word
            &&& trie::has_word(t.exact(key), word) ==> exists|i: int|
                0 <= i < t.exact(key).len() && (#[trigger] t.exact(key)[i]).word == word
                    && f.traditional == t.exact(key)[i].trad && f.english == t.exact(key)[i].en
                    && f.stroke_aux == t.exact(key)[i].stroke_aux
            &&& !trie::has_word(t.exact(key), word) ==> f.traditional == word
        }),
{
    let s = t.exact(key);
    lemma_entry_with(s, word);
    if let Some(e) = chinese::entry_with(s, word) {
        let i = choose|i: int| 0 <= i < s.len() && s[i] == e;
        assert(s[i].word == word);
    }
}

/// The user's words under the very letters are found for them, where they were used often enough.
pub proof fn law_own_words_under_the_letters_are_found(
    c: Surroundings,
    p: userdict::ProfileWords,
    letters: Seq<char>,
    words: Seq<(Seq<char>, u32)>,
    i: int,
)
    requires
        c.profiles.len() > 0,
        strmap::lookup(c.user_dict, c.profiles[0]) == Some(p),
        strmap::lookup(p, letters) == Some(words),
        chinese::has_vowel(letters),
        0 <= i < words.len(),
        words[i].1 >= c.config.options.word_learn_threshold,
    ensures
        has_found(chinese::user_finds(c, letters), words[i].0),
        chinese::user_finds(c, letters).later.len() == 0,
{
    let none = Finds { seen: Set::empty(), first: Seq::empty(), later: Seq::empty() };
    assert(complete(none));
    law_own_words_are_found_first(
        none,
        c.trie("chinese"@),
        words,
        letters,
        c.config.options.word_learn_threshold,
        words.len() as int,
        i,
        0,
    );
}

/// Words of the user under longer keys are found later and weigh four fifths.
pub proof fn law_words_under_longer_keys_weigh_less(
    h: Finds,
    t: Option<TrieView>,
    words: Seq<(Seq<char>, u32)>,
    key: Seq<char>,
    threshold: u32,
    n: int,
    i: int,
    x: int,
)
    requires
        complete(h),
        0 <= n <= words.len(),
    ensures
        ({
            let g = chinese::user_words_added(h, t, words, key, threshold, false, n);
            &&& complete(g)
            &&& goes_on(h, g)
            &&& g.first == h.first
            &&& 0 <= i < n && words[i].1 >= threshold ==> has_found(g, words[i].0)
            &&& h.later.len() <= x < g.later.len() ==> g.later[x].match_level == 0 && exists|j: int|
                0 <= j < n && (#[trigger] words[j]).1 >= threshold && g.later[x].text == words[j].0
                    && g.later[x].weight == 4 * words[j].1 / 5
        }),
    decreases n,
{
    if n > 0 {
        law_words_under_longer_keys_weigh_less(h, t, words, key, threshold, n - 1, i, x);
        let before = chinese::user_words_added(h, t, words, key, threshold, false, n - 1);
        let (word, weight) = words[n - 1];
        let f = chinese::user_candidate(t, word, key, chinese::lessened(weight), 0);
        lemma_user_candidate(t, word, key, chinese::lessened(weight), 0);
        lemma_with_later(before, f);
        let g = chinese::user_words_added(h, t, words, key, threshold, false, n);
        lemma_goes_on(h, before, before.with_later(f));
        if 0 <= i < n && words[i].1 >= threshold {
            if i == n - 1 {
                assert(has_found(g, words[i].0));
            } else if g != before {
                lemma_still_found(before, g, words[i].0);
            }
        }
        if h.later.len() <= x < before.later.len() {
            assert(g.later[x] == before.later[x]);
        } else if before.later.len() <= x < g.later.len() {
            assert(g.later[x] == f);
            assert(words[n - 1].1 >= threshold);
        }
    }
}

/// Abbreviations, resembling keys and sentences are looked for only where nothing comes first yet, and
/// the first two only where the settings have them; letters with blanks neither resemble nor make
/// sentences.
pub proof fn law_other_ways_are_a_last_resort(
    c: Surroundings,
    query: Seq<char>,
    parts: Seq<Part>,
    h: Finds,
)
    ensures
        h.first.len() > 0 || !c.config.input.enable_abbreviation_matching
            ==> chinese::with_abbreviation(c, parts, h) == h,
        h.first.len() > 0 || !c.config.options.enable_error_correction || query.contains(' ')
            ==> chinese::with_similar(c, query, parts, h) == h,
        h.first.len() > 0 || query.contains(' ') ==> chinese::with_sentences(c, query, parts, h) == h,
{
}

proof fn lemma_entries_added(
    h: Finds,
    p: Option<Part>,
    s: Seq<Entry>,
    level: u8,
    max: int,
    n: int,
    i: int,
)
    requires
        complete(h),
        0 <= n <= s.len(),
    ensures
        ({
            let g = chinese::entries_added(h, p, s, level, max, n);
            &&& complete(g)
            &&& goes_on(h, g)
            &&& g.first.len() < max && 0 <= i < n && (p is Some ==> chinese::fits_codes(p->0, s[i]))
                ==> g.seen.contains(s[i].word)
        }),
    decreases n,
{
    if n > 0 {
        lemma_entries_added(h, p, s, level, max, n - 1, i);
        let before = chinese::entries_added(h, p, s, level, max, n - 1);
        let f = scheme::offered(s[n - 1], s[n - 1].weight, level);
        lemma_with_first(before, f);
        lemma_goes_on(h, before, before.with_first(f));
    }
}

proof fn lemma_similar_added(
    h: Finds,
    t: TrieView,
    keys: Seq<(Seq<char>, u128)>,
    max: int,
    n: int,
    k: int,
    i: int,
)
    requires
        complete(h),
        0 <= n <= keys.len(),
    ensures
        ({
            let g = chinese::similar_added(h, t, keys, max, n);
            &&& complete(g)
            &&& goes_on(h, g)
            &&& g.first.len() < max && 0 <= k < n && 0 <= i < t.exact(keys[k].0).len()
                ==> g.seen.contains(t.exact(keys[k].0)[i].word)
        }),
    decreases n,
{
    if n > 0 {
        lemma_similar_added(h, t, keys, max, n - 1, k, i);
        let before = chinese::similar_added(h, t, keys, max, n - 1);
        let s = t.exact(keys[n - 1].0);
        lemma_entries_added(before, None, s, 1, max, s.len() as int, i);
        lemma_goes_on(h, before, chinese::similar_added(h, t, keys, max, n));
    }
}

/// Where nothing else comes first, the words under keys that resemble the letters are found, the nearest
/// keys first, until there are enough.
pub proof fn law_words_under_resembling_keys_are_found(
    c: Surroundings,
    query: Seq<char>,
    parts: Seq<Part>,
    h: Finds,
    t: TrieView,
    k: int,
    i: int,
)
    requires
        complete(h),
        h.first.len() == 0,
        c.trie("chinese"@) == Some(t),
        c.config.options.enable_error_correction,
        !query.contains(' '),
        ({
            let keys = crate::similarity::similar(
                t,
                chinese::letters_of(parts),
                Some(c.config.input.fuzzy_config),
                c.syllables(),
            );
            0 <= k < keys.len() && 0 <= i < t.exact(keys[k].0).len()
        }),
        chinese::with_similar(c, query, parts, h).first.len() < chinese::results_wanted(c),
    ensures
        ({
            let keys = crate::similarity::similar(
                t,
                chinese::letters_of(parts),
                Some(c.config.input.fuzzy_config),
                c.syllables(),
            );
            has_found(chinese::with_similar(c, query, parts, h), t.exact(keys[k].0)[i].word)
        }),
{
    let keys = crate::similarity::similar(
        t,
        chinese::letters_of(parts),
        Some(c.config.input.fuzzy_config),
        c.syllables(),
    );
    lemma_similar_added(h, t, keys, chinese::results_wanted(c), keys.len() as int, k, i);
}

/// The rows of words are found as sentences, one after the other, each by its score.
pub proof fn law_rows_become_sentences(h: Finds, rows: Seq<compose::Row>, max: int, n: int, i: int, x: int)
    requires
        complete(h),
        0 <= n <= rows.len(),
    ensures
        ({
            let g = chinese::rows_added(h, rows, max, n);
            &&& complete(g)
            &&& goes_on(h, g)
            &&& g.first.len() < max && 0 <= i < n ==> g.seen.contains(
                chinese::row_text(rows[i].words),
            )
            &&& h.first.len() <= x < g.first.len() ==> exists|j: int|
                0 <= j < n && g.first[x].text == chinese::row_text((#[trigger] rows[j]).words) && (1
                    <= rows[j].score <= u32::MAX ==> g.first[x].weight == rows[j].score)
        }),
    decreases n,
{
    if n > 0 {
        law_rows_become_sentences(h, rows, max, n - 1, i, x);
        let before = chinese::rows_added(h, rows, max, n - 1);
        let row = rows[n - 1];
        let f = Found {
            match_level: 3,
            ..scheme::plain(chinese::row_text(row.words), chinese::row_weight(row.score))
        };
        lemma_with_first(before, f);
        lemma_goes_on(h, before, before.with_first(f));
        let g = chinese::rows_added(h, rows, max, n);
        if h.first.len() <= x < before.first.len() {
            assert(g.first[x] == before.first[x]);
        } else if before.first.len() <= x < g.first.len() {
            assert(g.first[x] == f);
            assert(g.first[x].text == chinese::row_text(rows[n - 1].words));
        }
    }
}

/// A capital behind letters begins an English code, which goes on to the end or to a digit.
pub proof fn law_capital_begins_an_english_code(a: Seq<char>, c: char, b: Seq<char>)
    requires
        offering::small_letters(a),
        'A' <= c <= 'Z',
        forall|i: int| 0 <= i < b.len() ==> 'a' <= #[trigger] b[i] <= 'z',
    ensures
        chinese::parsed(a + seq![c] + b).pinyin == a,
        chinese::parsed(a + seq![c] + b).stroke_aux is None,
        chinese::parsed(a + seq![c] + b).english_aux == Some(seq![c] + b),
{
    let s = a + seq![c] + b;
    let n = a.len() as int;
    lemma_letters_end(s, 0, n);
    assert(s.take(n) =~= a);
    lemma_code_end(s, n);
    assert(s.subrange(n, s.len() as int) =~= seq![c] + b);
}

proof fn lemma_letters_end(s: Seq<char>, i: int, n: int)
    requires
        0 <= i <= n < s.len(),
        n > 0,
        forall|j: int| 0 <= j < n ==> 'a' <= #[trigger] s[j] <= 'z',
        'A' <= s[n] <= 'Z',
    ensures
        chinese::letters_end(s, i) == n,
    decreases n - i,
{
    if i < n {
        assert('a' <= s[i] <= 'z');
        lemma_letters_end(s, i + 1, n);
    }
}

proof fn lemma_code_end(s: Seq<char>, i: int)
    requires
        0 <= i <= s.len(),
        forall|j: int| i <= j < s.len() ==> !text::is_digit_char(#[trigger] s[j]),
    ensures
        chinese::code_end(s, i, false) == s.len(),
    decreases s.len() - i,
{
    if i < s.len() {
        assert(!text::is_digit_char(s[i]));
        lemma_code_end(s, i + 1);
    }
}

/// An entry has a gloss for a code where one of its glosses between commas begins with it, white space
/// and capitals aside.
pub proof fn law_glosses_are_between_commas(a: Seq<char>, b: Seq<char>, code: Seq<char>)
    requires
        is_ascii_chars(a),
        is_ascii_chars(b),
    ensures
        chinese::glossed(a + seq![','] + b, code) <==> chinese::glossed(a, code) || chinese::glossed(
            b,
            code,
        ),
{
    let sep = seq![','];
    let s = a + sep + b;
    assert(sep[0] == ',');
    lemma_lower_joined(a, b);
    text::law_fields_are_cut_at_separators(text::lowercase(a), ',', text::lowercase(b), sep);
    let fa = text::fields(text::lowercase(a), sep);
    let fb = text::fields(text::lowercase(b), sep);
    let fs = text::fields(text::lowercase(s), sep);
    assert(fs == fa + fb);
    let k = text::lowercase(code);
    if chinese::glossed(s, code) {
        let i = choose|i: int|
            0 <= i < fs.len() && text::begins(text::trimmed(#[trigger] fs[i]), k);
        if i < fa.len() {
            assert(fs[i] == fa[i]);
        } else {
            assert(fs[i] == fb[i - fa.len()]);
        }
    }
    if chinese::glossed(a, code) {
        let i = choose|i: int|
            0 <= i < fa.len() && text::begins(text::trimmed(#[trigger] fa[i]), k);
        assert(fs[i] == fa[i]);
    }
    if chinese::glossed(b, code) {
        let i = choose|i: int|
            0 <= i < fb.len() && text::begins(text::trimmed(#[trigger] fb[i]), k);
        assert(fs[i + fa.len()] == fb[i]);
    }
}

proof fn lemma_lower_joined(a: Seq<char>, b: Seq<char>)
    requires
        is_ascii_chars(a),
        is_ascii_chars(b),
    ensures
        text::lowercase(a + seq![','] + b) == text::lowercase(a) + seq![','] + text::lowercase(b),
{
    let s = a + seq![','] + b;
    assert(text::small_beyond_ascii(a));
    assert(text::small_beyond_ascii(b));
    assert(text::small_beyond_ascii(s));
    assert(text::lower_char(',') == ',');
    assert(text::lowercase(s) =~= text::lowercase(a) + seq![','] + text::lowercase(b));
}

/// Plain letters are cut for an abbreviation into keys of the dictionary and initials, one behind the
/// other from the beginning of the letters.
pub proof fn law_abbreviations_are_cut_in_order(t: TrieView, input: Seq<char>, pos: int, i: int)
    requires
        is_ascii_chars(input),
        0 <= pos <= input.len(),
    ensures
        ({
            let r = chinese::abbreviated(t, input, pos);
            let n = segmentation::joined(compose::piece_texts(r)).len() as int;
            &&& 0 <= i < r.len() && !r[i].1 ==> t.has_key(r[i].0) && 2 <= r[i].0.len() <= 6
            &&& 0 <= i < r.len() && r[i].1 ==> chinese::initial(r[i].0)
            &&& pos + n <= input.len()
            &&& segmentation::joined(compose::piece_texts(r)) == input.subrange(pos, pos + n)
        }),
    decreases input.len() - pos,
{
    session::lemma_between_letters(input, 0, 0);
    let n = input.len() as int;
    let r = chinese::abbreviated(t, input, pos);
    if pos < n {
        let most = trie::least(6, n - pos);
        let len = chinese::longest_key(t, input, pos, most);
        lemma_longest_key(t, input, pos, most);
        session::lemma_between_letters(input, pos, pos + 1);
        if 2 <= len <= n - pos {
            lemma_cut_off(t, input, pos, len, false, i);
        } else if pos + 2 <= n && text::on_boundary(input, pos + 2) && chinese::double_initial(
            text::between(input, pos, pos + 2),
        ) {
            lemma_cut_off(t, input, pos, 2, true, i);
        } else if text::on_boundary(input, pos + 1) && chinese::single_initial(
            text::between(input, pos, pos + 1),
        ) {
            lemma_cut_off(t, input, pos, 1, true, i);
        } else {
            assert(compose::piece_texts(r) =~= Seq::empty());
            assert(segmentation::joined(compose::piece_texts(r)) =~= input.subrange(pos, pos));
        }
    } else {
        assert(compose::piece_texts(r) =~= Seq::empty());
        assert(segmentation::joined(compose::piece_texts(r)) =~= input.subrange(pos, pos));
    }
}

proof fn lemma_cut_off(t: TrieView, input: Seq<char>, pos: int, len: int, b: bool, i: int)
    requires
        is_ascii_chars(input),
        0 <= pos,
        1 <= len,
        pos + len <= input.len(),
    ensures
        ({
            let rest = chinese::abbreviated(t, input, pos + len);
            let r = seq![(text::between(input, pos, pos + len), b)] + rest;
            let m = segmentation::joined(compose::piece_texts(r)).len() as int;
            &&& 0 < i < r.len() && !r[i].1 ==> t.has_key(r[i].0) && 2 <= r[i].0.len() <= 6
            &&& 0 < i < r.len() && r[i].1 ==> chinese::initial(r[i].0)
            &&& pos + m <= input.len()
            &&& segmentation::joined(compose::piece_texts(r)) == input.subrange(pos, pos + m)
            &&& text::between(input, pos, pos + len).len() == len
        }),
    decreases input.len() - pos, 0int,
{
    session::lemma_between_letters(input, pos, pos + len);
    law_abbreviations_are_cut_in_order(t, input, pos + len, i - 1);
    let rest = chinese::abbreviated(t, input, pos + len);
    let x = text::between(input, pos, pos + len);
    let r = seq![(x, b)] + rest;
    assert(compose::piece_texts(r) =~= seq![x] + compose::piece_texts(rest));
    segmentation::law_joining_is_in_order(seq![x], compose::piece_texts(rest), x);
    let k = segmentation::joined(compose::piece_texts(rest)).len() as int;
    assert(x + input.subrange(pos + len, pos + len + k) =~= input.subrange(pos, pos + len + k));
    if 0 < i < r.len() {
        assert(r[i] == rest[i - 1]);
    }
}

proof fn lemma_longest_key(t: TrieView, input: Seq<char>, pos: int, len: int)
    ensures
        ({
            let k = chinese::longest_key(t, input, pos, len);
            k >= 2 ==> k <= len && t.has_key(text::between(input, pos, pos + k))
        }),
    decreases len,
{
    if len >= 2 {
        lemma_longest_key(t, input, pos, len - 1);
    }
}

/// Without a word under the letters longer keys are gone on to only where the settings have it.
pub proof fn law_longer_keys_are_asked_for(
    c: Surroundings,
    t: TrieView,
    letters: Seq<char>,
    hits: Seq<(Entry, u8)>,
    i: int,
)
    requires
        t.exact(letters).len() == 0,
    ensures
        !c.config.input.enable_prefix_matching ==> chinese::dictionary_hits(c, t, letters, hits) == hits,
        c.config.input.enable_prefix_matching && letters.len() > 0 && hits.len()
            <= chinese::results_wanted(c) && hits.len() <= i < chinese::dictionary_hits(
            c,
            t,
            letters,
            hits,
        ).len() ==> exists|j: int|
            0 <= j < chinese::completions(t, letters).len() && t.exact(
                #[trigger] chinese::completions(t, letters)[j],
            ).contains(chinese::dictionary_hits(c, t, letters, hits)[i].0),
{
    let keys = chinese::completions(t, letters);
    if hits.len() <= chinese::results_wanted(c) {
        crate::spelling::law_completions_go_behind(
            t,
            hits,
            keys,
            text::byte_len(letters) <= 3,
            chinese::results_wanted(c),
            keys.len() as int,
            i,
        );
    }
}


/// Parts of what was typed are read in their order, and what a dictionary has is looked for under the
/// letters of the last.
pub proof fn law_last_part_is_looked_for(c: Surroundings, a: Seq<Part>, p: Part, h: Finds)
    ensures
        chinese::with_hits(c, a.push(p), h) == chinese::with_hits(c, seq![p], h),
        chinese::letters_of(a.push(p)) == chinese::letters_of(a) + p.pinyin,
        chinese::letters_of(seq![p]) == p.pinyin,
{
    assert(a.push(p).drop_last() =~= a);
    assert(seq![p].drop_last() =~= Seq::empty());
    assert(chinese::letters_of(seq![p].drop_last()) + p.pinyin =~= p.pinyin);
}

/// The word that the user has first under the letters comes first of all, where it was used often enough,
/// before it is ranked.
pub proof fn law_own_words_lead(
    c: Surroundings,
    p: userdict::ProfileWords,
    letters: Seq<char>,
    words: Seq<(Seq<char>, u32)>,
)
    requires
        offering::small_letters(letters),
        c.profiles.len() > 0,
        strmap::lookup(c.user_dict, c.profiles[0]) == Some(p),
        strmap::lookup(p, letters) == Some(words),
        chinese::has_vowel(letters),
        words.len() > 0,
        words[0].1 >= c.config.options.word_learn_threshold,
    ensures
        chinese::looked_up(c, letters).len() > 0,
        chinese::looked_up(c, letters)[0].text == words[0].0,
        chinese::looked_up(c, letters)[0].weight == words[0].1,
{
    let none = Finds { seen: Set::empty(), first: Seq::empty(), later: Seq::empty() };
    let t = c.trie("chinese"@);
    let threshold = c.config.options.word_learn_threshold;
    let n = words.len() as int;
    offering::law_letters_are_one_part(letters);
    let parts = chinese::parts_of(letters);
    let h0 = chinese::user_finds(c, letters);
    assert(complete(none));
    law_own_words_are_found_first(none, t, words, letters, threshold, n, 0, 0);
    lemma_first_own_word(t, words, letters, threshold, n);
    let hits = chinese::profile_hits(c, parts.last().pinyin, c.profiles.len() as int);
    law_codes_narrow_what_is_found(h0, parts.last(), hits, hits.len() as int, 0, 0);
    let h1 = chinese::with_hits(c, parts, h0);
    assert(h1.first[0] == h0.first[0]);
    law_other_ways_are_a_last_resort(c, letters, parts, h1);
    assert(chinese::looked_up(c, letters) == h1.first + h1.later);
}

proof fn lemma_first_own_word(
    t: Option<TrieView>,
    words: Seq<(Seq<char>, u32)>,
    key: Seq<char>,
    threshold: u32,
    n: int,
)
    requires
        0 < n <= words.len(),
        words[0].1 >= threshold,
    ensures
        ({
            let none = Finds { seen: Set::empty(), first: Seq::empty(), later: Seq::empty() };
            let g = chinese::user_words_added(none, t, words, key, threshold, true, n);
            &&& g.first.len() > 0
            &&& g.first[0].text == words[0].0
            &&& g.first[0].weight == words[0].1
        }),
    decreases n,
{
    let none = Finds { seen: Set::empty(), first: Seq::empty(), later: Seq::empty() };
    let (word, weight) = words[n - 1];
    lemma_user_candidate(t, word, key, weight, 3);
    if n > 1 {
        lemma_first_own_word(t, words, key, threshold, n - 1);
    } else {
        assert(chinese::user_words_added(none, t, words, key, threshold, true, 0) == none);
    }
}


} // verus!
