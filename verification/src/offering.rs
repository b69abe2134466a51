//! What is promised of the candidates for pinyin: the words under the letters are among them, each as
//! the dictionary has it; what was used last leads; and words that have followed gain.

use vstd::prelude::*;
use crate::action::FilterMode;
use crate::chinese;
use crate::chinese::Part;
use crate::config::RareCharMode;
use crate::engine;
use crate::engine::{EngineView, Query, Scheme};
use crate::order;
use crate::scheme;
use crate::scheme::{Finds, Found, Surroundings};
use crate::strmap;
use crate::text;
use crate::trie;
use crate::trie::{Entry, TrieView};
use crate::userdict;

verus! {

/// Whether every word that has been seen is shown.
spec fn all_shown(h: Finds) -> bool {
    forall|w: Seq<char>| #[trigger]
        h.seen.contains(w) ==> exists|i: int|
            0 <= i < (h.first + h.later).len() && (#[trigger] (h.first + h.later)[i]).text == w
}

/// Whether more has been found, and none of it lost.
spec fn grown(h: Finds, r: Finds) -> bool {
    &&& all_shown(h) ==> all_shown(r)
    &&& forall|w: Seq<char>| #[trigger] h.seen.contains(w) ==> r.seen.contains(w)
    &&& r.first.len() >= h.first.len()
    &&& as_written(h) ==> as_written(r)
}

/// Whether every candidate shows its simplified form.
spec fn as_written(h: Finds) -> bool {
    &&& forall|i: int| 0 <= i < h.first.len() ==> (#[trigger] h.first[i]).text == h.first[i].simplified
    &&& forall|i: int| 0 <= i < h.later.len() ==> (#[trigger] h.later[i]).text == h.later[i].simplified
}

proof fn lemma_grown(h: Finds, c: Found)
    requires
        c.text == c.simplified,
    ensures
        grown(h, h.with_first(c)),
        grown(h, h.with_later(c)),
        h.with_first(c).seen.contains(c.text),
{
    if !h.seen.contains(c.text) {
        let s = h.first + h.later;
        let a = h.with_first(c);
        let b = h.with_later(c);
        let x = a.first + a.later;
        let y = b.first + b.later;
        let n = h.first.len() as int;
        if all_shown(h) {
            assert forall|w: Seq<char>| #[trigger] a.seen.contains(w) implies exists|i: int|
                0 <= i < x.len() && (#[trigger] x[i]).text == w by {
                if w == c.text {
                    assert(x[n].text == w);
                } else {
                    assert(h.seen.contains(w));
                    let i = choose|i: int| 0 <= i < s.len() && (#[trigger] s[i]).text == w;
                    if i < n {
                        assert(x[i] == s[i]);
                    } else {
                        assert(x[i + 1] == s[i]);
                    }
                }
            }
            assert forall|w: Seq<char>| #[trigger] b.seen.contains(w) implies exists|i: int|
                0 <= i < y.len() && (#[trigger] y[i]).text == w by {
                if w == c.text {
                    assert(y[s.len() as int].text == w);
                } else {
                    assert(h.seen.contains(w));
                    let i = choose|i: int| 0 <= i < s.len() && (#[trigger] s[i]).text == w;
                    assert(y[i] == s[i]);
                }
            }
        }
    }
}

proof fn lemma_user_candidate(t: Option<TrieView>, word: Seq<char>, key: Seq<char>)
    ensures
        forall|weight: u32, level: u8|
            (#[trigger] chinese::user_candidate(t, word, key, weight, level)).text
                == chinese::user_candidate(t, word, key, weight, level).simplified,
{
}

proof fn lemma_user_words_grow(
    h: Finds,
    t: Option<TrieView>,
    words: Seq<(Seq<char>, u32)>,
    key: Seq<char>,
    threshold: u32,
    in_front: bool,
    n: int,
)
    ensures
        grown(h, chinese::user_words_added(h, t, words, key, threshold, in_front, n)),
    decreases n,
{
    if n > 0 {
        lemma_user_words_grow(h, t, words, key, threshold, in_front, n - 1);
        let before = chinese::user_words_added(h, t, words, key, threshold, in_front, n - 1);
        let (word, weight) = words[n - 1];
        lemma_user_candidate(t, word, key);
        lemma_grown(before, chinese::user_candidate(t, word, key, weight, 3));
        lemma_grown(before, chinese::user_candidate(t, word, key, chinese::lessened(weight), 0));
    }
}

proof fn lemma_user_keys_grow(
    h: Finds,
    t: Option<TrieView>,
    p: userdict::ProfileWords,
    keys: Seq<Seq<char>>,
    threshold: u32,
    n: int,
)
    ensures
        grown(h, chinese::user_keys_added(h, t, p, keys, threshold, n)),
    decreases n,
{
    if n > 0 {
        lemma_user_keys_grow(h, t, p, keys, threshold, n - 1);
        let before = chinese::user_keys_added(h, t, p, keys, threshold, n - 1);
        if let Some(words) = strmap::lookup(p, keys[n - 1]) {
            lemma_user_words_grow(
                before,
                t,
                words,
                keys[n - 1],
                threshold,
                false,
                words.len() as int,
            );
        }
    }
}

proof fn lemma_abbreviated_grow(
    h: Finds,
    t: TrieView,
    p: userdict::ProfileWords,
    segs: Seq<(Seq<char>, bool)>,
    singles: Set<Seq<char>>,
    threshold: u32,
    n: int,
)
    ensures
        grown(h, chinese::abbreviated_added(h, t, p, segs, singles, threshold, n)),
    decreases n,
{
    if n > 0 {
        lemma_abbreviated_grow(h, t, p, segs, singles, threshold, n - 1);
        let before = chinese::abbreviated_added(h, t, p, segs, singles, threshold, n - 1);
        let (key, words) = p[n - 1];
        lemma_user_words_grow(before, Some(t), words, key, threshold, false, words.len() as int);
    }
}

proof fn lemma_hits_grow(h: Finds, p: Part, hits: Seq<(Entry, u8)>, n: int)
    requires
        0 <= n <= hits.len(),
    ensures
        grown(h, chinese::hits_added(h, p, hits, n)),
        forall|i: int|
            0 <= i < n && chinese::fits_codes(p, (#[trigger] hits[i]).0) ==> chinese::hits_added(
                h,
                p,
                hits,
                n,
            ).seen.contains(hits[i].0.word),
    decreases n,
{
    if n > 0 {
        lemma_hits_grow(h, p, hits, n - 1);
        let (e, level) = hits[n - 1];
        lemma_grown(chinese::hits_added(h, p, hits, n - 1), scheme::offered(e, e.weight, level));
    }
}

proof fn lemma_entries_grow(h: Finds, p: Option<Part>, s: Seq<Entry>, level: u8, max: int, n: int)
    ensures
        grown(h, chinese::entries_added(h, p, s, level, max, n)),
    decreases n,
{
    if n > 0 {
        lemma_entries_grow(h, p, s, level, max, n - 1);
        lemma_grown(
            chinese::entries_added(h, p, s, level, max, n - 1),
            scheme::offered(s[n - 1], s[n - 1].weight, level),
        );
    }
}

proof fn lemma_similar_grow(h: Finds, t: TrieView, keys: Seq<(Seq<char>, u128)>, max: int, n: int)
    ensures
        grown(h, chinese::similar_added(h, t, keys, max, n)),
    decreases n,
{
    if n > 0 {
        lemma_similar_grow(h, t, keys, max, n - 1);
        let s = t.exact(keys[n - 1].0);
        lemma_entries_grow(
            chinese::similar_added(h, t, keys, max, n - 1),
            None,
            s,
            1,
            max,
            s.len() as int,
        );
    }
}

proof fn lemma_rows_grow(h: Finds, rows: Seq<crate::compose::Row>, max: int, n: int)
    ensures
        grown(h, chinese::rows_added(h, rows, max, n)),
    decreases n,
{
    if n > 0 {
        lemma_rows_grow(h, rows, max, n - 1);
        let row = rows[n - 1];
        lemma_grown(
            chinese::rows_added(h, rows, max, n - 1),
            Found {
                match_level: 3,
                ..scheme::plain(chinese::row_text(row.words), chinese::row_weight(row.score))
            },
        );
    }
}

proof fn lemma_user_finds_grow(c: Surroundings, letters: Seq<char>)
    ensures
        all_shown(chinese::user_finds(c, letters)),
        as_written(chinese::user_finds(c, letters)),
{
    let none = Finds { seen: Set::empty(), first: Seq::empty(), later: Seq::empty() };
    assert(all_shown(none));
    let t = c.trie("chinese"@);
    let threshold = c.config.options.word_learn_threshold;
    if let Some(profile) = c.first_profile() {
        if let Some(p) = strmap::lookup(c.user_dict, profile) {
            if let Some(words) = strmap::lookup(p, letters) {
                lemma_user_words_grow(
                    none,
                    t,
                    words,
                    letters,
                    threshold,
                    true,
                    words.len() as int,
                );
            }
            let keys = order::arranged(
                chinese::keys_of(p).filter(chinese::slightly_longer(letters)),
                chinese::shorter(),
            );
            lemma_user_keys_grow(none, t, p, keys, threshold, keys.len() as int);
            if let Some(t) = t {
                let segs = chinese::abbreviated(t, letters, 0);
                lemma_abbreviated_grow(none, t, p, segs, c.singles, threshold, p.len() as int);
            }
        }
    }
}

proof fn lemma_later_steps_grow(c: Surroundings, query: Seq<char>, parts: Seq<Part>, h1: Finds)
    ensures
        ({
            let h2 = chinese::with_abbreviation(c, parts, h1);
            let h3 = chinese::with_similar(c, query, parts, h2);
            grown(h1, chinese::with_sentences(c, query, parts, h3))
        }),
{
    let h2 = chinese::with_abbreviation(c, parts, h1);
    let h3 = chinese::with_similar(c, query, parts, h2);
    let max = chinese::results_wanted(c);
    let letters = chinese::letters_of(parts);
    if let Some(t) = c.trie("chinese"@) {
        let segs = chinese::abbreviated(t, letters, 0);
        let s = order::arranged(t.abbreviation_mixed(segs, c.singles), trie::heavier());
        let p = if parts.len() > 0 {
            Some(parts.last())
        } else {
            None
        };
        lemma_entries_grow(h1, p, s, 2, max, s.len() as int);
        let keys = crate::similarity::similar(
            t,
            letters,
            Some(c.config.input.fuzzy_config),
            c.syllables(),
        );
        lemma_similar_grow(h2, t, keys, max, keys.len() as int);
        let rows = chinese::rows_for(c, t, letters);
        lemma_rows_grow(h3, rows, max, rows.len() as int);
    }
}

/// Whether a text is made of small letters.
pub open spec fn small_letters(s: Seq<char>) -> bool {
    s.len() > 0 && forall|i: int| 0 <= i < s.len() ==> 'a' <= #[trigger] s[i] <= 'z'
}

proof fn lemma_letters_end(s: Seq<char>, i: int)
    requires
        small_letters(s),
        0 <= i <= s.len(),
    ensures
        chinese::letters_end(s, i) == s.len(),
    decreases s.len() - i,
{
    if i < s.len() {
        assert('a' <= s[i] <= 'z');
        lemma_letters_end(s, i + 1);
    }
}

/// Small letters are one part: the letters, and no code.
pub proof fn law_letters_are_one_part(s: Seq<char>)
    requires
        small_letters(s),
    ensures
        chinese::parts_of(s) == seq![Part { pinyin: s, stroke_aux: None, english_aux: None }],
        chinese::letters_of(chinese::parts_of(s)) == s,
{
    reveal(Seq::filter);
    assert forall|i: int| 0 <= i < s.len() implies '\0' <= #[trigger] s[i] <= '\u{7f}'
        || text::unicode_lower(s[i]) == seq![s[i]] by {
        assert('a' <= s[i] <= 'z');
    }
    assert(text::lowercase(s) =~= s);
    let blank = seq![' '];
    assert(blank.contains(' ')) by {
        assert(blank[0] == ' ');
    }
    assert forall|i: int| 0 <= i < s.len() implies !blank.contains(#[trigger] s[i]) by {
        assert('a' <= s[i] <= 'z');
    }
    text::law_fields_are_cut_at_separators(s, ' ', Seq::empty(), blank);
    let f = seq![s];
    assert(f.drop_last() =~= Seq::<Seq<char>>::empty());
    assert(f.drop_last().filter(chinese::not_empty()) =~= Seq::<Seq<char>>::empty());
    assert(f.filter(chinese::not_empty()) =~= f);
    lemma_letters_end(s, 0);
    assert(s.take(s.len() as int) =~= s);
    let p = Part { pinyin: s, stroke_aux: None, english_aux: None };
    assert(chinese::parsed(s) == p);
    assert(chinese::parts_of(s) =~= seq![p]);
    assert(seq![p].drop_last() =~= Seq::<Part>::empty());
    assert(chinese::letters_of(seq![p].drop_last()) + s =~= s);
}

/// Whether a scheme looks at one profile, and at its dictionary.
pub open spec fn looks_at(c: Surroundings, profile: Seq<char>, t: TrieView) -> bool {
    c.profiles == seq![profile] && c.trie(profile) == Some(t)
}

proof fn lemma_exact_hits(c: Surroundings, profile: Seq<char>, t: TrieView, letters: Seq<char>)
    requires
        looks_at(c, profile, t),
        t.exact(letters).len() > 0,
    ensures
        ({
            let exact = t.exact(letters);
            let best = order::arranged(exact, trie::heavier());
            chinese::profile_hits(c, letters, 1) == chinese::on(
                best.take(trie::least(chinese::results_wanted(c), exact.len() as int)),
                3,
            )
        }),
{
    let none = chinese::profile_hits(c, letters, 0);
    assert(none =~= Seq::empty());
    assert(c.profiles[0] == profile);
    let d = chinese::dictionary_hits(c, t, letters, none);
    let exact = t.exact(letters);
    let best = order::arranged(exact, trie::heavier());
    let r = chinese::on(
        best.take(trie::least(chinese::results_wanted(c), exact.len() as int)),
        3,
    );
    assert(none + r =~= r);
}

/// Every candidate for what was typed shows its simplified form.
pub proof fn law_candidates_are_found_simplified(c: Surroundings, query: Seq<char>, i: int)
    requires
        0 <= i < chinese::looked_up(c, query).len(),
    ensures
        chinese::looked_up(c, query)[i].text == chinese::looked_up(c, query)[i].simplified,
{
    let parts = chinese::parts_of(query);
    let h0 = chinese::user_finds(c, chinese::letters_of(parts));
    lemma_user_finds_grow(c, chinese::letters_of(parts));
    let h1 = chinese::with_hits(c, parts, h0);
    if parts.len() > 0 {
        let hits = chinese::profile_hits(c, parts.last().pinyin, c.profiles.len() as int);
        lemma_hits_grow(h0, parts.last(), hits, hits.len() as int);
    }
    lemma_later_steps_grow(c, query, parts, h1);
    let h4 = chinese::with_sentences(
        c,
        query,
        parts,
        chinese::with_similar(c, query, parts, chinese::with_abbreviation(c, parts, h1)),
    );
    if i < h4.first.len() {
        assert((h4.first + h4.later)[i] == h4.first[i]);
    } else {
        assert((h4.first + h4.later)[i] == h4.later[i - h4.first.len()]);
    }
}

/// Every word that stands in the dictionary under the letters is among the candidates.
pub proof fn law_words_under_the_letters_are_found(
    c: Surroundings,
    profile: Seq<char>,
    t: TrieView,
    letters: Seq<char>,
    x: int,
)
    requires
        looks_at(c, profile, t),
        small_letters(letters),
        t.exact(letters).len() <= chinese::results_wanted(c),
        0 <= x < t.exact(letters).len(),
    ensures
        exists|i: int|
            0 <= i < chinese::looked_up(c, letters).len() && (#[trigger] chinese::looked_up(
                c,
                letters,
            )[i]).text == t.exact(letters)[x].word,
{
    law_letters_are_one_part(letters);
    let parts = chinese::parts_of(letters);
    let p = parts[0];
    let h0 = chinese::user_finds(c, letters);
    lemma_user_finds_grow(c, letters);
    lemma_exact_hits(c, profile, t, letters);
    let hits = chinese::profile_hits(c, letters, 1);
    lemma_hits_grow(h0, p, hits, hits.len() as int);
    let h1 = chinese::with_hits(c, parts, h0);
    lemma_later_steps_grow(c, letters, parts, h1);
    let exact = t.exact(letters);
    let best = order::arranged(exact, trie::heavier());
    order::law_arranged_keeps_items(exact, trie::heavier());
    assert(exact.contains(exact[x]));
    order::lemma_arranged_contains(exact, trie::heavier(), exact[x]);
    let y = choose|y: int| 0 <= y < best.len() && best[y] == exact[x];
    assert(hits[y].0 == exact[x]);
    assert(chinese::fits_codes(p, hits[y].0));
    assert(h1.seen.contains(exact[x].word));
    let h4 = chinese::with_sentences(
        c,
        letters,
        parts,
        chinese::with_similar(c, letters, parts, chinese::with_abbreviation(c, parts, h1)),
    );
    assert(h4.seen.contains(exact[x].word));
    assert(chinese::looked_up(c, letters) == h4.first + h4.later);
}

/// Whether a candidate is an entry as the dictionary has it.
pub open spec fn is_entry(f: Found, e: Entry) -> bool {
    &&& f.text == e.word
    &&& f.simplified == e.word
    &&& f.traditional == e.trad
    &&& f.tone == e.tone
    &&& f.english == e.en
    &&& f.stroke_aux == e.stroke_aux
    &&& f.weight == e.weight
    &&& f.flags == e.flags
}

/// Whether a candidate is one of the first `n` hits, and fits the codes.
spec fn is_hit(p: Part, hits: Seq<(Entry, u8)>, n: int, f: Found) -> bool {
    exists|x: int|
        0 <= x < n && is_entry(f, (#[trigger] hits[x]).0) && f.match_level == hits[x].1
            && chinese::fits_codes(p, hits[x].0)
}

proof fn lemma_hits_are_entries(h: Finds, p: Part, hits: Seq<(Entry, u8)>, n: int)
    requires
        0 <= n <= hits.len(),
        h.first.len() == 0,
        h.later.len() == 0,
    ensures
        ({
            let r = chinese::hits_added(h, p, hits, n);
            &&& r.later.len() == 0
            &&& forall|i: int|
                0 <= i < r.first.len() ==> is_hit(p, hits, n, #[trigger] r.first[i])
        }),
    decreases n,
{
    if n > 0 {
        lemma_hits_are_entries(h, p, hits, n - 1);
        let b = chinese::hits_added(h, p, hits, n - 1);
        let r = chinese::hits_added(h, p, hits, n);
        assert forall|i: int| 0 <= i < r.first.len() implies is_hit(
            p,
            hits,
            n,
            #[trigger] r.first[i],
        ) by {
            if i < b.first.len() {
                assert(r.first[i] == b.first[i]);
                let x = choose|x: int|
                    0 <= x < n - 1 && is_entry(b.first[i], (#[trigger] hits[x]).0)
                        && b.first[i].match_level == hits[x].1 && chinese::fits_codes(p, hits[x].0);
                assert(is_entry(r.first[i], hits[x].0));
            } else {
                assert(is_entry(r.first[i], hits[n - 1].0));
            }
        }
    }
}

/// Where words stand in the dictionary under the letters and the user has none of their own, the
/// candidates are these words, as the dictionary has them, as exact matches, and no others.
pub proof fn law_only_words_under_the_letters_are_found(
    c: Surroundings,
    profile: Seq<char>,
    t: TrieView,
    letters: Seq<char>,
    i: int,
)
    requires
        looks_at(c, profile, t),
        small_letters(letters),
        t.exact(letters).len() > 0,
        strmap::lookup(c.user_dict, profile) is None,
        0 <= i < chinese::looked_up(c, letters).len(),
    ensures
        exists|x: int|
            0 <= x < t.exact(letters).len() && is_entry(
                chinese::looked_up(c, letters)[i],
                #[trigger] t.exact(letters)[x],
            ),
        chinese::looked_up(c, letters)[i].match_level == 3,
{
    law_letters_are_one_part(letters);
    let parts = chinese::parts_of(letters);
    let p = parts[0];
    let h0 = chinese::user_finds(c, letters);
    assert(c.profiles[0] == profile);
    lemma_exact_hits(c, profile, t, letters);
    let hits = chinese::profile_hits(c, letters, 1);
    lemma_hits_are_entries(h0, p, hits, hits.len() as int);
    let h1 = chinese::with_hits(c, parts, h0);
    let exact = t.exact(letters);
    let best = order::arranged(exact, trie::heavier());
    order::law_arranged_keeps_items(exact, trie::heavier());
    assert(chinese::results_wanted(c) > 0);
    assert(hits.len() > 0);
    assert(chinese::fits_codes(p, hits[0].0));
    lemma_first_hit(h0, p, hits, hits.len() as int);
    assert(h1.first.len() > 0);
    assert(chinese::looked_up(c, letters) =~= h1.first);
    let f = h1.first[i];
    let x = choose|x: int|
        0 <= x < hits.len() && is_entry(f, (#[trigger] hits[x]).0) && f.match_level == hits[x].1
            && chinese::fits_codes(p, hits[x].0);
    assert(hits[x].0 == best[x]);
    assert(best.contains(best[x]));
    order::lemma_arranged_contains(exact, trie::heavier(), best[x]);
    let y = choose|y: int| 0 <= y < exact.len() && exact[y] == best[x];
    assert(is_entry(f, exact[y]));
}

proof fn lemma_first_hit(h: Finds, p: Part, hits: Seq<(Entry, u8)>, n: int)
    requires
        0 < n <= hits.len(),
        h.seen.is_empty(),
        forall|x: int| 0 <= x < hits.len() ==> chinese::fits_codes(p, (#[trigger] hits[x]).0),
    ensures
        chinese::hits_added(h, p, hits, n).first.len() > 0,
    decreases n,
{
    if n > 1 {
        lemma_first_hit(h, p, hits, n - 1);
    } else {
        assert(chinese::hits_added(h, p, hits, 0) == h);
        assert(chinese::fits_codes(p, hits[0].0));
        assert(!h.seen.contains(hits[0].0.word));
    }
}

/// A code of strokes narrows the entries to those whose strokes begin with it, and an English code to
/// those one of whose glosses does.
pub proof fn law_codes_narrow_entries(p: Part, e: Entry)
    requires
        chinese::fits_codes(p, e),
    ensures
        p.stroke_aux matches Some(code) ==> text::lowercase(code).is_prefix_of(
            text::lowercase(e.stroke_aux),
        ),
        p.english_aux is Some ==> e.en.len() > 0 || text::lowercase(p.english_aux->0).len() == 0,
{
    if let Some(code) = p.stroke_aux {
        let s = text::lowercase(e.stroke_aux);
        let k = text::lowercase(code);
        assert(s.take(k.len() as int) =~= s.subrange(0, k.len() as int));
    }
    if p.english_aux is Some && e.en.len() == 0 {
        let code = p.english_aux->0;
        assert(e.en =~= Seq::empty());
        let g = text::fields(text::lowercase(e.en), seq![',']);
        assert(text::lowercase(e.en) =~= Seq::empty());
        let i = choose|i: int|
            0 <= i < g.len() && text::begins(
                text::trimmed(#[trigger] g[i]),
                text::lowercase(code),
            );
        assert(g =~= seq![Seq::<char>::empty()]);
        assert(text::trimmed(g[i]).len() == 0);
    }
}

/// Letters, a semicolon and small letters are the letters with a code of strokes.
pub proof fn law_semicolon_begins_a_code(a: Seq<char>, b: Seq<char>)
    requires
        small_letters(a),
        small_letters(b),
    ensures
        chinese::parsed(a + seq![';'] + b) == (Part {
            pinyin: a,
            stroke_aux: Some(b),
            english_aux: None,
        }),
{
    let s = a + seq![';'] + b;
    assert(s.take(a.len() as int) =~= a);
    lemma_end_at_semicolon(a, s, 0);
    lemma_code_end(a, b, s, a.len() as int + 1);
    assert(s.take(a.len() as int) =~= a);
    assert(s.subrange(a.len() as int + 1, s.len() as int) =~= b);
}

proof fn lemma_end_at_semicolon(a: Seq<char>, s: Seq<char>, i: int)
    requires
        small_letters(a),
        a.len() < s.len(),
        s.take(a.len() as int) == a,
        s[a.len() as int] == ';',
        0 <= i <= a.len(),
    ensures
        chinese::letters_end(s, i) == a.len(),
    decreases a.len() - i,
{
    if i < a.len() {
        assert(s[i] == s.take(a.len() as int)[i]);
        assert('a' <= a[i] <= 'z');
        lemma_end_at_semicolon(a, s, i + 1);
    }
}

proof fn lemma_code_end(a: Seq<char>, b: Seq<char>, s: Seq<char>, i: int)
    requires
        small_letters(b),
        s == a + seq![';'] + b,
        a.len() + 1 <= i <= s.len(),
    ensures
        chinese::code_end(s, i, true) == s.len(),
    decreases s.len() - i,
{
    if i < s.len() {
        assert(s[i] == b[i - a.len() - 1]);
        assert('a' <= b[i - a.len() - 1] <= 'z');
        lemma_code_end(a, b, s, i + 1);
    }
}

/// The candidates are ranked: none is lost and none comes in, and without reordering the heavier
/// stand first. A candidate only gains by the words before it.
pub proof fn law_ranking_keeps_candidates(c: Surroundings, s: Seq<Found>, k: int)
    requires
        0 <= k < s.len(),
    ensures
        chinese::ranked(c, s).len() == s.len(),
        exists|i: int|
            0 <= i < s.len() && same_word(#[trigger] chinese::ranked(c, s)[i], s[k])
                && chinese::ranked(c, s)[i].weight >= s[k].weight,
        exists|i: int|
            0 <= i < s.len() && same_word(chinese::ranked(c, s)[k], #[trigger] s[i]),
        !c.config.input.enable_auto_reorder ==> forall|i: int, j: int|
            0 <= i < j < s.len() ==> (#[trigger] chinese::ranked(c, s)[i]).weight >= (
            #[trigger] chinese::ranked(c, s)[j]).weight,
{
    let a = chinese::weighed(c, s);
    let b = order::arranged(a, chinese::weightier());
    let d = chinese::reordered(c, b);
    let r = chinese::ranked(c, s);
    order::law_arranged_keeps_items(a, chinese::weightier());
    order::law_arranged_in_order(a, chinese::weightier());
    lemma_reordered(c, b, a[k]);
    lemma_context_gains(c, s[k]);
    assert(a.contains(a[k]));
    order::lemma_arranged_contains(a, chinese::weightier(), a[k]);
    assert(d.contains(a[k]));
    let i = choose|i: int| 0 <= i < d.len() && d[i] == a[k];
    assert(same_word(r[i], s[k]));
    lemma_reordered(c, b, d[k]);
    assert(d.contains(d[k]));
    order::lemma_arranged_contains(a, chinese::weightier(), d[k]);
    let j = choose|j: int| 0 <= j < a.len() && a[j] == d[k];
    lemma_context_gains(c, s[j]);
    assert(same_word(r[k], s[j]));
    if !c.config.input.enable_auto_reorder {
        assert forall|i: int, j: int| 0 <= i < j < s.len() implies (#[trigger] r[i]).weight >= (
        #[trigger] r[j]).weight by {
            assert(d == b);
            assert(!chinese::weightier()(b[j], b[i]));
        }
    }
}

/// Whether two candidates are of one word.
pub open spec fn same_word(a: Found, b: Found) -> bool {
    &&& a.simplified == b.simplified
    &&& a.traditional == b.traditional
    &&& a.tone == b.tone
    &&& a.english == b.english
    &&& a.stroke_aux == b.stroke_aux
    &&& a.match_level == b.match_level
    &&& a.flags == b.flags
}

proof fn lemma_reordered(c: Surroundings, b: Seq<Found>, x: Found)
    ensures
        chinese::reordered(c, b).len() == b.len(),
        chinese::reordered(c, b).contains(x) <==> b.contains(x),
{
    broadcast use vstd::seq_lib::group_to_multiset_ensures;

    if let Some(profile) = c.first_profile() {
        if let Some(words) = strmap::lookup(c.order, profile) {
            chinese::law_reordering_keeps_candidates(b, words);
            let r = chinese::recent_first(b, words);
            assert(r.to_multiset().count(x) == b.to_multiset().count(x));
            assert(r.to_multiset().len() == b.to_multiset().len());
        }
    }
}

proof fn lemma_context_gains(c: Surroundings, f: Found)
    ensures
        chinese::in_context(c, f).weight >= f.weight,
        same_word(chinese::in_context(c, f), f),
        chinese::in_context(c, f).text == f.text,
{
}

/// With reordering on, the word that was used last leads whenever it is a candidate.
pub proof fn law_word_used_last_leads(c: Surroundings, s: Seq<Found>, words: Seq<Seq<char>>, k: int)
    requires
        c.config.input.enable_auto_reorder,
        c.profiles.len() > 0,
        strmap::lookup(c.order, c.profiles[0]) == Some(words),
        words.len() > 0,
        0 <= k < s.len(),
        s[k].simplified == words[0],
        forall|i: int| 0 <= i < s.len() ==> (#[trigger] s[i]).text == s[i].simplified,
    ensures
        chinese::ranked(c, s)[0].simplified == words[0],
{
    let a = chinese::weighed(c, s);
    let b = order::arranged(a, chinese::weightier());
    order::law_arranged_keeps_items(a, chinese::weightier());
    lemma_context_gains(c, s[k]);
    assert(a.contains(a[k]));
    order::lemma_arranged_contains(a, chinese::weightier(), a[k]);
    let x = choose|x: int| 0 <= x < b.len() && b[x] == a[k];
    assert(b[x].simplified == words[0]);
    chinese::law_last_used_comes_first(b, words, x);
    chinese::law_reordering_keeps_candidates(b, words);
    let r = chinese::recent_first(b, words);
    law_ranking_keeps_candidates(c, s, 0);
    let f = r[0];
    lemma_reordered(c, b, f);
    assert(chinese::reordered(c, b) == r);
    assert(r.contains(f));
    order::lemma_arranged_contains(a, chinese::weightier(), f);
    let y = choose|y: int| 0 <= y < a.len() && a[y] == f;
    lemma_context_gains(c, s[y]);
    assert(f.text == f.simplified);
}

/// With sorting by context on, of two candidates that weigh the same the one that has followed the
/// word before weighs more than one that has followed neither it nor the two words before.
pub proof fn law_followers_gain(
    c: Surroundings,
    p: userdict::ProfileWords,
    last: Seq<char>,
    l: Seq<(Seq<char>, u32)>,
    f: Found,
    g: Found,
    count: u32,
)
    requires
        c.config.options.enable_context_sorting,
        c.profiles.len() > 0,
        strmap::lookup(c.ngram, c.profiles[0]) == Some(p),
        c.last_word == Some(last),
        strmap::lookup(p, last) == Some(l),
        f.weight == g.weight,
        f.weight < u32::MAX,
        count > 0,
        chinese::last_count(l, f.simplified) == Some(count),
        chinese::last_count(l, g.simplified) is None,
        c.last_two is None,
    ensures
        chinese::in_context(c, f).weight > chinese::in_context(c, g).weight,
        chinese::in_context(c, g).weight == g.weight,
{
    assert(c.first_profile() == Some(c.profiles[0]));
}

proof fn lemma_ranked_has(c: Surroundings, profile: Seq<char>, t: TrieView, letters: Seq<char>, x: int)
    requires
        looks_at(c, profile, t),
        small_letters(letters),
        t.exact(letters).len() <= chinese::results_wanted(c),
        0 <= x < t.exact(letters).len(),
    ensures
        exists|y: int|
            0 <= y < chinese::ranked(c, chinese::looked_up(c, letters)).len() && (
            #[trigger] chinese::ranked(c, chinese::looked_up(c, letters))[y]).simplified == t.exact(
                letters,
            )[x].word,
{
    let found = chinese::looked_up(c, letters);
    law_words_under_the_letters_are_found(c, profile, t, letters, x);
    let w = t.exact(letters)[x].word;
    let k = choose|k: int| 0 <= k < found.len() && (#[trigger] found[k]).text == w;
    law_candidates_are_found_simplified(c, letters, k);
    law_ranking_keeps_candidates(c, found, k);
    let r = chinese::ranked(c, found);
    let y = choose|y: int|
        0 <= y < found.len() && same_word(#[trigger] r[y], found[k]) && r[y].weight
            >= found[k].weight;
    assert(r[y].simplified == w);
}

/// Typing the letters of a key finds its words: with the Chinese scheme, a word that stands in the
/// dictionary under the letters is among the candidates of a search, in the form that is asked for,
/// unless there are more than are asked for.
pub proof fn law_typing_a_key_finds_its_words(e: EngineView, q: Query, t: TrieView, x: int)
    requires
        strmap::lookup(e.schemes, q.profile) == Some(Scheme::Chinese),
        e.trie(q.profile) == Some(t),
        small_letters(q.buffer),
        q.filter_mode == FilterMode::Off,
        0 <= x < t.exact(q.buffer).len(),
        t.exact(q.buffer).len() <= 500,
        q.config.options.rare_char_mode == RareCharMode::IncludeRare,
        e.searched(q).0.len() < q.limit,
    ensures
        exists|i: int|
            0 <= i < e.searched(q).0.len() && (#[trigger] e.searched(q).0[i]).simplified == t.exact(
                q.buffer,
            )[x].word && e.searched(q).0[i].text == (if q.config.input.enable_traditional {
                e.searched(q).0[i].traditional
            } else {
                e.searched(q).0[i].simplified
            }),
{
    let c = e.around(q);
    assert(c.tries =~= seq![(q.profile, t)]);
    assert(strmap::is_first(c.tries, q.profile, 0));
    strmap::lemma_first_is_index(c.tries, q.profile, 0);
    assert(looks_at(c, q.profile, t));
    lemma_ranked_has(c, q.profile, t, q.buffer, x);
    let r = engine::offers_for(e, q);
    assert(r == chinese::ranked(c, chinese::looked_up(c, q.buffer)));
    let w = t.exact(q.buffer)[x].word;
    let y = choose|y: int| 0 <= y < r.len() && (#[trigger] r[y]).simplified == w;
    lemma_search_has(e, q, y);
}

proof fn lemma_search_has(e: EngineView, q: Query, y: int)
    requires
        0 <= y < engine::offers_for(e, q).len(),
        q.filter_mode == FilterMode::Off,
        q.config.options.rare_char_mode == RareCharMode::IncludeRare,
        e.searched(q).0.len() < q.limit,
    ensures
        exists|i: int|
            0 <= i < e.searched(q).0.len() && (#[trigger] e.searched(q).0[i]).simplified
                == engine::offers_for(e, q)[y].simplified && e.searched(q).0[i].text == (
            if q.config.input.enable_traditional {
                e.searched(q).0[i].traditional
            } else {
                e.searched(q).0[i].simplified
            }),
{
    let f = engine::offers_for(e, q)[y];
    let d = engine::presented(q.config, f);
    assert(engine::shows(q.config, f, d));
    engine::law_search_leaves_nothing_out(e, q, y, d);
    let i = choose|i: int|
        0 <= i < e.searched(q).0.len() && engine::shows(q.config, f, #[trigger] e.searched(q).0[i]);
    assert(e.searched(q).0[i].simplified == f.simplified);
}

/// With sorting by context on, a candidate that has followed the two words before gains by how often it
/// has, up to forty times; without it no candidate gains.
pub proof fn law_followers_of_two_words_gain(
    c: Surroundings,
    p: userdict::ProfileWords,
    a: Seq<char>,
    b: Seq<char>,
    l: Seq<(Seq<char>, u32)>,
    f: Found,
    count: u32,
)
    requires
        c.profiles.len() > 0,
        strmap::lookup(c.ngram, c.profiles[0]) == Some(p),
        c.last_word is None,
        c.last_two == Some((a, b)),
        strmap::lookup(p, a + seq!['|'] + b) == Some(l),
        strmap::lookup(l, f.simplified) == Some(count),
    ensures
        c.config.options.enable_context_sorting && count <= 40 && f.weight + 60000000 * count
            <= u32::MAX ==> chinese::in_context(c, f).weight == f.weight + 60000000 * count,
        !c.config.options.enable_context_sorting ==> chinese::in_context(c, f) == f,
{
}


} // verus!
