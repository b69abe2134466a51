//! What is promised of the pipelines: what the translators come up with for the letters, and what the
//! filters make of it.

use vstd::prelude::*;
use crate::action::FilterMode;
use crate::candidate;
use crate::candidate::{Cand, FilterView};
use crate::chinese;
use crate::config::{Config, DisplayMode, EnglishAuxMode};
use crate::engine;
use crate::fuzzy;
use crate::order;
use crate::pipeline;
use crate::pipeline::{Task, Translation};
use crate::pipelines;
use crate::segmentation;
use crate::sentences;
use crate::sentences::Cut;
use crate::strmap;
use crate::text;
use crate::translators;
use crate::translators::{Fuzzy, Manner, Table};
use crate::trie;
use crate::trie::{Entry, TrieView};
use crate::userdict;

verus! {

/// Whether one candidate stands before another.
pub open spec fn stands_before(s: Seq<Cand>, a: Cand, b: Cand) -> bool {
    exists|x: int, y: int| 0 <= x < y < s.len() && #[trigger] s[x] == a && #[trigger] s[y] == b
}

/// What a translator comes up with stands before what a later one does.
pub proof fn law_translators_follow_one_another(
    ts: Seq<Translation>,
    k: Task,
    n: int,
    i: int,
    j: int,
    a: Cand,
    b: Cand,
)
    requires
        0 <= i < j < n <= ts.len(),
        ts[i].translated(k).1.contains(a),
        ts[j].translated(k).1.contains(b),
    ensures
        stands_before(pipeline::translated_by(ts, k, n).1, a, b),
    decreases n,
{
    let s = pipeline::translated_by(ts, k, n - 1).1;
    let c = ts[n - 1].translated(k).1;
    let all = pipeline::translated_by(ts, k, n).1;
    assert(all == s + c);
    if j == n - 1 {
        lemma_translated(ts, k, n - 1, i, a);
        let x = choose|x: int| 0 <= x < s.len() && s[x] == a;
        let y = choose|y: int| 0 <= y < c.len() && c[y] == b;
        assert(all[x] == a && all[s.len() + y] == b);
    } else {
        law_translators_follow_one_another(ts, k, n - 1, i, j, a, b);
        let (x, y) = choose|x: int, y: int|
            0 <= x < y < s.len() && #[trigger] s[x] == a && #[trigger] s[y] == b;
        assert(all[x] == a && all[y] == b);
    }
}

proof fn lemma_translated(ts: Seq<Translation>, k: Task, n: int, i: int, a: Cand)
    requires
        0 <= i < n <= ts.len(),
        ts[i].translated(k).1.contains(a),
    ensures
        pipeline::translated_by(ts, k, n).1.contains(a),
    decreases n,
{
    let s = pipeline::translated_by(ts, k, n - 1).1;
    let c = ts[n - 1].translated(k).1;
    let all = pipeline::translated_by(ts, k, n).1;
    if i == n - 1 {
        let y = choose|y: int| 0 <= y < c.len() && c[y] == a;
        assert(all[s.len() + y] == a);
    } else {
        lemma_translated(ts, k, n - 1, i, a);
        let x = choose|x: int| 0 <= x < s.len() && s[x] == a;
        assert(all[x] == a);
    }
}

/// Of candidates with one text the first is kept, and those that are kept stay in their order.
pub proof fn law_first_of_each_text_is_kept(s: Seq<Cand>, i: int)
    requires
        0 <= i < s.len(),
        forall|j: int| 0 <= j < i ==> (#[trigger] s[j]).text != s[i].text,
    ensures
        pipeline::each_once(s).contains(s[i]),
        pipeline::each_once(s).len() > 0,
        pipeline::each_once(s)[0] == s[0],
    decreases s.len(),
{
    let d = s.drop_last();
    let before = pipeline::each_once(d);
    let all = pipeline::each_once(s);
    if s.len() > 1 {
        law_first_of_each_text_is_kept(d, 0);
        assert(all[0] == before[0]);
    }
    if i < d.len() {
        assert forall|j: int| 0 <= j < i implies (#[trigger] d[j]).text != d[i].text by {
            assert(d[j] == s[j]);
        }
        law_first_of_each_text_is_kept(d, i);
        let x = choose|x: int| 0 <= x < before.len() && before[x] == d[i];
        assert(all[x] == s[i]);
    } else {
        if pipeline::shows(before, s[i].text) {
            let x = choose|x: int| 0 <= x < before.len() && (#[trigger] before[x]).text == s[i].text;
            lemma_once_among(d, x);
        }
        assert(all[before.len() as int] == s[i]);
    }
}

proof fn lemma_once_among(s: Seq<Cand>, x: int)
    requires
        0 <= x < pipeline::each_once(s).len(),
    ensures
        exists|i: int| 0 <= i < s.len() && #[trigger] s[i] == pipeline::each_once(s)[x],
    decreases s.len(),
{
    let d = s.drop_last();
    if x < pipeline::each_once(d).len() {
        lemma_once_among(d, x);
        let i = choose|i: int| 0 <= i < d.len() && #[trigger] d[i] == pipeline::each_once(d)[x];
        assert(s[i] == pipeline::each_once(s)[x]);
    } else {
        assert(s[s.len() - 1] == pipeline::each_once(s)[x]);
    }
}

/// Once an input has been cut, it is cut the same way again, and nothing that is kept of others
/// changes.
pub proof fn law_cuts_are_kept(
    kept: Seq<(Seq<char>, Seq<Seq<char>>)>,
    k: segmentation::Syllables,
    input: Seq<char>,
    other: Seq<char>,
    delimiters: Seq<char>,
)
    ensures
        ({
            let segs = pipeline::syllables_of(kept, k, input, delimiters);
            let after = pipeline::kept_after(kept, input, segs);
            &&& pipeline::syllables_of(after, k, input, delimiters) == segs
            &&& other != input ==> strmap::lookup(after, other) == strmap::lookup(kept, other)
            &&& strmap::lookup(kept, input) is None && kept.len() < pipeline::MAX_SEGMENTED
                ==> strmap::lookup(after, input) == Some(segs)
        }),
{
    let segs = pipeline::syllables_of(kept, k, input, delimiters);
    strmap::law_put_lookup(kept, input, segs, other);
}

/// The pipeline that is given up for a new one is the one that was used the longest ago; a pipeline
/// that is used again goes behind all others, which stay in their order.
pub proof fn law_oldest_pipeline_is_given_up(l: Seq<Seq<char>>, x: Seq<char>)
    ensures
        pipelines::used(l, x).1 is Some ==> pipelines::used(l, x).1 == Some(l[0]) && !l.contains(x)
            && l.len() >= pipelines::MAX_CACHED_PIPELINES,
        !l.contains(x) && l.len() >= pipelines::MAX_CACHED_PIPELINES ==> pipelines::used(l, x).1 is Some
            && pipelines::used(l, x).0 == l.skip(1).push(x),
        !l.contains(x) && l.len() < pipelines::MAX_CACHED_PIPELINES ==> pipelines::used(l, x).0
            == l.push(x),
{
    assert(l.len() > 0 ==> l.drop_first() =~= l.skip(1));
}

/// The dictionary that a pipeline asks is that of the first of its translators that has one.
pub proof fn law_first_dictionary_is_asked(ts: Seq<Translation>, i: int, k: int)
    requires
        0 <= i <= k < ts.len(),
        ts[k] is Table,
        forall|j: int| i <= j < k ==> !((#[trigger] ts[j]) is Table),
    ensures
        pipelines::asked(ts, i) == Some(ts[k]->Table_0.t),
    decreases k - i,
{
    if i < k {
        assert(!(ts[i] is Table));
        law_first_dictionary_is_asked(ts, i + 1, k);
    }
}

/// With a code for all candidates, those that are left begin with it and are as many as are asked for
/// at most; where fewer are left than are asked for, none that fits is left out. Without a code the
/// first ones are left.
pub proof fn law_code_narrows_a_pipeline(
    s: Seq<Cand>,
    aux: Seq<char>,
    english: EnglishAuxMode,
    limit: int,
    i: int,
)
    requires
        aux.len() > 0,
        limit >= 0,
    ensures
        ({
            let r = pipelines::left_of(s, FilterMode::Global, aux, english, limit);
            &&& r.len() <= limit
            &&& 0 <= i < r.len() ==> s.contains(r[i]) && engine::begins_with_code(r[i], aux)
            &&& r.len() < limit && 0 <= i < s.len() && engine::fits_filter(s[i], aux, english)
                ==> r.contains(s[i])
        }),
        pipelines::left_of(s, FilterMode::Off, aux, english, limit) == s.take(
            trie::least(limit, s.len() as int),
        ),
{
    let f = engine::fitting(aux, english);
    let fit = s.filter(f);
    let r = pipelines::left_of(s, FilterMode::Global, aux, english, limit);
    if 0 <= i < r.len() {
        assert(r[i] == fit[i]);
        s.lemma_filter_pred(f, i);
        s.lemma_filter_contains_rev(f, fit[i]);
        engine::law_fitting_means_beginning_with_the_code(r[i], aux, english);
    }
    if r.len() < limit && 0 <= i < s.len() && engine::fits_filter(s[i], aux, english) {
        assert(r =~= fit);
        s.lemma_filter_contains(f, i);
    }
}

/// The candidate for an entry shows its word, keeps both forms, its gloss and its strokes, and has for
/// a hint what is asked for. A heavier entry gives a heavier candidate.
pub proof fn law_entries_become_candidates(e: Entry, o: Entry, source: Seq<char>, level: u8)
    ensures
        ({
            let c = translators::tabled(e, source, level, DisplayMode::CharacterWithEnglish);
            let d = translators::tabled(o, source, level, DisplayMode::CharacterWithEnglish);
            &&& c.text == e.word && c.simplified == e.word
            &&& e.trad.len() > 0 ==> c.traditional == e.trad
            &&& e.trad.len() == 0 ==> c.traditional == e.word
            &&& c.english_aux == e.en && c.stroke_aux == e.stroke_aux
            &&& c.hint == e.en && c.match_level == level && c.flags == e.flags
            &&& e.weight > o.weight ==> c.weight > d.weight
        }),
        translators::tabled(e, source, level, DisplayMode::CharacterWithStroke).hint == e.stroke_aux,
        translators::tabled(e, source, level, DisplayMode::CharacterWithTone).hint == e.tone,
        translators::tabled(e, source, level, DisplayMode::CharacterOnly).hint.len() == 0,
{
}

/// Whether a candidate is one for one of some entries.
pub open spec fn is_for(c: Cand, es: Seq<Entry>, m: Manner) -> bool {
    exists|i: int|
        0 <= i < es.len() && c == translators::tabled(#[trigger] es[i], m.source, m.level, m.mode)
}

proof fn lemma_new_holds(s: Seq<Cand>, c: Cand, w: Seq<char>)
    ensures
        translators::holds(translators::with_new(s, c), c.simplified),
        translators::holds(s, w) ==> translators::holds(translators::with_new(s, c), w),
{
    let t = translators::with_new(s, c);
    if !translators::holds(s, c.simplified) {
        assert(t[s.len() as int].simplified == c.simplified);
    }
    if translators::holds(s, w) {
        let i = choose|i: int| 0 <= i < s.len() && (#[trigger] s[i]).simplified == w;
        assert(t[i].simplified == w);
    }
}

proof fn lemma_entries_held(s: Seq<Cand>, es: Seq<Entry>, m: Manner, n: int, i: int, w: Seq<char>)
    requires
        0 <= n <= es.len(),
    ensures
        translators::holds(s, w) ==> translators::holds(translators::with_entries(s, es, m, n), w),
        0 <= i < n ==> translators::holds(translators::with_entries(s, es, m, n), es[i].word),
        n > 0 && s.len() == 0 ==> translators::with_entries(s, es, m, n).len() > 0
            && translators::with_entries(s, es, m, n)[0] == translators::tabled(
            es[0],
            m.source,
            m.level,
            m.mode,
        ),
        forall|x: int|
            s.len() <= x < translators::with_entries(s, es, m, n).len() ==> is_for(
                #[trigger] translators::with_entries(s, es, m, n)[x],
                es,
                m,
            ),
    decreases n,
{
    if n > 0 {
        lemma_entries_held(s, es, m, n - 1, i, w);
        let before = translators::with_entries(s, es, m, n - 1);
        let c = translators::tabled(es[n - 1], m.source, m.level, m.mode);
        lemma_new_holds(before, c, w);
        if 0 <= i < n {
            lemma_new_holds(before, c, es[i].word);
        }
        let after = translators::with_entries(s, es, m, n);
        assert forall|x: int| s.len() <= x < after.len() implies is_for(#[trigger] after[x], es, m) by {
            if x < before.len() {
                assert(after[x] == before[x]);
            }
        }
        if n == 1 && s.len() == 0 {
            assert(before.len() == 0);
            assert(!translators::holds(before, c.simplified));
        }
    }
}

proof fn lemma_few(s: Seq<Cand>, es: Seq<Entry>, m: Manner, limit: int, n: int)
    requires
        0 <= n <= es.len(),
    ensures
        s.len() <= translators::with_few(s, es, m, limit, n).len(),
        translators::with_few(s, es, m, limit, n).take(s.len() as int) == s,
        forall|x: int|
            s.len() <= x < translators::with_few(s, es, m, limit, n).len() ==> is_for(
                #[trigger] translators::with_few(s, es, m, limit, n)[x],
                es,
                m,
            ),
    decreases n,
{
    assert(s.take(s.len() as int) =~= s);
    if n > 0 {
        lemma_few(s, es, m, limit, n - 1);
        let before = translators::with_few(s, es, m, limit, n - 1);
        let after = translators::with_few(s, es, m, limit, n);
        assert(after.take(s.len() as int) =~= before.take(s.len() as int));
        assert forall|x: int| s.len() <= x < after.len() implies is_for(#[trigger] after[x], es, m) by {
            if x < before.len() {
                assert(after[x] == before[x]);
            }
        }
    }
}

proof fn lemma_more(s: Seq<Cand>, es: Seq<Entry>, m: Manner, limit: int, n: int)
    requires
        0 <= n <= es.len(),
    ensures
        s.len() <= translators::with_more(s, es, m, limit, n).len(),
        translators::with_more(s, es, m, limit, n).take(s.len() as int) == s,
        forall|x: int|
            s.len() <= x < translators::with_more(s, es, m, limit, n).len() ==> is_for(
                #[trigger] translators::with_more(s, es, m, limit, n)[x],
                es,
                m,
            ),
    decreases n,
{
    assert(s.take(s.len() as int) =~= s);
    if n > 0 {
        lemma_more(s, es, m, limit, n - 1);
        let before = translators::with_more(s, es, m, limit, n - 1);
        let after = translators::with_more(s, es, m, limit, n);
        assert(after.take(s.len() as int) =~= before.take(s.len() as int));
        assert forall|x: int| s.len() <= x < after.len() implies is_for(#[trigger] after[x], es, m) by {
            if x < before.len() {
                assert(after[x] == before[x]);
            }
        }
    }
}

/// Whether a spelling is made of one variant for each place, from a place on.
pub open spec fn is_spelling(lists: Seq<Seq<Seq<char>>>, from: int, row: Seq<Seq<char>>) -> bool {
    &&& row.len() == lists.len() - from
    &&& forall|i: int| 0 <= i < row.len() ==> lists[from + i].contains(#[trigger] row[i])
}

/// Whether a candidate is one for a word under another spelling of what is searched for.
pub open spec fn is_fuzzy(f: Fuzzy, depth: int, letters: Seq<char>, c: Cand) -> bool {
    exists|row: Seq<Seq<char>>|
        is_spelling(f.lists, depth, row) && letters + #[trigger] segmentation::joined(row) != f.query
            && is_for(
            c,
            f.t.exact(letters + segmentation::joined(row)),
            translators::fuzzy_manner(f.mode),
        )
}

proof fn lemma_fuzzily(f: Fuzzy, depth: int, letters: Seq<char>, s: Seq<Cand>)
    requires
        0 <= depth <= f.lists.len(),
    ensures
        s.len() <= translators::fuzzily(f, depth, letters, s).len(),
        translators::fuzzily(f, depth, letters, s).take(s.len() as int) == s,
        forall|x: int|
            s.len() <= x < translators::fuzzily(f, depth, letters, s).len() ==> is_fuzzy(
                f,
                depth,
                letters,
                #[trigger] translators::fuzzily(f, depth, letters, s)[x],
            ),
    decreases f.lists.len() - depth, f.lists[depth].len() + 1,
{
    assert(s.take(s.len() as int) =~= s);
    if s.len() >= f.limit {
    } else if depth >= f.lists.len() {
        let es = f.t.exact(letters);
        let m = translators::fuzzy_manner(f.mode);
        lemma_few(s, es, m, f.limit, es.len() as int);
        let r = translators::fuzzily(f, depth, letters, s);
        assert forall|x: int| s.len() <= x < r.len() implies is_fuzzy(
            f,
            depth,
            letters,
            #[trigger] r[x],
        ) by {
            let row: Seq<Seq<char>> = Seq::empty();
            assert(letters + segmentation::joined(row) =~= letters);
            assert(is_spelling(f.lists, depth, row));
        }
    } else {
        lemma_fuzzily_over(f, depth, letters, s, f.lists[depth].len() as int);
    }
}

proof fn lemma_fuzzily_over(f: Fuzzy, depth: int, letters: Seq<char>, s: Seq<Cand>, n: int)
    requires
        0 <= depth < f.lists.len(),
        0 <= n <= f.lists[depth].len(),
    ensures
        s.len() <= translators::fuzzily_over(f, depth, letters, s, n).len(),
        translators::fuzzily_over(f, depth, letters, s, n).take(s.len() as int) == s,
        forall|x: int|
            s.len() <= x < translators::fuzzily_over(f, depth, letters, s, n).len() ==> is_fuzzy(
                f,
                depth,
                letters,
                #[trigger] translators::fuzzily_over(f, depth, letters, s, n)[x],
            ),
    decreases f.lists.len() - depth, n,
{
    assert(s.take(s.len() as int) =~= s);
    if n > 0 {
        lemma_fuzzily_over(f, depth, letters, s, n - 1);
        let before = translators::fuzzily_over(f, depth, letters, s, n - 1);
        let v = f.lists[depth][n - 1];
        let after = translators::fuzzily_over(f, depth, letters, s, n);
        if depth + 1 == f.lists.len() || f.t.begins(letters + v) {
            lemma_fuzzily(f, depth + 1, letters + v, before);
            assert(after.take(s.len() as int) =~= after.take(before.len() as int).take(
                s.len() as int,
            ));
            assert forall|x: int| s.len() <= x < after.len() implies is_fuzzy(
                f,
                depth,
                letters,
                #[trigger] after[x],
            ) by {
                if x < before.len() {
                    assert(after.take(before.len() as int)[x] == before[x]);
                } else {
                    assert(is_fuzzy(f, depth + 1, letters + v, after[x]));
                    lemma_longer_spelling(f, depth, letters, v, after[x]);
                }
            }
        }
    }
}

proof fn lemma_longer_spelling(f: Fuzzy, depth: int, letters: Seq<char>, v: Seq<char>, c: Cand)
    requires
        0 <= depth < f.lists.len(),
        f.lists[depth].contains(v),
        is_fuzzy(f, depth + 1, letters + v, c),
    ensures
        is_fuzzy(f, depth, letters, c),
{
    let row = choose|row: Seq<Seq<char>>|
        is_spelling(f.lists, depth + 1, row) && letters + v + #[trigger] segmentation::joined(row)
            != f.query && is_for(
            c,
            f.t.exact(letters + v + segmentation::joined(row)),
            translators::fuzzy_manner(f.mode),
        );
    let all = seq![v] + row;
    segmentation::law_joining_is_in_order(seq![v], row, v);
    assert(letters + segmentation::joined(all) =~= letters + v + segmentation::joined(row));
    assert forall|i: int| 0 <= i < all.len() implies f.lists[depth + i].contains(#[trigger] all[i]) by {
        if i > 0 {
            assert(all[i] == row[i - 1]);
            assert(f.lists[depth + 1 + (i - 1)].contains(row[i - 1]));
        }
    }
    assert(is_spelling(f.lists, depth, all));
}

/// The words under the very letters are found first, each of them, in the order of the dictionary;
/// what is found besides is for words under other spellings, for words that the syllables abbreviate,
/// or for words under keys that begin with the letters.
pub proof fn law_words_under_the_letters_come_first(
    t: Table,
    segs: Seq<Seq<char>>,
    config: Config,
    limit: int,
    i: int,
    x: int,
)
    requires
        0 <= i < t.t.exact(segmentation::joined(segs)).len(),
    ensures
        ({
            let q = segmentation::joined(segs);
            let es = t.t.exact(q);
            let r = t.found(segs, config, limit);
            let mode = config.input.display_mode;
            let m = Manner { source: "Table (Exact)"@, level: 3, mode };
            let lists = translators::variants_kept(
                t.variants,
                segs,
                config.input.fuzzy_config,
                segs.len() as int,
            ).1;
            &&& translators::holds(r, es[i].word)
            &&& r.len() > 0 && r[0].text == es[0].word && r[0].match_level == 3
            &&& 0 <= x < r.len() ==> {
                ||| is_for(r[x], es, m)
                ||| config.input.enable_fuzzy_pinyin && is_fuzzy(
                    (Fuzzy { t: t.t, lists, query: q, mode, limit }),
                    0,
                    Seq::empty(),
                    r[x],
                )
                ||| is_for(
                    r[x],
                    t.t.abbreviation(segs),
                    (Manner { source: "Table (Abbr)"@, level: 2, mode }),
                )
                ||| is_for(
                    r[x],
                    t.t.bfs(q, limit, None),
                    (Manner { source: "Table"@, level: 1, mode }),
                )
            }
        }),
{
    let q = segmentation::joined(segs);
    let es = t.t.exact(q);
    let mode = config.input.display_mode;
    let m = Manner { source: "Table (Exact)"@, level: 3, mode };
    let exact = translators::with_entries(Seq::empty(), es, m, es.len() as int);
    lemma_entries_held(Seq::empty(), es, m, es.len() as int, i, es[i].word);
    let lists = translators::variants_kept(
        t.variants,
        segs,
        config.input.fuzzy_config,
        segs.len() as int,
    ).1;
    let f = Fuzzy { t: t.t, lists, query: q, mode, limit };
    lemma_fuzzily(f, 0, Seq::empty(), exact);
    let first = t.spelled(segs, config, limit);
    assert(first.len() >= exact.len() && first.take(exact.len() as int) == exact) by {
        assert(exact.take(exact.len() as int) =~= exact);
    }
    let ab = t.t.abbreviation(segs);
    let be = t.t.bfs(q, limit, None);
    let ma = Manner { source: "Table (Abbr)"@, level: 2, mode };
    let mb = Manner { source: "Table"@, level: 1, mode };
    lemma_more(first, ab, ma, limit, ab.len() as int);
    lemma_more(first, be, mb, limit, be.len() as int);
    let r = t.found(segs, config, limit);
    assert(r.take(first.len() as int) == first && r.len() >= first.len());
    let k = choose|k: int| 0 <= k < exact.len() && (#[trigger] exact[k]).simplified == es[i].word;
    assert(first.take(exact.len() as int)[k] == first[k]);
    assert(r.take(first.len() as int)[k] == r[k]);
    assert(first.take(exact.len() as int)[0] == first[0]);
    assert(r.take(first.len() as int)[0] == r[0]);
    if 0 <= x < first.len() {
        assert(r.take(first.len() as int)[x] == r[x]);
        if x < exact.len() {
            assert(first.take(exact.len() as int)[x] == first[x]);
        }
    }
}

/// The variants that are held against the dictionary are those of each syllable, in their order.
pub proof fn law_variants_are_those_of_the_syllables(
    segs: Seq<Seq<char>>,
    f: crate::config::FuzzyPinyinConfig,
    n: int,
    i: int,
)
    requires
        0 <= i < n <= segs.len(),
    ensures
        translators::variants_kept(Seq::empty(), segs, f, n).1.len() == n,
        translators::variants_kept(Seq::empty(), segs, f, n).1[i] == fuzzy::variants(f, segs[i]),
    decreases n,
{
    lemma_variants(segs, f, n, i, segs[i]);
}

proof fn lemma_variants(
    segs: Seq<Seq<char>>,
    f: crate::config::FuzzyPinyinConfig,
    n: int,
    i: int,
    s: Seq<char>,
)
    requires
        0 <= n <= segs.len(),
    ensures
        translators::variants_kept(Seq::empty(), segs, f, n).1.len() == n,
        0 <= i < n ==> translators::variants_kept(Seq::empty(), segs, f, n).1[i] == fuzzy::variants(
            f,
            segs[i],
        ),
        strmap::lookup(translators::variants_kept(Seq::empty(), segs, f, n).0, s) matches Some(v)
            ==> v == fuzzy::variants(f, s),
    decreases n,
{
    if n > 0 {
        lemma_variants(segs, f, n - 1, i, s);
        lemma_variants(segs, f, n - 1, i, segs[n - 1]);
        let k = translators::variants_kept(Seq::empty(), segs, f, n - 1).0;
        strmap::law_put_lookup(k, segs[n - 1], fuzzy::variants(f, segs[n - 1]), s);
    } else {
        strmap::lemma_absent::<Seq<Seq<char>>>(Seq::empty(), s);
    }
}

/// What is used again of what was found last begins with the letters, and nothing that does is left
/// out but for the limit.
pub proof fn law_found_words_are_used_again(t: Table, query: Seq<char>, limit: int, i: int)
    requires
        limit >= 0,
    ensures
        ({
            let r = t.reused(query, limit);
            &&& r.len() <= limit
            &&& 0 <= i < r.len() ==> t.cached.contains(r[i]) && query.len() <= r[i].simplified.len()
                && r[i].simplified.take(query.len() as int) == query
            &&& r.len() < limit && 0 <= i < t.cached.len() && query.len()
                <= t.cached[i].simplified.len() && t.cached[i].simplified.take(query.len() as int)
                == query ==> r.contains(t.cached[i])
        }),
{
    let f = translators::beginning(query);
    let left = t.cached.filter(f);
    let r = t.reused(query, limit);
    if 0 <= i < r.len() {
        assert(r[i] == left[i]);
        t.cached.lemma_filter_pred(f, i);
        t.cached.lemma_filter_contains_rev(f, left[i]);
    }
    if r.len() < limit && 0 <= i < t.cached.len() && f(t.cached[i]) {
        assert(r =~= left);
        t.cached.lemma_filter_contains(f, i);
    }
}

/// Whether a word is that of the heaviest of some entries, the last of them where several are.
pub open spec fn is_heaviest(es: Seq<Entry>, w: Seq<char>) -> bool {
    exists|k: int|
        0 <= k < es.len() && (#[trigger] es[k]).word == w && (forall|j: int|
            0 <= j < es.len() ==> (#[trigger] es[j]).weight <= es[k].weight) && (forall|j: int|
            k < j < es.len() ==> (#[trigger] es[j]).weight < es[k].weight)
}

proof fn lemma_heaviest(es: Seq<Entry>, n: int) -> (k: int)
    requires
        0 < n <= es.len(),
    ensures
        0 <= k < n,
        sentences::heaviest(es, n) == es[k],
        forall|j: int| 0 <= j < n ==> (#[trigger] es[j]).weight <= es[k].weight,
        forall|j: int| k < j < n ==> (#[trigger] es[j]).weight < es[k].weight,
    decreases n,
{
    if n > 1 {
        let k = lemma_heaviest(es, n - 1);
        if es[n - 1].weight >= es[k].weight {
            n - 1
        } else {
            k
        }
    } else {
        0
    }
}

/// Whether cuts follow one another from one place to another, each a word of one syllable or of
/// several that stand in the dictionary.
pub open spec fn is_way(t: TrieView, base: Seq<Seq<char>>, from: int, way: Seq<Cut>) -> bool {
    &&& way.len() == 0 ==> from >= base.len()
    &&& way.len() > 0 ==> way[0].0 == from && way.last().1 == base.len()
    &&& forall|i: int| 0 <= i < way.len() ==> is_word(t, base, #[trigger] way[i])
    &&& forall|i: int, j: int|
        0 <= i && j == i + 1 && j < way.len() ==> (#[trigger] way[i]).1 == (#[trigger] way[j]).0
}

/// Whether a cut is one syllable, or up to four under whose letters the dictionary has an entry.
pub open spec fn is_word(t: TrieView, base: Seq<Seq<char>>, c: Cut) -> bool {
    &&& c.0 < c.1 <= base.len()
    &&& c.1 - c.0 <= 4
    &&& c.1 - c.0 == 1 || t.exact(
        segmentation::joined(base.subrange(c.0 as int, c.1 as int)),
    ).len() > 0
}

proof fn lemma_longer_way(t: TrieView, base: Seq<Seq<char>>, c: Cut, way: Seq<Cut>)
    requires
        is_word(t, base, c),
        is_way(t, base, c.1 as int, way),
    ensures
        is_way(t, base, c.0 as int, seq![c] + way),
{
    let all = seq![c] + way;
    assert forall|i: int| 0 <= i < all.len() implies is_word(t, base, #[trigger] all[i]) by {
        if i > 0 {
            assert(all[i] == way[i - 1]);
        }
    }
    assert forall|i: int, j: int| 0 <= i && j == i + 1 && j < all.len() implies (#[trigger] all[i]).1
        == (#[trigger] all[j]).0 by {
        assert(all[j] == way[j - 1]);
        if i > 0 {
            assert(all[i] == way[i - 1]);
        }
    }
    if way.len() > 0 {
        assert(all.last() == way.last());
    }
}

proof fn lemma_shorter_way(t: TrieView, base: Seq<Seq<char>>, from: int, way: Seq<Cut>)
    requires
        is_way(t, base, from, way),
        way.len() > 0,
    ensures
        is_way(t, base, way[0].1 as int, way.skip(1)),
        seq![way[0]] + way.skip(1) == way,
{
    let r = way.skip(1);
    assert(seq![way[0]] + r =~= way);
    assert forall|i: int| 0 <= i < r.len() implies is_word(t, base, #[trigger] r[i]) by {
        assert(r[i] == way[i + 1]);
    }
    assert forall|i: int, j: int| 0 <= i && j == i + 1 && j < r.len() implies (#[trigger] r[i]).1 == (
    #[trigger] r[j]).0 by {
        assert(r[i] == way[i + 1] && r[j] == way[j + 1]);
    }
    if r.len() > 0 {
        assert(r[0] == way[1]);
        assert(way[0].1 == way[1].0);
        assert(r.last() == way.last());
    }
}

/// Syllables are cut into words in all ways that there are, and in no other way.
pub proof fn law_syllables_are_cut_in_all_ways(
    t: TrieView,
    base: Seq<Seq<char>>,
    pos: int,
    way: Seq<Cut>,
)
    requires
        0 <= pos <= base.len() <= usize::MAX,
    ensures
        sentences::ways_from(t, base, pos).contains(way) <==> is_way(t, base, pos, way),
    decreases base.len() - pos, 5int,
{
    let ways = sentences::ways_from(t, base, pos);
    if pos >= base.len() {
        assert(ways[0] =~= Seq::empty());
        if is_way(t, base, pos, way) {
            if way.len() > 0 {
                assert(is_word(t, base, way[0]));
            }
            assert(way =~= ways[0]);
        }
    } else {
        let k = trie::least(sentences::MAX_WORD as int, base.len() - pos);
        lemma_ways_over(t, base, pos, k, way);
        if is_way(t, base, pos, way) {
            assert(is_word(t, base, way[0]));
        }
    }
}

proof fn lemma_ways_over(t: TrieView, base: Seq<Seq<char>>, pos: int, k: int, way: Seq<Cut>)
    requires
        0 <= pos < base.len() <= usize::MAX,
        0 <= k <= 4,
        pos + k <= base.len(),
    ensures
        sentences::ways_over(t, base, pos, k).contains(way) <==> is_way(t, base, pos, way)
            && way.len() > 0 && way[0].1 - pos <= k,
    decreases base.len() - pos, k,
{
    if k > 0 {
        lemma_ways_over(t, base, pos, k - 1, way);
        let before = sentences::ways_over(t, base, pos, k - 1);
        let all = sentences::ways_over(t, base, pos, k);
        let c: Cut = (pos as usize, (pos + k) as usize);
        let more = sentences::ways_from(t, base, pos + k);
        let led = sentences::led_by(c, more);
        let word = k == 1 || t.exact(sentences::letters_between(base, pos, pos + k)).len() > 0;
        assert(word == is_word(t, base, c));
        if before.contains(way) {
            let i = choose|i: int| 0 <= i < before.len() && before[i] == way;
            assert(all[i] == way);
        }
        if all.contains(way) && !before.contains(way) {
            let i = choose|i: int| 0 <= i < all.len() && all[i] == way;
            if i < before.len() {
                assert(before[i] == way);
            }
            assert(word);
            let j = i - before.len();
            assert(all[i] == led[j]);
            assert(led[j] == seq![c] + more[j]);
            assert(more.contains(more[j]));
            law_syllables_are_cut_in_all_ways(t, base, pos + k, more[j]);
            lemma_longer_way(t, base, c, more[j]);
            assert(way[0] == c);
        }
        if is_way(t, base, pos, way) && way.len() > 0 && way[0].1 - pos == k {
            lemma_shorter_way(t, base, pos, way);
            assert(is_word(t, base, way[0]));
            assert(way[0] == c);
            law_syllables_are_cut_in_all_ways(t, base, pos + k, way.skip(1));
            let j = choose|j: int| 0 <= j < more.len() && more[j] == way.skip(1);
            assert(led[j] == seq![c] + more[j]);
            assert(all[before.len() + j] == way);
        }
    } else {
        if is_way(t, base, pos, way) && way.len() > 0 {
            assert(is_word(t, base, way[0]));
        }
    }
}

/// A sentence is made of the heaviest words under the letters of its cuts, in their order.
pub proof fn law_sentences_join_the_heaviest_words(
    t: TrieView,
    freq: Map<Seq<char>, u64>,
    base: Seq<Seq<char>>,
    way: Seq<Cut>,
    n: int,
    words: Seq<Seq<char>>,
)
    requires
        0 <= n == words.len() <= way.len(),
        forall|i: int|
            0 <= i < n ==> is_heaviest(
                t.exact(
                    sentences::letters_between(
                        base,
                        (#[trigger] way[i]).0 as int,
                        way[i].1 as int,
                    ),
                ),
                words[i],
            ),
    ensures
        sentences::sentence(t, freq, base, way, n) is Some,
        (sentences::sentence(t, freq, base, way, n)->0).0 == segmentation::joined(words),
    decreases n,
{
    if n > 0 {
        let d = words.drop_last();
        assert forall|i: int| 0 <= i < n - 1 implies is_heaviest(
            t.exact(
                sentences::letters_between(base, (#[trigger] way[i]).0 as int, way[i].1 as int),
            ),
            d[i],
        ) by {
            assert(d[i] == words[i]);
        }
        law_sentences_join_the_heaviest_words(t, freq, base, way, n - 1, d);
        let c = way[n - 1];
        let es = t.exact(sentences::letters_between(base, c.0 as int, c.1 as int));
        assert(is_heaviest(es, words[n - 1]));
        let a = lemma_heaviest(es, es.len() as int);
        let b = choose|k: int|
            0 <= k < es.len() && (#[trigger] es[k]).word == words[n - 1] && (forall|j: int|
                0 <= j < es.len() ==> (#[trigger] es[j]).weight <= es[k].weight) && (forall|j: int|
                k < j < es.len() ==> (#[trigger] es[j]).weight < es[k].weight);
        assert(es[a].weight == es[b].weight);
        assert(a == b);
        segmentation::law_joining_is_in_order(d, seq![words[n - 1]], words[n - 1]);
        assert(d + seq![words[n - 1]] =~= words);
    }
}

/// A sentence counts as often as the letters of all of its cuts are typed together.
pub proof fn law_sentences_add_up(
    t: TrieView,
    freq: Map<Seq<char>, u64>,
    base: Seq<Seq<char>>,
    way: Seq<Cut>,
    n: int,
    counts: Seq<int>,
)
    requires
        0 <= n == counts.len() <= way.len(),
        forall|i: int|
            0 <= i < n ==> {
                let letters = segmentation::joined(
                    base.subrange((#[trigger] way[i]).0 as int, way[i].1 as int),
                );
                &&& freq.contains_key(letters) ==> counts[i] == freq[letters]
                &&& !freq.contains_key(letters) ==> counts[i] == 0
            },
        sentences::sentence(t, freq, base, way, n) is Some,
    ensures
        (sentences::sentence(t, freq, base, way, n)->0).1 == counts.fold_left(
            0int,
            |a: int, b: int| a + b,
        ),
    decreases n,
{
    if n > 0 {
        let d = counts.drop_last();
        assert forall|i: int| 0 <= i < n - 1 implies {
            let letters = segmentation::joined(
                base.subrange((#[trigger] way[i]).0 as int, way[i].1 as int),
            );
            &&& freq.contains_key(letters) ==> d[i] == freq[letters]
            &&& !freq.contains_key(letters) ==> d[i] == 0
        } by {
            assert(d[i] == counts[i]);
        }
        assert(sentences::sentence(t, freq, base, way, n - 1) is Some);
        law_sentences_add_up(t, freq, base, way, n - 1, d);
        let letters = segmentation::joined(
            base.subrange(way[n - 1].0 as int, way[n - 1].1 as int),
        );
        assert(counts[n - 1] == sentences::freq_of(freq, letters));
    }
}

/// Where no word stands under the letters of a cut, there is no sentence of it.
pub proof fn law_no_sentence_without_words(
    t: TrieView,
    freq: Map<Seq<char>, u64>,
    base: Seq<Seq<char>>,
    way: Seq<Cut>,
    n: int,
    i: int,
)
    requires
        0 <= i < n <= way.len(),
        t.exact(
            sentences::letters_between(base, way[i].0 as int, way[i].1 as int),
        ).len() == 0,
    ensures
        sentences::sentence(t, freq, base, way, n) is None,
    decreases n,
{
    if i < n - 1 {
        law_no_sentence_without_words(t, freq, base, way, n - 1, i);
    }
}

/// No more than six sentences are offered; those of fewer words come first, and of as many words those
/// that are typed more often.
pub proof fn law_best_sentences_come_first(l: Seq<(Seq<char>, (int, int))>, i: int, j: int)
    requires
        0 <= i < j < sentences::best_sentences(l).len(),
    ensures
        sentences::best_sentences(l).len() <= 6,
        exists|a: (Seq<char>, (int, int)), b: (Seq<char>, (int, int))|
            #[trigger] l.contains(a) && #[trigger] l.contains(b) && sentences::best_sentences(l)[i].text
                == a.0 && sentences::best_sentences(l)[j].text == b.0 && ((a.1).0 < (b.1).0 || ((a.1).0
                == (b.1).0 && (a.1).1 >= (b.1).1)),
{
    let a = order::arranged(l, sentences::better());
    order::law_arranged_keeps_items(l, sentences::better());
    order::law_arranged_in_order(l, sentences::better());
    order::lemma_arranged_contains(l, sentences::better(), a[i]);
    order::lemma_arranged_contains(l, sentences::better(), a[j]);
    assert(a.contains(a[i]) && a.contains(a[j]));
    assert(!sentences::better()(a[j], a[i]));
    assert(l.contains(a[i]) && l.contains(a[j]));
}

/// A sentence keeps the better of two ranks, whichever came first, and the ranks of others stay.
pub proof fn law_best_rank_of_a_sentence_is_kept(
    l: Seq<(Seq<char>, (int, int))>,
    x: Seq<char>,
    r: (int, int),
    other: Seq<char>,
)
    ensures
        ({
            let m = sentences::with_sentence(l, x, r);
            let k = strmap::lookup(m, x);
            &&& k is Some
            &&& k->0 == r || Some(k->0) == strmap::lookup(l, x)
            &&& !sentences::ranks_before(r, k->0)
            &&& strmap::lookup(l, x) matches Some(o) ==> !sentences::ranks_before(o, k->0)
            &&& other != x ==> strmap::lookup(m, other) == strmap::lookup(l, other)
        }),
{
    strmap::law_put_lookup(l, x, r, other);
}

/// The words of the user under the very letters are offered, all of them in their order and each by
/// how often it was used.
pub proof fn law_words_of_the_user_are_offered(
    d: userdict::UserWords,
    p: userdict::ProfileWords,
    profile: Seq<char>,
    t: Option<TrieView>,
    query: Seq<char>,
    l: Seq<(Seq<char>, u32)>,
    i: int,
)
    requires
        strmap::lookup(d, profile) == Some(p),
        strmap::lookup(p, query) == Some(l),
        chinese::has_vowel(query),
        0 <= i < l.len(),
    ensures
        sentences::user_words(d, profile, t, query).len() == l.len(),
        sentences::user_words(d, profile, t, query)[i].text == l[i].0,
        sentences::user_words(d, profile, t, query)[i].weight == l[i].1 * 1000,
        sentences::user_words(d, profile, t, query)[i].match_level == 3,
{
}

/// Without a word under the very letters, those under keys that begin with the letters are offered.
pub proof fn law_words_under_longer_keys_are_offered(
    d: userdict::UserWords,
    p: userdict::ProfileWords,
    profile: Seq<char>,
    t: Option<TrieView>,
    query: Seq<char>,
    i: int,
    j: int,
)
    requires
        strmap::lookup(d, profile) == Some(p),
        strmap::lookup(p, query) is None,
        chinese::has_vowel(query),
        0 <= i < p.len(),
        query.len() <= p[i].0.len(),
        p[i].0.take(query.len() as int) == query,
        0 <= j < p[i].1.len(),
    ensures
        translators::holds(sentences::user_words(d, profile, t, query), (p[i].1)[j].0),
{
    let f = sentences::key_begins(query);
    let kept = p.filter(f);
    let keys = order::arranged(kept, sentences::shorter_key());
    p.lemma_filter_contains(f, i);
    order::lemma_arranged_contains(kept, sentences::shorter_key(), p[i]);
    let a = choose|a: int| 0 <= a < keys.len() && keys[a] == p[i];
    lemma_under_keys(t, keys, keys.len() as int, a, j);
}

proof fn lemma_words_held(
    s: Seq<Cand>,
    t: Option<TrieView>,
    key: Seq<char>,
    l: Seq<(Seq<char>, u32)>,
    n: int,
    j: int,
    w: Seq<char>,
)
    requires
        0 <= n <= l.len(),
    ensures
        translators::holds(s, w) ==> translators::holds(sentences::with_words(s, t, key, l, n), w),
        0 <= j < n ==> translators::holds(sentences::with_words(s, t, key, l, n), l[j].0),
    decreases n,
{
    if n > 0 {
        lemma_words_held(s, t, key, l, n - 1, j, w);
        let before = sentences::with_words(s, t, key, l, n - 1);
        let c = sentences::user_word(t, key, l[n - 1], false);
        lemma_new_holds(before, c, w);
        if 0 <= j < n {
            lemma_new_holds(before, c, l[j].0);
        }
    }
}

proof fn lemma_under_keys(
    t: Option<TrieView>,
    p: userdict::ProfileWords,
    n: int,
    a: int,
    j: int,
)
    requires
        0 <= a < n <= p.len(),
        0 <= j < p[a].1.len(),
    ensures
        translators::holds(sentences::words_under_keys(t, p, n), (p[a].1)[j].0),
    decreases n,
{
    let l = p[n - 1].1;
    let before = sentences::words_under_keys(t, p, n - 1);
    if a == n - 1 {
        lemma_words_held(before, t, p[n - 1].0, l, l.len() as int, j, l[j].0);
    } else {
        lemma_under_keys(t, p, n - 1, a, j);
        lemma_words_held(before, t, p[n - 1].0, l, l.len() as int, 0, (p[a].1)[j].0);
    }
}

/// The filter for the form shows the form that is asked for and changes nothing else.
pub proof fn law_form_that_is_asked_for_is_shown(s: Seq<Cand>, i: int)
    requires
        0 <= i < s.len(),
    ensures
        candidate::all_shown(s, true).len() == s.len(),
        candidate::all_shown(s, true)[i] == (Cand { text: s[i].traditional, ..s[i] }),
        candidate::all_shown(s, false)[i] == (Cand { text: s[i].simplified, ..s[i] }),
        candidate::all_shown(candidate::all_shown(s, true), false) == candidate::all_shown(s, false),
{
    assert(candidate::all_shown(candidate::all_shown(s, true), false) =~= candidate::all_shown(
        s,
        false,
    ));
}

/// Ranked by the words before, no candidate is lost, and the weightiest comes first.
pub proof fn law_ranked_by_the_words_before(
    s: Seq<Cand>,
    ngram: userdict::UserWords,
    profile: Seq<char>,
    v: FilterView,
    i: int,
    j: int,
)
    requires
        0 <= i < j < s.len(),
    ensures
        candidate::adapted(s, ngram, profile, v).len() == s.len(),
        candidate::adapted(s, ngram, profile, v)[i].weight >= candidate::adapted(
            s,
            ngram,
            profile,
            v,
        )[j].weight,
        strmap::lookup(ngram, profile) is None ==> candidate::adapted(
            s,
            ngram,
            profile,
            v,
        ).to_multiset() == s.to_multiset(),
        strmap::lookup(ngram, profile) is Some && v.config.options.enable_context_sorting
            ==> candidate::adapted(s, ngram, profile, v).contains(
            candidate::in_context(s[i], strmap::lookup(ngram, profile)->0, v),
        ),
{
    let w = candidate::weightier();
    let t = if strmap::lookup(ngram, profile) is Some && v.config.options.enable_context_sorting {
        let p = strmap::lookup(ngram, profile)->0;
        s.map_values(|c: Cand| candidate::in_context(c, p, v))
    } else {
        s
    };
    let a = order::arranged(t, w);
    assert(candidate::adapted(s, ngram, profile, v) == a);
    order::law_arranged_keeps_items(t, w);
    order::law_arranged_in_order(t, w);
    assert(!w(a[j], a[i]));
    if strmap::lookup(ngram, profile) is Some && v.config.options.enable_context_sorting {
        assert(t.contains(t[i]));
        order::lemma_arranged_contains(t, w, t[i]);
    }
}

/// A word that has followed the word before gains weight by how often it has, up to forty times; one
/// that has not gains nothing.
pub proof fn law_followers_are_preferred(
    c: Cand,
    p: userdict::ProfileWords,
    v: FilterView,
    before: Seq<char>,
    l: Seq<(Seq<char>, u32)>,
    n: u32,
)
    requires
        v.context == Some(before),
        v.pair is None,
        strmap::lookup(p, before) == Some(l),
        -1000000000000000 <= c.weight <= 1000000000000000,
    ensures
        chinese::last_count(l, c.simplified) == Some(n) && n <= 40 ==> candidate::in_context(
            c,
            p,
            v,
        ).weight == c.weight + 50000000000 * n,
        chinese::last_count(l, c.simplified) == Some(n) && n > 40 ==> candidate::in_context(
            c,
            p,
            v,
        ).weight == c.weight + 2000000000000,
        chinese::last_count(l, c.simplified) is None ==> candidate::in_context(c, p, v) == c,
        candidate::in_context(c, p, v).text == c.text,
{
}

/// Letters that the user has parted have the syllables of both parts; without a parting they have one.
pub proof fn law_partings_part_syllables(a: Seq<char>, c: char, b: Seq<char>)
    requires
        c == ' ' || c == '\'' || c == ';',
        a.len() > 0,
        b.len() > 0,
    ensures
        candidate::syllables_guessed(a + seq![c] + b) == candidate::syllables_guessed(a)
            + candidate::syllables_guessed(b),
        (forall|i: int| 0 <= i < a.len() ==> (#[trigger] a[i]) != ' ' && a[i] != '\'' && a[i] != ';')
            ==> candidate::syllables_guessed(a) == 1,
{
    lemma_partings(a, seq![c]);
    lemma_partings(a + seq![c], b);
    assert(seq![c].drop_last() =~= Seq::<char>::empty());
    assert(candidate::partings(seq![c]) == 1) by {
        assert(candidate::partings(seq![c].drop_last()) == 0);
    }
    if forall|i: int| 0 <= i < a.len() ==> (#[trigger] a[i]) != ' ' && a[i] != '\'' && a[i] != ';' {
        lemma_no_partings(a);
    }
}

proof fn lemma_partings(a: Seq<char>, b: Seq<char>)
    ensures
        candidate::partings(a + b) == candidate::partings(a) + candidate::partings(b),
    decreases b.len(),
{
    if b.len() > 0 {
        lemma_partings(a, b.drop_last());
        assert((a + b).drop_last() =~= a + b.drop_last());
    } else {
        assert(a + b =~= a);
    }
}

proof fn lemma_no_partings(a: Seq<char>)
    requires
        forall|i: int| 0 <= i < a.len() ==> (#[trigger] a[i]) != ' ' && a[i] != '\'' && a[i] != ';',
    ensures
        candidate::partings(a) == 0,
    decreases a.len(),
{
    if a.len() > 0 {
        assert forall|i: int| 0 <= i < a.drop_last().len() implies (#[trigger] a.drop_last()[i]) != ' '
            && a.drop_last()[i] != '\'' && a.drop_last()[i] != ';' by {
            assert(a.drop_last()[i] == a[i]);
        }
        lemma_no_partings(a.drop_last());
        assert(a[a.len() - 1] == a.last());
    }
}

/// Of words of one level and weight the one with more characters than the letters have syllables
/// scores less, and an exact match scores more than any other of like weight.
pub proof fn law_longer_words_score_less(a: Cand, b: Cand, input: Seq<char>, bonus: i64)
    requires
        a.weight == b.weight,
        -1000000000 <= a.weight <= 1000000000,
        0 <= bonus <= 1000000000,
        a.simplified.len() <= 1000,
        b.simplified.len() <= 1000,
    ensures
        a.match_level == b.match_level && candidate::syllables_guessed(input) <= a.simplified.len()
            < b.simplified.len() ==> candidate::scored(a, input, bonus).weight > candidate::scored(
            b,
            input,
            bonus,
        ).weight,
        a.match_level == 3 && b.match_level < 3 && a.simplified.len() <= b.simplified.len()
            ==> candidate::scored(a, input, bonus).weight > candidate::scored(b, input, bonus).weight,
{
    lemma_partings_count(input);
}

proof fn lemma_partings_count(s: Seq<char>)
    ensures
        candidate::partings(s) >= 0,
    decreases s.len(),
{
    if s.len() > 0 {
        lemma_partings_count(s.drop_last());
    }
}


/// Filters come one after the other, the first ones first.
pub proof fn law_filters_follow_one_another<'a>(
    fs: Seq<pipeline::AnyFilter<'a>>,
    gs: Seq<pipeline::AnyFilter<'a>>,
    s: Seq<Cand>,
    v: FilterView,
    n: int,
)
    requires
        0 <= n <= gs.len(),
    ensures
        pipeline::filtered_by(fs + gs, s, v, fs.len() + n) == pipeline::filtered_by(
            gs,
            pipeline::filtered_by(fs, s, v, fs.len() as int),
            v,
            n,
        ),
    decreases n,
{
    if n > 0 {
        law_filters_follow_one_another(fs, gs, s, v, n - 1);
        assert((fs + gs)[fs.len() + n - 1] == gs[n - 1]);
    } else {
        lemma_filters_behind(fs, gs, s, v, fs.len() as int);
    }
}

proof fn lemma_filters_behind<'a>(
    fs: Seq<pipeline::AnyFilter<'a>>,
    gs: Seq<pipeline::AnyFilter<'a>>,
    s: Seq<Cand>,
    v: FilterView,
    n: int,
)
    requires
        0 <= n <= fs.len(),
    ensures
        pipeline::filtered_by(fs + gs, s, v, n) == pipeline::filtered_by(fs, s, v, n),
    decreases n,
{
    if n > 0 {
        lemma_filters_behind(fs, gs, s, v, n - 1);
        assert((fs + gs)[n - 1] == fs[n - 1]);
    }
}

/// Sentences are put together of as many syllables as are asked for, two at least and twelve at most,
/// and not where a longer word goes on behind all syllables but the last.
pub proof fn law_sentences_have_enough_syllables(
    t: TrieView,
    k: segmentation::Syllables,
    input: Seq<char>,
    min: u32,
)
    requires
        sentences::put_together(t, k, input, min).len() > 0,
    ensures
        ({
            let n = segmentation::viterbi(k, input).len();
            &&& min <= n
            &&& 2 <= n <= 12
            &&& !t.goes_on(
                segmentation::joined(segmentation::viterbi(k, input).subrange(0, n - 1)),
            )
        }),
{
}

/// A word of the user has the traditional form, the gloss and the strokes that the dictionary has for it
/// under its key, and otherwise itself for its traditional form.
pub proof fn law_words_of_the_user_know_the_dictionary(
    t: TrieView,
    key: Seq<char>,
    w: (Seq<char>, u32),
    e: Entry,
    k: int,
)
    requires
        0 <= k < t.exact(key).len(),
        t.exact(key)[k] == e,
        forall|i: int| 0 <= i < k ==> (#[trigger] t.exact(key)[i]).word != w.0,
    ensures
        e.word == w.0 ==> {
            let c = sentences::user_word(Some(t), key, w, true);
            &&& c.english_aux == e.en
            &&& c.stroke_aux == e.stroke_aux
            &&& e.trad.len() > 0 ==> c.traditional == e.trad
            &&& e.trad.len() == 0 ==> c.traditional == w.0
        },
        sentences::user_word(None, key, w, true).traditional == w.0,
        sentences::user_word(Some(t), key, w, false).hint == key,
{
    if e.word == w.0 {
        lemma_first_entry(t.exact(key), w.0, k);
    }
}

proof fn lemma_first_entry(s: Seq<Entry>, w: Seq<char>, k: int)
    requires
        0 <= k < s.len(),
        s[k].word == w,
        forall|i: int| 0 <= i < k ==> (#[trigger] s[i]).word != w,
    ensures
        chinese::entry_with(s, w) == Some(s[k]),
    decreases s.len(),
{
    if k > 0 {
        assert(s[0].word != w);
        let d = s.drop_first();
        assert forall|i: int| 0 <= i < k - 1 implies (#[trigger] d[i]).word != w by {
            assert(d[i] == s[i + 1]);
        }
        lemma_first_entry(d, w, k - 1);
    }
}

/// A word that has followed the two words before gains weight by how often it has, up to forty times.
pub proof fn law_followers_of_two_words_are_preferred(
    c: Cand,
    p: userdict::ProfileWords,
    v: FilterView,
    a: Seq<char>,
    b: Seq<char>,
    l: Seq<(Seq<char>, u32)>,
    n: u32,
)
    requires
        v.context is None,
        v.pair == Some((a, b)),
        strmap::lookup(p, a + seq!['|'] + b) == Some(l),
        -1000000000000000 <= c.weight <= 1000000000000000,
    ensures
        strmap::lookup(l, c.simplified) == Some(n) && n <= 40 ==> candidate::in_context(c, p, v).weight
            == c.weight + 60000000000 * n,
        strmap::lookup(l, c.simplified) == Some(n) && n > 40 ==> candidate::in_context(c, p, v).weight
            == c.weight + 2400000000000,
        strmap::lookup(l, c.simplified) is None ==> candidate::in_context(c, p, v) == c,
{
}

/// Syllables abbreviate where one of several is a single letter.
pub proof fn law_single_letters_abbreviate(segs: Seq<Seq<char>>, i: int)
    requires
        0 <= i < segs.len(),
    ensures
        segs.len() > 1 && text::byte_len(segs[i]) == 1 ==> translators::abbreviates(segs),
        segs.len() == 1 ==> !translators::abbreviates(segs),
        translators::abbreviates(segs) ==> exists|j: int|
            0 <= j < segs.len() && text::byte_len(#[trigger] segs[j]) == 1,
{
}


/// Words that syllables abbreviate are looked for only where the settings have it; then they take the
/// place of those under longer keys.
pub proof fn law_abbreviations_are_asked_for(
    t: Table,
    segs: Seq<Seq<char>>,
    config: Config,
    limit: int,
    x: int,
)
    requires
        t.spelled(segs, config, limit).len() <= x < t.found(segs, config, limit).len(),
    ensures
        ({
            let r = t.found(segs, config, limit);
            let mode = config.input.display_mode;
            let asked = t.abbreviates && translators::abbreviates(segs)
                && config.input.enable_abbreviation_matching;
            &&& asked ==> is_for(
                r[x],
                t.t.abbreviation(segs),
                (Manner { source: "Table (Abbr)"@, level: 2, mode }),
            )
            &&& !asked ==> is_for(
                r[x],
                t.t.bfs(segmentation::joined(segs), limit, None),
                (Manner { source: "Table"@, level: 1, mode }),
            )
        }),
{
    let mode = config.input.display_mode;
    let first = t.spelled(segs, config, limit);
    let ab = t.t.abbreviation(segs);
    let be = t.t.bfs(segmentation::joined(segs), limit, None);
    lemma_more(
        first,
        ab,
        Manner { source: "Table (Abbr)"@, level: 2, mode },
        limit,
        ab.len() as int,
    );
    lemma_more(first, be, Manner { source: "Table"@, level: 1, mode }, limit, be.len() as int);
}

/// The bonus goes to exact matches, and to no other.
pub proof fn law_bonus_goes_to_exact_matches(c: Cand, input: Seq<char>, bonus: i64)
    requires
        -1000000000 <= c.weight <= 1000000000,
        0 <= bonus <= 1000000000,
        c.simplified.len() <= 1000,
    ensures
        c.match_level == 3 ==> candidate::scored(c, input, bonus).weight == candidate::scored(
            c,
            input,
            0,
        ).weight + bonus,
        c.match_level != 3 ==> candidate::scored(c, input, bonus) == candidate::scored(c, input, 0),
{
    lemma_partings_count(input);
}

/// Sentences are put together only of as many syllables as the settings say.
pub proof fn law_settings_say_when_sentences_begin(
    t: TrieView,
    y: segmentation::Syllables,
    k: Task,
)
    requires
        Translation::Compose(t, y).translated(k).1.len() > 0,
    ensures
        segmentation::viterbi(y, k.input).len() >= k.config.options.auto_sentence_min_syllables,
{
}


} // verus!
