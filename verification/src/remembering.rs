//! What is promised of learning: what is put out is remembered, new words are learned, and words that
//! are known are not.

use vstd::prelude::*;
use crate::chinese;
use crate::commands;
use crate::config_manager;
use crate::config_manager::Store;
use crate::context::World;
use crate::learning;
use crate::memory;
use crate::order;
use crate::session_state;
use crate::strmap;
use crate::trie::TrieView;
use crate::userdict;

verus! {

proof fn lemma_total_grows(p: userdict::ProfileWords, n: int, m: int)
    requires
        0 <= m <= n <= p.len(),
    ensures
        0 <= memory::total(p, m) <= memory::total(p, n),
    decreases n,
{
    if m < n {
        lemma_total_grows(p, n - 1, m);
    } else if n > 0 {
        lemma_total_grows(p, n - 1, n - 1);
    }
}

proof fn lemma_total_changed(p: userdict::ProfileWords, i: int, e: (Seq<char>, memory::Words), n: int)
    requires
        0 <= i < p.len(),
        0 <= n <= p.len(),
    ensures
        memory::total(p.update(i, e), n) == memory::total(p, n) + (if i < n {
            e.1.len() - p[i].1.len()
        } else {
            0
        }),
    decreases n,
{
    if n > 0 {
        lemma_total_changed(p, i, e, n - 1);
    }
}

proof fn lemma_total_pushed(p: userdict::ProfileWords, e: (Seq<char>, memory::Words), n: int)
    requires
        0 <= n <= p.len(),
    ensures
        memory::total(p.push(e), n) == memory::total(p, n),
    decreases n,
{
    if n > 0 {
        lemma_total_pushed(p, e, n - 1);
    }
}

proof fn lemma_total_put(p: userdict::ProfileWords, key: Seq<char>, l: memory::Words)
    ensures
        memory::total(strmap::put(p, key, l), strmap::put(p, key, l).len() as int)
            == memory::total(p, p.len() as int) + l.len() - memory::words_or_none(p, key).len(),
{
    strmap::lemma_index(p, key);
    let i = strmap::index_of(p, key);
    if i >= 0 {
        lemma_total_changed(p, i, (key, l), p.len() as int);
    } else {
        let q = p.push((key, l));
        lemma_total_pushed(p, (key, l), p.len() as int);
        assert(memory::total(q, q.len() as int) == memory::total(q, p.len() as int) + l.len());
    }
}

/// How often a word has been used.
pub open spec fn uses(l: memory::Words, w: Seq<char>) -> int {
    match strmap::lookup(l, w) {
        Some(n) => n as int,
        None => 0,
    }
}

/// The list in which a word is counted, before it is put in order.
spec fn counted_once_more(l: memory::Words, w: Seq<char>) -> memory::Words {
    let i = strmap::index_of(l, w);
    if i >= 0 {
        l.update(i, (l[i].0, memory::one_more(l[i].1)))
    } else {
        l.push((w, 1))
    }
}

proof fn lemma_distinct_lookup(l: memory::Words, i: int)
    requires
        strmap::keys_distinct(l),
        0 <= i < l.len(),
    ensures
        strmap::lookup(l, l[i].0) == Some(l[i].1),
{
    assert forall|j: int| 0 <= j < i implies (#[trigger] l[j]).0 != l[i].0 by {}
    assert(strmap::is_first(l, l[i].0, i));
    strmap::lemma_first_is_index(l, l[i].0, i);
}

proof fn lemma_counted_distinct(l: memory::Words, w: Seq<char>)
    requires
        strmap::keys_distinct(l),
    ensures
        strmap::keys_distinct(counted_once_more(l, w)),
        counted_once_more(l, w).contains((w, memory::one_more(uses(l, w) as u32))),
        counted_once_more(l, w).len() <= l.len() + 1,
{
    strmap::lemma_index(l, w);
    let i = strmap::index_of(l, w);
    let m = counted_once_more(l, w);
    if i >= 0 {
        assert(m[i] == (w, memory::one_more(uses(l, w) as u32)));
    } else {
        assert(m[l.len() as int] == (w, 1u32));
    }
}

/// A use counts once: the word counts one more than before, up to the highest number there is, and
/// every other word counts as before. Words that count more come first.
pub proof fn law_use_counts_once(l: memory::Words, w: Seq<char>, other: Seq<char>)
    requires
        strmap::keys_distinct(l),
    ensures
        strmap::keys_distinct(memory::used(l, w, true)),
        uses(l, w) < u32::MAX ==> uses(memory::used(l, w, true), w) == uses(l, w) + 1,
        memory::used(l, w, true).contains((w, memory::one_more(uses(l, w) as u32))),
        other != w ==> strmap::lookup(memory::used(l, w, true), other) == strmap::lookup(l, other),
        memory::used(l, w, true).len() <= l.len() + 1,
        forall|i: int, j: int|
            0 <= i < j < memory::used(l, w, true).len() ==> (#[trigger] memory::used(
                l,
                w,
                true,
            )[i]).1 >= (#[trigger] memory::used(l, w, true)[j]).1,
{
    let m = counted_once_more(l, w);
    let r = memory::used(l, w, true);
    lemma_counted_distinct(l, w);
    order::law_arranged_keeps_items(m, memory::counts_more());
    order::law_arranged_in_order(m, memory::counts_more());
    lemma_permuted_distinct(m, r);
    let x = (w, memory::one_more(uses(l, w) as u32));
    order::lemma_arranged_contains(m, memory::counts_more(), x);
    let i = choose|i: int| 0 <= i < r.len() && r[i] == x;
    lemma_distinct_lookup(r, i);
    assert forall|i: int, j: int| 0 <= i < j < r.len() implies (#[trigger] r[i]).1 >= (#[trigger] r[j]).1 by {
        assert(!memory::counts_more()(r[j], r[i]));
    }
    if other != w {
        strmap::lemma_index(l, other);
        strmap::lemma_index(l, w);
        let k = strmap::index_of(l, other);
        if k >= 0 {
            assert(m[k] == l[k]);
            order::lemma_arranged_contains(m, memory::counts_more(), l[k]);
            assert(m.contains(m[k]));
            let y = choose|y: int| 0 <= y < r.len() && r[y] == l[k];
            lemma_distinct_lookup(r, y);
        } else {
            assert forall|j: int| 0 <= j < r.len() implies (#[trigger] r[j]).0 != other by {
                assert(r.contains(r[j]));
                order::lemma_arranged_contains(m, memory::counts_more(), r[j]);
                let y = choose|y: int| 0 <= y < m.len() && m[y] == r[j];
                if y < l.len() {
                    assert(l[y].0 == m[y].0);
                }
            }
            strmap::lemma_absent(r, other);
        }
    }
}

proof fn lemma_permuted_distinct(m: memory::Words, r: memory::Words)
    requires
        strmap::keys_distinct(m),
        r.to_multiset() == m.to_multiset(),
    ensures
        strmap::keys_distinct(r),
{
    broadcast use vstd::seq_lib::group_to_multiset_ensures;

    assert forall|i: int, j: int|
        0 <= i < r.len() && 0 <= j < r.len() && i != j implies (#[trigger] r[i]).0 != (
    #[trigger] r[j]).0 by {
        if r[i].0 == r[j].0 {
            assert(r.contains(r[i]) && r.contains(r[j]));
            assert(m.to_multiset().count(r[i]) > 0);
            assert(m.to_multiset().count(r[j]) > 0);
            assert(m.contains(r[i]) && m.contains(r[j]));
            let a = choose|a: int| 0 <= a < m.len() && m[a] == r[i];
            let b = choose|b: int| 0 <= b < m.len() && m[b] == r[j];
            if a == b {
                assert(r[i] == r[j]);
                lemma_twice(r, i, j);
                lemma_once(m, a);
            } else {
                assert(m[a].0 == m[b].0);
            }
        }
    }
}

proof fn lemma_twice(r: memory::Words, i: int, j: int)
    requires
        0 <= i < r.len(),
        0 <= j < r.len(),
        i != j,
        r[i] == r[j],
    ensures
        r.to_multiset().count(r[i]) >= 2,
{
    broadcast use vstd::seq_lib::group_to_multiset_ensures;

    let t = r.remove(i);
    let k = if j < i {
        j
    } else {
        j - 1
    };
    assert(t[k] == r[j]);
    assert(t.contains(r[i]));
    assert(t.to_multiset().count(r[i]) > 0);
    assert(r =~= t.insert(i, r[i]));
    assert(r.to_multiset() =~= t.to_multiset().insert(r[i]));
}

proof fn lemma_once(m: memory::Words, a: int)
    requires
        strmap::keys_distinct(m),
        0 <= a < m.len(),
    ensures
        m.to_multiset().count(m[a]) <= 1,
{
    broadcast use vstd::seq_lib::group_to_multiset_ensures;

    let t = m.remove(a);
    assert(m =~= t.insert(a, m[a]));
    assert(m.to_multiset() =~= t.to_multiset().insert(m[a]));
    if t.contains(m[a]) {
        let k = choose|k: int| 0 <= k < t.len() && t[k] == m[a];
        let j = if k < a {
            k
        } else {
            k + 1
        };
        assert(m[j] == m[a]);
    }
    assert(t.to_multiset().count(m[a]) == 0);
}

/// The key under which a word is learned.
pub open spec fn learned_key(w: World, word: Seq<char>) -> Seq<char> {
    learning::key_of(w.engine.trie(w.state.profile()), word, w.session.last_lookup_pinyin)
}

/// The learned words of the profile that counts, under a key.
pub open spec fn learned_under(w: World, key: Seq<char>) -> memory::Words {
    memory::words_or_none(memory::profile_or_none(w.store.learned, w.state.profile()), key)
}

/// The words kept for long of the profile that counts, under a key.
pub open spec fn kept_under(w: World, key: Seq<char>) -> memory::Words {
    memory::words_or_none(memory::profile_or_none(w.store.long_term, w.state.profile()), key)
}

proof fn lemma_often(l: memory::Words, i: int, threshold: u32, n: int)
    requires
        strmap::keys_distinct(l),
        0 <= i < l.len(),
        0 <= n <= l.len(),
    ensures
        memory::often_used(l, l[i].0, threshold, n) == (if i < n && l[i].1 >= threshold {
            Some(l[i].1)
        } else {
            None
        }),
    decreases n,
{
    if n > 0 {
        lemma_often(l, i, threshold, n - 1);
        if l[n - 1].0 == l[i].0 {
            assert(n - 1 == i);
        }
    }
}

proof fn lemma_learned(s: Store, profile: Seq<char>, key: Seq<char>, word: Seq<char>)
    requires
        ({
            let p = memory::profile_or_none(s.learned, profile);
            &&& strmap::keys_distinct(p)
            &&& strmap::keys_distinct(memory::words_or_none(p, key))
            &&& memory::total(p, p.len() as int) < s.config.options.short_term_capacity
            &&& uses(memory::words_or_none(p, key), word) < u32::MAX
        }),
    ensures
        ({
            let p = memory::profile_or_none(s.learned, profile);
            let before = memory::words_or_none(p, key);
            let l = memory::used(before, word, true);
            let r = (Store {
                learned: memory::with_words(s.learned, profile, key, l),
                ..s
            }).with_learned(profile, key, l);
            let count = (uses(before, word) + 1) as u32;
            &&& count < s.config.options.long_term_threshold ==> memory::words_or_none(
                memory::profile_or_none(r.learned, profile),
                key,
            ).contains((word, count))
            &&& count >= s.config.options.long_term_threshold ==> strmap::lookup(
                memory::words_or_none(memory::profile_or_none(r.long_term, profile), key),
                word,
            ) == Some(count)
        }),
{
    let p = memory::profile_or_none(s.learned, profile);
    let before = memory::words_or_none(p, key);
    let l = memory::used(before, word, true);
    let s1 = Store { learned: memory::with_words(s.learned, profile, key, l), ..s };
    let count = (uses(before, word) + 1) as u32;
    law_use_counts_once(before, word, word);
    let p1 = strmap::put(p, key, l);
    strmap::law_put_lookup(s.learned, profile, p1, profile);
    strmap::law_put_keeps_keys_distinct(p, key, l);
    assert(memory::profile_or_none(s1.learned, profile) == p1);
    strmap::law_put_lookup(p, key, l, key);
    strmap::lemma_index(p1, key);
    assert(strmap::put(p1, key, l) =~= p1);
    lemma_total_put(p, key, l);
    let first = config_manager::learned_first(s1, profile, key, l);
    assert(first == p1);
    config_manager::law_often_used_words_are_kept_for_long(
        s1,
        profile,
        key,
        l,
        key,
        (word, count),
    );
    assert(memory::words_or_none(first, key) == l);
    let i = choose|i: int| 0 <= i < l.len() && l[i] == (word, count);
    lemma_often(l, i, s.config.options.long_term_threshold, l.len() as int);
}

/// With word discovery on, a word that is put out and that the dictionary does not hold is learned:
/// it has more than one character, neither begins nor ends with a stop word, was neither composed nor
/// abbreviated, and its key has a vowel. It stands under its key with one use more than before, among
/// the learned words, or among those kept for long once it is used often enough. There must be room
/// for it.
pub proof fn law_new_words_are_learned(w: World, word: Seq<char>, index: int, now: u64)
    requires
        w.store.config.input.enable_word_discovery,
        w.session.last_lookup_pinyin.len() > 0,
        index != 99,
        word.len() > 1,
        !learning::stopwords().contains(word[0]),
        !learning::stopwords().contains(word.last()),
        !w.engine.has_word(w.state.profile(), word),
        exists|i: int|
            0 <= i < learned_key(w, word).len() && chinese::is_vowel(
                #[trigger] learned_key(w, word)[i],
            ),
        commands::source_of(w.session.candidates, index) != "Compose"@,
        commands::source_of(w.session.candidates, index) != "Table (Abbr)"@,
        strmap::keys_distinct(memory::profile_or_none(w.store.learned, w.state.profile())),
        strmap::keys_distinct(learned_under(w, learned_key(w, word))),
        uses(learned_under(w, learned_key(w, word)), word) < u32::MAX,
        ({
            let p = memory::profile_or_none(w.store.learned, w.state.profile());
            memory::total(p, p.len() as int) < w.store.config.options.short_term_capacity
        }),
    ensures
        ({
            let r = commands::committed(w, word, index, now).0;
            let key = learned_key(w, word);
            let count = (uses(learned_under(w, key), word) + 1) as u32;
            &&& r.state.profile() == w.state.profile()
            &&& count < w.store.config.options.long_term_threshold ==> learned_under(
                r,
                key,
            ).contains((word, count))
            &&& count >= w.store.config.options.long_term_threshold ==> strmap::lookup(
                kept_under(r, key),
                word,
            ) == Some(count)
        }),
{
    reveal(commands::committed);
    reveal(commands::noted);
    reveal(learning::recorded);
    let profile = w.state.profile();
    let key = learned_key(w, word);
    let w1 = World { state: session_state_after(w, now), ..w };
    let u = learning::Use {
        typed: w.session.last_lookup_pinyin,
        word,
        source: commands::source_of(w.session.candidates, index),
        context: w1.state.last_word(),
        now,
    };
    let s = learning::ordered(w.store, profile, u);
    assert(s.learned == w.store.learned && s.long_term == w.store.long_term && s.config
        == w.store.config);
    assert(learning::to_learn(s, w.engine, profile, u));
    lemma_learned(s, profile, key, word);
}

/// What lasts once the history has been forgotten where it is too old.
pub open spec fn session_state_after(w: World, now: u64) -> session_state::Lasting {
    commands::unless_late(w.state, now)
}

/// A word that the dictionary holds is not learned, nor is any word while word discovery is off, nor
/// a single character, nor what was composed or abbreviated: the learned words and those kept for long
/// stay as they were.
pub proof fn law_known_words_are_not_learned(w: World, word: Seq<char>, index: int, now: u64)
    requires
        ({
            ||| !w.store.config.input.enable_word_discovery
            ||| w.engine.has_word(w.state.profile(), word)
            ||| word.len() <= 1
            ||| word.len() > 1 && learning::stopwords().contains(word[0])
            ||| word.len() > 1 && learning::stopwords().contains(word.last())
            ||| commands::source_of(w.session.candidates, index) == "Compose"@
            ||| commands::source_of(w.session.candidates, index) == "Table (Abbr)"@
            ||| index == 99
            ||| w.session.last_lookup_pinyin.len() == 0
        }),
    ensures
        commands::committed(w, word, index, now).0.store.learned == w.store.learned,
        commands::committed(w, word, index, now).0.store.long_term == w.store.long_term,
        commands::committed(w, word, index, now).0.store.combined == w.store.combined,
{
    reveal(commands::committed);
    reveal(commands::noted);
    reveal(learning::recorded);
}

/// The key of a word whose characters are spelled out is that of its beginning, then that of its
/// end; and that of one character is the key under which it stands first.
pub proof fn law_spelling_adds_up(t: TrieView, a: Seq<char>, b: Seq<char>)
    requires
        learning::spelled_out(t, a, a.len() as int) is Some,
        learning::spelled_out(t, b, b.len() as int) is Some,
    ensures
        learning::spelled_out(t, a + b, (a + b).len() as int) == Some(
            learning::spelled_out(t, a, a.len() as int)->0 + learning::spelled_out(
                t,
                b,
                b.len() as int,
            )->0,
        ),
        a.len() == 1 ==> t.word_pinyin().contains_key(a) && learning::spelled_out(t, a, 1) == Some(
            t.word_pinyin()[a],
        ),
{
    lemma_spelled_part(t, a, b, a.len() as int);
    lemma_spelled_behind(t, a, b, b.len() as int);
    if a.len() == 1 {
        assert(seq![a[0]] =~= a);
        assert(learning::spelled_out(t, a, 0) == Some(Seq::<char>::empty()));
        assert(Seq::<char>::empty() + t.word_pinyin()[a] =~= t.word_pinyin()[a]);
    }
}

proof fn lemma_spelled_part(t: TrieView, a: Seq<char>, b: Seq<char>, n: int)
    requires
        0 <= n <= a.len(),
    ensures
        learning::spelled_out(t, a + b, n) == learning::spelled_out(t, a, n),
    decreases n,
{
    if n > 0 {
        lemma_spelled_part(t, a, b, n - 1);
        assert((a + b)[n - 1] == a[n - 1]);
    }
}

proof fn lemma_spelled_behind(t: TrieView, a: Seq<char>, b: Seq<char>, n: int)
    requires
        0 <= n <= b.len(),
        learning::spelled_out(t, a, a.len() as int) is Some,
    ensures
        learning::spelled_out(t, a + b, a.len() + n) == (match learning::spelled_out(t, b, n) {
            Some(s) => Some(learning::spelled_out(t, a, a.len() as int)->0 + s),
            None => None,
        }),
    decreases n,
{
    let x = learning::spelled_out(t, a, a.len() as int)->0;
    if n > 0 {
        lemma_spelled_behind(t, a, b, n - 1);
        assert((a + b)[a.len() + n - 1] == b[n - 1]);
        if let Some(s) = learning::spelled_out(t, b, n - 1) {
            if t.word_pinyin().contains_key(seq![b[n - 1]]) {
                let k = t.word_pinyin()[seq![b[n - 1]]];
                assert(x + (s + k) =~= (x + s) + k);
            }
        }
    } else {
        lemma_spelled_part(t, a, b, a.len() as int);
        assert(x + Seq::<char>::empty() =~= x);
    }
}

/// A word that was chosen is the last of the history, with what was typed for it; what was not chosen
/// leaves the history as it was. After a long while the history begins anew.
pub proof fn law_chosen_words_are_remembered(w: World, word: Seq<char>, index: int, now: u64)
    ensures
        ({
            let r = commands::committed(w, word, index, now).0;
            &&& index != 99 && w.session.last_lookup_pinyin.len() > 0 ==> {
                &&& r.state.history.len() > 0
                &&& r.state.history.last() == (w.session.last_lookup_pinyin, word)
                &&& r.state.last_commit_time == now
                &&& now > w.state.last_commit_time + 10000 ==> r.state.history.len() == 1
                &&& now <= w.state.last_commit_time + 10000 && w.state.history.len() < 10
                    ==> r.state.history.drop_last() == w.state.history
            }
            &&& index == 99 || w.session.last_lookup_pinyin.len() == 0 ==> r.state == w.state
                && r.store == w.store
        }),
{
    reveal(commands::committed);
    reveal(commands::noted);
    reveal(learning::recorded);
    let h = session_state_after(w, now).history;
    let x = (w.session.last_lookup_pinyin, word);
    assert(h.push(x).drop_last() =~= h);
}

/// With reordering on, a word that is chosen is the one used last, and it counts once more among the
/// words that follow the word put out before it, where it comes first.
pub proof fn law_use_is_noted(w: World, word: Seq<char>, index: int, now: u64)
    requires
        w.store.config.input.enable_auto_reorder,
        w.store.config.options.mru_length > 0,
        w.session.last_lookup_pinyin.len() > 0,
        index != 99,
        word.len() > 0,
        !learning::stopwords().contains(word[0]),
        !learning::stopwords().contains(word.last()),
    ensures
        ({
            let r = commands::committed(w, word, index, now).0;
            let profile = w.state.profile();
            &&& memory::order_or_none(r.store.order, profile).len() > 0
            &&& memory::order_or_none(r.store.order, profile)[0] == word
            &&& r.engine.stale
            &&& w.state.history.len() > 0 && now <= w.state.last_commit_time + 10000 ==> {
                let last = w.state.history.last().1;
                let before = memory::words_or_none(
                    memory::profile_or_none(w.store.ngram, profile),
                    last,
                );
                let after = memory::words_or_none(
                    memory::profile_or_none(r.store.ngram, profile),
                    last,
                );
                &&& after.len() > 0
                &&& after[0].0 == word
                &&& uses(before, word) < u32::MAX ==> after[0].1 == uses(before, word) + 1
            }
        }),
{
    reveal(commands::committed);
    reveal(commands::noted);
    reveal(learning::recorded);
    let profile = w.state.profile();
    let st = session_state_after(w, now);
    let u = learning::Use {
        typed: w.session.last_lookup_pinyin,
        word,
        source: commands::source_of(w.session.candidates, index),
        context: st.last_word(),
        now,
    };
    let o = memory::brought_forward(
        memory::order_or_none(w.store.order, profile),
        word,
        w.store.config.options.mru_length as int,
    );
    strmap::law_put_lookup(w.store.order, profile, o, profile);
    let s1 = w.store.with_used(profile, word);
    if let Some(c) = u.context {
        let before = memory::words_or_none(memory::profile_or_none(s1.ngram, profile), c);
        let l = memory::used(before, word, false);
        strmap::lemma_index(before, word);
        let p = memory::profile_or_none(s1.ngram, profile);
        let p1 = strmap::put(p, c, l);
        strmap::law_put_lookup(s1.ngram, profile, p1, profile);
        strmap::law_put_lookup(p, c, l, c);
        let n1 = strmap::put(s1.ngram, profile, p1);
        let p2 = strmap::put(p1, c, l);
        strmap::law_put_lookup(n1, profile, p2, profile);
        strmap::law_put_lookup(p1, c, l, c);
    }
}

/// Where nothing is to be reordered, neither the order of use nor what follows what is noted.
pub proof fn law_use_is_not_noted_unasked(w: World, word: Seq<char>, index: int, now: u64)
    requires
        !w.store.config.input.enable_auto_reorder,
    ensures
        commands::committed(w, word, index, now).0.store.order == w.store.order,
        commands::committed(w, word, index, now).0.store.ngram == w.store.ngram,
        commands::committed(w, word, index, now).0.engine == w.engine,
{
    reveal(commands::committed);
    reveal(commands::noted);
    reveal(learning::recorded);
}


/// A word is learned under the key that the dictionary has for it; without one under the keys of its
/// characters one behind the other, where each has one; and otherwise under what was typed.
pub proof fn law_words_have_their_keys(
    t: TrieView,
    w: Seq<char>,
    typed: Seq<char>,
    keys: Seq<Seq<char>>,
    i: int,
)
    ensures
        learning::key_of(None, w, typed) == typed,
        t.word_pinyin().contains_key(w) ==> learning::key_of(Some(t), w, typed) == t.word_pinyin()[w],
        !t.word_pinyin().contains_key(w) && keys.len() == w.len() && (forall|j: int|
            0 <= j < w.len() ==> t.word_pinyin().contains_key(seq![#[trigger] w[j]])
                && t.word_pinyin()[seq![w[j]]] == keys[j]) && crate::segmentation::joined(keys).len() > 0
            ==> learning::key_of(Some(t), w, typed) == crate::segmentation::joined(keys),
        !t.word_pinyin().contains_key(w) && 0 <= i < w.len() && !t.word_pinyin().contains_key(
            seq![w[i]],
        ) ==> learning::key_of(Some(t), w, typed) == typed,
{
    let n = w.len() as int;
    if keys.len() == w.len() && (forall|j: int|
        0 <= j < w.len() ==> t.word_pinyin().contains_key(seq![#[trigger] w[j]])
            && t.word_pinyin()[seq![w[j]]] == keys[j]) {
        lemma_spelled_joined(t, w, keys, n);
        assert(keys.take(n) =~= keys);
    }
    if 0 <= i < w.len() && !t.word_pinyin().contains_key(seq![w[i]]) {
        lemma_not_spelled(t, w, i, n);
    }
}

proof fn lemma_spelled_joined(t: TrieView, w: Seq<char>, keys: Seq<Seq<char>>, n: int)
    requires
        0 <= n <= w.len() == keys.len(),
        forall|j: int|
            0 <= j < w.len() ==> t.word_pinyin().contains_key(seq![#[trigger] w[j]])
                && t.word_pinyin()[seq![w[j]]] == keys[j],
    ensures
        learning::spelled_out(t, w, n) == Some(crate::segmentation::joined(keys.take(n))),
    decreases n,
{
    if n > 0 {
        lemma_spelled_joined(t, w, keys, n - 1);
        let x = keys[n - 1];
        assert(keys.take(n) =~= keys.take(n - 1) + seq![x]);
        crate::segmentation::law_joining_is_in_order(keys.take(n - 1), seq![x], x);
        assert(t.word_pinyin()[seq![w[n - 1]]] == x);
    } else {
        assert(keys.take(0) =~= Seq::empty());
        assert(crate::segmentation::joined(keys.take(0)) =~= Seq::<char>::empty());
    }
}

proof fn lemma_not_spelled(t: TrieView, w: Seq<char>, i: int, n: int)
    requires
        0 <= i < n <= w.len(),
        !t.word_pinyin().contains_key(seq![w[i]]),
    ensures
        learning::spelled_out(t, w, n) is None,
    decreases n,
{
    if i < n - 1 {
        lemma_not_spelled(t, w, i, n - 1);
    }
}


} // verus!
