//! What is promised of what is discovered: keys that are similar to what was typed, words that are
//! new in a text, and characters by their strokes.

use vstd::prelude::*;
use crate::bihua;
use crate::config::FuzzyPinyinConfig;
use crate::discovery;
use crate::fuzzy;
use crate::order;
use crate::scheme::{Found, Surroundings};
use crate::segmentation;
use crate::segmentation::Syllables;
use crate::similarity;
use crate::similarity::Hunt;
use crate::text;
use crate::trie;
use crate::trie::TrieView;

verus! {

/// Whether a key is among what was found.
pub open spec fn is_found(s: Seq<(Seq<char>, u128)>, x: Seq<char>) -> bool {
    exists|i: int| 0 <= i < s.len() && (#[trigger] s[i]).0 == x
}

/// Whether what was tried and has entries was found.
spec fn none_missed(t: TrieView, h: Hunt) -> bool {
    forall|x: Seq<char>| #[trigger] h.seen.contains(x) && t.exact(x).len() > 0 ==> is_found(h.found, x)
}

/// Whether a search goes on from another.
spec fn grew(h: Hunt, g: Hunt) -> bool {
    &&& forall|x: Seq<char>| #[trigger] h.seen.contains(x) ==> g.seen.contains(x)
    &&& h.found.len() <= g.found.len()
    &&& forall|i: int| 0 <= i < h.found.len() ==> #[trigger] g.found[i] == h.found[i]
}

proof fn lemma_grew(a: Hunt, b: Hunt, c: Hunt)
    requires
        grew(a, b),
        grew(b, c),
    ensures
        grew(a, c),
{
    assert forall|i: int| 0 <= i < a.found.len() implies #[trigger] c.found[i] == a.found[i] by {
        assert(b.found[i] == a.found[i]);
    }
}

proof fn lemma_tried(t: TrieView, h: Hunt, x: Seq<char>, cost: int)
    requires
        none_missed(t, h),
    ensures
        none_missed(t, similarity::tried(t, h, x, cost)),
        grew(h, similarity::tried(t, h, x, cost)),
        similarity::tried(t, h, x, cost).seen.contains(x),
{
    let g = similarity::tried(t, h, x, cost);
    assert forall|y: Seq<char>| #[trigger] g.seen.contains(y) && t.exact(y).len() > 0 implies is_found(
        g.found,
        y,
    ) by {
        if h.seen.contains(y) {
            let i = choose|i: int| 0 <= i < h.found.len() && (#[trigger] h.found[i]).0 == y;
            assert(g.found[i] == h.found[i]);
        } else {
            assert(y == x);
            assert(g.found[h.found.len() as int].0 == x);
        }
    }
}

/// Whether a spelling takes one variant of each syllable, from one on.
pub open spec fn is_row(sets: Seq<Seq<Seq<char>>>, i: int, row: Seq<Seq<char>>) -> bool {
    &&& row.len() == sets.len() - i
    &&& forall|j: int| 0 <= j < row.len() ==> sets[i + j].contains(#[trigger] row[j])
}

/// Whether a spelling differs from the syllables, from one on.
pub open spec fn differs(segs: Seq<Seq<char>>, i: int, row: Seq<Seq<char>>) -> bool {
    exists|j: int| 0 <= j < row.len() && #[trigger] row[j] != segs[i + j]
}

proof fn lemma_walked(
    t: TrieView,
    h: Hunt,
    sets: Seq<Seq<Seq<char>>>,
    segs: Seq<Seq<char>>,
    i: int,
    done: Seq<char>,
    changed: int,
    row: Seq<Seq<char>>,
)
    requires
        0 <= i <= sets.len(),
        changed >= 0,
        none_missed(t, h),
    ensures
        none_missed(t, similarity::walked(t, h, sets, segs, i, done, changed)),
        grew(h, similarity::walked(t, h, sets, segs, i, done, changed)),
        is_row(sets, i, row) && (changed > 0 || differs(segs, i, row)) ==> similarity::walked(
            t,
            h,
            sets,
            segs,
            i,
            done,
            changed,
        ).seen.contains(done + segmentation::joined(row)),
    decreases sets.len() - i, 0int,
{
    if i >= sets.len() {
        lemma_tried(t, h, done, 2 * changed);
        if is_row(sets, i, row) {
            assert(done + segmentation::joined(row) =~= done);
        }
    } else {
        lemma_walked_over(t, h, sets, segs, i, done, changed, sets[i].len() as int, row);
    }
}

proof fn lemma_walked_over(
    t: TrieView,
    h: Hunt,
    sets: Seq<Seq<Seq<char>>>,
    segs: Seq<Seq<char>>,
    i: int,
    done: Seq<char>,
    changed: int,
    k: int,
    row: Seq<Seq<char>>,
)
    requires
        0 <= i < sets.len(),
        0 <= k <= sets[i].len(),
        changed >= 0,
        none_missed(t, h),
    ensures
        ({
            let g = similarity::walked_over(t, h, sets, segs, i, done, changed, k);
            &&& none_missed(t, g)
            &&& grew(h, g)
            &&& is_row(sets, i, row) && (changed > 0 || differs(segs, i, row)) && (exists|j: int|
                0 <= j < k && #[trigger] sets[i][j] == row[0]) ==> g.seen.contains(
                done + segmentation::joined(row),
            )
        }),
    decreases sets.len() - i - 1, k + 1,
{
    if k > 0 {
        lemma_walked_over(t, h, sets, segs, i, done, changed, k - 1, row);
        let before = similarity::walked_over(t, h, sets, segs, i, done, changed, k - 1);
        let v = sets[i][k - 1];
        let c = if v != segs[i] {
            changed + 1
        } else {
            changed
        };
        let rest = row.skip(1);
        lemma_walked(t, before, sets, segs, i + 1, done + v, c, rest);
        let g = similarity::walked_over(t, h, sets, segs, i, done, changed, k);
        lemma_grew(h, before, g);
        if is_row(sets, i, row) && (changed > 0 || differs(segs, i, row)) && (exists|j: int|
            0 <= j < k && #[trigger] sets[i][j] == row[0]) {
            let j = choose|j: int| 0 <= j < k && #[trigger] sets[i][j] == row[0];
            if j == k - 1 {
                assert(row =~= seq![v] + rest);
                segmentation::law_joining_is_in_order(seq![v], rest, v);
                assert(done + segmentation::joined(row) =~= done + v + segmentation::joined(rest));
                assert forall|x: int| 0 <= x < rest.len() implies sets[i + 1 + x].contains(
                    #[trigger] rest[x],
                ) by {
                    assert(rest[x] == row[x + 1]);
                    assert(sets[i + (x + 1)].contains(row[x + 1]));
                }
                if c == 0 {
                    let x = choose|x: int| 0 <= x < row.len() && #[trigger] row[x] != segs[i + x];
                    assert(rest[x - 1] == row[x]);
                    assert(rest[x - 1] != segs[i + 1 + (x - 1)]);
                }
            } else {
                assert(sets[i][j] == row[0] && j < k - 1);
            }
        }
    }
}

/// The two letters of an input at a place and behind it exchanged.
pub open spec fn exchanged(input: Seq<char>, i: int) -> Seq<char> {
    input.take(i) + seq![input[i + 1], input[i]] + input.skip(i + 2)
}

proof fn lemma_swaps(t: TrieView, h: Hunt, input: Seq<char>, n: int, i: int)
    requires
        0 <= n < input.len() || n <= 0,
        none_missed(t, h),
    ensures
        none_missed(t, similarity::swaps_tried(t, h, input, n)),
        grew(h, similarity::swaps_tried(t, h, input, n)),
        0 <= i < n && exchanged(input, i) != input ==> similarity::swaps_tried(
            t,
            h,
            input,
            n,
        ).seen.contains(exchanged(input, i)),
    decreases n,
{
    if n > 0 {
        lemma_swaps(t, h, input, n - 1, i);
        let before = similarity::swaps_tried(t, h, input, n - 1);
        let x = input.update(n - 1, input[n]).update(n, input[n - 1]);
        assert(x =~= exchanged(input, n - 1));
        lemma_tried(t, before, x, 5);
        lemma_grew(h, before, similarity::swaps_tried(t, h, input, n));
    }
}

proof fn lemma_near(t: TrieView, h: Hunt, keys: Seq<(Seq<u8>, u64)>, n: int, i: int)
    requires
        0 <= n <= keys.len(),
        none_missed(t, h),
    ensures
        none_missed(t, similarity::near_tried(t, h, keys, n)),
        grew(h, similarity::near_tried(t, h, keys, n)),
        0 <= i < n && similarity::near_tried(t, h, keys, n).found.len() < similarity::ENOUGH_MATCHES
            ==> similarity::near_tried(t, h, keys, n).seen.contains(
            vstd::utf8::decode_utf8(keys[i].0),
        ),
    decreases n,
{
    if n > 0 {
        lemma_near(t, h, keys, n - 1, i);
        let before = similarity::near_tried(t, h, keys, n - 1);
        lemma_tried(t, before, vstd::utf8::decode_utf8(keys[n - 1].0), 10);
        lemma_grew(h, before, similarity::near_tried(t, h, keys, n));
    }
}

/// Of what is similar to an input nothing is missed that has entries: the input itself, at no distance;
/// the input with two neighbouring letters exchanged, and, unless there are enough others, the keys
/// one edit away.
pub proof fn law_similar_keys_are_found(
    t: TrieView,
    input: Seq<char>,
    f: Option<FuzzyPinyinConfig>,
    s: Syllables,
    i: int,
)
    ensures
        t.exact(input).len() > 0 ==> similarity::similar(t, input, f, s).contains((input, 0u128))
            && similarity::similar(t, input, f, s)[0].1 == 0,
        text::byte_len(input) <= 12 && 0 <= i < input.len() - 1 && exchanged(input, i) != input
            && t.exact(exchanged(input, i)).len() > 0 ==> is_found(
            similarity::similar(t, input, f, s),
            exchanged(input, i),
        ),
        text::byte_len(input) <= 12 && similarity::similar(t, input, f, s).len()
            < similarity::ENOUGH_MATCHES && 0 <= i < t.keys_near(input).len() && t.exact(
            vstd::utf8::decode_utf8(t.keys_near(input)[i].0),
        ).len() > 0 ==> is_found(
            similarity::similar(t, input, f, s),
            vstd::utf8::decode_utf8(t.keys_near(input)[i].0),
        ),
{
    let start = Hunt { seen: Set::empty(), found: Seq::empty() };
    let h0 = similarity::tried(t, start, input, 0);
    lemma_tried(t, start, input, 0);
    let h1 = similarity::fuzzy_tried(t, h0, input, f, s);
    lemma_fuzzy_tried(t, h0, input, f, s);
    let keys = t.keys_near(input);
    lemma_swaps(t, h1, input, input.len() - 1, i);
    let h2 = similarity::swaps_tried(t, h1, input, input.len() - 1);
    lemma_near(t, h2, keys, keys.len() as int, i);
    let h3 = similarity::near_tried(t, h2, keys, keys.len() as int);
    lemma_grew(h0, h1, h2);
    lemma_grew(h0, h2, h3);
    let h = if text::byte_len(input) > 12 {
        h1
    } else {
        h3
    };
    let r = similarity::similar(t, input, f, s);
    assert(r == order::arranged(h.found, similarity::nearer()));
    order::law_arranged_keeps_items(h.found, similarity::nearer());
    if t.exact(input).len() > 0 {
        assert(h0.found[0] == (input, 0u128));
        assert(h.found[0] == h0.found[0]);
        assert(h.found.contains((input, 0u128)));
        order::lemma_arranged_contains(h.found, similarity::nearer(), (input, 0u128));
        similarity::law_similar_keys_exist_nearest_first(t, input, f, s);
        let k = choose|k: int| 0 <= k < r.len() && r[k] == (input, 0u128);
        if k > 0 {
            assert(r[0].1 <= r[k].1);
        }
    }
    if h.seen.contains(exchanged(input, i)) && t.exact(exchanged(input, i)).len() > 0 {
        lemma_found_arranged(h.found, exchanged(input, i));
    }
    if 0 <= i < keys.len() {
        let x = vstd::utf8::decode_utf8(keys[i].0);
        if h.seen.contains(x) && t.exact(x).len() > 0 {
            lemma_found_arranged(h.found, x);
        }
    }
}

proof fn lemma_found_arranged(s: Seq<(Seq<char>, u128)>, x: Seq<char>)
    requires
        is_found(s, x),
    ensures
        is_found(order::arranged(s, similarity::nearer()), x),
{
    let i = choose|i: int| 0 <= i < s.len() && (#[trigger] s[i]).0 == x;
    let r = order::arranged(s, similarity::nearer());
    assert(s.contains(s[i]));
    order::lemma_arranged_contains(s, similarity::nearer(), s[i]);
    let k = choose|k: int| 0 <= k < r.len() && r[k] == s[i];
    assert(r[k].0 == x);
}

proof fn lemma_fuzzy_tried(
    t: TrieView,
    h: Hunt,
    input: Seq<char>,
    f: Option<FuzzyPinyinConfig>,
    s: Syllables,
)
    requires
        none_missed(t, h),
    ensures
        none_missed(t, similarity::fuzzy_tried(t, h, input, f, s)),
        grew(h, similarity::fuzzy_tried(t, h, input, f, s)),
{
    if let Some(c) = f {
        let segs = segmentation::viterbi(s, input);
        lemma_walked(
            t,
            h,
            similarity::variant_sets(c, segs),
            segs,
            0,
            Seq::empty(),
            0,
            Seq::empty(),
        );
    }
}

/// Every other spelling of the syllables of an input by fuzzy sounds that has entries is found, where
/// there are several syllables and not too many spellings.
pub proof fn law_fuzzy_spellings_are_found(
    t: TrieView,
    input: Seq<char>,
    f: FuzzyPinyinConfig,
    s: Syllables,
    row: Seq<Seq<char>>,
)
    requires
        ({
            let segs = segmentation::viterbi(s, input);
            let sets = similarity::variant_sets(f, segs);
            &&& segs.len() > 1
            &&& 0 < similarity::combinations(sets, sets.len() as int) <= similarity::MAX_COMBINATIONS
            &&& row.len() == segs.len()
            &&& forall|i: int|
                0 <= i < row.len() ==> fuzzy::variants(f, segs[i]).contains(#[trigger] row[i])
            &&& row != segs
        }),
        t.exact(segmentation::joined(row)).len() > 0,
    ensures
        is_found(similarity::similar(t, input, Some(f), s), segmentation::joined(row)),
{
    let segs = segmentation::viterbi(s, input);
    let sets = similarity::variant_sets(f, segs);
    let start = Hunt { seen: Set::empty(), found: Seq::empty() };
    let h0 = similarity::tried(t, start, input, 0);
    lemma_tried(t, start, input, 0);
    assert forall|j: int| 0 <= j < row.len() implies sets[0 + j].contains(#[trigger] row[j]) by {
        assert(sets[j] == fuzzy::variants(f, segs[j]));
    }
    if !differs(segs, 0, row) {
        assert forall|j: int| 0 <= j < row.len() implies row[j] == segs[j] by {
            assert(row[j] == segs[0 + j]);
        }
        assert(row =~= segs);
    }
    lemma_walked(t, h0, sets, segs, 0, Seq::empty(), 0, row);
    let h1 = similarity::fuzzy_tried(t, h0, input, Some(f), s);
    let x = segmentation::joined(row);
    assert(Seq::<char>::empty() + x =~= x);
    assert(h1.seen.contains(x));
    let keys = t.keys_near(input);
    lemma_swaps(t, h1, input, input.len() - 1, 0);
    let h2 = similarity::swaps_tried(t, h1, input, input.len() - 1);
    lemma_near(t, h2, keys, keys.len() as int, 0);
    let h3 = similarity::near_tried(t, h2, keys, keys.len() as int);
    lemma_found_arranged(h1.found, x);
    assert(h3.seen.contains(x));
    lemma_found_arranged(h3.found, x);
}

/// A text is cut at every character that is not Chinese, and nowhere else.
pub proof fn law_sentences_are_cut_at_other_characters(a: Seq<char>, c: char, b: Seq<char>)
    requires
        !discovery::chinese_char(c),
    ensures
        discovery::stretches(a + seq![c] + b) == discovery::stretches(a) + discovery::stretches(b),
        (forall|i: int| 0 <= i < a.len() ==> discovery::chinese_char(#[trigger] a[i]))
            ==> discovery::stretches(a) == seq![a],
        discovery::chinese_char('中') && !discovery::chinese_char('a') && !discovery::chinese_char(
            '。',
        ),
{
    lemma_stretches(a, c, b);
    if forall|i: int| 0 <= i < a.len() ==> discovery::chinese_char(#[trigger] a[i]) {
        lemma_one_stretch(a);
    }
}

proof fn lemma_some_stretch(s: Seq<char>)
    ensures
        discovery::stretches(s).len() > 0,
    decreases s.len(),
{
    if s.len() > 0 {
        lemma_some_stretch(s.drop_last());
    }
}

proof fn lemma_stretches(a: Seq<char>, c: char, b: Seq<char>)
    requires
        !discovery::chinese_char(c),
    ensures
        discovery::stretches(a + seq![c] + b) == discovery::stretches(a) + discovery::stretches(b),
    decreases b.len(),
{
    let s = a + seq![c] + b;
    if b.len() == 0 {
        assert(s.drop_last() =~= a);
        assert(s.last() == c);
        assert(discovery::stretches(s) =~= discovery::stretches(a) + discovery::stretches(b));
    } else {
        let d = b.drop_last();
        lemma_stretches(a, c, d);
        lemma_some_stretch(d);
        assert(s.drop_last() =~= a + seq![c] + d);
        assert(s.last() == b.last());
        assert(discovery::stretches(s) =~= discovery::stretches(a) + discovery::stretches(b));
    }
}

proof fn lemma_one_stretch(a: Seq<char>)
    requires
        forall|i: int| 0 <= i < a.len() ==> discovery::chinese_char(#[trigger] a[i]),
    ensures
        discovery::stretches(a) == seq![a],
    decreases a.len(),
{
    if a.len() > 0 {
        let d = a.drop_last();
        assert forall|i: int| 0 <= i < d.len() implies discovery::chinese_char(#[trigger] d[i]) by {
            assert(d[i] == a[i]);
        }
        lemma_one_stretch(d);
        assert(discovery::chinese_char(a[a.len() - 1]));
        assert(d.push(a.last()) =~= a);
        assert(discovery::stretches(a) =~= seq![a]);
    } else {
        assert(a =~= Seq::empty());
    }
}

/// The places, among the first ones, at which something holds.
pub open spec fn places_of(p: spec_fn(int) -> bool, n: int) -> Set<int> {
    Set::new(|i: int| 0 <= i < n && p(i))
}

/// A run is counted as often as there are places at which it stands.
pub proof fn law_runs_are_counted_by_place(s: Seq<char>, g: Seq<char>)
    ensures
        places_of(discovery::standing(s, g), s.len() as int).finite(),
        discovery::occurrences(s, g) == places_of(discovery::standing(s, g), s.len() as int).len(),
{
    lemma_places(discovery::standing(s, g), s.len() as int);
}

/// A run beside a character is counted as often as there are places at which it stands so.
pub proof fn law_neighbours_are_counted_by_place(s: Seq<char>, g: Seq<char>, c: char)
    ensures
        discovery::occurrences_after(s, g, c) == places_of(
            |i: int|
                0 < i && i + g.len() <= s.len() && s.subrange(i, i + g.len()) == g && s[i - 1] == c,
            s.len() as int,
        ).len(),
        discovery::occurrences_before(s, g, c) == places_of(
            |i: int|
                0 <= i && i + g.len() < s.len() && s.subrange(i, i + g.len()) == g && s[i + g.len()]
                    == c,
            s.len() as int,
        ).len(),
{
    let n = s.len() as int;
    lemma_places(discovery::standing_after(s, g, c), n);
    lemma_places(discovery::standing_before(s, g, c), n);
    let a = |i: int|
        0 < i && i + g.len() <= s.len() && s.subrange(i, i + g.len()) == g && s[i - 1] == c;
    let b = |i: int|
        0 <= i && i + g.len() < s.len() && s.subrange(i, i + g.len()) == g && s[i + g.len()] == c;
    assert(places_of(a, n) =~= places_of(discovery::standing_after(s, g, c), n));
    assert(places_of(b, n) =~= places_of(discovery::standing_before(s, g, c), n));
}

proof fn lemma_places(p: spec_fn(int) -> bool, n: int)
    requires
        n >= 0,
    ensures
        places_of(p, n).finite(),
        discovery::places(p, n) == places_of(p, n).len(),
    decreases n,
{
    if n > 0 {
        lemma_places(p, n - 1);
        if p(n - 1) {
            assert(places_of(p, n) =~= places_of(p, n - 1).insert(n - 1));
        } else {
            assert(places_of(p, n) =~= places_of(p, n - 1));
        }
    } else {
        assert(places_of(p, n) =~= Set::empty());
    }
}

/// The characters of a text are listed, each once, and no others.
pub proof fn law_characters_are_listed_once(s: Seq<char>, c: char)
    ensures
        discovery::alphabet(s).contains(c) <==> s.contains(c),
        discovery::alphabet(s).no_duplicates(),
    decreases s.len(),
{
    if s.len() > 0 {
        let d = s.drop_last();
        let v = discovery::alphabet(d);
        let w = discovery::alphabet(s);
        law_characters_are_listed_once(d, c);
        law_characters_are_listed_once(d, s.last());
        if v.contains(c) {
            let i = choose|i: int| 0 <= i < v.len() && v[i] == c;
            assert(w[i] == c);
            let j = choose|j: int| 0 <= j < d.len() && d[j] == c;
            assert(s[j] == c);
        }
        if s.contains(c) && !d.contains(c) {
            let j = choose|j: int| 0 <= j < s.len() && s[j] == c;
            if j < d.len() {
                assert(d[j] == c);
            }
            assert(w[v.len() as int] == c);
        }
        if w.contains(c) && !v.contains(c) {
            let i = choose|i: int| 0 <= i < w.len() && w[i] == c;
            if i < v.len() {
                assert(v[i] == c);
            }
            assert(s[s.len() - 1] == c);
        }
    }
}

/// A word is cut at every place, and the parts before and behind it are looked up.
pub proof fn law_parts_are_counted_at_every_cut(m: Map<Seq<char>, u64>, w: Seq<char>, n: int, i: int)
    requires
        0 <= i < n - 1,
        n <= w.len(),
    ensures
        discovery::part_counts(m, w, n).len() == n - 1,
        m.contains_key(w.take(i + 1)) ==> discovery::part_counts(m, w, n)[i].0 == m[w.take(i + 1)],
        m.contains_key(w.skip(i + 1)) ==> discovery::part_counts(m, w, n)[i].1 == m[w.skip(i + 1)],
        !m.contains_key(w.take(i + 1)) ==> discovery::part_counts(m, w, n)[i].0 == 0,
        !m.contains_key(w.skip(i + 1)) ==> discovery::part_counts(m, w, n)[i].1 == 0,
    decreases n,
{
    if n > 2 {
        law_parts_are_counted_at_every_cut(m, w, n - 1, if i < n - 2 { i } else { 0 });
    } else {
        assert(discovery::part_counts(m, w, n - 1).len() == 0);
    }
}

/// Every character that occurs beside a word is counted, and nothing else is.
pub proof fn law_characters_beside_are_counted(
    m: Map<Seq<char>, u64>,
    w: Seq<char>,
    a: Seq<char>,
    n: int,
    i: int,
)
    requires
        0 <= n <= a.len(),
    ensures
        0 <= i < n && m.contains_key(w.push(a[i])) && m[w.push(a[i])] > 0
            ==> discovery::counts_beside(m, w, a, n).contains(m[w.push(a[i])]),
        0 <= i < discovery::counts_beside(m, w, a, n).len() ==> discovery::counts_beside(m, w, a, n)[i]
            > 0 && exists|j: int|
            0 <= j < n && m.contains_key(w.push(#[trigger] a[j])) && m[w.push(a[j])]
                == discovery::counts_beside(m, w, a, n)[i],
    decreases n,
{
    if n > 0 {
        law_characters_beside_are_counted(m, w, a, n - 1, i);
        let before = discovery::counts_beside(m, w, a, n - 1);
        let all = discovery::counts_beside(m, w, a, n);
        let x = w.push(a[n - 1]);
        if 0 <= i < n && m.contains_key(w.push(a[i])) && m[w.push(a[i])] > 0 {
            if i == n - 1 {
                assert(all[before.len() as int] == m[x]);
            } else {
                let k = choose|k: int| 0 <= k < before.len() && before[k] == m[w.push(a[i])];
                assert(all[k] == before[k]);
            }
        }
        if 0 <= i < before.len() {
            assert(all[i] == before[i]);
            let j = choose|j: int|
                0 <= j < n - 1 && m.contains_key(w.push(#[trigger] a[j])) && m[w.push(a[j])]
                    == before[i];
            assert(m.contains_key(w.push(a[j])) && m[w.push(a[j])] == all[i]);
        } else if 0 <= i < all.len() {
            assert(m.contains_key(w.push(a[n - 1])) && m[w.push(a[n - 1])] == all[i]);
        }
    }
}

/// New words that occur more often come first.
pub proof fn law_frequent_words_come_first(
    t: discovery::Counts,
    a: Seq<char>,
    min: u64,
    known: Set<Seq<char>>,
    i: int,
    j: int,
)
    requires
        0 <= i < j < discovery::discovered(t, a, min, known).len(),
    ensures
        discovery::discovered(t, a, min, known)[i].count >= discovery::discovered(t, a, min, known)[j].count,
{
    let s = t.words.filter(discovery::is_new(t, min, known)).map_values(
        |w: Seq<char>| discovery::known_of(t, a, w),
    );
    order::law_arranged_in_order(s, discovery::more_often());
    let r = order::arranged(s, discovery::more_often());
    assert(!discovery::more_often()(r[j], r[i]));
}

/// What stands under the very strokes is offered first, in the order of the dictionary.
pub proof fn law_characters_under_the_strokes_come_first(
    c: Surroundings,
    t: TrieView,
    query: Seq<char>,
    i: int,
)
    requires
        c.trie("bihua"@) == Some(t),
        !query.contains('z'),
        0 <= i < t.exact(query).len(),
    ensures
        i < bihua::looked_up(c, query).len(),
        bihua::looked_up(c, query)[i].text == t.exact(query)[i].word,
        bihua::looked_up(c, query)[i].weight == t.exact(query)[i].weight,
        bihua::looked_up(c, query)[i].match_level == 3,
        !c.config.input.enable_prefix_matching ==> bihua::looked_up(c, query).len() == t.exact(
            query,
        ).len(),
{
}

/// A common character comes before a rare one, whatever matches and weighs more.
pub proof fn law_common_characters_score_more(a: Found, b: Found)
    requires
        a.weight <= 100000000,
        b.weight <= 100000000,
    ensures
        a.stroke_aux == "level-1"@ && b.stroke_aux == "level-2"@ ==> bihua::score(a) > bihua::score(b),
        a.stroke_aux == "level-2"@ && b.stroke_aux == "level-3"@ ==> bihua::score(a) > bihua::score(b),
        a.stroke_aux == b.stroke_aux && a.match_level == 3 && b.match_level == 1 && a.weight >= b.weight
            ==> bihua::score(a) > bihua::score(b),
        a.stroke_aux == b.stroke_aux && a.match_level == b.match_level && a.weight > b.weight
            ==> bihua::score(a) > bihua::score(b),
{
    reveal_strlit("level-1");
    reveal_strlit("level-2");
    reveal_strlit("level-3");
    assert("level-1"@[6] != "level-2"@[6]);
    assert("level-1"@[6] != "level-3"@[6]);
    assert("level-2"@[6] != "level-3"@[6]);
}

/// No more than is asked for is offered besides what stands under the very strokes.
pub proof fn law_characters_that_go_on_are_limited(c: Surroundings, t: TrieView, query: Seq<char>)
    requires
        c.trie("bihua"@) == Some(t),
        !query.contains('z'),
        c.config.input.prefix_matching_limit > 0,
    ensures
        bihua::looked_up(c, query).len() <= t.exact(query).len() + c.config.input.prefix_matching_limit,
        bihua::looked_up(c, query).len() <= t.exact(query).len() + 50,
{
    let limit = trie::least(c.config.input.prefix_matching_limit as int, 50);
    let all = trie::fresh(trie::blocks(t.data, t.keys_from(query))).filter(trie::on_level(None));
    order::law_arranged_keeps_items(all, trie::heavier());
    assert(t.bfs(query, limit, None).len() <= limit);
}


proof fn lemma_swap_cost(t: TrieView, h: Hunt, input: Seq<char>, n: int, x: Seq<char>)
    requires
        0 <= n < input.len() || n <= 0,
        !h.seen.contains(x),
        t.exact(x).len() > 0,
    ensures
        similarity::swaps_tried(t, h, input, n).seen.contains(x) ==> similarity::swaps_tried(
            t,
            h,
            input,
            n,
        ).found.contains((x, 5u128)),
    decreases n,
{
    if n > 0 {
        lemma_swap_cost(t, h, input, n - 1, x);
        let before = similarity::swaps_tried(t, h, input, n - 1);
        let y = input.update(n - 1, input[n]).update(n, input[n - 1]);
        let after = similarity::swaps_tried(t, h, input, n);
        if before.seen.contains(x) {
            let i = choose|i: int| 0 <= i < before.found.len() && before.found[i] == (x, 5u128);
            assert(after.found[i] == (x, 5u128));
        } else if after.seen.contains(x) {
            assert(x == y);
            assert(after.found[before.found.len() as int] == (x, 5u128));
        }
    }
}

/// Without fuzzy sounds an input with two neighbouring letters exchanged is half as far away as one edit.
pub proof fn law_exchanged_letters_are_near(t: TrieView, input: Seq<char>, s: Syllables, i: int)
    requires
        text::byte_len(input) <= 12,
        0 <= i < input.len() - 1,
        exchanged(input, i) != input,
        t.exact(exchanged(input, i)).len() > 0,
    ensures
        similarity::similar(t, input, None, s).contains((exchanged(input, i), 5u128)),
{
    let x = exchanged(input, i);
    let start = Hunt { seen: Set::empty(), found: Seq::empty() };
    let h0 = similarity::tried(t, start, input, 0);
    lemma_tried(t, start, input, 0);
    let keys = t.keys_near(input);
    lemma_swaps(t, h0, input, input.len() - 1, i);
    lemma_swap_cost(t, h0, input, input.len() - 1, x);
    let h2 = similarity::swaps_tried(t, h0, input, input.len() - 1);
    lemma_near(t, h2, keys, keys.len() as int, 0);
    let h3 = similarity::near_tried(t, h2, keys, keys.len() as int);
    let k = choose|k: int| 0 <= k < h2.found.len() && h2.found[k] == (x, 5u128);
    assert(h3.found[k] == (x, 5u128));
    assert(h3.found.contains((x, 5u128)));
    order::lemma_arranged_contains(h3.found, similarity::nearer(), (x, 5u128));
}

/// What is counted over sentences is the sum over all of them.
pub proof fn law_counts_are_summed_up(
    a: Seq<Seq<char>>,
    b: Seq<Seq<char>>,
    f: spec_fn(Seq<char>) -> int,
    s: Seq<char>,
)
    ensures
        discovery::over_all(a + b, f, (a + b).len() as int) == discovery::over_all(a, f, a.len() as int)
            + discovery::over_all(b, f, b.len() as int),
        discovery::over_all(seq![s], f, 1) == f(s),
{
    lemma_summed_up(a, b, f, b.len() as int);
    assert(discovery::over_all(seq![s], f, 0) == 0);
}

proof fn lemma_summed_up(a: Seq<Seq<char>>, b: Seq<Seq<char>>, f: spec_fn(Seq<char>) -> int, n: int)
    requires
        0 <= n <= b.len(),
    ensures
        discovery::over_all(a + b, f, a.len() + n) == discovery::over_all(a, f, a.len() as int)
            + discovery::over_all(b, f, n),
    decreases n,
{
    if n > 0 {
        lemma_summed_up(a, b, f, n - 1);
        assert((a + b)[a.len() + n - 1] == b[n - 1]);
    } else {
        lemma_summed_before(a, b, f, a.len() as int);
    }
}

proof fn lemma_summed_before(
    a: Seq<Seq<char>>,
    b: Seq<Seq<char>>,
    f: spec_fn(Seq<char>) -> int,
    n: int,
)
    requires
        0 <= n <= a.len(),
    ensures
        discovery::over_all(a + b, f, n) == discovery::over_all(a, f, n),
    decreases n,
{
    if n > 0 {
        lemma_summed_before(a, b, f, n - 1);
        assert((a + b)[n - 1] == a[n - 1]);
    }
}

/// Stretches of more than one character are sentences, and no others are.
pub proof fn law_single_characters_are_no_sentences(s: Seq<char>, x: Seq<char>)
    ensures
        discovery::sentences(s).contains(x) <==> discovery::stretches(s).contains(x) && x.len() > 1,
{
    let all = discovery::stretches(s);
    let f = discovery::longer_than_one();
    let r = all.filter(f);
    if r.contains(x) {
        let i = choose|i: int| 0 <= i < r.len() && r[i] == x;
        all.lemma_filter_pred(f, i);
        all.lemma_filter_contains_rev(f, x);
    }
    if all.contains(x) && x.len() > 1 {
        let i = choose|i: int| 0 <= i < all.len() && all[i] == x;
        all.lemma_filter_contains(f, i);
    }
}


} // verus!
