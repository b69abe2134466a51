//! What is promised of finding words in a dictionary: what is found stands under a key that was asked
//! for, and nothing that stands there is left out.

use vstd::prelude::*;
use vstd::utf8::*;
use crate::index;
use crate::order;
use crate::segmentation;
use crate::text;
use crate::trie;
use crate::trie::{Entry, TrieView};

verus! {

/// Where a key goes among keys that stand in order.
spec fn place_for(s: Seq<(Seq<u8>, u64)>, k: Seq<u8>, i: int) -> int
    decreases s.len() - i,
{
    if i >= s.len() || index::bytes_before(k, s[i].0) {
        i
    } else {
        place_for(s, k, i + 1)
    }
}

proof fn lemma_place_for(s: Seq<(Seq<u8>, u64)>, k: Seq<u8>, i: int)
    requires
        0 <= i <= s.len(),
        forall|x: int| 0 <= x < i ==> index::bytes_before((#[trigger] s[x]).0, k),
        forall|x: int| 0 <= x < s.len() ==> (#[trigger] s[x]).0 != k,
    ensures
        i <= place_for(s, k, i) <= s.len(),
        forall|x: int| 0 <= x < place_for(s, k, i) ==> index::bytes_before((#[trigger] s[x]).0, k),
        place_for(s, k, i) < s.len() ==> index::bytes_before(k, s[place_for(s, k, i)].0),
    decreases s.len() - i,
{
    if i < s.len() && !index::bytes_before(k, s[i].0) {
        index::lemma_bytes_order(k, s[i].0);
        lemma_place_for(s, k, i + 1);
    }
}

proof fn lemma_listed_with(
    s: Seq<(Seq<u8>, u64)>,
    m: Map<Seq<u8>, u64>,
    k: Seq<u8>,
    wanted: spec_fn(Seq<u8>) -> bool,
) -> (r: Seq<(Seq<u8>, u64)>)
    requires
        m.contains_key(k),
        index::lists(s, m.remove(k), wanted),
    ensures
        index::lists(r, m, wanted),
{
    let rest = m.remove(k);
    if wanted(k) {
        assert forall|x: int| 0 <= x < s.len() implies (#[trigger] s[x]).0 != k by {
            assert(rest.contains_key(s[x].0));
        }
        lemma_place_for(s, k, 0);
        let p = place_for(s, k, 0);
        let r = s.insert(p, (k, m[k]));
        assert forall|i: int, j: int| 0 <= i < j < r.len() implies index::bytes_before(
            (#[trigger] r[i]).0,
            (#[trigger] r[j]).0,
        ) by {
            let a = if i < p {
                i
            } else {
                i - 1
            };
            let b = if j < p {
                j
            } else {
                j - 1
            };
            if i != p && j != p {
                assert(r[i] == s[a] && r[j] == s[b]);
            } else if j == p {
                assert(r[i] == s[i]);
            } else {
                assert(r[j] == s[b]);
                if b > p {
                    assert(index::bytes_before(s[p].0, s[b].0));
                    index::lemma_bytes_order_transitive(k, s[p].0, s[b].0);
                }
            }
        }
        assert forall|i: int| 0 <= i < r.len() implies m.contains_key((#[trigger] r[i]).0)
            && m[r[i].0] == r[i].1 && wanted(r[i].0) by {
            if i < p {
                assert(r[i] == s[i]);
            } else if i > p {
                assert(r[i] == s[i - 1]);
            }
        }
        assert forall|x: Seq<u8>| #[trigger] m.contains_key(x) && wanted(x) implies exists|i: int|
            0 <= i < r.len() && (#[trigger] r[i]).0 == x by {
            if x == k {
                assert(r[p].0 == k);
            } else {
                assert(rest.contains_key(x));
                let i = choose|i: int| 0 <= i < s.len() && (#[trigger] s[i]).0 == x;
                if i < p {
                    assert(r[i].0 == x);
                } else {
                    assert(r[i + 1].0 == x);
                }
            }
        }
        r
    } else {
        assert forall|x: Seq<u8>| #[trigger] m.contains_key(x) && wanted(x) implies exists|i: int|
            0 <= i < s.len() && (#[trigger] s[i]).0 == x by {
            assert(rest.contains_key(x));
        }
        assert forall|i: int| 0 <= i < s.len() implies m.contains_key((#[trigger] s[i]).0)
            && m[s[i].0] == s[i].1 && wanted(s[i].0) by {
            assert(rest.contains_key(s[i].0));
        }
        s
    }
}

proof fn lemma_listing_exists(m: Map<Seq<u8>, u64>, wanted: spec_fn(Seq<u8>) -> bool) -> (r: Seq<
    (Seq<u8>, u64),
>)
    requires
        m.dom().finite(),
    ensures
        index::lists(r, m, wanted),
    decreases m.dom().len(),
{
    if m.dom().len() == 0 {
        assert(m.dom() =~= Set::empty());
        let r = Seq::<(Seq<u8>, u64)>::empty();
        assert forall|x: Seq<u8>| #[trigger] m.contains_key(x) && wanted(x) implies exists|i: int|
            0 <= i < r.len() && (#[trigger] r[i]).0 == x by {
            assert(m.dom().contains(x));
        }
        r
    } else {
        let k = m.dom().choose();
        assert(m.dom().contains(k));
        assert(m.remove(k).dom() =~= m.dom().remove(k));
        let s = lemma_listing_exists(m.remove(k), wanted);
        lemma_listed_with(s, m, k, wanted)
    }
}

/// The keys that begin with a text are listed: all of them, and no others.
pub proof fn law_keys_are_listed(t: TrieView, prefix: Seq<char>)
    requires
        t.index.dom().finite(),
    ensures
        forall|i: int|
            0 <= i < t.keys_from(prefix).len() ==> t.index.contains_key(
                (#[trigger] t.keys_from(prefix)[i]).0,
            ) && t.index[t.keys_from(prefix)[i].0] == t.keys_from(prefix)[i].1
                && encode_utf8(prefix).is_prefix_of(t.keys_from(prefix)[i].0),
        forall|k: Seq<u8>| #[trigger]
            t.index.contains_key(k) && encode_utf8(prefix).is_prefix_of(k) ==> exists|i: int|
                0 <= i < t.keys_from(prefix).len() && (#[trigger] t.keys_from(prefix)[i]).0 == k,
{
    let wanted = index::beginning_with(prefix);
    let s = lemma_listing_exists(t.index, wanted);
    index::lemma_is_listing(s, t.index, wanted);
    let p = encode_utf8(prefix);
    assert forall|i: int| 0 <= i < s.len() implies t.index.contains_key((#[trigger] s[i]).0)
        && t.index[s[i].0] == s[i].1 && p.is_prefix_of(s[i].0) by {
        assert(wanted(s[i].0));
        assert(p =~= s[i].0.take(p.len() as int));
        assert(p =~= s[i].0.subrange(0, p.len() as int));
    }
    assert forall|k: Seq<u8>| #[trigger] t.index.contains_key(k) && p.is_prefix_of(k) implies exists|
        i: int,
    |
        0 <= i < s.len() && (#[trigger] s[i]).0 == k by {
        assert(k.take(p.len() as int) =~= k.subrange(0, p.len() as int));
        assert(wanted(k));
    }
    assert(t.keys_from(prefix) == s);
    assert forall|k: Seq<u8>| #[trigger] t.index.contains_key(k) && p.is_prefix_of(k) implies exists|
        i: int,
    |
        0 <= i < t.keys_from(prefix).len() && (#[trigger] t.keys_from(prefix)[i]).0 == k by {
        let i = choose|i: int| 0 <= i < s.len() && (#[trigger] s[i]).0 == k;
        assert(t.keys_from(prefix)[i].0 == k);
    }
}

proof fn lemma_blocks(d: Seq<u8>, keys: Seq<(Seq<u8>, u64)>, e: Entry)
    ensures
        trie::blocks(d, keys).contains(e) <==> exists|i: int|
            0 <= i < keys.len() && trie::block_at(d, (#[trigger] keys[i]).1 as int).contains(e),
    decreases keys.len(),
{
    if keys.len() > 0 {
        let a = keys.drop_last();
        lemma_blocks(d, a, e);
        let x = trie::blocks(d, a);
        let y = trie::block_at(d, keys.last().1 as int);
        if (x + y).contains(e) {
            let i = choose|i: int| 0 <= i < (x + y).len() && (x + y)[i] == e;
            if i < x.len() {
                assert(x[i] == e);
                let j = choose|j: int|
                    0 <= j < a.len() && trie::block_at(d, (#[trigger] a[j]).1 as int).contains(e);
                assert(keys[j] == a[j]);
            } else {
                assert(y[i - x.len()] == e);
                assert(keys[keys.len() - 1] == keys.last());
            }
        }
        if exists|i: int|
            0 <= i < keys.len() && trie::block_at(d, (#[trigger] keys[i]).1 as int).contains(e) {
            let i = choose|i: int|
                0 <= i < keys.len() && trie::block_at(d, (#[trigger] keys[i]).1 as int).contains(e);
            if i < a.len() {
                assert(a[i] == keys[i]);
                let j = choose|j: int| 0 <= j < x.len() && x[j] == e;
                assert((x + y)[j] == e);
            } else {
                let j = choose|j: int| 0 <= j < y.len() && y[j] == e;
                assert((x + y)[x.len() + j] == e);
            }
        }
    }
}

/// Of entries with one word the first is kept, in the order in which they stood: no word is lost, and
/// none occurs twice.
pub proof fn law_first_of_each_word_is_kept(s: Seq<Entry>, w: Seq<char>)
    ensures
        trie::has_word(trie::fresh(s), w) <==> trie::has_word(s, w),
        forall|e: Entry| #[trigger] trie::fresh(s).contains(e) ==> s.contains(e),
        forall|i: int, j: int|
            0 <= i < j < trie::fresh(s).len() ==> (#[trigger] trie::fresh(s)[i]).word != (
            #[trigger] trie::fresh(s)[j]).word,
        s.len() > 0 ==> trie::fresh(s).len() > 0 && trie::fresh(s)[0] == s[0],
    decreases s.len(),
{
    if s.len() > 0 {
        let d = s.drop_last();
        let f = trie::fresh(d);
        let r = trie::fresh(s);
        let x = s.last();
        law_first_of_each_word_is_kept(d, w);
        law_first_of_each_word_is_kept(d, x.word);
        if d.len() == 0 {
            assert(f =~= Seq::empty());
            assert(!trie::has_word(d, x.word));
            assert(r =~= seq![x]);
        } else {
            assert(d[0] == s[0]);
        }
        if trie::has_word(d, w) {
            let i = choose|i: int| 0 <= i < d.len() && (#[trigger] d[i]).word == w;
            assert(s[i].word == w);
            let j = choose|j: int| 0 <= j < f.len() && (#[trigger] f[j]).word == w;
            assert(r[j].word == w);
        }
        if trie::has_word(s, w) && !trie::has_word(d, w) {
            let i = choose|i: int| 0 <= i < s.len() && (#[trigger] s[i]).word == w;
            if i < d.len() {
                assert(d[i].word == w);
            }
            assert(x.word == w);
            assert(r.last().word == w);
            assert(r[r.len() - 1].word == w);
        }
        if trie::has_word(r, w) {
            let j = choose|j: int| 0 <= j < r.len() && (#[trigger] r[j]).word == w;
            if j < f.len() {
                assert(f[j].word == w);
                let i = choose|i: int| 0 <= i < d.len() && (#[trigger] d[i]).word == w;
                assert(s[i].word == w);
            } else {
                assert(s[s.len() - 1].word == w);
            }
        }
        assert forall|e: Entry| #[trigger] r.contains(e) implies s.contains(e) by {
            let j = choose|j: int| 0 <= j < r.len() && r[j] == e;
            if j < f.len() {
                assert(f[j] == e);
                assert(f.contains(e));
                let i = choose|i: int| 0 <= i < d.len() && d[i] == e;
                assert(s[i] == e);
            } else {
                assert(s[s.len() - 1] == e);
            }
        }
        assert forall|i: int, j: int| 0 <= i < j < r.len() implies (#[trigger] r[i]).word != (
        #[trigger] r[j]).word by {
            assert(r[i] == f[i]);
            if j < f.len() {
                assert(r[j] == f[j]);
            } else if f[i].word == x.word {
                assert(trie::has_word(f, x.word));
            }
        }
    }
}

/// Whether an entry stands under a key of the dictionary.
pub open spec fn stands_under(t: TrieView, k: Seq<u8>, e: Entry) -> bool {
    t.index.contains_key(k) && trie::block_at(t.data, t.index[k] as int).contains(e)
}

/// Whether an entry stands under a key that begins with a text.
pub open spec fn stands_behind(t: TrieView, prefix: Seq<char>, e: Entry) -> bool {
    exists|x: Seq<u8>| #[trigger] stands_under(t, x, e) && encode_utf8(prefix).is_prefix_of(x)
}

/// A search by the beginning of a key finds entries under the keys that begin so, each word once. The
/// heaviest come first where there is a limit, and no more than that. Where there are fewer, every
/// word that stands under such a key is found.
pub proof fn law_prefix_search(t: TrieView, prefix: Seq<char>, limit: int, k: Seq<u8>, e: Entry)
    requires
        t.index.dom().finite(),
        0 <= limit,
    ensures
        ({
            let r = t.bfs(prefix, limit, None);
            &&& forall|i: int|
                0 <= i < r.len() ==> stands_behind(t, prefix, #[trigger] r[i])
            &&& limit > 0 ==> r.len() <= limit
            &&& limit > 0 ==> forall|i: int, j: int|
                0 <= i < j < r.len() ==> (#[trigger] r[i]).weight >= (#[trigger] r[j]).weight
            &&& limit == 0 || r.len() < limit ==> (stands_under(t, k, e) && encode_utf8(
                prefix,
            ).is_prefix_of(k) ==> trie::has_word(r, e.word))
        }),
{
    let keys = t.keys_from(prefix);
    let b = trie::blocks(t.data, keys);
    let level = trie::on_level(None);
    let f = trie::fresh(b);
    let all = f.filter(level);
    let r = t.bfs(prefix, limit, None);
    law_keys_are_listed(t, prefix);
    law_first_of_each_word_is_kept(b, e.word);
    lemma_all_pass(f, level);
    assert(all =~= f);
    let s = order::arranged(all, trie::heavier());
    order::law_arranged_keeps_items(all, trie::heavier());
    order::law_arranged_in_order(all, trie::heavier());
    assert forall|i: int| 0 <= i < r.len() implies stands_behind(t, prefix, #[trigger] r[i]) by {
        if limit > 0 {
            assert(r[i] == s[i]);
            assert(s.contains(s[i]));
            order::lemma_arranged_contains(all, trie::heavier(), r[i]);
        }
        assert(f.contains(r[i]));
        assert(b.contains(r[i]));
        lemma_blocks(t.data, keys, r[i]);
        let j = choose|j: int|
            0 <= j < keys.len() && trie::block_at(t.data, (#[trigger] keys[j]).1 as int).contains(
                r[i],
            );
        assert(stands_under(t, keys[j].0, r[i]));
    }
    if limit > 0 {
        assert forall|i: int, j: int| 0 <= i < j < r.len() implies (#[trigger] r[i]).weight >= (
        #[trigger] r[j]).weight by {
            assert(!trie::heavier()(s[j], s[i]));
        }
    }
    if (limit == 0 || r.len() < limit) && stands_under(t, k, e) && encode_utf8(prefix).is_prefix_of(k) {
        lemma_blocks(t.data, keys, e);
        let j = choose|j: int| 0 <= j < keys.len() && (#[trigger] keys[j]).0 == k;
        assert(trie::block_at(t.data, keys[j].1 as int).contains(e));
        assert(b.contains(e));
        let x = choose|x: int| 0 <= x < b.len() && b[x] == e;
        assert(trie::has_word(b, e.word));
        let y = choose|y: int| 0 <= y < f.len() && (#[trigger] f[y]).word == e.word;
        if limit > 0 {
            assert(all.contains(f[y]));
            order::lemma_arranged_contains(all, trie::heavier(), f[y]);
            let z = choose|z: int| 0 <= z < s.len() && s[z] == f[y];
            assert(r[z].word == e.word);
        } else {
            assert(r[y].word == e.word);
        }
    }
}

proof fn lemma_all_pass<A>(s: Seq<A>, p: spec_fn(A) -> bool)
    requires
        forall|i: int| 0 <= i < s.len() ==> p(#[trigger] s[i]),
    ensures
        s.filter(p) == s,
    decreases s.len(),
{
    reveal(Seq::filter);
    if s.len() > 0 {
        let d = s.drop_last();
        assert forall|i: int| 0 <= i < d.len() implies p(#[trigger] d[i]) by {
            assert(d[i] == s[i]);
        }
        lemma_all_pass(d, p);
        assert(p(s[s.len() - 1]));
        assert(d.push(s.last()) =~= s);
    } else {
        assert(s.filter(p) =~= s);
    }
}

/// A dictionary holds a word exactly where the word stands under one of its keys.
pub proof fn law_words_that_are_held(t: TrieView, w: Seq<char>)
    requires
        t.index.dom().finite(),
    ensures
        t.holds(w) <==> exists|k: Seq<u8>, e: Entry| #[trigger]
            stands_under(t, k, e) && e.word == w,
        forall|k: Seq<char>| trie::has_word(#[trigger] t.exact(k), w) ==> t.holds(w),
{
    law_keys_are_listed(t, Seq::empty());
    let keys = t.keys_from(Seq::empty());
    let b = trie::blocks(t.data, keys);
    assert(encode_utf8(Seq::<char>::empty()) =~= Seq::<u8>::empty());
    if t.holds(w) {
        let i = choose|i: int| 0 <= i < b.len() && (#[trigger] b[i]).word == w;
        assert(b.contains(b[i]));
        lemma_blocks(t.data, keys, b[i]);
        let j = choose|j: int|
            0 <= j < keys.len() && trie::block_at(t.data, (#[trigger] keys[j]).1 as int).contains(
                b[i],
            );
        assert(stands_under(t, keys[j].0, b[i]));
    }
    assert forall|k: Seq<u8>, e: Entry| #[trigger] stands_under(t, k, e) && e.word == w implies t.holds(
        w,
    ) by {
        assert(encode_utf8(Seq::<char>::empty()).is_prefix_of(k));
        let j = choose|j: int| 0 <= j < keys.len() && (#[trigger] keys[j]).0 == k;
        assert(trie::block_at(t.data, keys[j].1 as int).contains(e));
        lemma_blocks(t.data, keys, e);
        let x = choose|x: int| 0 <= x < b.len() && b[x] == e;
        assert(b[x].word == w);
    }
    assert forall|k: Seq<char>| trie::has_word(#[trigger] t.exact(k), w) implies t.holds(w) by {
        let s = t.exact(k);
        let i = choose|i: int| 0 <= i < s.len() && (#[trigger] s[i]).word == w;
        assert(s.contains(s[i]));
        assert(stands_under(t, encode_utf8(k), s[i]));
    }
}

proof fn lemma_word_index(t: TrieView, keys: Seq<(Seq<u8>, u64)>, w: Seq<char>)
    requires
        forall|i: int|
            0 <= i < keys.len() ==> t.index.contains_key((#[trigger] keys[i]).0)
                && t.index[keys[i].0] == keys[i].1,
    ensures
        trie::word_index(t.data, keys).contains_key(w) ==> {
            let k = trie::word_index(t.data, keys)[w];
            t.has_key(k) && t.exact(k).len() > 0 && t.exact(k)[0].word == w
        },
        forall|i: int|
            0 <= i < keys.len() && valid_utf8((#[trigger] keys[i]).0) && trie::block_at(
                t.data,
                keys[i].1 as int,
            ).len() > 0 && trie::block_at(t.data, keys[i].1 as int)[0].word == w
                ==> trie::word_index(t.data, keys).contains_key(w),
    decreases keys.len(),
{
    if keys.len() > 0 {
        let d = keys.drop_last();
        assert forall|i: int| 0 <= i < d.len() implies t.index.contains_key((#[trigger] d[i]).0)
            && t.index[d[i].0] == d[i].1 by {
            assert(d[i] == keys[i]);
        }
        lemma_word_index(t, d, w);
        let last = keys[keys.len() - 1];
        assert(t.index.contains_key(last.0));
        if valid_utf8(last.0) {
            decode_utf8_encode_utf8(last.0);
        }
        assert forall|i: int|
            0 <= i < keys.len() && valid_utf8((#[trigger] keys[i]).0) && trie::block_at(
                t.data,
                keys[i].1 as int,
            ).len() > 0 && trie::block_at(t.data, keys[i].1 as int)[0].word
                == w implies trie::word_index(t.data, keys).contains_key(w) by {
            if i < d.len() {
                assert(d[i] == keys[i]);
            }
        }
    }
}

/// The key that a dictionary gives for a word is one under which the word stands first, and it gives
/// one for every word that stands first under a key.
pub proof fn law_key_of_a_word(t: TrieView, w: Seq<char>, k: Seq<char>)
    requires
        t.index.dom().finite(),
    ensures
        t.word_pinyin().contains_key(w) ==> t.exact(t.word_pinyin()[w]).len() > 0 && t.exact(
            t.word_pinyin()[w],
        )[0].word == w,
        t.exact(k).len() > 0 && t.exact(k)[0].word == w ==> t.word_pinyin().contains_key(w),
{
    law_keys_are_listed(t, Seq::empty());
    let keys = t.keys_from(Seq::empty());
    lemma_word_index(t, keys, w);
    assert(encode_utf8(Seq::<char>::empty()) =~= Seq::<u8>::empty());
    if t.exact(k).len() > 0 && t.exact(k)[0].word == w {
        let b = encode_utf8(k);
        assert(t.index.contains_key(b));
        assert(encode_utf8(Seq::<char>::empty()).is_prefix_of(b));
        let i = choose|i: int| 0 <= i < keys.len() && (#[trigger] keys[i]).0 == b;
        encode_utf8_valid_utf8(k);
        assert(valid_utf8(keys[i].0));
    }
}

/// Whether a text is made of known keys, one for each of some beginnings, each of which begins with
/// its own.
pub open spec fn cut_along(t: TrieView, key: Seq<char>, segs: Seq<Seq<char>>, parts: Seq<Seq<char>>) -> bool {
    &&& parts.len() == segs.len()
    &&& segmentation::joined(parts) == key
    &&& forall|i: int|
        0 <= i < parts.len() ==> t.has_key(#[trigger] parts[i]) && segs[i].is_prefix_of(parts[i])
}

proof fn lemma_cut_along(t: TrieView, key: Seq<char>, segs: Seq<Seq<char>>) -> (parts: Seq<Seq<char>>)
    requires
        trie::strict_match(t, key, segs),
    ensures
        cut_along(t, key, segs, parts),
    decreases segs.len(),
{
    if segs.len() == 0 {
        assert(key =~= Seq::empty());
        Seq::empty()
    } else if exists|n: int| #[trigger]
        trie::strict_cut(t, key, segs[0], n) && trie::strict_match(t, key.skip(n), segs.drop_first()) {
        let n = choose|n: int| #[trigger]
            trie::strict_cut(t, key, segs[0], n) && trie::strict_match(
                t,
                key.skip(n),
                segs.drop_first(),
            );
        let rest = lemma_cut_along(t, key.skip(n), segs.drop_first());
        let first = key.take(n);
        let parts = seq![first] + rest;
        segmentation::law_joining_is_in_order(seq![first], rest, first);
        assert(first + key.skip(n) =~= key);
        assert forall|i: int| 0 <= i < parts.len() implies t.has_key(#[trigger] parts[i])
            && segs[i].is_prefix_of(parts[i]) by {
            if i > 0 {
                assert(parts[i] == rest[i - 1]);
                assert(segs[i] == segs.drop_first()[i - 1]);
            } else {
                assert(segs[0] =~= first.subrange(0, segs[0].len() as int));
            }
        }
        parts
    } else {
        let parts = seq![key];
        segmentation::law_joining_is_in_order(Seq::empty(), Seq::empty(), key);
        assert(segs[0] =~= key.subrange(0, segs[0].len() as int));
        parts
    }
}

/// What an abbreviation finds stands under keys that are made of known keys, one for each of its
/// segments in their order, each of which begins with its segment.
pub proof fn law_abbreviations_are_spelled_out(t: TrieView, segs: Seq<Seq<char>>, i: int)
    requires
        t.index.dom().finite(),
        0 <= i < t.abbreviation(segs).len(),
    ensures
        exists|k: Seq<u8>, parts: Seq<Seq<char>>|
            stands_under(t, k, t.abbreviation(segs)[i]) && #[trigger] cut_along(
                t,
                trie::key_text(k),
                segs,
                parts,
            ),
{
    let p = |k: (Seq<u8>, u64)| trie::strict_match(t, trie::key_text(k.0), segs);
    let all = t.keys_from(segs[0]);
    let keys = all.filter(p);
    let b = trie::blocks(t.data, keys);
    let f = trie::fresh(b);
    let e = t.abbreviation(segs)[i];
    assert(e == f[i]);
    assert(f.contains(e));
    law_first_of_each_word_is_kept(b, e.word);
    lemma_blocks(t.data, keys, e);
    let j = choose|j: int|
        0 <= j < keys.len() && trie::block_at(t.data, (#[trigger] keys[j]).1 as int).contains(e);
    all.lemma_filter_pred(p, j);
    assert(keys.contains(keys[j]));
    all.lemma_filter_contains_rev(p, keys[j]);
    law_keys_are_listed(t, segs[0]);
    let x = choose|x: int| 0 <= x < all.len() && all[x] == keys[j];
    assert(t.index.contains_key(all[x].0));
    let parts = lemma_cut_along(t, trie::key_text(keys[j].0), segs);
    assert(stands_under(t, keys[j].0, e));
    assert(cut_along(t, trie::key_text(keys[j].0), segs, parts));
}

/// What a pattern finds stands under keys that agree with it letter by letter, but for the letter
/// that stands for any, and that may go on behind it. Each word comes once, and no more than asked.
pub proof fn law_patterns_fit_letter_by_letter(t: TrieView, pattern: Seq<char>, limit: int, i: int)
    requires
        t.index.dom().finite(),
        1 <= limit,
        0 <= i < t.wildcard(pattern, limit, None).len(),
    ensures
        ({
            let r = t.wildcard(pattern, limit, None);
            let p = encode_utf8(pattern);
            &&& r.len() <= limit
            &&& exists|k: Seq<u8>| #[trigger]
                stands_under(t, k, r[i]) && p.len() <= k.len() && forall|x: int|
                    0 <= x < p.len() && #[trigger] p[x] != 'z' as u8 ==> p[x] == k[x]
            &&& forall|x: int, y: int|
                0 <= x < y < r.len() ==> (#[trigger] r[x]).word != (#[trigger] r[y]).word
        }),
{
    let all = t.keys_from(trie::wildcard_stem(pattern));
    let p = trie::wildcard_key(pattern);
    let keys = all.filter(p);
    let b = trie::blocks(t.data, keys);
    let f = trie::fresh(b);
    let level = trie::on_level(None);
    lemma_all_pass(f, level);
    let e = t.wildcard(pattern, limit, None)[i];
    assert(e == f[i]);
    assert(f.contains(e));
    law_first_of_each_word_is_kept(b, e.word);
    lemma_blocks(t.data, keys, e);
    let j = choose|j: int|
        0 <= j < keys.len() && trie::block_at(t.data, (#[trigger] keys[j]).1 as int).contains(e);
    all.lemma_filter_pred(p, j);
    assert(keys.contains(keys[j]));
    all.lemma_filter_contains_rev(p, keys[j]);
    law_keys_are_listed(t, trie::wildcard_stem(pattern));
    let x = choose|x: int| 0 <= x < all.len() && all[x] == keys[j];
    assert(t.index.contains_key(all[x].0));
    decode_utf8_encode_utf8(keys[j].0);
    assert(stands_under(t, keys[j].0, e));
}

} // verus!
