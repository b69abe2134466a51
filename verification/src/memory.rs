//! What is learned from the words that the user puts out.

use vstd::prelude::*;
use crate::order;
use crate::order::sort_stable;
use crate::strmap;
use crate::strmap::StrMap;
use crate::text;
use crate::text::same_text;
use crate::trie;
use crate::userdict;
use crate::userdict::{OrderData, OrderList, ProfileDict, UserDictData, WordList};

verus! {

/// How many words follow a word at most in memory.
pub const FOLLOWERS: usize = 10;

/// Words with counts.
pub type Words = Seq<(Seq<char>, u32)>;

/// The words of a profile, or none.
pub open spec fn profile_or_none(d: userdict::UserWords, profile: Seq<char>) -> userdict::ProfileWords {
    match strmap::lookup(d, profile) {
        Some(p) => p,
        None => Seq::empty(),
    }
}

/// The words under a key, or none.
pub open spec fn words_or_none(p: userdict::ProfileWords, key: Seq<char>) -> Words {
    match strmap::lookup(p, key) {
        Some(l) => l,
        None => Seq::empty(),
    }
}

/// With other words under a key of a profile.
pub open spec fn with_words(
    d: userdict::UserWords,
    profile: Seq<char>,
    key: Seq<char>,
    words: Words,
) -> userdict::UserWords {
    strmap::put(d, profile, strmap::put(profile_or_none(d, profile), key, words))
}

/// One more, up to the highest number there is.
pub open spec fn one_more(n: u32) -> u32 {
    trie::least(u32::MAX as int, n + 1) as u32
}

/// A word counts more than another.
pub open spec fn counts_more() -> spec_fn((Seq<char>, u32), (Seq<char>, u32)) -> bool {
    |a: (Seq<char>, u32), b: (Seq<char>, u32)| a.1 > b.1
}

/// Words when one of them has been used: by count, the most used first; else the last used
/// first, and no more than ten.
pub open spec fn used(l: Words, w: Seq<char>, by_count: bool) -> Words {
    let i = strmap::index_of(l, w);
    if by_count {
        let m = if i >= 0 {
            l.update(i, (l[i].0, one_more(l[i].1)))
        } else {
            l.push((w, 1))
        };
        order::arranged(m, counts_more())
    } else {
        let m = if i >= 0 {
            seq![(w, one_more(l[i].1))] + l.remove(i)
        } else {
            seq![(w, 1u32)] + l
        };
        m.take(trie::least(FOLLOWERS as int, m.len() as int))
    }
}

/// How many words a profile has under its first `n` keys.
pub open spec fn total(p: userdict::ProfileWords, n: int) -> int
    decreases n,
{
    if n <= 0 {
        0
    } else {
        total(p, n - 1) + p[n - 1].1.len()
    }
}

/// The word that counts least so far: its count, and its place.
pub struct Rarest {
    pub count: u32,
    pub key: int,
    pub at: int,
}

/// The word that counts least, after the first `n` words under a key.
pub open spec fn rarer_word(r: Rarest, key: int, l: Words, n: int) -> Rarest
    decreases n,
{
    if n <= 0 {
        r
    } else {
        let before = rarer_word(r, key, l, n - 1);
        if l[n - 1].1 < before.count {
            Rarest { count: l[n - 1].1, key, at: n - 1 }
        } else {
            before
        }
    }
}

/// The word that counts least under the first `n` keys; a place of -1 says that none counts
/// less than the highest number.
pub open spec fn rarest_word(p: userdict::ProfileWords, n: int) -> Rarest
    decreases n,
{
    if n <= 0 {
        Rarest { count: u32::MAX, key: -1, at: -1 }
    } else {
        rarer_word(rarest_word(p, n - 1), n - 1, p[n - 1].1, p[n - 1].1.len() as int)
    }
}

/// The words of a profile without the one that counts least, where there are too many. A key
/// without words goes too.
pub open spec fn evicted(p: userdict::ProfileWords, capacity: int) -> userdict::ProfileWords {
    let r = rarest_word(p, p.len() as int);
    if total(p, p.len() as int) > capacity && r.key >= 0 && p[r.key].0.len() > 0 {
        let rest = p[r.key].1.remove(r.at);
        if rest.len() == 0 {
            p.remove(r.key)
        } else {
            p.update(r.key, (p[r.key].0, rest))
        }
    } else {
        p
    }
}

/// The words among the first `n` under a key that are used often enough to be kept.
pub open spec fn due_words(key: Seq<char>, l: Words, threshold: u32, n: int) -> Seq<
    (Seq<char>, Seq<char>, u32),
>
    decreases n,
{
    if n <= 0 {
        Seq::empty()
    } else {
        let before = due_words(key, l, threshold, n - 1);
        if l[n - 1].1 >= threshold {
            before.push((key, l[n - 1].0, l[n - 1].1))
        } else {
            before
        }
    }
}

/// The words under the first `n` keys that are used often enough to be kept.
pub open spec fn due(p: userdict::ProfileWords, threshold: u32, n: int) -> Seq<
    (Seq<char>, Seq<char>, u32),
>
    decreases n,
{
    if n <= 0 {
        Seq::empty()
    } else {
        due(p, threshold, n - 1) + due_words(
            p[n - 1].0,
            p[n - 1].1,
            threshold,
            p[n - 1].1.len() as int,
        )
    }
}

/// Another word than one.
pub open spec fn not_word(w: Seq<char>) -> spec_fn((Seq<char>, u32)) -> bool {
    |e: (Seq<char>, u32)| e.0 != w
}

/// The words of a profile without one under a key. A key without words goes too.
pub open spec fn taken_out(p: userdict::ProfileWords, key: Seq<char>, w: Seq<char>) -> userdict::ProfileWords {
    match strmap::lookup(p, key) {
        Some(l) => {
            let rest = l.filter(not_word(w));
            if rest.len() == 0 {
                strmap::discard(p, key)
            } else {
                strmap::put(p, key, rest)
            }
        },
        None => p,
    }
}

/// Words with a count for a word.
pub open spec fn counted(l: Words, w: Seq<char>, count: u32) -> Words {
    let i = strmap::index_of(l, w);
    if i >= 0 {
        l.update(i, (l[i].0, count))
    } else {
        l.push((w, count))
    }
}

/// The words of a profile and those kept for long, when the first `n` of some words have been
/// moved from the former to the latter.
pub open spec fn promoted(
    p: userdict::ProfileWords,
    long: userdict::UserWords,
    profile: Seq<char>,
    moved: Seq<(Seq<char>, Seq<char>, u32)>,
    n: int,
) -> (userdict::ProfileWords, userdict::UserWords)
    decreases n,
{
    if n <= 0 {
        (p, long)
    } else {
        let (p1, long1) = promoted(p, long, profile, moved, n - 1);
        let (key, w, count) = moved[n - 1];
        (
            taken_out(p1, key, w),
            with_words(
                long1,
                profile,
                key,
                counted(words_or_none(profile_or_none(long1, profile), key), w, count),
            ),
        )
    }
}

/// Words with those of the first `n` others that are not among them.
pub open spec fn words_joined(l: Words, m: Words, n: int) -> Words
    decreases n,
{
    if n <= 0 {
        l
    } else {
        let before = words_joined(l, m, n - 1);
        if strmap::index_of(before, m[n - 1].0) >= 0 {
            before
        } else {
            before.push(m[n - 1])
        }
    }
}

/// The words of a profile joined with those under the first `n` keys of another.
pub open spec fn keys_joined(p: userdict::ProfileWords, q: userdict::ProfileWords, n: int) -> userdict::ProfileWords
    decreases n,
{
    if n <= 0 {
        p
    } else {
        let before = keys_joined(p, q, n - 1);
        let (key, l) = q[n - 1];
        strmap::put(before, key, words_joined(words_or_none(before, key), l, l.len() as int))
    }
}

/// The words of all profiles joined with those of the first `n` profiles of others.
pub open spec fn profiles_joined(d: userdict::UserWords, e: userdict::UserWords, n: int) -> userdict::UserWords
    decreases n,
{
    if n <= 0 {
        d
    } else {
        let before = profiles_joined(d, e, n - 1);
        let (profile, q) = e[n - 1];
        strmap::put(
            before,
            profile,
            keys_joined(profile_or_none(before, profile), q, q.len() as int),
        )
    }
}

/// Another text than one.
pub open spec fn not_text(w: Seq<char>) -> spec_fn(Seq<char>) -> bool {
    |t: Seq<char>| t != w
}

/// The order of use when a word has been used: it comes first, and no more than so many are
/// kept.
pub open spec fn brought_forward(l: Seq<Seq<char>>, w: Seq<char>, length: int) -> Seq<Seq<char>> {
    let all = seq![w] + l.filter(not_text(w));
    all.take(trie::least(length, all.len() as int))
}

/// The order of use of a profile, or none.
pub open spec fn order_or_none(o: Seq<(Seq<char>, Seq<Seq<char>>)>, profile: Seq<char>) -> Seq<Seq<char>> {
    match strmap::lookup(o, profile) {
        Some(l) => l,
        None => Seq::empty(),
    }
}

/// Puts other words under a key of a profile.
pub(crate) fn put_words(d: &mut UserDictData, profile: &str, key: &str, words: WordList)
    ensures
        final(d)@ == with_words(old(d)@, profile@, key@, words@),
{
    let ghost was = d@;
    match d.position(profile) {
        Some(i) => {
            let p = d.value_mut(i);
            p.insert(key.to_owned(), words);
            proof {
                strmap::lemma_index(was, profile@);
                assert(d@ =~= with_words(was, profile@, key@, words@));
            }
        },
        None => {
            let mut p: ProfileDict = StrMap::new();
            p.insert(key.to_owned(), words);
            d.insert(profile.to_owned(), p);
        },
    }
}

/// A copy of the words under a key of a profile, or none.
pub(crate) fn words_of(d: &UserDictData, profile: &str, key: &str) -> (r: WordList)
    ensures
        r@ == words_or_none(profile_or_none(d@, profile@), key@),
{
    if let Some(p) = d.get(profile) {
        if let Some(l) = p.get(key) {
            return l.copy();
        }
    } else {
        proof {
            strmap::lemma_absent(Seq::<(Seq<char>, Words)>::empty(), key@);
        }
    }
    WordList::new()
}

/// Whether a word counts more than another.
fn is_more(a: &(String, u32), b: &(String, u32)) -> (r: bool)
    ensures
        r == (a.1 > b.1),
{
    a.1 > b.1
}

/// Notes the use of a word among words.
fn use_word(l: WordList, w: &str, by_count: bool) -> (r: WordList)
    ensures
        r@ == used(l@, w@, by_count),
{
    let ghost s = l@;
    let at = l.position(w);
    let mut v = l.words;
    let ghost g = |e: (String, u32)| (e.0@, e.1);
    if by_count {
        match at {
            Some(i) => {
                let (word, n) = (v[i].0.clone(), v[i].1);
                let more: u32 = if n < u32::MAX {
                    n + 1
                } else {
                    n
                };
                v.set(i, (word, more));
            },
            None => {
                v.push((w.to_owned(), 1));
            },
        }
        let ghost all = v@;
        let ghost lt = |a: (String, u32), b: (String, u32)| a.1 > b.1;
        proof {
            let i = strmap::index_of(s, w@);
            assert(all.map_values(g) =~= (if i >= 0 {
                s.update(i, (s[i].0, one_more(s[i].1)))
            } else {
                s.push((w@, 1))
            }));
        }
        sort_stable(&mut v, is_more, Ghost(lt));
        proof {
            order::lemma_arranged_map(all, g, lt, counts_more());
        }
        let r = WordList { words: v };
        proof {
            assert(r@ =~= v@.map_values(g));
        }
        r
    } else {
        match at {
            Some(i) => {
                let (_word, n) = v.remove(i);
                let more: u32 = if n < u32::MAX {
                    n + 1
                } else {
                    n
                };
                v.insert(0, (w.to_owned(), more));
            },
            None => {
                v.insert(0, (w.to_owned(), 1));
            },
        }
        let ghost all = v@.map_values(g);
        proof {
            let i = strmap::index_of(s, w@);
            assert(all =~= (if i >= 0 {
                seq![(w@, one_more(s[i].1))] + s.remove(i)
            } else {
                seq![(w@, 1u32)] + s
            }));
        }
        if v.len() > FOLLOWERS {
            v.truncate(FOLLOWERS);
        }
        let r = WordList { words: v };
        proof {
            assert(r@ =~= all.take(trie::least(FOLLOWERS as int, all.len() as int)));
        }
        r
    }
}

/// Notes the use of a word under a key of a profile, and hands out the words that are then
/// there.
pub fn update_mru(
    history: &mut UserDictData,
    profile: &str,
    key: &str,
    word: &str,
    sort_by_count: bool,
) -> (r: WordList)
    ensures
        r@ == used(
            words_or_none(profile_or_none(old(history)@, profile@), key@),
            word@,
            sort_by_count,
        ),
        final(history)@ == with_words(old(history)@, profile@, key@, r@),
{
    let l = words_of(history, profile, key);
    let r = use_word(l, word, sort_by_count);
    put_words(history, profile, key, r.copy());
    r
}

/// How many words a profile has.
fn count_words(p: &ProfileDict) -> (r: u128)
    ensures
        r == total(p@, p@.len() as int),
{
    let mut n: u128 = 0;
    let mut i: usize = 0;
    while i < p.entries.len()
        invariant
            i <= p.entries.len(),
            n == total(p@, i as int),
            n <= i * usize::MAX,
        decreases p.entries.len() - i,
    {
        proof {
            assert(p@[i as int].1 == p.entries@[i as int].1@);
            assert(i * usize::MAX + usize::MAX == (i + 1) * usize::MAX) by (nonlinear_arith);
            assert((i + 1) * usize::MAX <= usize::MAX * usize::MAX) by (nonlinear_arith)
                requires
                    i < usize::MAX,
            ;
            assert(usize::MAX * usize::MAX <= 0xffff_ffff_ffff_ffff * 0xffff_ffff_ffff_ffff)
                by (nonlinear_arith)
                requires
                    usize::MAX <= 0xffff_ffff_ffff_ffff,
            ;
        }
        n = n + p.entries[i].1.len() as u128;
        i = i + 1;
    }
    n
}

/// The word that counts least in a profile: where its key stands, and where it stands under
/// it.
fn find_rarest(p: &ProfileDict) -> (r: Option<(usize, usize)>)
    ensures
        r is Some <==> rarest_word(p@, p@.len() as int).key >= 0,
        r matches Some((i, j)) ==> {
            &&& rarest_word(p@, p@.len() as int).key == i
            &&& rarest_word(p@, p@.len() as int).at == j
            &&& i < p@.len()
            &&& j < p@[i as int].1.len()
        },
{
    let mut count: u32 = u32::MAX;
    let mut place: Option<(usize, usize)> = None;
    let mut i: usize = 0;
    let ghost pv = p@;
    while i < p.entries.len()
        invariant
            i <= p.entries.len(),
            pv == p@,
            count == rarest_word(pv, i as int).count,
            place is Some <==> rarest_word(pv, i as int).key >= 0,
            place matches Some((a, b)) ==> {
                &&& rarest_word(pv, i as int).key == a
                &&& rarest_word(pv, i as int).at == b
                &&& a < pv.len()
                &&& b < pv[a as int].1.len()
            },
        decreases p.entries.len() - i,
    {
        let l = &p.entries[i].1;
        let ghost r0 = rarest_word(pv, i as int);
        let mut j: usize = 0;
        proof {
            assert(pv[i as int].1 == l@);
        }
        while j < l.words.len()
            invariant
                j <= l.words.len(),
                i < p.entries.len(),
                pv == p@,
                pv[i as int].1 == l@,
                count == rarer_word(r0, i as int, l@, j as int).count,
                place is Some <==> rarer_word(r0, i as int, l@, j as int).key >= 0,
                place matches Some((a, b)) ==> {
                    &&& rarer_word(r0, i as int, l@, j as int).key == a
                    &&& rarer_word(r0, i as int, l@, j as int).at == b
                    &&& a < pv.len()
                    &&& b < pv[a as int].1.len()
                },
            decreases l.words.len() - j,
        {
            proof {
                assert(l@[j as int].1 == l.words@[j as int].1);
            }
            if l.words[j].1 < count {
                count = l.words[j].1;
                place = Some((i, j));
            }
            j = j + 1;
        }
        i = i + 1;
    }
    place
}

/// Takes the word that counts least out of a profile that has too many.
pub(crate) fn evict(p: &mut ProfileDict, capacity: usize)
    ensures
        final(p)@ == evicted(old(p)@, capacity as int),
{
    let ghost was = p@;
    if count_words(p) <= capacity as u128 {
        return ;
    }
    if let Some((i, j)) = find_rarest(p) {
        proof {
            assert(was[i as int].0 == p.entries@[i as int].0@);
        }
        if !crate::session::is_blank(p.entries[i].0.as_str()) {
            let ghost l = p.entries@[i as int].1@;
            proof {
                assert(was[i as int].1 == l);
            }
            let list = p.value_mut(i);
            list.words.remove(j);
            let empty = list.words.len() == 0;
            proof {
                assert(list@ =~= l.remove(j as int));
            }
            let ghost rest = list@;
            proof {
                assert(p@ =~= was.update(i as int, (was[i as int].0, rest)));
            }
            let ghost all = p@;
            let ghost mid = p.entries@;
            proof {
                assert(mid.len() == all.len());
            }
            if empty {
                p.entries.remove(i);
                proof {
                    assert forall|k: int| 0 <= k < p@.len() implies #[trigger] p@[k] == was.remove(
                        i as int,
                    )[k] by {
                        let m = if k < i {
                            k
                        } else {
                            k + 1
                        };
                        assert(p.entries@[k] == mid[m]);
                        assert(all[m] == (mid[m].0@, mid[m].1@));
                    }
                    assert(p@ =~= was.remove(i as int));
                }
            }
        }
    }
}

/// A word that is moved: its key, itself, and its count.
pub struct Moved {
    pub key: String,
    pub word: String,
    pub count: u32,
}

/// The words that are moved.
pub open spec fn moved_views(v: Seq<Moved>) -> Seq<(Seq<char>, Seq<char>, u32)> {
    v.map_values(|m: Moved| (m.key@, m.word@, m.count))
}

/// The words of a profile that are used often enough to be kept.
pub(crate) fn find_due(p: &ProfileDict, threshold: u32) -> (r: Vec<Moved>)
    ensures
        moved_views(r@) == due(p@, threshold, p@.len() as int),
{
    let mut out: Vec<Moved> = Vec::new();
    let ghost pv = p@;
    let mut i: usize = 0;
    proof {
        assert(moved_views(out@) =~= Seq::<(Seq<char>, Seq<char>, u32)>::empty());
    }
    while i < p.entries.len()
        invariant
            i <= p.entries.len(),
            pv == p@,
            moved_views(out@) == due(pv, threshold, i as int),
        decreases p.entries.len() - i,
    {
        let key = &p.entries[i].0;
        let l = &p.entries[i].1;
        let ghost before = moved_views(out@);
        let mut j: usize = 0;
        proof {
            assert(pv[i as int] == (key@, l@));
            assert(before + due_words(key@, l@, threshold, 0) =~= before);
        }
        while j < l.words.len()
            invariant
                j <= l.words.len(),
                moved_views(out@) == before + due_words(key@, l@, threshold, j as int),
            decreases l.words.len() - j,
        {
            let ghost now = moved_views(out@);
            let ghost some = due_words(key@, l@, threshold, j as int);
            proof {
                assert(l@[j as int] == (l.words@[j as int].0@, l.words@[j as int].1));
            }
            if l.words[j].1 >= threshold {
                let m = Moved { key: key.clone(), word: l.words[j].0.clone(), count: l.words[j].1 };
                out.push(m);
                proof {
                    assert(moved_views(out@) =~= now.push((m.key@, m.word@, m.count)));
                    assert(before + some.push((m.key@, m.word@, m.count)) =~= (before + some).push(
                        (m.key@, m.word@, m.count),
                    ));
                }
            }
            j = j + 1;
        }
        i = i + 1;
    }
    out
}

/// Takes a word out from under a key of a profile.
pub(crate) fn take_out(p: &mut ProfileDict, key: &str, w: &str)
    ensures
        final(p)@ == taken_out(old(p)@, key@, w@),
{
    let l = match p.get(key) {
        Some(l) => l.copy(),
        None => {
            return ;
        },
    };
    let ghost s = l@;
    let mut rest = WordList::new();
    let mut i: usize = 0;
    proof {
        reveal(Seq::filter);
        assert(rest@ =~= s.take(0).filter(not_word(w@)));
    }
    while i < l.words.len()
        invariant
            i <= l.words.len(),
            s == l@,
            rest@ == s.take(i as int).filter(not_word(w@)),
        decreases l.words.len() - i,
    {
        proof {
            reveal(Seq::filter);
            assert(s.take(i + 1).drop_last() =~= s.take(i as int));
            assert(s.take(i + 1).last() == (l.words@[i as int].0@, l.words@[i as int].1));
        }
        if !same_text(l.words[i].0.as_str(), w) {
            rest.push((l.words[i].0.clone(), l.words[i].1));
        }
        i = i + 1;
    }
    proof {
        assert(s.take(s.len() as int) =~= s);
    }
    if rest.len() == 0 {
        p.remove(key);
    } else {
        p.insert(key.to_owned(), rest);
    }
}

/// Gives a word a count.
fn set_count(l: &mut WordList, w: &str, count: u32)
    ensures
        final(l)@ == counted(old(l)@, w@, count),
{
    let ghost s = l@;
    match l.position(w) {
        Some(i) => {
            let word = l.words[i].0.clone();
            l.words.set(i, (word, count));
            proof {
                assert(l@ =~= s.update(i as int, (s[i as int].0, count)));
            }
        },
        None => {
            l.push((w.to_owned(), count));
        },
    }
}

/// Moves words from a profile to those that are kept for long.
pub(crate) fn promote(
    p: &mut ProfileDict,
    long: &mut UserDictData,
    profile: &str,
    moved: &Vec<Moved>,
)
    ensures
        (final(p)@, final(long)@) == promoted(
            old(p)@,
            old(long)@,
            profile@,
            moved_views(moved@),
            moved@.len() as int,
        ),
{
    let ghost p0 = p@;
    let ghost l0 = long@;
    let ghost ms = moved_views(moved@);
    let mut i: usize = 0;
    while i < moved.len()
        invariant
            i <= moved.len(),
            ms == moved_views(moved@),
            (p@, long@) == promoted(p0, l0, profile@, ms, i as int),
        decreases moved.len() - i,
    {
        let m = &moved[i];
        proof {
            assert(ms[i as int] == (m.key@, m.word@, m.count));
        }
        take_out(p, m.key.as_str(), m.word.as_str());
        let mut l = words_of(long, profile, m.key.as_str());
        set_count(&mut l, m.word.as_str(), m.count);
        put_words(long, profile, m.key.as_str(), l);
        i = i + 1;
    }
}

/// Adds words that are not there yet.
fn join_words(l: &mut WordList, m: &WordList)
    ensures
        final(l)@ == words_joined(old(l)@, m@, m@.len() as int),
{
    let ghost s = l@;
    let mut i: usize = 0;
    while i < m.words.len()
        invariant
            i <= m.words.len(),
            l@ == words_joined(s, m@, i as int),
        decreases m.words.len() - i,
    {
        proof {
            assert(m@[i as int] == (m.words@[i as int].0@, m.words@[i as int].1));
        }
        match l.position(m.words[i].0.as_str()) {
            Some(_) => {},
            None => {
                l.push((m.words[i].0.clone(), m.words[i].1));
            },
        }
        i = i + 1;
    }
}

/// Adds the words of another profile.
fn join_keys(p: &mut ProfileDict, q: &ProfileDict)
    ensures
        final(p)@ == keys_joined(old(p)@, q@, q@.len() as int),
{
    let ghost s = p@;
    let mut i: usize = 0;
    while i < q.entries.len()
        invariant
            i <= q.entries.len(),
            p@ == keys_joined(s, q@, i as int),
        decreases q.entries.len() - i,
    {
        let key = q.entries[i].0.as_str();
        proof {
            assert(q@[i as int] == (key@, q.entries@[i as int].1@));
        }
        let mut l = match p.get(key) {
            Some(l) => l.copy(),
            None => WordList::new(),
        };
        join_words(&mut l, &q.entries[i].1);
        p.insert(key.to_owned(), l);
        i = i + 1;
    }
}

/// The words of all profiles, joined with others.
pub fn join_profiles(d: &UserDictData, e: &UserDictData) -> (r: UserDictData)
    ensures
        r@ == profiles_joined(d@, e@, e@.len() as int),
{
    let mut out = userdict::copy_dict(d);
    let ghost s = d@;
    let mut i: usize = 0;
    while i < e.entries.len()
        invariant
            i <= e.entries.len(),
            out@ == profiles_joined(s, e@, i as int),
        decreases e.entries.len() - i,
    {
        let profile = e.entries[i].0.as_str();
        proof {
            assert(e@[i as int] == (profile@, e.entries@[i as int].1@));
        }
        let mut p = match out.get(profile) {
            Some(p) => userdict::copy_profile(p),
            None => StrMap::new(),
        };
        join_keys(&mut p, &e.entries[i].1);
        out.insert(profile.to_owned(), p);
        i = i + 1;
    }
    out
}

/// Notes the use of a word in the order of use of a profile.
pub fn bring_forward(o: &mut OrderData, profile: &str, word: &str, length: usize)
    ensures
        final(o)@ == strmap::put(
            old(o)@,
            profile@,
            brought_forward(order_or_none(old(o)@, profile@), word@, length as int),
        ),
{
    let ghost s = order_or_none(o@, profile@);
    let mut out: Vec<String> = Vec::new();
    out.push(word.to_owned());
    proof {
        reveal(Seq::filter);
        assert(text::texts(out@) =~= seq![word@] + s.take(0).filter(not_text(word@)));
    }
    if let Some(l) = o.get(profile) {
        let mut i: usize = 0;
        while i < l.words.len()
            invariant
                i <= l.words.len(),
                s == l@,
                text::texts(out@) == seq![word@] + s.take(i as int).filter(not_text(word@)),
            decreases l.words.len() - i,
        {
            let ghost was = text::texts(out@);
            let ghost some = s.take(i as int).filter(not_text(word@));
            proof {
                reveal(Seq::filter);
                assert(s.take(i + 1).drop_last() =~= s.take(i as int));
                assert(s.take(i + 1).last() == l.words@[i as int]@);
            }
            if !same_text(l.words[i].as_str(), word) {
                let w = l.words[i].clone();
                out.push(w);
                proof {
                    assert(text::texts(out@) =~= was.push(w@));
                    assert(seq![word@] + some.push(w@) =~= (seq![word@] + some).push(w@));
                }
            }
            i = i + 1;
        }
    }
    proof {
        assert(s.take(s.len() as int) =~= s);
    }
    let ghost all = text::texts(out@);
    if out.len() > length {
        out.truncate(length);
    }
    proof {
        assert(text::texts(out@) =~= all.take(trie::least(length as int, all.len() as int)));
    }
    o.insert(profile.to_owned(), OrderList { words: out });
}

/// Whether no text occurs twice.
pub open spec fn no_repeats(l: Seq<Seq<char>>) -> bool {
    forall|i: int, j: int| 0 <= i < j < l.len() ==> #[trigger] l[i] != #[trigger] l[j]
}

/// The order of use has the last word in front, each word once, and no more words than it may.
pub proof fn law_order_of_use(l: Seq<Seq<char>>, w: Seq<char>, length: int)
    requires
        no_repeats(l),
        length > 0,
    ensures
        brought_forward(l, w, length)[0] == w,
        no_repeats(brought_forward(l, w, length)),
        brought_forward(l, w, length).len() <= length,
{
    lemma_filter_distinct(l, w);
    let rest = l.filter(not_text(w));
    let all = seq![w] + rest;
    assert forall|i: int, j: int| 0 <= i < j < all.len() implies #[trigger] all[i] != #[trigger] all[j] by {
        assert(all[j] == rest[j - 1]);
        if i > 0 {
            assert(all[i] == rest[i - 1]);
        }
    }
}

proof fn lemma_filter_distinct(l: Seq<Seq<char>>, w: Seq<char>)
    requires
        no_repeats(l),
    ensures
        no_repeats(l.filter(not_text(w))),
        forall|i: int| 0 <= i < l.filter(not_text(w)).len() ==> #[trigger] l.filter(not_text(w))[i] != w,
        forall|i: int|
            0 <= i < l.filter(not_text(w)).len() ==> l.contains(#[trigger] l.filter(not_text(w))[i]),
    decreases l.len(),
{
    reveal(Seq::filter);
    if l.len() > 0 {
        let m = l.drop_last();
        assert forall|i: int, j: int| 0 <= i < j < m.len() implies #[trigger] m[i] != #[trigger] m[j] by {
            assert(m[i] == l[i] && m[j] == l[j]);
        }
        lemma_filter_distinct(m, w);
        let f = m.filter(not_text(w));
        let g = l.filter(not_text(w));
        assert forall|i: int| 0 <= i < f.len() implies l.contains(#[trigger] f[i]) && f[i] != l.last() by {
            assert(m.contains(f[i]));
            let k = choose|k: int| 0 <= k < m.len() && m[k] == f[i];
            assert(l[k] == f[i]);
            assert(l[k] != l[l.len() - 1]);
        }
        assert(l.contains(l[l.len() - 1]));
        assert forall|i: int| 0 <= i < g.len() implies l.contains(#[trigger] g[i]) && g[i] != w by {
            if i < f.len() {
                assert(g[i] == f[i]);
            }
        }
        assert forall|i: int, j: int| 0 <= i < j < g.len() implies #[trigger] g[i] != #[trigger] g[j] by {
            assert(g[i] == f[i]);
            if j < f.len() {
                assert(g[j] == f[j]);
            }
        }
    }
}

/// A word that has been used is among the words; by use it comes first, and no more than ten
/// are kept.
pub proof fn law_used_word_is_kept(l: Words, w: Seq<char>)
    ensures
        used(l, w, false)[0].0 == w,
        used(l, w, false).len() <= FOLLOWERS,
        exists|i: int| 0 <= i < used(l, w, true).len() && (#[trigger] used(l, w, true)[i]).0 == w,
{
    broadcast use vstd::seq_lib::group_to_multiset_ensures;

    strmap::lemma_index(l, w);
    let i = strmap::index_of(l, w);
    let m = if i >= 0 {
        l.update(i, (l[i].0, one_more(l[i].1)))
    } else {
        l.push((w, 1))
    };
    let k = if i >= 0 {
        i
    } else {
        l.len() as int
    };
    order::law_arranged_keeps_items(m, counts_more());
    assert(m[k].0 == w);
    assert(m.to_multiset().count(m[k]) > 0);
    let a = order::arranged(m, counts_more());
    assert(a.contains(m[k]));
    let j = choose|j: int| 0 <= j < a.len() && a[j] == m[k];
    assert(used(l, w, true)[j].0 == w);
}

/// The count of a word under a key of a profile.
pub open spec fn count_of(d: userdict::UserWords, profile: Seq<char>, key: Seq<char>, w: Seq<char>) -> Option<u32> {
    strmap::lookup(words_or_none(profile_or_none(d, profile), key), w)
}

proof fn lemma_words_joined(l: Words, m: Words, n: int, w: Seq<char>)
    requires
        0 <= n <= m.len(),
    ensures
        strmap::lookup(l, w) is Some ==> strmap::lookup(words_joined(l, m, n), w) == strmap::lookup(
            l,
            w,
        ),
        (exists|i: int| 0 <= i < n && (#[trigger] m[i]).0 == w) ==> strmap::lookup(
            words_joined(l, m, n),
            w,
        ) is Some,
    decreases n,
{
    if n > 0 {
        lemma_words_joined(l, m, n - 1, w);
        let before = words_joined(l, m, n - 1);
        let (x, c) = m[n - 1];
        if strmap::index_of(before, x) >= 0 {
            strmap::lemma_index(before, x);
        } else {
            strmap::law_put_lookup(before, x, c, w);
            assert(strmap::put(before, x, c) == before.push((x, c)));
        }
        if exists|i: int| 0 <= i < n && (#[trigger] m[i]).0 == w {
            let i = choose|i: int| 0 <= i < n && (#[trigger] m[i]).0 == w;
            if i < n - 1 {
                assert(m[i].0 == w);
            }
        }
    }
}

proof fn lemma_keys_joined(p: userdict::ProfileWords, q: userdict::ProfileWords, n: int, key: Seq<char>, w: Seq<char>)
    requires
        0 <= n <= q.len(),
    ensures
        strmap::lookup(words_or_none(p, key), w) is Some ==> strmap::lookup(
            words_or_none(keys_joined(p, q, n), key),
            w,
        ) == strmap::lookup(words_or_none(p, key), w),
    decreases n,
{
    if n > 0 {
        lemma_keys_joined(p, q, n - 1, key, w);
        let before = keys_joined(p, q, n - 1);
        let (k, l) = q[n - 1];
        let v = words_joined(words_or_none(before, k), l, l.len() as int);
        strmap::law_put_lookup(before, k, v, key);
        lemma_words_joined(words_or_none(before, k), l, l.len() as int, w);
    }
}

proof fn lemma_profiles_joined(
    d: userdict::UserWords,
    e: userdict::UserWords,
    n: int,
    profile: Seq<char>,
    key: Seq<char>,
    w: Seq<char>,
)
    requires
        0 <= n <= e.len(),
    ensures
        count_of(d, profile, key, w) is Some ==> count_of(
            profiles_joined(d, e, n),
            profile,
            key,
            w,
        ) == count_of(d, profile, key, w),
    decreases n,
{
    if n > 0 {
        lemma_profiles_joined(d, e, n - 1, profile, key, w);
        let before = profiles_joined(d, e, n - 1);
        let (p, q) = e[n - 1];
        let v = keys_joined(profile_or_none(before, p), q, q.len() as int);
        strmap::law_put_lookup(before, p, v, profile);
        lemma_keys_joined(profile_or_none(before, p), q, q.len() as int, key, w);
    }
}

/// A word that was learned has the same count once the words kept for long have been joined.
pub proof fn law_learned_words_are_joined(
    d: userdict::UserWords,
    e: userdict::UserWords,
    profile: Seq<char>,
    key: Seq<char>,
    w: Seq<char>,
)
    requires
        count_of(d, profile, key, w) is Some,
    ensures
        count_of(profiles_joined(d, e, e.len() as int), profile, key, w) == count_of(
            d,
            profile,
            key,
            w,
        ),
{
    lemma_profiles_joined(d, e, e.len() as int, profile, key, w);
}

/// How often a word was used, by the last of its entries among the first `n` that says often
/// enough.
pub open spec fn often_used(l: Words, w: Seq<char>, threshold: u32, n: int) -> Option<u32>
    decreases n,
{
    if n <= 0 {
        None
    } else if l[n - 1].0 == w && l[n - 1].1 >= threshold {
        Some(l[n - 1].1)
    } else {
        often_used(l, w, threshold, n - 1)
    }
}

/// The count that comes last among the first `n` moved words for a word under a key.
spec fn last_moved(moved: Seq<(Seq<char>, Seq<char>, u32)>, key: Seq<char>, w: Seq<char>, n: int) -> Option<u32>
    decreases n,
{
    if n <= 0 {
        None
    } else if moved[n - 1].0 == key && moved[n - 1].1 == w {
        Some(moved[n - 1].2)
    } else {
        last_moved(moved, key, w, n - 1)
    }
}

proof fn lemma_last_moved_joined(
    a: Seq<(Seq<char>, Seq<char>, u32)>,
    b: Seq<(Seq<char>, Seq<char>, u32)>,
    key: Seq<char>,
    w: Seq<char>,
    n: int,
)
    requires
        0 <= n <= a.len() + b.len(),
    ensures
        last_moved(a + b, key, w, n) == (if n <= a.len() {
            last_moved(a, key, w, n)
        } else {
            match last_moved(b, key, w, n - a.len()) {
                Some(c) => Some(c),
                None => last_moved(a, key, w, a.len() as int),
            }
        }),
    decreases n,
{
    if n > 0 {
        lemma_last_moved_joined(a, b, key, w, n - 1);
        if n <= a.len() {
            assert((a + b)[n - 1] == a[n - 1]);
        } else {
            assert((a + b)[n - 1] == b[n - 1 - a.len()]);
        }
    }
}

proof fn lemma_due_words(k: Seq<char>, l: Words, threshold: u32, n: int, key: Seq<char>, w: Seq<char>)
    requires
        0 <= n <= l.len(),
    ensures
        ({
            let d = due_words(k, l, threshold, n);
            last_moved(d, key, w, d.len() as int) == (if k == key {
                often_used(l, w, threshold, n)
            } else {
                None
            })
        }),
    decreases n,
{
    if n > 0 {
        lemma_due_words(k, l, threshold, n - 1, key, w);
        let b = due_words(k, l, threshold, n - 1);
        if l[n - 1].1 >= threshold {
            let x = (k, l[n - 1].0, l[n - 1].1);
            assert(b.push(x) =~= b + seq![x]);
            lemma_last_moved_joined(b, seq![x], key, w, b.len() as int);
            assert(b.push(x).last() == x);
        }
    }
}

proof fn lemma_due(p: userdict::ProfileWords, threshold: u32, n: int, key: Seq<char>, w: Seq<char>)
    requires
        0 <= n <= p.len(),
        strmap::keys_distinct(p),
    ensures
        ({
            let d = due(p, threshold, n);
            let i = strmap::index_of(p, key);
            last_moved(d, key, w, d.len() as int) == (if 0 <= i < n {
                often_used(p[i].1, w, threshold, p[i].1.len() as int)
            } else {
                None
            })
        }),
    decreases n,
{
    strmap::lemma_index(p, key);
    if n > 0 {
        lemma_due(p, threshold, n - 1, key, w);
        let (k, l) = p[n - 1];
        let a = due(p, threshold, n - 1);
        let b = due_words(k, l, threshold, l.len() as int);
        lemma_due_words(k, l, threshold, l.len() as int, key, w);
        lemma_last_moved_joined(a, b, key, w, (a + b).len() as int);
        if b.len() == 0 {
            assert(a + b =~= a);
        }
        let i = strmap::index_of(p, key);
        if k == key {
            assert(p[i].0 == p[n - 1].0);
        }
    }
}

proof fn lemma_taken_out(p: userdict::ProfileWords, key: Seq<char>, w: Seq<char>, other: Seq<char>)
    requires
        strmap::keys_distinct(p),
    ensures
        strmap::keys_distinct(taken_out(p, key, w)),
        words_or_none(taken_out(p, key, w), other) == (if other == key {
            words_or_none(p, other).filter(not_word(w))
        } else {
            words_or_none(p, other)
        }),
{
    match strmap::lookup(p, key) {
        Some(l) => {
            let rest = l.filter(not_word(w));
            if rest.len() == 0 {
                strmap::law_discard_lookup(p, key, other);
                assert(rest =~= Seq::empty());
            } else {
                strmap::law_put_lookup(p, key, rest, other);
                strmap::law_put_keeps_keys_distinct(p, key, rest);
            }
        },
        None => {
            assert(Seq::<(Seq<char>, u32)>::empty().filter(not_word(w)) =~= Seq::empty());
        },
    }
}

proof fn lemma_counted(l: Words, w: Seq<char>, count: u32, other: Seq<char>)
    ensures
        strmap::lookup(counted(l, w, count), other) == (if other == w {
            Some(count)
        } else {
            strmap::lookup(l, other)
        }),
{
    strmap::lemma_index(l, w);
    assert(counted(l, w, count) =~= strmap::put(l, w, count));
    strmap::law_put_lookup(l, w, count, other);
}

proof fn lemma_promoted(
    p: userdict::ProfileWords,
    long: userdict::UserWords,
    profile: Seq<char>,
    moved: Seq<(Seq<char>, Seq<char>, u32)>,
    n: int,
    key: Seq<char>,
    e: (Seq<char>, u32),
)
    requires
        0 <= n <= moved.len(),
        strmap::keys_distinct(p),
    ensures
        ({
            let (q, lg) = promoted(p, long, profile, moved, n);
            let last = last_moved(moved, key, e.0, n);
            &&& strmap::keys_distinct(q)
            &&& words_or_none(q, key).contains(e) <==> words_or_none(p, key).contains(e)
                && last is None
            &&& strmap::lookup(words_or_none(profile_or_none(lg, profile), key), e.0) == (
            match last {
                Some(c) => Some(c),
                None => strmap::lookup(
                    words_or_none(profile_or_none(long, profile), key),
                    e.0,
                ),
            })
        }),
    decreases n,
{
    if n > 0 {
        lemma_promoted(p, long, profile, moved, n - 1, key, e);
        let (q, lg) = promoted(p, long, profile, moved, n - 1);
        let (k, w, count) = moved[n - 1];
        lemma_taken_out(q, k, w, key);
        let under = words_or_none(profile_or_none(lg, profile), k);
        let now = counted(under, w, count);
        lemma_counted(under, w, count, e.0);
        let pw = strmap::put(profile_or_none(lg, profile), k, now);
        strmap::law_put_lookup(lg, profile, pw, profile);
        strmap::law_put_lookup(profile_or_none(lg, profile), k, now, key);
        if k == key {
            let l = words_or_none(q, key);
            lemma_filter_not_word(l, w, e);
        }
    }
}

proof fn lemma_filter_not_word(l: Words, w: Seq<char>, e: (Seq<char>, u32))
    ensures
        l.filter(not_word(w)).contains(e) <==> l.contains(e) && e.0 != w,
{
    let f = l.filter(not_word(w));
    if f.contains(e) {
        let i = choose|i: int| 0 <= i < f.len() && f[i] == e;
        l.lemma_filter_pred(not_word(w), i);
        l.lemma_filter_contains_rev(not_word(w), e);
    }
    if l.contains(e) && e.0 != w {
        let i = choose|i: int| 0 <= i < l.len() && l[i] == e;
        l.lemma_filter_contains(not_word(w), i);
    }
}

proof fn lemma_not_often(l: Words, w: Seq<char>, threshold: u32, n: int, i: int)
    requires
        0 <= i < n <= l.len(),
        l[i].0 == w,
        often_used(l, w, threshold, n) is None,
    ensures
        l[i].1 < threshold,
    decreases n,
{
    if i < n - 1 {
        lemma_not_often(l, w, threshold, n - 1, i);
    }
}

/// When the words of a profile that are used often enough have been moved, none of them is left,
/// the others are as before, and each stands among the words kept for long with its count.
pub proof fn law_often_used_words_are_moved(
    p: userdict::ProfileWords,
    long: userdict::UserWords,
    profile: Seq<char>,
    threshold: u32,
    key: Seq<char>,
    e: (Seq<char>, u32),
)
    requires
        strmap::keys_distinct(p),
    ensures
        ({
            let moved = due(p, threshold, p.len() as int);
            let (q, lg) = promoted(p, long, profile, moved, moved.len() as int);
            let was = words_or_none(p, key);
            let often = often_used(was, e.0, threshold, was.len() as int);
            &&& words_or_none(q, key).contains(e) ==> e.1 < threshold
            &&& words_or_none(q, key).contains(e) <==> was.contains(e) && often is None
            &&& strmap::lookup(words_or_none(profile_or_none(lg, profile), key), e.0) == (
            match often {
                Some(c) => Some(c),
                None => strmap::lookup(
                    words_or_none(profile_or_none(long, profile), key),
                    e.0,
                ),
            })
        }),
{
    let moved = due(p, threshold, p.len() as int);
    let was = words_or_none(p, key);
    strmap::lemma_index(p, key);
    lemma_due(p, threshold, p.len() as int, key, e.0);
    lemma_promoted(p, long, profile, moved, moved.len() as int, key, e);
    if was.contains(e) && often_used(was, e.0, threshold, was.len() as int) is None {
        let i = choose|i: int| 0 <= i < was.len() && was[i] == e;
        lemma_not_often(was, e.0, threshold, was.len() as int, i);
    }
}

proof fn lemma_rarer_word(r: Rarest, key: int, l: Words, n: int)
    requires
        0 <= n,
    ensures
        rarer_word(r, key, l, n).key == r.key || rarer_word(r, key, l, n).key == key,
    decreases n,
{
    if n > 0 {
        lemma_rarer_word(r, key, l, n - 1);
    }
}

proof fn lemma_rarest(p: userdict::ProfileWords, n: int)
    requires
        0 <= n,
    ensures
        -1 <= rarest_word(p, n).key < n,
    decreases n,
{
    if n > 0 {
        lemma_rarest(p, n - 1);
        lemma_rarer_word(rarest_word(p, n - 1), n - 1, p[n - 1].1, p[n - 1].1.len() as int);
    }
}

pub proof fn lemma_evicted_distinct(p: userdict::ProfileWords, capacity: int)
    requires
        strmap::keys_distinct(p),
    ensures
        strmap::keys_distinct(evicted(p, capacity)),
{
    let r = rarest_word(p, p.len() as int);
    lemma_rarest(p, p.len() as int);
    if total(p, p.len() as int) > capacity && r.key >= 0 && p[r.key].0.len() > 0 {
        let q = p.remove(r.key);
        assert forall|i: int, j: int|
            0 <= i < q.len() && 0 <= j < q.len() && i != j implies (#[trigger] q[i]).0 != (
        #[trigger] q[j]).0 by {
            let x = if i < r.key { i } else { i + 1 };
            let y = if j < r.key { j } else { j + 1 };
            assert(q[i] == p[x] && q[j] == p[y]);
        }
    }
}

} // verus!
