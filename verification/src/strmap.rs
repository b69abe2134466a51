//! A small map from texts to values that remembers the order of insertion.

use vstd::prelude::*;
use crate::text::same_text;

verus! {

/// Whether the first entry under a key stands at the given place.
pub open spec fn is_first<T>(s: Seq<(Seq<char>, T)>, k: Seq<char>, i: int) -> bool {
    &&& 0 <= i < s.len()
    &&& s[i].0 == k
    &&& forall|j: int| 0 <= j < i ==> (#[trigger] s[j]).0 != k
}

/// The place of the first entry under a key, or -1.
pub open spec fn index_of<T>(s: Seq<(Seq<char>, T)>, k: Seq<char>) -> int {
    if exists|i: int| is_first(s, k, i) {
        choose|i: int| is_first(s, k, i)
    } else {
        -1
    }
}

/// The value under a key.
pub open spec fn lookup<T>(s: Seq<(Seq<char>, T)>, k: Seq<char>) -> Option<T> {
    if index_of(s, k) >= 0 {
        Some(s[index_of(s, k)].1)
    } else {
        None
    }
}

/// The entries after a value was put under a key.
pub open spec fn put<T>(s: Seq<(Seq<char>, T)>, k: Seq<char>, v: T) -> Seq<(Seq<char>, T)> {
    if index_of(s, k) >= 0 {
        s.update(index_of(s, k), (k, v))
    } else {
        s.push((k, v))
    }
}

/// The entries after the entry under a key was taken out.
pub open spec fn discard<T>(s: Seq<(Seq<char>, T)>, k: Seq<char>) -> Seq<(Seq<char>, T)> {
    if index_of(s, k) >= 0 {
        s.remove(index_of(s, k))
    } else {
        s
    }
}

/// Whether no key occurs twice.
pub open spec fn keys_distinct<T>(s: Seq<(Seq<char>, T)>) -> bool {
    forall|i: int, j: int|
        0 <= i < s.len() && 0 <= j < s.len() && i != j ==> (#[trigger] s[i]).0 != (#[trigger] s[j]).0
}

pub proof fn lemma_first_is_index<T>(s: Seq<(Seq<char>, T)>, k: Seq<char>, i: int)
    requires
        is_first(s, k, i),
    ensures
        index_of(s, k) == i,
{
    let j = index_of(s, k);
    assert(is_first(s, k, j));
    if i < j {
        assert(s[i].0 == k);
    }
    if j < i {
        assert(s[j].0 == k);
    }
}

pub proof fn lemma_absent<T>(s: Seq<(Seq<char>, T)>, k: Seq<char>)
    requires
        forall|j: int| 0 <= j < s.len() ==> (#[trigger] s[j]).0 != k,
    ensures
        index_of(s, k) == -1,
{
}

/// The place that `index_of` gives holds the key, and nothing is given only where the
/// key does not occur.
pub proof fn lemma_index<T>(s: Seq<(Seq<char>, T)>, k: Seq<char>)
    ensures
        index_of(s, k) >= 0 ==> is_first(s, k, index_of(s, k)),
        index_of(s, k) < 0 ==> index_of(s, k) == -1 && forall|j: int|
            0 <= j < s.len() ==> (#[trigger] s[j]).0 != k,
{
    if forall|j: int| 0 <= j < s.len() ==> (#[trigger] s[j]).0 != k {
    } else {
        let j = choose|j: int| 0 <= j < s.len() && (#[trigger] s[j]).0 == k;
        lemma_first_exists(s, k, j);
    }
}

proof fn lemma_first_exists<T>(s: Seq<(Seq<char>, T)>, k: Seq<char>, j: int)
    requires
        0 <= j < s.len(),
        s[j].0 == k,
    ensures
        exists|i: int| is_first(s, k, i),
    decreases j,
{
    if exists|i: int| 0 <= i < j && (#[trigger] s[i]).0 == k {
        let i = choose|i: int| 0 <= i < j && (#[trigger] s[i]).0 == k;
        lemma_first_exists(s, k, i);
    } else {
        assert(is_first(s, k, j));
    }
}

/// What was put under a key is found there, and every other key is as before.
pub proof fn law_put_lookup<T>(s: Seq<(Seq<char>, T)>, k: Seq<char>, v: T, other: Seq<char>)
    ensures
        lookup(put(s, k, v), k) == Some(v),
        other != k ==> lookup(put(s, k, v), other) == lookup(s, other),
{
    lemma_index(s, k);
    lemma_index(s, other);
    let t = put(s, k, v);
    let i = index_of(s, k);
    if i >= 0 {
        assert(is_first(t, k, i));
        lemma_first_is_index(t, k, i);
    } else {
        assert(is_first(t, k, s.len() as int));
        lemma_first_is_index(t, k, s.len() as int);
    }
    if other != k {
        let o = index_of(s, other);
        if o >= 0 {
            assert(is_first(t, other, o));
            lemma_first_is_index(t, other, o);
        } else {
            lemma_absent(t, other);
        }
    }
}

/// A put keeps the keys distinct.
pub proof fn law_put_keeps_keys_distinct<T>(s: Seq<(Seq<char>, T)>, k: Seq<char>, v: T)
    requires
        keys_distinct(s),
    ensures
        keys_distinct(put(s, k, v)),
{
    lemma_index(s, k);
}

/// After its entry was taken out of a map with distinct keys, a key is absent, and every
/// other key is as before.
pub proof fn law_discard_lookup<T>(s: Seq<(Seq<char>, T)>, k: Seq<char>, other: Seq<char>)
    requires
        keys_distinct(s),
    ensures
        keys_distinct(discard(s, k)),
        lookup(discard(s, k), k) is None,
        other != k ==> lookup(discard(s, k), other) == lookup(s, other),
{
    lemma_index(s, k);
    lemma_index(s, other);
    let t = discard(s, k);
    let i = index_of(s, k);
    if i >= 0 {
        assert forall|j: int| 0 <= j < t.len() implies (#[trigger] t[j]).0 != k by {
            assert(t[j] == if j < i { s[j] } else { s[j + 1] });
        }
    }
    lemma_absent(t, k);
    if other != k && i >= 0 {
        let o = index_of(s, other);
        if o >= 0 {
            let p = if o < i { o } else { o - 1 };
            assert forall|j: int| 0 <= j < p implies (#[trigger] t[j]).0 != other by {
                assert(t[j] == if j < i { s[j] } else { s[j + 1] });
            }
            assert(is_first(t, other, p));
            lemma_first_is_index(t, other, p);
        } else {
            assert forall|j: int| 0 <= j < t.len() implies (#[trigger] t[j]).0 != other by {
                assert(t[j] == if j < i { s[j] } else { s[j + 1] });
            }
            lemma_absent(t, other);
        }
    }
}

/// A map from texts to values.
pub struct StrMap<V> {
    pub entries: Vec<(String, V)>,
}

impl<V: View> View for StrMap<V> {
    type V = Seq<(Seq<char>, V::V)>;

    open spec fn view(&self) -> Seq<(Seq<char>, V::V)> {
        self.entries@.map_values(|e: (String, V)| (e.0@, e.1@))
    }
}

impl<V: View> StrMap<V> {
    /// An empty map.
    pub fn new() -> (r: Self)
        ensures
            r@ == Seq::<(Seq<char>, V::V)>::empty(),
    {
        let r = StrMap { entries: Vec::new() };
        proof {
            assert(r@ =~= Seq::<(Seq<char>, V::V)>::empty());
        }
        r
    }

    /// The number of entries.
    pub fn len(&self) -> (r: usize)
        ensures
            r == self@.len(),
    {
        self.entries.len()
    }

    /// Whether there is no entry.
    pub fn is_empty(&self) -> (r: bool)
        ensures
            r == (self@.len() == 0),
    {
        self.entries.len() == 0
    }

    /// The place of the entry under a key.
    pub fn position(&self, k: &str) -> (r: Option<usize>)
        ensures
            r matches Some(i) ==> i < self@.len() && index_of(self@, k@) == i && self@[i as int].0 == k@,
            r is None ==> index_of(self@, k@) == -1,
    {
        let mut i: usize = 0;
        while i < self.entries.len()
            invariant
                i <= self.entries.len(),
                forall|j: int| 0 <= j < i ==> (#[trigger] self@[j]).0 != k@,
            decreases self.entries.len() - i,
        {
            proof {
                assert(self@[i as int].0 == self.entries@[i as int].0@);
            }
            if same_text(self.entries[i].0.as_str(), k) {
                proof {
                    assert(is_first(self@, k@, i as int));
                    lemma_first_is_index(self@, k@, i as int);
                }
                return Some(i);
            }
            i = i + 1;
        }
        proof {
            lemma_absent(self@, k@);
        }
        None
    }

    /// The value under a key.
    pub fn get(&self, k: &str) -> (r: Option<&V>)
        ensures
            r is Some <==> lookup(self@, k@) is Some,
            r matches Some(v) ==> lookup(self@, k@) == Some(v@),
            r matches Some(v) ==> index_of(self@, k@) < self.entries@.len()
                && *v == self.entries@[index_of(self@, k@)].1,
    {
        match self.position(k) {
            Some(i) => Some(&self.entries[i].1),
            None => None,
        }
    }

    /// Whether there is an entry under a key.
    pub fn contains_key(&self, k: &str) -> (r: bool)
        ensures
            r == (lookup(self@, k@) is Some),
    {
        self.position(k).is_some()
    }

    /// Puts a value under a key.
    pub fn insert(&mut self, k: String, v: V)
        ensures
            final(self)@ == put(old(self)@, k@, v@),
    {
        match self.position(k.as_str()) {
            Some(i) => {
                self.entries.set(i, (k, v));
            },
            None => {
                self.entries.push((k, v));
            },
        }
        proof {
            assert(self@ =~= put(old(self)@, k@, v@));
        }
    }

    /// Takes out the entry under a key.
    pub fn remove(&mut self, k: &str)
        ensures
            final(self)@ == discard(old(self)@, k@),
    {
        match self.position(k) {
            Some(i) => {
                self.entries.remove(i);
            },
            None => {},
        }
        proof {
            assert(self@ =~= discard(old(self)@, k@));
        }
    }

    /// The value at a place, to be changed.
    pub fn value_mut(&mut self, i: usize) -> (r: &mut V)
        requires
            i < old(self)@.len(),
        ensures
            *r == old(self).entries@[i as int].1,
            r@ == old(self)@[i as int].1,
            final(self)@ == old(self)@.update(i as int, (old(self)@[i as int].0, final(r)@)),
    {
        let e = &mut self.entries[i];
        &mut e.1
    }

    /// The value under a key, to be changed; where there is none, the given value is put
    /// there first.
    pub fn entry_or(&mut self, k: &str, v: V) -> (r: &mut V)
        ensures
            r@ == (match lookup(old(self)@, k@) {
                Some(x) => x,
                None => v@,
            }),
            final(self)@ == put(old(self)@, k@, final(r)@),
    {
        match self.position(k) {
            Some(i) => {
                self.value_mut(i)
            },
            None => {
                self.entries.push((k.to_owned(), v));
                let n: usize = self.entries.len() - 1;
                proof {
                    assert(self@ =~= old(self)@.push((k@, v@)));
                }
                let r = self.value_mut(n);
                proof {
                    assert(old(self)@.push((k@, v@)).update(n as int, (k@, final(r)@)) =~= old(self)@.push(
                        (k@, final(r)@),
                    ));
                }
                r
            },
        }
    }
}

} // verus!
