//! Hashed tables keyed by texts.

use vstd::prelude::*;
use vstd::hash_map::StringHashMap;
use vstd::hash_set::StringHashSet;

verus! {

/// A set of texts.
pub struct WordSet {
    set: StringHashSet,
}

impl View for WordSet {
    type V = Set<Seq<char>>;

    closed spec fn view(&self) -> Set<Seq<char>> {
        self.set@
    }
}

impl WordSet {
    /// The empty set.
    pub fn new() -> (r: Self)
        ensures
            r@ == Set::<Seq<char>>::empty(),
    {
        WordSet { set: StringHashSet::new() }
    }

    /// The set of the given texts.
    pub fn from_words(words: Vec<String>) -> (r: Self)
        ensures
            forall|w: Seq<char>|
                r@.contains(w) <==> exists|i: int| 0 <= i < words@.len() && (#[trigger] words@[i])@ == w,
    {
        let mut s = WordSet::new();
        let mut i: usize = 0;
        while i < words.len()
            invariant
                i <= words.len(),
                forall|w: Seq<char>|
                    s@.contains(w) <==> exists|j: int| 0 <= j < i && (#[trigger] words@[j])@ == w,
            decreases words.len() - i,
        {
            let ghost before = s@;
            s.insert(words[i].clone());
            proof {
                assert forall|w: Seq<char>| s@.contains(w) <==> exists|j: int|
                    0 <= j < i + 1 && (#[trigger] words@[j])@ == w by {
                    if w == words@[i as int]@ {
                        assert(words@[i as int]@ == w);
                    }
                }
            }
            i = i + 1;
        }
        s
    }

    /// Puts a text into the set, and says whether it is new there.
    pub fn insert(&mut self, w: String) -> (r: bool)
        ensures
            final(self)@ == old(self)@.insert(w@),
            r == !old(self)@.contains(w@),
    {
        self.set.insert(w)
    }

    /// Whether a text is in the set.
    pub fn contains(&self, w: &str) -> (r: bool)
        ensures
            r == self@.contains(w@),
    {
        self.set.contains(w)
    }

    /// Whether the set is empty.
    pub fn is_empty(&self) -> (r: bool)
        ensures
            r == (self@ =~= Set::<Seq<char>>::empty()),
    {
        let r = self.set.is_empty();
        r
    }
}

/// A table from texts to frequencies.
pub struct FreqTable {
    map: StringHashMap<u64>,
}

impl View for FreqTable {
    type V = Map<Seq<char>, u64>;

    closed spec fn view(&self) -> Map<Seq<char>, u64> {
        self.map@
    }
}

impl FreqTable {
    /// The empty table.
    pub fn new() -> (r: Self)
        ensures
            r@ == Map::<Seq<char>, u64>::empty(),
    {
        FreqTable { map: StringHashMap::new() }
    }

    /// Enters the frequency of a text.
    pub fn insert(&mut self, w: String, f: u64)
        ensures
            final(self)@ == old(self)@.insert(w@, f),
    {
        self.map.insert(w, f);
    }

    /// Whether a text is in the table.
    pub fn contains_key(&self, w: &str) -> (r: bool)
        ensures
            r == self@.contains_key(w@),
    {
        self.map.contains_key(w)
    }

    /// The frequency of a text.
    pub fn get(&self, w: &str) -> (r: Option<u64>)
        ensures
            r == (if self@.contains_key(w@) {
                Some(self@[w@])
            } else {
                None
            }),
    {
        match self.map.get(w) {
            Some(f) => Some(*f),
            None => None,
        }
    }
}

/// A table from texts to texts.
pub struct WordMap {
    map: StringHashMap<String>,
}

impl View for WordMap {
    type V = Map<Seq<char>, Seq<char>>;

    closed spec fn view(&self) -> Map<Seq<char>, Seq<char>> {
        self.map@.map_values(|s: String| s@)
    }
}

impl WordMap {
    /// The empty table.
    pub fn new() -> (r: Self)
        ensures
            r@ == Map::<Seq<char>, Seq<char>>::empty(),
    {
        let r = WordMap { map: StringHashMap::new() };
        proof {
            assert(r@ =~= Map::<Seq<char>, Seq<char>>::empty());
        }
        r
    }

    /// Enters a text under a key.
    pub fn insert(&mut self, w: String, t: String)
        ensures
            final(self)@ == old(self)@.insert(w@, t@),
    {
        self.map.insert(w, t);
        proof {
            assert(self@ =~= old(self)@.insert(w@, t@));
        }
    }

    /// Whether a key is in the table.
    pub fn contains_key(&self, w: &str) -> (r: bool)
        ensures
            r == self@.contains_key(w@),
    {
        self.map.contains_key(w)
    }

    /// The text under a key.
    pub fn get(&self, w: &str) -> (r: Option<&str>)
        ensures
            r is Some <==> self@.contains_key(w@),
            r matches Some(t) ==> t@ == self@[w@],
    {
        match self.map.get(w) {
            Some(t) => Some(t.as_str()),
            None => None,
        }
    }
}

} // verus!
