//! What the user has typed: words under keys, with counts, for each profile.

use vstd::prelude::*;
use crate::strmap;
use crate::strmap::StrMap;
use crate::text::same_text;

verus! {

/// Words with counts.
pub struct WordList {
    pub words: Vec<(String, u32)>,
}

impl View for WordList {
    type V = Seq<(Seq<char>, u32)>;

    open spec fn view(&self) -> Seq<(Seq<char>, u32)> {
        self.words@.map_values(|w: (String, u32)| (w.0@, w.1))
    }
}

/// Words in the order of their last use.
pub struct OrderList {
    pub words: Vec<String>,
}

impl View for OrderList {
    type V = Seq<Seq<char>>;

    open spec fn view(&self) -> Seq<Seq<char>> {
        crate::text::texts(self.words@)
    }
}

/// Words under keys.
pub type ProfileDict = StrMap<WordList>;

/// Words under keys, for each profile.
pub type UserDictData = StrMap<ProfileDict>;

/// The order of use, for each profile.
pub type OrderData = StrMap<OrderList>;

/// The words under the keys of one profile.
pub type ProfileWords = Seq<(Seq<char>, Seq<(Seq<char>, u32)>)>;

/// The words under the keys of all profiles.
pub type UserWords = Seq<(Seq<char>, Seq<(Seq<char>, Seq<(Seq<char>, u32)>)>)>;

/// The words under a key of a profile.
pub open spec fn words_under(d: UserWords, profile: Seq<char>, key: Seq<char>) -> Option<
    Seq<(Seq<char>, u32)>,
> {
    match strmap::lookup(d, profile) {
        Some(p) => strmap::lookup(p, key),
        None => None,
    }
}

impl WordList {
    /// No words.
    pub fn new() -> (r: Self)
        ensures
            r@ == Seq::<(Seq<char>, u32)>::empty(),
    {
        let r = WordList { words: Vec::new() };
        proof {
            assert(r@ =~= Seq::<(Seq<char>, u32)>::empty());
        }
        r
    }

    /// The number of words.
    pub fn len(&self) -> (r: usize)
        ensures
            r == self@.len(),
    {
        self.words.len()
    }

    /// Appends a word.
    pub fn push(&mut self, w: (String, u32))
        ensures
            final(self)@ == old(self)@.push((w.0@, w.1)),
    {
        self.words.push(w);
        proof {
            assert(self@ =~= old(self)@.push((w.0@, w.1)));
        }
    }

    /// The place of a word.
    pub fn position(&self, word: &str) -> (r: Option<usize>)
        ensures
            r matches Some(i) ==> i < self@.len() && strmap::index_of(self@, word@) == i && self@[i as int].0
                == word@,
            r is None ==> strmap::index_of(self@, word@) == -1,
    {
        let mut i: usize = 0;
        while i < self.words.len()
            invariant
                i <= self.words.len(),
                forall|j: int| 0 <= j < i ==> (#[trigger] self@[j]).0 != word@,
            decreases self.words.len() - i,
        {
            proof {
                assert(self@[i as int].0 == self.words@[i as int].0@);
            }
            if same_text(self.words[i].0.as_str(), word) {
                proof {
                    strmap::lemma_first_is_index(self@, word@, i as int);
                }
                return Some(i);
            }
            i = i + 1;
        }
        proof {
            strmap::lemma_absent(self@, word@);
        }
        None
    }

    /// The count of a word.
    pub fn count_of(&self, word: &str) -> (r: Option<u32>)
        ensures
            r == strmap::lookup(self@, word@),
    {
        match self.position(word) {
            Some(i) => Some(self.words[i].1),
            None => None,
        }
    }

    /// A copy of the list.
    pub fn copy(&self) -> (r: WordList)
        ensures
            r@ == self@,
    {
        let mut out = WordList::new();
        let mut i: usize = 0;
        proof {
            assert(self@.take(0) =~= Seq::<(Seq<char>, u32)>::empty());
        }
        while i < self.words.len()
            invariant
                i <= self.words.len(),
                out@ == self@.take(i as int),
            decreases self.words.len() - i,
        {
            out.push((self.words[i].0.clone(), self.words[i].1));
            proof {
                assert(self@.take(i + 1) =~= self@.take(i as int).push(self@[i as int]));
            }
            i = i + 1;
        }
        proof {
            assert(self@.take(self@.len() as int) =~= self@);
        }
        out
    }
}

/// A copy of the words of a profile.
pub fn copy_profile(d: &ProfileDict) -> (r: ProfileDict)
    ensures
        r@ == d@,
{
    let mut out: ProfileDict = StrMap::new();
    let mut i: usize = 0;
    proof {
        assert(d@.take(0) =~= Seq::<(Seq<char>, Seq<(Seq<char>, u32)>)>::empty());
    }
    while i < d.entries.len()
        invariant
            i <= d.entries.len(),
            out@ == d@.take(i as int),
        decreases d.entries.len() - i,
    {
        let ghost was = out@;
        let c = d.entries[i].1.copy();
        out.entries.push((d.entries[i].0.clone(), c));
        proof {
            assert(out@ =~= was.push(d@[i as int]));
            assert(d@.take(i + 1) =~= d@.take(i as int).push(d@[i as int]));
        }
        i = i + 1;
    }
    proof {
        assert(d@.take(d@.len() as int) =~= d@);
    }
    out
}

/// A copy of the words of all profiles.
pub fn copy_dict(d: &UserDictData) -> (r: UserDictData)
    ensures
        r@ == d@,
{
    let mut out: UserDictData = StrMap::new();
    let mut i: usize = 0;
    proof {
        assert(d@.take(0) =~= Seq::<(Seq<char>, ProfileWords)>::empty());
    }
    while i < d.entries.len()
        invariant
            i <= d.entries.len(),
            out@ == d@.take(i as int),
        decreases d.entries.len() - i,
    {
        let ghost was = out@;
        let c = copy_profile(&d.entries[i].1);
        out.entries.push((d.entries[i].0.clone(), c));
        proof {
            assert(out@ =~= was.push(d@[i as int]));
            assert(d@.take(i + 1) =~= d@.take(i as int).push(d@[i as int]));
        }
        i = i + 1;
    }
    proof {
        assert(d@.take(d@.len() as int) =~= d@);
    }
    out
}

} // verus!
