//! What the input schemes share: candidates, what they look at, and what they have found.

use vstd::prelude::*;
use crate::config;
use crate::config::Config;
use crate::strmap;
use crate::strmap::StrMap;
use crate::tables::{FreqTable, WordSet};
use crate::text;
use crate::trie;
use crate::trie::{Trie, TrieResult, TrieView};
use crate::userdict;
use crate::userdict::{OrderData, UserDictData};

verus! {

/// A candidate of a scheme.
pub struct SchemeCandidate {
    pub text: String,
    pub simplified: String,
    pub traditional: String,
    pub tone: String,
    pub english: String,
    pub stroke_aux: String,
    pub weight: u32,
    pub match_level: u8,
    pub flags: u8,
}

/// A candidate of a scheme, as texts.
#[verifier::ext_equal]
pub struct Found {
    pub text: Seq<char>,
    pub simplified: Seq<char>,
    pub traditional: Seq<char>,
    pub tone: Seq<char>,
    pub english: Seq<char>,
    pub stroke_aux: Seq<char>,
    pub weight: u32,
    pub match_level: u8,
    pub flags: u8,
}

impl View for SchemeCandidate {
    type V = Found;

    open spec fn view(&self) -> Found {
        Found {
            text: self.text@,
            simplified: self.simplified@,
            traditional: self.traditional@,
            tone: self.tone@,
            english: self.english@,
            stroke_aux: self.stroke_aux@,
            weight: self.weight,
            match_level: self.match_level,
            flags: self.flags,
        }
    }
}

/// The candidates of a list.
pub open spec fn founds(v: Seq<SchemeCandidate>) -> Seq<Found> {
    v.map_values(|c: SchemeCandidate| c@)
}

/// A candidate of which only the word is known.
pub open spec fn plain(word: Seq<char>, weight: u32) -> Found {
    Found {
        text: word,
        simplified: word,
        traditional: word,
        tone: Seq::empty(),
        english: Seq::empty(),
        stroke_aux: Seq::empty(),
        weight,
        match_level: 0,
        flags: 0,
    }
}

/// The candidate that an entry gives.
pub open spec fn offered(e: trie::Entry, weight: u32, level: u8) -> Found {
    Found {
        text: e.word,
        simplified: e.word,
        traditional: e.trad,
        tone: e.tone,
        english: e.en,
        stroke_aux: e.stroke_aux,
        weight,
        match_level: level,
        flags: e.flags,
    }
}

impl SchemeCandidate {
    /// A candidate of which only the word is known.
    pub fn new(text: String, weight: u32) -> (r: Self)
        ensures
            r@ == plain(text@, weight),
    {
        let simplified = text.clone();
        let traditional = text.clone();
        let r = SchemeCandidate {
            text,
            simplified,
            traditional,
            tone: String::new(),
            english: String::new(),
            stroke_aux: String::new(),
            weight,
            match_level: 0,
            flags: 0,
        };
        proof {
            assert(r@ =~= plain(text@, weight));
        }
        r
    }

    /// The candidate that an entry gives.
    pub fn of_entry<'a>(e: &TrieResult<'a>, weight: u32, level: u8) -> (r: Self)
        ensures
            r@ == offered(e@, weight, level),
    {
        SchemeCandidate {
            text: e.word.to_owned(),
            simplified: e.word.to_owned(),
            traditional: e.trad.to_owned(),
            tone: e.tone.to_owned(),
            english: e.en.to_owned(),
            stroke_aux: e.stroke_aux.to_owned(),
            weight,
            match_level: level,
            flags: e.flags,
        }
    }
}

/// What a scheme looks at.
pub struct SchemeContext<'a> {
    pub config: &'a Config,
    /// Whether fuzzy sounds are asked for, which the settings must allow too.
    pub fuzzy_enabled: bool,
    pub tries: &'a StrMap<&'a Trie>,
    pub syllable_freq: &'a FreqTable,
    pub syllable_score: &'a FreqTable,
    pub base_syllables: &'a WordSet,
    pub single_syllables: &'a WordSet,
    pub user_dict: &'a UserDictData,
    pub ngram_history: &'a UserDictData,
    pub user_order: &'a OrderData,
    pub active_profiles: &'a [String],
    pub candidate_count: usize,
    pub last_word: Option<&'a str>,
    pub last_two_words: Option<(&'a str, &'a str)>,
}

/// What a scheme looks at, as texts.
pub struct Surroundings {
    pub config: Config,
    pub tries: Seq<(Seq<char>, TrieView)>,
    pub freq: Map<Seq<char>, u64>,
    pub scores: Map<Seq<char>, u64>,
    pub base: Set<Seq<char>>,
    pub singles: Set<Seq<char>>,
    pub user_dict: userdict::UserWords,
    pub ngram: userdict::UserWords,
    pub order: Seq<(Seq<char>, Seq<Seq<char>>)>,
    pub profiles: Seq<Seq<char>>,
    pub last_word: Option<Seq<char>>,
    pub last_two: Option<(Seq<char>, Seq<char>)>,
}

/// The texts of a pair that may be missing.
pub open spec fn opt_pair(o: Option<(&str, &str)>) -> Option<(Seq<char>, Seq<char>)> {
    match o {
        Some(p) => Some((p.0@, p.1@)),
        None => None,
    }
}

impl<'a> View for SchemeContext<'a> {
    type V = Surroundings;

    open spec fn view(&self) -> Surroundings {
        Surroundings {
            config: config::with_fuzzy(*self.config, self.fuzzy_enabled),
            tries: self.tries@,
            freq: self.syllable_freq@,
            scores: self.syllable_score@,
            base: self.base_syllables@,
            singles: self.single_syllables@,
            user_dict: self.user_dict@,
            ngram: self.ngram_history@,
            order: self.user_order@,
            profiles: text::texts(self.active_profiles@),
            last_word: trie::opt_text(self.last_word),
            last_two: opt_pair(self.last_two_words),
        }
    }
}

impl<'a> SchemeContext<'a> {
    /// The dictionary of a profile.
    pub fn trie(&self, profile: &str) -> (r: Option<&'a Trie>)
        ensures
            r is Some <==> self@.trie(profile@) is Some,
            r matches Some(t) ==> self@.trie(profile@) == Some(t@),
    {
        match self.tries.get(profile) {
            Some(t) => Some(*t),
            None => None,
        }
    }
}

impl Surroundings {
    /// The dictionary of a profile.
    pub open spec fn trie(self, profile: Seq<char>) -> Option<TrieView> {
        strmap::lookup(self.tries, profile)
    }

    /// The profile that counts.
    pub open spec fn first_profile(self) -> Option<Seq<char>> {
        if self.profiles.len() > 0 {
            Some(self.profiles[0])
        } else {
            None
        }
    }

    /// The syllables that are known.
    pub open spec fn syllables(self) -> crate::segmentation::Syllables {
        crate::segmentation::Syllables { freq: self.freq, base: self.base }
    }
}

/// What has been found: each word once, in a list that comes first and one that comes later.
pub struct Finds {
    pub seen: Set<Seq<char>>,
    pub first: Seq<Found>,
    pub later: Seq<Found>,
}

impl Finds {
    /// With one more candidate in the first list, unless its word has been seen.
    pub open spec fn with_first(self, c: Found) -> Finds {
        if self.seen.contains(c.text) {
            self
        } else {
            Finds { seen: self.seen.insert(c.text), first: self.first.push(c), later: self.later }
        }
    }

    /// With one more candidate in the later list, unless its word has been seen.
    pub open spec fn with_later(self, c: Found) -> Finds {
        if self.seen.contains(c.text) {
            self
        } else {
            Finds { seen: self.seen.insert(c.text), first: self.first, later: self.later.push(c) }
        }
    }
}

/// What has been found.
pub struct Gathering {
    pub seen: WordSet,
    pub first: Vec<SchemeCandidate>,
    pub later: Vec<SchemeCandidate>,
}

impl View for Gathering {
    type V = Finds;

    open spec fn view(&self) -> Finds {
        Finds { seen: self.seen@, first: founds(self.first@), later: founds(self.later@) }
    }
}

impl Gathering {
    /// Nothing found yet.
    pub fn new() -> (r: Self)
        ensures
            r@ == (Finds { seen: Set::empty(), first: Seq::empty(), later: Seq::empty() }),
    {
        let r = Gathering { seen: WordSet::new(), first: Vec::new(), later: Vec::new() };
        proof {
            assert(r@.first =~= Seq::<Found>::empty());
            assert(r@.later =~= Seq::<Found>::empty());
        }
        r
    }

    /// Adds a candidate to the first list, unless its word has been seen.
    pub fn add_first(&mut self, c: SchemeCandidate)
        ensures
            final(self)@ == old(self)@.with_first(c@),
    {
        if self.seen.insert(c.text.clone()) {
            self.first.push(c);
            proof {
                assert(self@.first =~= old(self)@.first.push(c@));
            }
        } else {
            proof {
                assert(self.seen@ =~= old(self)@.seen);
            }
        }
    }

    /// Adds a candidate to the later list, unless its word has been seen.
    pub fn add_later(&mut self, c: SchemeCandidate)
        ensures
            final(self)@ == old(self)@.with_later(c@),
    {
        if self.seen.insert(c.text.clone()) {
            self.later.push(c);
            proof {
                assert(self@.later =~= old(self)@.later.push(c@));
            }
        } else {
            proof {
                assert(self.seen@ =~= old(self)@.seen);
            }
        }
    }
}

} // verus!
