//! The search engine: dictionaries, schemes, and what they give for an input.

use vstd::prelude::*;
use vstd::utf8::*;
use crate::action::{Action, FilterMode};
use crate::action;
use crate::bihua;
use crate::bihua::BihuaScheme;
use crate::candidate;
use crate::candidate::{Cand, Candidate};
use crate::chinese;
use crate::chinese::ChineseScheme;
use crate::config;
use crate::config::{Config, DisplayMode, EnglishAuxMode, RareCharMode};
use crate::keys;
use crate::keys::{is_letter, VirtualKey};
use crate::scheme;
use crate::scheme::{Found, SchemeCandidate, SchemeContext, Surroundings};
use crate::segmentation;
use crate::segmentation::{DefaultSegmentor, Segmentor};
use crate::strmap;
use crate::strmap::StrMap;
use crate::tables::{FreqTable, WordSet};
use crate::text;
use crate::text::{same_text, split_at_any, starts_with, to_lower};
use crate::trie;
use crate::trie::{Trie, TrieView};
use crate::userdict;
use crate::userdict::{OrderData, UserDictData};

verus! {

/// An input scheme.
#[derive(Debug, Clone, Copy, PartialEq, Eq, Structural)]
pub enum Scheme {
    Chinese,
    Bihua,
}

impl View for Scheme {
    type V = Scheme;

    open spec fn view(&self) -> Scheme {
        *self
    }
}

impl Scheme {
    /// What is looked up for what was typed.
    pub open spec fn prepared(self, buffer: Seq<char>) -> Seq<char> {
        match self {
            Scheme::Chinese => buffer,
            Scheme::Bihua => bihua::strokes(buffer),
        }
    }

    /// The candidates for what is looked up, ranked.
    pub open spec fn offers(self, c: Surroundings, query: Seq<char>) -> Seq<Found> {
        match self {
            Scheme::Chinese => chinese::ranked(c, chinese::looked_up(c, query)),
            Scheme::Bihua => bihua::ranked(bihua::looked_up(c, query)),
        }
    }

    /// What the scheme itself does with a key.
    pub open spec fn takes(self, key: VirtualKey) -> Option<action::Act> {
        match self {
            Scheme::Chinese => None,
            Scheme::Bihua => if keys::letter_key(key) && !bihua::stroke_key(key) {
                Some(action::Act::Consume)
            } else {
                None
            },
        }
    }

    /// What is looked up for what was typed.
    pub fn pre_process<'a>(&self, buffer: &str, context: &SchemeContext<'a>) -> (r: String)
        ensures
            r@ == self.prepared(buffer@),
    {
        match self {
            Scheme::Chinese => buffer.to_owned(),
            Scheme::Bihua => BihuaScheme::new().pre_process(buffer, context),
        }
    }

    /// The candidates for what is looked up, ranked.
    pub fn lookup<'a>(&self, query: &str, context: &SchemeContext<'a>) -> (r: Vec<SchemeCandidate>)
        ensures
            scheme::founds(r@) == self.offers(context@, query@),
    {
        match self {
            Scheme::Chinese => {
                let s = ChineseScheme::new();
                let mut v = s.lookup(query, context);
                s.post_process(query, &mut v, context);
                v
            },
            Scheme::Bihua => {
                let s = BihuaScheme::new();
                let mut v = s.lookup(query, context);
                s.post_process(query, &mut v, context);
                v
            },
        }
    }

    /// What the scheme itself does with a key.
    pub fn handle_special_key<'a>(
        &self,
        key: VirtualKey,
        buffer: &mut String,
        context: &SchemeContext<'a>,
    ) -> (r: Option<Action>)
        ensures
            action::opt_act(r) == self.takes(key),
            *final(buffer) == *old(buffer),
    {
        match self {
            Scheme::Chinese => None,
            Scheme::Bihua => BihuaScheme::new().handle_special_key(key, buffer, context),
        }
    }

    /// What the scheme itself does with a key, whatever was typed before.
    pub fn take_key(&self, key: VirtualKey) -> (r: Option<Action>)
        ensures
            action::opt_act(r) == self.takes(key),
    {
        match self {
            Scheme::Chinese => None,
            Scheme::Bihua => if is_letter(key) && !BihuaScheme::is_stroke_key(key) {
                Some(Action::Consume)
            } else {
                None
            },
        }
    }
}

/// The search engine.
pub struct SearchEngine {
    /// The profiles that have a dictionary.
    pub profiles: WordSet,
    /// The dictionaries that have been loaded.
    pub tries: StrMap<Trie>,
    pub syllable_freq: FreqTable,
    /// The scores of syllables in thousandths: a hundred times the binary logarithm of their
    /// frequency.
    pub syllable_score: FreqTable,
    pub base_syllables: WordSet,
    pub single_syllables: WordSet,
    pub schemes: StrMap<Scheme>,
    /// Whether the dictionaries are to be loaded anew.
    pub stale: bool,
}

/// The search engine, as texts.
pub struct EngineView {
    pub profiles: Set<Seq<char>>,
    pub tries: Seq<(Seq<char>, TrieView)>,
    pub freq: Map<Seq<char>, u64>,
    pub scores: Map<Seq<char>, u64>,
    pub base: Set<Seq<char>>,
    pub singles: Set<Seq<char>>,
    pub schemes: Seq<(Seq<char>, Scheme)>,
    pub stale: bool,
}

impl View for SearchEngine {
    type V = EngineView;

    open spec fn view(&self) -> EngineView {
        EngineView {
            profiles: self.profiles@,
            tries: self.tries@,
            freq: self.syllable_freq@,
            scores: self.syllable_score@,
            base: self.base_syllables@,
            singles: self.single_syllables@,
            schemes: self.schemes@,
            stale: self.stale,
        }
    }
}

/// What is searched for, and what the search looks at.
pub struct SearchQuery<'a> {
    pub buffer: &'a str,
    pub profile: &'a str,
    pub config: &'a Config,
    pub limit: usize,
    pub filter_mode: FilterMode,
    pub aux_filter: &'a str,
    pub context: Option<&'a str>,
    pub context_pair: Option<(&'a str, &'a str)>,
    /// Whether fuzzy sounds are asked for, which the settings must allow too.
    pub fuzzy_enabled: bool,
    pub learned_words: &'a UserDictData,
    pub ngram_history: &'a UserDictData,
    pub user_order: &'a OrderData,
}

/// What is searched for, as texts.
pub struct Query {
    pub buffer: Seq<char>,
    pub profile: Seq<char>,
    pub config: Config,
    pub limit: int,
    pub filter_mode: FilterMode,
    pub aux_filter: Seq<char>,
    pub context: Option<Seq<char>>,
    pub pair: Option<(Seq<char>, Seq<char>)>,
    pub fuzzy_enabled: bool,
    pub learned: userdict::UserWords,
    pub ngram: userdict::UserWords,
    pub order: Seq<(Seq<char>, Seq<Seq<char>>)>,
}

impl<'a> View for SearchQuery<'a> {
    type V = Query;

    open spec fn view(&self) -> Query {
        Query {
            buffer: self.buffer@,
            profile: self.profile@,
            config: *self.config,
            limit: self.limit as int,
            filter_mode: self.filter_mode,
            aux_filter: self.aux_filter@,
            context: trie::opt_text(self.context),
            pair: scheme::opt_pair(self.context_pair),
            fuzzy_enabled: self.fuzzy_enabled,
            learned: self.learned_words@,
            ngram: self.ngram_history@,
            order: self.user_order@,
        }
    }
}

/// The characters that part the glosses of a candidate.
pub open spec fn gloss_marks() -> Seq<char> {
    seq![' ', '/', '(', ')', ',', ';', '|', '.', ':', '!', '?', '[', ']', '{', '}']
}

/// The characters that part the hint of a candidate.
pub open spec fn hint_marks() -> Seq<char> {
    seq![' ', '/', '(', ')', ',', ';', '|', '.']
}

/// Whether one of some texts begins with a text.
pub open spec fn some_begins(s: Seq<Seq<char>>, p: Seq<char>) -> bool {
    exists|i: int| 0 <= i < s.len() && text::begins(#[trigger] s[i], p)
}

/// Whether a candidate fits an auxiliary code: by a word of its glosses, by its strokes, or by
/// a word of its hint.
pub open spec fn fits_filter(c: Cand, filter: Seq<char>, mode: EnglishAuxMode) -> bool {
    let f = text::lowercase(filter);
    let en = text::lowercase(c.english_aux);
    let hint = text::lowercase(c.hint);
    ||| filter.len() == 0
    ||| c.english_aux.len() > 0 && (some_begins(text::fields(en, gloss_marks()), f) || (mode
        != EnglishAuxMode::FirstLetter && text::begins(en, f)))
    ||| c.stroke_aux.len() > 0 && text::begins(text::lowercase(c.stroke_aux), f)
    ||| some_begins(text::fields(hint, hint_marks()), f)
    ||| text::begins(hint, f)
}

/// The candidates that fit an auxiliary code.
pub open spec fn fitting(filter: Seq<char>, mode: EnglishAuxMode) -> spec_fn(Cand) -> bool {
    |c: Cand| fits_filter(c, filter, mode)
}

/// The candidate that is shown for a candidate of a scheme.
pub open spec fn presented(config: Config, f: Found) -> Cand {
    Cand {
        text: if config.input.enable_traditional {
            f.traditional
        } else {
            f.simplified
        },
        simplified: f.simplified,
        traditional: f.traditional,
        hint: match config.input.display_mode {
            DisplayMode::CharacterOnly => Seq::empty(),
            DisplayMode::CharacterWithEnglish => f.english,
            DisplayMode::CharacterWithStroke => f.stroke_aux,
            DisplayMode::CharacterWithTone => f.tone,
        },
        english_aux: f.english,
        stroke_aux: f.stroke_aux,
        source: "Engine"@,
        weight: (1000 * f.weight) as i64,
        match_level: f.match_level,
        flags: f.flags,
    }
}

/// Whether a candidate is wanted by how rare it is.
pub open spec fn rare_enough(mode: RareCharMode) -> spec_fn(Cand) -> bool {
    |c: Cand|
        match mode {
            RareCharMode::CommonOnly => c.flags % 2 == 0,
            RareCharMode::OnlyRare => c.flags % 2 == 1,
            RareCharMode::IncludeRare => true,
        }
}

/// How many candidates are shown at most.
pub open spec fn shown_at_most(mode: RareCharMode, limit: int) -> int {
    match mode {
        RareCharMode::CommonOnly => limit,
        _ => trie::most(limit, 2000),
    }
}

/// The candidates that are left of those of a scheme.
pub open spec fn selected(q: Query, found: Seq<Found>) -> Seq<Cand> {
    let all = found.map_values(|f: Found| presented(q.config, f));
    let fits = if q.filter_mode == FilterMode::Global && q.aux_filter.len() > 0 {
        all.filter(fitting(q.aux_filter, q.config.input.english_aux_mode))
    } else {
        all
    };
    let mode = q.config.options.rare_char_mode;
    let kept = fits.filter(rare_enough(mode));
    kept.take(trie::least(shown_at_most(mode, q.limit), kept.len() as int))
}

/// Whether a text takes one byte.
pub open spec fn one_byte() -> spec_fn(Seq<char>) -> bool {
    |s: Seq<char>| text::byte_len(s) == 1
}

/// The pieces of an input, unless every byte is a piece of its own.
pub open spec fn worthwhile(segs: Seq<Seq<char>>, input: Seq<char>) -> Seq<Seq<char>> {
    if segs.len() > 0 && !(segs.len() == text::byte_len(input) && segs.all(one_byte())) {
        segs
    } else {
        Seq::empty()
    }
}

impl EngineView {
    /// The syllables that are known.
    pub open spec fn syllables(self) -> segmentation::Syllables {
        segmentation::Syllables { freq: self.freq, base: self.base }
    }

    /// The dictionary of a profile.
    pub open spec fn trie(self, profile: Seq<char>) -> Option<TrieView> {
        strmap::lookup(self.tries, profile)
    }

    /// What a scheme looks at for a query: only the dictionary of its own profile, and fuzzy
    /// sounds only where they are asked for.
    pub open spec fn around(self, q: Query) -> Surroundings {
        Surroundings {
            config: config::with_fuzzy(q.config, q.fuzzy_enabled),
            tries: match self.trie(q.profile) {
                Some(t) => seq![(q.profile, t)],
                None => Seq::empty(),
            },
            freq: self.freq,
            scores: self.scores,
            base: self.base,
            singles: self.singles,
            user_dict: q.learned,
            ngram: q.ngram,
            order: q.order,
            profiles: seq![q.profile],
            last_word: q.context,
            last_two: q.pair,
        }
    }

    /// What is found for a query: candidates, and the pieces of the input.
    pub open spec fn searched(self, q: Query) -> (Seq<Cand>, Seq<Seq<char>>) {
        match strmap::lookup(self.schemes, q.profile) {
            Some(s) => {
                let query = s.prepared(q.buffer);
                (
                    selected(q, s.offers(self.around(q), query)),
                    worthwhile(
                        segmentation::segmented(
                            self.syllables(),
                            query,
                            q.config.input.segmentation_delimiters@,
                        ),
                        query,
                    ),
                )
            },
            None => (Seq::empty(), Seq::empty()),
        }
    }

    /// Whether a word stands under a key of a profile.
    pub open spec fn has_exact(self, profile: Seq<char>, pinyin: Seq<char>, word: Seq<char>) -> bool {
        match self.trie(profile) {
            Some(t) => trie::has_word(t.exact(pinyin), word),
            None => false,
        }
    }

    /// Whether a profile has a word.
    pub open spec fn has_word(self, profile: Seq<char>, word: Seq<char>) -> bool {
        match self.trie(profile) {
            Some(t) => t.holds(word),
            None => false,
        }
    }

    /// Whether a key of a profile goes on behind an input.
    pub open spec fn has_longer(self, profile: Seq<char>, buffer: Seq<char>) -> bool {
        match self.trie(profile) {
            Some(t) => t.goes_on(buffer),
            None => false,
        }
    }
}

/// Whether one of some texts begins with a text.
fn any_begins(v: &Vec<String>, p: &str) -> (r: bool)
    ensures
        r == some_begins(text::texts(v@), p@),
{
    let ghost s = text::texts(v@);
    let mut i: usize = 0;
    while i < v.len()
        invariant
            i <= v.len(),
            s == text::texts(v@),
            forall|j: int| 0 <= j < i ==> !text::begins(#[trigger] s[j], p@),
        decreases v.len() - i,
    {
        proof {
            assert(s[i as int] == v@[i as int]@);
        }
        if starts_with(v[i].as_str(), p) {
            return true;
        }
        i = i + 1;
    }
    false
}

/// Keeps the candidates that fit an auxiliary code.
pub(crate) fn keep_fitting(v: Vec<Candidate>, filter: &str, mode: EnglishAuxMode) -> (r: Vec<Candidate>)
    ensures
        candidate::cands(r@) == candidate::cands(v@).filter(fitting(filter@, mode)),
{
    let ghost s = candidate::cands(v@);
    let ghost want = fitting(filter@, mode);
    let mut out: Vec<Candidate> = Vec::new();
    let mut i: usize = 0;
    proof {
        reveal(Seq::filter);
        assert(candidate::cands(out@) =~= s.take(0).filter(want));
    }
    while i < v.len()
        invariant
            i <= v.len(),
            s == candidate::cands(v@),
            want == fitting(filter@, mode),
            candidate::cands(out@) == s.take(i as int).filter(want),
        decreases v.len() - i,
    {
        let ghost was = candidate::cands(out@);
        proof {
            reveal(Seq::filter);
            assert(s.take(i + 1).drop_last() =~= s.take(i as int));
            assert(s.take(i + 1).last() == v@[i as int]@);
        }
        if matches_filter(&v[i], filter, mode) {
            let c = v[i].clone();
            out.push(c);
            proof {
                assert(candidate::cands(out@) =~= was.push(c@));
            }
        }
        i = i + 1;
    }
    proof {
        assert(s.take(s.len() as int) =~= s);
    }
    out
}

/// Keeps the candidates that are wanted by how rare they are.
fn keep_rare_enough(v: Vec<Candidate>, mode: RareCharMode) -> (r: Vec<Candidate>)
    ensures
        candidate::cands(r@) == candidate::cands(v@).filter(rare_enough(mode)),
{
    let ghost s = candidate::cands(v@);
    let ghost want = rare_enough(mode);
    let mut out: Vec<Candidate> = Vec::new();
    let mut i: usize = 0;
    proof {
        reveal(Seq::filter);
        assert(candidate::cands(out@) =~= s.take(0).filter(want));
    }
    while i < v.len()
        invariant
            i <= v.len(),
            s == candidate::cands(v@),
            want == rare_enough(mode),
            candidate::cands(out@) == s.take(i as int).filter(want),
        decreases v.len() - i,
    {
        let ghost was = candidate::cands(out@);
        proof {
            reveal(Seq::filter);
            assert(s.take(i + 1).drop_last() =~= s.take(i as int));
            assert(s.take(i + 1).last() == v@[i as int]@);
        }
        let wanted = match mode {
            RareCharMode::CommonOnly => v[i].flags % 2 == 0,
            RareCharMode::OnlyRare => v[i].flags % 2 == 1,
            RareCharMode::IncludeRare => true,
        };
        if wanted {
            let c = v[i].clone();
            out.push(c);
            proof {
                assert(candidate::cands(out@) =~= was.push(c@));
            }
        }
        i = i + 1;
    }
    proof {
        assert(s.take(s.len() as int) =~= s);
    }
    out
}

/// Whether a candidate fits an auxiliary code.
pub fn matches_filter(candidate: &Candidate, filter: &str, mode: EnglishAuxMode) -> (r: bool)
    ensures
        r == fits_filter(candidate@, filter@, mode),
{
    proof {
        chinese::lemma_bytes_of_text(filter@);
        chinese::lemma_bytes_of_text(candidate.english_aux@);
        chinese::lemma_bytes_of_text(candidate.stroke_aux@);
    }
    if filter.as_bytes().len() == 0 {
        return true;
    }
    let filter_lower = to_lower(filter);
    let f = filter_lower.as_str();
    if candidate.english_aux.as_str().as_bytes().len() > 0 {
        let en = to_lower(candidate.english_aux.as_str());
        let marks: [char; 15] = [
            ' ', '/', '(', ')', ',', ';', '|', '.', ':', '!', '?', '[', ']', '{', '}',
        ];
        proof {
            assert(marks@ =~= gloss_marks());
        }
        let parts = split_at_any(en.as_str(), &marks);
        if any_begins(&parts, f) {
            return true;
        }
        if mode != EnglishAuxMode::FirstLetter && starts_with(en.as_str(), f) {
            return true;
        }
    }
    if candidate.stroke_aux.as_str().as_bytes().len() > 0 {
        let aux = to_lower(candidate.stroke_aux.as_str());
        if starts_with(aux.as_str(), f) {
            return true;
        }
    }
    let hint = to_lower(candidate.hint.as_str());
    let marks: [char; 8] = [' ', '/', '(', ')', ',', ';', '|', '.'];
    proof {
        assert(marks@ =~= hint_marks());
    }
    let parts = split_at_any(hint.as_str(), &marks);
    any_begins(&parts, f) || starts_with(hint.as_str(), f)
}

/// The candidate that is shown for a candidate of a scheme.
fn present(config: &Config, f: SchemeCandidate) -> (r: Candidate)
    ensures
        r@ == presented(*config, f@),
{
    let hint = match config.input.display_mode {
        DisplayMode::CharacterOnly => String::new(),
        DisplayMode::CharacterWithEnglish => f.english.clone(),
        DisplayMode::CharacterWithStroke => f.stroke_aux.clone(),
        DisplayMode::CharacterWithTone => f.tone.clone(),
    };
    let text = if config.input.enable_traditional {
        f.traditional.clone()
    } else {
        f.simplified.clone()
    };
    let r = Candidate {
        text,
        simplified: f.simplified,
        traditional: f.traditional,
        hint,
        english_aux: f.english,
        stroke_aux: f.stroke_aux,
        source: "Engine".to_owned(),
        weight: 1000 * (f.weight as i64),
        match_level: f.match_level,
        flags: f.flags,
    };
    proof {
        assert(r@ =~= presented(*config, f@));
    }
    r
}

/// The pieces of an input, unless every byte is a piece of its own.
fn keep_worthwhile(segs: Vec<String>, input: &str) -> (r: Vec<String>)
    ensures
        text::texts(r@) == worthwhile(text::texts(segs@), input@),
{
    let ghost s = text::texts(segs@);
    if segs.len() == 0 {
        return segs;
    }
    if segs.len() == input.as_bytes().len() {
        let mut i: usize = 0;
        let mut single = true;
        while i < segs.len()
            invariant
                i <= segs.len(),
                s == text::texts(segs@),
                single == (forall|j: int| 0 <= j < i ==> one_byte()(#[trigger] s[j])),
            decreases segs.len() - i,
        {
            proof {
                assert(s[i as int] == segs@[i as int]@);
            }
            if segs[i].as_str().as_bytes().len() != 1 {
                single = false;
            }
            i = i + 1;
        }
        if single {
            proof {
                assert(s.all(one_byte()));
            }
            let none: Vec<String> = Vec::new();
            proof {
                assert(text::texts(none@) =~= Seq::<Seq<char>>::empty());
            }
            return none;
        }
        proof {
            if s.all(one_byte()) {
                assert forall|j: int| 0 <= j < s.len() implies one_byte()(#[trigger] s[j]) by {}
            }
        }
    }
    segs
}

impl SearchEngine {
    /// An engine without dictionaries. The basic syllables are those of the list of single
    /// syllables.
    pub fn new(
        profiles: WordSet,
        syllable_freq: FreqTable,
        syllable_score: FreqTable,
        base_syllables: WordSet,
        single_syllables: WordSet,
        schemes: StrMap<Scheme>,
    ) -> (r: Self)
        ensures
            r@ == (EngineView {
                profiles: profiles@,
                tries: Seq::empty(),
                freq: syllable_freq@,
                scores: syllable_score@,
                base: base_syllables@,
                singles: single_syllables@,
                schemes: schemes@,
                stale: true,
            }),
    {
        SearchEngine {
            profiles,
            tries: StrMap::new(),
            syllable_freq,
            syllable_score,
            base_syllables,
            single_syllables,
            schemes,
            stale: true,
        }
    }

    /// What is found for a query: candidates, and the pieces of the input.
    pub fn search<'a>(&self, query: SearchQuery<'a>) -> (r: (Vec<Candidate>, Vec<String>))
        ensures
            (candidate::cands(r.0@), text::texts(r.1@)) == self@.searched(query@),
    {
        let ghost q = query@;
        let s = match self.schemes.get(query.profile) {
            Some(s) => *s,
            None => {
                let a: Vec<Candidate> = Vec::new();
                let b: Vec<String> = Vec::new();
                proof {
                    assert(candidate::cands(a@) =~= Seq::<Cand>::empty());
                    assert(text::texts(b@) =~= Seq::<Seq<char>>::empty());
                }
                return (a, b);
            },
        };
        let mut tries: StrMap<&Trie> = StrMap::new();
        if let Some(t) = self.tries.get(query.profile) {
            tries.entries.push((query.profile.to_owned(), t));
            proof {
                assert(tries@ =~= seq![(query.profile@, t@)]);
            }
        }
        let mut profiles: Vec<String> = Vec::new();
        profiles.push(query.profile.to_owned());
        proof {
            assert(text::texts(profiles@) =~= seq![query.profile@]);
        }
        let context = SchemeContext {
            config: query.config,
            fuzzy_enabled: query.fuzzy_enabled,
            tries: &tries,
            syllable_freq: &self.syllable_freq,
            syllable_score: &self.syllable_score,
            base_syllables: &self.base_syllables,
            single_syllables: &self.single_syllables,
            user_dict: query.learned_words,
            ngram_history: query.ngram_history,
            user_order: query.user_order,
            active_profiles: profiles.as_slice(),
            candidate_count: 0,
            last_word: query.context,
            last_two_words: query.context_pair,
        };
        proof {
            assert(context@ == self@.around(q));
        }
        let prepared = s.pre_process(query.buffer, &context);
        let mut found = s.lookup(prepared.as_str(), &context);
        let ghost fs = scheme::founds(found@);
        let results = self.select(&query, found);
        let segs = DefaultSegmentor.segment(
            prepared.as_str(),
            &self.base_syllables,
            query.config.input.segmentation_delimiters.as_str(),
            &self.syllable_freq,
            &self.base_syllables,
        );
        let segs = keep_worthwhile(segs, prepared.as_str());
        (results, segs)
    }

    /// The candidates that are left of those of a scheme.
    fn select<'a>(&self, query: &SearchQuery<'a>, found: Vec<SchemeCandidate>) -> (r: Vec<Candidate>)
        ensures
            candidate::cands(r@) == selected(query@, scheme::founds(found@)),
    {
        let ghost q = query@;
        let ghost fs = scheme::founds(found@);
        let ghost f = |f: Found| presented(q.config, f);
        let mut rest = found;
        let mut all: Vec<Candidate> = Vec::new();
        proof {
            assert(candidate::cands(all@) =~= fs.take(0).map_values(f));
            assert(scheme::founds(rest@) =~= fs.skip(0));
        }
        while rest.len() > 0
            invariant
                q == query@,
                f == (|f: Found| presented(q.config, f)),
                all@.len() + rest@.len() == fs.len(),
                candidate::cands(all@) == fs.take(all@.len() as int).map_values(f),
                scheme::founds(rest@) == fs.skip(all@.len() as int),
            decreases rest.len(),
        {
            let ghost n = all@.len() as int;
            let ghost was = candidate::cands(all@);
            let ghost before = rest@;
            let c = rest.remove(0);
            proof {
                assert(scheme::founds(before)[0] == before[0]@);
                assert(fs[n] == c@);
                assert forall|k: int| 0 <= k < rest@.len() implies scheme::founds(rest@)[k]
                    == fs.skip(n + 1)[k] by {
                    assert(rest@[k] == before[k + 1]);
                    assert(scheme::founds(before)[k + 1] == before[k + 1]@);
                }
                assert(scheme::founds(rest@) =~= fs.skip(n + 1));
            }
            let p = present(query.config, c);
            all.push(p);
            proof {
                assert(candidate::cands(all@) =~= was.push(p@));
                assert(fs.take(n + 1).map_values(f) =~= fs.take(n).map_values(f).push(f(fs[n])));
            }
        }
        proof {
            assert(fs.take(fs.len() as int) =~= fs);
            chinese::lemma_bytes_of_text(query.aux_filter@);
        }
        let fits = if query.filter_mode == FilterMode::Global && query.aux_filter.as_bytes().len() > 0 {
            keep_fitting(all, query.aux_filter, query.config.input.english_aux_mode)
        } else {
            all
        };
        let mode = query.config.options.rare_char_mode;
        let mut kept = keep_rare_enough(fits, mode);
        let ghost ks = candidate::cands(kept@);
        let most: usize = match mode {
            RareCharMode::CommonOnly => query.limit,
            _ => if query.limit > 2000 {
                query.limit
            } else {
                2000
            },
        };
        if kept.len() > most {
            kept.truncate(most);
        }
        proof {
            assert(candidate::cands(kept@) =~= ks.take(
                trie::least(shown_at_most(mode, q.limit), ks.len() as int),
            ));
        }
        kept
    }

    /// The dictionary of a profile.
    pub fn get_trie(&self, profile: &str) -> (r: Option<&Trie>)
        ensures
            r is Some <==> self@.trie(profile@) is Some,
            r matches Some(t) ==> self@.trie(profile@) == Some(t@),
    {
        self.tries.get(profile)
    }

    /// Whether a word stands under a key of a profile.
    pub fn has_exact_match(&self, profile: &str, pinyin: &str, word: &str) -> (r: bool)
        ensures
            r == self@.has_exact(profile@, pinyin@, word@),
    {
        if let Some(t) = self.get_trie(profile) {
            if let Some(v) = t.get_all_exact(pinyin) {
                let ghost s = trie::views(v@);
                let mut i: usize = 0;
                while i < v.len()
                    invariant
                        i <= v.len(),
                        s == trie::views(v@),
                        s == t@.exact(pinyin@),
                        self@.trie(profile@) == Some(t@),
                        forall|j: int| 0 <= j < i ==> (#[trigger] s[j]).word != word@,
                    decreases v.len() - i,
                {
                    proof {
                        assert(s[i as int] == v@[i as int]@);
                    }
                    if same_text(v[i].word, word) {
                        return true;
                    }
                    i = i + 1;
                }
            }
        }
        false
    }

    /// Whether a profile has a word.
    pub fn has_word_in_dict(&self, profile: &str, word: &str) -> (r: bool)
        ensures
            r == self@.has_word(profile@, word@),
    {
        match self.get_trie(profile) {
            Some(t) => t.has_word_in_dict(word),
            None => false,
        }
    }

    /// Whether a key of a profile goes on behind an input.
    pub fn has_longer_match(&self, profile: &str, buffer: &str) -> (r: bool)
        ensures
            r == self@.has_longer(profile@, buffer@),
    {
        match self.get_trie(profile) {
            Some(t) => t.has_longer_match(buffer),
            None => false,
        }
    }

    /// Asks for the dictionaries to be loaded anew.
    pub fn clear_cache(&mut self)
        ensures
            final(self)@ == (EngineView { stale: true, ..old(self)@ }),
    {
        self.stale = true;
    }

    /// Takes freshly loaded dictionaries.
    pub fn reload_tries(&mut self, tries: StrMap<Trie>)
        ensures
            final(self)@ == (EngineView { tries: tries@, stale: false, ..old(self)@ }),
    {
        self.tries = tries;
        self.stale = false;
    }

    /// Whether a candidate fits an auxiliary code.
    pub fn matches_filter(&self, candidate: &Candidate, filter: &str, mode: EnglishAuxMode) -> (r: bool)
        ensures
            r == fits_filter(candidate@, filter@, mode),
    {
        matches_filter(candidate, filter, mode)
    }
}

/// Without an auxiliary code every candidate fits.
pub proof fn law_empty_filter_fits_all(c: Cand, mode: EnglishAuxMode)
    ensures
        fits_filter(c, Seq::empty(), mode),
{
}

/// A longer code never lets in more: a candidate that fits a code whose only letters with a
/// lower-case form are ASCII fits whatever the code begins with.
pub proof fn law_longer_filter_lets_in_no_more(c: Cand, f: Seq<char>, n: int, mode: EnglishAuxMode)
    requires
        text::small_beyond_ascii(f),
        0 <= n <= f.len(),
        fits_filter(c, f, mode),
    ensures
        fits_filter(c, f.take(n), mode),
{
    if n > 0 {
        let x = text::lowercase(f);
        text::lemma_lowercase_take(f, n);
        let en = text::lowercase(c.english_aux);
        let hint = text::lowercase(c.hint);
        lemma_begins_less(en, x, n);
        lemma_begins_less(hint, x, n);
        lemma_begins_less(text::lowercase(c.stroke_aux), x, n);
        lemma_some_begins_less(text::fields(en, gloss_marks()), x, n);
        lemma_some_begins_less(text::fields(hint, hint_marks()), x, n);
    }
}

proof fn lemma_begins_less(s: Seq<char>, p: Seq<char>, n: int)
    requires
        0 <= n <= p.len(),
    ensures
        text::begins(s, p) ==> text::begins(s, p.take(n)),
{
    if text::begins(s, p) {
        assert(s.take(n) =~= s.take(p.len() as int).take(n));
    }
}

proof fn lemma_some_begins_less(s: Seq<Seq<char>>, p: Seq<char>, n: int)
    requires
        0 <= n <= p.len(),
    ensures
        some_begins(s, p) ==> some_begins(s, p.take(n)),
{
    if some_begins(s, p) {
        let i = choose|i: int| 0 <= i < s.len() && text::begins(#[trigger] s[i], p);
        lemma_begins_less(s[i], p, n);
    }
}

/// Whether the ASCII letters of a code are capitals or not makes no difference to what fits.
pub proof fn law_case_of_filter_does_not_matter(c: Cand, f: Seq<char>, g: Seq<char>, mode: EnglishAuxMode)
    requires
        text::small_beyond_ascii(f),
        text::small_beyond_ascii(g),
        text::lowercase(f) == text::lowercase(g),
    ensures
        fits_filter(c, f, mode) == fits_filter(c, g, mode),
{
    text::lemma_lowercase_twice(f);
    text::lemma_lowercase_twice(g);
}

/// A code fits with its ASCII letters in capitals what it fits as it is.
pub proof fn law_filter_fits_in_capitals(c: Cand, f: Seq<char>, mode: EnglishAuxMode)
    requires
        text::small_beyond_ascii(f),
    ensures
        fits_filter(c, f, mode) == fits_filter(c, f.map_values(|x: char| text::upper_char(x)), mode),
{
    let g = f.map_values(|x: char| text::upper_char(x));
    assert forall|i: int| 0 <= i < g.len() implies '\0' <= #[trigger] g[i] <= '\u{7f}'
        || text::unicode_lower(g[i]) == seq![g[i]] by {
        assert('\0' <= f[i] <= '\u{7f}' || text::unicode_lower(f[i]) == seq![f[i]]);
    }
    assert(text::lowercase(f) =~= text::lowercase(g));
    law_case_of_filter_does_not_matter(c, f, g, mode);
}

/// A profile without a scheme gives nothing.
pub proof fn law_no_scheme_no_candidates(e: EngineView, q: Query)
    requires
        strmap::lookup(e.schemes, q.profile) is None,
    ensures
        e.searched(q) == (Seq::<Cand>::empty(), Seq::<Seq<char>>::empty()),
{
}

/// With common words only, no rare word is shown, and no more than the limit.
pub proof fn law_rare_words_stay_out(q: Query, found: Seq<Found>, i: int)
    requires
        q.config.options.rare_char_mode == RareCharMode::CommonOnly,
        q.limit >= 0,
        0 <= i < selected(q, found).len(),
    ensures
        selected(q, found)[i].flags % 2 == 0,
        selected(q, found).len() <= q.limit,
{
    broadcast use vstd::seq_lib::group_filter_ensures;

    let all = found.map_values(|f: Found| presented(q.config, f));
    let fits = if q.filter_mode == FilterMode::Global && q.aux_filter.len() > 0 {
        all.filter(fitting(q.aux_filter, q.config.input.english_aux_mode))
    } else {
        all
    };
    let kept = fits.filter(rare_enough(q.config.options.rare_char_mode));
    assert(rare_enough(q.config.options.rare_char_mode)(kept[i]));
}

/// Whether a candidate is one that fits a code: a word of its glosses, of its strokes or of its
/// hint begins with it, in small letters.
pub open spec fn begins_with_code(c: Cand, code: Seq<char>) -> bool {
    let f = text::lowercase(code);
    ||| text::word_begins(text::lowercase(c.english_aux), f, gloss_marks())
    ||| text::word_at(text::lowercase(c.stroke_aux), f, Seq::empty(), 0)
    ||| text::word_begins(text::lowercase(c.hint), f, hint_marks())
}

/// A candidate fits a code only where a word of its glosses, its strokes, or a word of its hint
/// begins with the code; and it does fit wherever one of them begins with a code that is one word.
pub proof fn law_fitting_means_beginning_with_the_code(c: Cand, code: Seq<char>, mode: EnglishAuxMode)
    requires
        code.len() > 0,
    ensures
        fits_filter(c, code, mode) ==> begins_with_code(c, code),
        begins_with_code(c, code) && text::lowercase(code).len() > 0 && (forall|i: int|
            0 <= i < text::lowercase(code).len() ==> !gloss_marks().contains(
                #[trigger] text::lowercase(code)[i],
            )) ==> fits_filter(c, code, mode),
{
    let f = text::lowercase(code);
    let en = text::lowercase(c.english_aux);
    let st = text::lowercase(c.stroke_aux);
    let hint = text::lowercase(c.hint);
    let g = gloss_marks();
    let m = hint_marks();
    assert(text::lowercase(Seq::empty()).len() == 0);
    if fits_filter(c, code, mode) {
        if some_begins(text::fields(en, g), f) {
            let i = choose|i: int|
                0 <= i < text::fields(en, g).len() && text::begins(#[trigger] text::fields(en, g)[i], f);
            text::lemma_field_begins(en, f, g, i);
        }
        if some_begins(text::fields(hint, m), f) {
            let i = choose|i: int|
                0 <= i < text::fields(hint, m).len() && text::begins(
                    #[trigger] text::fields(hint, m)[i],
                    f,
                );
            text::lemma_field_begins(hint, f, m, i);
        }
        assert(en.subrange(0, f.len() as int) =~= en.take(f.len() as int) || f.len() > en.len());
        assert(st.subrange(0, f.len() as int) =~= st.take(f.len() as int) || f.len() > st.len());
        assert(hint.subrange(0, f.len() as int) =~= hint.take(f.len() as int) || f.len()
            > hint.len());
        if text::begins(en, f) {
            assert(text::word_at(en, f, g, 0));
        }
        if text::begins(hint, f) {
            assert(text::word_at(hint, f, m, 0));
        }
    }
    if begins_with_code(c, code) && f.len() > 0 && (forall|i: int|
        0 <= i < f.len() ==> !g.contains(#[trigger] f[i])) {
        assert forall|i: int| 0 <= i < f.len() implies !m.contains(#[trigger] f[i]) by {
            if m.contains(f[i]) {
                let j = choose|j: int| 0 <= j < m.len() && m[j] == f[i];
                assert(g[j] == m[j]);
            }
        }
        text::law_fields_begin_where_words_begin(en, f, g);
        text::law_fields_begin_where_words_begin(hint, f, m);
        if c.english_aux.len() == 0 {
            assert(c.english_aux =~= Seq::empty());
        }
        if c.stroke_aux.len() == 0 {
            assert(c.stroke_aux =~= Seq::empty());
        }
        if text::word_at(st, f, Seq::empty(), 0) {
            assert(st.take(f.len() as int) =~= st.subrange(0, f.len() as int));
        }
    }
}

/// A candidate as it is shown of one that a scheme found: in the form that is asked for, with the
/// hint that is asked for, and otherwise as it was found.
pub open spec fn shows(config: Config, f: Found, c: Cand) -> bool {
    &&& c.simplified == f.simplified
    &&& c.traditional == f.traditional
    &&& config.input.enable_traditional ==> c.text == f.traditional
    &&& !config.input.enable_traditional ==> c.text == f.simplified
    &&& c.english_aux == f.english
    &&& c.stroke_aux == f.stroke_aux
    &&& c.match_level == f.match_level
    &&& c.flags == f.flags
    &&& c.weight == 1000 * f.weight
    &&& config.input.display_mode == DisplayMode::CharacterOnly ==> c.hint.len() == 0
    &&& config.input.display_mode == DisplayMode::CharacterWithEnglish ==> c.hint == f.english
    &&& config.input.display_mode == DisplayMode::CharacterWithStroke ==> c.hint == f.stroke_aux
    &&& config.input.display_mode == DisplayMode::CharacterWithTone ==> c.hint == f.tone
}

proof fn lemma_filters_commute<A>(s: Seq<A>, p: spec_fn(A) -> bool, q: spec_fn(A) -> bool)
    ensures
        s.filter(p).filter(q) == s.filter(q).filter(p),
    decreases s.len(),
{
    reveal(Seq::filter);
    if s.len() > 0 {
        let d = s.drop_last();
        let x = s.last();
        lemma_filters_commute(d, p, q);
        let a = d.filter(p);
        let b = d.filter(q);
        assert(a.push(x).drop_last() =~= a);
        assert(b.push(x).drop_last() =~= b);
    }
}

/// What a scheme offers for a query.
pub open spec fn offers_for(e: EngineView, q: Query) -> Seq<Found> {
    match strmap::lookup(e.schemes, q.profile) {
        Some(s) => s.offers(e.around(q), s.prepared(q.buffer)),
        None => Seq::empty(),
    }
}

proof fn lemma_selected(q: Query, found: Seq<Found>, i: int)
    requires
        0 <= i < selected(q, found).len(),
        0 <= q.limit,
    ensures
        exists|x: int| 0 <= x < found.len() && shows(q.config, #[trigger] found[x], selected(q, found)[i]),
        q.filter_mode == FilterMode::Global && q.aux_filter.len() > 0 ==> fits_filter(
            selected(q, found)[i],
            q.aux_filter,
            q.config.input.english_aux_mode,
        ),
        rare_enough(q.config.options.rare_char_mode)(selected(q, found)[i]),
{
    let all = found.map_values(|f: Found| presented(q.config, f));
    let p = fitting(q.aux_filter, q.config.input.english_aux_mode);
    let narrowed = q.filter_mode == FilterMode::Global && q.aux_filter.len() > 0;
    let fits = if narrowed {
        all.filter(p)
    } else {
        all
    };
    let r = rare_enough(q.config.options.rare_char_mode);
    let kept = fits.filter(r);
    let c = selected(q, found)[i];
    assert(c == kept[i]);
    fits.lemma_filter_pred(r, i);
    assert(kept.contains(c));
    fits.lemma_filter_contains_rev(r, c);
    if narrowed {
        let j = choose|j: int| 0 <= j < fits.len() && fits[j] == c;
        all.lemma_filter_pred(p, j);
        all.lemma_filter_contains_rev(p, c);
    }
    let x = choose|x: int| 0 <= x < all.len() && all[x] == c;
    assert(shows(q.config, found[x], c));
}

/// Every candidate of a search is one that the scheme found, in the form that is asked for: the
/// traditional one where it is on, else the simplified one. And with an auxiliary code for all
/// candidates, every one of them fits the code.
pub proof fn law_searched_candidates_are_as_asked(e: EngineView, q: Query, i: int)
    requires
        0 <= i < e.searched(q).0.len(),
        0 <= q.limit,
    ensures
        ({
            let c = e.searched(q).0[i];
            &&& c.text == (if q.config.input.enable_traditional {
                c.traditional
            } else {
                c.simplified
            })
            &&& exists|x: int|
                0 <= x < offers_for(e, q).len() && shows(
                    q.config,
                    #[trigger] offers_for(e, q)[x],
                    c,
                )
            &&& q.filter_mode == FilterMode::Global && q.aux_filter.len() > 0 ==> fits_filter(
                c,
                q.aux_filter,
                q.config.input.english_aux_mode,
            )
            &&& q.config.options.rare_char_mode == RareCharMode::CommonOnly ==> c.flags % 2 == 0
            &&& q.config.options.rare_char_mode == RareCharMode::OnlyRare ==> c.flags % 2 == 1
        }),
{
    lemma_selected(q, offers_for(e, q), i);
}

/// An auxiliary code narrows a search: what is found with it is what is found without it, but for
/// what does not fit, in the same order and up to the limit. None that fits is left out before that.
pub proof fn law_code_narrows_the_search(e: EngineView, q: Query, m: int)
    requires
        q.filter_mode == FilterMode::Global,
        q.aux_filter.len() > 0,
        0 <= q.limit,
        e.searched(Query { filter_mode: FilterMode::Off, limit: m, ..q }).0.len() < m,
    ensures
        ({
            let all = e.searched(Query { filter_mode: FilterMode::Off, limit: m, ..q }).0;
            let fits = all.filter(
                |c: Cand| fits_filter(c, q.aux_filter, q.config.input.english_aux_mode),
            );
            let r = e.searched(q).0;
            &&& r.len() <= fits.len()
            &&& r == fits.take(r.len() as int)
            &&& r.len() < q.limit ==> r == fits
        }),
{
    let q0 = Query { filter_mode: FilterMode::Off, limit: m, ..q };
    assert(e.around(q0) == e.around(q));
    let found = offers_for(e, q);
    let all = found.map_values(|f: Found| presented(q.config, f));
    assert(all =~= found.map_values(|f: Found| presented(q0.config, f)));
    let p = fitting(q.aux_filter, q.config.input.english_aux_mode);
    let pp = |c: Cand| fits_filter(c, q.aux_filter, q.config.input.english_aux_mode);
    assert(p =~= pp);
    let r = rare_enough(q.config.options.rare_char_mode);
    lemma_filters_commute(all, p, r);
    if strmap::lookup(e.schemes, q.profile) is Some {
        let kept = all.filter(r);
        assert(kept.take(kept.len() as int) =~= kept);
        assert(e.searched(q0).0 =~= kept);
        let fits = kept.filter(p);
        assert(fits.take(fits.len() as int) =~= fits);
    } else {
        assert(e.searched(q0).0 =~= Seq::empty());
        reveal(Seq::filter);
        assert(e.searched(q0).0.filter(pp) =~= Seq::empty());
    }
}

proof fn lemma_shows_alike(config: Config, f: Found, c: Cand, filter: Seq<char>, mode: EnglishAuxMode)
    requires
        shows(config, f, c),
    ensures
        shows(config, f, presented(config, f)),
        fits_filter(c, filter, mode) == fits_filter(presented(config, f), filter, mode),
{
    let d = presented(config, f);
    assert(c.hint =~= d.hint);
}

proof fn lemma_selected_holds(q: Query, found: Seq<Found>, x: int)
    requires
        0 <= x < found.len(),
        0 <= q.limit,
        selected(q, found).len() < q.limit,
        rare_enough(q.config.options.rare_char_mode)(presented(q.config, found[x])),
        q.filter_mode == FilterMode::Global && q.aux_filter.len() > 0 ==> fits_filter(
            presented(q.config, found[x]),
            q.aux_filter,
            q.config.input.english_aux_mode,
        ),
    ensures
        selected(q, found).contains(presented(q.config, found[x])),
{
    let all = found.map_values(|f: Found| presented(q.config, f));
    let p = fitting(q.aux_filter, q.config.input.english_aux_mode);
    let narrowed = q.filter_mode == FilterMode::Global && q.aux_filter.len() > 0;
    let fits = if narrowed {
        all.filter(p)
    } else {
        all
    };
    let r = rare_enough(q.config.options.rare_char_mode);
    let kept = fits.filter(r);
    assert(kept.take(kept.len() as int) =~= kept);
    assert(selected(q, found) =~= kept);
    let c = all[x];
    if narrowed {
        all.lemma_filter_contains(p, x);
    } else {
        assert(fits[x] == c);
    }
    let j = choose|j: int| 0 <= j < fits.len() && fits[j] == c;
    fits.lemma_filter_contains(r, j);
}

/// Nothing that is wanted is left out of a search before the limit: what the scheme found is shown
/// if it is as common or rare as asked for and, with a code, if it fits.
pub proof fn law_search_leaves_nothing_out(e: EngineView, q: Query, x: int, c: Cand)
    requires
        0 <= x < offers_for(e, q).len(),
        0 <= q.limit,
        e.searched(q).0.len() < q.limit,
        shows(q.config, offers_for(e, q)[x], c),
        q.config.options.rare_char_mode == RareCharMode::CommonOnly ==> c.flags % 2 == 0,
        q.config.options.rare_char_mode == RareCharMode::OnlyRare ==> c.flags % 2 == 1,
        q.filter_mode == FilterMode::Global && q.aux_filter.len() > 0 ==> fits_filter(
            c,
            q.aux_filter,
            q.config.input.english_aux_mode,
        ),
    ensures
        exists|i: int|
            0 <= i < e.searched(q).0.len() && shows(
                q.config,
                offers_for(e, q)[x],
                #[trigger] e.searched(q).0[i],
            ),
{
    let found = offers_for(e, q);
    let d = presented(q.config, found[x]);
    lemma_shows_alike(
        q.config,
        found[x],
        c,
        q.aux_filter,
        q.config.input.english_aux_mode,
    );
    lemma_selected_holds(q, found, x);
    let r = selected(q, found);
    let i = choose|i: int| 0 <= i < r.len() && r[i] == d;
    assert(e.searched(q).0[i] == d);
}

} // verus!
