//! The settings in force, and what is kept of the user's words.

use vstd::prelude::*;
use crate::config::{
    Config, DoubleTap, LongPressMapping, PhantomType, ProfileLayout, PunctuationList, QuickFinal,
    Settings,
};
use crate::keys;
use crate::keys::VirtualKey;
use crate::memory;
use crate::memory::{bring_forward, evict, find_due, join_profiles, promote, put_words};
use crate::session_state;
use crate::strmap;
use crate::strmap::StrMap;
use crate::text;
use crate::text::to_lower;
use crate::userdict;
use crate::userdict::{OrderData, UserDictData, WordList};

verus! {

/// How long what is used is kept in memory before it is saved, in milliseconds.
pub const USAGE_SAVE_INTERVAL: u64 = 30000;

/// What is to be saved.
#[derive(Debug, Clone, Copy, PartialEq, Eq, Structural)]
pub enum SaveKind {
    Learned,
    LongTerm,
    Order,
    Ngram,
}

/// What is to be saved of a profile.
pub struct SaveRequest {
    pub kind: SaveKind,
    pub profile: String,
}

/// The requests of a list.
pub open spec fn saves(v: Seq<SaveRequest>) -> Seq<(SaveKind, Seq<char>)> {
    v.map_values(|s: SaveRequest| (s.kind, s.profile@))
}

/// The settings in force, and what is kept of the user's words.
pub struct ConfigManager {
    pub master_config: Settings,
    pub learned_words: UserDictData,
    pub long_term_words: UserDictData,
    pub combined_dict: UserDictData,
    pub ngram_history: UserDictData,
    pub user_order: OrderData,
    /// What is to be saved.
    pub pending_saves: Vec<SaveRequest>,
    pub usage_last_save: u64,
    /// Whether the platform cannot show what is being typed in the application.
    pub phantom_unsupported: bool,
}

/// The settings in force and what is kept, as texts.
#[verifier::ext_equal]
pub struct Store {
    pub config: Config,
    pub learned: userdict::UserWords,
    pub long_term: userdict::UserWords,
    pub combined: userdict::UserWords,
    pub ngram: userdict::UserWords,
    pub order: Seq<(Seq<char>, Seq<Seq<char>>)>,
    pub saves: Seq<(SaveKind, Seq<char>)>,
    pub usage_last_save: u64,
    pub phantom_unsupported: bool,
}

impl View for ConfigManager {
    type V = Store;

    open spec fn view(&self) -> Store {
        Store {
            config: self.master_config@,
            learned: self.learned_words@,
            long_term: self.long_term_words@,
            combined: self.combined_dict@,
            ngram: self.ngram_history@,
            order: self.user_order@,
            saves: saves(self.pending_saves@),
            usage_last_save: self.usage_last_save,
            phantom_unsupported: self.phantom_unsupported,
        }
    }
}

/// The keys that names stand for; a name that stands for none is left out.
pub open spec fn keys_in(names: Seq<Seq<char>>) -> Seq<VirtualKey>
    decreases names.len(),
{
    if names.len() == 0 {
        Seq::empty()
    } else {
        match keys::key_named(text::lowercase(names.last())) {
            Some(k) => keys_in(names.drop_last()).push(k),
            None => keys_in(names.drop_last()),
        }
    }
}

/// The keys that names stand for, each with the place of its name.
pub open spec fn keys_placed(names: Seq<Seq<char>>) -> Seq<(VirtualKey, usize)>
    decreases names.len(),
{
    if names.len() == 0 {
        Seq::empty()
    } else {
        match keys::key_named(text::lowercase(names.last())) {
            Some(k) => keys_placed(names.drop_last()).push((k, (names.len() - 1) as usize)),
            None => keys_placed(names.drop_last()),
        }
    }
}

/// The texts under keys in small letters; a later one takes the place of an earlier one.
pub open spec fn texts_under(v: Seq<(Seq<char>, Seq<char>)>) -> Seq<(Seq<char>, Seq<char>)>
    decreases v.len(),
{
    if v.len() == 0 {
        Seq::empty()
    } else {
        strmap::put(texts_under(v.drop_last()), text::lowercase(v.last().0), v.last().1)
    }
}

/// Keys and texts.
pub open spec fn final_pairs(v: Seq<QuickFinal>) -> Seq<(Seq<char>, Seq<char>)> {
    v.map_values(|q: QuickFinal| (q.key@, q.final_text@))
}

/// Keys and texts.
pub open spec fn tap_pairs(v: Seq<DoubleTap>) -> Seq<(Seq<char>, Seq<char>)> {
    v.map_values(|q: DoubleTap| (q.trigger_key@, q.insert_text@))
}

/// Keys and texts.
pub open spec fn press_pairs(v: Seq<LongPressMapping>) -> Seq<(Seq<char>, Seq<char>)> {
    v.map_values(|q: LongPressMapping| (q.trigger_key@, q.insert_text@))
}

/// The keys of profiles, in small letters.
pub open spec fn profile_pairs(c: Config) -> Seq<(Seq<char>, Seq<char>)> {
    c.input.profile_keys@.map_values(
        |k: crate::config::ProfileKey| (text::lowercase(k.key@), text::lowercase(k.profile@)),
    )
}

/// The profiles whose words are kept: those that have a key, or else the Chinese one.
pub open spec fn profiles_kept(c: Config) -> Seq<Seq<char>> {
    let all = profile_pairs(c).map_values(|p: (Seq<char>, Seq<char>)| p.1);
    if all.len() == 0 {
        seq!["chinese"@]
    } else {
        all
    }
}

/// The requests to save everything of some profiles.
pub open spec fn save_all(profiles: Seq<Seq<char>>) -> Seq<(SaveKind, Seq<char>)>
    decreases profiles.len(),
{
    if profiles.len() == 0 {
        Seq::empty()
    } else {
        let p = profiles.last();
        save_all(profiles.drop_last()) + seq![
            (SaveKind::Learned, p),
            (SaveKind::LongTerm, p),
            (SaveKind::Order, p),
            (SaveKind::Ngram, p),
        ]
    }
}

impl Store {
    /// Nothing kept yet.
    pub open spec fn fresh(config: Config, now: u64, phantom_unsupported: bool) -> Store {
        Store {
            config,
            learned: Seq::empty(),
            long_term: Seq::empty(),
            combined: Seq::empty(),
            ngram: Seq::empty(),
            order: Seq::empty(),
            saves: Seq::empty(),
            usage_last_save: now,
            phantom_unsupported,
        }
    }

    /// With all words joined anew.
    pub open spec fn rejoined(self) -> Store {
        Store {
            combined: memory::profiles_joined(
                self.learned,
                self.long_term,
                self.long_term.len() as int,
            ),
            ..self
        }
    }

    /// With one more thing to save.
    pub open spec fn to_save(self, kind: SaveKind, profile: Seq<char>) -> Store {
        Store { saves: self.saves.push((kind, profile)), ..self }
    }

    /// With words learned under a key: the word that counts least goes where there are too
    /// many, and those used often enough are kept for long.
    pub open spec fn with_learned(self, profile: Seq<char>, pinyin: Seq<char>, l: memory::Words) -> Store {
        let short = memory::with_words(self.learned, profile, pinyin, l);
        let p = memory::evicted(
            memory::profile_or_none(short, profile),
            self.config.options.short_term_capacity as int,
        );
        let moved = memory::due(p, self.config.options.long_term_threshold, p.len() as int);
        let (p2, long) = memory::promoted(p, self.long_term, profile, moved, moved.len() as int);
        let s = Store {
            learned: strmap::put(short, profile, p2),
            long_term: long,
            ..self
        }.rejoined().to_save(SaveKind::Learned, profile);
        if moved.len() > 0 {
            s.to_save(SaveKind::LongTerm, profile)
        } else {
            s
        }
    }

    /// With words kept for long under a key.
    pub open spec fn with_long_term(self, profile: Seq<char>, pinyin: Seq<char>, l: memory::Words) -> Store {
        Store {
            long_term: memory::with_words(self.long_term, profile, pinyin, l),
            ..self
        }.rejoined().to_save(SaveKind::LongTerm, profile)
    }

    /// With a word used last.
    pub open spec fn with_used(self, profile: Seq<char>, word: Seq<char>) -> Store {
        Store {
            order: strmap::put(
                self.order,
                profile,
                memory::brought_forward(
                    memory::order_or_none(self.order, profile),
                    word,
                    self.config.options.mru_length as int,
                ),
            ),
            ..self
        }
    }

    /// With what is used saved, if that was last done long enough ago.
    pub open spec fn saved_if_due(self, profile: Seq<char>, now: u64) -> Store {
        if session_state::passed(now, self.usage_last_save) >= USAGE_SAVE_INTERVAL {
            Store { usage_last_save: now, ..self }.to_save(SaveKind::Order, profile).to_save(
                SaveKind::Ngram,
                profile,
            )
        } else {
            self
        }
    }

    /// With words that follow others.
    pub open spec fn with_ngram(
        self,
        profile: Seq<char>,
        context: Seq<char>,
        l: memory::Words,
        now: u64,
    ) -> Store {
        Store {
            ngram: memory::with_words(self.ngram, profile, context, l),
            ..self
        }.saved_if_due(profile, now)
    }

    /// What is shown in the application while letters are typed.
    pub open spec fn phantom(self) -> PhantomType {
        if self.phantom_unsupported {
            PhantomType::Off
        } else {
            self.config.input.phantom_type
        }
    }
}

/// The keys that names stand for.
pub(crate) fn parse_keys(names: &Vec<String>) -> (r: Vec<VirtualKey>)
    ensures
        r@ == keys_in(text::texts(names@)),
{
    let ghost s = text::texts(names@);
    let mut out: Vec<VirtualKey> = Vec::new();
    let mut i: usize = 0;
    proof {
        assert(s.take(0) =~= Seq::<Seq<char>>::empty());
    }
    while i < names.len()
        invariant
            i <= names.len(),
            s == text::texts(names@),
            out@ == keys_in(s.take(i as int)),
        decreases names.len() - i,
    {
        proof {
            assert(s.take(i + 1).drop_last() =~= s.take(i as int));
            assert(s.take(i + 1).last() == names@[i as int]@);
        }
        if let Some(k) = VirtualKey::parse(names[i].as_str()) {
            out.push(k);
        }
        i = i + 1;
    }
    proof {
        assert(s.take(s.len() as int) =~= s);
    }
    out
}

/// The keys that names stand for, each with the place of its name.
fn parse_placed(names: &Vec<String>) -> (r: Vec<(VirtualKey, usize)>)
    ensures
        r@ == keys_placed(text::texts(names@)),
{
    let ghost s = text::texts(names@);
    let mut out: Vec<(VirtualKey, usize)> = Vec::new();
    let mut i: usize = 0;
    proof {
        assert(s.take(0) =~= Seq::<Seq<char>>::empty());
    }
    while i < names.len()
        invariant
            i <= names.len(),
            s == text::texts(names@),
            out@ == keys_placed(s.take(i as int)),
        decreases names.len() - i,
    {
        proof {
            assert(s.take(i + 1).drop_last() =~= s.take(i as int));
            assert(s.take(i + 1).last() == names@[i as int]@);
        }
        if let Some(k) = VirtualKey::parse(names[i].as_str()) {
            out.push((k, i));
        }
        i = i + 1;
    }
    proof {
        assert(s.take(s.len() as int) =~= s);
    }
    out
}

impl ConfigManager {
    /// Nothing kept yet.
    pub fn new(config: Config, now: u64, phantom_unsupported: bool) -> (r: Self)
        ensures
            r@ == Store::fresh(config, now, phantom_unsupported),
    {
        let r = ConfigManager {
            master_config: Settings::new(config),
            learned_words: StrMap::new(),
            long_term_words: StrMap::new(),
            combined_dict: StrMap::new(),
            ngram_history: StrMap::new(),
            user_order: StrMap::new(),
            pending_saves: Vec::new(),
            usage_last_save: now,
            phantom_unsupported,
        };
        proof {
            assert(r@ =~= Store::fresh(config, now, phantom_unsupported));
        }
        r
    }

    /// Takes other settings, and says whether the user's words are to be loaded.
    pub fn apply_config(&mut self, conf: Config) -> (r: bool)
        ensures
            final(self)@ == (Store { config: conf, ..old(self)@ }),
            r == ((conf.input.enable_word_discovery || conf.input.enable_auto_reorder)
                && old(self)@.learned.len() == 0),
    {
        self.master_config = Settings::new(conf);
        (self.master_config.get().input.enable_word_discovery
            || self.master_config.get().input.enable_auto_reorder) && self.learned_words.is_empty()
    }

    /// The profiles whose words are to be loaded.
    pub fn profiles_to_load(&self) -> (r: Vec<String>)
        ensures
            text::texts(r@) == profiles_kept(self@.config),
    {
        let ghost pairs = profile_pairs(self@.config);
        let ghost all = pairs.map_values(|p: (Seq<char>, Seq<char>)| p.1);
        let v = &self.master_config.get().input.profile_keys;
        let mut out: Vec<String> = Vec::new();
        let mut i: usize = 0;
        proof {
            assert(text::texts(out@) =~= all.take(0));
        }
        while i < v.len()
            invariant
                i <= v.len(),
                v@ == self@.config.input.profile_keys@,
                pairs == profile_pairs(self@.config),
                all == pairs.map_values(|p: (Seq<char>, Seq<char>)| p.1),
                text::texts(out@) == all.take(i as int),
            decreases v.len() - i,
        {
            let ghost was = text::texts(out@);
            let p = to_lower(v[i].profile.as_str());
            out.push(p);
            proof {
                assert(text::texts(out@) =~= was.push(p@));
                assert(all[i as int] == p@);
                assert(all.take(i + 1) =~= all.take(i as int).push(all[i as int]));
            }
            i = i + 1;
        }
        proof {
            assert(all.take(all.len() as int) =~= all);
        }
        if out.len() == 0 {
            out.push("chinese".to_owned());
            proof {
                assert(text::texts(out@) =~= seq!["chinese"@]);
            }
        }
        out
    }

    /// Takes the user's words as they were saved.
    pub fn load_user_dicts(
        &mut self,
        learned: UserDictData,
        long_term: UserDictData,
        ngrams: UserDictData,
        orders: OrderData,
    )
        ensures
            final(self)@ == (Store {
                learned: learned@,
                long_term: long_term@,
                ngram: ngrams@,
                order: orders@,
                ..old(self)@
            }).rejoined(),
    {
        self.learned_words = learned;
        self.long_term_words = long_term;
        self.ngram_history = ngrams;
        self.user_order = orders;
        self.rebuild_combined_dict();
    }

    /// Joins all words anew.
    pub fn rebuild_combined_dict(&mut self)
        ensures
            final(self)@ == old(self)@.rejoined(),
    {
        let c = join_profiles(&self.learned_words, &self.long_term_words);
        self.combined_dict = c;
    }

    /// Notes what is to be saved.
    fn request_save(&mut self, kind: SaveKind, profile: &str)
        ensures
            final(self)@ == old(self)@.to_save(kind, profile@),
    {
        let ghost was = self@;
        self.pending_saves.push(SaveRequest { kind, profile: profile.to_owned() });
        proof {
            assert(self@ =~= was.to_save(kind, profile@));
        }
    }

    /// Learns words under a key.
    pub fn insert_learned(&mut self, profile: &str, pinyin: &str, entries: WordList)
        ensures
            final(self)@ == old(self)@.with_learned(profile@, pinyin@, entries@),
    {
        let ghost was = self@;
        put_words(&mut self.learned_words, profile, pinyin, entries);
        let ghost short = self.learned_words@;
        let mut p = match self.learned_words.get(profile) {
            Some(p) => userdict::copy_profile(p),
            None => StrMap::new(),
        };
        evict(&mut p, self.master_config.get().options.short_term_capacity);
        let moved = find_due(&p, self.master_config.get().options.long_term_threshold);
        promote(&mut p, &mut self.long_term_words, profile, &moved);
        self.learned_words.insert(profile.to_owned(), p);
        self.rebuild_combined_dict();
        self.request_save(SaveKind::Learned, profile);
        if moved.len() > 0 {
            self.request_save(SaveKind::LongTerm, profile);
        }
    }

    /// Keeps words for long under a key.
    pub fn insert_long_term_direct(&mut self, profile: &str, pinyin: &str, entries: WordList)
        ensures
            final(self)@ == old(self)@.with_long_term(profile@, pinyin@, entries@),
    {
        put_words(&mut self.long_term_words, profile, pinyin, entries);
        self.rebuild_combined_dict();
        self.request_save(SaveKind::LongTerm, profile);
    }

    /// Notes the use of a word.
    pub fn insert_usage_order(&mut self, profile: &str, word: &str)
        ensures
            final(self)@ == old(self)@.with_used(profile@, word@),
    {
        bring_forward(
            &mut self.user_order,
            profile,
            word,
            self.master_config.get().options.mru_length,
        );
    }

    /// Notes words that follow others.
    pub fn insert_ngram(&mut self, profile: &str, context: &str, entries: WordList, now: u64)
        ensures
            final(self)@ == old(self)@.with_ngram(profile@, context@, entries@, now),
    {
        put_words(&mut self.ngram_history, profile, context, entries);
        self.save_usage_if_due(profile, now);
    }

    /// Saves what is used, if that was last done long enough ago.
    pub fn save_usage_if_due(&mut self, profile: &str, now: u64)
        ensures
            final(self)@ == old(self)@.saved_if_due(profile@, now),
    {
        if now > self.usage_last_save && now - self.usage_last_save >= USAGE_SAVE_INTERVAL {
            self.usage_last_save = now;
            self.request_save(SaveKind::Order, profile);
            self.request_save(SaveKind::Ngram, profile);
        }
    }

    /// Saves everything.
    pub fn flush_all(&mut self)
        ensures
            final(self)@ == (Store {
                saves: old(self)@.saves + save_all(
                    profile_pairs(old(self)@.config).map_values(|p: (Seq<char>, Seq<char>)| p.1),
                ),
                ..old(self)@
            }),
    {
        let ghost was = self@;
        let ghost all = profile_pairs(was.config).map_values(|p: (Seq<char>, Seq<char>)| p.1);
        let n = self.master_config.get().input.profile_keys.len();
        let mut i: usize = 0;
        proof {
            assert(all.take(0) =~= Seq::<Seq<char>>::empty());
            assert(was.saves + save_all(all.take(0)) =~= was.saves);
        }
        while i < n
            invariant
                i <= n,
                n == was.config.input.profile_keys@.len(),
                all == profile_pairs(was.config).map_values(|p: (Seq<char>, Seq<char>)| p.1),
                was.config == self.master_config@,
                self@ == (Store { saves: was.saves + save_all(all.take(i as int)), ..was }),
            decreases n - i,
        {
            let p = to_lower(self.master_config.get().input.profile_keys[i].profile.as_str());
            self.request_save(SaveKind::Learned, p.as_str());
            self.request_save(SaveKind::LongTerm, p.as_str());
            self.request_save(SaveKind::Order, p.as_str());
            self.request_save(SaveKind::Ngram, p.as_str());
            proof {
                assert(all[i as int] == p@);
                assert(all.take(i + 1).drop_last() =~= all.take(i as int));
                assert(self@.saves =~= was.saves + save_all(all.take(i + 1)));
            }
            i = i + 1;
        }
        proof {
            assert(all.take(all.len() as int) =~= all);
        }
    }

    /// Hands out what is to be saved.
    pub fn take_saves(&mut self) -> (r: Vec<SaveRequest>)
        ensures
            saves(r@) == old(self)@.saves,
            final(self)@ == (Store { saves: Seq::empty(), ..old(self)@ }),
    {
        let ghost was = self@;
        let mut out: Vec<SaveRequest> = Vec::new();
        out.append(&mut self.pending_saves);
        proof {
            assert(saves(out@) =~= was.saves);
            assert(self@ =~= (Store { saves: Seq::empty(), ..was }));
        }
        out
    }

    /// The keys of profiles, in small letters.
    pub fn profile_keys(&self) -> (r: Vec<(String, String)>)
        ensures
            session_state::pairs(r@) == profile_pairs(self@.config),
    {
        let ghost all = profile_pairs(self@.config);
        let v = &self.master_config.get().input.profile_keys;
        let mut out: Vec<(String, String)> = Vec::new();
        let mut i: usize = 0;
        proof {
            assert(session_state::pairs(out@) =~= all.take(0));
        }
        while i < v.len()
            invariant
                i <= v.len(),
                v@ == self@.config.input.profile_keys@,
                all == profile_pairs(self@.config),
                session_state::pairs(out@) == all.take(i as int),
            decreases v.len() - i,
        {
            let ghost was = session_state::pairs(out@);
            let p = (to_lower(v[i].key.as_str()), to_lower(v[i].profile.as_str()));
            out.push(p);
            proof {
                assert(session_state::pairs(out@) =~= was.push((p.0@, p.1@)));
                assert(all[i as int] == (p.0@, p.1@));
                assert(all.take(i + 1) =~= all.take(i as int).push(all[i as int]));
            }
            i = i + 1;
        }
        proof {
            assert(all.take(all.len() as int) =~= all);
        }
        out
    }

    /// Sets the profile at the start.
    pub fn set_default_profile(&mut self, profile: String)
        ensures
            final(self)@ == (Store { config: final(self)@.config, ..old(self)@ }),
            crate::config::alike_but_profile(final(self)@.config, old(self)@.config),
            final(self)@.config.input.default_profile@ == profile@,
    {
        self.master_config.set_default_profile(profile);
    }

    /// The keys that turn to the page before.
    pub fn page_up_keys(&self) -> (r: Vec<VirtualKey>)
        ensures
            r@ == keys_in(text::texts(self@.config.hotkeys.page_up@)),
    {
        parse_keys(&self.master_config.get().hotkeys.page_up)
    }

    /// The keys that turn to the next page.
    pub fn page_down_keys(&self) -> (r: Vec<VirtualKey>)
        ensures
            r@ == keys_in(text::texts(self@.config.hotkeys.page_down@)),
    {
        parse_keys(&self.master_config.get().hotkeys.page_down)
    }

    /// The keys that choose the candidate before.
    pub fn prev_candidate_keys(&self) -> (r: Vec<VirtualKey>)
        ensures
            r@ == keys_in(text::texts(self@.config.hotkeys.prev_candidate@)),
    {
        parse_keys(&self.master_config.get().hotkeys.prev_candidate)
    }

    /// The keys that choose the next candidate.
    pub fn next_candidate_keys(&self) -> (r: Vec<VirtualKey>)
        ensures
            r@ == keys_in(text::texts(self@.config.hotkeys.next_candidate@)),
    {
        parse_keys(&self.master_config.get().hotkeys.next_candidate)
    }

    /// The keys that delete while navigating.
    pub fn nav_delete_keys(&self) -> (r: Vec<VirtualKey>)
        ensures
            r@ == keys_in(text::texts(self@.config.options.nav_delete@)),
    {
        parse_keys(&self.master_config.get().options.nav_delete)
    }

    /// The keys that change a spelling while navigating.
    pub fn nav_fuzzy_keys(&self) -> (r: Vec<VirtualKey>)
        ensures
            r@ == keys_in(text::texts(self@.config.options.nav_fuzzy@)),
    {
        parse_keys(&self.master_config.get().options.nav_fuzzy)
    }

    /// The keys that clear while navigating.
    pub fn nav_clear_keys(&self) -> (r: Vec<VirtualKey>)
        ensures
            r@ == keys_in(text::texts(self@.config.options.nav_clear@)),
    {
        parse_keys(&self.master_config.get().options.nav_clear)
    }

    /// The keys that choose a character of a word, with its place.
    pub fn word_to_char_keys(&self) -> (r: Vec<(VirtualKey, usize)>)
        ensures
            r@ == keys_placed(text::texts(self@.config.hotkeys.word_to_char@)),
    {
        parse_placed(&self.master_config.get().hotkeys.word_to_char)
    }

    /// The keys that choose a character of a word while tab is held down.
    pub fn word_to_char_shift_keys(&self) -> (r: Vec<(VirtualKey, usize)>)
        ensures
            r@ == keys_placed(text::texts(self@.config.hotkeys.word_to_char_shift@)),
    {
        parse_placed(&self.master_config.get().hotkeys.word_to_char_shift)
    }

    /// What keys complete a syllable to.
    pub fn quick_finals(&self) -> (r: StrMap<String>)
        ensures
            r@ == texts_under(final_pairs(self@.config.quick_finals@)),
    {
        let v = &self.master_config.get().quick_finals;
        let ghost s = final_pairs(v@);
        let mut out: StrMap<String> = StrMap::new();
        let mut i: usize = 0;
        proof {
            assert(s.take(0) =~= Seq::<(Seq<char>, Seq<char>)>::empty());
        }
        while i < v.len()
            invariant
                i <= v.len(),
                s == final_pairs(v@),
                out@ == texts_under(s.take(i as int)),
            decreases v.len() - i,
        {
            proof {
                assert(s.take(i + 1).drop_last() =~= s.take(i as int));
                assert(s.take(i + 1).last() == (v@[i as int].key@, v@[i as int].final_text@));
            }
            out.insert(to_lower(v[i].key.as_str()), v[i].final_text.clone());
            i = i + 1;
        }
        proof {
            assert(s.take(s.len() as int) =~= s);
        }
        out
    }

    /// What keys struck twice put in.
    pub fn double_taps(&self) -> (r: StrMap<String>)
        ensures
            r@ == texts_under(tap_pairs(self@.config.input.double_taps@)),
    {
        let v = &self.master_config.get().input.double_taps;
        let ghost s = tap_pairs(v@);
        let mut out: StrMap<String> = StrMap::new();
        let mut i: usize = 0;
        proof {
            assert(s.take(0) =~= Seq::<(Seq<char>, Seq<char>)>::empty());
        }
        while i < v.len()
            invariant
                i <= v.len(),
                s == tap_pairs(v@),
                out@ == texts_under(s.take(i as int)),
            decreases v.len() - i,
        {
            proof {
                assert(s.take(i + 1).drop_last() =~= s.take(i as int));
                assert(s.take(i + 1).last() == (v@[i as int].trigger_key@, v@[i as int].insert_text@));
            }
            out.insert(to_lower(v[i].trigger_key.as_str()), v[i].insert_text.clone());
            i = i + 1;
        }
        proof {
            assert(s.take(s.len() as int) =~= s);
        }
        out
    }

    /// What keys held down put in.
    pub fn long_press_mappings(&self) -> (r: StrMap<String>)
        ensures
            r@ == texts_under(press_pairs(self@.config.input.long_press_mappings@)),
    {
        let v = &self.master_config.get().input.long_press_mappings;
        let ghost s = press_pairs(v@);
        let mut out: StrMap<String> = StrMap::new();
        let mut i: usize = 0;
        proof {
            assert(s.take(0) =~= Seq::<(Seq<char>, Seq<char>)>::empty());
        }
        while i < v.len()
            invariant
                i <= v.len(),
                s == press_pairs(v@),
                out@ == texts_under(s.take(i as int)),
            decreases v.len() - i,
        {
            proof {
                assert(s.take(i + 1).drop_last() =~= s.take(i as int));
                assert(s.take(i + 1).last() == (v@[i as int].trigger_key@, v@[i as int].insert_text@));
            }
            out.insert(to_lower(v[i].trigger_key.as_str()), v[i].insert_text.clone());
            i = i + 1;
        }
        proof {
            assert(s.take(s.len() as int) =~= s);
        }
        out
    }

    /// The keys that struck twice begin an auxiliary code.
    pub fn double_tap_uppercase_keys(&self) -> (r: &Vec<String>)
        ensures
            *r == self@.config.options.double_tap_uppercase_keys,
    {
        &self.master_config.get().options.double_tap_uppercase_keys
    }

    /// The keys that held down begin an auxiliary code.
    pub fn long_press_uppercase_keys(&self) -> (r: &Vec<String>)
        ensures
            *r == self@.config.options.long_press_uppercase_keys,
    {
        &self.master_config.get().options.long_press_uppercase_keys
    }

    /// How soon a key has to be struck again, in milliseconds.
    pub fn double_tap_timeout(&self) -> (r: u64)
        ensures
            r == self@.config.input.double_tap_timeout_ms,
    {
        self.master_config.get().input.double_tap_timeout_ms
    }

    /// How long a key has to be held down, in milliseconds.
    pub fn long_press_timeout(&self) -> (r: u64)
        ensures
            r == self@.config.input.long_press_timeout_ms,
    {
        self.master_config.get().input.long_press_timeout_ms
    }

    /// Whether candidates are shown.
    pub fn show_candidates(&self) -> (r: bool)
        ensures
            r == self@.config.appearance.show_candidates,
    {
        self.master_config.get().appearance.show_candidates
    }

    /// How many candidates a page has.
    pub fn page_size(&self) -> (r: usize)
        ensures
            r == self@.config.appearance.page_size,
    {
        self.master_config.get().appearance.page_size
    }

    /// How words are put out.
    pub fn commit_mode(&self) -> (r: &str)
        ensures
            r@ == self@.config.input.commit_mode@,
    {
        self.master_config.get().input.commit_mode.as_str()
    }

    /// Whether what was used last comes first.
    pub fn enable_auto_reorder(&self) -> (r: bool)
        ensures
            r == self@.config.input.enable_auto_reorder,
    {
        self.master_config.get().input.enable_auto_reorder
    }

    /// Whether a single candidate that nothing goes on from is put out at once.
    pub fn auto_commit_unique_full_match(&self) -> (r: bool)
        ensures
            r == self@.config.input.auto_commit_unique_full_match,
    {
        self.master_config.get().input.auto_commit_unique_full_match
    }

    /// Whether a single exact match of strokes is put out at once.
    pub fn auto_commit_stroke(&self) -> (r: bool)
        ensures
            r == self@.config.input.auto_commit_stroke,
    {
        self.master_config.get().input.auto_commit_stroke
    }

    /// Whether the space key puts out the letters.
    pub fn firefox_space_interrupt(&self) -> (r: bool)
        ensures
            r == self@.config.input.firefox_space_interrupt,
    {
        self.master_config.get().input.firefox_space_interrupt
    }

    /// Whether the arrow keys change their parts.
    pub fn swap_arrow_keys(&self) -> (r: bool)
        ensures
            r == self@.config.input.swap_arrow_keys,
    {
        self.master_config.get().input.swap_arrow_keys
    }

    /// Whether digits choose candidates.
    pub fn enable_number_selection(&self) -> (r: bool)
        ensures
            r == self@.config.input.enable_number_selection,
    {
        self.master_config.get().input.enable_number_selection
    }

    /// Whether keys struck twice count.
    pub fn enable_double_tap(&self) -> (r: bool)
        ensures
            r == self@.config.input.enable_double_tap,
    {
        self.master_config.get().input.enable_double_tap
    }

    /// Whether keys held down count.
    pub fn enable_long_press(&self) -> (r: bool)
        ensures
            r == self@.config.input.enable_long_press,
    {
        self.master_config.get().input.enable_long_press
    }

    /// Whether punctuation keys held down count.
    pub fn enable_punctuation_long_press(&self) -> (r: bool)
        ensures
            r == self@.config.input.enable_punctuation_long_press,
    {
        self.master_config.get().input.enable_punctuation_long_press
    }

    /// What punctuation keys held down put in.
    pub fn punctuation_long_press_mappings(&self) -> (r: &StrMap<String>)
        ensures
            *r == self@.config.input.punctuation_long_press_mappings,
    {
        &self.master_config.get().input.punctuation_long_press_mappings
    }

    /// The punctuation marks of the profiles.
    pub fn punctuations(&self) -> (r: &StrMap<StrMap<PunctuationList>>)
        ensures
            *r == self@.config.punctuations,
    {
        &self.master_config.get().punctuations
    }

    /// The layouts of the profiles.
    pub fn layouts(&self) -> (r: &StrMap<ProfileLayout>)
        ensures
            *r == self@.config.layouts,
    {
        &self.master_config.get().layouts
    }

    /// The plain layouts of the profiles.
    pub fn keyboard_layouts(&self) -> (r: &StrMap<StrMap<String>>)
        ensures
            *r == self@.config.input.keyboard_layouts,
    {
        &self.master_config.get().input.keyboard_layouts
    }

    /// What separates syllables in the application.
    pub fn phantom_separator(&self) -> (r: &str)
        ensures
            r@ == self@.config.options.phantom_separator@,
    {
        self.master_config.get().options.phantom_separator.as_str()
    }

    /// What is shown in the application while letters are typed.
    pub fn phantom_type(&self) -> (r: PhantomType)
        ensures
            r == self@.phantom(),
    {
        if self.phantom_unsupported {
            PhantomType::Off
        } else {
            self.master_config.get().input.phantom_type
        }
    }
}

/// The words of a profile once others have been learned under a key, and the one that counts
/// least has gone where there are too many.
pub open spec fn learned_first(s: Store, profile: Seq<char>, pinyin: Seq<char>, l: memory::Words) -> userdict::ProfileWords {
    memory::evicted(
        strmap::put(memory::profile_or_none(s.learned, profile), pinyin, l),
        s.config.options.short_term_capacity as int,
    )
}

/// After words have been learned, no word of the profile that is used often enough is left among
/// the learned words. Each that left stands among the words kept for long with its count, and
/// every other word is where it was.
pub proof fn law_often_used_words_are_kept_for_long(
    s: Store,
    profile: Seq<char>,
    pinyin: Seq<char>,
    l: memory::Words,
    key: Seq<char>,
    e: (Seq<char>, u32),
)
    requires
        strmap::keys_distinct(memory::profile_or_none(s.learned, profile)),
    ensures
        ({
            let threshold = s.config.options.long_term_threshold;
            let r = s.with_learned(profile, pinyin, l);
            let was = memory::words_or_none(learned_first(s, profile, pinyin, l), key);
            let often = memory::often_used(was, e.0, threshold, was.len() as int);
            let now = memory::words_or_none(memory::profile_or_none(r.learned, profile), key);
            let kept = memory::words_or_none(memory::profile_or_none(r.long_term, profile), key);
            let before = memory::words_or_none(memory::profile_or_none(s.long_term, profile), key);
            &&& now.contains(e) ==> e.1 < threshold
            &&& now.contains(e) <==> was.contains(e) && often is None
            &&& strmap::lookup(kept, e.0) == (match often {
                Some(c) => Some(c),
                None => strmap::lookup(before, e.0),
            })
        }),
{
    let p0 = memory::profile_or_none(s.learned, profile);
    let short = memory::with_words(s.learned, profile, pinyin, l);
    strmap::law_put_lookup(s.learned, profile, strmap::put(p0, pinyin, l), profile);
    strmap::law_put_keeps_keys_distinct(p0, pinyin, l);
    let p = learned_first(s, profile, pinyin, l);
    memory::lemma_evicted_distinct(
        strmap::put(p0, pinyin, l),
        s.config.options.short_term_capacity as int,
    );
    let threshold = s.config.options.long_term_threshold;
    memory::law_often_used_words_are_moved(p, s.long_term, profile, threshold, key, e);
    let moved = memory::due(p, threshold, p.len() as int);
    let (p2, long) = memory::promoted(p, s.long_term, profile, moved, moved.len() as int);
    strmap::law_put_lookup(short, profile, p2, profile);
}

} // verus!
