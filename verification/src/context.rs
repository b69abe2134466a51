//! Everything that the input method works on.

use vstd::prelude::*;
use crate::action::{Command, ModifierState};
use crate::config::Config;
use crate::config_manager::{ConfigManager, Store};
use crate::engine::{EngineView, Scheme, SearchEngine};
use crate::keys::VirtualKey;
use crate::session::{InputSession, Session};
use crate::session_state::{Lasting, SessionState};
use crate::strmap;
use crate::strmap::StrMap;
use crate::tables::{FreqTable, WordSet};
use crate::text;
use crate::text::to_lower;

verus! {

/// What a key types, and the punctuation mark that it stands for.
#[derive(Debug, Clone, Copy, PartialEq, Eq, Structural)]
pub struct KeyRow {
    pub key: VirtualKey,
    pub plain: Option<char>,
    pub shifted: Option<char>,
    /// Whether caps lock exchanges the two.
    pub caps: bool,
    pub mark: Option<char>,
    pub shifted_mark: Option<char>,
}

/// What the keys type.
pub struct KeyTable {
    pub rows: Vec<KeyRow>,
}

impl View for KeyTable {
    type V = Seq<KeyRow>;

    open spec fn view(&self) -> Seq<KeyRow> {
        self.rows@
    }
}

/// The row of a key, from a place on.
pub open spec fn row_of(t: Seq<KeyRow>, key: VirtualKey, i: int) -> Option<KeyRow>
    decreases t.len() - i,
{
    if i < 0 || i >= t.len() {
        None
    } else if t[i].key == key {
        Some(t[i])
    } else {
        row_of(t, key, i + 1)
    }
}

/// The character that a key types.
pub open spec fn typed(t: Seq<KeyRow>, key: VirtualKey, shift: bool, caps: bool) -> Option<char> {
    match row_of(t, key, 0) {
        Some(r) => if shift != (caps && r.caps) {
            r.shifted
        } else {
            r.plain
        },
        None => None,
    }
}

/// The punctuation mark that a key stands for.
pub open spec fn mark_of(t: Seq<KeyRow>, key: VirtualKey, shift: bool) -> Option<char> {
    match row_of(t, key, 0) {
        Some(r) => if shift {
            r.shifted_mark
        } else {
            r.mark
        },
        None => None,
    }
}

impl KeyTable {
    /// The row of a key.
    fn find(&self, key: VirtualKey) -> (r: Option<KeyRow>)
        ensures
            r == row_of(self@, key, 0),
    {
        let mut i: usize = 0;
        while i < self.rows.len()
            invariant
                i <= self.rows.len(),
                row_of(self@, key, 0) == row_of(self@, key, i as int),
            decreases self.rows.len() - i,
        {
            if self.rows[i].key == key {
                return Some(self.rows[i]);
            }
            i = i + 1;
        }
        None
    }

    /// The character that a key types.
    pub fn key_to_char(&self, key: VirtualKey, shift: bool, caps: bool) -> (r: Option<char>)
        ensures
            r == typed(self@, key, shift, caps),
    {
        match self.find(key) {
            Some(row) => if shift != (caps && row.caps) {
                row.shifted
            } else {
                row.plain
            },
            None => None,
        }
    }

    /// The punctuation mark that a key stands for.
    pub fn get_punctuation_key(&self, key: VirtualKey, shift: bool) -> (r: Option<char>)
        ensures
            r == mark_of(self@, key, shift),
    {
        match self.find(key) {
            Some(row) => if shift {
                row.shifted_mark
            } else {
                row.mark
            },
            None => None,
        }
    }
}

/// A key with what is held down beside it, and the command that it gives.
pub type KeyBinding = ((VirtualKey, ModifierState), Command);

/// The commands of keys, and the key struck last.
pub struct KeyDispatcher {
    pub key_map: Vec<KeyBinding>,
    pub last_tap_key: Option<VirtualKey>,
    pub last_tap_time: Option<u64>,
}

/// The commands of keys, and the key struck last.
pub struct Dispatch {
    pub map: Seq<KeyBinding>,
    pub tap_key: Option<VirtualKey>,
    pub tap_time: Option<u64>,
}

impl View for KeyDispatcher {
    type V = Dispatch;

    open spec fn view(&self) -> Dispatch {
        Dispatch { map: self.key_map@, tap_key: self.last_tap_key, tap_time: self.last_tap_time }
    }
}

/// The command of a key, by the first binding from a place on.
pub open spec fn command_of(m: Seq<KeyBinding>, key: VirtualKey, mods: ModifierState, i: int) -> Option<Command>
    decreases m.len() - i,
{
    if i < 0 || i >= m.len() {
        None
    } else if m[i].0 == (key, mods) {
        Some(m[i].1)
    } else {
        command_of(m, key, mods, i + 1)
    }
}

/// Nothing held down.
pub open spec fn bare() -> ModifierState {
    ModifierState { shift: false, ctrl: false, alt: false, meta: false }
}

/// The commands that keys give by themselves.
pub open spec fn default_map() -> Seq<KeyBinding> {
    seq![
        ((VirtualKey::Left, bare()), Command::PrevCandidate),
        ((VirtualKey::Right, bare()), Command::NextCandidate),
        ((VirtualKey::Up, bare()), Command::PrevPage),
        ((VirtualKey::Down, bare()), Command::NextPage),
        ((VirtualKey::PageUp, bare()), Command::PrevPage),
        ((VirtualKey::PageDown, bare()), Command::NextPage),
        ((VirtualKey::Space, bare()), Command::Commit),
        ((VirtualKey::Enter, bare()), Command::CommitRaw),
        ((VirtualKey::Esc, bare()), Command::Clear),
        ((VirtualKey::Delete, bare()), Command::Clear),
    ]
}

impl KeyDispatcher {
    /// No commands, no key struck.
    pub fn new() -> (r: Self)
        ensures
            r@ == (Dispatch { map: Seq::empty(), tap_key: None, tap_time: None }),
    {
        KeyDispatcher { key_map: Vec::new(), last_tap_key: None, last_tap_time: None }
    }

    /// The command of a key.
    pub fn command(&self, key: VirtualKey, mods: ModifierState) -> (r: Option<Command>)
        ensures
            r == command_of(self@.map, key, mods, 0),
    {
        let mut i: usize = 0;
        while i < self.key_map.len()
            invariant
                i <= self.key_map.len(),
                command_of(self@.map, key, mods, 0) == command_of(self@.map, key, mods, i as int),
            decreases self.key_map.len() - i,
        {
            let b = self.key_map[i];
            if b.0.0 == key && b.0.1 == mods {
                return Some(b.1);
            }
            i = i + 1;
        }
        None
    }
}

impl KeyDispatcher {
    /// Gives the keys the commands that they give by themselves.
    fn setup_default_keymap(&mut self)
        ensures
            final(self)@ == (Dispatch { map: default_map(), ..old(self)@ }),
    {
        let none = ModifierState { shift: false, ctrl: false, alt: false, meta: false };
        let mut m: Vec<KeyBinding> = Vec::new();
        m.push(((VirtualKey::Left, none), Command::PrevCandidate));
        m.push(((VirtualKey::Right, none), Command::NextCandidate));
        m.push(((VirtualKey::Up, none), Command::PrevPage));
        m.push(((VirtualKey::Down, none), Command::NextPage));
        m.push(((VirtualKey::PageUp, none), Command::PrevPage));
        m.push(((VirtualKey::PageDown, none), Command::NextPage));
        m.push(((VirtualKey::Space, none), Command::Commit));
        m.push(((VirtualKey::Enter, none), Command::CommitRaw));
        m.push(((VirtualKey::Esc, none), Command::Clear));
        m.push(((VirtualKey::Delete, none), Command::Clear));
        proof {
            assert(m@ =~= default_map());
        }
        self.key_map = m;
    }
}

/// Takes other profiles.
fn set_profiles(s: &mut SessionState, profiles: Vec<String>)
    ensures
        final(s)@ == (Lasting { profiles: text::texts(profiles@), ..old(s)@ }),
{
    s.active_profiles = profiles;
}

/// Everything that the input method works on.
pub struct EngineContext {
    pub session: InputSession,
    pub session_state: SessionState,
    pub config: ConfigManager,
    pub engine: SearchEngine,
    pub syllables: WordSet,
    pub dispatcher: KeyDispatcher,
    pub key_table: KeyTable,
    /// What strokes typed as digits are shown as, by what was typed. How they are encoded is not
    /// for the library to say: callers fill this.
    pub stroke_codes: StrMap<String>,
    pub pending_key_buffer: String,
    pub last_key_time: u64,
}

/// Everything that the input method works on, as texts.
pub struct World {
    pub session: Session,
    pub state: Lasting,
    pub store: Store,
    pub engine: EngineView,
    pub syllables: Set<Seq<char>>,
    pub dispatch: Dispatch,
    pub table: Seq<KeyRow>,
    pub codes: Seq<(Seq<char>, Seq<char>)>,
    pub pending: Seq<char>,
    pub last_key_time: u64,
}

impl View for EngineContext {
    type V = World;

    open spec fn view(&self) -> World {
        World {
            session: self.session@,
            state: self.session_state@,
            store: self.config@,
            engine: self.engine@,
            syllables: self.syllables@,
            dispatch: self.dispatcher@,
            table: self.key_table@,
            codes: self.stroke_codes@,
            pending: self.pending_key_buffer@,
            last_key_time: self.last_key_time,
        }
    }
}

/// Whether a profile has a dictionary.
pub open spec fn has_dictionary(profiles: Set<Seq<char>>) -> spec_fn(Seq<char>) -> bool {
    |p: Seq<char>| profiles.contains(p)
}

/// The enabled profiles in small letters that have a dictionary.
#[verifier::opaque]
pub open spec fn enabled_profiles(c: Config, profiles: Set<Seq<char>>) -> Seq<Seq<char>> {
    text::texts(c.input.enabled_profiles@).map_values(|p: Seq<char>| text::lowercase(p)).filter(
        has_dictionary(profiles),
    )
}

/// The profiles that are active under settings: the default one if it has a dictionary, else
/// the first enabled one that has. Where none is enabled it is the Chinese one.
#[verifier::opaque]
pub open spec fn profiles_under(c: Config, profiles: Set<Seq<char>>, now: Seq<Seq<char>>) -> Seq<
    Seq<char>,
> {
    let chosen = text::lowercase(c.input.default_profile@);
    let enabled = enabled_profiles(c, profiles);
    if chosen.len() > 0 && profiles.contains(chosen) {
        seq![chosen]
    } else if c.input.enabled_profiles@.len() == 0 {
        seq!["chinese"@]
    } else if enabled.len() > 0 {
        seq![enabled[0]]
    } else {
        now
    }
}

impl World {
    /// With nothing being composed and the history forgotten.
    pub open spec fn after_reset(self) -> World {
        World {
            session: self.session.after_reset(),
            state: Lasting { history: Seq::empty(), ..self.state },
            ..self
        }
    }

    /// Under other settings.
    pub open spec fn under(self, conf: Config) -> World {
        World {
            store: Store { config: conf, ..self.store },
            engine: EngineView { stale: true, ..self.engine },
            state: Lasting {
                profiles: profiles_under(conf, self.engine.profiles, self.state.profiles),
                ..self.state
            },
            dispatch: Dispatch { map: default_map(), ..self.dispatch },
            ..self
        }
    }
}

/// What is to be loaded after settings have changed.
pub struct Applied {
    /// Whether the user's words are to be loaded.
    pub load_user_dicts: bool,
    /// The profiles whose dictionaries are to be loaded ahead.
    pub prewarm: Vec<String>,
}

/// A list of one text.
pub(crate) fn one_text(s: String) -> (r: Vec<String>)
    ensures
        text::texts(r@) == seq![s@],
{
    let mut v: Vec<String> = Vec::new();
    v.push(s);
    proof {
        assert(text::texts(v@) =~= seq![s@]);
    }
    v
}

/// A copy of some texts.
pub(crate) fn copy_texts(v: &Vec<String>) -> (r: Vec<String>)
    ensures
        text::texts(r@) == text::texts(v@),
{
    let ghost s = text::texts(v@);
    let mut out: Vec<String> = Vec::new();
    let mut i: usize = 0;
    proof {
        assert(text::texts(out@) =~= s.take(0));
    }
    while i < v.len()
        invariant
            i <= v.len(),
            s == text::texts(v@),
            text::texts(out@) == s.take(i as int),
        decreases v.len() - i,
    {
        let ghost was = text::texts(out@);
        let w = v[i].clone();
        out.push(w);
        proof {
            assert(text::texts(out@) =~= was.push(w@));
            assert(s.take(i + 1) =~= s.take(i as int).push(s[i as int]));
        }
        i = i + 1;
    }
    proof {
        assert(s.take(s.len() as int) =~= s);
    }
    out
}

/// The schemes, by the profiles that use them: the Chinese one, and those that are handed in.
pub open spec fn default_registry(others: Seq<(Seq<char>, Scheme)>) -> Seq<(Seq<char>, Scheme)> {
    strmap::put(others, "chinese"@, Scheme::Chinese)
}

impl EngineContext {
    /// Everything at the start, without dictionaries.
    pub fn new(
        profiles: WordSet,
        syllables: WordSet,
        syllable_freq: FreqTable,
        syllable_score: FreqTable,
        base_syllables: WordSet,
        single_syllables: WordSet,
        other_schemes: StrMap<Scheme>,
        config: Config,
        key_table: KeyTable,
        now: u64,
        phantom_unsupported: bool,
    ) -> (r: Self)
        ensures
            r@ == (World {
                session: crate::session::blank(),
                state: Lasting::fresh(now),
                store: Store::fresh(config, now, phantom_unsupported),
                engine: EngineView {
                    profiles: profiles@,
                    tries: Seq::empty(),
                    freq: syllable_freq@,
                    scores: syllable_score@,
                    base: base_syllables@,
                    singles: single_syllables@,
                    schemes: default_registry(other_schemes@),
                    stale: true,
                },
                syllables: syllables@,
                dispatch: Dispatch { map: Seq::empty(), tap_key: None, tap_time: None },
                table: key_table@,
                codes: Seq::empty(),
                pending: Seq::empty(),
                last_key_time: now,
            }),
    {
        let engine = SearchEngine::new(
            profiles,
            syllable_freq,
            syllable_score,
            base_syllables,
            single_syllables,
            Self::default_schemes(other_schemes),
        );
        Self::new_with_engine(engine, syllables, config, key_table, now, phantom_unsupported)
    }

    /// Everything at the start, with an engine.
    pub fn new_with_engine(
        engine: SearchEngine,
        syllables: WordSet,
        config: Config,
        key_table: KeyTable,
        now: u64,
        phantom_unsupported: bool,
    ) -> (r: Self)
        ensures
            r@ == (World {
                session: crate::session::blank(),
                state: Lasting::fresh(now),
                store: Store::fresh(config, now, phantom_unsupported),
                engine: engine@,
                syllables: syllables@,
                dispatch: Dispatch { map: Seq::empty(), tap_key: None, tap_time: None },
                table: key_table@,
                codes: Seq::empty(),
                pending: Seq::empty(),
                last_key_time: now,
            }),
    {
        EngineContext {
            session: InputSession::new(),
            session_state: SessionState::new(now),
            config: ConfigManager::new(config, now, phantom_unsupported),
            engine,
            syllables,
            dispatcher: KeyDispatcher::new(),
            key_table,
            stroke_codes: StrMap::new(),
            pending_key_buffer: String::new(),
            last_key_time: now,
        }
    }

    /// The schemes, by the profiles that use them: the Chinese one, and those that are handed in.
    pub fn default_schemes(others: StrMap<Scheme>) -> (r: StrMap<Scheme>)
        ensures
            r@ == default_registry(others@),
    {
        let mut m = others;
        m.insert("chinese".to_owned(), Scheme::Chinese);
        m
    }

    /// Forgets what was being composed, and the history.
    pub fn reset(&mut self)
        ensures
            final(self)@ == old(self)@.after_reset(),
    {
        self.session.reset();
        self.session_state.clear_history();
    }

    /// The enabled profiles in small letters that have a dictionary.
    fn find_enabled(&self, conf: &Config) -> (r: Vec<String>)
        ensures
            text::texts(r@) == enabled_profiles(*conf, self@.engine.profiles),
    {
        let ghost profiles = self@.engine.profiles;
        let ghost s = text::texts(conf.input.enabled_profiles@).map_values(
            |p: Seq<char>| text::lowercase(p),
        );
        let v = &conf.input.enabled_profiles;
        let mut out: Vec<String> = Vec::new();
        let mut i: usize = 0;
        proof {
            reveal(enabled_profiles);
            reveal(Seq::filter);
            assert(text::texts(out@) =~= s.take(0).filter(has_dictionary(profiles)));
        }
        while i < v.len()
            invariant
                i <= v.len(),
                v@ == conf.input.enabled_profiles@,
                profiles == self@.engine.profiles,
                s == text::texts(conf.input.enabled_profiles@).map_values(
                    |p: Seq<char>| text::lowercase(p),
                ),
                text::texts(out@) == s.take(i as int).filter(has_dictionary(profiles)),
            decreases v.len() - i,
        {
            let ghost was = text::texts(out@);
            let p = to_lower(v[i].as_str());
            proof {
                reveal(Seq::filter);
                assert(s.take(i + 1).drop_last() =~= s.take(i as int));
                assert(s.take(i + 1).last() == p@);
            }
            if self.engine.profiles.contains(p.as_str()) {
                out.push(p);
                proof {
                    assert(text::texts(out@) =~= was.push(p@));
                }
            }
            i = i + 1;
        }
        proof {
            assert(s.take(s.len() as int) =~= s);
        }
        out
    }

    /// Takes other settings, and says what is to be loaded then.
    pub fn apply_config(&mut self, conf: Config) -> (r: Applied)
        ensures
            final(self)@ == old(self)@.under(conf),
            r.load_user_dicts == ((conf.input.enable_word_discovery
                || conf.input.enable_auto_reorder) && old(self)@.store.learned.len() == 0),
            text::texts(r.prewarm@) == enabled_profiles(conf, old(self)@.engine.profiles),
    {
        let enabled = self.find_enabled(&conf);
        let profiles = self.choose_profiles(&conf, &enabled);
        let load_user_dicts = self.config.apply_config(conf);
        self.engine.clear_cache();
        set_profiles(&mut self.session_state, profiles);
        self.dispatcher.setup_default_keymap();
        Applied { load_user_dicts, prewarm: enabled }
    }

    /// The profiles that are active under settings.
    fn choose_profiles(&self, conf: &Config, enabled: &Vec<String>) -> (r: Vec<String>)
        requires
            text::texts(enabled@) == enabled_profiles(*conf, self@.engine.profiles),
        ensures
            text::texts(r@) == profiles_under(
                *conf,
                self@.engine.profiles,
                self@.state.profiles,
            ),
    {
        proof {
            reveal(profiles_under);
        }
        let chosen = to_lower(conf.input.default_profile.as_str());
        if !crate::session::is_blank(chosen.as_str()) && self.engine.profiles.contains(
            chosen.as_str(),
        ) {
            one_text(chosen)
        } else if conf.input.enabled_profiles.len() == 0 {
            one_text("chinese".to_owned())
        } else if enabled.len() > 0 {
            proof {
                assert(text::texts(enabled@)[0] == enabled@[0]@);
            }
            one_text(enabled[0].clone())
        } else {
            copy_texts(&self.session_state.active_profiles)
        }
    }
}

} // verus!
