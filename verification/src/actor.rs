//! What is shown of the processor, and what is asked of it from outside.

use vstd::prelude::*;
use crate::action;
use crate::action::{Act, Action};
use crate::candidate::{Cand, Candidate};
use crate::compositor;
use crate::compositor::Compositor;
use crate::config::Config;
use crate::context;
use crate::context::{copy_texts, Applied, EngineContext, World};
use crate::engine::EngineView;
use crate::handlers::{Rep, Reply};
use crate::hotkeys;
use crate::keys::VirtualKey;
use crate::lookup;
use crate::lookup::MAX_LOOKUP_LIMIT;
use crate::pressing::{KeyDecision, KeyEvent};
use crate::processor;
use crate::processor::Processor;
use crate::session::is_blank;
use crate::session_state::{Lasting, SessionState};
use crate::text;
use crate::text::{char_string, same_text, split_at_any, trim};
use crate::trie;

verus! {

/// What is shown of a candidate.
pub struct CandidateInfo {
    pub text: String,
    pub label: String,
    pub hint: String,
    pub is_fuzzy: bool,
}

/// What is shown of a candidate, as texts.
pub struct Info {
    pub text: Seq<char>,
    pub label: Seq<char>,
    pub hint: Seq<char>,
    pub is_fuzzy: bool,
}

impl View for CandidateInfo {
    type V = Info;

    open spec fn view(&self) -> Info {
        Info {
            text: self.text@,
            label: self.label@,
            hint: self.hint@,
            is_fuzzy: self.is_fuzzy,
        }
    }
}

/// What the candidate window shows.
pub struct GuiSnapshot {
    pub pinyin: String,
    pub candidates: Vec<CandidateInfo>,
    pub selected: usize,
    pub page: usize,
    pub total_pages: usize,
    pub sentence: String,
    pub cursor_pos: usize,
    pub commit_mode: String,
    pub chinese_enabled: bool,
    pub short_display: String,
    pub active_profile: String,
}

/// What the tray shows.
pub struct TraySnapshot {
    pub chinese_enabled: bool,
    pub ime_enabled: bool,
    pub short_display: String,
    pub commit_mode: String,
    pub active_profile: String,
    pub enabled_profiles: Vec<String>,
}

/// What the host is told.
pub struct BasicStatus {
    pub chinese_enabled: bool,
    pub ime_enabled: bool,
    pub short_display: String,
    pub active_profile: String,
}

/// A digit.
pub open spec fn digit(d: nat) -> char {
    (d + 48) as char
}

/// A number in digits.
pub open spec fn decimal(n: nat) -> Seq<char>
    decreases n,
{
    if n < 10 {
        seq![digit(n)]
    } else {
        decimal(n / 10).push(digit(n % 10))
    }
}

/// A number in digits.
fn to_decimal(n: usize) -> (r: String)
    ensures
        r@ == decimal(n as nat),
    decreases n,
{
    let d = (n % 10) as u8 + 48u8;
    let c = d as char;
    if n < 10 {
        let s = char_string(c);
        proof {
            assert(s@ =~= seq![digit(n as nat)]);
        }
        s
    } else {
        let mut s = to_decimal(n / 10);
        s.push(c);
        s
    }
}

/// What is shown of the candidate at a place of the page.
pub open spec fn info_of(c: Cand, at: int) -> Info {
    Info {
        text: c.text,
        label: decimal((at + 1) as nat).push('.'),
        hint: c.hint,
        is_fuzzy: c.match_level < 3 && c.source == "Table (Fuzzy)"@,
    }
}

/// What is shown of candidates.
pub open spec fn infos_of(s: Seq<Cand>) -> Seq<Info> {
    Seq::new(s.len(), |i: int| info_of(s[i], i))
}

/// What is shown of candidates.
pub open spec fn infos(v: Seq<CandidateInfo>) -> Seq<Info> {
    v.map_values(|c: CandidateInfo| c@)
}

/// The first candidate that is shown.
pub open spec fn shown_from(w: World) -> int {
    trie::least(w.session.page, w.session.candidates.len() as int)
}

/// The candidates that are shown: those of the page.
pub open spec fn shown(w: World) -> Seq<Cand> {
    let n = w.session.candidates.len() as int;
    w.session.candidates.subrange(
        shown_from(w),
        trie::least(shown_from(w) + w.store.config.appearance.page_size, n),
    )
}

/// How many pages so many candidates fill.
pub open spec fn pages(n: int, size: int) -> int {
    if n % size == 0 {
        n / size
    } else {
        n / size + 1
    }
}

impl GuiSnapshot {
    /// Whether this is what the candidate window shows.
    pub open spec fn shows(self, w: World) -> bool {
        let size = w.store.config.appearance.page_size as int;
        &&& self.pinyin@ == compositor::preedit(w)
        &&& infos(self.candidates@) == infos_of(shown(w))
        &&& self.selected == trie::most(0, w.session.selected - shown_from(w))
        &&& self.page == shown_from(w) / size
        &&& self.total_pages == pages(w.session.candidates.len() as int, size)
        &&& self.sentence@ == w.session.joined_sentence
        &&& self.cursor_pos == w.session.cursor_pos
        &&& self.commit_mode@ == w.store.config.input.commit_mode@
        &&& self.chinese_enabled == w.state.chinese_enabled
        &&& self.short_display@ == hotkeys::sign_of(hotkeys::profile_shown(w.state))
        &&& self.active_profile@ == hotkeys::profile_shown(w.state)
    }
}

impl BasicStatus {
    /// Whether this is what the host is told.
    pub open spec fn shows(self, w: World) -> bool {
        &&& self.chinese_enabled == w.state.chinese_enabled
        &&& self.ime_enabled == w.state.ime_enabled
        &&& self.short_display@ == hotkeys::sign_of(hotkeys::profile_shown(w.state))
        &&& self.active_profile@ == hotkeys::profile_shown(w.state)
    }
}

impl TraySnapshot {
    /// Whether this is what the tray shows.
    pub open spec fn shows(self, w: World) -> bool {
        &&& self.chinese_enabled == w.state.chinese_enabled
        &&& self.ime_enabled == w.state.ime_enabled
        &&& self.short_display@ == hotkeys::sign_of(hotkeys::profile_shown(w.state))
        &&& self.commit_mode@ == w.store.config.input.commit_mode@
        &&& self.active_profile@ == hotkeys::profile_shown(w.state)
        &&& text::texts(self.enabled_profiles@) == text::texts(
            w.store.config.input.enabled_profiles@,
        )
    }
}

/// What is shown of the candidate at a place of the page.
fn build_info(c: &Candidate, at: usize) -> (r: CandidateInfo)
    requires
        at < usize::MAX,
    ensures
        r@ == info_of(c@, at as int),
{
    let mut label = to_decimal(at + 1);
    label.push('.');
    CandidateInfo {
        text: c.text.clone(),
        label,
        hint: c.hint.clone(),
        is_fuzzy: c.match_level < 3 && same_text(c.source.as_str(), "Table (Fuzzy)"),
    }
}

/// What the actor works on.
pub struct ProcessorActor {
    pub processor: Processor,
}

impl ProcessorActor {
    /// An actor for a processor.
    pub fn new(processor: Processor) -> (r: Self)
        ensures
            r.processor == processor,
    {
        ProcessorActor { processor }
    }

    /// What is shown of the candidates from one place to another.
    fn build_candidate_infos(&self, start: usize, end: usize) -> (r: Vec<CandidateInfo>)
        requires
            start <= end <= self.processor@.session.candidates.len(),
        ensures
            infos(r@) == infos_of(
                self.processor@.session.candidates.subrange(start as int, end as int),
            ),
    {
        let v = &self.processor.ctx.session.candidates;
        let ghost s = self.processor@.session.candidates.subrange(start as int, end as int);
        let mut out: Vec<CandidateInfo> = Vec::new();
        let mut i: usize = start;
        proof {
            assert(infos(out@) =~= infos_of(s).take(0));
            assert(v@.len() == self.processor@.session.candidates.len());
        }
        while i < end
            invariant
                start <= i <= end,
                end <= v.len(),
                s == crate::candidate::cands(v@).subrange(start as int, end as int),
                infos(out@) == infos_of(s).take(i - start),
            decreases end - i,
        {
            let ghost was = infos(out@);
            let c = build_info(&v[i], i - start);
            out.push(c);
            proof {
                assert(s[i - start] == v@[i as int]@);
                assert(infos(out@) =~= was.push(c@));
                assert(infos_of(s).take(i + 1 - start) =~= infos_of(s).take(i - start).push(
                    infos_of(s)[i - start],
                ));
            }
            i = i + 1;
        }
        proof {
            assert(infos_of(s).take(end - start) =~= infos_of(s));
        }
        out
    }

    /// What the candidate window shows.
    pub fn build_gui_snapshot(&self) -> (r: GuiSnapshot)
        requires
            self.processor@.store.config.appearance.page_size > 0,
        ensures
            r.shows(self.processor@),
    {
        let ctx = &self.processor.ctx;
        let n = ctx.session.candidates.len();
        let size = ctx.config.page_size();
        let start = if ctx.session.page < n {
            ctx.session.page
        } else {
            n
        };
        let end = if size < n - start {
            start + size
        } else {
            n
        };
        let selected = if ctx.session.selected > start {
            ctx.session.selected - start
        } else {
            0
        };
        let full = n / size;
        let total_pages = if n % size == 0 {
            full
        } else {
            proof {
                assert(full < usize::MAX) by (nonlinear_arith)
                    requires
                        n <= usize::MAX,
                        size > 0,
                        full == n / size,
                        n % size != 0,
                ;
            }
            full + 1
        };
        GuiSnapshot {
            pinyin: Compositor::get_preedit(ctx),
            candidates: self.build_candidate_infos(start, end),
            selected,
            page: start / size,
            total_pages,
            sentence: ctx.session.joined_sentence.clone(),
            cursor_pos: ctx.session.cursor_pos,
            commit_mode: ctx.config.commit_mode().to_owned(),
            chinese_enabled: ctx.session_state.chinese_enabled,
            short_display: self.processor.get_short_display(),
            active_profile: self.processor.get_current_profile_display(),
        }
    }

    /// What the host is told.
    pub fn build_basic_status(&self) -> (r: BasicStatus)
        ensures
            r.shows(self.processor@),
    {
        BasicStatus {
            chinese_enabled: self.processor.ctx.session_state.chinese_enabled,
            ime_enabled: self.processor.ctx.session_state.ime_enabled,
            short_display: self.processor.get_short_display(),
            active_profile: self.processor.get_current_profile_display(),
        }
    }

    /// What the tray shows.
    pub fn build_tray_snapshot(&self) -> (r: TraySnapshot)
        ensures
            r.shows(self.processor@),
    {
        let ctx = &self.processor.ctx;
        TraySnapshot {
            chinese_enabled: ctx.session_state.chinese_enabled,
            ime_enabled: ctx.session_state.ime_enabled,
            short_display: self.processor.get_short_display(),
            commit_mode: ctx.config.commit_mode().to_owned(),
            active_profile: self.processor.get_current_profile_display(),
            enabled_profiles: copy_texts(&ctx.config.master_config.get().input.enabled_profiles),
        }
    }
}

/// The session once a search has ended: without any candidate the letters themselves are one.
pub open spec fn search_ended(w: World) -> World {
    let s = w.session;
    World {
        session: (crate::session::Session {
            candidates: if s.candidates.len() == 0 {
                seq![lookup::raw(s.buffer, "Raw"@, 0, 0)]
            } else {
                s.candidates
            },
            ..s
        }).state_updated(),
        ..w
    }
}

/// What is done once a search has ended: the first candidate is put out where it is put out at
/// once, or else what is shown is brought up to date.
#[verifier::opaque]
pub open spec fn after_search(w: World, now: u64) -> (World, Option<Act>) {
    match compositor::auto_committed(w, now) {
        (w1, Some(a)) => (w1, Some(a)),
        (w1, None) => match compositor::phantom_updated(w1) {
            (w2, Act::Consume) => (w2, None),
            (w2, a) => (w2, Some(a)),
        },
    }
}

/// Everything once what was typed has been searched for, and what is done.
#[verifier::opaque]
pub open spec fn searched(w: World, now: u64) -> (World, Option<Act>) {
    if w.session.buffer.len() == 0 {
        (w, None)
    } else {
        after_search(search_ended(lookup::found(w, MAX_LOOKUP_LIMIT as int)), now)
    }
}

/// Ends a search.
fn end_search(ctx: &mut EngineContext, now: u64) -> (r: Option<Action>)
    ensures
        (final(ctx)@, action::opt_act(r)) == after_search(old(ctx)@, now),
{
    proof {
        reveal(after_search);
    }
    if let Some(a) = Compositor::check_auto_commit(ctx, now) {
        return Some(a);
    }
    match Compositor::update_phantom_action(ctx) {
        Action::Consume => None,
        a => Some(a),
    }
}

/// Searches for what was typed.
fn search(ctx: &mut EngineContext, now: u64) -> (r: Option<Action>)
    ensures
        (final(ctx)@, action::opt_act(r)) == searched(old(ctx)@, now),
{
    proof {
        reveal(searched);
    }
    if is_blank(ctx.session.buffer.as_str()) {
        return None;
    }
    lookup::find(ctx, MAX_LOOKUP_LIMIT);
    let fallback = lookup::show_raw(ctx.session.buffer.as_str(), "Raw", 0, 0);
    lookup::settle(&mut ctx.session, fallback);
    end_search(ctx, now)
}

/// The profiles among names parted by commas that have a dictionary.
pub open spec fn known_profiles(names: Seq<char>, profiles: Set<Seq<char>>) -> Seq<Seq<char>> {
    text::fields(names, seq![',']).map_values(|s: Seq<char>| text::trimmed(s)).filter(
        context::has_dictionary(profiles),
    )
}

/// The profiles among names parted by commas that have a dictionary.
fn find_profiles(ctx: &EngineContext, names: &str) -> (r: Vec<String>)
    ensures
        text::texts(r@) == known_profiles(names@, ctx@.engine.profiles),
{
    let seps = [','];
    let v = split_at_any(names, seps.as_slice());
    let ghost f = context::has_dictionary(ctx@.engine.profiles);
    let ghost g = |s: Seq<char>| text::trimmed(s);
    let ghost s = text::texts(v@).map_values(g);
    proof {
        assert(seps@ =~= seq![',']);
    }
    let mut out: Vec<String> = Vec::new();
    let mut i: usize = 0;
    proof {
        reveal(Seq::filter);
        assert(text::texts(out@) =~= s.take(0).filter(f));
    }
    while i < v.len()
        invariant
            i <= v.len(),
            f == context::has_dictionary(ctx@.engine.profiles),
            g == (|s: Seq<char>| text::trimmed(s)),
            s == text::texts(v@).map_values(g),
            text::texts(out@) == s.take(i as int).filter(f),
        decreases v.len() - i,
    {
        let ghost was = text::texts(out@);
        let p = trim(v[i].as_str());
        proof {
            reveal(Seq::filter);
            assert(s.take(i + 1).drop_last() =~= s.take(i as int));
            assert(s.take(i + 1).last() == p@);
        }
        if ctx.engine.profiles.contains(p.as_str()) {
            out.push(p);
            proof {
                assert(text::texts(out@) =~= was.push(p@));
            }
        }
        i = i + 1;
    }
    proof {
        assert(s.take(s.len() as int) =~= s);
    }
    out
}

/// Takes profiles, with the history forgotten.
fn take_profiles(s: &mut SessionState, profiles: Vec<String>)
    ensures
        final(s)@ == (Lasting {
            profiles: text::texts(profiles@),
            history: Seq::empty(),
            ..old(s)@
        }),
{
    s.active_profiles = profiles;
    s.clear_history();
}

/// Whether the profiles among names parted by commas that have a dictionary were taken, with the
/// names kept as the profile at the start. Where there is none, nothing changes.
pub open spec fn profile_set(w: World, names: Seq<char>, v: World) -> bool {
    let p = known_profiles(names, w.engine.profiles);
    if p.len() == 0 {
        v == w
    } else {
        &&& v.store.config.input.default_profile@ == names
        &&& crate::config::alike_but_profile(v.store.config, w.store.config)
        &&& v == (World {
            session: w.session.after_reset(),
            state: Lasting { profiles: p, history: Seq::empty(), ..w.state },
            store: crate::config_manager::Store { config: v.store.config, ..w.store },
            ..w
        })
    }
}

impl ProcessorActor {
    /// Searches for what was typed.
    pub fn run_search(&mut self, now: u64) -> (r: Option<Action>)
        ensures
            (final(self).processor@, action::opt_act(r)) == searched(old(self).processor@, now),
    {
        search(&mut self.processor.ctx, now)
    }

    /// Takes the profiles among names parted by commas that have a dictionary, and keeps the
    /// names as the profile at the start. Says whether there is one; the settings are to be
    /// saved then.
    pub fn set_profile(&mut self, profile: &str) -> (r: bool)
        ensures
            r == (known_profiles(profile@, old(self).processor@.engine.profiles).len() > 0),
            profile_set(old(self).processor@, profile@, final(self).processor@),
    {
        let p = find_profiles(&self.processor.ctx, profile);
        proof {
            assert(text::texts(p@).len() == p@.len());
        }
        if p.len() == 0 {
            return false;
        }
        let ctx = &mut self.processor.ctx;
        take_profiles(&mut ctx.session_state, p);
        ctx.config.set_default_profile(profile.to_owned());
        ctx.session.reset();
        true
    }
}

/// What an actor is asked to do. What the state machine and the others decide of a key comes with
/// it.
pub enum ProcessorMsg {
    HandleKey {
        key: VirtualKey,
        val: i32,
        shift: bool,
        ctrl: bool,
        alt: bool,
        perform_lookup: bool,
        decision: KeyDecision,
    },
    HandleKeySync {
        key: VirtualKey,
        val: i32,
        shift: bool,
        ctrl: bool,
        alt: bool,
        decision: KeyDecision,
    },
    Toggle,
    NextProfile,
    SetProfile { profile: String },
    ApplyConfig { config: Config },
    ReloadTries,
    Reset,
    PerformSearch,
    GetGuiSnapshot,
    GetBasicStatus,
    GetConfig,
    Exit,
}

/// What an actor answers.
pub enum Answer {
    Key(Reply),
    /// What a key does, and what is shown then. Without any room on a page there is no window.
    KeyShown(Action, Option<GuiSnapshot>, BasicStatus),
    Tray(TraySnapshot),
    Profile(Option<TraySnapshot>),
    Applied(Applied),
    Done,
    Searched(Option<Action>),
    Gui(Option<GuiSnapshot>),
    Status(BasicStatus),
    /// The settings are to be read off the processor.
    Settings,
    Exit,
}

/// Whether this is the candidate window, where there is room for one.
pub open spec fn window(g: Option<GuiSnapshot>, w: World) -> bool {
    &&& g is Some <==> w.store.config.appearance.page_size > 0
    &&& g matches Some(x) ==> x.shows(w)
}

/// Whether a message is answered so, and leaves everything so.
pub open spec fn answered(w: World, m: ProcessorMsg, now: u64, v: World, a: Answer) -> bool {
    match m {
        ProcessorMsg::HandleKey { key, val, shift, ctrl, alt, perform_lookup, decision } => {
            &&& a is Key
            &&& (v, a->Key_0@) == processor::handled(
                w,
                KeyEvent { key, val, shift, ctrl, alt, perform_lookup, now },
                decision@,
            )
        },
        ProcessorMsg::HandleKeySync { key, val, shift, ctrl, alt, decision } => {
            let (u, r) = processor::handled(
                w,
                KeyEvent { key, val, shift, ctrl, alt, perform_lookup: true, now },
                decision@,
            );
            &&& v == u
            &&& match r {
                Rep::Done(x) => a matches Answer::KeyShown(y, g, b) && y@ == x && window(g, v)
                    && b.shows(v),
                Rep::Punctuation => a matches Answer::Key(y) && y@ == r,
            }
        },
        ProcessorMsg::Toggle => {
            &&& v == processor::toggled(w).0
            &&& a matches Answer::Tray(t) && t.shows(v)
        },
        ProcessorMsg::NextProfile => {
            &&& v == processor::next_in_turn(w).0
            &&& a matches Answer::Tray(t) && t.shows(v)
        },
        ProcessorMsg::SetProfile { profile } => {
            &&& profile_set(w, profile@, v)
            &&& a is Profile
            &&& a->Profile_0 is Some <==> known_profiles(profile@, w.engine.profiles).len() > 0
            &&& a->Profile_0 matches Some(t) ==> t.shows(v)
        },
        ProcessorMsg::ApplyConfig { config } => {
            &&& v == w.under(config)
            &&& a is Applied
            &&& a->Applied_0.load_user_dicts == ((config.input.enable_word_discovery
                || config.input.enable_auto_reorder) && w.store.learned.len() == 0)
            &&& text::texts(a->Applied_0.prewarm@) == context::enabled_profiles(
                config,
                w.engine.profiles,
            )
        },
        ProcessorMsg::ReloadTries => {
            &&& v == (World { engine: EngineView { stale: true, ..w.engine }, ..w })
            &&& a is Done
        },
        ProcessorMsg::Reset => v == w.after_reset() && a is Done,
        ProcessorMsg::PerformSearch => {
            &&& a is Searched
            &&& (v, action::opt_act(a->Searched_0)) == searched(w, now)
        },
        ProcessorMsg::GetGuiSnapshot => v == w && a is Gui && window(a->Gui_0, w),
        ProcessorMsg::GetBasicStatus => v == w && a is Status && a->Status_0.shows(w),
        ProcessorMsg::GetConfig => v == w && a is Settings,
        ProcessorMsg::Exit => v == w && a is Exit,
    }
}

/// Whether a message can be answered: a key finds room on the page where it divides by its size,
/// and cuts no character.
pub open spec fn answerable(w: World, m: ProcessorMsg, now: u64) -> bool {
    match m {
        ProcessorMsg::HandleKey { key, val, shift, ctrl, alt, perform_lookup, decision } => {
            processor::handles_whole(
                w,
                KeyEvent { key, val, shift, ctrl, alt, perform_lookup, now },
                decision@,
            )
        },
        ProcessorMsg::HandleKeySync { key, val, shift, ctrl, alt, decision } => {
            processor::handles_whole(
                w,
                KeyEvent { key, val, shift, ctrl, alt, perform_lookup: true, now },
                decision@,
            )
        },
        _ => true,
    }
}

impl ProcessorActor {
    /// The candidate window, where there is room for one.
    fn window(&self) -> (r: Option<GuiSnapshot>)
        ensures
            window(r, self.processor@),
    {
        if self.processor.ctx.config.page_size() > 0 {
            Some(self.build_gui_snapshot())
        } else {
            None
        }
    }

    /// A key, and what is shown then.
    fn handle_key_sync(
        &mut self,
        key: VirtualKey,
        val: i32,
        shift: bool,
        ctrl: bool,
        alt: bool,
        decision: KeyDecision,
        now: u64,
    ) -> (r: Answer)
        requires
            processor::handles_whole(
                old(self).processor@,
                KeyEvent { key, val, shift, ctrl, alt, perform_lookup: true, now },
                decision@,
            ),
        ensures
            answered(
                old(self).processor@,
                ProcessorMsg::HandleKeySync { key, val, shift, ctrl, alt, decision },
                now,
                final(self).processor@,
                r,
            ),
    {
        match self.processor.handle_key_ext(key, val, shift, ctrl, alt, true, decision, now) {
            Reply::Done(a) => Answer::KeyShown(a, self.window(), self.build_basic_status()),
            Reply::Punctuation => Answer::Key(Reply::Punctuation),
        }
    }

    /// Answers a message.
    pub fn handle(&mut self, msg: ProcessorMsg, now: u64) -> (r: Answer)
        requires
            answerable(old(self).processor@, msg, now),
        ensures
            answered(old(self).processor@, msg, now, final(self).processor@, r),
    {
        match msg {
            ProcessorMsg::HandleKey { key, val, shift, ctrl, alt, perform_lookup, decision } => {
                Answer::Key(
                    self.processor.handle_key_ext(
                        key,
                        val,
                        shift,
                        ctrl,
                        alt,
                        perform_lookup,
                        decision,
                        now,
                    ),
                )
            },
            ProcessorMsg::HandleKeySync { key, val, shift, ctrl, alt, decision } => {
                self.handle_key_sync(key, val, shift, ctrl, alt, decision, now)
            },
            ProcessorMsg::Toggle => {
                self.processor.toggle();
                Answer::Tray(self.build_tray_snapshot())
            },
            ProcessorMsg::NextProfile => {
                self.processor.next_profile();
                Answer::Tray(self.build_tray_snapshot())
            },
            ProcessorMsg::SetProfile { profile } => {
                if self.set_profile(profile.as_str()) {
                    Answer::Profile(Some(self.build_tray_snapshot()))
                } else {
                    Answer::Profile(None)
                }
            },
            ProcessorMsg::ApplyConfig { config } => Answer::Applied(
                self.processor.apply_config(config),
            ),
            ProcessorMsg::ReloadTries => {
                self.processor.ctx.engine.clear_cache();
                Answer::Done
            },
            ProcessorMsg::Reset => {
                self.processor.reset();
                Answer::Done
            },
            ProcessorMsg::PerformSearch => Answer::Searched(self.run_search(now)),
            ProcessorMsg::GetGuiSnapshot => Answer::Gui(self.window()),
            ProcessorMsg::GetBasicStatus => Answer::Status(self.build_basic_status()),
            ProcessorMsg::GetConfig => Answer::Settings,
            ProcessorMsg::Exit => Answer::Exit,
        }
    }
}

} // verus!
