//! What a key does before the state machine sees it.

use vstd::prelude::*;
use vstd::utf8::*;
use crate::action;
use crate::action::{Act, Action, ImeState, ModifierState};
use crate::commands;
use crate::commands::execute_command;
use crate::composing;
use crate::compositor;
use crate::compositor::Compositor;
use crate::config;
use crate::config_manager;
use crate::context;
use crate::context::{EngineContext, World};
use crate::hotkeys;
use crate::hotkeys::handle_capslock_profile_switch;
use crate::keys;
use crate::keys::{is_letter, VirtualKey};
use crate::lookup;
use crate::session::{is_blank, InputSession, Session, MAX_BUFFER_LEN};
use crate::session_state::{Lasting, SessionState};
use crate::strmap;
use crate::text;
use crate::text::char_string;
use crate::trie;

verus! {

/// Within how many milliseconds letters are looked up together.
pub const KEY_BATCH_DELAY_MS: u64 = 30;

/// How many candidates a key looks up.
pub const KEY_LIMIT: usize = 20;

/// A key that is pressed or released, with what is held down beside it.
#[derive(Debug, Clone, Copy, PartialEq, Eq, Structural)]
pub struct KeyEvent {
    pub key: VirtualKey,
    /// One for a press, zero for a release.
    pub val: i32,
    pub shift: bool,
    pub ctrl: bool,
    pub alt: bool,
    /// Whether what is typed is looked up at once.
    pub perform_lookup: bool,
    pub now: u64,
}

/// What is known to the state machine.
#[derive(Debug, Clone, Copy, PartialEq, Eq, Structural)]
pub struct FsmInput {
    pub key: VirtualKey,
    pub mods: ModifierState,
    pub buffer_empty: bool,
    pub has_candidates: bool,
    pub is_stroke_mode: bool,
}

/// What the state machine asks for.
#[derive(Debug, Clone, Copy, PartialEq, Eq, Structural)]
pub enum FsmEffect {
    PassThrough,
    UpdateLookup,
    CommitFirst,
    CommitRaw,
    Clear,
    Consume,
    Alert,
}

/// What has been decided about a key: an action that ends it, before the grave accent is handed
/// on or after, and where the state machine goes.
pub struct KeyDecision {
    pub intent: Option<Action>,
    pub switching: Option<Action>,
    pub next_state: ImeState,
    pub effect: FsmEffect,
}

/// What has been decided about a key, as texts.
pub struct Decided {
    pub intent: Option<Act>,
    pub switching: Option<Act>,
    pub next_state: ImeState,
    pub effect: FsmEffect,
}

impl View for KeyDecision {
    type V = Decided;

    open spec fn view(&self) -> Decided {
        Decided {
            intent: action::opt_act(self.intent),
            switching: action::opt_act(self.switching),
            next_state: self.next_state,
            effect: self.effect,
        }
    }
}

/// With a text put in.
pub open spec fn injected(s: Session, t: Seq<char>) -> Session {
    let s1 = s.pushed_text(t);
    Session {
        preview_selected_candidate: false,
        ..if s1.buffer.len() > 0 {
            s1.woken()
        } else {
            s1
        }
    }
}

/// Whether a text is cut between characters where there is no room for all of it.
pub open spec fn cut_whole(s: Session, t: Seq<char>) -> bool {
    text::on_boundary(t, trie::least(text::byte_len(t) as int, s.room()))
}

/// Whether a text is cut between characters where there is no room for all of it.
pub(crate) fn is_cut_whole(s: &InputSession, t: &str) -> (r: bool)
    ensures
        r == cut_whole(s@, t@),
{
    let used = s.buffer.as_str().as_bytes().len();
    let room: usize = if used < MAX_BUFFER_LEN {
        MAX_BUFFER_LEN - used
    } else {
        0
    };
    let len = t.as_bytes().len();
    t.is_char_boundary(
        if len < room {
            len
        } else {
            room
        },
    )
}

/// Puts a text in.
fn put_text(s: &mut InputSession, t: &str)
    requires
        cut_whole(old(s)@, t@),
    ensures
        final(s)@ == injected(old(s)@, t@),
{
    s.push_str(t);
    if s.state == ImeState::Idle && !is_blank(s.buffer.as_str()) {
        s.state = ImeState::Composing;
    }
    s.preview_selected_candidate = false;
}

/// Everything once a text has been put in and looked up, and what is done.
#[verifier::opaque]
pub open spec fn text_injected(w: World, t: Seq<char>, now: u64) -> (World, Act) {
    match lookup::looked_up(World { session: injected(w.session, t), ..w }, now) {
        (w1, Some(a)) => (w1, a),
        (w1, None) => match compositor::auto_committed(w1, now) {
            (w2, Some(a)) => (w2, a),
            (w2, None) => compositor::phantom_updated(w2),
        },
    }
}

/// Puts a text in and looks it up.
pub fn inject_text(ctx: &mut EngineContext, text: &str, now: u64) -> (r: Action)
    requires
        cut_whole(old(ctx)@.session, text@),
    ensures
        (final(ctx)@, r@) == text_injected(old(ctx)@, text@, now),
{
    proof {
        reveal(text_injected);
    }
    put_text(&mut ctx.session, text);
    if let Some(a) = lookup::lookup(ctx, now) {
        return a;
    }
    if let Some(a) = Compositor::check_auto_commit(ctx, now) {
        return a;
    }
    Compositor::update_phantom_action(ctx)
}

/// The name of a form of writing.
pub open spec fn form_name(traditional: bool) -> Seq<char> {
    if traditional {
        "繁體"@
    } else {
        "简体"@
    }
}

/// With the form of writing switched by a letter behind caps lock, which takes back what caps
/// lock did to the language.
pub open spec fn form_switched(s: Lasting) -> Lasting {
    Lasting {
        capslock_combo_active: false,
        traditional_enabled: !s.traditional_enabled,
        ..hotkeys::switched(s)
    }
}

/// Switches the form of writing.
pub(crate) fn switch_form(s: &mut SessionState) -> (r: Action)
    ensures
        final(s)@ == form_switched(old(s)@),
        r@ == Act::Notify(
            form_name(!old(s)@.traditional_enabled),
            "切換至 "@ + form_name(!old(s)@.traditional_enabled) + " 模式"@,
        ),
{
    s.capslock_combo_active = false;
    s.chinese_enabled = !s.chinese_enabled;
    s.traditional_enabled = !s.traditional_enabled;
    let name = if s.traditional_enabled {
        "繁體"
    } else {
        "简体"
    };
    let mut t = "切換至 ".to_owned();
    t.append(name);
    t.append(" 模式");
    Action::Notify(name.to_owned(), t)
}

/// What a letter completes the syllable to while caps lock is held down.
#[verifier::opaque]
pub open spec fn quick_final(w: World, key: VirtualKey) -> Option<Seq<char>> {
    if w.state.capslock_down && keys::letter_key(key) && w.store.config.enable_quick_finals {
        match context::typed(w.table, key, false, false) {
            Some(c) => strmap::lookup(
                config_manager::texts_under(
                    config_manager::final_pairs(w.store.config.quick_finals@),
                ),
                seq![c],
            ),
            None => None,
        }
    } else {
        None
    }
}

/// What a letter completes the syllable to while caps lock is held down.
pub(crate) fn find_quick_final(ctx: &EngineContext, key: VirtualKey) -> (r: Option<String>)
    ensures
        config::opt_view(r) == quick_final(ctx@, key),
{
    proof {
        reveal(quick_final);
    }
    if !(ctx.session_state.capslock_down && is_letter(key)
        && ctx.config.master_config.get().enable_quick_finals) {
        return None;
    }
    match ctx.key_table.key_to_char(key, false, false) {
        Some(c) => {
            let k = char_string(c);
            proof {
                assert(k@ =~= seq![c]);
            }
            match ctx.config.quick_finals().get(k.as_str()) {
                Some(t) => Some(t.clone()),
                None => None,
            }
        },
        None => None,
    }
}

/// Everything once a key has steered while navigating, or has ended that, and what is done.
#[verifier::opaque]
pub open spec fn steered(w: World, key: VirtualKey, now: u64) -> (World, Option<Act>) {
    if w.session.nav_mode && w.session.buffer.len() > 0 {
        match composing::steering(key) {
            Some(cmd) => {
                let (w1, a) = commands::executed(w, cmd, now);
                (w1, Some(a))
            },
            None => (World { session: Session { nav_mode: false, ..w.session }, ..w }, None),
        }
    } else {
        (w, None)
    }
}

/// Whether a key that steers while navigating finds room on the page for it.
pub open spec fn steers_whole(w: World, key: VirtualKey) -> bool {
    w.session.nav_mode && w.session.buffer.len() > 0 ==> (composing::steering(key) matches Some(
        cmd,
    ) ==> commands::has_room(w, cmd))
}

/// A key while navigating.
pub(crate) fn steer(ctx: &mut EngineContext, key: VirtualKey, now: u64) -> (r: Option<Action>)
    requires
        steers_whole(old(ctx)@, key),
    ensures
        (final(ctx)@, action::opt_act(r)) == steered(old(ctx)@, key, now),
        r is None ==> final(ctx)@ == (World {
            session: Session { nav_mode: final(ctx)@.session.nav_mode, ..old(ctx)@.session },
            ..old(ctx)@
        }),
        r is None && final(ctx)@.session.nav_mode ==> old(ctx)@.session.nav_mode,
{
    proof {
        reveal(steered);
    }
    if !ctx.session.nav_mode || is_blank(ctx.session.buffer.as_str()) {
        return None;
    }
    match composing::steer(key) {
        Some(cmd) => Some(execute_command(ctx, cmd, now)),
        None => {
            ctx.session.nav_mode = false;
            None
        },
    }
}

/// Everything once the first character of a profile has chosen it after caps lock, and what is
/// done.
#[verifier::opaque]
pub open spec fn perhaps_profile(w: World, key: VirtualKey) -> (World, Option<Act>) {
    if w.state.capslock_pending && w.session.buffer.len() == 0 && keys::letter_key(key) {
        hotkeys::profile_switched(w, key)
    } else {
        (w, None)
    }
}

/// A letter that may choose a profile.
pub(crate) fn maybe_profile(ctx: &mut EngineContext, key: VirtualKey) -> (r: Option<Action>)
    ensures
        (final(ctx)@, action::opt_act(r)) == perhaps_profile(old(ctx)@, key),
        r is None ==> final(ctx)@ == (World { state: final(ctx)@.state, ..old(ctx)@ }),
{
    proof {
        reveal(perhaps_profile);
    }
    if ctx.session_state.capslock_pending && is_blank(ctx.session.buffer.as_str()) && is_letter(
        key,
    ) {
        handle_capslock_profile_switch(ctx, key)
    } else {
        None
    }
}

} // verus!
