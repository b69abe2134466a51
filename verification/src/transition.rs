//! How the state machine goes on with a key.

use vstd::prelude::*;
use crate::action;
use crate::action::{Act, Action, Command, ImeState};
use crate::commands;
use crate::commands::{execute_command, finds_room};
use crate::composing;
use crate::composing::holds_key;
use crate::context;
use crate::context::{EngineContext, World};
use crate::editing;
use crate::editing::handle_composing;
use crate::handlers;
use crate::handlers::{handle_idle, Press, Rep, Reply};
use crate::hotkeys;
use crate::hotkeys::{handle_ctrl_punctuation, handle_global_hotkey};
use crate::keys;
use crate::keys::{is_letter, VirtualKey};
use crate::lookup;
use crate::pressing;
use crate::pressing::{find_quick_final, inject_text, maybe_profile, steer, switch_form, FsmEffect, KeyEvent, KEY_LIMIT};
use crate::session::{is_blank, InputSession, Session};
use crate::session_state::{Lasting, SessionState};

verus! {

/// Everything once a letter has switched the form of writing behind caps lock, and what is done.
#[verifier::opaque]
pub open spec fn combined(w: World, key: VirtualKey) -> (World, Option<Act>) {
    if key == VirtualKey::F && w.state.capslock_combo_active {
        let name = pressing::form_name(!w.state.traditional_enabled);
        (
            World { state: pressing::form_switched(w.state), ..w },
            Some(Act::Notify(name, "切換至 "@ + name + " 模式"@)),
        )
    } else {
        (w, None)
    }
}

/// A letter behind caps lock.
fn combine(ctx: &mut EngineContext, key: VirtualKey) -> (r: Option<Action>)
    ensures
        (final(ctx)@, action::opt_act(r)) == combined(old(ctx)@, key),
        r is None ==> final(ctx)@ == old(ctx)@,
{
    proof {
        reveal(combined);
    }
    if key == VirtualKey::F && ctx.session_state.capslock_combo_active {
        Some(switch_form(&mut ctx.session_state))
    } else {
        None
    }
}

/// Whether two states differ at most in what a key changes before it is taken.
pub open spec fn alike(w: World, v: World) -> bool {
    &&& w.session == (Session { nav_mode: w.session.nav_mode, ..v.session })
    &&& w.session.nav_mode ==> v.session.nav_mode
    &&& w.store == v.store
}

/// Everything once a key has been pressed, before it is held against the language, and what is
/// done.
#[verifier::opaque]
pub open spec fn first_pressed(w: World, e: KeyEvent) -> (World, Option<Act>) {
    match combined(w, e.key) {
        (w1, Some(a)) => (w1, Some(a)),
        (w1, None) => match hotkeys::mode_switched(w1, e.key, e.ctrl, e.shift) {
            (w2, Some(a)) => (w2, Some(a)),
            (w2, None) => match pressing::quick_final(w2, e.key) {
                Some(t) => {
                    let (w3, a) = pressing::text_injected(w2, t, e.now);
                    (w3, Some(a))
                },
                None => match pressing::steered(w2, e.key, e.now) {
                    (w3, Some(a)) => (w3, Some(a)),
                    (w3, None) => pressing::perhaps_profile(w3, e.key),
                },
            },
        },
    }
}

/// Whether a key that is pressed finds room on the page where it steers, and cuts no character
/// where it completes a syllable, before it is held against the language.
pub open spec fn first_whole(w: World, e: KeyEvent) -> bool {
    combined(w, e.key).1 is Some || hotkeys::mode_switched(w, e.key, e.ctrl, e.shift).1 is Some
        || match pressing::quick_final(w, e.key) {
        Some(t) => pressing::cut_whole(w.session, t),
        None => pressing::steers_whole(w, e.key),
    }
}

/// A key that is pressed, before it is held against the language.
fn press_first(ctx: &mut EngineContext, e: KeyEvent) -> (r: Option<Action>)
    requires
        first_whole(old(ctx)@, e),
    ensures
        (final(ctx)@, action::opt_act(r)) == first_pressed(old(ctx)@, e),
        r is None ==> alike(final(ctx)@, old(ctx)@),
{
    proof {
        reveal(first_pressed);
    }
    if let Some(a) = combine(ctx, e.key) {
        return Some(a);
    }
    if let Some(a) = handle_global_hotkey(ctx, e.key, e.ctrl, e.shift) {
        return Some(a);
    }
    if let Some(t) = find_quick_final(ctx, e.key) {
        return Some(inject_text(ctx, t.as_str(), e.now));
    }
    if let Some(a) = steer(ctx, e.key, e.now) {
        return Some(a);
    }
    maybe_profile(ctx, e.key)
}

/// Whether a key switches a mode.
pub open spec fn switches_mode(w: World, e: KeyEvent) -> bool {
    let empty = w.session.buffer.len() == 0;
    let h = w.store.config.hotkeys;
    ||| e.key == VirtualKey::Space && e.ctrl && h.enable_ctrl_space_toggle
    ||| e.key == VirtualKey::Tab && empty && h.enable_tab_toggle
    ||| e.key == VirtualKey::CapsLock
    ||| e.key == VirtualKey::Tab && !empty
}

/// Whether a key steers while navigating.
pub open spec fn steers(w: World, key: VirtualKey) -> bool {
    w.session.nav_mode && w.session.buffer.len() > 0 && composing::steering(key) is Some
}

/// Whether a key chooses a profile after caps lock.
pub open spec fn chooses_profile(w: World, key: VirtualKey) -> bool {
    w.state.capslock_pending && w.session.buffer.len() == 0 && keys::letter_key(key)
        && hotkeys::key_profiles(w, key) is Some
}

/// Everything once a key has been let by before it is held against the language.
#[verifier::opaque]
pub open spec fn let_on(w: World, pending: bool) -> World {
    World {
        session: Session {
            nav_mode: w.session.nav_mode && w.session.buffer.len() == 0,
            ..w.session
        },
        state: Lasting { capslock_pending: pending, ..w.state },
        ..w
    }
}

proof fn lemma_combined(w: World, key: VirtualKey)
    ensures
        combined(w, key).1 is Some <==> key == VirtualKey::F && w.state.capslock_combo_active,
        combined(w, key).1 is None ==> combined(w, key).0 == w,
{
    reveal(combined);
}

proof fn lemma_mode(w: World, e: KeyEvent)
    ensures
        hotkeys::mode_switched(w, e.key, e.ctrl, e.shift).1 is Some <==> switches_mode(w, e),
        hotkeys::mode_switched(w, e.key, e.ctrl, e.shift).1 is None ==> hotkeys::mode_switched(
            w,
            e.key,
            e.ctrl,
            e.shift,
        ).0 == w,
{
    reveal(hotkeys::mode_switched);
}

proof fn lemma_steered(w: World, key: VirtualKey, now: u64)
    ensures
        pressing::steered(w, key, now).1 is Some <==> steers(w, key),
        pressing::steered(w, key, now).1 is None ==> pressing::steered(w, key, now).0 == let_on(
            w,
            w.state.capslock_pending,
        ),
{
    reveal(pressing::steered);
    reveal(let_on);
}

proof fn lemma_let_on(w: World, pending: bool)
    ensures
        let_on(w, pending).session == (Session {
            nav_mode: w.session.nav_mode && w.session.buffer.len() == 0,
            ..w.session
        }),
        let_on(w, pending).state == (Lasting { capslock_pending: pending, ..w.state }),
        let_on(w, pending).store == w.store,
        let_on(w, pending).dispatch == w.dispatch,
        let_on(w, pending).table == w.table,
{
    reveal(let_on);
}

/// What is let on twice differs in nothing else from what is let on once.
proof fn lemma_let_on_again(w: World, a: bool, v: World)
    requires
        v == (World {
            state: Lasting { capslock_pending: v.state.capslock_pending, ..let_on(w, a).state },
            ..let_on(w, a)
        }),
    ensures
        v == let_on(w, v.state.capslock_pending),
{
    reveal(let_on);
}

proof fn lemma_chooses_alike(w: World, key: VirtualKey)
    ensures
        chooses_profile(let_on(w, w.state.capslock_pending), key) == chooses_profile(w, key),
{
    lemma_let_on(w, w.state.capslock_pending);
    reveal(hotkeys::key_profiles);
}

proof fn lemma_profile(w: World, key: VirtualKey)
    ensures
        pressing::perhaps_profile(w, key).1 is Some <==> chooses_profile(w, key),
        pressing::perhaps_profile(w, key).1 is None ==> ({
            let v = pressing::perhaps_profile(w, key).0;
            v == (World {
                state: Lasting { capslock_pending: v.state.capslock_pending, ..w.state },
                ..w
            })
        }),
{
    reveal(pressing::perhaps_profile);
    reveal(hotkeys::profile_switched);
}

/// When a key is taken before it is held against the language, and what is left of everything
/// where it is not.
pub(crate) proof fn lemma_first(w: World, e: KeyEvent)
    ensures
        first_pressed(w, e).1 is None ==> first_whole(w, e),
        first_pressed(w, e).1 is Some <==> (e.key == VirtualKey::F && w.state.capslock_combo_active)
            || switches_mode(w, e) || pressing::quick_final(w, e.key) is Some || steers(w, e.key)
            || chooses_profile(w, e.key),
        first_pressed(w, e).1 is None ==> first_pressed(w, e).0 == let_on(
            w,
            first_pressed(w, e).0.state.capslock_pending,
        ),
{
    reveal(first_pressed);
    lemma_combined(w, e.key);
    lemma_mode(w, e);
    lemma_steered(w, e.key, e.now);
    let v = let_on(w, w.state.capslock_pending);
    lemma_profile(v, e.key);
    lemma_chooses_alike(w, e.key);
    if pressing::perhaps_profile(v, e.key).1 is None {
        lemma_let_on_again(w, w.state.capslock_pending, pressing::perhaps_profile(v, e.key).0);
    }
}

/// Whether a key is taken before it is held against the language, and whether it then finds room
/// on the page and cuts no character.
pub(crate) fn test_first(ctx: &EngineContext, e: KeyEvent) -> (r: (bool, bool))
    ensures
        r.0 == (first_pressed(ctx@, e).1 is Some),
        r.1 == first_whole(ctx@, e),
        !r.0 ==> r.1 && ({
            let v = first_pressed(ctx@, e).0;
            v == let_on(ctx@, v.state.capslock_pending)
        }),
{
    proof {
        lemma_first(ctx@, e);
        lemma_combined(ctx@, e.key);
        lemma_mode(ctx@, e);
    }
    if e.key == VirtualKey::F && ctx.session_state.capslock_combo_active {
        return (true, true);
    }
    let empty = is_blank(ctx.session.buffer.as_str());
    let h = &ctx.config.master_config.get().hotkeys;
    if (e.key == VirtualKey::Space && e.ctrl && h.enable_ctrl_space_toggle) || (e.key
        == VirtualKey::Tab && empty && h.enable_tab_toggle) || e.key == VirtualKey::CapsLock || (e.key
        == VirtualKey::Tab && !empty) {
        return (true, true);
    }
    if let Some(t) = find_quick_final(ctx, e.key) {
        return (true, pressing::is_cut_whole(&ctx.session, t.as_str()));
    }
    if ctx.session.nav_mode && !empty {
        if let Some(cmd) = composing::steer(e.key) {
            return (true, finds_room(ctx, cmd));
        }
    }
    let chosen = ctx.session_state.capslock_pending && empty && is_letter(e.key)
        && hotkeys::find_profiles(ctx, e.key).is_some();
    (chosen, true)
}

/// Whether the language and what is held down beside a key let it pass or take it.
pub(crate) fn test_passing(ctx: &EngineContext, e: KeyEvent) -> (r: bool)
    ensures
        r == (let_by(ctx@, e).1 is Some),
{
    proof {
        reveal(let_by);
        reveal(hotkeys::marked);
    }
    let mark = ctx.key_table.get_punctuation_key(e.key, e.shift);
    (e.val == 0 && e.key == VirtualKey::CapsLock) || !ctx.session_state.chinese_enabled || (e.ctrl
        && e.alt && mark.is_none()) || (e.ctrl && !e.alt && is_letter(e.key)) || (e.val == 1 && e.ctrl
        && !e.alt && mark.is_some())
}

/// What the language lets pass does not hang on navigating or on caps lock being waited for.
pub(crate) proof fn lemma_let_by_alike(w: World, v: World, e: KeyEvent)
    requires
        v.state == (Lasting { capslock_pending: v.state.capslock_pending, ..w.state }),
        v.table == w.table,
    ensures
        let_by(v, e).1 is Some <==> let_by(w, e).1 is Some,
        let_by(v, e).1 is None ==> let_by(v, e).0 == v,
{
    reveal(let_by);
    reveal(hotkeys::marked);
}

/// With caps lock released.
pub open spec fn caps_released(s: Lasting) -> Lasting {
    Lasting { capslock_down: false, capslock_combo_active: false, ..s }
}

/// Releases caps lock.
fn release_caps(s: &mut SessionState)
    ensures
        final(s)@ == caps_released(old(s)@),
{
    s.capslock_down = false;
    s.capslock_combo_active = false;
}

/// Everything once a key has been held against the language and what is held down beside it,
/// and what is done.
#[verifier::opaque]
pub open spec fn let_by(w: World, e: KeyEvent) -> (World, Option<Act>) {
    let mark = context::mark_of(w.table, e.key, e.shift);
    if e.val == 0 && e.key == VirtualKey::CapsLock {
        (
            World { state: caps_released(w.state), ..w },
            Some(
                if w.state.chinese_enabled {
                    Act::Consume
                } else {
                    Act::PassThrough
                },
            ),
        )
    } else if !w.state.chinese_enabled || (e.ctrl && e.alt && mark is None) || (e.ctrl && !e.alt
        && keys::letter_key(e.key)) {
        (w, Some(Act::PassThrough))
    } else if e.val == 1 && e.ctrl && !e.alt {
        hotkeys::marked(w, e.key, e.shift)
    } else {
        (w, None)
    }
}

/// A key held against the language and what is held down beside it.
fn let_pass(ctx: &mut EngineContext, e: KeyEvent) -> (r: Option<Action>)
    ensures
        (final(ctx)@, action::opt_act(r)) == let_by(old(ctx)@, e),
        r is None ==> final(ctx)@ == old(ctx)@,
{
    proof {
        reveal(let_by);
    }
    let chinese = ctx.session_state.chinese_enabled;
    if e.val == 0 && e.key == VirtualKey::CapsLock {
        release_caps(&mut ctx.session_state);
        return Some(
            if chinese {
                Action::Consume
            } else {
                Action::PassThrough
            },
        );
    }
    if !chinese || (e.ctrl && !e.alt && is_letter(e.key)) {
        return Some(Action::PassThrough);
    }
    if e.ctrl && e.alt {
        if ctx.key_table.get_punctuation_key(e.key, e.shift).is_none() {
            return Some(Action::PassThrough);
        }
    }
    if e.val == 1 && e.ctrl && !e.alt {
        return handle_ctrl_punctuation(ctx, e.key, e.shift);
    }
    None
}

/// Everything once a key has been taken or left before the state machine, and what is done.
#[verifier::opaque]
pub open spec fn begun(w: World, e: KeyEvent) -> (World, Option<Act>) {
    let first = if e.val == 1 {
        first_pressed(w, e)
    } else {
        (w, None)
    };
    match first {
        (w1, Some(a)) => (w1, Some(a)),
        (w1, None) => let_by(w1, e),
    }
}

/// A key before the state machine.
pub fn begin_key(ctx: &mut EngineContext, e: KeyEvent) -> (r: Option<Action>)
    requires
        e.val == 1 ==> first_whole(old(ctx)@, e),
    ensures
        (final(ctx)@, action::opt_act(r)) == begun(old(ctx)@, e),
        r is None ==> alike(final(ctx)@, old(ctx)@),
{
    proof {
        reveal(begun);
    }
    if e.val == 1 {
        if let Some(a) = press_first(ctx, e) {
            return Some(a);
        }
    }
    let_pass(ctx, e)
}

/// Whether fuzzy sounds set in after so many page turns.
pub open spec fn turns_fuzzy(w: World) -> bool {
    let s = w.session;
    let after = w.store.config.input.fuzzy_config.fuzzy_page_threshold;
    after > 0 && s.fuzzy_page_turns >= after && !s.fuzzy_activated && s.has_dict_match
}

/// With fuzzy sounds, and the first candidate chosen.
pub open spec fn made_fuzzy(s: Session) -> Session {
    Session { fuzzy_activated: true, page: 0, selected: 0, ..s }
}

/// Lets fuzzy sounds in, and chooses the first candidate.
fn make_fuzzy(s: &mut InputSession)
    ensures
        final(s)@ == made_fuzzy(old(s)@),
{
    s.fuzzy_activated = true;
    s.page = 0;
    s.selected = 0;
}

/// Everything once the page has been turned, with fuzzy sounds after enough turns, and what is
/// done.
#[verifier::opaque]
pub open spec fn turned(w: World, now: u64) -> (World, Act) {
    let (w1, a) = commands::executed(w, Command::NextPage, now);
    if turns_fuzzy(w1) {
        match lookup::limitedly_looked_up(
            World { session: made_fuzzy(w1.session), ..w1 },
            KEY_LIMIT as int,
            now,
        ) {
            (w2, Some(b)) => (w2, b),
            (w2, None) => (w2, a),
        }
    } else {
        (w1, a)
    }
}

/// Turns the page, with fuzzy sounds after enough turns.
fn turn_page(ctx: &mut EngineContext, now: u64) -> (r: Action)
    ensures
        (final(ctx)@, r@) == turned(old(ctx)@, now),
{
    proof {
        reveal(turned);
    }
    let a = execute_command(ctx, Command::NextPage, now);
    let after = ctx.config.master_config.get().input.fuzzy_config.fuzzy_page_threshold;
    if after > 0 && ctx.session.fuzzy_page_turns >= after && !ctx.session.fuzzy_activated
        && ctx.session.has_dict_match {
        make_fuzzy(&mut ctx.session);
        if let Some(b) = lookup::lookup_with_limit(ctx, KEY_LIMIT, now) {
            return b;
        }
    }
    a
}

/// Everything once a key that the settings name has turned the page or moved on, and what is
/// done.
#[verifier::opaque]
pub open spec fn paged(w: World, key: VirtualKey, now: u64) -> (World, Option<Act>) {
    let h = w.store.config.hotkeys;
    let s = w.session;
    if s.state == ImeState::Idle || s.candidates.len() == 0 {
        (w, None)
    } else if composing::among(h.page_up@, key) {
        taken(commands::executed(w, Command::PrevPage, now))
    } else if composing::among(h.page_down@, key) {
        taken(turned(w, now))
    } else if composing::among(h.prev_candidate@, key) {
        taken(commands::executed(w, Command::PrevCandidate, now))
    } else if composing::among(h.next_candidate@, key) {
        taken(commands::executed(w, Command::NextCandidate, now))
    } else {
        (w, None)
    }
}

/// The command of a key that the settings name, while there are candidates.
#[verifier::opaque]
pub open spec fn page_command(w: World, key: VirtualKey) -> Option<Command> {
    let h = w.store.config.hotkeys;
    if w.session.state == ImeState::Idle || w.session.candidates.len() == 0 {
        None
    } else if composing::among(h.page_up@, key) {
        Some(Command::PrevPage)
    } else if composing::among(h.page_down@, key) {
        Some(Command::NextPage)
    } else if composing::among(h.prev_candidate@, key) {
        Some(Command::PrevCandidate)
    } else if composing::among(h.next_candidate@, key) {
        Some(Command::NextCandidate)
    } else {
        None
    }
}

/// The command of a key that the settings name.
pub(crate) fn find_page_command(ctx: &EngineContext, key: VirtualKey) -> (r: Option<Command>)
    ensures
        r == page_command(ctx@, key),
{
    proof {
        reveal(page_command);
    }
    if ctx.session.state == ImeState::Idle || ctx.session.candidates.len() == 0 {
        None
    } else if holds_key(&ctx.config.page_up_keys(), key) {
        Some(Command::PrevPage)
    } else if holds_key(&ctx.config.page_down_keys(), key) {
        Some(Command::NextPage)
    } else if holds_key(&ctx.config.prev_candidate_keys(), key) {
        Some(Command::PrevCandidate)
    } else if holds_key(&ctx.config.next_candidate_keys(), key) {
        Some(Command::NextCandidate)
    } else {
        None
    }
}

/// Whether the state machine finds room on the page where a key asks for some, and cuts no
/// character.
pub open spec fn transitions_whole(w: World, e: KeyEvent, effect: FsmEffect) -> bool {
    if e.val == 1 && page_command(w, e.key) is Some {
        commands::has_room(w, page_command(w, e.key)->0)
    } else {
        effect == FsmEffect::UpdateLookup ==> editing::composes_whole(w, press_of(e))
    }
}

/// What is done, as done by what takes the key.
pub open spec fn taken(r: (World, Act)) -> (World, Option<Act>) {
    (r.0, Some(r.1))
}

/// A key that the settings name.
fn page(ctx: &mut EngineContext, key: VirtualKey, now: u64) -> (r: Option<Action>)
    requires
        page_command(old(ctx)@, key) matches Some(cmd) ==> commands::has_room(old(ctx)@, cmd),
    ensures
        (final(ctx)@, action::opt_act(r)) == paged(old(ctx)@, key, now),
        r is None ==> final(ctx)@ == old(ctx)@,
        r is Some <==> page_command(old(ctx)@, key) is Some,
{
    proof {
        reveal(paged);
        reveal(page_command);
    }
    match find_page_command(ctx, key) {
        Some(Command::NextPage) => Some(turn_page(ctx, now)),
        Some(cmd) => Some(execute_command(ctx, cmd, now)),
        None => None,
    }
}

/// With another state.
pub open spec fn in_state(s: Session, next: ImeState) -> Session {
    Session { state: next, ..s }
}

/// With caps lock no more waited for after a letter.
pub open spec fn no_longer_pending(s: Lasting, over: bool) -> Lasting {
    Lasting { capslock_pending: s.capslock_pending && !over, ..s }
}

/// Whether a key is a letter that is pressed outside of navigating.
pub open spec fn plain_letter(s: Session, e: KeyEvent) -> bool {
    e.val == 1 && keys::letter_key(e.key) && !s.nav_mode
}

/// Everything with the state machine where it goes.
#[verifier::opaque]
pub open spec fn moved_on(w: World, e: KeyEvent, next: ImeState) -> World {
    World {
        session: in_state(w.session, next),
        state: no_longer_pending(w.state, plain_letter(w.session, e)),
        ..w
    }
}

/// Changes the state.
fn set_state(s: &mut InputSession, next: ImeState)
    ensures
        final(s)@ == in_state(old(s)@, next),
{
    s.state = next;
}

/// Waits no more for caps lock after a letter.
fn end_pending(s: &mut SessionState, over: bool)
    ensures
        final(s)@ == no_longer_pending(old(s)@, over),
{
    if over {
        s.capslock_pending = false;
    }
}

/// Lets the state machine go on.
fn move_on(ctx: &mut EngineContext, e: KeyEvent, next: ImeState)
    ensures
        final(ctx)@ == moved_on(old(ctx)@, e, next),
        final(ctx)@.session == in_state(old(ctx)@.session, next),
        final(ctx)@.store == old(ctx)@.store,
{
    proof {
        reveal(moved_on);
    }
    let over = e.val == 1 && is_letter(e.key) && !ctx.session.nav_mode;
    set_state(&mut ctx.session, next);
    end_pending(&mut ctx.session_state, over);
}

/// The key as the handlers see it.
pub open spec fn press_of(e: KeyEvent) -> Press {
    Press { key: e.key, shift: e.shift, perform_lookup: e.perform_lookup, now: e.now }
}

/// Everything once what the state machine asks for has been done, and what comes of the key.
#[verifier::opaque]
pub open spec fn effected(w: World, e: KeyEvent, effect: FsmEffect) -> (World, Rep) {
    match effect {
        FsmEffect::PassThrough => if w.session.state == ImeState::Idle {
            handlers::idled(w, press_of(e))
        } else {
            (w, Rep::Done(Act::PassThrough))
        },
        FsmEffect::UpdateLookup => editing::composed(w, press_of(e)),
        FsmEffect::CommitFirst => editing::done(commands::executed(w, Command::Commit, e.now)),
        FsmEffect::CommitRaw => editing::done(commands::executed(w, Command::CommitRaw, e.now)),
        FsmEffect::Clear => editing::done(commands::executed(w, Command::Clear, e.now)),
        FsmEffect::Consume => (w, Rep::Done(Act::Consume)),
        FsmEffect::Alert => (w, Rep::Done(Act::Alert)),
    }
}

/// Does what the state machine asks for.
fn effect_of(ctx: &mut EngineContext, e: KeyEvent, effect: FsmEffect) -> (r: Reply)
    requires
        effect == FsmEffect::UpdateLookup ==> editing::composes_whole(old(ctx)@, press_of(e)),
    ensures
        (final(ctx)@, r@) == effected(old(ctx)@, e, effect),
{
    proof {
        reveal(effected);
    }
    match effect {
        FsmEffect::PassThrough => if ctx.session.state == ImeState::Idle {
            handle_idle(ctx, e.key, e.shift, e.perform_lookup, e.now)
        } else {
            Reply::Done(Action::PassThrough)
        },
        FsmEffect::UpdateLookup => handle_composing(ctx, e.key, e.shift, e.perform_lookup, e.now),
        FsmEffect::CommitFirst => Reply::Done(execute_command(ctx, Command::Commit, e.now)),
        FsmEffect::CommitRaw => Reply::Done(execute_command(ctx, Command::CommitRaw, e.now)),
        FsmEffect::Clear => Reply::Done(execute_command(ctx, Command::Clear, e.now)),
        FsmEffect::Consume => Reply::Done(Action::Consume),
        FsmEffect::Alert => Reply::Done(Action::Alert),
    }
}

/// Everything once the state machine has gone on with a key, and what comes of the key.
#[verifier::opaque]
pub open spec fn transitioned(w: World, e: KeyEvent, next: ImeState, effect: FsmEffect) -> (
    World,
    Rep,
) {
    let first = if e.val == 1 {
        paged(w, e.key, e.now)
    } else {
        (w, None)
    };
    match first {
        (w1, Some(a)) => (w1, Rep::Done(a)),
        (w1, None) => effected(moved_on(w1, e, next), e, effect),
    }
}

proof fn lemma_moved_on(w: World, e: KeyEvent, next: ImeState)
    ensures
        editing::composes_whole(moved_on(w, e, next), press_of(e)) == editing::composes_whole(
            w,
            press_of(e),
        ),
{
    reveal(moved_on);
    editing::lemma_composes_alike(w, moved_on(w, e, next), press_of(e));
}

/// What a key finds in the state machine once it has been let by.
pub(crate) proof fn lemma_transitions_alike(w: World, pending: bool, e: KeyEvent, effect: FsmEffect)
    ensures
        transitions_whole(let_on(w, pending), e, effect) == (if e.val == 1 && page_command(w, e.key) is Some {
            commands::has_room(w, page_command(w, e.key)->0)
        } else {
            effect == FsmEffect::UpdateLookup ==> editing::composes_whole(
                composing::with_nav(w, w.session.nav_mode && w.session.buffer.len() == 0),
                press_of(e),
            )
        }),
{
    lemma_page_command_alike(w, pending, e.key);
    lemma_composes_let_on(w, pending, press_of(e));
    if page_command(w, e.key) is Some {
        lemma_room_alike(w, pending, page_command(w, e.key)->0);
    }
}

proof fn lemma_page_command_alike(w: World, pending: bool, key: VirtualKey)
    ensures
        page_command(let_on(w, pending), key) == page_command(w, key),
{
    lemma_let_on(w, pending);
    reveal(page_command);
}

proof fn lemma_room_alike(w: World, pending: bool, cmd: Command)
    ensures
        commands::has_room(let_on(w, pending), cmd) == commands::has_room(w, cmd),
{
    lemma_let_on(w, pending);
}

proof fn lemma_composes_let_on(w: World, pending: bool, p: Press)
    ensures
        editing::composes_whole(let_on(w, pending), p) == editing::composes_whole(
            composing::with_nav(w, w.session.nav_mode && w.session.buffer.len() == 0),
            p,
        ),
{
    lemma_let_on(w, pending);
    reveal(composing::with_nav);
    editing::lemma_composes_alike(
        composing::with_nav(w, w.session.nav_mode && w.session.buffer.len() == 0),
        let_on(w, pending),
        p,
    );
}

pub(crate) proof fn lemma_same_nav(w: World)
    ensures
        composing::with_nav(w, w.session.nav_mode) == w,
{
    reveal(composing::with_nav);
}

pub(crate) proof fn lemma_let_by_let_on(w: World, pending: bool, e: KeyEvent)
    ensures
        let_by(let_on(w, pending), e).1 is Some <==> let_by(w, e).1 is Some,
        let_by(let_on(w, pending), e).1 is None ==> let_by(let_on(w, pending), e).0 == let_on(
            w,
            pending,
        ),
{
    lemma_let_on(w, pending);
    lemma_let_by_alike(w, let_on(w, pending), e);
}

/// Lets the state machine go on with a key.
pub fn handle_fsm_transition(
    ctx: &mut EngineContext,
    e: KeyEvent,
    next: ImeState,
    effect: FsmEffect,
) -> (r: Reply)
    requires
        transitions_whole(old(ctx)@, e, effect),
    ensures
        (final(ctx)@, r@) == transitioned(old(ctx)@, e, next, effect),
{
    proof {
        reveal(transitioned);
    }
    if e.val == 1 {
        if let Some(a) = page(ctx, e.key, e.now) {
            return Reply::Done(a);
        }
    }
    proof {
        lemma_moved_on(ctx@, e, next);
    }
    move_on(ctx, e, next);
    effect_of(ctx, e, effect)
}

} // verus!
