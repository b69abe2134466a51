//! Keys that switch modes and profiles, whatever is being composed.

use vstd::prelude::*;
use crate::action;
use crate::action::{Act, Action};
use crate::config_manager;
use crate::context;
use crate::context::{EngineContext, World};
use crate::keys::VirtualKey;
use crate::session::is_blank;
use crate::session::Session;
use crate::session_state;
use crate::session_state::{Lasting, SessionState};
use crate::text;
use crate::text::{char_string, chars_of, same_text, split_at_any, to_lower, to_small, trim_end};

verus! {

/// The profile that is shown: the only one, or that there is none or more than one.
pub open spec fn profile_shown(s: Lasting) -> Seq<char> {
    if s.profiles.len() == 0 {
        "None"@
    } else if s.profiles.len() == 1 {
        s.profiles[0]
    } else {
        "Mixed"@
    }
}

/// The sign of a profile.
pub open spec fn sign_of(profile: Seq<char>) -> Seq<char> {
    let small = text::lowercase(profile);
    if small == "chinese"@ {
        "中"@
    } else if small == "english"@ {
        "英"@
    } else if small == "japanese"@ {
        "日"@
    } else if small == "stroke"@ {
        "笔"@
    } else if small == "mixed"@ {
        "混"@
    } else if profile.len() > 0 {
        seq![profile[0]]
    } else {
        " "@
    }
}

/// The profile that is shown.
pub fn show_profile(s: &SessionState) -> (r: String)
    ensures
        r@ == profile_shown(s@),
{
    if s.active_profiles.len() == 0 {
        "None".to_owned()
    } else if s.active_profiles.len() == 1 {
        s.active_profiles[0].clone()
    } else {
        "Mixed".to_owned()
    }
}

/// The sign of a profile.
pub fn sign(profile: &str) -> (r: String)
    ensures
        r@ == sign_of(profile@),
{
    let small = to_lower(profile);
    if same_text(small.as_str(), "chinese") {
        "中".to_owned()
    } else if same_text(small.as_str(), "english") {
        "英".to_owned()
    } else if same_text(small.as_str(), "japanese") {
        "日".to_owned()
    } else if same_text(small.as_str(), "stroke") {
        "笔".to_owned()
    } else if same_text(small.as_str(), "mixed") {
        "混".to_owned()
    } else {
        let c = chars_of(profile);
        if c.len() > 0 {
            let s = char_string(c[0]);
            proof {
                assert(s@ =~= seq![profile@[0]]);
            }
            s
        } else {
            " ".to_owned()
        }
    }
}

/// With the language switched.
pub open spec fn switched(s: Lasting) -> Lasting {
    Lasting { chinese_enabled: !s.chinese_enabled, ..s }
}

/// Switches the language.
pub(crate) fn switch_language(s: &mut SessionState)
    ensures
        final(s)@ == switched(old(s)@),
{
    s.chinese_enabled = !s.chinese_enabled;
}

/// With caps lock pressed: with shift it changes the lock, else it switches the language, and
/// behind letters it is only held down.
pub open spec fn caps_pressed(s: Lasting, shift: bool, empty: bool) -> Lasting {
    if shift {
        Lasting { caps_lock_enabled: !s.caps_lock_enabled, ..s }
    } else if empty {
        Lasting { capslock_combo_active: true, ..switched(s) }
    } else {
        Lasting { capslock_combo_active: true, capslock_down: true, ..s }
    }
}

/// Caps lock.
fn press_caps(s: &mut SessionState, shift: bool, empty: bool)
    ensures
        final(s)@ == caps_pressed(old(s)@, shift, empty),
{
    if shift {
        s.caps_lock_enabled = !s.caps_lock_enabled;
    } else if empty {
        s.capslock_combo_active = true;
        s.chinese_enabled = !s.chinese_enabled;
    } else {
        s.capslock_combo_active = true;
        s.capslock_down = true;
    }
}

/// Everything once a key that switches a mode has been pressed, and what is done.
#[verifier::opaque]
pub open spec fn mode_switched(w: World, key: VirtualKey, ctrl: bool, shift: bool) -> (
    World,
    Option<Act>,
) {
    let empty = w.session.buffer.len() == 0;
    let h = w.store.config.hotkeys;
    if (key == VirtualKey::Space && ctrl && h.enable_ctrl_space_toggle) || (key == VirtualKey::Tab
        && empty && h.enable_tab_toggle) {
        (World { state: switched(w.state), ..w }, Some(Act::Consume))
    } else if key == VirtualKey::CapsLock {
        (
            World { state: caps_pressed(w.state, shift, empty), ..w },
            Some(
                if shift {
                    Act::PassThrough
                } else {
                    Act::Consume
                },
            ),
        )
    } else if key == VirtualKey::Tab && !empty {
        (
            World { session: Session { nav_mode: !w.session.nav_mode, ..w.session }, ..w },
            Some(Act::Consume),
        )
    } else {
        (w, None)
    }
}

/// A key that switches a mode.
pub(crate) fn handle_global_hotkey(
    ctx: &mut EngineContext,
    key: VirtualKey,
    ctrl_pressed: bool,
    shift_pressed: bool,
) -> (r: Option<Action>)
    ensures
        (final(ctx)@, action::opt_act(r)) == mode_switched(
            old(ctx)@,
            key,
            ctrl_pressed,
            shift_pressed,
        ),
        r is None ==> final(ctx)@ == old(ctx)@,
{
    proof {
        reveal(mode_switched);
    }
    let empty = is_blank(ctx.session.buffer.as_str());
    let h = &ctx.config.master_config.get().hotkeys;
    if (key == VirtualKey::Space && ctrl_pressed && h.enable_ctrl_space_toggle) || (key
        == VirtualKey::Tab && empty && h.enable_tab_toggle) {
        switch_language(&mut ctx.session_state);
        return Some(Action::Consume);
    }
    if key == VirtualKey::CapsLock {
        press_caps(&mut ctx.session_state, shift_pressed, empty);
        return Some(
            if shift_pressed {
                Action::PassThrough
            } else {
                Action::Consume
            },
        );
    }
    if key == VirtualKey::Tab && !empty {
        ctx.session.nav_mode = !ctx.session.nav_mode;
        return Some(Action::Consume);
    }
    None
}

/// The profiles of a key, by the first key that is written so from a place on.
pub open spec fn profiles_of(v: Seq<(Seq<char>, Seq<char>)>, key: Seq<char>, i: int) -> Option<
    Seq<char>,
>
    decreases v.len() - i,
{
    if i < 0 || i >= v.len() {
        None
    } else if text::lowercase(v[i].0) == key {
        Some(v[i].1)
    } else {
        profiles_of(v, key, i + 1)
    }
}

/// The profiles that a key chooses.
#[verifier::opaque]
pub open spec fn key_profiles(w: World, key: VirtualKey) -> Option<Seq<char>> {
    let c = match context::typed(w.table, key, false, false) {
        Some(c) => c,
        None => '\0',
    };
    profiles_of(config_manager::profile_pairs(w.store.config), text::small(c), 0)
}

/// The profiles that a key chooses.
pub(crate) fn find_profiles(ctx: &EngineContext, key: VirtualKey) -> (r: Option<String>)
    ensures
        crate::config::opt_view(r) == key_profiles(ctx@, key),
{
    proof {
        reveal(key_profiles);
    }
    let c = match ctx.key_table.key_to_char(key, false, false) {
        Some(c) => c,
        None => '\0',
    };
    let small = to_small(c);
    let v = ctx.config.profile_keys();
    let ghost s = session_state::pairs(v@);
    let mut i: usize = 0;
    while i < v.len()
        invariant
            i <= v.len(),
            s == session_state::pairs(v@),
            profiles_of(s, small@, 0) == profiles_of(s, small@, i as int),
            crate::config::opt_view(None) == profiles_of(s, small@, s.len() as int),
            key_profiles(ctx@, key) == profiles_of(s, small@, 0),
        decreases v.len() - i,
    {
        proof {
            assert(s[i as int] == (v@[i as int].0@, v@[i as int].1@));
        }
        if same_text(to_lower(v[i].0.as_str()).as_str(), small.as_str()) {
            return Some(v[i].1.clone());
        }
        i = i + 1;
    }
    None
}

/// With other profiles, nothing in the history, and caps lock no more waited for.
pub open spec fn with_profiles(s: Lasting, profiles: Seq<char>) -> Lasting {
    Lasting {
        profiles: text::fields(profiles, seq![',']),
        history: Seq::empty(),
        capslock_pending: false,
        ..s
    }
}

/// Takes other profiles.
fn take_profiles(s: &mut SessionState, profiles: &str)
    ensures
        final(s)@ == with_profiles(old(s)@, profiles@),
{
    let seps = [','];
    let v = split_at_any(profiles, seps.as_slice());
    proof {
        assert(seps@ =~= seq![',']);
    }
    s.active_profiles = v;
    s.capslock_pending = false;
    s.clear_history();
}

/// Everything once a letter has chosen profiles after caps lock, and what is done.
#[verifier::opaque]
pub open spec fn profile_switched(w: World, key: VirtualKey) -> (World, Option<Act>) {
    match key_profiles(w, key) {
        Some(p) => {
            let state = with_profiles(w.state, p);
            let shown = profile_shown(state);
            (
                World { session: w.session.after_reset(), state, ..w },
                Some(Act::Notify(sign_of(shown), "方案: "@ + shown)),
            )
        },
        None => (World { state: Lasting { capslock_pending: false, ..w.state }, ..w }, None),
    }
}

/// A letter after caps lock.
pub(crate) fn handle_capslock_profile_switch(ctx: &mut EngineContext, key: VirtualKey) -> (r: Option<Action>)
    ensures
        (final(ctx)@, action::opt_act(r)) == profile_switched(old(ctx)@, key),
        r is None ==> final(ctx)@ == (World { state: final(ctx)@.state, ..old(ctx)@ }),
{
    proof {
        reveal(profile_switched);
    }
    match find_profiles(ctx, key) {
        Some(p) => {
            take_profiles(&mut ctx.session_state, p.as_str());
            ctx.session.reset();
            let shown = show_profile(&ctx.session_state);
            let mut t = "方案: ".to_owned();
            t.append(shown.as_str());
            Some(Action::Notify(sign(shown.as_str()), t))
        },
        None => {
            ctx.session_state.capslock_pending = false;
            None
        },
    }
}

/// What is put out for what is being composed: the sentence, the first candidate or the letters.
pub open spec fn whole(s: Session) -> Seq<char> {
    text::trimmed_end(
        if s.joined_sentence.len() > 0 {
            s.joined_sentence
        } else if s.candidates.len() > 0 {
            s.candidates[0].text
        } else {
            s.buffer
        },
    )
}

/// Everything once a punctuation mark has been typed with control, and what is done.
#[verifier::opaque]
pub open spec fn marked(w: World, key: VirtualKey, shift: bool) -> (World, Option<Act>) {
    match context::mark_of(w.table, key, shift) {
        Some(m) => (
            World {
                session: w.session.cleared(),
                state: Lasting { history: Seq::empty(), ..w.state },
                ..w
            },
            Some(Act::DeleteAndEmit(w.session.phantom_text.len() as int, whole(w.session).push(m))),
        ),
        None => (w, None),
    }
}

/// A punctuation mark with control.
pub(crate) fn handle_ctrl_punctuation(
    ctx: &mut EngineContext,
    key: VirtualKey,
    shift_pressed: bool,
) -> (r: Option<Action>)
    ensures
        (final(ctx)@, action::opt_act(r)) == marked(old(ctx)@, key, shift_pressed),
        r is None ==> final(ctx)@ == old(ctx)@,
{
    proof {
        reveal(marked);
    }
    let m = match ctx.key_table.get_punctuation_key(key, shift_pressed) {
        Some(m) => m,
        None => return None,
    };
    let s = &ctx.session;
    let mut out = if !is_blank(s.joined_sentence.as_str()) {
        trim_end(s.joined_sentence.as_str())
    } else if s.candidates.len() > 0 {
        trim_end(s.candidates[0].text.as_str())
    } else {
        trim_end(s.buffer.as_str())
    };
    out.push(m);
    let delete = chars_of(s.phantom_text.as_str()).len();
    ctx.session.clear_composing();
    ctx.session_state.clear_history();
    Some(Action::DeleteAndEmit { delete, insert: out })
}

} // verus!
