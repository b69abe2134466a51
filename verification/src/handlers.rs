//! What keys do while nothing, and while something, is being composed.

use vstd::prelude::*;
use crate::action;
use crate::action::{Act, Action};
use crate::compositor;
use crate::compositor::Compositor;
use crate::config::{self, AntiTypoMode, Config, KeyAction};
use crate::config_manager::ConfigManager;
use crate::context;
use crate::context::{EngineContext, World};
use crate::keys;
use crate::keys::{is_digit, is_letter, VirtualKey};
use crate::lookup;
use crate::session::{is_blank, InputSession, Session};
use crate::strmap;
use crate::text;
use crate::text::{char_string, same_text, to_lower};

verus! {

/// A key that is pressed.
#[derive(Debug, Clone, Copy, PartialEq, Eq, Structural)]
pub struct Press {
    pub key: VirtualKey,
    pub shift: bool,
    /// Whether what is typed is looked up at once.
    pub perform_lookup: bool,
    pub now: u64,
}

/// What comes of a key: something is done, or the key is left to the punctuation marks.
pub enum Reply {
    Done(Action),
    Punctuation,
}

/// What comes of a key, as texts.
pub enum Rep {
    Done(Act),
    Punctuation,
}

impl View for Reply {
    type V = Rep;

    open spec fn view(&self) -> Rep {
        match self {
            Reply::Done(a) => Rep::Done(a@),
            Reply::Punctuation => Rep::Punctuation,
        }
    }
}

/// Everything once what was typed has been looked up where that is asked for, and what is done
/// on that account.
#[verifier::opaque]
pub open spec fn maybe_looked_up(w: World, p: Press) -> (World, Option<Act>) {
    if p.perform_lookup {
        lookup::looked_up(w, p.now)
    } else {
        (w, None)
    }
}

/// Everything once what was typed has been looked up where that is asked for and what is shown
/// is up to date, and what is done.
#[verifier::opaque]
pub open spec fn refreshed(w: World, p: Press) -> (World, Act) {
    match maybe_looked_up(w, p) {
        (w1, Some(a)) => (w1, a),
        (w1, None) => compositor::phantom_updated(w1),
    }
}

/// Everything once letters that lead nowhere have been taken back, and whether they were.
#[verifier::opaque]
pub open spec fn blocked(w: World, before: Seq<char>, now: u64) -> (World, bool) {
    let s = w.session;
    if s.has_dict_match {
        (World { session: Session { last_blocked_buffer: Seq::empty(), ..s }, ..w }, false)
    } else {
        match w.store.config.input.anti_typo_mode {
            AntiTypoMode::Off => (w, false),
            AntiTypoMode::Strict => (
                lookup::looked_up(
                    World { session: Session { buffer: before, ..s }, ..w },
                    now,
                ).0,
                true,
            ),
            AntiTypoMode::Smart => if s.last_blocked_buffer.len() > 0 && s.buffer
                == s.last_blocked_buffer {
                (World { session: Session { last_blocked_buffer: Seq::empty(), ..s }, ..w }, false)
            } else {
                (
                    lookup::looked_up(
                        World {
                            session: Session {
                                last_blocked_buffer: s.buffer,
                                buffer: before,
                                ..s
                            },
                            ..w
                        },
                        now,
                    ).0,
                    true,
                )
            },
        }
    }
}

/// Everything once a character has been typed and looked up where that is asked for: letters
/// that lead nowhere warn, and the first candidate is put out where it is put out at once. They
/// are taken back to what is given, where something is.
#[verifier::opaque]
pub open spec fn settled(w: World, before: Option<Seq<char>>, p: Press) -> (World, Act) {
    match maybe_looked_up(w, p) {
        (w1, Some(a)) => (w1, a),
        (w1, None) => {
            let (w2, stop) = blocked(
                w1,
                match before {
                    Some(b) => b,
                    None => w1.session.buffer,
                },
                p.now,
            );
            if stop {
                (w2, Act::Alert)
            } else {
                match compositor::auto_committed(w2, p.now) {
                    (w3, Some(a)) => (w3, a),
                    (w3, None) => compositor::phantom_updated(w3),
                }
            }
        },
    }
}

/// Looks up what was typed where that is asked for.
pub(crate) fn maybe_lookup(ctx: &mut EngineContext, p: Press) -> (r: Option<Action>)
    ensures
        (final(ctx)@, action::opt_act(r)) == maybe_looked_up(old(ctx)@, p),
{
    proof {
        reveal(maybe_looked_up);
    }
    if p.perform_lookup {
        lookup::lookup(ctx, p.now)
    } else {
        None
    }
}

/// Looks up what was typed where that is asked for, and brings what is shown up to date.
pub(crate) fn refresh(ctx: &mut EngineContext, p: Press) -> (r: Action)
    ensures
        (final(ctx)@, r@) == refreshed(old(ctx)@, p),
{
    proof {
        reveal(refreshed);
    }
    match maybe_lookup(ctx, p) {
        Some(a) => a,
        None => Compositor::update_phantom_action(ctx),
    }
}

/// Whether letters that lead nowhere are taken back, and the session with them taken back or
/// forgotten.
fn take_back(s: &mut InputSession, mode: AntiTypoMode, before: &str) -> (r: bool)
    ensures
        r == !(old(s)@.has_dict_match || mode is Off || (mode is Smart
            && old(s)@.last_blocked_buffer.len() > 0 && old(s)@.buffer
            == old(s)@.last_blocked_buffer)),
        final(s)@ == (if old(s)@.has_dict_match || (mode is Smart && !r) {
            Session { last_blocked_buffer: Seq::empty(), ..old(s)@ }
        } else if mode is Off {
            old(s)@
        } else if mode is Strict {
            Session { buffer: before@, ..old(s)@ }
        } else {
            Session {
                last_blocked_buffer: old(s)@.buffer,
                buffer: before@,
                ..old(s)@
            }
        }),
{
    if s.has_dict_match {
        s.last_blocked_buffer = String::new();
        return false;
    }
    match mode {
        AntiTypoMode::Off => false,
        AntiTypoMode::Strict => {
            s.buffer = before.to_owned();
            true
        },
        AntiTypoMode::Smart => {
            if !is_blank(s.last_blocked_buffer.as_str()) && same_text(
                s.buffer.as_str(),
                s.last_blocked_buffer.as_str(),
            ) {
                s.last_blocked_buffer = String::new();
                false
            } else {
                let b = s.buffer.clone();
                s.last_blocked_buffer = b;
                s.buffer = before.to_owned();
                true
            }
        },
    }
}

/// Takes letters that lead nowhere back, and says whether it did.
pub fn should_block_invalid_input(ctx: &mut EngineContext, old_buffer: &str, now: u64) -> (r: bool)
    ensures
        (final(ctx)@, r) == blocked(old(ctx)@, old_buffer@, now),
{
    proof {
        reveal(blocked);
    }
    let mode = ctx.config.master_config.get().input.anti_typo_mode;
    let stop = take_back(&mut ctx.session, mode, old_buffer);
    if stop {
        let _ = lookup::lookup(ctx, now);
    }
    stop
}

/// Looks up what was typed where that is asked for, warns of letters that lead nowhere, and
/// puts out the first candidate where it is put out at once.
pub(crate) fn settle(ctx: &mut EngineContext, before: Option<String>, p: Press) -> (r: Action)
    ensures
        (final(ctx)@, r@) == settled(old(ctx)@, config::opt_view(before), p),
{
    proof {
        reveal(settled);
    }
    if let Some(a) = maybe_lookup(ctx, p) {
        return a;
    }
    let back = match before {
        Some(b) => b,
        None => ctx.session.buffer.clone(),
    };
    if should_block_invalid_input(ctx, back.as_str(), p.now) {
        return Action::Alert;
    }
    if let Some(a) = Compositor::check_auto_commit(ctx, p.now) {
        return a;
    }
    Compositor::update_phantom_action(ctx)
}

/// The profile that counts, in small letters.
pub open spec fn language(w: World) -> Seq<char> {
    text::lowercase(w.state.first_profile())
}

/// What the layout of a profile says of a character.
pub open spec fn layout_action(c: Config, lang: Seq<char>, ch: char) -> Option<config::KeyActionView> {
    match strmap::lookup(c.layouts@, lang) {
        Some(l) => strmap::lookup(l.mappings, seq![ch]),
        None => None,
    }
}

/// What the plain layout of a profile puts out for a character.
pub open spec fn plain_text(c: Config, lang: Seq<char>, ch: char) -> Option<Seq<char>> {
    match strmap::lookup(c.input.keyboard_layouts@, lang) {
        Some(l) => strmap::lookup(l, seq![ch]),
        None => None,
    }
}

/// What the layouts of a profile put out for a character when nothing is being composed.
pub open spec fn laid_out_idle(c: Config, lang: Seq<char>, ch: char, shift: bool) -> Option<Seq<char>> {
    match layout_action(c, lang, ch) {
        Some(a) => if shift && a.shift.len() > 0 {
            Some(a.shift)
        } else if a.tap.len() > 0 {
            Some(a.tap)
        } else {
            plain_text(c, lang, ch)
        },
        None => plain_text(c, lang, ch),
    }
}

/// What the layouts of a profile put out for a character while something is being composed.
pub open spec fn laid_out(c: Config, lang: Seq<char>, ch: char, shift: bool) -> Option<Seq<char>> {
    let plain = if shift {
        None
    } else {
        plain_text(c, lang, ch)
    };
    match layout_action(c, lang, ch) {
        Some(a) => if shift && a.shift.len() > 0 {
            Some(a.shift)
        } else if !shift && a.tap.len() > 0 {
            Some(a.tap)
        } else {
            plain
        },
        None => plain,
    }
}

/// What the layout of a profile says of a character.
pub(crate) fn find_layout_action<'a>(config: &'a ConfigManager, lang: &str, ch: char) -> (r: Option<&'a KeyAction>)
    ensures
        match layout_action(config@.config, lang@, ch) {
            Some(a) => r matches Some(k) && k@ == a,
            None => r is None,
        },
{
    let key = char_string(ch);
    proof {
        assert(key@ =~= seq![ch]);
    }
    match config.master_config.get().layouts.get(lang) {
        Some(l) => l.mappings.get(key.as_str()),
        None => None,
    }
}

/// What the plain layout of a profile puts out for a character.
fn find_plain_text(config: &ConfigManager, lang: &str, ch: char) -> (r: Option<String>)
    ensures
        config::opt_view(r) == plain_text(config@.config, lang@, ch),
{
    let key = char_string(ch);
    proof {
        assert(key@ =~= seq![ch]);
    }
    match config.master_config.get().input.keyboard_layouts.get(lang) {
        Some(l) => match l.get(key.as_str()) {
            Some(t) => Some(t.clone()),
            None => None,
        },
        None => None,
    }
}

/// What the layouts of a profile put out for a character when nothing is being composed.
fn lay_out_idle(config: &ConfigManager, lang: &str, ch: char, shift: bool) -> (r: Option<String>)
    ensures
        config::opt_view(r) == laid_out_idle(config@.config, lang@, ch, shift),
{
    if let Some(a) = find_layout_action(config, lang, ch) {
        if shift && !is_blank(a.shift.as_str()) {
            return Some(a.shift.clone());
        } else if !is_blank(a.tap.as_str()) {
            return Some(a.tap.clone());
        }
    }
    find_plain_text(config, lang, ch)
}

/// What the layouts of a profile put out for a character while something is being composed.
pub(crate) fn lay_out(config: &ConfigManager, lang: &str, ch: char, shift: bool) -> (r: Option<String>)
    ensures
        config::opt_view(r) == laid_out(config@.config, lang@, ch, shift),
{
    if let Some(a) = find_layout_action(config, lang, ch) {
        if shift && !is_blank(a.shift.as_str()) {
            return Some(a.shift.clone());
        } else if !shift && !is_blank(a.tap.as_str()) {
            return Some(a.tap.clone());
        }
    }
    if shift {
        None
    } else {
        find_plain_text(config, lang, ch)
    }
}

/// Everything once a letter has been typed where nothing was being composed, and what is done
/// on that account.
#[verifier::opaque]
pub open spec fn begun(w: World, c: char, p: Press) -> (World, Option<Act>) {
    match laid_out_idle(w.store.config, language(w), c, p.shift) {
        Some(t) => (w, Some(Act::Emit(t))),
        None => match maybe_looked_up(World { session: w.session.pushed(c), ..w }, p) {
            (w1, Some(a)) => (w1, Some(a)),
            (w1, None) => {
                let (w2, stop) = blocked(w1, w1.session.buffer, p.now);
                if stop {
                    (w2, Some(Act::Alert))
                } else {
                    (compositor::phantom_updated(w2).0, None)
                }
            },
        },
    }
}

/// Everything once a key has been pressed where nothing was being composed, and what comes of
/// it.
#[verifier::opaque]
pub open spec fn idled(w: World, p: Press) -> (World, Rep) {
    let typed = context::typed(w.table, p.key, p.shift, w.state.caps_lock_enabled);
    let rest = if context::mark_of(w.table, p.key, p.shift) is Some {
        Rep::Punctuation
    } else {
        Rep::Done(Act::PassThrough)
    };
    if p.key == VirtualKey::Enter || p.key == VirtualKey::Space {
        (w, Rep::Done(Act::PassThrough))
    } else if keys::digit_key(p.key) && typed is Some {
        (w, Rep::Done(Act::Emit(seq![typed->0])))
    } else if keys::letter_key(p.key) && typed is Some {
        match begun(w, typed->0, p) {
            (w1, Some(a)) => (w1, Rep::Done(a)),
            (w1, None) => (w1, rest),
        }
    } else {
        (w, rest)
    }
}

/// Types a letter where nothing was being composed.
fn begin(ctx: &mut EngineContext, c: char, p: Press) -> (r: Option<Action>)
    ensures
        (final(ctx)@, action::opt_act(r)) == begun(old(ctx)@, c, p),
{
    proof {
        reveal(begun);
    }
    let lang = to_lower(ctx.session_state.first_profile().as_str());
    if let Some(t) = lay_out_idle(&ctx.config, lang.as_str(), c, p.shift) {
        return Some(Action::Emit(t));
    }
    ctx.session.push_char(c);
    if let Some(a) = maybe_lookup(ctx, p) {
        return Some(a);
    }
    let b = ctx.session.buffer.clone();
    if should_block_invalid_input(ctx, b.as_str(), p.now) {
        return Some(Action::Alert);
    }
    let _ = Compositor::update_phantom_action(ctx);
    None
}

/// A key where nothing is being composed.
pub fn handle_idle(
    ctx: &mut EngineContext,
    key: VirtualKey,
    shift_pressed: bool,
    perform_lookup: bool,
    now: u64,
) -> (r: Reply)
    ensures
        (final(ctx)@, r@) == idled(
            old(ctx)@,
            Press { key, shift: shift_pressed, perform_lookup, now },
        ),
{
    let p = Press { key, shift: shift_pressed, perform_lookup, now };
    proof {
        reveal(idled);
    }
    if key == VirtualKey::Enter || key == VirtualKey::Space {
        return Reply::Done(Action::PassThrough);
    }
    let mark = ctx.key_table.get_punctuation_key(key, shift_pressed);
    let typed = ctx.key_table.key_to_char(
        key,
        shift_pressed,
        ctx.session_state.caps_lock_enabled,
    );
    if is_digit(key) {
        if let Some(c) = typed {
            let t = char_string(c);
            proof {
                assert(t@ =~= seq![c]);
            }
            return Reply::Done(Action::Emit(t));
        }
    }
    if is_letter(key) {
        if let Some(c) = typed {
            if let Some(a) = begin(ctx, c, p) {
                return Reply::Done(a);
            }
        }
    }
    left_over(mark)
}

/// A key that types nothing is left to the punctuation marks where it stands for one, and
/// handed on where it does not.
fn left_over(mark: Option<char>) -> (r: Reply)
    ensures
        r@ == (if mark is Some {
            Rep::Punctuation
        } else {
            Rep::Done(Act::PassThrough)
        }),
{
    match mark {
        Some(_) => Reply::Punctuation,
        None => Reply::Done(Action::PassThrough),
    }
}

} // verus!
