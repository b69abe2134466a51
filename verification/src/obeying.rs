//! What is promised of the keys: what each of them does to what is typed, to the choice, and to the
//! modes.

use vstd::prelude::*;
use crate::action::{Act, Command, FilterMode, ModifierState};
use crate::choosing;
use crate::commands;
use crate::composing;
use crate::compositor;
use crate::config::Config;
use crate::config_manager;
use crate::context;
use crate::context::World;
use crate::editing;
use crate::handlers;
use crate::handlers::Press;
use crate::hotkeys;
use crate::keys;
use crate::keys::VirtualKey;
use crate::pressing;
use crate::session::Session;
use crate::showing;
use crate::strmap;
use crate::text;
use crate::transition;

verus! {

/// Whether a session has some letters, or none because something was put out.
pub open spec fn has_letters(s: Session, letters: Seq<char>) -> bool {
    s.buffer == letters || s.buffer.len() == 0
}

/// What is shown in the application changes no letter.
pub proof fn lemma_phantom_keeps(w: World)
    ensures
        compositor::phantom_updated(w).0.session.buffer == w.session.buffer,
{
    reveal(compositor::phantom_updated);
}

/// Looking up where that is asked for keeps the letters, unless something is put out.
pub proof fn lemma_maybe_keeps(w: World, p: Press)
    ensures
        has_letters(handlers::maybe_looked_up(w, p).0.session, w.session.buffer),
{
    reveal(handlers::maybe_looked_up);
    showing::lemma_lookup_keeps_letters(w, p.now);
}

/// What is shown anew keeps the letters, unless something is put out.
pub proof fn lemma_refreshed_keeps(w: World, p: Press)
    ensures
        has_letters(handlers::refreshed(w, p).0.session, w.session.buffer),
{
    reveal(handlers::refreshed);
    lemma_maybe_keeps(w, p);
    lemma_phantom_keeps(handlers::maybe_looked_up(w, p).0);
}

/// What is typed stays once it is looked up, unless it is taken back or something is put out.
pub proof fn lemma_settled_keeps(w: World, before: Seq<char>, p: Press)
    ensures
        has_letters(handlers::settled(w, None, p).0.session, w.session.buffer),
        has_letters(handlers::settled(w, Some(before), p).0.session, w.session.buffer) || has_letters(
            handlers::settled(w, Some(before), p).0.session,
            before,
        ),
{
    reveal(handlers::settled);
    lemma_maybe_keeps(w, p);
    let w1 = handlers::maybe_looked_up(w, p).0;
    lemma_rest_of_settling(w1, w1.session.buffer, p);
    lemma_rest_of_settling(w1, before, p);
}

proof fn lemma_rest_of_settling(w: World, before: Seq<char>, p: Press)
    ensures
        ({
            let (w2, stop) = handlers::blocked(w, before, p.now);
            let w3 = compositor::auto_committed(w2, p.now).0;
            &&& stop ==> has_letters(w2.session, before)
            &&& !stop ==> has_letters(w3.session, w.session.buffer)
            &&& !stop ==> has_letters(compositor::phantom_updated(w3).0.session, w.session.buffer)
        }),
{
    showing::law_only_letters_that_lead_nowhere_are_taken_back(w, before, p.now);
    let w2 = handlers::blocked(w, before, p.now).0;
    showing::lemma_auto_keeps(w2, p.now);
    lemma_phantom_keeps(compositor::auto_committed(w2, p.now).0);
}

/// A letter key puts its character behind the letters, whatever is found for them: afterwards they
/// are the letters with the character, or none because something was put out.
pub proof fn law_letter_keys_type(w: World, p: Press, c: char)
    requires
        context::typed(w.table, p.key, p.shift, w.state.caps_lock_enabled) == Some(c),
        w.session.filter_mode == FilterMode::Off,
        p.shift || !w.store.config.input.enable_double_tap,
        text::byte_len(w.session.buffer) < 64,
    ensures
        composing::letter_typed(w, p).1 is Some,
        has_letters(composing::letter_typed(w, p).0.session, w.session.buffer.push(c)),
{
    reveal(composing::letter_typed);
    reveal(composing::letter_filtered);
    reveal(composing::struck);
    let w1 = World { dispatch: composing::untapped(w.dispatch), ..w };
    assert(composing::letter_typed(w, p) == composing::letter_put(w1, p));
    lemma_char_put(w1, c, p);
    reveal(composing::letter_put);
}

proof fn lemma_char_put(w: World, c: char, p: Press)
    requires
        text::byte_len(w.session.buffer) < 64,
    ensures
        has_letters(composing::char_put(w, c, p).0.session, w.session.buffer.push(c)),
{
    reveal(composing::char_put);
    reveal(composing::typed_in);
    let w1 = World { session: composing::typed_in(w.session, c, p.shift), ..w };
    lemma_settled_keeps(w1, Seq::empty(), p);
}

/// While an auxiliary code is typed, a letter key goes behind the code and the letters stay.
pub proof fn law_letter_keys_type_the_code(w: World, p: Press, c: char)
    requires
        context::typed(w.table, p.key, false, w.state.caps_lock_enabled) == Some(c),
        w.session.filter_mode == FilterMode::Global,
    ensures
        composing::letter_typed(w, p).1 is Some,
        has_letters(composing::letter_typed(w, p).0.session, w.session.buffer),
        w.session.filter_typed(c).aux_filter == w.session.aux_filter.push(c),
        w.session.filter_typed(c).filter_mode == FilterMode::Global,
        w.session.filter_typed(c).buffer == w.session.buffer,
{
    reveal(composing::letter_typed);
    reveal(composing::letter_filtered);
    lemma_refreshed_keeps(World { session: w.session.filter_typed(c), ..w }, p);
}

/// The code is taken back letter by letter, and with its last letter the filter is off again.
pub proof fn law_code_is_taken_back(s: Session, c: char)
    requires
        s.filter_mode == FilterMode::Global,
        s.aux_filter.len() > 0,
    ensures
        s.filter_typed(c).filter_popped().aux_filter == s.aux_filter,
        s.filter_typed(c).filter_popped().filter_mode == FilterMode::Global,
        s.aux_filter.len() == 1 ==> s.filter_popped().filter_mode == FilterMode::Off
            && s.filter_popped().aux_filter.len() == 0,
        s.filter_popped().buffer == s.buffer,
{
    assert(s.aux_filter.push(c).drop_last() =~= s.aux_filter);
}

/// Backspace takes back the last letter, and nothing else of the letters.
pub proof fn law_backspace_takes_back_a_letter(w: World, p: Press)
    requires
        w.session.buffer.len() > 0,
        w.session.filter_mode == FilterMode::Off,
        !w.state.capslock_down,
    ensures
        has_letters(editing::backspaced(w, p).0.session, w.session.buffer.drop_last()),
        w.session.buffer.len() == 1 ==> editing::backspaced(w, p).0.session.buffer.len() == 0
            && editing::backspaced(w, p).0.session.candidates.len() == 0,
{
    reveal(editing::backspaced);
    lemma_shortened(w, w.session.popped(), p);
    if w.session.buffer.len() == 1 {
        reveal(editing::shortened);
    }
}

proof fn lemma_shortened(w: World, s: Session, p: Press)
    ensures
        has_letters(editing::shortened(w, s, p).0.session, s.buffer),
{
    reveal(editing::shortened);
    lemma_refreshed_keeps(World { session: s, ..w }, p);
}

/// With the caps lock held, backspace takes back the last syllable.
pub proof fn law_backspace_takes_back_a_syllable(w: World, p: Press)
    requires
        w.session.buffer.len() > 0,
        w.state.capslock_down,
        w.session.best_segmentation.len() > 0,
        w.session.best_segmentation.last().len() < w.session.buffer.len(),
    ensures
        has_letters(
            editing::backspaced(w, p).0.session,
            w.session.buffer.take(
                w.session.buffer.len() - w.session.best_segmentation.last().len(),
            ),
        ),
{
    reveal(editing::backspaced);
    let n = w.session.best_segmentation.last().len() as int;
    lemma_popped_times(w.session, n);
    lemma_shortened(w, editing::popped_times(w.session, n), p);
}

proof fn lemma_popped_times(s: Session, n: int)
    requires
        0 <= n < s.buffer.len(),
    ensures
        editing::popped_times(s, n).buffer == s.buffer.take(s.buffer.len() - n),
    decreases n,
{
    if n > 0 {
        lemma_popped_times(s, n - 1);
        lemma_popped_times(s.popped(), n - 1);
        assert(s.popped().buffer.take(s.popped().buffer.len() - (n - 1)) =~= s.buffer.take(
            s.buffer.len() - n,
        ));
        assert(s.buffer.take(s.buffer.len() - (n - 1)).drop_last() =~= s.buffer.take(
            s.buffer.len() - n,
        ));
    } else {
        assert(s.buffer.take(s.buffer.len() as int) =~= s.buffer);
    }
}

/// While navigating, H and L choose the candidate before and the next one, K and J turn to the page
/// before and to the next one.
pub proof fn law_letters_steer(w: World, p: Press)
    requires
        w.session.nav_mode,
        w.store.config.appearance.page_size > 0,
        0 <= w.session.page,
        0 <= w.session.selected < w.session.candidates.len(),
    ensures
        ({
            let n = w.store.config.appearance.page_size as int;
            let s = w.session;
            let r = composing::navigated(w, p);
            &&& p.key == VirtualKey::H && s.selected > 0 ==> r.0.session.selected == s.selected - 1
            &&& p.key == VirtualKey::L && s.selected + 1 < s.candidates.len()
                ==> r.0.session.selected == s.selected + 1
            &&& p.key == VirtualKey::K && s.page >= n ==> r.0.session.page == s.page - n
            &&& p.key == VirtualKey::J && s.page + n < s.candidates.len() ==> r.0.session.page
                == s.page + n
            &&& (p.key == VirtualKey::H || p.key == VirtualKey::J || p.key == VirtualKey::K || p.key
                == VirtualKey::L) ==> r.1 is Some && r.0.session.buffer == s.buffer
        }),
{
    reveal(composing::navigated);
    choosing::law_moving_changes_only_the_choice(w, p.now);
}

proof fn lemma_command_of(m: Seq<context::KeyBinding>, key: VirtualKey, mods: ModifierState, i: int, k: int)
    requires
        0 <= i <= k < m.len(),
        m[k].0 == (key, mods),
        forall|x: int| i <= x < k ==> (#[trigger] m[x]).0 != (key, mods),
    ensures
        context::command_of(m, key, mods, i) == Some(m[k].1),
    decreases k - i,
{
    if i < k {
        assert(m[i].0 != (key, mods));
        lemma_command_of(m, key, mods, i + 1, k);
    }
}

/// Under any settings, the arrow keys move the choice and turn the pages, the space bar puts out the
/// chosen candidate, enter the letters, and escape gives them up.
pub proof fn law_keys_have_their_commands(w: World, conf: Config)
    ensures
        ({
            let m = w.under(conf).dispatch.map;
            let none = ModifierState { shift: false, ctrl: false, alt: false, meta: false };
            &&& context::command_of(m, VirtualKey::Left, none, 0) == Some(Command::PrevCandidate)
            &&& context::command_of(m, VirtualKey::Right, none, 0) == Some(Command::NextCandidate)
            &&& context::command_of(m, VirtualKey::Up, none, 0) == Some(Command::PrevPage)
            &&& context::command_of(m, VirtualKey::Down, none, 0) == Some(Command::NextPage)
            &&& context::command_of(m, VirtualKey::PageUp, none, 0) == Some(Command::PrevPage)
            &&& context::command_of(m, VirtualKey::PageDown, none, 0) == Some(Command::NextPage)
            &&& context::command_of(m, VirtualKey::Space, none, 0) == Some(Command::Commit)
            &&& context::command_of(m, VirtualKey::Enter, none, 0) == Some(Command::CommitRaw)
            &&& context::command_of(m, VirtualKey::Esc, none, 0) == Some(Command::Clear)
            &&& context::command_of(m, VirtualKey::Delete, none, 0) == Some(Command::Clear)
        }),
{
    let m = context::default_map();
    let none = ModifierState { shift: false, ctrl: false, alt: false, meta: false };
    lemma_command_of(m, VirtualKey::Left, none, 0, 0);
    lemma_command_of(m, VirtualKey::Right, none, 0, 1);
    lemma_command_of(m, VirtualKey::Up, none, 0, 2);
    lemma_command_of(m, VirtualKey::Down, none, 0, 3);
    lemma_command_of(m, VirtualKey::PageUp, none, 0, 4);
    lemma_command_of(m, VirtualKey::PageDown, none, 0, 5);
    lemma_command_of(m, VirtualKey::Space, none, 0, 6);
    lemma_command_of(m, VirtualKey::Enter, none, 0, 7);
    lemma_command_of(m, VirtualKey::Esc, none, 0, 8);
    lemma_command_of(m, VirtualKey::Delete, none, 0, 9);
}

/// A key that has a command carries it out. With the arrow keys exchanged, up and down choose
/// candidates and left turns to the page before.
pub proof fn law_keys_carry_out_their_commands(w: World, p: Press, cmd: Command)
    requires
        composing::mapped_command(w, p) == Some(cmd),
        !(p.key == VirtualKey::Space && p.shift),
    ensures
        ({
            let swap = w.store.config.input.swap_arrow_keys;
            let done = if swap && p.key == VirtualKey::Up && cmd == Command::PrevPage {
                Command::PrevCandidate
            } else if swap && p.key == VirtualKey::Down && cmd == Command::NextPage {
                Command::NextCandidate
            } else if swap && p.key == VirtualKey::Left && cmd == Command::PrevCandidate {
                Command::PrevPage
            } else {
                cmd
            };
            &&& composing::mapped(w, p).0 == commands::executed(w, done, p.now).0
            &&& composing::mapped(w, p).1 == Some(commands::executed(w, done, p.now).1)
        }),
{
    reveal(composing::mapped);
}

/// With shift, the space bar puts out the hint of the chosen candidate, where it has one.
pub proof fn law_shift_space_puts_out_the_hint(w: World, p: Press, cmd: Command)
    requires
        composing::mapped_command(w, p) == Some(cmd),
        p.key == VirtualKey::Space,
        p.shift,
        0 <= w.session.selected < w.session.candidates.len(),
        w.session.candidates[w.session.selected].hint.len() > 0,
    ensures
        composing::mapped(w, p).1 is Some,
        choosing::puts_out(
            w,
            composing::mapped(w, p).1->0,
            w.session.candidates[w.session.selected].hint,
        ),
{
    reveal(composing::mapped);
    choosing::lemma_committed(
        w,
        w.session.candidates[w.session.selected].hint,
        commands::NOT_CHOSEN as int,
        p.now,
    );
}

proof fn lemma_texts_under(v: Seq<(Seq<char>, Seq<char>)>, k: Seq<char>, i: int)
    requires
        0 <= i < v.len(),
        text::lowercase(v[i].0) == k,
        forall|j: int| i < j < v.len() ==> text::lowercase((#[trigger] v[j]).0) != k,
    ensures
        strmap::lookup(config_manager::texts_under(v), k) == Some(v[i].1),
    decreases v.len(),
{
    let d = v.drop_last();
    let last = v[v.len() - 1];
    strmap::law_put_lookup(config_manager::texts_under(d), text::lowercase(last.0), last.1, k);
    if i < v.len() - 1 {
        assert(text::lowercase(last.0) != k);
        assert forall|j: int| i < j < d.len() implies text::lowercase((#[trigger] d[j]).0) != k by {
            assert(d[j] == v[j]);
        }
        lemma_texts_under(d, k, i);
    }
}

/// With quick finals on and the caps lock held, a letter that has a quick final gives its text, by the
/// last of the settings for it.
pub proof fn law_quick_finals_are_put_in(w: World, key: VirtualKey, c: char, i: int)
    requires
        w.state.capslock_down,
        w.store.config.enable_quick_finals,
        keys::letter_key(key),
        context::typed(w.table, key, false, false) == Some(c),
        0 <= i < w.store.config.quick_finals@.len(),
        text::lowercase(w.store.config.quick_finals@[i].key@) == seq![c],
        forall|j: int|
            i < j < w.store.config.quick_finals@.len() ==> text::lowercase(
                (#[trigger] w.store.config.quick_finals@[j]).key@,
            ) != seq![c],
    ensures
        pressing::quick_final(w, key) == Some(w.store.config.quick_finals@[i].final_text@),
{
    let v = config_manager::final_pairs(w.store.config.quick_finals@);
    assert forall|j: int| i < j < v.len() implies text::lowercase((#[trigger] v[j]).0) != seq![c] by {
        assert(v[j].0 == w.store.config.quick_finals@[j].key@);
    }
    reveal(pressing::quick_final);
    lemma_texts_under(v, seq![c], i);
}

/// Without quick finals, or without the caps lock held, no letter gives a quick final.
pub proof fn law_no_quick_finals_unasked(w: World, key: VirtualKey)
    requires
        !w.store.config.enable_quick_finals || !w.state.capslock_down || !keys::letter_key(key),
    ensures
        pressing::quick_final(w, key) is None,
{
    reveal(pressing::quick_final);
}

/// A text that is put in goes behind the letters, as far as there is room for it.
pub proof fn law_text_goes_behind_the_letters(w: World, t: Seq<char>, now: u64)
    requires
        text::byte_len(w.session.buffer) + text::byte_len(t) <= 64,
        t.len() > 0,
    ensures
        pressing::injected(w.session, t).buffer == w.session.buffer + t,
        has_letters(pressing::text_injected(w, t, now).0.session, w.session.buffer + t),
{
    let n = text::byte_len(t) as int;
    let b = vstd::utf8::encode_utf8(t);
    assert(b.subrange(0, n) =~= b);
    vstd::utf8::encode_utf8_decode_utf8(t);
    assert(w.session.fitting(t) == t);
    lemma_injected(w, t, now);
}

proof fn lemma_injected(w: World, t: Seq<char>, now: u64)
    ensures
        has_letters(
            pressing::text_injected(w, t, now).0.session,
            pressing::injected(w.session, t).buffer,
        ),
{
    reveal(pressing::text_injected);
    let w1 = World { session: pressing::injected(w.session, t), ..w };
    showing::lemma_lookup_keeps_letters(w1, now);
    let w2 = crate::lookup::looked_up(w1, now).0;
    showing::lemma_auto_keeps(w2, now);
    lemma_phantom_keeps(compositor::auto_committed(w2, now).0);
}

/// A letter struck twice in time gives the text that is set for it in its place, and the letters
/// before it stay. Otherwise the letter is noted, and nothing comes of it but the letter.
pub proof fn law_double_strokes_replace_the_letter(w: World, p: Press, c: char, t: Seq<char>)
    requires
        w.store.config.input.enable_double_tap,
        !p.shift,
        context::typed(w.table, p.key, false, w.state.caps_lock_enabled) == Some(c),
        composing::replacement(w.store.config, handlers::language(w), c) == Some(t),
        w.session.buffer.len() > 0,
        w.session.buffer.last() == c,
    ensures
        w.dispatch.tap_key == Some(p.key) && w.dispatch.tap_time is Some && p.now
            >= w.dispatch.tap_time->0 && p.now - w.dispatch.tap_time->0
            <= w.store.config.input.double_tap_timeout_ms ==> {
            &&& composing::struck(w, p).1 is Some
            &&& has_letters(composing::struck(w, p).0.session, w.session.buffer.drop_last() + t)
        },
        w.dispatch.tap_key != Some(p.key) || (w.dispatch.tap_time is Some && p.now
            > w.dispatch.tap_time->0 && p.now - w.dispatch.tap_time->0
            > w.store.config.input.double_tap_timeout_ms) ==> {
            &&& composing::struck(w, p).1 is None
            &&& composing::struck(w, p).0.session == w.session
            &&& composing::struck(w, p).0.dispatch.tap_key == Some(p.key)
            &&& composing::struck(w, p).0.dispatch.tap_time == Some(p.now)
        },
{
    reveal(composing::struck);
    reveal(composing::doubled);
    lemma_replaced(w, t, p);
}

proof fn lemma_replaced(w: World, t: Seq<char>, p: Press)
    ensures
        has_letters(composing::replaced(w, t, p).0.session, w.session.buffer.drop_last() + t),
{
    reveal(composing::replaced);
    let s = Session { buffer: w.session.buffer.drop_last() + t, ..w.session };
    lemma_refreshed_keeps(
        World { session: s, dispatch: composing::untapped(w.dispatch), ..w },
        p,
    );
}

/// Whether a key turns Chinese on and off: the space bar with control, and the tab key while nothing
/// is typed, each where it is asked for.
pub open spec fn turns_chinese(w: World, key: VirtualKey, ctrl: bool) -> bool {
    let h = w.store.config.hotkeys;
    (key == VirtualKey::Space && ctrl && h.enable_ctrl_space_toggle) || (key == VirtualKey::Tab
        && w.session.buffer.len() == 0 && h.enable_tab_toggle)
}

/// A key that turns Chinese on and off changes nothing else, and pressed twice it leaves everything as
/// it was.
pub proof fn law_chinese_is_turned_on_and_off(w: World, key: VirtualKey, ctrl: bool, shift: bool)
    requires
        turns_chinese(w, key, ctrl),
    ensures
        hotkeys::mode_switched(w, key, ctrl, shift).1 is Some,
        hotkeys::mode_switched(w, key, ctrl, shift).0.state.chinese_enabled
            == !w.state.chinese_enabled,
        hotkeys::mode_switched(w, key, ctrl, shift).0.session == w.session,
        hotkeys::mode_switched(hotkeys::mode_switched(w, key, ctrl, shift).0, key, ctrl, shift).0 == w,
{
    let r = World { state: hotkeys::switched(w.state), ..w };
    assert(hotkeys::mode_switched(w, key, ctrl, shift) == (r, Some(Act::Consume))) by {
        reveal(hotkeys::mode_switched);
    }
    assert(hotkeys::mode_switched(r, key, ctrl, shift).0 == World {
        state: hotkeys::switched(r.state),
        ..r
    }) by {
        reveal(hotkeys::mode_switched);
    }
}

/// While something is typed, the tab key turns navigating on and off and changes nothing else, and
/// pressed twice it leaves everything as it was.
pub proof fn law_navigating_is_turned_on_and_off(w: World, ctrl: bool, shift: bool)
    requires
        w.session.buffer.len() > 0,
    ensures
        ({
            let (r, a) = hotkeys::mode_switched(w, VirtualKey::Tab, ctrl, shift);
            &&& a is Some
            &&& r.session.nav_mode == !w.session.nav_mode
            &&& r.session.buffer == w.session.buffer
            &&& r.state == w.state
            &&& hotkeys::mode_switched(r, VirtualKey::Tab, ctrl, shift).0 == w
        }),
{
    let r = World { session: Session { nav_mode: !w.session.nav_mode, ..w.session }, ..w };
    assert(hotkeys::mode_switched(w, VirtualKey::Tab, ctrl, shift) == (r, Some(Act::Consume))) by {
        reveal(hotkeys::mode_switched);
    }
    assert(hotkeys::mode_switched(r, VirtualKey::Tab, ctrl, shift).0 == World {
        session: Session { nav_mode: !r.session.nav_mode, ..r.session },
        ..r
    }) by {
        reveal(hotkeys::mode_switched);
    }
}

/// Other keys switch no mode.
pub proof fn law_other_keys_switch_no_mode(w: World, key: VirtualKey, ctrl: bool, shift: bool)
    requires
        !turns_chinese(w, key, ctrl),
        key != VirtualKey::CapsLock,
        key != VirtualKey::Tab || w.session.buffer.len() == 0,
    ensures
        hotkeys::mode_switched(w, key, ctrl, shift) == (w, None::<Act>),
{
    reveal(hotkeys::mode_switched);
}

/// Caps lock with shift changes the lock, and twice leaves everything as it was. Without shift it
/// turns Chinese on and off while nothing is typed, and is held down while something is.
pub proof fn law_caps_lock(w: World, ctrl: bool)
    ensures
        ({
            let (r, a) = hotkeys::mode_switched(w, VirtualKey::CapsLock, ctrl, true);
            &&& a == Some(Act::PassThrough)
            &&& r.state.caps_lock_enabled == !w.state.caps_lock_enabled
            &&& r.state.chinese_enabled == w.state.chinese_enabled
            &&& hotkeys::mode_switched(r, VirtualKey::CapsLock, ctrl, true).0 == w
        }),
        ({
            let (r, a) = hotkeys::mode_switched(w, VirtualKey::CapsLock, ctrl, false);
            &&& a == Some(Act::Consume)
            &&& r.session == w.session
            &&& r.state.caps_lock_enabled == w.state.caps_lock_enabled
            &&& r.state.chinese_enabled == (w.state.chinese_enabled != (w.session.buffer.len() == 0))
            &&& w.session.buffer.len() > 0 ==> r.state.capslock_down
            &&& r.state.capslock_combo_active
        }),
{
    reveal(hotkeys::mode_switched);
}

/// With the combination for it, the form is switched between simplified and traditional, and back.
pub proof fn law_form_is_switched(w: World)
    requires
        w.state.capslock_combo_active,
    ensures
        transition::combined(w, VirtualKey::F).1 is Some,
        transition::combined(w, VirtualKey::F).0.state.traditional_enabled
            == !w.state.traditional_enabled,
        transition::combined(w, VirtualKey::F).0.session == w.session,
        pressing::form_switched(pressing::form_switched(w.state)).traditional_enabled
            == w.state.traditional_enabled,
{
    reveal(transition::combined);
}

proof fn lemma_profiles_of(v: Seq<(Seq<char>, Seq<char>)>, key: Seq<char>, i: int, k: int)
    requires
        0 <= i <= k < v.len(),
        text::lowercase(v[k].0) == key,
        forall|x: int| i <= x < k ==> text::lowercase((#[trigger] v[x]).0) != key,
    ensures
        hotkeys::profiles_of(v, key, i) == Some(v[k].1),
    decreases k - i,
{
    if i < k {
        assert(text::lowercase(v[i].0) != key);
        lemma_profiles_of(v, key, i + 1, k);
    }
}

/// The key of a profile turns to that profile: what is typed and the history are given up, and the
/// profiles are the one that the settings name for the key, or those that they name with commas. A key
/// without a profile changes neither.
pub proof fn law_profile_keys_choose_profiles(w: World, key: VirtualKey)
    ensures
        ({
            let (r, a) = hotkeys::profile_switched(w, key);
            &&& hotkeys::key_profiles(w, key) matches Some(p) ==> {
                &&& a is Some
                &&& r.state.history.len() == 0
                &&& r.session.buffer.len() == 0
                &&& (forall|i: int| 0 <= i < p.len() ==> #[trigger] p[i] != ',') ==> r.state.profiles
                    == seq![p]
            }
            &&& hotkeys::key_profiles(w, key) is None ==> a is None && r.state.profiles
                == w.state.profiles && r.session == w.session
        }),
{
    reveal(hotkeys::profile_switched);
    if let Some(p) = hotkeys::key_profiles(w, key) {
        if forall|i: int| 0 <= i < p.len() ==> #[trigger] p[i] != ',' {
            let c = seq![','];
            assert(c[0] == ',');
            assert(c.contains(','));
            assert forall|i: int| 0 <= i < p.len() implies !c.contains(#[trigger] p[i]) by {}
            text::law_fields_are_cut_at_separators(p, ',', Seq::empty(), c);
        }
    }
}

/// The first profile that the settings name for the letter of a key is that of the key.
pub proof fn law_key_of_a_profile(w: World, key: VirtualKey, c: char, k: int)
    requires
        context::typed(w.table, key, false, false) == Some(c),
        0 <= k < w.store.config.input.profile_keys@.len(),
        text::lowercase(text::lowercase(w.store.config.input.profile_keys@[k].key@)) == text::small(c),
        forall|j: int|
            0 <= j < k ==> text::lowercase(
                text::lowercase((#[trigger] w.store.config.input.profile_keys@[j]).key@),
            ) != text::small(c),
    ensures
        hotkeys::key_profiles(w, key) == Some(
            text::lowercase(w.store.config.input.profile_keys@[k].profile@),
        ),
{
    reveal(hotkeys::key_profiles);
    let v = config_manager::profile_pairs(w.store.config);
    assert forall|x: int| 0 <= x < k implies text::lowercase((#[trigger] v[x]).0) != text::small(c) by {
        assert(v[x].0 == text::lowercase(w.store.config.input.profile_keys@[x].key@));
    }
    lemma_profiles_of(v, text::small(c), 0, k);
}

/// A punctuation mark typed with control puts out what is composed and then the mark: the sentence,
/// else the first candidate, else the letters, without white space at the end.
pub proof fn law_marks_follow_what_is_composed(w: World, key: VirtualKey, shift: bool, m: char)
    requires
        context::mark_of(w.table, key, shift) == Some(m),
    ensures
        ({
            let (r, a) = hotkeys::marked(w, key, shift);
            let s = w.session;
            let t = if s.joined_sentence.len() > 0 {
                s.joined_sentence
            } else if s.candidates.len() > 0 {
                s.candidates[0].text
            } else {
                s.buffer
            };
            &&& a is Some
            &&& a->0 is DeleteAndEmit
            &&& a->0->DeleteAndEmit_0 == s.phantom_text.len()
            &&& a->0->DeleteAndEmit_1.len() > 0
            &&& a->0->DeleteAndEmit_1.last() == m
            &&& a->0->DeleteAndEmit_1.drop_last() == text::trimmed_end(t)
            &&& t.len() > 0 && !text::is_space(t.last()) ==> a->0->DeleteAndEmit_1 == t.push(m)
            &&& r.session.buffer.len() == 0
            &&& r.state.history.len() == 0
        }),
{
    reveal(hotkeys::marked);
    let t = hotkeys::whole(w.session);
    assert(t.push(m).drop_last() =~= t);
}

/// Home and end choose the first and the last candidate of the page, or of all.
pub proof fn law_home_and_end(s: Session, size: int)
    requires
        size > 0,
        0 <= s.page < s.candidates.len(),
    ensures
        editing::at_home(s, false).selected == s.page,
        editing::at_home(s, false).page == s.page,
        editing::at_home(s, true).selected == 0,
        editing::at_home(s, true).page == 0,
        editing::at_end(s, true, size).selected == s.candidates.len() - 1,
        editing::at_end(s, true, size).page <= s.candidates.len() - 1 < editing::at_end(
            s,
            true,
            size,
        ).page + size,
        s.page + size <= s.candidates.len() ==> editing::at_end(s, false, size).selected == s.page
            + size - 1,
        s.page + size > s.candidates.len() ==> editing::at_end(s, false, size).selected
            == s.candidates.len() - 1,
        editing::at_end(s, false, size).page == s.page,
{
    let last = s.candidates.len() - 1;
    vstd::arithmetic::div_mod::lemma_fundamental_div_mod(last, size);
    vstd::arithmetic::div_mod::lemma_mod_bound(last, size);
    assert((last / size) * size == size * (last / size)) by (nonlinear_arith);
}

proof fn lemma_first_kept(s: Seq<Seq<char>>, f: spec_fn(Seq<char>) -> bool, k: int)
    requires
        0 <= k < s.len(),
        f(s[k]),
        forall|j: int| 0 <= j < k ==> !f(#[trigger] s[j]),
    ensures
        s.filter(f).len() > 0,
        s.filter(f)[0] == s[k],
    decreases s.len(),
{
    reveal(Seq::filter);
    let d = s.drop_last();
    if k < d.len() {
        lemma_first_kept(d, f, k);
    } else {
        lemma_none_kept(d, f);
    }
}

proof fn lemma_none_kept(s: Seq<Seq<char>>, f: spec_fn(Seq<char>) -> bool)
    requires
        forall|j: int| 0 <= j < s.len() ==> !f(#[trigger] s[j]),
    ensures
        s.filter(f).len() == 0,
    decreases s.len(),
{
    reveal(Seq::filter);
    if s.len() > 0 {
        assert forall|j: int| 0 <= j < s.drop_last().len() implies !f(#[trigger] s.drop_last()[j]) by {
            assert(s.drop_last()[j] == s[j]);
        }
        lemma_none_kept(s.drop_last(), f);
    }
}

/// Settings that are taken are those that hold. The profile is the default one where it has a
/// dictionary, and the dictionaries are to be loaded anew; what is typed and learned stays.
pub proof fn law_settings_take_hold(w: World, conf: Config)
    ensures
        w.under(conf).store.config == conf,
        w.under(conf).store.learned == w.store.learned,
        w.under(conf).session == w.session,
        w.under(conf).engine.stale,
        w.under(conf).state.history == w.state.history,
        text::lowercase(conf.input.default_profile@).len() > 0 && w.engine.profiles.contains(
            text::lowercase(conf.input.default_profile@),
        ) ==> w.under(conf).state.profiles == seq![text::lowercase(conf.input.default_profile@)],
{
    reveal(context::profiles_under);
}

/// Where the default profile has no dictionary, the first enabled one that has one takes its place.
pub proof fn law_first_enabled_profile_stands_in(w: World, conf: Config, k: int)
    requires
        !w.engine.profiles.contains(text::lowercase(conf.input.default_profile@)),
        0 <= k < conf.input.enabled_profiles@.len(),
        w.engine.profiles.contains(text::lowercase(conf.input.enabled_profiles@[k]@)),
        forall|j: int|
            0 <= j < k ==> !w.engine.profiles.contains(
                text::lowercase((#[trigger] conf.input.enabled_profiles@[j])@),
            ),
    ensures
        w.under(conf).state.profiles == seq![text::lowercase(conf.input.enabled_profiles@[k]@)],
{
    reveal(context::profiles_under);
    reveal(context::enabled_profiles);
    let names = conf.input.enabled_profiles@;
    let s = text::texts(names).map_values(|p: Seq<char>| text::lowercase(p));
    let f = context::has_dictionary(w.engine.profiles);
    assert forall|j: int| 0 <= j < names.len() implies (#[trigger] s[j]) == text::lowercase(names[j]@) by {
        assert(text::texts(names)[j] == names[j]@);
    }
    lemma_first_kept(s, f, k);
}

/// While nothing is typed, enter and the space bar are left to the application, and a digit is put out
/// as it is.
pub proof fn law_idle_keys_are_let_through(w: World, p: Press, c: char)
    ensures
        p.key == VirtualKey::Enter || p.key == VirtualKey::Space ==> handlers::idled(w, p) == (
            w,
            handlers::Rep::Done(Act::PassThrough),
        ),
        keys::digit_key(p.key) && context::typed(
            w.table,
            p.key,
            p.shift,
            w.state.caps_lock_enabled,
        ) == Some(c) ==> handlers::idled(w, p) == (w, handlers::Rep::Done(Act::Emit(seq![c]))),
{
    reveal(handlers::idled);
}

/// A letter struck twice gives the text of the last of the settings for it, where no layout has one of
/// its own.
pub proof fn law_double_strokes_have_their_texts(c: Config, lang: Seq<char>, ch: char, i: int)
    requires
        handlers::layout_action(c, lang, ch) is None,
        0 <= i < c.input.double_taps@.len(),
        text::lowercase(c.input.double_taps@[i].trigger_key@) == seq![ch],
        forall|j: int|
            i < j < c.input.double_taps@.len() ==> text::lowercase(
                (#[trigger] c.input.double_taps@[j]).trigger_key@,
            ) != seq![ch],
    ensures
        composing::replacement(c, lang, ch) == Some(c.input.double_taps@[i].insert_text@),
{
    let v = config_manager::tap_pairs(c.input.double_taps@);
    assert forall|j: int| i < j < v.len() implies text::lowercase((#[trigger] v[j]).0) != seq![ch] by {
        assert(v[j].0 == c.input.double_taps@[j].trigger_key@);
    }
    lemma_texts_under(v, seq![ch], i);
}

/// A letter struck twice without a text of its own begins a code where the settings name it, and does
/// nothing more where they do not.
pub proof fn law_double_strokes_begin_codes(w: World, c: char, p: Press)
    requires
        composing::replacement(w.store.config, handlers::language(w), c) is None,
        w.session.buffer.len() > 1,
        w.session.buffer.last() == c,
    ensures
        text::texts(w.store.config.options.double_tap_uppercase_keys@).contains(seq![c])
            ==> composing::doubled(w, c, p).1 is Some && has_letters(
            composing::doubled(w, c, p).0.session,
            w.session.buffer.drop_last(),
        ),
        !text::texts(w.store.config.options.double_tap_uppercase_keys@).contains(seq![c])
            ==> composing::doubled(w, c, p) == (w, None::<Act>),
{
    let s = composing::begun_by(w.session, c);
    assert(s.buffer == w.session.buffer.drop_last()) by {
        reveal(composing::begun_by);
        reveal(composing::narrowed_by);
    }
    lemma_refreshed_keeps(
        World { session: s, dispatch: composing::untapped(w.dispatch), ..w },
        p,
    );
    reveal(composing::capitalised);
    reveal(composing::doubled);
}


} // verus!
