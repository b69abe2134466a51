//! A key while something is being composed: what it edits, chooses or types.

use vstd::prelude::*;
use vstd::utf8::*;
use crate::action;
use crate::action::{Act, Action, Command, FilterMode, ModifierState};
use crate::commands;
use crate::commands::{execute_command, finds_room};
use crate::composing;
use crate::composing::{do_mapped, find_put_out, forget_tap, holds_key, narrow, navigate, take, type_letter};
use crate::config_manager;
use crate::context;
use crate::context::{EngineContext, World};
use crate::handlers;
use crate::handlers::{refresh, settle, Press, Rep, Reply};
use crate::keys;
use crate::keys::{is_digit, is_letter, key_to_digit, VirtualKey};
use crate::segmentation;
use crate::session::{is_blank, page_of, InputSession, Session};
use crate::session_state::Lasting;
use crate::tables::FreqTable;
use crate::text;
use crate::text::{char_string, chars_of, sub_str};
use crate::trie;

verus! {

/// The place that a key chooses, by the first that it stands at from a place on.
pub open spec fn place_of(v: Seq<(VirtualKey, usize)>, key: VirtualKey, i: int) -> Option<usize>
    decreases v.len() - i,
{
    if i < 0 || i >= v.len() {
        None
    } else if v[i].0 == key {
        Some(v[i].1)
    } else {
        place_of(v, key, i + 1)
    }
}

/// The character of a word that a key chooses.
pub open spec fn char_chosen(w: World, key: VirtualKey) -> Option<usize> {
    let h = w.store.config.hotkeys;
    let names = if w.state.tab_down {
        h.word_to_char_shift@
    } else {
        h.word_to_char@
    };
    if w.session.has_dict_match {
        place_of(config_manager::keys_placed(text::texts(names)), key, 0)
    } else {
        None
    }
}

/// The command of a key that the settings name, while there are candidates.
#[verifier::opaque]
pub open spec fn key_command(w: World, key: VirtualKey) -> Option<Command> {
    let h = w.store.config.hotkeys;
    if w.session.candidates.len() == 0 {
        None
    } else if char_chosen(w, key) is Some {
        Some(Command::SelectChar(char_chosen(w, key)->0))
    } else if composing::among(h.page_up@, key) {
        Some(Command::PrevPage)
    } else if composing::among(h.page_down@, key) {
        Some(Command::NextPage)
    } else if composing::among(h.prev_candidate@, key) {
        Some(Command::PrevCandidate)
    } else if composing::among(h.next_candidate@, key) {
        Some(Command::NextCandidate)
    } else {
        None
    }
}

/// The place that a key chooses.
fn find_place(v: &Vec<(VirtualKey, usize)>, key: VirtualKey) -> (r: Option<usize>)
    ensures
        r == place_of(v@, key, 0),
{
    let mut i: usize = 0;
    while i < v.len()
        invariant
            i <= v.len(),
            place_of(v@, key, 0) == place_of(v@, key, i as int),
        decreases v.len() - i,
    {
        if v[i].0 == key {
            return Some(v[i].1);
        }
        i = i + 1;
    }
    None
}

/// The command of a key that the settings name.
fn find_command(ctx: &EngineContext, key: VirtualKey) -> (r: Option<Command>)
    ensures
        r == key_command(ctx@, key),
{
    proof {
        reveal(key_command);
    }
    if ctx.session.candidates.len() == 0 {
        return None;
    }
    if ctx.session.has_dict_match {
        let places = if ctx.session_state.tab_down {
            ctx.config.word_to_char_shift_keys()
        } else {
            ctx.config.word_to_char_keys()
        };
        if let Some(i) = find_place(&places, key) {
            return Some(Command::SelectChar(i));
        }
    }
    if holds_key(&ctx.config.page_up_keys(), key) {
        Some(Command::PrevPage)
    } else if holds_key(&ctx.config.page_down_keys(), key) {
        Some(Command::NextPage)
    } else if holds_key(&ctx.config.prev_candidate_keys(), key) {
        Some(Command::PrevCandidate)
    } else if holds_key(&ctx.config.next_candidate_keys(), key) {
        Some(Command::NextCandidate)
    } else {
        None
    }
}

/// Whether the end key finds the last candidate of a page, or of all.
pub open spec fn ends_whole(w: World, all: bool) -> bool {
    w.session.candidates.len() > 0 ==> composing::page_size(w) > 0 || (!all && w.session.page > 0)
}

/// Whether a key behind letters, past what may take it first, finds room on the page for what it
/// does.
pub open spec fn works_whole(w: World, p: Press) -> bool {
    match key_command(w, p.key) {
        Some(cmd) => commands::has_room(w, cmd),
        None => p.key == VirtualKey::End ==> ends_whole(w, p.shift),
    }
}

/// Whether a key is a letter that types a character.
pub open spec fn types_letter(w: World, p: Press) -> bool {
    keys::letter_key(p.key) && context::typed(
        w.table,
        p.key,
        p.shift,
        w.state.caps_lock_enabled,
    ) is Some
}

/// Whether a key that is pressed while something is being composed finds room on the page where
/// it asks for some, and cuts no character.
#[verifier::opaque]
pub open spec fn composes_whole(w: World, p: Press) -> bool {
    if composing::mapped_command(w, p) is Some {
        composing::maps_whole(w, p)
    } else if composing::navigates(w, p.key) {
        composing::navigates_whole(w, p.key)
    } else {
        types_letter(w, p) || works_whole(w, p)
    }
}

/// Whether a key that is pressed while something is being composed finds room on the page where
/// it asks for some, and cuts no character.
pub(crate) fn test_composing(ctx: &EngineContext, nav: bool, p: Press) -> (r: bool)
    ensures
        r == composes_whole(composing::with_nav(ctx@, nav), p),
{
    let ghost w = composing::with_nav(ctx@, nav);
    proof {
        reveal(composes_whole);
        reveal(key_command);
        reveal(composing::with_nav);
        assert(key_command(w, p.key) == key_command(ctx@, p.key));
        assert(composing::maps_whole(w, p) == composing::maps_whole(ctx@, p));
        assert(ctx@.session.candidates.len() == ctx.session.candidates@.len());
    }
    let mods = ModifierState { shift: p.shift, ctrl: false, alt: false, meta: false };
    if let Some(cmd) = ctx.dispatcher.command(p.key, mods) {
        return composing::finds_mapped_room(ctx, cmd, p);
    }
    let (takes, whole) = composing::test_navigating(ctx, nav, p.key);
    if takes {
        return whole;
    }
    if is_letter(p.key) {
        if let Some(_) = ctx.key_table.key_to_char(
            p.key,
            p.shift,
            ctx.session_state.caps_lock_enabled,
        ) {
            return true;
        }
    }
    match find_command(ctx, p.key) {
        Some(cmd) => finds_room(ctx, cmd),
        None => p.key != VirtualKey::End || ctx.session.candidates.len() == 0
            || ctx.config.page_size() > 0 || (!p.shift && ctx.session.page > 0),
    }
}

/// What a key finds does not hang on the state of the state machine or on caps lock.
pub(crate) proof fn lemma_composes_alike(w: World, v: World, p: Press)
    requires
        v.session == (Session { state: v.session.state, ..w.session }),
        v.state == (Lasting { capslock_pending: v.state.capslock_pending, ..w.state }),
        v.store == w.store,
        v.dispatch == w.dispatch,
        v.table == w.table,
    ensures
        composes_whole(w, p) == composes_whole(v, p),
{
    reveal(composes_whole);
    reveal(key_command);
    assert(key_command(w, p.key) == key_command(v, p.key));
}

/// The bytes of the longest syllable of two to `n` bytes at the end of letters, one if there is
/// none.
pub open spec fn last_syllable(freq: Map<Seq<char>, u64>, b: Seq<char>, n: int) -> int
    decreases n,
{
    let end = text::byte_len(b) as int;
    if n < 2 {
        1
    } else if text::on_boundary(b, end - n) && freq.contains_key(text::between(b, end - n, end)) {
        n
    } else {
        last_syllable(freq, b, n - 1)
    }
}

/// How many characters make up the last syllable.
pub open spec fn last_part(freq: Map<Seq<char>, u64>, s: Session) -> int {
    if s.best_segmentation.len() > 0 {
        s.best_segmentation.last().len() as int
    } else {
        last_syllable(freq, s.buffer, trie::least(text::byte_len(s.buffer) as int, 6))
    }
}

/// With characters taken back.
pub open spec fn popped_times(s: Session, n: int) -> Session
    decreases n,
{
    if n <= 0 {
        s
    } else {
        popped_times(s, n - 1).popped()
    }
}

/// How many characters make up the last syllable.
fn count_last(freq: &FreqTable, s: &InputSession) -> (r: usize)
    ensures
        r == last_part(freq@, s@),
{
    if s.best_segmentation.len() > 0 {
        return chars_of(s.best_segmentation[s.best_segmentation.len() - 1].as_str()).len();
    }
    let b = s.buffer.as_str();
    let end = b.as_bytes().len();
    let mut n: usize = if end < 6 {
        end
    } else {
        6
    };
    proof {
        encode_utf8_valid_utf8(b@);
        segmentation::lemma_end_is_boundary(b@);
    }
    while n >= 2
        invariant
            n <= end,
            n <= 6,
            b@ == s@.buffer,
            s@.best_segmentation.len() == 0,
            end == text::byte_len(b@),
            text::on_boundary(b@, end as int),
            last_syllable(freq@, b@, trie::least(end as int, 6)) == last_syllable(
                freq@,
                b@,
                n as int,
            ),
        decreases n,
    {
        if b.is_char_boundary(end - n) {
            let part = sub_str(b, end - n, end);
            if freq.contains_key(part) {
                return n;
            }
        }
        n = n - 1;
    }
    1
}

/// Takes characters back.
fn pop_times(s: &mut InputSession, n: usize)
    ensures
        final(s)@ == popped_times(old(s)@, n as int),
{
    let ghost start = s@;
    let mut i: usize = 0;
    while i < n
        invariant
            i <= n,
            s@ == popped_times(start, i as int),
        decreases n - i,
    {
        s.pop_char();
        i = i + 1;
    }
}

/// Everything once characters have been taken back, and what is done.
#[verifier::opaque]
pub open spec fn shortened(w: World, s: Session, p: Press) -> (World, Act) {
    let w1 = World { session: s, ..w };
    let shown = w.session.phantom_text.len() as int;
    if s.buffer.len() > 0 {
        handlers::refreshed(w1, p)
    } else if shown > 0 {
        (w1.after_reset(), Act::DeleteAndEmit(shown, Seq::empty()))
    } else {
        (w1.after_reset(), Act::Consume)
    }
}

/// Everything once the last character has been deleted, or the last syllable while caps lock is
/// held down, and what is done.
#[verifier::opaque]
pub open spec fn backspaced(w: World, p: Press) -> (World, Act) {
    let s = w.session;
    if w.state.capslock_down && s.buffer.len() > 0 {
        shortened(w, popped_times(s, last_part(w.engine.freq, s)), p)
    } else if s.filter_mode != FilterMode::Off {
        handlers::refreshed(World { session: s.filter_popped(), ..w }, p)
    } else if s.buffer.len() == 0 {
        (World { state: Lasting { history: Seq::empty(), ..w.state }, ..w }, Act::Consume)
    } else {
        shortened(w, s.popped(), p)
    }
}

/// Takes characters back.
fn shorten(ctx: &mut EngineContext, n: usize, p: Press) -> (r: Action)
    ensures
        (final(ctx)@, r@) == shortened(
            old(ctx)@,
            popped_times(old(ctx)@.session, n as int),
            p,
        ),
{
    proof {
        reveal(shortened);
    }
    let shown = chars_of(ctx.session.phantom_text.as_str()).len();
    pop_times(&mut ctx.session, n);
    if !is_blank(ctx.session.buffer.as_str()) {
        return refresh(ctx, p);
    }
    ctx.reset();
    if shown > 0 {
        let insert = String::new();
        Action::DeleteAndEmit { delete: shown, insert }
    } else {
        Action::Consume
    }
}

/// The backspace key.
fn backspace(ctx: &mut EngineContext, p: Press) -> (r: Action)
    ensures
        (final(ctx)@, r@) == backspaced(old(ctx)@, p),
{
    proof {
        reveal(backspaced);
        assert(popped_times(ctx@.session, 0) == ctx@.session);
        assert(popped_times(ctx@.session, 1) == ctx@.session.popped());
    }
    let empty = is_blank(ctx.session.buffer.as_str());
    if ctx.session_state.capslock_down && !empty {
        let n = count_last(&ctx.engine.syllable_freq, &ctx.session);
        return shorten(ctx, n, p);
    }
    if ctx.session.filter_mode != FilterMode::Off {
        ctx.session.pop_filter();
        return refresh(ctx, p);
    }
    if empty {
        ctx.session_state.clear_history();
        return Action::Consume;
    }
    shorten(ctx, 1, p)
}

/// With the first candidate of the page chosen, or the first of all.
pub open spec fn at_home(s: Session, all: bool) -> Session {
    if all {
        Session { selected: 0, page: 0, ..s }
    } else {
        Session { selected: s.page, ..s }
    }
}

/// With the last candidate of the page chosen, or the last of all.
pub open spec fn at_end(s: Session, all: bool, size: int) -> Session {
    let last = s.candidates.len() - 1;
    if s.candidates.len() == 0 {
        s
    } else if all {
        Session { selected: last, page: (last / size) * size, ..s }
    } else {
        Session { selected: trie::least(s.page + size - 1, last), ..s }
    }
}

/// Chooses the first candidate of the page, or the first of all.
fn go_home(s: &mut InputSession, all: bool)
    ensures
        final(s)@ == at_home(old(s)@, all),
{
    if all {
        s.selected = 0;
        s.page = 0;
    } else {
        s.selected = s.page;
    }
}

/// Chooses the last candidate of the page, or the last of all.
fn go_to_end(s: &mut InputSession, all: bool, size: usize)
    requires
        old(s)@.candidates.len() > 0 ==> size > 0 || (!all && old(s)@.page > 0),
    ensures
        final(s)@ == at_end(old(s)@, all, size as int),
{
    let n = s.candidates.len();
    if n == 0 {
        return ;
    }
    let last = n - 1;
    if all {
        s.selected = last;
        s.page = page_of(last, size);
    } else if s.page <= last && size <= last - s.page {
        s.selected = s.page + size - 1;
    } else if size == 0 && s.page - 1 <= last {
        s.selected = s.page - 1;
    } else {
        s.selected = last;
    }
}

/// Everything once a digit has been pressed, and what is done.
#[verifier::opaque]
pub open spec fn numbered(w: World, p: Press) -> (World, Act) {
    let digit = keys::key_number(p.key) - 26;
    let s = w.session;
    if 1 <= digit <= s.candidates.len() {
        commands::executed(w, Command::Select((digit - 1) as usize), p.now)
    } else {
        (
            World { session: Session { buffer: Seq::empty(), candidates: Seq::empty(), ..s }, ..w },
            Act::Emit(
                seq![
                    match context::typed(w.table, p.key, false, w.state.caps_lock_enabled) {
                        Some(c) => c,
                        None => '0',
                    },
                ],
            ),
        )
    }
}

/// Forgets the letters and the candidates.
fn drop_letters(s: &mut InputSession)
    ensures
        final(s)@ == (Session { buffer: Seq::empty(), candidates: Seq::empty(), ..old(s)@ }),
{
    s.buffer = String::new();
    s.candidates = Vec::new();
    proof {
        assert(s@.candidates =~= Seq::empty());
    }
}

/// A digit.
fn number(ctx: &mut EngineContext, p: Press) -> (r: Action)
    requires
        keys::digit_key(p.key),
    ensures
        (final(ctx)@, r@) == numbered(old(ctx)@, p),
{
    proof {
        reveal(numbered);
    }
    let digit = match key_to_digit(p.key) {
        Some(d) => d,
        None => 0,
    };
    if digit >= 1 && digit <= ctx.session.candidates.len() {
        return execute_command(ctx, Command::Select(digit - 1), p.now);
    }
    let c = match ctx.key_table.key_to_char(p.key, false, ctx.session_state.caps_lock_enabled) {
        Some(c) => c,
        None => '0',
    };
    drop_letters(&mut ctx.session);
    let t = char_string(c);
    proof {
        assert(t@ =~= seq![c]);
    }
    Action::Emit(t)
}

/// Everything once a key has been pressed that neither edits nor chooses, and what comes of it.
#[verifier::opaque]
pub open spec fn other_typed(w: World, p: Press) -> (World, Rep) {
    if context::mark_of(w.table, p.key, p.shift) is Some {
        (w, Rep::Punctuation)
    } else {
        match context::typed(w.table, p.key, p.shift, w.state.caps_lock_enabled) {
            Some(c) => {
                let (w1, a) = handlers::settled(
                    World { session: w.session.pushed(c), ..w },
                    Some(w.session.buffer),
                    p,
                );
                (w1, Rep::Done(a))
            },
            None => (w, Rep::Done(Act::PassThrough)),
        }
    }
}

/// A key that neither edits nor chooses.
fn type_other(ctx: &mut EngineContext, p: Press) -> (r: Reply)
    ensures
        (final(ctx)@, r@) == other_typed(old(ctx)@, p),
{
    proof {
        reveal(other_typed);
    }
    if let Some(_) = ctx.key_table.get_punctuation_key(p.key, p.shift) {
        return Reply::Punctuation;
    }
    match ctx.key_table.key_to_char(p.key, p.shift, ctx.session_state.caps_lock_enabled) {
        Some(c) => {
            let before = ctx.session.buffer.clone();
            ctx.session.push_char(c);
            Reply::Done(settle(ctx, Some(before), p))
        },
        None => Reply::Done(Action::PassThrough),
    }
}

/// Everything once a semicolon has been typed, and what is done.
#[verifier::opaque]
pub open spec fn semicolon_typed(w: World, p: Press) -> (World, Act) {
    handlers::refreshed(World { session: w.session.pushed(';'), ..w }, p)
}

/// The semicolon key.
fn type_semicolon(ctx: &mut EngineContext, p: Press) -> (r: Action)
    ensures
        (final(ctx)@, r@) == semicolon_typed(old(ctx)@, p),
{
    proof {
        reveal(semicolon_typed);
    }
    ctx.session.push_char(';');
    refresh(ctx, p)
}

/// Everything once the first candidate has been chosen.
#[verifier::opaque]
pub open spec fn gone_home(w: World, p: Press) -> World {
    World { session: at_home(w.session, p.shift), ..w }
}

/// The home key.
fn home(ctx: &mut EngineContext, p: Press)
    ensures
        final(ctx)@ == gone_home(old(ctx)@, p),
{
    proof {
        reveal(gone_home);
    }
    go_home(&mut ctx.session, p.shift);
}

/// Everything once the last candidate has been chosen.
#[verifier::opaque]
pub open spec fn gone_to_end(w: World, p: Press) -> World {
    World { session: at_end(w.session, p.shift, composing::page_size(w)), ..w }
}

/// The end key.
fn end(ctx: &mut EngineContext, p: Press)
    requires
        ends_whole(old(ctx)@, p.shift),
    ensures
        final(ctx)@ == gone_to_end(old(ctx)@, p),
{
    proof {
        reveal(gone_to_end);
    }
    let size = ctx.config.page_size();
    go_to_end(&mut ctx.session, p.shift, size);
}

/// What is done as what comes of a key.
pub open spec fn done(r: (World, Act)) -> (World, Rep) {
    (r.0, Rep::Done(r.1))
}

/// Everything once a key has been pressed that gives no command, and what comes of it.
#[verifier::opaque]
pub open spec fn edited(w: World, p: Press) -> (World, Rep) {
    if p.key == VirtualKey::Semicolon && !p.shift {
        done(semicolon_typed(w, p))
    } else if p.key == VirtualKey::Backspace {
        done(backspaced(w, p))
    } else if p.key == VirtualKey::Home {
        (gone_home(w, p), Rep::Done(Act::Consume))
    } else if p.key == VirtualKey::End {
        (gone_to_end(w, p), Rep::Done(Act::Consume))
    } else if keys::digit_key(p.key) {
        done(numbered(w, p))
    } else {
        other_typed(w, p)
    }
}

/// A key that gives no command.
fn edit(ctx: &mut EngineContext, p: Press) -> (r: Reply)
    requires
        p.key == VirtualKey::End ==> ends_whole(old(ctx)@, p.shift),
    ensures
        (final(ctx)@, r@) == edited(old(ctx)@, p),
{
    proof {
        reveal(edited);
    }
    if p.key == VirtualKey::Semicolon && !p.shift {
        Reply::Done(type_semicolon(ctx, p))
    } else if p.key == VirtualKey::Backspace {
        Reply::Done(backspace(ctx, p))
    } else if p.key == VirtualKey::Home {
        home(ctx, p);
        Reply::Done(Action::Consume)
    } else if p.key == VirtualKey::End {
        end(ctx, p);
        Reply::Done(Action::Consume)
    } else if is_digit(p.key) {
        Reply::Done(number(ctx, p))
    } else {
        type_other(ctx, p)
    }
}

/// Everything once a key has been pressed behind letters, past what may take it first, and what
/// comes of it.
#[verifier::opaque]
pub open spec fn worked(w: World, p: Press) -> (World, Rep) {
    match key_command(w, p.key) {
        Some(cmd) => done(commands::executed(w, cmd, p.now)),
        None => edited(w, p),
    }
}

/// A key behind letters, past what may take it first.
fn work(ctx: &mut EngineContext, p: Press) -> (r: Reply)
    requires
        works_whole(old(ctx)@, p),
    ensures
        (final(ctx)@, r@) == worked(old(ctx)@, p),
{
    proof {
        reveal(worked);
    }
    match find_command(ctx, p.key) {
        Some(cmd) => Reply::Done(execute_command(ctx, cmd, p.now)),
        None => edit(ctx, p),
    }
}

/// Everything once a key has been pressed that types a letter or does not, and what is done on
/// that account.
#[verifier::opaque]
pub open spec fn lettered(w: World, p: Press) -> (World, Option<Act>) {
    if keys::letter_key(p.key) {
        composing::letter_typed(w, p)
    } else {
        (World { dispatch: composing::untapped(w.dispatch), ..w }, None)
    }
}

/// A key that types a letter or does not.
fn letter(ctx: &mut EngineContext, p: Press) -> (r: Option<Action>)
    ensures
        (final(ctx)@, action::opt_act(r)) == lettered(old(ctx)@, p),
        r is None ==> final(ctx)@ == (World { dispatch: final(ctx)@.dispatch, ..old(ctx)@ }),
        types_letter(old(ctx)@, p) ==> r is Some,
{
    proof {
        reveal(lettered);
        if types_letter(ctx@, p) {
            composing::lemma_letter_is_taken(ctx@, p);
        }
    }
    if is_letter(p.key) {
        type_letter(ctx, p)
    } else {
        forget_tap(&mut ctx.dispatcher);
        None
    }
}

/// Everything once a key has been pressed while something is being composed, and what comes of
/// it.
///
/// The key is held against the commands of keys, the keys for navigating, the layouts, the
/// auxiliary code, the scheme and the letters, in this order; the first that takes it decides.
#[verifier::opaque]
pub open spec fn composed(w: World, p: Press) -> (World, Rep) {
    match composing::mapped(w, p) {
        (w1, Some(a)) => (w1, Rep::Done(a)),
        (w1, None) => match composing::navigated(w1, p) {
            (w2, Some(a)) => (w2, Rep::Done(a)),
            (w2, None) => match composing::put_out(w2, p) {
                Some(t) => (w2, Rep::Done(Act::Emit(t))),
                None => match composing::narrowed(w2, p) {
                    (w3, Some(a)) => (w3, Rep::Done(a)),
                    (w3, None) => match composing::taken(w3, p) {
                        (w4, Some(a)) => (w4, Rep::Done(a)),
                        (w4, None) => match lettered(w4, p) {
                            (w5, Some(a)) => (w5, Rep::Done(a)),
                            (w5, None) => worked(w5, p),
                        },
                    },
                },
            },
        },
    }
}

/// A key while something is being composed.
pub fn handle_composing(
    ctx: &mut EngineContext,
    key: VirtualKey,
    shift_pressed: bool,
    perform_lookup: bool,
    now: u64,
) -> (r: Reply)
    requires
        composes_whole(old(ctx)@, Press { key, shift: shift_pressed, perform_lookup, now }),
    ensures
        (final(ctx)@, r@) == composed(
            old(ctx)@,
            Press { key, shift: shift_pressed, perform_lookup, now },
        ),
{
    let p = Press { key, shift: shift_pressed, perform_lookup, now };
    proof {
        reveal(composed);
        reveal(composes_whole);
    }
    if let Some(a) = do_mapped(ctx, p) {
        return Reply::Done(a);
    }
    if let Some(a) = navigate(ctx, p) {
        return Reply::Done(a);
    }
    if let Some(t) = find_put_out(ctx, p) {
        return Reply::Done(Action::Emit(t));
    }
    if let Some(a) = narrow(ctx, p) {
        return Reply::Done(a);
    }
    if let Some(a) = take(ctx, p) {
        return Reply::Done(a);
    }
    let ghost before = ctx@;
    if let Some(a) = letter(ctx, p) {
        return Reply::Done(a);
    }
    proof {
        reveal(key_command);
        assert(key_command(ctx@, p.key) == key_command(before, p.key));
    }
    work(ctx, p)
}

} // verus!
