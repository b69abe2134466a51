//! The processor: what comes of each key from its press to its release.

use vstd::prelude::*;
use crate::action;
use crate::action::{Act, Action, Command, ModifierState};
use crate::commands;
use crate::commands::execute_command;
use crate::composing;
use crate::compositor;
use crate::compositor::Compositor;
use crate::config::Config;
use crate::context;
use crate::context::{one_text, Applied, EngineContext, World};
use crate::handlers::{Press, Rep, Reply};
use crate::hotkeys;
use crate::hotkeys::{show_profile, sign, switch_language};
use crate::keys;
use crate::keys::{is_letter, VirtualKey};
use crate::lookup;
use crate::pressing;
use crate::pressing::{FsmEffect, FsmInput, KeyDecision, KeyEvent, KEY_BATCH_DELAY_MS, KEY_LIMIT};
use crate::session::{is_blank, InputSession, Session};
use crate::session_state;
use crate::session_state::{Lasting, SessionState};
use crate::text;
use crate::text::{chars_of, same_text};
use crate::transition;
use crate::transition::{begin_key, handle_fsm_transition};

verus! {

/// Everything once a character has been put in and looked up, and what is done.
#[verifier::opaque]
pub open spec fn char_injected(w: World, c: char, now: u64) -> (World, Option<Act>) {
    lookup::limitedly_looked_up(
        World { session: w.session.pushed(c), ..w },
        KEY_LIMIT as int,
        now,
    )
}

/// Everything once characters have been put in one after the other, and what is done: what the
/// first of them does that does more than to keep the key.
pub open spec fn batched(w: World, s: Seq<char>, now: u64) -> (World, Act)
    decreases s.len(),
{
    if s.len() == 0 {
        (w, Act::Consume)
    } else {
        match char_injected(w, s[0], now) {
            (w1, Some(a)) => if a is Consume {
                batched(w1, s.drop_first(), now)
            } else {
                (w1, a)
            },
            (w1, None) => batched(w1, s.drop_first(), now),
        }
    }
}

/// Puts a character in and looks it up.
fn inject_char_internal(ctx: &mut EngineContext, c: char, now: u64) -> (r: Option<Action>)
    ensures
        (final(ctx)@, action::opt_act(r)) == char_injected(old(ctx)@, c, now),
{
    proof {
        reveal(char_injected);
    }
    ctx.session.push_char(c);
    lookup::lookup_with_limit(ctx, KEY_LIMIT, now)
}

/// Puts characters in one after the other.
fn process_batched_keys(ctx: &mut EngineContext, keys: &str, now: u64) -> (r: Action)
    ensures
        (final(ctx)@, r@) == batched(old(ctx)@, keys@, now),
{
    let c = chars_of(keys);
    let ghost start = ctx@;
    let mut i: usize = 0;
    proof {
        assert(c@.skip(0) =~= keys@);
    }
    while i < c.len()
        invariant
            i <= c.len(),
            start == old(ctx)@,
            batched(start, keys@, now) == batched(ctx@, c@.skip(i as int), now),
        decreases c.len() - i,
    {
        proof {
            assert(c@.skip(i as int).drop_first() =~= c@.skip(i + 1));
        }
        match inject_char_internal(ctx, c[i], now) {
            Some(Action::Consume) => {},
            Some(a) => return a,
            None => {},
        }
        i = i + 1;
    }
    Action::Consume
}

/// Whether the release of a key is kept where its press was.
pub open spec fn counts(e: KeyEvent) -> bool {
    e.val == 1 && e.key != VirtualKey::Control && e.key != VirtualKey::Alt && e.key
        != VirtualKey::Shift && e.key != VirtualKey::CapsLock
}

/// With a key noted as kept or not.
pub open spec fn with_key(s: Session, key: VirtualKey, kept: bool) -> Session {
    Session {
        consumed_press_key: if kept {
            Some(key)
        } else {
            None
        },
        ..s
    }
}

/// Notes a key as kept or not.
fn note_key(s: &mut InputSession, key: VirtualKey, kept: bool)
    ensures
        final(s)@ == with_key(old(s)@, key, kept),
{
    s.consumed_press_key = if kept {
        Some(key)
    } else {
        None
    };
}

/// Everything once a key has been noted as kept or not.
#[verifier::opaque]
pub open spec fn noted(w: World, e: KeyEvent, a: Act) -> World {
    if counts(e) {
        World { session: with_key(w.session, e.key, !(a is PassThrough)), ..w }
    } else {
        w
    }
}

/// Notes a key as kept or not.
fn note(ctx: &mut EngineContext, e: KeyEvent, kept: bool, Ghost(a): Ghost<Act>)
    requires
        kept == !(a is PassThrough),
    ensures
        final(ctx)@ == noted(old(ctx)@, e, a),
{
    proof {
        reveal(noted);
    }
    if e.val == 1 && e.key != VirtualKey::Control && e.key != VirtualKey::Alt && e.key
        != VirtualKey::Shift && e.key != VirtualKey::CapsLock {
        note_key(&mut ctx.session, e.key, kept);
    }
}

/// Letters with one more that a key types.
pub open spec fn longer(w: World, s: Seq<char>, e: KeyEvent) -> Seq<char> {
    match context::typed(w.table, e.key, e.shift, false) {
        Some(c) => s.push(c),
        None => s,
    }
}

/// Everything once a letter waits to be looked up, behind others or alone.
#[verifier::opaque]
pub open spec fn waiting(w: World, before: Seq<char>, e: KeyEvent) -> World {
    World { pending: longer(w, before, e), last_key_time: e.now, ..w }
}

/// Lets a letter wait to be looked up.
fn wait(ctx: &mut EngineContext, before: String, e: KeyEvent)
    ensures
        final(ctx)@ == waiting(old(ctx)@, before@, e),
{
    proof {
        reveal(waiting);
    }
    let mut b = before;
    if let Some(c) = ctx.key_table.key_to_char(e.key, e.shift, false) {
        b.push(c);
    }
    ctx.pending_key_buffer = b;
    ctx.last_key_time = e.now;
}

/// Everything once a letter that was handed on has been put together with others that come
/// soon, and what is done.
#[verifier::opaque]
pub open spec fn gathered(w: World, e: KeyEvent) -> (World, Act) {
    if session_state::passed(e.now, w.last_key_time) < KEY_BATCH_DELAY_MS {
        (waiting(w, w.pending, e), Act::Consume)
    } else if w.pending.len() > 0 {
        batched(waiting(w, Seq::empty(), e), w.pending, e.now)
    } else {
        (waiting(w, Seq::empty(), e), Act::PassThrough)
    }
}

/// Puts a letter together with others that come soon.
fn gather(ctx: &mut EngineContext, e: KeyEvent) -> (r: Action)
    ensures
        (final(ctx)@, r@) == gathered(old(ctx)@, e),
{
    proof {
        reveal(gathered);
    }
    let pending = ctx.pending_key_buffer.clone();
    if e.now <= ctx.last_key_time || e.now - ctx.last_key_time < KEY_BATCH_DELAY_MS {
        wait(ctx, pending, e);
        return Action::Consume;
    }
    let b = String::new();
    wait(ctx, b, e);
    if is_blank(pending.as_str()) {
        Action::PassThrough
    } else {
        process_batched_keys(ctx, pending.as_str(), e.now)
    }
}

/// Everything once the letters that waited have been put in before another key, and what is
/// done.
#[verifier::opaque]
pub open spec fn flushed(w: World, a: Act, now: u64) -> (World, Act) {
    let (w1, b) = batched(World { pending: Seq::empty(), ..w }, w.pending, now);
    (
        w1,
        if b is Consume {
            a
        } else {
            b
        },
    )
}

/// Puts the letters that waited in before another key.
fn flush(ctx: &mut EngineContext, a: Action, now: u64) -> (r: Action)
    ensures
        (final(ctx)@, r@) == flushed(old(ctx)@, a@, now),
{
    proof {
        reveal(flushed);
    }
    let pending = ctx.pending_key_buffer.clone();
    let b = String::new();
    ctx.pending_key_buffer = b;
    match process_batched_keys(ctx, pending.as_str(), now) {
        Action::Consume => a,
        b => b,
    }
}

/// Everything once what came of a key has been noted, and what is done with letters that come
/// soon after one another.
#[verifier::opaque]
pub open spec fn finished(w: World, e: KeyEvent, a: Act) -> (World, Act) {
    let w1 = noted(w, e, a);
    if e.val == 1 && e.perform_lookup && keys::letter_key(e.key) && a is PassThrough {
        gathered(w1, e)
    } else if e.val == 1 && e.perform_lookup && !keys::letter_key(e.key) && w1.pending.len() > 0 {
        flushed(w1, a, e.now)
    } else {
        (w1, a)
    }
}

/// Notes what came of a key, and puts letters together that come soon after one another.
pub fn finish_key(ctx: &mut EngineContext, e: KeyEvent, action: Action) -> (r: Action)
    ensures
        (final(ctx)@, r@) == finished(old(ctx)@, e, action@),
{
    proof {
        reveal(finished);
    }
    let passed = match &action {
        Action::PassThrough => true,
        _ => false,
    };
    note(ctx, e, !passed, Ghost(action@));
    if e.val == 1 && e.perform_lookup {
        if is_letter(e.key) {
            if passed {
                return gather(ctx, e);
            }
        } else if !is_blank(ctx.pending_key_buffer.as_str()) {
            return flush(ctx, action, e.now);
        }
    }
    action
}

/// The profiles that are taken in turn: those enabled that have a dictionary.
pub open spec fn in_turn(w: World) -> Seq<Seq<char>> {
    text::texts(w.store.config.input.enabled_profiles@).filter(
        context::has_dictionary(w.engine.profiles),
    )
}

/// The first place of a text in a list from a place on, zero if it has none.
pub open spec fn place_in(l: Seq<Seq<char>>, x: Seq<char>, i: int) -> int
    decreases l.len() - i,
{
    if i < 0 || i >= l.len() {
        0
    } else if l[i] == x {
        i
    } else {
        place_in(l, x, i + 1)
    }
}

/// The profile behind the one that counts, in turn.
#[verifier::opaque]
pub open spec fn profile_behind(w: World) -> Seq<char> {
    let l = in_turn(w);
    let current = if w.state.profiles.len() > 0 {
        w.state.profiles[0]
    } else {
        l[0]
    };
    l[(place_in(l, current, 0) + 1) % (l.len() as int)]
}

/// Everything with the next profile in turn, and the profile.
#[verifier::opaque]
pub open spec fn next_in_turn(w: World) -> (World, Seq<char>) {
    if in_turn(w).len() == 0 {
        (
            w,
            if w.state.profiles.len() > 0 {
                w.state.profiles[0]
            } else {
                "chinese"@
            },
        )
    } else {
        let p = profile_behind(w);
        (World { state: Lasting { profiles: seq![p], ..w.state }, ..w }.after_reset(), p)
    }
}

/// The profiles that are taken in turn.
fn find_in_turn(ctx: &EngineContext) -> (r: Vec<String>)
    ensures
        text::texts(r@) == in_turn(ctx@),
{
    let v = &ctx.config.master_config.get().input.enabled_profiles;
    let ghost s = text::texts(v@);
    let ghost f = context::has_dictionary(ctx@.engine.profiles);
    let mut out: Vec<String> = Vec::new();
    let mut i: usize = 0;
    proof {
        reveal(Seq::filter);
        assert(text::texts(out@) =~= s.take(0).filter(f));
    }
    while i < v.len()
        invariant
            i <= v.len(),
            s == text::texts(v@),
            f == context::has_dictionary(ctx@.engine.profiles),
            text::texts(out@) == s.take(i as int).filter(f),
        decreases v.len() - i,
    {
        let ghost was = text::texts(out@);
        proof {
            reveal(Seq::filter);
            assert(s.take(i + 1).drop_last() =~= s.take(i as int));
            assert(s.take(i + 1).last() == v@[i as int]@);
        }
        if ctx.engine.profiles.contains(v[i].as_str()) {
            let p = v[i].clone();
            out.push(p);
            proof {
                assert(text::texts(out@) =~= was.push(p@));
            }
        }
        i = i + 1;
    }
    proof {
        assert(s.take(s.len() as int) =~= s);
    }
    out
}

/// The first place of a text in a list, zero if it has none.
fn find_place(l: &Vec<String>, x: &str) -> (r: usize)
    ensures
        r == place_in(text::texts(l@), x@, 0),
        l@.len() > 0 ==> r < l@.len(),
{
    let ghost s = text::texts(l@);
    let mut i: usize = 0;
    while i < l.len()
        invariant
            i <= l.len(),
            s == text::texts(l@),
            place_in(s, x@, 0) == place_in(s, x@, i as int),
        decreases l.len() - i,
    {
        proof {
            assert(s[i as int] == l@[i as int]@);
        }
        if same_text(l[i].as_str(), x) {
            return i;
        }
        i = i + 1;
    }
    0
}

/// The profile behind the one that counts, in turn.
fn find_behind(ctx: &EngineContext, l: &Vec<String>) -> (r: String)
    requires
        text::texts(l@) == in_turn(ctx@),
        l@.len() > 0,
    ensures
        r@ == profile_behind(ctx@),
{
    proof {
        reveal(profile_behind);
        assert(text::texts(l@)[0] == l@[0]@);
    }
    let v = &ctx.session_state.active_profiles;
    let current = if v.len() > 0 {
        v[0].clone()
    } else {
        l[0].clone()
    };
    let at = find_place(l, current.as_str());
    let next: usize = if at == l.len() - 1 {
        0
    } else {
        at + 1
    };
    proof {
        let n = l@.len() as int;
        if at + 1 == n {
            assert(n % n == 0) by (nonlinear_arith)
                requires
                    n > 0,
            ;
        } else {
            vstd::arithmetic::div_mod::lemma_small_mod((at + 1) as nat, n as nat);
        }
        assert(text::texts(l@)[next as int] == l@[next as int]@);
    }
    l[next].clone()
}

/// Takes one profile.
fn set_profile(s: &mut SessionState, p: String)
    ensures
        final(s)@ == (Lasting { profiles: seq![p@], ..old(s)@ }),
{
    s.active_profiles = one_text(p);
}

/// What reaches the input method.
pub enum InputEvent {
    Key { key: VirtualKey, val: i32, shift: bool, ctrl: bool, alt: bool },
    /// What was said.
    Voice(String),
    /// A candidate of the page that was pointed at.
    CandidateSelect(usize),
}

/// Everything with the language switched, and what is done.
#[verifier::opaque]
pub open spec fn toggled(w: World) -> (World, Act) {
    let w1 = World { state: hotkeys::switched(w.state), ..w };
    (
        w1.after_reset(),
        if w1.state.chinese_enabled {
            Act::Notify(
                hotkeys::sign_of(hotkeys::profile_shown(w1.state)),
                "模式已开启"@,
            )
        } else {
            Act::Notify("英"@, "英文直通模式"@)
        },
    )
}

/// What a key comes to, past what takes it before the state machine.
#[verifier::opaque]
pub open spec fn gone_through(w: World, e: KeyEvent, d: pressing::Decided) -> (World, Rep) {
    if d.intent is Some {
        (w, Rep::Done(d.intent->0))
    } else if e.key == VirtualKey::Grave {
        (w, Rep::Done(Act::PassThrough))
    } else if d.switching is Some {
        (w, Rep::Done(d.switching->0))
    } else {
        match transition::transitioned(w, e, d.next_state, d.effect) {
            (w1, Rep::Done(a)) => {
                let (w2, b) = finished(w1, e, a);
                (w2, Rep::Done(b))
            },
            (w1, Rep::Punctuation) => (w1, Rep::Punctuation),
        }
    }
}

/// Everything once a key has been handled, and what comes of it.
#[verifier::opaque]
pub open spec fn handled(w: World, e: KeyEvent, d: pressing::Decided) -> (World, Rep) {
    match transition::begun(w, e) {
        (w1, Some(a)) => (w1, Rep::Done(a)),
        (w1, None) => gone_through(w1, e, d),
    }
}

/// Whether a key that reaches the state machine finds room on the page where it asks for some,
/// and cuts no character.
pub open spec fn goes_whole(w: World, e: KeyEvent, d: pressing::Decided) -> bool {
    d.intent is None && e.key != VirtualKey::Grave && d.switching is None
        ==> transition::transitions_whole(w, e, d.effect)
}

/// Whether a key finds room on the page where it divides by its size, and cuts no character.
pub open spec fn handles_whole(w: World, e: KeyEvent, d: pressing::Decided) -> bool {
    &&& e.val == 1 ==> transition::first_whole(w, e)
    &&& transition::begun(w, e).1 is None ==> goes_whole(transition::begun(w, e).0, e, d)
}

/// What a key finds, told from the state that it meets.
proof fn lemma_handles(w: World, e: KeyEvent, d: pressing::Decided)
    ensures
        handles_whole(w, e, d) == (if e.val == 1 && transition::first_pressed(w, e).1 is Some {
            transition::first_whole(w, e)
        } else if transition::let_by(w, e).1 is Some || d.intent is Some || e.key
            == VirtualKey::Grave || d.switching is Some {
            true
        } else if e.val == 1 && transition::page_command(w, e.key) is Some {
            commands::has_room(w, transition::page_command(w, e.key)->0)
        } else {
            d.effect == FsmEffect::UpdateLookup ==> crate::editing::composes_whole(
                composing::with_nav(
                    w,
                    w.session.nav_mode && (e.val != 1 || w.session.buffer.len() == 0),
                ),
                transition::press_of(e),
            )
        }),
{
    reveal(transition::begun);
    if e.val == 1 {
        transition::lemma_first(w, e);
        let v = transition::first_pressed(w, e).0;
        if transition::first_pressed(w, e).1 is None {
            transition::lemma_let_by_let_on(w, v.state.capslock_pending, e);
            transition::lemma_transitions_alike(w, v.state.capslock_pending, e, d.effect);
        }
    } else {
        transition::lemma_let_by_alike(w, w, e);
        transition::lemma_same_nav(w);
    }
}

/// Lets a key go through the state machine.
fn go_through(ctx: &mut EngineContext, e: KeyEvent, d: KeyDecision) -> (r: Reply)
    requires
        goes_whole(old(ctx)@, e, d@),
    ensures
        (final(ctx)@, r@) == gone_through(old(ctx)@, e, d@),
{
    proof {
        reveal(gone_through);
    }
    if let Some(a) = d.intent {
        return Reply::Done(a);
    }
    if e.key == VirtualKey::Grave {
        return Reply::Done(Action::PassThrough);
    }
    if let Some(a) = d.switching {
        return Reply::Done(a);
    }
    match handle_fsm_transition(ctx, e, d.next_state, d.effect) {
        Reply::Done(a) => Reply::Done(finish_key(ctx, e, a)),
        Reply::Punctuation => Reply::Punctuation,
    }
}

/// Handles a key.
fn handle(ctx: &mut EngineContext, e: KeyEvent, d: KeyDecision) -> (r: Reply)
    requires
        handles_whole(old(ctx)@, e, d@),
    ensures
        (final(ctx)@, r@) == handled(old(ctx)@, e, d@),
{
    proof {
        reveal(handled);
    }
    if let Some(a) = begin_key(ctx, e) {
        return Reply::Done(a);
    }
    go_through(ctx, e, d)
}

/// The endings that letters often go on with.
pub open spec fn common_endings() -> Seq<Seq<char>> {
    seq![
        "a"@,
        "i"@,
        "n"@,
        "g"@,
        "o"@,
        "e"@,
        "u"@,
        "an"@,
        "ang"@,
        "en"@,
        "ong"@,
        "ian"@,
        "iao"@,
    ]
}

/// Letters with the first so many of the endings behind them.
pub open spec fn with_endings(b: Seq<char>, n: int) -> Seq<Seq<char>> {
    common_endings().take(n).map_values(|e: Seq<char>| b + e)
}

/// What is looked up ahead of time: the letters with each ending, from two bytes on.
pub open spec fn ahead(b: Seq<char>) -> Seq<Seq<char>> {
    if text::byte_len(b) < 2 {
        Seq::empty()
    } else {
        common_endings().map_values(|e: Seq<char>| b + e)
    }
}

/// The processor.
pub struct Processor {
    pub ctx: EngineContext,
}

impl View for Processor {
    type V = World;

    open spec fn view(&self) -> World {
        self.ctx@
    }
}

impl Processor {
    /// A processor of everything that the input method works on.
    pub fn new(ctx: EngineContext) -> (r: Self)
        ensures
            r@ == ctx@,
    {
        Processor { ctx }
    }

    /// Takes other settings, and says what is to be loaded then.
    pub fn apply_config(&mut self, conf: Config) -> (r: Applied)
        ensures
            final(self)@ == old(self)@.under(conf),
            r.load_user_dicts == ((conf.input.enable_word_discovery
                || conf.input.enable_auto_reorder) && old(self)@.store.learned.len() == 0),
            text::texts(r.prewarm@) == context::enabled_profiles(
                conf,
                old(self)@.engine.profiles,
            ),
    {
        self.ctx.apply_config(conf)
    }

    /// The letter that sounds when a key is pressed.
    pub fn letter_sound(&self, key: VirtualKey, val: i32, shift_pressed: bool) -> (r: Option<char>)
        ensures
            r == (if val == 1 && keys::letter_key(key) {
                context::typed(self@.table, key, shift_pressed, false)
            } else {
                None
            }),
    {
        if val == 1 && is_letter(key) {
            self.ctx.key_table.key_to_char(key, shift_pressed, false)
        } else {
            None
        }
    }

    /// What is known to the state machine.
    pub fn fsm_input(
        &self,
        key: VirtualKey,
        shift_pressed: bool,
        ctrl_pressed: bool,
        alt_pressed: bool,
    ) -> (r: FsmInput)
        ensures
            r == (FsmInput {
                key,
                mods: ModifierState {
                    shift: shift_pressed,
                    ctrl: ctrl_pressed,
                    alt: alt_pressed,
                    meta: false,
                },
                buffer_empty: self@.session.buffer.len() == 0,
                has_candidates: self@.session.candidates.len() > 0,
                is_stroke_mode: self@.state.strokes(),
            }),
    {
        FsmInput {
            key,
            mods: ModifierState {
                shift: shift_pressed,
                ctrl: ctrl_pressed,
                alt: alt_pressed,
                meta: false,
            },
            buffer_empty: is_blank(self.ctx.session.buffer.as_str()),
            has_candidates: self.ctx.session.candidates.len() > 0,
            is_stroke_mode: self.ctx.session_state.is_stroke_mode(),
        }
    }

    /// What reaches the input method.
    pub fn handle_event(&mut self, event: InputEvent, decision: KeyDecision, now: u64) -> (r: Reply)
        requires
            event matches InputEvent::Key { key, val, shift, ctrl, alt } ==> handles_whole(
                old(self)@,
                KeyEvent { key, val, shift, ctrl, alt, perform_lookup: true, now },
                decision@,
            ),
        ensures
            (final(self)@, r@) == (match event {
                InputEvent::Key { key, val, shift, ctrl, alt } => handled(
                    old(self)@,
                    KeyEvent { key, val, shift, ctrl, alt, perform_lookup: true, now },
                    decision@,
                ),
                InputEvent::Voice(t) => if t@.len() > 0 {
                    (old(self)@.after_reset(), Rep::Done(Act::Emit(t@)))
                } else {
                    (old(self)@, Rep::Done(Act::Consume))
                },
                InputEvent::CandidateSelect(i) => crate::editing::done(
                    commands::executed(old(self)@, Command::Select(i), now),
                ),
            }),
    {
        match event {
            InputEvent::Key { key, val, shift, ctrl, alt } => handle(
                &mut self.ctx,
                KeyEvent { key, val, shift, ctrl, alt, perform_lookup: true, now },
                decision,
            ),
            InputEvent::Voice(t) => {
                if is_blank(t.as_str()) {
                    Reply::Done(Action::Consume)
                } else {
                    self.ctx.reset();
                    Reply::Done(Action::Emit(t))
                }
            },
            InputEvent::CandidateSelect(i) => Reply::Done(
                execute_command(&mut self.ctx, Command::Select(i), now),
            ),
        }
    }

    /// A key that is looked up at once.
    pub fn handle_key(
        &mut self,
        key: VirtualKey,
        val: i32,
        shift_pressed: bool,
        ctrl_pressed: bool,
        alt_pressed: bool,
        decision: KeyDecision,
        now: u64,
    ) -> (r: Reply)
        requires
            handles_whole(
                old(self)@,
                KeyEvent {
                    key,
                    val,
                    shift: shift_pressed,
                    ctrl: ctrl_pressed,
                    alt: alt_pressed,
                    perform_lookup: true,
                    now,
                },
                decision@,
            ),
        ensures
            (final(self)@, r@) == handled(
                old(self)@,
                KeyEvent {
                    key,
                    val,
                    shift: shift_pressed,
                    ctrl: ctrl_pressed,
                    alt: alt_pressed,
                    perform_lookup: true,
                    now,
                },
                decision@,
            ),
    {
        self.handle_event(
            InputEvent::Key {
                key,
                val,
                shift: shift_pressed,
                ctrl: ctrl_pressed,
                alt: alt_pressed,
            },
            decision,
            now,
        )
    }

    /// Whether a key can be handled: it finds room on the page where it divides by its size, and
    /// cuts no character.
    pub fn accepts(&self, e: KeyEvent, decision: &KeyDecision) -> (r: bool)
        ensures
            r == handles_whole(self@, e, decision@),
    {
        let ctx = &self.ctx;
        proof {
            lemma_handles(ctx@, e, decision@);
        }
        if e.val == 1 {
            let (taken, whole) = transition::test_first(ctx, e);
            if taken {
                return whole;
            }
        }
        if transition::test_passing(ctx, e) || decision.intent.is_some() || e.key
            == VirtualKey::Grave || decision.switching.is_some() {
            return true;
        }
        if e.val == 1 {
            if let Some(cmd) = transition::find_page_command(ctx, e.key) {
                return commands::finds_room(ctx, cmd);
            }
        }
        if decision.effect != FsmEffect::UpdateLookup {
            return true;
        }
        let nav = ctx.session.nav_mode && (e.val != 1 || is_blank(ctx.session.buffer.as_str()));
        crate::editing::test_composing(
            ctx,
            nav,
            Press { key: e.key, shift: e.shift, perform_lookup: e.perform_lookup, now: e.now },
        )
    }

    /// A key, looked up at once or not. Where it is left to the punctuation marks, what they do
    /// is handed to `finish_key`.
    pub fn handle_key_ext(
        &mut self,
        key: VirtualKey,
        val: i32,
        shift_pressed: bool,
        ctrl_pressed: bool,
        alt_pressed: bool,
        perform_lookup: bool,
        decision: KeyDecision,
        now: u64,
    ) -> (r: Reply)
        requires
            handles_whole(
                old(self)@,
                KeyEvent {
                    key,
                    val,
                    shift: shift_pressed,
                    ctrl: ctrl_pressed,
                    alt: alt_pressed,
                    perform_lookup,
                    now,
                },
                decision@,
            ),
        ensures
            (final(self)@, r@) == handled(
                old(self)@,
                KeyEvent {
                    key,
                    val,
                    shift: shift_pressed,
                    ctrl: ctrl_pressed,
                    alt: alt_pressed,
                    perform_lookup,
                    now,
                },
                decision@,
            ),
    {
        let e = KeyEvent {
            key,
            val,
            shift: shift_pressed,
            ctrl: ctrl_pressed,
            alt: alt_pressed,
            perform_lookup,
            now,
        };
        handle(&mut self.ctx, e, decision)
    }

    /// Switches the language.
    pub fn toggle(&mut self) -> (r: Action)
        ensures
            (final(self)@, r@) == toggled(old(self)@),
    {
        proof {
            reveal(toggled);
        }
        switch_language(&mut self.ctx.session_state);
        let enabled = self.ctx.session_state.chinese_enabled;
        let short = self.get_short_display();
        self.ctx.reset();
        if enabled {
            Action::Notify(short, "模式已开启".to_owned())
        } else {
            Action::Notify("英".to_owned(), "英文直通模式".to_owned())
        }
    }

    /// The sign of the profile that is shown.
    pub fn get_short_display(&self) -> (r: String)
        ensures
            r@ == hotkeys::sign_of(hotkeys::profile_shown(self@.state)),
    {
        sign(self.get_current_profile_display().as_str())
    }

    /// The profile that is shown.
    pub fn get_current_profile_display(&self) -> (r: String)
        ensures
            r@ == hotkeys::profile_shown(self@.state),
    {
        show_profile(&self.ctx.session_state)
    }

    /// Looks up what was typed.
    pub fn lookup(&mut self, now: u64) -> (r: Option<Action>)
        ensures
            (final(self)@, action::opt_act(r)) == lookup::limitedly_looked_up(
                old(self)@,
                KEY_LIMIT as int,
                now,
            ),
    {
        self.lookup_with_limit(KEY_LIMIT, now)
    }

    /// Looks up what was typed, for at most so many candidates.
    pub fn lookup_with_limit(&mut self, limit: usize, now: u64) -> (r: Option<Action>)
        ensures
            (final(self)@, action::opt_act(r)) == lookup::limitedly_looked_up(
                old(self)@,
                limit as int,
                now,
            ),
    {
        lookup::lookup_with_limit(&mut self.ctx, limit, now)
    }

    /// What is looked up ahead of time.
    pub fn trigger_prefetch(&self) -> (r: Vec<String>)
        ensures
            text::texts(r@) == ahead(self@.session.buffer),
    {
        let b = self.ctx.session.buffer.as_str();
        let mut out: Vec<String> = Vec::new();
        if b.as_bytes().len() < 2 {
            proof {
                assert(text::texts(out@) =~= Seq::<Seq<char>>::empty());
            }
            return out;
        }
        let endings = [
            "a",
            "i",
            "n",
            "g",
            "o",
            "e",
            "u",
            "an",
            "ang",
            "en",
            "ong",
            "ian",
            "iao",
        ];
        let ghost all = common_endings();
        proof {
            assert forall|k: int| 0 <= k < all.len() implies (#[trigger] endings@[k])@ == all[k] by {}
            assert(text::texts(out@) =~= with_endings(b@, 0));
        }
        let mut i: usize = 0;
        while i < 13
            invariant
                i <= 13,
                all == common_endings(),
                endings@.len() == 13,
                forall|k: int| 0 <= k < all.len() ==> (#[trigger] endings@[k])@ == all[k],
                text::texts(out@) == with_endings(b@, i as int),
            decreases 13 - i,
        {
            let ghost was = text::texts(out@);
            let mut t = b.to_owned();
            t.append(endings[i]);
            out.push(t);
            proof {
                assert(text::texts(out@) =~= was.push(t@));
                assert(with_endings(b@, i + 1) =~= with_endings(b@, i as int).push(
                    b@ + all[i as int],
                ));
            }
            i = i + 1;
        }
        proof {
            assert(all.take(13) =~= all);
            assert(ahead(b@) =~= with_endings(b@, 13));
        }
        out
    }

    /// Forgets what was being composed, and the history.
    pub fn reset(&mut self)
        ensures
            final(self)@ == old(self)@.after_reset(),
    {
        self.ctx.reset();
    }

    /// Forgets what was being composed.
    pub fn clear_composing(&mut self)
        ensures
            final(self)@ == (World { session: old(self)@.session.cleared(), ..old(self)@ }),
    {
        self.ctx.session.clear_composing();
    }

    /// Brings what is shown up to date.
    pub fn update_phantom_action(&mut self) -> (r: Action)
        ensures
            (final(self)@, r@) == compositor::phantom_updated(old(self)@),
    {
        Compositor::update_phantom_action(&mut self.ctx)
    }

    /// Puts out the first candidate where it is put out at once.
    pub fn check_auto_commit(&mut self, now: u64) -> (r: Option<Action>)
        ensures
            (final(self)@, action::opt_act(r)) == compositor::auto_committed(old(self)@, now),
    {
        Compositor::check_auto_commit(&mut self.ctx, now)
    }

    /// Carries out a command.
    pub fn execute_command(&mut self, cmd: Command, now: u64) -> (r: Action)
        requires
            commands::needs_page(old(self)@, cmd) ==> composing::page_size(old(self)@) > 0,
        ensures
            (final(self)@, r@) == commands::executed(old(self)@, cmd, now),
    {
        execute_command(&mut self.ctx, cmd, now)
    }

    /// Takes the next profile in turn.
    pub fn next_profile(&mut self) -> (r: String)
        ensures
            (final(self)@, r@) == next_in_turn(old(self)@),
    {
        proof {
            reveal(next_in_turn);
        }
        let l = find_in_turn(&self.ctx);
        if l.len() == 0 {
            proof {
                assert(text::texts(l@).len() == 0);
            }
            return if self.ctx.session_state.active_profiles.len() > 0 {
                self.ctx.session_state.active_profiles[0].clone()
            } else {
                "chinese".to_owned()
            };
        }
        let p = find_behind(&self.ctx, &l);
        proof {
            assert(text::texts(l@).len() > 0);
        }
        set_profile(&mut self.ctx.session_state, p.clone());
        self.ctx.reset();
        p
    }
}

/// Switching the language twice is to reset: the language is what it was.
pub proof fn law_toggling_twice_resets(w: World)
    ensures
        toggled(toggled(w).0).0 == w.after_reset(),
{
    reveal(toggled);
    let once = toggled(w).0;
    let twice = toggled(once).0;
    assert(twice.state =~= w.after_reset().state);
    assert(twice.session =~= w.after_reset().session);
}

/// The next profile is one of those that are enabled and have a dictionary, and it alone counts
/// then. Where there is none, nothing changes.
pub proof fn law_next_profile_is_enabled(w: World)
    ensures
        in_turn(w).len() == 0 ==> next_in_turn(w).0 == w,
        in_turn(w).len() > 0 ==> in_turn(w).contains(next_in_turn(w).1)
            && next_in_turn(w).0.state.profiles == seq![next_in_turn(w).1],
{
    reveal(next_in_turn);
    reveal(profile_behind);
    let l = in_turn(w);
    if l.len() > 0 {
        let current = if w.state.profiles.len() > 0 {
            w.state.profiles[0]
        } else {
            l[0]
        };
        let k = (place_in(l, current, 0) + 1) % (l.len() as int);
        assert(0 <= k < l.len());
        assert(l[k] == profile_behind(w));
    }
}

/// A profile has its place among those that are taken in turn.
proof fn lemma_place_found(l: Seq<Seq<char>>, x: Seq<char>, i: int, k: int)
    requires
        0 <= i <= k < l.len(),
        l[k] == x,
        forall|m: int| i <= m < k ==> l[m] != x,
    ensures
        place_in(l, x, i) == k,
    decreases k - i,
{
    if i < k {
        lemma_place_found(l, x, i + 1, k);
    }
}

/// Where no profile is enabled twice, taking the next profile steps through all of them: from the
/// one at a place to the one behind it, and from the last to the first.
pub proof fn law_profiles_go_round(w: World, k: int)
    requires
        0 <= k < in_turn(w).len(),
        w.state.profiles.len() > 0,
        w.state.profiles[0] == in_turn(w)[k],
        in_turn(w).no_duplicates(),
    ensures
        next_in_turn(w).1 == in_turn(w)[if k + 1 < in_turn(w).len() {
            k + 1
        } else {
            0
        }],
{
    reveal(next_in_turn);
    reveal(profile_behind);
    let l = in_turn(w);
    lemma_place_found(l, l[k], 0, k);
    if k + 1 < l.len() {
        vstd::arithmetic::div_mod::lemma_small_mod((k + 1) as nat, l.len());
    } else {
        vstd::arithmetic::div_mod::lemma_mod_self_0(l.len() as int);
    }
}

/// Once what came of a key has been noted, the session knows whether the press was kept: its
/// release is kept then too.
pub proof fn law_kept_press_is_noted(w: World, e: KeyEvent, a: Act)
    requires
        counts(e),
    ensures
        noted(w, e, a).session.consumed_press_key == (if a is PassThrough {
            None
        } else {
            Some(e.key)
        }),
{
    reveal(noted);
}

} // verus!
