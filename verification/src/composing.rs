//! What keys do while something is being composed.

use vstd::prelude::*;
use crate::action;
use crate::action::{Act, Action, Command, FilterMode, ModifierState};
use crate::commands;
use crate::commands::{commit_candidate, execute_command, finds_room};
use crate::compositor;
use crate::compositor::Compositor;
use crate::config;
use crate::config::Config;
use crate::config_manager;
use crate::config_manager::ConfigManager;
use crate::context;
use crate::context::{Dispatch, EngineContext, KeyDispatcher, World};
use crate::handlers;
use crate::handlers::{find_layout_action, lay_out, refresh, settle, Press};
use crate::keys;
use crate::keys::{is_letter, VirtualKey};
use crate::lookup;
use crate::session::{drop_last_char, is_blank, InputSession, Session};
use crate::session_state;
use crate::session_state::list_holds;
use crate::strmap;
use crate::text;
use crate::text::{char_string, chars_of, lower_letter, to_lower};

verus! {

/// The size of a page.
pub open spec fn page_size(w: World) -> int {
    w.store.config.appearance.page_size as int
}

/// Whether a key is among keys given by their names.
pub open spec fn among(names: Seq<String>, key: VirtualKey) -> bool {
    config_manager::keys_in(text::texts(names)).contains(key)
}

/// A command with the arrow keys exchanged.
pub open spec fn swapped(key: VirtualKey, cmd: Command) -> Command {
    if key == VirtualKey::Up && cmd == Command::PrevPage {
        Command::PrevCandidate
    } else if key == VirtualKey::Down && cmd == Command::NextPage {
        Command::NextCandidate
    } else if key == VirtualKey::Left && cmd == Command::PrevCandidate {
        Command::PrevPage
    } else {
        cmd
    }
}

/// The hint of the chosen candidate.
pub open spec fn chosen_hint(s: Session) -> Seq<char> {
    if s.selected < s.candidates.len() {
        s.candidates[s.selected].hint
    } else {
        Seq::empty()
    }
}

/// The command that a key gives.
pub open spec fn mapped_command(w: World, p: Press) -> Option<Command> {
    context::command_of(
        w.dispatch.map,
        p.key,
        ModifierState { shift: p.shift, ctrl: false, alt: false, meta: false },
        0,
    )
}

/// Whether a key that gives a command finds room on the page for it. With shift the space bar
/// puts out the hint, if there is one, and asks for none.
pub open spec fn maps_whole(w: World, p: Press) -> bool {
    mapped_command(w, p) matches Some(cmd) ==> (p.key == VirtualKey::Space && p.shift && chosen_hint(
        w.session,
    ).len() > 0) || commands::has_room(
        w,
        if w.store.config.input.swap_arrow_keys {
            swapped(p.key, cmd)
        } else {
            cmd
        },
    )
}

/// Everything once a key that gives a command has been pressed, and what is done.
#[verifier::opaque]
pub open spec fn mapped(w: World, p: Press) -> (World, Option<Act>) {
    match mapped_command(w, p) {
        None => (w, None),
        Some(cmd) => {
            let hint = chosen_hint(w.session);
            let (w1, a) = if p.key == VirtualKey::Space && p.shift && hint.len() > 0 {
                commands::committed(w, hint, commands::NOT_CHOSEN as int, p.now)
            } else if w.store.config.input.swap_arrow_keys {
                commands::executed(w, swapped(p.key, cmd), p.now)
            } else {
                commands::executed(w, cmd, p.now)
            };
            (w1, Some(a))
        },
    }
}

/// Whether a key is among some keys.
pub(crate) fn holds_key(v: &Vec<VirtualKey>, key: VirtualKey) -> (r: bool)
    ensures
        r == v@.contains(key),
{
    let mut i: usize = 0;
    while i < v.len()
        invariant
            i <= v.len(),
            forall|k: int| 0 <= k < i ==> v@[k] != key,
        decreases v.len() - i,
    {
        if v[i] == key {
            proof {
                assert(v@[i as int] == key);
            }
            return true;
        }
        i = i + 1;
    }
    false
}

/// A command with the arrow keys exchanged.
fn swap_arrows(key: VirtualKey, cmd: Command) -> (r: Command)
    ensures
        r == swapped(key, cmd),
{
    if key == VirtualKey::Up && cmd == Command::PrevPage {
        Command::PrevCandidate
    } else if key == VirtualKey::Down && cmd == Command::NextPage {
        Command::NextCandidate
    } else if key == VirtualKey::Left && cmd == Command::PrevCandidate {
        Command::PrevPage
    } else {
        cmd
    }
}

/// The hint of the chosen candidate.
fn find_hint(s: &InputSession) -> (r: String)
    ensures
        r@ == chosen_hint(s@),
{
    if s.selected < s.candidates.len() {
        s.candidates[s.selected].hint.clone()
    } else {
        String::new()
    }
}

/// A key that gives a command.
pub(crate) fn do_mapped(ctx: &mut EngineContext, p: Press) -> (r: Option<Action>)
    requires
        maps_whole(old(ctx)@, p),
    ensures
        (final(ctx)@, action::opt_act(r)) == mapped(old(ctx)@, p),
        r is None ==> final(ctx)@ == old(ctx)@,
        r is Some <==> mapped_command(old(ctx)@, p) is Some,
{
    proof {
        reveal(mapped);
    }
    let mods = ModifierState { shift: p.shift, ctrl: false, alt: false, meta: false };
    let cmd = match ctx.dispatcher.command(p.key, mods) {
        Some(c) => c,
        None => return None,
    };
    let hint = find_hint(&ctx.session);
    if p.key == VirtualKey::Space && p.shift && !is_blank(hint.as_str()) {
        return Some(commit_candidate(ctx, hint.as_str(), commands::NOT_CHOSEN, p.now));
    }
    let cmd = if ctx.config.swap_arrow_keys() {
        swap_arrows(p.key, cmd)
    } else {
        cmd
    };
    Some(execute_command(ctx, cmd, p.now))
}

/// Whether a key that gives a command finds room on the page for it.
pub(crate) fn finds_mapped_room(ctx: &EngineContext, cmd: Command, p: Press) -> (r: bool)
    requires
        mapped_command(ctx@, p) == Some(cmd),
    ensures
        r == maps_whole(ctx@, p),
{
    let hint = find_hint(&ctx.session);
    if p.key == VirtualKey::Space && p.shift && !is_blank(hint.as_str()) {
        return true;
    }
    if ctx.config.swap_arrow_keys() {
        finds_room(ctx, swap_arrows(p.key, cmd))
    } else {
        finds_room(ctx, cmd)
    }
}

/// The command of a letter while navigating.
pub open spec fn steering(key: VirtualKey) -> Option<Command> {
    if key == VirtualKey::H {
        Some(Command::PrevCandidate)
    } else if key == VirtualKey::L {
        Some(Command::NextCandidate)
    } else if key == VirtualKey::K {
        Some(Command::PrevPage)
    } else if key == VirtualKey::J {
        Some(Command::NextPage)
    } else {
        None
    }
}

/// Everything once the character before the cursor has been deleted, and what is done.
#[verifier::opaque]
pub open spec fn deleted(w: World, p: Press) -> (World, Act) {
    match lookup::looked_up(World { session: w.session.deleted_at_cursor(), ..w }, p.now) {
        (w1, Some(a)) => (w1, a),
        (w1, None) => (w1, Act::Consume),
    }
}

/// Everything once a key has been pressed while navigating, and what is done.
#[verifier::opaque]
pub open spec fn navigated(w: World, p: Press) -> (World, Option<Act>) {
    if !w.session.nav_mode {
        (w, None)
    } else if steering(p.key) is Some {
        let (w1, a) = commands::executed(w, steering(p.key)->0, p.now);
        (w1, Some(a))
    } else if among(w.store.config.options.nav_delete@, p.key) {
        let (w1, a) = deleted(w, p);
        (w1, Some(a))
    } else if among(w.store.config.options.nav_clear@, p.key) {
        (World { session: w.session.after_reset(), ..w }, Some(Act::Consume))
    } else {
        (w, None)
    }
}

/// Whether a key deletes only whole characters while navigating.
pub open spec fn deletes_whole(w: World, key: VirtualKey) -> bool {
    w.session.nav_mode && steering(key) is None && among(w.store.config.options.nav_delete@, key)
        && w.session.can_delete() ==> text::on_boundary(w.session.buffer, w.session.cursor_pos - 1)
}

/// Whether a key is one for navigating, and that is what is done.
pub open spec fn navigates(w: World, key: VirtualKey) -> bool {
    w.session.nav_mode && (steering(key) is Some || among(w.store.config.options.nav_delete@, key)
        || among(w.store.config.options.nav_clear@, key))
}

/// Whether a key for navigating finds room on the page for its command, and deletes only whole
/// characters.
pub open spec fn navigates_whole(w: World, key: VirtualKey) -> bool {
    &&& w.session.nav_mode ==> (steering(key) matches Some(cmd) ==> commands::has_room(w, cmd))
    &&& deletes_whole(w, key)
}

/// Whether a key deletes only whole characters, if it deletes while navigating.
fn cuts_nothing(s: &InputSession, key: VirtualKey, deletes: bool) -> (r: bool)
    ensures
        r == (steering(key) is None && deletes && s@.can_delete() ==> text::on_boundary(
            s@.buffer,
            s@.cursor_pos - 1,
        )),
{
    let n = s.buffer.as_str().as_bytes().len();
    proof {
        crate::chinese::lemma_bytes_of_text(s.buffer@);
    }
    if steer(key).is_none() && deletes && !is_blank(s.buffer.as_str()) && 0 < s.cursor_pos && s.cursor_pos
        <= n {
        s.buffer.as_str().is_char_boundary(s.cursor_pos - 1)
    } else {
        true
    }
}

/// Everything, navigating or not.
#[verifier::opaque]
pub open spec fn with_nav(w: World, nav: bool) -> World {
    World { session: Session { nav_mode: nav, ..w.session }, ..w }
}

/// Whether a key is one for navigating, and whether it then finds room on the page and deletes
/// only whole characters.
pub(crate) fn test_navigating(ctx: &EngineContext, nav: bool, key: VirtualKey) -> (r: (bool, bool))
    ensures
        r.0 == navigates(with_nav(ctx@, nav), key),
        r.1 == navigates_whole(with_nav(ctx@, nav), key),
{
    proof {
        reveal(with_nav);
    }
    if !nav {
        return (false, true);
    }
    let deletes = holds_key(&ctx.config.nav_delete_keys(), key);
    let clears = holds_key(&ctx.config.nav_clear_keys(), key);
    let whole = cuts_nothing(&ctx.session, key, deletes);
    match steer(key) {
        Some(cmd) => (true, finds_room(ctx, cmd) && whole),
        None => (deletes || clears, whole),
    }
}

/// The command of a letter while navigating.
pub(crate) fn steer(key: VirtualKey) -> (r: Option<Command>)
    ensures
        r == steering(key),
{
    match key {
        VirtualKey::H => Some(Command::PrevCandidate),
        VirtualKey::L => Some(Command::NextCandidate),
        VirtualKey::K => Some(Command::PrevPage),
        VirtualKey::J => Some(Command::NextPage),
        _ => None,
    }
}

/// Deletes the character before the cursor, and looks up what is left.
fn delete_and_look_up(ctx: &mut EngineContext, p: Press) -> (r: Action)
    requires
        old(ctx)@.session.can_delete() ==> text::on_boundary(
            old(ctx)@.session.buffer,
            old(ctx)@.session.cursor_pos - 1,
        ),
    ensures
        (final(ctx)@, r@) == deleted(old(ctx)@, p),
{
    proof {
        reveal(deleted);
    }
    ctx.session.delete_at_cursor();
    match lookup::lookup(ctx, p.now) {
        Some(a) => a,
        None => Action::Consume,
    }
}

/// A key while navigating.
pub(crate) fn navigate(ctx: &mut EngineContext, p: Press) -> (r: Option<Action>)
    requires
        navigates_whole(old(ctx)@, p.key),
    ensures
        (final(ctx)@, action::opt_act(r)) == navigated(old(ctx)@, p),
        r is None ==> final(ctx)@ == old(ctx)@,
        r is Some <==> navigates(old(ctx)@, p.key),
{
    proof {
        reveal(navigated);
    }
    if !ctx.session.nav_mode {
        return None;
    }
    if let Some(cmd) = steer(p.key) {
        return Some(execute_command(ctx, cmd, p.now));
    }
    if holds_key(&ctx.config.nav_delete_keys(), p.key) {
        return Some(delete_and_look_up(ctx, p));
    }
    if holds_key(&ctx.config.nav_clear_keys(), p.key) {
        ctx.session.clear_buffer();
        return Some(Action::Consume);
    }
    None
}

/// What a layout puts out for a key.
#[verifier::opaque]
pub open spec fn put_out(w: World, p: Press) -> Option<Seq<char>> {
    match context::typed(w.table, p.key, false, w.state.caps_lock_enabled) {
        Some(c) => if keys::letter_key(p.key) {
            handlers::laid_out(w.store.config, handlers::language(w), c, p.shift)
        } else {
            None
        },
        None => None,
    }
}

/// What a layout puts out for a key.
pub(crate) fn find_put_out(ctx: &EngineContext, p: Press) -> (r: Option<String>)
    ensures
        config::opt_view(r) == put_out(ctx@, p),
{
    proof {
        reveal(put_out);
    }
    if is_letter(p.key) {
        if let Some(c) = ctx.key_table.key_to_char(
            p.key,
            false,
            ctx.session_state.caps_lock_enabled,
        ) {
            let lang = to_lower(ctx.session_state.first_profile().as_str());
            return lay_out(&ctx.config, lang.as_str(), c, p.shift);
        }
    }
    None
}

/// Whether a text has a small letter.
pub open spec fn has_small(s: Seq<char>) -> bool {
    exists|i: int| 0 <= i < s.len() && text::is_lower_letter(#[trigger] s[i])
}

/// Whether a text has a small letter.
fn find_small(s: &str) -> (r: bool)
    ensures
        r == has_small(s@),
{
    let c = chars_of(s);
    let mut i: usize = 0;
    while i < c.len()
        invariant
            i <= c.len(),
            c@ == s@,
            forall|k: int| 0 <= k < i ==> !text::is_lower_letter(#[trigger] s@[k]),
        decreases c.len() - i,
    {
        if lower_letter(c[i]) {
            proof {
                assert(text::is_lower_letter(s@[i as int]));
            }
            return true;
        }
        i = i + 1;
    }
    false
}

/// With a character typed that narrows down all candidates.
#[verifier::opaque]
pub open spec fn narrowed_by(s: Session, c: char) -> Session {
    Session { shift_used_as_modifier: true, filter_mode: FilterMode::Global, ..s }.filter_typed(c)
}

/// Types a character that narrows down all candidates.
pub(crate) fn narrow_by(s: &mut InputSession, c: char)
    ensures
        final(s)@ == narrowed_by(old(s)@, c),
{
    proof {
        reveal(narrowed_by);
    }
    s.shift_used_as_modifier = true;
    s.filter_mode = FilterMode::Global;
    s.handle_filter_char(c);
}

/// Everything once a letter has been pressed with shift behind letters that lead somewhere,
/// and what is done.
#[verifier::opaque]
pub open spec fn narrowed(w: World, p: Press) -> (World, Option<Act>) {
    let typed = context::typed(w.table, p.key, false, w.state.caps_lock_enabled);
    let s = w.session;
    if keys::letter_key(p.key) && p.shift && s.buffer.len() > 0 && s.has_dict_match && has_small(
        s.buffer,
    ) && typed is Some {
        let (w1, a) = handlers::refreshed(
            World { session: narrowed_by(s, typed->0), ..w },
            Press { perform_lookup: true, ..p },
        );
        (w1, Some(a))
    } else {
        (w, None)
    }
}

/// A letter with shift behind letters that lead somewhere.
pub(crate) fn narrow(ctx: &mut EngineContext, p: Press) -> (r: Option<Action>)
    ensures
        (final(ctx)@, action::opt_act(r)) == narrowed(old(ctx)@, p),
        r is None ==> final(ctx)@ == old(ctx)@,
{
    proof {
        reveal(narrowed);
    }
    if !(is_letter(p.key) && p.shift && !is_blank(ctx.session.buffer.as_str())
        && ctx.session.has_dict_match && find_small(ctx.session.buffer.as_str())) {
        return None;
    }
    match ctx.key_table.key_to_char(p.key, false, ctx.session_state.caps_lock_enabled) {
        Some(c) => {
            narrow_by(&mut ctx.session, c);
            Some(
                refresh(
                    ctx,
                    Press { key: p.key, shift: p.shift, perform_lookup: true, now: p.now },
                ),
            )
        },
        None => None,
    }
}

/// What the scheme of the profile that counts does with a key.
#[verifier::opaque]
pub open spec fn scheme_takes(w: World, key: VirtualKey) -> Option<Act> {
    match strmap::lookup(w.engine.schemes, w.state.first_profile()) {
        Some(s) => s.takes(key),
        None => None,
    }
}

/// Everything once a key that the scheme itself takes has been pressed, and what is done.
#[verifier::opaque]
pub open spec fn taken(w: World, p: Press) -> (World, Option<Act>) {
    match scheme_takes(w, p.key) {
        Some(a) => if a is Consume {
            let (w1, b) = handlers::refreshed(w, p);
            (w1, Some(b))
        } else {
            (w, Some(a))
        },
        None => (w, None),
    }
}

/// What the scheme of the profile that counts does with a key.
fn ask_scheme(ctx: &EngineContext, key: VirtualKey) -> (r: Option<Action>)
    ensures
        action::opt_act(r) == scheme_takes(ctx@, key),
{
    proof {
        reveal(scheme_takes);
    }
    let profile = ctx.session_state.first_profile();
    match ctx.engine.schemes.get(profile.as_str()) {
        Some(s) => s.take_key(key),
        None => None,
    }
}

/// A key that the scheme itself takes.
pub(crate) fn take(ctx: &mut EngineContext, p: Press) -> (r: Option<Action>)
    ensures
        (final(ctx)@, action::opt_act(r)) == taken(old(ctx)@, p),
        r is None ==> final(ctx)@ == old(ctx)@,
{
    proof {
        reveal(taken);
    }
    match ask_scheme(ctx, p.key) {
        Some(Action::Consume) => Some(refresh(ctx, p)),
        Some(a) => Some(a),
        None => None,
    }
}

/// The key struck last forgotten.
pub open spec fn untapped(d: Dispatch) -> Dispatch {
    Dispatch { tap_key: None, tap_time: None, ..d }
}

/// A key noted as the one struck last.
pub open spec fn tapped(d: Dispatch, key: VirtualKey, now: u64) -> Dispatch {
    Dispatch { tap_key: Some(key), tap_time: Some(now), ..d }
}

/// Forgets the key struck last.
pub(crate) fn forget_tap(d: &mut KeyDispatcher)
    ensures
        final(d)@ == untapped(old(d)@),
{
    d.last_tap_key = None;
    d.last_tap_time = None;
}

/// Notes a key as the one struck last.
fn note_tap(d: &mut KeyDispatcher, key: VirtualKey, now: u64)
    ensures
        final(d)@ == tapped(old(d)@, key, now),
{
    d.last_tap_key = Some(key);
    d.last_tap_time = Some(now);
}

/// Whether a key is struck again soon enough.
pub open spec fn struck_again(d: Dispatch, key: VirtualKey, within: u64, now: u64) -> bool {
    match d.tap_time {
        Some(t) => d.tap_key == Some(key) && session_state::passed(now, t) <= within,
        None => false,
    }
}

/// Whether a key is struck again soon enough.
fn again(d: &KeyDispatcher, key: VirtualKey, within: u64, now: u64) -> (r: bool)
    ensures
        r == struck_again(d@, key, within, now),
{
    match (d.last_tap_key, d.last_tap_time) {
        (Some(k), Some(t)) => k == key && (now <= t || now - t <= within),
        _ => false,
    }
}

/// What a letter struck twice puts in.
pub open spec fn replacement(c: Config, lang: Seq<char>, ch: char) -> Option<Seq<char>> {
    let own = match handlers::layout_action(c, lang, ch) {
        Some(a) => a.double_tap,
        None => None,
    };
    match own {
        Some(t) => Some(t),
        None => strmap::lookup(
            config_manager::texts_under(config_manager::tap_pairs(c.input.double_taps@)),
            seq![ch],
        ),
    }
}

/// What a letter struck twice puts in.
fn find_replacement(config: &ConfigManager, lang: &str, ch: char) -> (r: Option<String>)
    ensures
        config::opt_view(r) == replacement(config@.config, lang@, ch),
{
    if let Some(a) = find_layout_action(config, lang, ch) {
        if let Some(t) = &a.double_tap {
            return Some(t.clone());
        }
    }
    let key = char_string(ch);
    proof {
        assert(key@ =~= seq![ch]);
    }
    match config.double_taps().get(key.as_str()) {
        Some(t) => Some(t.clone()),
        None => None,
    }
}

/// Letters without a last one that is given.
pub open spec fn without_last(s: Seq<char>, c: char) -> Seq<char> {
    if s.len() > 0 && s.last() == c {
        s.drop_last()
    } else {
        s
    }
}

/// Letters without a last one that is given.
fn drop_last_if(s: &str, c: char) -> (r: String)
    ensures
        r@ == without_last(s@, c),
{
    let v = chars_of(s);
    if v.len() > 0 && v[v.len() - 1] == c {
        drop_last_char(s)
    } else {
        s.to_owned()
    }
}

/// With a letter struck twice taken for the beginning of an auxiliary code: without it, and with
/// it for a code where letters are left.
#[verifier::opaque]
pub open spec fn begun_by(s: Session, c: char) -> Session {
    let s1 = Session { buffer: without_last(s.buffer, c), ..s };
    if s1.buffer.len() == 0 {
        s1.after_reset()
    } else {
        narrowed_by(s1, c)
    }
}

/// Everything once a letter struck twice has begun an auxiliary code, and what is done.
#[verifier::opaque]
pub open spec fn capitalised(w: World, c: char, p: Press) -> (World, Act) {
    let w1 = World { session: begun_by(w.session, c), dispatch: untapped(w.dispatch), ..w };
    if without_last(w.session.buffer, c).len() == 0 {
        compositor::phantom_updated(w1)
    } else {
        handlers::refreshed(w1, p)
    }
}

/// Takes a letter struck twice for the beginning of an auxiliary code, and tells whether no
/// letters are left.
fn begin_by(s: &mut InputSession, c: char) -> (r: bool)
    ensures
        final(s)@ == begun_by(old(s)@, c),
        r == (without_last(old(s)@.buffer, c).len() == 0),
{
    proof {
        reveal(begun_by);
    }
    let b = drop_last_if(s.buffer.as_str(), c);
    let empty = is_blank(b.as_str());
    s.buffer = b;
    if empty {
        s.clear_buffer();
    } else {
        narrow_by(s, c);
    }
    empty
}

/// A letter struck twice begins an auxiliary code.
fn capitalise(ctx: &mut EngineContext, c: char, p: Press) -> (r: Action)
    ensures
        (final(ctx)@, r@) == capitalised(old(ctx)@, c, p),
{
    proof {
        reveal(capitalised);
    }
    forget_tap(&mut ctx.dispatcher);
    if begin_by(&mut ctx.session, c) {
        Compositor::update_phantom_action(ctx)
    } else {
        refresh(ctx, p)
    }
}

/// Everything once a letter struck twice has been replaced, and what is done.
#[verifier::opaque]
pub open spec fn replaced(w: World, by: Seq<char>, p: Press) -> (World, Act) {
    let s = Session { buffer: w.session.buffer.drop_last() + by, ..w.session };
    handlers::refreshed(World { session: s, dispatch: untapped(w.dispatch), ..w }, p)
}

/// Replaces a letter struck twice.
fn replace(ctx: &mut EngineContext, by: &str, p: Press) -> (r: Action)
    requires
        old(ctx)@.session.buffer.len() > 0,
    ensures
        (final(ctx)@, r@) == replaced(old(ctx)@, by@, p),
{
    proof {
        reveal(replaced);
    }
    let mut b = drop_last_char(ctx.session.buffer.as_str());
    b.append(by);
    ctx.session.buffer = b;
    forget_tap(&mut ctx.dispatcher);
    refresh(ctx, p)
}

/// Everything once a letter has been struck twice, and what is done on that account.
#[verifier::opaque]
pub open spec fn doubled(w: World, c: char, p: Press) -> (World, Option<Act>) {
    let b = w.session.buffer;
    match replacement(w.store.config, handlers::language(w), c) {
        Some(t) => if b.len() > 0 && b.last() == c {
            let (w1, a) = replaced(w, t, p);
            (w1, Some(a))
        } else {
            (w, None)
        },
        None => if text::texts(w.store.config.options.double_tap_uppercase_keys@).contains(
            seq![c],
        ) {
            let (w1, a) = capitalised(w, c, p);
            (w1, Some(a))
        } else {
            (w, None)
        },
    }
}

/// A letter struck twice.
fn double(ctx: &mut EngineContext, c: char, p: Press) -> (r: Option<Action>)
    ensures
        (final(ctx)@, action::opt_act(r)) == doubled(old(ctx)@, c, p),
        r is None ==> final(ctx)@ == old(ctx)@,
{
    proof {
        reveal(doubled);
    }
    let lang = to_lower(ctx.session_state.first_profile().as_str());
    match find_replacement(&ctx.config, lang.as_str(), c) {
        Some(t) => {
            let b = chars_of(ctx.session.buffer.as_str());
            if b.len() > 0 && b[b.len() - 1] == c {
                Some(replace(ctx, t.as_str(), p))
            } else {
                None
            }
        },
        None => {
            let key = char_string(c);
            proof {
                assert(key@ =~= seq![c]);
            }
            if list_holds(ctx.config.double_tap_uppercase_keys(), key.as_str()) {
                Some(capitalise(ctx, c, p))
            } else {
                None
            }
        },
    }
}

/// Everything once a letter has been noted as struck, twice if it is, and what is done on that
/// account.
#[verifier::opaque]
pub open spec fn struck(w: World, p: Press) -> (World, Option<Act>) {
    let input = w.store.config.input;
    let typed = context::typed(w.table, p.key, false, w.state.caps_lock_enabled);
    if p.shift || !input.enable_double_tap {
        (World { dispatch: untapped(w.dispatch), ..w }, None)
    } else {
        let twice = if struck_again(w.dispatch, p.key, input.double_tap_timeout_ms, p.now)
            && typed is Some {
            doubled(w, typed->0, p)
        } else {
            (w, None)
        };
        match twice {
            (w1, Some(a)) => (w1, Some(a)),
            (w1, None) => (World { dispatch: tapped(w1.dispatch, p.key, p.now), ..w1 }, None),
        }
    }
}

/// Notes a letter as struck, twice if it is.
fn strike(ctx: &mut EngineContext, p: Press) -> (r: Option<Action>)
    ensures
        (final(ctx)@, action::opt_act(r)) == struck(old(ctx)@, p),
        r is None ==> final(ctx)@ == (World { dispatch: final(ctx)@.dispatch, ..old(ctx)@ }),
{
    proof {
        reveal(struck);
    }
    if p.shift || !ctx.config.enable_double_tap() {
        forget_tap(&mut ctx.dispatcher);
        return None;
    }
    let within = ctx.config.double_tap_timeout();
    if again(&ctx.dispatcher, p.key, within, p.now) {
        if let Some(c) = ctx.key_table.key_to_char(
            p.key,
            false,
            ctx.session_state.caps_lock_enabled,
        ) {
            if let Some(a) = double(ctx, c, p) {
                return Some(a);
            }
        }
    }
    note_tap(&mut ctx.dispatcher, p.key, p.now);
    None
}

/// With a letter typed.
#[verifier::opaque]
pub open spec fn typed_in(s: Session, c: char, shift: bool) -> Session {
    Session { shift_used_as_modifier: s.shift_used_as_modifier || shift, ..s }.pushed(c)
}

/// Everything once a letter of an auxiliary code has been typed, and what is done.
#[verifier::opaque]
pub open spec fn letter_filtered(w: World, p: Press) -> (World, Option<Act>) {
    let small = context::typed(w.table, p.key, false, w.state.caps_lock_enabled);
    if w.session.filter_mode != FilterMode::Off && small is Some {
        let (w1, a) = handlers::refreshed(
            World { session: w.session.filter_typed(small->0), ..w },
            p,
        );
        (w1, Some(a))
    } else {
        (w, None)
    }
}

/// Everything once a character has been put behind the others, and what is done.
#[verifier::opaque]
pub open spec fn char_put(w: World, c: char, p: Press) -> (World, Act) {
    handlers::settled(World { session: typed_in(w.session, c, p.shift), ..w }, None, p)
}

/// Everything once a letter has been put behind the others, and what is done.
#[verifier::opaque]
pub open spec fn letter_put(w: World, p: Press) -> (World, Option<Act>) {
    match context::typed(w.table, p.key, p.shift, w.state.caps_lock_enabled) {
        Some(c) => {
            let (w1, a) = char_put(w, c, p);
            (w1, Some(a))
        },
        None => (w, None),
    }
}

/// Everything once a letter has been typed, and what is done on that account.
#[verifier::opaque]
pub open spec fn letter_typed(w: World, p: Press) -> (World, Option<Act>) {
    match letter_filtered(w, p) {
        (w1, Some(a)) => (w1, Some(a)),
        (w1, None) => match struck(w1, p) {
            (w2, Some(a)) => (w2, Some(a)),
            (w2, None) => letter_put(w2, p),
        },
    }
}

proof fn lemma_not_filtered(w: World, p: Press)
    ensures
        letter_filtered(w, p).1 is None ==> letter_filtered(w, p).0 == w,
{
    reveal(letter_filtered);
}

proof fn lemma_not_doubled(w: World, c: char, p: Press)
    ensures
        doubled(w, c, p).1 is None ==> doubled(w, c, p).0 == w,
{
    reveal(doubled);
}

proof fn lemma_not_struck(w: World, p: Press)
    ensures
        struck(w, p).1 is None ==> struck(w, p).0.table == w.table && struck(w, p).0.state == w.state,
{
    reveal(struck);
    if let Some(c) = context::typed(w.table, p.key, false, w.state.caps_lock_enabled) {
        lemma_not_doubled(w, c, p);
    }
}

proof fn lemma_put(w: World, p: Press)
    requires
        context::typed(w.table, p.key, p.shift, w.state.caps_lock_enabled) is Some,
    ensures
        letter_put(w, p).1 is Some,
{
    reveal(letter_put);
}

/// A letter that types a character is taken.
pub(crate) proof fn lemma_letter_is_taken(w: World, p: Press)
    requires
        context::typed(w.table, p.key, p.shift, w.state.caps_lock_enabled) is Some,
    ensures
        letter_typed(w, p).1 is Some,
{
    reveal(letter_typed);
    lemma_not_filtered(w, p);
    lemma_not_struck(w, p);
    if struck(w, p).1 is None {
        lemma_put(struck(w, p).0, p);
    }
}

/// Types a letter.
fn type_in(s: &mut InputSession, c: char, shift: bool)
    ensures
        final(s)@ == typed_in(old(s)@, c, shift),
{
    proof {
        reveal(typed_in);
    }
    if shift {
        s.shift_used_as_modifier = true;
    }
    s.push_char(c);
}

/// A letter of an auxiliary code.
fn filter_letter(ctx: &mut EngineContext, p: Press) -> (r: Option<Action>)
    ensures
        (final(ctx)@, action::opt_act(r)) == letter_filtered(old(ctx)@, p),
        r is None ==> final(ctx)@ == old(ctx)@,
{
    proof {
        reveal(letter_filtered);
    }
    if ctx.session.filter_mode == FilterMode::Off {
        return None;
    }
    match ctx.key_table.key_to_char(p.key, false, ctx.session_state.caps_lock_enabled) {
        Some(c) => {
            ctx.session.handle_filter_char(c);
            Some(refresh(ctx, p))
        },
        None => None,
    }
}

/// Puts a character behind the others.
fn put_char(ctx: &mut EngineContext, c: char, p: Press) -> (r: Action)
    ensures
        (final(ctx)@, r@) == char_put(old(ctx)@, c, p),
{
    proof {
        reveal(char_put);
    }
    type_in(&mut ctx.session, c, p.shift);
    settle(ctx, None, p)
}

/// Puts a letter behind the others.
fn put_letter(ctx: &mut EngineContext, p: Press) -> (r: Option<Action>)
    ensures
        (final(ctx)@, action::opt_act(r)) == letter_put(old(ctx)@, p),
        r is None ==> final(ctx)@ == old(ctx)@,
{
    proof {
        reveal(letter_put);
    }
    match ctx.key_table.key_to_char(p.key, p.shift, ctx.session_state.caps_lock_enabled) {
        Some(c) => Some(put_char(ctx, c, p)),
        None => None,
    }
}

/// A letter.
pub(crate) fn type_letter(ctx: &mut EngineContext, p: Press) -> (r: Option<Action>)
    ensures
        (final(ctx)@, action::opt_act(r)) == letter_typed(old(ctx)@, p),
        r is None ==> final(ctx)@ == (World { dispatch: final(ctx)@.dispatch, ..old(ctx)@ }),
{
    proof {
        reveal(letter_typed);
    }
    if let Some(a) = filter_letter(ctx, p) {
        return Some(a);
    }
    if let Some(a) = strike(ctx, p) {
        return Some(a);
    }
    put_letter(ctx, p)
}

} // verus!
