//! What commands do.

use vstd::prelude::*;
use crate::action::{Act, Action, Command};
use crate::candidate::Cand;
use crate::compositor;
use crate::compositor::Compositor;
use crate::context::{EngineContext, World};
use crate::learning;
use crate::learning::record_usage;
use crate::session::{is_blank, InputSession};
use crate::session_state;
use crate::session_state::{Lasting, SessionState};
use crate::text;
use crate::text::{alphanumeric, char_string, chars_of};
use crate::trie;

verus! {

/// The place that stands for none: what is put out with it was not chosen from the candidates,
/// and is not noted. A candidate that happens to stand at this place is not noted either.
pub const NOT_CHOSEN: usize = 99;

/// After how many milliseconds a word does not follow the one before any more.
pub const CONTEXT_LIFE: u64 = 10000;

/// What is put out for a word: in English a blank goes behind letters and digits.
pub open spec fn spaced(english: bool, word: Seq<char>) -> Seq<char> {
    if english && word.len() > 0 && text::is_alphanumeric(word.last()) {
        word.push(' ')
    } else {
        word
    }
}

/// With the history forgotten where the last word was put out too long ago.
pub open spec fn unless_late(s: Lasting, now: u64) -> Lasting {
    if session_state::passed(now, s.last_commit_time) > CONTEXT_LIFE {
        Lasting { history: Seq::empty(), ..s }
    } else {
        s
    }
}

/// Where a candidate came from.
pub open spec fn source_of(s: Seq<Cand>, index: int) -> Seq<char> {
    if 0 <= index < s.len() {
        s[index].source
    } else {
        Seq::empty()
    }
}

/// Everything, once a word chosen from the candidates has been noted.
pub open spec fn noted_chosen(w: World, typed: Seq<char>, word: Seq<char>, index: int, now: u64) -> World {
    let w1 = World { state: unless_late(w.state, now), ..w };
    let w2 = learning::recorded(
        w1,
        learning::Use {
            typed,
            word,
            source: source_of(w.session.candidates, index),
            context: w1.state.last_word(),
            now,
        },
    );
    World { state: Lasting { last_commit_time: now, ..w2.state.remembered(typed, word) }, ..w2 }
}

/// Everything, once a chosen word has been noted.
#[verifier::opaque]
pub open spec fn noted(w: World, word: Seq<char>, index: int, now: u64) -> World {
    let typed = w.session.last_lookup_pinyin;
    if typed.len() > 0 && index != NOT_CHOSEN {
        noted_chosen(w, typed, word, index, now)
    } else {
        w
    }
}

/// Everything once a word has been put out, with the place at which it was chosen, and what is
/// done.
#[verifier::opaque]
pub open spec fn committed(w: World, word: Seq<char>, index: int, now: u64) -> (World, Act) {
    let w1 = noted(w, word, index, now);
    (
        World { session: w1.session.cleared(), ..w1 },
        Act::DeleteAndEmit(
            w1.session.phantom_text.len() as int,
            spaced(w1.state.english(), word),
        ),
    )
}

/// Everything once a command has been carried out, and what is done.
#[verifier::opaque]
pub open spec fn executed(w: World, cmd: Command, now: u64) -> (World, Act) {
    let size = w.store.config.appearance.page_size as int;
    let s = w.session;
    match cmd {
        Command::NextPage => (World { session: s.page_turned(size), ..w }, Act::Consume),
        Command::PrevPage => (World { session: s.page_turned_back(size), ..w }, Act::Consume),
        Command::NextCandidate => compositor::phantom_updated(World { session: s.next(size), ..w }),
        Command::PrevCandidate => compositor::phantom_updated(World { session: s.prev(size), ..w }),
        Command::Select(i) => if s.page + i < s.candidates.len() {
            committed(w, s.candidates[s.page + i].text, s.page + i, now)
        } else {
            (w, Act::Consume)
        },
        Command::SelectChar(i) => if s.candidates.len() > 0 && i < s.candidates[0].text.len() {
            committed(w, seq![s.candidates[0].text[i as int]], NOT_CHOSEN as int, now)
        } else {
            (w, Act::Consume)
        },
        Command::Commit => if s.buffer.len() == 0 {
            (w, Act::PassThrough)
        } else if w.store.config.input.firefox_space_interrupt {
            (
                w.after_reset(),
                Act::DeleteAndEmit(
                    trie::least(usize::MAX as int, (s.buffer.len() + 1) as int),
                    s.buffer,
                ),
            )
        } else if s.selected < s.candidates.len() {
            committed(w, s.candidates[s.selected].text, s.selected, now)
        } else {
            committed(w, s.buffer, NOT_CHOSEN as int, now)
        },
        Command::CommitRaw => if s.buffer.len() == 0 {
            (w, Act::PassThrough)
        } else {
            committed(w, s.buffer, NOT_CHOSEN as int, now)
        },
        Command::Clear => (
            w.after_reset(),
            if s.phantom_text.len() > 0 {
                Act::DeleteAndEmit(s.phantom_text.len() as int, Seq::empty())
            } else {
                Act::Consume
            },
        ),
    }
}

/// Whether a command asks for the size of a page other than zero.
pub open spec fn needs_page(w: World, cmd: Command) -> bool {
    (cmd is NextCandidate || cmd is PrevCandidate) && w.session.candidates.len() > 0
}

/// Whether a command that asks for the size of a page finds one.
pub open spec fn has_room(w: World, cmd: Command) -> bool {
    needs_page(w, cmd) ==> w.store.config.appearance.page_size > 0
}

/// Whether a command that asks for the size of a page finds one.
pub(crate) fn finds_room(ctx: &EngineContext, cmd: Command) -> (r: bool)
    ensures
        r == has_room(ctx@, cmd),
{
    let asks = match cmd {
        Command::NextCandidate | Command::PrevCandidate => ctx.session.candidates.len() > 0,
        _ => false,
    };
    proof {
        assert(ctx@.session.candidates.len() == ctx.session.candidates@.len());
    }
    !asks || ctx.config.page_size() > 0
}

/// What is put out for a word.
fn space_out(english: bool, word: &str) -> (r: String)
    ensures
        r@ == spaced(english, word@),
{
    let c = chars_of(word);
    let mut out = word.to_owned();
    if english && c.len() > 0 && alphanumeric(c[c.len() - 1]) {
        out.push(' ');
    }
    out
}

/// Forgets the history where the last word was put out too long ago.
fn forget_if_late(state: &mut SessionState, now: u64)
    ensures
        final(state)@ == unless_late(old(state)@, now),
{
    if now > state.last_commit_time && now - state.last_commit_time > CONTEXT_LIFE {
        state.clear_history();
    }
}

/// Where a candidate came from.
fn source_at(session: &InputSession, index: usize) -> (r: String)
    ensures
        r@ == source_of(session@.candidates, index as int),
{
    if index < session.candidates.len() {
        session.candidates[index].source.clone()
    } else {
        String::new()
    }
}

/// The word put out last.
fn copy_last_word(state: &SessionState) -> (r: Option<String>)
    ensures
        crate::config::opt_view(r) == state@.last_word(),
{
    match state.get_last_word() {
        Some(w) => Some(w.to_owned()),
        None => None,
    }
}

/// Adds a word to the history.
fn remember(state: &mut SessionState, typed: String, word: &str, now: u64)
    ensures
        final(state)@ == (Lasting {
            last_commit_time: now,
            ..old(state)@.remembered(typed@, word@)
        }),
{
    state.add_to_history(typed, word.to_owned());
    state.update_commit_time(now);
}

/// Notes a chosen word.
fn note(ctx: &mut EngineContext, word: &str, index: usize, now: u64)
    ensures
        final(ctx)@ == noted(old(ctx)@, word@, index as int, now),
{
    proof {
        reveal(noted);
    }
    let typed = ctx.session.last_lookup_pinyin.clone();
    if !is_blank(typed.as_str()) && index != NOT_CHOSEN {
        note_chosen(ctx, typed, word, index, now);
    }
}

/// Notes a word chosen from the candidates.
fn note_chosen(ctx: &mut EngineContext, typed: String, word: &str, index: usize, now: u64)
    ensures
        final(ctx)@ == noted_chosen(old(ctx)@, typed@, word@, index as int, now),
{
    forget_if_late(&mut ctx.session_state, now);
    let source = source_at(&ctx.session, index);
    let context = copy_last_word(&ctx.session_state);
    let c: Option<&str> = match &context {
        Some(w) => Some(w.as_str()),
        None => None,
    };
    record_usage(ctx, typed.as_str(), word, source.as_str(), c, now);
    remember(&mut ctx.session_state, typed, word, now);
}

/// Puts out a word, with the place at which it was chosen from the candidates.
pub fn commit_candidate(ctx: &mut EngineContext, cand: &str, index: usize, now: u64) -> (r: Action)
    ensures
        (final(ctx)@, r@) == committed(old(ctx)@, cand@, index as int, now),
{
    proof {
        reveal(committed);
    }
    note(ctx, cand, index, now);
    let insert = space_out(ctx.session_state.is_english_mode(), cand);
    let delete = chars_of(ctx.session.phantom_text.as_str()).len();
    ctx.session.clear_composing();
    Action::DeleteAndEmit { delete, insert }
}

/// Puts out a candidate of the page.
fn select(ctx: &mut EngineContext, i: usize, now: u64) -> (r: Action)
    ensures
        (final(ctx)@, r@) == executed(old(ctx)@, Command::Select(i), now),
{
    proof {
        reveal(executed);
    }
    let n = ctx.session.candidates.len();
    let page = ctx.session.page;
    if page < n && i < n - page {
        let word = ctx.session.candidates[page + i].text.clone();
        return commit_candidate(ctx, word.as_str(), page + i, now);
    }
    Action::Consume
}

/// Puts out a character of the first candidate.
fn select_char(ctx: &mut EngineContext, i: usize, now: u64) -> (r: Action)
    ensures
        (final(ctx)@, r@) == executed(old(ctx)@, Command::SelectChar(i), now),
{
    proof {
        reveal(executed);
    }
    if ctx.session.candidates.len() > 0 {
        let c = chars_of(ctx.session.candidates[0].text.as_str());
        if i < c.len() {
            let out = char_string(c[i]);
            proof {
                assert(out@ =~= seq![ctx@.session.candidates[0].text[i as int]]);
            }
            return commit_candidate(ctx, out.as_str(), NOT_CHOSEN, now);
        }
    }
    Action::Consume
}

/// Puts out the selected candidate, or what was typed.
fn commit(ctx: &mut EngineContext, now: u64) -> (r: Action)
    ensures
        (final(ctx)@, r@) == executed(old(ctx)@, Command::Commit, now),
{
    proof {
        reveal(executed);
    }
    if is_blank(ctx.session.buffer.as_str()) {
        return Action::PassThrough;
    }
    let out = ctx.session.buffer.clone();
    if ctx.config.firefox_space_interrupt() {
        let n = chars_of(out.as_str()).len();
        let delete = if n < usize::MAX {
            n + 1
        } else {
            n
        };
        ctx.reset();
        return Action::DeleteAndEmit { delete, insert: out };
    }
    let i = ctx.session.selected;
    if i < ctx.session.candidates.len() {
        let word = ctx.session.candidates[i].text.clone();
        return commit_candidate(ctx, word.as_str(), i, now);
    }
    commit_candidate(ctx, out.as_str(), NOT_CHOSEN, now)
}

/// Turns to the next page.
fn turn(ctx: &mut EngineContext, now: u64) -> (r: Action)
    ensures
        (final(ctx)@, r@) == executed(old(ctx)@, Command::NextPage, now),
{
    proof {
        reveal(executed);
    }
    let page_size = ctx.config.page_size();
    ctx.session.next_page(page_size);
    Action::Consume
}

/// Turns to the page before.
fn turn_back(ctx: &mut EngineContext, now: u64) -> (r: Action)
    ensures
        (final(ctx)@, r@) == executed(old(ctx)@, Command::PrevPage, now),
{
    proof {
        reveal(executed);
    }
    let page_size = ctx.config.page_size();
    ctx.session.prev_page(page_size);
    Action::Consume
}

/// Chooses the next candidate.
fn choose_next(ctx: &mut EngineContext, now: u64) -> (r: Action)
    requires
        has_room(old(ctx)@, Command::NextCandidate),
    ensures
        (final(ctx)@, r@) == executed(old(ctx)@, Command::NextCandidate, now),
{
    proof {
        reveal(executed);
    }
    let page_size = ctx.config.page_size();
    if ctx.session.candidates.len() > 0 {
        ctx.session.next_candidate(page_size);
    }
    Compositor::update_phantom_action(ctx)
}

/// Chooses the candidate before.
fn choose_prev(ctx: &mut EngineContext, now: u64) -> (r: Action)
    requires
        has_room(old(ctx)@, Command::PrevCandidate),
    ensures
        (final(ctx)@, r@) == executed(old(ctx)@, Command::PrevCandidate, now),
{
    proof {
        reveal(executed);
    }
    let page_size = ctx.config.page_size();
    if ctx.session.candidates.len() > 0 {
        ctx.session.prev_candidate(page_size);
    }
    Compositor::update_phantom_action(ctx)
}

/// Puts out what was typed.
fn commit_raw(ctx: &mut EngineContext, now: u64) -> (r: Action)
    ensures
        (final(ctx)@, r@) == executed(old(ctx)@, Command::CommitRaw, now),
{
    proof {
        reveal(executed);
    }
    if is_blank(ctx.session.buffer.as_str()) {
        return Action::PassThrough;
    }
    let out = ctx.session.buffer.clone();
    commit_candidate(ctx, out.as_str(), NOT_CHOSEN, now)
}

/// Forgets what was typed, and takes back what is shown of it.
fn clear(ctx: &mut EngineContext, now: u64) -> (r: Action)
    ensures
        (final(ctx)@, r@) == executed(old(ctx)@, Command::Clear, now),
{
    proof {
        reveal(executed);
    }
    let delete = chars_of(ctx.session.phantom_text.as_str()).len();
    ctx.reset();
    if delete > 0 {
        let insert = String::new();
        Action::DeleteAndEmit { delete, insert }
    } else {
        Action::Consume
    }
}

/// Carries out a command.
pub fn execute_command(ctx: &mut EngineContext, cmd: Command, now: u64) -> (r: Action)
    requires
        has_room(old(ctx)@, cmd),
    ensures
        (final(ctx)@, r@) == executed(old(ctx)@, cmd, now),
{
    match cmd {
        Command::NextPage => turn(ctx, now),
        Command::PrevPage => turn_back(ctx, now),
        Command::NextCandidate => choose_next(ctx, now),
        Command::PrevCandidate => choose_prev(ctx, now),
        Command::Select(i) => select(ctx, i, now),
        Command::SelectChar(i) => select_char(ctx, i, now),
        Command::Commit => commit(ctx, now),
        Command::CommitRaw => commit_raw(ctx, now),
        Command::Clear => clear(ctx, now),
    }
}

/// After a word has been put out nothing is being composed, and what was shown of it is
/// deleted.
pub proof fn law_commit_ends_composing(w: World, word: Seq<char>, index: int, now: u64)
    ensures
        committed(w, word, index, now).0.session.buffer.len() == 0,
        committed(w, word, index, now).0.session.candidates.len() == 0,
        committed(w, word, index, now).1 is DeleteAndEmit,
        committed(w, word, index, now).1->DeleteAndEmit_0 == w.session.phantom_text.len(),
{
    reveal(committed);
    reveal(noted);
    reveal(learning::recorded);
}

} // verus!
