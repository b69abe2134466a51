//! What is promised of typing: how letters are begun, respelled, deleted and narrowed down, and which
//! of its uses a key has.

use vstd::prelude::*;
use vstd::utf8::is_ascii_chars;
use crate::action::{Act, Command, FilterMode, ImeState};
use crate::commands;
use crate::composing;
use crate::compositor;
use crate::config::{Config, KeyActionView};
use crate::config_manager;
use crate::context;
use crate::context::{KeyRow, World};
use crate::editing;
use crate::handlers;
use crate::handlers::{Press, Rep};
use crate::hotkeys;
use crate::keys;
use crate::keys::VirtualKey;
use crate::lookup;
use crate::obeying;
use crate::pressing::{FsmEffect, KeyEvent, KEY_BATCH_DELAY_MS};
use crate::processor;
use crate::session;
use crate::session::Session;
use crate::strmap;
use crate::text;
use crate::transition;

verus! {

/// A syllable with zh, ch or sh has another spelling, and that has the first for another spelling.
pub proof fn law_spellings_are_exchanged(c: char, rest: Seq<char>)
    requires
        c == 'z' || c == 'c' || c == 's',
        rest.len() > 0,
        rest[0] != 'h',
    ensures
        session::respelled(seq![c] + rest) == Some(seq![c, 'h'] + rest),
        session::respelled(seq![c, 'h'] + rest) == Some(seq![c] + rest),
{
    assert((seq![c] + rest).skip(1) =~= rest);
    assert((seq![c, 'h'] + rest).skip(2) =~= rest);
    assert((seq![c] + rest)[1] == rest[0]);
}

/// A syllable that begins otherwise has no other spelling.
pub proof fn law_other_syllables_have_one_spelling(s: Seq<char>)
    requires
        s.len() < 2 || (s[0] != 'z' && s[0] != 'c' && s[0] != 's'),
    ensures
        session::respelled(s) is None,
{
}

proof fn lemma_syllable_at(ends: Seq<int>, pos: int, i: int)
    requires
        0 <= i <= ends.len(),
        i > 0 ==> ends[i - 1] < pos,
    ensures
        ({
            let (a, b) = session::syllable_at(ends, pos, i);
            &&& b != -1 ==> pos <= b && ends.contains(b)
            &&& a == 0 || (ends.contains(a) && a < pos)
        }),
    decreases ends.len() - i,
{
    if i > 0 {
        assert(ends.contains(ends[i - 1]));
    }
    if i < ends.len() {
        assert(ends.contains(ends[i]));
        if pos > ends[i] {
            lemma_syllable_at(ends, pos, i + 1);
        }
    }
}

/// Of plain letters the syllable at the cursor is deleted, from the end of the one before to its own
/// end, and the letters on both sides of it stay.
pub proof fn law_syllable_at_the_cursor_is_deleted(s: Session, a: int, b: int)
    requires
        is_ascii_chars(s.buffer),
        s.buffer.len() > 0,
        s.best_segmentation.len() > 0,
        s.ends().len() > 0,
        session::syllable_at(s.ends(), s.cursor_pos, 0) == (a, b),
        0 <= a < b <= s.buffer.len(),
        b - a < s.buffer.len(),
    ensures
        s.syllable_deleted().buffer == s.buffer.take(a) + s.buffer.skip(b),
        s.syllable_deleted().cursor_pos == a,
        s.cursor_pos <= b,
        a == 0 || a < s.cursor_pos,
{
    lemma_syllable_at(s.ends(), s.cursor_pos, 0);
}

/// The syllable at the cursor is put in its other spelling in its place, and nothing else of plain
/// letters changes.
pub proof fn law_syllable_at_the_cursor_is_respelled(s: Session, t: Seq<char>)
    requires
        is_ascii_chars(s.buffer),
        0 <= s.syllable_span().0 < s.syllable_span().1 <= s.buffer.len(),
        session::respelled(s.buffer.subrange(s.syllable_span().0, s.syllable_span().1)) == Some(t),
    ensures
        s.fuzzy_toggled().buffer == s.buffer.take(s.syllable_span().0) + t + s.buffer.skip(
            s.syllable_span().1,
        ),
{
    let (a, b) = s.syllable_span();
    session::lemma_between_letters(s.buffer, a, b);
    let rest = s.around_syllable();
    assert(rest =~= s.buffer.take(a) + s.buffer.skip(b));
    assert forall|i: int| 0 <= i < rest.len() implies '\0' <= #[trigger] rest[i] <= '\u{7f}' by {
        if i < a {
            assert(rest[i] == s.buffer[i]);
        } else {
            assert(rest[i] == s.buffer[i - a + b]);
        }
    }
    session::lemma_between_letters(rest, 0, a);
    session::lemma_between_letters(rest, a, rest.len() as int);
    assert(rest.subrange(0, a) =~= s.buffer.take(a));
    assert(rest.subrange(a, rest.len() as int) =~= s.buffer.skip(b));
}

/// A code for all candidates is begun without a letter while something is composed, and only then.
pub proof fn law_code_is_begun_empty(s: Session)
    ensures
        s.state != ImeState::Idle && s.filter_mode != FilterMode::Global ==> compositor::filter_begun(
            s,
        ).filter_mode == FilterMode::Global && compositor::filter_begun(s).aux_filter.len() == 0
            && compositor::filter_begun(s).buffer == s.buffer,
        s.state == ImeState::Idle || s.filter_mode == FilterMode::Global ==> compositor::filter_begun(s)
            == s,
{
}

/// A semicolon goes behind the letters.
pub proof fn law_semicolons_are_typed(w: World, p: Press)
    requires
        text::byte_len(w.session.buffer) < 64,
    ensures
        obeying::has_letters(editing::semicolon_typed(w, p).0.session, w.session.buffer.push(';')),
{
    reveal(editing::semicolon_typed);
    obeying::lemma_refreshed_keeps(World { session: w.session.pushed(';'), ..w }, p);
}

/// Of other keys a punctuation mark is left to be put out, and any other character goes behind the
/// letters or is taken back; a key without a character is left to the application.
pub proof fn law_other_keys_type(w: World, p: Press, c: char)
    requires
        text::byte_len(w.session.buffer) < 64,
    ensures
        context::mark_of(w.table, p.key, p.shift) is Some ==> editing::other_typed(w, p) == (
            w,
            Rep::Punctuation,
        ),
        context::mark_of(w.table, p.key, p.shift) is None && context::typed(
            w.table,
            p.key,
            p.shift,
            w.state.caps_lock_enabled,
        ) == Some(c) ==> obeying::has_letters(
            editing::other_typed(w, p).0.session,
            w.session.buffer.push(c),
        ) || editing::other_typed(w, p).0.session.buffer == w.session.buffer,
        context::mark_of(w.table, p.key, p.shift) is None && context::typed(
            w.table,
            p.key,
            p.shift,
            w.state.caps_lock_enabled,
        ) is None ==> editing::other_typed(w, p) == (w, Rep::Done(Act::PassThrough)),
{
    reveal(editing::other_typed);
    obeying::lemma_settled_keeps(
        World { session: w.session.pushed(c), ..w },
        w.session.buffer,
        p,
    );
}

/// A letter with shift behind letters that lead somewhere begins a code for all candidates, and the
/// letters stay.
pub proof fn law_shift_begins_a_code(w: World, p: Press, c: char)
    requires
        keys::letter_key(p.key),
        p.shift,
        w.session.has_dict_match,
        exists|i: int| 0 <= i < w.session.buffer.len() && 'a' <= #[trigger] w.session.buffer[i] <= 'z',
        context::typed(w.table, p.key, false, w.state.caps_lock_enabled) == Some(c),
    ensures
        composing::narrowed(w, p).1 is Some,
        obeying::has_letters(composing::narrowed(w, p).0.session, w.session.buffer),
        composing::narrowed_by(w.session, c).aux_filter == w.session.aux_filter.push(c),
        composing::narrowed_by(w.session, c).filter_mode == FilterMode::Global,
        composing::narrowed_by(w.session, c).selected == 0,
        composing::narrowed_by(w.session, c).page == 0,
{
    reveal(composing::narrowed_by);
    let i = choose|i: int|
        0 <= i < w.session.buffer.len() && 'a' <= #[trigger] w.session.buffer[i] <= 'z';
    assert(text::is_lower_letter(w.session.buffer[i]));
    assert(composing::has_small(w.session.buffer));
    let w1 = World { session: composing::narrowed_by(w.session, c), ..w };
    let q = Press { perform_lookup: true, ..p };
    obeying::lemma_refreshed_keeps(w1, q);
    assert(composing::narrowed(w, p).0 == handlers::refreshed(w1, q).0 && composing::narrowed(
        w,
        p,
    ).1 is Some) by {
        reveal(composing::narrowed);
    }
}

/// Without shift no code is begun.
pub proof fn law_no_code_without_shift(w: World, p: Press)
    requires
        !p.shift || !w.session.has_dict_match || !keys::letter_key(p.key),
    ensures
        composing::narrowed(w, p) == (w, None::<Act>),
{
    reveal(composing::narrowed);
}

/// A letter struck twice that is to begin a code does: it is taken off the letters, and is the code.
pub proof fn law_letter_struck_twice_begins_a_code(s: Session, c: char)
    requires
        s.buffer.len() > 1,
        s.buffer.last() == c,
    ensures
        composing::begun_by(s, c).buffer == s.buffer.drop_last(),
        composing::begun_by(s, c).aux_filter == s.aux_filter.push(c),
        composing::begun_by(s, c).filter_mode == FilterMode::Global,
{
    reveal(composing::begun_by);
    reveal(composing::narrowed_by);
}

/// A layout of a profile puts out for a letter what it says of it, with shift and without; without a
/// word of it the plain layout does, but not with shift while something is composed.
pub proof fn law_layouts_put_out_what_they_say(
    c: Config,
    lang: Seq<char>,
    ch: char,
    a: KeyActionView,
    l: crate::config::ProfileLayoutView,
)
    requires
        strmap::lookup(c.layouts@, lang) == Some(l),
        strmap::lookup(l.mappings, seq![ch]) == Some(a),
    ensures
        a.tap.len() > 0 ==> handlers::laid_out(c, lang, ch, false) == Some(a.tap),
        a.shift.len() > 0 ==> handlers::laid_out(c, lang, ch, true) == Some(a.shift),
        a.shift.len() == 0 ==> handlers::laid_out(c, lang, ch, true) is None,
        a.tap.len() > 0 ==> handlers::laid_out_idle(c, lang, ch, false) == Some(a.tap),
        a.shift.len() > 0 ==> handlers::laid_out_idle(c, lang, ch, true) == Some(a.shift),
{
}

/// A digit that no candidate has is put out as it is, and the letters are given up.
pub proof fn law_digits_beyond_the_candidates_are_put_out(w: World, p: Press, c: char)
    requires
        keys::digit_key(p.key),
        keys::key_number(p.key) - 26 > w.session.candidates.len(),
        context::typed(w.table, p.key, false, w.state.caps_lock_enabled) == Some(c),
    ensures
        editing::numbered(w, p).1 == Act::Emit(seq![c]),
        editing::numbered(w, p).0.session.buffer.len() == 0,
        editing::numbered(w, p).0.session.candidates.len() == 0,
{
    reveal(editing::numbered);
}

proof fn lemma_placed(names: Seq<Seq<char>>, i: int, key: VirtualKey)
    requires
        0 <= i < names.len() <= usize::MAX,
        keys::key_named(text::lowercase(names[i])) == Some(key),
        forall|j: int|
            0 <= j < i ==> keys::key_named(text::lowercase(#[trigger] names[j])) != Some(key),
    ensures
        editing::place_of(config_manager::keys_placed(names), key, 0) == Some(i as usize),
    decreases names.len(),
{
    let d = names.drop_last();
    let v = config_manager::keys_placed(d);
    let w = config_manager::keys_placed(names);
    if i < d.len() {
        assert forall|j: int| 0 <= j < i implies keys::key_named(text::lowercase(#[trigger] d[j]))
            != Some(key) by {
            assert(d[j] == names[j]);
        }
        lemma_placed(d, i, key);
        lemma_place_stays(v, w, key, 0);
    } else {
        lemma_not_placed(d, key);
        assert(w == v.push((key, i as usize)));
        lemma_place_last(v, key, i as usize, 0);
    }
}

proof fn lemma_not_placed(names: Seq<Seq<char>>, key: VirtualKey)
    requires
        forall|j: int|
            0 <= j < names.len() ==> keys::key_named(text::lowercase(#[trigger] names[j])) != Some(key),
    ensures
        forall|j: int|
            0 <= j < config_manager::keys_placed(names).len() ==> (
            #[trigger] config_manager::keys_placed(names)[j]).0 != key,
    decreases names.len(),
{
    if names.len() > 0 {
        let d = names.drop_last();
        assert forall|j: int| 0 <= j < d.len() implies keys::key_named(text::lowercase(#[trigger] d[j]))
            != Some(key) by {
            assert(d[j] == names[j]);
        }
        lemma_not_placed(d, key);
        assert(keys::key_named(text::lowercase(names[names.len() - 1])) != Some(key));
    }
}

proof fn lemma_place_stays(
    v: Seq<(VirtualKey, usize)>,
    w: Seq<(VirtualKey, usize)>,
    key: VirtualKey,
    i: int,
)
    requires
        0 <= i <= v.len() <= w.len(),
        forall|j: int| 0 <= j < v.len() ==> #[trigger] w[j] == v[j],
        editing::place_of(v, key, i) is Some,
    ensures
        editing::place_of(w, key, i) == editing::place_of(v, key, i),
    decreases v.len() - i,
{
    if i < v.len() {
        assert(w[i] == v[i]);
        if v[i].0 != key {
            lemma_place_stays(v, w, key, i + 1);
        }
    }
}

proof fn lemma_place_last(v: Seq<(VirtualKey, usize)>, key: VirtualKey, n: usize, i: int)
    requires
        0 <= i <= v.len(),
        forall|j: int| 0 <= j < v.len() ==> (#[trigger] v[j]).0 != key,
    ensures
        editing::place_of(v.push((key, n)), key, i) == Some(n),
    decreases v.len() - i,
{
    if i < v.len() {
        assert(v[i].0 != key);
        lemma_place_last(v, key, n, i + 1);
    }
}

/// The first, second and further keys that the settings name for it put out the first, second and
/// further characters of the first candidate.
pub proof fn law_keys_choose_characters(w: World, key: VirtualKey, i: int)
    requires
        w.session.has_dict_match,
        w.session.candidates.len() > 0,
        !w.state.tab_down,
        0 <= i < w.store.config.hotkeys.word_to_char@.len() <= usize::MAX,
        keys::key_named(text::lowercase(w.store.config.hotkeys.word_to_char@[i]@)) == Some(key),
        forall|j: int|
            0 <= j < i ==> keys::key_named(
                text::lowercase((#[trigger] w.store.config.hotkeys.word_to_char@[j])@),
            ) != Some(key),
    ensures
        editing::key_command(w, key) == Some(Command::SelectChar(i as usize)),
{
    let names = text::texts(w.store.config.hotkeys.word_to_char@);
    assert forall|j: int| 0 <= j < i implies keys::key_named(text::lowercase(#[trigger] names[j]))
        != Some(key) by {
        assert(names[j] == w.store.config.hotkeys.word_to_char@[j]@);
    }
    assert(names[i] == w.store.config.hotkeys.word_to_char@[i]@);
    lemma_placed(names, i, key);
    reveal(editing::key_command);
}

/// Whether a key is one that some names stand for.
pub open spec fn is_named(names: Seq<String>, key: VirtualKey) -> bool {
    exists|i: int|
        0 <= i < names.len() && keys::key_named(text::lowercase((#[trigger] names[i])@)) == Some(key)
}

proof fn lemma_among(names: Seq<String>, key: VirtualKey)
    ensures
        composing::among(names, key) <==> is_named(names, key),
{
    let t = text::texts(names);
    lemma_keys_in(t, key);
    if is_named(names, key) {
        let i = choose|i: int|
            0 <= i < names.len() && keys::key_named(text::lowercase((#[trigger] names[i])@)) == Some(
                key,
            );
        assert(t[i] == names[i]@);
    }
    if composing::among(names, key) {
        let i = choose|i: int|
            0 <= i < t.len() && keys::key_named(text::lowercase(#[trigger] t[i])) == Some(key);
        assert(t[i] == names[i]@);
    }
}

proof fn lemma_keys_in(names: Seq<Seq<char>>, key: VirtualKey)
    ensures
        config_manager::keys_in(names).contains(key) <==> exists|i: int|
            0 <= i < names.len() && keys::key_named(text::lowercase(#[trigger] names[i])) == Some(key),
    decreases names.len(),
{
    if names.len() > 0 {
        let d = names.drop_last();
        let v = config_manager::keys_in(d);
        let w = config_manager::keys_in(names);
        lemma_keys_in(d, key);
        if v.contains(key) {
            let j = choose|j: int| 0 <= j < v.len() && v[j] == key;
            assert(w[j] == key);
            let i = choose|i: int|
                0 <= i < d.len() && keys::key_named(text::lowercase(#[trigger] d[i])) == Some(key);
            assert(names[i] == d[i]);
        }
        if keys::key_named(text::lowercase(names[names.len() - 1])) == Some(key) {
            assert(w[v.len() as int] == key);
        }
        if w.contains(key) && !v.contains(key) {
            let j = choose|j: int| 0 <= j < w.len() && w[j] == key;
            if j < v.len() {
                assert(v[j] == key);
            }
            assert(keys::key_named(text::lowercase(names[names.len() - 1])) == Some(key));
        }
        if exists|i: int|
            0 <= i < names.len() && keys::key_named(text::lowercase(#[trigger] names[i])) == Some(
                key,
            ) {
            let i = choose|i: int|
                0 <= i < names.len() && keys::key_named(text::lowercase(#[trigger] names[i])) == Some(
                    key,
                );
            if i < d.len() {
                assert(d[i] == names[i]);
            }
        }
    }
}

/// While there are candidates, a key that the settings name for turning back a page turns it back; one
/// for the candidate before chooses it, and one for the next chooses that.
pub proof fn law_named_keys_move_the_choice(w: World, key: VirtualKey, now: u64)
    requires
        w.session.state != ImeState::Idle,
        w.session.candidates.len() > 0,
    ensures
        ({
            let h = w.store.config.hotkeys;
            let r = transition::paged(w, key, now);
            let up = is_named(h.page_up@, key);
            let down = is_named(h.page_down@, key);
            let prev = is_named(h.prev_candidate@, key);
            let next = is_named(h.next_candidate@, key);
            &&& up ==> r == (
                commands::executed(w, Command::PrevPage, now).0,
                Some(commands::executed(w, Command::PrevPage, now).1),
            )
            &&& !up && !down && prev ==> r == (
                commands::executed(w, Command::PrevCandidate, now).0,
                Some(commands::executed(w, Command::PrevCandidate, now).1),
            )
            &&& !up && !down && !prev && next ==> r == (
                commands::executed(w, Command::NextCandidate, now).0,
                Some(commands::executed(w, Command::NextCandidate, now).1),
            )
            &&& !up && !down && !prev && !next ==> r == (w, None::<Act>)
            &&& down && !up && w.store.config.input.fuzzy_config.fuzzy_page_threshold == 0 ==> r == (
                commands::executed(w, Command::NextPage, now).0,
                Some(commands::executed(w, Command::NextPage, now).1),
            )
        }),
{
    let h = w.store.config.hotkeys;
    lemma_among(h.page_up@, key);
    lemma_among(h.page_down@, key);
    lemma_among(h.prev_candidate@, key);
    lemma_among(h.next_candidate@, key);
    reveal(transition::paged);
    if w.store.config.input.fuzzy_config.fuzzy_page_threshold == 0 {
        assert(transition::turned(w, now) == commands::executed(w, Command::NextPage, now)) by {
            reveal(transition::turned);
            reveal(commands::executed);
        }
    }
}

/// A letter begins a composition where nothing is composed and no layout puts anything out for it.
pub proof fn law_letters_begin_a_composition(w: World, p: Press, c: char)
    requires
        w.session.buffer.len() == 0,
        handlers::laid_out_idle(w.store.config, handlers::language(w), c, p.shift) is None,
    ensures
        obeying::has_letters(handlers::begun(w, c, p).0.session, seq![c]),
{
    let w0 = World { session: w.session.pushed(c), ..w };
    let (w1, a) = handlers::maybe_looked_up(w0, p);
    obeying::lemma_maybe_keeps(w0, p);
    assert(text::byte_len(w.session.buffer) == 0) by {
        assert(w.session.buffer =~= Seq::empty());
        session::lemma_between_letters(Seq::empty(), 0, 0);
    }
    assert(w0.session.buffer =~= seq![c]);
    crate::showing::law_only_letters_that_lead_nowhere_are_taken_back(w1, w1.session.buffer, p.now);
    let w2 = handlers::blocked(w1, w1.session.buffer, p.now).0;
    obeying::lemma_phantom_keeps(w2);
    reveal(handlers::begun);
}

/// A letter that no command, layout, code or scheme takes goes behind the letters, or something is put
/// out.
pub proof fn law_plain_letters_are_typed(w: World, p: Press, c: char)
    requires
        composing::mapped_command(w, p) is None,
        !w.session.nav_mode,
        composing::put_out(w, p) is None,
        !p.shift,
        composing::scheme_takes(w, p.key) is None,
        keys::letter_key(p.key),
        w.session.filter_mode == FilterMode::Off,
        !w.store.config.input.enable_double_tap,
        text::byte_len(w.session.buffer) < 64,
        context::typed(w.table, p.key, false, w.state.caps_lock_enabled) == Some(c),
    ensures
        editing::composed(w, p).1 is Done,
        obeying::has_letters(editing::composed(w, p).0.session, w.session.buffer.push(c)),
{
    assert(composing::mapped(w, p) == (w, None::<Act>)) by {
        reveal(composing::mapped);
    }
    assert(composing::navigated(w, p) == (w, None::<Act>)) by {
        reveal(composing::navigated);
    }
    law_no_code_without_shift(w, p);
    assert(composing::taken(w, p) == (w, None::<Act>)) by {
        reveal(composing::taken);
    }
    obeying::law_letter_keys_type(w, p, c);
    assert(editing::lettered(w, p) == composing::letter_typed(w, p)) by {
        reveal(editing::lettered);
    }
    reveal(editing::composed);
}

/// What the state machine asks for is done: what is chosen is put out, the letters are, or they are
/// given up; or the key is kept, warned of or left.
pub proof fn law_state_machine_is_obeyed(w: World, e: KeyEvent)
    requires
        w.session.state != ImeState::Idle,
    ensures
        transition::effected(w, e, FsmEffect::CommitFirst) == (
            commands::executed(w, Command::Commit, e.now).0,
            Rep::Done(commands::executed(w, Command::Commit, e.now).1),
        ),
        transition::effected(w, e, FsmEffect::CommitRaw) == (
            commands::executed(w, Command::CommitRaw, e.now).0,
            Rep::Done(commands::executed(w, Command::CommitRaw, e.now).1),
        ),
        transition::effected(w, e, FsmEffect::Clear) == (
            commands::executed(w, Command::Clear, e.now).0,
            Rep::Done(commands::executed(w, Command::Clear, e.now).1),
        ),
        transition::effected(w, e, FsmEffect::Consume) == (w, Rep::Done(Act::Consume)),
        transition::effected(w, e, FsmEffect::Alert) == (w, Rep::Done(Act::Alert)),
        transition::effected(w, e, FsmEffect::PassThrough) == (w, Rep::Done(Act::PassThrough)),
{
    reveal(transition::effected);
}

/// While Chinese is off, a key that is held against the language is left to the application; so are
/// letters with control. The release of caps lock ends what it held.
pub proof fn law_keys_are_left_to_the_application(w: World, e: KeyEvent)
    ensures
        !w.state.chinese_enabled && !(e.val == 0 && e.key == VirtualKey::CapsLock)
            ==> transition::let_by(w, e) == (w, Some(Act::PassThrough)),
        e.ctrl && !e.alt && keys::letter_key(e.key) && e.key != VirtualKey::CapsLock
            ==> transition::let_by(w, e) == (w, Some(Act::PassThrough)),
        w.state.chinese_enabled && !e.ctrl && !(e.val == 0 && e.key == VirtualKey::CapsLock)
            ==> transition::let_by(w, e) == (w, None::<Act>),
        e.val == 0 && e.key == VirtualKey::CapsLock ==> !transition::let_by(w, e).0.state.capslock_down
            && !transition::let_by(w, e).0.state.capslock_combo_active
            && transition::let_by(w, e).0.session == w.session,
{
    reveal(transition::let_by);
}

/// Caps lock and then F switch the form and leave the language as it was.
pub proof fn law_caps_lock_and_a_letter_switch_the_form(w: World)
    requires
        w.session.buffer.len() == 0,
    ensures
        ({
            let w1 = hotkeys::mode_switched(w, VirtualKey::CapsLock, false, false).0;
            let w2 = transition::combined(w1, VirtualKey::F).0;
            &&& w2.state.traditional_enabled == !w.state.traditional_enabled
            &&& w2.state.chinese_enabled == w.state.chinese_enabled
            &&& w2.session == w.session
        }),
{
    reveal(hotkeys::mode_switched);
    reveal(transition::combined);
}

/// Letters that come soon after one another wait together in their order; letters that waited are put
/// in once time has passed, and the next one waits alone.
pub proof fn law_letters_wait_in_order(w: World, e: KeyEvent, c: char)
    requires
        e.now >= w.last_key_time,
        context::typed(w.table, e.key, e.shift, false) == Some(c),
    ensures
        e.now - w.last_key_time < KEY_BATCH_DELAY_MS ==> processor::gathered(w, e).0.pending
            == w.pending.push(c) && processor::gathered(w, e).1 is Consume
            && processor::gathered(w, e).0.last_key_time == e.now,
        e.now - w.last_key_time >= KEY_BATCH_DELAY_MS && w.pending.len() == 0
            ==> processor::gathered(w, e).0.pending == seq![c] && processor::gathered(w, e).1
            == Act::PassThrough,
        processor::waiting(w, Seq::empty(), e).pending == seq![c],
{
    reveal(processor::gathered);
    reveal(processor::waiting);
    assert(Seq::<char>::empty().push(c) =~= seq![c]);
}

/// Letters that waited are put in one after the other: those before and then those behind.
pub proof fn law_letters_are_put_in_one_by_one(w: World, a: Seq<char>, b: Seq<char>, now: u64)
    requires
        processor::batched(w, a, now).1 is Consume,
    ensures
        processor::batched(w, a + b, now) == processor::batched(
            processor::batched(w, a, now).0,
            b,
            now,
        ),
    decreases a.len(),
{
    if a.len() > 0 {
        let s = a + b;
        assert(s[0] == a[0]);
        assert(s.drop_first() =~= a.drop_first() + b);
        let w1 = processor::char_injected(w, a[0], now).0;
        law_letters_are_put_in_one_by_one(w1, a.drop_first(), b, now);
    } else {
        assert(a + b =~= b);
    }
}

/// Looked up ahead of time are longer letters that begin with those typed.
pub proof fn law_longer_letters_are_looked_up_ahead(b: Seq<char>, i: int)
    requires
        0 <= i < processor::ahead(b).len(),
    ensures
        text::byte_len(b) >= 2,
        b.len() < processor::ahead(b)[i].len(),
        processor::ahead(b)[i].take(b.len() as int) == b,
{
    reveal_strlit("a");
    reveal_strlit("i");
    reveal_strlit("n");
    reveal_strlit("g");
    reveal_strlit("o");
    reveal_strlit("e");
    reveal_strlit("u");
    reveal_strlit("an");
    reveal_strlit("ang");
    reveal_strlit("en");
    reveal_strlit("ong");
    reveal_strlit("ian");
    reveal_strlit("iao");
    let x = processor::common_endings()[i];
    assert(processor::ahead(b)[i] == b + x);
    assert((b + x).take(b.len() as int) =~= b);
}

proof fn lemma_row(t: Seq<KeyRow>, key: VirtualKey, i: int, k: int)
    requires
        0 <= i <= k < t.len(),
        t[k].key == key,
        forall|j: int| i <= j < k ==> (#[trigger] t[j]).key != key,
    ensures
        context::row_of(t, key, i) == Some(t[k]),
    decreases k - i,
{
    if i < k {
        assert(t[i].key != key);
        lemma_row(t, key, i + 1, k);
    }
}

/// A key types what its first row says: with shift the other character, and with the caps lock on as
/// if shift were held where the row heeds it, so that both together type the plain one.
pub proof fn law_rows_say_what_keys_type(t: Seq<KeyRow>, key: VirtualKey, k: int)
    requires
        0 <= k < t.len(),
        t[k].key == key,
        forall|j: int| 0 <= j < k ==> (#[trigger] t[j]).key != key,
    ensures
        context::typed(t, key, false, false) == t[k].plain,
        context::typed(t, key, true, false) == t[k].shifted,
        t[k].caps ==> context::typed(t, key, false, true) == t[k].shifted && context::typed(
            t,
            key,
            true,
            true,
        ) == t[k].plain,
        !t[k].caps ==> context::typed(t, key, false, true) == t[k].plain,
        context::mark_of(t, key, false) == t[k].mark,
        context::mark_of(t, key, true) == t[k].shifted_mark,
{
    lemma_row(t, key, 0, k);
}

/// The form in which is searched is the one that the session has.
pub proof fn law_search_is_in_the_form_of_the_session(w: World)
    ensures
        lookup::in_form(w).store.config.input.enable_traditional == w.state.traditional_enabled,
        lookup::in_form(w).session == w.session,
        lookup::in_form(w).store.learned == w.store.learned,
{
}

/// With a code for all candidates only those are left that begin with it, and none that fits is left
/// out.
pub proof fn law_code_is_held_against_all(w: World, i: int)
    requires
        w.session.filter_mode == FilterMode::Global,
        w.session.aux_filter.len() > 0,
    ensures
        ({
            let c = w.session.candidates;
            let r = lookup::globally_filtered(w).session.candidates;
            let mode = w.store.config.input.english_aux_mode;
            &&& 0 <= i < r.len() ==> c.contains(r[i]) && crate::engine::begins_with_code(
                r[i],
                w.session.aux_filter,
            )
            &&& 0 <= i < c.len() && crate::engine::fits_filter(c[i], w.session.aux_filter, mode)
                ==> r.contains(c[i])
            &&& lookup::globally_filtered(w).session.has_dict_match == (r.len() > 0)
        }),
{
    let c = w.session.candidates;
    let mode = w.store.config.input.english_aux_mode;
    let f = crate::engine::fitting(w.session.aux_filter, mode);
    let r = c.filter(f);
    if 0 <= i < r.len() {
        c.lemma_filter_pred(f, i);
        c.lemma_filter_contains_rev(f, r[i]);
        crate::engine::law_fitting_means_beginning_with_the_code(r[i], w.session.aux_filter, mode);
    }
    if 0 <= i < c.len() && crate::engine::fits_filter(c[i], w.session.aux_filter, mode) {
        c.lemma_filter_contains(f, i);
    }
}

/// Fuzzy sounds are searched for only where nothing was found without them and they are not in yet.
/// What is found then is what a search with them finds, and the letters stay.
pub proof fn law_fuzzy_sounds_are_a_last_resort(w: World, limit: int)
    ensures
        w.session.has_dict_match || w.session.fuzzy_activated ==> lookup::fuzzily(w, limit) == w,
        !w.session.has_dict_match && !w.session.fuzzy_activated ==> {
            let s = lookup::fuzzily(w, limit).session;
            let c = w.engine.searched(
                lookup::query(
                    w,
                    w.session.buffer,
                    limit,
                    w.session.filter_mode,
                    w.session.aux_filter,
                    true,
                ),
            ).0;
            &&& s.fuzzy_activated
            &&& s.buffer == w.session.buffer
            &&& c.len() > 0 ==> s.candidates == c && s.has_dict_match
            &&& c.len() == 0 ==> s.candidates == w.session.candidates
        },
{
    reveal(lookup::fuzzily);
}

/// Fuzzy sounds are in a search only where the settings have them and they are asked for.
pub proof fn law_fuzzy_sounds_are_asked_for(c: Config, asked: bool)
    ensures
        crate::config::with_fuzzy(c, asked).input.enable_fuzzy_pinyin == (c.input.enable_fuzzy_pinyin
            && asked),
{
}


/// Among the keys that edit, backspace deletes, home and end go to the first and the last candidate, a
/// semicolon is typed, and digits choose.
pub proof fn law_editing_keys(w: World, p: Press)
    ensures
        p.key == VirtualKey::Backspace ==> editing::edited(w, p) == (
            editing::backspaced(w, p).0,
            Rep::Done(editing::backspaced(w, p).1),
        ),
        p.key == VirtualKey::Semicolon && !p.shift ==> editing::edited(w, p) == (
            editing::semicolon_typed(w, p).0,
            Rep::Done(editing::semicolon_typed(w, p).1),
        ),
        p.key == VirtualKey::Home ==> editing::edited(w, p).0.session.selected == (if p.shift {
            0
        } else {
            w.session.page
        }) && editing::edited(w, p).1 == Rep::Done(Act::Consume),
        p.key == VirtualKey::End && p.shift && w.session.candidates.len() > 0 ==> editing::edited(
            w,
            p,
        ).0.session.selected == w.session.candidates.len() - 1,
{
    reveal(editing::edited);
    reveal(editing::gone_home);
    reveal(editing::gone_to_end);
}

/// While navigating, a key that the settings name for it gives the letters up, unless it steers or
/// deletes; without navigating no key does.
pub proof fn law_letters_are_given_up_while_navigating(w: World, p: Press)
    ensures
        w.session.nav_mode && composing::steering(p.key) is None && !is_named(
            w.store.config.options.nav_delete@,
            p.key,
        ) && is_named(w.store.config.options.nav_clear@, p.key) ==> composing::navigated(
            w,
            p,
        ).0.session.buffer.len() == 0 && composing::navigated(w, p).1 == Some(Act::Consume),
        !w.session.nav_mode ==> composing::navigated(w, p) == (w, None::<Act>),
{
    lemma_among(w.store.config.options.nav_delete@, p.key);
    lemma_among(w.store.config.options.nav_clear@, p.key);
    reveal(composing::navigated);
}

/// While navigating, a key that the settings name for it deletes the letter before the cursor.
pub proof fn law_letters_are_deleted_while_navigating(w: World, p: Press)
    requires
        w.session.nav_mode,
        composing::steering(p.key) is None,
        is_named(w.store.config.options.nav_delete@, p.key),
    ensures
        composing::navigated(w, p).1 is Some,
        obeying::has_letters(
            composing::navigated(w, p).0.session,
            w.session.deleted_at_cursor().buffer,
        ),
{
    lemma_among(w.store.config.options.nav_delete@, p.key);
    let w1 = World { session: w.session.deleted_at_cursor(), ..w };
    crate::showing::lemma_lookup_keeps_letters(w1, p.now);
    assert(composing::deleted(w, p).0 == lookup::looked_up(w1, p.now).0) by {
        reveal(composing::deleted);
    }
    reveal(composing::navigated);
}

/// While something is typed, a key that does not steer ends navigating and changes nothing else; one
/// that does carries out its command.
pub proof fn law_other_keys_end_navigating(w: World, key: VirtualKey, now: u64)
    requires
        w.session.nav_mode,
        w.session.buffer.len() > 0,
    ensures
        composing::steering(key) is None ==> !crate::pressing::steered(w, key, now).0.session.nav_mode
            && crate::pressing::steered(w, key, now).0.session.buffer == w.session.buffer
            && crate::pressing::steered(w, key, now).1 is None,
        key == VirtualKey::J ==> crate::pressing::steered(w, key, now).0 == commands::executed(
            w,
            Command::NextPage,
            now,
        ).0,
        key == VirtualKey::K ==> crate::pressing::steered(w, key, now).0 == commands::executed(
            w,
            Command::PrevPage,
            now,
        ).0,
{
    reveal(crate::pressing::steered);
}

/// What was decided on before comes first: an intent, then that the grave accent is left, then a switch.
pub proof fn law_decisions_come_first(w: World, e: KeyEvent, d: crate::pressing::Decided)
    ensures
        d.intent is Some ==> processor::gone_through(w, e, d) == (w, Rep::Done(d.intent->0)),
        d.intent is None && e.key == VirtualKey::Grave ==> processor::gone_through(w, e, d) == (
            w,
            Rep::Done(Act::PassThrough),
        ),
        d.intent is None && e.key != VirtualKey::Grave && d.switching is Some
            ==> processor::gone_through(w, e, d) == (w, Rep::Done(d.switching->0)),
{
    reveal(processor::gone_through);
}

/// A key that is taken before the state machine goes no further.
pub proof fn law_keys_taken_go_no_further(w: World, e: KeyEvent, d: crate::pressing::Decided)
    requires
        transition::begun(w, e).1 is Some,
    ensures
        processor::handled(w, e, d) == (
            transition::begun(w, e).0,
            Rep::Done(transition::begun(w, e).1->0),
        ),
{
    reveal(processor::handled);
}

/// Where letters are not taken for syllables and a code, a plain lookup that finds something does what a
/// lookup does.
pub proof fn law_plain_lookup_agrees(w: World, now: u64)
    requires
        !w.store.config.options.enable_smart_aux,
        lookup::found(w, lookup::MAX_LOOKUP_LIMIT as int).session.candidates.len() > 0,
    ensures
        lookup::looked_up(w, now) == lookup::plainly_looked_up(w, now),
{
    let w1 = lookup::found(w, lookup::MAX_LOOKUP_LIMIT as int);
    assert(w1.store == w.store) by {
        reveal(lookup::found);
    }
    assert(lookup::smartly_found(w1, lookup::MAX_LOOKUP_LIMIT as int) == w1) by {
        reveal(lookup::smartly_found);
    }
    reveal(lookup::looked_up);
    reveal(lookup::plainly_looked_up);
    reveal(lookup::finished);
}

/// With nothing typed every lookup resets.
pub proof fn law_nothing_typed_is_reset(w: World, limit: int, now: u64)
    requires
        w.session.buffer.len() == 0,
    ensures
        lookup::looked_up(w, now) == (w.after_reset(), None::<Act>),
        lookup::plainly_looked_up(w, now) == (w.after_reset(), None::<Act>),
        lookup::limitedly_looked_up(w, limit, now) == (w.after_reset(), None::<Act>),
{
    reveal(lookup::looked_up);
    reveal(lookup::plainly_looked_up);
    reveal(lookup::limitedly_looked_up);
}

/// Once a search has ended there is something to choose: what was found, or else the letters.
pub proof fn law_search_ends_with_a_choice(w: World)
    ensures
        w.session.candidates.len() > 0 ==> crate::actor::search_ended(w).session.candidates
            == w.session.candidates,
        w.session.candidates.len() == 0 ==> crate::actor::search_ended(w).session.candidates.len() == 1
            && crate::actor::search_ended(w).session.candidates[0].text == w.session.buffer,
        crate::actor::search_ended(w).session.buffer == w.session.buffer,
{
}


/// Without a cut of the letters the last syllable is the longest one of up to six letters that is known
/// at their end, and else one letter.
pub proof fn law_last_syllable_is_the_longest(
    freq: Map<Seq<char>, u64>,
    b: Seq<char>,
    n: int,
    j: int,
)
    requires
        is_ascii_chars(b),
        1 <= n <= b.len(),
    ensures
        ({
            let k = editing::last_syllable(freq, b, n);
            &&& 1 <= k <= n
            &&& k > 1 ==> freq.contains_key(b.skip(b.len() - k))
            &&& k < j <= n ==> !freq.contains_key(b.skip(b.len() - j))
        }),
    decreases n,
{
    if n >= 2 {
        let end = b.len() as int;
        session::lemma_between_letters(b, end - n, end);
        crate::spelling::lemma_ascii_boundary(b, end - n);
        assert(b.subrange(end - n, end) =~= b.skip(end - n));
        law_last_syllable_is_the_longest(freq, b, n - 1, j);
    }
}

/// Once the pages were turned often enough, fuzzy sounds are in; before that the page is only turned.
pub proof fn law_turning_pages_brings_fuzzy_sounds(w: World, now: u64)
    ensures
        ({
            let (w1, a) = commands::executed(w, Command::NextPage, now);
            let s = w1.session;
            let after = w.store.config.input.fuzzy_config.fuzzy_page_threshold;
            after == 0 || s.fuzzy_page_turns < after || s.fuzzy_activated || !s.has_dict_match
                ==> transition::turned(w, now) == (w1, a)
        }),
{
    assert(commands::executed(w, Command::NextPage, now).0.store == w.store) by {
        reveal(commands::executed);
    }
    reveal(transition::turned);
}


/// While tab is held, the keys that the settings name for that put out the characters of the first
/// candidate.
pub proof fn law_keys_choose_characters_with_tab(w: World, key: VirtualKey, i: int)
    requires
        w.session.has_dict_match,
        w.session.candidates.len() > 0,
        w.state.tab_down,
        0 <= i < w.store.config.hotkeys.word_to_char_shift@.len() <= usize::MAX,
        keys::key_named(text::lowercase(w.store.config.hotkeys.word_to_char_shift@[i]@)) == Some(key),
        forall|j: int|
            0 <= j < i ==> keys::key_named(
                text::lowercase((#[trigger] w.store.config.hotkeys.word_to_char_shift@[j])@),
            ) != Some(key),
    ensures
        editing::key_command(w, key) == Some(Command::SelectChar(i as usize)),
{
    let names = text::texts(w.store.config.hotkeys.word_to_char_shift@);
    assert forall|j: int| 0 <= j < i implies keys::key_named(text::lowercase(#[trigger] names[j]))
        != Some(key) by {
        assert(names[j] == w.store.config.hotkeys.word_to_char_shift@[j]@);
    }
    assert(names[i] == w.store.config.hotkeys.word_to_char_shift@[i]@);
    lemma_placed(names, i, key);
    reveal(editing::key_command);
}

/// Letters that can be taken for syllables and a code are searched for so, by the mode that the settings
/// have, and what is found comes first; without that, or where a code is marked, nothing is.
pub proof fn law_unmarked_codes_are_searched_for(w: World, limit: int, k: int, i: int)
    requires
        w.session.filter_mode == FilterMode::Off,
        crate::smart_aux::aux_cut(
            w.session.buffer,
            w.syllables,
            w.store.config.options.smart_aux_mode,
        ) == Some(k),
    ensures
        !w.store.config.options.enable_smart_aux ==> lookup::smartly_found(w, limit) == w,
        w.store.config.options.enable_smart_aux ==> {
            let c = w.engine.searched(
                lookup::query(
                    w,
                    w.session.buffer.take(k),
                    limit,
                    FilterMode::Global,
                    w.session.buffer.skip(k),
                    w.session.fuzzy_activated,
                ),
            ).0;
            let r = lookup::smartly_found(w, limit).session;
            &&& 0 <= i < c.len() ==> r.candidates.len() > i && r.candidates[i] == c[i]
            &&& c.len() > 0 ==> r.has_dict_match
            &&& c.len() == 0 ==> r.candidates == w.session.candidates
            &&& r.buffer == w.session.buffer
        },
{
    let c = w.engine.searched(
        lookup::query(
            w,
            w.session.buffer.take(k),
            limit,
            FilterMode::Global,
            w.session.buffer.skip(k),
            w.session.fuzzy_activated,
        ),
    ).0;
    let s = w.session.candidates;
    lemma_merged_keeps(c, s, s.len() as int);
    reveal(lookup::smartly_found);
}

proof fn lemma_merged_keeps(a: Seq<crate::candidate::Cand>, b: Seq<crate::candidate::Cand>, n: int)
    requires
        0 <= n <= b.len(),
    ensures
        a.len() <= lookup::merged(a, b, n).len(),
        forall|i: int| 0 <= i < a.len() ==> #[trigger] lookup::merged(a, b, n)[i] == a[i],
    decreases n,
{
    if n > 0 {
        lemma_merged_keeps(a, b, n - 1);
        let before = lookup::merged(a, b, n - 1);
        assert forall|i: int| 0 <= i < a.len() implies #[trigger] lookup::merged(a, b, n)[i] == a[i] by {
            assert(before[i] == a[i]);
        }
    }
}


} // verus!
