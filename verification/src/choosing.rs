//! What is promised of choosing: the window shows the candidates page by page, and what is chosen in
//! it is what is put out.

use vstd::prelude::*;
use crate::action::{Act, Command};
use crate::actor;
use crate::actor::GuiSnapshot;
use crate::commands;
use crate::context::World;
use crate::editing;
use crate::handlers::Press;
use crate::keys::VirtualKey;
use crate::session::Session;
use crate::text;

verus! {

/// Whether an action takes back what is shown in the application and puts out a text. In English a
/// blank may follow it.
pub open spec fn puts_out(w: World, a: Act, t: Seq<char>) -> bool {
    &&& a is DeleteAndEmit
    &&& a->DeleteAndEmit_0 == w.session.phantom_text.len()
    &&& a->DeleteAndEmit_1 == t || (w.state.english() && a->DeleteAndEmit_1 == t.push(' '))
}

/// What is put out is the text, and the session is then cleared.
pub proof fn lemma_committed(w: World, t: Seq<char>, index: int, now: u64)
    ensures
        puts_out(w, commands::committed(w, t, index, now).1, t),
        commands::committed(w, t, index, now).0.session == w.session.cleared(),
{
    reveal(commands::committed);
    reveal(commands::noted);
    reveal(crate::learning::recorded);
}

/// After a text has been put out nothing is being composed.
pub proof fn lemma_nothing_left(w: World, t: Seq<char>, index: int, now: u64)
    ensures
        commands::committed(w, t, index, now).0.session.buffer.len() == 0,
        commands::committed(w, t, index, now).0.session.last_blocked_buffer
            == w.session.last_blocked_buffer,
{
    lemma_committed(w, t, index, now);
}

proof fn lemma_decimal(n: nat)
    ensures
        text::digits_value(actor::decimal(n)) == n,
        text::all_digits(actor::decimal(n)),
        actor::decimal(n).len() > 0,
    decreases n,
{
    if n < 10 {
        let s = seq![actor::digit(n)];
        assert(s.drop_last() =~= Seq::<char>::empty());
        assert(text::digits_value(s.drop_last()) == 0);
        assert(s.last() as int == n + 48);
    } else {
        lemma_decimal(n / 10);
        let d = actor::decimal(n / 10);
        let s = d.push(actor::digit(n % 10));
        assert(s.drop_last() =~= d);
        assert(s.last() as int == n % 10 + 48);
        assert forall|i: int| 0 <= i < s.len() implies text::is_digit_char(#[trigger] s[i]) by {
            if i < d.len() {
                assert(s[i] == d[i]);
            }
        }
    }
}

/// The window shows the candidates from the first of the page on, as many as the page holds or as
/// there are, each with its text and its hint and with a label that counts from one.
pub proof fn law_window_shows_the_page(w: World, g: GuiSnapshot, i: int)
    requires
        g.shows(w),
        w.store.config.appearance.page_size > 0,
        0 <= w.session.page,
        0 <= i < g.candidates@.len(),
    ensures
        w.session.page + i < w.session.candidates.len(),
        i < w.store.config.appearance.page_size,
        g.candidates@[i].text@ == w.session.candidates[w.session.page + i].text,
        g.candidates@[i].hint@ == w.session.candidates[w.session.page + i].hint,
        g.candidates@[i].label@.len() > 0,
        g.candidates@[i].label@.last() == '.',
        text::digits_value(g.candidates@[i].label@.drop_last()) == i + 1,
        g.candidates@.len() < w.store.config.appearance.page_size ==> w.session.page
            + g.candidates@.len() == w.session.candidates.len(),
        g.candidates@.len() <= w.store.config.appearance.page_size,
{
    let v = actor::infos(g.candidates@);
    assert(v == actor::infos_of(actor::shown(w)));
    assert(v[i] == g.candidates@[i]@);
    assert(v[i] == actor::info_of(actor::shown(w)[i], i));
    let d = actor::decimal((i + 1) as nat);
    lemma_decimal((i + 1) as nat);
    assert(d.push('.').drop_last() =~= d);
    assert(v.len() == g.candidates@.len());
    assert(actor::shown(w).len() == v.len());
}

/// A candidate chosen by its place on the page is the one that the window shows at this place,
/// whatever page is shown: its text is put out.
pub proof fn law_chosen_is_what_the_window_shows(w: World, g: GuiSnapshot, i: usize, now: u64)
    requires
        g.shows(w),
        w.store.config.appearance.page_size > 0,
        0 <= w.session.page,
        i < g.candidates@.len(),
    ensures
        puts_out(w, commands::executed(w, Command::Select(i), now).1, g.candidates@[i as int].text@),
{
    reveal(commands::executed);
    law_window_shows_the_page(w, g, i as int);
    let k = w.session.page + i;
    lemma_committed(w, w.session.candidates[k].text, k, now);
}

/// A digit from one to nine chooses the candidate of the page whose label it is.
pub proof fn law_digit_chooses_its_label(w: World, g: GuiSnapshot, p: Press, i: int)
    requires
        g.shows(w),
        w.store.config.appearance.page_size > 0,
        0 <= w.session.page,
        0 <= i < g.candidates@.len(),
        ({
            ||| p.key == VirtualKey::Digit1 && i == 0
            ||| p.key == VirtualKey::Digit2 && i == 1
            ||| p.key == VirtualKey::Digit3 && i == 2
            ||| p.key == VirtualKey::Digit4 && i == 3
            ||| p.key == VirtualKey::Digit5 && i == 4
            ||| p.key == VirtualKey::Digit6 && i == 5
            ||| p.key == VirtualKey::Digit7 && i == 6
            ||| p.key == VirtualKey::Digit8 && i == 7
            ||| p.key == VirtualKey::Digit9 && i == 8
        }),
    ensures
        puts_out(w, editing::numbered(w, p).1, g.candidates@[i].text@),
{
    reveal(editing::numbered);
    law_window_shows_the_page(w, g, i);
    law_chosen_is_what_the_window_shows(w, g, i as usize, p.now);
}

/// Putting out the chosen candidate puts out the one that the window marks.
pub proof fn law_commit_puts_out_the_marked(w: World, g: GuiSnapshot, now: u64)
    requires
        g.shows(w),
        w.store.config.appearance.page_size > 0,
        0 <= w.session.page <= w.session.selected,
        g.selected < g.candidates@.len(),
        w.session.buffer.len() > 0,
        !w.store.config.input.firefox_space_interrupt,
    ensures
        puts_out(
            w,
            commands::executed(w, Command::Commit, now).1,
            g.candidates@[g.selected as int].text@,
        ),
{
    reveal(commands::executed);
    law_window_shows_the_page(w, g, g.selected as int);
    lemma_committed(w, w.session.candidates[w.session.selected].text, w.session.selected, now);
}

/// Without a candidate the letters are put out; and they are put out as they are where that is
/// asked for. A character of the first candidate is put out by its place. What is given up is
/// taken back, and nothing is put out for it.
pub proof fn law_commands_put_out_what_they_name(w: World, i: usize, now: u64)
    requires
        w.session.buffer.len() > 0,
    ensures
        puts_out(w, commands::executed(w, Command::CommitRaw, now).1, w.session.buffer),
        w.session.candidates.len() == 0 && 0 <= w.session.selected
            && !w.store.config.input.firefox_space_interrupt ==> puts_out(
            w,
            commands::executed(w, Command::Commit, now).1,
            w.session.buffer,
        ),
        w.session.candidates.len() > 0 && i < w.session.candidates[0].text.len() ==> puts_out(
            w,
            commands::executed(w, Command::SelectChar(i), now).1,
            w.session.candidates[0].text.subrange(i as int, i + 1),
        ),
        commands::executed(w, Command::Clear, now).0.session.buffer.len() == 0,
        commands::executed(w, Command::Clear, now).0.session.phantom_text.len() == 0,
        w.session.phantom_text.len() == 0 ==> commands::executed(w, Command::Clear, now).1
            is Consume,
        w.session.phantom_text.len() > 0 ==> {
            let a = commands::executed(w, Command::Clear, now).1;
            &&& a is DeleteAndEmit
            &&& a->DeleteAndEmit_0 == w.session.phantom_text.len()
            &&& a->DeleteAndEmit_1.len() == 0
        },
{
    reveal(commands::executed);
    lemma_committed(w, w.session.buffer, commands::NOT_CHOSEN as int, now);
    if w.session.candidates.len() > 0 && i < w.session.candidates[0].text.len() {
        let c = seq![w.session.candidates[0].text[i as int]];
        lemma_committed(w, c, commands::NOT_CHOSEN as int, now);
        assert(w.session.candidates[0].text.subrange(i as int, i + 1) =~= c);
    }
}

/// The next candidate is the one behind the chosen one, and the one before it is the chosen one
/// again; at the ends the choice stays. The page that is shown holds the choice, and begins at a
/// multiple of its size.
pub proof fn law_choice_moves_by_one(s: Session, page_size: int)
    requires
        page_size > 0,
        0 <= s.selected < s.candidates.len(),
    ensures
        s.selected + 1 < s.candidates.len() ==> s.next(page_size).selected == s.selected + 1,
        s.selected + 1 == s.candidates.len() ==> s.next(page_size).selected == s.selected,
        s.selected > 0 ==> s.prev(page_size).selected == s.selected - 1,
        s.selected == 0 ==> s.prev(page_size).selected == 0,
        s.selected + 1 < s.candidates.len() ==> s.next(page_size).prev(page_size).selected
            == s.selected,
        s.next(page_size).page % page_size == 0,
        s.prev(page_size).page % page_size == 0,
        s.next(page_size).page <= s.next(page_size).selected < s.next(page_size).page + page_size,
        s.prev(page_size).page <= s.prev(page_size).selected < s.prev(page_size).page + page_size,
        s.next(page_size).candidates == s.candidates,
        s.next(page_size).buffer == s.buffer,
        s.prev(page_size).candidates == s.candidates,
        s.prev(page_size).buffer == s.buffer,
{
    crate::session::law_selection_stays_on_page(s, page_size);
    let a = s.next(page_size).selected;
    let b = s.prev(page_size).selected;
    vstd::arithmetic::div_mod::lemma_mod_multiples_basic(a / page_size, page_size);
    vstd::arithmetic::div_mod::lemma_mod_multiples_basic(b / page_size, page_size);
}

/// The next page begins where the page that is shown ends, if there is more to show, and turning back
/// shows the page again. The first candidate of a page that was turned to is the chosen one.
pub proof fn law_pages_follow_one_another(s: Session, page_size: int)
    requires
        page_size > 0,
        0 <= s.page,
    ensures
        s.page + page_size < s.candidates.len() ==> {
            let t = s.page_turned(page_size);
            &&& t.page == s.page + page_size
            &&& t.selected == t.page
            &&& t.candidates == s.candidates
            &&& t.page_turned_back(page_size).page == s.page
        },
        s.page + page_size >= s.candidates.len() ==> s.page_turned(page_size).page == s.page
            && s.page_turned(page_size).selected == s.selected,
        s.page >= page_size ==> s.page_turned_back(page_size).page == s.page - page_size,
        s.page < page_size ==> s.page_turned_back(page_size).page == 0,
        s.page_turned_back(page_size).selected == s.page_turned_back(page_size).page,
        s.page_turned_back(page_size).candidates == s.candidates,
        s.page_turned_back(page_size).buffer == s.buffer,
        s.page_turned(page_size).buffer == s.buffer,
{
}

/// The commands for pages and candidates do with the session what their names say, and nothing else
/// but bring up to date what is shown in the application.
pub proof fn law_moving_changes_only_the_choice(w: World, now: u64)
    requires
        w.store.config.appearance.page_size > 0,
        0 <= w.session.page,
        0 <= w.session.selected < w.session.candidates.len(),
    ensures
        ({
            let n = w.store.config.appearance.page_size as int;
            let s = w.session;
            let down = commands::executed(w, Command::NextPage, now);
            let up = commands::executed(w, Command::PrevPage, now);
            let next = commands::executed(w, Command::NextCandidate, now);
            let prev = commands::executed(w, Command::PrevCandidate, now);
            &&& down.1 is Consume
            &&& up.1 is Consume
            &&& s.page + n < s.candidates.len() ==> down.0.session.page == s.page + n
            &&& s.page >= n ==> up.0.session.page == s.page - n
            &&& s.selected + 1 < s.candidates.len() ==> next.0.session.selected == s.selected + 1
            &&& s.selected > 0 ==> prev.0.session.selected == s.selected - 1
            &&& down.0.store == w.store && up.0.store == w.store && next.0.store == w.store
                && prev.0.store == w.store
            &&& down.0.session.buffer == s.buffer && up.0.session.buffer == s.buffer
                && next.0.session.buffer == s.buffer && prev.0.session.buffer == s.buffer
            &&& down.0.session.candidates == s.candidates && up.0.session.candidates
                == s.candidates && next.0.session.candidates == s.candidates
                && prev.0.session.candidates == s.candidates
        }),
{
    reveal(commands::executed);
    reveal(crate::compositor::phantom_updated);
    let n = w.store.config.appearance.page_size as int;
    law_choice_moves_by_one(w.session, n);
    law_pages_follow_one_another(w.session, n);
}

/// Every candidate is on one of the pages that the window counts.
pub proof fn law_pages_hold_all(n: int, size: int, k: int)
    requires
        size > 0,
        0 <= k < n,
    ensures
        0 <= k / size < actor::pages(n, size),
        (k / size) * size <= k < (k / size) * size + size,
        (actor::pages(n, size) - 1) * size < n <= actor::pages(n, size) * size,
{
    vstd::arithmetic::div_mod::lemma_fundamental_div_mod(k, size);
    vstd::arithmetic::div_mod::lemma_mod_bound(k, size);
    vstd::arithmetic::div_mod::lemma_fundamental_div_mod(n, size);
    vstd::arithmetic::div_mod::lemma_mod_bound(n, size);
    let q = n / size;
    let d = k / size;
    let r = n % size;
    let p = actor::pages(n, size);
    assert(d * size == size * d) by (nonlinear_arith);
    assert(p * size == size * p) by (nonlinear_arith);
    assert((p - 1) * size == size * p - size) by (nonlinear_arith);
    assert(size * (q + 1) == size * q + size) by (nonlinear_arith);
    assert(0 <= d) by (nonlinear_arith)
        requires
            0 <= k,
            size > 0,
            d == k / size,
    ;
    assert(d < p) by (nonlinear_arith)
        requires
            size * d <= k,
            k < n,
            n <= size * p,
            size > 0,
    ;
}

/// In English a blank goes behind a word that ends with a letter or a digit, and behind no other; in
/// other languages none does.
pub proof fn law_blank_goes_behind_english_words(w: World, t: Seq<char>, index: int, now: u64)
    requires
        t.len() > 0,
    ensures
        ({
            let a = commands::committed(w, t, index, now).1;
            let word = crate::text::is_alphanumeric(t.last());
            &&& a is DeleteAndEmit
            &&& w.state.english() && word ==> a->DeleteAndEmit_1 == t.push(' ')
            &&& !w.state.english() || !word ==> a->DeleteAndEmit_1 == t
        }),
{
    reveal(commands::committed);
    reveal(commands::noted);
    reveal(crate::learning::recorded);
}


/// Where the space bar is interrupted, it puts out the letters as they are instead, over what it wrote,
/// and nothing is composed any more.
pub proof fn law_interrupted_space_puts_out_the_letters(w: World, now: u64)
    requires
        w.session.buffer.len() > 0,
        w.session.buffer.len() < 64,
        w.store.config.input.firefox_space_interrupt,
    ensures
        ({
            let (r, a) = commands::executed(w, Command::Commit, now);
            &&& a == Act::DeleteAndEmit(w.session.buffer.len() as int + 1, w.session.buffer)
            &&& r.session.buffer.len() == 0
            &&& r.store == w.store
        }),
{
    reveal(commands::executed);
}


} // verus!
