//! What is promised of what is shown: the letters that were typed, the candidates for them, and what
//! is put out of itself.

use vstd::prelude::*;
use crate::action::{FilterMode, ImeState};
use crate::candidate::Cand;
use crate::choosing;
use crate::commands;
use crate::compositor;
use crate::config::{AntiTypoMode, PhantomType};
use crate::context::World;
use crate::engine;
use crate::engine::Query;
use crate::handlers;
use crate::lookup;
use crate::session::Session;
use crate::trie;

verus! {

/// Other characters than blanks.
pub open spec fn no_blank() -> spec_fn(char) -> bool {
    |c: char| c != ' '
}

proof fn lemma_filter_joined(a: Seq<char>, b: Seq<char>, p: spec_fn(char) -> bool)
    ensures
        (a + b).filter(p) == a.filter(p) + b.filter(p),
    decreases b.len(),
{
    reveal(Seq::filter);
    if b.len() == 0 {
        assert(a + b =~= a);
        assert(b.filter(p) =~= Seq::<char>::empty());
        assert(a.filter(p) + b.filter(p) =~= a.filter(p));
    } else {
        let d = b.drop_last();
        lemma_filter_joined(a, d, p);
        assert((a + b).drop_last() =~= a + d);
        assert((a.filter(p) + d.filter(p)).push(b.last()) =~= a.filter(p) + d.filter(p).push(
            b.last(),
        ));
    }
}

proof fn lemma_blank_goes(a: Seq<char>)
    ensures
        a.push(' ').filter(no_blank()) == a.filter(no_blank()),
{
    reveal(Seq::filter);
    assert(a.push(' ').drop_last() =~= a);
}

proof fn lemma_parted(b: Seq<char>, segs: Seq<Seq<char>>, n: int)
    requires
        0 <= n <= segs.len(),
    ensures
        0 <= compositor::chars_in(segs, n),
        compositor::parted(b, segs, n).filter(no_blank()) == b.take(
            trie::least(compositor::chars_in(segs, n), b.len() as int),
        ).filter(no_blank()),
    decreases n,
{
    let p = no_blank();
    if n > 0 {
        lemma_parted(b, segs, n - 1);
        let before = compositor::parted(b, segs, n - 1);
        let start = compositor::chars_in(segs, n - 1);
        let end = start + segs[n - 1].len();
        let piece = compositor::stretch(b, start, end);
        lemma_blank_goes(before);
        lemma_filter_joined(before, piece, p);
        lemma_filter_joined(before.push(' '), piece, p);
        let x = b.take(trie::least(start, b.len() as int));
        lemma_filter_joined(x, piece, p);
        assert(x + piece =~= b.take(trie::least(end, b.len() as int)));
    } else {
        assert(b.take(0) =~= Seq::<char>::empty());
    }
}

/// What is shown of the letters is the letters: cut into syllables by blanks, none of them is lost,
/// none comes in, and they stand in their order.
pub proof fn law_cut_letters_are_the_letters(b: Seq<char>, segs: Seq<Seq<char>>)
    ensures
        compositor::cut_up(b, segs).filter(|c: char| c != ' ') == b.filter(|c: char| c != ' '),
{
    let p = no_blank();
    assert(p =~= (|c: char| c != ' '));
    let n = segs.len() as int;
    lemma_parted(b, segs, n);
    let at = compositor::chars_in(segs, n);
    let rest = compositor::stretch(b, at, b.len() as int);
    let x = b.take(trie::least(at, b.len() as int));
    lemma_filter_joined(compositor::parted(b, segs, n), rest, p);
    lemma_filter_joined(x, rest, p);
    assert(x + rest =~= b);
}

/// Nothing is shown of what is typed where nothing is typed or Chinese is off. Without syllables, and
/// of strokes, the letters are shown as they are, and what is shown begins with them.
pub proof fn law_letters_are_shown(w: World)
    ensures
        w.session.buffer.len() == 0 || !w.state.chinese_enabled ==> compositor::preedit(w).len() == 0,
        w.session.buffer.len() > 0 && w.state.chinese_enabled && (w.session.best_segmentation.len() == 0
            || w.state.profiles.contains("stroke"@)) ==> w.session.buffer.is_prefix_of(
            compositor::preedit(w),
        ),
        w.session.buffer.len() > 0 && w.state.chinese_enabled && w.session.best_segmentation.len() == 0
            && !w.session.nav_mode && w.session.aux_filter.len() == 0 ==> compositor::preedit(w)
            == w.session.buffer,
{
    let b = w.session.buffer;
    let p = compositor::preedit(w);
    if b.len() > 0 && w.state.chinese_enabled && (w.session.best_segmentation.len() == 0
        || w.state.profiles.contains("stroke"@)) {
        assert(b =~= p.subrange(0, b.len() as int));
    }
    if w.session.aux_filter.len() == 0 {
        assert(compositor::code_shown(w.session.aux_filter) =~= Seq::<char>::empty());
    }
    assert(b + Seq::<char>::empty() + Seq::<char>::empty() =~= b);
}

/// Once what is shown in the application is up to date, it is what the kind that is asked for says:
/// the letters, or the chosen candidate or the first one; and what is done turns what was shown into
/// it. Nothing is done where nothing is to be shown.
pub proof fn law_application_shows_what_is_asked(w: World)
    requires
        w.session.state != ImeState::Idle,
        !w.session.switch_mode,
        !w.state.profiles.contains("stroke"@),
        0 <= w.session.selected,
    ensures
        ({
            let (r, a) = compositor::phantom_updated(w);
            let s = w.session;
            &&& w.store.phantom() == PhantomType::Off ==> r == w && a is Consume
            &&& w.store.phantom() == PhantomType::Pinyin ==> r.session.phantom_text == s.buffer
            &&& w.store.phantom() == PhantomType::Hanzi && s.preview_selected_candidate
                && s.selected < s.candidates.len() ==> r.session.phantom_text
                == s.candidates[s.selected].text
            &&& w.store.phantom() == PhantomType::Hanzi && !s.preview_selected_candidate
                && s.joined_sentence.len() == 0 && s.candidates.len() > 0
                ==> r.session.phantom_text == s.candidates[0].text
            &&& w.store.phantom() != PhantomType::Off ==> compositor::done_to(s.phantom_text, a)
                == r.session.phantom_text
            &&& r.session.buffer == s.buffer && r.session.candidates == s.candidates && r.store
                == w.store
        }),
{
    reveal(compositor::phantom_updated);
    compositor::law_rewriting_gives_the_target(
        w.session.phantom_text,
        compositor::phantom_target(w),
    );
}

/// The first candidate is put out of itself only where that is asked for and it matches: with the
/// setting for a unique match it must be the only one, and no key of the dictionaries may go on behind
/// the letters. Without settings, strokes or a semicolon nothing is put out.
pub proof fn law_only_a_sure_match_is_put_out(w: World, now: u64)
    ensures
        ({
            let (r, a) = compositor::auto_committed(w, now);
            let s = w.session;
            let input = w.store.config.input;
            &&& a is None ==> r == w
            &&& a matches Some(x) ==> s.candidates.len() > 0 && choosing::puts_out(
                w,
                x,
                s.candidates[0].text,
            )
            &&& s.candidates.len() == 0 || !s.has_dict_match ==> a is None
            &&& !input.auto_commit_unique_full_match && !s.buffer.contains(';')
                && !input.auto_commit_stroke ==> a is None
            &&& input.auto_commit_unique_full_match && s.candidates.len() == 1 && s.has_dict_match
                && (forall|i: int|
                0 <= i < w.state.profiles.len() ==> !w.engine.has_longer(
                    #[trigger] w.state.profiles[i],
                    s.buffer,
                )) ==> a is Some
            &&& s.candidates.len() > 1 && s.candidates[1].match_level == 3 ==> a is None
            &&& s.candidates.len() > 1 && s.candidates[0].match_level != 3 ==> a is None
        }),
{
    reveal(compositor::auto_committed);
    if w.session.candidates.len() > 0 {
        choosing::lemma_committed(w, w.session.candidates[0].text, 0, now);
    }
}

/// What was typed is searched for as it stands, for the profile that counts and with the words put out
/// before; the candidates are those that the search gives.
pub proof fn law_what_is_typed_is_searched_for(w: World, limit: int)
    ensures
        ({
            let r = lookup::found(w, limit);
            let q = Query {
                buffer: w.session.buffer,
                profile: w.state.first_profile(),
                config: w.store.config,
                limit,
                filter_mode: w.session.filter_mode,
                aux_filter: w.session.aux_filter,
                context: w.state.last_word(),
                pair: w.state.last_two(),
                fuzzy_enabled: r.session.fuzzy_activated,
                learned: w.store.learned,
                ngram: w.store.ngram,
                order: w.store.order,
            };
            &&& r.session.candidates == w.engine.searched(q).0
            &&& r.session.best_segmentation == w.engine.searched(q).1
            &&& r.session.last_lookup_pinyin == w.session.buffer
            &&& r.session.has_dict_match <==> w.engine.searched(q).0.len() > 0
            &&& w.session.fuzzy_activated ==> r.session.fuzzy_activated
            &&& r.session.buffer == w.session.buffer
            &&& r.store == w.store && r.state == w.state && r.engine == w.engine
        }),
{
    reveal(lookup::found);
}

/// While something is typed there is a candidate: if nothing is found it is the letters themselves.
pub proof fn law_something_is_always_offered(w: World, fallback: Cand, now: u64)
    requires
        w.session.buffer.len() > 0,
    ensures
        ({
            let (r, a) = lookup::finished(w, fallback, now);
            &&& a is None ==> r.session.candidates.len() > 0 && r.session.buffer == w.session.buffer
                && r.session.state != ImeState::Idle
            &&& a is None && w.session.candidates.len() > 0 ==> r.session.candidates
                == w.session.candidates
            &&& a is None && w.session.candidates.len() == 0 ==> r.session.candidates == seq![fallback]
            &&& w.session.filter_mode == FilterMode::Global && w.session.candidates.len() == 1
                ==> a is Some && choosing::puts_out(w, a->0, w.session.candidates[0].text)
        }),
{
    reveal(lookup::finished);
    if w.session.candidates.len() > 0 {
        choosing::lemma_committed(w, w.session.candidates[0].text, 0, now);
    }
    let s1 = Session {
        candidates: if w.session.candidates.len() == 0 {
            seq![fallback]
        } else {
            w.session.candidates
        },
        ..w.session
    };
    law_only_a_sure_match_is_put_out(World { session: s1.state_updated(), ..w }, now);
}

/// A code that narrows down a page leaves those of its candidates that fit, and no others, in their
/// order; and a single one that is left is put out.
pub proof fn law_code_narrows_the_page(w: World, now: u64, i: int)
    requires
        0 <= i < w.session.page_snapshot.len(),
    ensures
        ({
            let (r, a) = lookup::page_filtered(w, now);
            let mode = w.store.config.input.english_aux_mode;
            let fits = w.session.page_snapshot.filter(
                |c: Cand| engine::fits_filter(c, w.session.aux_filter, mode),
            );
            &&& fits.len() != 1 ==> a is None && r.session.candidates == fits
            &&& fits.len() == 1 ==> a is Some && choosing::puts_out(w, a->0, fits[0].text)
            &&& engine::fits_filter(w.session.page_snapshot[i], w.session.aux_filter, mode)
                <==> fits.contains(w.session.page_snapshot[i])
        }),
{
    reveal(lookup::page_filtered);
    let mode = w.store.config.input.english_aux_mode;
    let p = engine::fitting(w.session.aux_filter, mode);
    let q = |c: Cand| engine::fits_filter(c, w.session.aux_filter, mode);
    assert(p =~= q);
    let s = w.session.page_snapshot;
    let fits = s.filter(q);
    if fits.len() == 1 {
        let w1 = World { session: Session { candidates: fits, ..w.session }, ..w };
        choosing::lemma_committed(w1, fits[0].text, 0, now);
    }
    if q(s[i]) {
        s.lemma_filter_contains(q, i);
    }
    if fits.contains(s[i]) {
        let j = choose|j: int| 0 <= j < fits.len() && fits[j] == s[i];
        s.lemma_filter_pred(q, j);
    }
}

/// Of two lists of candidates put together, all of the first come first and in their order, no text
/// is lost, and none of the second is shown that the first shows.
pub proof fn law_lists_are_put_together(a: Seq<Cand>, b: Seq<Cand>, n: int, k: int)
    requires
        0 <= n <= b.len(),
        0 <= k < n,
    ensures
        a.is_prefix_of(lookup::merged(a, b, n)),
        exists|i: int|
            0 <= i < lookup::merged(a, b, n).len() && (#[trigger] lookup::merged(a, b, n)[i]).text
                == b[k].text,
        forall|i: int|
            a.len() <= i < lookup::merged(a, b, n).len() ==> b.contains(
                #[trigger] lookup::merged(a, b, n)[i],
            ) && !lookup::shows(a, lookup::merged(a, b, n)[i].text),
{
    lemma_merged(a, b, n);
    let r = lookup::merged(a, b, n);
    assert(lookup::shows(r, b[k].text));
    assert(a =~= r.subrange(0, a.len() as int));
}

proof fn lemma_merged(a: Seq<Cand>, b: Seq<Cand>, n: int)
    requires
        0 <= n <= b.len(),
    ensures
        ({
            let r = lookup::merged(a, b, n);
            &&& r.len() >= a.len()
            &&& forall|i: int| 0 <= i < a.len() ==> r[i] == a[i]
            &&& forall|k: int| 0 <= k < n ==> lookup::shows(r, (#[trigger] b[k]).text)
            &&& forall|i: int|
                a.len() <= i < r.len() ==> b.contains(#[trigger] r[i]) && !lookup::shows(a, r[i].text)
        }),
    decreases n,
{
    if n > 0 {
        lemma_merged(a, b, n - 1);
        let before = lookup::merged(a, b, n - 1);
        let r = lookup::merged(a, b, n);
        let x = b[n - 1];
        assert forall|k: int| 0 <= k < n implies lookup::shows(r, (#[trigger] b[k]).text) by {
            if k < n - 1 {
                assert(lookup::shows(before, b[k].text));
                let i = choose|i: int| 0 <= i < before.len() && (#[trigger] before[i]).text == b[k].text;
                assert(r[i] == before[i]);
            } else if !lookup::shows(before, x.text) {
                assert(r[before.len() as int].text == x.text);
            }
        }
        assert forall|i: int| a.len() <= i < r.len() implies b.contains(#[trigger] r[i])
            && !lookup::shows(a, r[i].text) by {
            if i < before.len() {
                assert(r[i] == before[i]);
            } else {
                assert(r[i] == x);
                if lookup::shows(a, x.text) {
                    let j = choose|j: int| 0 <= j < a.len() && (#[trigger] a[j]).text == x.text;
                    assert(before[j].text == x.text);
                }
            }
        }
    }
}

/// Letters are taken back only where they lead nowhere and that is asked for. Where only a first try
/// is taken back, the same letters typed again are let through.
pub proof fn law_only_letters_that_lead_nowhere_are_taken_back(w: World, before: Seq<char>, now: u64)
    ensures
        ({
            let (r, stop) = handlers::blocked(w, before, now);
            let mode = w.store.config.input.anti_typo_mode;
            &&& w.session.has_dict_match ==> !stop
            &&& mode == AntiTypoMode::Off ==> !stop
            &&& mode == AntiTypoMode::Strict && !w.session.has_dict_match ==> stop
            &&& mode == AntiTypoMode::Smart && !w.session.has_dict_match && (
            w.session.last_blocked_buffer.len() == 0 || w.session.buffer
                != w.session.last_blocked_buffer) ==> stop
            &&& mode == AntiTypoMode::Smart && w.session.last_blocked_buffer.len() > 0
                && w.session.buffer == w.session.last_blocked_buffer ==> !stop
            &&& !stop ==> r.session.buffer == w.session.buffer
            &&& stop ==> r.session.buffer == before || r.session.buffer.len() == 0
            &&& stop && mode == AntiTypoMode::Smart && r.session.buffer.len() > 0
                ==> r.session.last_blocked_buffer == w.session.buffer
        }),
{
    reveal(handlers::blocked);
    let s = w.session;
    lemma_lookup_keeps_letters(World { session: Session { buffer: before, ..s }, ..w }, now);
    lemma_lookup_keeps_letters(
        World {
            session: Session { last_blocked_buffer: s.buffer, buffer: before, ..s },
            ..w
        },
        now,
    );
}

/// Whether a session has the letters of another, or none, and the same letters taken back.
pub open spec fn keeps_letters(s: Session, r: Session) -> bool {
    &&& r.buffer == s.buffer || r.buffer.len() == 0
    &&& r.last_blocked_buffer == s.last_blocked_buffer
}

/// Putting out the first candidate of itself leaves the letters, or none.
pub proof fn lemma_auto_keeps(w: World, now: u64)
    ensures
        keeps_letters(w.session, compositor::auto_committed(w, now).0.session),
{
    reveal(compositor::auto_committed);
    if w.session.candidates.len() > 0 {
        choosing::lemma_nothing_left(w, w.session.candidates[0].text, 0, now);
    }
}

proof fn lemma_finished_keeps(w: World, fallback: Cand, now: u64)
    ensures
        keeps_letters(w.session, lookup::finished(w, fallback, now).0.session),
{
    let s = w.session;
    let s1 = Session {
        candidates: if s.candidates.len() == 0 {
            seq![fallback]
        } else {
            s.candidates
        },
        ..s
    };
    let w1 = World { session: s1.state_updated(), ..w };
    lemma_auto_keeps(w1, now);
    if s.candidates.len() == 1 && s.filter_mode == FilterMode::Global {
        let x = commands::committed(w, s.candidates[0].text, 0, now);
        choosing::lemma_nothing_left(w, s.candidates[0].text, 0, now);
        assert(lookup::finished(w, fallback, now).0 == x.0) by {
            reveal(lookup::finished);
        }
    } else {
        assert(lookup::finished(w, fallback, now) == compositor::auto_committed(w1, now)) by {
            reveal(lookup::finished);
        }
    }
}

proof fn lemma_page_filtered_keeps(w: World, now: u64)
    ensures
        keeps_letters(w.session, lookup::page_filtered(w, now).0.session),
{
    let fits = w.session.page_snapshot.filter(
        engine::fitting(w.session.aux_filter, w.store.config.input.english_aux_mode),
    );
    let w1 = World { session: Session { candidates: fits, ..w.session }, ..w };
    if fits.len() == 1 {
        choosing::lemma_nothing_left(w1, fits[0].text, 0, now);
        assert(lookup::page_filtered(w, now).0 == commands::committed(w1, fits[0].text, 0, now).0)
            by {
            reveal(lookup::page_filtered);
        }
    } else {
        assert(lookup::page_filtered(w, now).0 == (World {
            session: w1.session.state_updated(),
            ..w
        })) by {
            reveal(lookup::page_filtered);
        }
    }
}

proof fn lemma_found_keeps(w: World, limit: int)
    ensures
        keeps_letters(w.session, lookup::smartly_found(lookup::found(w, limit), limit).session),
{
    reveal(lookup::found);
    reveal(lookup::smartly_found);
}

/// Looking up keeps the letters, unless something is put out.
pub proof fn lemma_lookup_keeps_letters(w: World, now: u64)
    ensures
        keeps_letters(w.session, lookup::looked_up(w, now).0.session),
{
    reveal(lookup::looked_up);
    let n = lookup::MAX_LOOKUP_LIMIT as int;
    lemma_page_filtered_keeps(w, now);
    lemma_found_keeps(w, n);
    lemma_finished_keeps(
        lookup::smartly_found(lookup::found(w, n), n),
        lookup::raw(w.session.buffer, "Raw"@, 0, 0),
        now,
    );
}

/// A code is shown behind the letters, its first letter in capitals and the others as they are; while
/// navigating, the keys for that are shown before it.
pub proof fn law_code_is_shown_behind_the_letters(w: World, c: char, rest: Seq<char>)
    requires
        w.session.buffer.len() > 0,
        w.state.chinese_enabled,
        'a' <= c <= 'z',
        forall|i: int| 0 <= i < rest.len() ==> 'a' <= #[trigger] rest[i] <= 'z',
        w.session.aux_filter == seq![c] + rest,
    ensures
        ({
            let bare = World { session: Session { aux_filter: Seq::empty(), ..w.session }, ..w };
            let plain = World { session: Session { nav_mode: false, ..bare.session }, ..bare };
            let hint = compositor::preedit(bare).skip(compositor::preedit(plain).len() as int);
            &&& compositor::preedit(w) == compositor::preedit(bare) + seq![crate::text::upper_char(c)]
                + rest
            &&& w.session.nav_mode ==> hint.len() > 0
            &&& !w.session.nav_mode ==> bare == plain
        }),
{
    let bare = World { session: Session { aux_filter: Seq::empty(), ..w.session }, ..w };
    let plain = World { session: Session { nav_mode: false, ..bare.session }, ..bare };
    lemma_code_shown(c, rest);
    let shown = seq![crate::text::upper_char(c)] + rest;
    let none: Seq<char> = compositor::code_shown(Seq::empty());
    assert(none =~= Seq::empty());
    assert(compositor::preedit(bare) + seq![crate::text::upper_char(c)] + rest
        =~= compositor::preedit(bare) + shown);
    let letters = if w.state.strokes() || w.session.best_segmentation.len() == 0 {
        w.session.buffer
    } else {
        compositor::cut_up(w.session.buffer, w.session.best_segmentation)
    };
    let hint = if w.session.nav_mode {
        " [H:左 J:下 K:上 L:右]"@
    } else {
        Seq::empty()
    };
    assert(compositor::preedit(w) == letters + hint + shown);
    assert(compositor::preedit(bare) =~= letters + hint);
    assert(compositor::preedit(plain) =~= letters);
    reveal_strlit(" [H:左 J:下 K:上 L:右]");
}

proof fn lemma_code_shown(c: char, rest: Seq<char>)
    requires
        'a' <= c <= 'z',
        forall|i: int| 0 <= i < rest.len() ==> 'a' <= #[trigger] rest[i] <= 'z',
    ensures
        compositor::code_shown(seq![c] + rest) == seq![crate::text::upper_char(c)] + rest,
    decreases rest.len(),
{
    let s = seq![c] + rest;
    if rest.len() > 0 {
        let d = rest.drop_last();
        assert forall|i: int| 0 <= i < d.len() implies 'a' <= #[trigger] d[i] <= 'z' by {
            assert(d[i] == rest[i]);
        }
        lemma_code_shown(c, d);
        assert(s.drop_last() =~= seq![c] + d);
        let x = rest[rest.len() - 1];
        assert('a' <= x <= 'z');
        assert(s.last() == x);
        assert(crate::text::small(x) =~= seq![x]);
        assert(seq![crate::text::upper_char(c)] + d + seq![x] =~= seq![crate::text::upper_char(c)]
            + rest);
    } else {
        assert(s =~= seq![c]);
        assert(seq![crate::text::upper_char(c)] + rest =~= seq![crate::text::upper_char(c)]);
    }
}


} // verus!
