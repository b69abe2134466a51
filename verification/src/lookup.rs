//! Looking up what has been typed.

use vstd::prelude::*;
use crate::action;
use crate::action::{Act, Action, FilterMode};
use crate::candidate;
use crate::candidate::{Cand, Candidate};
use crate::commands;
use crate::commands::commit_candidate;
use crate::compositor;
use crate::compositor::Compositor;
use crate::config;
use crate::config_manager::{ConfigManager, Store};
use crate::context::{EngineContext, World};
use crate::engine;
use crate::engine::{keep_fitting, Query, SearchQuery};
use crate::session::{is_blank, InputSession, Session};
use crate::session_state::SessionState;
use crate::smart_aux;
use crate::smart_aux::detect_smart_aux;
use crate::text;
use crate::text::same_text;

verus! {

/// How many candidates a lookup gives at most.
pub const MAX_LOOKUP_LIMIT: usize = 500;

/// What is searched for.
pub open spec fn query(
    w: World,
    buffer: Seq<char>,
    limit: int,
    mode: FilterMode,
    aux: Seq<char>,
    fuzzy: bool,
) -> Query {
    Query {
        buffer,
        profile: w.state.first_profile(),
        config: w.store.config,
        limit,
        filter_mode: mode,
        aux_filter: aux,
        context: w.state.last_word(),
        pair: w.state.last_two(),
        fuzzy_enabled: fuzzy,
        learned: w.store.learned,
        ngram: w.store.ngram,
        order: w.store.order,
    }
}

/// Whether fuzzy sounds are in from the start.
pub open spec fn always_fuzzy(c: config::Config) -> bool {
    c.input.fuzzy_config.fuzzy_page_threshold == 0
}

/// Everything once what was typed has been searched for.
#[verifier::opaque]
pub open spec fn found(w: World, limit: int) -> World {
    let s = w.session;
    let fuzzy = s.fuzzy_activated || always_fuzzy(w.store.config);
    let (c, segs) = w.engine.searched(
        query(w, s.buffer, limit, s.filter_mode, s.aux_filter, fuzzy),
    );
    World {
        session: Session {
            candidates: c,
            best_segmentation: segs,
            has_dict_match: c.len() > 0,
            last_lookup_pinyin: s.buffer,
            fuzzy_activated: fuzzy,
            ..s
        },
        ..w
    }
}

/// Whether some candidate shows a text.
pub open spec fn shows(s: Seq<Cand>, t: Seq<char>) -> bool {
    exists|i: int| 0 <= i < s.len() && (#[trigger] s[i]).text == t
}

/// Candidates with those of the first `n` others whose text none of them shows.
pub open spec fn merged(a: Seq<Cand>, b: Seq<Cand>, n: int) -> Seq<Cand>
    decreases n,
{
    if n <= 0 {
        a
    } else {
        let before = merged(a, b, n - 1);
        if shows(before, b[n - 1].text) {
            before
        } else {
            before.push(b[n - 1])
        }
    }
}

/// Everything once the letters have been taken for syllables and an auxiliary code, where
/// they can be.
#[verifier::opaque]
pub open spec fn smartly_found(w: World, limit: int) -> World {
    let s = w.session;
    let options = w.store.config.options;
    if options.enable_smart_aux && s.filter_mode == FilterMode::Off {
        match smart_aux::aux_cut(s.buffer, w.syllables, options.smart_aux_mode) {
            Some(k) => {
                let (c, _) = w.engine.searched(
                    query(
                        w,
                        s.buffer.take(k),
                        limit,
                        FilterMode::Global,
                        s.buffer.skip(k),
                        s.fuzzy_activated,
                    ),
                );
                if c.len() > 0 {
                    World {
                        session: Session {
                            candidates: merged(c, s.candidates, s.candidates.len() as int),
                            has_dict_match: true,
                            ..s
                        },
                        ..w
                    }
                } else {
                    w
                }
            },
            None => w,
        }
    } else {
        w
    }
}

/// The candidate that shows the letters themselves.
pub open spec fn raw(letters: Seq<char>, source: Seq<char>, weight: i64, level: u8) -> Cand {
    Cand {
        text: letters,
        simplified: letters,
        traditional: letters,
        hint: Seq::empty(),
        english_aux: Seq::empty(),
        stroke_aux: Seq::empty(),
        source,
        weight,
        match_level: level,
        flags: 0,
    }
}

/// Everything once a lookup is finished: a single candidate that an auxiliary code has left is
/// put out; without any candidate the letters themselves are one; and the first candidate is
/// put out where it is put out at once.
#[verifier::opaque]
pub open spec fn finished(w: World, fallback: Cand, now: u64) -> (World, Option<Act>) {
    let s = w.session;
    if s.candidates.len() == 1 && s.filter_mode == FilterMode::Global {
        let (w1, a) = commands::committed(w, s.candidates[0].text, 0, now);
        (w1, Some(a))
    } else {
        let c = if s.candidates.len() == 0 {
            seq![fallback]
        } else {
            s.candidates
        };
        let s1 = Session { candidates: c, ..s };
        compositor::auto_committed(World { session: s1.state_updated(), ..w }, now)
    }
}

/// Everything once an auxiliary code has been held against the candidates of a page.
#[verifier::opaque]
pub open spec fn page_filtered(w: World, now: u64) -> (World, Option<Act>) {
    let s = w.session;
    let fits = s.page_snapshot.filter(
        engine::fitting(s.aux_filter, w.store.config.input.english_aux_mode),
    );
    let s1 = Session { candidates: fits, ..s };
    if fits.len() == 1 {
        let (w1, a) = commands::committed(World { session: s1, ..w }, fits[0].text, 0, now);
        (w1, Some(a))
    } else {
        (World { session: s1.state_updated(), ..w }, None)
    }
}

/// Whether an auxiliary code narrows down the candidates of a page.
pub open spec fn on_page(s: Session) -> bool {
    s.filter_mode == FilterMode::Page && s.page_snapshot.len() > 0
}

/// Everything once what was typed has been looked up, and what is done.
#[verifier::opaque]
pub open spec fn looked_up(w: World, now: u64) -> (World, Option<Act>) {
    if w.session.buffer.len() == 0 {
        (w.after_reset(), None)
    } else if on_page(w.session) {
        page_filtered(w, now)
    } else {
        finished(
            smartly_found(found(w, MAX_LOOKUP_LIMIT as int), MAX_LOOKUP_LIMIT as int),
            raw(w.session.buffer, "Raw"@, 0, 0),
            now,
        )
    }
}

/// Everything once what was typed has been looked up without regard to an auxiliary code that
/// is not marked, and what is done.
#[verifier::opaque]
pub open spec fn plainly_looked_up(w: World, now: u64) -> (World, Option<Act>) {
    if w.session.buffer.len() == 0 {
        (w.after_reset(), None)
    } else if on_page(w.session) {
        page_filtered(w, now)
    } else {
        finished(
            found(w, MAX_LOOKUP_LIMIT as int),
            raw(w.session.buffer, "Syllable"@, 1000, 3),
            now,
        )
    }
}

/// Everything with the traditional form shown or not as the session has it.
pub open spec fn in_form(w: World) -> World {
    World {
        store: Store {
            config: config::in_form(w.store.config, w.state.traditional_enabled),
            ..w.store
        },
        ..w
    }
}

/// Everything once what was typed has been searched for with fuzzy sounds too, where nothing
/// was found without them.
#[verifier::opaque]
pub open spec fn fuzzily(w: World, limit: int) -> World {
    let s = w.session;
    if s.has_dict_match || s.fuzzy_activated {
        w
    } else {
        let (c, segs) = w.engine.searched(
            query(w, s.buffer, limit, s.filter_mode, s.aux_filter, true),
        );
        World {
            session: if c.len() > 0 {
                Session {
                    candidates: c,
                    best_segmentation: segs,
                    has_dict_match: true,
                    fuzzy_activated: true,
                    ..s
                }
            } else {
                Session { fuzzy_activated: true, ..s }
            },
            ..w
        }
    }
}

/// Everything with the candidates that fit an auxiliary code for all of them.
pub open spec fn globally_filtered(w: World) -> World {
    let s = w.session;
    if s.filter_mode == FilterMode::Global && s.aux_filter.len() > 0 {
        let c = s.candidates.filter(
            engine::fitting(s.aux_filter, w.store.config.input.english_aux_mode),
        );
        World { session: Session { candidates: c, has_dict_match: c.len() > 0, ..s }, ..w }
    } else {
        w
    }
}

/// Everything once what was typed has been looked up for at most so many candidates, and what
/// is done.
#[verifier::opaque]
pub open spec fn limitedly_looked_up(w: World, limit: int, now: u64) -> (World, Option<Act>) {
    if w.session.buffer.len() == 0 {
        (w.after_reset(), None)
    } else if on_page(w.session) {
        page_filtered(w, now)
    } else {
        let w1 = globally_filtered(fuzzily(found(in_form(w), limit), limit));
        finished(smartly_found(w1, limit), raw(w.session.buffer, "Raw"@, 0, 0), now)
    }
}

/// Searches for letters.
fn search(
    ctx: &EngineContext,
    buffer: &str,
    limit: usize,
    mode: FilterMode,
    aux: &str,
    fuzzy_enabled: bool,
) -> (r: (Vec<Candidate>, Vec<String>))
    ensures
        (candidate::cands(r.0@), text::texts(r.1@)) == ctx@.engine.searched(
            query(ctx@, buffer@, limit as int, mode, aux@, fuzzy_enabled),
        ),
{
    let profile = ctx.session_state.first_profile();
    let q = SearchQuery {
        buffer,
        profile: profile.as_str(),
        config: ctx.config.master_config.get(),
        limit,
        filter_mode: mode,
        aux_filter: aux,
        context: ctx.session_state.get_last_word(),
        context_pair: ctx.session_state.get_last_two_words(),
        fuzzy_enabled,
        learned_words: &ctx.config.learned_words,
        ngram_history: &ctx.config.ngram_history,
        user_order: &ctx.config.user_order,
    };
    proof {
        assert(q@ == query(ctx@, buffer@, limit as int, mode, aux@, fuzzy_enabled));
    }
    ctx.engine.search(q)
}

/// Searches for what was typed.
pub(crate) fn find(ctx: &mut EngineContext, limit: usize)
    ensures
        final(ctx)@ == found(old(ctx)@, limit as int),
{
    proof {
        reveal(found);
    }
    let fuzzy = ctx.session.fuzzy_activated
        || ctx.config.master_config.get().input.fuzzy_config.fuzzy_page_threshold == 0;
    let (c, segs) = search(
        ctx,
        ctx.session.buffer.as_str(),
        limit,
        ctx.session.filter_mode,
        ctx.session.aux_filter.as_str(),
        fuzzy,
    );
    take_found(&mut ctx.session, c, segs, fuzzy);
}

/// Takes what was found.
fn take_found(s: &mut InputSession, c: Vec<Candidate>, segs: Vec<String>, fuzzy: bool)
    ensures
        final(s)@ == (Session {
            candidates: candidate::cands(c@),
            best_segmentation: text::texts(segs@),
            has_dict_match: c@.len() > 0,
            last_lookup_pinyin: old(s)@.buffer,
            fuzzy_activated: fuzzy,
            ..old(s)@
        }),
{
    s.fuzzy_activated = fuzzy;
    s.has_dict_match = c.len() > 0;
    s.candidates = c;
    s.best_segmentation = segs;
    let b = s.buffer.clone();
    s.last_lookup_pinyin = b;
}

/// Whether some candidate shows a text.
fn any_shows(v: &Vec<Candidate>, t: &str) -> (r: bool)
    ensures
        r == shows(candidate::cands(v@), t@),
{
    let ghost s = candidate::cands(v@);
    let mut i: usize = 0;
    while i < v.len()
        invariant
            i <= v.len(),
            s == candidate::cands(v@),
            forall|j: int| 0 <= j < i ==> (#[trigger] s[j]).text != t@,
        decreases v.len() - i,
    {
        proof {
            assert(s[i as int] == v@[i as int]@);
        }
        if same_text(v[i].text.as_str(), t) {
            return true;
        }
        i = i + 1;
    }
    false
}

/// Adds the candidates whose text is not shown yet.
fn merge(a: Vec<Candidate>, b: &Vec<Candidate>) -> (r: Vec<Candidate>)
    ensures
        candidate::cands(r@) == merged(
            candidate::cands(a@),
            candidate::cands(b@),
            b@.len() as int,
        ),
{
    let mut out = a;
    let ghost s = candidate::cands(a@);
    let ghost t = candidate::cands(b@);
    let mut i: usize = 0;
    while i < b.len()
        invariant
            i <= b.len(),
            t == candidate::cands(b@),
            candidate::cands(out@) == merged(s, t, i as int),
        decreases b.len() - i,
    {
        let ghost was = candidate::cands(out@);
        proof {
            assert(t[i as int] == b@[i as int]@);
        }
        if !any_shows(&out, b[i].text.as_str()) {
            let c = b[i].clone();
            out.push(c);
            proof {
                assert(candidate::cands(out@) =~= was.push(c@));
            }
        }
        i = i + 1;
    }
    out
}

/// Takes the letters for syllables and an auxiliary code, where they can be.
fn find_smartly(ctx: &mut EngineContext, limit: usize)
    ensures
        final(ctx)@ == smartly_found(old(ctx)@, limit as int),
{
    proof {
        reveal(smartly_found);
    }
    if !ctx.config.master_config.get().options.enable_smart_aux || ctx.session.filter_mode
        != FilterMode::Off {
        return ;
    }
    let cut = detect_smart_aux(
        ctx.session.buffer.as_str(),
        &ctx.syllables,
        ctx.config.master_config.get().options.smart_aux_mode,
    );
    if let Some((base, aux)) = cut {
        let (c, _segs) = search(
            ctx,
            base.as_str(),
            limit,
            FilterMode::Global,
            aux.as_str(),
            ctx.session.fuzzy_activated,
        );
        if c.len() > 0 {
            let all = merge(c, &ctx.session.candidates);
            take_merged(&mut ctx.session, all);
        }
    }
}

/// Takes merged candidates.
fn take_merged(s: &mut InputSession, c: Vec<Candidate>)
    ensures
        final(s)@ == (Session {
            candidates: candidate::cands(c@),
            has_dict_match: true,
            ..old(s)@
        }),
{
    s.candidates = c;
    s.has_dict_match = true;
}

/// The candidate that shows the letters themselves.
pub(crate) fn show_raw(letters: &str, source: &str, weight: i64, level: u8) -> (r: Candidate)
    ensures
        r@ == raw(letters@, source@, weight, level),
{
    let r = Candidate {
        text: letters.to_owned(),
        simplified: letters.to_owned(),
        traditional: letters.to_owned(),
        hint: String::new(),
        english_aux: String::new(),
        stroke_aux: String::new(),
        source: source.to_owned(),
        weight,
        match_level: level,
        flags: 0,
    };
    proof {
        assert(r@ =~= raw(letters@, source@, weight, level));
    }
    r
}

/// Takes the letters themselves where there is no candidate, and notes what is being composed.
pub(crate) fn settle(s: &mut InputSession, fallback: Candidate)
    ensures
        final(s)@ == (Session {
            candidates: if old(s)@.candidates.len() == 0 {
                seq![fallback@]
            } else {
                old(s)@.candidates
            },
            ..old(s)@
        }).state_updated(),
{
    if s.candidates.len() == 0 {
        let mut v: Vec<Candidate> = Vec::new();
        v.push(fallback);
        proof {
            assert(candidate::cands(v@) =~= seq![fallback@]);
        }
        s.candidates = v;
    }
    s.update_state();
}

/// Finishes a lookup.
fn finish(ctx: &mut EngineContext, fallback: Candidate, now: u64) -> (r: Option<Action>)
    ensures
        (final(ctx)@, action::opt_act(r)) == finished(old(ctx)@, fallback@, now),
{
    proof {
        reveal(finished);
    }
    if ctx.session.candidates.len() == 1 && ctx.session.filter_mode == FilterMode::Global {
        let word = ctx.session.candidates[0].text.clone();
        let a = commit_candidate(ctx, word.as_str(), 0, now);
        return Some(a);
    }
    settle(&mut ctx.session, fallback);
    Compositor::check_auto_commit(ctx, now)
}

/// Takes the candidates of the page that fit the auxiliary code.
fn narrow(s: &mut InputSession, config: &ConfigManager)
    ensures
        final(s)@ == (Session {
            candidates: old(s)@.page_snapshot.filter(
                engine::fitting(old(s)@.aux_filter, config@.config.input.english_aux_mode),
            ),
            ..old(s)@
        }),
{
    let all = candidate::copy_all(&s.page_snapshot);
    let fits = keep_fitting(
        all,
        s.aux_filter.as_str(),
        config.master_config.get().input.english_aux_mode,
    );
    s.candidates = fits;
}

/// Holds the auxiliary code against the candidates of the page.
fn filter_page(ctx: &mut EngineContext, now: u64) -> (r: Option<Action>)
    ensures
        (final(ctx)@, action::opt_act(r)) == page_filtered(old(ctx)@, now),
{
    proof {
        reveal(page_filtered);
    }
    narrow(&mut ctx.session, &ctx.config);
    if ctx.session.candidates.len() == 1 {
        let word = ctx.session.candidates[0].text.clone();
        let a = commit_candidate(ctx, word.as_str(), 0, now);
        return Some(a);
    }
    ctx.session.update_state();
    None
}

/// Looks up what was typed.
pub fn lookup(ctx: &mut EngineContext, now: u64) -> (r: Option<Action>)
    ensures
        (final(ctx)@, action::opt_act(r)) == looked_up(old(ctx)@, now),
{
    proof {
        reveal(looked_up);
    }
    if is_blank(ctx.session.buffer.as_str()) {
        ctx.reset();
        return None;
    }
    if ctx.session.filter_mode == FilterMode::Page && ctx.session.page_snapshot.len() > 0 {
        return filter_page(ctx, now);
    }
    let fallback = show_raw(ctx.session.buffer.as_str(), "Raw", 0, 0);
    find(ctx, MAX_LOOKUP_LIMIT);
    find_smartly(ctx, MAX_LOOKUP_LIMIT);
    finish(ctx, fallback, now)
}

/// Looks up what was typed, without regard to an auxiliary code that is not marked.
pub fn plain_lookup(ctx: &mut EngineContext, now: u64) -> (r: Option<Action>)
    ensures
        (final(ctx)@, action::opt_act(r)) == plainly_looked_up(old(ctx)@, now),
{
    proof {
        reveal(plainly_looked_up);
    }
    if is_blank(ctx.session.buffer.as_str()) {
        ctx.reset();
        return None;
    }
    if ctx.session.filter_mode == FilterMode::Page && ctx.session.page_snapshot.len() > 0 {
        return filter_page(ctx, now);
    }
    let fallback = show_raw(ctx.session.buffer.as_str(), "Syllable", 1000, 3);
    find(ctx, MAX_LOOKUP_LIMIT);
    finish(ctx, fallback, now)
}

/// Shows the traditional form or not as the session has it.
fn take_form(config: &mut ConfigManager, state: &SessionState)
    ensures
        final(config)@ == (Store {
            config: config::in_form(old(config)@.config, state@.traditional_enabled),
            ..old(config)@
        }),
{
    config.master_config.set_traditional(state.traditional_enabled);
}

/// Takes what was found with fuzzy sounds, if anything.
fn take_fuzzy(s: &mut InputSession, c: Vec<Candidate>, segs: Vec<String>)
    ensures
        final(s)@ == (if c@.len() > 0 {
            Session {
                candidates: candidate::cands(c@),
                best_segmentation: text::texts(segs@),
                has_dict_match: true,
                fuzzy_activated: true,
                ..old(s)@
            }
        } else {
            Session { fuzzy_activated: true, ..old(s)@ }
        }),
{
    s.fuzzy_activated = true;
    if c.len() > 0 {
        s.candidates = c;
        s.best_segmentation = segs;
        s.has_dict_match = true;
    }
}

/// Searches for what was typed with fuzzy sounds too, where nothing was found without them.
fn find_fuzzily(ctx: &mut EngineContext, limit: usize)
    ensures
        final(ctx)@ == fuzzily(old(ctx)@, limit as int),
{
    proof {
        reveal(fuzzily);
    }
    if ctx.session.has_dict_match || ctx.session.fuzzy_activated {
        return ;
    }
    let (c, segs) = search(
        ctx,
        ctx.session.buffer.as_str(),
        limit,
        ctx.session.filter_mode,
        ctx.session.aux_filter.as_str(),
        true,
    );
    take_fuzzy(&mut ctx.session, c, segs);
}

/// Keeps the candidates that fit an auxiliary code for all of them.
fn filter_globally(s: &mut InputSession, config: &ConfigManager)
    ensures
        forall|w: World|
            w.session == old(s)@ && w.store == config@ ==> #[trigger] globally_filtered(w) == (World {
                session: final(s)@,
                ..w
            }),
{
    if s.filter_mode == FilterMode::Global && !is_blank(s.aux_filter.as_str()) {
        let all = candidate::copy_all(&s.candidates);
        let fits = keep_fitting(
            all,
            s.aux_filter.as_str(),
            config.master_config.get().input.english_aux_mode,
        );
        s.has_dict_match = fits.len() > 0;
        s.candidates = fits;
    }
}

/// Looks up what was typed, for at most so many candidates.
pub fn lookup_with_limit(ctx: &mut EngineContext, limit: usize, now: u64) -> (r: Option<Action>)
    ensures
        (final(ctx)@, action::opt_act(r)) == limitedly_looked_up(old(ctx)@, limit as int, now),
{
    proof {
        reveal(limitedly_looked_up);
    }
    if is_blank(ctx.session.buffer.as_str()) {
        ctx.reset();
        return None;
    }
    if ctx.session.filter_mode == FilterMode::Page && ctx.session.page_snapshot.len() > 0 {
        return filter_page(ctx, now);
    }
    let fallback = show_raw(ctx.session.buffer.as_str(), "Raw", 0, 0);
    take_form(&mut ctx.config, &ctx.session_state);
    find(ctx, limit);
    find_fuzzily(ctx, limit);
    filter_globally(&mut ctx.session, &ctx.config);
    find_smartly(ctx, limit);
    finish(ctx, fallback, now)
}

} // verus!
