//! What is shown while letters are typed, and what is put out at once.

use vstd::prelude::*;
use crate::action;
use crate::action::{Act, Action, FilterMode, ImeState};
use crate::candidate::Cand;
use crate::commands;
use crate::commands::commit_candidate;
use crate::config::PhantomType;
use crate::context::{EngineContext, World};
use crate::session::{is_blank, Session};
use crate::strmap;
use crate::text;
use crate::text::{char_in, chars_of, same_text, string_of, to_capital, to_small};
use crate::trie;

verus! {

/// What is shown while letters are typed.
pub struct Compositor;

/// The characters of the first `n` syllables.
pub open spec fn chars_in(segs: Seq<Seq<char>>, n: int) -> int
    decreases n,
{
    if n <= 0 {
        0
    } else {
        chars_in(segs, n - 1) + segs[n - 1].len()
    }
}

/// The characters from one place to another, as far as there are any.
pub open spec fn stretch(b: Seq<char>, i: int, j: int) -> Seq<char> {
    b.subrange(trie::least(i, b.len() as int), trie::least(j, b.len() as int))
}

/// The letters cut like the first `n` syllables, with blanks between.
pub open spec fn parted(b: Seq<char>, segs: Seq<Seq<char>>, n: int) -> Seq<char>
    decreases n,
{
    if n <= 0 {
        Seq::empty()
    } else {
        let before = parted(b, segs, n - 1);
        let start = chars_in(segs, n - 1);
        (if n > 1 {
            before.push(' ')
        } else {
            before
        }) + stretch(b, start, start + segs[n - 1].len())
    }
}

/// The letters cut like syllables; what is left of them follows without a blank.
pub open spec fn cut_up(b: Seq<char>, segs: Seq<Seq<char>>) -> Seq<char> {
    let n = segs.len() as int;
    parted(b, segs, n) + stretch(b, chars_in(segs, n), b.len() as int)
}

/// An auxiliary code as it is shown: the first character in capitals, the others small.
pub open spec fn code_shown(s: Seq<char>) -> Seq<char>
    decreases s.len(),
{
    if s.len() == 0 {
        Seq::empty()
    } else if s.len() == 1 {
        text::capital(s[0])
    } else {
        code_shown(s.drop_last()) + text::small(s.last())
    }
}

/// What is shown of what is being typed.
pub open spec fn preedit(w: World) -> Seq<char> {
    if w.session.buffer.len() == 0 || !w.state.chinese_enabled {
        Seq::empty()
    } else {
        let letters = if w.state.strokes() || w.session.best_segmentation.len() == 0 {
            w.session.buffer
        } else {
            cut_up(w.session.buffer, w.session.best_segmentation)
        };
        let hint = if w.session.nav_mode {
            " [H:左 J:下 K:上 L:右]"@
        } else {
            Seq::empty()
        };
        letters + hint + code_shown(w.session.aux_filter)
    }
}

/// What was typed as it is shown: strokes typed as digits by their encoding, where there is one.
pub open spec fn typed_shown(w: World) -> Seq<char> {
    match strmap::lookup(w.codes, w.session.buffer) {
        Some(t) => if w.state.strokes() && has_digit(w.session.buffer) && t.len() > 0 {
            t
        } else {
            w.session.buffer
        },
        None => w.session.buffer,
    }
}

/// Whether a text has a digit.
pub open spec fn has_digit(s: Seq<char>) -> bool {
    exists|i: int| 0 <= i < s.len() && '0' <= #[trigger] s[i] <= '9'
}

/// What is to be shown in the application.
pub open spec fn phantom_target(w: World) -> Seq<char> {
    let s = w.session;
    let kind = w.store.phantom();
    if s.state == ImeState::Idle || kind == PhantomType::Off {
        Seq::empty()
    } else if s.switch_mode {
        "[方案切换]"@
    } else if kind == PhantomType::Pinyin {
        typed_shown(w)
    } else if s.preview_selected_candidate && s.candidates.len() > 0 {
        s.candidates[trie::least(s.selected, s.candidates.len() - 1)].text
    } else if s.joined_sentence.len() > 0 {
        s.joined_sentence
    } else if s.candidates.len() > 0 {
        s.candidates[0].text
    } else {
        s.buffer
    }
}

/// How many characters two texts have in common at the beginning, from a place on.
pub open spec fn common_from(a: Seq<char>, b: Seq<char>, i: int) -> int
    decreases a.len() - i,
{
    if i < 0 || i >= a.len() || i >= b.len() || a[i] != b[i] {
        i
    } else {
        common_from(a, b, i + 1)
    }
}

/// What turns a text in the application into another: the end that differs is deleted, and
/// the other end put out.
pub open spec fn rewriting(a: Seq<char>, b: Seq<char>) -> Act {
    let n = common_from(a, b, 0);
    if a == b {
        Act::Consume
    } else if n == a.len() {
        Act::Emit(b.skip(n))
    } else {
        Act::DeleteAndEmit(a.len() - n, b.skip(n))
    }
}

/// Everything once what is shown in the application is up to date, and what is done.
#[verifier::opaque]
pub open spec fn phantom_updated(w: World) -> (World, Act) {
    if w.store.phantom() == PhantomType::Off {
        (w, Act::Consume)
    } else {
        (
            World { session: Session { phantom_text: phantom_target(w), ..w.session }, ..w },
            rewriting(w.session.phantom_text, phantom_target(w)),
        )
    }
}

/// Whether the first candidate, and no second one, matches exactly.
pub open spec fn only_exact(s: Seq<Cand>) -> bool {
    s.len() > 0 && s[0].match_level == 3 && (s.len() == 1 || s[1].match_level != 3)
}

/// Whether some profile has a key that goes on behind the letters.
pub open spec fn goes_on(w: World) -> bool {
    exists|i: int|
        0 <= i < w.state.profiles.len() && w.engine.has_longer(
            #[trigger] w.state.profiles[i],
            w.session.buffer,
        )
}

/// Whether the first candidate is put out at once: by strokes or with a semicolon where it
/// alone matches exactly, else where it is alone and nothing goes on behind the letters.
pub open spec fn at_once(w: World) -> bool {
    let s = w.session;
    let input = w.store.config.input;
    &&& s.candidates.len() > 0
    &&& s.has_dict_match
    &&& {
        ||| input.auto_commit_stroke && w.state.strokes() && only_exact(s.candidates)
        ||| s.buffer.contains(';') && only_exact(s.candidates)
        ||| input.auto_commit_unique_full_match && s.candidates.len() == 1 && !goes_on(w)
    }
}

/// Everything once the first candidate has been put out where it is put out at once, and what
/// is done.
#[verifier::opaque]
pub open spec fn auto_committed(w: World, now: u64) -> (World, Option<Act>) {
    if at_once(w) {
        let (w1, a) = commands::committed(w, w.session.candidates[0].text, 0, now);
        (w1, Some(a))
    } else {
        (w, None)
    }
}

/// Everything once an auxiliary code for all candidates has been begun.
pub open spec fn filter_begun(s: Session) -> Session {
    if s.state == ImeState::Idle || s.filter_mode == FilterMode::Global {
        s
    } else {
        Session { filter_mode: FilterMode::Global, aux_filter: Seq::empty(), ..s }
    }
}

proof fn lemma_common(a: Seq<char>, b: Seq<char>, i: int)
    requires
        0 <= i <= a.len(),
        i <= b.len(),
    ensures
        i <= common_from(a, b, i) <= a.len(),
        common_from(a, b, i) <= b.len(),
        forall|k: int| i <= k < common_from(a, b, i) ==> a[k] == b[k],
    decreases a.len() - i,
{
    if i < a.len() && i < b.len() && a[i] == b[i] {
        lemma_common(a, b, i + 1);
    }
}

/// What is done to a text by deleting at its end and putting out.
pub open spec fn done_to(a: Seq<char>, act: Act) -> Seq<char> {
    match act {
        Act::Emit(s) => a + s,
        Act::DeleteAndEmit(n, s) => a.take(a.len() - n) + s,
        _ => a,
    }
}

/// What turns one text into another does so.
pub proof fn law_rewriting_gives_the_target(a: Seq<char>, b: Seq<char>)
    ensures
        done_to(a, rewriting(a, b)) == b,
{
    lemma_common(a, b, 0);
    let n = common_from(a, b, 0);
    if a != b {
        assert(a.take(n) =~= b.take(n));
        assert(b.take(n) + b.skip(n) =~= b);
        if n == a.len() {
            assert(a.take(n) =~= a);
        }
    }
}

/// Whether a text has a digit.
fn finds_digit(s: &str) -> (r: bool)
    ensures
        r == has_digit(s@),
{
    let c = chars_of(s);
    let mut i: usize = 0;
    while i < c.len()
        invariant
            i <= c.len(),
            c@ == s@,
            forall|j: int| 0 <= j < i ==> !('0' <= #[trigger] s@[j] <= '9'),
        decreases c.len() - i,
    {
        if '0' <= c[i] && c[i] <= '9' {
            proof {
                assert('0' <= s@[i as int] <= '9');
            }
            return true;
        }
        i = i + 1;
    }
    false
}

/// What was typed as it is shown.
fn show_typed(ctx: &EngineContext) -> (r: String)
    ensures
        r@ == typed_shown(ctx@),
{
    if ctx.session_state.is_stroke_mode() && finds_digit(ctx.session.buffer.as_str()) {
        if let Some(t) = ctx.stroke_codes.get(ctx.session.buffer.as_str()) {
            if !is_blank(t.as_str()) {
                return t.clone();
            }
        }
    }
    ctx.session.buffer.clone()
}

/// The cut-up letters.
fn cut_letters(buffer: &str, segs: &Vec<String>) -> (r: String)
    ensures
        r@ == cut_up(buffer@, text::texts(segs@)),
{
    let b = chars_of(buffer);
    let ghost s = text::texts(segs@);
    let n = b.len();
    let mut out = String::new();
    let mut pos: usize = 0;
    let mut i: usize = 0;
    while i < segs.len()
        invariant
            i <= segs.len(),
            s == text::texts(segs@),
            b@ == buffer@,
            n == b@.len(),
            pos == trie::least(chars_in(s, i as int), n as int),
            chars_in(s, i as int) >= 0,
            out@ == parted(buffer@, s, i as int),
        decreases segs.len() - i,
    {
        if i > 0 {
            out.push(' ');
        }
        let len = chars_of(segs[i].as_str()).len();
        proof {
            assert(s[i as int] == segs@[i as int]@);
        }
        let end = if len < n - pos {
            pos + len
        } else {
            n
        };
        let part = string_of(vstd::slice::slice_subrange(b.as_slice(), pos, end));
        out.append(part.as_str());
        pos = end;
        i = i + 1;
    }
    let rest = string_of(vstd::slice::slice_subrange(b.as_slice(), pos, n));
    out.append(rest.as_str());
    out
}

/// An auxiliary code as it is shown.
fn show_code(s: &str) -> (r: String)
    ensures
        r@ == code_shown(s@),
{
    let c = chars_of(s);
    let mut out = String::new();
    let mut i: usize = 0;
    proof {
        assert(s@.take(0) =~= Seq::<char>::empty());
    }
    while i < c.len()
        invariant
            i <= c.len(),
            c@ == s@,
            out@ == code_shown(s@.take(i as int)),
        decreases c.len() - i,
    {
        proof {
            assert(s@.take(i + 1).drop_last() =~= s@.take(i as int));
            assert(s@.take(i + 1).last() == s@[i as int]);
        }
        if i == 0 {
            let u = to_capital(c[i]);
            out.append(u.as_str());
            proof {
                assert(out@ =~= text::capital(s@[0]));
            }
        } else {
            let l = to_small(c[i]);
            out.append(l.as_str());
        }
        i = i + 1;
    }
    proof {
        assert(s@.take(s@.len() as int) =~= s@);
    }
    out
}

impl Compositor {
    /// What is shown of what is being typed.
    pub fn get_preedit(ctx: &EngineContext) -> (r: String)
        ensures
            r@ == preedit(ctx@),
    {
        if is_blank(ctx.session.buffer.as_str()) || !ctx.session_state.chinese_enabled {
            return String::new();
        }
        let mut out = if ctx.session_state.is_stroke_mode() || ctx.session.best_segmentation.len()
            == 0 {
            ctx.session.buffer.clone()
        } else {
            cut_letters(ctx.session.buffer.as_str(), &ctx.session.best_segmentation)
        };
        let ghost letters = out@;
        if ctx.session.nav_mode {
            out.append(" [H:左 J:下 K:上 L:右]");
        } else {
            proof {
                assert(letters + Seq::<char>::empty() =~= letters);
            }
        }
        let code = show_code(ctx.session.aux_filter.as_str());
        out.append(code.as_str());
        out
    }

    /// What is to be shown in the application.
    pub fn get_phantom_text(ctx: &EngineContext) -> (r: String)
        ensures
            r@ == phantom_target(ctx@),
    {
        let s = &ctx.session;
        let kind = ctx.config.phantom_type();
        if s.state == ImeState::Idle || kind == PhantomType::Off {
            return String::new();
        }
        if s.switch_mode {
            return "[方案切换]".to_owned();
        }
        if kind == PhantomType::Pinyin {
            return show_typed(ctx);
        }
        let n = s.candidates.len();
        if s.preview_selected_candidate && n > 0 {
            let i = if s.selected < n - 1 {
                s.selected
            } else {
                n - 1
            };
            s.candidates[i].text.clone()
        } else if !is_blank(s.joined_sentence.as_str()) {
            s.joined_sentence.clone()
        } else if n > 0 {
            s.candidates[0].text.clone()
        } else {
            s.buffer.clone()
        }
    }

    /// Brings what is shown in the application up to date.
    pub fn update_phantom_action(ctx: &mut EngineContext) -> (r: Action)
        ensures
            (final(ctx)@, r@) == phantom_updated(old(ctx)@),
    {
        proof {
            reveal(phantom_updated);
        }
        if ctx.config.phantom_type() == PhantomType::Off {
            return Action::Consume;
        }
        let target = Self::get_phantom_text(ctx);
        let r = rewrite(ctx.session.phantom_text.as_str(), target.as_str());
        ctx.session.phantom_text = target;
        r
    }

    /// Puts out the first candidate where it is put out at once.
    pub fn check_auto_commit(ctx: &mut EngineContext, now: u64) -> (r: Option<Action>)
        ensures
            (final(ctx)@, action::opt_act(r)) == auto_committed(old(ctx)@, now),
    {
        proof {
            reveal(auto_committed);
        }
        if Self::commits_at_once(ctx) {
            let word = ctx.session.candidates[0].text.clone();
            let a = commit_candidate(ctx, word.as_str(), 0, now);
            Some(a)
        } else {
            None
        }
    }

    /// Whether the first candidate is put out at once.
    fn commits_at_once(ctx: &EngineContext) -> (r: bool)
        ensures
            r == at_once(ctx@),
    {
        let s = &ctx.session;
        let n = s.candidates.len();
        if n == 0 || !s.has_dict_match {
            return false;
        }
        proof {
            assert(ctx@.session.candidates[0] == s.candidates@[0]@);
            if n > 1 {
                assert(ctx@.session.candidates[1] == s.candidates@[1]@);
            }
        }
        let only = s.candidates[0].match_level == 3 && (n == 1 || s.candidates[1].match_level != 3);
        if ctx.config.auto_commit_stroke() && ctx.session_state.is_stroke_mode() && only {
            return true;
        }
        let b = chars_of(s.buffer.as_str());
        if char_in(';', b.as_slice()) && only {
            return true;
        }
        if !ctx.config.auto_commit_unique_full_match() || n != 1 {
            return false;
        }
        let v = &ctx.session_state.active_profiles;
        let ghost w = ctx@;
        let mut i: usize = 0;
        while i < v.len()
            invariant
                i <= v.len(),
                w == ctx@,
                w.state.profiles == text::texts(v@),
                forall|j: int|
                    0 <= j < i ==> !w.engine.has_longer(
                        #[trigger] w.state.profiles[j],
                        w.session.buffer,
                    ),
                !(w.session.buffer.contains(';') && only_exact(w.session.candidates)),
                !(w.store.config.input.auto_commit_stroke && w.state.strokes() && only_exact(
                    w.session.candidates,
                )),
            decreases v.len() - i,
        {
            proof {
                assert(w.state.profiles[i as int] == v@[i as int]@);
            }
            if ctx.engine.has_longer_match(v[i].as_str(), ctx.session.buffer.as_str()) {
                proof {
                    assert(goes_on(w));
                }
                return false;
            }
            i = i + 1;
        }
        true
    }
}

/// What turns a text in the application into another.
fn rewrite(a: &str, b: &str) -> (r: Action)
    ensures
        r@ == rewriting(a@, b@),
{
    if same_text(a, b) {
        return Action::Consume;
    }
    let x = chars_of(a);
    let y = chars_of(b);
    let mut n: usize = 0;
    while n < x.len() && n < y.len() && x[n] == y[n]
        invariant
            n <= x.len(),
            n <= y.len(),
            x@ == a@,
            y@ == b@,
            common_from(a@, b@, 0) == common_from(a@, b@, n as int),
        decreases x.len() - n,
    {
        n = n + 1;
    }
    let insert = string_of(vstd::slice::slice_subrange(y.as_slice(), n, y.len()));
    proof {
        assert(y@.subrange(n as int, y@.len() as int) =~= b@.skip(n as int));
    }
    if n == x.len() {
        Action::Emit(insert)
    } else {
        Action::DeleteAndEmit { delete: x.len() - n, insert }
    }
}

/// Begins an auxiliary code for all candidates.
pub fn start_global_filter(ctx: &mut EngineContext)
    ensures
        final(ctx)@ == (World { session: filter_begun(old(ctx)@.session), ..old(ctx)@ }),
{
    if ctx.session.state == ImeState::Idle {
        return ;
    }
    if ctx.session.filter_mode != FilterMode::Global {
        ctx.session.filter_mode = FilterMode::Global;
        ctx.session.aux_filter = String::new();
    }
}

} // verus!
