//! What is promised of spellings: mappings of one's own, exchanged letters, basic syllables and
//! completions; and of what a scheme looks at.

use vstd::prelude::*;
use vstd::utf8::{decode_utf8, encode_utf8, encode_utf8_valid_utf8, is_ascii_chars, is_ascii_chars_encode_utf8, is_char_boundary_iff_not_is_continuation_byte, is_char_boundary_start_end_of_seq, valid_utf8};
use crate::action::Act;
use crate::actor;
use crate::bihua;
use crate::building;
use crate::chinese;
use crate::config::{Config, FuzzyPinyinConfig};
use crate::context::World;
use crate::engine;
use crate::engine::{EngineView, Query, Scheme};
use crate::fuzzy;
use crate::hotkeys;
use crate::keys;
use crate::keys::VirtualKey;
use crate::learning;
use crate::learning::Use;
use crate::order;
use crate::pipeline::Translation;
use crate::pipelines;
use crate::scheme::{Found, Surroundings};
use crate::segmentation;
use crate::segmentation::Syllables;
use crate::session;
use crate::session_state::Lasting;
use crate::strmap;
use crate::text;
use crate::translators::Table;
use crate::trie;
use crate::trie::TrieView;
use crate::userdict;

verus! {

/// Whether a part occurs in a text at a place.
pub open spec fn occurs_at(s: Seq<char>, part: Seq<char>, i: int) -> bool {
    0 <= i && i + part.len() <= s.len() && s.subrange(i, i + part.len()) == part
}

/// A part is replaced where it occurs first, and what is behind it is gone on with; what stands before
/// it stays. A text in which the part does not occur stays as it is.
pub proof fn law_parts_are_replaced(s: Seq<char>, from: Seq<char>, to: Seq<char>, k: int)
    requires
        from.len() > 0,
    ensures
        occurs_at(s, from, k) && (forall|i: int| 0 <= i < k ==> !#[trigger] occurs_at(s, from, i))
            ==> fuzzy::replaced(s, from, to) == s.take(k) + to + fuzzy::replaced(
            s.skip(k + from.len()),
            from,
            to,
        ),
        (forall|i: int| !#[trigger] occurs_at(s, from, i)) ==> fuzzy::replaced(s, from, to) == s,
    decreases s.len(),
{
    let n = from.len() as int;
    if s.len() == 0 {
    } else if text::begins(s, from) {
        assert(s.subrange(0, n) =~= s.take(n));
        assert(occurs_at(s, from, 0));
        if occurs_at(s, from, k) && (forall|i: int| 0 <= i < k ==> !#[trigger] occurs_at(s, from, i)) {
            assert(k == 0);
            assert(s.take(0) + to =~= to);
        }
    } else {
        let r = s.drop_first();
        law_parts_are_replaced(r, from, to, k - 1);
        assert forall|i: int| occurs_at(r, from, i) == (i >= 0 && occurs_at(s, from, i + 1)) by {
            if i >= 0 && i + n <= r.len() {
                assert(r.subrange(i, i + n) =~= s.subrange(i + 1, i + 1 + n));
            }
        }
        if occurs_at(s, from, k) && (forall|i: int| 0 <= i < k ==> !#[trigger] occurs_at(s, from, i)) {
            if k == 0 {
                assert(s.subrange(0, n) =~= s.take(n));
            }
            assert(occurs_at(r, from, k - 1));
            assert forall|i: int| 0 <= i < k - 1 implies !#[trigger] occurs_at(r, from, i) by {
                assert(!occurs_at(s, from, i + 1));
            }
            assert(r.skip(k - 1 + n) =~= s.skip(k + n));
            assert(seq![s[0]] + (r.take(k - 1) + to + fuzzy::replaced(s.skip(k + n), from, to))
                =~= s.take(k) + to + fuzzy::replaced(s.skip(k + n), from, to));
        }
        if forall|i: int| !#[trigger] occurs_at(s, from, i) {
            assert forall|i: int| !#[trigger] occurs_at(r, from, i) by {
                assert(!occurs_at(s, from, i + 1));
            }
            assert(seq![s[0]] + r =~= s);
        }
    }
}

proof fn lemma_ruled_keeps(l: Seq<Seq<char>>, on: bool, w: Option<Seq<char>>, x: Seq<char>)
    ensures
        l.contains(x) ==> fuzzy::ruled(l, on, w).contains(x),
        on && w == Some(x) ==> fuzzy::ruled(l, on, w).contains(x),
        l.len() <= fuzzy::ruled(l, on, w).len(),
        forall|i: int| 0 <= i < l.len() ==> #[trigger] fuzzy::ruled(l, on, w)[i] == l[i],
{
    let r = fuzzy::ruled(l, on, w);
    if l.contains(x) {
        let i = choose|i: int| 0 <= i < l.len() && l[i] == x;
        assert(r[i] == x);
    } else if on && w == Some(x) {
        assert(r[l.len() as int] == x);
    }
}

proof fn lemma_maps_added(
    f: FuzzyPinyinConfig,
    l: Seq<Seq<char>>,
    v: Seq<char>,
    m: int,
    i: int,
    x: Seq<char>,
)
    requires
        0 <= m <= f.custom_mappings@.len(),
    ensures
        l.contains(x) ==> fuzzy::maps_added(f, l, v, m).contains(x),
        0 <= i < m && fuzzy::mapped(f, v, i) == Some(x) ==> fuzzy::maps_added(f, l, v, m).contains(x),
    decreases m,
{
    if m > 0 {
        lemma_maps_added(f, l, v, m - 1, i, x);
        lemma_ruled_keeps(
            fuzzy::maps_added(f, l, v, m - 1),
            true,
            fuzzy::mapped(f, v, m - 1),
            x,
        );
    }
}

proof fn lemma_all_maps(
    f: FuzzyPinyinConfig,
    l: Seq<Seq<char>>,
    n: int,
    k: int,
    i: int,
    x: Seq<char>,
)
    requires
        0 <= n <= l.len(),
    ensures
        l.contains(x) ==> fuzzy::all_maps_added(f, l, n).contains(x),
        0 <= k < n && 0 <= i < f.custom_mappings@.len() && fuzzy::mapped(f, l[k], i) == Some(x)
            ==> fuzzy::all_maps_added(f, l, n).contains(x),
    decreases n,
{
    if n > 0 {
        lemma_all_maps(f, l, n - 1, k, i, x);
        lemma_maps_added(
            f,
            fuzzy::all_maps_added(f, l, n - 1),
            l[n - 1],
            f.custom_mappings@.len() as int,
            i,
            x,
        );
    }
}

proof fn lemma_first_variant(f: FuzzyPinyinConfig, v: Seq<char>)
    ensures
        ({
            let heads = fuzzy::heads_added(f, seq![v], v);
            let tails = fuzzy::all_tails_added(f, heads, heads.len() as int);
            tails.len() > 0 && tails[0] == v
        }),
{
    let l1 = fuzzy::ruled(seq![v], f.z_zh, fuzzy::swap_head(v, "zh"@, "z"@));
    let l2 = fuzzy::ruled(l1, f.c_ch, fuzzy::swap_head(v, "ch"@, "c"@));
    let l3 = fuzzy::ruled(l2, f.s_sh, fuzzy::swap_head(v, "sh"@, "s"@));
    let l4 = fuzzy::ruled(l3, f.n_l, fuzzy::swap_head(v, "n"@, "l"@));
    let l5 = fuzzy::ruled(l4, f.r_l, fuzzy::swap_head(v, "r"@, "l"@));
    lemma_ruled_keeps(seq![v], f.z_zh, fuzzy::swap_head(v, "zh"@, "z"@), v);
    lemma_ruled_keeps(l1, f.c_ch, fuzzy::swap_head(v, "ch"@, "c"@), v);
    lemma_ruled_keeps(l2, f.s_sh, fuzzy::swap_head(v, "sh"@, "s"@), v);
    lemma_ruled_keeps(l3, f.n_l, fuzzy::swap_head(v, "n"@, "l"@), v);
    lemma_ruled_keeps(l4, f.r_l, fuzzy::swap_head(v, "r"@, "l"@), v);
    lemma_ruled_keeps(l5, f.f_h, fuzzy::swap_head(v, "f"@, "h"@), v);
    let heads = fuzzy::heads_added(f, seq![v], v);
    assert(seq![v][0] == v);
    assert(l1[0] == v && l2[0] == v && l3[0] == v && l4[0] == v && l5[0] == v);
    assert(heads.len() > 0 && heads[0] == v);
    lemma_tails_first(f, heads, heads.len() as int);
}

proof fn lemma_tails_first(f: FuzzyPinyinConfig, l: Seq<Seq<char>>, n: int)
    requires
        l.len() > 0,
        0 <= n <= l.len(),
    ensures
        fuzzy::all_tails_added(f, l, n).len() > 0,
        fuzzy::all_tails_added(f, l, n)[0] == l[0],
    decreases n,
{
    if n > 0 {
        lemma_tails_first(f, l, n - 1);
        let b = fuzzy::all_tails_added(f, l, n - 1);
        let v = l[n - 1];
        let l1 = fuzzy::ruled(b, f.an_ang, fuzzy::swap_tail(v, "ang"@, "an"@));
        let l2 = fuzzy::ruled(l1, f.en_eng, fuzzy::swap_tail(v, "eng"@, "en"@));
        let l3 = fuzzy::ruled(l2, f.in_ing, fuzzy::swap_tail(v, "ing"@, "in"@));
        let l4 = fuzzy::ruled(l3, f.ian_iang, fuzzy::swap_tail(v, "iang"@, "ian"@));
        let l5 = fuzzy::ruled(l4, f.uan_uang, fuzzy::swap_tail(v, "uang"@, "uan"@));
        lemma_ruled_keeps(b, f.an_ang, fuzzy::swap_tail(v, "ang"@, "an"@), v);
        lemma_ruled_keeps(l1, f.en_eng, fuzzy::swap_tail(v, "eng"@, "en"@), v);
        lemma_ruled_keeps(l2, f.in_ing, fuzzy::swap_tail(v, "ing"@, "in"@), v);
        lemma_ruled_keeps(l3, f.ian_iang, fuzzy::swap_tail(v, "iang"@, "ian"@), v);
        lemma_ruled_keeps(l4, f.uan_uang, fuzzy::swap_tail(v, "uang"@, "uan"@), v);
        lemma_ruled_keeps(l5, f.u_v, fuzzy::swap_u_v(v), v);
        assert(l1[0] == b[0] && l2[0] == b[0] && l3[0] == b[0] && l4[0] == b[0] && l5[0] == b[0]);
    }
}

/// What a mapping of one's own makes of a syllable is one of its variants.
pub proof fn law_own_mappings_give_variants(f: FuzzyPinyinConfig, seg: Seq<char>, i: int)
    requires
        0 <= i < f.custom_mappings@.len(),
    ensures
        fuzzy::variants(f, seg).contains(
            fuzzy::replaced(
                text::lowercase(seg),
                f.custom_mappings@[i].0@,
                f.custom_mappings@[i].1@,
            ),
        ),
{
    let v = text::lowercase(seg);
    let x = fuzzy::replaced(v, f.custom_mappings@[i].0@, f.custom_mappings@[i].1@);
    let heads = fuzzy::heads_added(f, seq![v], v);
    let tails = fuzzy::all_tails_added(f, heads, heads.len() as int);
    lemma_first_variant(f, v);
    assert(tails.contains(tails[0]));
    lemma_all_maps(f, tails, tails.len() as int, 0, i, x);
    order::lemma_arranged_contains(fuzzy::variants_found(f, seg), fuzzy::by_text(), x);
}

/// Whether a syllable is known.
pub open spec fn is_known(t: Syllables, x: Seq<char>) -> bool {
    t.freq.contains_key(x) || t.base.contains(x)
}

/// Whether a text is another with two neighbouring bytes exchanged at a place.
pub open spec fn is_exchange(part: Seq<char>, x: Seq<char>, j: int) -> bool {
    let b = encode_utf8(part);
    &&& 0 <= j < b.len() - 1
    &&& valid_utf8(b.update(j, b[j + 1]).update(j + 1, b[j]))
    &&& x == decode_utf8(b.update(j, b[j + 1]).update(j + 1, b[j]))
}

/// Mistyped letters are corrected by exchanging two neighbouring ones to a syllable that is known, with
/// half its frequency; they are not where no exchange gives one.
pub proof fn law_exchanged_letters_are_corrected(t: Syllables, part: Seq<char>, i: int)
    requires
        0 <= i,
    ensures
        segmentation::transposed(t, part, i) matches Some((n, x)) ==> is_known(t, x) && (exists|j: int|
            #[trigger] is_exchange(part, x, j)) && (t.freq.contains_key(x) ==> n == t.freq[x] / 2)
            && (!t.freq.contains_key(x) ==> n == 0),
        segmentation::transposed(t, part, i) is None ==> forall|j: int, x: Seq<char>|
            i <= j && #[trigger] is_exchange(part, x, j) ==> !is_known(t, x),
    decreases encode_utf8(part).len() - i,
{
    let b = encode_utf8(part);
    if i + 1 < b.len() {
        let s = segmentation::swapped(b, i);
        law_exchanged_letters_are_corrected(t, part, i + 1);
        if valid_utf8(s) {
            assert(is_exchange(part, decode_utf8(s), i));
        }
        if let Some((n, x)) = segmentation::transposed(t, part, i) {
            if valid_utf8(s) && is_known(t, decode_utf8(s)) {
                assert(x == decode_utf8(s));
            } else {
                assert(segmentation::transposed(t, part, i + 1) == Some((n, x)));
            }
        }
        if segmentation::transposed(t, part, i) is None {
            assert forall|j: int, x: Seq<char>| i <= j && #[trigger] is_exchange(part, x, j) implies !is_known(
                t,
                x,
            ) by {
                if j == i {
                    assert(x == decode_utf8(s));
                }
            }
        }
    }
}

proof fn lemma_longest_base(base: Set<Seq<char>>, input: Seq<char>, pos: int, len: int)
    requires
        is_ascii_chars(input),
        0 <= pos,
        0 <= len,
        pos + len <= input.len(),
    ensures
        ({
            let k = segmentation::longest_base(base, input, pos, len);
            &&& 0 <= k <= len
            &&& k > 0 ==> base.contains(input.subrange(pos, pos + k))
            &&& forall|j: int|
                k < j <= len ==> !base.contains(#[trigger] input.subrange(pos, pos + j))
        }),
    decreases len,
{
    if len > 0 {
        session::lemma_between_letters(input, pos, pos + len);
        lemma_ascii_boundary(input, pos + len);
        lemma_longest_base(base, input, pos, len - 1);
    }
}

/// Between plain letters there is always a boundary.
pub proof fn lemma_ascii_boundary(s: Seq<char>, i: int)
    requires
        is_ascii_chars(s),
        0 <= i <= s.len(),
    ensures
        text::on_boundary(s, i),
{
    let b = encode_utf8(s);
    encode_utf8_valid_utf8(s);
    is_ascii_chars_encode_utf8(s);
    if i < b.len() {
        is_char_boundary_iff_not_is_continuation_byte(b, i);
        assert(s[i] as u8 == b[i]);
    } else {
        is_char_boundary_start_end_of_seq(b);
    }
}

/// Basic syllables are cut off plain letters from the left, the longest first: each is one, none at the
/// beginning could be longer, and together they are the beginning of the letters.
pub proof fn law_basic_syllables_are_cut_off(base: Set<Seq<char>>, input: Seq<char>, pos: int, i: int)
    requires
        is_ascii_chars(input),
        0 <= pos <= input.len(),
    ensures
        ({
            let r = segmentation::singles_from(base, input, pos, 6);
            let n = segmentation::joined(r).len() as int;
            &&& 0 <= i < r.len() ==> base.contains(r[i])
            &&& pos + n <= input.len()
            &&& segmentation::joined(r) == input.subrange(pos, pos + n)
            &&& r.len() > 0 ==> forall|j: int|
                r[0].len() < j <= 6 && pos + j <= input.len() ==> !base.contains(
                    #[trigger] input.subrange(pos, pos + j),
                )
            &&& r.len() == 0 ==> forall|j: int|
                0 < j <= 6 && pos + j <= input.len() ==> !base.contains(
                    #[trigger] input.subrange(pos, pos + j),
                )
        }),
    decreases input.len() - pos,
{
    session::lemma_between_letters(input, 0, 0);
    let n = input.len() as int;
    let r = segmentation::singles_from(base, input, pos, 6);
    if pos < n {
        let most = trie::least(6, n - pos);
        let k = segmentation::longest_base(base, input, pos, most);
        lemma_longest_base(base, input, pos, most);
        if k > 0 {
            session::lemma_between_letters(input, pos, pos + k);
            law_basic_syllables_are_cut_off(base, input, pos + k, i - 1);
            let rest = segmentation::singles_from(base, input, pos + k, 6);
            let x = input.subrange(pos, pos + k);
            assert(r == seq![x] + rest);
            segmentation::law_joining_is_in_order(seq![x], rest, x);
            let m = segmentation::joined(rest).len() as int;
            assert(x + input.subrange(pos + k, pos + k + m) =~= input.subrange(pos, pos + k + m));
        } else {
            assert(segmentation::joined(r) =~= input.subrange(pos, pos));
        }
    } else {
        assert(segmentation::joined(r) =~= input.subrange(pos, pos));
    }
}

/// Candidates show the traditional form where that is asked for and they have one, and are as they were
/// otherwise.
pub proof fn law_traditional_form_is_asked_for(c: Surroundings, s: Seq<Found>, i: int)
    requires
        0 <= i < s.len(),
    ensures
        chinese::formed(c, s).len() == s.len(),
        c.config.input.enable_traditional && s[i].traditional.len() > 0 ==> chinese::formed(c, s)[i] == (
        Found { text: s[i].traditional, ..s[i] }),
        !c.config.input.enable_traditional || s[i].traditional.len() == 0 ==> chinese::formed(c, s)[i]
            == s[i],
{
}

/// No more than ten completions are taken, the shorter ones first.
pub proof fn law_short_completions_come_first(t: TrieView, letters: Seq<char>, i: int, j: int)
    requires
        0 <= i < j < chinese::completions(t, letters).len(),
    ensures
        chinese::completions(t, letters).len() <= 10,
        text::byte_len(chinese::completions(t, letters)[i]) <= text::byte_len(
            chinese::completions(t, letters)[j],
        ),
{
    let keys = t.keys_from(letters).filter(chinese::completes(letters)).map_values(
        |k: (Seq<u8>, u64)| decode_utf8(k.0),
    );
    let some = keys.take(trie::least(30, keys.len() as int));
    let a = order::arranged(some, chinese::shorter());
    order::law_arranged_in_order(some, chinese::shorter());
    assert(!chinese::shorter()(a[j], a[i]));
}

/// Completed letters keep what was found before them in its place, and what is added stands under one
/// of the keys.
pub proof fn law_completions_go_behind(
    t: TrieView,
    hits: Seq<(trie::Entry, u8)>,
    keys: Seq<Seq<char>>,
    short: bool,
    max: int,
    n: int,
    x: int,
)
    requires
        0 <= n <= keys.len(),
        hits.len() <= max,
    ensures
        ({
            let r = chinese::completed_hits(t, hits, keys, short, max, n);
            &&& hits.len() <= r.len() <= max
            &&& 0 <= x < hits.len() ==> r[x] == hits[x]
            &&& hits.len() <= x < r.len() ==> r[x].1 == 1 && exists|j: int|
                0 <= j < n && t.exact(#[trigger] keys[j]).contains(r[x].0)
        }),
    decreases n,
{
    if n > 0 {
        law_completions_go_behind(t, hits, keys, short, max, n - 1, x);
        let before = chinese::completed_hits(t, hits, keys, short, max, n - 1);
        let r = chinese::completed_hits(t, hits, keys, short, max, n);
        let es = t.exact(keys[n - 1]);
        if r.len() > before.len() && before.len() <= x < r.len() {
            assert(r[x].0 == es[x - before.len()]);
            assert(t.exact(keys[n - 1]).contains(r[x].0));
        } else if hits.len() <= x < before.len() {
            assert(r[x] == before[x]);
            let j = choose|j: int| 0 <= j < n - 1 && t.exact(#[trigger] keys[j]).contains(before[x].0);
            assert(t.exact(keys[j]).contains(r[x].0));
        }
    }
}

/// A word that begins or ends with a stop word is not noted at all.
pub proof fn law_stop_words_are_not_noted(w: World, u: Use)
    requires
        u.word.len() > 0,
        learning::stopwords().contains(u.word[0]) || learning::stopwords().contains(u.word.last()),
    ensures
        learning::recorded(w, u) == w,
{
    reveal(learning::recorded);
}

/// Every directory has a place of its own: two directories of which none is that for strokes are
/// written to one place only where they are the same, and are read from where they are called.
pub proof fn law_directories_have_places_of_their_own(a: Seq<char>, b: Seq<char>)
    requires
        a != "stroke"@,
        b != "stroke"@,
    ensures
        building::planned(a).output == building::planned(b).output ==> a == b,
        building::planned(a).source == building::planned(b).source ==> a == b,
        text::ends(building::planned(a).output, a),
        text::ends(building::planned(a).source, a),
{
    reveal_strlit("data/");
    reveal_strlit("dicts/");
    let p = "data/"@;
    let q = "dicts/"@;
    assert((p + a).skip(p.len() as int) =~= a);
    assert((p + b).skip(p.len() as int) =~= b);
    assert((q + a).skip(q.len() as int) =~= a);
    assert((q + b).skip(q.len() as int) =~= b);
}

/// What a dictionary came up with is kept with its letters and the time, and while it is not used again
/// it is what is given.
pub proof fn law_what_was_found_is_kept(
    t: Table,
    segs: Seq<Seq<char>>,
    config: Config,
    limit: int,
    now: u64,
)
    requires
        segs.len() > 0,
        !text::begins(segmentation::joined(segs), t.last_query),
    ensures
        ({
            let (u, r) = t.translated(segs, config, limit, now);
            &&& u.cached == r
            &&& u.last_query == segmentation::joined(segs)
            &&& u.last_time == now
            &&& u.t == t.t
        }),
{
}

/// The words of the user come before the dictionary of the profile and that before sentences; only
/// Chinese is abbreviated.
pub proof fn law_translators_of_a_profile(
    t: TrieView,
    learned: userdict::UserWords,
    profile: Seq<char>,
    known: Syllables,
    now: u64,
)
    ensures
        ({
            let ts = pipelines::of_profile(t, learned, profile, known, now);
            &&& ts.len() == 3
            &&& ts[0] == Translation::User(learned, profile, Some(t))
            &&& ts[1] is Table && ts[1]->Table_0.t == t
            &&& ts[1]->Table_0.abbreviates == (profile == "chinese"@)
            &&& ts[2] == Translation::Compose(t, known)
            &&& pipelines::asked(ts, 0) == Some(t)
        }),
{
    let ts = pipelines::of_profile(t, learned, profile, known, now);
    crate::translating::law_first_dictionary_is_asked(ts, 0, 1);
}

/// Names between commas set the profiles that have a dictionary and keep everything that was learned;
/// where none has one, nothing changes.
pub proof fn law_profiles_are_set(w: World, names: Seq<char>, v: World)
    requires
        actor::profile_set(w, names, v),
    ensures
        actor::known_profiles(names, w.engine.profiles).len() > 0 ==> v.state.profiles
            == actor::known_profiles(names, w.engine.profiles) && v.state.history.len() == 0
            && v.session.buffer.len() == 0 && v.store.config.input.default_profile@ == names
            && v.store.learned == w.store.learned,
        actor::known_profiles(names, w.engine.profiles).len() == 0 ==> v == w,
{
}

/// The one profile is shown by its name; without one, and with several, that is said.
pub proof fn law_profile_is_shown(s: Lasting, p: Seq<char>)
    ensures
        s.profiles == seq![p] ==> hotkeys::profile_shown(s) == p,
        s.profiles.len() == 0 ==> hotkeys::profile_shown(s) == "None"@,
        s.profiles.len() > 1 ==> hotkeys::profile_shown(s) == "Mixed"@,
{
}

/// A scheme looks at the dictionary of its own profile, and at no other.
pub proof fn law_schemes_keep_to_their_dictionary(e: EngineView, q: Query, other: Seq<char>)
    ensures
        e.around(q).trie(q.profile) == e.trie(q.profile),
        other != q.profile ==> e.around(q).trie(other) is None,
        e.around(q).user_dict == q.learned,
        e.around(q).last_word == q.context,
        e.around(q).last_two == q.pair,
{
    if let Some(t) = e.trie(q.profile) {
        let l = seq![(q.profile, t)];
        assert(strmap::is_first(l, q.profile, 0));
        strmap::lemma_first_is_index(l, q.profile, 0);
        if other != q.profile {
            strmap::lemma_absent(l, other);
        }
    } else {
        strmap::lemma_absent::<TrieView>(Seq::empty(), q.profile);
        strmap::lemma_absent::<TrieView>(Seq::empty(), other);
    }
}

/// The scheme of strokes takes letters that are no strokes, and no other key; the Chinese one takes
/// none.
pub proof fn law_schemes_take_letters(key: VirtualKey)
    ensures
        Scheme::Chinese.takes(key) is None,
        keys::letter_key(key) && !bihua::stroke_key(key) ==> Scheme::Bihua.takes(key) == Some(
            Act::Consume,
        ),
        bihua::stroke_key(key) || !keys::letter_key(key) ==> Scheme::Bihua.takes(key) is None,
{
}

/// The pieces of letters are shown, unless every letter is a piece of its own.
pub proof fn law_pieces_are_worthwhile(segs: Seq<Seq<char>>, input: Seq<char>, i: int)
    requires
        0 <= i < segs.len(),
        text::byte_len(segs[i]) != 1,
    ensures
        engine::worthwhile(segs, input) == segs,
{
    if segs.all(engine::one_byte()) {
        assert(engine::one_byte()(segs[i]));
    }
}

/// Strokes typed with one hand or the other find the same.
pub proof fn law_both_hands_find_the_same(e: EngineView, q: Query, p: Query)
    requires
        strmap::lookup(e.schemes, q.profile) == Some(Scheme::Bihua),
        p == (Query { buffer: p.buffer, ..q }),
        q.buffer.len() == p.buffer.len(),
        forall|i: int|
            0 <= i < q.buffer.len() ==> #[trigger] p.buffer[i] == q.buffer[i] || p.buffer[i]
                == bihua::other_hand(q.buffer[i]),
    ensures
        e.searched(p) == e.searched(q),
{
    bihua::law_hands_are_equal(q.buffer, p.buffer);
    assert(e.around(p) == e.around(q));
}


/// Fuzzy sounds are looked for where the settings have them and the query asks for them.
pub proof fn law_queries_ask_for_fuzzy_sounds(e: EngineView, q: Query)
    ensures
        e.around(q).config.input.enable_fuzzy_pinyin == (q.config.input.enable_fuzzy_pinyin
            && q.fuzzy_enabled),
{
}


/// What was typed is cut at the characters that the settings have for that: the pieces are those before
/// the character and those behind it.
pub proof fn law_search_cuts_where_the_settings_say(
    e: EngineView,
    q: Query,
    a: Seq<char>,
    c: char,
    b: Seq<char>,
)
    requires
        strmap::lookup(e.schemes, q.profile) == Some(Scheme::Chinese),
        q.buffer == a + seq![c] + b,
        text::small_beyond_ascii(a),
        text::small_beyond_ascii(b),
        text::small(c) == seq![c],
        q.config.input.segmentation_delimiters@.contains(c),
    ensures
        ({
            let d = q.config.input.segmentation_delimiters@;
            let r = e.searched(q).1;
            r.len() == 0 || r == segmentation::segmented(e.syllables(), a, d) + segmentation::segmented(
                e.syllables(),
                b,
                d,
            )
        }),
{
    segmentation::law_delimiter_parts_the_pieces(
        e.syllables(),
        a,
        c,
        b,
        q.config.input.segmentation_delimiters@,
    );
}


} // verus!
