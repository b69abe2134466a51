//! The stroke scheme: one key, one stroke.
//!
//! The left hand has g, f, d, s and a for the five strokes, the right hand h, j, k, l and p;
//! z stands for any stroke. The dictionary writes the strokes as the digits 1 to 5.

use vstd::prelude::*;
use crate::action;
use crate::action::Action;
use crate::keys::{is_letter, VirtualKey};
use crate::keys;
use crate::order;
use crate::order::sort_stable;
use crate::scheme;
use crate::scheme::{Found, SchemeCandidate, SchemeContext, Surroundings};
use crate::text::{char_in, chars_of, same_text};
use crate::trie;
use crate::trie::TrieResult;

verus! {

/// The stroke scheme.
pub struct BihuaScheme;

/// Whether a key is a stroke, or stands for any.
pub open spec fn stroke_key(k: VirtualKey) -> bool {
    k is A || k is D || k is F || k is G || k is H || k is J || k is K || k is L || k is P || k is S
        || k is Z
}

/// The stroke that a letter stands for.
pub open spec fn stroke_of(c: char) -> Option<char> {
    if c == 'g' || c == 'h' {
        Some('1')
    } else if c == 'f' || c == 'j' {
        Some('2')
    } else if c == 'd' || c == 'k' {
        Some('3')
    } else if c == 's' || c == 'l' {
        Some('4')
    } else if c == 'a' || c == 'p' {
        Some('5')
    } else if c == 'z' {
        Some('z')
    } else {
        None
    }
}

/// The strokes that letters stand for; what stands for none is left out.
pub open spec fn strokes(s: Seq<char>) -> Seq<char>
    decreases s.len(),
{
    if s.len() == 0 {
        Seq::empty()
    } else {
        match stroke_of(s.last()) {
            Some(d) => strokes(s.drop_last()).push(d),
            None => strokes(s.drop_last()),
        }
    }
}

/// The candidates that entries give on a level.
pub open spec fn all_offered(s: Seq<trie::Entry>, level: u8) -> Seq<Found> {
    s.map_values(|e: trie::Entry| scheme::offered(e, e.weight, level))
}

/// The candidates for strokes: with a wildcard what fits; else what stands under the strokes,
/// and what begins with them if that is asked for or nothing stands under them.
pub open spec fn looked_up(c: Surroundings, query: Seq<char>) -> Seq<Found> {
    match c.trie("bihua"@) {
        None => Seq::empty(),
        Some(t) => if query.contains('z') {
            all_offered(t.wildcard(query, 50, None), 2)
        } else {
            let exact = all_offered(t.exact(query), 3);
            if c.config.input.enable_prefix_matching || exact.len() == 0 {
                let limit = trie::least(c.config.input.prefix_matching_limit as int, 50);
                exact + all_offered(t.bfs(query, limit, None), 1)
            } else {
                exact
            }
        },
    }
}

/// The score of a candidate: by how common its character is, by its match, by its weight.
pub open spec fn score(f: Found) -> int {
    let common = if f.stroke_aux == "level-1"@ {
        1000000000int
    } else if f.stroke_aux == "level-2"@ {
        500000000int
    } else if f.stroke_aux == "level-3"@ {
        200000000int
    } else {
        0int
    };
    let level = if f.match_level == 3 {
        50000000int
    } else if f.match_level == 1 {
        10000000int
    } else {
        0int
    };
    common + level + f.weight
}

/// Whether a candidate scores higher than another.
pub open spec fn scores_higher() -> spec_fn(Found, Found) -> bool {
    |a: Found, b: Found| score(a) > score(b)
}

/// Whether the candidate at a place is the heaviest of its text, and the first such.
pub open spec fn stands_out(s: Seq<Found>, i: int) -> bool {
    forall|j: int|
        0 <= j < s.len() && j != i && (#[trigger] s[j]).text == s[i].text ==> s[j].weight
            < s[i].weight || (s[j].weight == s[i].weight && i < j)
}

/// The places, among the first `n`, of the candidates that are the heaviest of their text.
pub open spec fn outstanding(s: Seq<Found>, n: int) -> Seq<int>
    decreases n,
{
    if n <= 0 {
        Seq::empty()
    } else if stands_out(s, n - 1) {
        outstanding(s, n - 1).push(n - 1)
    } else {
        outstanding(s, n - 1)
    }
}

/// The candidates at some places.
pub open spec fn at_places(s: Seq<Found>, places: Seq<int>) -> Seq<Found> {
    places.map_values(|i: int| s[i])
}

/// Each text once, by its heaviest candidate.
pub open spec fn deduplicated(s: Seq<Found>) -> Seq<Found> {
    at_places(s, outstanding(s, s.len() as int))
}

/// The candidates by score, each text once and with its largest weight.
pub open spec fn ranked(s: Seq<Found>) -> Seq<Found> {
    deduplicated(order::arranged(s, scores_higher()))
}

/// Adds the candidates that entries give.
fn offer_all<'a>(out: &mut Vec<SchemeCandidate>, v: &Vec<TrieResult<'a>>, level: u8)
    ensures
        scheme::founds(final(out)@) == scheme::founds(old(out)@) + all_offered(
            trie::views(v@),
            level,
        ),
{
    let ghost s = trie::views(v@);
    let ghost was = scheme::founds(out@);
    let mut i: usize = 0;
    proof {
        assert(was + all_offered(s.take(0), level) =~= was);
    }
    while i < v.len()
        invariant
            i <= v.len(),
            s == trie::views(v@),
            scheme::founds(out@) == was + all_offered(s.take(i as int), level),
        decreases v.len() - i,
    {
        let ghost now = scheme::founds(out@);
        let c = SchemeCandidate::of_entry(&v[i], v[i].weight, level);
        out.push(c);
        proof {
            assert(scheme::founds(out@) =~= now.push(c@));
            assert(all_offered(s.take(i + 1), level) =~= all_offered(s.take(i as int), level).push(c@));
            assert(was + all_offered(s.take(i as int), level).push(c@) =~= (was + all_offered(
                s.take(i as int),
                level,
            )).push(c@));
        }
        i = i + 1;
    }
    proof {
        assert(s.take(s.len() as int) =~= s);
    }
}

/// The score of a candidate.
fn score_of(c: &SchemeCandidate) -> (r: u64)
    ensures
        r == score(c@),
{
    let common: u64 = if same_text(c.stroke_aux.as_str(), "level-1") {
        1000000000
    } else if same_text(c.stroke_aux.as_str(), "level-2") {
        500000000
    } else if same_text(c.stroke_aux.as_str(), "level-3") {
        200000000
    } else {
        0
    };
    let level: u64 = match c.match_level {
        3 => 50000000,
        1 => 10000000,
        _ => 0,
    };
    common + level + c.weight as u64
}

/// Whether a candidate scores higher than another.
fn is_higher(a: &SchemeCandidate, b: &SchemeCandidate) -> (r: bool)
    ensures
        r == (score(a@) > score(b@)),
{
    score_of(a) > score_of(b)
}

/// Whether the candidate at a place is the heaviest of its text, and the first such.
fn is_outstanding(v: &Vec<SchemeCandidate>, i: usize) -> (r: bool)
    requires
        i < v@.len(),
    ensures
        r == stands_out(scheme::founds(v@), i as int),
{
    let ghost s = scheme::founds(v@);
    let mut j: usize = 0;
    proof {
        assert(s[i as int] == v@[i as int]@);
    }
    while j < v.len()
        invariant
            j <= v.len(),
            i < v@.len(),
            s == scheme::founds(v@),
            s[i as int] == v@[i as int]@,
            forall|k: int|
                0 <= k < j && k != i && (#[trigger] s[k]).text == s[i as int].text ==> s[k].weight
                    < s[i as int].weight || (s[k].weight == s[i as int].weight && i < k),
        decreases v.len() - j,
    {
        proof {
            assert(s[j as int] == v@[j as int]@);
        }
        if j != i && same_text(v[j].text.as_str(), v[i].text.as_str()) && (v[j].weight > v[i].weight || (
        v[j].weight == v[i].weight && j < i)) {
            return false;
        }
        j = j + 1;
    }
    true
}

impl BihuaScheme {
    /// The scheme.
    pub fn new() -> (r: Self)
        ensures
            r == BihuaScheme,
    {
        BihuaScheme
    }

    /// Whether a key is a stroke, or stands for any.
    pub fn is_stroke_key(key: VirtualKey) -> (r: bool)
        ensures
            r == stroke_key(key),
    {
        match key {
            VirtualKey::A => true,
            VirtualKey::D => true,
            VirtualKey::F => true,
            VirtualKey::G => true,
            VirtualKey::H => true,
            VirtualKey::J => true,
            VirtualKey::K => true,
            VirtualKey::L => true,
            VirtualKey::P => true,
            VirtualKey::S => true,
            VirtualKey::Z => true,
            _ => false,
        }
    }

    /// The strokes that letters stand for.
    pub fn translate(buffer: &str) -> (r: String)
        ensures
            r@ == strokes(buffer@),
    {
        let c = chars_of(buffer);
        let ghost s = buffer@;
        let mut out = String::new();
        let mut i: usize = 0;
        proof {
            assert(s.take(0) =~= Seq::<char>::empty());
        }
        while i < c.len()
            invariant
                i <= c.len(),
                c@ == s,
                out@ == strokes(s.take(i as int)),
            decreases c.len() - i,
        {
            proof {
                assert(s.take(i + 1).drop_last() =~= s.take(i as int));
                assert(s.take(i + 1).last() == s[i as int]);
            }
            match c[i] {
                'g' => out.push('1'),
                'h' => out.push('1'),
                'f' => out.push('2'),
                'j' => out.push('2'),
                'd' => out.push('3'),
                'k' => out.push('3'),
                's' => out.push('4'),
                'l' => out.push('4'),
                'a' => out.push('5'),
                'p' => out.push('5'),
                'z' => out.push('z'),
                _ => {},
            }
            i = i + 1;
        }
        proof {
            assert(s.take(s.len() as int) =~= s);
        }
        out
    }

    /// Turns what was typed into what is looked up.
    pub fn pre_process<'a>(&self, buffer: &str, _context: &SchemeContext<'a>) -> (r: String)
        ensures
            r@ == strokes(buffer@),
    {
        Self::translate(buffer)
    }

    /// The candidates for strokes.
    pub fn lookup<'a>(&self, query: &str, context: &SchemeContext<'a>) -> (r: Vec<SchemeCandidate>)
        ensures
            scheme::founds(r@) == looked_up(context@, query@),
    {
        let mut out: Vec<SchemeCandidate> = Vec::new();
        proof {
            assert(scheme::founds(out@) =~= Seq::<Found>::empty());
        }
        if let Some(t) = context.trie("bihua") {
            let c = chars_of(query);
            if char_in('z', c.as_slice()) {
                let found = t.search_wildcard(query, 50);
                offer_all(&mut out, &found, 2);
            } else {
                if let Some(found) = t.get_all_exact(query) {
                    offer_all(&mut out, &found, 3);
                } else {
                    proof {
                        assert(all_offered(t@.exact(query@), 3) =~= Seq::<Found>::empty());
                    }
                }
                proof {
                    assert(scheme::founds(out@) =~= all_offered(t@.exact(query@), 3));
                }
                if context.config.input.enable_prefix_matching || out.len() == 0 {
                    let limit = if context.config.input.prefix_matching_limit < 50 {
                        context.config.input.prefix_matching_limit
                    } else {
                        50
                    };
                    let found = t.search_bfs(query, limit);
                    offer_all(&mut out, &found, 1);
                }
            }
        }
        proof {
            assert(scheme::founds(out@) =~= looked_up(context@, query@));
        }
        out
    }

    /// Ranks the candidates.
    pub fn post_process<'a>(
        &self,
        _query: &str,
        candidates: &mut Vec<SchemeCandidate>,
        _context: &SchemeContext<'a>,
    )
        ensures
            scheme::founds(final(candidates)@) == ranked(scheme::founds(old(candidates)@)),
    {
        let ghost all = candidates@;
        let ghost lt = |a: SchemeCandidate, b: SchemeCandidate| score(a@) > score(b@);
        let ghost g = |c: SchemeCandidate| c@;
        sort_stable(candidates, is_higher, Ghost(lt));
        proof {
            order::lemma_arranged_map(all, g, lt, scores_higher());
            assert(scheme::founds(all) =~= all.map_values(g));
            assert(scheme::founds(candidates@) =~= candidates@.map_values(g));
        }
        let ghost s = scheme::founds(candidates@);
        let mut keep: Vec<bool> = Vec::new();
        let mut i: usize = 0;
        while i < candidates.len()
            invariant
                i <= candidates@.len(),
                s == scheme::founds(candidates@),
                keep@.len() == i,
                forall|k: int| 0 <= k < i ==> #[trigger] keep@[k] == stands_out(s, k),
            decreases candidates.len() - i,
        {
            let k = is_outstanding(candidates, i);
            keep.push(k);
            i = i + 1;
        }
        let mut out: Vec<SchemeCandidate> = Vec::new();
        let mut n: usize = 0;
        let total = keep.len();
        proof {
            assert(scheme::founds(out@) =~= at_places(s, outstanding(s, 0)));
            assert(s.skip(0) =~= s);
        }
        while candidates.len() > 0
            invariant
                n <= total,
                total == s.len(),
                keep@.len() == s.len(),
                forall|k: int| 0 <= k < s.len() ==> #[trigger] keep@[k] == stands_out(s, k),
                candidates@.len() == s.len() - n,
                scheme::founds(candidates@) == s.skip(n as int),
                scheme::founds(out@) == at_places(s, outstanding(s, n as int)),
            decreases candidates.len(),
        {
            let ghost rest = candidates@;
            let ghost was = scheme::founds(out@);
            let c = candidates.remove(0);
            proof {
                assert(scheme::founds(rest)[0] == rest[0]@);
                assert(s[n as int] == c@);
                assert forall|k: int| 0 <= k < candidates@.len() implies scheme::founds(candidates@)[k]
                    == s.skip(n + 1)[k] by {
                    assert(candidates@[k] == rest[k + 1]);
                    assert(scheme::founds(rest)[k + 1] == rest[k + 1]@);
                }
                assert(scheme::founds(candidates@) =~= s.skip(n + 1));
            }
            if keep[n] {
                out.push(c);
                proof {
                    assert(scheme::founds(out@) =~= was.push(c@));
                    assert(at_places(s, outstanding(s, n + 1)) =~= was.push(c@));
                }
            }
            n = n + 1;
        }
        candidates.append(&mut out);
        proof {
            assert(scheme::founds(candidates@) =~= ranked(scheme::founds(all)));
        }
    }

    /// Keeps letters that are no strokes from being typed.
    pub fn handle_special_key<'a>(
        &self,
        key: VirtualKey,
        _buffer: &mut String,
        _context: &SchemeContext<'a>,
    ) -> (r: Option<Action>)
        ensures
            action::opt_act(r) == (if keys::letter_key(key) && !stroke_key(key) {
                Some(action::Act::Consume)
            } else {
                None
            }),
            *final(_buffer) == *old(_buffer),
    {
        if is_letter(key) && !Self::is_stroke_key(key) {
            return Some(Action::Consume);
        }
        None
    }
}

/// The letter of the other hand for the same stroke.
pub open spec fn other_hand(c: char) -> char {
    if c == 'g' {
        'h'
    } else if c == 'h' {
        'g'
    } else if c == 'f' {
        'j'
    } else if c == 'j' {
        'f'
    } else if c == 'd' {
        'k'
    } else if c == 'k' {
        'd'
    } else if c == 's' {
        'l'
    } else if c == 'l' {
        's'
    } else if c == 'a' {
        'p'
    } else if c == 'p' {
        'a'
    } else {
        c
    }
}

/// Both hands write the same strokes.
pub proof fn law_hands_are_equal(s: Seq<char>, t: Seq<char>)
    requires
        s.len() == t.len(),
        forall|i: int| 0 <= i < s.len() ==> #[trigger] t[i] == s[i] || t[i] == other_hand(s[i]),
    ensures
        strokes(s) == strokes(t),
    decreases s.len(),
{
    if s.len() > 0 {
        law_hands_are_equal(s.drop_last(), t.drop_last());
        assert(t[t.len() - 1] == s.last() || t[t.len() - 1] == other_hand(s.last()));
    }
}

/// What is typed key by key is what is typed at once.
pub proof fn law_strokes_add_up(s: Seq<char>, t: Seq<char>)
    ensures
        strokes(s + t) == strokes(s) + strokes(t),
    decreases t.len(),
{
    if t.len() == 0 {
        assert(s + t =~= s);
        assert(strokes(s) + strokes(t) =~= strokes(s));
    } else {
        law_strokes_add_up(s, t.drop_last());
        assert((s + t).drop_last() =~= s + t.drop_last());
        assert((s + t).last() == t.last());
        match stroke_of(t.last()) {
            Some(d) => {
                assert(strokes(s) + strokes(t.drop_last()).push(d) =~= (strokes(s) + strokes(
                    t.drop_last(),
                )).push(d));
            },
            None => {},
        }
    }
}

proof fn lemma_outstanding(s: Seq<Found>, n: int)
    requires
        0 <= n <= s.len(),
    ensures
        forall|i: int|
            0 <= i < outstanding(s, n).len() ==> 0 <= #[trigger] outstanding(s, n)[i] < n && stands_out(
                s,
                outstanding(s, n)[i],
            ),
        forall|i: int, j: int|
            0 <= i < j < outstanding(s, n).len() ==> #[trigger] outstanding(s, n)[i]
                < #[trigger] outstanding(s, n)[j],
        forall|k: int| 0 <= k < n && #[trigger] stands_out(s, k) ==> outstanding(s, n).contains(k),
    decreases n,
{
    if n > 0 {
        lemma_outstanding(s, n - 1);
        let p = outstanding(s, n - 1);
        let q = outstanding(s, n);
        assert forall|k: int| 0 <= k < n && #[trigger] stands_out(s, k) implies q.contains(k) by {
            if k == n - 1 {
                assert(q[p.len() as int] == k);
            } else {
                let x = choose|x: int| 0 <= x < p.len() && p[x] == k;
                assert(q[x] == k);
            }
        }
    }
}

/// The place of the heaviest candidate with the text of the one at a place, among the first `n`.
spec fn heaviest_place(s: Seq<Found>, i: int, n: int) -> int
    decreases n,
{
    if n <= 0 {
        i
    } else {
        let b = heaviest_place(s, i, n - 1);
        let k = n - 1;
        if s[k].text == s[i].text && (s[k].weight > s[b].weight || (s[k].weight == s[b].weight && k < b)) {
            k
        } else {
            b
        }
    }
}

proof fn lemma_heaviest_place(s: Seq<Found>, i: int, n: int)
    requires
        0 <= i < s.len(),
        0 <= n <= s.len(),
    ensures
        ({
            let b = heaviest_place(s, i, n);
            &&& 0 <= b < s.len()
            &&& s[b].text == s[i].text
            &&& s[b].weight >= s[i].weight
            &&& forall|j: int|
                0 <= j < n && j != b && (#[trigger] s[j]).text == s[i].text ==> s[j].weight < s[b].weight
                    || (s[j].weight == s[b].weight && b < j)
        }),
    decreases n,
{
    if n > 0 {
        lemma_heaviest_place(s, i, n - 1);
    }
}

/// Among ranked candidates no text stands twice, each text that was there is still there with
/// its largest weight, nothing new has come, and no candidate scores higher than one before it.
pub proof fn law_ranked_by_score_each_text_once(s: Seq<Found>)
    ensures
        forall|i: int, j: int|
            0 <= i < j < ranked(s).len() ==> (#[trigger] ranked(s)[i]).text != (#[trigger] ranked(
                s,
            )[j]).text && score(ranked(s)[i]) >= score(ranked(s)[j]),
        forall|k: int|
            0 <= k < s.len() ==> exists|i: int|
                0 <= i < ranked(s).len() && (#[trigger] ranked(s)[i]).text == (#[trigger] s[k]).text
                    && ranked(s)[i].weight >= s[k].weight,
        forall|i: int| 0 <= i < ranked(s).len() ==> s.contains(#[trigger] ranked(s)[i]),
{
    let a = order::arranged(s, scores_higher());
    let n = a.len() as int;
    let p = outstanding(a, n);
    let r = ranked(s);
    order::law_arranged_keeps_items(s, scores_higher());
    order::law_arranged_in_order(s, scores_higher());
    lemma_outstanding(a, n);
    assert forall|x: Found| s.contains(x) <==> a.contains(x) by {
        broadcast use vstd::seq_lib::group_to_multiset_ensures;

        assert(s.to_multiset().count(x) == a.to_multiset().count(x));
    }
    assert forall|i: int, j: int| 0 <= i < j < r.len() implies (#[trigger] r[i]).text != (#[trigger] r[j]).text
        && score(r[i]) >= score(r[j]) by {
        assert(r[i] == a[p[i]] && r[j] == a[p[j]]);
        assert(p[i] < p[j]);
        assert(stands_out(a, p[i]) && stands_out(a, p[j]));
        assert(!scores_higher()(a[p[j]], a[p[i]]));
    }
    assert forall|k: int| 0 <= k < s.len() implies exists|i: int|
        0 <= i < r.len() && (#[trigger] r[i]).text == (#[trigger] s[k]).text && r[i].weight >= s[k].weight by {
        assert(s.contains(s[k]));
        let x = choose|x: int| 0 <= x < a.len() && a[x] == s[k];
        lemma_heaviest_place(a, x, n);
        let b = heaviest_place(a, x, n);
        assert(stands_out(a, b));
        let i = choose|i: int| 0 <= i < p.len() && p[i] == b;
        assert(r[i] == a[b]);
    }
    assert forall|i: int| 0 <= i < r.len() implies s.contains(#[trigger] r[i]) by {
        assert(r[i] == a[p[i]]);
        assert(a.contains(a[p[i]]));
    }
}

} // verus!
