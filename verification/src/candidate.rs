//! Candidates, and what ranks them.

use vstd::prelude::*;
use crate::config::Config;
use crate::order;
use crate::order::sort_stable;
use crate::strmap;
use crate::text::chars_of;
use crate::trie;
use crate::userdict;
use crate::userdict::{UserDictData, WordList};

verus! {

/// A candidate. The weight is kept in thousandths; the level says how it was matched: 1 by
/// its beginning, 2 by an abbreviation or a wildcard, 3 exactly.
pub struct Candidate {
    pub text: String,
    pub simplified: String,
    pub traditional: String,
    pub hint: String,
    pub english_aux: String,
    pub stroke_aux: String,
    pub source: String,
    pub weight: i64,
    pub match_level: u8,
    pub flags: u8,
}

/// A candidate, as texts.
#[verifier::ext_equal]
pub struct Cand {
    pub text: Seq<char>,
    pub simplified: Seq<char>,
    pub traditional: Seq<char>,
    pub hint: Seq<char>,
    pub english_aux: Seq<char>,
    pub stroke_aux: Seq<char>,
    pub source: Seq<char>,
    pub weight: i64,
    pub match_level: u8,
    pub flags: u8,
}

impl View for Candidate {
    type V = Cand;

    open spec fn view(&self) -> Cand {
        Cand {
            text: self.text@,
            simplified: self.simplified@,
            traditional: self.traditional@,
            hint: self.hint@,
            english_aux: self.english_aux@,
            stroke_aux: self.stroke_aux@,
            source: self.source@,
            weight: self.weight,
            match_level: self.match_level,
            flags: self.flags,
        }
    }
}

/// The candidates of a list.
pub open spec fn cands(v: Seq<Candidate>) -> Seq<Cand> {
    v.map_values(|c: Candidate| c@)
}

impl Clone for Candidate {
    /// A copy of the candidate.
    fn clone(&self) -> (r: Self)
        ensures
            r@ == self@,
    {
        Candidate {
            text: self.text.clone(),
            simplified: self.simplified.clone(),
            traditional: self.traditional.clone(),
            hint: self.hint.clone(),
            english_aux: self.english_aux.clone(),
            stroke_aux: self.stroke_aux.clone(),
            source: self.source.clone(),
            weight: self.weight,
            match_level: self.match_level,
            flags: self.flags,
        }
    }
}

/// A copy of some candidates.
pub fn copy_all(v: &Vec<Candidate>) -> (r: Vec<Candidate>)
    ensures
        cands(r@) == cands(v@),
{
    let mut out: Vec<Candidate> = Vec::new();
    let ghost s = cands(v@);
    let mut i: usize = 0;
    proof {
        assert(cands(out@) =~= s.take(0));
    }
    while i < v.len()
        invariant
            i <= v.len(),
            s == cands(v@),
            cands(out@) == s.take(i as int),
        decreases v.len() - i,
    {
        let ghost was = cands(out@);
        let c = v[i].clone();
        out.push(c);
        proof {
            assert(cands(out@) =~= was.push(c@));
            assert(s.take(i + 1) =~= s.take(i as int).push(s[i as int]));
        }
        i = i + 1;
    }
    proof {
        assert(s.take(s.len() as int) =~= s);
    }
    out
}

/// A number, or the nearest one that a weight can hold.
pub open spec fn held(x: int) -> i64 {
    if x < i64::MIN {
        i64::MIN
    } else if x > i64::MAX {
        i64::MAX
    } else {
        x as i64
    }
}

/// A number, or the nearest one that a weight can hold.
pub(crate) fn hold(x: i128) -> (r: i64)
    ensures
        r == held(x as int),
{
    if x < i64::MIN as i128 {
        i64::MIN
    } else if x > i64::MAX as i128 {
        i64::MAX
    } else {
        x as i64
    }
}

/// What separates syllables where the user has parted them.
pub open spec fn parts_syllables(c: char) -> bool {
    c == ' ' || c == '\'' || c == ';'
}

/// How many characters part syllables.
pub open spec fn partings(s: Seq<char>) -> int
    decreases s.len(),
{
    if s.len() == 0 {
        0
    } else {
        partings(s.drop_last()) + if parts_syllables(s.last()) {
            1int
        } else {
            0int
        }
    }
}

/// How many syllables an input seems to have: one more than it has partings.
pub open spec fn syllables_guessed(s: Seq<char>) -> int {
    if s.len() == 0 {
        0
    } else {
        partings(s) + 1
    }
}

/// How many syllables an input seems to have.
pub fn estimate_syllables(input: &str) -> (r: u128)
    ensures
        r == syllables_guessed(input@),
{
    let c = chars_of(input);
    let ghost s = input@;
    if c.len() == 0 {
        return 0;
    }
    let mut n: u128 = 0;
    let mut i: usize = 0;
    proof {
        assert(s.take(0) =~= Seq::<char>::empty());
    }
    while i < c.len()
        invariant
            i <= c.len(),
            c@ == s,
            n == partings(s.take(i as int)),
            n <= i,
        decreases c.len() - i,
    {
        proof {
            assert(s.take(i + 1).drop_last() =~= s.take(i as int));
            assert(s.take(i + 1).last() == s[i as int]);
        }
        if c[i] == ' ' || c[i] == '\'' || c[i] == ';' {
            n = n + 1;
        }
        i = i + 1;
    }
    proof {
        assert(s.take(s.len() as int) =~= s);
    }
    n + 1
}

/// What a filter looks at beside the candidates.
pub struct FilterView {
    pub input: Seq<char>,
    pub config: Config,
    pub context: Option<Seq<char>>,
    pub pair: Option<(Seq<char>, Seq<char>)>,
}

/// A candidate with the score of its match: a base by its level, less a penalty for every
/// character beyond the syllables of the input.
pub open spec fn scored(c: Cand, input: Seq<char>, bonus: i64) -> Cand {
    let base = if c.match_level == 3 {
        30000000000int + bonus
    } else if c.match_level == 2 {
        20000000000int
    } else if c.match_level == 1 {
        10000000000int
    } else {
        0int
    };
    let beyond = trie::most(0, c.simplified.len() - syllables_guessed(input));
    let penalty = if c.match_level == 2 {
        10000000 * beyond
    } else {
        1000000 * beyond
    };
    Cand { weight: held(base + c.weight - penalty), ..c }
}

/// A candidate goes before another: by its level, then by its weight.
pub open spec fn better_match() -> spec_fn(Cand, Cand) -> bool {
    |a: Cand, b: Cand|
        a.match_level > b.match_level || (a.match_level == b.match_level && a.weight > b.weight)
}

/// A candidate weighs more than another.
pub open spec fn weightier() -> spec_fn(Cand, Cand) -> bool {
    |a: Cand, b: Cand| a.weight > b.weight
}

/// The candidates scored by their match, the best first.
pub open spec fn by_match(s: Seq<Cand>, input: Seq<char>, bonus: i64) -> Seq<Cand> {
    order::arranged(s.map_values(|c: Cand| scored(c, input, bonus)), better_match())
}

/// A candidate that shows its traditional or its simplified form.
pub open spec fn shown(c: Cand, traditional: bool) -> Cand {
    if traditional {
        Cand { text: c.traditional, ..c }
    } else {
        Cand { text: c.simplified, ..c }
    }
}

/// The candidates in their traditional or their simplified form.
pub open spec fn all_shown(s: Seq<Cand>, traditional: bool) -> Seq<Cand> {
    s.map_values(|c: Cand| shown(c, traditional))
}

/// What a candidate gains from the times that it has followed: no more than forty count.
pub open spec fn gained(c: Cand, count: Option<u32>, each: int) -> Cand {
    match count {
        Some(n) => Cand { weight: held(c.weight + each * trie::least(40, n as int)), ..c },
        None => c,
    }
}

/// A candidate with what it gains from the word before, and from the two words before.
pub open spec fn in_context(c: Cand, p: userdict::ProfileWords, v: FilterView) -> Cand {
    let c1 = match v.context {
        Some(w) => match strmap::lookup(p, w) {
            Some(l) => gained(c, crate::chinese::last_count(l, c.simplified), 50000000000),
            None => c,
        },
        None => c,
    };
    match v.pair {
        Some((a, b)) => match strmap::lookup(p, a + seq!['|'] + b) {
            Some(l) => gained(c1, strmap::lookup(l, c.simplified), 60000000000),
            None => c1,
        },
        None => c1,
    }
}

/// The candidates with what they gain from the words before, the weightiest first.
pub open spec fn adapted(s: Seq<Cand>, ngram: userdict::UserWords, profile: Seq<char>, v: FilterView) -> Seq<
    Cand,
> {
    match strmap::lookup(ngram, profile) {
        Some(p) => if v.config.options.enable_context_sorting {
            order::arranged(s.map_values(|c: Cand| in_context(c, p, v)), weightier())
        } else {
            order::arranged(s, weightier())
        },
        None => order::arranged(s, weightier()),
    }
}

/// What a filter looks at beside the candidates.
pub open spec fn looked_at(
    input: &str,
    config: &Config,
    context: Option<&str>,
    context_pair: Option<(&str, &str)>,
) -> FilterView {
    FilterView {
        input: input@,
        config: *config,
        context: trie::opt_text(context),
        pair: crate::scheme::opt_pair(context_pair),
    }
}

/// Something that changes and orders candidates.
pub trait Filter {
    /// What becomes of candidates.
    spec fn filtered(&self, s: Seq<Cand>, v: FilterView) -> Seq<Cand>;

    /// Changes and orders candidates.
    fn filter(
        &self,
        input: &str,
        candidates: Vec<Candidate>,
        config: &Config,
        context: Option<&str>,
        context_pair: Option<(&str, &str)>,
    ) -> (r: Vec<Candidate>)
        ensures
            cands(r@) == self.filtered(
                cands(candidates@),
                looked_at(input, config, context, context_pair),
            ),
    ;
}

/// Scores candidates by their match.
pub struct MatchLevelScoringFilter;

/// Shows the traditional or the simplified form.
pub struct TraditionalFilter;

/// Ranks candidates by the words before.
pub struct AdaptiveFilter<'a> {
    pub ngram_history: &'a UserDictData,
    pub profile: String,
}

impl<'a> AdaptiveFilter<'a> {
    /// Ranks by what has been typed in a profile.
    pub fn new(ngram_history: &'a UserDictData, profile: String) -> (r: Self)
        ensures
            r.ngram_history@ == ngram_history@,
            r.profile@ == profile@,
    {
        AdaptiveFilter { ngram_history, profile }
    }
}

/// Whether a candidate goes before another by its match.
fn is_better_match(a: &Candidate, b: &Candidate) -> (r: bool)
    ensures
        r == better_match()(a@, b@),
{
    a.match_level > b.match_level || (a.match_level == b.match_level && a.weight > b.weight)
}

/// Whether a candidate weighs more than another.
fn is_weightier(a: &Candidate, b: &Candidate) -> (r: bool)
    ensures
        r == weightier()(a@, b@),
{
    a.weight > b.weight
}

impl Filter for MatchLevelScoringFilter {
    open spec fn filtered(&self, s: Seq<Cand>, v: FilterView) -> Seq<Cand> {
        by_match(s, v.input, v.config.input.ranking.exact_match_bonus)
    }

    fn filter(
        &self,
        input: &str,
        candidates: Vec<Candidate>,
        config: &Config,
        context: Option<&str>,
        context_pair: Option<(&str, &str)>,
    ) -> (r: Vec<Candidate>) {
        let mut out = candidates;
        let ghost s = cands(out@);
        let ghost typed = input@;
        let syllables = estimate_syllables(input);
        let bonus = config.input.ranking.exact_match_bonus;
        let mut i: usize = 0;
        while i < out.len()
            invariant
                i <= out.len(),
                out@.len() == s.len(),
                syllables == syllables_guessed(typed),
                forall|j: int| 0 <= j < i ==> (#[trigger] out@[j])@ == scored(s[j], typed, bonus),
                forall|j: int| i <= j < s.len() ==> (#[trigger] out@[j])@ == s[j],
            decreases out.len() - i,
        {
            let level = out[i].match_level;
            let base: i128 = match level {
                3 => 30000000000 + bonus as i128,
                2 => 20000000000,
                1 => 10000000000,
                _ => 0,
            };
            let n = chars_of(out[i].simplified.as_str()).len() as u128;
            let beyond: i128 = if n > syllables {
                (n - syllables) as i128
            } else {
                0
            };
            let penalty: i128 = if level == 2 {
                10000000 * beyond
            } else {
                1000000 * beyond
            };
            let weight = hold(base + out[i].weight as i128 - penalty);
            let c = &mut out[i];
            c.weight = weight;
            i = i + 1;
        }
        let ghost all = out@;
        let ghost g = |c: Candidate| c@;
        let ghost lt = |a: Candidate, b: Candidate| better_match()(a@, b@);
        sort_stable(&mut out, is_better_match, Ghost(lt));
        proof {
            order::lemma_arranged_map(all, g, lt, better_match());
            assert(all.map_values(g) =~= s.map_values(|c: Cand| scored(c, typed, bonus)));
            assert(cands(out@) =~= out@.map_values(g));
        }
        out
    }
}

impl Filter for TraditionalFilter {
    open spec fn filtered(&self, s: Seq<Cand>, v: FilterView) -> Seq<Cand> {
        all_shown(s, v.config.input.enable_traditional)
    }

    fn filter(
        &self,
        input: &str,
        candidates: Vec<Candidate>,
        config: &Config,
        context: Option<&str>,
        context_pair: Option<(&str, &str)>,
    ) -> (r: Vec<Candidate>) {
        let mut out = candidates;
        let ghost s = cands(out@);
        let traditional = config.input.enable_traditional;
        let mut i: usize = 0;
        while i < out.len()
            invariant
                i <= out.len(),
                out@.len() == s.len(),
                forall|j: int| 0 <= j < i ==> (#[trigger] out@[j])@ == shown(s[j], traditional),
                forall|j: int| i <= j < s.len() ==> (#[trigger] out@[j])@ == s[j],
            decreases out.len() - i,
        {
            let t = if traditional {
                out[i].traditional.clone()
            } else {
                out[i].simplified.clone()
            };
            let c = &mut out[i];
            c.text = t;
            i = i + 1;
        }
        proof {
            assert(cands(out@) =~= all_shown(s, traditional));
        }
        out
    }
}

/// The weight with what is gained from the times that a word has followed.
fn gain_weight(weight: i64, count: Option<u32>, each: i128) -> (r: i64)
    requires
        0 <= each <= 60000000000,
    ensures
        forall|c: Cand|
            c.weight == weight ==> #[trigger] gained(c, count, each as int) == (Cand { weight: r, ..c }),
{
    match count {
        None => weight,
        Some(n) => {
            let times: i128 = if n < 40 {
                n as i128
            } else {
                40
            };
            proof {
                assert(0 <= each * times <= 60000000000 * 40) by (nonlinear_arith)
                    requires
                        0 <= each <= 60000000000,
                        0 <= times <= 40,
                ;
            }
            hold(weight as i128 + each * times)
        },
    }
}

impl<'b> Filter for AdaptiveFilter<'b> {
    open spec fn filtered(&self, s: Seq<Cand>, v: FilterView) -> Seq<Cand> {
        adapted(s, self.ngram_history@, self.profile@, v)
    }

    fn filter(
        &self,
        input: &str,
        candidates: Vec<Candidate>,
        config: &Config,
        context: Option<&str>,
        context_pair: Option<(&str, &str)>,
    ) -> (r: Vec<Candidate>) {
        let mut out = candidates;
        let ghost s = cands(out@);
        let ghost mut t = s;
        if config.options.enable_context_sorting {
            if let Some(p) = self.ngram_history.get(self.profile.as_str()) {
                let bigram: Option<&WordList> = match context {
                    Some(w) => p.get(w),
                    None => None,
                };
                let trigram: Option<&WordList> = match context_pair {
                    Some((a, b)) => {
                        let mut key = a.to_owned();
                        key.push('|');
                        key.append(b);
                        proof {
                            assert(key@ =~= a@ + seq!['|'] + b@);
                        }
                        p.get(key.as_str())
                    },
                    None => None,
                };
                let ghost vv = looked_at(input, config, context, context_pair);
                let mut i: usize = 0;
                while i < out.len()
                    invariant
                        i <= out.len(),
                        out@.len() == s.len(),
                        vv == looked_at(input, config, context, context_pair),
                        bigram is Some <==> vv.context is Some && strmap::lookup(
                            p@,
                            vv.context->0,
                        ) is Some,
                        bigram matches Some(l) ==> strmap::lookup(p@, vv.context->0) == Some(l@),
                        trigram is Some <==> vv.pair is Some && strmap::lookup(
                            p@,
                            pair_key(vv.pair),
                        ) is Some,
                        trigram matches Some(l) ==> strmap::lookup(p@, pair_key(vv.pair)) == Some(
                            l@,
                        ),
                        forall|j: int|
                            0 <= j < i ==> (#[trigger] out@[j])@ == in_context(s[j], p@, vv),
                        forall|j: int| i <= j < s.len() ==> (#[trigger] out@[j])@ == s[j],
                    decreases out.len() - i,
                {
                    let mut weight = out[i].weight;
                    if let Some(l) = bigram {
                        weight = gain_weight(
                            weight,
                            crate::chinese::find_last_count(l, out[i].simplified.as_str()),
                            50000000000,
                        );
                    }
                    if let Some(l) = trigram {
                        weight = gain_weight(
                            weight,
                            l.count_of(out[i].simplified.as_str()),
                            60000000000,
                        );
                    }
                    let c = &mut out[i];
                    c.weight = weight;
                    i = i + 1;
                }
                proof {
                    t = s.map_values(|c: Cand| in_context(c, p@, vv));
                }
            }
        }
        let ghost all = out@;
        let ghost g = |c: Candidate| c@;
        let ghost lt = |a: Candidate, b: Candidate| weightier()(a@, b@);
        sort_stable(&mut out, is_weightier, Ghost(lt));
        proof {
            order::lemma_arranged_map(all, g, lt, weightier());
            assert(all.map_values(g) =~= t);
            assert(cands(out@) =~= out@.map_values(g));
        }
        out
    }
}

/// The key under which what follows two words is kept.
pub open spec fn pair_key(p: Option<(Seq<char>, Seq<char>)>) -> Seq<char> {
    match p {
        Some((a, b)) => a + seq!['|'] + b,
        None => Seq::empty(),
    }
}

/// Scored by their match, a candidate of a higher level stands before one of a lower level: an
/// exact match before a longer word. Of one level the heavier stands first, and none of them is
/// lost.
pub proof fn law_better_matches_come_first(s: Seq<Cand>, input: Seq<char>, bonus: i64, i: int, j: int)
    requires
        0 <= i < j < s.len(),
    ensures
        by_match(s, input, bonus).len() == s.len(),
        by_match(s, input, bonus).to_multiset() == s.map_values(
            |c: Cand| scored(c, input, bonus),
        ).to_multiset(),
        by_match(s, input, bonus)[i].match_level >= by_match(s, input, bonus)[j].match_level,
        by_match(s, input, bonus)[i].match_level == by_match(s, input, bonus)[j].match_level
            ==> by_match(s, input, bonus)[i].weight >= by_match(s, input, bonus)[j].weight,
{
    let t = s.map_values(|c: Cand| scored(c, input, bonus));
    order::law_arranged_keeps_items(t, better_match());
    order::law_arranged_in_order(t, better_match());
    let a = order::arranged(t, better_match());
    assert(!better_match()(a[j], a[i]));
}

} // verus!
