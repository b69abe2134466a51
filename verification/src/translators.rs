//! Translators: the candidates that a dictionary and the words of the user give for syllables.

use vstd::prelude::*;
use crate::candidate;
use crate::candidate::{copy_all, Cand, Candidate};
use crate::config::{Config, DisplayMode, FuzzyPinyinConfig};
use crate::fuzzy;
use crate::fuzzy::fuzzy_variants_per_segment;
use crate::lookup::MAX_LOOKUP_LIMIT;
use crate::segmentation;
use crate::session_state;
use crate::strmap;
use crate::strmap::StrMap;
use crate::text;
use crate::text::{same_text, starts_with};
use crate::trie;
use crate::trie::{Entry, Trie, TrieResult, TrieView};

verus! {

/// For how many milliseconds the candidates found last are good for longer letters.
pub const CACHE_TTL_MS: u64 = 300;

/// The hint of an entry.
pub open spec fn hint_for(mode: DisplayMode, e: Entry) -> Seq<char> {
    match mode {
        DisplayMode::CharacterOnly => Seq::empty(),
        DisplayMode::CharacterWithEnglish => e.en,
        DisplayMode::CharacterWithStroke => e.stroke_aux,
        DisplayMode::CharacterWithTone => e.tone,
    }
}

/// The candidate for an entry.
pub open spec fn tabled(e: Entry, source: Seq<char>, level: u8, mode: DisplayMode) -> Cand {
    Cand {
        text: e.word,
        simplified: e.word,
        traditional: if e.trad.len() == 0 {
            e.word
        } else {
            e.trad
        },
        hint: hint_for(mode, e),
        english_aux: e.en,
        stroke_aux: e.stroke_aux,
        source,
        weight: (e.weight * 1000) as i64,
        match_level: level,
        flags: e.flags,
    }
}

/// Whether a word is among candidates.
pub open spec fn holds(s: Seq<Cand>, w: Seq<char>) -> bool {
    exists|i: int| 0 <= i < s.len() && (#[trigger] s[i]).simplified == w
}

/// Candidates with one more, unless its word is among them.
pub open spec fn with_new(s: Seq<Cand>, c: Cand) -> Seq<Cand> {
    if holds(s, c.simplified) {
        s
    } else {
        s.push(c)
    }
}

/// How entries become candidates.
pub struct Manner {
    pub source: Seq<char>,
    pub level: u8,
    pub mode: DisplayMode,
}

/// Candidates with the first `n` entries.
pub open spec fn with_entries(s: Seq<Cand>, es: Seq<Entry>, m: Manner, n: int) -> Seq<Cand>
    decreases n,
{
    if n <= 0 {
        s
    } else {
        with_new(with_entries(s, es, m, n - 1), tabled(es[n - 1], m.source, m.level, m.mode))
    }
}

/// Candidates with the first `n` entries, as long as there are not too many.
pub open spec fn with_few(s: Seq<Cand>, es: Seq<Entry>, m: Manner, limit: int, n: int) -> Seq<Cand>
    decreases n,
{
    if n <= 0 {
        s
    } else {
        let before = with_few(s, es, m, limit, n - 1);
        if before.len() >= limit {
            before
        } else {
            with_new(before, tabled(es[n - 1], m.source, m.level, m.mode))
        }
    }
}

/// Candidates with the first `n` entries, of which the first is added in any case and the
/// others as long as there are not too many.
pub open spec fn with_more(s: Seq<Cand>, es: Seq<Entry>, m: Manner, limit: int, n: int) -> Seq<Cand>
    decreases n,
{
    if n <= 0 {
        s
    } else {
        let before = with_more(s, es, m, limit, n - 1);
        if n > 1 && before.len() >= limit {
            before
        } else {
            with_new(before, tabled(es[n - 1], m.source, m.level, m.mode))
        }
    }
}

/// What fuzzy sounds are searched for.
pub struct Fuzzy {
    pub t: TrieView,
    pub lists: Seq<Seq<Seq<char>>>,
    pub query: Seq<char>,
    pub mode: DisplayMode,
    pub limit: int,
}

/// How entries under fuzzy sounds become candidates.
pub open spec fn fuzzy_manner(mode: DisplayMode) -> Manner {
    Manner { source: "Table (Fuzzy)"@, level: 2, mode }
}

/// Candidates with what is found under the spellings that begin with letters and go on with the
/// variants from a place on. Spellings that no key begins with are left out.
pub open spec fn fuzzily(f: Fuzzy, depth: int, letters: Seq<char>, s: Seq<Cand>) -> Seq<Cand>
    decreases f.lists.len() - depth, f.lists[depth].len() + 1,
{
    if s.len() >= f.limit || depth < 0 {
        s
    } else if depth >= f.lists.len() {
        if letters == f.query {
            s
        } else {
            let es = f.t.exact(letters);
            with_few(s, es, fuzzy_manner(f.mode), f.limit, es.len() as int)
        }
    } else {
        fuzzily_over(f, depth, letters, s, f.lists[depth].len() as int)
    }
}

/// Candidates with what is found under the first `n` variants at a place.
pub open spec fn fuzzily_over(f: Fuzzy, depth: int, letters: Seq<char>, s: Seq<Cand>, n: int) -> Seq<
    Cand,
>
    decreases f.lists.len() - depth, n,
{
    if n <= 0 || depth < 0 || depth >= f.lists.len() {
        s
    } else {
        let before = fuzzily_over(f, depth, letters, s, n - 1);
        let longer = letters + f.lists[depth][n - 1];
        if depth + 1 == f.lists.len() || f.t.begins(longer) {
            fuzzily(f, depth + 1, longer, before)
        } else {
            before
        }
    }
}

/// The hint of an entry.
fn build_hint<'a>(mode: DisplayMode, e: &TrieResult<'a>) -> (r: String)
    ensures
        r@ == hint_for(mode, e@),
{
    match mode {
        DisplayMode::CharacterOnly => String::new(),
        DisplayMode::CharacterWithEnglish => e.en.to_owned(),
        DisplayMode::CharacterWithStroke => e.stroke_aux.to_owned(),
        DisplayMode::CharacterWithTone => e.tone.to_owned(),
    }
}

/// The candidate for an entry.
fn table_candidate<'a>(e: &TrieResult<'a>, source: &str, level: u8, mode: DisplayMode) -> (r: Candidate)
    ensures
        r@ == tabled(e@, source@, level, mode),
{
    Candidate {
        text: e.word.to_owned(),
        simplified: e.word.to_owned(),
        traditional: if crate::session::is_blank(e.trad) {
            e.word.to_owned()
        } else {
            e.trad.to_owned()
        },
        hint: build_hint(mode, e),
        english_aux: e.en.to_owned(),
        stroke_aux: e.stroke_aux.to_owned(),
        source: source.to_owned(),
        weight: e.weight as i64 * 1000,
        match_level: level,
        flags: e.flags,
    }
}

/// Adds a candidate unless its word is among them.
pub(crate) fn add_new(v: &mut Vec<Candidate>, c: Candidate)
    ensures
        candidate::cands(final(v)@) == with_new(candidate::cands(old(v)@), c@),
{
    let ghost s = candidate::cands(v@);
    let mut i: usize = 0;
    while i < v.len()
        invariant
            i <= v.len(),
            v@ == old(v)@,
            s == candidate::cands(v@),
            forall|k: int| 0 <= k < i ==> (#[trigger] s[k]).simplified != c@.simplified,
        decreases v.len() - i,
    {
        proof {
            assert(s[i as int] == v@[i as int]@);
        }
        if same_text(v[i].simplified.as_str(), c.simplified.as_str()) {
            proof {
                assert(holds(s, c@.simplified));
            }
            return ;
        }
        i = i + 1;
    }
    v.push(c);
    proof {
        assert(candidate::cands(v@) =~= s.push(c@));
    }
}

/// Adds entries, as long as there are not too many where a limit is given.
fn add_few<'a>(out: &mut Vec<Candidate>, es: &Vec<TrieResult<'a>>, mode: DisplayMode, limit: usize)
    ensures
        candidate::cands(final(out)@) == with_few(
            candidate::cands(old(out)@),
            trie::views(es@),
            fuzzy_manner(mode),
            limit as int,
            es@.len() as int,
        ),
{
    let ghost s = candidate::cands(out@);
    let ghost ev = trie::views(es@);
    let mut i: usize = 0;
    while i < es.len()
        invariant
            i <= es.len(),
            ev == trie::views(es@),
            candidate::cands(out@) == with_few(
                s,
                ev,
                fuzzy_manner(mode),
                limit as int,
                i as int,
            ),
        decreases es.len() - i,
    {
        proof {
            assert(ev[i as int] == es@[i as int]@);
            assert(candidate::cands(out@).len() == out@.len());
        }
        if out.len() < limit {
            add_new(out, table_candidate(&es[i], "Table (Fuzzy)", 2, mode));
        }
        i = i + 1;
    }
}

/// Adds entries, the first in any case and the others as long as there are not too many.
fn add_more<'a>(
    out: &mut Vec<Candidate>,
    es: &Vec<TrieResult<'a>>,
    source: &str,
    level: u8,
    mode: DisplayMode,
    limit: usize,
)
    ensures
        candidate::cands(final(out)@) == with_more(
            candidate::cands(old(out)@),
            trie::views(es@),
            (Manner { source: source@, level, mode }),
            limit as int,
            es@.len() as int,
        ),
{
    let ghost s = candidate::cands(out@);
    let ghost ev = trie::views(es@);
    let ghost m = Manner { source: source@, level, mode };
    let mut i: usize = 0;
    while i < es.len()
        invariant
            i <= es.len(),
            ev == trie::views(es@),
            m == (Manner { source: source@, level, mode }),
            candidate::cands(out@) == with_more(s, ev, m, limit as int, i as int),
        decreases es.len() - i,
    {
        proof {
            assert(ev[i as int] == es@[i as int]@);
            assert(candidate::cands(out@).len() == out@.len());
        }
        if i == 0 || out.len() < limit {
            add_new(out, table_candidate(&es[i], source, level, mode));
        }
        i = i + 1;
    }
}

/// Adds all entries.
fn add_entries<'a>(
    out: &mut Vec<Candidate>,
    es: &Vec<TrieResult<'a>>,
    source: &str,
    level: u8,
    mode: DisplayMode,
)
    ensures
        candidate::cands(final(out)@) == with_entries(
            candidate::cands(old(out)@),
            trie::views(es@),
            (Manner { source: source@, level, mode }),
            es@.len() as int,
        ),
{
    let ghost s = candidate::cands(out@);
    let ghost ev = trie::views(es@);
    let ghost m = Manner { source: source@, level, mode };
    let mut i: usize = 0;
    while i < es.len()
        invariant
            i <= es.len(),
            ev == trie::views(es@),
            m == (Manner { source: source@, level, mode }),
            candidate::cands(out@) == with_entries(s, ev, m, i as int),
        decreases es.len() - i,
    {
        proof {
            assert(ev[i as int] == es@[i as int]@);
        }
        add_new(out, table_candidate(&es[i], source, level, mode));
        i = i + 1;
    }
}

/// Texts that stand for one another.
pub struct Variants {
    pub texts: Vec<String>,
}

impl View for Variants {
    type V = Seq<Seq<char>>;

    open spec fn view(&self) -> Seq<Seq<char>> {
        text::texts(self.texts@)
    }
}

/// The lists of variants.
pub open spec fn lists_of(v: Seq<Variants>) -> Seq<Seq<Seq<char>>> {
    v.map_values(|x: Variants| x@)
}

/// Searches fuzzy sounds, from the first syllable to the last.
struct FuzzyPinyinSearcher<'a, 'b> {
    trie: &'a Trie,
    per_seg: &'b Vec<Variants>,
    query: &'b str,
    mode: DisplayMode,
    limit: usize,
}

impl<'a, 'b> FuzzyPinyinSearcher<'a, 'b> {
    /// What is searched for.
    spec fn task(&self) -> Fuzzy {
        Fuzzy {
            t: self.trie@,
            lists: lists_of(self.per_seg@),
            query: self.query@,
            mode: self.mode,
            limit: self.limit as int,
        }
    }

    /// Adds what is found under the spellings that begin with letters.
    fn dfs(&self, depth: usize, letters: &str, out: &mut Vec<Candidate>)
        requires
            depth <= self.per_seg@.len(),
        ensures
            candidate::cands(final(out)@) == fuzzily(
                self.task(),
                depth as int,
                letters@,
                candidate::cands(old(out)@),
            ),
        decreases self.per_seg@.len() - depth,
    {
        let ghost f = self.task();
        let ghost s = candidate::cands(out@);
        proof {
            assert(candidate::cands(out@).len() == out@.len());
        }
        if out.len() >= self.limit {
            return ;
        }
        if depth == self.per_seg.len() {
            if same_text(letters, self.query) {
                return ;
            }
            if let Some(es) = self.trie.get_all_exact(letters) {
                add_few(out, &es, self.mode, self.limit);
            }
            return ;
        }
        let variants = &self.per_seg[depth].texts;
        let n = self.per_seg.len();
        let mut i: usize = 0;
        proof {
            assert(f.lists[depth as int] == self.per_seg@[depth as int]@);
        }
        while i < variants.len()
            invariant
                i <= variants.len(),
                depth < n,
                n == self.per_seg@.len(),
                f == self.task(),
                f.lists[depth as int] == text::texts(variants@),
                candidate::cands(out@) == fuzzily_over(
                    f,
                    depth as int,
                    letters@,
                    s,
                    i as int,
                ),
            decreases variants.len() - i,
        {
            let mut longer = letters.to_owned();
            longer.append(variants[i].as_str());
            proof {
                assert(f.lists[depth as int][i as int] == variants@[i as int]@);
            }
            if depth + 1 == n || self.trie.has_prefix(longer.as_str()) {
                self.dfs(depth + 1, longer.as_str(), out);
            }
            i = i + 1;
        }
    }

    /// Adds what is found.
    fn search(&self, out: &mut Vec<Candidate>)
        ensures
            candidate::cands(final(out)@) == fuzzily(
                self.task(),
                0,
                Seq::empty(),
                candidate::cands(old(out)@),
            ),
    {
        let none = String::new();
        proof {
            assert(none@ =~= Seq::<char>::empty());
        }
        self.dfs(0, none.as_str(), out);
    }
}

/// A translator that asks a dictionary, and what it found last.
pub struct TableTranslator<'a> {
    pub trie: &'a Trie,
    pub enable_abbreviation: bool,
    last_query: String,
    last_time: u64,
    cached_candidates: Vec<Candidate>,
    fuzzy_cache: StrMap<Variants>,
}

/// A translator that asks a dictionary, as texts.
pub struct Table {
    pub t: TrieView,
    pub abbreviates: bool,
    pub last_query: Seq<char>,
    pub last_time: u64,
    pub cached: Seq<Cand>,
    pub variants: Seq<(Seq<char>, Seq<Seq<char>>)>,
}

impl<'a> View for TableTranslator<'a> {
    type V = Table;

    closed spec fn view(&self) -> Table {
        Table {
            t: self.trie@,
            abbreviates: self.enable_abbreviation,
            last_query: self.last_query@,
            last_time: self.last_time,
            cached: candidate::cands(self.cached_candidates@),
            variants: self.fuzzy_cache@,
        }
    }
}

/// The variants of the first `n` syllables, with those that are kept: variants once found stay.
pub open spec fn variants_kept(
    kept: Seq<(Seq<char>, Seq<Seq<char>>)>,
    segs: Seq<Seq<char>>,
    f: FuzzyPinyinConfig,
    n: int,
) -> (Seq<(Seq<char>, Seq<Seq<char>>)>, Seq<Seq<Seq<char>>>)
    decreases n,
{
    if n <= 0 {
        (kept, Seq::empty())
    } else {
        let (k, l) = variants_kept(kept, segs, f, n - 1);
        match strmap::lookup(k, segs[n - 1]) {
            Some(v) => (k, l.push(v)),
            None => {
                let v = fuzzy::variants(f, segs[n - 1]);
                (strmap::put(k, segs[n - 1], v), l.push(v))
            },
        }
    }
}

/// Whether the word of a candidate begins with letters.
pub open spec fn beginning(query: Seq<char>) -> spec_fn(Cand) -> bool {
    |c: Cand| text::begins(c.simplified, query)
}

/// Whether syllables are an abbreviation: one of several is a single byte.
pub open spec fn abbreviates(segs: Seq<Seq<char>>) -> bool {
    segs.len() > 1 && exists|i: int|
        0 <= i < segs.len() && text::byte_len(#[trigger] segs[i]) == 1
}

impl Table {
    /// What is left of what was found last: that whose words begin with the letters.
    pub open spec fn reused(self, query: Seq<char>, limit: int) -> Seq<Cand> {
        let left = self.cached.filter(beginning(query));
        left.take(trie::least(left.len() as int, limit))
    }

    /// Whether what was found last is good for letters.
    pub open spec fn reuses(self, query: Seq<char>, limit: int, now: u64) -> bool {
        text::begins(query, self.last_query) && session_state::passed(now, self.last_time)
            < CACHE_TTL_MS && self.cached.filter(beginning(query)).len() > 0
    }

    /// What is found under the letters, and under fuzzy spellings of the syllables.
    pub open spec fn spelled(self, segs: Seq<Seq<char>>, config: Config, limit: int) -> Seq<Cand> {
        let query = segmentation::joined(segs);
        let mode = config.input.display_mode;
        let es = self.t.exact(query);
        let exact = with_entries(
            Seq::empty(),
            es,
            Manner { source: "Table (Exact)"@, level: 3, mode },
            es.len() as int,
        );
        if config.input.enable_fuzzy_pinyin {
            let lists = variants_kept(
                self.variants,
                segs,
                config.input.fuzzy_config,
                segs.len() as int,
            ).1;
            fuzzily(Fuzzy { t: self.t, lists, query, mode, limit }, 0, Seq::empty(), exact)
        } else {
            exact
        }
    }

    /// What is found for syllables: under the letters, under fuzzy spellings, and under keys that
    /// the syllables abbreviate or that begin with the letters.
    pub open spec fn found(self, segs: Seq<Seq<char>>, config: Config, limit: int) -> Seq<Cand> {
        let query = segmentation::joined(segs);
        let mode = config.input.display_mode;
        let first = self.spelled(segs, config, limit);
        if self.abbreviates && abbreviates(segs) && config.input.enable_abbreviation_matching {
            let es = self.t.abbreviation(segs);
            with_more(
                first,
                es,
                Manner { source: "Table (Abbr)"@, level: 2, mode },
                limit,
                es.len() as int,
            )
        } else {
            let es = self.t.bfs(query, limit, None);
            with_more(
                first,
                es,
                Manner { source: "Table"@, level: 1, mode },
                limit,
                es.len() as int,
            )
        }
    }

    /// With what was found kept.
    pub open spec fn keeping(self, segs: Seq<Seq<char>>, config: Config, limit: int, now: u64) -> Table {
        Table {
            last_query: segmentation::joined(segs),
            last_time: now,
            cached: self.found(segs, config, limit),
            variants: if config.input.enable_fuzzy_pinyin {
                variants_kept(
                    self.variants,
                    segs,
                    config.input.fuzzy_config,
                    segs.len() as int,
                ).0
            } else {
                self.variants
            },
            ..self
        }
    }

    /// What is found for syllables, and the translator after that.
    pub open spec fn translated(self, segs: Seq<Seq<char>>, config: Config, limit: int, now: u64) -> (
        Table,
        Seq<Cand>,
    ) {
        let query = segmentation::joined(segs);
        let most = trie::most(limit, MAX_LOOKUP_LIMIT as int);
        if segs.len() == 0 {
            (self, Seq::empty())
        } else if self.reuses(query, most, now) {
            (self, self.reused(query, most))
        } else {
            (self.keeping(segs, config, most, now), self.found(segs, config, most))
        }
    }
}

/// Some texts joined.
pub(crate) fn join_texts(v: &[String]) -> (r: String)
    ensures
        r@ == segmentation::joined(text::texts(v@)),
{
    let ghost s = text::texts(v@);
    let mut out = String::new();
    let mut i: usize = 0;
    proof {
        assert(s.take(0) =~= Seq::<Seq<char>>::empty());
        assert(out@ =~= segmentation::joined(s.take(0)));
    }
    while i < v.len()
        invariant
            i <= v@.len(),
            s == text::texts(v@),
            out@ == segmentation::joined(s.take(i as int)),
        decreases v@.len() - i,
    {
        out.append(v[i].as_str());
        proof {
            assert(s.take(i + 1).drop_last() =~= s.take(i as int));
            assert(s.take(i + 1).last() == v@[i as int]@);
        }
        i = i + 1;
    }
    proof {
        assert(s.take(s.len() as int) =~= s);
    }
    out
}

/// A copy of variants.
fn copy_variants(v: &Variants) -> (r: Variants)
    ensures
        r@ == v@,
{
    Variants { texts: crate::context::copy_texts(&v.texts) }
}

/// The variants of syllables, kept for the next time.
fn find_variants(kept: &mut StrMap<Variants>, segs: &[String], f: &FuzzyPinyinConfig) -> (r: Vec<
    Variants,
>)
    ensures
        (final(kept)@, lists_of(r@)) == variants_kept(
            old(kept)@,
            text::texts(segs@),
            *f,
            segs@.len() as int,
        ),
{
    let ghost k = kept@;
    let ghost s = text::texts(segs@);
    let mut out: Vec<Variants> = Vec::new();
    let mut i: usize = 0;
    proof {
        assert(lists_of(out@) =~= Seq::<Seq<Seq<char>>>::empty());
    }
    while i < segs.len()
        invariant
            i <= segs@.len(),
            s == text::texts(segs@),
            (kept@, lists_of(out@)) == variants_kept(k, s, *f, i as int),
        decreases segs@.len() - i,
    {
        let ghost was = lists_of(out@);
        proof {
            assert(s[i as int] == segs@[i as int]@);
        }
        let known = match kept.get(segs[i].as_str()) {
            Some(v) => Some(copy_variants(v)),
            None => None,
        };
        let v = match known {
            Some(v) => v,
            None => {
                let v = Variants { texts: fuzzy_variants_per_segment(segs[i].as_str(), f) };
                kept.insert(segs[i].clone(), copy_variants(&v));
                v
            },
        };
        out.push(v);
        proof {
            assert(lists_of(out@) =~= was.push(v@));
        }
        i = i + 1;
    }
    out
}

/// The candidates whose words begin with letters, not more than a limit.
fn keep_beginning(v: &Vec<Candidate>, query: &str, limit: usize) -> (r: Vec<Candidate>)
    ensures
        candidate::cands(r@) == ({
            let left = candidate::cands(v@).filter(beginning(query@));
            left.take(trie::least(left.len() as int, limit as int))
        }),
{
    let ghost s = candidate::cands(v@);
    let ghost p = beginning(query@);
    let mut out: Vec<Candidate> = Vec::new();
    let mut i: usize = 0;
    proof {
        reveal(Seq::filter);
        assert(candidate::cands(out@) =~= s.take(0).filter(p));
    }
    while i < v.len()
        invariant
            i <= v.len(),
            s == candidate::cands(v@),
            p == beginning(query@),
            candidate::cands(out@) == s.take(i as int).filter(p),
        decreases v.len() - i,
    {
        let ghost was = candidate::cands(out@);
        proof {
            reveal(Seq::filter);
            assert(s.take(i + 1).drop_last() =~= s.take(i as int));
            assert(s.take(i + 1).last() == v@[i as int]@);
        }
        if starts_with(v[i].simplified.as_str(), query) {
            let c = v[i].clone();
            out.push(c);
            proof {
                assert(candidate::cands(out@) =~= was.push(c@));
            }
        }
        i = i + 1;
    }
    let ghost all = candidate::cands(out@);
    proof {
        assert(s.take(s.len() as int) =~= s);
        assert(all.len() == out@.len());
    }
    if limit < out.len() {
        out.truncate(limit);
    }
    proof {
        assert(candidate::cands(out@) =~= all.take(trie::least(all.len() as int, limit as int)));
    }
    out
}

/// Whether syllables are an abbreviation.
fn is_abbreviation(segs: &[String]) -> (r: bool)
    ensures
        r == abbreviates(text::texts(segs@)),
{
    let ghost s = text::texts(segs@);
    if segs.len() <= 1 {
        return false;
    }
    let mut i: usize = 0;
    while i < segs.len()
        invariant
            i <= segs@.len(),
            segs@.len() > 1,
            s == text::texts(segs@),
            forall|k: int| 0 <= k < i ==> text::byte_len(#[trigger] s[k]) != 1,
        decreases segs@.len() - i,
    {
        proof {
            assert(s[i as int] == segs@[i as int]@);
        }
        if segs[i].as_str().as_bytes().len() == 1 {
            proof {
                assert(text::byte_len(s[i as int]) == 1);
            }
            return true;
        }
        i = i + 1;
    }
    false
}

impl<'a> TableTranslator<'a> {
    /// The dictionary that is asked.
    pub fn dictionary(&self) -> (r: &'a Trie)
        ensures
            r@ == self@.t,
    {
        self.trie
    }

    /// A translator that has found nothing yet.
    pub fn new(trie: &'a Trie, enable_abbreviation: bool, now: u64) -> (r: Self)
        ensures
            r@ == (Table {
                t: trie@,
                abbreviates: enable_abbreviation,
                last_query: Seq::empty(),
                last_time: now,
                cached: Seq::empty(),
                variants: Seq::empty(),
            }),
    {
        let r = TableTranslator {
            trie,
            enable_abbreviation,
            last_query: String::new(),
            last_time: now,
            cached_candidates: Vec::new(),
            fuzzy_cache: StrMap::new(),
        };
        proof {
            assert(r@.cached =~= Seq::<Cand>::empty());
            assert(r@.last_query =~= Seq::<char>::empty());
        }
        r
    }

    /// What is found under the letters, and under fuzzy spellings of the syllables.
    fn spell(&mut self, query: &str, segs: &[String], config: &Config, limit: usize) -> (r: Vec<
        Candidate,
    >)
        requires
            query@ == segmentation::joined(text::texts(segs@)),
        ensures
            candidate::cands(r@) == old(self)@.spelled(text::texts(segs@), *config, limit as int),
            final(self)@ == (Table {
                variants: if config.input.enable_fuzzy_pinyin {
                    variants_kept(
                        old(self)@.variants,
                        text::texts(segs@),
                        config.input.fuzzy_config,
                        segs@.len() as int,
                    ).0
                } else {
                    old(self)@.variants
                },
                ..old(self)@
            }),
    {
        let mode = config.input.display_mode;
        let mut out: Vec<Candidate> = Vec::new();
        proof {
            assert(candidate::cands(out@) =~= Seq::<Cand>::empty());
        }
        if let Some(es) = self.trie.get_all_exact(query) {
            add_entries(&mut out, &es, "Table (Exact)", 3, mode);
        }
        if config.input.enable_fuzzy_pinyin {
            let lists = find_variants(&mut self.fuzzy_cache, segs, &config.input.fuzzy_config);
            let searcher = FuzzyPinyinSearcher {
                trie: self.trie,
                per_seg: &lists,
                query,
                mode,
                limit,
            };
            searcher.search(&mut out);
        }
        out
    }

    /// The candidates for syllables.
    pub fn translate(&mut self, segments: &[String], config: &Config, limit: usize, now: u64) -> (r:
        Vec<Candidate>)
        ensures
            (final(self)@, candidate::cands(r@)) == old(self)@.translated(
                text::texts(segments@),
                *config,
                limit as int,
                now,
            ),
    {
        let none: Vec<Candidate> = Vec::new();
        proof {
            assert(candidate::cands(none@) =~= Seq::<Cand>::empty());
        }
        if segments.len() == 0 {
            return none;
        }
        let query = join_texts(segments);
        let most = if limit > MAX_LOOKUP_LIMIT {
            limit
        } else {
            MAX_LOOKUP_LIMIT
        };
        if starts_with(query.as_str(), self.last_query.as_str()) && (now <= self.last_time || now
            - self.last_time < CACHE_TTL_MS) {
            let left = keep_beginning(&self.cached_candidates, query.as_str(), most);
            proof {
                assert(candidate::cands(left@).len() == left@.len());
            }
            if left.len() > 0 {
                return left;
            }
        }
        let mode = config.input.display_mode;
        let mut out = self.spell(query.as_str(), segments, config, most);
        if self.enable_abbreviation && is_abbreviation(segments)
            && config.input.enable_abbreviation_matching {
            let es = self.trie.search_abbreviation(segments, most);
            add_more(&mut out, &es, "Table (Abbr)", 2, mode, most);
        } else {
            let es = self.trie.search_bfs(query.as_str(), most);
            add_more(&mut out, &es, "Table", 1, mode, most);
        }
        self.last_query = query;
        self.last_time = now;
        self.cached_candidates = copy_all(&out);
        out
    }
}

} // verus!
