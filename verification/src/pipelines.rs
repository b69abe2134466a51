//! The pipelines of profiles: how they are put together, searched, and which of them are kept.

use vstd::prelude::*;
use crate::action::FilterMode;
use crate::candidate;
use crate::candidate::{AdaptiveFilter, Cand, Candidate, MatchLevelScoringFilter, TraditionalFilter};
use crate::config;
use crate::config::{Config, EnglishAuxMode, Input};
use crate::engine;
use crate::engine::keep_fitting;
use crate::lookup::MAX_LOOKUP_LIMIT;
use crate::pipeline;
use crate::pipeline::{AnyFilter, Pipeline, Task, Translation, Translator};
use crate::segmentation;
use crate::segmentation::{DefaultSegmentor, Segmentor};
use crate::sentences::{ComposeTranslator, UserDictTranslator};
use crate::tables::{FreqTable, WordSet};
use crate::text;
use crate::text::same_text;
use crate::translators;
use crate::translators::TableTranslator;
use crate::trie;
use crate::trie::{Trie, TrieView};
use crate::userdict;
use crate::userdict::UserDictData;

verus! {

/// How many pipelines are kept.
pub const MAX_CACHED_PIPELINES: usize = 10;

/// The translators of a profile: the words of the user, the dictionary, and sentences.
pub open spec fn of_profile(
    t: TrieView,
    learned: userdict::UserWords,
    profile: Seq<char>,
    known: segmentation::Syllables,
    now: u64,
) -> Seq<Translation> {
    seq![
        Translation::User(learned, profile, Some(t)),
        Translation::Table(
            translators::Table {
                t,
                abbreviates: profile == "chinese"@,
                last_query: Seq::empty(),
                last_time: now,
                cached: Seq::empty(),
                variants: Seq::empty(),
            },
        ),
        Translation::Compose(t, known),
    ]
}

/// The pipeline of a profile: its candidates are scored by their match, then by what was typed
/// before, and shown in the form of the settings.
pub fn profile_pipeline<'a>(
    profile: &str,
    t: &'a Trie,
    learned_words: &'a UserDictData,
    ngram_history: &'a UserDictData,
    syllable_freq: &'a FreqTable,
    base_syllables: &'a WordSet,
    now: u64,
) -> (r: Pipeline<'a>)
    ensures
        pipeline::views(r.translators@) == of_profile(
            t@,
            learned_words@,
            profile@,
            segmentation::known(syllable_freq, base_syllables),
            now,
        ),
        r.filters@.len() == 3,
        r.filters@[0] is Match,
        r.filters@[1] matches AnyFilter::Adaptive(f) && f.ngram_history@ == ngram_history@
            && f.profile@ == profile@,
        r.filters@[2] is Form,
        r.syllable_freq@ == syllable_freq@,
        r.base_syllables@ == base_syllables@,
        r.segment_cache@.len() == 0,
{
    let mut p = Pipeline::new(syllable_freq, base_syllables);
    p.add_translator(
        Translator::User(
            UserDictTranslator {
                user_dict: learned_words,
                profile: profile.to_owned(),
                trie: Some(t),
            },
        ),
    );
    p.add_translator(
        Translator::Table(TableTranslator::new(t, same_text(profile, "chinese"), now)),
    );
    p.add_translator(
        Translator::Compose(ComposeTranslator::new(t, base_syllables, syllable_freq)),
    );
    p.add_filter(AnyFilter::Match(MatchLevelScoringFilter));
    p.add_filter(AnyFilter::Adaptive(AdaptiveFilter::new(ngram_history, profile.to_owned())));
    p.add_filter(AnyFilter::Form(TraditionalFilter));
    proof {
        let known = segmentation::known(syllable_freq, base_syllables);
        let want = of_profile(t@, learned_words@, profile@, known, now);
        let have = pipeline::views(p.translators@);
        assert(have.len() == 3);
        assert(have[0] == p.translators@[0]@);
        assert(have[1] == p.translators@[1]@);
        assert(have[2] == p.translators@[2]@);
        assert(have =~= want);
    }
    p
}

/// The dictionary of the first of some translators, from a place on, that asks one.
pub open spec fn asked(ts: Seq<Translation>, i: int) -> Option<TrieView>
    decreases ts.len() - i,
{
    if i < 0 || i >= ts.len() {
        None
    } else {
        match ts[i] {
            Translation::Table(t) => Some(t.t),
            _ => asked(ts, i + 1),
        }
    }
}

/// The dictionary that a pipeline asks.
pub fn get_trie_from_pipeline<'a>(p: &Pipeline<'a>) -> (r: Option<&'a Trie>)
    ensures
        match r {
            Some(t) => Some(t@),
            None => None,
        } == asked(pipeline::views(p.translators@), 0),
{
    let ghost ts = pipeline::views(p.translators@);
    let mut i: usize = 0;
    while i < p.translators.len()
        invariant
            i <= p.translators.len(),
            ts == pipeline::views(p.translators@),
            asked(ts, 0) == asked(ts, i as int),
        decreases p.translators.len() - i,
    {
        proof {
            assert(ts[i as int] == p.translators@[i as int]@);
        }
        if let Translator::Table(t) = &p.translators[i] {
            return Some(t.dictionary());
        }
        i = i + 1;
    }
    None
}

/// Settings with fuzzy sounds only where they are asked for.
fn settle_fuzzy(config: Config, fuzzy_enabled: bool) -> (r: Config)
    ensures
        r == config::with_fuzzy(config, fuzzy_enabled),
{
    let fuzzy = config.input.enable_fuzzy_pinyin && fuzzy_enabled;
    Config { input: Input { enable_fuzzy_pinyin: fuzzy, ..config.input }, ..config }
}

/// What a pipeline is asked.
pub struct PipelineQuery<'a> {
    pub buffer: &'a str,
    pub syllables: &'a WordSet,
    pub config: Config,
    pub limit: usize,
    pub filter_mode: FilterMode,
    pub aux_filter: &'a str,
    pub context: Option<&'a str>,
    pub context_pair: Option<(&'a str, &'a str)>,
    pub fuzzy_enabled: bool,
}

/// How many candidates are searched for: many where a code narrows them down.
pub open spec fn searched_for(aux: Seq<char>, limit: int) -> int {
    if aux.len() > 0 {
        MAX_LOOKUP_LIMIT as int
    } else {
        limit
    }
}

/// The candidates that are left of those of a pipeline.
pub open spec fn left_of(
    s: Seq<Cand>,
    mode: FilterMode,
    aux: Seq<char>,
    english: EnglishAuxMode,
    limit: int,
) -> Seq<Cand> {
    let fit = if mode == FilterMode::Global && aux.len() > 0 {
        s.filter(engine::fitting(aux, english))
    } else {
        s
    };
    fit.take(trie::least(limit, fit.len() as int))
}

/// What a pipeline comes up with for an input.
pub open spec fn run_by<'a>(
    p: Pipeline<'a>,
    v: candidate::FilterView,
    limit: int,
    now: u64,
) -> Seq<Cand> {
    let segs = pipeline::syllables_of(
        p.segment_cache@,
        segmentation::known(p.syllable_freq, p.base_syllables),
        v.input,
        v.config.input.segmentation_delimiters@,
    );
    let once = pipeline::each_once(
        pipeline::translated_by(
            pipeline::views(p.translators@),
            Task { input: v.input, segs, config: v.config, limit, now },
            p.translators@.len() as int,
        ).1,
    );
    pipeline::filtered_by(
        p.filters@,
        once.take(trie::least(once.len() as int, pipeline::MAX_FILTERED as int)),
        v,
        p.filters@.len() as int,
    )
}

/// What is found for a query without a scheme: candidates, and the pieces of the input.
pub fn search_pipeline<'a, 'b>(p: &mut Pipeline<'a>, query: PipelineQuery<'b>, now: u64) -> (r: (
    Vec<Candidate>,
    Vec<String>,
))
    ensures
        ({
            let config = config::with_fuzzy(query.config, query.fuzzy_enabled);
            let all = run_by(
                *old(p),
                candidate::looked_at(query.buffer, &config, query.context, query.context_pair),
                searched_for(query.aux_filter@, query.limit as int),
                now,
            );
            let known = segmentation::known(old(p).syllable_freq, old(p).base_syllables);
            let marks = config.input.segmentation_delimiters@;
            let segs = pipeline::syllables_of(old(p).segment_cache@, known, query.buffer@, marks);
            &&& candidate::cands(r.0@) == left_of(
                all,
                query.filter_mode,
                query.aux_filter@,
                config.input.english_aux_mode,
                query.limit as int,
            )
            &&& text::texts(r.1@) == segmentation::segmented(known, query.buffer@, marks)
            &&& pipeline::views(final(p).translators@) == pipeline::translated_by(
                pipeline::views(old(p).translators@),
                Task {
                    input: query.buffer@,
                    segs,
                    config,
                    limit: searched_for(query.aux_filter@, query.limit as int),
                    now,
                },
                old(p).translators@.len() as int,
            ).0
            &&& final(p).segment_cache@ == pipeline::kept_after(
                old(p).segment_cache@,
                query.buffer@,
                segs,
            )
        }),
        final(p).filters == old(p).filters,
        final(p).syllable_freq == old(p).syllable_freq,
        final(p).base_syllables == old(p).base_syllables,
{
    let config = settle_fuzzy(query.config, query.fuzzy_enabled);
    let narrowed = !same_text(query.aux_filter, "");
    proof {
        reveal_strlit("");
        assert(""@.len() == 0);
        if query.aux_filter@.len() == 0 {
            assert(query.aux_filter@ =~= ""@);
        }
    }
    let limit = if narrowed {
        MAX_LOOKUP_LIMIT
    } else {
        query.limit
    };
    let found = p.run(
        query.buffer,
        query.syllables,
        &config,
        limit,
        query.context,
        query.context_pair,
        now,
    );
    let segs = DefaultSegmentor.segment(
        query.buffer,
        query.syllables,
        config.input.segmentation_delimiters.as_str(),
        p.syllable_freq,
        p.base_syllables,
    );
    let mut kept = if query.filter_mode == FilterMode::Global && narrowed {
        keep_fitting(found, query.aux_filter, config.input.english_aux_mode)
    } else {
        found
    };
    let ghost all = candidate::cands(kept@);
    if query.limit < kept.len() {
        kept.truncate(query.limit);
    }
    proof {
        assert(candidate::cands(kept@) =~= all.take(
            trie::least(query.limit as int, all.len() as int),
        ));
    }
    (kept, segs)
}

/// A list without the first place of a text.
pub open spec fn without(l: Seq<Seq<char>>, x: Seq<char>) -> Seq<Seq<char>>
    decreases l.len(),
{
    if l.len() == 0 {
        l
    } else if l[0] == x {
        l.drop_first()
    } else {
        seq![l[0]] + without(l.drop_first(), x)
    }
}

/// The profiles in the order of their use after one was used, and the one that is given up for
/// it: the one that was used the longest ago, where there is no place.
pub open spec fn used(l: Seq<Seq<char>>, x: Seq<char>) -> (Seq<Seq<char>>, Option<Seq<char>>) {
    if l.contains(x) {
        (without(l, x).push(x), None)
    } else if l.len() >= MAX_CACHED_PIPELINES {
        (l.drop_first().push(x), Some(l[0]))
    } else {
        (l.push(x), None)
    }
}

/// The profiles whose pipelines are kept, in the order of their use.
pub struct Recency {
    order: Vec<String>,
}

impl View for Recency {
    type V = Seq<Seq<char>>;

    closed spec fn view(&self) -> Seq<Seq<char>> {
        text::texts(self.order@)
    }
}

impl Recency {
    /// No profiles.
    pub fn new() -> (r: Self)
        ensures
            r@ == Seq::<Seq<char>>::empty(),
    {
        let r = Recency { order: Vec::new() };
        proof {
            assert(r@ =~= Seq::<Seq<char>>::empty());
        }
        r
    }

    /// Whether a pipeline is kept.
    pub fn contains(&self, profile: &str) -> (r: bool)
        ensures
            r == self@.contains(profile@),
    {
        let mut i: usize = 0;
        while i < self.order.len()
            invariant
                i <= self.order.len(),
                forall|k: int| 0 <= k < i ==> #[trigger] self@[k] != profile@,
            decreases self.order.len() - i,
        {
            proof {
                assert(self@[i as int] == self.order@[i as int]@);
            }
            if same_text(self.order[i].as_str(), profile) {
                return true;
            }
            i = i + 1;
        }
        false
    }

    /// Uses a pipeline. The one that is given up for it is handed back.
    pub fn touch(&mut self, profile: &str) -> (r: Option<String>)
        ensures
            final(self)@ == used(old(self)@, profile@).0,
            match r {
                Some(p) => Some(p@),
                None => None,
            } == used(old(self)@, profile@).1,
    {
        let ghost l = self@;
        let mut i: usize = 0;
        while i < self.order.len()
            invariant
                i <= self.order.len(),
                l == self@,
                l == old(self)@,
                l.len() == self.order@.len(),
                forall|k: int| 0 <= k < i ==> #[trigger] l[k] != profile@,
            decreases self.order.len() - i,
        {
            proof {
                assert(l[i as int] == self.order@[i as int]@);
            }
            if same_text(self.order[i].as_str(), profile) {
                proof {
                    assert(l.contains(profile@));
                }
                let _ = self.order.remove(i);
                self.order.push(profile.to_owned());
                proof {
                    lemma_without(l, profile@, i as int);
                    assert(self@ =~= l.remove(i as int).push(profile@));
                }
                return None;
            }
            i = i + 1;
        }
        let gone = if self.order.len() >= MAX_CACHED_PIPELINES {
            let ghost o = self.order@;
            let p = self.order.remove(0);
            proof {
                assert(o[0]@ == l[0]);
                assert(self@ =~= l.drop_first());
            }
            Some(p)
        } else {
            None
        };
        let ghost m = self@;
        self.order.push(profile.to_owned());
        proof {
            assert(self@ =~= m.push(profile@));
        }
        gone
    }
}

/// A list without the first place of a text.
proof fn lemma_without(l: Seq<Seq<char>>, x: Seq<char>, i: int)
    requires
        0 <= i < l.len(),
        l[i] == x,
        forall|k: int| 0 <= k < i ==> #[trigger] l[k] != x,
    ensures
        without(l, x) == l.remove(i),
    decreases l.len(),
{
    if i > 0 {
        let d = l.drop_first();
        assert(l[0] != x);
        assert forall|k: int| 0 <= k < i - 1 implies #[trigger] d[k] != x by {
            assert(d[k] == l[k + 1]);
        }
        lemma_without(d, x, i - 1);
        assert(seq![l[0]] + d.remove(i - 1) =~= l.remove(i));
    } else {
        assert(l.drop_first() =~= l.remove(0));
    }
}

/// No more pipelines are kept than there is place for, none of them twice, and the one that was
/// used last is the last to be given up.
pub proof fn law_kept_pipelines_are_bounded(l: Seq<Seq<char>>, x: Seq<char>)
    requires
        l.len() <= MAX_CACHED_PIPELINES,
        l.no_duplicates(),
    ensures
        used(l, x).0.len() <= MAX_CACHED_PIPELINES,
        used(l, x).0.no_duplicates(),
        used(l, x).0.last() == x,
        forall|y: Seq<char>|
            l.contains(y) && used(l, x).1 != Some(y) ==> #[trigger] used(l, x).0.contains(y),
{
    let (m, gone) = used(l, x);
    if l.contains(x) {
        let i = choose|i: int| 0 <= i < l.len() && l[i] == x;
        lemma_without(l, x, i);
        let r = l.remove(i);
        assert(m == r.push(x));
        assert forall|a: int, b: int| 0 <= a < m.len() && 0 <= b < m.len() && a != b implies m[a]
            != m[b] by {
            let p = if a < i { a } else { a + 1 };
            let q = if b < i { b } else { b + 1 };
            if a < r.len() {
                assert(m[a] == l[p]);
            }
            if b < r.len() {
                assert(m[b] == l[q]);
            }
        }
        assert forall|y: Seq<char>| l.contains(y) implies #[trigger] m.contains(y) by {
            let k = choose|k: int| 0 <= k < l.len() && l[k] == y;
            if k == i {
                assert(m[m.len() - 1] == y);
            } else {
                let p = if k < i { k } else { k - 1 };
                assert(m[p] == y);
            }
        }
    } else if l.len() >= MAX_CACHED_PIPELINES {
        assert forall|a: int, b: int| 0 <= a < m.len() && 0 <= b < m.len() && a != b implies m[a]
            != m[b] by {
            if a < m.len() - 1 {
                assert(m[a] == l[a + 1]);
            }
            if b < m.len() - 1 {
                assert(m[b] == l[b + 1]);
            }
        }
        assert forall|y: Seq<char>| l.contains(y) && gone != Some(y) implies #[trigger] m.contains(
            y,
        ) by {
            let k = choose|k: int| 0 <= k < l.len() && l[k] == y;
            assert(m[k - 1] == y);
        }
    } else {
        assert forall|y: Seq<char>| l.contains(y) implies #[trigger] m.contains(y) by {
            let k = choose|k: int| 0 <= k < l.len() && l[k] == y;
            assert(m[k] == y);
        }
    }
}

} // verus!
