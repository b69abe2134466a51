//! A pipeline: letters cut into syllables, translated to candidates, and filtered.

use vstd::prelude::*;
use crate::candidate;
use crate::candidate::{AdaptiveFilter, Cand, Candidate, Filter, FilterView, MatchLevelScoringFilter, TraditionalFilter};
use crate::config::Config;
use crate::context::copy_texts;
use crate::segmentation;
use crate::segmentation::{DefaultSegmentor, Segmentor};
use crate::sentences;
use crate::sentences::{ComposeTranslator, UserDictTranslator};
use crate::strmap;
use crate::strmap::StrMap;
use crate::tables::{FreqTable, WordSet};
use crate::text;
use crate::text::same_text;
use crate::translators;
use crate::translators::{TableTranslator, Variants};
use crate::trie;
use crate::trie::TrieView;
use crate::userdict;

verus! {

/// How many inputs keep their syllables.
pub const MAX_SEGMENTED: usize = 100;

/// How many candidates are filtered.
pub const MAX_FILTERED: usize = 200;

/// A translator.
pub enum Translator<'a> {
    User(UserDictTranslator<'a>),
    Table(TableTranslator<'a>),
    Compose(ComposeTranslator<'a>),
}

/// A translator, as texts.
pub enum Translation {
    User(userdict::UserWords, Seq<char>, Option<TrieView>),
    Table(translators::Table),
    Compose(TrieView, segmentation::Syllables),
}

impl<'a> View for Translator<'a> {
    type V = Translation;

    open spec fn view(&self) -> Translation {
        match self {
            Translator::User(u) => Translation::User(
                u.user_dict@,
                u.profile@,
                sentences::opt_trie(u.trie),
            ),
            Translator::Table(t) => Translation::Table(t@),
            Translator::Compose(c) => Translation::Compose(
                c.trie@,
                segmentation::known(c.syllable_freq, c.base_syllables),
            ),
        }
    }
}

/// What is translated.
pub struct Task {
    pub input: Seq<char>,
    pub segs: Seq<Seq<char>>,
    pub config: Config,
    pub limit: int,
    pub now: u64,
}

impl Translation {
    /// The candidates, and the translator after that.
    pub open spec fn translated(self, k: Task) -> (Translation, Seq<Cand>) {
        match self {
            Translation::User(d, p, t) => (
                self,
                sentences::user_words(d, p, t, segmentation::joined(k.segs)),
            ),
            Translation::Table(t) => {
                let (u, s) = t.translated(k.segs, k.config, k.limit, k.now);
                (Translation::Table(u), s)
            },
            Translation::Compose(t, y) => (
                self,
                sentences::put_together(
                    t,
                    y,
                    k.input,
                    k.config.options.auto_sentence_min_syllables,
                ),
            ),
        }
    }
}

impl<'a> Translator<'a> {
    /// The candidates for an input and its syllables.
    pub fn translate(
        &mut self,
        input: &str,
        segments: &[String],
        config: &Config,
        limit: usize,
        now: u64,
    ) -> (r: Vec<Candidate>)
        ensures
            (final(self)@, candidate::cands(r@)) == old(self)@.translated(
                Task {
                    input: input@,
                    segs: text::texts(segments@),
                    config: *config,
                    limit: limit as int,
                    now,
                },
            ),
    {
        match self {
            Translator::User(u) => u.translate(segments),
            Translator::Table(t) => t.translate(segments, config, limit, now),
            Translator::Compose(c) => c.translate(input, config),
        }
    }
}

/// A filter of a pipeline.
pub enum AnyFilter<'a> {
    Match(MatchLevelScoringFilter),
    Adaptive(AdaptiveFilter<'a>),
    Form(TraditionalFilter),
}

impl<'a> Filter for AnyFilter<'a> {
    open spec fn filtered(&self, s: Seq<Cand>, v: FilterView) -> Seq<Cand> {
        match self {
            AnyFilter::Match(f) => f.filtered(s, v),
            AnyFilter::Adaptive(f) => f.filtered(s, v),
            AnyFilter::Form(f) => f.filtered(s, v),
        }
    }

    fn filter(
        &self,
        input: &str,
        candidates: Vec<Candidate>,
        config: &Config,
        context: Option<&str>,
        context_pair: Option<(&str, &str)>,
    ) -> (r: Vec<Candidate>) {
        match self {
            AnyFilter::Match(f) => f.filter(input, candidates, config, context, context_pair),
            AnyFilter::Adaptive(f) => f.filter(input, candidates, config, context, context_pair),
            AnyFilter::Form(f) => f.filter(input, candidates, config, context, context_pair),
        }
    }
}

/// The candidates of the first `n` translators, and the translators after that.
pub open spec fn translated_by(ts: Seq<Translation>, k: Task, n: int) -> (Seq<Translation>, Seq<Cand>)
    decreases n,
{
    if n <= 0 {
        (ts, Seq::empty())
    } else {
        let (us, s) = translated_by(ts, k, n - 1);
        let (u, c) = ts[n - 1].translated(k);
        (us.update(n - 1, u), s + c)
    }
}

/// Whether a text is among candidates.
pub open spec fn shows(s: Seq<Cand>, x: Seq<char>) -> bool {
    exists|i: int| 0 <= i < s.len() && (#[trigger] s[i]).text == x
}

/// The candidates whose text is not shown by one before.
pub open spec fn each_once(s: Seq<Cand>) -> Seq<Cand>
    decreases s.len(),
{
    if s.len() == 0 {
        s
    } else {
        let before = each_once(s.drop_last());
        if shows(before, s.last().text) {
            before
        } else {
            before.push(s.last())
        }
    }
}

/// The candidates behind the first `n` filters.
pub open spec fn filtered_by<'a>(fs: Seq<AnyFilter<'a>>, s: Seq<Cand>, v: FilterView, n: int) -> Seq<
    Cand,
>
    decreases n,
{
    if n <= 0 {
        s
    } else {
        fs[n - 1].filtered(filtered_by(fs, s, v, n - 1), v)
    }
}

/// The views of translators.
pub open spec fn views<'a>(v: Seq<Translator<'a>>) -> Seq<Translation> {
    v.map_values(|t: Translator<'a>| t@)
}

/// A pipeline.
pub struct Pipeline<'a> {
    pub translators: Vec<Translator<'a>>,
    pub filters: Vec<AnyFilter<'a>>,
    pub syllable_freq: &'a FreqTable,
    pub base_syllables: &'a WordSet,
    pub segment_cache: StrMap<Variants>,
}

/// The syllables of an input: those that are kept, or those that it is cut into.
pub open spec fn syllables_of(
    kept: Seq<(Seq<char>, Seq<Seq<char>>)>,
    k: segmentation::Syllables,
    input: Seq<char>,
    delimiters: Seq<char>,
) -> Seq<Seq<char>> {
    match strmap::lookup(kept, input) {
        Some(v) => v,
        None => segmentation::segmented(k, input, delimiters),
    }
}

/// The syllables that are kept once an input has been cut.
pub open spec fn kept_after(
    kept: Seq<(Seq<char>, Seq<Seq<char>>)>,
    input: Seq<char>,
    segs: Seq<Seq<char>>,
) -> Seq<(Seq<char>, Seq<Seq<char>>)> {
    if strmap::lookup(kept, input) is None && kept.len() < MAX_SEGMENTED {
        strmap::put(kept, input, segs)
    } else {
        kept
    }
}

/// Adds a candidate unless its text is shown.
fn add_unless_shown(out: &mut Vec<Candidate>, c: Candidate)
    ensures
        candidate::cands(final(out)@) == (if shows(candidate::cands(old(out)@), c@.text) {
            candidate::cands(old(out)@)
        } else {
            candidate::cands(old(out)@).push(c@)
        }),
{
    let ghost s = candidate::cands(out@);
    let mut i: usize = 0;
    while i < out.len()
        invariant
            i <= out.len(),
            out@ == old(out)@,
            s == candidate::cands(out@),
            forall|k: int| 0 <= k < i ==> (#[trigger] s[k]).text != c@.text,
        decreases out.len() - i,
    {
        proof {
            assert(s[i as int] == out@[i as int]@);
        }
        if same_text(out[i].text.as_str(), c.text.as_str()) {
            proof {
                assert(shows(s, c@.text));
            }
            return ;
        }
        i = i + 1;
    }
    out.push(c);
    proof {
        assert(candidate::cands(out@) =~= s.push(c@));
    }
}

/// The candidates whose text is not shown by one before.
fn drop_repeats(v: &Vec<Candidate>) -> (r: Vec<Candidate>)
    ensures
        candidate::cands(r@) == each_once(candidate::cands(v@)),
{
    let ghost s = candidate::cands(v@);
    let mut out: Vec<Candidate> = Vec::new();
    let mut i: usize = 0;
    proof {
        assert(candidate::cands(out@) =~= each_once(s.take(0)));
    }
    while i < v.len()
        invariant
            i <= v.len(),
            s == candidate::cands(v@),
            candidate::cands(out@) == each_once(s.take(i as int)),
        decreases v.len() - i,
    {
        proof {
            assert(s.take(i + 1).drop_last() =~= s.take(i as int));
            assert(s.take(i + 1).last() == v@[i as int]@);
        }
        add_unless_shown(&mut out, v[i].clone());
        i = i + 1;
    }
    proof {
        assert(s.take(s.len() as int) =~= s);
    }
    out
}

impl<'a> Pipeline<'a> {
    /// A pipeline without translators and filters.
    pub fn new(syllable_freq: &'a FreqTable, base_syllables: &'a WordSet) -> (r: Self)
        ensures
            r.translators@.len() == 0,
            r.filters@.len() == 0,
            r.syllable_freq@ == syllable_freq@,
            r.base_syllables@ == base_syllables@,
            r.segment_cache@.len() == 0,
    {
        Pipeline {
            translators: Vec::new(),
            filters: Vec::new(),
            syllable_freq,
            base_syllables,
            segment_cache: StrMap::new(),
        }
    }

    /// Adds a translator.
    pub fn add_translator(&mut self, t: Translator<'a>)
        ensures
            *final(self) == (Pipeline { translators: final(self).translators, ..*old(self) }),
            final(self).translators@ == old(self).translators@.push(t),
    {
        self.translators.push(t);
    }

    /// Adds a filter.
    pub fn add_filter(&mut self, f: AnyFilter<'a>)
        ensures
            *final(self) == (Pipeline { filters: final(self).filters, ..*old(self) }),
            final(self).filters@ == old(self).filters@.push(f),
    {
        self.filters.push(f);
    }

    /// The syllables of an input, kept for the next time.
    fn cut(&mut self, input: &str, syllables: &WordSet, delimiters: &str) -> (r: Vec<String>)
        ensures
            text::texts(r@) == syllables_of(
                old(self).segment_cache@,
                segmentation::known(old(self).syllable_freq, old(self).base_syllables),
                input@,
                delimiters@,
            ),
            final(self).segment_cache@ == kept_after(
                old(self).segment_cache@,
                input@,
                text::texts(r@),
            ),
            *final(self) == (Pipeline { segment_cache: final(self).segment_cache, ..*old(self) }),
    {
        if let Some(v) = self.segment_cache.get(input) {
            return copy_texts(&v.texts);
        }
        let segs = DefaultSegmentor.segment(
            input,
            syllables,
            delimiters,
            self.syllable_freq,
            self.base_syllables,
        );
        if self.segment_cache.len() < MAX_SEGMENTED {
            self.segment_cache.insert(input.to_owned(), Variants { texts: copy_texts(&segs) });
        }
        segs
    }

    /// The candidates of all translators.
    fn translate(&mut self, input: &str, segs: &[String], config: &Config, limit: usize, now: u64) -> (r:
        Vec<Candidate>)
        ensures
            (views(final(self).translators@), candidate::cands(r@)) == translated_by(
                views(old(self).translators@),
                Task {
                    input: input@,
                    segs: text::texts(segs@),
                    config: *config,
                    limit: limit as int,
                    now,
                },
                old(self).translators@.len() as int,
            ),
            *final(self) == (Pipeline { translators: final(self).translators, ..*old(self) }),
    {
        let ghost k = Task {
            input: input@,
            segs: text::texts(segs@),
            config: *config,
            limit: limit as int,
            now,
        };
        let ghost ts = views(self.translators@);
        let ghost start = *self;
        let mut out: Vec<Candidate> = Vec::new();
        let mut i: usize = 0;
        proof {
            assert(candidate::cands(out@) =~= Seq::<Cand>::empty());
        }
        while i < self.translators.len()
            invariant
                i <= self.translators.len(),
                self.translators@.len() == ts.len(),
                *self == (Pipeline { translators: self.translators, ..start }),
                k == (Task {
                    input: input@,
                    segs: text::texts(segs@),
                    config: *config,
                    limit: limit as int,
                    now,
                }),
                (views(self.translators@), candidate::cands(out@)) == translated_by(
                    ts,
                    k,
                    i as int,
                ),
                forall|j: int| i <= j < ts.len() ==> views(self.translators@)[j] == ts[j],
            decreases self.translators.len() - i,
        {
            let ghost us = views(self.translators@);
            let ghost was = candidate::cands(out@);
            proof {
                assert(us[i as int] == self.translators@[i as int]@);
            }
            let t = &mut self.translators[i];
            let mut found = t.translate(input, segs, config, limit, now);
            let ghost c = candidate::cands(found@);
            out.append(&mut found);
            proof {
                assert(candidate::cands(out@) =~= was + c);
                assert(views(self.translators@) =~= us.update(
                    i as int,
                    self.translators@[i as int]@,
                ));
            }
            i = i + 1;
        }
        out
    }

    /// The candidates behind all filters.
    fn filter(
        &self,
        input: &str,
        candidates: Vec<Candidate>,
        config: &Config,
        context: Option<&str>,
        context_pair: Option<(&str, &str)>,
    ) -> (r: Vec<Candidate>)
        ensures
            candidate::cands(r@) == filtered_by(
                self.filters@,
                candidate::cands(candidates@),
                candidate::looked_at(input, config, context, context_pair),
                self.filters@.len() as int,
            ),
    {
        let ghost s = candidate::cands(candidates@);
        let ghost v = candidate::looked_at(input, config, context, context_pair);
        let mut out = candidates;
        let mut i: usize = 0;
        while i < self.filters.len()
            invariant
                i <= self.filters.len(),
                v == candidate::looked_at(input, config, context, context_pair),
                candidate::cands(out@) == filtered_by(self.filters@, s, v, i as int),
            decreases self.filters.len() - i,
        {
            out = self.filters[i].filter(input, out, config, context, context_pair);
            i = i + 1;
        }
        out
    }

    /// The candidates for an input.
    pub fn run(
        &mut self,
        input: &str,
        syllables: &WordSet,
        config: &Config,
        limit: usize,
        context: Option<&str>,
        context_pair: Option<(&str, &str)>,
        now: u64,
    ) -> (r: Vec<Candidate>)
        ensures
            ({
                let segs = syllables_of(
                    old(self).segment_cache@,
                    segmentation::known(old(self).syllable_freq, old(self).base_syllables),
                    input@,
                    config.input.segmentation_delimiters@,
                );
                let (ts, s) = translated_by(
                    views(old(self).translators@),
                    Task { input: input@, segs, config: *config, limit: limit as int, now },
                    old(self).translators@.len() as int,
                );
                let once = each_once(s);
                &&& views(final(self).translators@) == ts
                &&& final(self).segment_cache@ == kept_after(
                    old(self).segment_cache@,
                    input@,
                    segs,
                )
                &&& final(self).filters == old(self).filters
                &&& final(self).syllable_freq == old(self).syllable_freq
                &&& final(self).base_syllables == old(self).base_syllables
                &&& candidate::cands(r@) == filtered_by(
                    old(self).filters@,
                    once.take(trie::least(once.len() as int, MAX_FILTERED as int)),
                    candidate::looked_at(input, config, context, context_pair),
                    old(self).filters@.len() as int,
                )
            }),
    {
        let segs = self.cut(input, syllables, config.input.segmentation_delimiters.as_str());
        let found = self.translate(input, segs.as_slice(), config, limit, now);
        let mut once = drop_repeats(&found);
        let ghost all = candidate::cands(once@);
        proof {
            assert(all.len() == once@.len());
        }
        if MAX_FILTERED < once.len() {
            once.truncate(MAX_FILTERED);
        }
        proof {
            assert(candidate::cands(once@) =~= all.take(
                trie::least(all.len() as int, MAX_FILTERED as int),
            ));
        }
        self.filter(input, once, config, context, context_pair)
    }
}

/// No text is shown twice.
pub proof fn law_texts_are_shown_once(s: Seq<Cand>)
    ensures
        forall|i: int, j: int|
            0 <= i < j < each_once(s).len() ==> (#[trigger] each_once(s)[i]).text != (
            #[trigger] each_once(s)[j]).text,
        forall|i: int| 0 <= i < s.len() ==> shows(each_once(s), (#[trigger] s[i]).text),
    decreases s.len(),
{
    if s.len() > 0 {
        law_texts_are_shown_once(s.drop_last());
        let before = each_once(s.drop_last());
        let all = each_once(s);
        if !shows(before, s.last().text) {
            assert forall|i: int, j: int| 0 <= i < j < all.len() implies (#[trigger] all[i]).text != (
            #[trigger] all[j]).text by {
                assert(all[i] == before[i]);
                if j < before.len() {
                    assert(all[j] == before[j]);
                }
            }
        }
        assert forall|i: int| 0 <= i < s.len() implies shows(all, (#[trigger] s[i]).text) by {
            if i < s.len() - 1 {
                assert(s.drop_last()[i] == s[i]);
                assert(shows(before, s[i].text));
                let k = choose|k: int| 0 <= k < before.len() && (#[trigger] before[k]).text == s[i].text;
                assert(all[k] == before[k]);
            } else if !shows(before, s.last().text) {
                assert(all[before.len() as int] == s.last());
            } else {
                assert(all == before);
            }
        }
    }
}

} // verus!
