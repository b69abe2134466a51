//! Learning from the words that are put out.

use vstd::prelude::*;
use crate::chinese;
use crate::config_manager::{ConfigManager, Store};
use crate::context::{EngineContext, World};
use crate::engine::{EngineView, SearchEngine};
use crate::memory;
use crate::memory::update_mru;
use crate::session::is_blank;
use crate::text::{char_in, char_string, chars_of, same_text};
use crate::trie;
use crate::trie::{Trie, TrieView};

verus! {

/// The characters that a word to be learned neither begins nor ends with.
pub open spec fn stopwords() -> Seq<char> {
    "的了和是在有而及与或之为其于以到等说着也就都吧呢吗啊呀让把给被"@
}

/// Whether a word begins or ends with a stop word. A word without characters counts as a
/// blank.
pub open spec fn at_stopword(w: Seq<char>) -> bool {
    let first = if w.len() > 0 {
        w[0]
    } else {
        ' '
    };
    let last = if w.len() > 0 {
        w.last()
    } else {
        ' '
    };
    stopwords().contains(first) || stopwords().contains(last)
}

/// The keys of the first `n` characters of a word, joined; none where a character has no key.
pub open spec fn spelled_out(t: TrieView, w: Seq<char>, n: int) -> Option<Seq<char>>
    decreases n,
{
    if n <= 0 {
        Some(Seq::empty())
    } else {
        match spelled_out(t, w, n - 1) {
            Some(s) => if t.word_pinyin().contains_key(seq![w[n - 1]]) {
                Some(s + t.word_pinyin()[seq![w[n - 1]]])
            } else {
                None
            },
            None => None,
        }
    }
}

/// The key of a word: that of the dictionary, else those of its characters, else what was
/// typed.
pub open spec fn key_of(t: Option<TrieView>, w: Seq<char>, typed: Seq<char>) -> Seq<char> {
    match t {
        None => typed,
        Some(t) => if t.word_pinyin().contains_key(w) {
            t.word_pinyin()[w]
        } else {
            match spelled_out(t, w, w.len() as int) {
                Some(s) => if s.len() > 0 {
                    s
                } else {
                    typed
                },
                None => typed,
            }
        },
    }
}

/// A use: what was typed, the word, where it came from, the word before, and when.
pub struct Use {
    pub typed: Seq<char>,
    pub word: Seq<char>,
    pub source: Seq<char>,
    pub context: Option<Seq<char>>,
    pub now: u64,
}

/// What is kept once the order of use and what follows what have been noted.
pub open spec fn ordered(s: Store, profile: Seq<char>, u: Use) -> Store {
    if s.config.input.enable_auto_reorder {
        let s1 = if u.typed.len() > 0 {
            s.with_used(profile, u.word)
        } else {
            s
        };
        match u.context {
            Some(c) => {
                let l = memory::used(
                    memory::words_or_none(memory::profile_or_none(s1.ngram, profile), c),
                    u.word,
                    false,
                );
                Store {
                    ngram: memory::with_words(s1.ngram, profile, c, l),
                    ..s1
                }.with_ngram(profile, c, l, u.now)
            },
            None => s1,
        }
    } else {
        s
    }
}

/// Whether a word is to be learned: it is new, longer than a character, has a key with a
/// vowel, and was not put together.
pub open spec fn to_learn(s: Store, e: EngineView, profile: Seq<char>, u: Use) -> bool {
    &&& s.config.input.enable_word_discovery
    &&& chinese::has_vowel(key_of(e.trie(profile), u.word, u.typed))
    &&& u.word.len() > 1
    &&& !e.has_word(profile, u.word)
    &&& u.source != "Compose"@
    &&& u.source != "Table (Abbr)"@
}

/// What is kept once a new word has been learned.
pub open spec fn learned(s: Store, e: EngineView, profile: Seq<char>, u: Use) -> Store {
    if to_learn(s, e, profile, u) {
        let key = key_of(e.trie(profile), u.word, u.typed);
        let l = memory::used(
            memory::words_or_none(memory::profile_or_none(s.learned, profile), key),
            u.word,
            true,
        );
        Store {
            learned: memory::with_words(s.learned, profile, key, l),
            ..s
        }.with_learned(profile, key, l)
    } else {
        s
    }
}

/// Everything, once a use has been noted. A word without characters, or at a stop word, is not
/// noted.
#[verifier::opaque]
pub open spec fn recorded(w: World, u: Use) -> World {
    if u.word.len() == 0 || at_stopword(u.word) {
        w
    } else {
        let profile = w.state.profile();
        let e = if w.store.config.input.enable_auto_reorder {
            EngineView { stale: true, ..w.engine }
        } else {
            w.engine
        };
        World {
            store: learned(ordered(w.store, profile, u), w.engine, profile, u),
            engine: e,
            ..w
        }
    }
}

/// Whether a word begins or ends with a stop word.
pub fn is_boundary_stopword(word: &str) -> (r: bool)
    ensures
        r == at_stopword(word@),
{
    let stops = chars_of("的了和是在有而及与或之为其于以到等说着也就都吧呢吗啊呀让把给被");
    let c = chars_of(word);
    let n = c.len();
    let first = if n > 0 {
        c[0]
    } else {
        ' '
    };
    let last = if n > 0 {
        c[n - 1]
    } else {
        ' '
    };
    char_in(first, stops.as_slice()) || char_in(last, stops.as_slice())
}

/// The key of a word.
fn find_key(trie: Option<&Trie>, word: &str, typed: &str) -> (r: String)
    ensures
        r@ == key_of(
            match trie {
                Some(t) => Some(t@),
                None => None,
            },
            word@,
            typed@,
        ),
{
    let t = match trie {
        Some(t) => t,
        None => {
            return typed.to_owned();
        },
    };
    if let Some(p) = t.lookup_pinyin(word) {
        return p.to_owned();
    }
    let c = chars_of(word);
    let ghost tv = t@;
    let mut out = String::new();
    let mut i: usize = 0;
    while i < c.len()
        invariant
            i <= c.len(),
            c@ == word@,
            tv == t@,
            trie == Some(t),
            !tv.word_pinyin().contains_key(word@),
            spelled_out(tv, word@, i as int) == Some(out@),
        decreases c.len() - i,
    {
        let ch = char_string(c[i]);
        proof {
            assert(ch@ =~= seq![word@[i as int]]);
        }
        match t.lookup_pinyin(ch.as_str()) {
            Some(p) => {
                out.append(p);
            },
            None => {
                proof {
                    assert(spelled_out(tv, word@, i + 1) is None);
                    lemma_unspelled(tv, word@, i + 1, word@.len() as int);
                }
                return typed.to_owned();
            },
        }
        i = i + 1;
    }
    if is_blank(out.as_str()) {
        typed.to_owned()
    } else {
        out
    }
}

proof fn lemma_unspelled(t: TrieView, w: Seq<char>, n: int, m: int)
    requires
        spelled_out(t, w, n) is None,
        n <= m,
    ensures
        spelled_out(t, w, m) is None,
    decreases m - n,
{
    if n < m {
        lemma_unspelled(t, w, n, m - 1);
    }
}

/// Notes the order of use and what follows what.
fn note_order(
    config: &mut ConfigManager,
    profile: &str,
    typed: &str,
    word: &str,
    source: &str,
    context: Option<&str>,
    now: u64,
)
    ensures
        final(config)@ == ordered(
            old(config)@,
            profile@,
            Use {
                typed: typed@,
                word: word@,
                source: source@,
                context: trie::opt_text(context),
                now,
            },
        ),
{
    if config.enable_auto_reorder() {
        if !is_blank(typed) {
            config.insert_usage_order(profile, word);
        }
        if let Some(c) = context {
            let l = update_mru(&mut config.ngram_history, profile, c, word, false);
            config.insert_ngram(profile, c, l, now);
        }
    }
}

/// Learns a new word.
fn learn(
    config: &mut ConfigManager,
    engine: &SearchEngine,
    profile: &str,
    typed: &str,
    word: &str,
    source: &str,
    context: Option<&str>,
    now: u64,
)
    ensures
        final(config)@ == learned(
            old(config)@,
            engine@,
            profile@,
            Use {
                typed: typed@,
                word: word@,
                source: source@,
                context: trie::opt_text(context),
                now,
            },
        ),
{
    if !config.master_config.get().input.enable_word_discovery || chars_of(word).len() <= 1 {
        return ;
    }
    let key = find_key(engine.get_trie(profile), word, typed);
    if chinese::holds_vowel(key.as_str()) && !engine.has_word_in_dict(profile, word) && !same_text(
        source,
        "Compose",
    ) && !same_text(source, "Table (Abbr)") {
        let l = update_mru(&mut config.learned_words, profile, key.as_str(), word, true);
        config.insert_learned(profile, key.as_str(), l);
    }
}

/// Notes the use of a word.
pub fn record_usage(
    ctx: &mut EngineContext,
    pinyin: &str,
    word: &str,
    source: &str,
    context: Option<&str>,
    now: u64,
)
    ensures
        final(ctx)@ == recorded(
            old(ctx)@,
            Use {
                typed: pinyin@,
                word: word@,
                source: source@,
                context: trie::opt_text(context),
                now,
            },
        ),
{
    proof {
        reveal(recorded);
    }
    if is_blank(word) || is_boundary_stopword(word) {
        return ;
    }
    let profile = ctx.session_state.get_current_profile();
    let reorder = ctx.config.enable_auto_reorder();
    note_order(&mut ctx.config, profile.as_str(), pinyin, word, source, context, now);
    learn(
        &mut ctx.config,
        &ctx.engine,
        profile.as_str(),
        pinyin,
        word,
        source,
        context,
        now,
    );
    if reorder {
        ctx.engine.clear_cache();
    }
}

} // verus!
