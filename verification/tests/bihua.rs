use qianyan_ime::action::Action;
use qianyan_ime::bihua::BihuaScheme;
use qianyan_ime::compiler::{write_binary_dict, DictEntry, EntryList};
use qianyan_ime::config::{Config, EngineOptions, RareCharMode, SmartAuxMode};
use qianyan_ime::keys::VirtualKey;
use qianyan_ime::scheme::{SchemeCandidate, SchemeContext};
use qianyan_ime::strmap::StrMap;
use qianyan_ime::tables::{FreqTable, WordSet};
use qianyan_ime::trie::Trie;

#[test]
fn test_translate_left_hand() {
    assert_eq!(BihuaScheme::translate("gfd"), "123");
    assert_eq!(BihuaScheme::translate("gfd sa"), "12345");
    assert_eq!(BihuaScheme::translate("g"), "1");
    assert_eq!(BihuaScheme::translate("f"), "2");
    assert_eq!(BihuaScheme::translate("d"), "3");
    assert_eq!(BihuaScheme::translate("s"), "4");
    assert_eq!(BihuaScheme::translate("a"), "5");
}

#[test]
fn test_translate_right_hand() {
    assert_eq!(BihuaScheme::translate("hjk"), "123");
    assert_eq!(BihuaScheme::translate("hjk lp"), "12345");
    assert_eq!(BihuaScheme::translate("h"), "1");
    assert_eq!(BihuaScheme::translate("j"), "2");
    assert_eq!(BihuaScheme::translate("k"), "3");
    assert_eq!(BihuaScheme::translate("l"), "4");
    assert_eq!(BihuaScheme::translate("p"), "5");
}

#[test]
fn test_translate_mixed_hands() {
    assert_eq!(BihuaScheme::translate("ghjk"), "1123");
    assert_eq!(BihuaScheme::translate("ghjk lp"), "112345");
    assert_eq!(BihuaScheme::translate("sak"), "453");
}

#[test]
fn test_translate_wildcard() {
    assert_eq!(BihuaScheme::translate("gzd"), "1z3");
    assert_eq!(BihuaScheme::translate("z"), "z");
    assert_eq!(BihuaScheme::translate("ggzz"), "11zz");
}

#[test]
fn test_translate_invalid_chars_dropped() {
    assert_eq!(BihuaScheme::translate("qwergfd"), "123");
    assert_eq!(BihuaScheme::translate("tuvb"), "");
}

#[test]
fn test_stroke_key_validation() {
    assert!(BihuaScheme::is_stroke_key(VirtualKey::G));
    assert!(BihuaScheme::is_stroke_key(VirtualKey::H));
    assert!(BihuaScheme::is_stroke_key(VirtualKey::Z));
    assert!(!BihuaScheme::is_stroke_key(VirtualKey::Q));
    assert!(!BihuaScheme::is_stroke_key(VirtualKey::E));
    assert!(!BihuaScheme::is_stroke_key(VirtualKey::Digit1));
}

fn options() -> EngineOptions {
    EngineOptions {
        rare_char_mode: RareCharMode::IncludeRare,
        enable_smart_aux: false,
        smart_aux_mode: SmartAuxMode::Greedy,
        enable_error_correction: false,
        enable_context_sorting: false,
        auto_sentence_min_syllables: 2,
        word_learn_threshold: 2,
        short_term_capacity: 100,
        long_term_threshold: 5,
        mru_length: 10,
        double_tap_uppercase_keys: vec![],
        long_press_uppercase_keys: vec![],
        phantom_separator: String::new(),
        nav_delete: vec![],
        nav_fuzzy: vec![],
        nav_clear: vec![],
    }
}

fn entry(word: &str, weight: u32) -> DictEntry {
    DictEntry {
        word: word.to_string(),
        trad: String::new(),
        tone: String::new(),
        en: String::new(),
        stroke_aux: String::new(),
        weight,
        flags: 0,
    }
}

fn dictionary(rows: &[(&str, &str, u32)]) -> Trie {
    let mut source: StrMap<EntryList> = StrMap::new();
    for (key, word, weight) in rows {
        if source.get(key).is_none() {
            source.insert(key.to_string(), EntryList::new());
        }
        let i = source.position(key).unwrap();
        source.value_mut(i).push(entry(word, *weight));
    }
    let compiled = write_binary_dict(source).unwrap();
    Trie::open(compiled.index, compiled.data).ok().unwrap()
}

/// Calls a function with the surroundings of strokes.
fn with_context<R>(trie: &Trie, f: impl Fn(&SchemeContext) -> R) -> R {
    with_config(trie, Config::default_config(options()), f)
}

/// Calls a function with the surroundings of strokes under some settings.
fn with_config<R>(trie: &Trie, config: Config, f: impl Fn(&SchemeContext) -> R) -> R {
    let mut tries = StrMap { entries: Vec::new() };
    tries.entries.push(("bihua".to_string(), trie));
    let freq = FreqTable::new();
    let score = FreqTable::new();
    let base = WordSet::new();
    let single = WordSet::new();
    let user = StrMap { entries: Vec::new() };
    let ngram = StrMap { entries: Vec::new() };
    let order = StrMap { entries: Vec::new() };
    let active = vec!["bihua".to_string()];
    f(&SchemeContext {
        config: &config,
        fuzzy_enabled: false,
        tries: &tries,
        syllable_freq: &freq,
        syllable_score: &score,
        base_syllables: &base,
        single_syllables: &single,
        user_dict: &user,
        ngram_history: &ngram,
        user_order: &order,
        active_profiles: &active,
        candidate_count: 0,
        last_word: None,
        last_two_words: None,
    })
}

#[test]
fn test_handle_special_key_consumes_invalid_letters() {
    let trie = dictionary(&[("1", "一", 1)]);
    with_context(&trie, |ctx| {
        let scheme = BihuaScheme::new();
        let mut buffer = String::from("gf");
        assert!(scheme.handle_special_key(VirtualKey::Q, &mut buffer, ctx) == Some(Action::Consume));
        assert!(scheme.handle_special_key(VirtualKey::G, &mut buffer, ctx).is_none());
        assert!(scheme.handle_special_key(VirtualKey::Digit1, &mut buffer, ctx).is_none());
        assert_eq!(buffer, "gf");
    });
}

#[test]
fn test_lookup_against_real_trie() {
    let trie = dictionary(&[
        ("2515212512", "啊", 10),
        ("25152", "吧", 3),
        ("2515", "别", 2),
        ("1", "一", 1),
    ]);
    with_context(&trie, |ctx| {
        let scheme = BihuaScheme::new();
        let query = BihuaScheme::translate("fagafgfagf");
        assert_eq!(query, "2515212512");
        let exact = scheme.lookup(&query, ctx);
        assert!(exact.iter().any(|c| c.text == "啊"));
        let wild = scheme.lookup("251521251z", ctx);
        assert!(wild.iter().any(|c| c.text == "啊"));
        let prefix = scheme.lookup("25152", ctx);
        assert!(!prefix.is_empty());
        let right = BihuaScheme::translate("jphpjhjphj");
        assert_eq!(right, "2515212512");
        assert!(scheme.lookup(&right, ctx).iter().any(|c| c.text == "啊"));
    });
}

#[test]
fn each_text_is_ranked_once_with_its_largest_weight() {
    let trie = dictionary(&[("1", "一", 1)]);
    with_context(&trie, |ctx| {
        let candidate = |text: &str, weight: u32, level: u8| {
            let mut c = SchemeCandidate::new(text.to_string(), weight);
            c.match_level = level;
            c
        };
        let mut v = vec![candidate("一", 1, 3), candidate("一", 5, 0), candidate("二", 9, 1), candidate("二", 9, 0)];
        BihuaScheme::new().post_process("1", &mut v, ctx);
        let left: Vec<(&str, u32, u8)> = v.iter().map(|c| (c.text.as_str(), c.weight, c.match_level)).collect();
        assert_eq!(left, vec![("二", 9, 1), ("一", 5, 0)]);
    });
}

#[test]
fn without_a_limit_all_that_begins_so_is_offered() {
    let trie = dictionary(&[("25", "口", 1), ("251", "日", 3), ("2512", "旦", 2)]);
    let offered = |limit: usize| {
        let mut config = Config::default_config(options());
        config.input.enable_prefix_matching = true;
        config.input.prefix_matching_limit = limit;
        with_config(&trie, config, |ctx| {
            let found = BihuaScheme::new().lookup("25", ctx);
            found.iter().map(|c| c.text.clone()).collect::<Vec<String>>()
        })
    };
    assert_eq!(offered(0), vec!["口", "口", "日", "旦"]);
    assert_eq!(offered(2), vec!["口", "日", "旦"]);
}
