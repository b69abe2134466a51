use qianyan_ime::action::FilterMode;
use qianyan_ime::candidate::{Candidate, Filter, MatchLevelScoringFilter, TraditionalFilter};
use qianyan_ime::config::{Config, EngineOptions, EnglishAuxMode, RareCharMode, SmartAuxMode};
use qianyan_ime::engine::{SearchEngine, SearchQuery};
use qianyan_ime::strmap::StrMap;
use qianyan_ime::tables::{FreqTable, WordSet};
use qianyan_ime::trie::TrieResult;
use qianyan_ime::userdict::{ProfileDict, UserDictData, WordList};

fn options() -> EngineOptions {
    EngineOptions {
        rare_char_mode: RareCharMode::IncludeRare,
        enable_smart_aux: false,
        smart_aux_mode: SmartAuxMode::Greedy,
        enable_error_correction: false,
        enable_context_sorting: false,
        auto_sentence_min_syllables: 2,
        word_learn_threshold: 2,
        short_term_capacity: 100,
        long_term_threshold: 5,
        mru_length: 10,
        double_tap_uppercase_keys: vec![],
        long_press_uppercase_keys: vec![],
        phantom_separator: String::new(),
        nav_delete: vec![],
        nav_fuzzy: vec![],
        nav_clear: vec![],
    }
}

fn candidate(text: &str, traditional: &str, weight: i64, match_level: u8) -> Candidate {
    Candidate {
        text: text.to_string(),
        simplified: text.to_string(),
        traditional: traditional.to_string(),
        hint: String::new(),
        english_aux: String::new(),
        stroke_aux: String::new(),
        source: String::new(),
        weight,
        match_level,
        flags: 0,
    }
}

fn clone_case() {
    let c = Candidate { hint: "hint".to_string(), source: "test".to_string(), ..candidate("test", "test", 1000, 3) };
    let cloned = c.clone();
    assert_eq!(c.text, cloned.text);
    assert_eq!(c.weight, cloned.weight);
}

#[test]
fn pipeline_test_candidate_clone() {
    clone_case();
}

#[test]
fn mod_test_candidate_clone() {
    clone_case();
}

fn scoring_case() {
    let filter = MatchLevelScoringFilter;
    let candidates = vec![
        candidate("prefix", "prefix", 5_000_000, 1),
        candidate("exact", "exact", 100_000, 3),
        candidate("fuzzy", "fuzzy", 3_000_000, 2),
    ];
    let mut config = Config::default_config(options());
    config.input.ranking.exact_match_bonus = 10_000_000_000;
    let result = filter.filter("test", candidates, &config, None, None);
    assert_eq!(result[0].text, "exact");
    assert_eq!(result[1].text, "fuzzy");
    assert_eq!(result[2].text, "prefix");
}

#[test]
fn pipeline_test_match_level_scoring_filter() {
    scoring_case();
}

#[test]
fn mod_test_match_level_scoring_filter() {
    scoring_case();
}

fn form_case(traditional: bool, shown: &str) {
    let filter = TraditionalFilter;
    let mut config = Config::default_config(options());
    config.input.enable_traditional = traditional;
    let result = filter.filter("test", vec![candidate("简化", "簡化", 1000, 1)], &config, None, None);
    assert_eq!(result[0].text, shown);
}

#[test]
fn pipeline_test_traditional_filter_simplified() {
    form_case(false, "简化");
}

#[test]
fn mod_test_traditional_filter_simplified() {
    form_case(false, "简化");
}

#[test]
fn pipeline_test_traditional_filter_traditional() {
    form_case(true, "簡化");
}

#[test]
fn mod_test_traditional_filter_traditional() {
    form_case(true, "簡化");
}

fn create_test_engine() -> SearchEngine {
    SearchEngine::new(
        WordSet::new(),
        FreqTable::new(),
        FreqTable::new(),
        WordSet::new(),
        WordSet::new(),
        StrMap { entries: Vec::new() },
    )
}

fn filter_case() {
    let engine = create_test_engine();
    let c = Candidate {
        hint: "nihao".to_string(),
        english_aux: "Hello/Hi".to_string(),
        stroke_aux: "HSP".to_string(),
        ..candidate("你好", "你好", 1000, 1)
    };
    let mode = EnglishAuxMode::Prefix;
    assert!(engine.matches_filter(&c, "h", mode));
    assert!(engine.matches_filter(&c, "he", mode));
    assert!(engine.matches_filter(&c, "hello", mode));
    assert!(engine.matches_filter(&c, "hi", mode));
    assert!(engine.matches_filter(&c, "hsp", mode));
    assert!(engine.matches_filter(&c, "nih", mode));
    assert!(!engine.matches_filter(&c, "xyz", mode));
    assert!(engine.matches_filter(&c, "HELLO", mode));
    assert!(engine.matches_filter(&c, "hell", mode));
    assert!(!engine.matches_filter(&c, "hellx", mode));
}

#[test]
fn pipeline_test_matches_filter_comprehensive() {
    filter_case();
}

#[test]
fn mod_test_matches_filter_comprehensive() {
    filter_case();
}

fn empty_filter_case() {
    let engine = create_test_engine();
    let mode = EnglishAuxMode::Prefix;
    let c = Candidate { hint: "ceshi".to_string(), ..candidate("测试", "测试", 1000, 1) };
    assert!(engine.matches_filter(&c, "", mode));
    assert!(engine.matches_filter(&c, "ces", mode));
    assert!(!engine.matches_filter(&c, "xyz", mode));
}

#[test]
fn pipeline_test_matches_filter_empty() {
    empty_filter_case();
}

#[test]
fn mod_test_matches_filter_empty() {
    empty_filter_case();
}

#[test]
fn test_get_trie_method() {
    let engine = create_test_engine();
    assert!(engine.get_trie("nonexistent").is_none());
}

#[test]
fn test_clear_cache_clears_trie_cache() {
    let mut engine = create_test_engine();
    engine.clear_cache();
    assert!(engine.stale);
}

#[test]
fn test_do_search_scheme_path_no_pipeline_created() {
    let engine = create_test_engine();
    let config = Config::default_config(options());
    let learned = StrMap { entries: Vec::new() };
    let ngram = StrMap { entries: Vec::new() };
    let order = StrMap { entries: Vec::new() };
    let query = SearchQuery {
        buffer: "test",
        profile: "chinese",
        config: &config,
        limit: 10,
        filter_mode: FilterMode::Off,
        aux_filter: "",
        context: None,
        context_pair: None,
        fuzzy_enabled: false,
        learned_words: &learned,
        ngram_history: &ngram,
        user_order: &order,
    };
    let (candidates, _segments) = engine.search(query);
    assert!(candidates.is_empty());
}

#[test]
fn test_candidate_pagination_matches_count() {
    let page_size = 5usize;
    let total_candidates = 95usize;
    let total_pages = (total_candidates + page_size - 1) / page_size;
    assert_eq!(total_pages, 19);
    assert_eq!(total_pages * page_size, 95);
    let page_size = 10usize;
    let total_pages = (total_candidates + page_size - 1) / page_size;
    assert_eq!(total_pages, 10);
    assert_eq!((total_pages - 1) * page_size < total_candidates, true);
}

#[test]
fn test_user_dict_data_type() {
    let data: UserDictData = UserDictData::new();
    assert!(data.is_empty());
}

#[test]
fn test_user_dict_data_insert() {
    let mut data: UserDictData = UserDictData::new();
    data.entry_or("profile1", ProfileDict::new())
        .entry_or("ni", WordList::new())
        .push(("你".to_string(), 1));
    assert_eq!(data.len(), 1);
    let profile_data = data.get("profile1").expect("profile1 should exist");
    assert_eq!(profile_data.len(), 1);
}

#[test]
fn test_trie_result_clone() {
    let result = TrieResult {
        word: "test",
        trad: "測試",
        tone: "tēst",
        en: "test",
        stroke_aux: "",
        weight: 100,
        flags: 0,
    };
    let cloned = result;
    assert_eq!(result.word, cloned.word);
    assert_eq!(result.weight, cloned.weight);
}

#[test]
fn test_trie_result_copy() {
    let result = TrieResult {
        word: "hello",
        trad: "hello",
        tone: "",
        en: "hello",
        stroke_aux: "",
        weight: 0,
        flags: 0,
    };
    assert_eq!(result.word, "hello");
    assert_eq!(result.weight, 0);
}

#[test]
fn of_one_level_the_heavier_comes_first() {
    let all = vec![
        candidate("轻", "輕", 100, 1),
        candidate("重", "重", 900, 1),
        candidate("准", "準", 1, 3),
        candidate("中", "中", 500, 1),
    ];
    let config = Config::default_config(options());
    let result = MatchLevelScoringFilter.filter("test", all, &config, None, None);
    let left: Vec<&str> = result.iter().map(|c| c.text.as_str()).collect();
    assert_eq!(left, vec!["准", "重", "中", "轻"]);
}
