use qianyan_ime::action::FilterMode;
use qianyan_ime::candidate::Candidate;
use qianyan_ime::compiler::{write_binary_dict, DictEntry, EntryList, FLAG_RARE};
use qianyan_ime::compose::{compose, segment_for_compose, segment_syllables, ComposePath};
use qianyan_ime::config::{Config, EngineOptions, RareCharMode, SmartAuxMode};
use qianyan_ime::context::EngineContext;
use qianyan_ime::engine::{SearchEngine, SearchQuery};
use qianyan_ime::lookup::MAX_LOOKUP_LIMIT;
use qianyan_ime::segmentation::DefaultSegmentor;
use qianyan_ime::similarity::find_similar_pinyin;
use qianyan_ime::strmap::StrMap;
use qianyan_ime::tables::{FreqTable, WordSet};
use qianyan_ime::trie::Trie;
use qianyan_ime::userdict::{OrderData, OrderList, ProfileDict, UserDictData, WordList};

fn options() -> EngineOptions {
    EngineOptions {
        rare_char_mode: RareCharMode::IncludeRare,
        enable_smart_aux: false,
        smart_aux_mode: SmartAuxMode::Greedy,
        enable_error_correction: false,
        enable_context_sorting: false,
        auto_sentence_min_syllables: 2,
        word_learn_threshold: 2,
        short_term_capacity: 100,
        long_term_threshold: 5,
        mru_length: 10,
        double_tap_uppercase_keys: vec![],
        long_press_uppercase_keys: vec![],
        phantom_separator: String::new(),
        nav_delete: vec![],
        nav_fuzzy: vec![],
        nav_clear: vec![],
    }
}

fn words(list: &[&str]) -> Vec<String> {
    list.iter().map(|s| s.to_string()).collect()
}

fn dictionary(rows: &[(&str, &str, u32, u8)]) -> Trie {
    let mut source: StrMap<EntryList> = StrMap::new();
    for (key, word, weight, flags) in rows {
        if source.get(key).is_none() {
            source.insert(key.to_string(), EntryList::new());
        }
        let i = source.position(key).unwrap();
        source.value_mut(i).push(DictEntry {
            word: word.to_string(),
            trad: word.to_string(),
            tone: String::new(),
            en: String::new(),
            stroke_aux: String::new(),
            weight: *weight,
            flags: *flags,
        });
    }
    let compiled = write_binary_dict(source).unwrap();
    Trie::open(compiled.index, compiled.data).ok().unwrap()
}

const SYLLABLES: [&str; 31] = [
    "wo", "wang", "ji", "chong", "dian", "le", "da", "you", "xi", "zhong", "guo", "ran", "zen", "me", "shen", "qian",
    "mian", "quan", "hou", "xuan", "chuang", "er", "qie", "li", "qi", "men", "jin",
    "tian", "jiu", "tai", "zan",
];

fn everyday() -> Trie {
    dictionary(&[
        ("wo", "我", 900, 0),
        ("women", "我们", 800, 0),
        ("wangji", "忘记", 400, 0),
        ("wang", "忘", 100, 0),
        ("ji", "记", 100, 0),
        ("chongdian", "充电", 300, 0),
        ("chong", "冲", 50, 0),
        ("dian", "点", 90, 0),
        ("le", "了", 950, 0),
        ("jintian", "今天", 700, 0),
        ("jiu", "就", 600, 0),
        ("tai", "太", 500, 0),
        ("da", "大", 900, 0),
        ("da", "打", 500, 0),
        ("youxi", "游戏", 300, 0),
        ("zhong", "中", 900, 0),
        ("zhongguo", "中国", 800, 0),
        ("guoran", "果然", 200, 0),
        ("zenme", "怎么", 700, 0),
        ("zanmen", "咱们", 300, 0),
        ("shenme", "什么", 900, 0),
        ("qianmian", "前面", 500, 0),
        ("quanmian", "全面", 400, 0),
        ("erqie", "而且", 600, 0),
        ("li", "里", 900, 0),
        ("li", "孋", 2, FLAG_RARE),
        ("li", "悧", 1, FLAG_RARE),
        ("zen", "怎", 60, 0),
        ("zan", "咱", 40, 0),
        ("me", "么", 90, 0),
        ("men", "们", 95, 0),
        ("shen", "神", 80, 0),
        ("qian", "前", 85, 0),
        ("mian", "面", 75, 0),
        ("quan", "全", 65, 0),
        ("jin", "今", 55, 0),
        ("tian", "天", 88, 0),
        ("er", "而", 77, 0),
        ("qie", "且", 66, 0),
        ("guo", "国", 92, 0),
        ("ran", "然", 44, 0),
        ("you", "有", 97, 0),
        ("xi", "西", 33, 0),
        ("qi", "七", 700, 0),
        ("qi", "器", 300, 0),
    ])
}

fn syllables() -> WordSet {
    WordSet::from_words(words(&SYLLABLES))
}

fn engine() -> SearchEngine {
    let mut e = SearchEngine::new(
        WordSet::from_words(words(&["chinese"])),
        FreqTable::new(),
        FreqTable::new(),
        syllables(),
        syllables(),
        EngineContext::default_schemes(StrMap::new()),
    );
    let mut tries = StrMap::new();
    tries.insert("chinese".to_string(), everyday());
    e.reload_tries(tries);
    e
}

fn learned(key: &str, word: &str, count: u32) -> UserDictData {
    let mut list = WordList::new();
    list.push((word.to_string(), count));
    let mut profile = ProfileDict::new();
    profile.insert(key.to_string(), list);
    let mut dict = UserDictData::new();
    dict.insert("chinese".to_string(), profile);
    dict
}

fn search_with(config: &Config, buffer: &str, learned_words: &UserDictData) -> Vec<Candidate> {
    search_in_order(config, buffer, learned_words, &OrderData::new())
}

fn search_in_order(
    config: &Config,
    buffer: &str,
    learned_words: &UserDictData,
    user_order: &OrderData,
) -> Vec<Candidate> {
    let ngram = UserDictData::new();
    let e = engine();
    let (found, _) = e.search(SearchQuery {
        buffer,
        profile: "chinese",
        config,
        limit: MAX_LOOKUP_LIMIT,
        filter_mode: FilterMode::Off,
        aux_filter: "",
        context: None,
        context_pair: None,
        fuzzy_enabled: false,
        learned_words,
        ngram_history: &ngram,
        user_order,
    });
    found
}

fn search(config: &Config, buffer: &str, learned_words: &UserDictData) -> Vec<String> {
    search_with(config, buffer, learned_words).iter().map(|c| c.text.clone()).collect()
}

fn config() -> Config {
    let mut c = Config::default_config(options());
    c.input.enable_abbreviation_matching = true;
    c.input.enable_prefix_matching = true;
    c.input.enable_fuzzy_pinyin = false;
    c
}

#[test]
fn test_comprehensive_lookup() {
    let none = UserDictData::new();
    let mut c = config();
    c.options.enable_error_correction = true;

    let r = search(&c, "zho", &none);
    assert!(!r.is_empty());
    assert_eq!(r[0], "中");

    let r = search(&c, "guor", &none);
    assert!(!r.is_empty());

    let r = search(&c, "zm", &none);
    assert!(!r.is_empty());
    assert_eq!(r[0], "怎么");

    let r = search(&c, "sm", &none);
    assert!(!r.is_empty());
    assert_eq!(r[0], "什么");

    let r = search(&c, "qmian", &none);
    assert!(!r.is_empty());
    assert!(r[0] == "全面" || r[0] == "前面");

    let r = search(&c, "zhonf", &none);
    assert!(!r.is_empty());
    assert_eq!(r[0], "中");
}

#[test]
fn test_zho_completion() {
    assert_eq!(search(&config(), "zho", &UserDictData::new())[0], "中");
}

#[test]
fn test_abbreviation_user_dict_priority() {
    let dict = learned("shenme", "什么可以", 10);
    let c = config();
    let r = search(&c, "sm", &dict);
    assert!(!r.is_empty());
    assert_eq!(r[0], "什么");
    let r2 = search(&c, "shenme", &dict);
    assert!(r2.iter().any(|w| w == "什么可以"));
    let r3 = search(&c, "zm", &dict);
    assert!(!r3.is_empty());
    assert_eq!(r3[0], "怎么");
}

#[test]
fn test_user_dict_prefix_matching() {
    let dict = learned("houxuanchuang", "候选窗", 5);
    let r = search(&config(), "houxuanch", &dict);
    assert!(r.iter().any(|w| w == "候选窗"));
    let r2 = search(&config(), "hx", &dict);
    assert!(r2.iter().all(|w| w != "候选窗"));
}

#[test]
fn test_user_prefix_can_compete_with_system_prefix() {
    let dict = learned("erqie", "而去切", 9999);
    let mut c = config();
    c.input.enable_auto_reorder = false;
    c.input.enable_fixed_first_candidate = false;
    let r = search(&c, "erq", &dict);
    assert!(r.iter().any(|w| w == "而且"));
    assert!(r.iter().any(|w| w == "而去切"));
}

#[test]
fn test_rare_char_search_engine_filter() {
    let none = UserDictData::new();
    let mut c = config();
    c.options.rare_char_mode = RareCharMode::CommonOnly;
    assert_eq!(search(&c, "li", &none)[0], "里");
    assert!(search_with(&c, "li", &none).iter().all(|x| x.flags & 1 == 0));
    c.options.rare_char_mode = RareCharMode::OnlyRare;
    let rare = search_with(&c, "li", &none);
    assert!(rare.iter().any(|x| x.text == "孋"));
    assert!(rare.iter().all(|x| x.flags & 1 == 1));
    c.options.rare_char_mode = RareCharMode::IncludeRare;
    let all = search(&c, "li", &none);
    assert!(all.iter().any(|w| w == "里"));
    assert!(all.iter().any(|w| w == "悧"));
}

#[test]
fn test_qi_exact_lookup() {
    let trie = everyday();
    assert!(trie.contains_key("qi"));
    let results = trie.get_all_exact("qi").unwrap();
    assert!(results.iter().any(|r| r.word == "器"));
}

#[test]
fn test_has_word_in_dict() {
    let trie = everyday();
    assert!(trie.has_word_in_dict("我们"));
    assert!(trie.has_word_in_dict("打"));
    assert!(!trie.has_word_in_dict("qqqnotexist"));
}

#[test]
fn test_rare_char_flags_in_trie() {
    let trie = everyday();
    let results = trie.get_all_exact("li").unwrap();
    let rare_count = results.iter().filter(|r| r.flags & 1 != 0).count();
    for ex in ["孋", "悧", "蒚", "唎"] {
        if let Some(r) = results.iter().find(|r| r.word == ex) {
            assert_eq!(r.flags & 1, 1);
        }
    }
    assert!(rare_count > 0);
    assert!(trie.build_rare_chars().contains("孋"));
    assert!(!trie.build_rare_chars().contains("里"));
}

#[test]
fn test_trie_cache_does_not_create_pipeline() {
    let e = SearchEngine::new(
        WordSet::new(),
        FreqTable::new(),
        FreqTable::new(),
        WordSet::new(),
        WordSet::new(),
        StrMap::new(),
    );
    assert!(e.get_trie("nonexistent").is_none());
    assert!(e.tries.is_empty());
}

fn text_of(p: &ComposePath) -> String {
    p.words.iter().map(|w| w.word.as_str()).collect()
}

#[test]
fn test_segment_syllables() {
    let segs = segment_syllables("wowangjichongdianle", &FreqTable::new(), &syllables());
    assert_eq!(segs, words(&["wo", "wang", "ji", "chong", "dian", "le"]));
}

#[test]
fn test_segment_for_compose_mixed_pinyin() {
    let trie = everyday();
    let mut freq = FreqTable::new();
    freq.insert("youxi".to_string(), 300);
    let segs = segment_for_compose("jtdayouxi", &trie, &freq, &syllables());
    let pinyins: Vec<&str> = segs.iter().map(|(s, _)| s.as_str()).collect();
    let initials: Vec<bool> = segs.iter().map(|(_, is_init)| *is_init).collect();
    assert_eq!(pinyins, vec!["j", "t", "da", "youxi"]);
    assert_eq!(initials, vec![true, true, false, false]);

    let segs2 = segment_for_compose("wowangjichongdianle", &trie, &FreqTable::new(), &syllables());
    assert!(segs2.iter().all(|(_, b)| !b));
}

#[test]
fn test_compose_mixed_abbreviation() {
    let trie = everyday();
    let ngram = UserDictData::new();
    let empty = FreqTable::new();
    let paths = compose("jtdayouxi", &trie, &ngram, &empty, &empty, &syllables(), "chinese");
    assert!(!paths.is_empty());
    let top_5: Vec<String> = paths.iter().take(5).map(text_of).collect();
    assert!(top_5.iter().any(|t| t == "今天打游戏"), "{:?}", top_5);
}

#[test]
fn test_compose_long_sentence() {
    let trie = everyday();
    let ngram = UserDictData::new();
    let empty = FreqTable::new();
    let paths = compose("wowangjichongdianle", &trie, &ngram, &empty, &empty, &syllables(), "chinese");
    assert!(!paths.is_empty());
    let found = paths.iter().map(text_of).any(|t| t.contains("忘") && t.contains("充电"));
    assert!(found);
}

#[test]
fn the_word_used_last_is_offered_first() {
    let none = UserDictData::new();
    let mut c = config();
    assert_eq!(search(&c, "da", &none)[0], "大");
    let mut order = OrderData::new();
    order.insert("chinese".to_string(), OrderList { words: words(&["打"]) });
    let found = search_in_order(&c, "da", &none, &order);
    assert_eq!(found[0].text, "打");
    assert_eq!(found.len(), search(&c, "da", &none).len());
    c.input.enable_auto_reorder = false;
    assert_eq!(search_in_order(&c, "da", &none, &order)[0].text, "大");
}

#[test]
fn no_word_is_offered_twice() {
    let dict = learned("shenme", "什么", 10);
    let found = search(&config(), "shenme", &dict);
    assert_eq!(found.iter().filter(|w| *w == "什么").count(), 1);
}

#[test]
fn similar_keys_come_by_their_distance() {
    let trie = everyday();
    let found = find_similar_pinyin("zhonf", &trie, None, &FreqTable::new(), &syllables());
    assert!(found.iter().any(|m| m.pinyin == "zhong"));
    for pair in found.windows(2) {
        assert!(pair[0].cost <= pair[1].cost);
    }
    for m in &found {
        assert!(trie.contains_key(&m.pinyin));
    }
    let exact = find_similar_pinyin("zhong", &trie, None, &FreqTable::new(), &syllables());
    assert_eq!(exact[0].pinyin, "zhong");
    assert_eq!(exact[0].cost, 0);
    let swapped = find_similar_pinyin("zhogn", &trie, None, &FreqTable::new(), &syllables());
    assert_eq!(swapped[0].pinyin, "zhong");
    assert_eq!(swapped[0].cost, 5);
}

#[test]
fn syllables_are_joined_to_the_highest_frequency() {
    let mut freq = FreqTable::new();
    freq.insert("ab".to_string(), 5);
    freq.insert("bc".to_string(), 6);
    freq.insert("abc".to_string(), 4);
    freq.insert("cd".to_string(), 2);
    let segs = words(&["a", "b", "c", "d"]);
    assert_eq!(DefaultSegmentor::merge_by_freq(&segs, &freq), words(&["ab", "cd"]));
    assert_eq!(DefaultSegmentor::merge_by_freq(&segs, &FreqTable::new()), segs);
}

#[test]
fn a_text_of_longer_characters_may_miss_some_neighbours() {
    let trie = dictionary(&[("何", "甲", 1, 0), ("你好", "乙", 1, 0)]);
    let found = find_similar_pinyin("你", &trie, None, &FreqTable::new(), &syllables());
    assert!(!found.iter().any(|m| m.pinyin == "何"));
    assert!(found.iter().any(|m| m.pinyin == "你好"));
}
