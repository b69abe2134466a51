use qianyan_ime::action::FilterMode;
use qianyan_ime::candidate::Candidate;
use qianyan_ime::compiler::{write_binary_dict, DictEntry, EntryList};
use qianyan_ime::compose::segment_syllables;
use qianyan_ime::config::{Config, EngineOptions, RareCharMode, SmartAuxMode};
use qianyan_ime::fuzzy::fuzzy_variants_per_segment;
use qianyan_ime::pipeline::Translator;
use qianyan_ime::pipelines::{get_trie_from_pipeline, profile_pipeline, search_pipeline, PipelineQuery, Recency, MAX_CACHED_PIPELINES};
use qianyan_ime::sentences::{segment_base, UserDictTranslator};
use qianyan_ime::strmap::StrMap;
use qianyan_ime::tables::{FreqTable, WordSet};
use qianyan_ime::translators::TableTranslator;
use qianyan_ime::trie::Trie;
use qianyan_ime::userdict::{ProfileDict, UserDictData, WordList};

fn options() -> EngineOptions {
    EngineOptions {
        rare_char_mode: RareCharMode::IncludeRare,
        enable_smart_aux: false,
        smart_aux_mode: SmartAuxMode::Greedy,
        enable_error_correction: false,
        enable_context_sorting: false,
        auto_sentence_min_syllables: 2,
        word_learn_threshold: 2,
        short_term_capacity: 100,
        long_term_threshold: 5,
        mru_length: 10,
        double_tap_uppercase_keys: vec![],
        long_press_uppercase_keys: vec![],
        phantom_separator: String::new(),
        nav_delete: vec![],
        nav_fuzzy: vec![],
        nav_clear: vec![],
    }
}

fn dictionary(rows: &[(&str, &str, u32)]) -> Trie {
    let mut source: StrMap<EntryList> = StrMap::new();
    for (key, word, weight) in rows {
        if source.get(key).is_none() {
            source.insert(key.to_string(), EntryList::new());
        }
        let i = source.position(key).unwrap();
        source.value_mut(i).push(DictEntry {
            word: word.to_string(),
            trad: word.to_string(),
            tone: String::new(),
            en: String::new(),
            stroke_aux: String::new(),
            weight: *weight,
            flags: 0,
        });
    }
    let compiled = write_binary_dict(source).unwrap();
    Trie::open(compiled.index, compiled.data).ok().unwrap()
}

fn words(list: &[&str]) -> Vec<String> {
    list.iter().map(|s| s.to_string()).collect()
}

fn syllables() -> WordSet {
    WordSet::from_words(words(&["ni", "hao", "wo", "zi", "zhi"]))
}

fn frequencies() -> FreqTable {
    let mut f = FreqTable::new();
    for s in ["ni", "hao", "wo", "zi", "zhi"] {
        f.insert(s.to_string(), 100);
    }
    f
}

fn small() -> Trie {
    dictionary(&[
        ("ni", "你", 900),
        ("nihao", "你好", 500),
        ("hao", "好", 300),
        ("wo", "我", 800),
        ("zi", "子", 70),
        ("zhi", "只", 60),
    ])
}

fn query<'a>(buffer: &'a str, syllables: &'a WordSet, aux_filter: &'a str) -> PipelineQuery<'a> {
    PipelineQuery {
        buffer,
        syllables,
        config: Config::default_config(options()),
        limit: 20,
        filter_mode: FilterMode::Global,
        aux_filter,
        context: None,
        context_pair: None,
        fuzzy_enabled: false,
    }
}

fn apples() -> Trie {
    let mut source: StrMap<EntryList> = StrMap::new();
    let mut list = EntryList::new();
    for (word, en) in [("苹果", "apple"), ("平果", "a town")] {
        list.push(DictEntry {
            word: word.to_string(),
            trad: word.to_string(),
            tone: String::new(),
            en: en.to_string(),
            stroke_aux: String::new(),
            weight: 10,
            flags: 0,
        });
    }
    source.insert("pingguo".to_string(), list);
    let compiled = write_binary_dict(source).unwrap();
    Trie::open(compiled.index, compiled.data).ok().unwrap()
}

#[test]
fn an_english_code_narrows_the_candidates() {
    let t = apples();
    let (learned, ngrams) = (UserDictData::new(), UserDictData::new());
    let freq = FreqTable::new();
    let base = WordSet::from_words(words(&["ping", "guo"]));
    let mut p = profile_pipeline("chinese", &t, &learned, &ngrams, &freq, &base, 0);
    let (all, _) = search_pipeline(&mut p, query("pingguo", &base, ""), 5);
    assert!(texts(&all).contains(&"平果".to_string()));
    let (found, _) = search_pipeline(&mut p, query("pingguo", &base, "app"), 6);
    assert_eq!(texts(&found), words(&["苹果"]));
}

fn texts(v: &[Candidate]) -> Vec<String> {
    v.iter().map(|c| c.text.clone()).collect()
}

#[test]
fn a_pipeline_finds_words_and_pieces() {
    let t = small();
    let (learned, ngrams) = (UserDictData::new(), UserDictData::new());
    let (freq, base) = (frequencies(), syllables());
    let mut p = profile_pipeline("chinese", &t, &learned, &ngrams, &freq, &base, 0);
    assert_eq!(p.translators.len(), 3);
    assert_eq!(p.filters.len(), 3);
    assert!(get_trie_from_pipeline(&p).unwrap().contains_key("nihao"));
    let (found, segs) = search_pipeline(&mut p, query("nihao", &base, ""), 5);
    assert_eq!(found[0].text, "你好");
    assert_eq!(found[0].match_level, 3);
    assert_eq!(segs, words(&["ni", "hao"]));
    let shown = texts(&found);
    for (i, a) in shown.iter().enumerate() {
        assert!(!shown[i + 1..].contains(a));
    }
    let (few, _) = search_pipeline(&mut p, PipelineQuery { limit: 1, ..query("nihao", &base, "") }, 5);
    assert_eq!(few.len(), 1);
    let (none, _) = search_pipeline(&mut p, query("nihao", &base, "q"), 5);
    assert_eq!(none.len(), 0);
}

#[test]
fn fuzzy_sounds_are_searched_where_they_are_asked_for() {
    let t = small();
    let (learned, ngrams) = (UserDictData::new(), UserDictData::new());
    let (freq, base) = (frequencies(), syllables());
    let mut config = Config::default_config(options());
    config.input.enable_fuzzy_pinyin = true;
    config.input.fuzzy_config.z_zh = true;
    let mut p = profile_pipeline("chinese", &t, &learned, &ngrams, &freq, &base, 0);
    let fuzzily = PipelineQuery { config, fuzzy_enabled: true, ..query("zi", &base, "") };
    let (found, _) = search_pipeline(&mut p, fuzzily, 5);
    assert_eq!(found[0].text, "子");
    assert!(texts(&found).contains(&"只".to_string()));
    let mut p = profile_pipeline("chinese", &t, &learned, &ngrams, &freq, &base, 0);
    let mut config = Config::default_config(options());
    config.input.enable_fuzzy_pinyin = true;
    config.input.fuzzy_config.z_zh = true;
    let strictly = PipelineQuery { config, ..query("zi", &base, "") };
    let (found, _) = search_pipeline(&mut p, strictly, 5);
    assert!(!texts(&found).contains(&"只".to_string()));
}

#[test]
fn variants_hold_the_syllable() {
    let mut config = Config::default_config(options());
    config.input.fuzzy_config.z_zh = true;
    let v = fuzzy_variants_per_segment("zhi", &config.input.fuzzy_config);
    assert!(v.contains(&"zhi".to_string()));
    assert!(v.contains(&"zi".to_string()));
}

#[test]
fn variants_rise_and_grow_with_the_rules() {
    let mut fewer = Config::default_config(options()).input.fuzzy_config;
    fewer.custom_mappings = vec![];
    fewer.z_zh = false;
    fewer.c_ch = false;
    fewer.s_sh = false;
    fewer.n_l = false;
    fewer.r_l = false;
    fewer.f_h = false;
    fewer.an_ang = false;
    fewer.en_eng = false;
    fewer.in_ing = false;
    fewer.ian_iang = false;
    fewer.uan_uang = false;
    fewer.u_v = false;
    assert_eq!(fuzzy_variants_per_segment("ZHANG", &fewer), words(&["zhang"]));
    fewer.z_zh = true;
    let some = fuzzy_variants_per_segment("zhang", &fewer);
    assert_eq!(some, words(&["zang", "zhang"]));
    fewer.an_ang = true;
    let more = fuzzy_variants_per_segment("zhang", &fewer);
    assert_eq!(more, words(&["zan", "zang", "zhan", "zhang"]));
    assert!(some.iter().all(|v| more.contains(v)));
}

#[test]
fn words_of_the_user_are_found() {
    let t = small();
    let mut list = WordList::new();
    list.push(("你号".to_string(), 4));
    let mut profile = ProfileDict::new();
    profile.insert("nihao".to_string(), list);
    let mut dict = UserDictData::new();
    dict.insert("chinese".to_string(), profile);
    let u = UserDictTranslator { user_dict: &dict, profile: "chinese".to_string(), trie: Some(&t) };
    let exact = u.translate(&words(&["ni", "hao"]));
    assert_eq!(texts(&exact), words(&["你号"]));
    assert_eq!(exact[0].weight, 4000);
    assert_eq!(exact[0].match_level, 3);
    assert_eq!(exact[0].hint, "User");
    let longer = u.translate(&words(&["ni", "ha"]));
    assert_eq!(longer[0].weight, 3200);
    assert_eq!(longer[0].match_level, 0);
    assert_eq!(longer[0].hint, "nihao");
    assert_eq!(u.translate(&words(&["n", "h"])).len(), 0);
}

#[test]
fn a_dictionary_is_translated() {
    let t = small();
    let config = Config::default_config(options());
    let mut table = Translator::Table(TableTranslator::new(&t, true, 0));
    let found = table.translate("ni", &words(&["ni"]), &config, 20, 5);
    assert_eq!(found[0].text, "你");
    let again = table.translate("ni", &words(&["ni"]), &config, 20, 6);
    assert_eq!(texts(&found), texts(&again));
}

#[test]
fn letters_are_cut_into_basic_syllables() {
    let (freq, base) = (frequencies(), syllables());
    assert_eq!(segment_base("nihao", &freq, &base), words(&["ni", "hao"]));
    assert_eq!(segment_base("x", &FreqTable::new(), &WordSet::new()), words(&["x"]));
    for s in ["", "x", "nihao", "guna", "nixyzhao"] {
        assert_eq!(segment_base(s, &freq, &base), segment_syllables(s, &freq, &base));
    }
}

#[test]
fn the_pipeline_used_the_longest_ago_is_given_up() {
    let mut r = Recency::new();
    for i in 0..MAX_CACHED_PIPELINES {
        assert_eq!(r.touch(&format!("p{}", i)), None);
    }
    assert_eq!(r.touch("p0"), None);
    assert_eq!(r.touch("new"), Some("p1".to_string()));
    assert!(r.contains("p0"));
    assert!(!r.contains("p1"));
    assert!(r.contains("new"));
}
