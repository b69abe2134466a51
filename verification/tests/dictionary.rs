use qianyan_ime::building::{
    compile_dict_for_path, plan_for, reading_of, should_compile, CompileError, Material, Reading, SourceFile, Target,
};
use qianyan_ime::compiler::{compile_and_open, write_binary_dict, DictEntry, EntryList};
use qianyan_ime::json::{parse_tree, Json};
use qianyan_ime::source::{
    add_rare_chars, add_syllable_keys, load_punctuation_dict, load_rare_chars, load_single_syllables,
    load_syllable_frequencies, punctuation_of,
};
use qianyan_ime::strmap::StrMap;
use qianyan_ime::tables::WordSet;
use qianyan_ime::trie::{Trie, TrieError, TRIE_VERSION};

fn text(s: &str) -> Json {
    Json::Text(s.to_string())
}

fn object(members: Vec<(&str, Json)>) -> Json {
    Json::Object(members.into_iter().map(|(k, v)| (k.to_string(), v)).collect())
}

fn entry(word: &str, weight: u32) -> DictEntry {
    DictEntry {
        word: word.to_string(),
        trad: String::new(),
        tone: String::new(),
        en: String::new(),
        stroke_aux: String::new(),
        weight,
        flags: 0,
    }
}

fn source(rows: &[(&str, &str, u32)]) -> StrMap<EntryList> {
    let mut source: StrMap<EntryList> = StrMap::new();
    for (key, word, weight) in rows {
        if source.get(key).is_none() {
            source.insert(key.to_string(), EntryList::new());
        }
        let i = source.position(key).unwrap();
        source.value_mut(i).push(entry(word, *weight));
    }
    source
}

fn dictionary(rows: &[(&str, &str, u32)]) -> Trie {
    let compiled = write_binary_dict(source(rows)).unwrap();
    Trie::open(compiled.index, compiled.data).ok().unwrap()
}

fn words(t: &Trie, key: &str) -> Vec<String> {
    match t.get_all_exact(key) {
        Some(v) => v.iter().map(|e| e.word.to_string()).collect(),
        None => vec![],
    }
}

#[test]
fn a_compiled_dictionary_reads_back() {
    let t = dictionary(&[("ni", "你", 9), ("nihao", "你好", 7), ("ni", "尼", 3)]);
    assert_eq!(words(&t, "ni"), vec!["你", "尼"]);
    assert_eq!(words(&t, "nihao"), vec!["你好"]);
    assert!(t.get_all_exact("hao").is_none());
    assert_eq!(t.get_all_exact("nihao").unwrap()[0].weight, 7);
    assert!(t.contains_key("ni"));
    assert!(!t.contains_key("n"));
    assert!(t.has_prefix("nih"));
    assert!(!t.has_prefix("x"));
    assert!(t.has_longer_match("ni"));
    assert!(!t.has_longer_match("nihao"));
    assert_eq!(t.lookup_pinyin("你好"), Some("nihao"));
    assert!(t.has_word_in_dict("尼"));
    assert!(!t.has_word_in_dict("好"));
}

#[test]
fn prefixes_and_patterns_are_searched() {
    let t = dictionary(&[("ni", "你", 9), ("nihao", "你好", 7), ("nihen", "你很", 5), ("wo", "我", 1)]);
    let found: Vec<String> = t.search_bfs("ni", 10).iter().map(|e| e.word.to_string()).collect();
    assert_eq!(found.len(), 3);
    assert!(found.contains(&"你很".to_string()));
    assert_eq!(t.search_bfs("ni", 1).len(), 1);
    let rising = dictionary(&[("ni", "你", 1), ("nihao", "你好", 7), ("nihen", "你很", 5)]);
    let all: Vec<String> = rising.search_bfs("ni", 0).iter().map(|e| e.word.to_string()).collect();
    assert_eq!(all, vec!["你", "你好", "你很"]);
    let best: Vec<String> = rising.search_bfs("ni", 2).iter().map(|e| e.word.to_string()).collect();
    assert_eq!(best, vec!["你好", "你很"]);
    let wild: Vec<String> = t.search_wildcard("nihzz", 10).iter().map(|e| e.word.to_string()).collect();
    assert_eq!(wild, vec!["你好", "你很"]);
    assert_eq!(t.search_wildcard("wz", 10).len(), 1);
    assert_eq!(t.search_wildcard("wzz", 10).len(), 0);
}

#[test]
fn a_dictionary_without_a_header_is_too_old() {
    let c = write_binary_dict(source(&[("a", "啊", 1)])).unwrap();
    assert!(matches!(Trie::open(c.index, vec![1, 2, 3]), Err(TrieError::TooOld)));
}

#[test]
fn a_dictionary_of_another_version_is_refused() {
    let c = write_binary_dict(source(&[("a", "啊", 1)])).unwrap();
    let mut data = c.data;
    data[4] = (TRIE_VERSION + 1) as u8;
    assert!(matches!(Trie::check(c.index.clone(), data.clone()), Err(TrieError::Version(_))));
    match Trie::open(c.index, data) {
        Err(TrieError::Version(v)) => assert_eq!(v, TRIE_VERSION + 1),
        _ => panic!("the version was not noticed"),
    }
}

#[test]
fn an_index_that_is_none_is_refused() {
    let c = write_binary_dict(source(&[("a", "啊", 1)])).unwrap();
    assert!(matches!(Trie::check(vec![0, 1, 2], c.data), Err(TrieError::Index)));
}

#[test]
fn the_checksum_of_an_index_is_not_asked() {
    let c = write_binary_dict(source(&[("a", "啊", 1), ("ba", "吧", 1)])).unwrap();
    let mut index = c.index;
    let last = index.len() - 1;
    index[last] = index[last].wrapping_add(1);
    let (index, data) = Trie::check(index, c.data).ok().unwrap();
    assert_eq!(words(&Trie::open(index, data).ok().unwrap(), "ba"), vec!["吧"]);
}

#[test]
fn a_dictionary_is_compiled_and_opened() {
    let t = compile_and_open(source(&[("ba", "吧", 2), ("a", "啊", 1)])).unwrap();
    assert_eq!(words(&t, "a"), vec!["啊"]);
    let mut twice = source(&[("a", "啊", 1)]);
    twice.entries.push(("a".to_string(), EntryList::new()));
    assert!(compile_and_open(twice).is_none());
}

#[test]
fn a_key_may_stand_once() {
    let mut twice = source(&[("a", "啊", 1)]);
    twice.entries.push(("a".to_string(), EntryList::new()));
    assert!(write_binary_dict(twice).is_none());
}

#[test]
fn sources_become_a_dictionary() {
    let table = br#"{"NI": [{"char": "\u4f60", "en": "you"}, "\u5c3c"], "hao": [{"desc": "nothing"}]}"#.to_vec();
    let list = vec!["...".to_string(), "你好\tni hao\t12".to_string()];
    let c = compile_dict_for_path(&vec![Material::Table(table), Material::List(list)], false, None).unwrap();
    let t = Trie::open(c.index, c.data).ok().unwrap();
    assert_eq!(words(&t, "ni"), vec!["你", "尼"]);
    assert_eq!(t.get_all_exact("ni").unwrap()[0].en, "you");
    assert!(t.get_all_exact("hao").is_none());
    assert_eq!(words(&t, "nihao"), vec!["你好"]);
}

#[test]
fn strokes_are_keys_where_they_are_asked_for() {
    let table = r#"{"ni": [{"char": "你", "stroke_aux": "PW"}]}"#.as_bytes().to_vec();
    let c = compile_dict_for_path(&vec![Material::Table(table)], false, Some("stroke_aux")).unwrap();
    let t = Trie::open(c.index, c.data).ok().unwrap();
    assert_eq!(words(&t, "pw"), vec!["你"]);
    assert!(t.get_all_exact("ni").is_none());
}

fn head() -> Vec<u8> {
    write_binary_dict(source(&[("a", "啊", 1)])).unwrap().data[..8].to_vec()
}

fn changed(extension: &str, mtime: i128) -> SourceFile {
    SourceFile { extension: extension.to_string(), mtime: Some(mtime) }
}

#[test]
fn a_missing_dictionary_is_compiled() {
    assert!(should_compile(&None, None, &vec![]));
}

#[test]
fn a_dictionary_is_compiled_again_when_a_source_is_newer() {
    let second: i128 = 1_000_000_000;
    let target = |mtime| Some(Target { head: Some(head()), mtime });
    let files = vec![changed("json", 9 * second), changed("txt", 50 * second)];
    assert!(should_compile(&target(8 * second), Some(9 * second), &files));
    assert!(!should_compile(&target(8 * second + 1), Some(9 * second), &files));
    assert!(!should_compile(&target(8 * second), Some(8 * second), &files));
    assert!(!should_compile(&target(10 * second), None, &files));
    let old = Some(Target { head: Some(vec![0; 8]), mtime: 99 * second });
    assert!(should_compile(&old, Some(0), &files));
}

#[test]
fn directories_have_their_plans() {
    let stroke = plan_for("stroke");
    assert_eq!(stroke.source, "dicts/chinese/chars");
    assert_eq!(stroke.output, "data/stroke");
    assert_eq!(stroke.key_field, Some("stroke_aux".to_string()));
    let english = plan_for("my_english");
    assert_eq!(english.source, "dicts/my_english");
    assert_eq!(english.output, "data/my_english");
    assert!(english.is_english);
    assert!(!plan_for("chinese").is_english);
    assert!(plan_for("chinese").key_field.is_none());
}

#[test]
fn files_are_read_by_their_names() {
    assert_eq!(reading_of("words.json", "json"), Reading::Table);
    assert_eq!(reading_of("punctuation.json", "json"), Reading::Skip);
    assert_eq!(reading_of("words.yaml", "yaml"), Reading::List);
    assert_eq!(reading_of("words.txt", "txt"), Reading::Skip);
}

#[test]
fn bytes_that_hold_no_value_are_refused() {
    let sources = vec![Material::Table(b"{\"a\": ".to_vec())];
    assert!(matches!(compile_dict_for_path(&sources, false, None), Err(CompileError::Malformed)));
    assert!(parse_tree(b"{\"a\": ").is_none());
    match parse_tree(b" [true, null, 12, -1.5, \"x\"] ") {
        Some(Json::Array(v)) => {
            assert_eq!(v.len(), 5);
            assert!(matches!(v[0], Json::Bool(true)));
            assert!(matches!(v[1], Json::Null));
            assert!(matches!(&v[2], Json::Number(t, Some(12)) if t == "12"));
            assert!(matches!(&v[3], Json::Number(t, None) if t == "-1.5"));
            assert!(matches!(&v[4], Json::Text(t) if t == "x"));
        }
        _ => panic!("no list was read"),
    }
}

#[test]
fn punctuation_is_read() {
    let v = object(vec![
        (
            ",",
            Json::Array(vec![
                object(vec![("char", text("，")), ("desc", text("comma"))]),
                object(vec![("char", text("、"))]),
                text("none"),
            ]),
        ),
        ("x", text("none")),
    ]);
    let d = punctuation_of(&v);
    assert_eq!(d.len(), 1);
    let marks = &d.get(",").unwrap().items;
    assert_eq!(marks.len(), 2);
    assert_eq!(marks[0].char, "，");
    assert_eq!(marks[0].desc, "comma");
    assert_eq!(marks[1].desc, "");
    assert!(punctuation_of(&text("x")).is_empty());
    let read = load_punctuation_dict(r#"{",": [{"char": "，", "desc": "comma"}, {"char": "、"}], "x": 1}"#.as_bytes());
    assert_eq!(read.len(), 1);
    assert_eq!(read.get(",").unwrap().items[0].char, "，");
    assert_eq!(read.get(",").unwrap().items[1].desc, "");
    assert!(load_punctuation_dict(b"{").is_empty());
    assert!(load_punctuation_dict(b"[]").is_empty());
}

#[test]
fn rare_characters_and_syllables_are_read() {
    let v = object(vec![("A", Json::Array(vec![object(vec![("char", text("丂"))])]))]);
    let mut rare = WordSet::new();
    add_rare_chars(&mut rare, &v);
    assert!(rare.contains("丂"));
    assert!(!rare.contains("A"));
    let mut keys = WordSet::new();
    add_syllable_keys(&mut keys, &v);
    assert!(keys.contains("a"));
    assert!(!keys.contains("A"));
    let lines = vec!["  Ni ".to_string(), "".to_string(), "hao".to_string()];
    let levels = vec![r#"{"Nu": [{"char": "丂"}]}"#.as_bytes().to_vec(), b"no value".to_vec()];
    let single = load_single_syllables(&lines, &levels);
    assert!(!single.contains("nu"));
    let keyed = load_single_syllables(&vec!["  ".to_string()], &levels);
    assert!(keyed.contains("nu"));
    assert!(!keyed.contains("ni"));
    let named = load_rare_chars(&levels);
    assert!(named.contains("丂"));
    assert!(!named.contains("Nu"));
    assert!(single.contains("ni"));
    assert!(single.contains("hao"));
    assert!(!single.contains(""));
    let freqs = load_syllable_frequencies(&vec!["NI 12".to_string(), "hao x".to_string(), "wo 3".to_string()]);
    assert_eq!(freqs.get("ni"), Some(12));
    assert_eq!(freqs.get("hao"), None);
    assert_eq!(freqs.get("wo"), Some(3));
}
