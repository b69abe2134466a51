use qianyan_ime::compiler::{write_binary_dict, DictEntry, EntryList};
use qianyan_ime::strmap::StrMap;
use qianyan_ime::text::{
    alphanumeric, chars_of, ends_with, parse_u64, remove_char, space, split_at_any, split_once, starts_with, sub_str,
    to_capital, to_lower, to_small, trim, trim_end,
};
use qianyan_ime::trie::Trie;

#[test]
fn letters_change_their_case() {
    assert_eq!(to_lower("NiHao"), "nihao");
    assert_eq!(to_lower("ÄÖ中Ω"), "äö中ω");
    assert_eq!(to_capital('a'), "A");
    assert_eq!(to_capital('ß'), "SS");
    assert_eq!(to_small('A'), "a");
    assert_eq!(to_small('Ä'), "ä");
}

#[test]
fn characters_are_classified() {
    assert!(space(' '));
    assert!(space('\t'));
    assert!(space('\u{3000}'));
    assert!(!space('中'));
    assert!(alphanumeric('7'));
    assert!(alphanumeric('中'));
    assert!(!alphanumeric('，'));
    assert!(!alphanumeric('-'));
}

#[test]
fn texts_are_cut_and_trimmed() {
    assert_eq!(trim("\u{3000} ni \t"), "ni");
    assert_eq!(trim_end(" ni \u{3000}"), " ni");
    assert_eq!(sub_str("你好吗", 3, 6), "好");
    assert_eq!(split_at_any("a,b;;c", &[',', ';']), vec!["a", "b", "", "c"]);
    assert_eq!(split_at_any("", &[',']), vec![""]);
    assert_eq!(split_once("ni 12", ' '), Some(("ni".to_string(), "12".to_string())));
    assert_eq!(split_once("ni", ' '), None);
    assert_eq!(remove_char("n i h", ' '), "nih");
    assert!(starts_with("你好", "你"));
    assert!(!starts_with("你", "你好"));
    assert!(ends_with("你好", "好"));
    assert_eq!(chars_of("你a"), vec!['你', 'a']);
}

#[test]
fn numbers_are_read() {
    assert_eq!(parse_u64("0"), Some(0));
    assert_eq!(parse_u64("18446744073709551615"), Some(u64::MAX));
    assert_eq!(parse_u64("18446744073709551616"), None);
    assert_eq!(parse_u64(""), None);
    assert_eq!(parse_u64("1x"), None);
    assert_eq!(parse_u64("+7"), Some(7));
}

#[test]
fn maps_keep_the_order_of_their_keys() {
    let mut m: StrMap<String> = StrMap::new();
    m.insert("b".to_string(), "1".to_string());
    m.insert("a".to_string(), "2".to_string());
    m.insert("b".to_string(), "3".to_string());
    assert_eq!(m.len(), 2);
    assert_eq!(m.get("b"), Some(&"3".to_string()));
    assert_eq!(m.position("a"), Some(1));
    m.remove("b");
    assert_eq!(m.get("b"), None);
    assert!(m.contains_key("a"));
}

#[test]
fn keys_that_are_no_texts_are_read_with_replacements() {
    let mut source: StrMap<EntryList> = StrMap::new();
    let mut list = EntryList::new();
    list.push(DictEntry {
        word: "甲".to_string(),
        trad: String::new(),
        tone: String::new(),
        en: String::new(),
        stroke_aux: String::new(),
        weight: 1,
        flags: 0,
    });
    source.insert("k".to_string(), list);
    let compiled = write_binary_dict(source).unwrap();
    let offset = fst::Map::new(compiled.index).unwrap().get("k").unwrap();
    let mut keys: Vec<(Vec<u8>, u64)> =
        vec![(b"a".to_vec(), offset), ("\u{fffd}".as_bytes().to_vec(), offset), (vec![0xff, b'a'], offset)];
    keys.sort();
    let index = fst::Map::from_iter(keys).unwrap().into_fst().into_inner();
    let trie = Trie::open(index, compiled.data).ok().unwrap();
    let found = trie.search_abbreviation(&["".to_string(), "a".to_string()], 10);
    assert_eq!(found.len(), 1);
    assert_eq!(found[0].word, "甲");
}
