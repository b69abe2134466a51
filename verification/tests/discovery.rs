use qianyan_ime::discovery::{discover_words, is_chinese, DiscoveryConfig};
use qianyan_ime::learning::is_boundary_stopword;
use qianyan_ime::tables::WordSet;

fn known(list: &[&str]) -> WordSet {
    WordSet::from_words(list.iter().map(|s| s.to_string()).collect())
}

#[test]
fn characters_are_told_apart() {
    assert!(is_chinese('中'));
    assert!(is_chinese('㐀'));
    assert!(!is_chinese('a'));
    assert!(!is_chinese('，'));
}

#[test]
fn stop_words_bound_no_word() {
    assert!(is_boundary_stopword("的人"));
    assert!(is_boundary_stopword("人的"));
    assert!(!is_boundary_stopword("人民"));
}

#[test]
fn frequent_runs_are_found() {
    let text = "甲乙丙。甲乙丁，戊甲乙。abc";
    let config = DiscoveryConfig { min_count: 3, max_word_len: 4 };
    let (found, total) = discover_words(text, &config, &known(&[]));
    assert_eq!(found.len(), 1);
    assert_eq!(found[0].word, "甲乙");
    assert_eq!(found[0].count, 3);
    assert_eq!(found[0].parts, vec![(3, 3)]);
    assert_eq!(found[0].left, vec![1]);
    assert_eq!(found[0].right, vec![1, 1]);
    assert_eq!(total, 18);
}

#[test]
fn known_words_are_not_found_again() {
    let config = DiscoveryConfig { min_count: 2, max_word_len: 2 };
    let (found, _) = discover_words("甲乙。甲乙。丙丁。丙丁。丙丁。", &config, &known(&["甲乙"]));
    assert_eq!(found.len(), 1);
    assert_eq!(found[0].word, "丙丁");
}

#[test]
fn frequent_words_come_first() {
    let config = DiscoveryConfig { min_count: 1, max_word_len: 2 };
    let (found, _) = discover_words("甲乙。丙丁。丙丁。", &config, &known(&[]));
    assert_eq!(found[0].word, "丙丁");
    assert_eq!(found[1].word, "甲乙");
}

#[test]
fn a_single_character_is_no_word() {
    let config = DiscoveryConfig::standard();
    assert_eq!(config.min_count, 5);
    assert_eq!(config.max_word_len, 4);
    let (found, total) = discover_words("甲。乙。abc", &config, &known(&[]));
    assert_eq!(found.len(), 0);
    assert_eq!(total, 0);
}
