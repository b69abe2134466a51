use qianyan_ime::config::SmartAuxMode;
use qianyan_ime::segmentation::{DefaultSegmentor, Segmentor};
use qianyan_ime::smart_aux::{detect_smart_aux, is_fully_syllabic};
use qianyan_ime::tables::{FreqTable, WordSet};

fn words(list: &[&str]) -> WordSet {
    WordSet::from_words(list.iter().map(|s| s.to_string()).collect())
}

#[test]
fn pipeline_test_detect_smart_aux_logic() {
    let syllables = words(&["ni", "hao", "wo", "hen"]);
    let mode = SmartAuxMode::Greedy;
    assert_eq!(detect_smart_aux("nih", &syllables, mode), Some(("ni".to_string(), "h".to_string())));
    assert_eq!(detect_smart_aux("nihaoh", &syllables, mode), Some(("nihao".to_string(), "h".to_string())));
    assert_eq!(detect_smart_aux("nihao", &syllables, mode), None);
    assert_eq!(detect_smart_aux("xyz", &syllables, mode), None);
}

#[test]
fn pipeline_test_detect_smart_aux_modes() {
    let syllables = words(&["na", "nan", "hai", "nanhai", "ha"]);
    let greedy = SmartAuxMode::Greedy;
    assert_eq!(detect_smart_aux("nanhaix", &syllables, greedy), Some(("nanhai".to_string(), "x".to_string())));
    let minimal = SmartAuxMode::Minimal;
    assert_eq!(detect_smart_aux("nanhaix", &syllables, minimal), Some(("na".to_string(), "nhaix".to_string())));
}

#[test]
fn pipeline_test_default_segmentor_basic() {
    let segmentor = DefaultSegmentor;
    let syllables = words(&["ni", "hao", "zhong", "guo"]);
    let result = segmentor.segment("nihao", &syllables, "", &FreqTable::new(), &syllables);
    assert_eq!(result, vec!["ni", "hao"]);
}

#[test]
fn pipeline_test_default_segmentor_longer_match() {
    let segmentor = DefaultSegmentor;
    let syllables = words(&["zhong", "guo", "zhongguo"]);
    let result = segmentor.segment("zhongguo", &syllables, "", &FreqTable::new(), &syllables);
    assert_eq!(result, vec!["zhongguo"]);
}

#[test]
fn pipeline_test_default_segmentor_partial_match() {
    let segmentor = DefaultSegmentor;
    let syllables = words(&["zhong", "guo"]);
    let result = segmentor.segment("zhongguo", &syllables, "", &FreqTable::new(), &syllables);
    assert_eq!(result, vec!["zhong", "guo"]);
}

#[test]
fn pipeline_test_default_segmentor_unknown_chars() {
    let segmentor = DefaultSegmentor;
    let syllables = words(&["ni"]);
    let result = segmentor.segment("nixyz", &syllables, "", &FreqTable::new(), &syllables);
    assert_eq!(result, vec!["ni", "x", "y", "z"]);
}

#[test]
fn pipeline_test_default_segmentor_empty_input() {
    let segmentor = DefaultSegmentor;
    let syllables = words(&["ni", "hao"]);
    let result = segmentor.segment("", &syllables, "", &FreqTable::new(), &syllables);
    assert!(result.is_empty());
}

#[test]
fn pipeline_test_default_segmentor_delimiter_apostrophe() {
    let segmentor = DefaultSegmentor;
    let syllables = words(&["xi", "an"]);
    let result = segmentor.segment("xi'an", &syllables, "'", &FreqTable::new(), &syllables);
    assert_eq!(result, vec!["xi", "an"]);
}

#[test]
fn pipeline_test_default_segmentor_delimiter_semicolon() {
    let segmentor = DefaultSegmentor;
    let syllables = words(&["ni", "hao"]);
    let result = segmentor.segment("ni;hao", &syllables, ";", &FreqTable::new(), &syllables);
    assert_eq!(result, vec!["ni", "hao"]);
}

#[test]
fn pipeline_test_default_segmentor_delimiter_edge_cases() {
    let segmentor = DefaultSegmentor;
    let syllables = words(&["ti"]);
    let result = segmentor.segment("ti'", &syllables, "'", &FreqTable::new(), &syllables);
    assert_eq!(result, vec!["ti"]);
    let result = segmentor.segment("'ti", &syllables, "'", &FreqTable::new(), &syllables);
    assert_eq!(result, vec!["ti"]);
    let result = segmentor.segment("xi'an", &syllables, "", &FreqTable::new(), &syllables);
    assert_eq!(result, vec!["x", "i", "'", "a", "n"]);
}

#[test]
fn pipeline_test_default_segmentor_two_pass_merge() {
    let segmentor = DefaultSegmentor;
    let all = words(&["fan", "gan", "fang", "an", "fangan"]);
    let base = words(&["fan", "gan", "fang", "an"]);
    let mut freqs = FreqTable::new();
    freqs.insert("fangan".to_string(), 1);
    let result = segmentor.segment("fangan", &all, "", &freqs, &base);
    assert_eq!(result, vec!["fangan"]);
    let result2 = segmentor.segment("fangan", &all, "", &FreqTable::new(), &base);
    assert!(result2 == vec!["fan", "gan"] || result2 == vec!["fang", "an"],
        "expected either fan+gan or fang+an, got {:?}", result2);
}

#[test]
fn pipeline_test_default_segmentor_wowangjile() {
    let segmentor = DefaultSegmentor;
    let all = words(&["wo", "wang", "wan", "ji", "le", "wowang", "wowan", "wangji", "jile", "g"]);
    let base = words(&["wo", "wang", "wan", "ji", "le", "g"]);
    let mut freqs = FreqTable::new();
    freqs.insert("wowang".to_string(), 14628);
    freqs.insert("wowan".to_string(), 22290);
    freqs.insert("wangji".to_string(), 482559);
    freqs.insert("jile".to_string(), 11073);
    let result = segmentor.segment("wowangjile", &all, "", &freqs, &base);
    assert_eq!(result, vec!["wo", "wangji", "le"]);
}

#[test]
fn pipeline_test_default_segmentor_mana_ambiguity() {
    let segmentor = DefaultSegmentor;
    let all = words(&["ma", "man", "na", "a"]);
    let result = segmentor.segment("mana", &all, "", &FreqTable::new(), &all);
    assert_eq!(result, vec!["ma", "na"]);
}

#[test]
fn pipeline_test_default_segmentor_transpose_guna() {
    let segmentor = DefaultSegmentor;
    let all = words(&["gu", "na", "guan"]);
    let mut freqs = FreqTable::new();
    freqs.insert("guan".to_string(), 100);
    let result = segmentor.segment("guna", &all, "", &freqs, &all);
    assert_eq!(result, vec!["guan"]);
}

#[test]
fn pipeline_test_default_segmentor_transpose_guagn() {
    let segmentor = DefaultSegmentor;
    let all = words(&["guang"]);
    let mut freqs = FreqTable::new();
    freqs.insert("guang".to_string(), 200);
    let result = segmentor.segment("guagn", &all, "", &freqs, &all);
    assert_eq!(result, vec!["guang"]);
}

#[test]
fn pipeline_test_default_segmentor_transpose_correct_input_untouched() {
    let segmentor = DefaultSegmentor;
    let all = words(&["guan", "gu", "an"]);
    let result = segmentor.segment("guan", &all, "", &FreqTable::new(), &all);
    assert_eq!(result, vec!["guan"]);
}

#[test]
fn pipeline_test_default_segmentor_transpose_no_false_positive() {
    let segmentor = DefaultSegmentor;
    let all = words(&["ma", "man", "na", "a"]);
    let result = segmentor.segment("mana", &all, "", &FreqTable::new(), &all);
    assert_eq!(result, vec!["ma", "na"]);
}

#[test]
fn mod_test_detect_smart_aux_logic() {
    let syllables = words(&["ni", "hao", "wo", "hen"]);
    let mode = SmartAuxMode::Greedy;
    assert_eq!(detect_smart_aux("nih", &syllables, mode), Some(("ni".to_string(), "h".to_string())));
    assert_eq!(detect_smart_aux("nihaoh", &syllables, mode), Some(("nihao".to_string(), "h".to_string())));
    assert_eq!(detect_smart_aux("nihao", &syllables, mode), None);
    assert_eq!(detect_smart_aux("xyz", &syllables, mode), None);
}

#[test]
fn mod_test_detect_smart_aux_modes() {
    let syllables = words(&["na", "nan", "hai", "nanhai", "ha"]);
    let greedy = SmartAuxMode::Greedy;
    assert_eq!(detect_smart_aux("nanhaix", &syllables, greedy), Some(("nanhai".to_string(), "x".to_string())));
    let minimal = SmartAuxMode::Minimal;
    assert_eq!(detect_smart_aux("nanhaix", &syllables, minimal), Some(("na".to_string(), "nhaix".to_string())));
}

#[test]
fn mod_test_default_segmentor_basic() {
    let segmentor = DefaultSegmentor;
    let syllables = words(&["ni", "hao", "zhong", "guo"]);
    let result = segmentor.segment("nihao", &syllables, "", &FreqTable::new(), &syllables);
    assert_eq!(result, vec!["ni", "hao"]);
}

#[test]
fn mod_test_default_segmentor_longer_match() {
    let segmentor = DefaultSegmentor;
    let syllables = words(&["zhong", "guo", "zhongguo"]);
    let result = segmentor.segment("zhongguo", &syllables, "", &FreqTable::new(), &syllables);
    assert_eq!(result, vec!["zhongguo"]);
}

#[test]
fn mod_test_default_segmentor_partial_match() {
    let segmentor = DefaultSegmentor;
    let syllables = words(&["zhong", "guo"]);
    let result = segmentor.segment("zhongguo", &syllables, "", &FreqTable::new(), &syllables);
    assert_eq!(result, vec!["zhong", "guo"]);
}

#[test]
fn mod_test_default_segmentor_unknown_chars() {
    let segmentor = DefaultSegmentor;
    let syllables = words(&["ni"]);
    let result = segmentor.segment("nixyz", &syllables, "", &FreqTable::new(), &syllables);
    assert_eq!(result, vec!["ni", "x", "y", "z"]);
}

#[test]
fn mod_test_default_segmentor_empty_input() {
    let segmentor = DefaultSegmentor;
    let syllables = words(&["ni", "hao"]);
    let result = segmentor.segment("", &syllables, "", &FreqTable::new(), &syllables);
    assert!(result.is_empty());
}

#[test]
fn mod_test_default_segmentor_delimiter_apostrophe() {
    let segmentor = DefaultSegmentor;
    let syllables = words(&["xi", "an"]);
    let result = segmentor.segment("xi'an", &syllables, "'", &FreqTable::new(), &syllables);
    assert_eq!(result, vec!["xi", "an"]);
}

#[test]
fn mod_test_default_segmentor_delimiter_semicolon() {
    let segmentor = DefaultSegmentor;
    let syllables = words(&["ni", "hao"]);
    let result = segmentor.segment("ni;hao", &syllables, ";", &FreqTable::new(), &syllables);
    assert_eq!(result, vec!["ni", "hao"]);
}

#[test]
fn mod_test_default_segmentor_delimiter_edge_cases() {
    let segmentor = DefaultSegmentor;
    let syllables = words(&["ti"]);
    let result = segmentor.segment("ti'", &syllables, "'", &FreqTable::new(), &syllables);
    assert_eq!(result, vec!["ti"]);
    let result = segmentor.segment("'ti", &syllables, "'", &FreqTable::new(), &syllables);
    assert_eq!(result, vec!["ti"]);
    let result = segmentor.segment("xi'an", &syllables, "", &FreqTable::new(), &syllables);
    assert_eq!(result, vec!["x", "i", "'", "a", "n"]);
}

#[test]
fn mod_test_default_segmentor_two_pass_merge() {
    let segmentor = DefaultSegmentor;
    let all = words(&["fan", "gan", "fang", "an", "fangan"]);
    let base = words(&["fan", "gan", "fang", "an"]);
    let mut freqs = FreqTable::new();
    freqs.insert("fangan".to_string(), 1);
    let result = segmentor.segment("fangan", &all, "", &freqs, &base);
    assert_eq!(result, vec!["fangan"]);
    let result2 = segmentor.segment("fangan", &all, "", &FreqTable::new(), &base);
    assert!(result2 == vec!["fan", "gan"] || result2 == vec!["fang", "an"],
        "expected either fan+gan or fang+an, got {:?}", result2);
}

#[test]
fn mod_test_default_segmentor_wowangjile() {
    let segmentor = DefaultSegmentor;
    let all = words(&["wo", "wang", "wan", "ji", "le", "wowang", "wowan", "wangji", "jile", "g"]);
    let base = words(&["wo", "wang", "wan", "ji", "le", "g"]);
    let mut freqs = FreqTable::new();
    freqs.insert("wowang".to_string(), 14628);
    freqs.insert("wowan".to_string(), 22290);
    freqs.insert("wangji".to_string(), 482559);
    freqs.insert("jile".to_string(), 11073);
    let result = segmentor.segment("wowangjile", &all, "", &freqs, &base);
    assert_eq!(result, vec!["wo", "wangji", "le"]);
}

#[test]
fn mod_test_default_segmentor_mana_ambiguity() {
    let segmentor = DefaultSegmentor;
    let all = words(&["ma", "man", "na", "a"]);
    let result = segmentor.segment("mana", &all, "", &FreqTable::new(), &all);
    assert_eq!(result, vec!["ma", "na"]);
}

#[test]
fn mod_test_default_segmentor_transpose_guna() {
    let segmentor = DefaultSegmentor;
    let all = words(&["gu", "na", "guan"]);
    let mut freqs = FreqTable::new();
    freqs.insert("guan".to_string(), 100);
    let result = segmentor.segment("guna", &all, "", &freqs, &all);
    assert_eq!(result, vec!["guan"]);
}

#[test]
fn mod_test_default_segmentor_transpose_guagn() {
    let segmentor = DefaultSegmentor;
    let all = words(&["guang"]);
    let mut freqs = FreqTable::new();
    freqs.insert("guang".to_string(), 200);
    let result = segmentor.segment("guagn", &all, "", &freqs, &all);
    assert_eq!(result, vec!["guang"]);
}

#[test]
fn mod_test_default_segmentor_transpose_correct_input_untouched() {
    let segmentor = DefaultSegmentor;
    let all = words(&["guan", "gu", "an"]);
    let result = segmentor.segment("guan", &all, "", &FreqTable::new(), &all);
    assert_eq!(result, vec!["guan"]);
}

#[test]
fn mod_test_default_segmentor_transpose_no_false_positive() {
    let segmentor = DefaultSegmentor;
    let all = words(&["ma", "man", "na", "a"]);
    let result = segmentor.segment("mana", &all, "", &FreqTable::new(), &all);
    assert_eq!(result, vec!["ma", "na"]);
}

#[test]
fn a_better_piece_takes_back_a_correction() {
    let mut freq = FreqTable::new();
    freq.insert("ab".to_string(), 10);
    let none = WordSet::new();
    assert_eq!(DefaultSegmentor::viterbi_segment("ba", &freq, &none), vec!["ab"]);
    freq.insert("a".to_string(), 20);
    assert_eq!(DefaultSegmentor::viterbi_segment("ba", &freq, &none), vec!["b", "a"]);
}

#[test]
fn the_pieces_are_the_best() {
    let mut freq = FreqTable::new();
    freq.insert("ab".to_string(), 5);
    freq.insert("bc".to_string(), 6);
    freq.insert("abc".to_string(), 6);
    let none = WordSet::new();
    assert_eq!(DefaultSegmentor::viterbi_segment("abc", &freq, &none), vec!["abc"]);
}

#[test]
fn delimiters_part_and_capitals_do_not_matter() {
    let base = words(&["xi", "an", "ni"]);
    let none = FreqTable::new();
    let cut = |s: &str| DefaultSegmentor.segment(s, &base, "';", &none, &base);
    let mut parts = cut("xian");
    parts.extend(cut("ni"));
    assert_eq!(cut("xian;ni"), parts);
    assert_eq!(cut("XiAn;NI"), parts);
}

#[test]
fn any_number_of_syllables_is_syllabic() {
    let base = words(&["ma", "man", "na"]);
    assert!(is_fully_syllabic(&"ma".repeat(40), &base));
    assert!(!is_fully_syllabic(&format!("{}m", "ma".repeat(40)), &base));
    assert!(is_fully_syllabic("mana", &base));
    assert!(is_fully_syllabic("", &base));
}

#[test]
fn a_delimiter_beyond_ascii_parts() {
    let base = words(&["xi", "an", "ni"]);
    let none = FreqTable::new();
    let cut = |s: &str| DefaultSegmentor.segment(s, &base, "，'", &none, &base);
    let mut parts = cut("xian");
    parts.extend(cut("ni"));
    assert_eq!(cut("xian，ni"), parts);
    assert_eq!(cut("XiAn，NI"), parts);
    assert_eq!(parts.concat(), "xianni");
}
