use qianyan_ime::config::{Config, EngineOptions, RareCharMode, SmartAuxMode};
use qianyan_ime::config_manager::{ConfigManager, SaveKind};
use qianyan_ime::keys::VirtualKey;
use qianyan_ime::session::InputSession;
use qianyan_ime::session_state::SessionState;
use qianyan_ime::userdict::WordList;

fn options() -> EngineOptions {
    EngineOptions {
        rare_char_mode: RareCharMode::IncludeRare,
        enable_smart_aux: false,
        smart_aux_mode: SmartAuxMode::Greedy,
        enable_error_correction: false,
        enable_context_sorting: false,
        auto_sentence_min_syllables: 2,
        word_learn_threshold: 2,
        short_term_capacity: 100,
        long_term_threshold: 5,
        mru_length: 10,
        double_tap_uppercase_keys: vec![],
        long_press_uppercase_keys: vec![],
        phantom_separator: String::new(),
        nav_delete: vec![],
        nav_fuzzy: vec![],
        nav_clear: vec![],
    }
}

fn manager() -> ConfigManager {
    ConfigManager::new(Config::default_config(options()), 0, false)
}

fn list(words: &[(&str, u32)]) -> WordList {
    let mut l = WordList::new();
    for (w, n) in words {
        l.push((w.to_string(), *n));
    }
    l
}

fn learned(m: &ConfigManager, key: &str) -> Vec<(String, u32)> {
    match m.learned_words.get("chinese").and_then(|p| p.get(key)) {
        Some(l) => l.words.clone(),
        None => vec![],
    }
}

#[test]
fn learned_words_are_kept_and_joined() {
    let mut m = manager();
    m.insert_learned("chinese", "nihao", list(&[("你好", 1)]));
    assert_eq!(learned(&m, "nihao"), vec![("你好".to_string(), 1)]);
    assert_eq!(m.combined_dict.get("chinese").unwrap().get("nihao").unwrap().count_of("你好"), Some(1));
    let saves = m.take_saves();
    assert_eq!(saves.len(), 1);
    assert!(matches!(saves[0].kind, SaveKind::Learned));
    assert_eq!(saves[0].profile, "chinese");
    assert_eq!(m.take_saves().len(), 0);
}

#[test]
fn words_used_often_are_kept_for_long() {
    let mut m = manager();
    m.insert_learned("chinese", "nihao", list(&[("你好", 5)]));
    assert_eq!(learned(&m, "nihao"), vec![]);
    let long = m.long_term_words.get("chinese").unwrap().get("nihao").unwrap();
    assert_eq!(long.count_of("你好"), Some(5));
    assert_eq!(m.combined_dict.get("chinese").unwrap().get("nihao").unwrap().count_of("你好"), Some(5));
    let kinds: Vec<SaveKind> = m.take_saves().into_iter().map(|s| s.kind).collect();
    assert_eq!(kinds.len(), 2);
    assert!(matches!(kinds[1], SaveKind::LongTerm));
}

#[test]
fn words_are_put_among_those_kept_for_long() {
    let mut m = manager();
    m.insert_long_term_direct("chinese", "wo", list(&[("我", 3)]));
    assert_eq!(m.long_term_words.get("chinese").unwrap().get("wo").unwrap().count_of("我"), Some(3));
    assert!(matches!(m.take_saves()[0].kind, SaveKind::LongTerm));
}

#[test]
fn the_word_used_last_comes_first() {
    let mut m = manager();
    m.insert_usage_order("chinese", "一");
    m.insert_usage_order("chinese", "二");
    m.insert_usage_order("chinese", "一");
    assert_eq!(m.user_order.get("chinese").unwrap().words, vec!["一".to_string(), "二".to_string()]);
}

#[test]
fn what_is_used_is_saved_from_time_to_time() {
    let mut m = manager();
    m.save_usage_if_due("chinese", 29_999);
    assert_eq!(m.take_saves().len(), 0);
    m.save_usage_if_due("chinese", 30_000);
    assert_eq!(m.take_saves().len(), 2);
    m.save_usage_if_due("chinese", 30_001);
    assert_eq!(m.take_saves().len(), 0);
}

#[test]
fn everything_is_saved_at_the_end() {
    let mut m = manager();
    m.insert_learned("chinese", "nihao", list(&[("你好", 1)]));
    let _ = m.take_saves();
    m.flush_all();
    let kinds: Vec<SaveKind> = m.take_saves().into_iter().map(|s| s.kind).collect();
    assert!(kinds.iter().any(|k| matches!(k, SaveKind::Learned)));
    assert!(kinds.iter().any(|k| matches!(k, SaveKind::Ngram)));
}

#[test]
fn the_history_keeps_the_last_ten() {
    let mut s = SessionState::new(0);
    for i in 0..12 {
        s.add_to_history(format!("p{i}"), format!("w{i}"));
    }
    assert_eq!(s.commit_history.len(), 10);
    assert_eq!(s.get_last_word(), Some("w11"));
    assert_eq!(s.get_last_two_words(), Some(("w10", "w11")));
    s.clear_history();
    assert_eq!(s.get_last_word(), None);
}

#[test]
fn the_last_two_words_are_joined() {
    let mut s = SessionState::new(0);
    s.add_to_history("ni".to_string(), "你".to_string());
    assert_eq!(s.get_combination_candidates(4).len(), 0);
    s.add_to_history("hao".to_string(), "好".to_string());
    assert_eq!(s.get_combination_candidates(4), vec![("nihao".to_string(), "你好".to_string())]);
    assert_eq!(s.get_combination_candidates(1).len(), 0);
}

#[test]
fn what_was_put_out_last_is_known_for_a_while() {
    let mut s = SessionState::new(0);
    assert_eq!(s.last_commit(5, 10), None);
    s.set_last_committed("ni".to_string(), "你".to_string(), 1000);
    assert_eq!(s.last_commit(5, 5999), Some(("ni", "你")));
    assert_eq!(s.last_commit(5, 6000), None);
}

#[test]
fn numbers_stand_for_keys() {
    for n in 0..65 {
        assert_eq!(VirtualKey::from_u32(n).unwrap().to_u32(), n);
    }
    assert_eq!(VirtualKey::from_u32(65), None);
}

#[test]
fn a_syllable_is_deleted_at_the_cursor() {
    let mut s = InputSession::new();
    s.buffer = "nihao".to_string();
    s.best_segmentation = vec!["ni".to_string(), "hao".to_string()];
    s.cursor_pos = 1;
    assert!(s.delete_syllable_at_cursor());
    assert_eq!(s.buffer, "hao");
}

#[test]
fn only_words_used_often_are_moved() {
    let mut m = manager();
    m.insert_learned("chinese", "ni", list(&[("你", 4), ("尼", 1)]));
    m.insert_learned("chinese", "nihao", list(&[("你好", 7), ("拟好", 2), ("逆号", 5)]));
    assert_eq!(learned(&m, "nihao"), vec![("拟好".to_string(), 2)]);
    assert_eq!(learned(&m, "ni"), vec![("你".to_string(), 4), ("尼".to_string(), 1)]);
    let long = m.long_term_words.get("chinese").unwrap().get("nihao").unwrap();
    assert_eq!(long.count_of("你好"), Some(7));
    assert_eq!(long.count_of("逆号"), Some(5));
    assert_eq!(long.count_of("拟好"), None);
}
