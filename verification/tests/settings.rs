use qianyan_ime::config::{Config, EngineOptions, RareCharMode, SmartAuxMode};
use qianyan_ime::json::{deep_merge, Json};
use qianyan_ime::pages::{merge_pages, split_pages, take_quick_finals};

fn options() -> EngineOptions {
    EngineOptions {
        rare_char_mode: RareCharMode::IncludeRare,
        enable_smart_aux: false,
        smart_aux_mode: SmartAuxMode::Greedy,
        enable_error_correction: false,
        enable_context_sorting: false,
        auto_sentence_min_syllables: 2,
        word_learn_threshold: 2,
        short_term_capacity: 100,
        long_term_threshold: 5,
        mru_length: 10,
        double_tap_uppercase_keys: vec![],
        long_press_uppercase_keys: vec![],
        phantom_separator: String::new(),
        nav_delete: vec![],
        nav_fuzzy: vec![],
        nav_clear: vec![],
    }
}

fn text(s: &str) -> Json {
    Json::Text(s.to_string())
}

fn object(members: Vec<(&str, Json)>) -> Json {
    Json::Object(members.into_iter().map(|(k, v)| (k.to_string(), v)).collect())
}

fn word<'a>(v: &'a Json, path: &[&str]) -> Option<&'a str> {
    let mut at = v;
    for k in path {
        at = at.get(k)?;
    }
    at.as_str()
}

fn settings() -> Json {
    object(vec![
        (
            "input",
            object(vec![("default_profile", text("chinese")), ("commit_mode", text("single")), ("unknown", text("x"))]),
        ),
        ("appearance", object(vec![("theme", text("light"))])),
        ("layouts", object(vec![("chinese", text("plain"))])),
    ])
}

#[test]
fn settings_at_the_start() {
    let c = Config::default_config(options());
    assert_eq!(c.input.default_profile, "chinese");
    assert_eq!(c.input.commit_mode, "single");
    assert_eq!(c.input.segmentation_delimiters, "'");
    assert_eq!(c.input.ranking.exact_match_bonus, 10_000_000_000);
    assert!(!c.enable_quick_finals);
}

#[test]
fn a_theme_recolors_the_window() {
    let light = Config::default_config(options()).appearance.window_bg_color;
    let mut c = Config::default_config(options());
    c.apply_theme(true);
    assert_ne!(c.appearance.window_bg_color, light);
    c.apply_theme(false);
    assert_eq!(c.appearance.window_bg_color, light);
}

#[test]
fn a_patch_goes_over_what_was_there() {
    let merged = deep_merge(settings(), object(vec![("input", object(vec![("commit_mode", text("double"))]))]));
    assert_eq!(word(&merged, &["input", "commit_mode"]), Some("double"));
    assert_eq!(word(&merged, &["input", "default_profile"]), Some("chinese"));
    assert_eq!(word(&merged, &["appearance", "theme"]), Some("light"));
}

#[test]
fn settings_come_back_from_their_pages() {
    let pages = split_pages(&settings());
    assert_eq!(pages.len(), 8);
    assert_eq!(word(pages.get("layout").unwrap(), &["layouts", "chinese"]), Some("plain"));
    let all: Vec<Json> = pages.entries.into_iter().map(|(_, p)| p).collect();
    let back = merge_pages(object(vec![]), &all);
    assert_eq!(word(&back, &["input", "default_profile"]), Some("chinese"));
    assert_eq!(word(&back, &["input", "unknown"]), Some("x"));
    assert_eq!(word(&back, &["appearance", "theme"]), Some("light"));
}

#[test]
fn quick_finals_are_taken_from_their_page() {
    let s = take_quick_finals(settings(), true, text("finals"));
    assert!(matches!(s.get("enable_quick_finals"), Some(Json::Bool(true))));
    assert_eq!(word(&s, &["quick_finals"]), Some("finals"));
}

#[test]
fn pages_are_laid_over_any_settings() {
    let mut full = settings();
    full = deep_merge(full, object(vec![
        ("enable_quick_finals", Json::Bool(true)),
        ("input", object(vec![("autostart", text("yes")), ("fuzzy_config", object(vec![("z_zh", text("on"))]))])),
        ("appearance", object(vec![("show_tray", text("no"))])),
    ]));
    let base = object(vec![
        ("enable_quick_finals", Json::Bool(false)),
        ("input", object(vec![("autostart", text("no")), ("fuzzy_config", object(vec![("c_ch", text("off"))]))])),
        ("appearance", object(vec![("theme", text("dark")), ("font", text("plain"))])),
    ]);
    let all: Vec<Json> = split_pages(&full).entries.into_iter().map(|(_, p)| p).collect();
    let back = merge_pages(base, &all);
    assert!(matches!(back.get("enable_quick_finals"), Some(Json::Bool(true))));
    assert_eq!(word(&back, &["input", "autostart"]), Some("yes"));
    assert_eq!(word(&back, &["input", "commit_mode"]), Some("single"));
    assert_eq!(word(&back, &["input", "fuzzy_config", "z_zh"]), Some("on"));
    assert_eq!(word(&back, &["input", "fuzzy_config", "c_ch"]), Some("off"));
    assert_eq!(word(&back, &["appearance", "theme"]), Some("light"));
    assert_eq!(word(&back, &["appearance", "show_tray"]), Some("no"));
    assert_eq!(word(&back, &["appearance", "font"]), Some("plain"));
}
