//! The settings at the start.

use vstd::prelude::*;
use crate::config;
use crate::config::{AntiTypoMode, Appearance, Config, DisplayMode, DoublePinyinScheme, EngineOptions, EnglishAuxMode, Files, FuzzyPinyinConfig, Hotkey, Hotkeys, Input, KeyAction, LinuxConfig, PhantomType, Profile, ProfileKey, ProfileLayout, QuickFinal, RankingConfig, TextStyle};
use crate::strmap::StrMap;
use crate::text;

verus! {

/// The keys that turn to the page before.
pub open spec fn page_up_texts() -> Seq<Seq<char>> {
    seq!["Up"@, "PageUp"@, "-"@, ","@, "["@]
}

/// The keys that turn to the page before.
pub fn default_page_up() -> (r: Vec<String>)
    ensures
        text::texts(r@) == page_up_texts(),
{
    let mut v: Vec<String> = Vec::new();
    v.push("Up".to_owned());
    v.push("PageUp".to_owned());
    v.push("-".to_owned());
    v.push(",".to_owned());
    v.push("[".to_owned());
    proof {
        assert(text::texts(v@) =~= page_up_texts());
    }
    v
}

/// The keys that turn to the next page.
pub open spec fn page_down_texts() -> Seq<Seq<char>> {
    seq!["Down"@, "PageDown"@, "="@, "."@, "]"@]
}

/// The keys that turn to the next page.
pub fn default_page_down() -> (r: Vec<String>)
    ensures
        text::texts(r@) == page_down_texts(),
{
    let mut v: Vec<String> = Vec::new();
    v.push("Down".to_owned());
    v.push("PageDown".to_owned());
    v.push("=".to_owned());
    v.push(".".to_owned());
    v.push("]".to_owned());
    proof {
        assert(text::texts(v@) =~= page_down_texts());
    }
    v
}

/// The keys that choose the candidate before.
pub open spec fn prev_candidate_texts() -> Seq<Seq<char>> {
    seq!["Left"@]
}

/// The keys that choose the candidate before.
pub fn default_prev_candidate() -> (r: Vec<String>)
    ensures
        text::texts(r@) == prev_candidate_texts(),
{
    let mut v: Vec<String> = Vec::new();
    v.push("Left".to_owned());
    proof {
        assert(text::texts(v@) =~= prev_candidate_texts());
    }
    v
}

/// The keys that choose the next candidate.
pub open spec fn next_candidate_texts() -> Seq<Seq<char>> {
    seq!["Right"@]
}

/// The keys that choose the next candidate.
pub fn default_next_candidate() -> (r: Vec<String>)
    ensures
        text::texts(r@) == next_candidate_texts(),
{
    let mut v: Vec<String> = Vec::new();
    v.push("Right".to_owned());
    proof {
        assert(text::texts(v@) =~= next_candidate_texts());
    }
    v
}

/// The keys that choose a character of a word.
pub open spec fn word_to_char_texts() -> Seq<Seq<char>> {
    seq!["9"@, "0"@]
}

/// The keys that choose a character of a word.
pub fn default_word_to_char() -> (r: Vec<String>)
    ensures
        text::texts(r@) == word_to_char_texts(),
{
    let mut v: Vec<String> = Vec::new();
    v.push("9".to_owned());
    v.push("0".to_owned());
    proof {
        assert(text::texts(v@) =~= word_to_char_texts());
    }
    v
}

/// The keys that choose a character of a word while tab is held down.
pub open spec fn word_to_char_shift_texts() -> Seq<Seq<char>> {
    seq!["1"@, "2"@]
}

/// The keys that choose a character of a word while tab is held down.
pub fn default_word_to_char_shift() -> (r: Vec<String>)
    ensures
        text::texts(r@) == word_to_char_shift_texts(),
{
    let mut v: Vec<String> = Vec::new();
    v.push("1".to_owned());
    v.push("2".to_owned());
    proof {
        assert(text::texts(v@) =~= word_to_char_shift_texts());
    }
    v
}

/// The profiles that are enabled.
pub open spec fn enabled_profiles_texts() -> Seq<Seq<char>> {
    seq!["chinese"@]
}

/// The profiles that are enabled.
pub fn default_enabled_profiles() -> (r: Vec<String>)
    ensures
        text::texts(r@) == enabled_profiles_texts(),
{
    let mut v: Vec<String> = Vec::new();
    v.push("chinese".to_owned());
    proof {
        assert(text::texts(v@) =~= enabled_profiles_texts());
    }
    v
}

/// A key and what it does.
pub open spec fn hotkey(h: Hotkey) -> (Seq<char>, Seq<char>) {
    (h.key@, h.description@)
}

/// The key that switches between the forms of writing.
pub fn default_toggle_traditional() -> (r: Hotkey)
    ensures
        hotkey(r) == ("CapsLock+F"@, "繁简体切换"@),
{
    Hotkey { key: "CapsLock+F".to_owned(), description: "繁简体切换".to_owned() }
}

/// Whether the keys of the commands are those at the start.
pub open spec fn hotkeys_at_start(h: Hotkeys) -> bool {
    &&& hotkey(h.switch_language) == ("CapsLock"@, "核心: 切换中/英文模式"@)
    &&& text::texts(h.page_up@) == page_up_texts()
    &&& text::texts(h.page_down@) == page_down_texts()
    &&& text::texts(h.prev_candidate@) == prev_candidate_texts()
    &&& text::texts(h.next_candidate@) == next_candidate_texts()
    &&& !h.enable_tab_toggle
    &&& !h.enable_ctrl_space_toggle
    &&& h.enable_ctrl_capslock_commit
    &&& hotkey(h.toggle_traditional) == ("CapsLock+F"@, "繁简体切换"@)
    &&& text::texts(h.word_to_char@) == word_to_char_texts()
    &&& text::texts(h.word_to_char_shift@) == word_to_char_shift_texts()
}

/// The keys of the commands at the start.
pub fn default_hotkeys() -> (r: Hotkeys)
    ensures
        hotkeys_at_start(r),
{
    Hotkeys {
        switch_language: Hotkey {
            key: "CapsLock".to_owned(),
            description: "核心: 切换中/英文模式".to_owned(),
        },
        page_up: default_page_up(),
        page_down: default_page_down(),
        prev_candidate: default_prev_candidate(),
        next_candidate: default_next_candidate(),
        enable_tab_toggle: false,
        enable_ctrl_space_toggle: false,
        enable_ctrl_capslock_commit: true,
        toggle_traditional: default_toggle_traditional(),
        word_to_char: default_word_to_char(),
        word_to_char_shift: default_word_to_char_shift(),
    }
}

/// The dictionaries and their paths.
pub open spec fn files_pairs() -> Seq<(Seq<char>, Seq<char>)> {
    seq![
        ("chinese"@, "data/chinese/trie"@),
        ("english"@, "data/english/trie"@),
        ("japanese"@, "data/japanese/trie"@),
        ("stroke"@, "data/stroke/trie"@),
    ]
}

/// The dictionaries and their paths.
pub open spec fn files_of(v: Seq<Profile>) -> Seq<(Seq<char>, Seq<char>)> {
    v.map_values(|e: Profile| (e.name@, e.path@))
}

/// The dictionaries and their paths.
pub fn default_files() -> (r: Vec<Profile>)
    ensures
        files_of(r@) == files_pairs(),
{
    let mut v: Vec<Profile> = Vec::new();
    v.push(Profile { name: "chinese".to_owned(), path: "data/chinese/trie".to_owned() });
    v.push(Profile { name: "english".to_owned(), path: "data/english/trie".to_owned() });
    v.push(Profile { name: "japanese".to_owned(), path: "data/japanese/trie".to_owned() });
    v.push(Profile { name: "stroke".to_owned(), path: "data/stroke/trie".to_owned() });
    proof {
        assert(files_of(v@) =~= files_pairs());
    }
    v
}

/// The keys that choose profiles.
pub open spec fn profile_keys_pairs() -> Seq<(Seq<char>, Seq<char>)> {
    seq![
        ("c"@, "chinese"@),
        ("e"@, "english"@),
        ("j"@, "japanese"@),
        ("b"@, "stroke"@),
        ("m"@, "chinese,english,japanese"@),
        ("s"@, "shengpizi"@),
    ]
}

/// The keys that choose profiles.
pub open spec fn profile_keys_of(v: Seq<ProfileKey>) -> Seq<(Seq<char>, Seq<char>)> {
    v.map_values(|e: ProfileKey| (e.key@, e.profile@))
}

/// The keys that choose profiles.
pub fn default_profile_keys() -> (r: Vec<ProfileKey>)
    ensures
        profile_keys_of(r@) == profile_keys_pairs(),
{
    let mut v: Vec<ProfileKey> = Vec::new();
    v.push(ProfileKey { key: "c".to_owned(), profile: "chinese".to_owned() });
    v.push(ProfileKey { key: "e".to_owned(), profile: "english".to_owned() });
    v.push(ProfileKey { key: "j".to_owned(), profile: "japanese".to_owned() });
    v.push(ProfileKey { key: "b".to_owned(), profile: "stroke".to_owned() });
    v.push(ProfileKey { key: "m".to_owned(), profile: "chinese,english,japanese".to_owned() });
    v.push(ProfileKey { key: "s".to_owned(), profile: "shengpizi".to_owned() });
    proof {
        assert(profile_keys_of(v@) =~= profile_keys_pairs());
    }
    v
}

/// The keys that complete a syllable.
pub open spec fn quick_finals_pairs() -> Seq<(Seq<char>, Seq<char>)> {
    seq![
        ("u"@, "uang"@),
        ("i"@, "ing"@),
        ("o"@, "ong"@),
        ("p"@, "iong"@),
        ("h"@, "ang"@),
        ("j"@, "eng"@),
        ("k"@, "uai"@),
        ("l"@, "iang"@),
        ("n"@, "iao"@),
        ("m"@, "ian"@),
        ("y"@, "uan"@),
    ]
}

/// The keys that complete a syllable.
pub open spec fn quick_finals_of(v: Seq<QuickFinal>) -> Seq<(Seq<char>, Seq<char>)> {
    v.map_values(|e: QuickFinal| (e.key@, e.final_text@))
}

/// The keys that complete a syllable.
pub fn default_quick_finals() -> (r: Vec<QuickFinal>)
    ensures
        quick_finals_of(r@) == quick_finals_pairs(),
{
    let mut v: Vec<QuickFinal> = Vec::new();
    v.push(QuickFinal { key: "u".to_owned(), final_text: "uang".to_owned() });
    v.push(QuickFinal { key: "i".to_owned(), final_text: "ing".to_owned() });
    v.push(QuickFinal { key: "o".to_owned(), final_text: "ong".to_owned() });
    v.push(QuickFinal { key: "p".to_owned(), final_text: "iong".to_owned() });
    v.push(QuickFinal { key: "h".to_owned(), final_text: "ang".to_owned() });
    v.push(QuickFinal { key: "j".to_owned(), final_text: "eng".to_owned() });
    v.push(QuickFinal { key: "k".to_owned(), final_text: "uai".to_owned() });
    v.push(QuickFinal { key: "l".to_owned(), final_text: "iang".to_owned() });
    v.push(QuickFinal { key: "n".to_owned(), final_text: "iao".to_owned() });
    v.push(QuickFinal { key: "m".to_owned(), final_text: "ian".to_owned() });
    v.push(QuickFinal { key: "y".to_owned(), final_text: "uan".to_owned() });
    proof {
        assert(quick_finals_of(v@) =~= quick_finals_pairs());
    }
    v
}

/// The initials of double pinyin.
pub open spec fn initials_pairs() -> Seq<(Seq<char>, Seq<char>)> {
    seq![
        ("v"@, "zh"@),
        ("u"@, "sh"@),
        ("i"@, "ch"@),
    ]
}

/// The initials of double pinyin.
fn default_initials() -> (r: StrMap<String>)
    ensures
        r@ == initials_pairs(),
{
    let mut m: Vec<(String, String)> = Vec::new();
    m.push(("v".to_owned(), "zh".to_owned()));
    m.push(("u".to_owned(), "sh".to_owned()));
    m.push(("i".to_owned(), "ch".to_owned()));
    let r = StrMap { entries: m };
    proof {
        assert(r@ =~= initials_pairs());
    }
    r
}

/// The rimes of double pinyin.
pub open spec fn rimes_pairs() -> Seq<(Seq<char>, Seq<char>)> {
    seq![
        ("p"@, "ie"@),
        ("b"@, "in"@),
        ("m"@, "ian"@),
        ("q"@, "iu"@),
        ("r"@, "uan"@),
        ("x"@, "ia"@),
        ("k"@, "ao"@),
        ("f"@, "en"@),
        ("d"@, "ai"@),
        ("j"@, "an"@),
        ("t"@, "ue"@),
        ("c"@, "ao"@),
        ("s"@, "ong"@),
        ("z"@, "ou"@),
        ("y"@, "un"@),
        ("w"@, "ei"@),
        ("l"@, "iang"@),
    ]
}

/// The rimes of double pinyin.
fn default_rimes() -> (r: StrMap<String>)
    ensures
        r@ == rimes_pairs(),
{
    let mut m: Vec<(String, String)> = Vec::new();
    m.push(("p".to_owned(), "ie".to_owned()));
    m.push(("b".to_owned(), "in".to_owned()));
    m.push(("m".to_owned(), "ian".to_owned()));
    m.push(("q".to_owned(), "iu".to_owned()));
    m.push(("r".to_owned(), "uan".to_owned()));
    m.push(("x".to_owned(), "ia".to_owned()));
    m.push(("k".to_owned(), "ao".to_owned()));
    m.push(("f".to_owned(), "en".to_owned()));
    m.push(("d".to_owned(), "ai".to_owned()));
    m.push(("j".to_owned(), "an".to_owned()));
    m.push(("t".to_owned(), "ue".to_owned()));
    m.push(("c".to_owned(), "ao".to_owned()));
    m.push(("s".to_owned(), "ong".to_owned()));
    m.push(("z".to_owned(), "ou".to_owned()));
    m.push(("y".to_owned(), "un".to_owned()));
    m.push(("w".to_owned(), "ei".to_owned()));
    m.push(("l".to_owned(), "iang".to_owned()));
    let r = StrMap { entries: m };
    proof {
        assert(r@ =~= rimes_pairs());
    }
    r
}

/// A style, as text.
pub open spec fn style(s: TextStyle) -> (Seq<char>, u32, u32, Seq<char>, i64) {
    (s.font_family@, s.font_size, s.font_weight, s.color@, s.alpha)
}

/// A style of the font that the desktop sets.
fn plain_style(size: u32, weight: u32, color: &str, alpha: i64) -> (r: TextStyle)
    ensures
        style(r) == (""@, size, weight, color@, alpha),
{
    TextStyle {
        font_family: "".to_owned(),
        font_size: size,
        font_weight: weight,
        color: color.to_owned(),
        alpha,
    }
}

/// Whether the candidate window looks as at the start.
pub open spec fn looks_as_at_start(a: Appearance) -> bool {
    &&& a.show_candidates
    &&& a.page_size == 5
    &&& a.candidate_anchor@ == "bottom"@
    &&& a.candidate_layout@ == "horizontal"@
    &&& a.corner_radius == 10000
    &&& a.window_bg_color@ == "#ffffff"@
    &&& a.window_highlight_color@ == "#0969da"@
    &&& a.window_highlight_text_color@ == "#ffffff"@
    &&& a.window_border_color@ == "rgba(0, 0, 0, 0.1)"@
    &&& a.window_padding_x == 18
    &&& a.window_padding_y == 14
    &&& a.item_spacing == 16000
    &&& a.row_spacing == 8000
    &&& a.theme_mode@ == "auto"@
    &&& style(a.pinyin_text) == (""@, 18u32, 400u32, "#586069"@, 1000i64)
    &&& style(a.candidate_text) == (""@, 18u32, 600u32, "#24292e"@, 1000i64)
    &&& style(a.hint_text) == (""@, 14u32, 400u32, "#6e7781"@, 800i64)
    &&& style(a.comment_text) == (""@, 12u32, 400u32, "#0969da"@, 700i64)
    &&& !a.enable_random_highlight
    &&& a.show_learning_stroke_hint
    &&& a.show_learning_english_hint
    &&& a.auto_pronounce
    &&& a.show_tray
}

/// How the candidate window looks at the start.
pub fn default_appearance() -> (r: Appearance)
    ensures
        looks_as_at_start(r),
{
    Appearance {
        show_candidates: true,
        page_size: 5,
        candidate_anchor: "bottom".to_owned(),
        candidate_layout: "horizontal".to_owned(),
        corner_radius: 10000,
        window_bg_color: "#ffffff".to_owned(),
        window_highlight_color: "#0969da".to_owned(),
        window_highlight_text_color: "#ffffff".to_owned(),
        window_border_color: "rgba(0, 0, 0, 0.1)".to_owned(),
        window_padding_x: 18,
        window_padding_y: 14,
        item_spacing: 16000,
        row_spacing: 8000,
        theme_mode: "auto".to_owned(),
        pinyin_text: plain_style(18, 400, "#586069", 1000),
        candidate_text: plain_style(18, 600, "#24292e", 1000),
        hint_text: plain_style(14, 400, "#6e7781", 800),
        comment_text: plain_style(12, 400, "#0969da", 700),
        enable_random_highlight: false,
        show_learning_stroke_hint: true,
        show_learning_english_hint: true,
        auto_pronounce: true,
        show_tray: true,
    }
}

/// The colors of a theme: of the window, what is chosen in it, the letter of that and the border,
/// then of the letters typed, the candidates and the hints.
pub open spec fn theme_colors(dark: bool) -> Seq<Seq<char>> {
    if dark {
        seq![
            "#1e1e1e"@,
            "#0078d4"@,
            "#ffffff"@,
            "rgba(255, 255, 255, 0.15)"@,
            "#bbbbbb"@,
            "#eeeeee"@,
            "#888888"@,
        ]
    } else {
        seq![
            "#ffffff"@,
            "#0969da"@,
            "#ffffff"@,
            "rgba(0, 0, 0, 0.1)"@,
            "#586069"@,
            "#24292e"@,
            "#6e7781"@,
        ]
    }
}

/// The colors of a window.
pub open spec fn colors(a: Appearance) -> Seq<Seq<char>> {
    seq![
        a.window_bg_color@,
        a.window_highlight_color@,
        a.window_highlight_text_color@,
        a.window_border_color@,
        a.pinyin_text.color@,
        a.candidate_text.color@,
        a.hint_text.color@,
    ]
}

/// Whether two windows look alike but for their colors.
pub open spec fn alike_but_colors(a: Appearance, b: Appearance) -> bool {
    a == (Appearance {
        window_bg_color: a.window_bg_color,
        window_highlight_color: a.window_highlight_color,
        window_highlight_text_color: a.window_highlight_text_color,
        window_border_color: a.window_border_color,
        pinyin_text: TextStyle { color: a.pinyin_text.color, ..b.pinyin_text },
        candidate_text: TextStyle { color: a.candidate_text.color, ..b.candidate_text },
        hint_text: TextStyle { color: a.hint_text.color, ..b.hint_text },
        ..b
    })
}

/// Gives a text another color.
fn recolor(s: &mut TextStyle, color: &str)
    ensures
        final(s).color@ == color@,
        *final(s) == (TextStyle { color: final(s).color, ..*old(s) }),
{
    s.color = color.to_owned();
}

/// Gives a window other colors.
fn recolor_window(a: &mut Appearance, dark: bool)
    ensures
        colors(*final(a)) == theme_colors(dark),
        alike_but_colors(*final(a), *old(a)),
{
    if dark {
        a.window_bg_color = "#1e1e1e".to_owned();
        a.window_highlight_color = "#0078d4".to_owned();
        a.window_highlight_text_color = "#ffffff".to_owned();
        a.window_border_color = "rgba(255, 255, 255, 0.15)".to_owned();
        recolor(&mut a.pinyin_text, "#bbbbbb");
        recolor(&mut a.candidate_text, "#eeeeee");
        recolor(&mut a.hint_text, "#888888");
    } else {
        a.window_bg_color = "#ffffff".to_owned();
        a.window_highlight_color = "#0969da".to_owned();
        a.window_highlight_text_color = "#ffffff".to_owned();
        a.window_border_color = "rgba(0, 0, 0, 0.1)".to_owned();
        recolor(&mut a.pinyin_text, "#586069");
        recolor(&mut a.candidate_text, "#24292e");
        recolor(&mut a.hint_text, "#6e7781");
    }
}

/// What a key puts out, as texts.
pub open spec fn key_action(
    tap: Seq<char>,
    shift: Seq<char>,
    double_tap: Option<Seq<char>>,
    long_press: Option<Seq<char>>,
    description: Seq<char>,
) -> config::KeyActionView {
    config::KeyActionView { tap, shift, double_tap, long_press, description: Some(description) }
}

/// What a key puts out.
fn action(
    tap: &str,
    shift: &str,
    double_tap: Option<&str>,
    long_press: Option<&str>,
    description: &str,
) -> (r: KeyAction)
    ensures
        r@ == key_action(
            tap@,
            shift@,
            crate::trie::opt_text(double_tap),
            crate::trie::opt_text(long_press),
            description@,
        ),
{
    KeyAction {
        tap: tap.to_owned(),
        shift: shift.to_owned(),
        double_tap: match double_tap {
            Some(t) => Some(t.to_owned()),
            None => None,
        },
        long_press: match long_press {
            Some(t) => Some(t.to_owned()),
            None => None,
        },
        description: Some(description.to_owned()),
    }
}

/// The keys of the Chinese layout.
pub open spec fn chinese_keys() -> Seq<(Seq<char>, config::KeyActionView)> {
    seq![
        (";"@, key_action("；"@, "："@, Some(";"@), Some("……"@), "中文分号"@)),
        ("."@, key_action("。"@, "》"@, Some("..."@), Some("·"@), "中文句号"@)),
        (","@, key_action("，"@, "《"@, None, Some("、"@), "中文逗号"@)),
        ("?"@, key_action("？"@, "?"@, None, None, "中文问号"@)),
        ("!"@, key_action("！"@, "!"@, None, None, "中文叹号"@)),
    ]
}

/// The Chinese layout.
fn chinese_layout() -> (r: ProfileLayout)
    ensures
        r@ == (config::ProfileLayoutView { name: "中文默认布局"@, mappings: chinese_keys() }),
{
    let mut m: Vec<(String, KeyAction)> = Vec::new();
    m.push((";".to_owned(), action("；", "：", Some(";"), Some("……"), "中文分号")));
    m.push((".".to_owned(), action("。", "》", Some("..."), Some("·"), "中文句号")));
    m.push((",".to_owned(), action("，", "《", None, Some("、"), "中文逗号")));
    m.push(("?".to_owned(), action("？", "?", None, None, "中文问号")));
    m.push(("!".to_owned(), action("！", "!", None, None, "中文叹号")));
    let mappings = StrMap { entries: m };
    proof {
        assert(mappings@ =~= chinese_keys());
    }
    ProfileLayout { name: "中文默认布局".to_owned(), mappings }
}

/// The keys of the English layout.
pub open spec fn english_keys() -> Seq<(Seq<char>, config::KeyActionView)> {
    seq![
        (";"@, key_action(";"@, ":"@, None, None, "英文分号"@)),
        ("."@, key_action("."@, ">"@, None, None, "英文句号"@)),
        (","@, key_action(","@, "<"@, None, None, "英文逗号"@)),
    ]
}

/// The English layout.
fn english_layout() -> (r: ProfileLayout)
    ensures
        r@ == (config::ProfileLayoutView { name: "English Default Layout"@, mappings: english_keys() }),
{
    let mut m: Vec<(String, KeyAction)> = Vec::new();
    m.push((";".to_owned(), action(";", ":", None, None, "英文分号")));
    m.push((".".to_owned(), action(".", ">", None, None, "英文句号")));
    m.push((",".to_owned(), action(",", "<", None, None, "英文逗号")));
    let mappings = StrMap { entries: m };
    proof {
        assert(mappings@ =~= english_keys());
    }
    ProfileLayout { name: "English Default Layout".to_owned(), mappings }
}

/// The keys of the Japanese layout.
pub open spec fn japanese_keys() -> Seq<(Seq<char>, config::KeyActionView)> {
    seq![
        ("."@, key_action("。"@, ">"@, None, Some("・"@), "日文句号"@)),
        (","@, key_action("、"@, "<"@, None, None, "日文顿号"@)),
        ("/"@, key_action("・"@, "?"@, None, None, "日文中点"@)),
        ("["@, key_action("「"@, "{"@, None, None, "日文左引号"@)),
        ("]"@, key_action("」"@, "}"@, None, None, "日文右引号"@)),
    ]
}

/// The Japanese layout.
fn japanese_layout() -> (r: ProfileLayout)
    ensures
        r@ == (config::ProfileLayoutView { name: "日本語デフォルト配列"@, mappings: japanese_keys() }),
{
    let mut m: Vec<(String, KeyAction)> = Vec::new();
    m.push((".".to_owned(), action("。", ">", None, Some("・"), "日文句号")));
    m.push((",".to_owned(), action("、", "<", None, None, "日文顿号")));
    m.push(("/".to_owned(), action("・", "?", None, None, "日文中点")));
    m.push(("[".to_owned(), action("「", "{", None, None, "日文左引号")));
    m.push(("]".to_owned(), action("」", "}", None, None, "日文右引号")));
    let mappings = StrMap { entries: m };
    proof {
        assert(mappings@ =~= japanese_keys());
    }
    ProfileLayout { name: "日本語デフォルト配列".to_owned(), mappings }
}

/// The keys of the stroke layout.
pub open spec fn stroke_keys() -> Seq<(Seq<char>, config::KeyActionView)> {
    Seq::empty()
}

/// The stroke layout.
fn stroke_layout() -> (r: ProfileLayout)
    ensures
        r@ == (config::ProfileLayoutView { name: "笔画默认布局"@, mappings: stroke_keys() }),
{
    let mut m: Vec<(String, KeyAction)> = Vec::new();
    let mappings = StrMap { entries: m };
    proof {
        assert(mappings@ =~= stroke_keys());
    }
    ProfileLayout { name: "笔画默认布局".to_owned(), mappings }
}

/// The layouts of the profiles.
pub open spec fn layouts_at_start() -> Seq<(Seq<char>, config::ProfileLayoutView)> {
    seq![
        ("chinese"@, config::ProfileLayoutView { name: "中文默认布局"@, mappings: chinese_keys() }),
        ("english"@, config::ProfileLayoutView { name: "English Default Layout"@, mappings: english_keys() }),
        ("japanese"@, config::ProfileLayoutView { name: "日本語デフォルト配列"@, mappings: japanese_keys() }),
        ("stroke"@, config::ProfileLayoutView { name: "笔画默认布局"@, mappings: stroke_keys() }),
    ]
}

/// The layouts of the profiles.
pub fn default_profile_layouts() -> (r: StrMap<ProfileLayout>)
    ensures
        r@ == layouts_at_start(),
{
    let mut m: Vec<(String, ProfileLayout)> = Vec::new();
    m.push(("chinese".to_owned(), chinese_layout()));
    m.push(("english".to_owned(), english_layout()));
    m.push(("japanese".to_owned(), japanese_layout()));
    m.push(("stroke".to_owned(), stroke_layout()));
    let r = StrMap { entries: m };
    proof {
        assert(r@ =~= layouts_at_start());
    }
    r
}

/// Whether the sounds taken for one another are those at the start.
pub open spec fn fuzzy_at_start(f: FuzzyPinyinConfig) -> bool {
    &&& f.z_zh && f.c_ch && f.s_sh
    &&& !f.n_l && !f.r_l && !f.f_h && !f.an_ang && !f.en_eng && !f.in_ing && !f.ian_iang
        && !f.uan_uang && !f.u_v
    &&& f.custom_mappings@.len() == 0
    &&& f.fuzzy_page_threshold == 5
}

/// The sounds taken for one another at the start.
pub fn default_fuzzy() -> (r: FuzzyPinyinConfig)
    ensures
        fuzzy_at_start(r),
{
    FuzzyPinyinConfig {
        z_zh: true,
        c_ch: true,
        s_sh: true,
        n_l: false,
        r_l: false,
        f_h: false,
        an_ang: false,
        en_eng: false,
        in_ing: false,
        ian_iang: false,
        uan_uang: false,
        u_v: false,
        custom_mappings: Vec::new(),
        fuzzy_page_threshold: 5,
    }
}

/// Whether a scheme of double pinyin is the one at the start.
pub open spec fn double_pinyin_at_start(d: DoublePinyinScheme) -> bool {
    d.name@ == "小鹤双拼"@ && d.initials@ == initials_pairs() && d.rimes@ == rimes_pairs()
}

/// The scheme of double pinyin at the start.
pub fn default_double_pinyin() -> (r: DoublePinyinScheme)
    ensures
        double_pinyin_at_start(r),
{
    DoublePinyinScheme {
        name: "小鹤双拼".to_owned(),
        initials: default_initials(),
        rimes: default_rimes(),
    }
}

/// The bonuses of the ranking at the start.
pub open spec fn ranking_at_start() -> RankingConfig {
    RankingConfig {
        length_penalty: 50000000,
        user_dict_bonus: 10000000000,
        exact_match_bonus: 10000000000,
        single_char_bonus: 1000000000,
    }
}

/// Whether the settings of typing are those at the start.
pub open spec fn typing_at_start(i: Input) -> bool {
    &&& i.autostart
    &&& i.commit_mode@ == "single"@
    &&& i.default_profile@ == "chinese"@
    &&& i.phantom_type == PhantomType::Pinyin
    &&& i.anti_typo_mode == AntiTypoMode::Off
    &&& !i.enable_double_tap
    &&& i.double_tap_timeout_ms == 250
    &&& i.double_taps@.len() == 0
    &&& !i.enable_long_press
    &&& i.long_press_timeout_ms == 400
    &&& i.long_press_mappings@.len() == 0
    &&& i.enable_punctuation_long_press
    &&& i.punctuation_long_press_mappings@.len() == 0
    &&& i.keyboard_layouts@.len() == 0
    &&& !i.auto_commit_unique_en_fuzhuma
    &&& !i.auto_commit_unique_full_match
    &&& i.auto_commit_stroke
    &&& i.enable_prefix_matching
    &&& i.prefix_matching_limit == 20
    &&& i.enable_abbreviation_matching
    &&& i.filter_proper_nouns_by_case
    &&& text::texts(i.enabled_profiles@) == enabled_profiles_texts()
    &&& profile_keys_of(i.profile_keys@) == profile_keys_pairs()
    &&& !i.swap_arrow_keys
    &&& i.enable_error_sound
    &&& !i.enable_keyboard_voice
    &&& i.enable_english_filter
    &&& i.enable_caps_selection
    &&& i.enable_number_selection
    &&& i.enable_word_discovery
    &&& i.enable_auto_reorder
    &&& !i.enable_fixed_first_candidate
    &&& !i.enable_smart_backspace
    &&& !i.enable_double_pinyin
    &&& double_pinyin_at_start(i.double_pinyin_scheme)
    &&& !i.enable_fuzzy_pinyin
    &&& fuzzy_at_start(i.fuzzy_config)
    &&& !i.enable_traditional
    &&& i.english_aux_mode == EnglishAuxMode::Prefix
    &&& i.display_mode == DisplayMode::CharacterWithEnglish
    &&& i.ranking == ranking_at_start()
    &&& !i.firefox_space_interrupt
    &&& i.segmentation_delimiters@ == "'"@
}

/// The settings of typing at the start.
pub fn default_input() -> (r: Input)
    ensures
        typing_at_start(r),
{
    Input {
        autostart: true,
        commit_mode: "single".to_owned(),
        default_profile: "chinese".to_owned(),
        phantom_type: PhantomType::Pinyin,
        anti_typo_mode: AntiTypoMode::Off,
        enable_double_tap: false,
        double_tap_timeout_ms: 250,
        double_taps: Vec::new(),
        enable_long_press: false,
        long_press_timeout_ms: 400,
        long_press_mappings: Vec::new(),
        enable_punctuation_long_press: true,
        punctuation_long_press_mappings: StrMap::new(),
        keyboard_layouts: StrMap::new(),
        auto_commit_unique_en_fuzhuma: false,
        auto_commit_unique_full_match: false,
        auto_commit_stroke: true,
        enable_prefix_matching: true,
        prefix_matching_limit: 20,
        enable_abbreviation_matching: true,
        filter_proper_nouns_by_case: true,
        enabled_profiles: default_enabled_profiles(),
        profile_keys: default_profile_keys(),
        swap_arrow_keys: false,
        enable_error_sound: true,
        enable_keyboard_voice: false,
        enable_english_filter: true,
        enable_caps_selection: true,
        enable_number_selection: true,
        enable_word_discovery: true,
        enable_auto_reorder: true,
        enable_fixed_first_candidate: false,
        enable_smart_backspace: false,
        enable_double_pinyin: false,
        double_pinyin_scheme: default_double_pinyin(),
        enable_fuzzy_pinyin: false,
        fuzzy_config: default_fuzzy(),
        enable_traditional: false,
        english_aux_mode: EnglishAuxMode::Prefix,
        display_mode: DisplayMode::CharacterWithEnglish,
        ranking: RankingConfig {
            length_penalty: 50000000,
            user_dict_bonus: 10000000000,
            exact_match_bonus: 10000000000,
            single_char_bonus: 1000000000,
        },
        firefox_space_interrupt: false,
        segmentation_delimiters: "'".to_owned(),
    }
}

/// Whether the settings of the desktop are those at the start.
pub open spec fn desktop_at_start(l: LinuxConfig) -> bool {
    &&& l.device_path@ == "/dev/input/event4"@
    &&& l.paste_method@ == "shift_insert"@
    &&& l.clipboard_delay_ms == 50
    &&& l.show_slint_window
    &&& !l.show_notification
    &&& !l.show_toggle_notification
    &&& l.fixed_position
    &&& l.corner@ == "bottom-right"@
    &&& l.fixed_x == 40
    &&& l.fixed_y == 40
}

/// The settings of the desktop at the start.
pub fn default_linux() -> (r: LinuxConfig)
    ensures
        desktop_at_start(r),
{
    LinuxConfig {
        device_path: "/dev/input/event4".to_owned(),
        paste_method: "shift_insert".to_owned(),
        clipboard_delay_ms: 50,
        show_slint_window: true,
        show_notification: false,
        show_toggle_notification: false,
        fixed_position: true,
        corner: "bottom-right".to_owned(),
        fixed_x: 40,
        fixed_y: 40,
    }
}

/// Whether the dictionaries are where they are at the start.
pub open spec fn files_at_start(f: Files) -> bool {
    &&& f.data_dir is None
    &&& f.punctuation_file@ == "dicts/chinese/punctuation.json"@
    &&& files_of(f.profiles@) == files_pairs()
}

/// Whether all settings are those at the start, with some of the engine.
pub open spec fn at_start(c: Config, options: EngineOptions) -> bool {
    &&& files_at_start(c.files)
    &&& looks_as_at_start(c.appearance)
    &&& typing_at_start(c.input)
    &&& hotkeys_at_start(c.hotkeys)
    &&& !c.enable_quick_finals
    &&& quick_finals_of(c.quick_finals@) == quick_finals_pairs()
    &&& c.punctuations@.len() == 0
    &&& c.layouts@ == layouts_at_start()
    &&& desktop_at_start(c.linux)
    &&& c.options == options
}

impl Config {
    /// The settings at the start, with some of the engine.
    pub fn default_config(options: EngineOptions) -> (r: Self)
        ensures
            at_start(r, options),
    {
        Config {
            files: Files {
                data_dir: None,
                punctuation_file: "dicts/chinese/punctuation.json".to_owned(),
                profiles: default_files(),
            },
            appearance: default_appearance(),
            input: default_input(),
            hotkeys: default_hotkeys(),
            enable_quick_finals: false,
            quick_finals: default_quick_finals(),
            punctuations: StrMap::new(),
            layouts: default_profile_layouts(),
            linux: default_linux(),
            options,
        }
    }

    /// Gives the candidate window the colors of a theme.
    pub fn apply_theme(&mut self, dark: bool)
        ensures
            colors(final(self).appearance) == theme_colors(dark),
            alike_but_colors(final(self).appearance, old(self).appearance),
            *final(self) == (Config { appearance: final(self).appearance, ..*old(self) }),
    {
        recolor_window(&mut self.appearance, dark);
    }
}

/// The candidate window at the start has the colors of the light theme.
pub proof fn law_light_at_start(a: Appearance)
    requires
        looks_as_at_start(a),
    ensures
        colors(a) == theme_colors(false),
{
    assert(colors(a) =~= theme_colors(false));
}

} // verus!
