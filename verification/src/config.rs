//! The settings of the input method, and their defaults.
//!
//! Lengths, opacities and bonuses that carry a fraction are kept in thousandths.

use vstd::prelude::*;
use crate::strmap::StrMap;

verus! {

/// Where the dictionaries are.
pub struct Files {
    pub data_dir: Option<String>,
    pub punctuation_file: String,
    pub profiles: Vec<Profile>,
}

/// A dictionary and its path.
pub struct Profile {
    pub name: String,
    pub path: String,
}

/// What is shown beside a candidate.
#[derive(Debug, Clone, Copy, PartialEq, Eq, Structural)]
pub enum DisplayMode {
    CharacterWithEnglish,
    CharacterOnly,
    CharacterWithStroke,
    CharacterWithTone,
}

/// Which auxiliary code filters candidates.
#[derive(Debug, Clone, Copy, PartialEq, Eq, Structural)]
pub enum AuxFilterMode {
    English,
    Off,
    Stroke,
}

/// What happens to letters that lead nowhere.
#[derive(Debug, Clone, Copy, PartialEq, Eq, Structural)]
pub enum AntiTypoMode {
    Off,
    Strict,
    Smart,
}

/// What is shown in the application while letters are typed.
#[derive(Debug, Clone, Copy, PartialEq, Eq, Structural)]
pub enum PhantomType {
    Off,
    Hanzi,
    Pinyin,
}

/// How an English auxiliary code is held against a candidate.
#[derive(Debug, Clone, Copy, PartialEq, Eq, Structural)]
pub enum EnglishAuxMode {
    Prefix,
    FirstLetter,
}

/// Where letters are cut into syllables and an auxiliary code: after as many or as few
/// letters as possible.
#[derive(Debug, Clone, Copy, PartialEq, Eq, Structural)]
pub enum SmartAuxMode {
    Greedy,
    Minimal,
}

/// Whether rare words are offered.
#[derive(Debug, Clone, Copy, PartialEq, Eq, Structural)]
pub enum RareCharMode {
    CommonOnly,
    IncludeRare,
    OnlyRare,
}

/// The style of a text.
pub struct TextStyle {
    pub font_family: String,
    pub font_size: u32,
    pub font_weight: u32,
    pub color: String,
    pub alpha: i64,
}

/// How the candidate window looks.
pub struct Appearance {
    pub show_candidates: bool,
    pub page_size: usize,
    pub candidate_anchor: String,
    pub candidate_layout: String,
    pub corner_radius: i64,
    pub window_bg_color: String,
    pub window_highlight_color: String,
    pub window_highlight_text_color: String,
    pub window_border_color: String,
    pub window_padding_x: i32,
    pub window_padding_y: i32,
    pub item_spacing: i64,
    pub row_spacing: i64,
    pub theme_mode: String,
    pub pinyin_text: TextStyle,
    pub candidate_text: TextStyle,
    pub hint_text: TextStyle,
    pub comment_text: TextStyle,
    pub enable_random_highlight: bool,
    pub show_learning_stroke_hint: bool,
    pub show_learning_english_hint: bool,
    pub auto_pronounce: bool,
    pub show_tray: bool,
}

/// What a key of a layout puts out.
pub struct KeyAction {
    pub tap: String,
    pub shift: String,
    pub double_tap: Option<String>,
    pub long_press: Option<String>,
    pub description: Option<String>,
}

/// What a key of a layout puts out, as texts.
pub struct KeyActionView {
    pub tap: Seq<char>,
    pub shift: Seq<char>,
    pub double_tap: Option<Seq<char>>,
    pub long_press: Option<Seq<char>>,
    pub description: Option<Seq<char>>,
}

/// The text of an optional string.
pub open spec fn opt_view(o: Option<String>) -> Option<Seq<char>> {
    match o {
        Some(s) => Some(s@),
        None => None,
    }
}

impl View for KeyAction {
    type V = KeyActionView;

    open spec fn view(&self) -> KeyActionView {
        KeyActionView {
            tap: self.tap@,
            shift: self.shift@,
            double_tap: opt_view(self.double_tap),
            long_press: opt_view(self.long_press),
            description: opt_view(self.description),
        }
    }
}

/// The keys of a layout.
pub struct ProfileLayout {
    pub name: String,
    pub mappings: StrMap<KeyAction>,
}

/// The keys of a layout, as texts.
pub struct ProfileLayoutView {
    pub name: Seq<char>,
    pub mappings: Seq<(Seq<char>, KeyActionView)>,
}

impl View for ProfileLayout {
    type V = ProfileLayoutView;

    open spec fn view(&self) -> ProfileLayoutView {
        ProfileLayoutView { name: self.name@, mappings: self.mappings@ }
    }
}

/// A punctuation mark and its description.
pub struct PunctuationEntry {
    pub char: String,
    pub desc: String,
}

/// The punctuation marks of one key.
pub struct PunctuationList {
    pub items: Vec<PunctuationEntry>,
}

impl View for PunctuationList {
    type V = Seq<(Seq<char>, Seq<char>)>;

    open spec fn view(&self) -> Seq<(Seq<char>, Seq<char>)> {
        self.items@.map_values(|e: PunctuationEntry| (e.char@, e.desc@))
    }
}

/// Which sounds are taken for one another.
pub struct FuzzyPinyinConfig {
    pub z_zh: bool,
    pub c_ch: bool,
    pub s_sh: bool,
    pub n_l: bool,
    pub r_l: bool,
    pub f_h: bool,
    pub an_ang: bool,
    pub en_eng: bool,
    pub in_ing: bool,
    pub ian_iang: bool,
    pub uan_uang: bool,
    pub u_v: bool,
    pub custom_mappings: Vec<(String, String)>,
    /// After how many page turns fuzzy sounds set in; with zero they are always in.
    pub fuzzy_page_threshold: usize,
}

/// A scheme of double pinyin.
pub struct DoublePinyinScheme {
    pub name: String,
    pub initials: StrMap<String>,
    pub rimes: StrMap<String>,
}

/// What a key struck twice puts in.
pub struct DoubleTap {
    pub trigger_key: String,
    pub insert_text: String,
}

/// What a key held down puts in.
pub struct LongPressMapping {
    pub trigger_key: String,
    pub insert_text: String,
}

/// The key that chooses a profile.
pub struct ProfileKey {
    pub key: String,
    pub profile: String,
}

/// The key that completes a syllable.
pub struct QuickFinal {
    pub key: String,
    pub final_text: String,
}

/// The page of the quick finals.
pub struct QuickFinalsFile {
    pub enable_quick_finals: bool,
    pub quick_finals: Vec<QuickFinal>,
}

/// The bonuses of the ranking.
#[derive(Clone, Copy, PartialEq, Eq, Structural)]
pub struct RankingConfig {
    pub length_penalty: i64,
    pub user_dict_bonus: i64,
    pub exact_match_bonus: i64,
    pub single_char_bonus: i64,
}

/// The settings of typing.
pub struct Input {
    pub autostart: bool,
    pub commit_mode: String,
    pub default_profile: String,
    pub phantom_type: PhantomType,
    pub anti_typo_mode: AntiTypoMode,
    pub enable_double_tap: bool,
    pub double_tap_timeout_ms: u64,
    pub double_taps: Vec<DoubleTap>,
    pub enable_long_press: bool,
    pub long_press_timeout_ms: u64,
    pub long_press_mappings: Vec<LongPressMapping>,
    pub enable_punctuation_long_press: bool,
    pub punctuation_long_press_mappings: StrMap<String>,
    pub keyboard_layouts: StrMap<StrMap<String>>,
    pub auto_commit_unique_en_fuzhuma: bool,
    pub auto_commit_unique_full_match: bool,
    pub auto_commit_stroke: bool,
    pub enable_prefix_matching: bool,
    pub prefix_matching_limit: usize,
    pub enable_abbreviation_matching: bool,
    pub filter_proper_nouns_by_case: bool,
    pub enabled_profiles: Vec<String>,
    pub profile_keys: Vec<ProfileKey>,
    pub swap_arrow_keys: bool,
    pub enable_error_sound: bool,
    pub enable_keyboard_voice: bool,
    pub enable_english_filter: bool,
    pub enable_caps_selection: bool,
    pub enable_number_selection: bool,
    pub enable_word_discovery: bool,
    pub enable_auto_reorder: bool,
    pub enable_fixed_first_candidate: bool,
    pub enable_smart_backspace: bool,
    pub enable_double_pinyin: bool,
    pub double_pinyin_scheme: DoublePinyinScheme,
    pub enable_fuzzy_pinyin: bool,
    pub fuzzy_config: FuzzyPinyinConfig,
    pub enable_traditional: bool,
    pub english_aux_mode: EnglishAuxMode,
    pub display_mode: DisplayMode,
    pub ranking: RankingConfig,
    pub firefox_space_interrupt: bool,
    pub segmentation_delimiters: String,
}

/// The settings of the engine that no page of the configuration holds.
pub struct EngineOptions {
    pub rare_char_mode: RareCharMode,
    pub enable_smart_aux: bool,
    pub smart_aux_mode: SmartAuxMode,
    pub enable_error_correction: bool,
    pub enable_context_sorting: bool,
    /// From how many syllables on a sentence is put together.
    pub auto_sentence_min_syllables: u32,
    pub word_learn_threshold: u32,
    pub short_term_capacity: usize,
    pub long_term_threshold: u32,
    pub mru_length: usize,
    pub double_tap_uppercase_keys: Vec<String>,
    pub long_press_uppercase_keys: Vec<String>,
    pub phantom_separator: String,
    pub nav_delete: Vec<String>,
    pub nav_fuzzy: Vec<String>,
    pub nav_clear: Vec<String>,
}

/// A key and what it does.
pub struct Hotkey {
    pub key: String,
    pub description: String,
}

/// The keys of the commands.
pub struct Hotkeys {
    pub switch_language: Hotkey,
    pub page_up: Vec<String>,
    pub page_down: Vec<String>,
    pub prev_candidate: Vec<String>,
    pub next_candidate: Vec<String>,
    pub enable_tab_toggle: bool,
    pub enable_ctrl_space_toggle: bool,
    pub enable_ctrl_capslock_commit: bool,
    pub toggle_traditional: Hotkey,
    pub word_to_char: Vec<String>,
    pub word_to_char_shift: Vec<String>,
}

/// The settings of the desktop.
pub struct LinuxConfig {
    pub device_path: String,
    pub paste_method: String,
    pub clipboard_delay_ms: u64,
    pub show_slint_window: bool,
    pub show_notification: bool,
    pub show_toggle_notification: bool,
    pub fixed_position: bool,
    pub corner: String,
    pub fixed_x: i32,
    pub fixed_y: i32,
}

/// All settings.
pub struct Config {
    pub files: Files,
    pub appearance: Appearance,
    pub input: Input,
    pub hotkeys: Hotkeys,
    pub enable_quick_finals: bool,
    pub quick_finals: Vec<QuickFinal>,
    pub punctuations: StrMap<StrMap<PunctuationList>>,
    pub layouts: StrMap<ProfileLayout>,
    pub linux: LinuxConfig,
    pub options: EngineOptions,
}

/// The settings in force.
pub struct Settings {
    config: Config,
}

impl View for Settings {
    type V = Config;

    closed spec fn view(&self) -> Config {
        self.config
    }
}

/// Settings with the traditional form shown or not.
pub open spec fn in_form(c: Config, traditional: bool) -> Config {
    Config { input: Input { enable_traditional: traditional, ..c.input }, ..c }
}

/// Settings with fuzzy sounds only where they are asked for.
pub open spec fn with_fuzzy(c: Config, fuzzy: bool) -> Config {
    Config {
        input: Input { enable_fuzzy_pinyin: c.input.enable_fuzzy_pinyin && fuzzy, ..c.input },
        ..c
    }
}

/// Shows the traditional form or not.
fn set_form(input: &mut Input, traditional: bool)
    ensures
        *final(input) == (Input { enable_traditional: traditional, ..*old(input) }),
{
    input.enable_traditional = traditional;
}

/// Shows the traditional form or not.
fn set_config_form(config: &mut Config, traditional: bool)
    ensures
        *final(config) == in_form(*old(config), traditional),
{
    set_form(&mut config.input, traditional);
}

/// Whether settings differ from others at most in the profile at the start.
pub open spec fn alike_but_profile(c: Config, d: Config) -> bool {
    c == (Config { input: Input { default_profile: c.input.default_profile, ..d.input }, ..d })
}

/// Sets the profile at the start.
fn set_profile(input: &mut Input, profile: String)
    ensures
        *final(input) == (Input { default_profile: profile, ..*old(input) }),
{
    input.default_profile = profile;
}

/// Sets the profile at the start.
fn set_config_profile(config: &mut Config, profile: String)
    ensures
        *final(config) == (Config {
            input: Input { default_profile: profile, ..old(config).input },
            ..*old(config)
        }),
{
    set_profile(&mut config.input, profile);
}

impl Settings {
    /// Settings in force.
    pub fn new(config: Config) -> (r: Self)
        ensures
            r@ == config,
    {
        Settings { config }
    }

    /// The settings.
    pub fn get(&self) -> (r: &Config)
        ensures
            *r == self@,
    {
        &self.config
    }

    /// Shows the traditional form or not.
    pub fn set_traditional(&mut self, traditional: bool)
        ensures
            final(self)@ == in_form(old(self)@, traditional),
    {
        set_config_form(&mut self.config, traditional);
    }

    /// Sets the profile at the start.
    pub fn set_default_profile(&mut self, profile: String)
        ensures
            alike_but_profile(final(self)@, old(self)@),
            final(self)@.input.default_profile@ == profile@,
    {
        set_config_profile(&mut self.config, profile);
    }
}

/// What the tray asks for.
pub enum TrayEvent {
    ToggleIme,
    ToggleEnabled,
    NextProfile,
    OpenConfig,
    OpenFeatureCenter,
    Exit,
    ReloadConfig,
    SyncStatus { chinese_enabled: bool, active_profile: String },
    ShowNotification(String),
    ClearUserDict(Option<String>),
    SendKey(String),
    SetProfile(String),
    FeatureReady(u16),
}

} // verus!
