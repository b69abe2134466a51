use qianyan_ime::action::{Action, Command, ImeState};
use qianyan_ime::actor::{Answer, ProcessorActor, ProcessorMsg};
use qianyan_ime::commands::{commit_candidate, NOT_CHOSEN};
use qianyan_ime::compositor::Compositor;
use qianyan_ime::compiler::{write_binary_dict, DictEntry, EntryList};
use qianyan_ime::config::{Config, DoubleTap, EngineOptions, PhantomType, QuickFinal, RareCharMode, SmartAuxMode};
use qianyan_ime::context::{EngineContext, KeyRow, KeyTable};
use qianyan_ime::engine::Scheme;
use qianyan_ime::handlers::Reply;
use qianyan_ime::keys::VirtualKey;
use qianyan_ime::pressing::{FsmEffect, KeyDecision, KeyEvent};
use qianyan_ime::processor::{InputEvent, Processor};
use qianyan_ime::strmap::StrMap;
use qianyan_ime::tables::{FreqTable, WordSet};
use qianyan_ime::trie::Trie;

fn options() -> EngineOptions {
    EngineOptions {
        rare_char_mode: RareCharMode::IncludeRare,
        enable_smart_aux: false,
        smart_aux_mode: SmartAuxMode::Greedy,
        enable_error_correction: false,
        enable_context_sorting: false,
        auto_sentence_min_syllables: 2,
        word_learn_threshold: 2,
        short_term_capacity: 100,
        long_term_threshold: 5,
        mru_length: 10,
        double_tap_uppercase_keys: vec![],
        long_press_uppercase_keys: vec![],
        phantom_separator: String::new(),
        nav_delete: vec![],
        nav_fuzzy: vec![],
        nav_clear: vec![],
    }
}

fn dictionary(rows: &[(&str, &str, u32)]) -> Trie {
    let mut source: StrMap<EntryList> = StrMap::new();
    for (key, word, weight) in rows {
        if source.get(key).is_none() {
            source.insert(key.to_string(), EntryList::new());
        }
        let i = source.position(key).unwrap();
        source.value_mut(i).push(DictEntry {
            word: word.to_string(),
            trad: word.to_string(),
            tone: String::new(),
            en: String::new(),
            stroke_aux: String::new(),
            weight: *weight,
            flags: 0,
        });
    }
    let compiled = write_binary_dict(source).unwrap();
    Trie::open(compiled.index, compiled.data).ok().unwrap()
}

fn words(list: &[&str]) -> Vec<String> {
    list.iter().map(|s| s.to_string()).collect()
}

const LETTERS: [(VirtualKey, char); 9] = [
    (VirtualKey::A, 'a'),
    (VirtualKey::B, 'b'),
    (VirtualKey::G, 'g'),
    (VirtualKey::H, 'h'),
    (VirtualKey::I, 'i'),
    (VirtualKey::N, 'n'),
    (VirtualKey::O, 'o'),
    (VirtualKey::U, 'u'),
    (VirtualKey::W, 'w'),
];

fn key_table() -> KeyTable {
    let mut rows: Vec<KeyRow> = LETTERS
        .iter()
        .map(|(key, c)| KeyRow {
            key: *key,
            plain: Some(*c),
            shifted: Some(c.to_ascii_uppercase()),
            caps: true,
            mark: None,
            shifted_mark: None,
        })
        .collect();
    rows.push(KeyRow {
        key: VirtualKey::Digit5,
        plain: Some('5'),
        shifted: Some('%'),
        caps: false,
        mark: None,
        shifted_mark: Some('%'),
    });
    KeyTable { rows }
}

/// The settings of the tests.
fn config() -> Config {
    let mut config = Config::default_config(options());
    config.input.enabled_profiles = words(&["chinese", "english"]);
    config
}

/// A processor with two profiles, of which one has a dictionary that is loaded.
fn processor() -> Processor {
    processor_with(config())
}

fn processor_with(config: Config) -> Processor {
    processor_on(config, true)
}

fn processor_on(config: Config, unshown: bool) -> Processor {
    let mut freq = FreqTable::new();
    for s in ["ni", "hao", "wo", "ba"] {
        freq.insert(s.to_string(), 100);
    }
    let mut ctx = EngineContext::new(
        WordSet::from_words(words(&["chinese", "english"])),
        WordSet::from_words(words(&["ni", "hao", "wo", "ba"])),
        freq,
        FreqTable::new(),
        WordSet::from_words(words(&["ni", "hao", "wo", "ba"])),
        WordSet::from_words(words(&["ni", "hao", "wo", "ba"])),
        StrMap::new(),
        Config::default_config(options()),
        key_table(),
        0,
        unshown,
    );
    let mut tries = StrMap::new();
    tries.insert(
        "chinese".to_string(),
        dictionary(&[("ni", "你", 900), ("ni", "尼", 100), ("nihao", "你好", 500), ("hao", "好", 300), ("wo", "我", 800)]),
    );
    ctx.engine.reload_tries(tries);
    let mut p = Processor::new(ctx);
    p.apply_config(config);
    p
}

fn decision(next_state: ImeState, effect: FsmEffect) -> KeyDecision {
    KeyDecision { intent: None, switching: None, next_state, effect }
}

fn event(key: VirtualKey, now: u64) -> KeyEvent {
    KeyEvent { key, val: 1, shift: false, ctrl: false, alt: false, perform_lookup: true, now }
}

fn press(p: &mut Processor, key: VirtualKey, next_state: ImeState, effect: FsmEffect, now: u64) -> Reply {
    let d = decision(next_state, effect);
    assert!(p.accepts(event(key, now), &d));
    p.handle_key_ext(key, 1, false, false, false, true, d, now)
}

fn type_letters(p: &mut Processor, letters: &str) {
    for (i, c) in letters.chars().enumerate() {
        let key = LETTERS.iter().find(|(_, l)| *l == c).unwrap().0;
        let _ = press(p, key, ImeState::Composing, FsmEffect::UpdateLookup, 1000 * (i as u64 + 1));
    }
}

fn texts(p: &Processor) -> Vec<String> {
    p.ctx.session.candidates.iter().map(|c| c.text.clone()).collect()
}

#[test]
fn letters_are_looked_up_and_the_first_candidate_is_put_out() {
    let mut p = processor();
    type_letters(&mut p, "nihao");
    assert_eq!(p.ctx.session.buffer, "nihao");
    assert_eq!(texts(&p)[0], "你好");
    match press(&mut p, VirtualKey::Space, ImeState::Idle, FsmEffect::CommitFirst, 9000) {
        Reply::Done(Action::DeleteAndEmit { delete, insert }) => {
            assert_eq!(delete, 0);
            assert_eq!(insert, "你好");
        }
        _ => panic!("nothing was put out"),
    }
    assert_eq!(p.ctx.session.buffer, "");
    assert_eq!(p.ctx.session.state, ImeState::Idle);
    assert_eq!(p.ctx.session_state.commit_history.len(), 1);
    assert_eq!(p.ctx.session_state.get_last_word(), Some("你好"));
}

#[test]
fn what_was_typed_is_put_out_or_cleared() {
    let mut p = processor();
    type_letters(&mut p, "ni");
    match press(&mut p, VirtualKey::Enter, ImeState::Idle, FsmEffect::CommitRaw, 9000) {
        Reply::Done(Action::DeleteAndEmit { insert, .. }) => assert_eq!(insert, "ni"),
        _ => panic!("nothing was put out"),
    }
    type_letters(&mut p, "wo");
    assert_eq!(texts(&p)[0], "我");
    match press(&mut p, VirtualKey::Esc, ImeState::Idle, FsmEffect::Clear, 9900) {
        Reply::Done(Action::Consume) => {}
        _ => panic!("something was put out"),
    }
    assert_eq!(p.ctx.session.buffer, "");
}

#[test]
fn a_candidate_of_the_page_is_pointed_at() {
    let mut p = processor();
    type_letters(&mut p, "ni");
    let second = texts(&p)[1].clone();
    let d = decision(ImeState::Idle, FsmEffect::Consume);
    match p.handle_event(InputEvent::CandidateSelect(1), d, 9000) {
        Reply::Done(Action::DeleteAndEmit { insert, .. }) => assert_eq!(insert, second),
        _ => panic!("nothing was put out"),
    }
    type_letters(&mut p, "ni");
    match p.execute_command(Command::Select(700), 9000) {
        Action::Consume => {}
        _ => panic!("there is no such candidate"),
    }
}

#[test]
fn the_selection_moves_and_pages_turn() {
    let mut p = processor();
    type_letters(&mut p, "ni");
    assert_eq!(p.ctx.session.selected, 0);
    let _ = p.execute_command(Command::NextCandidate, 1);
    assert_eq!(p.ctx.session.selected, 1);
    let _ = p.execute_command(Command::PrevCandidate, 1);
    assert_eq!(p.ctx.session.selected, 0);
    match p.execute_command(Command::SelectChar(0), 1) {
        Action::DeleteAndEmit { insert, .. } => assert_eq!(insert, "你"),
        _ => panic!("nothing was put out"),
    }
}

#[test]
fn what_was_said_is_put_out() {
    let mut p = processor();
    let d = decision(ImeState::Idle, FsmEffect::Consume);
    match p.handle_event(InputEvent::Voice("你好吗".to_string()), d, 1) {
        Reply::Done(Action::Emit(t)) => assert_eq!(t, "你好吗"),
        _ => panic!("nothing was put out"),
    }
}

#[test]
fn digits_are_typed_where_nothing_is_composed() {
    let mut p = processor();
    match press(&mut p, VirtualKey::Digit5, ImeState::Idle, FsmEffect::PassThrough, 1) {
        Reply::Done(Action::Emit(t)) => assert_eq!(t, "5"),
        _ => panic!("nothing was put out"),
    }
    match press(&mut p, VirtualKey::Space, ImeState::Idle, FsmEffect::PassThrough, 2) {
        Reply::Done(Action::PassThrough) => {}
        _ => panic!("the space was kept"),
    }
}

#[test]
fn a_decision_ends_a_key() {
    let mut p = processor();
    let mut d = decision(ImeState::Composing, FsmEffect::UpdateLookup);
    d.intent = Some(Action::Alert);
    match p.handle_key_ext(VirtualKey::N, 1, false, false, false, true, d, 1) {
        Reply::Done(Action::Alert) => {}
        _ => panic!("the decision was not followed"),
    }
    assert_eq!(p.ctx.session.buffer, "");
}

#[test]
fn toggling_twice_restores_the_language() {
    let mut p = processor();
    assert_eq!(p.toggle(), Action::Notify("英".to_string(), "英文直通模式".to_string()));
    assert!(!p.ctx.session_state.chinese_enabled);
    match p.toggle() {
        Action::Notify(_, t) => assert_eq!(t, "模式已开启"),
        _ => panic!("nothing was shown"),
    }
    assert!(p.ctx.session_state.chinese_enabled);
}

#[test]
fn profiles_go_round() {
    let mut p = processor();
    assert_eq!(p.ctx.session_state.active_profiles, words(&["chinese"]));
    assert_eq!(p.next_profile(), "english");
    assert_eq!(p.ctx.session_state.active_profiles, words(&["english"]));
    assert_eq!(p.next_profile(), "chinese");
}

#[test]
fn letters_ahead_are_looked_up_from_two_on() {
    let mut p = processor();
    type_letters(&mut p, "n");
    assert_eq!(p.trigger_prefetch().len(), 0);
    type_letters(&mut p, "i");
    let ahead = p.trigger_prefetch();
    assert_eq!(ahead.len(), 13);
    assert_eq!(ahead[0], "nia");
    assert_eq!(ahead[8], "niang");
}

#[test]
fn a_letter_sounds_when_it_is_pressed() {
    let p = processor();
    assert_eq!(p.letter_sound(VirtualKey::N, 1, false), Some('n'));
    assert_eq!(p.letter_sound(VirtualKey::N, 0, false), None);
    assert_eq!(p.letter_sound(VirtualKey::Space, 1, false), None);
}

#[test]
fn resetting_leaves_nothing() {
    let mut p = processor();
    type_letters(&mut p, "ni");
    p.reset();
    assert_eq!(p.ctx.session.buffer, "");
    assert!(p.ctx.session.candidates.is_empty());
    assert_eq!(p.ctx.session_state.commit_history.len(), 0);
}

#[test]
fn other_settings_ask_for_the_dictionaries() {
    let mut p = processor();
    assert!(p.ctx.engine.stale);
    let mut config = Config::default_config(options());
    config.appearance.page_size = 3;
    let applied = p.apply_config(config);
    assert!(applied.load_user_dicts);
    assert_eq!(applied.prewarm, words(&["chinese"]));
    assert_eq!(p.ctx.config.page_size(), 3);
}

#[test]
fn an_actor_answers_messages() {
    let mut a = ProcessorActor::new(processor());
    type_letters(&mut a.processor, "ni");
    match a.handle(ProcessorMsg::GetGuiSnapshot, 1) {
        Answer::Gui(Some(g)) => {
            assert_eq!(g.candidates[0].text, "你");
            assert_eq!(g.candidates[0].label, "1.");
            assert_eq!(g.candidates[1].label, "2.");
            assert!(!g.candidates[0].is_fuzzy);
            assert_eq!(g.page, 0);
            assert_eq!(g.selected, 0);
            assert_eq!(g.commit_mode, "single");
            assert!(g.chinese_enabled);
        }
        _ => panic!("there is no window"),
    }
    match a.handle(ProcessorMsg::PerformSearch, 1) {
        Answer::Searched(_) => assert_eq!(texts(&a.processor)[0], "你"),
        _ => panic!("nothing was searched for"),
    }
    assert!(matches!(a.handle(ProcessorMsg::Reset, 1), Answer::Done));
    assert_eq!(a.processor.ctx.session.buffer, "");
    match a.handle(ProcessorMsg::SetProfile { profile: "english, nothing".to_string() }, 1) {
        Answer::Profile(Some(t)) => {
            assert!(t.ime_enabled);
            assert_eq!(t.enabled_profiles, words(&["chinese", "english"]));
        }
        _ => panic!("the profile was not taken"),
    }
    assert_eq!(a.processor.ctx.session_state.active_profiles, words(&["english"]));
    assert_eq!(a.processor.ctx.config.master_config.get().input.default_profile, "english, nothing");
    assert!(matches!(a.handle(ProcessorMsg::SetProfile { profile: "none".to_string() }, 1), Answer::Profile(None)));
    match a.handle(ProcessorMsg::NextProfile, 1) {
        Answer::Tray(_) => assert_eq!(a.processor.ctx.session_state.active_profiles, words(&["chinese"])),
        _ => panic!("the profile did not change"),
    }
    match a.handle(ProcessorMsg::Toggle, 1) {
        Answer::Tray(t) => assert!(!t.chinese_enabled),
        _ => panic!("the language did not change"),
    }
    match a.handle(ProcessorMsg::GetBasicStatus, 1) {
        Answer::Status(s) => assert!(!s.chinese_enabled),
        _ => panic!("there is no status"),
    }
    assert!(matches!(a.handle(ProcessorMsg::ReloadTries, 1), Answer::Done));
    assert!(a.processor.ctx.engine.stale);
    assert!(matches!(a.handle(ProcessorMsg::GetConfig, 1), Answer::Settings));
    assert!(matches!(a.handle(ProcessorMsg::Exit, 1), Answer::Exit));
}

#[test]
fn a_key_is_answered_with_what_is_shown() {
    let mut a = ProcessorActor::new(processor());
    let msg = ProcessorMsg::HandleKeySync {
        key: VirtualKey::W,
        val: 1,
        shift: false,
        ctrl: false,
        alt: false,
        decision: decision(ImeState::Composing, FsmEffect::UpdateLookup),
    };
    match a.handle(msg, 1) {
        Answer::KeyShown(_, Some(g), s) => {
            assert_eq!(g.candidates[0].text, "我");
            assert!(s.chinese_enabled);
        }
        _ => panic!("nothing is shown"),
    }
}

#[test]
fn without_room_on_a_page_there_is_no_window() {
    let mut p = processor();
    let mut config = Config::default_config(options());
    config.appearance.page_size = 0;
    p.apply_config(config);
    let mut a = ProcessorActor::new(p);
    assert!(matches!(a.handle(ProcessorMsg::GetGuiSnapshot, 1), Answer::Gui(None)));
}

#[test]
fn the_home_row_navigates() {
    let mut p = processor();
    type_letters(&mut p, "ni");
    p.ctx.session.nav_mode = true;
    let _ = press(&mut p, VirtualKey::L, ImeState::Composing, FsmEffect::UpdateLookup, 9000);
    assert_eq!(p.ctx.session.selected, 1);
    let _ = press(&mut p, VirtualKey::H, ImeState::Composing, FsmEffect::UpdateLookup, 9100);
    assert_eq!(p.ctx.session.selected, 0);
    assert_eq!(p.ctx.session.buffer, "ni");
}

#[test]
fn a_letter_with_caps_lock_completes_the_syllable() {
    let mut c = config();
    c.enable_quick_finals = true;
    c.quick_finals = vec![QuickFinal { key: "a".to_string(), final_text: "ang".to_string() }];
    let mut p = processor_with(c);
    type_letters(&mut p, "n");
    p.ctx.session_state.capslock_down = true;
    let _ = press(&mut p, VirtualKey::A, ImeState::Composing, FsmEffect::UpdateLookup, 9000);
    assert_eq!(p.ctx.session.buffer, "nang");
}

#[test]
fn a_letter_struck_twice_is_replaced() {
    let mut c = config();
    c.input.enable_double_tap = true;
    c.input.double_taps = vec![DoubleTap { trigger_key: "n".to_string(), insert_text: "ng".to_string() }];
    let mut p = processor_with(c);
    let _ = press(&mut p, VirtualKey::N, ImeState::Composing, FsmEffect::UpdateLookup, 1000);
    assert_eq!(p.ctx.session.buffer, "n");
    let _ = press(&mut p, VirtualKey::N, ImeState::Composing, FsmEffect::UpdateLookup, 1250);
    assert_eq!(p.ctx.session.buffer, "ng");
    let _ = press(&mut p, VirtualKey::N, ImeState::Composing, FsmEffect::UpdateLookup, 2000);
    let _ = press(&mut p, VirtualKey::N, ImeState::Composing, FsmEffect::UpdateLookup, 2251);
    assert_eq!(p.ctx.session.buffer, "ngnn");
}

#[test]
fn backspace_deletes_a_letter_or_a_syllable() {
    let mut p = processor();
    type_letters(&mut p, "nihao");
    let _ = press(&mut p, VirtualKey::Backspace, ImeState::Composing, FsmEffect::UpdateLookup, 9000);
    assert_eq!(p.ctx.session.buffer, "niha");
    let _ = press(&mut p, VirtualKey::O, ImeState::Composing, FsmEffect::UpdateLookup, 9500);
    assert_eq!(p.ctx.session.best_segmentation, words(&["ni", "hao"]));
    p.ctx.session_state.capslock_down = true;
    let _ = press(&mut p, VirtualKey::Backspace, ImeState::Composing, FsmEffect::UpdateLookup, 9900);
    assert_eq!(p.ctx.session.buffer, "ni");
    let _ = press(&mut p, VirtualKey::Backspace, ImeState::Composing, FsmEffect::UpdateLookup, 9950);
    assert_eq!(p.ctx.session.buffer, "");
    assert_eq!(p.ctx.session.state, ImeState::Idle);
}

#[test]
fn home_and_end_choose_on_the_page() {
    let mut p = processor();
    type_letters(&mut p, "ni");
    let n = p.ctx.session.candidates.len();
    let size = p.ctx.config.page_size();
    let _ = press(&mut p, VirtualKey::End, ImeState::Composing, FsmEffect::UpdateLookup, 9000);
    assert_eq!(p.ctx.session.selected, n.min(size) - 1);
    let _ = press(&mut p, VirtualKey::Home, ImeState::Composing, FsmEffect::UpdateLookup, 9100);
    assert_eq!(p.ctx.session.selected, 0);
}

#[test]
fn a_digit_chooses_a_candidate() {
    let mut p = processor();
    type_letters(&mut p, "ni");
    match press(&mut p, VirtualKey::Digit1, ImeState::Idle, FsmEffect::UpdateLookup, 9000) {
        Reply::Done(Action::DeleteAndEmit { insert, .. }) => assert_eq!(insert, "你"),
        _ => panic!("nothing was put out"),
    }
}

#[test]
fn caps_lock_switches_the_language() {
    let mut p = processor();
    let d = decision(ImeState::Idle, FsmEffect::PassThrough);
    match p.handle_key_ext(VirtualKey::CapsLock, 1, false, false, false, true, d, 1) {
        Reply::Done(Action::Consume) => {}
        _ => panic!("the key was not kept"),
    }
    assert!(!p.ctx.session_state.chinese_enabled);
    let d = decision(ImeState::Idle, FsmEffect::PassThrough);
    match p.handle_key_ext(VirtualKey::N, 1, false, false, false, true, d, 2) {
        Reply::Done(Action::PassThrough) => {}
        _ => panic!("the letter was kept"),
    }
}

#[test]
fn words_put_out_are_learned() {
    let mut p = processor();
    for round in 0..2u64 {
        type_letters(&mut p, "nihao");
        let _ = press(&mut p, VirtualKey::Space, ImeState::Idle, FsmEffect::CommitFirst, 9000 + round);
    }
    assert_eq!(p.ctx.config.user_order.get("chinese").unwrap().words, words(&["你好"]));
    assert_eq!(p.ctx.session_state.commit_history.len(), 2);
}

#[test]
fn a_session_asks_for_fuzzy_sounds_from_the_start_where_no_turns_are_waited_for() {
    let mut c = config();
    c.input.fuzzy_config.fuzzy_page_threshold = 0;
    let mut p = processor_with(c);
    type_letters(&mut p, "ni");
    assert!(p.ctx.session.fuzzy_activated);
    let mut q = processor();
    type_letters(&mut q, "ni");
    assert!(!q.ctx.session.fuzzy_activated);
}

#[test]
fn what_is_typed_is_shown_in_the_application() {
    let mut p = processor_on(config(), false);
    match press(&mut p, VirtualKey::N, ImeState::Composing, FsmEffect::UpdateLookup, 1000) {
        Reply::Done(Action::Emit(t)) => assert_eq!(t, "n"),
        _ => panic!("the letter is not shown"),
    }
    match press(&mut p, VirtualKey::I, ImeState::Composing, FsmEffect::UpdateLookup, 2000) {
        Reply::Done(Action::Emit(t)) => assert_eq!(t, "i"),
        _ => panic!("the letter is not shown"),
    }
    assert_eq!(p.ctx.session.phantom_text, "ni");
    match press(&mut p, VirtualKey::Backspace, ImeState::Composing, FsmEffect::UpdateLookup, 3000) {
        Reply::Done(Action::DeleteAndEmit { delete, insert }) => {
            assert_eq!(delete, 1);
            assert_eq!(insert, "");
        }
        _ => panic!("the letter is not deleted"),
    }
    match press(&mut p, VirtualKey::Space, ImeState::Idle, FsmEffect::CommitRaw, 4000) {
        Reply::Done(Action::DeleteAndEmit { delete, insert }) => {
            assert_eq!(delete, 1);
            assert_eq!(insert, "n");
        }
        _ => panic!("nothing was put out"),
    }
}

#[test]
fn letters_are_shown_cut_into_syllables() {
    let mut p = processor();
    type_letters(&mut p, "nihao");
    assert_eq!(Compositor::get_preedit(&p.ctx), "ni hao");
    p.toggle();
    assert_eq!(Compositor::get_preedit(&p.ctx), "");
}

#[test]
fn only_keys_that_divide_ask_for_room_on_the_page() {
    let mut p = processor();
    type_letters(&mut p, "n");
    assert!(!p.ctx.session.candidates.is_empty());
    let mut config = config();
    config.appearance.page_size = 0;
    p.ctx.config.apply_config(config);
    let d = decision(ImeState::Composing, FsmEffect::UpdateLookup);
    assert!(!p.accepts(event(VirtualKey::End, 9000), &d));
    assert!(!p.accepts(event(VirtualKey::Right, 9000), &d));
    assert!(p.accepts(event(VirtualKey::Home, 9000), &d));
    assert!(p.accepts(event(VirtualKey::A, 9000), &d));
    let passed = decision(ImeState::Composing, FsmEffect::Consume);
    assert!(p.accepts(event(VirtualKey::End, 9000), &passed));
    match press(&mut p, VirtualKey::Backspace, ImeState::Composing, FsmEffect::UpdateLookup, 9000) {
        Reply::Done(Action::Consume) => {}
        _ => panic!("something was put out"),
    }
    assert_eq!(p.ctx.session.buffer, "");
    assert!(p.ctx.session.candidates.is_empty());
    assert_eq!(p.ctx.session.state, ImeState::Idle);
}

#[test]
fn a_letter_behind_caps_lock_switches_the_form_whatever_the_page_is() {
    let mut p = processor();
    type_letters(&mut p, "ni");
    let mut config = config();
    config.appearance.page_size = 0;
    p.ctx.config.apply_config(config);
    p.ctx.session_state.capslock_combo_active = true;
    let before = p.ctx.session_state.traditional_enabled;
    match press(&mut p, VirtualKey::F, ImeState::Composing, FsmEffect::UpdateLookup, 9000) {
        Reply::Done(Action::Notify(name, text)) => {
            assert_eq!(name, if before { "简体" } else { "繁體" });
            assert_eq!(text, format!("切換至 {} 模式", name));
        }
        _ => panic!("the form was not switched"),
    }
    assert_eq!(p.ctx.session_state.traditional_enabled, !before);
    assert_eq!(p.ctx.session.buffer, "ni");
}

#[test]
fn fuzzy_sounds_are_tried_where_nothing_is_found() {
    let mut p = processor();
    p.ctx.session.push_str("ni");
    let _ = p.lookup_with_limit(20, 1);
    assert!(!p.ctx.session.fuzzy_activated);
    assert!(p.ctx.session.has_dict_match);
    p.ctx.reset();
    p.ctx.session.push_str("vvv");
    let _ = p.lookup_with_limit(20, 1);
    assert!(p.ctx.session.fuzzy_activated);
    assert!(!p.ctx.session.has_dict_match);
    assert_eq!(texts(&p), vec!["vvv"]);
}

#[test]
fn what_was_not_chosen_is_not_noted() {
    let mut p = processor();
    type_letters(&mut p, "ni");
    let _ = commit_candidate(&mut p.ctx, "你", 98, 9000);
    assert_eq!(p.ctx.session_state.get_last_word(), Some("你"));
    type_letters(&mut p, "ni");
    let _ = commit_candidate(&mut p.ctx, "尼", NOT_CHOSEN, 9000);
    assert_eq!(p.ctx.session_state.get_last_word(), Some("你"));
}

#[test]
fn strokes_typed_as_digits_are_shown_encoded() {
    let mut config = config();
    config.input.phantom_type = PhantomType::Pinyin;
    let mut p = processor_on(config, false);
    p.ctx.stroke_codes.insert("12".to_string(), "hs".to_string());
    p.ctx.stroke_codes.insert("hs".to_string(), "other".to_string());
    p.ctx.stroke_codes.insert("3".to_string(), String::new());
    p.ctx.session.state = ImeState::Composing;
    p.ctx.session.buffer = "12".to_string();
    assert_eq!(Compositor::get_phantom_text(&p.ctx), "12");
    p.ctx.session_state.active_profiles = words(&["stroke"]);
    assert_eq!(Compositor::get_phantom_text(&p.ctx), "hs");
    for shown in ["hs", "3", "21"] {
        p.ctx.session.buffer = shown.to_string();
        assert_eq!(Compositor::get_phantom_text(&p.ctx), shown);
    }
}

#[test]
fn the_chinese_scheme_is_registered_beside_others() {
    let mut others = StrMap::new();
    others.insert("strokes".to_string(), Scheme::Bihua);
    let schemes = EngineContext::default_schemes(others);
    assert_eq!(schemes.len(), 2);
    assert!(matches!(schemes.get("chinese"), Some(Scheme::Chinese)));
    assert!(matches!(schemes.get("strokes"), Some(Scheme::Bihua)));
}
