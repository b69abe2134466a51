use qianyan_ime::action::{FilterMode, ImeState};
use qianyan_ime::candidate::Candidate;
use qianyan_ime::session::{respell, InputSession, MAX_BUFFER_LEN};

#[test]
fn test_session_basic_ops() {
    let mut session = InputSession::new();
    assert_eq!(session.state, ImeState::Idle);

    session.push_char('n');
    assert_eq!(session.buffer, "n");
    assert_eq!(session.state, ImeState::Composing);

    session.pop_char();
    assert_eq!(session.buffer, "");
    assert_eq!(session.state, ImeState::Idle);
}

#[test]
fn test_session_state_updates() {
    let mut session = InputSession::new();
    session.buffer = "nh".to_string();
    session.update_state();
    assert_eq!(session.state, ImeState::Composing);

    session.buffer.clear();
    session.update_state();
    assert_eq!(session.state, ImeState::Idle);
}

#[test]
fn test_session_reset() {
    let mut session = InputSession::new();
    session.push_char('a');
    session.nav_mode = true;
    session.reset();
    assert!(session.buffer.is_empty());
    assert!(!session.nav_mode);
    assert_eq!(session.state, ImeState::Idle);
}

#[test]
fn test_session_push_pop() {
    let mut session = InputSession::new();
    session.push_char('a');
    session.push_char('b');
    session.push_char('c');
    assert_eq!(session.buffer, "abc");

    session.pop_char();
    assert_eq!(session.buffer, "ab");

    session.pop_char();
    session.pop_char();
    assert_eq!(session.buffer, "");
}

#[test]
fn test_session_page_navigation() {
    let mut session = InputSession::new();
    session.candidates = vec![
        create_candidate("a"),
        create_candidate("b"),
        create_candidate("c"),
        create_candidate("d"),
        create_candidate("e"),
    ];

    session.selected = 2;
    session.next_candidate(3);
    assert_eq!(session.selected, 3);

    session.next_candidate(3);
    assert_eq!(session.selected, 4);

    session.prev_candidate(3);
    assert_eq!(session.selected, 3);
}

#[test]
fn test_session_clear_composing() {
    let mut session = InputSession::new();
    session.buffer = "test".to_string();
    session.phantom_text = "best".to_string();
    session.clear_composing();
    assert!(session.buffer.is_empty());
    assert!(session.phantom_text.is_empty());
    assert_eq!(session.state, ImeState::Idle);
}

fn create_candidate(text: &str) -> Candidate {
    Candidate {
        text: text.to_string(),
        simplified: text.to_string(),
        traditional: text.to_string(),
        hint: String::new(),
        english_aux: String::new(),
        stroke_aux: String::new(),
        source: "test".to_string(),
        weight: 1000,
        match_level: 3,
        flags: 0,
    }
}

#[test]
fn buffer_takes_no_more_than_fits() {
    let mut session = InputSession::new();
    for _ in 0..MAX_BUFFER_LEN + 5 {
        session.push_char('a');
    }
    assert_eq!(session.buffer.len(), MAX_BUFFER_LEN);
    assert!(!session.push_str("b"));
    session.pop_char();
    assert!(session.push_str("bc"));
    assert_eq!(session.buffer.len(), MAX_BUFFER_LEN);
    assert!(session.buffer.ends_with("ab"));
}

#[test]
fn cursor_moves_and_deletes() {
    let mut session = InputSession::new();
    session.push_str("nihao");
    session.move_cursor_end();
    assert_eq!(session.cursor_pos, 5);
    assert!(session.move_cursor_left());
    assert!(session.delete_at_cursor());
    assert_eq!(session.buffer, "niho");
    assert_eq!(session.cursor_pos, 3);
    session.insert_mode = true;
    session.insert_char_at_cursor('a');
    assert_eq!(session.buffer, "nihao");
    session.best_segmentation = vec!["ni".to_string(), "hao".to_string()];
    session.move_cursor_start();
    assert!(session.move_cursor_by_syllable(true));
    assert_eq!(session.cursor_pos, 2);
}

#[test]
fn auxiliary_code_is_typed_and_taken_back() {
    let mut session = InputSession::new();
    session.push_str("ni");
    session.candidates = vec![create_candidate("你")];
    session.handle_filter_char('h');
    assert_eq!(session.filter_mode, FilterMode::Page);
    assert_eq!(session.aux_filter, "h");
    assert_eq!(session.page_snapshot.len(), 1);
    session.handle_filter_char('e');
    assert_eq!(session.aux_filter, "he");
    session.pop_filter();
    session.pop_filter();
    assert_eq!(session.filter_mode, FilterMode::Off);
    assert!(session.page_snapshot.is_empty());
}

#[test]
fn respelling_leads_back() {
    let once = respell("zhang").unwrap();
    assert_eq!(once, "zang");
    assert_eq!(respell(&once).unwrap(), "zhang");
    assert_eq!(respell("ma"), None);
}
