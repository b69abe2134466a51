use qianyan_ime::keys::VirtualKey;

#[test]
fn test_display_name_not_empty() {
    let all = all_variants();
    for vk in &all {
        let name = vk.display_name();
        assert!(!name.is_empty(), "display_name() empty for {:?}", vk);
    }
}

#[test]
fn test_display_name_letters() {
    assert_eq!(VirtualKey::A.display_name(), "A");
    assert_eq!(VirtualKey::Z.display_name(), "Z");
    assert_eq!(VirtualKey::M.display_name(), "M");
}

#[test]
fn test_display_name_digits() {
    assert_eq!(VirtualKey::Digit0.display_name(), "0");
    assert_eq!(VirtualKey::Digit5.display_name(), "5");
    assert_eq!(VirtualKey::Digit9.display_name(), "9");
}

#[test]
fn test_display_name_modifiers() {
    assert_eq!(VirtualKey::Shift.display_name(), "⇧");
    assert_eq!(VirtualKey::Control.display_name(), "Ctrl");
    assert_eq!(VirtualKey::Alt.display_name(), "Alt");
}

#[test]
fn test_display_name_special() {
    assert_eq!(VirtualKey::Space.display_name(), "␣");
    assert_eq!(VirtualKey::Enter.display_name(), "↵");
    assert_eq!(VirtualKey::Tab.display_name(), "⇥");
    assert_eq!(VirtualKey::Backspace.display_name(), "⌫");
    assert_eq!(VirtualKey::Esc.display_name(), "⎋");
    assert_eq!(VirtualKey::CapsLock.display_name(), "⇪");
}

#[test]
fn test_display_name_arrows() {
    assert_eq!(VirtualKey::Left.display_name(), "←");
    assert_eq!(VirtualKey::Right.display_name(), "→");
    assert_eq!(VirtualKey::Up.display_name(), "↑");
    assert_eq!(VirtualKey::Down.display_name(), "↓");
}

#[test]
fn test_display_name_symbols() {
    assert_eq!(VirtualKey::Grave.display_name(), "`");
    assert_eq!(VirtualKey::Minus.display_name(), "-");
    assert_eq!(VirtualKey::Equal.display_name(), "=");
    assert_eq!(VirtualKey::LeftBrace.display_name(), "[");
    assert_eq!(VirtualKey::RightBrace.display_name(), "]");
    assert_eq!(VirtualKey::Backslash.display_name(), "\\");
}

#[test]
fn test_is_modifier_true() {
    assert!(VirtualKey::Shift.is_modifier());
    assert!(VirtualKey::Control.is_modifier());
    assert!(VirtualKey::Alt.is_modifier());
}

#[test]
fn test_is_modifier_false() {
    assert!(!VirtualKey::A.is_modifier());
    assert!(!VirtualKey::Digit1.is_modifier());
    assert!(!VirtualKey::Space.is_modifier());
    assert!(!VirtualKey::Enter.is_modifier());
    assert!(!VirtualKey::Left.is_modifier());
    assert!(!VirtualKey::Esc.is_modifier());
}

fn all_variants() -> Vec<VirtualKey> {
    vec![
        VirtualKey::A,
        VirtualKey::B,
        VirtualKey::C,
        VirtualKey::D,
        VirtualKey::E,
        VirtualKey::F,
        VirtualKey::G,
        VirtualKey::H,
        VirtualKey::I,
        VirtualKey::J,
        VirtualKey::K,
        VirtualKey::L,
        VirtualKey::M,
        VirtualKey::N,
        VirtualKey::O,
        VirtualKey::P,
        VirtualKey::Q,
        VirtualKey::R,
        VirtualKey::S,
        VirtualKey::T,
        VirtualKey::U,
        VirtualKey::V,
        VirtualKey::W,
        VirtualKey::X,
        VirtualKey::Y,
        VirtualKey::Z,
        VirtualKey::Digit0,
        VirtualKey::Digit1,
        VirtualKey::Digit2,
        VirtualKey::Digit3,
        VirtualKey::Digit4,
        VirtualKey::Digit5,
        VirtualKey::Digit6,
        VirtualKey::Digit7,
        VirtualKey::Digit8,
        VirtualKey::Digit9,
        VirtualKey::Space,
        VirtualKey::Enter,
        VirtualKey::Tab,
        VirtualKey::Backspace,
        VirtualKey::Esc,
        VirtualKey::CapsLock,
        VirtualKey::Shift,
        VirtualKey::Control,
        VirtualKey::Alt,
        VirtualKey::Left,
        VirtualKey::Right,
        VirtualKey::Up,
        VirtualKey::Down,
        VirtualKey::PageUp,
        VirtualKey::PageDown,
        VirtualKey::Home,
        VirtualKey::End,
        VirtualKey::Delete,
        VirtualKey::Grave,
        VirtualKey::Minus,
        VirtualKey::Equal,
        VirtualKey::LeftBrace,
        VirtualKey::RightBrace,
        VirtualKey::Backslash,
        VirtualKey::Semicolon,
        VirtualKey::Apostrophe,
        VirtualKey::Comma,
        VirtualKey::Dot,
        VirtualKey::Slash,
    ]
}
