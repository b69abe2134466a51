//! The keys of the keyboard.

use vstd::prelude::*;
use crate::text;
use crate::text::{same_text, to_lower};

verus! {

/// A key.
#[derive(Debug, Clone, Copy, PartialEq, Eq, Structural, Hash)]
pub enum VirtualKey {
    A,
    B,
    C,
    D,
    E,
    F,
    G,
    H,
    I,
    J,
    K,
    L,
    M,
    N,
    O,
    P,
    Q,
    R,
    S,
    T,
    U,
    V,
    W,
    X,
    Y,
    Z,
    Digit0,
    Digit1,
    Digit2,
    Digit3,
    Digit4,
    Digit5,
    Digit6,
    Digit7,
    Digit8,
    Digit9,
    Space,
    Enter,
    Tab,
    Backspace,
    Esc,
    CapsLock,
    Shift,
    Control,
    Alt,
    Left,
    Right,
    Up,
    Down,
    PageUp,
    PageDown,
    Home,
    End,
    Delete,
    Grave,
    Minus,
    Equal,
    LeftBrace,
    RightBrace,
    Backslash,
    Semicolon,
    Apostrophe,
    Comma,
    Dot,
    Slash,
}

/// The number of a key: its place among the keys.
pub open spec fn key_number(k: VirtualKey) -> u32 {
    match k {
        VirtualKey::A => 0,
        VirtualKey::B => 1,
        VirtualKey::C => 2,
        VirtualKey::D => 3,
        VirtualKey::E => 4,
        VirtualKey::F => 5,
        VirtualKey::G => 6,
        VirtualKey::H => 7,
        VirtualKey::I => 8,
        VirtualKey::J => 9,
        VirtualKey::K => 10,
        VirtualKey::L => 11,
        VirtualKey::M => 12,
        VirtualKey::N => 13,
        VirtualKey::O => 14,
        VirtualKey::P => 15,
        VirtualKey::Q => 16,
        VirtualKey::R => 17,
        VirtualKey::S => 18,
        VirtualKey::T => 19,
        VirtualKey::U => 20,
        VirtualKey::V => 21,
        VirtualKey::W => 22,
        VirtualKey::X => 23,
        VirtualKey::Y => 24,
        VirtualKey::Z => 25,
        VirtualKey::Digit0 => 26,
        VirtualKey::Digit1 => 27,
        VirtualKey::Digit2 => 28,
        VirtualKey::Digit3 => 29,
        VirtualKey::Digit4 => 30,
        VirtualKey::Digit5 => 31,
        VirtualKey::Digit6 => 32,
        VirtualKey::Digit7 => 33,
        VirtualKey::Digit8 => 34,
        VirtualKey::Digit9 => 35,
        VirtualKey::Space => 36,
        VirtualKey::Enter => 37,
        VirtualKey::Tab => 38,
        VirtualKey::Backspace => 39,
        VirtualKey::Esc => 40,
        VirtualKey::CapsLock => 41,
        VirtualKey::Shift => 42,
        VirtualKey::Control => 43,
        VirtualKey::Alt => 44,
        VirtualKey::Left => 45,
        VirtualKey::Right => 46,
        VirtualKey::Up => 47,
        VirtualKey::Down => 48,
        VirtualKey::PageUp => 49,
        VirtualKey::PageDown => 50,
        VirtualKey::Home => 51,
        VirtualKey::End => 52,
        VirtualKey::Delete => 53,
        VirtualKey::Grave => 54,
        VirtualKey::Minus => 55,
        VirtualKey::Equal => 56,
        VirtualKey::LeftBrace => 57,
        VirtualKey::RightBrace => 58,
        VirtualKey::Backslash => 59,
        VirtualKey::Semicolon => 60,
        VirtualKey::Apostrophe => 61,
        VirtualKey::Comma => 62,
        VirtualKey::Dot => 63,
        VirtualKey::Slash => 64,
    }
}

/// What stands for a key when it is shown.
pub open spec fn key_sign(k: VirtualKey) -> Seq<char> {
    match k {
        VirtualKey::A => "A"@,
        VirtualKey::B => "B"@,
        VirtualKey::C => "C"@,
        VirtualKey::D => "D"@,
        VirtualKey::E => "E"@,
        VirtualKey::F => "F"@,
        VirtualKey::G => "G"@,
        VirtualKey::H => "H"@,
        VirtualKey::I => "I"@,
        VirtualKey::J => "J"@,
        VirtualKey::K => "K"@,
        VirtualKey::L => "L"@,
        VirtualKey::M => "M"@,
        VirtualKey::N => "N"@,
        VirtualKey::O => "O"@,
        VirtualKey::P => "P"@,
        VirtualKey::Q => "Q"@,
        VirtualKey::R => "R"@,
        VirtualKey::S => "S"@,
        VirtualKey::T => "T"@,
        VirtualKey::U => "U"@,
        VirtualKey::V => "V"@,
        VirtualKey::W => "W"@,
        VirtualKey::X => "X"@,
        VirtualKey::Y => "Y"@,
        VirtualKey::Z => "Z"@,
        VirtualKey::Digit0 => "0"@,
        VirtualKey::Digit1 => "1"@,
        VirtualKey::Digit2 => "2"@,
        VirtualKey::Digit3 => "3"@,
        VirtualKey::Digit4 => "4"@,
        VirtualKey::Digit5 => "5"@,
        VirtualKey::Digit6 => "6"@,
        VirtualKey::Digit7 => "7"@,
        VirtualKey::Digit8 => "8"@,
        VirtualKey::Digit9 => "9"@,
        VirtualKey::Space => "␣"@,
        VirtualKey::Enter => "↵"@,
        VirtualKey::Tab => "⇥"@,
        VirtualKey::Backspace => "⌫"@,
        VirtualKey::Esc => "⎋"@,
        VirtualKey::CapsLock => "⇪"@,
        VirtualKey::Shift => "⇧"@,
        VirtualKey::Control => "Ctrl"@,
        VirtualKey::Alt => "Alt"@,
        VirtualKey::Left => "←"@,
        VirtualKey::Right => "→"@,
        VirtualKey::Up => "↑"@,
        VirtualKey::Down => "↓"@,
        VirtualKey::PageUp => "⇞"@,
        VirtualKey::PageDown => "⇟"@,
        VirtualKey::Home => "↖"@,
        VirtualKey::End => "↘"@,
        VirtualKey::Delete => "⌦"@,
        VirtualKey::Grave => "`"@,
        VirtualKey::Minus => "-"@,
        VirtualKey::Equal => "="@,
        VirtualKey::LeftBrace => "["@,
        VirtualKey::RightBrace => "]"@,
        VirtualKey::Backslash => "\\"@,
        VirtualKey::Semicolon => ";"@,
        VirtualKey::Apostrophe => "'"@,
        VirtualKey::Comma => ","@,
        VirtualKey::Dot => "."@,
        VirtualKey::Slash => "/"@,
    }
}

/// Whether a key only changes what others do.
pub open spec fn modifies(k: VirtualKey) -> bool {
    k is Shift || k is Control || k is Alt
}

/// The key of a name in small letters.
pub open spec fn key_named(s: Seq<char>) -> Option<VirtualKey> {
    if s == "a"@ {
        Some(VirtualKey::A)
    } else if s == "b"@ {
        Some(VirtualKey::B)
    } else if s == "c"@ {
        Some(VirtualKey::C)
    } else if s == "d"@ {
        Some(VirtualKey::D)
    } else if s == "e"@ {
        Some(VirtualKey::E)
    } else if s == "f"@ {
        Some(VirtualKey::F)
    } else if s == "g"@ {
        Some(VirtualKey::G)
    } else if s == "h"@ {
        Some(VirtualKey::H)
    } else if s == "i"@ {
        Some(VirtualKey::I)
    } else if s == "j"@ {
        Some(VirtualKey::J)
    } else if s == "k"@ {
        Some(VirtualKey::K)
    } else if s == "l"@ {
        Some(VirtualKey::L)
    } else if s == "m"@ {
        Some(VirtualKey::M)
    } else if s == "n"@ {
        Some(VirtualKey::N)
    } else if s == "o"@ {
        Some(VirtualKey::O)
    } else if s == "p"@ {
        Some(VirtualKey::P)
    } else if s == "q"@ {
        Some(VirtualKey::Q)
    } else if s == "r"@ {
        Some(VirtualKey::R)
    } else if s == "s"@ {
        Some(VirtualKey::S)
    } else if s == "t"@ {
        Some(VirtualKey::T)
    } else if s == "u"@ {
        Some(VirtualKey::U)
    } else if s == "v"@ {
        Some(VirtualKey::V)
    } else if s == "w"@ {
        Some(VirtualKey::W)
    } else if s == "x"@ {
        Some(VirtualKey::X)
    } else if s == "y"@ {
        Some(VirtualKey::Y)
    } else if s == "z"@ {
        Some(VirtualKey::Z)
    } else if s == "0"@ || s == "digit0"@ {
        Some(VirtualKey::Digit0)
    } else if s == "1"@ || s == "digit1"@ {
        Some(VirtualKey::Digit1)
    } else if s == "2"@ || s == "digit2"@ {
        Some(VirtualKey::Digit2)
    } else if s == "3"@ || s == "digit3"@ {
        Some(VirtualKey::Digit3)
    } else if s == "4"@ || s == "digit4"@ {
        Some(VirtualKey::Digit4)
    } else if s == "5"@ || s == "digit5"@ {
        Some(VirtualKey::Digit5)
    } else if s == "6"@ || s == "digit6"@ {
        Some(VirtualKey::Digit6)
    } else if s == "7"@ || s == "digit7"@ {
        Some(VirtualKey::Digit7)
    } else if s == "8"@ || s == "digit8"@ {
        Some(VirtualKey::Digit8)
    } else if s == "9"@ || s == "digit9"@ {
        Some(VirtualKey::Digit9)
    } else if s == "space"@ {
        Some(VirtualKey::Space)
    } else if s == "enter"@ {
        Some(VirtualKey::Enter)
    } else if s == "tab"@ {
        Some(VirtualKey::Tab)
    } else if s == "backspace"@ {
        Some(VirtualKey::Backspace)
    } else if s == "esc"@ {
        Some(VirtualKey::Esc)
    } else if s == "capslock"@ {
        Some(VirtualKey::CapsLock)
    } else if s == "shift"@ {
        Some(VirtualKey::Shift)
    } else if s == "control"@ || s == "ctrl"@ {
        Some(VirtualKey::Control)
    } else if s == "alt"@ {
        Some(VirtualKey::Alt)
    } else if s == "left"@ {
        Some(VirtualKey::Left)
    } else if s == "right"@ {
        Some(VirtualKey::Right)
    } else if s == "up"@ {
        Some(VirtualKey::Up)
    } else if s == "down"@ {
        Some(VirtualKey::Down)
    } else if s == "pageup"@ {
        Some(VirtualKey::PageUp)
    } else if s == "pagedown"@ {
        Some(VirtualKey::PageDown)
    } else if s == "home"@ {
        Some(VirtualKey::Home)
    } else if s == "end"@ {
        Some(VirtualKey::End)
    } else if s == "delete"@ {
        Some(VirtualKey::Delete)
    } else if s == "grave"@ || s == "`"@ {
        Some(VirtualKey::Grave)
    } else if s == "minus"@ || s == "-"@ {
        Some(VirtualKey::Minus)
    } else if s == "equal"@ || s == "="@ {
        Some(VirtualKey::Equal)
    } else if s == "leftbrace"@ || s == "["@ {
        Some(VirtualKey::LeftBrace)
    } else if s == "rightbrace"@ || s == "]"@ {
        Some(VirtualKey::RightBrace)
    } else if s == "backslash"@ || s == "\\"@ {
        Some(VirtualKey::Backslash)
    } else if s == "semicolon"@ || s == ";"@ {
        Some(VirtualKey::Semicolon)
    } else if s == "apostrophe"@ || s == "'"@ {
        Some(VirtualKey::Apostrophe)
    } else if s == "comma"@ || s == ","@ {
        Some(VirtualKey::Comma)
    } else if s == "dot"@ || s == "."@ {
        Some(VirtualKey::Dot)
    } else if s == "slash"@ || s == "/"@ {
        Some(VirtualKey::Slash)
    } else {
        None
    }
}

/// Whether a key is a letter.
pub open spec fn letter_key(k: VirtualKey) -> bool {
    key_number(k) < 26
}

/// Whether a key is a digit.
pub open spec fn digit_key(k: VirtualKey) -> bool {
    26 <= key_number(k) < 36
}

impl VirtualKey {
    /// What stands for the key when it is shown.
    pub fn display_name(self) -> (r: &'static str)
        ensures
            r@ == key_sign(self),
    {
        match self {
            VirtualKey::A => "A",
            VirtualKey::B => "B",
            VirtualKey::C => "C",
            VirtualKey::D => "D",
            VirtualKey::E => "E",
            VirtualKey::F => "F",
            VirtualKey::G => "G",
            VirtualKey::H => "H",
            VirtualKey::I => "I",
            VirtualKey::J => "J",
            VirtualKey::K => "K",
            VirtualKey::L => "L",
            VirtualKey::M => "M",
            VirtualKey::N => "N",
            VirtualKey::O => "O",
            VirtualKey::P => "P",
            VirtualKey::Q => "Q",
            VirtualKey::R => "R",
            VirtualKey::S => "S",
            VirtualKey::T => "T",
            VirtualKey::U => "U",
            VirtualKey::V => "V",
            VirtualKey::W => "W",
            VirtualKey::X => "X",
            VirtualKey::Y => "Y",
            VirtualKey::Z => "Z",
            VirtualKey::Digit0 => "0",
            VirtualKey::Digit1 => "1",
            VirtualKey::Digit2 => "2",
            VirtualKey::Digit3 => "3",
            VirtualKey::Digit4 => "4",
            VirtualKey::Digit5 => "5",
            VirtualKey::Digit6 => "6",
            VirtualKey::Digit7 => "7",
            VirtualKey::Digit8 => "8",
            VirtualKey::Digit9 => "9",
            VirtualKey::Space => "␣",
            VirtualKey::Enter => "↵",
            VirtualKey::Tab => "⇥",
            VirtualKey::Backspace => "⌫",
            VirtualKey::Esc => "⎋",
            VirtualKey::CapsLock => "⇪",
            VirtualKey::Shift => "⇧",
            VirtualKey::Control => "Ctrl",
            VirtualKey::Alt => "Alt",
            VirtualKey::Left => "←",
            VirtualKey::Right => "→",
            VirtualKey::Up => "↑",
            VirtualKey::Down => "↓",
            VirtualKey::PageUp => "⇞",
            VirtualKey::PageDown => "⇟",
            VirtualKey::Home => "↖",
            VirtualKey::End => "↘",
            VirtualKey::Delete => "⌦",
            VirtualKey::Grave => "`",
            VirtualKey::Minus => "-",
            VirtualKey::Equal => "=",
            VirtualKey::LeftBrace => "[",
            VirtualKey::RightBrace => "]",
            VirtualKey::Backslash => "\\",
            VirtualKey::Semicolon => ";",
            VirtualKey::Apostrophe => "'",
            VirtualKey::Comma => ",",
            VirtualKey::Dot => ".",
            VirtualKey::Slash => "/",
        }
    }

    /// Whether the key only changes what others do.
    pub fn is_modifier(self) -> (r: bool)
        ensures
            r == modifies(self),
    {
        match self {
            VirtualKey::Shift => true,
            VirtualKey::Control => true,
            VirtualKey::Alt => true,
            _ => false,
        }
    }

    /// The number of the key.
    pub fn to_u32(self) -> (r: u32)
        ensures
            r == key_number(self),
    {
        match self {
            VirtualKey::A => 0,
            VirtualKey::B => 1,
            VirtualKey::C => 2,
            VirtualKey::D => 3,
            VirtualKey::E => 4,
            VirtualKey::F => 5,
            VirtualKey::G => 6,
            VirtualKey::H => 7,
            VirtualKey::I => 8,
            VirtualKey::J => 9,
            VirtualKey::K => 10,
            VirtualKey::L => 11,
            VirtualKey::M => 12,
            VirtualKey::N => 13,
            VirtualKey::O => 14,
            VirtualKey::P => 15,
            VirtualKey::Q => 16,
            VirtualKey::R => 17,
            VirtualKey::S => 18,
            VirtualKey::T => 19,
            VirtualKey::U => 20,
            VirtualKey::V => 21,
            VirtualKey::W => 22,
            VirtualKey::X => 23,
            VirtualKey::Y => 24,
            VirtualKey::Z => 25,
            VirtualKey::Digit0 => 26,
            VirtualKey::Digit1 => 27,
            VirtualKey::Digit2 => 28,
            VirtualKey::Digit3 => 29,
            VirtualKey::Digit4 => 30,
            VirtualKey::Digit5 => 31,
            VirtualKey::Digit6 => 32,
            VirtualKey::Digit7 => 33,
            VirtualKey::Digit8 => 34,
            VirtualKey::Digit9 => 35,
            VirtualKey::Space => 36,
            VirtualKey::Enter => 37,
            VirtualKey::Tab => 38,
            VirtualKey::Backspace => 39,
            VirtualKey::Esc => 40,
            VirtualKey::CapsLock => 41,
            VirtualKey::Shift => 42,
            VirtualKey::Control => 43,
            VirtualKey::Alt => 44,
            VirtualKey::Left => 45,
            VirtualKey::Right => 46,
            VirtualKey::Up => 47,
            VirtualKey::Down => 48,
            VirtualKey::PageUp => 49,
            VirtualKey::PageDown => 50,
            VirtualKey::Home => 51,
            VirtualKey::End => 52,
            VirtualKey::Delete => 53,
            VirtualKey::Grave => 54,
            VirtualKey::Minus => 55,
            VirtualKey::Equal => 56,
            VirtualKey::LeftBrace => 57,
            VirtualKey::RightBrace => 58,
            VirtualKey::Backslash => 59,
            VirtualKey::Semicolon => 60,
            VirtualKey::Apostrophe => 61,
            VirtualKey::Comma => 62,
            VirtualKey::Dot => 63,
            VirtualKey::Slash => 64,
        }
    }

    /// The key of a number.
    pub fn from_u32(v: u32) -> (r: Option<VirtualKey>)
        ensures
            r is Some <==> v < 65,
            r matches Some(k) ==> key_number(k) == v,
    {
        match v {
            0 => Some(VirtualKey::A),
            1 => Some(VirtualKey::B),
            2 => Some(VirtualKey::C),
            3 => Some(VirtualKey::D),
            4 => Some(VirtualKey::E),
            5 => Some(VirtualKey::F),
            6 => Some(VirtualKey::G),
            7 => Some(VirtualKey::H),
            8 => Some(VirtualKey::I),
            9 => Some(VirtualKey::J),
            10 => Some(VirtualKey::K),
            11 => Some(VirtualKey::L),
            12 => Some(VirtualKey::M),
            13 => Some(VirtualKey::N),
            14 => Some(VirtualKey::O),
            15 => Some(VirtualKey::P),
            16 => Some(VirtualKey::Q),
            17 => Some(VirtualKey::R),
            18 => Some(VirtualKey::S),
            19 => Some(VirtualKey::T),
            20 => Some(VirtualKey::U),
            21 => Some(VirtualKey::V),
            22 => Some(VirtualKey::W),
            23 => Some(VirtualKey::X),
            24 => Some(VirtualKey::Y),
            25 => Some(VirtualKey::Z),
            26 => Some(VirtualKey::Digit0),
            27 => Some(VirtualKey::Digit1),
            28 => Some(VirtualKey::Digit2),
            29 => Some(VirtualKey::Digit3),
            30 => Some(VirtualKey::Digit4),
            31 => Some(VirtualKey::Digit5),
            32 => Some(VirtualKey::Digit6),
            33 => Some(VirtualKey::Digit7),
            34 => Some(VirtualKey::Digit8),
            35 => Some(VirtualKey::Digit9),
            36 => Some(VirtualKey::Space),
            37 => Some(VirtualKey::Enter),
            38 => Some(VirtualKey::Tab),
            39 => Some(VirtualKey::Backspace),
            40 => Some(VirtualKey::Esc),
            41 => Some(VirtualKey::CapsLock),
            42 => Some(VirtualKey::Shift),
            43 => Some(VirtualKey::Control),
            44 => Some(VirtualKey::Alt),
            45 => Some(VirtualKey::Left),
            46 => Some(VirtualKey::Right),
            47 => Some(VirtualKey::Up),
            48 => Some(VirtualKey::Down),
            49 => Some(VirtualKey::PageUp),
            50 => Some(VirtualKey::PageDown),
            51 => Some(VirtualKey::Home),
            52 => Some(VirtualKey::End),
            53 => Some(VirtualKey::Delete),
            54 => Some(VirtualKey::Grave),
            55 => Some(VirtualKey::Minus),
            56 => Some(VirtualKey::Equal),
            57 => Some(VirtualKey::LeftBrace),
            58 => Some(VirtualKey::RightBrace),
            59 => Some(VirtualKey::Backslash),
            60 => Some(VirtualKey::Semicolon),
            61 => Some(VirtualKey::Apostrophe),
            62 => Some(VirtualKey::Comma),
            63 => Some(VirtualKey::Dot),
            64 => Some(VirtualKey::Slash),
            _ => None,
        }
    }

    /// The key of a name, in whatever letters.
    pub fn parse(s: &str) -> (r: Option<VirtualKey>)
        ensures
            r == key_named(text::lowercase(s@)),
    {
        let lower = to_lower(s);
        let n = lower.as_str();
        if same_text(n, "a") {
            Some(VirtualKey::A)
        } else if same_text(n, "b") {
            Some(VirtualKey::B)
        } else if same_text(n, "c") {
            Some(VirtualKey::C)
        } else if same_text(n, "d") {
            Some(VirtualKey::D)
        } else if same_text(n, "e") {
            Some(VirtualKey::E)
        } else if same_text(n, "f") {
            Some(VirtualKey::F)
        } else if same_text(n, "g") {
            Some(VirtualKey::G)
        } else if same_text(n, "h") {
            Some(VirtualKey::H)
        } else if same_text(n, "i") {
            Some(VirtualKey::I)
        } else if same_text(n, "j") {
            Some(VirtualKey::J)
        } else if same_text(n, "k") {
            Some(VirtualKey::K)
        } else if same_text(n, "l") {
            Some(VirtualKey::L)
        } else if same_text(n, "m") {
            Some(VirtualKey::M)
        } else if same_text(n, "n") {
            Some(VirtualKey::N)
        } else if same_text(n, "o") {
            Some(VirtualKey::O)
        } else if same_text(n, "p") {
            Some(VirtualKey::P)
        } else if same_text(n, "q") {
            Some(VirtualKey::Q)
        } else if same_text(n, "r") {
            Some(VirtualKey::R)
        } else if same_text(n, "s") {
            Some(VirtualKey::S)
        } else if same_text(n, "t") {
            Some(VirtualKey::T)
        } else if same_text(n, "u") {
            Some(VirtualKey::U)
        } else if same_text(n, "v") {
            Some(VirtualKey::V)
        } else if same_text(n, "w") {
            Some(VirtualKey::W)
        } else if same_text(n, "x") {
            Some(VirtualKey::X)
        } else if same_text(n, "y") {
            Some(VirtualKey::Y)
        } else if same_text(n, "z") {
            Some(VirtualKey::Z)
        } else if same_text(n, "0") || same_text(n, "digit0") {
            Some(VirtualKey::Digit0)
        } else if same_text(n, "1") || same_text(n, "digit1") {
            Some(VirtualKey::Digit1)
        } else if same_text(n, "2") || same_text(n, "digit2") {
            Some(VirtualKey::Digit2)
        } else if same_text(n, "3") || same_text(n, "digit3") {
            Some(VirtualKey::Digit3)
        } else if same_text(n, "4") || same_text(n, "digit4") {
            Some(VirtualKey::Digit4)
        } else if same_text(n, "5") || same_text(n, "digit5") {
            Some(VirtualKey::Digit5)
        } else if same_text(n, "6") || same_text(n, "digit6") {
            Some(VirtualKey::Digit6)
        } else if same_text(n, "7") || same_text(n, "digit7") {
            Some(VirtualKey::Digit7)
        } else if same_text(n, "8") || same_text(n, "digit8") {
            Some(VirtualKey::Digit8)
        } else if same_text(n, "9") || same_text(n, "digit9") {
            Some(VirtualKey::Digit9)
        } else if same_text(n, "space") {
            Some(VirtualKey::Space)
        } else if same_text(n, "enter") {
            Some(VirtualKey::Enter)
        } else if same_text(n, "tab") {
            Some(VirtualKey::Tab)
        } else if same_text(n, "backspace") {
            Some(VirtualKey::Backspace)
        } else if same_text(n, "esc") {
            Some(VirtualKey::Esc)
        } else if same_text(n, "capslock") {
            Some(VirtualKey::CapsLock)
        } else if same_text(n, "shift") {
            Some(VirtualKey::Shift)
        } else if same_text(n, "control") || same_text(n, "ctrl") {
            Some(VirtualKey::Control)
        } else if same_text(n, "alt") {
            Some(VirtualKey::Alt)
        } else if same_text(n, "left") {
            Some(VirtualKey::Left)
        } else if same_text(n, "right") {
            Some(VirtualKey::Right)
        } else if same_text(n, "up") {
            Some(VirtualKey::Up)
        } else if same_text(n, "down") {
            Some(VirtualKey::Down)
        } else if same_text(n, "pageup") {
            Some(VirtualKey::PageUp)
        } else if same_text(n, "pagedown") {
            Some(VirtualKey::PageDown)
        } else if same_text(n, "home") {
            Some(VirtualKey::Home)
        } else if same_text(n, "end") {
            Some(VirtualKey::End)
        } else if same_text(n, "delete") {
            Some(VirtualKey::Delete)
        } else if same_text(n, "grave") || same_text(n, "`") {
            Some(VirtualKey::Grave)
        } else if same_text(n, "minus") || same_text(n, "-") {
            Some(VirtualKey::Minus)
        } else if same_text(n, "equal") || same_text(n, "=") {
            Some(VirtualKey::Equal)
        } else if same_text(n, "leftbrace") || same_text(n, "[") {
            Some(VirtualKey::LeftBrace)
        } else if same_text(n, "rightbrace") || same_text(n, "]") {
            Some(VirtualKey::RightBrace)
        } else if same_text(n, "backslash") || same_text(n, "\\") {
            Some(VirtualKey::Backslash)
        } else if same_text(n, "semicolon") || same_text(n, ";") {
            Some(VirtualKey::Semicolon)
        } else if same_text(n, "apostrophe") || same_text(n, "'") {
            Some(VirtualKey::Apostrophe)
        } else if same_text(n, "comma") || same_text(n, ",") {
            Some(VirtualKey::Comma)
        } else if same_text(n, "dot") || same_text(n, ".") {
            Some(VirtualKey::Dot)
        } else if same_text(n, "slash") || same_text(n, "/") {
            Some(VirtualKey::Slash)
        } else {
            None
        }
    }
}

impl std::str::FromStr for VirtualKey {
    type Err = ();

    fn from_str(s: &str) -> (r: Result<VirtualKey, ()>) {
        match VirtualKey::parse(s) {
            Some(k) => Ok(k),
            None => Err(()),
        }
    }
}

/// Whether a key is a letter.
pub fn is_letter(key: VirtualKey) -> (r: bool)
    ensures
        r == letter_key(key),
{
    key.to_u32() < 26
}

/// Whether a key is a digit.
pub fn is_digit(key: VirtualKey) -> (r: bool)
    ensures
        r == digit_key(key),
{
    let n = key.to_u32();
    26 <= n && n < 36
}

/// The digit of a key.
pub fn key_to_digit(key: VirtualKey) -> (r: Option<usize>)
    ensures
        r is Some <==> digit_key(key),
        r matches Some(d) ==> d + 26 == key_number(key),
{
    let n = key.to_u32();
    if 26 <= n && n < 36 {
        Some((n - 26) as usize)
    } else {
        None
    }
}

/// No two keys have the same number, so that the number of a key leads back to it.
pub proof fn law_numbers_are_distinct(a: VirtualKey, b: VirtualKey)
    requires
        key_number(a) == key_number(b),
    ensures
        a == b,
{
}

} // verus!
