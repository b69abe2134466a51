//! What the input method is told to do, and what it does.

use vstd::prelude::*;

verus! {

/// What the input method does with a key.
#[derive(Debug, Clone, PartialEq)]
pub enum Action {
    /// Puts out a text.
    Emit(String),
    /// Deletes characters, then puts out a text.
    DeleteAndEmit { delete: usize, insert: String },
    /// Hands the key on.
    PassThrough,
    /// Keeps the key.
    Consume,
    /// Warns.
    Alert,
    /// Shows a title and a text.
    Notify(String, String),
}

/// What the input method does with a key, as texts.
pub enum Act {
    Emit(Seq<char>),
    DeleteAndEmit(int, Seq<char>),
    PassThrough,
    Consume,
    Alert,
    Notify(Seq<char>, Seq<char>),
}

impl View for Action {
    type V = Act;

    open spec fn view(&self) -> Act {
        match self {
            Action::Emit(s) => Act::Emit(s@),
            Action::DeleteAndEmit { delete, insert } => Act::DeleteAndEmit(*delete as int, insert@),
            Action::PassThrough => Act::PassThrough,
            Action::Consume => Act::Consume,
            Action::Alert => Act::Alert,
            Action::Notify(a, b) => Act::Notify(a@, b@),
        }
    }
}

/// An action that may be missing, as texts.
pub open spec fn opt_act(o: Option<Action>) -> Option<Act> {
    match o {
        Some(a) => Some(a@),
        None => None,
    }
}

/// Which candidates an auxiliary code narrows down: none, all, or those of a page.
#[derive(Debug, Clone, Copy, PartialEq, Eq, Structural, Hash)]
pub enum FilterMode {
    Off,
    Global,
    Page,
}

/// What the input method is at.
#[derive(Debug, Clone, Copy, PartialEq, Eq, Structural)]
pub enum ImeState {
    Idle,
    Composing,
    Selecting,
}

/// What the input method is told to do.
#[derive(Debug, Clone, Copy, PartialEq, Eq, Structural)]
pub enum Command {
    NextPage,
    PrevPage,
    NextCandidate,
    PrevCandidate,
    /// Chooses a candidate of the page.
    Select(usize),
    /// Chooses a character of the first candidate.
    SelectChar(usize),
    /// Puts out the chosen candidate.
    Commit,
    /// Puts out the letters.
    CommitRaw,
    Clear,
}

/// The keys held down beside a key.
#[derive(Debug, Clone, Copy, PartialEq, Eq, Structural, Hash)]
pub struct ModifierState {
    pub shift: bool,
    pub ctrl: bool,
    pub alt: bool,
    pub meta: bool,
}

} // verus!
