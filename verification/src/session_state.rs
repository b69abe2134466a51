//! What outlives the composing of a word: the profiles, the modes, and what was put out last.
//!
//! Times are milliseconds on a clock that does not go back.

use vstd::prelude::*;
use crate::text;
use crate::text::{chars_of, same_text};

verus! {

/// How many words the history holds.
pub const HISTORY_LEN: usize = 10;

/// What outlives the composing of a word.
pub struct SessionState {
    pub active_profiles: Vec<String>,
    pub chinese_enabled: bool,
    pub ime_enabled: bool,
    pub traditional_enabled: bool,
    pub commit_history: Vec<(String, String)>,
    pub last_commit_time: u64,
    pub capslock_pending: bool,
    pub caps_lock_enabled: bool,
    pub capslock_down: bool,
    pub capslock_combo_active: bool,
    /// Whether the tab key is held down, to choose a character of a word.
    pub tab_down: bool,
    pub last_committed: Option<(String, String)>,
    pub last_committed_time: u64,
}

/// What outlives the composing of a word, as texts.
#[verifier::ext_equal]
pub struct Lasting {
    pub profiles: Seq<Seq<char>>,
    pub chinese_enabled: bool,
    pub ime_enabled: bool,
    pub traditional_enabled: bool,
    pub history: Seq<(Seq<char>, Seq<char>)>,
    pub last_commit_time: u64,
    pub capslock_pending: bool,
    pub caps_lock_enabled: bool,
    pub capslock_down: bool,
    pub capslock_combo_active: bool,
    pub tab_down: bool,
    pub last_committed: Option<(Seq<char>, Seq<char>)>,
    pub last_committed_time: u64,
}

/// The texts of pairs.
pub open spec fn pairs(v: Seq<(String, String)>) -> Seq<(Seq<char>, Seq<char>)> {
    v.map_values(|p: (String, String)| (p.0@, p.1@))
}

impl View for SessionState {
    type V = Lasting;

    open spec fn view(&self) -> Lasting {
        Lasting {
            profiles: text::texts(self.active_profiles@),
            chinese_enabled: self.chinese_enabled,
            ime_enabled: self.ime_enabled,
            traditional_enabled: self.traditional_enabled,
            history: pairs(self.commit_history@),
            last_commit_time: self.last_commit_time,
            capslock_pending: self.capslock_pending,
            caps_lock_enabled: self.caps_lock_enabled,
            capslock_down: self.capslock_down,
            capslock_combo_active: self.capslock_combo_active,
            tab_down: self.tab_down,
            last_committed: match self.last_committed {
                Some(p) => Some((p.0@, p.1@)),
                None => None,
            },
            last_committed_time: self.last_committed_time,
        }
    }
}

/// The time that has passed, none on a clock that has gone back.
pub open spec fn passed(now: u64, then: u64) -> int {
    if now > then {
        now - then
    } else {
        0
    }
}

impl Lasting {
    /// At the start: on, with nothing put out.
    pub open spec fn fresh(now: u64) -> Lasting {
        Lasting {
            profiles: Seq::empty(),
            chinese_enabled: true,
            ime_enabled: true,
            traditional_enabled: false,
            history: Seq::empty(),
            last_commit_time: now,
            capslock_pending: false,
            caps_lock_enabled: false,
            capslock_down: false,
            capslock_combo_active: false,
            tab_down: false,
            last_committed: None,
            last_committed_time: now,
        }
    }

    /// With one more word in the history, which keeps the last ten.
    pub open spec fn remembered(self, pinyin: Seq<char>, word: Seq<char>) -> Lasting {
        let all = self.history.push((pinyin, word));
        Lasting {
            history: if all.len() > HISTORY_LEN {
                all.skip(1)
            } else {
                all
            },
            ..self
        }
    }

    /// The word put out last.
    pub open spec fn last_word(self) -> Option<Seq<char>> {
        if self.history.len() > 0 {
            Some(self.history.last().1)
        } else {
            None
        }
    }

    /// The two words put out last.
    pub open spec fn last_two(self) -> Option<(Seq<char>, Seq<char>)> {
        if self.history.len() >= 2 {
            Some((self.history[self.history.len() - 2].1, self.history.last().1))
        } else {
            None
        }
    }

    /// The profile that counts.
    pub open spec fn profile(self) -> Seq<char> {
        if self.profiles.len() > 0 {
            self.profiles[0]
        } else {
            "chinese"@
        }
    }

    /// The first profile, or no text.
    pub open spec fn first_profile(self) -> Seq<char> {
        if self.profiles.len() > 0 {
            self.profiles[0]
        } else {
            Seq::empty()
        }
    }

    /// Whether strokes are typed.
    pub open spec fn strokes(self) -> bool {
        self.profiles.contains("stroke"@)
    }

    /// Whether English is typed.
    pub open spec fn english(self) -> bool {
        self.profiles.len() == 1 && self.profiles[0] == "english"@
    }

    /// The last two words joined, where they are not too long.
    pub open spec fn joined(self, max_len: int) -> Seq<(Seq<char>, Seq<char>)> {
        let n = self.history.len() as int;
        if n < 2 {
            Seq::empty()
        } else {
            let word = self.history[n - 2].1 + self.history[n - 1].1;
            if word.len() <= max_len {
                seq![(self.history[n - 2].0 + self.history[n - 1].0, word)]
            } else {
                Seq::empty()
            }
        }
    }
}

/// Whether a list holds a text.
pub(crate) fn list_holds(v: &Vec<String>, w: &str) -> (r: bool)
    ensures
        r == text::texts(v@).contains(w@),
{
    let ghost s = text::texts(v@);
    let mut i: usize = 0;
    while i < v.len()
        invariant
            i <= v.len(),
            s == text::texts(v@),
            forall|j: int| 0 <= j < i ==> #[trigger] s[j] != w@,
        decreases v.len() - i,
    {
        proof {
            assert(s[i as int] == v@[i as int]@);
        }
        if same_text(v[i].as_str(), w) {
            proof {
                assert(s.contains(w@));
            }
            return true;
        }
        i = i + 1;
    }
    false
}

impl SessionState {
    /// At the start.
    pub fn new(now: u64) -> (r: Self)
        ensures
            r@ == Lasting::fresh(now),
    {
        let r = SessionState {
            active_profiles: Vec::new(),
            chinese_enabled: true,
            ime_enabled: true,
            traditional_enabled: false,
            commit_history: Vec::new(),
            last_commit_time: now,
            capslock_pending: false,
            caps_lock_enabled: false,
            capslock_down: false,
            capslock_combo_active: false,
            tab_down: false,
            last_committed: None,
            last_committed_time: now,
        };
        proof {
            assert(r@ =~= Lasting::fresh(now));
        }
        r
    }

    /// Notes what was put out last.
    pub fn set_last_committed(&mut self, pinyin: String, word: String, now: u64)
        ensures
            final(self)@ == (Lasting {
                last_committed: Some((pinyin@, word@)),
                last_committed_time: now,
                ..old(self)@
            }),
    {
        self.last_committed = Some((pinyin, word));
        self.last_committed_time = now;
    }

    /// What was put out last, if that was less than some seconds ago.
    pub fn last_commit(&self, timeout_secs: u64, now: u64) -> (r: Option<(&str, &str)>)
        ensures
            crate::scheme::opt_pair(r) == (if passed(now, self@.last_committed_time) / 1000
                < timeout_secs {
                self@.last_committed
            } else {
                None
            }),
    {
        let elapsed = if now > self.last_committed_time {
            now - self.last_committed_time
        } else {
            0
        };
        if elapsed / 1000 < timeout_secs {
            match &self.last_committed {
                Some(p) => Some((p.0.as_str(), p.1.as_str())),
                None => None,
            }
        } else {
            None
        }
    }

    /// Adds a word to the history.
    pub fn add_to_history(&mut self, pinyin: String, word: String)
        ensures
            final(self)@ == old(self)@.remembered(pinyin@, word@),
    {
        let ghost was = self@.history;
        self.commit_history.push((pinyin, word));
        proof {
            assert(self@.history =~= was.push((pinyin@, word@)));
        }
        let ghost all = self.commit_history@;
        if self.commit_history.len() > HISTORY_LEN {
            self.commit_history.remove(0);
            proof {
                assert(pairs(self.commit_history@) =~= pairs(all).skip(1));
            }
        }
    }

    /// Forgets the history.
    pub fn clear_history(&mut self)
        ensures
            final(self)@ == (Lasting { history: Seq::empty(), ..old(self)@ }),
    {
        self.commit_history = Vec::new();
        proof {
            assert(self@.history =~= Seq::<(Seq<char>, Seq<char>)>::empty());
        }
    }

    /// The word put out last.
    pub fn get_last_word(&self) -> (r: Option<&str>)
        ensures
            crate::trie::opt_text(r) == self@.last_word(),
    {
        let n = self.commit_history.len();
        if n == 0 {
            None
        } else {
            proof {
                assert(self@.history[n - 1] == (
                    self.commit_history@[n - 1].0@,
                    self.commit_history@[n - 1].1@,
                ));
            }
            Some(self.commit_history[n - 1].1.as_str())
        }
    }

    /// The two words put out last.
    pub fn get_last_two_words(&self) -> (r: Option<(&str, &str)>)
        ensures
            crate::scheme::opt_pair(r) == self@.last_two(),
    {
        let n = self.commit_history.len();
        if n < 2 {
            None
        } else {
            Some((self.commit_history[n - 2].1.as_str(), self.commit_history[n - 1].1.as_str()))
        }
    }

    /// Notes when a word was put out.
    pub fn update_commit_time(&mut self, now: u64)
        ensures
            final(self)@ == (Lasting { last_commit_time: now, ..old(self)@ }),
    {
        self.last_commit_time = now;
    }

    /// The last two words joined, where they are not too long.
    pub fn get_combination_candidates(&self, max_len: usize) -> (r: Vec<(String, String)>)
        ensures
            pairs(r@) == self@.joined(max_len as int),
    {
        let mut out: Vec<(String, String)> = Vec::new();
        proof {
            assert(pairs(out@) =~= Seq::<(Seq<char>, Seq<char>)>::empty());
        }
        let n = self.commit_history.len();
        if n < 2 {
            return out;
        }
        let mut py = self.commit_history[n - 2].0.clone();
        py.append(self.commit_history[n - 1].0.as_str());
        let mut word = self.commit_history[n - 2].1.clone();
        word.append(self.commit_history[n - 1].1.as_str());
        if chars_of(word.as_str()).len() <= max_len {
            out.push((py, word));
        }
        proof {
            assert(pairs(out@) =~= self@.joined(max_len as int));
        }
        out
    }

    /// The profile that counts.
    pub fn get_current_profile(&self) -> (r: String)
        ensures
            r@ == self@.profile(),
    {
        if self.active_profiles.len() > 0 {
            self.active_profiles[0].clone()
        } else {
            "chinese".to_owned()
        }
    }

    /// The first profile, or no text.
    pub fn first_profile(&self) -> (r: String)
        ensures
            r@ == self@.first_profile(),
    {
        if self.active_profiles.len() > 0 {
            self.active_profiles[0].clone()
        } else {
            String::new()
        }
    }

    /// Whether strokes are typed.
    pub fn is_stroke_mode(&self) -> (r: bool)
        ensures
            r == self@.strokes(),
    {
        list_holds(&self.active_profiles, "stroke")
    }

    /// Whether English is typed.
    pub fn is_english_mode(&self) -> (r: bool)
        ensures
            r == self@.english(),
    {
        self.active_profiles.len() == 1 && same_text(self.active_profiles[0].as_str(), "english")
    }
}

/// The history never holds more than ten words, and the word put out last is its last.
pub proof fn law_history_is_bounded(s: Lasting, pinyin: Seq<char>, word: Seq<char>)
    requires
        s.history.len() <= HISTORY_LEN,
    ensures
        s.remembered(pinyin, word).history.len() <= HISTORY_LEN,
        s.remembered(pinyin, word).last_word() == Some(word),
{
}

} // verus!
