//! The session: what is being typed, and what is shown for it.

use vstd::prelude::*;
use vstd::utf8::*;
use crate::action::{FilterMode, ImeState};
use crate::candidate;
use crate::candidate::{copy_all, Cand, Candidate};
use crate::keys::VirtualKey;
use crate::text;
use crate::text::{chars_of, string_of, sub_str};
use crate::trie;

verus! {

/// How many bytes can be typed.
pub const MAX_BUFFER_LEN: usize = 64;

/// What is being typed, and what is shown for it.
pub struct InputSession {
    pub buffer: String,
    pub candidates: Vec<Candidate>,
    pub selected: usize,
    pub page: usize,
    pub cursor_pos: usize,
    pub joined_sentence: String,
    pub last_lookup_pinyin: String,
    pub state: ImeState,
    pub nav_mode: bool,
    pub switch_mode: bool,
    pub aux_filter: String,
    pub filter_mode: FilterMode,
    pub page_snapshot: Vec<Candidate>,
    pub shift_used_as_modifier: bool,
    pub best_segmentation: Vec<String>,
    pub phantom_text: String,
    pub preview_selected_candidate: bool,
    pub last_blocked_buffer: String,
    pub has_dict_match: bool,
    pub quote_open: bool,
    pub single_quote_open: bool,
    /// The key whose press was kept, so that its release is kept too.
    pub consumed_press_key: Option<VirtualKey>,
    pub fuzzy_activated: bool,
    pub fuzzy_page_turns: usize,
    pub insert_mode: bool,
    pub tab_d_count: u8,
}

/// What is being typed, as texts.
#[verifier::ext_equal]
pub struct Session {
    pub buffer: Seq<char>,
    pub candidates: Seq<Cand>,
    pub selected: int,
    pub page: int,
    pub cursor_pos: int,
    pub joined_sentence: Seq<char>,
    pub last_lookup_pinyin: Seq<char>,
    pub state: ImeState,
    pub nav_mode: bool,
    pub switch_mode: bool,
    pub aux_filter: Seq<char>,
    pub filter_mode: FilterMode,
    pub page_snapshot: Seq<Cand>,
    pub shift_used_as_modifier: bool,
    pub best_segmentation: Seq<Seq<char>>,
    pub phantom_text: Seq<char>,
    pub preview_selected_candidate: bool,
    pub last_blocked_buffer: Seq<char>,
    pub has_dict_match: bool,
    pub quote_open: bool,
    pub single_quote_open: bool,
    pub consumed_press_key: Option<VirtualKey>,
    pub fuzzy_activated: bool,
    pub fuzzy_page_turns: int,
    pub insert_mode: bool,
    pub tab_d_count: u8,
}

impl View for InputSession {
    type V = Session;

    open spec fn view(&self) -> Session {
        Session {
            buffer: self.buffer@,
            candidates: candidate::cands(self.candidates@),
            selected: self.selected as int,
            page: self.page as int,
            cursor_pos: self.cursor_pos as int,
            joined_sentence: self.joined_sentence@,
            last_lookup_pinyin: self.last_lookup_pinyin@,
            state: self.state,
            nav_mode: self.nav_mode,
            switch_mode: self.switch_mode,
            aux_filter: self.aux_filter@,
            filter_mode: self.filter_mode,
            page_snapshot: candidate::cands(self.page_snapshot@),
            shift_used_as_modifier: self.shift_used_as_modifier,
            best_segmentation: text::texts(self.best_segmentation@),
            phantom_text: self.phantom_text@,
            preview_selected_candidate: self.preview_selected_candidate,
            last_blocked_buffer: self.last_blocked_buffer@,
            has_dict_match: self.has_dict_match,
            quote_open: self.quote_open,
            single_quote_open: self.single_quote_open,
            consumed_press_key: self.consumed_press_key,
            fuzzy_activated: self.fuzzy_activated,
            fuzzy_page_turns: self.fuzzy_page_turns as int,
            insert_mode: self.insert_mode,
            tab_d_count: self.tab_d_count,
        }
    }
}

/// A session in which nothing has been typed.
pub open spec fn blank() -> Session {
    Session {
        buffer: Seq::empty(),
        candidates: Seq::empty(),
        selected: 0,
        page: 0,
        cursor_pos: 0,
        joined_sentence: Seq::empty(),
        last_lookup_pinyin: Seq::empty(),
        state: ImeState::Idle,
        nav_mode: false,
        switch_mode: false,
        aux_filter: Seq::empty(),
        filter_mode: FilterMode::Off,
        page_snapshot: Seq::empty(),
        shift_used_as_modifier: false,
        best_segmentation: Seq::empty(),
        phantom_text: Seq::empty(),
        preview_selected_candidate: false,
        last_blocked_buffer: Seq::empty(),
        has_dict_match: false,
        quote_open: false,
        single_quote_open: false,
        consumed_press_key: None,
        fuzzy_activated: false,
        fuzzy_page_turns: 0,
        insert_mode: false,
        tab_d_count: 0,
    }
}

/// The ends of syllables, in bytes, as far as they lie within the input.
pub open spec fn ends_within(segs: Seq<Seq<char>>, len: int) -> Seq<int>
    decreases segs.len(),
{
    if segs.len() == 0 {
        Seq::empty()
    } else {
        let before = ends_within(segs.drop_last(), len);
        let end = total_bytes(segs);
        if end <= len {
            before.push(end)
        } else {
            before
        }
    }
}

/// The bytes of some texts.
pub open spec fn total_bytes(segs: Seq<Seq<char>>) -> int
    decreases segs.len(),
{
    if segs.len() == 0 {
        0
    } else {
        total_bytes(segs.drop_last()) + text::byte_len(segs.last())
    }
}

/// The first of some numbers, from a place on, that is greater than another; -1 where there is
/// none.
pub open spec fn first_beyond(s: Seq<int>, x: int, i: int) -> int
    decreases s.len() - i,
{
    if i < 0 || i >= s.len() {
        -1
    } else if s[i] > x {
        s[i]
    } else {
        first_beyond(s, x, i + 1)
    }
}

/// The last of the first `n` numbers that is less than another; -1 where there is none.
pub open spec fn last_below(s: Seq<int>, x: int, n: int) -> int
    decreases n,
{
    if n <= 0 {
        -1
    } else if s[n - 1] < x {
        s[n - 1]
    } else {
        last_below(s, x, n - 1)
    }
}

/// Where the syllable at a position begins and ends: it ends at the first end that is not
/// before the position, and begins at the end before. Behind all ends there is no such
/// syllable, and the second number is -1.
pub open spec fn syllable_at(ends: Seq<int>, pos: int, i: int) -> (int, int)
    decreases ends.len() - i,
{
    let start = if 0 < i <= ends.len() {
        ends[i - 1]
    } else {
        0
    };
    if i < 0 || i >= ends.len() {
        (start, -1)
    } else if pos <= ends[i] {
        (start, ends[i])
    } else {
        syllable_at(ends, pos, i + 1)
    }
}

/// A text without the characters from one place to another.
pub open spec fn without_range(s: Seq<char>, i: int, j: int) -> Seq<char> {
    let a = trie::least(i, s.len() as int);
    let b = trie::least(j, s.len() as int);
    s.take(a) + s.skip(b)
}

/// The other spelling of a syllable: zh, ch, sh become z, c, s and the other way round. There
/// is none for other syllables, nor for a single letter.
pub open spec fn respelled(s: Seq<char>) -> Option<Seq<char>> {
    if s.len() >= 2 && (s[0] == 'z' || s[0] == 'c' || s[0] == 's') {
        if s[1] == 'h' {
            Some(seq![s[0]] + s.skip(2))
        } else {
            Some(seq![s[0], 'h'] + s.skip(1))
        }
    } else {
        None
    }
}

impl Session {
    /// With nothing being composed.
    pub open spec fn cleared(self) -> Session {
        Session {
            buffer: Seq::empty(),
            candidates: Seq::empty(),
            best_segmentation: Seq::empty(),
            joined_sentence: Seq::empty(),
            selected: 0,
            page: 0,
            state: ImeState::Idle,
            phantom_text: Seq::empty(),
            preview_selected_candidate: false,
            cursor_pos: 0,
            aux_filter: Seq::empty(),
            filter_mode: FilterMode::Off,
            page_snapshot: Seq::empty(),
            nav_mode: false,
            consumed_press_key: None,
            fuzzy_activated: false,
            fuzzy_page_turns: 0,
            ..self
        }
    }

    /// With nothing being composed, and no mode on.
    pub open spec fn after_reset(self) -> Session {
        Session {
            switch_mode: false,
            quote_open: false,
            single_quote_open: false,
            ..self.cleared()
        }
    }

    /// With a state that says that something is being composed.
    pub open spec fn woken(self) -> Session {
        Session {
            state: if self.state == ImeState::Idle {
                ImeState::Composing
            } else {
                self.state
            },
            ..self
        }
    }

    /// With a character typed, unless the buffer is full.
    pub open spec fn pushed(self, c: char) -> Session {
        if text::byte_len(self.buffer) >= MAX_BUFFER_LEN {
            self
        } else {
            Session {
                buffer: self.buffer.push(c),
                preview_selected_candidate: false,
                fuzzy_activated: false,
                fuzzy_page_turns: 0,
                ..self.woken()
            }
        }
    }

    /// How many bytes can still be typed.
    pub open spec fn room(self) -> int {
        trie::most(0, MAX_BUFFER_LEN - text::byte_len(self.buffer))
    }

    /// As much of a text as there is room for.
    pub open spec fn fitting(self, s: Seq<char>) -> Seq<char> {
        text::between(s, 0, trie::least(text::byte_len(s) as int, self.room()))
    }

    /// With as much of a text typed as there is room for.
    pub open spec fn pushed_text(self, s: Seq<char>) -> Session {
        if self.fitting(s).len() == 0 {
            self
        } else {
            Session {
                buffer: self.buffer + self.fitting(s),
                preview_selected_candidate: false,
                fuzzy_activated: false,
                fuzzy_page_turns: 0,
                ..self.woken()
            }
        }
    }

    /// As it is, or reset where nothing is left of what was typed.
    pub open spec fn or_reset(self) -> Session {
        if self.buffer.len() == 0 {
            self.after_reset()
        } else {
            self
        }
    }

    /// With the last character taken back.
    pub open spec fn popped(self) -> Session {
        if self.buffer.len() == 0 {
            self
        } else {
            Session { buffer: self.buffer.drop_last(), ..self }.or_reset()
        }
    }

    /// The ends of the syllables, in bytes.
    pub open spec fn ends(self) -> Seq<int> {
        ends_within(self.best_segmentation, text::byte_len(self.buffer) as int)
    }

    /// Where the cursor goes by a syllable.
    pub open spec fn syllable_step(self, forward: bool) -> int {
        let n = text::byte_len(self.buffer) as int;
        let by_syllables = self.buffer.len() > 0 && self.best_segmentation.len() > 0;
        let ends = self.ends();
        if by_syllables && ends.len() == 0 {
            self.cursor_pos
        } else if forward {
            if by_syllables && first_beyond(ends, self.cursor_pos, 0) >= 0 {
                first_beyond(ends, self.cursor_pos, 0)
            } else if self.cursor_pos < n {
                n
            } else {
                self.cursor_pos
            }
        } else {
            if by_syllables && last_below(ends, self.cursor_pos, ends.len() as int) >= 0 {
                last_below(ends, self.cursor_pos, ends.len() as int)
            } else {
                0
            }
        }
    }

    /// The buffer with a character at the cursor: put in, or in place of another. Behind the
    /// last character it is appended.
    pub open spec fn with_char_at_cursor(self, c: char) -> Seq<char> {
        let n = text::byte_len(self.buffer) as int;
        if self.insert_mode {
            text::between(self.buffer, 0, self.cursor_pos).push(c) + text::between(
                self.buffer,
                self.cursor_pos,
                n,
            )
        } else if self.cursor_pos < n {
            if self.cursor_pos < self.buffer.len() {
                self.buffer.update(self.cursor_pos, c)
            } else {
                self.buffer
            }
        } else {
            self.buffer.push(c)
        }
    }

    /// With a character typed at the cursor, unless the buffer is full.
    pub open spec fn typed_at_cursor(self, c: char) -> Session {
        if text::byte_len(self.buffer) >= MAX_BUFFER_LEN {
            self
        } else {
            Session {
                buffer: self.with_char_at_cursor(c),
                cursor_pos: self.cursor_pos + 1,
                preview_selected_candidate: false,
                ..self.woken()
            }
        }
    }

    /// Whether there is a byte before the cursor.
    pub open spec fn can_delete(self) -> bool {
        &&& self.buffer.len() > 0
        &&& 0 < self.cursor_pos <= text::byte_len(self.buffer)
    }

    /// With the character before the cursor deleted.
    pub open spec fn deleted_at_cursor(self) -> Session {
        if !self.can_delete() {
            self
        } else {
            let n = text::byte_len(self.buffer) as int;
            let i = self.cursor_pos - 1;
            Session {
                buffer: text::between(self.buffer, 0, i) + text::between(
                    self.buffer,
                    i,
                    n,
                ).drop_first(),
                cursor_pos: i,
                ..self
            }.or_reset()
        }
    }

    /// With the syllable at the cursor deleted.
    pub open spec fn syllable_deleted(self) -> Session {
        let ends = self.ends();
        if self.buffer.len() == 0 {
            self
        } else if self.best_segmentation.len() == 0 || ends.len() == 0 {
            self.popped()
        } else {
            let (start, end) = syllable_at(ends, self.cursor_pos, 0);
            if end >= 0 {
                Session {
                    buffer: without_range(self.buffer, start, end),
                    cursor_pos: start,
                    ..self
                }.or_reset()
            } else if start < text::byte_len(self.buffer) {
                Session {
                    buffer: self.buffer.take(trie::least(start, self.buffer.len() as int)),
                    cursor_pos: start,
                    ..self
                }.or_reset()
            } else {
                self
            }
        }
    }

    /// Where the syllable at the cursor begins and ends.
    pub open spec fn syllable_span(self) -> (int, int) {
        let n = text::byte_len(self.buffer) as int;
        if self.best_segmentation.len() == 0 {
            (0, n)
        } else {
            let (start, end) = syllable_at(self.ends(), self.cursor_pos, 0);
            (start, if end >= 0 {
                end
            } else {
                n
            })
        }
    }

    /// The other spelling of the syllable at the cursor.
    pub open spec fn respelling(self) -> Option<Seq<char>> {
        let (start, end) = self.syllable_span();
        if start < text::byte_len(self.buffer) {
            respelled(text::between(self.buffer, start, end))
        } else {
            None
        }
    }

    /// The buffer without the syllable at the cursor.
    pub open spec fn around_syllable(self) -> Seq<char> {
        let (start, end) = self.syllable_span();
        without_range(self.buffer, start, end)
    }

    /// Whether the syllable at the cursor can be cut out and another put in its place.
    pub open spec fn can_respell(self) -> bool {
        let (start, end) = self.syllable_span();
        start < text::byte_len(self.buffer) ==> {
            &&& text::on_boundary(self.buffer, start)
            &&& text::on_boundary(self.buffer, end)
            &&& start <= text::byte_len(self.around_syllable())
            &&& text::on_boundary(self.around_syllable(), start)
        }
    }

    /// With the syllable at the cursor in its other spelling.
    pub open spec fn fuzzy_toggled(self) -> Session {
        match self.respelling() {
            Some(t) => {
                let start = self.syllable_span().0;
                let rest = self.around_syllable();
                Session {
                    buffer: text::between(rest, 0, start) + t + text::between(
                        rest,
                        start,
                        text::byte_len(rest) as int,
                    ),
                    preview_selected_candidate: false,
                    ..self
                }
            },
            None => self,
        }
    }

    /// With the next candidate chosen.
    pub open spec fn next(self, page_size: int) -> Session {
        if self.candidates.len() == 0 {
            self
        } else {
            let selected = if self.selected + 1 < self.candidates.len() {
                self.selected + 1
            } else {
                self.selected
            };
            Session {
                preview_selected_candidate: true,
                selected,
                page: (selected / page_size) * page_size,
                ..self
            }
        }
    }

    /// With the candidate before chosen.
    pub open spec fn prev(self, page_size: int) -> Session {
        if self.candidates.len() == 0 {
            self
        } else {
            let selected = if self.selected > 0 {
                self.selected - 1
            } else {
                self.selected
            };
            Session {
                preview_selected_candidate: true,
                selected,
                page: (selected / page_size) * page_size,
                ..self
            }
        }
    }

    /// On the next page. The count of pages turned stays at the highest number there is.
    pub open spec fn page_turned(self, page_size: int) -> Session {
        let turns = trie::least(usize::MAX as int, self.fuzzy_page_turns + 1);
        if self.candidates.len() > 0 && self.page + page_size < self.candidates.len() {
            Session {
                page: self.page + page_size,
                selected: self.page + page_size,
                fuzzy_page_turns: turns,
                ..self
            }
        } else {
            Session { fuzzy_page_turns: turns, ..self }
        }
    }

    /// On the page before.
    pub open spec fn page_turned_back(self, page_size: int) -> Session {
        let page = trie::most(0, self.page - page_size);
        Session { page, selected: page, ..self }
    }

    /// With a character of the auxiliary code typed.
    pub open spec fn filter_typed(self, c: char) -> Session {
        let s = if self.filter_mode == FilterMode::Off {
            Session {
                filter_mode: FilterMode::Page,
                page_snapshot: self.candidates,
                aux_filter: seq![c],
                ..self
            }
        } else {
            Session { aux_filter: self.aux_filter.push(c), ..self }
        };
        Session {
            selected: 0,
            page: if s.filter_mode == FilterMode::Global {
                0
            } else {
                s.page
            },
            ..s
        }
    }

    /// With the last character of the auxiliary code taken back.
    pub open spec fn filter_popped(self) -> Session {
        if self.aux_filter.len() == 0 {
            self
        } else {
            let s = Session { aux_filter: self.aux_filter.drop_last(), ..self };
            if s.aux_filter.len() == 0 {
                Session { filter_mode: FilterMode::Off, page_snapshot: Seq::empty(), page: 0, ..s }
            } else {
                Session {
                    selected: 0,
                    page: if s.filter_mode == FilterMode::Global {
                        0
                    } else {
                        s.page
                    },
                    ..s
                }
            }
        }
    }

    /// With a state that says whether something is being composed.
    pub open spec fn state_updated(self) -> Session {
        if self.buffer.len() == 0 {
            Session { state: ImeState::Idle, ..self }
        } else {
            self.woken()
        }
    }
}

/// A text without its last character.
pub(crate) fn drop_last_char(s: &str) -> (r: String)
    requires
        s@.len() > 0,
    ensures
        r@ == s@.drop_last(),
{
    let c = chars_of(s);
    let r = string_of(vstd::slice::slice_subrange(c.as_slice(), 0, c.len() - 1));
    proof {
        assert(c@.subrange(0, c@.len() - 1) =~= s@.drop_last());
    }
    r
}

/// Whether a text is empty.
pub(crate) fn is_blank(s: &str) -> (r: bool)
    ensures
        r == (s@.len() == 0),
{
    proof {
        crate::chinese::lemma_bytes_of_text(s@);
    }
    s.as_bytes().len() == 0
}

/// A text without the characters from one place to another.
fn cut_range(s: &str, i: usize, j: usize) -> (r: String)
    ensures
        r@ == without_range(s@, i as int, j as int),
{
    let c = chars_of(s);
    let n = c.len();
    let a = if i < n {
        i
    } else {
        n
    };
    let b = if j < n {
        j
    } else {
        n
    };
    let mut out = string_of(vstd::slice::slice_subrange(c.as_slice(), 0, a));
    let tail = string_of(vstd::slice::slice_subrange(c.as_slice(), b, n));
    out.append(tail.as_str());
    proof {
        assert(c@.subrange(0, a as int) =~= s@.take(a as int));
        assert(c@.subrange(b as int, n as int) =~= s@.skip(b as int));
    }
    out
}

proof fn lemma_totals(segs: Seq<Seq<char>>, n: int)
    requires
        0 <= n <= segs.len(),
    ensures
        0 <= total_bytes(segs.take(n)),
        n < segs.len() ==> total_bytes(segs.take(n + 1)) == total_bytes(segs.take(n))
            + text::byte_len(segs[n]),
    decreases n,
{
    if n > 0 {
        lemma_totals(segs, n - 1);
        assert(segs.take(n).drop_last() =~= segs.take(n - 1));
        assert(segs.take(n).last() == segs[n - 1]);
    }
    if n < segs.len() {
        assert(segs.take(n + 1).drop_last() =~= segs.take(n));
        assert(segs.take(n + 1).last() == segs[n]);
    }
}

/// Numbers as integers.
pub open spec fn ints(v: Seq<usize>) -> Seq<int> {
    v.map_values(|x: usize| x as int)
}

/// The ends of syllables, in bytes, as far as they lie within the input.
pub fn syllable_boundaries(segments: &[String], buffer_len: usize) -> (r: Vec<usize>)
    ensures
        ints(r@) == ends_within(text::texts(segments@), buffer_len as int),
        forall|k: int| 0 <= k < r@.len() ==> #[trigger] r@[k] <= buffer_len,
        forall|j: int, k: int| 0 <= j < k < r@.len() ==> #[trigger] r@[j] <= #[trigger] r@[k],
{
    let ghost s = text::texts(segments@);
    let mut out: Vec<usize> = Vec::new();
    let mut pos: usize = 0;
    let mut beyond = false;
    let mut i: usize = 0;
    proof {
        assert(s.take(0) =~= Seq::<Seq<char>>::empty());
        assert(ints(out@) =~= Seq::<int>::empty());
    }
    while i < segments.len()
        invariant
            i <= segments@.len(),
            s == text::texts(segments@),
            pos <= buffer_len,
            !beyond ==> pos == total_bytes(s.take(i as int)),
            beyond ==> total_bytes(s.take(i as int)) > buffer_len,
            ints(out@) == ends_within(s.take(i as int), buffer_len as int),
            forall|k: int| 0 <= k < out@.len() ==> #[trigger] out@[k] <= pos,
            forall|j: int, k: int|
                0 <= j < k < out@.len() ==> #[trigger] out@[j] <= #[trigger] out@[k],
        decreases segments@.len() - i,
    {
        let ghost was = ints(out@);
        proof {
            lemma_totals(s, i as int);
            assert(s.take(i + 1).drop_last() =~= s.take(i as int));
            assert(s[i as int] == segments@[i as int]@);
        }
        let len = segments[i].as_str().as_bytes().len();
        if !beyond && len <= buffer_len - pos {
            pos = pos + len;
            out.push(pos);
            proof {
                assert(ints(out@) =~= was.push(pos as int));
            }
        } else {
            beyond = true;
        }
        i = i + 1;
    }
    proof {
        assert(s.take(s.len() as int) =~= s);
    }
    out
}

/// The first of some numbers that is greater than another.
fn find_beyond(v: &Vec<usize>, x: usize) -> (r: Option<usize>)
    ensures
        r is Some <==> first_beyond(ints(v@), x as int, 0) >= 0,
        r matches Some(e) ==> e == first_beyond(ints(v@), x as int, 0) && e > x,
{
    let ghost s = ints(v@);
    let mut i: usize = 0;
    while i < v.len()
        invariant
            i <= v.len(),
            s == ints(v@),
            first_beyond(s, x as int, 0) == first_beyond(s, x as int, i as int),
        decreases v.len() - i,
    {
        proof {
            assert(s[i as int] == v@[i as int]);
        }
        if v[i] > x {
            return Some(v[i]);
        }
        i = i + 1;
    }
    None
}

/// The last of some numbers that is less than another.
fn find_below(v: &Vec<usize>, x: usize) -> (r: Option<usize>)
    ensures
        r is Some <==> last_below(ints(v@), x as int, v@.len() as int) >= 0,
        r matches Some(e) ==> e == last_below(ints(v@), x as int, v@.len() as int) && e < x,
{
    let ghost s = ints(v@);
    let mut i: usize = v.len();
    while i > 0
        invariant
            i <= v.len(),
            s == ints(v@),
            last_below(s, x as int, s.len() as int) == last_below(s, x as int, i as int),
        decreases i,
    {
        proof {
            assert(s[i - 1] == v@[i - 1]);
        }
        if v[i - 1] < x {
            return Some(v[i - 1]);
        }
        i = i - 1;
    }
    None
}

/// Where the syllable at a position begins, and where it ends if it does.
fn find_syllable(v: &Vec<usize>, pos: usize) -> (r: (usize, Option<usize>))
    ensures
        r.0 == syllable_at(ints(v@), pos as int, 0).0,
        r.1 is Some <==> syllable_at(ints(v@), pos as int, 0).1 >= 0,
        r.1 matches Some(e) ==> e == syllable_at(ints(v@), pos as int, 0).1,
{
    let ghost s = ints(v@);
    let mut start: usize = 0;
    let mut i: usize = 0;
    while i < v.len()
        invariant
            i <= v.len(),
            s == ints(v@),
            start == (if i > 0 {
                s[i - 1]
            } else {
                0
            }),
            syllable_at(s, pos as int, 0) == syllable_at(s, pos as int, i as int),
        decreases v.len() - i,
    {
        proof {
            assert(s[i as int] == v@[i as int]);
        }
        if pos <= v[i] {
            return (start, Some(v[i]));
        }
        start = v[i];
        i = i + 1;
    }
    (start, None)
}

/// Puts a text into another at a place, in bytes.
fn put_in(s: &str, at: usize, t: &str) -> (r: String)
    requires
        at <= text::byte_len(s@),
        text::on_boundary(s@, at as int),
    ensures
        r@ == text::between(s@, 0, at as int) + t@ + text::between(
            s@,
            at as int,
            text::byte_len(s@) as int,
        ),
{
    proof {
        encode_utf8_valid_utf8(s@);
        crate::segmentation::lemma_end_is_boundary(s@);
    }
    let n = s.as_bytes().len();
    let mut out = sub_str(s, 0, at).to_owned();
    out.append(t);
    out.append(sub_str(s, at, n));
    out
}

/// The other spelling of a syllable.
pub fn respell(s: &str) -> (r: Option<String>)
    ensures
        crate::config::opt_view(r) == respelled(s@),
{
    let c = chars_of(s);
    let n = c.len();
    if n >= 2 && (c[0] == 'z' || c[0] == 'c' || c[0] == 's') {
        let mut out = text::char_string(c[0]);
        if c[1] == 'h' {
            let tail = string_of(vstd::slice::slice_subrange(c.as_slice(), 2, n));
            out.append(tail.as_str());
            proof {
                assert(c@.subrange(2, n as int) =~= s@.skip(2));
            }
        } else {
            out.push('h');
            let tail = string_of(vstd::slice::slice_subrange(c.as_slice(), 1, n));
            out.append(tail.as_str());
            proof {
                assert(c@.subrange(1, n as int) =~= s@.skip(1));
                assert(seq![s@[0]].push('h') =~= seq![s@[0], 'h']);
            }
        }
        Some(out)
    } else {
        None
    }
}

impl InputSession {
    /// A session in which nothing has been typed.
    pub fn new() -> (r: Self)
        ensures
            r@ == blank(),
    {
        let r = InputSession {
            buffer: String::new(),
            candidates: Vec::new(),
            selected: 0,
            page: 0,
            cursor_pos: 0,
            joined_sentence: String::new(),
            last_lookup_pinyin: String::new(),
            state: ImeState::Idle,
            nav_mode: false,
            switch_mode: false,
            aux_filter: String::new(),
            filter_mode: FilterMode::Off,
            page_snapshot: Vec::new(),
            shift_used_as_modifier: false,
            best_segmentation: Vec::new(),
            phantom_text: String::new(),
            preview_selected_candidate: false,
            last_blocked_buffer: String::new(),
            has_dict_match: false,
            quote_open: false,
            single_quote_open: false,
            consumed_press_key: None,
            fuzzy_activated: false,
            fuzzy_page_turns: 0,
            insert_mode: false,
            tab_d_count: 0,
        };
        proof {
            assert(r@ =~= blank());
        }
        r
    }

    /// Forgets what was being composed, and leaves every mode.
    pub fn reset(&mut self)
        ensures
            final(self)@ == old(self)@.after_reset(),
    {
        self.clear_composing();
        self.switch_mode = false;
        self.quote_open = false;
        self.single_quote_open = false;
        self.fuzzy_activated = false;
        self.fuzzy_page_turns = 0;
    }

    /// Forgets what was being composed.
    pub fn clear_composing(&mut self)
        ensures
            final(self)@ == old(self)@.cleared(),
    {
        self.buffer = String::new();
        self.candidates = Vec::new();
        self.best_segmentation = Vec::new();
        self.joined_sentence = String::new();
        self.selected = 0;
        self.page = 0;
        self.state = ImeState::Idle;
        self.phantom_text = String::new();
        self.preview_selected_candidate = false;
        self.cursor_pos = 0;
        self.aux_filter = String::new();
        self.filter_mode = FilterMode::Off;
        self.page_snapshot = Vec::new();
        self.nav_mode = false;
        self.consumed_press_key = None;
        self.fuzzy_activated = false;
        self.fuzzy_page_turns = 0;
        proof {
            assert(self@ =~= old(self)@.cleared());
        }
    }

    /// Notes that something is being composed.
    fn wake(&mut self)
        ensures
            final(self)@ == old(self)@.woken(),
    {
        if self.state == ImeState::Idle {
            self.state = ImeState::Composing;
        }
    }

    /// Types a character.
    pub fn push_char(&mut self, c: char)
        ensures
            final(self)@ == old(self)@.pushed(c),
    {
        if self.buffer.as_str().as_bytes().len() >= MAX_BUFFER_LEN {
            return ;
        }
        self.buffer.push(c);
        self.wake();
        self.preview_selected_candidate = false;
        self.fuzzy_activated = false;
        self.fuzzy_page_turns = 0;
    }

    /// Types as much of a text as there is room for, and says whether anything was typed.
    pub fn push_str(&mut self, s: &str) -> (r: bool)
        requires
            text::on_boundary(
                s@,
                trie::least(text::byte_len(s@) as int, old(self)@.room()),
            ),
        ensures
            final(self)@ == old(self)@.pushed_text(s@),
            r == (old(self)@.fitting(s@).len() > 0),
    {
        let used = self.buffer.as_str().as_bytes().len();
        let room: usize = if used < MAX_BUFFER_LEN {
            MAX_BUFFER_LEN - used
        } else {
            0
        };
        let len = s.as_bytes().len();
        let n = if len < room {
            len
        } else {
            room
        };
        proof {
            encode_utf8_valid_utf8(s@);
        }
        let part = sub_str(s, 0, n);
        if is_blank(part) {
            return false;
        }
        self.buffer.append(part);
        self.wake();
        self.preview_selected_candidate = false;
        self.fuzzy_activated = false;
        self.fuzzy_page_turns = 0;
        true
    }

    /// Resets where nothing is left of what was typed.
    fn reset_if_empty(&mut self)
        ensures
            final(self)@ == old(self)@.or_reset(),
    {
        if is_blank(self.buffer.as_str()) {
            self.reset();
        }
    }

    /// Takes the last character back, and says whether there was one.
    pub fn pop_char(&mut self) -> (r: bool)
        ensures
            final(self)@ == old(self)@.popped(),
            r == (old(self)@.buffer.len() > 0),
    {
        if is_blank(self.buffer.as_str()) {
            return false;
        }
        let b = drop_last_char(self.buffer.as_str());
        self.buffer = b;
        self.reset_if_empty();
        true
    }

    /// Moves the cursor back by a byte, and says whether it moved.
    pub fn move_cursor_left(&mut self) -> (r: bool)
        ensures
            r == (old(self)@.cursor_pos > 0),
            final(self)@ == (Session {
                cursor_pos: trie::most(0, old(self)@.cursor_pos - 1),
                ..old(self)@
            }),
    {
        if self.cursor_pos > 0 {
            self.cursor_pos = self.cursor_pos - 1;
            true
        } else {
            false
        }
    }

    /// Moves the cursor on by a byte, and says whether it moved.
    pub fn move_cursor_right(&mut self) -> (r: bool)
        ensures
            r == (old(self)@.cursor_pos < text::byte_len(old(self)@.buffer)),
            final(self)@ == (Session {
                cursor_pos: if r {
                    old(self)@.cursor_pos + 1
                } else {
                    old(self)@.cursor_pos
                },
                ..old(self)@
            }),
    {
        if self.cursor_pos < self.buffer.as_str().as_bytes().len() {
            self.cursor_pos = self.cursor_pos + 1;
            true
        } else {
            false
        }
    }

    /// Moves the cursor to the beginning.
    pub fn move_cursor_start(&mut self)
        ensures
            final(self)@ == (Session { cursor_pos: 0, ..old(self)@ }),
    {
        self.cursor_pos = 0;
    }

    /// Moves the cursor to the end.
    pub fn move_cursor_end(&mut self)
        ensures
            final(self)@ == (Session {
                cursor_pos: text::byte_len(old(self)@.buffer) as int,
                ..old(self)@
            }),
    {
        self.cursor_pos = self.buffer.as_str().as_bytes().len();
    }

    /// Where the cursor goes by a syllable.
    fn find_step(&self, forward: bool) -> (r: usize)
        ensures
            r == self@.syllable_step(forward),
    {
        let n = self.buffer.as_str().as_bytes().len();
        let pos = self.cursor_pos;
        if !is_blank(self.buffer.as_str()) && self.best_segmentation.len() > 0 {
            let ends = syllable_boundaries(self.best_segmentation.as_slice(), n);
            if ends.len() == 0 {
                return pos;
            }
            let to = if forward {
                find_beyond(&ends, pos)
            } else {
                find_below(&ends, pos)
            };
            if let Some(e) = to {
                return e;
            }
        }
        if !forward {
            0
        } else if pos < n {
            n
        } else {
            pos
        }
    }

    /// Moves the cursor by a syllable, and says whether it moved.
    pub fn move_cursor_by_syllable(&mut self, forward: bool) -> (r: bool)
        ensures
            final(self)@ == (Session {
                cursor_pos: old(self)@.syllable_step(forward),
                ..old(self)@
            }),
            r == (old(self)@.syllable_step(forward) != old(self)@.cursor_pos),
    {
        let to = self.find_step(forward);
        let moved = to != self.cursor_pos;
        self.cursor_pos = to;
        moved
    }

    /// Types a character at the cursor: puts it in, or in place of another.
    pub fn insert_char_at_cursor(&mut self, c: char)
        requires
            old(self)@.cursor_pos < usize::MAX,
            old(self)@.insert_mode && text::byte_len(old(self)@.buffer) < MAX_BUFFER_LEN ==> {
                &&& old(self)@.cursor_pos <= text::byte_len(old(self)@.buffer)
                &&& text::on_boundary(old(self)@.buffer, old(self)@.cursor_pos)
            },
        ensures
            final(self)@ == old(self)@.typed_at_cursor(c),
    {
        let n = self.buffer.as_str().as_bytes().len();
        if n >= MAX_BUFFER_LEN {
            return ;
        }
        let ghost b = self.buffer@;
        let pos = self.cursor_pos;
        if self.insert_mode {
            proof {
                encode_utf8_valid_utf8(b);
                crate::segmentation::lemma_end_is_boundary(b);
            }
            let mut out = sub_str(self.buffer.as_str(), 0, pos).to_owned();
            let tail = sub_str(self.buffer.as_str(), pos, n);
            out.push(c);
            out.append(tail);
            self.buffer = out;
        } else if pos < n {
            let mut chars = chars_of(self.buffer.as_str());
            if pos < chars.len() {
                chars.set(pos, c);
            }
            self.buffer = string_of(chars.as_slice());
        } else {
            self.buffer.push(c);
        }
        self.cursor_pos = pos + 1;
        self.wake();
        self.preview_selected_candidate = false;
    }

    /// Deletes the character before the cursor, and says whether there was one.
    pub fn delete_at_cursor(&mut self) -> (r: bool)
        requires
            old(self)@.can_delete() ==> text::on_boundary(
                old(self)@.buffer,
                old(self)@.cursor_pos - 1,
            ),
        ensures
            final(self)@ == old(self)@.deleted_at_cursor(),
            r == old(self)@.can_delete(),
    {
        let n = self.buffer.as_str().as_bytes().len();
        if is_blank(self.buffer.as_str()) || self.cursor_pos == 0 || self.cursor_pos > n {
            return false;
        }
        let ghost b = self.buffer@;
        let i = self.cursor_pos - 1;
        proof {
            encode_utf8_valid_utf8(b);
            crate::segmentation::lemma_end_is_boundary(b);
        }
        let mut out = sub_str(self.buffer.as_str(), 0, i).to_owned();
        let tail = sub_str(self.buffer.as_str(), i, n);
        let chars = chars_of(tail);
        proof {
            crate::chinese::lemma_bytes_of_text(tail@);
            encode_utf8_decode_utf8(tail@);
        }
        let rest = string_of(vstd::slice::slice_subrange(chars.as_slice(), 1, chars.len()));
        proof {
            assert(chars@.subrange(1, chars@.len() as int) =~= tail@.drop_first());
        }
        out.append(rest.as_str());
        self.buffer = out;
        self.cursor_pos = i;
        self.reset_if_empty();
        true
    }

    /// Deletes the syllable at the cursor, and says whether there was one.
    pub fn delete_syllable_at_cursor(&mut self) -> (r: bool)
        ensures
            final(self)@ == old(self)@.syllable_deleted(),
            r == (old(self)@.buffer.len() > 0 && !(old(self)@.best_segmentation.len() > 0
                && old(self)@.ends().len() > 0 && syllable_at(
                old(self)@.ends(),
                old(self)@.cursor_pos,
                0,
            ).1 < 0 && syllable_at(old(self)@.ends(), old(self)@.cursor_pos, 0).0
                >= text::byte_len(old(self)@.buffer))),
    {
        if is_blank(self.buffer.as_str()) {
            return false;
        }
        if self.best_segmentation.len() == 0 {
            return self.pop_char();
        }
        let n = self.buffer.as_str().as_bytes().len();
        let ends = syllable_boundaries(self.best_segmentation.as_slice(), n);
        if ends.len() == 0 {
            return self.pop_char();
        }
        let (start, end) = find_syllable(&ends, self.cursor_pos);
        match end {
            Some(e) => {
                let b = cut_range(self.buffer.as_str(), start, e);
                self.buffer = b;
                self.cursor_pos = start;
                self.reset_if_empty();
                true
            },
            None => if start < n {
                let b = cut_range(self.buffer.as_str(), start, n);
                proof {
                    lemma_bytes_and_chars(self.buffer@);
                    let s = self.buffer@;
                    assert(s.take(trie::least(start as int, s.len() as int)) + s.skip(
                        s.len() as int,
                    ) =~= s.take(trie::least(start as int, s.len() as int)));
                }
                self.buffer = b;
                self.cursor_pos = start;
                self.reset_if_empty();
                true
            } else {
                false
            },
        }
    }

    /// Puts the syllable at the cursor into its other spelling, and says whether it has one.
    pub fn toggle_syllable_fuzzy(&mut self) -> (r: bool)
        requires
            old(self)@.can_respell(),
        ensures
            final(self)@ == old(self)@.fuzzy_toggled(),
            r == (old(self)@.respelling() is Some),
    {
        let n = self.buffer.as_str().as_bytes().len();
        let (start, end) = self.find_span();
        if start >= n {
            return false;
        }
        let syllable = sub_str(self.buffer.as_str(), start, end);
        match respell(syllable) {
            None => false,
            Some(t) => {
                let rest = cut_range(self.buffer.as_str(), start, end);
                let b = put_in(rest.as_str(), start, t.as_str());
                self.buffer = b;
                self.preview_selected_candidate = false;
                true
            },
        }
    }

    /// Where the syllable at the cursor begins and ends.
    fn find_span(&self) -> (r: (usize, usize))
        ensures
            (r.0 as int, r.1 as int) == self@.syllable_span(),
            r.0 < text::byte_len(self@.buffer) ==> r.0 <= r.1,
            r.1 <= text::byte_len(self@.buffer),
    {
        let n = self.buffer.as_str().as_bytes().len();
        if self.best_segmentation.len() == 0 {
            return (0, n);
        }
        let ends = syllable_boundaries(self.best_segmentation.as_slice(), n);
        let (start, end) = find_syllable(&ends, self.cursor_pos);
        proof {
            lemma_syllable_at(ints(ends@), self.cursor_pos as int, 0, n as int);
        }
        match end {
            Some(e) => (start, e),
            None => (start, n),
        }
    }

    /// Forgets what was typed.
    pub fn clear_buffer(&mut self)
        ensures
            final(self)@ == old(self)@.after_reset(),
    {
        self.reset();
    }

    /// Chooses the next candidate.
    pub fn next_candidate(&mut self, page_size: usize)
        requires
            page_size > 0,
        ensures
            final(self)@ == old(self)@.next(page_size as int),
    {
        if self.candidates.len() > 0 {
            self.preview_selected_candidate = true;
            if self.selected < self.candidates.len() - 1 {
                self.selected = self.selected + 1;
            }
            self.page = page_of(self.selected, page_size);
        }
    }

    /// Chooses the candidate before.
    pub fn prev_candidate(&mut self, page_size: usize)
        requires
            page_size > 0,
        ensures
            final(self)@ == old(self)@.prev(page_size as int),
    {
        if self.candidates.len() > 0 {
            self.preview_selected_candidate = true;
            if self.selected > 0 {
                self.selected = self.selected - 1;
            }
            self.page = page_of(self.selected, page_size);
        }
    }

    /// Turns to the next page.
    pub fn next_page(&mut self, page_size: usize)
        ensures
            final(self)@ == old(self)@.page_turned(page_size as int),
    {
        let n = self.candidates.len();
        if n > 0 && self.page < n && page_size < n - self.page {
            self.page = self.page + page_size;
            self.selected = self.page;
        }
        if self.fuzzy_page_turns < usize::MAX {
            self.fuzzy_page_turns = self.fuzzy_page_turns + 1;
        }
    }

    /// Turns to the page before.
    pub fn prev_page(&mut self, page_size: usize)
        ensures
            final(self)@ == old(self)@.page_turned_back(page_size as int),
    {
        self.page = if self.page > page_size {
            self.page - page_size
        } else {
            0
        };
        self.selected = self.page;
    }

    /// Types a character of the auxiliary code.
    pub fn handle_filter_char(&mut self, c: char)
        ensures
            final(self)@ == old(self)@.filter_typed(c),
    {
        if self.filter_mode == FilterMode::Off {
            self.filter_mode = FilterMode::Page;
            let snapshot = copy_all(&self.candidates);
            self.page_snapshot = snapshot;
            self.aux_filter = text::char_string(c);
        } else {
            self.aux_filter.push(c);
        }
        self.selected = 0;
        if self.filter_mode == FilterMode::Global {
            self.page = 0;
        }
    }

    /// Takes the last character of the auxiliary code back.
    pub fn pop_filter(&mut self)
        ensures
            final(self)@ == old(self)@.filter_popped(),
    {
        if !is_blank(self.aux_filter.as_str()) {
            let f = drop_last_char(self.aux_filter.as_str());
            self.aux_filter = f;
            if is_blank(self.aux_filter.as_str()) {
                self.filter_mode = FilterMode::Off;
                self.page_snapshot = Vec::new();
                self.page = 0;
                proof {
                    assert(self@ =~= old(self)@.filter_popped());
                }
            } else {
                self.selected = 0;
                if self.filter_mode == FilterMode::Global {
                    self.page = 0;
                }
            }
        }
    }

    /// Notes whether something is being composed.
    pub fn update_state(&mut self)
        ensures
            final(self)@ == old(self)@.state_updated(),
    {
        if is_blank(self.buffer.as_str()) {
            self.state = ImeState::Idle;
        } else {
            self.wake();
        }
    }
}

proof fn lemma_bytes_and_chars(s: Seq<char>)
    ensures
        s.len() <= text::byte_len(s),
    decreases s.len(),
{
    if s.len() == 0 {
        assert(s =~= Seq::<char>::empty());
    } else {
        lemma_bytes_and_chars(s.drop_first());
        assert(s =~= seq![s[0]] + s.drop_first());
        text::lemma_encoding_of_concat(seq![s[0]], s.drop_first());
        crate::chinese::lemma_bytes_of_text(seq![s[0]]);
    }
}

proof fn lemma_syllable_at(ends: Seq<int>, pos: int, i: int, n: int)
    requires
        0 <= i,
        forall|k: int| 0 <= k < ends.len() ==> 0 <= #[trigger] ends[k] <= n,
        forall|j: int, k: int| 0 <= j < k < ends.len() ==> #[trigger] ends[j] <= #[trigger] ends[k],
        0 <= n,
    ensures
        0 <= syllable_at(ends, pos, i).0 <= n,
        syllable_at(ends, pos, i).1 >= 0 ==> syllable_at(ends, pos, i).0 <= syllable_at(
            ends,
            pos,
            i,
        ).1 <= n,
    decreases ends.len() - i,
{
    if i < ends.len() && pos > ends[i] {
        lemma_syllable_at(ends, pos, i + 1, n);
    }
}

/// The beginning of the page on which a candidate stands.
pub(crate) fn page_of(selected: usize, page_size: usize) -> (r: usize)
    requires
        page_size > 0,
    ensures
        r == (selected as int / page_size as int) * page_size as int,
{
    let q = selected / page_size;
    proof {
        vstd::arithmetic::div_mod::lemma_fundamental_div_mod(selected as int, page_size as int);
        vstd::arithmetic::div_mod::lemma_mod_bound(selected as int, page_size as int);
        assert(q * page_size == page_size * q) by (nonlinear_arith);
    }
    q * page_size
}

/// What is typed is taken back by deleting it.
pub proof fn law_typing_is_undone(s: Session, c: char)
    requires
        text::byte_len(s.buffer) < MAX_BUFFER_LEN,
    ensures
        s.pushed(c).popped().buffer == s.buffer,
{
    assert(s.buffer.push(c).drop_last() =~= s.buffer);
}

/// The buffer never grows beyond its length by more than the last character takes, and not at
/// all by plain letters.
pub proof fn law_buffer_is_bounded(s: Session, c: char)
    requires
        text::byte_len(s.buffer) <= MAX_BUFFER_LEN + 3,
    ensures
        text::byte_len(s.pushed(c).buffer) <= MAX_BUFFER_LEN + 3,
        text::byte_len(s.buffer) <= MAX_BUFFER_LEN && is_ascii_chars(seq![c]) ==> text::byte_len(
            s.pushed(c).buffer,
        ) <= MAX_BUFFER_LEN,
{
    if text::byte_len(s.buffer) < MAX_BUFFER_LEN {
        assert(s.buffer.push(c) =~= s.buffer + seq![c]);
        text::lemma_encoding_of_concat(s.buffer, seq![c]);
        lemma_one_char(c);
    }
}

proof fn lemma_one_char(c: char)
    ensures
        1 <= text::byte_len(seq![c]) <= 4,
        is_ascii_chars(seq![c]) ==> text::byte_len(seq![c]) == 1,
{
    assert(seq![c].drop_first() =~= Seq::<char>::empty());
    assert(seq![c][0] == c);
    reveal_with_fuel(encode_utf8, 2);
    if is_ascii_chars(seq![c]) {
        is_ascii_chars_encode_utf8(seq![c]);
    }
}

/// Choosing the next or the candidate before stays within the candidates, and on the page
/// that is shown.
pub proof fn law_selection_stays_on_page(s: Session, page_size: int)
    requires
        page_size > 0,
        0 <= s.selected < s.candidates.len(),
    ensures
        0 <= s.next(page_size).selected < s.candidates.len(),
        0 <= s.prev(page_size).selected < s.candidates.len(),
        s.next(page_size).page <= s.next(page_size).selected < s.next(page_size).page + page_size,
        s.prev(page_size).page <= s.prev(page_size).selected < s.prev(page_size).page + page_size,
{
    lemma_page_holds(s.next(page_size).selected, page_size);
    lemma_page_holds(s.prev(page_size).selected, page_size);
}

proof fn lemma_page_holds(x: int, n: int)
    requires
        n > 0,
        0 <= x,
    ensures
        (x / n) * n <= x < (x / n) * n + n,
{
    vstd::arithmetic::div_mod::lemma_fundamental_div_mod(x, n);
    vstd::arithmetic::div_mod::lemma_mod_bound(x, n);
    assert((x / n) * n == n * (x / n)) by (nonlinear_arith);
}

/// Turning pages stays within the candidates.
pub proof fn law_pages_stay_within(s: Session, page_size: int)
    requires
        page_size > 0,
        0 <= s.page,
        s.page < s.candidates.len() || s.page == 0,
    ensures
        s.page_turned(page_size).page < s.candidates.len() || s.page_turned(page_size).page == 0,
        s.page_turned_back(page_size).page < s.candidates.len() || s.page_turned_back(
            page_size,
        ).page == 0,
        0 <= s.page_turned_back(page_size).page <= s.page,
{
}

/// A spelling that was changed is changed back, unless the syllable is one of the three
/// initials alone, or an h stands behind it.
pub proof fn law_respelling_is_undone(s: Seq<char>)
    requires
        respelled(s) is Some,
        s[1] == 'h' ==> s.len() >= 3 && s[2] != 'h',
    ensures
        respelled(respelled(s)->0) == Some(s),
{
    let t = respelled(s)->0;
    if s[1] == 'h' {
        assert(t =~= seq![s[0]] + s.skip(2));
        assert(t[1] == s[2]);
        assert(seq![t[0], 'h'] + t.skip(1) =~= s);
    } else {
        assert(t =~= seq![s[0], 'h'] + s.skip(1));
        assert(seq![t[0]] + t.skip(2) =~= s);
    }
}

/// After a reset nothing is being composed and no mode is on.
pub proof fn law_reset_leaves_nothing(s: Session)
    ensures
        s.after_reset().buffer.len() == 0,
        s.after_reset().candidates.len() == 0,
        s.after_reset().phantom_text.len() == 0,
        s.after_reset().state == ImeState::Idle,
        !s.after_reset().nav_mode,
        s.after_reset().after_reset() == s.after_reset(),
{
}

/// Between two places of plain letters stand the letters from the one to the other.
pub proof fn lemma_between_letters(s: Seq<char>, i: int, j: int)
    requires
        is_ascii_chars(s),
        0 <= i <= j <= s.len(),
    ensures
        text::byte_len(s) == s.len(),
        text::between(s, i, j) == s.subrange(i, j),
{
    let t = s.subrange(i, j);
    assert forall|k: int| 0 <= k < t.len() implies '\0' <= #[trigger] t[k] <= '\u{7f}' by {
        assert(t[k] == s[i + k]);
    }
    is_ascii_chars_encode_utf8(s);
    is_ascii_chars_encode_utf8(t);
    let b = encode_utf8(s);
    let c = encode_utf8(t);
    assert forall|k: int| 0 <= k < c.len() implies c[k] == b.subrange(i, j)[k] by {
        assert(t[k] == s[i + k]);
        assert(t[k] as u8 == c[k]);
        assert(s[i + k] as u8 == b[i + k]);
    }
    assert(c =~= b.subrange(i, j));
    encode_utf8_decode_utf8(t);
}

/// A letter that is typed goes behind the others, unless the buffer is full; then nothing changes.
pub proof fn law_letters_go_behind_the_others(s: Session, c: char)
    ensures
        text::byte_len(s.buffer) < 64 ==> s.pushed(c).buffer == s.buffer.push(c) && s.pushed(c).state
            != ImeState::Idle,
        text::byte_len(s.buffer) >= 64 ==> s.pushed(c) == s,
        s.pushed(c).candidates == s.candidates,
        s.pushed(c).cursor_pos == s.cursor_pos,
{
}

/// At the cursor a letter is put in, or in the place of another; the cursor goes behind it, and the
/// other letters stay in their order.
pub proof fn law_letters_go_to_the_cursor(s: Session, c: char)
    requires
        is_ascii_chars(s.buffer),
        s.buffer.len() < 64,
        0 <= s.cursor_pos <= s.buffer.len(),
    ensures
        s.insert_mode ==> s.typed_at_cursor(c).buffer == s.buffer.insert(s.cursor_pos, c),
        !s.insert_mode && s.cursor_pos < s.buffer.len() ==> s.typed_at_cursor(c).buffer
            == s.buffer.update(s.cursor_pos, c),
        !s.insert_mode && s.cursor_pos == s.buffer.len() ==> s.typed_at_cursor(c).buffer
            == s.buffer.push(c),
        s.typed_at_cursor(c).cursor_pos == s.cursor_pos + 1,
{
    let n = s.buffer.len() as int;
    lemma_between_letters(s.buffer, 0, s.cursor_pos);
    lemma_between_letters(s.buffer, s.cursor_pos, n);
    assert(s.buffer.subrange(0, s.cursor_pos).push(c) + s.buffer.subrange(s.cursor_pos, n)
        =~= s.buffer.insert(s.cursor_pos, c));
}

/// What is deleted at the cursor is the letter before it, and no other; the cursor goes where it was.
/// So a letter that was put in is taken out again.
pub proof fn law_letter_before_the_cursor_is_deleted(s: Session, c: char)
    requires
        is_ascii_chars(s.buffer),
        0 <= s.cursor_pos <= s.buffer.len(),
    ensures
        0 < s.cursor_pos && s.buffer.len() > 1 ==> s.deleted_at_cursor().buffer == s.buffer.remove(
            s.cursor_pos - 1,
        ) && s.deleted_at_cursor().cursor_pos == s.cursor_pos - 1,
        s.cursor_pos == 0 ==> s.deleted_at_cursor() == s,
        s.insert_mode && 0 < s.buffer.len() < 64 && is_ascii_chars(seq![c])
            ==> s.typed_at_cursor(c).deleted_at_cursor().buffer == s.buffer && s.typed_at_cursor(
            c,
        ).deleted_at_cursor().cursor_pos == s.cursor_pos,
{
    let n = s.buffer.len() as int;
    if 0 < s.cursor_pos && s.buffer.len() > 1 {
        lemma_deleted_letter(s);
    }
    if s.insert_mode && 0 < n < 64 && is_ascii_chars(seq![c]) {
        law_letters_go_to_the_cursor(s, c);
        let t = s.typed_at_cursor(c);
        assert(seq![c][0] == c);
        assert(is_ascii_chars(t.buffer)) by {
            assert forall|i: int| 0 <= i < t.buffer.len() implies '\0' <= #[trigger] t.buffer[i]
                <= '\u{7f}' by {
                if i < s.cursor_pos {
                    assert(t.buffer[i] == s.buffer[i]);
                } else if i > s.cursor_pos {
                    assert(t.buffer[i] == s.buffer[i - 1]);
                } else {
                    assert(t.buffer[i] == seq![c][0]);
                }
            }
        }
        lemma_deleted_letter(t);
        assert(t.buffer.remove(s.cursor_pos) =~= s.buffer);
    }
}

proof fn lemma_deleted_letter(s: Session)
    requires
        is_ascii_chars(s.buffer),
        0 < s.cursor_pos <= s.buffer.len(),
        s.buffer.len() > 1,
    ensures
        s.deleted_at_cursor().buffer == s.buffer.remove(s.cursor_pos - 1),
        s.deleted_at_cursor().cursor_pos == s.cursor_pos - 1,
{
    let n = s.buffer.len() as int;
    let i = s.cursor_pos - 1;
    lemma_between_letters(s.buffer, 0, i);
    lemma_between_letters(s.buffer, i, n);
    assert(s.buffer.subrange(0, i) + s.buffer.subrange(i, n).drop_first() =~= s.buffer.remove(i));
}

proof fn lemma_first_beyond(s: Seq<int>, x: int, i: int)
    requires
        0 <= i <= s.len(),
        forall|k: int| 0 <= k < s.len() ==> 0 <= #[trigger] s[k],
    ensures
        first_beyond(s, x, i) >= 0 ==> s.contains(first_beyond(s, x, i)) && first_beyond(s, x, i) > x,
    decreases s.len() - i,
{
    if i < s.len() && s[i] <= x {
        lemma_first_beyond(s, x, i + 1);
    }
}

proof fn lemma_last_below(s: Seq<int>, x: int, n: int)
    requires
        0 <= n <= s.len(),
        forall|k: int| 0 <= k < s.len() ==> 0 <= #[trigger] s[k],
    ensures
        last_below(s, x, n) >= 0 ==> s.contains(last_below(s, x, n)) && last_below(s, x, n) < x,
    decreases n,
{
    if n > 0 && s[n - 1] >= x {
        lemma_last_below(s, x, n - 1);
    }
}

proof fn lemma_ends_within(segs: Seq<Seq<char>>, len: int)
    ensures
        forall|k: int|
            0 <= k < ends_within(segs, len).len() ==> 0 <= #[trigger] ends_within(segs, len)[k] <= len,
        total_bytes(segs) >= 0,
    decreases segs.len(),
{
    if segs.len() > 0 {
        let d = segs.drop_last();
        lemma_ends_within(d, len);
        let a = ends_within(d, len);
        let r = ends_within(segs, len);
        assert forall|k: int| 0 <= k < r.len() implies 0 <= #[trigger] r[k] <= len by {
            if k < a.len() {
                assert(r[k] == a[k]);
            } else {
                assert(r[k] == total_bytes(segs));
            }
        }
    }
}

/// By a syllable the cursor goes forward or back, never the other way, and stays within the letters.
/// It comes to stand at an end of a syllable or at an end of the letters.
pub proof fn law_cursor_goes_by_syllables(s: Session)
    requires
        0 <= s.cursor_pos <= text::byte_len(s.buffer),
        s.best_segmentation.len() == 0 || s.ends().len() > 0,
    ensures
        ({
            let n = text::byte_len(s.buffer) as int;
            let f = s.syllable_step(true);
            let b = s.syllable_step(false);
            &&& s.cursor_pos <= f <= n
            &&& s.cursor_pos < n ==> f > s.cursor_pos
            &&& f == n || f == s.cursor_pos || s.ends().contains(f)
            &&& 0 <= b <= s.cursor_pos
            &&& 0 < s.cursor_pos ==> b < s.cursor_pos
            &&& b == 0 || s.ends().contains(b)
        }),
{
    let n = text::byte_len(s.buffer) as int;
    let ends = s.ends();
    lemma_ends_within(s.best_segmentation, n);
    lemma_first_beyond(ends, s.cursor_pos, 0);
    lemma_last_below(ends, s.cursor_pos, ends.len() as int);
}

} // verus!
