//! The pinyin scheme.

use vstd::prelude::*;
use vstd::utf8::*;
use crate::compose;
use crate::config::RareCharMode;
use crate::index;
use crate::order;
use crate::order::sort_stable;
use crate::scheme;
use crate::scheme::{Finds, Found, Gathering, SchemeCandidate, SchemeContext, Surroundings};
use crate::similarity;
use crate::similarity::find_similar_pinyin;
use crate::strmap;
use crate::tables::WordSet;
use crate::text;
use crate::text::{
    char_in, chars_of, digit_char, same_text, split_at_any, starts_with, string_of, sub_str, to_lower,
    trim, upper_letter, utf8_str,
};
use crate::trie;
use crate::trie::{sort_by_weight, Trie, TrieResult, TrieView};
use crate::userdict;
use crate::userdict::{OrderList, ProfileDict, WordList};

verus! {

/// The pinyin scheme.
pub struct ChineseScheme;

/// Whether a text is one of the initials of two letters.
pub open spec fn double_initial(s: Seq<char>) -> bool {
    s == "zh"@ || s == "ch"@ || s == "sh"@
}

/// The initials of one letter.
pub open spec fn single_initials() -> Seq<char> {
    seq![
        'b', 'p', 'm', 'f', 'd', 't', 'n', 'l', 'g', 'k', 'h', 'j', 'q', 'x', 'r', 'z', 'c', 's', 'y',
        'w',
    ]
}

/// Whether a text is one of the initials of one letter.
pub open spec fn single_initial(s: Seq<char>) -> bool {
    s.len() == 1 && single_initials().contains(s[0])
}

/// The longest known key of two to `len` bytes at a position, by its length in bytes.
pub open spec fn longest_key(t: TrieView, input: Seq<char>, pos: int, len: int) -> int
    decreases len,
{
    if len < 2 {
        0
    } else if text::on_boundary(input, pos + len) && t.has_key(
        text::between(input, pos, pos + len),
    ) {
        len
    } else {
        longest_key(t, input, pos, len - 1)
    }
}

/// The pieces of an abbreviation from a position on: always the longest known key of at most
/// six bytes, else an initial; the first place where there is neither ends the row. With each
/// piece goes whether it is an initial.
pub open spec fn abbreviated(t: TrieView, input: Seq<char>, pos: int) -> Seq<(Seq<char>, bool)>
    decreases text::byte_len(input) - pos,
{
    let n = text::byte_len(input) as int;
    if pos < 0 || pos >= n {
        Seq::empty()
    } else {
        let len = longest_key(t, input, pos, crate::trie::least(6, n - pos));
        if 2 <= len <= n - pos {
            seq![(text::between(input, pos, pos + len), false)] + abbreviated(t, input, pos + len)
        } else if pos + 2 <= n && text::on_boundary(input, pos + 2) && double_initial(
            text::between(input, pos, pos + 2),
        ) {
            seq![(text::between(input, pos, pos + 2), true)] + abbreviated(t, input, pos + 2)
        } else if text::on_boundary(input, pos + 1) && single_initial(
            text::between(input, pos, pos + 1),
        ) {
            seq![(text::between(input, pos, pos + 1), true)] + abbreviated(t, input, pos + 1)
        } else {
            Seq::empty()
        }
    }
}

/// Whether a text is an initial.
pub open spec fn initial(s: Seq<char>) -> bool {
    double_initial(s) || single_initial(s)
}

/// Whether a text is one of the initials of two letters.
fn is_double_initial(s: &str) -> (r: bool)
    ensures
        r == double_initial(s@),
{
    same_text(s, "zh") || same_text(s, "ch") || same_text(s, "sh")
}

/// Whether a text is one of the initials of one letter.
fn is_single_initial(s: &str) -> (r: bool)
    ensures
        r == single_initial(s@),
{
    let set: [char; 20] = [
        'b', 'p', 'm', 'f', 'd', 't', 'n', 'l', 'g', 'k', 'h', 'j', 'q', 'x', 'r', 'z', 'c', 's', 'y',
        'w',
    ];
    proof {
        assert(set@ =~= single_initials());
    }
    let v = chars_of(s);
    v.len() == 1 && char_in(v[0], &set)
}

/// Whether a text is an initial.
pub fn is_initial(s: &str) -> (r: bool)
    ensures
        r == initial(s@),
{
    is_double_initial(s) || is_single_initial(s)
}

impl ChineseScheme {
    /// The scheme.
    pub fn new() -> (r: Self)
        ensures
            r == ChineseScheme,
    {
        ChineseScheme
    }

    /// Cuts an abbreviation into known keys and initials, from left to right.
    pub fn segment_for_abbreviation(input: &str, trie: &Trie) -> (r: Vec<(String, bool)>)
        ensures
            crate::trie::segments(r@) == abbreviated(trie@, input@, 0),
    {
        let n = input.as_bytes().len();
        let ghost s = input@;
        let ghost t = trie@;
        let ghost all = abbreviated(t, s, 0);
        let mut out: Vec<(String, bool)> = Vec::new();
        let mut pos: usize = 0;
        proof {
            encode_utf8_valid_utf8(s);
            assert(crate::trie::segments(out@) + all =~= all);
        }
        while pos < n
            invariant
                pos <= n,
                n == text::byte_len(s),
                s == input@,
                t == trie@,
                text::on_boundary(s, pos as int),
                crate::trie::segments(out@) + abbreviated(t, s, pos as int) == all,
            ensures
                crate::trie::segments(out@) == all,
            decreases n - pos,
        {
            let mut len: usize = if n - pos < 6 {
                n - pos
            } else {
                6
            };
            let ghost top = len as int;
            while len >= 2 && !(input.is_char_boundary(pos + len) && trie.contains_key(
                sub_str(input, pos, pos + len),
            ))
                invariant
                    len <= top <= n - pos,
                    n == text::byte_len(s),
                    s == input@,
                    t == trie@,
                    pos <= n,
                    text::on_boundary(s, pos as int),
                    longest_key(t, s, pos as int, top) == longest_key(t, s, pos as int, len as int),
                decreases len,
            {
                len = len - 1;
            }
            let ghost was = crate::trie::segments(out@);
            let step: usize;
            let is_init: bool;
            if len >= 2 {
                step = len;
                is_init = false;
            } else if n - pos >= 2 && input.is_char_boundary(pos + 2) && is_double_initial(
                sub_str(input, pos, pos + 2),
            ) {
                step = 2;
                is_init = true;
            } else if input.is_char_boundary(pos + 1) && is_single_initial(
                sub_str(input, pos, pos + 1),
            ) {
                step = 1;
                is_init = true;
            } else {
                proof {
                    assert(was + Seq::<(Seq<char>, bool)>::empty() =~= was);
                }
                break ;
            }
            let seg = sub_str(input, pos, pos + step).to_owned();
            out.push((seg, is_init));
            proof {
                let rest = abbreviated(t, s, pos + step);
                assert(crate::trie::segments(out@) =~= was.push((seg@, is_init)));
                assert(was + (seq![(seg@, is_init)] + rest) =~= was.push((seg@, is_init)) + rest);
            }
            pos = pos + step;
            proof {
                if pos == n {
                    assert(crate::trie::segments(out@) + Seq::<(Seq<char>, bool)>::empty()
                        =~= crate::trie::segments(out@));
                }
            }
        }
        proof {
            if n == 0 {
                assert(crate::trie::segments(out@) =~= all);
            }
        }
        out
    }
}

/// A part of the input: letters, and the codes that narrow it down.
pub struct ParsedPart {
    pub pinyin: String,
    pub stroke_aux: Option<String>,
    pub english_aux: Option<String>,
}

/// A part of the input, as texts.
#[verifier::ext_equal]
pub struct Part {
    pub pinyin: Seq<char>,
    pub stroke_aux: Option<Seq<char>>,
    pub english_aux: Option<Seq<char>>,
}

impl View for ParsedPart {
    type V = Part;

    open spec fn view(&self) -> Part {
        Part {
            pinyin: self.pinyin@,
            stroke_aux: crate::config::opt_view(self.stroke_aux),
            english_aux: crate::config::opt_view(self.english_aux),
        }
    }
}

/// The parts of a list.
pub open spec fn part_views(v: Seq<ParsedPart>) -> Seq<Part> {
    v.map_values(|p: ParsedPart| p@)
}

/// Where the letters of a part end: at a semicolon, a digit, or a capital that does not come
/// first.
pub open spec fn letters_end(s: Seq<char>, i: int) -> int
    decreases s.len() - i,
{
    if i >= s.len() {
        s.len() as int
    } else if s[i] == ';' || text::is_digit_char(s[i]) || (i > 0 && text::is_upper_letter(s[i])) {
        i
    } else {
        letters_end(s, i + 1)
    }
}

/// Where a code ends: at a digit, or also at a capital.
pub open spec fn code_end(s: Seq<char>, i: int, at_capital: bool) -> int
    decreases s.len() - i,
{
    if i >= s.len() {
        s.len() as int
    } else if text::is_digit_char(s[i]) || (at_capital && text::is_upper_letter(s[i])) {
        i
    } else {
        code_end(s, i + 1, at_capital)
    }
}

/// What a part of the input holds: letters, behind a semicolon a code of strokes, and from a
/// capital on a code in English.
pub open spec fn parsed(s: Seq<char>) -> Part {
    let end = letters_end(s, 0);
    let marked = end < s.len() && s[end] == ';';
    let rest = if marked {
        code_end(s, end + 1, true)
    } else {
        end
    };
    Part {
        pinyin: s.take(end),
        stroke_aux: if marked && rest > end + 1 {
            Some(s.subrange(end + 1, rest))
        } else {
            None
        },
        english_aux: if rest < s.len() && text::is_upper_letter(s[rest]) {
            Some(s.subrange(rest, code_end(s, rest, false)))
        } else {
            None
        },
    }
}

/// Whether a text has characters.
pub open spec fn not_empty() -> spec_fn(Seq<char>) -> bool {
    |s: Seq<char>| s.len() > 0
}

/// The parts of an input, which blanks separate.
pub open spec fn parts_of(input: Seq<char>) -> Seq<Part> {
    text::fields(text::lowercase(input), seq![' ']).filter(not_empty()).map_values(
        |s: Seq<char>| parsed(s),
    )
}

/// The letters of some parts.
pub open spec fn letters_of(parts: Seq<Part>) -> Seq<char>
    decreases parts.len(),
{
    if parts.len() == 0 {
        Seq::empty()
    } else {
        letters_of(parts.drop_last()) + parts.last().pinyin
    }
}

/// Where a code ends.
fn end_of_code(c: &[char], i: usize, at_capital: bool) -> (r: usize)
    requires
        i <= c@.len(),
    ensures
        r == code_end(c@, i as int, at_capital),
        i <= r <= c@.len(),
{
    let mut j: usize = i;
    while j < c.len() && !(digit_char(c[j]) || (at_capital && upper_letter(c[j])))
        invariant
            i <= j <= c@.len(),
            code_end(c@, i as int, at_capital) == code_end(c@, j as int, at_capital),
        decreases c@.len() - j,
    {
        j = j + 1;
    }
    j
}

/// A stretch of characters as a text.
fn cut_text(c: &[char], i: usize, j: usize) -> (r: String)
    requires
        i <= j <= c@.len(),
    ensures
        r@ == c@.subrange(i as int, j as int),
{
    string_of(vstd::slice::slice_subrange(c, i, j))
}

/// Takes a part of the input apart.
fn parse_part(s: &str) -> (r: ParsedPart)
    ensures
        r@ == parsed(s@),
{
    let chars = chars_of(s);
    let c = chars.as_slice();
    let n = c.len();
    let mut end: usize = 0;
    while end < n && !(c[end] == ';' || digit_char(c[end]) || (end > 0 && upper_letter(c[end])))
        invariant
            end <= n == c@.len(),
            letters_end(c@, 0) == letters_end(c@, end as int),
        decreases n - end,
    {
        end = end + 1;
    }
    let pinyin = cut_text(c, 0, end);
    let mut rest = end;
    let mut stroke_aux: Option<String> = None;
    if end < n && c[end] == ';' {
        rest = end_of_code(c, end + 1, true);
        if rest > end + 1 {
            stroke_aux = Some(cut_text(c, end + 1, rest));
        }
    }
    let mut english_aux: Option<String> = None;
    if rest < n && upper_letter(c[rest]) {
        let english_end = end_of_code(c, rest, false);
        english_aux = Some(cut_text(c, rest, english_end));
    }
    proof {
        assert(c@.subrange(0, end as int) =~= c@.take(end as int));
    }
    ParsedPart { pinyin, stroke_aux, english_aux }
}

impl ChineseScheme {
    /// Takes an input apart.
    pub fn parse_buffer(&self, buffer: &str) -> (r: Vec<ParsedPart>)
        ensures
            part_views(r@) == parts_of(buffer@),
    {
        let lower = to_lower(buffer);
        let blank: [char; 1] = [' '];
        let fields = split_at_any(lower.as_str(), &blank);
        let ghost fs = text::texts(fields@);
        let ghost f = |s: Seq<char>| parsed(s);
        proof {
            assert(blank@ =~= seq![' ']);
        }
        let mut out: Vec<ParsedPart> = Vec::new();
        let mut i: usize = 0;
        proof {
            reveal(Seq::filter);
            assert(fs.take(0).filter(not_empty()).map_values(f) =~= Seq::<Part>::empty());
            assert(part_views(out@) =~= Seq::<Part>::empty());
        }
        while i < fields.len()
            invariant
                i <= fields.len(),
                fs == text::texts(fields@),
                f == (|s: Seq<char>| parsed(s)),
                part_views(out@) == fs.take(i as int).filter(not_empty()).map_values(f),
            decreases fields.len() - i,
        {
            let ghost was = part_views(out@);
            let ghost kept = fs.take(i as int).filter(not_empty());
            proof {
                assert(fs.take(i + 1).drop_last() =~= fs.take(i as int));
                assert(fs.take(i + 1).last() == fields@[i as int]@);
                reveal(Seq::filter);
            }
            if fields[i].as_str().as_bytes().len() > 0 {
                proof {
                    lemma_bytes_of_text(fields@[i as int]@);
                }
                let p = parse_part(fields[i].as_str());
                out.push(p);
                proof {
                    assert(part_views(out@) =~= was.push(p@));
                    assert(kept.push(fs[i as int]).map_values(f) =~= kept.map_values(f).push(
                        f(fs[i as int]),
                    ));
                }
            } else {
                proof {
                    lemma_bytes_of_text(fields@[i as int]@);
                }
            }
            i = i + 1;
        }
        proof {
            assert(fs.take(fs.len() as int) =~= fs);
            assert(part_views(out@) =~= parts_of(buffer@));
        }
        out
    }
}

pub proof fn lemma_bytes_of_text(s: Seq<char>)
    ensures
        text::byte_len(s) > 0 <==> s.len() > 0,
{
    if s.len() == 0 {
        assert(s =~= Seq::<char>::empty());
    }
    encode_utf8_decode_utf8(s);
}

/// The letters of some parts.
fn join_letters(parts: &Vec<ParsedPart>) -> (r: String)
    ensures
        r@ == letters_of(part_views(parts@)),
{
    let ghost s = part_views(parts@);
    let mut out = String::new();
    let mut i: usize = 0;
    proof {
        assert(s.take(0) =~= Seq::<Part>::empty());
    }
    while i < parts.len()
        invariant
            i <= parts.len(),
            s == part_views(parts@),
            out@ == letters_of(s.take(i as int)),
        decreases parts.len() - i,
    {
        proof {
            assert(s.take(i + 1).drop_last() =~= s.take(i as int));
            assert(s.take(i + 1).last() == parts@[i as int]@);
        }
        out.append(parts[i].pinyin.as_str());
        i = i + 1;
    }
    proof {
        assert(s.take(s.len() as int) =~= s);
    }
    out
}

/// Where a word stands among entries.
pub open spec fn entry_with(s: Seq<trie::Entry>, w: Seq<char>) -> Option<trie::Entry>
    decreases s.len(),
{
    if s.len() == 0 {
        None
    } else if s[0].word == w {
        Some(s[0])
    } else {
        entry_with(s.drop_first(), w)
    }
}

/// The candidate for a word of the user: what the dictionary says of the word under its key
/// goes with it.
pub open spec fn user_candidate(
    t: Option<TrieView>,
    word: Seq<char>,
    key: Seq<char>,
    weight: u32,
    level: u8,
) -> Found {
    let known = match t {
        Some(t) => entry_with(t.exact(key), word),
        None => None,
    };
    match known {
        Some(e) => scheme::offered(e, weight, level),
        None => Found { match_level: level, ..scheme::plain(word, weight) },
    }
}

/// Four fifths of a weight.
pub open spec fn lessened(weight: u32) -> u32 {
    (4 * weight / 5) as u32
}

/// What is found when the first `n` words of the user under a key are added that are used
/// often enough: in front with their weight, or later with four fifths of it.
pub open spec fn user_words_added(
    h: Finds,
    t: Option<TrieView>,
    words: Seq<(Seq<char>, u32)>,
    key: Seq<char>,
    threshold: u32,
    in_front: bool,
    n: int,
) -> Finds
    decreases n,
{
    if n <= 0 {
        h
    } else {
        let before = user_words_added(h, t, words, key, threshold, in_front, n - 1);
        let (word, weight) = words[n - 1];
        if weight < threshold {
            before
        } else if in_front {
            before.with_first(user_candidate(t, word, key, weight, 3))
        } else {
            before.with_later(user_candidate(t, word, key, lessened(weight), 0))
        }
    }
}

/// Whether a text holds a vowel of pinyin.
pub open spec fn has_vowel(s: Seq<char>) -> bool {
    exists|i: int| 0 <= i < s.len() && is_vowel(#[trigger] s[i])
}

/// The vowels of pinyin.
pub open spec fn is_vowel(c: char) -> bool {
    c == 'a' || c == 'e' || c == 'i' || c == 'o' || c == 'u' || c == 'v'
}

/// Whether a key begins with a text and is at most five bytes longer.
pub open spec fn slightly_longer(start: Seq<char>) -> spec_fn(Seq<char>) -> bool {
    |k: Seq<char>| text::begins(k, start) && text::byte_len(k) <= text::byte_len(start) + 5
}

/// Whether a text takes fewer bytes than another.
pub open spec fn shorter() -> spec_fn(Seq<char>, Seq<char>) -> bool {
    |a: Seq<char>, b: Seq<char>| text::byte_len(a) < text::byte_len(b)
}

/// The keys of the user's words.
pub open spec fn keys_of(p: userdict::ProfileWords) -> Seq<Seq<char>> {
    p.map_values(|e: (Seq<char>, Seq<(Seq<char>, u32)>)| e.0)
}

/// What is found when the words under the first `n` of some keys are added.
pub open spec fn user_keys_added(
    h: Finds,
    t: Option<TrieView>,
    p: userdict::ProfileWords,
    keys: Seq<Seq<char>>,
    threshold: u32,
    n: int,
) -> Finds
    decreases n,
{
    if n <= 0 {
        h
    } else {
        let before = user_keys_added(h, t, p, keys, threshold, n - 1);
        match strmap::lookup(p, keys[n - 1]) {
            None => before,
            Some(words) => user_words_added(
                before,
                t,
                words,
                keys[n - 1],
                threshold,
                false,
                words.len() as int,
            ),
        }
    }
}

/// Whether a cut of `n` bytes off a key is a known key of at most six bytes that answers a
/// segment.
pub open spec fn spelling_cut(
    t: TrieView,
    key: Seq<char>,
    seg: (Seq<char>, bool),
    singles: Set<Seq<char>>,
    n: int,
) -> bool {
    &&& 1 <= n <= 6
    &&& n <= text::byte_len(key)
    &&& text::on_boundary(key, n)
    &&& t.has_key(text::between(key, 0, n))
    &&& trie::answers(text::between(key, 0, n), seg, singles)
}

/// Whether a key can be cut into known keys, one to answer each segment.
pub open spec fn spells(
    t: TrieView,
    key: Seq<char>,
    segs: Seq<(Seq<char>, bool)>,
    singles: Set<Seq<char>>,
) -> bool
    decreases segs.len(),
{
    if segs.len() == 0 {
        key.len() == 0
    } else {
        exists|n: int| #[trigger]
            spelling_cut(t, key, segs[0], singles, n) && spells(
                t,
                text::between(key, n, text::byte_len(key) as int),
                segs.drop_first(),
                singles,
            )
    }
}

/// What is found when the words under those of the first `n` keys are added that the segments
/// abbreviate.
pub open spec fn abbreviated_added(
    h: Finds,
    t: TrieView,
    p: userdict::ProfileWords,
    segs: Seq<(Seq<char>, bool)>,
    singles: Set<Seq<char>>,
    threshold: u32,
    n: int,
) -> Finds
    decreases n,
{
    if n <= 0 {
        h
    } else {
        let before = abbreviated_added(h, t, p, segs, singles, threshold, n - 1);
        let (key, words) = p[n - 1];
        if spells(t, key, segs, singles) {
            user_words_added(before, Some(t), words, key, threshold, false, words.len() as int)
        } else {
            before
        }
    }
}

/// What the user's own words give for some letters: those under the letters come first;
/// without any, those under slightly longer keys come later. Letters without a vowel are taken
/// as an abbreviation.
pub open spec fn user_finds(c: Surroundings, letters: Seq<char>) -> Finds {
    let none = Finds { seen: Set::empty(), first: Seq::empty(), later: Seq::empty() };
    let t = c.trie("chinese"@);
    let threshold = c.config.options.word_learn_threshold;
    match c.first_profile() {
        None => none,
        Some(profile) => match strmap::lookup(c.user_dict, profile) {
            None => none,
            Some(p) => if has_vowel(letters) {
                match strmap::lookup(p, letters) {
                    Some(words) => user_words_added(
                        none,
                        t,
                        words,
                        letters,
                        threshold,
                        true,
                        words.len() as int,
                    ),
                    None => {
                        let keys = order::arranged(
                            keys_of(p).filter(slightly_longer(letters)),
                            shorter(),
                        );
                        user_keys_added(none, t, p, keys, threshold, keys.len() as int)
                    },
                }
            } else if c.config.input.enable_abbreviation_matching {
                match t {
                    None => none,
                    Some(t) => {
                        let segs = abbreviated(t, letters, 0);
                        if segs.len() == 0 {
                            none
                        } else {
                            abbreviated_added(none, t, p, segs, c.singles, threshold, p.len() as int)
                        }
                    },
                }
            } else {
                none
            },
        },
    }
}

/// Finds a word among entries.
pub(crate) fn find_entry<'a>(v: &Vec<TrieResult<'a>>, w: &str) -> (r: Option<TrieResult<'a>>)
    ensures
        r is Some <==> entry_with(trie::views(v@), w@) is Some,
        r matches Some(e) ==> entry_with(trie::views(v@), w@) == Some(e@),
{
    let ghost s = trie::views(v@);
    let mut i: usize = 0;
    proof {
        assert(s.skip(0) =~= s);
    }
    while i < v.len()
        invariant
            i <= v.len(),
            s == trie::views(v@),
            entry_with(s, w@) == entry_with(s.skip(i as int), w@),
        decreases v.len() - i,
    {
        proof {
            assert(s.skip(i as int)[0] == v@[i as int]@);
            assert(s.skip(i as int).drop_first() =~= s.skip(i + 1));
        }
        if same_text(v[i].word, w) {
            return Some(v[i]);
        }
        i = i + 1;
    }
    None
}

/// The candidate for a word of the user.
fn offer_user_word(trie: Option<&Trie>, word: &str, key: &str, weight: u32, level: u8) -> (r:
    SchemeCandidate)
    ensures
        r@ == user_candidate(
            match trie {
                Some(t) => Some(t@),
                None => None,
            },
            word@,
            key@,
            weight,
            level,
        ),
{
    if let Some(t) = trie {
        if let Some(v) = t.get_all_exact(key) {
            if let Some(e) = find_entry(&v, word) {
                return SchemeCandidate::of_entry(&e, weight, level);
            }
        } else {
            proof {
                assert(entry_with(t@.exact(key@), word@) is None);
            }
        }
    }
    let mut c = SchemeCandidate::new(word.to_owned(), weight);
    c.match_level = level;
    c
}

/// Adds the words of the user under a key.
fn add_user_words(
    g: &mut Gathering,
    trie: Option<&Trie>,
    words: &WordList,
    key: &str,
    threshold: u32,
    in_front: bool,
)
    ensures
        final(g)@ == user_words_added(
            old(g)@,
            match trie {
                Some(t) => Some(t@),
                None => None,
            },
            words@,
            key@,
            threshold,
            in_front,
            words@.len() as int,
        ),
{
    let ghost t = match trie {
        Some(t) => Some(t@),
        None => None,
    };
    let ghost h = g@;
    let mut i: usize = 0;
    while i < words.words.len()
        invariant
            i <= words.words.len(),
            t == (match trie {
                Some(t) => Some(t@),
                None => None,
            }),
            g@ == user_words_added(h, t, words@, key@, threshold, in_front, i as int),
        decreases words.words.len() - i,
    {
        let weight = words.words[i].1;
        let word = words.words[i].0.as_str();
        proof {
            assert(words@[i as int] == (word@, weight));
        }
        if weight >= threshold {
            if in_front {
                let c = offer_user_word(trie, word, key, weight, 3);
                g.add_first(c);
            } else {
                let less = ((weight as u64) * 4 / 5) as u32;
                let c = offer_user_word(trie, word, key, less, 0);
                g.add_later(c);
            }
        }
        i = i + 1;
    }
}

/// Whether a text holds a vowel of pinyin.
pub(crate) fn holds_vowel(s: &str) -> (r: bool)
    ensures
        r == has_vowel(s@),
{
    let c = chars_of(s);
    let mut i: usize = 0;
    while i < c.len()
        invariant
            i <= c.len(),
            c@ == s@,
            forall|j: int| 0 <= j < i ==> !is_vowel(#[trigger] s@[j]),
        decreases c.len() - i,
    {
        let x = c[i];
        if x == 'a' || x == 'e' || x == 'i' || x == 'o' || x == 'u' || x == 'v' {
            proof {
                assert(is_vowel(s@[i as int]));
            }
            return true;
        }
        i = i + 1;
    }
    false
}

/// Whether a text takes fewer bytes than another.
fn is_shorter(a: &String, b: &String) -> (r: bool)
    ensures
        r == (text::byte_len(a@) < text::byte_len(b@)),
{
    a.as_str().as_bytes().len() < b.as_str().as_bytes().len()
}

/// Puts the shorter texts first.
fn sort_by_length(v: &mut Vec<String>)
    ensures
        text::texts(final(v)@) == order::arranged(text::texts(old(v)@), shorter()),
{
    let ghost s = v@;
    let ghost lt = |a: String, b: String| text::byte_len(a@) < text::byte_len(b@);
    let ghost f = |a: String| a@;
    sort_stable(v, is_shorter, Ghost(lt));
    proof {
        order::lemma_arranged_map(s, f, lt, shorter());
        assert(text::texts(s) =~= s.map_values(f));
        assert(text::texts(v@) =~= v@.map_values(f));
    }
}

/// The keys of the user that are slightly longer than some letters, the shorter ones first.
fn longer_keys(p: &ProfileDict, letters: &str) -> (r: Vec<String>)
    ensures
        text::texts(r@) == order::arranged(
            keys_of(p@).filter(slightly_longer(letters@)),
            shorter(),
        ),
{
    let ghost ks = keys_of(p@);
    let n = letters.as_bytes().len();
    let mut out: Vec<String> = Vec::new();
    let mut i: usize = 0;
    proof {
        reveal(Seq::filter);
        assert(text::texts(out@) =~= ks.take(0).filter(slightly_longer(letters@)));
    }
    while i < p.entries.len()
        invariant
            i <= p.entries.len(),
            n == text::byte_len(letters@),
            ks == keys_of(p@),
            text::texts(out@) == ks.take(i as int).filter(slightly_longer(letters@)),
        decreases p.entries.len() - i,
    {
        let ghost was = text::texts(out@);
        let k = &p.entries[i].0;
        proof {
            reveal(Seq::filter);
            assert(ks.take(i + 1).drop_last() =~= ks.take(i as int));
            assert(ks.take(i + 1).last() == k@);
        }
        let len = k.as_str().as_bytes().len();
        if starts_with(k.as_str(), letters) && (len <= n || len - n <= 5) {
            out.push(k.clone());
            proof {
                assert(text::texts(out@) =~= was.push(k@));
            }
        }
        i = i + 1;
    }
    proof {
        assert(ks.take(ks.len() as int) =~= ks);
    }
    sort_by_length(&mut out);
    out
}

/// Whether a key of the user can be cut so as to answer the segments.
pub fn match_user_dict_abbreviation(
    pinyin: &str,
    segments: &[(String, bool)],
    trie: &Trie,
    single_syllables: &WordSet,
) -> (r: bool)
    ensures
        r == spells(trie@, pinyin@, trie::segments(segments@), single_syllables@),
    decreases segments@.len(),
{
    let ghost s = trie::segments(segments@);
    let ghost t = trie@;
    let ghost singles = single_syllables@;
    let n = pinyin.as_bytes().len();
    proof {
        lemma_bytes_of_text(pinyin@);
    }
    if segments.len() == 0 {
        return n == 0;
    }
    let rest = vstd::slice::slice_subrange(segments, 1, segments.len());
    let max_len: usize = if n < 6 {
        n
    } else {
        6
    };
    let seg = &segments[0];
    proof {
        assert(s[0] == (seg.0@, seg.1));
        assert(trie::segments(rest@) =~= s.drop_first());
        crate::segmentation::lemma_end_is_boundary(pinyin@);
        encode_utf8_valid_utf8(pinyin@);
    }
    let mut len: usize = 1;
    while len <= max_len
        invariant
            1 <= len <= max_len + 1,
            max_len <= 6,
            max_len <= n,
            max_len == n || max_len == 6,
            n == text::byte_len(pinyin@),
            text::on_boundary(pinyin@, n as int),
            text::on_boundary(pinyin@, 0),
            t == trie@,
            singles == single_syllables@,
            s == trie::segments(segments@),
            s.len() > 0,
            s[0] == (seg.0@, seg.1),
            rest@.len() < segments@.len(),
            trie::segments(rest@) == s.drop_first(),
            forall|k: int|
                1 <= k < len && #[trigger] spelling_cut(t, pinyin@, s[0], singles, k) ==> !spells(
                    t,
                    text::between(pinyin@, k, n as int),
                    s.drop_first(),
                    singles,
                ),
        decreases max_len + 1 - len,
    {
        if pinyin.is_char_boundary(len) {
            let syl = sub_str(pinyin, 0, len);
            if trie.contains_key(syl) {
                let matched = if seg.1 {
                    (single_syllables.is_empty() || single_syllables.contains(syl)) && starts_with(
                        syl,
                        seg.0.as_str(),
                    )
                } else {
                    same_text(syl, seg.0.as_str())
                };
                if matched {
                    proof {
                        assert(spelling_cut(t, pinyin@, s[0], singles, len as int));
                    }
                    if match_user_dict_abbreviation(
                        sub_str(pinyin, len, n),
                        rest,
                        trie,
                        single_syllables,
                    ) {
                        return true;
                    }
                }
            }
        }
        len = len + 1;
    }
    false
}

/// What the user's own words give for some letters.
fn find_user_words<'a>(c: &SchemeContext<'a>, letters: &str) -> (r: Gathering)
    ensures
        r@ == user_finds(c@, letters@),
{
    let ghost h = Finds { seen: Set::empty(), first: Seq::empty(), later: Seq::empty() };
    let mut g = Gathering::new();
    if c.active_profiles.len() == 0 {
        return g;
    }
    let p = match c.user_dict.get(c.active_profiles[0].as_str()) {
        None => {
            return g;
        },
        Some(p) => p,
    };
    let trie = c.trie("chinese");
    let ghost t = c@.trie("chinese"@);
    let threshold = c.config.options.word_learn_threshold;
    if holds_vowel(letters) {
        match p.get(letters) {
            Some(words) => {
                add_user_words(&mut g, trie, words, letters, threshold, true);
            },
            None => {
                let keys = longer_keys(p, letters);
                let ghost ks = text::texts(keys@);
                let mut i: usize = 0;
                while i < keys.len()
                    invariant
                        i <= keys.len(),
                        ks == text::texts(keys@),
                        t == (match trie {
                            Some(t) => Some(t@),
                            None => None,
                        }),
                        g@ == user_keys_added(h, t, p@, ks, threshold, i as int),
                    decreases keys.len() - i,
                {
                    proof {
                        assert(ks[i as int] == keys@[i as int]@);
                    }
                    if let Some(words) = p.get(keys[i].as_str()) {
                        add_user_words(&mut g, trie, words, keys[i].as_str(), threshold, false);
                    }
                    i = i + 1;
                }
            },
        }
    } else if c.config.input.enable_abbreviation_matching {
        if let Some(d) = trie {
            let segs = ChineseScheme::segment_for_abbreviation(letters, d);
            let ghost ss = trie::segments(segs@);
            if segs.len() > 0 {
                let ghost singles = c.single_syllables@;
                let mut i: usize = 0;
                while i < p.entries.len()
                    invariant
                        i <= p.entries.len(),
                        ss == trie::segments(segs@),
                        singles == c.single_syllables@,
                        g@ == abbreviated_added(h, d@, p@, ss, singles, threshold, i as int),
                    decreases p.entries.len() - i,
                {
                    let key = p.entries[i].0.as_str();
                    let words = &p.entries[i].1;
                    proof {
                        assert(p@[i as int] == (key@, words@));
                    }
                    if match_user_dict_abbreviation(key, segs.as_slice(), d, c.single_syllables) {
                        add_user_words(&mut g, Some(d), words, key, threshold, false);
                    }
                    i = i + 1;
                }
            }
        }
    }
    g
}

/// How many results are wanted: more where rare words are shown.
pub open spec fn results_wanted(c: Surroundings) -> int {
    if c.config.options.rare_char_mode == RareCharMode::CommonOnly {
        500
    } else {
        2000
    }
}

/// Whether a key is a text that goes on behind some letters, but not too far.
pub open spec fn completes(letters: Seq<char>) -> spec_fn((Seq<u8>, u64)) -> bool {
    |k: (Seq<u8>, u64)|
        valid_utf8(k.0) && text::byte_len(letters) < k.0.len() <= completed_len(letters)
}

/// How long the completion of some letters may be.
pub open spec fn completed_len(letters: Seq<char>) -> int {
    if text::byte_len(letters) <= 3 {
        6
    } else {
        (text::byte_len(letters) + 2) as int
    }
}

/// The first keys that complete some letters, the shorter ones first.
pub open spec fn completions(t: TrieView, letters: Seq<char>) -> Seq<Seq<char>> {
    let keys = t.keys_from(letters).filter(completes(letters)).map_values(
        |k: (Seq<u8>, u64)| decode_utf8(k.0),
    );
    let some = order::arranged(keys.take(trie::least(30, keys.len() as int)), shorter());
    some.take(trie::least(10, some.len() as int))
}

/// Whether one of some entries is a single character.
pub open spec fn has_character(s: Seq<trie::Entry>) -> bool {
    exists|i: int| 0 <= i < s.len() && (#[trigger] s[i]).word.len() == 1
}

/// Entries with the level of their match.
pub open spec fn on(s: Seq<trie::Entry>, level: u8) -> Seq<(trie::Entry, u8)> {
    s.map_values(|e: trie::Entry| (e, level))
}

/// The hits, when the entries under the first `n` of some keys are added until there are
/// enough. Short letters are completed to single characters only.
pub open spec fn completed_hits(
    t: TrieView,
    hits: Seq<(trie::Entry, u8)>,
    keys: Seq<Seq<char>>,
    short: bool,
    max: int,
    n: int,
) -> Seq<(trie::Entry, u8)>
    decreases n,
{
    if n <= 0 {
        hits
    } else {
        let before = completed_hits(t, hits, keys, short, max, n - 1);
        let entries = t.exact(keys[n - 1]);
        if before.len() >= max || (short && !has_character(entries)) {
            before
        } else {
            before + on(entries.take(trie::least(entries.len() as int, max - before.len())), 1)
        }
    }
}

/// The hits that a dictionary adds for some letters: what stands under them, the heaviest
/// first; else what completes them.
pub open spec fn dictionary_hits(
    c: Surroundings,
    t: TrieView,
    letters: Seq<char>,
    hits: Seq<(trie::Entry, u8)>,
) -> Seq<(trie::Entry, u8)> {
    let max = results_wanted(c);
    let exact = t.exact(letters);
    if exact.len() > 0 {
        hits + on(
            order::arranged(exact, trie::heavier()).take(trie::least(max, exact.len() as int)),
            3,
        )
    } else if c.config.input.enable_prefix_matching && letters.len() > 0 {
        let keys = completions(t, letters);
        completed_hits(t, hits, keys, text::byte_len(letters) <= 3, max, keys.len() as int)
    } else {
        hits
    }
}

/// The hits of the dictionaries of the first `n` profiles, until there are enough.
pub open spec fn profile_hits(c: Surroundings, letters: Seq<char>, n: int) -> Seq<(trie::Entry, u8)>
    decreases n,
{
    if n <= 0 {
        Seq::empty()
    } else {
        let before = profile_hits(c, letters, n - 1);
        match c.trie(c.profiles[n - 1]) {
            Some(t) => if before.len() >= results_wanted(c) {
                before
            } else {
                dictionary_hits(c, t, letters, before)
            },
            None => before,
        }
    }
}

/// Whether one of the comma-separated glosses of an entry begins with a code.
pub open spec fn glossed(en: Seq<char>, code: Seq<char>) -> bool {
    let glosses = text::fields(text::lowercase(en), seq![',']);
    exists|i: int|
        0 <= i < glosses.len() && text::begins(
            text::trimmed(#[trigger] glosses[i]),
            text::lowercase(code),
        )
}

/// Whether an entry fits the codes of a part.
pub open spec fn fits_codes(p: Part, e: trie::Entry) -> bool {
    &&& p.stroke_aux matches Some(code) ==> text::begins(
        text::lowercase(e.stroke_aux),
        text::lowercase(code),
    )
    &&& p.english_aux matches Some(code) ==> glossed(e.en, code)
}

/// What is found when those of the first `n` hits are added that fit the codes of the last
/// part.
pub open spec fn hits_added(h: Finds, p: Part, hits: Seq<(trie::Entry, u8)>, n: int) -> Finds
    decreases n,
{
    if n <= 0 {
        h
    } else {
        let before = hits_added(h, p, hits, n - 1);
        let (e, level) = hits[n - 1];
        if fits_codes(p, e) {
            before.with_first(scheme::offered(e, e.weight, level))
        } else {
            before
        }
    }
}

/// What is found when those of the first `n` entries are added that fit the codes of the last
/// part, until there are enough.
pub open spec fn entries_added(h: Finds, p: Option<Part>, s: Seq<trie::Entry>, level: u8, max: int, n: int) -> Finds
    decreases n,
{
    if n <= 0 {
        h
    } else {
        let before = entries_added(h, p, s, level, max, n - 1);
        if before.first.len() < max && (p matches Some(q) ==> fits_codes(q, s[n - 1])) {
            before.with_first(scheme::offered(s[n - 1], s[n - 1].weight, level))
        } else {
            before
        }
    }
}

/// What is found when the entries under the first `n` of some resembling keys are added,
/// until there are enough.
pub open spec fn similar_added(h: Finds, t: TrieView, keys: Seq<(Seq<char>, u128)>, max: int, n: int) -> Finds
    decreases n,
{
    if n <= 0 {
        h
    } else {
        let before = similar_added(h, t, keys, max, n - 1);
        let s = t.exact(keys[n - 1].0);
        entries_added(before, None, s, 1, max, s.len() as int)
    }
}

/// The words of a row, joined.
pub open spec fn row_text(words: Seq<compose::Span>) -> Seq<char>
    decreases words.len(),
{
    if words.len() == 0 {
        Seq::empty()
    } else {
        row_text(words.drop_last()) + words.last().word
    }
}

/// The weight of a row: its score in thousandths, from one to the highest weight there is.
pub open spec fn row_weight(score: u128) -> u32 {
    trie::most(1, trie::least(u32::MAX as int, score as int)) as u32
}

/// What is found when the first `n` of some rows are added, until there are enough.
pub open spec fn rows_added(h: Finds, rows: Seq<compose::Row>, max: int, n: int) -> Finds
    decreases n,
{
    if n <= 0 {
        h
    } else {
        let before = rows_added(h, rows, max, n - 1);
        let row = rows[n - 1];
        if before.first.len() >= max {
            before
        } else {
            before.with_first(
                Found {
                    match_level: 3,
                    ..scheme::plain(row_text(row.words), row_weight(row.score))
                },
            )
        }
    }
}

/// What the dictionaries add: what stands under the letters of the last part or completes
/// them.
pub open spec fn with_hits(c: Surroundings, parts: Seq<Part>, h: Finds) -> Finds {
    if parts.len() == 0 {
        h
    } else {
        let hits = profile_hits(c, parts.last().pinyin, c.profiles.len() as int);
        hits_added(h, parts.last(), hits, hits.len() as int)
    }
}

/// What an abbreviation adds, where nothing comes first yet.
pub open spec fn with_abbreviation(c: Surroundings, parts: Seq<Part>, h: Finds) -> Finds {
    match c.trie("chinese"@) {
        Some(t) => if h.first.len() == 0 && c.config.input.enable_abbreviation_matching {
            let segs = abbreviated(t, letters_of(parts), 0);
            if segs.len() > 1 {
                let s = order::arranged(t.abbreviation_mixed(segs, c.singles), trie::heavier());
                let p = if parts.len() > 0 {
                    Some(parts.last())
                } else {
                    None
                };
                entries_added(h, p, s, 2, results_wanted(c), s.len() as int)
            } else {
                h
            }
        } else {
            h
        },
        None => h,
    }
}

/// What resembling keys add, where nothing comes first yet.
pub open spec fn with_similar(c: Surroundings, query: Seq<char>, parts: Seq<Part>, h: Finds) -> Finds {
    match c.trie("chinese"@) {
        Some(t) => if h.first.len() == 0 && !query.contains(' ') && c.config.options.enable_error_correction {
            let keys = similarity::similar(
                t,
                letters_of(parts),
                Some(c.config.input.fuzzy_config),
                c.syllables(),
            );
            similar_added(h, t, keys, results_wanted(c), keys.len() as int)
        } else {
            h
        },
        None => h,
    }
}

/// What composed sentences add, where nothing comes first yet.
pub open spec fn with_sentences(c: Surroundings, query: Seq<char>, parts: Seq<Part>, h: Finds) -> Finds {
    match c.trie("chinese"@) {
        Some(t) => if h.first.len() == 0 && !query.contains(' ') && parts.len() > 0
            && text::byte_len(letters_of(parts)) <= 24 {
            let profile = match c.first_profile() {
                Some(p) => p,
                None => Seq::empty(),
            };
            let rows = compose::composed(
                t,
                c.syllables(),
                compose::Habit { scores: c.scores, ngram: c.ngram, profile },
                letters_of(parts),
            );
            rows_added(h, rows, results_wanted(c), rows.len() as int)
        } else {
            h
        },
        None => h,
    }
}

/// What is found for an input: the user's own words under its letters, what the dictionaries
/// have, else an abbreviation, else resembling keys, else composed sentences; and at the end
/// the user's words under longer keys. Every word comes once.
pub open spec fn looked_up(c: Surroundings, query: Seq<char>) -> Seq<Found> {
    let parts = parts_of(query);
    let h1 = with_hits(c, parts, user_finds(c, letters_of(parts)));
    let h2 = with_abbreviation(c, parts, h1);
    let h3 = with_similar(c, query, parts, h2);
    let h4 = with_sentences(c, query, parts, h3);
    h4.first + h4.later
}

/// An entry that was hit, with the level of its match.
struct Hit<'a> {
    entry: TrieResult<'a>,
    level: u8,
}

/// The hits of a list.
spec fn hit_views<'a>(v: Seq<Hit<'a>>) -> Seq<(trie::Entry, u8)> {
    v.map_values(|h: Hit<'a>| (h.entry@, h.level))
}

/// How many results are wanted.
fn count_wanted<'a>(c: &SchemeContext<'a>) -> (r: usize)
    ensures
        r == results_wanted(c@),
        r > 0,
{
    match c.config.options.rare_char_mode {
        RareCharMode::CommonOnly => 500,
        _ => 2000,
    }
}

/// The first keys that complete some letters.
fn complete(trie: &Trie, letters: &str) -> (r: Vec<String>)
    ensures
        text::texts(r@) == completions(trie@, letters@),
{
    let n = letters.as_bytes().len();
    let keys = trie.keys_with_prefix(letters);
    let ghost ks = index::pairs_of(keys@);
    let ghost want = completes(letters@);
    let ghost f = |k: (Seq<u8>, u64)| decode_utf8(k.0);
    let mut out: Vec<String> = Vec::new();
    let mut i: usize = 0;
    proof {
        reveal(Seq::filter);
        assert(text::texts(out@) =~= ks.take(0).filter(want).map_values(f));
    }
    while i < keys.len()
        invariant
            i <= keys.len(),
            n == text::byte_len(letters@),
            ks == index::pairs_of(keys@),
            want == completes(letters@),
            f == (|k: (Seq<u8>, u64)| decode_utf8(k.0)),
            text::texts(out@) == ks.take(i as int).filter(want).map_values(f),
        decreases keys.len() - i,
    {
        let ghost was = text::texts(out@);
        let ghost kept = ks.take(i as int).filter(want);
        let k = keys[i].0.as_slice();
        let len = k.len();
        proof {
            reveal(Seq::filter);
            assert(ks.take(i + 1).drop_last() =~= ks.take(i as int));
            assert(ks.take(i + 1).last() == (keys@[i as int].0@, keys@[i as int].1));
        }
        if let Some(s) = utf8_str(k) {
            if len > n && (n <= 3 && len <= 6 || n > 3 && len - n <= 2) {
                let w = s.to_owned();
                out.push(w);
                proof {
                    encode_utf8_decode_utf8(s@);
                    assert(text::texts(out@) =~= was.push(s@));
                    assert(kept.push(ks[i as int]).map_values(f) =~= kept.map_values(f).push(
                        f(ks[i as int]),
                    ));
                }
            }
        }
        i = i + 1;
    }
    proof {
        assert(ks.take(ks.len() as int) =~= ks);
    }
    let ghost all = text::texts(out@);
    if out.len() > 30 {
        out.truncate(30);
    }
    proof {
        assert(text::texts(out@) =~= all.take(trie::least(30, all.len() as int)));
    }
    sort_by_length(&mut out);
    let ghost some = text::texts(out@);
    if out.len() > 10 {
        out.truncate(10);
    }
    proof {
        assert(all =~= trie@.keys_from(letters@).filter(completes(letters@)).map_values(f));
        assert(text::texts(out@) =~= some.take(trie::least(10, some.len() as int)));
    }
    out
}

/// Whether one of some entries is a single character.
fn holds_character<'a>(v: &Vec<TrieResult<'a>>) -> (r: bool)
    ensures
        r == has_character(trie::views(v@)),
{
    let ghost s = trie::views(v@);
    let mut i: usize = 0;
    while i < v.len()
        invariant
            i <= v.len(),
            s == trie::views(v@),
            forall|j: int| 0 <= j < i ==> (#[trigger] s[j]).word.len() != 1,
        decreases v.len() - i,
    {
        proof {
            assert(s[i as int] == v@[i as int]@);
        }
        if chars_of(v[i].word).len() == 1 {
            return true;
        }
        i = i + 1;
    }
    false
}

/// Adds the first `n` of some entries to the hits.
fn push_hits<'a>(hits: &mut Vec<Hit<'a>>, v: &Vec<TrieResult<'a>>, n: usize, level: u8)
    requires
        n <= v@.len(),
    ensures
        hit_views(final(hits)@) == hit_views(old(hits)@) + on(trie::views(v@).take(n as int), level),
{
    let ghost s = trie::views(v@);
    let ghost was = hit_views(hits@);
    let mut i: usize = 0;
    proof {
        assert(was + on(s.take(0), level) =~= was);
    }
    while i < n
        invariant
            i <= n <= v@.len(),
            s == trie::views(v@),
            hit_views(hits@) == was + on(s.take(i as int), level),
        decreases n - i,
    {
        let ghost now = hit_views(hits@);
        hits.push(Hit { entry: v[i], level });
        proof {
            assert(hit_views(hits@) =~= now.push((v@[i as int]@, level)));
            assert(on(s.take(i + 1), level) =~= on(s.take(i as int), level).push((s[i as int], level)));
            assert(was + on(s.take(i as int), level).push((s[i as int], level)) =~= (was + on(
                s.take(i as int),
                level,
            )).push((s[i as int], level)));
        }
        i = i + 1;
    }
}

/// Adds the hits of a dictionary for some letters.
fn add_dictionary_hits<'a>(
    c: &SchemeContext<'a>,
    d: &'a Trie,
    letters: &str,
    hits: &mut Vec<Hit<'a>>,
)
    requires
        old(hits)@.len() < results_wanted(c@),
    ensures
        hit_views(final(hits)@) == dictionary_hits(c@, d@, letters@, hit_views(old(hits)@)),
{
    let max = count_wanted(c);
    let ghost h0 = hit_views(hits@);
    let ghost t = d@;
    match d.get_all_exact(letters) {
        Some(exact) => {
            let ghost s = trie::views(exact@);
            let mut exact = exact;
            sort_by_weight(&mut exact);
            proof {
                order::law_arranged_keeps_items(s, trie::heavier());
                assert(trie::views(exact@).len() == s.len());
            }
            let n = if exact.len() < max {
                exact.len()
            } else {
                max
            };
            push_hits(hits, &exact, n, 3);
        },
        None => {
            proof {
                lemma_bytes_of_text(letters@);
            }
            let len = letters.as_bytes().len();
            if c.config.input.enable_prefix_matching && len > 0 {
                let short = len <= 3;
                let keys = complete(d, letters);
                let ghost ks = text::texts(keys@);
                let mut i: usize = 0;
                while i < keys.len()
                    invariant
                        i <= keys.len(),
                        ks == text::texts(keys@),
                        t == d@,
                        hit_views(hits@) == completed_hits(t, h0, ks, short, max as int, i as int),
                    decreases keys.len() - i,
                {
                    proof {
                        assert(ks[i as int] == keys@[i as int]@);
                        assert(hit_views(hits@).len() == hits@.len());
                    }
                    let ghost entries = t.exact(ks[i as int]);
                    let ghost was = hit_views(hits@);
                    if hits.len() < max {
                        match d.get_all_exact(keys[i].as_str()) {
                            Some(v) => {
                                if !(short && !holds_character(&v)) {
                                    let room = max - hits.len();
                                    let n = if v.len() < room {
                                        v.len()
                                    } else {
                                        room
                                    };
                                    push_hits(hits, &v, n, 1);
                                }
                            },
                            None => {
                                proof {
                                    assert(was + on(entries.take(0), 1) =~= was);
                                }
                            },
                        }
                    }
                    i = i + 1;
                }
            }
        },
    }
}

/// Whether one of the glosses of an entry begins with a code.
fn is_glossed(en: &str, code: &str) -> (r: bool)
    ensures
        r == glossed(en@, code@),
{
    let lower = to_lower(en);
    let code_lower = to_lower(code);
    let comma: [char; 1] = [','];
    let glosses = split_at_any(lower.as_str(), &comma);
    let ghost gs = text::texts(glosses@);
    proof {
        assert(comma@ =~= seq![',']);
    }
    let mut i: usize = 0;
    while i < glosses.len()
        invariant
            i <= glosses.len(),
            gs == text::texts(glosses@),
            gs == text::fields(text::lowercase(en@), seq![',']),
            code_lower@ == text::lowercase(code@),
            forall|j: int|
                0 <= j < i ==> !text::begins(
                    text::trimmed(#[trigger] gs[j]),
                    text::lowercase(code@),
                ),
        decreases glosses.len() - i,
    {
        proof {
            assert(gs[i as int] == glosses@[i as int]@);
        }
        let gloss = trim(glosses[i].as_str());
        if starts_with(gloss.as_str(), code_lower.as_str()) {
            return true;
        }
        i = i + 1;
    }
    false
}

/// Whether an entry fits the codes of a part.
fn entry_fits<'a>(p: &ParsedPart, e: &TrieResult<'a>) -> (r: bool)
    ensures
        r == fits_codes(p@, e@),
{
    if let Some(code) = &p.stroke_aux {
        let lower = to_lower(code.as_str());
        let aux = to_lower(e.stroke_aux);
        if !starts_with(aux.as_str(), lower.as_str()) {
            return false;
        }
    }
    if let Some(code) = &p.english_aux {
        if !is_glossed(e.en, code.as_str()) {
            return false;
        }
    }
    true
}

/// Adds what the dictionaries have.
fn add_hits<'a>(c: &SchemeContext<'a>, parts: &Vec<ParsedPart>, g: &mut Gathering)
    ensures
        final(g)@ == with_hits(c@, part_views(parts@), old(g)@),
{
    if parts.len() == 0 {
        return ;
    }
    let last = &parts[parts.len() - 1];
    let ghost ps = part_views(parts@);
    proof {
        assert(ps.last() == last@);
    }
    let letters = last.pinyin.as_str();
    let max = count_wanted(c);
    let ghost cv = c@;
    let mut hits: Vec<Hit<'a>> = Vec::new();
    let mut i: usize = 0;
    proof {
        assert(hit_views(hits@) =~= Seq::<(trie::Entry, u8)>::empty());
    }
    while i < c.active_profiles.len()
        invariant
            i <= c.active_profiles@.len(),
            cv == c@,
            max == results_wanted(cv),
            hit_views(hits@) == profile_hits(cv, letters@, i as int),
        decreases c.active_profiles@.len() - i,
    {
        proof {
            assert(cv.profiles[i as int] == c.active_profiles@[i as int]@);
            assert(hit_views(hits@).len() == hits@.len());
        }
        if hits.len() < max {
            if let Some(d) = c.trie(c.active_profiles[i].as_str()) {
                add_dictionary_hits(c, d, letters, &mut hits);
            }
        }
        i = i + 1;
    }
    let ghost hv = hit_views(hits@);
    let ghost h0 = g@;
    let mut k: usize = 0;
    while k < hits.len()
        invariant
            k <= hits.len(),
            hv == hit_views(hits@),
            g@ == hits_added(h0, last@, hv, k as int),
        decreases hits.len() - k,
    {
        proof {
            assert(hv[k as int] == (hits@[k as int].entry@, hits@[k as int].level));
        }
        if entry_fits(last, &hits[k].entry) {
            let cand = SchemeCandidate::of_entry(&hits[k].entry, hits[k].entry.weight, hits[k].level);
            g.add_first(cand);
        }
        k = k + 1;
    }
}

/// Adds entries that fit the codes of a part, until there are enough.
fn add_entries<'a>(
    g: &mut Gathering,
    part: Option<&ParsedPart>,
    v: &Vec<TrieResult<'a>>,
    level: u8,
    max: usize,
)
    ensures
        final(g)@ == entries_added(
            old(g)@,
            match part {
                Some(p) => Some(p@),
                None => None,
            },
            trie::views(v@),
            level,
            max as int,
            v@.len() as int,
        ),
{
    let ghost h = g@;
    let ghost s = trie::views(v@);
    let ghost pv = match part {
        Some(p) => Some(p@),
        None => None,
    };
    let mut i: usize = 0;
    while i < v.len()
        invariant
            i <= v.len(),
            s == trie::views(v@),
            pv == (match part {
                Some(p) => Some(p@),
                None => None,
            }),
            g@ == entries_added(h, pv, s, level, max as int, i as int),
        decreases v.len() - i,
    {
        proof {
            assert(s[i as int] == v@[i as int]@);
            assert(g@.first.len() == g.first@.len());
        }
        if g.first.len() < max {
            let fits = match part {
                Some(p) => entry_fits(p, &v[i]),
                None => true,
            };
            if fits {
                let cand = SchemeCandidate::of_entry(&v[i], v[i].weight, level);
                g.add_first(cand);
            }
        }
        i = i + 1;
    }
}

/// Adds what an abbreviation gives.
fn add_abbreviation<'a>(
    c: &SchemeContext<'a>,
    d: &Trie,
    parts: &Vec<ParsedPart>,
    letters: &str,
    g: &mut Gathering,
)
    requires
        c@.trie("chinese"@) == Some(d@),
        letters@ == letters_of(part_views(parts@)),
    ensures
        final(g)@ == with_abbreviation(c@, part_views(parts@), old(g)@),
{
    if g.first.len() == 0 && c.config.input.enable_abbreviation_matching {
        let segs = ChineseScheme::segment_for_abbreviation(letters, d);
        if segs.len() > 1 {
            let mut found = d.search_abbreviation_mixed(segs.as_slice(), 200, c.single_syllables);
            sort_by_weight(&mut found);
            let part = if parts.len() > 0 {
                Some(&parts[parts.len() - 1])
            } else {
                None
            };
            proof {
                if parts@.len() > 0 {
                    assert(part_views(parts@).last() == parts@.last()@);
                }
            }
            add_entries(g, part, &found, 2, count_wanted(c));
        }
    }
}

/// Adds what resembling keys give.
fn add_similar<'a>(
    c: &SchemeContext<'a>,
    d: &Trie,
    query: &str,
    parts: &Vec<ParsedPart>,
    letters: &str,
    g: &mut Gathering,
)
    requires
        c@.trie("chinese"@) == Some(d@),
        letters@ == letters_of(part_views(parts@)),
    ensures
        final(g)@ == with_similar(c@, query@, part_views(parts@), old(g)@),
{
    if g.first.len() == 0 && !holds_char(query, ' ') && c.config.options.enable_error_correction {
        let max = count_wanted(c);
        let keys = find_similar_pinyin(
            letters,
            d,
            Some(&c.config.input.fuzzy_config),
            c.syllable_freq,
            c.base_syllables,
        );
        let ghost ks = similarity::match_views(keys@);
        let ghost h = g@;
        let ghost t = d@;
        let mut i: usize = 0;
        while i < keys.len()
            invariant
                i <= keys.len(),
                ks == similarity::match_views(keys@),
                t == d@,
                g@ == similar_added(h, t, ks, max as int, i as int),
            decreases keys.len() - i,
        {
            proof {
                assert(ks[i as int] == keys@[i as int]@);
            }
            if let Some(v) = d.get_all_exact(keys[i].pinyin.as_str()) {
                add_entries(g, None, &v, 1, max);
            }
            i = i + 1;
        }
    }
}

/// Whether a text holds a character.
fn holds_char(s: &str, c: char) -> (r: bool)
    ensures
        r == s@.contains(c),
{
    let v = chars_of(s);
    char_in(c, v.as_slice())
}

/// The words of a row, joined.
fn join_words(words: &Vec<compose::WordSpan>) -> (r: String)
    ensures
        r@ == row_text(compose::spans(words@)),
{
    let ghost s = compose::spans(words@);
    let mut out = String::new();
    let mut i: usize = 0;
    proof {
        assert(s.take(0) =~= Seq::<compose::Span>::empty());
    }
    while i < words.len()
        invariant
            i <= words.len(),
            s == compose::spans(words@),
            out@ == row_text(s.take(i as int)),
        decreases words.len() - i,
    {
        proof {
            assert(s.take(i + 1).drop_last() =~= s.take(i as int));
            assert(s.take(i + 1).last() == words@[i as int]@);
        }
        out.append(words[i].word.as_str());
        i = i + 1;
    }
    proof {
        assert(s.take(s.len() as int) =~= s);
    }
    out
}

/// Adds composed sentences.
fn add_sentences<'a>(
    c: &SchemeContext<'a>,
    d: &Trie,
    query: &str,
    parts: &Vec<ParsedPart>,
    letters: &str,
    g: &mut Gathering,
)
    requires
        c@.trie("chinese"@) == Some(d@),
        letters@ == letters_of(part_views(parts@)),
    ensures
        final(g)@ == with_sentences(c@, query@, part_views(parts@), old(g)@),
{
    if g.first.len() == 0 && !holds_char(query, ' ') && parts.len() > 0 && letters.as_bytes().len()
        <= 24 {
        let max = count_wanted(c);
        proof {
            reveal_strlit("");
            if c.active_profiles@.len() > 0 {
                assert(c@.profiles[0] == c.active_profiles@[0]@);
            }
            assert(""@ =~= Seq::<char>::empty());
        }
        let profile = if c.active_profiles.len() > 0 {
            c.active_profiles[0].as_str()
        } else {
            ""
        };
        let paths = compose::compose(
            letters,
            d,
            c.ngram_history,
            c.syllable_freq,
            c.syllable_score,
            c.base_syllables,
            profile,
        );
        let ghost rs = compose::rows(paths@);
        let ghost h = g@;
        let mut i: usize = 0;
        while i < paths.len()
            invariant
                i <= paths.len(),
                rs == compose::rows(paths@),
                g@ == rows_added(h, rs, max as int, i as int),
            decreases paths.len() - i,
        {
            proof {
                assert(rs[i as int] == paths@[i as int]@);
                assert(g@.first.len() == g.first@.len());
            }
            if g.first.len() < max {
                let score = paths[i].score;
                let weight: u32 = if score > 0xffff_ffff {
                    0xffff_ffff
                } else if score == 0 {
                    1
                } else {
                    score as u32
                };
                let mut cand = SchemeCandidate::new(join_words(&paths[i].words), weight);
                cand.match_level = 3;
                g.add_first(cand);
            }
            i = i + 1;
        }
    }
}

impl ChineseScheme {
    /// The candidates for an input.
    pub fn lookup<'a>(&self, query: &str, context: &SchemeContext<'a>) -> (r: Vec<SchemeCandidate>)
        ensures
            scheme::founds(r@) == looked_up(context@, query@),
    {
        let parts = self.parse_buffer(query);
        let letters = join_letters(&parts);
        let mut g = find_user_words(context, letters.as_str());
        add_hits(context, &parts, &mut g);
        if let Some(d) = context.trie("chinese") {
            add_abbreviation(context, d, &parts, letters.as_str(), &mut g);
            add_similar(context, d, query, &parts, letters.as_str(), &mut g);
            add_sentences(context, d, query, &parts, letters.as_str(), &mut g);
        }
        let ghost h = g@;
        let Gathering { seen: _, first, later } = g;
        let mut out = first;
        let mut later = later;
        let ghost fv = out@;
        let ghost lv = later@;
        out.append(&mut later);
        proof {
            assert(scheme::founds(out@) =~= scheme::founds(fv) + scheme::founds(lv));
        }
        out
    }
}

/// The count of a word, by the last place where it stands.
pub open spec fn last_count(l: Seq<(Seq<char>, u32)>, w: Seq<char>) -> Option<u32>
    decreases l.len(),
{
    if l.len() == 0 {
        None
    } else if l.last().0 == w {
        Some(l.last().1)
    } else {
        last_count(l.drop_last(), w)
    }
}

/// A candidate whose weight is raised, to the highest weight at most.
pub open spec fn raised(f: Found, by: int) -> Found {
    Found { weight: trie::least(u32::MAX as int, f.weight + by) as u32, ..f }
}

/// What a candidate gains from the times that it has followed: nothing without any, and no
/// more than forty times count.
pub open spec fn gained(f: Found, count: Option<u32>, each: int) -> Found {
    match count {
        Some(n) => raised(f, each * trie::least(40, n as int)),
        None => f,
    }
}

/// A candidate with what it gains from the word before, and from the two words before.
pub open spec fn in_context(c: Surroundings, f: Found) -> Found {
    let p = match c.first_profile() {
        Some(profile) => strmap::lookup(c.ngram, profile),
        None => None,
    };
    match p {
        Some(p) => if c.config.options.enable_context_sorting {
            let f1 = match c.last_word {
                Some(w) => match strmap::lookup(p, w) {
                    Some(l) => gained(f, last_count(l, f.simplified), 50000000),
                    None => f,
                },
                None => f,
            };
            match c.last_two {
                Some((a, b)) => match strmap::lookup(p, a + seq!['|'] + b) {
                    Some(l) => gained(f1, strmap::lookup(l, f.simplified), 60000000),
                    None => f1,
                },
                None => f1,
            }
        } else {
            f
        },
        None => f,
    }
}

/// Whether a candidate weighs more than another.
pub open spec fn weightier() -> spec_fn(Found, Found) -> bool {
    |a: Found, b: Found| a.weight > b.weight
}

/// Where a word first stands among candidates, from a place on.
pub open spec fn place_of(s: Seq<Found>, w: Seq<char>, i: int) -> int
    decreases s.len() - i,
{
    if i >= s.len() {
        s.len() as int
    } else if s[i].text == w || s[i].simplified == w {
        i
    } else {
        place_of(s, w, i + 1)
    }
}

/// The candidates with a word moved to the front.
pub open spec fn fronted(s: Seq<Found>, w: Seq<char>) -> Seq<Found> {
    let i = place_of(s, w, 0);
    if i < s.len() {
        seq![s[i]] + s.remove(i)
    } else {
        s
    }
}

/// The candidates with the words of a list in front, in their order.
pub open spec fn recent_first(s: Seq<Found>, words: Seq<Seq<char>>) -> Seq<Found>
    decreases words.len(),
{
    if words.len() == 0 {
        s
    } else {
        fronted(recent_first(s, words.drop_first()), words[0])
    }
}

/// A candidate that shows its traditional form, where it has one.
pub open spec fn in_traditional(f: Found) -> Found {
    if f.traditional.len() > 0 {
        Found { text: f.traditional, ..f }
    } else {
        f
    }
}

/// The candidates with what they gain from the words before.
pub open spec fn weighed(c: Surroundings, s: Seq<Found>) -> Seq<Found> {
    s.map_values(|f: Found| in_context(c, f))
}

/// The candidates with what was used last in front, if that is asked for.
pub open spec fn reordered(c: Surroundings, s: Seq<Found>) -> Seq<Found> {
    let words = match c.first_profile() {
        Some(profile) => strmap::lookup(c.order, profile),
        None => None,
    };
    match words {
        Some(words) => if c.config.input.enable_auto_reorder {
            recent_first(s, words)
        } else {
            s
        },
        None => s,
    }
}

/// The candidates in the traditional form, if that is asked for.
pub open spec fn formed(c: Surroundings, s: Seq<Found>) -> Seq<Found> {
    if c.config.input.enable_traditional {
        s.map_values(|f: Found| in_traditional(f))
    } else {
        s
    }
}

/// The candidates as they are shown: by weight, what was used last in front, and in the
/// traditional form if that is asked for.
pub open spec fn ranked(c: Surroundings, s: Seq<Found>) -> Seq<Found> {
    formed(c, reordered(c, order::arranged(weighed(c, s), weightier())))
}

/// The count of a word, by the last place where it stands.
pub(crate) fn find_last_count(l: &WordList, w: &str) -> (r: Option<u32>)
    ensures
        r == last_count(l@, w@),
{
    let mut i: usize = l.words.len();
    proof {
        assert(l@.take(l@.len() as int) =~= l@);
    }
    while i > 0
        invariant
            i <= l.words.len(),
            last_count(l@, w@) == last_count(l@.take(i as int), w@),
        decreases i,
    {
        proof {
            assert(l@.take(i as int).last() == (l.words@[i - 1].0@, l.words@[i - 1].1));
            assert(l@.take(i as int).drop_last() =~= l@.take(i - 1));
        }
        if same_text(l.words[i - 1].0.as_str(), w) {
            return Some(l.words[i - 1].1);
        }
        i = i - 1;
    }
    None
}

/// Raises the weight of a candidate by what it gains from the times that it has followed.
fn gain_weight(weight: u32, count: Option<u32>, each: u32) -> (r: u32)
    requires
        each <= 60000000,
    ensures
        forall|f: Found|
            f.weight == weight ==> #[trigger] gained(f, count, each as int) == (Found { weight: r, ..f }),
{
    match count {
        None => weight,
        Some(n) => {
            let times: u32 = if n < 40 {
                n
            } else {
                40
            };
            proof {
                assert(each * times <= 60000000 * 40) by (nonlinear_arith)
                    requires
                        each <= 60000000,
                        times <= 40,
                ;
            }
            let boost: u32 = each * times;
            if u32::MAX - weight < boost {
                u32::MAX
            } else {
                weight + boost
            }
        },
    }
}

/// The weight of a candidate with what it gains from the words before.
fn weight_in_context<'a>(c: &SchemeContext<'a>, cand: &SchemeCandidate) -> (r: u32)
    ensures
        in_context(c@, cand@) == (Found { weight: r, ..cand@ }),
{
    if !c.config.options.enable_context_sorting || c.active_profiles.len() == 0 {
        return cand.weight;
    }
    let p = match c.ngram_history.get(c.active_profiles[0].as_str()) {
        Some(p) => p,
        None => {
            return cand.weight;
        },
    };
    let mut weight = cand.weight;
    if let Some(w) = c.last_word {
        if let Some(l) = p.get(w) {
            weight = gain_weight(
                weight,
                find_last_count(l, cand.simplified.as_str()),
                50000000,
            );
        }
    }
    if let Some((a, b)) = c.last_two_words {
        let mut key = a.to_owned();
        key.push('|');
        key.append(b);
        proof {
            assert(key@ =~= a@ + seq!['|'] + b@);
        }
        if let Some(l) = p.get(key.as_str()) {
            weight = gain_weight(weight, l.count_of(cand.simplified.as_str()), 60000000);
        }
    }
    weight
}

/// Whether a candidate weighs more than another.
fn is_weightier(a: &SchemeCandidate, b: &SchemeCandidate) -> (r: bool)
    ensures
        r == (a.weight > b.weight),
{
    a.weight > b.weight
}

/// Moves a word to the front.
fn move_to_front(v: &mut Vec<SchemeCandidate>, w: &str)
    ensures
        scheme::founds(final(v)@) == fronted(scheme::founds(old(v)@), w@),
{
    let ghost s = scheme::founds(v@);
    let mut i: usize = 0;
    while i < v.len() && !(same_text(v[i].text.as_str(), w) || same_text(
        v[i].simplified.as_str(),
        w,
    ))
        invariant
            i <= v.len(),
            s == scheme::founds(v@),
            place_of(s, w@, 0) == place_of(s, w@, i as int),
        decreases v.len() - i,
    {
        i = i + 1;
    }
    if i < v.len() {
        let ghost all = v@;
        let cand = v.remove(i);
        v.insert(0, cand);
        proof {
            assert(s[i as int] == all[i as int]@);
            assert(scheme::founds(v@) =~= seq![s[i as int]] + s.remove(i as int));
        }
    }
}

/// Gives every candidate what it gains from the words before.
fn weigh_all<'a>(candidates: &mut Vec<SchemeCandidate>, context: &SchemeContext<'a>)
    ensures
        scheme::founds(final(candidates)@) == weighed(context@, scheme::founds(old(candidates)@)),
{
    let ghost cv = context@;
    let ghost s = scheme::founds(candidates@);
    let mut i: usize = 0;
    while i < candidates.len()
        invariant
            i <= candidates.len(),
            cv == context@,
            candidates@.len() == s.len(),
            forall|j: int| 0 <= j < i ==> (#[trigger] candidates@[j])@ == in_context(cv, s[j]),
            forall|j: int| i <= j < s.len() ==> (#[trigger] candidates@[j])@ == s[j],
        decreases candidates.len() - i,
    {
        let weight = weight_in_context(context, &candidates[i]);
        let cand = &mut candidates[i];
        cand.weight = weight;
        i = i + 1;
    }
    proof {
        assert(scheme::founds(candidates@) =~= weighed(cv, s));
    }
}

/// Sorts the candidates by weight.
fn put_in_order(candidates: &mut Vec<SchemeCandidate>)
    ensures
        scheme::founds(final(candidates)@) == order::arranged(
            scheme::founds(old(candidates)@),
            weightier(),
        ),
{
    let ghost all = candidates@;
    let ghost lt = |a: SchemeCandidate, b: SchemeCandidate| a.weight > b.weight;
    let ghost g = |c: SchemeCandidate| c@;
    sort_stable(candidates, is_weightier, Ghost(lt));
    proof {
        order::lemma_arranged_map(all, g, lt, weightier());
        assert(scheme::founds(all) =~= all.map_values(g));
        assert(scheme::founds(candidates@) =~= candidates@.map_values(g));
    }
}

/// Moves the words of a list to the front, in their order.
fn put_in_front(candidates: &mut Vec<SchemeCandidate>, l: &OrderList)
    ensures
        scheme::founds(final(candidates)@) == recent_first(scheme::founds(old(candidates)@), l@),
{
    let ghost sorted = scheme::founds(candidates@);
    let ghost ws = l@;
    let mut k: usize = l.words.len();
    proof {
        assert(ws.skip(ws.len() as int) =~= Seq::<Seq<char>>::empty());
    }
    while k > 0
        invariant
            k <= l.words.len(),
            ws == l@,
            scheme::founds(candidates@) == recent_first(sorted, ws.skip(k as int)),
        decreases k,
    {
        proof {
            assert(ws.skip(k - 1)[0] == l.words@[k - 1]@);
            assert(ws.skip(k - 1).drop_first() =~= ws.skip(k as int));
        }
        move_to_front(candidates, l.words[k - 1].as_str());
        k = k - 1;
    }
    proof {
        assert(ws.skip(0) =~= ws);
    }
}

/// Puts what was used last in front, if that is asked for.
fn reorder<'a>(candidates: &mut Vec<SchemeCandidate>, context: &SchemeContext<'a>)
    ensures
        scheme::founds(final(candidates)@) == reordered(context@, scheme::founds(old(candidates)@)),
{
    if context.config.input.enable_auto_reorder && context.active_profiles.len() > 0 {
        if let Some(l) = context.user_order.get(context.active_profiles[0].as_str()) {
            put_in_front(candidates, l);
        }
    }
}

/// Shows the traditional form of the candidates that have one, if that is asked for.
fn choose_form<'a>(candidates: &mut Vec<SchemeCandidate>, context: &SchemeContext<'a>)
    ensures
        scheme::founds(final(candidates)@) == formed(context@, scheme::founds(old(candidates)@)),
{
    if context.config.input.enable_traditional {
        show_traditional(candidates);
    }
}

/// Shows the traditional form of the candidates that have one.
fn show_traditional(candidates: &mut Vec<SchemeCandidate>)
    ensures
        scheme::founds(final(candidates)@) == scheme::founds(old(candidates)@).map_values(
            |f: Found| in_traditional(f),
        ),
{
    let ghost recent = scheme::founds(candidates@);
    let mut k: usize = 0;
    while k < candidates.len()
        invariant
            k <= candidates.len(),
            candidates@.len() == recent.len(),
            forall|j: int| 0 <= j < k ==> (#[trigger] candidates@[j])@ == in_traditional(recent[j]),
            forall|j: int| k <= j < recent.len() ==> (#[trigger] candidates@[j])@ == recent[j],
        decreases candidates.len() - k,
    {
        proof {
            lemma_bytes_of_text(candidates@[k as int].traditional@);
        }
        if candidates[k].traditional.as_str().as_bytes().len() > 0 {
            let t = candidates[k].traditional.clone();
            let cand = &mut candidates[k];
            cand.text = t;
        }
        k = k + 1;
    }
    proof {
        assert(scheme::founds(candidates@) =~= recent.map_values(|f: Found| in_traditional(f)));
    }
}

impl ChineseScheme {
    /// Ranks the candidates.
    pub fn post_process<'a>(
        &self,
        _query: &str,
        candidates: &mut Vec<SchemeCandidate>,
        context: &SchemeContext<'a>,
    )
        ensures
            scheme::founds(final(candidates)@) == ranked(
                context@,
                scheme::founds(old(candidates)@),
            ),
    {
        weigh_all(candidates, context);
        put_in_order(candidates);
        reorder(candidates, context);
        choose_form(candidates, context);
    }
}

/// Whether no word is found twice, and every word found has been seen.
pub open spec fn tidy(h: Finds) -> bool {
    &&& each_once(h.first + h.later)
    &&& forall|i: int|
        0 <= i < (h.first + h.later).len() ==> h.seen.contains((#[trigger] (h.first + h.later)[i]).text)
}

/// Whether no two candidates show the same text.
pub open spec fn each_once(s: Seq<Found>) -> bool {
    forall|i: int, j: int| 0 <= i < j < s.len() ==> (#[trigger] s[i]).text != (#[trigger] s[j]).text
}

proof fn lemma_tidy(h: Finds, c: Found)
    requires
        tidy(h),
    ensures
        tidy(h.with_first(c)),
        tidy(h.with_later(c)),
{
    if !h.seen.contains(c.text) {
        let s = h.first + h.later;
        let n = h.first.len() as int;
        let a = h.with_first(c).first + h.with_first(c).later;
        assert forall|i: int| 0 <= i < a.len() implies #[trigger] a[i] == (if i < n {
            s[i]
        } else if i == n {
            c
        } else {
            s[i - 1]
        }) by {}
        assert(each_once(a));
        let b = h.with_later(c).first + h.with_later(c).later;
        assert(b =~= s.push(c));
    }
}

proof fn lemma_user_words_tidy(
    h: Finds,
    t: Option<TrieView>,
    words: Seq<(Seq<char>, u32)>,
    key: Seq<char>,
    threshold: u32,
    in_front: bool,
    n: int,
)
    requires
        tidy(h),
    ensures
        tidy(user_words_added(h, t, words, key, threshold, in_front, n)),
    decreases n,
{
    if n > 0 {
        lemma_user_words_tidy(h, t, words, key, threshold, in_front, n - 1);
        let before = user_words_added(h, t, words, key, threshold, in_front, n - 1);
        let (word, weight) = words[n - 1];
        lemma_tidy(before, user_candidate(t, word, key, weight, 3));
        lemma_tidy(before, user_candidate(t, word, key, lessened(weight), 0));
    }
}

proof fn lemma_user_keys_tidy(
    h: Finds,
    t: Option<TrieView>,
    p: userdict::ProfileWords,
    keys: Seq<Seq<char>>,
    threshold: u32,
    n: int,
)
    requires
        tidy(h),
    ensures
        tidy(user_keys_added(h, t, p, keys, threshold, n)),
    decreases n,
{
    if n > 0 {
        lemma_user_keys_tidy(h, t, p, keys, threshold, n - 1);
        let before = user_keys_added(h, t, p, keys, threshold, n - 1);
        match strmap::lookup(p, keys[n - 1]) {
            None => {},
            Some(words) => {
                lemma_user_words_tidy(
                    before,
                    t,
                    words,
                    keys[n - 1],
                    threshold,
                    false,
                    words.len() as int,
                );
            },
        }
    }
}

proof fn lemma_abbreviated_tidy(
    h: Finds,
    t: TrieView,
    p: userdict::ProfileWords,
    segs: Seq<(Seq<char>, bool)>,
    singles: Set<Seq<char>>,
    threshold: u32,
    n: int,
)
    requires
        tidy(h),
    ensures
        tidy(abbreviated_added(h, t, p, segs, singles, threshold, n)),
    decreases n,
{
    if n > 0 {
        lemma_abbreviated_tidy(h, t, p, segs, singles, threshold, n - 1);
        let before = abbreviated_added(h, t, p, segs, singles, threshold, n - 1);
        let (key, words) = p[n - 1];
        lemma_user_words_tidy(before, Some(t), words, key, threshold, false, words.len() as int);
    }
}

proof fn lemma_hits_tidy(h: Finds, p: Part, hits: Seq<(trie::Entry, u8)>, n: int)
    requires
        tidy(h),
    ensures
        tidy(hits_added(h, p, hits, n)),
    decreases n,
{
    if n > 0 {
        lemma_hits_tidy(h, p, hits, n - 1);
        let (e, level) = hits[n - 1];
        lemma_tidy(hits_added(h, p, hits, n - 1), scheme::offered(e, e.weight, level));
    }
}

proof fn lemma_entries_tidy(h: Finds, p: Option<Part>, s: Seq<trie::Entry>, level: u8, max: int, n: int)
    requires
        tidy(h),
    ensures
        tidy(entries_added(h, p, s, level, max, n)),
    decreases n,
{
    if n > 0 {
        lemma_entries_tidy(h, p, s, level, max, n - 1);
        lemma_tidy(
            entries_added(h, p, s, level, max, n - 1),
            scheme::offered(s[n - 1], s[n - 1].weight, level),
        );
    }
}

proof fn lemma_similar_tidy(h: Finds, t: TrieView, keys: Seq<(Seq<char>, u128)>, max: int, n: int)
    requires
        tidy(h),
    ensures
        tidy(similar_added(h, t, keys, max, n)),
    decreases n,
{
    if n > 0 {
        lemma_similar_tidy(h, t, keys, max, n - 1);
        let s = t.exact(keys[n - 1].0);
        lemma_entries_tidy(similar_added(h, t, keys, max, n - 1), None, s, 1, max, s.len() as int);
    }
}

proof fn lemma_rows_tidy(h: Finds, rows: Seq<compose::Row>, max: int, n: int)
    requires
        tidy(h),
    ensures
        tidy(rows_added(h, rows, max, n)),
    decreases n,
{
    if n > 0 {
        lemma_rows_tidy(h, rows, max, n - 1);
        let row = rows[n - 1];
        lemma_tidy(
            rows_added(h, rows, max, n - 1),
            Found { match_level: 3, ..scheme::plain(row_text(row.words), row_weight(row.score)) },
        );
    }
}

/// No two candidates for an input show the same word.
pub proof fn law_every_word_once(c: Surroundings, query: Seq<char>)
    ensures
        each_once(looked_up(c, query)),
{
    let none = Finds { seen: Set::empty(), first: Seq::empty(), later: Seq::empty() };
    assert(tidy(none));
    let parts = parts_of(query);
    let letters = letters_of(parts);
    let t = c.trie("chinese"@);
    let threshold = c.config.options.word_learn_threshold;
    let max = results_wanted(c);
    let h0 = user_finds(c, letters);
    assert(tidy(h0)) by {
        match c.first_profile() {
            None => {},
            Some(profile) => match strmap::lookup(c.user_dict, profile) {
                None => {},
                Some(p) => {
                    match strmap::lookup(p, letters) {
                        Some(words) => {
                            lemma_user_words_tidy(
                                none,
                                t,
                                words,
                                letters,
                                threshold,
                                true,
                                words.len() as int,
                            );
                        },
                        None => {
                            let keys = order::arranged(
                                keys_of(p).filter(slightly_longer(letters)),
                                shorter(),
                            );
                            lemma_user_keys_tidy(none, t, p, keys, threshold, keys.len() as int);
                        },
                    }
                    match t {
                        None => {},
                        Some(t) => {
                            let segs = abbreviated(t, letters, 0);
                            lemma_abbreviated_tidy(
                                none,
                                t,
                                p,
                                segs,
                                c.singles,
                                threshold,
                                p.len() as int,
                            );
                        },
                    }
                },
            },
        }
    }
    let h1 = with_hits(c, parts, h0);
    if parts.len() > 0 {
        let hits = profile_hits(c, parts.last().pinyin, c.profiles.len() as int);
        lemma_hits_tidy(h0, parts.last(), hits, hits.len() as int);
    }
    match t {
        None => {},
        Some(t) => {
            let h2 = with_abbreviation(c, parts, h1);
            let segs = abbreviated(t, letters, 0);
            let s = order::arranged(t.abbreviation_mixed(segs, c.singles), trie::heavier());
            let p = if parts.len() > 0 {
                Some(parts.last())
            } else {
                None
            };
            lemma_entries_tidy(h1, p, s, 2, max, s.len() as int);
            let h3 = with_similar(c, query, parts, h2);
            let keys = similarity::similar(
                t,
                letters,
                Some(c.config.input.fuzzy_config),
                c.syllables(),
            );
            lemma_similar_tidy(h2, t, keys, max, keys.len() as int);
            let profile = match c.first_profile() {
                Some(p) => p,
                None => Seq::empty(),
            };
            let rows = compose::composed(
                t,
                c.syllables(),
                compose::Habit { scores: c.scores, ngram: c.ngram, profile },
                letters,
            );
            lemma_rows_tidy(h3, rows, max, rows.len() as int);
        },
    }
}

proof fn lemma_place_of(s: Seq<Found>, w: Seq<char>, i: int)
    requires
        0 <= i <= s.len(),
    ensures
        i <= place_of(s, w, i) <= s.len(),
        place_of(s, w, i) < s.len() ==> s[place_of(s, w, i)].text == w || s[place_of(
            s,
            w,
            i,
        )].simplified == w,
        place_of(s, w, i) == s.len() ==> forall|k: int|
            i <= k < s.len() ==> (#[trigger] s[k]).text != w && s[k].simplified != w,
    decreases s.len() - i,
{
    if i < s.len() {
        lemma_place_of(s, w, i + 1);
    }
}

proof fn lemma_fronted_keeps(s: Seq<Found>, w: Seq<char>)
    ensures
        fronted(s, w).to_multiset() =~= s.to_multiset(),
{
    broadcast use vstd::seq_lib::group_to_multiset_ensures;

    lemma_place_of(s, w, 0);
    let i = place_of(s, w, 0);
    if i < s.len() {
        assert(s.remove(i).insert(0, s[i]) =~= fronted(s, w));
        assert(s =~= s.remove(i).insert(i, s[i]));
    }
}

/// Moving what was used last to the front keeps the candidates.
pub proof fn law_reordering_keeps_candidates(s: Seq<Found>, words: Seq<Seq<char>>)
    ensures
        recent_first(s, words).to_multiset() =~= s.to_multiset(),
    decreases words.len(),
{
    if words.len() > 0 {
        law_reordering_keeps_candidates(s, words.drop_first());
        lemma_fronted_keeps(recent_first(s, words.drop_first()), words[0]);
    }
}

/// The word used last stands in front whenever it is a candidate.
pub proof fn law_last_used_comes_first(s: Seq<Found>, words: Seq<Seq<char>>, k: int)
    requires
        words.len() > 0,
        0 <= k < s.len(),
        s[k].text == words[0] || s[k].simplified == words[0],
    ensures
        recent_first(s, words)[0].text == words[0] || recent_first(s, words)[0].simplified
            == words[0],
{
    broadcast use vstd::seq_lib::group_to_multiset_ensures;

    let r = recent_first(s, words.drop_first());
    law_reordering_keeps_candidates(s, words.drop_first());
    assert(s.contains(s[k]));
    assert(s.to_multiset().count(s[k]) > 0);
    assert(r.contains(s[k]));
    lemma_place_of(r, words[0], 0);
}

/// The text of a row is that of its words in their order: that of two rows, one behind the other,
/// is the text of the first and then that of the second, and that of one word is the word.
pub proof fn law_row_text_is_in_order(a: Seq<compose::Span>, b: Seq<compose::Span>, x: compose::Span)
    ensures
        row_text(a + b) == row_text(a) + row_text(b),
        row_text(seq![x]) == x.word,
    decreases b.len(),
{
    assert(seq![x].drop_last() =~= Seq::<compose::Span>::empty());
    assert(row_text(seq![x].drop_last()) + x.word =~= x.word);
    if b.len() == 0 {
        assert(a + b =~= a);
        assert(row_text(a) + row_text(b) =~= row_text(a));
    } else {
        law_row_text_is_in_order(a, b.drop_last(), x);
        assert((a + b).drop_last() =~= a + b.drop_last());
        assert(row_text(a) + row_text(b.drop_last()) + b.last().word =~= row_text(a) + row_text(b));
    }
}

proof fn lemma_rows_added(h: Finds, rows: Seq<compose::Row>, max: int, n: int)
    requires
        0 <= n <= rows.len(),
    ensures
        ({
            let r = rows_added(h, rows, max, n);
            &&& r.later == h.later
            &&& r.first.len() >= h.first.len()
            &&& forall|i: int| 0 <= i < h.first.len() ==> r.first[i] == h.first[i]
            &&& forall|i: int|
                h.first.len() <= i < r.first.len() ==> exists|x: int|
                    0 <= x < n && (#[trigger] r.first[i]).text == row_text((#[trigger] rows[x]).words)
        }),
    decreases n,
{
    if n > 0 {
        lemma_rows_added(h, rows, max, n - 1);
        let b = rows_added(h, rows, max, n - 1);
        let r = rows_added(h, rows, max, n);
        assert forall|i: int| h.first.len() <= i < r.first.len() implies exists|x: int|
            0 <= x < n && (#[trigger] r.first[i]).text == row_text((#[trigger] rows[x]).words) by {
            if i < b.first.len() {
                assert(r.first[i] == b.first[i]);
                let x = choose|x: int|
                    0 <= x < n - 1 && b.first[i].text == row_text((#[trigger] rows[x]).words);
                assert(r.first[i].text == row_text(rows[x].words));
            } else {
                assert(r.first[i].text == row_text(rows[n - 1].words));
            }
        }
    }
}

proof fn lemma_first_row_leads(h: Finds, rows: Seq<compose::Row>, max: int, n: int)
    requires
        0 < n <= rows.len(),
        h.first.len() == 0,
        max > 0,
        !h.seen.contains(row_text(rows[0].words)),
    ensures
        rows_added(h, rows, max, n).first.len() > 0,
        rows_added(h, rows, max, n).first[0].text == row_text(rows[0].words),
    decreases n,
{
    if n > 1 {
        lemma_first_row_leads(h, rows, max, n - 1);
    } else {
        assert(rows_added(h, rows, max, 0) == h);
    }
}

/// The rows of words over an input.
pub open spec fn rows_for(c: Surroundings, t: TrieView, input: Seq<char>) -> Seq<compose::Row> {
    compose::composed(
        t,
        c.syllables(),
        compose::Habit {
            scores: c.scores,
            ngram: c.ngram,
            profile: match c.first_profile() {
                Some(p) => p,
                None => Seq::empty(),
            },
        },
        input,
    )
}

/// Where nothing else is found for what was typed, every candidate is a sentence: its text is that
/// of a row of words over the letters, and the best row comes first.
pub proof fn law_sentences_are_rows_of_words(c: Surroundings, query: Seq<char>, t: TrieView)
    requires
        c.trie("chinese"@) == Some(t),
        !query.contains(' '),
        parts_of(query).len() > 0,
        text::byte_len(letters_of(parts_of(query))) <= 24,
        ({
            let parts = parts_of(query);
            let h = with_similar(
                c,
                query,
                parts,
                with_abbreviation(
                    c,
                    parts,
                    with_hits(c, parts, user_finds(c, letters_of(parts))),
                ),
            );
            &&& h.first.len() == 0
            &&& h.later.len() == 0
            &&& h.seen.is_empty()
        }),
    ensures
        ({
            let rows = rows_for(c, t, letters_of(parts_of(query)));
            let found = looked_up(c, query);
            &&& forall|i: int|
                0 <= i < found.len() ==> exists|x: int|
                    0 <= x < rows.len() && (#[trigger] found[i]).text == row_text(
                        (#[trigger] rows[x]).words,
                    )
            &&& rows.len() > 0 ==> found.len() > 0 && found[0].text == row_text(rows[0].words)
        }),
{
    let parts = parts_of(query);
    let h = with_similar(
        c,
        query,
        parts,
        with_abbreviation(c, parts, with_hits(c, parts, user_finds(c, letters_of(parts)))),
    );
    let rows = rows_for(c, t, letters_of(parts));
    let max = results_wanted(c);
    lemma_rows_added(h, rows, max, rows.len() as int);
    let r = rows_added(h, rows, max, rows.len() as int);
    assert(r.first + r.later =~= r.first);
    assert(looked_up(c, query) =~= r.first);
    if rows.len() > 0 {
        lemma_first_row_leads(h, rows, max, rows.len() as int);
    }
}

} // verus!
